//! The row formatter: one row of bytes as an offset, hex and ASCII line.
use vstd::prelude::*;
use crate::hex::{hex_digits, hex_pair, push_hex_digits, push_hex_pair};

verus! {

/// Number of bytes in a full row.
pub const ROW_LEN: usize = 16;

/// A byte is shown as itself when it is a visible ASCII character
/// (33 through 126; the space is not counted as visible).
pub open spec fn printable(b: u8) -> bool {
    33 <= b <= 126
}

/// The ASCII column's character for one byte.
pub open spec fn ascii_cell(b: u8) -> u8 {
    if printable(b) {
        b
    } else {
        46
    }
}

/// The ASCII column of a row.
pub open spec fn ascii_field(r: Seq<u8>) -> Seq<u8> {
    r.map_values(|b: u8| ascii_cell(b))
}

/// The hex column of a row: two digits per byte, with a space after
/// every second byte.
pub open spec fn hex_field(r: Seq<u8>) -> Seq<u8>
    decreases r.len(),
{
    if r.len() == 0 {
        Seq::empty()
    } else {
        let sep = if (r.len() - 1) % 2 == 1 {
            seq![32u8]
        } else {
            Seq::empty()
        };
        hex_field(r.drop_last()) + hex_pair(r.last()) + sep
    }
}

/// The digits of a row with no separators, as the raw mode shows them.
pub open spec fn raw_hex(r: Seq<u8>) -> Seq<u8>
    decreases r.len(),
{
    if r.len() == 0 {
        Seq::empty()
    } else {
        raw_hex(r.drop_last()) + hex_pair(r.last())
    }
}

/// The offset column: eight lowercase hex digits.
pub open spec fn offset_field(offset: nat) -> Seq<u8> {
    hex_digits(offset, 8)
}

/// A full formatted line (without its line terminator):
/// `oooooooo: hhhh hhhh ... aaaa`.
pub open spec fn format_line(r: Seq<u8>, offset: nat) -> Seq<u8> {
    offset_field(offset) + seq![58u8, 32u8] + hex_field(r) + seq![32u8] + ascii_field(r)
}

/// Whether a byte is shown as itself in the ASCII column.
pub fn is_ascii_printable(b: u8) -> (r: bool)
    ensures
        r == printable(b),
{
    33 <= b && b <= 126
}

/// The character shown for a byte in the ASCII column.
pub fn ascii_char(b: u8) -> (c: u8)
    ensures
        c == ascii_cell(b),
{
    if is_ascii_printable(b) {
        b
    } else {
        46u8
    }
}

/// Appends the hex column of `row` to `out`.
fn push_hex_field(out: &mut Vec<u8>, row: &[u8])
    ensures
        final(out)@ == old(out)@ + hex_field(row@),
{
    let mut i: usize = 0;
    while i < row.len()
        invariant
            i <= row@.len(),
            out@ == old(out)@ + hex_field(row@.take(i as int)),
        decreases row.len() - i,
    {
        push_hex_pair(out, row[i]);
        if i % 2 == 1 {
            out.push(32u8);
        }
        assert(row@.take(i + 1).drop_last() =~= row@.take(i as int));
        assert(out@ =~= old(out)@ + hex_field(row@.take(i + 1)));
        i = i + 1;
    }
    assert(row@.take(i as int) =~= row@);
}

/// Appends the ASCII column of `row` to `out`.
fn push_ascii_field(out: &mut Vec<u8>, row: &[u8])
    ensures
        final(out)@ == old(out)@ + ascii_field(row@),
{
    let mut i: usize = 0;
    while i < row.len()
        invariant
            i <= row@.len(),
            out@ == old(out)@ + ascii_field(row@.take(i as int)),
        decreases row.len() - i,
    {
        out.push(ascii_char(row[i]));
        assert(out@ =~= old(out)@ + ascii_field(row@.take(i + 1)));
        i = i + 1;
    }
    assert(row@.take(i as int) =~= row@);
}

/// Appends the raw digits of `row` to `out`.
pub fn push_raw_hex(out: &mut Vec<u8>, row: &[u8])
    ensures
        final(out)@ == old(out)@ + raw_hex(row@),
{
    let mut i: usize = 0;
    while i < row.len()
        invariant
            i <= row@.len(),
            out@ == old(out)@ + raw_hex(row@.take(i as int)),
        decreases row.len() - i,
    {
        push_hex_pair(out, row[i]);
        assert(row@.take(i + 1).drop_last() =~= row@.take(i as int));
        assert(out@ =~= old(out)@ + raw_hex(row@.take(i + 1)));
        i = i + 1;
    }
    assert(row@.take(i as int) =~= row@);
}

/// Appends the formatted line for `row`, which starts at `offset`, to `out`.
pub fn push_row(out: &mut Vec<u8>, row: &[u8], offset: u32)
    ensures
        final(out)@ == old(out)@ + format_line(row@, offset as nat),
{
    push_hex_digits(out, offset, 8);
    out.push(58u8);
    out.push(32u8);
    push_hex_field(out, row);
    out.push(32u8);
    push_ascii_field(out, row);
    assert(final(out)@ =~= old(out)@ + format_line(row@, offset as nat));
}

/// The formatted line (without terminator) for `row`, which starts at `offset`.
pub fn format_row(row: &[u8], offset: u32) -> (line: Vec<u8>)
    ensures
        line@ == format_line(row@, offset as nat),
{
    let mut line: Vec<u8> = Vec::new();
    push_row(&mut line, row, offset);
    assert(line@ =~= format_line(row@, offset as nat));
    line
}

/// The raw digits of `row`, with no offset, separators or ASCII column.
pub fn format_raw_row(row: &[u8]) -> (line: Vec<u8>)
    ensures
        line@ == raw_hex(row@),
{
    let mut line: Vec<u8> = Vec::new();
    push_raw_hex(&mut line, row);
    assert(line@ =~= raw_hex(row@));
    line
}

} // verus!
