//! The patch driver's logic: parsing the target offset and the replacement
//! tokens, deciding per row, and the patched result of a whole stream.
use vstd::prelude::*;
use crate::error::HexViewError;
use crate::hex::{hex_number, hex_val, hex_value, is_hex_digit};
use crate::import::{pair_value, prefix_end, prepend};
use crate::reader::{row_at, row_count, ChunkReader, Row};

verus! {

/// Every byte of `s` is a hex digit.
pub open spec fn all_hex(s: Seq<u8>) -> bool {
    forall|i: int| 0 <= i < s.len() ==> is_hex_digit(#[trigger] s[i])
}

/// The offset text is `0x` followed by one or more hex digits whose value
/// fits in 32 bits.
pub open spec fn offset_ok(s: Seq<u8>) -> bool {
    &&& s.len() > 2
    &&& s[0] == 48
    &&& s[1] == 120
    &&& all_hex(s.skip(2))
    &&& hex_number(s.skip(2)) <= u32::MAX
}

proof fn lemma_hex_number_grows(s: Seq<u8>, i: int)
    requires
        0 <= i <= s.len(),
    ensures
        hex_number(s.take(i)) <= hex_number(s),
    decreases s.len() - i,
{
    if i < s.len() {
        lemma_hex_number_grows(s, i + 1);
        assert(s.take(i + 1).drop_last() =~= s.take(i));
    } else {
        assert(s.take(i) =~= s);
    }
}

/// Parses a patch offset written as `0x` and hex digits (either case).
pub fn parse_offset(s: &[u8]) -> (r: Result<u32, HexViewError>)
    ensures
        offset_ok(s@) ==> r == Ok::<u32, HexViewError>(hex_number(s@.skip(2)) as u32),
        !offset_ok(s@) ==> r == Err::<u32, HexViewError>(HexViewError::MalformedOffset),
{
    if s.len() <= 2 || s[0] != 48 || s[1] != 120 {
        return Err(HexViewError::MalformedOffset);
    }
    let ghost digits = s@.skip(2);
    let mut acc: u64 = 0;
    let mut i: usize = 2;
    while i < s.len()
        invariant
            2 <= i <= s@.len(),
            digits == s@.skip(2),
            all_hex(digits.take(i - 2)),
            acc as nat == hex_number(digits.take(i - 2)),
            acc <= u32::MAX,
        decreases s.len() - i,
    {
        assert(digits.take(i - 1).drop_last() =~= digits.take(i - 2));
        match hex_value(s[i]) {
            Some(d) => {
                acc = acc * 16 + d as u64;
                if acc > 0xffff_ffff {
                    proof {
                        lemma_hex_number_grows(digits, i - 1);
                    }
                    return Err(HexViewError::MalformedOffset);
                }
            },
            None => {
                assert(!is_hex_digit(digits[i - 2]));
                return Err(HexViewError::MalformedOffset);
            },
        }
        i = i + 1;
    }
    assert(digits.take(i - 2) =~= digits);
    Ok(acc as u32)
}

/// The bytes spelled by replacement tokens: two hex digits each, separated
/// by single spaces. `None` for an empty line or any other shape.
pub open spec fn decode_tokens(s: Seq<u8>) -> Option<Seq<u8>>
    decreases s.len(),
{
    if s.len() < 2 || !is_hex_digit(s[0]) || !is_hex_digit(s[1]) {
        None
    } else if s.len() == 2 {
        Some(seq![pair_value(s[0], s[1])])
    } else if s[2] == 32 {
        prepend(seq![pair_value(s[0], s[1])], decode_tokens(s.subrange(3, s.len() as int)))
    } else {
        None
    }
}

/// Parses one line of replacement tokens, such as `AA BB`.
pub fn parse_replacement(line: &[u8]) -> (r: Result<Vec<u8>, HexViewError>)
    ensures
        match decode_tokens(line@) {
            Some(b) => r is Ok && r->Ok_0@ == b,
            None => r == Err::<Vec<u8>, HexViewError>(HexViewError::MalformedHexToken),
        },
{
    let mut out: Vec<u8> = Vec::new();
    let mut i: usize = 0;
    assert(line@.subrange(0, line@.len() as int) =~= line@);
    proof {
        if decode_tokens(line@) is Some {
            assert(out@ + decode_tokens(line@)->0 =~= decode_tokens(line@)->0);
        }
    }
    loop
        invariant
            i <= line@.len(),
            decode_tokens(line@) == prepend(
                out@,
                decode_tokens(line@.subrange(i as int, line@.len() as int)),
            ),
        decreases line.len() - i,
    {
        let ghost rest = line@.subrange(i as int, line@.len() as int);
        if line.len() - i < 2 {
            return Err(HexViewError::MalformedHexToken);
        }
        let hi = hex_value(line[i]);
        let lo = hex_value(line[i + 1]);
        if hi.is_none() || lo.is_none() {
            return Err(HexViewError::MalformedHexToken);
        }
        let b: u8 = hi.unwrap() * 16 + lo.unwrap();
        let ghost o = out@;
        out.push(b);
        if i + 2 == line.len() {
            assert(o + seq![b] =~= out@);
            return Ok(out);
        }
        if line[i + 2] != 32 {
            return Err(HexViewError::MalformedHexToken);
        }
        assert(rest.subrange(3, rest.len() as int) =~= line@.subrange(
            i + 3,
            line@.len() as int,
        ));
        proof {
            let tail = decode_tokens(line@.subrange(i + 3, line@.len() as int));
            if tail is Some {
                assert(o + (seq![b] + tail->0) =~= out@ + tail->0);
            }
        }
        i = i + 3;
    }
}

/// What the driver does with one row.
#[derive(Debug, Clone, Copy, PartialEq, Eq, Structural)]
pub enum RowAction {
    /// Copy the row's bytes through unchanged.
    Copy,
    /// Ask for replacement bytes and write them instead of the row.
    Replace,
}

/// The row that starts exactly at the target offset is replaced; every other
/// row is copied.
pub fn patch_action(row: &Row, target: u32) -> (a: RowAction)
    ensures
        a == (if row.offset == target {
            RowAction::Replace
        } else {
            RowAction::Copy
        }),
{
    if row.offset == target {
        RowAction::Replace
    } else {
        RowAction::Copy
    }
}

/// A row with replacement bytes laid over it from its first byte: bytes of
/// the row past the end of `rep` are kept, bytes of `rep` past the end of the
/// row are dropped. The row keeps its length.
pub open spec fn overlay(row: Seq<u8>, rep: Seq<u8>) -> Seq<u8> {
    Seq::new(row.len(), |i: int| if i < rep.len() { rep[i] } else { row[i] })
}

/// The patched stream: when `target` is the start of a row of `s`, `rep` is
/// laid over that row; every other byte is kept. The length never changes.
pub open spec fn patched(s: Seq<u8>, target: nat, rep: Seq<u8>) -> Seq<u8> {
    Seq::new(
        s.len(),
        |i: int|
            if target % 16 == 0 && target <= i < target + 16 && i - target < rep.len() {
                rep[i - target]
            } else {
                s[i]
            },
    )
}

/// The output for the first `n` rows of `s`, row by row.
pub open spec fn patched_rows(s: Seq<u8>, n: nat, target: nat, rep: Seq<u8>) -> Seq<u8>
    decreases n,
{
    if n == 0 {
        Seq::empty()
    } else {
        let m = (n - 1) as nat;
        let piece = if 16 * m == target {
            overlay(row_at(s, m), rep)
        } else {
            row_at(s, m)
        };
        patched_rows(s, m, target, rep) + piece
    }
}

proof fn lemma_same_row(t: int, lo: int, i: int)
    requires
        0 <= t,
        0 <= lo,
        lo % 16 == 0,
        lo <= i < lo + 16,
    ensures
        (t % 16 == 0 && t <= i < t + 16) <==> t == lo,
{
}

proof fn lemma_patched_rows(s: Seq<u8>, n: nat, target: nat, rep: Seq<u8>)
    requires
        n <= row_count(s.len()),
    ensures
        patched_rows(s, n, target, rep) == patched(s, target, rep).take(prefix_end(s.len(), n)),
    decreases n,
{
    let len = s.len();
    if n == 0 {
        assert(patched_rows(s, n, target, rep) =~= patched(s, target, rep).take(0));
    } else {
        let m = (n - 1) as nat;
        lemma_patched_rows(s, m, target, rep);
        assert(16 * m < len) by (nonlinear_arith)
            requires
                m < n <= (len + 15) / 16,
        ;
        let lo = 16 * m as int;
        let hi = prefix_end(len, n);
        assert(prefix_end(len, m) == lo);
        assert forall|i: int| lo <= i < hi implies #[trigger] patched(s, target, rep)[i] == (if 16
            * m == target {
            overlay(row_at(s, m), rep)[i - lo]
        } else {
            row_at(s, m)[i - lo]
        }) by {
            lemma_same_row(target as int, lo, i);
        }
        assert(patched_rows(s, n, target, rep) =~= patched(s, target, rep).take(hi));
    }
}

/// Appends `src` to `out`.
fn push_all(out: &mut Vec<u8>, src: &[u8])
    ensures
        final(out)@ == old(out)@ + src@,
{
    let mut i: usize = 0;
    while i < src.len()
        invariant
            i <= src@.len(),
            out@ == old(out)@ + src@.take(i as int),
        decreases src.len() - i,
    {
        out.push(src[i]);
        assert(out@ =~= old(out)@ + src@.take(i + 1));
        i = i + 1;
    }
    assert(src@.take(i as int) =~= src@);
}

/// The bytes written for the replaced row: `rep` laid over the row.
pub fn replace_row(row: &[u8], rep: &[u8]) -> (out: Vec<u8>)
    ensures
        out@ == overlay(row@, rep@),
{
    let mut out: Vec<u8> = Vec::new();
    let mut k: usize = 0;
    while k < row.len()
        invariant
            k <= row@.len(),
            out@ == overlay(row@, rep@).take(k as int),
        decreases row.len() - k,
    {
        if k < rep.len() {
            out.push(rep[k]);
        } else {
            out.push(row[k]);
        }
        assert(out@ =~= overlay(row@, rep@).take(k + 1));
        k = k + 1;
    }
    assert(overlay(row@, rep@).take(k as int) =~= overlay(row@, rep@));
    out
}

/// Appends what the driver writes for one row.
fn push_patched_row(out: &mut Vec<u8>, row: &Row, target: u32, rep: &[u8])
    ensures
        final(out)@ == old(out)@ + (if row.offset == target {
            overlay(row.bytes@, rep@)
        } else {
            row.bytes@
        }),
{
    match patch_action(row, target) {
        RowAction::Replace => {
            let replaced = replace_row(row.bytes.as_slice(), rep);
            push_all(out, replaced.as_slice());
        },
        RowAction::Copy => push_all(out, row.bytes.as_slice()),
    }
}

/// The whole stream `data` with the row at `target` replaced by `rep`.
pub fn patch(data: &[u8], target: u32, rep: &[u8]) -> (out: Vec<u8>)
    requires
        data@.len() <= u32::MAX,
    ensures
        out@ == patched(data@, target as nat, rep@),
{
    let mut reader = ChunkReader::new();
    let rows = reader.feed(data);
    assert(reader@ =~= data@);
    let ghost s = data@;
    let ghost k0 = rows@.len();
    let mut out: Vec<u8> = Vec::new();
    let mut j: usize = 0;
    while j < rows.len()
        invariant
            j <= rows@.len(),
            s == data@,
            k0 == rows@.len(),
            k0 == s.len() / 16,
            forall|m: int|
                #![trigger rows@[m]]
                0 <= m < rows@.len() ==> {
                    &&& rows@[m].offset as nat == 16 * m
                    &&& rows@[m].bytes@ == row_at(s, m as nat)
                },
            out@ == patched_rows(s, j as nat, target as nat, rep@),
        decreases rows.len() - j,
    {
        let row = &rows[j];
        push_patched_row(&mut out, row, target, rep);
        assert(out@ == patched_rows(s, (j + 1) as nat, target as nat, rep@));
        j = j + 1;
    }
    let ghost n = k0;
    match reader.finish() {
        Some(last) => {
            push_patched_row(&mut out, &last, target, rep);
            assert(out@ == patched_rows(s, (k0 + 1) as nat, target as nat, rep@));
            proof {
                n = (k0 + 1) as nat;
            }
        },
        None => {},
    }
    proof {
        let len = s.len();
        assert(n == row_count(len));
        lemma_patched_rows(s, n, target as nat, rep@);
        assert(16 * n >= len) by (nonlinear_arith)
            requires
                n == (len + 15) / 16,
        ;
        assert(patched(s, target as nat, rep@).take(prefix_end(len, n)) =~= patched(
            s,
            target as nat,
            rep@,
        ));
    }
    out
}

} // verus!
