//! Import: newline-separated lines of hex digit pairs back into bytes.
use vstd::prelude::*;
use crate::dump::{dump_text, join, lemma_lines_step, line_of, lines_upto};
use crate::error::HexViewError;
use crate::hex::{hex_char, hex_pair, hex_val, hex_value, is_hex_digit, lemma_hex_char_val};
use crate::reader::{row_at, row_count};
use crate::row::raw_hex;

verus! {

/// `a` in front of a decoded result; failure stays failure.
pub open spec fn prepend(a: Seq<u8>, o: Option<Seq<u8>>) -> Option<Seq<u8>> {
    match o {
        Some(r) => Some(a + r),
        None => None,
    }
}

/// The byte spelled by two hex digits.
pub open spec fn pair_value(hi: u8, lo: u8) -> u8 {
    (hex_val(hi) * 16 + hex_val(lo)) as u8
}

/// The bytes that a hex text spells: newlines are skipped, every other byte
/// must belong to a pair of hex digits within one line. `None` when a line
/// holds an odd number of digits or anything but hex digits.
pub open spec fn decode_text(s: Seq<u8>) -> Option<Seq<u8>>
    decreases s.len(),
{
    if s.len() == 0 {
        Some(Seq::empty())
    } else if s[0] == 10 {
        decode_text(s.drop_first())
    } else if s.len() >= 2 && is_hex_digit(s[0]) && is_hex_digit(s[1]) {
        prepend(seq![pair_value(s[0], s[1])], decode_text(s.subrange(2, s.len() as int)))
    } else {
        None
    }
}

/// Decodes a hex text into the bytes it spells.
pub fn import_hex(text: &[u8]) -> (r: Result<Vec<u8>, HexViewError>)
    ensures
        match decode_text(text@) {
            Some(b) => r is Ok && r->Ok_0@ == b,
            None => r == Err::<Vec<u8>, HexViewError>(HexViewError::MalformedHexToken),
        },
{
    let mut out: Vec<u8> = Vec::new();
    let mut i: usize = 0;
    assert(text@.subrange(0, text@.len() as int) =~= text@);
    proof {
        if decode_text(text@) is Some {
            assert(out@ + decode_text(text@)->0 =~= decode_text(text@)->0);
        }
    }
    while i < text.len()
        invariant
            i <= text@.len(),
            decode_text(text@) == prepend(out@, decode_text(text@.subrange(i as int, text@.len() as int))),
        decreases text.len() - i,
    {
        let ghost rest = text@.subrange(i as int, text@.len() as int);
        if text[i] == 10 {
            assert(rest.drop_first() =~= text@.subrange(i + 1, text@.len() as int));
            i = i + 1;
        } else if i + 1 < text.len() {
            match (hex_value(text[i]), hex_value(text[i + 1])) {
                (Some(hi), Some(lo)) => {
                    let b: u8 = hi * 16 + lo;
                    let ghost o = out@;
                    out.push(b);
                    assert(rest.subrange(2, rest.len() as int) =~= text@.subrange(
                        i + 2,
                        text@.len() as int,
                    ));
                    let ghost tail = decode_text(text@.subrange(i + 2, text@.len() as int));
                    proof {
                        if tail is Some {
                            assert(o + (seq![b] + tail->0) =~= out@ + tail->0);
                        }
                    }
                    i = i + 2;
                },
                _ => {
                    return Err(HexViewError::MalformedHexToken);
                },
            }
        } else {
            return Err(HexViewError::MalformedHexToken);
        }
    }
    assert(text@.subrange(i as int, text@.len() as int) =~= Seq::<u8>::empty());
    assert(out@ + Seq::<u8>::empty() =~= out@);
    Ok(out)
}

proof fn lemma_decode_pair(b: u8, t: Seq<u8>)
    ensures
        decode_text(hex_pair(b) + t) == prepend(seq![b], decode_text(t)),
{
    let s = hex_pair(b) + t;
    lemma_hex_char_val(b as nat / 16);
    lemma_hex_char_val(b as nat % 16);
    assert(s[0] == hex_char(b as nat / 16));
    assert(s[1] == hex_char(b as nat % 16));
    assert(s.subrange(2, s.len() as int) =~= t);
    assert(pair_value(s[0], s[1]) == b);
}

proof fn lemma_decode_raw(r: Seq<u8>, t: Seq<u8>)
    ensures
        decode_text(raw_hex(r) + t) == prepend(r, decode_text(t)),
    decreases r.len(),
{
    if r.len() == 0 {
        assert(raw_hex(r) + t =~= t);
        if decode_text(t) is Some {
            assert(r + decode_text(t)->0 =~= decode_text(t)->0);
        }
    } else {
        let p = r.drop_last();
        let b = r.last();
        assert(raw_hex(r) + t =~= raw_hex(p) + (hex_pair(b) + t));
        lemma_decode_raw(p, hex_pair(b) + t);
        lemma_decode_pair(b, t);
        if decode_text(t) is Some {
            assert(p + (seq![b] + decode_text(t)->0) =~= r + decode_text(t)->0);
        }
    }
}

proof fn lemma_decode_line(r: Seq<u8>, t: Seq<u8>)
    ensures
        decode_text(line_of(r, 0, true) + t) == prepend(r, decode_text(t)),
{
    let nl = seq![10u8] + t;
    assert(line_of(r, 0, true) + t =~= raw_hex(r) + nl);
    lemma_decode_raw(r, nl);
    assert(nl.drop_first() =~= t);
}

/// Where the first `n` rows of a stream of `len` bytes end.
pub open spec fn prefix_end(len: nat, n: nat) -> int {
    if 16 * n <= len {
        16 * n as int
    } else {
        len as int
    }
}

proof fn lemma_decode_lines(s: Seq<u8>, n: nat, t: Seq<u8>)
    requires
        n <= row_count(s.len()),
    ensures
        decode_text(join(lines_upto(s, n, true)) + t) == prepend(
            s.take(prefix_end(s.len(), n)),
            decode_text(t),
        ),
    decreases n,
{
    if n == 0 {
        assert(join(lines_upto(s, 0, true)) + t =~= t);
        if decode_text(t) is Some {
            assert(s.take(0) + decode_text(t)->0 =~= decode_text(t)->0);
        }
    } else {
        let m = (n - 1) as nat;
        let row = row_at(s, m);
        lemma_lines_step(s, m, true);
        assert(line_of(row, 16 * m, true) == line_of(row, 0, true));
        assert(join(lines_upto(s, n, true)) + t =~= join(lines_upto(s, m, true)) + (line_of(
            row,
            0,
            true,
        ) + t));
        lemma_decode_lines(s, m, line_of(row, 0, true) + t);
        lemma_decode_line(row, t);
        assert(16 * m <= s.len());
        let end = prefix_end(s.len(), n);
        if decode_text(t) is Some {
            assert(s.take(16 * m as int) + (row + decode_text(t)->0) =~= s.take(end) + decode_text(
                t,
            )->0);
        }
    }
}

/// Importing the raw dump of a stream gives the stream back, byte for byte.
pub proof fn lemma_import_round_trip(s: Seq<u8>)
    ensures
        decode_text(dump_text(s, true)) == Some(s),
{
    let n = row_count(s.len());
    lemma_decode_lines(s, n, Seq::empty());
    assert(dump_text(s, true) + Seq::<u8>::empty() =~= dump_text(s, true));
    let end = prefix_end(s.len(), n);
    let len = s.len();
    assert(16 * n >= len) by (nonlinear_arith)
        requires
            n == (len + 15) / 16,
    ;
    assert(s.take(end) + Seq::<u8>::empty() =~= s);
}

} // verus!
