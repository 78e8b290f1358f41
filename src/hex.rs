//! Hexadecimal digits: rendering and parsing.
use vstd::prelude::*;

verus! {

/// The lowercase ASCII hex digit for a value below 16.
pub open spec fn hex_char(d: nat) -> u8 {
    if d < 10 {
        (48 + d) as u8
    } else {
        (87 + d) as u8
    }
}

/// Whether an ASCII byte is a hex digit (either case).
pub open spec fn is_hex_digit(c: u8) -> bool {
    (48 <= c <= 57) || (97 <= c <= 102) || (65 <= c <= 70)
}

/// The value of a hex digit byte (either case).
pub open spec fn hex_val(c: u8) -> nat {
    if 48 <= c <= 57 {
        (c - 48) as nat
    } else if 97 <= c <= 102 {
        (c - 87) as nat
    } else {
        (c - 55) as nat
    }
}

/// The two lowercase hex digits of a byte, high nibble first.
pub open spec fn hex_pair(b: u8) -> Seq<u8> {
    seq![hex_char(b as nat / 16), hex_char(b as nat % 16)]
}

/// The last `k` hex digits of `n`, most significant first.
pub open spec fn hex_digits(n: nat, k: nat) -> Seq<u8>
    decreases k,
{
    if k == 0 {
        Seq::empty()
    } else {
        hex_digits(n / 16, (k - 1) as nat).push(hex_char(n % 16))
    }
}

/// Sixteen to the power `k`.
pub open spec fn pow16(k: nat) -> nat
    decreases k,
{
    if k == 0 {
        1
    } else {
        16 * pow16((k - 1) as nat)
    }
}

/// The number that a sequence of hex digits spells, most significant first.
pub open spec fn hex_number(s: Seq<u8>) -> nat
    decreases s.len(),
{
    if s.len() == 0 {
        0
    } else {
        hex_number(s.drop_last()) * 16 + hex_val(s.last())
    }
}

/// A rendered digit reads back as its value.
pub proof fn lemma_hex_char_val(d: nat)
    requires
        d < 16,
    ensures
        is_hex_digit(hex_char(d)),
        hex_val(hex_char(d)) == d,
{
}

/// Powers of sixteen are positive.
pub proof fn lemma_pow16_positive(k: nat)
    ensures
        pow16(k) > 0,
    decreases k,
{
    if k > 0 {
        lemma_pow16_positive((k - 1) as nat);
    }
}

/// Reading back the `k` digits written for `n` gives `n` modulo `16^k`.
pub proof fn lemma_hex_digits_number(n: nat, k: nat)
    ensures
        hex_digits(n, k).len() == k,
        hex_number(hex_digits(n, k)) == n % pow16(k),
    decreases k,
{
    if k == 0 {
    } else {
        let km = (k - 1) as nat;
        lemma_hex_digits_number(n / 16, km);
        let s = hex_digits(n, k);
        assert(s.drop_last() =~= hex_digits(n / 16, km));
        lemma_hex_char_val(n % 16);
        lemma_pow16_positive(km);
        let p = pow16(km);
        vstd::arithmetic::div_mod::lemma_breakdown(n as int, 16, p as int);
    }
}

/// The hex digit for a value below 16.
pub fn hex_digit(d: u8) -> (c: u8)
    requires
        d < 16,
    ensures
        c == hex_char(d as nat),
{
    if d < 10 {
        48 + d
    } else {
        87 + d
    }
}

/// The value of a hex digit byte, or `None` for any other byte.
pub fn hex_value(c: u8) -> (r: Option<u8>)
    ensures
        r == (if is_hex_digit(c) {
            Some(hex_val(c) as u8)
        } else {
            None::<u8>
        }),
        r is Some ==> r->0 < 16,
{
    if 48 <= c && c <= 57 {
        Some(c - 48)
    } else if 97 <= c && c <= 102 {
        Some(c - 87)
    } else if 65 <= c && c <= 70 {
        Some(c - 55)
    } else {
        None
    }
}

/// Appends the two hex digits of `b` to `out`.
pub fn push_hex_pair(out: &mut Vec<u8>, b: u8)
    ensures
        final(out)@ == old(out)@ + hex_pair(b),
{
    out.push(hex_digit(b / 16));
    out.push(hex_digit(b % 16));
    assert(final(out)@ =~= old(out)@ + hex_pair(b));
}

/// Appends the last `k` hex digits of `n` to `out`.
pub fn push_hex_digits(out: &mut Vec<u8>, n: u32, k: usize)
    ensures
        final(out)@ == old(out)@ + hex_digits(n as nat, k as nat),
    decreases k,
{
    if k > 0 {
        push_hex_digits(out, n / 16, k - 1);
        out.push(hex_digit((n % 16) as u8));
        assert(final(out)@ =~= old(out)@ + hex_digits(n as nat, k as nat));
    }
}

} // verus!
