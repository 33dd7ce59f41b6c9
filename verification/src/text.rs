//! ASCII text building: decimal and hexadecimal numbers, padding.

use vstd::prelude::*;
use vstd::utf8::{encode_utf8, valid_utf8};
use vstd::string::StringSliceAdditionalSpecFns;

verus! {

/// Decimal digits of `n`, most significant first, no leading zeros.
pub open spec fn dec_digits(n: nat) -> Seq<u8>
    decreases n,
{
    if n < 10 {
        seq![(48 + n) as u8]
    } else {
        dec_digits(n / 10).push((48 + n % 10) as u8)
    }
}

/// Lowercase hexadecimal digits of `n`, no leading zeros.
pub open spec fn hex_digits(n: nat) -> Seq<u8>
    decreases n,
{
    if n < 16 {
        seq![hex_digit(n)]
    } else {
        hex_digits(n / 16).push(hex_digit(n % 16))
    }
}

pub open spec fn hex_digit(d: nat) -> u8 {
    if d < 10 {
        (48 + d) as u8
    } else {
        (87 + d) as u8
    }
}

/// `n` spaces.
pub open spec fn spaces(n: nat) -> Seq<u8> {
    Seq::new(n, |i: int| 32u8)
}

/// `s` padded on the left with spaces to at least `width` bytes.
pub open spec fn pad_left(s: Seq<u8>, width: nat) -> Seq<u8> {
    if s.len() < width {
        spaces((width - s.len()) as nat) + s
    } else {
        s
    }
}

/// `s` padded on the right with spaces to at least `width` bytes.
pub open spec fn pad_right(s: Seq<u8>, width: nat) -> Seq<u8> {
    if s.len() < width {
        s + spaces((width - s.len()) as nat)
    } else {
        s
    }
}

/// The decimal digits of `n`.
pub fn dec(n: u64) -> (r: Vec<u8>)
    ensures
        r@ == dec_digits(n as nat),
    decreases n,
{
    if n < 10 {
        let mut v: Vec<u8> = Vec::new();
        v.push((48 + n) as u8);
        assert(v@ =~= dec_digits(n as nat));
        v
    } else {
        let mut v = dec(n / 10);
        v.push((48 + n % 10) as u8);
        v
    }
}

/// Append the decimal digits of `n`.
pub fn push_dec(v: &mut Vec<u8>, n: u64)
    ensures
        final(v)@ == old(v)@ + dec_digits(n as nat),
{
    let d = dec(n);
    push_bytes(v, &d);
}

/// Append the lowercase hexadecimal digits of `n`.
pub fn push_hex_digits(v: &mut Vec<u8>, n: u64)
    ensures
        final(v)@ == old(v)@ + hex_digits(n as nat),
    decreases n,
{
    if n >= 16 {
        push_hex_digits(v, n / 16);
    }
    let d = n % 16;
    let c: u8 = if d < 10 { (48 + d) as u8 } else { (87 + d) as u8 };
    v.push(c);
    proof {
        if n >= 16 {
            assert(final(v)@ =~= old(v)@ + hex_digits(n as nat));
        } else {
            assert(final(v)@ =~= old(v)@ + hex_digits(n as nat));
        }
    }
}

/// Append `0x` and the hexadecimal digits of `n` (the `{:#x}` format).
pub fn push_hex(v: &mut Vec<u8>, n: u64)
    ensures
        final(v)@ == old(v)@ + seq![48u8, 120u8] + hex_digits(n as nat),
{
    v.push(48);
    v.push(120);
    push_hex_digits(v, n);
    assert(v@ =~= old(v)@ + seq![48u8, 120u8] + hex_digits(n as nat));
}

/// Append all of `s`.
pub fn push_bytes(v: &mut Vec<u8>, s: &[u8])
    ensures
        final(v)@ == old(v)@ + s@,
{
    let mut i: usize = 0;
    while i < s.len()
        invariant
            i <= s@.len(),
            v@ == old(v)@ + s@.subrange(0, i as int),
        decreases s@.len() - i,
    {
        v.push(s[i]);
        i = i + 1;
        assert(v@ =~= old(v)@ + s@.subrange(0, i as int));
    }
    assert(s@.subrange(0, i as int) =~= s@);
}

/// Append the UTF-8 bytes of `s`.
pub fn push_str(v: &mut Vec<u8>, s: &str)
    ensures
        final(v)@ == old(v)@ + encode_utf8(s@),
{
    push_bytes(v, s.as_bytes());
}

/// Append `n` spaces.
pub fn push_spaces(v: &mut Vec<u8>, n: usize)
    ensures
        final(v)@ == old(v)@ + spaces(n as nat),
{
    let mut i: usize = 0;
    while i < n
        invariant
            i <= n,
            v@ == old(v)@ + spaces(i as nat),
        decreases n - i,
    {
        v.push(32);
        i = i + 1;
        assert(v@ =~= old(v)@ + spaces(i as nat));
    }
}

/// Append `s` right-aligned in `width` columns (the `{:>width}` format).
pub fn push_right_aligned(v: &mut Vec<u8>, s: &[u8], width: usize)
    ensures
        final(v)@ == old(v)@ + pad_left(s@, width as nat),
{
    if s.len() < width {
        push_spaces(v, width - s.len());
    }
    push_bytes(v, s);
    assert(v@ =~= old(v)@ + pad_left(s@, width as nat));
}

/// Append `s` left-aligned in `width` columns (the `{:<width}` format).
pub fn push_left_aligned(v: &mut Vec<u8>, s: &[u8], width: usize)
    ensures
        final(v)@ == old(v)@ + pad_right(s@, width as nat),
{
    push_bytes(v, s);
    if s.len() < width {
        push_spaces(v, width - s.len());
    }
    assert(v@ =~= old(v)@ + pad_right(s@, width as nat));
}


/// `core::str::from_utf8(b).ok()`: `b` as a string slice when it is
/// valid UTF-8. Claimed of it: it succeeds exactly on the byte strings
/// vstd's `valid_utf8` describes (well-formed, no overlong forms, no
/// surrogates), as the std documentation defines UTF-8, and the slice it
/// returns holds exactly the bytes of `b`.
#[verifier::external_body]
pub(crate) fn str_from_utf8(b: &[u8]) -> (r: Option<&str>)
    ensures
        r is Some == valid_utf8(b@),
        r is Some ==> r->0.spec_bytes() == b@,
{
    core::str::from_utf8(b).ok()
}

/// Whether `b` is valid UTF-8.
pub fn is_utf8(b: &[u8]) -> (r: bool)
    ensures
        r == valid_utf8(b@),
{
    str_from_utf8(b).is_some()
}

/// Console output of `s`: every '\n' preceded by '\r'.
pub open spec fn crlf(s: Seq<u8>) -> Seq<u8>
    decreases s.len(),
{
    if s.len() == 0 {
        Seq::empty()
    } else {
        let rest = crlf(s.drop_last());
        if s.last() == 10 {
            rest + seq![13u8, 10u8]
        } else {
            rest.push(s.last())
        }
    }
}

/// The bytes the UART sends for `s`.
pub fn to_crlf(s: &[u8]) -> (r: Vec<u8>)
    ensures
        r@ == crlf(s@),
{
    let mut r: Vec<u8> = Vec::new();
    let mut i: usize = 0;
    while i < s.len()
        invariant
            i <= s@.len(),
            r@ == crlf(s@.take(i as int)),
        decreases s@.len() - i,
    {
        assert(s@.take(i + 1).drop_last() =~= s@.take(i as int));
        if s[i] == 10 {
            r.push(13u8);
        }
        r.push(s[i]);
        i = i + 1;
        assert(r@ =~= crlf(s@.take(i as int)));
    }
    assert(s@.take(s@.len() as int) =~= s@);
    r
}

} // verus!
