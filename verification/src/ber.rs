//! The length field: one byte below 128 (short form), or a byte `0x80 + n`
//! followed by `n` big-endian bytes (long form).

use crate::errors::{ErrorKind, KlvError};
use vstd::prelude::*;
use vstd::slice::slice_subrange;

verus! {

/// The number that a byte sequence spells in base 256, first byte highest.
pub open spec fn be_value(s: Seq<u8>) -> nat
    decreases s.len(),
{
    if s.len() == 0 {
        0
    } else {
        be_value(s.drop_last()) * 256 + s.last() as nat
    }
}

/// What a length field at the front of `s` decodes to: the length and the
/// number of bytes that the field takes up, or the error.
pub open spec fn spec_ber(s: Seq<u8>) -> Result<(u32, int), (ErrorKind, Seq<u8>)> {
    if s.len() == 0 {
        Err((ErrorKind::Incomplete(1), s))
    } else if s[0] < 0x80 {
        Ok((s[0] as u32, 1int))
    } else {
        let n = s[0] - 0x80;
        if n == 0 {
            Err((ErrorKind::InvalidLongForm, s))
        } else if s.len() - 1 < n {
            Err((ErrorKind::Incomplete(n as usize), s))
        } else if be_value(s.subrange(1, 1 + n)) > u32::MAX {
            Err((ErrorKind::LengthOverflow, s))
        } else {
            Ok((be_value(s.subrange(1, 1 + n)) as u32, 1 + n))
        }
    }
}

/// A sequence is worth at least 256 times any proper prefix of it.
pub proof fn lemma_be_value_prefix(s: Seq<u8>, k: int)
    requires
        0 <= k < s.len(),
    ensures
        be_value(s) >= be_value(s.take(k)) * 256,
    decreases s.len(),
{
    if k == s.len() - 1 {
        assert(s.drop_last() =~= s.take(k));
    } else {
        lemma_be_value_prefix(s.drop_last(), k);
        assert(s.drop_last().take(k) =~= s.take(k));
    }
}

/// The value of two bytes.
pub proof fn lemma_be_value_2(s: Seq<u8>)
    requires
        s.len() == 2,
    ensures
        be_value(s) == s[0] * 0x100 + s[1],
{
    reveal_with_fuel(be_value, 3);
    assert(s.drop_last().drop_last().len() == 0);
}

/// The value of eight bytes.
pub proof fn lemma_be_value_8(s: Seq<u8>)
    requires
        s.len() == 8,
    ensures
        be_value(s) == s[0] * 0x100_0000_0000_0000 + s[1] * 0x1_0000_0000_0000 + s[2]
            * 0x100_0000_0000 + s[3] * 0x1_0000_0000 + s[4] * 0x100_0000 + s[5] * 0x1_0000 + s[6]
            * 0x100 + s[7],
{
    let hi = s.take(4).take(2);
    lemma_be_value_2(hi);
    assert(s.take(3).drop_last() =~= hi);
    assert(s.take(4).drop_last() =~= s.take(3));
    assert(s.take(5).drop_last() =~= s.take(4));
    assert(s.take(6).drop_last() =~= s.take(5));
    assert(s.take(7).drop_last() =~= s.take(6));
    assert(s.drop_last() =~= s.take(7));
    assert(be_value(s.take(3)) == be_value(hi) * 256 + s[2]);
    assert(be_value(s.take(4)) == be_value(s.take(3)) * 256 + s[3]);
    assert(be_value(s.take(5)) == be_value(s.take(4)) * 256 + s[4]);
    assert(be_value(s.take(6)) == be_value(s.take(5)) * 256 + s[5]);
    assert(be_value(s.take(7)) == be_value(s.take(6)) * 256 + s[6]);
    assert(be_value(s) == be_value(s.take(7)) * 256 + s[7]);
}

/// The short form of a length below 128: the one byte that holds it.
pub open spec fn short_form(v: u32) -> Seq<u8> {
    seq![v as u8]
}

/// The digits of `v` in base 256, first digit highest, without leading
/// zeros: none at all for zero.
pub open spec fn be_digits(v: nat) -> Seq<u8>
    decreases v,
{
    if v == 0 {
        Seq::empty()
    } else {
        be_digits(v / 256).push((v % 256) as u8)
    }
}

/// The long form of a length with the fewest bytes: the count of its digits
/// with the high bit set, then the digits.
pub open spec fn long_form(v: u32) -> Seq<u8> {
    seq![(0x80 + be_digits(v as nat).len()) as u8] + be_digits(v as nat)
}

/// The digits of a number spell that number, and the first of them is not
/// zero.
pub proof fn lemma_be_digits(v: nat)
    ensures
        be_value(be_digits(v)) == v,
        v > 0 ==> be_digits(v).len() >= 1 && be_digits(v)[0] != 0,
    decreases v,
{
    if v > 0 {
        lemma_be_digits(v / 256);
        assert(be_digits(v).drop_last() =~= be_digits(v / 256));
    }
}

/// No sequence of bytes spells a number in fewer bytes than its digits.
pub proof fn lemma_be_digits_fewest(d: Seq<u8>)
    ensures
        be_digits(be_value(d)).len() <= d.len(),
    decreases d.len(),
{
    if d.len() > 0 {
        lemma_be_digits_fewest(d.drop_last());
        let v = be_value(d);
        assert(v / 256 == be_value(d.drop_last()));
    }
}

/// A number of 32 bits has at most four digits.
pub proof fn lemma_be_digits_len(v: nat)
    requires
        v <= u32::MAX,
    ensures
        be_digits(v).len() <= 4,
{
    reveal_with_fuel(be_digits, 6);
}

/// Every length below 128, written in the short form, decodes to itself, and
/// nothing is left of the byte.
pub proof fn lemma_short_form_decodes(v: u32)
    requires
        v <= 127,
    ensures
        spec_ber(short_form(v)) == Ok::<(u32, int), (ErrorKind, Seq<u8>)>((v, 1)),
        short_form(v).skip(1) == Seq::<u8>::empty(),
{
    assert(short_form(v).skip(1) =~= Seq::<u8>::empty());
}

/// Every length from 128 up has a long form that decodes to it: the one
/// with the fewest bytes, one to four digits of which the first is not
/// zero (`lemma_be_digits_fewest` says that no other bytes spell the length
/// in fewer). Nothing is left of those bytes.
pub proof fn lemma_long_form_decodes(v: u32)
    requires
        v >= 128,
    ensures
        spec_ber(long_form(v)) == Ok::<(u32, int), (ErrorKind, Seq<u8>)>(
            (v, long_form(v).len() as int),
        ),
        2 <= long_form(v).len() <= 5,
        long_form(v)[1] != 0,
{
    let digits = be_digits(v as nat);
    lemma_be_digits(v as nat);
    lemma_be_digits_len(v as nat);
    assert(long_form(v).subrange(1, 1 + digits.len() as int) =~= digits);
}

/// Decodes the length field at the front of `i` and returns the bytes
/// behind it together with the length.
pub fn ber<'a>(i: &'a [u8]) -> (r: Result<(&'a [u8], u32), KlvError<'a>>)
    ensures
        match spec_ber(i@) {
            Ok((v, n)) => r matches Ok((rest, value)) && value == v && n <= i@.len()
                && rest@ == i@.skip(n),
            Err(e) => r matches Err(f) && f@ == e,
        },
{
    if i.len() == 0 {
        return Err(KlvError { kind: ErrorKind::Incomplete(1), at: i });
    }
    let start: u8 = i[0];
    if start < 0x80 {
        return Ok((slice_subrange(i, 1, i.len()), start as u32));
    }
    let n: usize = (start - 0x80) as usize;
    if n == 0 {
        return Err(KlvError { kind: ErrorKind::InvalidLongForm, at: i });
    }
    if i.len() - 1 < n {
        return Err(KlvError { kind: ErrorKind::Incomplete(n), at: i });
    }
    let ghost digits = i@.subrange(1, 1 + n);
    let mut acc: u32 = 0;
    let mut k: usize = 0;
    while k < n
        invariant
            k <= n,
            1 + n <= i.len(),
            n == i@[0] - 0x80,
            n != 0,
            digits == i@.subrange(1, 1 + n),
            acc == be_value(digits.take(k as int)),
        decreases n - k,
    {
        if acc > 0x00FF_FFFF {
            proof {
                lemma_be_value_prefix(digits, k as int);
            }
            return Err(KlvError { kind: ErrorKind::LengthOverflow, at: i });
        }
        let b: u8 = i[1 + k];
        proof {
            assert(digits.take(k + 1).drop_last() =~= digits.take(k as int));
            assert(digits.take(k + 1).last() == b);
        }
        acc = acc * 256 + b as u32;
        k += 1;
    }
    proof {
        assert(digits.take(n as int) =~= digits);
    }
    Ok((slice_subrange(i, 1 + n, i.len()), acc))
}

} // verus!
