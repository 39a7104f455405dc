//! The tag field: base 128, seven bits to a byte, first byte highest. A set
//! high bit says that another byte follows; the first byte with a clear high
//! bit ends the field.

use crate::errors::{ErrorKind, KlvError};
use vstd::prelude::*;
use vstd::slice::slice_subrange;

verus! {

/// The place of the first byte at or behind `from` whose high bit is clear,
/// or `s.len()` where every byte from there on has it set.
pub open spec fn terminal_index(s: Seq<u8>, from: int) -> int
    decreases s.len() - from,
{
    if from < 0 || from >= s.len() {
        s.len() as int
    } else if s[from] < 0x80 {
        from
    } else {
        terminal_index(s, from + 1)
    }
}

/// The number that the low seven bits of each byte spell in base 128, first
/// byte highest.
pub open spec fn oid_value(s: Seq<u8>) -> nat
    decreases s.len(),
{
    if s.len() == 0 {
        0
    } else {
        oid_value(s.drop_last()) * 128 + (s.last() % 128) as nat
    }
}

/// What a tag field at the front of `s` decodes to: the tag and the number
/// of bytes that the field takes up, or the error.
pub open spec fn spec_ber_oid(s: Seq<u8>) -> Result<(u32, int), (ErrorKind, Seq<u8>)> {
    let t = terminal_index(s, 0);
    if t >= s.len() {
        Err((ErrorKind::Incomplete(1), s))
    } else if oid_value(s.take(t + 1)) > u32::MAX {
        Err((ErrorKind::TagOverflow, s))
    } else {
        Ok((oid_value(s.take(t + 1)) as u32, t + 1))
    }
}

/// `terminal_index` is the first clear high bit: every byte between `from`
/// and it has the high bit set, and where it lies inside `s` the byte there
/// has not.
pub proof fn lemma_terminal_index(s: Seq<u8>, from: int)
    requires
        0 <= from <= s.len(),
    ensures
        from <= terminal_index(s, from) <= s.len(),
        forall|j: int| from <= j < terminal_index(s, from) ==> s[j] >= 0x80,
        terminal_index(s, from) < s.len() ==> s[terminal_index(s, from)] < 0x80,
    decreases s.len() - from,
{
    if from < s.len() && s[from] >= 0x80 {
        lemma_terminal_index(s, from + 1);
    }
}

/// The arithmetic above on the bits of a byte: the high bit is clear where
/// the byte is below 128, and the low seven bits are the byte modulo 128,
/// which for a byte with the high bit set is the byte less 128.
pub proof fn lemma_seven_bits(b: u8)
    ensures
        (b & 0x80 == 0) <==> b < 0x80,
        b & 0x7F == b % 128,
        b >= 0x80 ==> b & 0x7F == b - 0x80,
{
    assert((b & 0x80 == 0) <==> b < 0x80) by (bit_vector);
    assert(b & 0x7F == b % 128) by (bit_vector);
    assert(b >= 0x80 ==> b & 0x7F == b - 0x80) by (bit_vector);
}

/// A sequence is worth at least 128 times any proper prefix of it.
pub proof fn lemma_oid_value_prefix(s: Seq<u8>, k: int)
    requires
        0 <= k < s.len(),
    ensures
        oid_value(s) >= oid_value(s.take(k)) * 128,
    decreases s.len(),
{
    if k == s.len() - 1 {
        assert(s.drop_last() =~= s.take(k));
    } else {
        lemma_oid_value_prefix(s.drop_last(), k);
        assert(s.drop_last().take(k) =~= s.take(k));
    }
}

/// Decodes the tag field at the front of `i` and returns the bytes behind it
/// together with the tag.
pub fn ber_oid<'a>(i: &'a [u8]) -> (r: Result<(&'a [u8], u32), KlvError<'a>>)
    ensures
        match spec_ber_oid(i@) {
            Ok((v, n)) => r matches Ok((rest, value)) && value == v && 1 <= n <= i@.len()
                && rest@ == i@.skip(n),
            Err(e) => r matches Err(f) && f@ == e,
        },
{
    let mut t: usize = 0;
    while t < i.len() && i[t] >= 0x80
        invariant
            t <= i.len(),
            terminal_index(i@, 0) == terminal_index(i@, t as int),
        decreases i.len() - t,
    {
        t += 1;
    }
    if t == i.len() {
        return Err(KlvError { kind: ErrorKind::Incomplete(1), at: i });
    }
    let ghost digits = i@.take(t + 1);
    let mut acc: u32 = 0;
    let mut k: usize = 0;
    while k <= t
        invariant
            k <= t + 1,
            t < i.len(),
            terminal_index(i@, 0) == t,
            digits == i@.take(t + 1),
            acc == oid_value(digits.take(k as int)),
        decreases t + 1 - k,
    {
        if acc > 0x01FF_FFFF {
            proof {
                lemma_oid_value_prefix(digits, k as int);
            }
            return Err(KlvError { kind: ErrorKind::TagOverflow, at: i });
        }
        let b: u8 = i[k];
        proof {
            assert(digits.take(k + 1).drop_last() =~= digits.take(k as int));
            assert(digits.take(k + 1).last() == b);
        }
        acc = acc * 128 + (b % 128) as u32;
        k += 1;
    }
    proof {
        assert(digits.take(t + 1) =~= digits);
    }
    Ok((slice_subrange(i, t + 1, i.len()), acc))
}

} // verus!
