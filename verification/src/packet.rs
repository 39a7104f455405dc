//! Framing: the universal key and the payload behind it, and the records
//! that a payload is made of.

use crate::ber::{ber, spec_ber};
use crate::ber_oid::{ber_oid, lemma_terminal_index, spec_ber_oid};
use crate::errors::{ErrorKind, KlvError};
use vstd::prelude::*;
use vstd::slice::slice_subrange;

verus! {

/// The UAS Datalink Local Set universal key, with which a packet begins.
pub const UDL_UNIVERSAL_KEY: [u8; 16] = [
    0x06, 0x0E, 0x2B, 0x34, 0x02, 0x0B, 0x01, 0x01, 0x0E, 0x01, 0x03, 0x01, 0x01, 0x00, 0x00, 0x00,
];

/// One record as it lies in the buffer: its tag and its value bytes, which
/// are borrowed from the buffer and not yet interpreted.
#[derive(Clone, Debug)]
pub struct TLVRaw<'a> {
    pub tag: u32,
    pub bytes: &'a [u8],
}

impl<'a> View for TLVRaw<'a> {
    type V = (u32, Seq<u8>);

    open spec fn view(&self) -> (u32, Seq<u8>) {
        (self.tag, self.bytes@)
    }
}

/// The tags and values of a run of records.
pub open spec fn records_view(rs: Seq<TLVRaw<'_>>) -> Seq<(u32, Seq<u8>)> {
    Seq::new(rs.len(), |k: int| rs[k]@)
}

/// The sixteen bytes of the universal key.
pub open spec fn universal_key() -> Seq<u8> {
    UDL_UNIVERSAL_KEY@
}

/// Whether `s` begins with the universal key.
pub open spec fn has_key(s: Seq<u8>) -> bool {
    s.len() >= 16 && s.take(16) == universal_key()
}

/// Where the value of a length-prefixed field at the front of `s` lies: the
/// place of its first byte and the place behind its last, or the error.
pub open spec fn spec_length_value(s: Seq<u8>) -> Result<(int, int), (ErrorKind, Seq<u8>)> {
    match spec_ber(s) {
        Err(e) => Err(e),
        Ok((len, n)) => if s.len() - n < len {
            Err((ErrorKind::Incomplete(len as usize), s.skip(n)))
        } else {
            Ok((n, n + len))
        },
    }
}

/// Where the payload of the packet at the front of `s` lies, or the error.
pub open spec fn spec_udl_bytes(s: Seq<u8>) -> Result<(int, int), (ErrorKind, Seq<u8>)> {
    if !has_key(s) {
        Err((ErrorKind::KeyMismatch, s))
    } else {
        match spec_length_value(s.skip(16)) {
            Err(e) => Err(e),
            Ok((start, end)) => Ok((16 + start, 16 + end)),
        }
    }
}

/// The record at the front of `s`: its tag, and where its value lies.
pub open spec fn spec_raw_tlv(s: Seq<u8>) -> Result<(u32, int, int), (ErrorKind, Seq<u8>)> {
    match spec_ber_oid(s) {
        Err(e) => Err(e),
        Ok((tag, n)) => match spec_length_value(s.skip(n)) {
            Err(e) => Err(e),
            Ok((start, end)) => Ok((tag, n + start, n + end)),
        },
    }
}

/// A result with `front` put before the records of `r`.
pub open spec fn prepend(
    front: Seq<(u32, Seq<u8>)>,
    r: Result<Seq<(u32, Seq<u8>)>, (ErrorKind, Seq<u8>)>,
) -> Result<Seq<(u32, Seq<u8>)>, (ErrorKind, Seq<u8>)> {
    match r {
        Ok(rs) => Ok(front + rs),
        Err(e) => Err(e),
    }
}

/// The records that `s` is made of, in order, where whole records use it
/// up to its last byte; else the error of the first record that fails.
pub open spec fn spec_frame(s: Seq<u8>) -> Result<Seq<(u32, Seq<u8>)>, (ErrorKind, Seq<u8>)>
    decreases s.len(),
    via spec_frame_decreases
{
    if s.len() == 0 {
        Ok(Seq::empty())
    } else {
        match spec_raw_tlv(s) {
            Err(e) => Err(e),
            Ok((tag, start, end)) => prepend(
                seq![(tag, s.subrange(start, end))],
                spec_frame(s.skip(end)),
            ),
        }
    }
}

#[via_fn]
proof fn spec_frame_decreases(s: Seq<u8>) {
    lemma_raw_tlv_bounds(s);
}

/// The value of a record that decodes lies inside `s`, behind at least one
/// byte of tag and one of length.
pub proof fn lemma_raw_tlv_bounds(s: Seq<u8>)
    ensures
        spec_raw_tlv(s) matches Ok((tag, start, end)) ==> 2 <= start <= end <= s.len(),
{
    lemma_terminal_index(s, 0);
}

/// The number of value bytes that a run of records holds in all.
pub open spec fn value_bytes(rs: Seq<(u32, Seq<u8>)>) -> nat
    decreases rs.len(),
{
    if rs.len() == 0 {
        0
    } else {
        rs[0].1.len() + value_bytes(rs.skip(1))
    }
}

/// Where a payload frames, its records never take more than it holds: each
/// has its value bytes and at least one byte of tag and one of length, and
/// all of them together fit into the payload.
pub proof fn lemma_frame_fits(s: Seq<u8>)
    ensures
        spec_frame(s) matches Ok(rs) ==> value_bytes(rs) + 2 * rs.len() <= s.len(),
    decreases s.len(),
{
    if s.len() > 0 {
        lemma_raw_tlv_bounds(s);
        if let Ok((tag, start, end)) = spec_raw_tlv(s) {
            lemma_frame_fits(s.skip(end));
            if let Ok(tail) = spec_frame(s.skip(end)) {
                let rs = seq![(tag, s.subrange(start, end))] + tail;
                assert(rs.skip(1) =~= tail);
            }
        }
    }
}

/// A payload frames into no records where it is empty, and only there.
pub proof fn lemma_frame_empty(s: Seq<u8>)
    ensures
        spec_frame(s) matches Ok(rs) ==> (rs.len() == 0 <==> s.len() == 0),
{
    if s.len() > 0 {
        lemma_raw_tlv_bounds(s);
    }
}

/// Reads a length field and takes as many bytes as it says. Returns the
/// bytes behind them, then the bytes taken.
fn length_value<'a>(i: &'a [u8]) -> (r: Result<(&'a [u8], &'a [u8]), KlvError<'a>>)
    ensures
        match spec_length_value(i@) {
            Ok((start, end)) => r matches Ok((rest, value)) && 1 <= start <= end <= i@.len()
                && value@ == i@.subrange(start, end) && rest@ == i@.skip(end),
            Err(e) => r matches Err(f) && f@ == e,
        },
{
    match ber(i) {
        Err(e) => Err(e),
        Ok((rest, length)) => {
            let length: usize = length as usize;
            if rest.len() < length {
                Err(KlvError { kind: ErrorKind::Incomplete(length), at: rest })
            } else {
                let value = slice_subrange(rest, 0, length);
                let behind = slice_subrange(rest, length, rest.len());
                proof {
                    let n = i@.len() - rest@.len();
                    assert(value@ =~= i@.subrange(n, n + length));
                    assert(behind@ =~= i@.skip(n + length));
                }
                Ok((behind, value))
            }
        },
    }
}

/// Gets the payload of the packet at the front of `i`: the bytes behind the
/// packet, then the payload.
pub fn udl_bytes<'a>(i: &'a [u8]) -> (r: Result<(&'a [u8], &'a [u8]), KlvError<'a>>)
    ensures
        match spec_udl_bytes(i@) {
            Ok((start, end)) => r matches Ok((rest, payload)) && 17 <= start <= end <= i@.len()
                && payload@ == i@.subrange(start, end) && rest@ == i@.skip(end),
            Err(e) => r matches Err(f) && f@ == e,
        },
{
    if i.len() < 16 {
        return Err(KlvError { kind: ErrorKind::KeyMismatch, at: i });
    }
    let mut k: usize = 0;
    while k < 16
        invariant
            k <= 16 <= i.len(),
            forall|j: int| 0 <= j < k ==> i@[j] == UDL_UNIVERSAL_KEY@[j],
        decreases 16 - k,
    {
        if i[k] != UDL_UNIVERSAL_KEY[k] {
            proof {
                assert(i@.take(16)[k as int] == i@[k as int]);
            }
            return Err(KlvError { kind: ErrorKind::KeyMismatch, at: i });
        }
        k += 1;
    }
    proof {
        assert(i@.take(16) =~= universal_key());
    }
    let behind_key = slice_subrange(i, 16, i.len());
    match length_value(behind_key) {
        Err(e) => Err(e),
        Ok((rest, payload)) => {
            proof {
                let (start, end) = spec_length_value(i@.skip(16))->Ok_0;
                assert(payload@ =~= i@.subrange(16 + start, 16 + end));
                assert(rest@ =~= i@.skip(16 + end));
            }
            Ok((rest, payload))
        },
    }
}

/// Reads the record at the front of `i`: the bytes behind it, then the
/// record.
pub fn raw_tlv<'a>(i: &'a [u8]) -> (r: Result<(&'a [u8], TLVRaw<'a>), KlvError<'a>>)
    ensures
        match spec_raw_tlv(i@) {
            Ok((tag, start, end)) => r matches Ok((rest, record)) && 2 <= start <= end <= i@.len()
                && record@ == (tag, i@.subrange(start, end)) && rest@ == i@.skip(end),
            Err(e) => r matches Err(f) && f@ == e,
        },
{
    match ber_oid(i) {
        Err(e) => Err(e),
        Ok((behind_tag, tag)) => match length_value(behind_tag) {
            Err(e) => Err(e),
            Ok((rest, bytes)) => {
                proof {
                    let n = i@.len() - behind_tag@.len();
                    let (start, end) = spec_length_value(i@.skip(n))->Ok_0;
                    assert(bytes@ =~= i@.subrange(n + start, n + end));
                    assert(rest@ =~= i@.skip(n + end));
                }
                Ok((rest, TLVRaw { tag, bytes }))
            },
        },
    }
}

/// Cuts a payload into its records. Whole records must use the payload up:
/// one that ends inside a record is an error, and no records are returned.
pub fn frame_records<'a>(payload: &'a [u8]) -> (r: Result<Vec<TLVRaw<'a>>, KlvError<'a>>)
    ensures
        match spec_frame(payload@) {
            Ok(rs) => r matches Ok(records) && records_view(records@) == rs,
            Err(e) => r matches Err(f) && f@ == e,
        },
{
    let mut records: Vec<TLVRaw<'a>> = Vec::new();
    let mut rest: &'a [u8] = payload;
    while rest.len() > 0
        invariant
            spec_frame(payload@) == prepend(records_view(records@), spec_frame(rest@)),
        decreases rest@.len(),
    {
        match raw_tlv(rest) {
            Err(e) => {
                return Err(e);
            },
            Ok((behind, record)) => {
                proof {
                    let front = records_view(records@);
                    let tail = spec_frame(behind@);
                    assert(spec_frame(rest@) == prepend(seq![record@], tail));
                    assert(records_view(records@.push(record)) =~= front.push(record@));
                    if let Ok(rs) = tail {
                        assert(front + (seq![record@] + rs) =~= front.push(record@) + rs);
                    }
                }
                records.push(record);
                rest = behind;
            },
        }
    }
    proof {
        assert(records_view(records@) + Seq::<(u32, Seq<u8>)>::empty() =~= records_view(
            records@,
        ));
    }
    Ok(records)
}

/// What `udl_tlvs` returns for `s`: where the bytes behind the packet begin
/// and the packet's records, or the error.
pub open spec fn spec_udl_tlvs(s: Seq<u8>) -> Result<(int, Seq<(u32, Seq<u8>)>), (ErrorKind, Seq<u8>)> {
    match spec_udl_bytes(s) {
        Err(e) => Err(e),
        Ok((start, end)) => match spec_frame(s.subrange(start, end)) {
            Err(e) => Err(e),
            Ok(rs) => Ok((end, rs)),
        },
    }
}

/// Extracts all the records of the packet at the front of `i`: the bytes
/// behind the packet, then the records in the order of the payload.
pub fn udl_tlvs<'a>(i: &'a [u8]) -> (r: Result<(&'a [u8], Vec<TLVRaw<'a>>), KlvError<'a>>)
    ensures
        match spec_udl_tlvs(i@) {
            Ok((end, rs)) => r matches Ok((rest, records)) && rest@ == i@.skip(end)
                && records_view(records@) == rs,
            Err(e) => r matches Err(f) && f@ == e,
        },
{
    match udl_bytes(i) {
        Err(e) => Err(e),
        Ok((rest, payload)) => match frame_records(payload) {
            Err(e) => Err(e),
            Ok(records) => Ok((rest, records)),
        },
    }
}

} // verus!
