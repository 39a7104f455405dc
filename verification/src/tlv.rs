//! The typed fields: what the value bytes of a record mean under its tag.

use crate::ber::{be_value, lemma_be_value_2, lemma_be_value_8};
use crate::errors::{ErrorKind, KlvError};
use crate::packet::{records_view, TLVRaw};
use vstd::prelude::*;
use vstd::slice::slice_to_vec;

verus! {

/// An instant of UTC: whole seconds since the Unix epoch, and the
/// nanoseconds into that second.
#[derive(Clone, Copy, Debug, PartialEq, Eq, Structural)]
pub struct Timestamp {
    pub seconds: i64,
    pub nanos: u32,
}

/// A decoded field of MISB ST0601. The two angles are held as the integers
/// that the packet carries, which keeps them exact: see `heading_turns_scaled`
/// and `pitch_degrees_scaled` for the angles that they stand for.
#[derive(Clone, Debug, PartialEq)]
pub enum TLV {
    /// Tag 1.
    Checksum(u16),
    /// Tag 2.
    PrecisionTimeStamp(Timestamp),
    /// Tag 3.
    MissionID(String),
    /// Tag 4.
    PlatformTailNumber(String),
    /// Tag 5: the heading in units of 1/65535 of a full turn.
    PlatformHeadingAngle(u16),
    /// Tag 6: the pitch in units of 20/32767 of a degree, or `None` where
    /// the packet marks it as out of range.
    PlatformPitchAngle(Option<i16>),
    /// Any other tag: the value bytes as they came.
    Unknown(Vec<u8>),
}

/// What a `TLV` holds, with strings and bytes as sequences.
pub enum TLVView {
    Checksum(u16),
    PrecisionTimeStamp(Timestamp),
    MissionID(Seq<char>),
    PlatformTailNumber(Seq<char>),
    PlatformHeadingAngle(u16),
    PlatformPitchAngle(Option<i16>),
    Unknown(Seq<u8>),
}

impl View for TLV {
    type V = TLVView;

    open spec fn view(&self) -> TLVView {
        match self {
            TLV::Checksum(c) => TLVView::Checksum(*c),
            TLV::PrecisionTimeStamp(t) => TLVView::PrecisionTimeStamp(*t),
            TLV::MissionID(s) => TLVView::MissionID(s@),
            TLV::PlatformTailNumber(s) => TLVView::PlatformTailNumber(s@),
            TLV::PlatformHeadingAngle(a) => TLVView::PlatformHeadingAngle(*a),
            TLV::PlatformPitchAngle(a) => TLVView::PlatformPitchAngle(*a),
            TLV::Unknown(b) => TLVView::Unknown(b@),
        }
    }
}

/// What a run of fields holds.
pub open spec fn fields_view(fs: Seq<TLV>) -> Seq<TLVView> {
    Seq::new(fs.len(), |k: int| fs[k]@)
}

/// Whether every byte is below 128.
pub open spec fn all_ascii(s: Seq<u8>) -> bool {
    forall|k: int| 0 <= k < s.len() ==> s[k] < 128
}

/// The string with one character per byte.
pub open spec fn ascii_chars(s: Seq<u8>) -> Seq<char> {
    Seq::new(s.len(), |k: int| s[k] as char)
}

/// The signed 16-bit number that the unsigned `v` is in two's complement.
pub open spec fn as_signed16(v: nat) -> int {
    if v < 0x8000 {
        v as int
    } else {
        v - 0x1_0000
    }
}

/// The instant that lies `micros` microseconds behind the Unix epoch.
pub open spec fn timestamp_of(micros: nat) -> Timestamp {
    Timestamp {
        seconds: (micros / 1_000_000) as i64,
        nanos: ((micros % 1_000_000) * 1000) as u32,
    }
}

/// The field that value bytes `bytes` under tag `tag` decode to, or the
/// error.
pub open spec fn spec_decode_field(tag: u32, bytes: Seq<u8>) -> Result<TLVView, (ErrorKind, Seq<u8>)> {
    if tag == 1 {
        if bytes.len() != 2 {
            Err((ErrorKind::MalformedField, bytes))
        } else {
            Ok(TLVView::Checksum(be_value(bytes) as u16))
        }
    } else if tag == 2 {
        if bytes.len() != 8 {
            Err((ErrorKind::MalformedField, bytes))
        } else {
            Ok(TLVView::PrecisionTimeStamp(timestamp_of(be_value(bytes))))
        }
    } else if tag == 3 {
        if all_ascii(bytes) {
            Ok(TLVView::MissionID(ascii_chars(bytes)))
        } else {
            Err((ErrorKind::NonAsciiString, bytes))
        }
    } else if tag == 4 {
        if all_ascii(bytes) {
            Ok(TLVView::PlatformTailNumber(ascii_chars(bytes)))
        } else {
            Err((ErrorKind::NonAsciiString, bytes))
        }
    } else if tag == 5 {
        if bytes.len() != 2 {
            Err((ErrorKind::MalformedField, bytes))
        } else {
            Ok(TLVView::PlatformHeadingAngle(be_value(bytes) as u16))
        }
    } else if tag == 6 {
        if bytes.len() != 2 {
            Err((ErrorKind::MalformedField, bytes))
        } else if as_signed16(be_value(bytes)) == -32768 {
            Ok(TLVView::PlatformPitchAngle(None))
        } else {
            Ok(TLVView::PlatformPitchAngle(Some(as_signed16(be_value(bytes)) as i16)))
        }
    } else {
        Ok(TLVView::Unknown(bytes))
    }
}

/// The fields that a run of records decodes to, or the error of the first
/// record, in order, that does not decode.
pub open spec fn spec_parse_tlvs(rs: Seq<(u32, Seq<u8>)>) -> Result<Seq<TLVView>, (ErrorKind, Seq<u8>)>
    decreases rs.len(),
{
    if rs.len() == 0 {
        Ok(Seq::empty())
    } else {
        match spec_parse_tlvs(rs.drop_last()) {
            Err(e) => Err(e),
            Ok(fs) => match spec_decode_field(rs.last().0, rs.last().1) {
                Err(e) => Err(e),
                Ok(f) => Ok(fs.push(f)),
            },
        }
    }
}

/// The pitch that `raw` stands for, in degrees and times 32767: the pitch
/// is `raw / 32767 * 20` degrees.
pub open spec fn pitch_degrees_scaled(raw: i16) -> int {
    raw * 20
}

/// The heading that `raw` stands for, in full turns and times 65535: the
/// heading is `raw / 65535` of a turn.
pub open spec fn heading_turns_scaled(raw: u16) -> int {
    raw as int
}

/// `String::push` of std: the string afterwards is the string before with
/// `ch` behind its last character.
pub assume_specification[ String::push ](s: &mut String, ch: char)
    ensures
        final(s)@ == old(s)@.push(ch),
;

/// Reads a field of exactly two bytes as an unsigned number.
fn be_u16<'a>(bytes: &'a [u8]) -> (r: Result<u16, KlvError<'a>>)
    ensures
        bytes@.len() == 2 ==> (r matches Ok(v) && v == be_value(bytes@)),
        bytes@.len() != 2 ==> (r matches Err(e) && e@ == (ErrorKind::MalformedField, bytes@)),
{
    if bytes.len() != 2 {
        return Err(KlvError { kind: ErrorKind::MalformedField, at: bytes });
    }
    proof {
        lemma_be_value_2(bytes@);
    }
    Ok(bytes[0] as u16 * 0x100 + bytes[1] as u16)
}

/// Reads a field of exactly two bytes as a signed number in two's
/// complement.
fn be_i16<'a>(bytes: &'a [u8]) -> (r: Result<i16, KlvError<'a>>)
    ensures
        bytes@.len() == 2 ==> (r matches Ok(v) && v == as_signed16(be_value(bytes@))),
        bytes@.len() != 2 ==> (r matches Err(e) && e@ == (ErrorKind::MalformedField, bytes@)),
{
    match be_u16(bytes) {
        Err(e) => Err(e),
        Ok(v) => if v < 0x8000 {
            Ok(v as i16)
        } else {
            Ok((v as i32 - 0x1_0000) as i16)
        },
    }
}

/// Reads a field of exactly eight bytes as an unsigned number.
fn be_u64<'a>(bytes: &'a [u8]) -> (r: Result<u64, KlvError<'a>>)
    ensures
        bytes@.len() == 8 ==> (r matches Ok(v) && v == be_value(bytes@)),
        bytes@.len() != 8 ==> (r matches Err(e) && e@ == (ErrorKind::MalformedField, bytes@)),
{
    if bytes.len() != 8 {
        return Err(KlvError { kind: ErrorKind::MalformedField, at: bytes });
    }
    proof {
        lemma_be_value_8(bytes@);
    }
    Ok(
        bytes[0] as u64 * 0x100_0000_0000_0000 + bytes[1] as u64 * 0x1_0000_0000_0000 + bytes[2] as u64
            * 0x100_0000_0000 + bytes[3] as u64 * 0x1_0000_0000 + bytes[4] as u64 * 0x100_0000
            + bytes[5] as u64 * 0x1_0000 + bytes[6] as u64 * 0x100 + bytes[7] as u64,
    )
}

/// Makes a string of ASCII bytes, one character per byte; fails where a
/// byte is 128 or more.
pub fn ascii_string<'a>(i: &'a [u8]) -> (r: Result<String, KlvError<'a>>)
    ensures
        all_ascii(i@) ==> (r matches Ok(s) && s@ == ascii_chars(i@)),
        !all_ascii(i@) ==> (r matches Err(e) && e@ == (ErrorKind::NonAsciiString, i@)),
{
    let mut s = String::new();
    let mut k: usize = 0;
    while k < i.len()
        invariant
            k <= i.len(),
            all_ascii(i@.take(k as int)),
            s@ == ascii_chars(i@.take(k as int)),
        decreases i.len() - k,
    {
        let b: u8 = i[k];
        if b >= 128 {
            return Err(KlvError { kind: ErrorKind::NonAsciiString, at: i });
        }
        s.push(b as char);
        proof {
            assert(ascii_chars(i@.take(k + 1)) =~= ascii_chars(i@.take(k as int)).push(b as char));
        }
        k += 1;
    }
    proof {
        assert(i@.take(k as int) =~= i@);
    }
    Ok(s)
}

/// Decodes one record by its tag.
pub fn decode_field<'a>(record: &TLVRaw<'a>) -> (r: Result<TLV, KlvError<'a>>)
    ensures
        match spec_decode_field(record.tag, record.bytes@) {
            Ok(field) => r matches Ok(f) && f@ == field,
            Err(e) => r matches Err(f) && f@ == e,
        },
{
    let bytes = record.bytes;
    match record.tag {
        1 => match be_u16(bytes) {
            Err(e) => Err(e),
            Ok(v) => Ok(TLV::Checksum(v)),
        },
        2 => match be_u64(bytes) {
            Err(e) => Err(e),
            Ok(ts) => {
                let seconds: u64 = ts / 1_000_000;
                let nanos: u64 = (ts % 1_000_000) * 1000;
                Ok(
                    TLV::PrecisionTimeStamp(
                        Timestamp { seconds: seconds as i64, nanos: nanos as u32 },
                    ),
                )
            },
        },
        3 => match ascii_string(bytes) {
            Err(e) => Err(e),
            Ok(s) => Ok(TLV::MissionID(s)),
        },
        4 => match ascii_string(bytes) {
            Err(e) => Err(e),
            Ok(s) => Ok(TLV::PlatformTailNumber(s)),
        },
        5 => match be_u16(bytes) {
            Err(e) => Err(e),
            Ok(v) => Ok(TLV::PlatformHeadingAngle(v)),
        },
        6 => match be_i16(bytes) {
            Err(e) => Err(e),
            Ok(v) => if v == -32768i16 {
                Ok(TLV::PlatformPitchAngle(None))
            } else {
                Ok(TLV::PlatformPitchAngle(Some(v)))
            },
        },
        _ => Ok(TLV::Unknown(slice_to_vec(bytes))),
    }
}

/// Decodes all the records of a packet, in order. The first record that
/// does not decode ends the work with its error, and no fields are returned.
pub fn parse_tlvs<'a>(tlvs: Vec<TLVRaw<'a>>) -> (r: Result<Vec<TLV>, KlvError<'a>>)
    ensures
        match spec_parse_tlvs(records_view(tlvs@)) {
            Ok(fields) => r matches Ok(fs) && fields_view(fs@) == fields,
            Err(e) => r matches Err(f) && f@ == e,
        },
{
    let ghost rs = records_view(tlvs@);
    let mut fields: Vec<TLV> = Vec::new();
    let mut k: usize = 0;
    proof {
        assert(fields_view(fields@) =~= Seq::<TLVView>::empty());
    }
    while k < tlvs.len()
        invariant
            k <= tlvs.len(),
            rs == records_view(tlvs@),
            spec_parse_tlvs(rs.take(k as int)) == Ok::<Seq<TLVView>, (ErrorKind, Seq<u8>)>(fields_view(fields@)),
        decreases tlvs.len() - k,
    {
        proof {
            assert(rs.take(k + 1).drop_last() =~= rs.take(k as int));
            assert(rs.take(k + 1).last() == tlvs@[k as int]@);
        }
        match decode_field(&tlvs[k]) {
            Err(e) => {
                proof {
                    lemma_parse_tlvs_fails(rs, k + 1);
                }
                return Err(e);
            },
            Ok(field) => {
                proof {
                    assert(fields_view(fields@.push(field)) =~= fields_view(fields@).push(field@));
                }
                fields.push(field);
            },
        }
        k += 1;
    }
    proof {
        assert(rs.take(k as int) =~= rs);
    }
    Ok(fields)
}

/// Where a front part of the records fails, the whole fails in the same way.
pub proof fn lemma_parse_tlvs_fails(rs: Seq<(u32, Seq<u8>)>, k: int)
    requires
        0 <= k <= rs.len(),
        spec_parse_tlvs(rs.take(k)) is Err,
    ensures
        spec_parse_tlvs(rs) == spec_parse_tlvs(rs.take(k)),
    decreases rs.len(),
{
    if k == rs.len() {
        assert(rs.take(k) =~= rs);
    } else {
        assert(rs.drop_last().take(k) =~= rs.take(k));
        lemma_parse_tlvs_fails(rs.drop_last(), k);
    }
}

/// Two value bytes under tag 6 that spell -32768 decode to no angle. Any
/// other two bytes decode to the signed number that they spell, and the
/// pitch that it stands for lies between -20 and 20 degrees.
pub proof fn lemma_pitch_field(bytes: Seq<u8>)
    requires
        bytes.len() == 2,
    ensures
        as_signed16(be_value(bytes)) == -32768 ==> spec_decode_field(6, bytes) == Ok::<
            TLVView,
            (ErrorKind, Seq<u8>),
        >(TLVView::PlatformPitchAngle(None)),
        as_signed16(be_value(bytes)) != -32768 ==> (spec_decode_field(6, bytes) matches Ok(
            TLVView::PlatformPitchAngle(Some(v)),
        ) && v == as_signed16(be_value(bytes)) && -20 * 32767 <= pitch_degrees_scaled(v) <= 20
            * 32767),
{
    lemma_be_value_2(bytes);
}

/// But for -32767, which stands for -20 degrees itself, every pitch lies
/// above -20 degrees.
pub proof fn lemma_pitch_above_lower_bound(raw: i16)
    requires
        raw != -32768,
        raw != -32767,
    ensures
        -20 * 32767 < pitch_degrees_scaled(raw) <= 20 * 32767,
{
}

/// Two value bytes under tag 5 decode to the unsigned number that they
/// spell, and the heading that it stands for lies between nothing and a
/// full turn, which only 65535 reaches.
pub proof fn lemma_heading_field(bytes: Seq<u8>)
    requires
        bytes.len() == 2,
    ensures
        spec_decode_field(5, bytes) matches Ok(TLVView::PlatformHeadingAngle(v)) && v == be_value(
            bytes,
        ) && 0 <= heading_turns_scaled(v) <= 65535 && (v != 65535 ==> heading_turns_scaled(v)
            < 65535),
{
    lemma_be_value_2(bytes);
}

/// Eight value bytes under tag 2 decode to the instant that many
/// microseconds behind the epoch: the whole seconds, and the microseconds
/// left over as nanoseconds, which stay below a second.
pub proof fn lemma_timestamp_field(bytes: Seq<u8>)
    requires
        bytes.len() == 8,
    ensures
        spec_decode_field(2, bytes) matches Ok(TLVView::PrecisionTimeStamp(t)) && t.seconds
            * 1_000_000_000 + t.nanos == be_value(bytes) * 1000 && t.nanos < 1_000_000_000
            && t.nanos % 1000 == 0 && t.seconds >= 0,
{
    lemma_be_value_8(bytes);
}

/// Whether record `k` of `rs` decodes.
pub open spec fn decodes(rs: Seq<(u32, Seq<u8>)>, k: int) -> bool {
    spec_decode_field(rs[k].0, rs[k].1) is Ok
}

/// The fields come out where every record decodes, and only there. They are
/// then as many as the records, and each is the field of its record.
pub proof fn lemma_parse_tlvs_all(rs: Seq<(u32, Seq<u8>)>)
    ensures
        spec_parse_tlvs(rs) is Ok <==> forall|k: int| 0 <= k < rs.len() ==> decodes(rs, k),
        spec_parse_tlvs(rs) matches Ok(fs) ==> fs.len() == rs.len() && forall|k: int|
            0 <= k < rs.len() ==> spec_decode_field(rs[k].0, rs[k].1) == Ok::<
                TLVView,
                (ErrorKind, Seq<u8>),
            >(#[trigger] fs[k]),
    decreases rs.len(),
{
    if rs.len() > 0 {
        let front = rs.drop_last();
        lemma_parse_tlvs_all(front);
        assert forall|k: int| 0 <= k < front.len() implies decodes(front, k) == decodes(rs, k) by {
            assert(front[k] == rs[k]);
        }
        if spec_parse_tlvs(rs) is Ok {
            assert forall|k: int| 0 <= k < rs.len() implies decodes(rs, k) by {
                if k < front.len() {
                    assert(decodes(front, k));
                }
            }
        }
        if forall|k: int| 0 <= k < rs.len() ==> decodes(rs, k) {
            assert(decodes(rs, rs.len() - 1));
            assert forall|k: int| 0 <= k < front.len() implies decodes(front, k) by {
                assert(decodes(rs, k));
            }
        }
    }
}

/// Where a record does not decode and all before it do, the whole fails
/// with the error of that record.
pub proof fn lemma_parse_tlvs_first_error(rs: Seq<(u32, Seq<u8>)>, k: int)
    requires
        0 <= k < rs.len(),
        forall|j: int| 0 <= j < k ==> decodes(rs, j),
        !decodes(rs, k),
    ensures
        spec_parse_tlvs(rs) == Err::<Seq<TLVView>, (ErrorKind, Seq<u8>)>(
            spec_decode_field(rs[k].0, rs[k].1)->Err_0,
        ),
{
    let front = rs.take(k);
    lemma_parse_tlvs_all(front);
    assert forall|j: int| 0 <= j < front.len() implies decodes(front, j) by {
        assert(decodes(rs, j));
    }
    assert(rs.take(k + 1).drop_last() =~= front);
    assert(rs.take(k + 1).last() == rs[k]);
    lemma_parse_tlvs_fails(rs, k + 1);
}

} // verus!
