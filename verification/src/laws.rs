//! Decoding has no hidden state: what a decoder returns depends on the bytes
//! that it is given and on nothing else.

use crate::errors::KlvError;
use crate::packet::{records_view, udl_tlvs, TLVRaw};
use crate::tlv::{fields_view, parse_tlvs, TLV};
use vstd::prelude::*;

verus! {

/// Two runs of `udl_tlvs` on buffers that hold the same bytes end in the
/// same way: with the same records and the same bytes left over, or with the
/// same error at the same place.
pub proof fn lemma_udl_tlvs_repeatable<'a, 'b>(
    i: &'a [u8],
    j: &'b [u8],
    first: Result<(&'a [u8], Vec<TLVRaw<'a>>), KlvError<'a>>,
    second: Result<(&'b [u8], Vec<TLVRaw<'b>>), KlvError<'b>>,
)
    requires
        i@ == j@,
        call_ensures(udl_tlvs, (i,), first),
        call_ensures(udl_tlvs, (j,), second),
    ensures
        match (first, second) {
            (Ok((rest1, records1)), Ok((rest2, records2))) => rest1@ == rest2@ && records_view(
                records1@,
            ) == records_view(records2@),
            (Err(e1), Err(e2)) => e1@ == e2@,
            _ => false,
        },
{
}

/// Two runs of `parse_tlvs` on records that hold the same tags and bytes end
/// in the same way: with the same fields, or with the same error.
pub proof fn lemma_parse_tlvs_repeatable<'a, 'b>(
    a: Vec<TLVRaw<'a>>,
    b: Vec<TLVRaw<'b>>,
    first: Result<Vec<TLV>, KlvError<'a>>,
    second: Result<Vec<TLV>, KlvError<'b>>,
)
    requires
        records_view(a@) == records_view(b@),
        call_ensures(parse_tlvs, (a,), first),
        call_ensures(parse_tlvs, (b,), second),
    ensures
        match (first, second) {
            (Ok(fields1), Ok(fields2)) => fields_view(fields1@) == fields_view(fields2@),
            (Err(e1), Err(e2)) => e1@ == e2@,
            _ => false,
        },
{
}

} // verus!
