//! Decoder for MISB ST0601 "UAS Datalink Local Set" packets.
//!
//! A packet is a 16-byte universal key, a length, and a payload of
//! tag-length-value records. Every function here is a pure function of the
//! bytes it is given, and its contract says which value or which error it
//! returns for every input.

pub mod ber;
pub mod ber_oid;
pub mod errors;
pub mod laws;
pub mod packet;
pub mod tlv;

pub use crate::ber::ber;
pub use crate::ber_oid::ber_oid;
pub use crate::errors::{ErrorKind, KlvError};
pub use crate::packet::{frame_records, raw_tlv, udl_bytes, udl_tlvs, TLVRaw, UDL_UNIVERSAL_KEY};
pub use crate::tlv::{ascii_string, decode_field, parse_tlvs, Timestamp, TLV};
