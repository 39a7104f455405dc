use vstd::prelude::*;

verus! {

/// The ways in which a decode attempt can fail. Every kind is final for that
/// attempt: nothing is retried and no partial result is handed out.
#[derive(Clone, Copy, Debug, PartialEq, Eq, Structural)]
pub enum ErrorKind {
    /// The buffer ends before the failing step could read what it needs.
    /// The number is how many bytes that step asks for at the place where
    /// it stands.
    Incomplete(usize),
    /// A long-form length whose first byte announces zero following bytes.
    InvalidLongForm,
    /// A length that does not fit in 32 bits.
    LengthOverflow,
    /// A tag that does not fit in 32 bits.
    TagOverflow,
    /// The buffer does not begin with the universal key.
    KeyMismatch,
    /// A fixed-width field whose record has another byte count.
    MalformedField,
    /// A string field that holds a byte of 128 or more.
    NonAsciiString,
}

/// A failure: its kind, and the bytes that the failing step was given, from
/// its first byte to the end of the buffer that it saw.
#[derive(Clone, Copy, Debug, PartialEq, Eq)]
pub struct KlvError<'a> {
    pub kind: ErrorKind,
    pub at: &'a [u8],
}

impl<'a> View for KlvError<'a> {
    type V = (ErrorKind, Seq<u8>);

    open spec fn view(&self) -> (ErrorKind, Seq<u8>) {
        (self.kind, self.at@)
    }
}

} // verus!
