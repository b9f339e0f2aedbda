//! What can go wrong while a trail is decoded.

use vstd::prelude::*;

verus! {

/// A record could not be cut out of the stream. The bytes at the reader's
/// position cannot be trusted to be a record.
#[derive(Clone, Copy, Debug, PartialEq, Eq, Structural)]
pub enum FramingError {
    /// The byte at the start of the record is no record-start tag.
    UnknownRecordTag,
    /// The declared byte count is shorter than the header it belongs to, or
    /// longer than any sane record.
    InvalidRecordLength,
    /// The stream ends before the declared number of bytes.
    TruncatedRecordError,
}

/// The header of a framed record could not be decoded, so no record is built.
#[derive(Clone, Copy, Debug, PartialEq, Eq, Structural)]
pub enum HeaderError {
    /// The version field is neither 1 nor 2.
    UnsupportedVersion,
    /// The address type of an extended header is neither 4 nor 16.
    UnsupportedAddressType,
    /// The header, with the address it declares, is longer than the record.
    HeaderOverrun,
}

/// A token in the body of a record could not be decoded. The record is kept,
/// with the tokens before the failing one, and marked corrupt.
#[derive(Clone, Copy, Debug, PartialEq, Eq, Structural)]
pub enum TokenDecodeError {
    /// The token's tag is in no table.
    UnknownTokenTag,
    /// The token's length runs past the end of the record.
    TokenOverrunError,
    /// The unit type of an arbitrary-data token names no unit size, so the
    /// token's length cannot be told.
    UnknownDataUnit,
}

} // verus!
