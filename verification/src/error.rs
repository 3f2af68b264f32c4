//! Error types for EDF header decoding.

use vstd::prelude::*;

verus! {

/// The reason a header field was rejected by its own validation rule, as
/// opposed to the input being short or not being text at all.
#[derive(Debug, Clone, Copy, PartialEq, Eq, Structural)]
pub enum HeaderError {
    /// The version field is not ASCII `'0'` followed by seven spaces.
    InvalidVersion,
    /// The start-date field is not `DD.MM.YY` or names no calendar date.
    InvalidDate,
    /// The start-time field is not `HH.MM.SS` or names no time of day.
    InvalidTime,
    /// The header-size field is not an unsigned decimal integer.
    InvalidSize,
    /// The record-count field is not a signed decimal integer.
    InvalidRecordsLen,
    /// The record count is zero or negative without being the `-1` sentinel.
    RecordsLenOutOfRange,
    /// The duration field is not a decimal number with at most one point.
    InvalidDuration,
    /// The duration has a fractional part other than zero, which this parser
    /// deliberately does not support.
    NonZeroDurationFraction,
    /// The signal-count field is not an unsigned decimal integer.
    InvalidSignalsLen,
}

/// The specific type of an error.
#[derive(Debug, Clone, Copy, PartialEq, Eq, Structural)]
pub enum ErrorKind {
    /// The input ended before the field starting at byte `offset` could be
    /// read in full.
    Io { offset: usize },
    /// The field starting at byte `offset` is not valid UTF-8 text.
    Utf8 { offset: usize },
    /// A field was read and decoded but failed its validation rule.
    Header(HeaderError),
}

/// An error that can occur when processing EDF data.
#[derive(Debug, Clone, Copy, PartialEq, Eq, Structural)]
pub struct Error(ErrorKind);

impl View for Error {
    type V = ErrorKind;

    closed spec fn view(&self) -> ErrorKind {
        self.0
    }
}

impl Error {
    /// Wraps an [`ErrorKind`] as an [`Error`].
    pub fn new(kind: ErrorKind) -> (r: Error)
        ensures
            r@ == kind,
    {
        Error(kind)
    }

    /// The specific type of this error.
    pub fn kind(&self) -> (r: ErrorKind)
        ensures
            r == self@,
    {
        self.0
    }
}

} // verus!
