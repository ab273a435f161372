//! The library's error type.
use vstd::prelude::*;

verus! {

/// Errors returned by the parsers, serializers and packagers of this crate.
#[derive(Debug, Clone, PartialEq, Eq)]
pub enum Error {
    /// The input ended before a required field: `need` bytes were required,
    /// `have` were available.
    BufferTooShort { need: usize, have: usize, what: &'static str },
    /// The caller-supplied output buffer cannot hold the encoding.
    OutputBufferTooSmall { need: usize, have: usize },
    /// A field carried a value the format does not permit.
    InvalidValue { field: &'static str, value: u64, reason: &'static str },
    /// The input is malformed in a way not tied to one numeric field.
    InvalidInput(&'static str),
    /// A required box was not found.
    UnexpectedBox { expected: &'static str },
    /// A sample entry names a codec this crate does not reconstruct.
    UnsupportedSampleEntry { fourcc: String },
    /// A codec that has no representation in the requested container.
    UnsupportedCodec { codec: &'static str },
    /// A malformed playlist line.
    HlsParse { line_no: usize },
}

} // verus!
