use vstd::prelude::*;

verus! {

/// Failure conditions of the parser and of the demuxer session.
#[derive(Clone, Copy, Debug, PartialEq, Eq, Structural)]
pub enum Error {
    /// The magic signature is absent: the input is not a Y4M stream.
    NotThisFormat,
    /// The header line is not fully buffered yet; the caller must supply at
    /// least this many more bytes and retry.
    NeedMoreInput(usize),
    /// A header token is not valid text.
    InvalidEncoding,
    /// Media-unit extraction from the raw frame stream is not provided.
    NotImplemented,
    /// An operation was invoked on a closed session.
    InvalidState,
}

} // verus!
