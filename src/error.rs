//! Failures of archive construction.
use vstd::prelude::*;

verus! {

#[derive(Clone, Copy, Debug, PartialEq, Eq, Structural)]
pub enum CarError {
    /// The hash-function code is not in the registry.
    UnsupportedHashFunction,
    /// The content-type code is not in the registry.
    UnsupportedContentType,
    /// A block was sent after the encoder stopped receiving.
    ChannelClosed,
    /// The header or a block frame could not be serialized.
    EncodingError,
}

} // verus!
