//! Response bodies, with or without compression.
use crate::codec::Codec;
use vstd::prelude::*;

verus! {

/// How far the compression of a body has come.
#[derive(Debug, Clone, Copy, PartialEq, Eq, Structural)]
#[non_exhaustive]
pub enum CompressState {
    /// The inner body is being read.
    Reading,
}

/// What is known about the compression of a body.
#[derive(Debug, Clone, Copy, PartialEq, Eq, Structural)]
pub struct Compression {
    pub codec: Codec,
    pub always_flush: bool,
    pub state: CompressState,
}

impl Compression {
    /// How far the compression has come.
    pub fn state(&self) -> (r: CompressState)
        ensures
            r == self.state,
    {
        self.state
    }

    /// Whether everything that was read is flushed at once.
    pub fn always_flush(&self) -> (r: bool)
        ensures
            r == self.always_flush,
    {
        self.always_flush
    }
}

/// A response body that is compressed on its way, or handed on as it is.
#[derive(Debug)]
pub enum CompressionBody<B> {
    /// The inner body is compressed.
    Compressed { inner: B, state: Compression },
    /// The inner body is handed on.
    Passthrough { inner: B },
}

impl<B> CompressionBody<B> {
    /// A body to be compressed, of which nothing has been read yet.
    pub fn compressed(inner: B, codec: Codec, always_flush: bool) -> (r: CompressionBody<B>)
        ensures
            r == (CompressionBody::Compressed {
                inner,
                state: Compression { codec, always_flush, state: CompressState::Reading },
            }),
    {
        CompressionBody::Compressed {
            inner,
            state: Compression { codec, always_flush, state: CompressState::Reading },
        }
    }

    /// A body to be handed on.
    pub fn passthrough(inner: B) -> (r: CompressionBody<B>)
        ensures
            r == (CompressionBody::Passthrough { inner }),
    {
        CompressionBody::Passthrough { inner }
    }
}

} // verus!
