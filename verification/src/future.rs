//! What a compressing service does with the outcome of the inner service.
use crate::body::CompressionBody;
use crate::codec::Codec;
use crate::response::{is_wrapped, refuses, wrap_response, HeadersFull, Response};
use vstd::prelude::*;

verus! {

/// The outcome of asking for a value that may not be there yet.
#[derive(Debug)]
pub enum Polled<T> {
    /// The value is not there yet.
    Pending,
    /// The value.
    Ready(T),
}

/// A response to come, with what decides about its compression.
#[derive(Debug)]
pub struct ResponseFuture<F> {
    pub inner: F,
    pub accepted_codec: Option<Codec>,
    pub min_size: usize,
}

impl<F> ResponseFuture<F> {
    /// A response that `inner` is to give.
    pub fn new(inner: F, accepted_codec: Option<Codec>, min_size: usize) -> (r: Self)
        ensures
            r == (ResponseFuture { inner, accepted_codec, min_size }),
    {
        ResponseFuture { inner, accepted_codec, min_size }
    }
}

/// What becomes of the outcome of the inner service: a response is wrapped,
/// and an error or a response that is not there yet is handed on.
pub fn poll<B, E>(
    polled: Polled<Result<Response<B>, E>>,
    accepted_codec: Option<Codec>,
    min_size: usize,
) -> (r: Result<Polled<Result<Response<CompressionBody<B>>, E>>, HeadersFull>)
    ensures
        match polled {
            Polled::Pending => r == Ok::<
                Polled<Result<Response<CompressionBody<B>>, E>>,
                HeadersFull,
            >(Polled::Pending),
            Polled::Ready(Err(error)) => r == Ok::<
                Polled<Result<Response<CompressionBody<B>>, E>>,
                HeadersFull,
            >(Polled::Ready(Err(error))),
            Polled::Ready(Ok(response)) => match r {
                Ok(Polled::Ready(Ok(wrapped))) => is_wrapped(
                    response,
                    accepted_codec,
                    min_size,
                    wrapped,
                ),
                Ok(_) => false,
                Err(_) => refuses(response, accepted_codec, min_size),
            },
        },
{
    match polled {
        Polled::Pending => Ok(Polled::Pending),
        Polled::Ready(Err(error)) => Ok(Polled::Ready(Err(error))),
        Polled::Ready(Ok(response)) => match wrap_response(response, accepted_codec, min_size) {
            Ok(wrapped) => Ok(Polled::Ready(Ok(wrapped))),
            Err(full) => Err(full),
        },
    }
}

} // verus!
