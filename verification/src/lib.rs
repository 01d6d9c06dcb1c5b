//! Compression of HTTP responses: which codec a client accepts, whether a
//! response is to be compressed, and what that does to its headers.
pub mod body;
pub mod codec;
pub mod encoder;
pub mod future;
pub mod headers;
pub mod laws;
pub mod natural;
pub mod quality;
pub mod response;
pub mod text;
