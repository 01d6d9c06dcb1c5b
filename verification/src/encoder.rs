//! The encoders of the `compression-codecs` crate that the codecs stand for,
//! and what is claimed of the way they are made.
//!
//! An encoder is known by the settings that it was made with.
use crate::codec::Codec;
use compression_codecs::brotli::params::EncoderParams;
use compression_codecs::brotli::BrotliEncoder;
use compression_codecs::deflate::DeflateEncoder;
use compression_codecs::flate::params::FlateEncoderParams;
use compression_codecs::gzip::GzipEncoder;
use compression_codecs::zstd::ZstdEncoder;
use vstd::prelude::*;

verus! {

/// The Zstandard encoder of the `compression-codecs` crate.
#[verifier::external_type_specification]
#[verifier::external_body]
pub struct ExZstdEncoder(ZstdEncoder);

/// The Brotli encoder of the `compression-codecs` crate.
#[verifier::external_type_specification]
#[verifier::external_body]
pub struct ExBrotliEncoder(BrotliEncoder);

/// The Brotli parameters of the `compression-codecs` crate.
#[verifier::external_type_specification]
#[verifier::external_body]
pub struct ExEncoderParams(EncoderParams);

/// The gzip encoder of the `compression-codecs` crate.
#[verifier::external_type_specification]
#[verifier::external_body]
pub struct ExGzipEncoder(GzipEncoder);

/// The deflate encoder of the `compression-codecs` crate.
#[verifier::external_type_specification]
#[verifier::external_body]
pub struct ExDeflateEncoder(DeflateEncoder);

/// The parameters of the gzip and deflate encoders.
#[verifier::external_type_specification]
#[verifier::external_body]
pub struct ExFlateEncoderParams(FlateEncoderParams);

/// The compression level that a Zstandard encoder was made with.
pub uninterp spec fn zstd_level(encoder: ZstdEncoder) -> int;

/// What can be set in Brotli parameters: the quality, the binary logarithms of
/// the window size and of the block size, the hint at the size of the input,
/// and the mode, as the numbers that Brotli gives them.
pub uninterp spec fn brotli_settings(params: EncoderParams) -> (int, int, int, int, int);

/// The settings that a Brotli encoder was made with.
pub uninterp spec fn brotli_encoder_settings(encoder: BrotliEncoder) -> (int, int, int, int, int);

/// The compression level in the parameters of the gzip and deflate encoders.
pub uninterp spec fn flate_level(params: FlateEncoderParams) -> int;

/// The compression level that a gzip encoder was made with.
pub uninterp spec fn gzip_level(encoder: GzipEncoder) -> int;

/// The compression level that a deflate encoder was made with.
pub uninterp spec fn deflate_level(encoder: DeflateEncoder) -> int;

/// `ZstdEncoder::new`: an encoder with the level that is asked for.
pub assume_specification[ ZstdEncoder::new ](level: i32) -> (encoder: ZstdEncoder)
    requires
        1 <= level <= 22,
    ensures
        zstd_level(encoder) == level,
;

/// The settings of Brotli by itself: the highest quality, a window of 4 MiB,
/// blocks of a size that the encoder picks, no hint, and the generic mode.
pub open spec fn brotli_defaults() -> (int, int, int, int, int) {
    (11, 22, 0, 0, 0)
}

/// `EncoderParams::default`: the settings of Brotli by itself.
pub assume_specification[ <EncoderParams as core::default::Default>::default ]() -> (params:
    EncoderParams)
    ensures
        brotli_settings(params) == brotli_defaults(),
;

/// `BrotliEncoder::new`: an encoder with the parameters that it is given.
pub assume_specification[ BrotliEncoder::new ](params: EncoderParams) -> (encoder: BrotliEncoder)
    ensures
        brotli_encoder_settings(encoder) == brotli_settings(params),
;

/// `GzipEncoder::new`: an encoder with the parameters that it is given.
pub assume_specification[ GzipEncoder::new ](level: FlateEncoderParams) -> (encoder: GzipEncoder)
    requires
        0 <= flate_level(level) <= 9,
    ensures
        gzip_level(encoder) == flate_level(level),
;

/// `DeflateEncoder::new`: an encoder with the parameters that it is given.
pub assume_specification[ DeflateEncoder::new ](level: FlateEncoderParams) -> (encoder:
    DeflateEncoder)
    requires
        0 <= flate_level(level) <= 9,
    ensures
        deflate_level(encoder) == flate_level(level),
;

/// How much effort goes into compression.
#[derive(Debug, Clone, Copy, PartialEq, Eq, Structural)]
pub enum Level {
    /// As little as there can be.
    Fastest,
    /// As much as there can be.
    Best,
    /// What the algorithm takes by itself.
    Default,
    /// A number on the algorithm's own scale.
    Precise(i32),
}

/// The level of the gzip and deflate encoders, from zero to nine.
pub open spec fn flate_level_of(level: Level) -> int {
    match level {
        Level::Fastest => 1,
        Level::Best => 9,
        Level::Default => 6,
        Level::Precise(quality) => if quality < 0 {
            0
        } else if quality > 9 {
            9
        } else {
            quality as int
        },
    }
}

/// `FlateEncoderParams::from` for a level of the `compression-core` crate: the
/// parameters with that level on a scale from zero to nine.
#[verifier::external_body]
fn flate_params(level: Level) -> (params: FlateEncoderParams)
    ensures
        flate_level(params) == flate_level_of(level),
{
    FlateEncoderParams::from(match level {
        Level::Fastest => compression_core::Level::Fastest,
        Level::Best => compression_core::Level::Best,
        Level::Default => compression_core::Level::Default,
        Level::Precise(quality) => compression_core::Level::Precise(quality),
    })
}

/// An encoder for one of the codecs.
#[derive(Debug)]
pub enum Encoder {
    Zstd(ZstdEncoder),
    Brotli(BrotliEncoder),
    Gzip(GzipEncoder),
    Deflate(DeflateEncoder),
}

/// `encoder` is the one for this codec, with the settings in use: Zstandard at
/// level 3, and the other algorithms with their own defaults.
pub open spec fn encodes(encoder: Encoder, codec: Codec) -> bool {
    match (codec, encoder) {
        (Codec::Zstd, Encoder::Zstd(zstd)) => zstd_level(zstd) == 3,
        (Codec::Brotli, Encoder::Brotli(brotli)) => brotli_encoder_settings(brotli)
            == brotli_defaults(),
        (Codec::Gzip, Encoder::Gzip(gzip)) => gzip_level(gzip) == 6,
        (Codec::Deflate, Encoder::Deflate(deflate)) => deflate_level(deflate) == 6,
        _ => false,
    }
}

impl Codec {
    /// Creates a new encoder for this codec.
    pub fn encoder(&self) -> (r: Encoder)
        ensures
            encodes(r, *self),
    {
        match self {
            Codec::Zstd => Encoder::Zstd(ZstdEncoder::new(3)),
            Codec::Brotli => Encoder::Brotli(BrotliEncoder::new(EncoderParams::default())),
            Codec::Gzip => Encoder::Gzip(GzipEncoder::new(flate_params(Level::Default))),
            Codec::Deflate => Encoder::Deflate(DeflateEncoder::new(flate_params(Level::Default))),
        }
    }
}

} // verus!
