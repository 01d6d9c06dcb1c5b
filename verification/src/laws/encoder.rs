//! What holds of the encoders that the codecs stand for.
use crate::codec::Codec;
use crate::encoder::{
    brotli_encoder_settings, deflate_level, encodes, flate_level_of, gzip_level, zstd_level,
    Encoder, Level,
};
use vstd::prelude::*;

verus! {

/// The encoder of a codec is one for its own algorithm and for no other, with
/// the settings in use: Zstandard at level 3, Brotli at quality 11 with a
/// window of 2^22 bytes and nothing else set, and gzip and deflate at the level
/// that both take by themselves, 6.
pub proof fn law_encoder_settings(encoder: Encoder, codec: Codec)
    ensures
        encodes(encoder, codec) <==> match encoder {
            Encoder::Zstd(zstd) => codec == Codec::Zstd && zstd_level(zstd) == 3,
            Encoder::Brotli(brotli) => {
                let (quality, window, block, hint, mode) = brotli_encoder_settings(brotli);
                codec == Codec::Brotli && quality == 11 && window == 22 && block == 0 && hint == 0
                    && mode == 0
            },
            Encoder::Gzip(gzip) => codec == Codec::Gzip && gzip_level(gzip) == 6,
            Encoder::Deflate(deflate) => codec == Codec::Deflate && deflate_level(deflate) == 6,
        },
        flate_level_of(Level::Default) == 6,
{
}

/// No encoder serves two codecs.
pub proof fn law_encoders_serve_one_codec(encoder: Encoder, a: Codec, b: Codec)
    requires
        encodes(encoder, a),
        encodes(encoder, b),
    ensures
        a == b,
{
}

/// Levels of gzip and deflate stay on the scale from zero to nine, and on that
/// scale a number stands for itself.
pub proof fn law_flate_levels(level: Level)
    ensures
        0 <= flate_level_of(level) <= 9,
        level matches Level::Precise(quality) ==> (0 <= quality <= 9 ==> flate_level_of(level)
            == quality) && (quality < 0 ==> flate_level_of(level) == 0) && (quality > 9
            ==> flate_level_of(level) == 9),
{
}

} // verus!
