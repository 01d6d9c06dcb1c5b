use compression_codecs::brotli::params::EncoderParams;
use compression_codecs::flate::params::FlateEncoderParams;
use compression_codecs::{
    BrotliEncoder, DecodeV2, DeflateDecoder, DeflateEncoder, EncodeV2, GzipDecoder, GzipEncoder,
    ZstdDecoder, ZstdEncoder, BrotliDecoder,
};
use compression_core::util::{PartialBuffer, WriteBuffer};
use compression_core::Level;
use http_compression::codec::Codec;
use http_compression::encoder::Encoder;

fn sample() -> Vec<u8> {
    let mut seed: u32 = 1;
    let words = ["encoding", "gzip", "accept", "header", "quality", "vary"];
    let mut text = String::new();
    for _ in 0..4000 {
        seed = seed.wrapping_mul(1664525).wrapping_add(1013904223);
        text.push_str(words[(seed >> 24) as usize % words.len()]);
        text.push_str(&(seed >> 28).to_string());
    }
    text.into_bytes()
}

fn compress(encoder: &mut dyn EncodeV2, input: &[u8]) -> Vec<u8> {
    let mut space = vec![0_u8; 2 * input.len() + 1000];
    let mut output = WriteBuffer::new_initialized(&mut space);
    let mut source = PartialBuffer::new(input);
    while !source.unwritten().is_empty() {
        encoder.encode(&mut source, &mut output).unwrap();
    }
    while !encoder.finish(&mut output).unwrap() {}
    output.written().to_vec()
}

fn decompress(decoder: &mut dyn DecodeV2, input: &[u8], length: usize) -> Vec<u8> {
    let mut space = vec![0_u8; length + 1000];
    let mut output = WriteBuffer::new_initialized(&mut space);
    let mut source = PartialBuffer::new(input);
    while !decoder.decode(&mut source, &mut output).unwrap() {}
    decoder.finish(&mut output).unwrap();
    output.written().to_vec()
}

#[test]
fn zstd_encoder_has_level_three() {
    let input = sample();
    match Codec::Zstd.encoder() {
        Encoder::Zstd(mut encoder) => {
            let output = compress(&mut encoder, &input);
            assert_eq!(output, compress(&mut ZstdEncoder::new(3), &input));
            assert_ne!(output, compress(&mut ZstdEncoder::new(19), &input));
            assert_eq!(
                decompress(&mut ZstdDecoder::new(), &output, input.len()),
                input
            );
        }
        other => panic!("{other:?}"),
    }
}

#[test]
fn brotli_encoder_has_default_parameters() {
    let input = sample();
    match Codec::Brotli.encoder() {
        Encoder::Brotli(mut encoder) => {
            let output = compress(&mut encoder, &input);
            let explicit = EncoderParams::default()
                .quality(Level::Precise(11))
                .window_size(22);
            assert_eq!(output, compress(&mut BrotliEncoder::new(explicit), &input));
            let fast = EncoderParams::default().quality(Level::Fastest);
            assert_ne!(output, compress(&mut BrotliEncoder::new(fast), &input));
            assert_eq!(
                decompress(&mut BrotliDecoder::new(), &output, input.len()),
                input
            );
        }
        other => panic!("{other:?}"),
    }
}

#[test]
fn gzip_encoder_has_level_six() {
    let input = sample();
    match Codec::Gzip.encoder() {
        Encoder::Gzip(mut encoder) => {
            let output = compress(&mut encoder, &input);
            let six = FlateEncoderParams::from(Level::Precise(6));
            assert_eq!(output, compress(&mut GzipEncoder::new(six), &input));
            let one = FlateEncoderParams::from(Level::Fastest);
            assert_ne!(output, compress(&mut GzipEncoder::new(one), &input));
            assert_eq!(output[..3], [0x1f, 0x8b, 0x08]);
            assert_eq!(
                decompress(&mut GzipDecoder::new(), &output, input.len()),
                input
            );
        }
        other => panic!("{other:?}"),
    }
}

#[test]
fn deflate_encoder_has_level_six() {
    let input = sample();
    match Codec::Deflate.encoder() {
        Encoder::Deflate(mut encoder) => {
            let output = compress(&mut encoder, &input);
            let six = FlateEncoderParams::from(Level::Precise(6));
            assert_eq!(output, compress(&mut DeflateEncoder::new(six), &input));
            let one = FlateEncoderParams::from(Level::Fastest);
            assert_ne!(output, compress(&mut DeflateEncoder::new(one), &input));
            assert_eq!(
                decompress(&mut DeflateDecoder::new(), &output, input.len()),
                input
            );
        }
        other => panic!("{other:?}"),
    }
}
