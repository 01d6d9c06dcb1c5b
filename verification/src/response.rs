//! The decision whether a response is compressed, and what that does to its
//! headers.
use crate::body::{Compression, CompressionBody, CompressState};
use crate::codec::Codec;
use crate::headers::{
    bytes_of, contains_key, get, get_all, header_contents, is_header_name, is_visible_char,
    names_limit, remove, text_of, try_append, try_insert, value_bytes, values_of,
};
use crate::text::{
    begins_with, characters, fields, parse_word, same_ignoring_case, spells_ignoring_case, split,
    starts_with, trim, trimmed, word_value,
};
use http::header::{HeaderMap, HeaderValue};
use vstd::prelude::*;

verus! {

/// A response: its status code, its headers and its body.
#[derive(Debug)]
pub struct Response<B> {
    pub status: u16,
    pub headers: HeaderMap,
    pub body: B,
}

/// The error for a response whose header map has no room for another name.
#[derive(Debug, Clone, Copy, PartialEq, Eq, Structural)]
pub struct HeadersFull;

/// The first value under a name, where it is text.
pub open spec fn first_text(contents: Map<Seq<char>, Seq<Seq<u8>>>, name: Seq<char>) -> Option<
    Seq<char>,
> {
    if values_of(contents, name).len() > 0 {
        text_of(values_of(contents, name)[0])
    } else {
        None
    }
}

/// The response has no body: it is informational (1xx), 204 No Content or 304
/// Not Modified.
pub open spec fn is_bodiless(status: u16) -> bool {
    100 <= status < 200 || status == 204 || status == 304
}

/// The content is an image that is not SVG.
pub open spec fn is_uncompressible(contents: Map<Seq<char>, Seq<Seq<u8>>>) -> bool {
    match first_text(contents, "content-type"@) {
        Some(text) => begins_with(text, "image/"@) && !begins_with(text, "image/svg+xml"@),
        None => false,
    }
}

/// The content is a stream of events or gRPC messages.
pub open spec fn is_streaming(contents: Map<Seq<char>, Seq<Seq<u8>>>) -> bool {
    match first_text(contents, "content-type"@) {
        Some(text) => begins_with(text, "text/event-stream"@) || begins_with(
            text,
            "application/grpc"@,
        ),
        None => false,
    }
}

/// The response asks intermediaries not to buffer it.
pub open spec fn is_unbuffered(contents: Map<Seq<char>, Seq<Seq<u8>>>) -> bool {
    match first_text(contents, "x-accel-buffering"@) {
        Some(text) => same_ignoring_case(text, "no"@),
        None => false,
    }
}

/// The headers give a length below the minimum.
pub open spec fn is_too_small(contents: Map<Seq<char>, Seq<Seq<u8>>>, min_size: usize) -> bool {
    match first_text(contents, "content-length"@) {
        Some(text) => match word_value(text) {
            Some(length) => length < min_size,
            None => false,
        },
        None => false,
    }
}

/// An entry of a Vary header that covers Accept-Encoding.
pub open spec fn covers_accept_encoding(entry: Seq<char>) -> bool {
    same_ignoring_case(trimmed(entry), "*"@) || same_ignoring_case(
        trimmed(entry),
        "accept-encoding"@,
    )
}

/// A list of entries of which one covers Accept-Encoding.
pub open spec fn one_covers(entries: Seq<Seq<char>>) -> bool {
    exists|i: int| 0 <= i < entries.len() && covers_accept_encoding(#[trigger] entries[i])
}

/// A value of a Vary header with an entry that covers Accept-Encoding.
pub open spec fn value_covers(value: Seq<u8>) -> bool {
    match text_of(value) {
        Some(text) => one_covers(fields(text, ',')),
        None => false,
    }
}

/// The Vary headers cover Accept-Encoding.
pub open spec fn varies(contents: Map<Seq<char>, Seq<Seq<u8>>>) -> bool {
    exists|i: int|
        0 <= i < values_of(contents, "vary"@).len() && value_covers(
            #[trigger] values_of(contents, "vary"@)[i],
        )
}

/// The headers with Accept-Encoding among the Vary headers.
pub open spec fn with_vary(contents: Map<Seq<char>, Seq<Seq<u8>>>) -> Map<
    Seq<char>,
    Seq<Seq<u8>>,
> {
    if varies(contents) {
        contents
    } else {
        contents.insert(
            "vary"@,
            values_of(contents, "vary"@).push(bytes_of("accept-encoding"@)),
        )
    }
}

/// The headers allow compression.
pub open spec fn is_compressible(contents: Map<Seq<char>, Seq<Seq<u8>>>, min_size: usize) -> bool {
    &&& !contents.contains_key("content-encoding"@)
    &&& !contents.contains_key("content-range"@)
    &&& !is_uncompressible(contents)
    &&& !is_too_small(contents, min_size)
}

/// The codec that a response is compressed with, if it is compressed.
pub open spec fn applied_codec(
    status: u16,
    contents: Map<Seq<char>, Seq<Seq<u8>>>,
    accepted_codec: Option<Codec>,
    min_size: usize,
) -> Option<Codec> {
    if !is_bodiless(status) && is_compressible(contents, min_size) {
        accepted_codec
    } else {
        None
    }
}

/// The headers with the encoding set and without what holds only of the
/// uncompressed content.
pub open spec fn with_encoding(
    contents: Map<Seq<char>, Seq<Seq<u8>>>,
    codec: Codec,
) -> Map<Seq<char>, Seq<Seq<u8>>> {
    contents.insert("content-encoding"@, seq![bytes_of(codec.name())]).remove(
        "content-length"@,
    ).remove("accept-ranges"@)
}

/// The headers of a compressed response.
pub open spec fn compressed_headers(
    contents: Map<Seq<char>, Seq<Seq<u8>>>,
    codec: Codec,
) -> Map<Seq<char>, Seq<Seq<u8>>> {
    with_vary(with_encoding(contents, codec))
}

/// What the header names and values in use hold.
proof fn lemma_literals()
    ensures
        is_header_name("content-encoding"@),
        is_header_name("content-range"@),
        is_header_name("content-length"@),
        is_header_name("content-type"@),
        is_header_name("accept-ranges"@),
        is_header_name("vary"@),
        is_header_name("x-accel-buffering"@),
        forall|i: int|
            0 <= i < "accept-encoding"@.len() ==> is_visible_char(#[trigger] "accept-encoding"@[i]),
{
    reveal_strlit("content-encoding");
    reveal_strlit("content-range");
    reveal_strlit("content-length");
    reveal_strlit("content-type");
    reveal_strlit("accept-ranges");
    reveal_strlit("vary");
    reveal_strlit("x-accel-buffering");
    reveal_strlit("accept-encoding");
}

proof fn lemma_codec_name(codec: Codec)
    ensures
        forall|i: int| 0 <= i < codec.name().len() ==> is_visible_char(#[trigger] codec.name()[i]),
{
    reveal_strlit("zstd");
    reveal_strlit("br");
    reveal_strlit("gzip");
    reveal_strlit("deflate");
}

/// Setting the encoding adds at most one name.
proof fn lemma_names_after_encoding(contents: Map<Seq<char>, Seq<Seq<u8>>>, codec: Codec)
    requires
        !contents.contains_key("content-encoding"@),
        contents.insert("content-encoding"@, seq![bytes_of(codec.name())]).dom().finite(),
    ensures
        with_encoding(contents, codec).dom().len() <= contents.dom().len() + 1,
{
    let name = "content-encoding"@;
    let encoded = contents.insert(name, seq![bytes_of(codec.name())]);
    assert(encoded.dom() =~= contents.dom().insert(name));
    assert(contents.dom() =~= encoded.dom().remove(name));
    let shorter = encoded.remove("content-length"@);
    assert(shorter.dom() =~= encoded.dom().remove("content-length"@));
    assert(with_encoding(contents, codec).dom() =~= shorter.dom().remove("accept-ranges"@));
}

/// Checks if Content-Encoding header is already present.
pub fn has_content_encoding(headers: &HeaderMap) -> (r: bool)
    ensures
        r == header_contents(*headers).contains_key("content-encoding"@),
{
    proof {
        lemma_literals();
    }
    contains_key(headers, "content-encoding")
}

/// Checks if Content-Range header is present (range response).
pub fn has_content_range(headers: &HeaderMap) -> (r: bool)
    ensures
        r == header_contents(*headers).contains_key("content-range"@),
{
    proof {
        lemma_literals();
    }
    contains_key(headers, "content-range")
}

/// The first value under a name, where it is text.
fn get_text(headers: &HeaderMap, name: &str) -> (r: Option<Vec<char>>)
    requires
        is_header_name(name@),
    ensures
        match r {
            Some(text) => first_text(header_contents(*headers), name@) == Some(text@),
            None => first_text(header_contents(*headers), name@) is None,
        },
{
    match get(headers, name) {
        Some(value) => match value.to_str() {
            Ok(text) => Some(characters(text)),
            Err(_) => None,
        },
        None => None,
    }
}

/// Checks if the content type should not be compressed.
pub fn is_uncompressible_content_type(headers: &HeaderMap) -> (r: bool)
    ensures
        r == is_uncompressible(header_contents(*headers)),
{
    proof {
        lemma_literals();
    }
    match get_text(headers, "content-type") {
        Some(text) => {
            // Skip all images except SVG
            starts_with(text.as_slice(), "image/") && !starts_with(
                text.as_slice(),
                "image/svg+xml",
            )
        },
        None => false,
    }
}

/// Checks if the content type requires always flushing (e.g., streaming).
pub fn is_streaming_content_type(headers: &HeaderMap) -> (r: bool)
    ensures
        r == is_streaming(header_contents(*headers)),
{
    proof {
        lemma_literals();
    }
    match get_text(headers, "content-type") {
        Some(text) => starts_with(text.as_slice(), "text/event-stream") || starts_with(
            text.as_slice(),
            "application/grpc",
        ),
        None => false,
    }
}

/// Checks if the response asks intermediaries not to buffer it.
pub fn has_buffering_off(headers: &HeaderMap) -> (r: bool)
    ensures
        r == is_unbuffered(header_contents(*headers)),
{
    proof {
        lemma_literals();
    }
    match get_text(headers, "x-accel-buffering") {
        Some(text) => spells_ignoring_case(text.as_slice(), "no"),
        None => false,
    }
}

/// Checks if Content-Length is below the minimum size.
pub fn is_below_min_size(headers: &HeaderMap, min_size: usize) -> (r: bool)
    ensures
        r == is_too_small(header_contents(*headers), min_size),
{
    proof {
        lemma_literals();
    }
    match get_text(headers, "content-length") {
        Some(text) => match parse_word(text.as_slice()) {
            Some(length) => length < min_size,
            None => false,
        },
        None => false,
    }
}

/// Checks if a Vary header value has an entry that covers Accept-Encoding.
fn check_value_covers(value: &HeaderValue) -> (r: bool)
    ensures
        r == value_covers(value_bytes(*value)),
{
    match value.to_str() {
        Ok(text) => {
            let text = characters(text);
            let entries = split(text.as_slice(), ',');
            let ghost all = fields(text@, ',');
            let mut i: usize = 0;
            while i < entries.len()
                invariant
                    i <= entries@.len() == all.len(),
                    forall|k: int| 0 <= k < entries@.len() ==> (#[trigger] entries@[k])@ == all[k],
                    forall|k: int| 0 <= k < i ==> !covers_accept_encoding(#[trigger] all[k]),
                    text_of(value_bytes(*value)) == Some(text@),
                    all == fields(text@, ','),
                decreases entries@.len() - i,
            {
                let entry = trim(entries[i].as_slice());
                assert(entries@[i as int]@ == all[i as int]);
                if spells_ignoring_case(entry, "*") || spells_ignoring_case(
                    entry,
                    "accept-encoding",
                ) {
                    assert(covers_accept_encoding(all[i as int]));
                    return true;
                }
                i += 1;
            }
            false
        },
        Err(_) => false,
    }
}

/// Adds Accept-Encoding to the Vary header if not already present.
pub fn add_vary_accept_encoding(headers: &mut HeaderMap) -> (r: Result<(), HeadersFull>)
    ensures
        match r {
            Ok(_) => header_contents(*final(headers)) == with_vary(header_contents(*old(headers))),
            Err(_) => {
                &&& header_contents(*final(headers)) == header_contents(*old(headers))
                &&& !varies(header_contents(*old(headers)))
                &&& header_contents(*old(headers)).dom().len() >= names_limit()
            },
        },
{
    proof {
        lemma_literals();
    }
    // Check all Vary headers to see if Accept-Encoding is already present
    let varied = check_varies(headers);
    if varied {
        return Ok(());
    }
    // Append Accept-Encoding to Vary header
    match try_append(headers, "vary", HeaderValue::from_static("accept-encoding")) {
        Ok(_) => Ok(()),
        Err(_) => Err(HeadersFull),
    }
}

/// Checks if the Vary headers cover Accept-Encoding.
fn check_varies(headers: &HeaderMap) -> (r: bool)
    ensures
        r == varies(header_contents(*headers)),
{
    proof {
        lemma_literals();
    }
    let values = get_all(headers, "vary");
    let ghost all = values_of(header_contents(*headers), "vary"@);
    let mut i: usize = 0;
    while i < values.len()
        invariant
            i <= values@.len(),
            values@.map_values(|value: &HeaderValue| value_bytes(*value)) == all,
            all == values_of(header_contents(*headers), "vary"@),
            forall|k: int| 0 <= k < i ==> !value_covers(#[trigger] all[k]),
        decreases values@.len() - i,
    {
        assert(all[i as int] == value_bytes(*values@[i as int]));
        if check_value_covers(values[i]) {
            return true;
        }
        i += 1;
    }
    false
}

/// `wrapped` is what becomes of `response`. Where a codec is applied, the
/// headers say so and the body is to be compressed with it; otherwise
/// everything stays as it is.
pub open spec fn is_wrapped<B>(
    response: Response<B>,
    accepted_codec: Option<Codec>,
    min_size: usize,
    wrapped: Response<CompressionBody<B>>,
) -> bool {
    let before = header_contents(response.headers);
    &&& wrapped.status == response.status
    &&& match applied_codec(response.status, before, accepted_codec, min_size) {
        Some(codec) => {
            &&& header_contents(wrapped.headers) == compressed_headers(before, codec)
            &&& wrapped.body == (CompressionBody::Compressed {
                inner: response.body,
                state: Compression {
                    codec,
                    always_flush: is_unbuffered(before) || is_streaming(before),
                    state: CompressState::Reading,
                },
            })
        },
        None => {
            &&& wrapped.headers == response.headers
            &&& wrapped.body == (CompressionBody::Passthrough { inner: response.body })
        },
    }
}

/// The response is to be compressed, and its header map may have no room for
/// the header that says so.
pub open spec fn refuses<B>(
    response: Response<B>,
    accepted_codec: Option<Codec>,
    min_size: usize,
) -> bool {
    let before = header_contents(response.headers);
    &&& applied_codec(response.status, before, accepted_codec, min_size) is Some
    &&& before.dom().len() + 1 >= names_limit()
}

/// Wraps the response body with compression if appropriate.
pub fn wrap_response<B>(
    response: Response<B>,
    accepted_codec: Option<Codec>,
    min_size: usize,
) -> (r: Result<Response<CompressionBody<B>>, HeadersFull>)
    ensures
        match r {
            Ok(wrapped) => is_wrapped(response, accepted_codec, min_size, wrapped),
            Err(_) => refuses(response, accepted_codec, min_size),
        },
{
    let Response { status, mut headers, body } = response;
    let ghost before = header_contents(headers);
    // Never compress responses that have no body: informational (1xx, including
    // 101 Switching Protocols for WebSocket upgrades), 204 No Content, and 304
    // Not Modified. Compressing these would stamp a bogus Content-Encoding header
    // on the response (and, for upgrades, on the handshake).
    if (100 <= status && status < 200) || status == 204 || status == 304 {
        return Ok(Response { status, headers, body: CompressionBody::passthrough(body) });
    }
    // Determine if we should compress
    let compressible = !has_content_encoding(&headers) && !has_content_range(&headers)
        && !is_uncompressible_content_type(&headers) && !is_below_min_size(&headers, min_size);
    match accepted_codec {
        Some(codec) if compressible => {
            // Check for x-accel-buffering: no header or streaming content types
            let always_flush = has_buffering_off(&headers) || is_streaming_content_type(&headers);
            proof {
                lemma_literals();
                lemma_codec_name(codec);
            }
            // Add Content-Encoding header
            let encoding = HeaderValue::from_static(codec.content_encoding());
            if let Err(_) = try_insert(&mut headers, "content-encoding", encoding) {
                return Err(HeadersFull);
            }
            // Remove Content-Length since compressed size is unknown
            remove(&mut headers, "content-length");
            // Remove Accept-Ranges since we can't support ranges on compressed content
            remove(&mut headers, "accept-ranges");
            proof {
                lemma_names_after_encoding(before, codec);
            }
            // Add Accept-Encoding to Vary header if not present
            if let Err(_) = add_vary_accept_encoding(&mut headers) {
                return Err(HeadersFull);
            }
            Ok(
                Response {
                    status,
                    headers,
                    body: CompressionBody::compressed(body, codec, always_flush),
                },
            )
        },
        _ => Ok(Response { status, headers, body: CompressionBody::passthrough(body) }),
    }
}

} // verus!
