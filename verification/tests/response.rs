use http::header::{self, HeaderMap, HeaderName, HeaderValue};
use http_compression::body::{CompressState, CompressionBody};
use http_compression::codec::Codec;
use http_compression::response::{
    add_vary_accept_encoding, has_buffering_off, has_content_encoding, has_content_range,
    is_below_min_size, is_streaming_content_type, is_uncompressible_content_type, wrap_response,
    HeadersFull, Response,
};

fn make_response(body: &'static str) -> Response<&'static str> {
    make_response_with_status(body, 200)
}

fn make_response_with_status(body: &'static str, status: u16) -> Response<&'static str> {
    Response {
        status,
        headers: HeaderMap::new(),
        body,
    }
}

fn make_response_with_headers<I>(body: &'static str, headers: I) -> Response<&'static str>
where
    I: IntoIterator<Item = (&'static str, &'static str)>,
{
    let mut response = make_response(body);
    for (name, value) in headers {
        response
            .headers
            .insert(name, header::HeaderValue::from_static(value));
    }
    response
}

fn wrap(
    response: Response<&'static str>,
    accepted_codec: Option<Codec>,
    min_size: usize,
) -> Response<CompressionBody<&'static str>> {
    wrap_response(response, accepted_codec, min_size).unwrap()
}

#[test]
fn test_compress_when_accept_encoding_present() {
    let response = make_response("hello world");
    let wrapped = wrap(response, Some(Codec::Gzip), 0);

    // Should be compressed
    match &wrapped.body {
        CompressionBody::Compressed { state, .. } => {
            assert_eq!(state.state(), CompressState::Reading);
        }
        _ => panic!("Expected compressed body"),
    }

    // Should have Content-Encoding header
    assert_eq!(
        wrapped.headers.get(header::CONTENT_ENCODING).unwrap(),
        "gzip"
    );
}

#[test]
fn test_no_compress_when_no_accept_encoding() {
    let response = make_response("hello world");
    let wrapped = wrap(response, None, 0);

    // Should be passthrough
    match &wrapped.body {
        CompressionBody::Passthrough { .. } => {}
        _ => panic!("Expected passthrough body"),
    }

    // Should NOT have Content-Encoding header
    assert!(wrapped.headers.get(header::CONTENT_ENCODING).is_none());
}

#[test]
fn test_no_compress_when_content_encoding_present() {
    let response =
        make_response_with_headers("hello world", [("content-encoding", "identity")]);
    let wrapped = wrap(response, Some(Codec::Gzip), 0);

    // Should be passthrough
    match &wrapped.body {
        CompressionBody::Passthrough { .. } => {}
        _ => panic!("Expected passthrough body"),
    }
}

#[test]
fn test_no_compress_image_png() {
    let response = make_response_with_headers("PNG data", [("content-type", "image/png")]);
    let wrapped = wrap(response, Some(Codec::Gzip), 0);

    // Should be passthrough
    match &wrapped.body {
        CompressionBody::Passthrough { .. } => {}
        _ => panic!("Expected passthrough body for image/png"),
    }
}

#[test]
fn test_no_compress_image_jpeg() {
    let response = make_response_with_headers("JPEG data", [("content-type", "image/jpeg")]);
    let wrapped = wrap(response, Some(Codec::Gzip), 0);

    // Should be passthrough
    match &wrapped.body {
        CompressionBody::Passthrough { .. } => {}
        _ => panic!("Expected passthrough body for image/jpeg"),
    }
}

#[test]
fn test_no_compress_image_gif() {
    let response = make_response_with_headers("GIF data", [("content-type", "image/gif")]);
    let wrapped = wrap(response, Some(Codec::Gzip), 0);

    // Should be passthrough
    match &wrapped.body {
        CompressionBody::Passthrough { .. } => {}
        _ => panic!("Expected passthrough body for image/gif"),
    }
}

#[test]
fn test_no_compress_image_webp() {
    let response = make_response_with_headers("WebP data", [("content-type", "image/webp")]);
    let wrapped = wrap(response, Some(Codec::Gzip), 0);

    // Should be passthrough
    match &wrapped.body {
        CompressionBody::Passthrough { .. } => {}
        _ => panic!("Expected passthrough body for image/webp"),
    }
}

#[test]
fn test_compress_image_svg() {
    let response =
        make_response_with_headers("<svg></svg>", [("content-type", "image/svg+xml")]);
    let wrapped = wrap(response, Some(Codec::Gzip), 0);

    // Should be compressed (SVG is text-based)
    match &wrapped.body {
        CompressionBody::Compressed { .. } => {}
        _ => panic!("Expected compressed body for image/svg+xml"),
    }
}

#[test]
fn test_compress_image_svg_with_charset() {
    let response = make_response_with_headers(
        "<svg></svg>",
        [("content-type", "image/svg+xml; charset=utf-8")],
    );
    let wrapped = wrap(response, Some(Codec::Gzip), 0);

    // Should be compressed
    match &wrapped.body {
        CompressionBody::Compressed { .. } => {}
        _ => panic!("Expected compressed body for image/svg+xml with charset"),
    }
}

#[test]
fn test_compress_text_html() {
    let response = make_response_with_headers("<html></html>", [("content-type", "text/html")]);
    let wrapped = wrap(response, Some(Codec::Gzip), 0);

    // Should be compressed
    match &wrapped.body {
        CompressionBody::Compressed { .. } => {}
        _ => panic!("Expected compressed body for text/html"),
    }
}

#[test]
fn test_no_compress_below_min_size() {
    let response = make_response_with_headers("small", [("content-length", "5")]);
    let wrapped = wrap(response, Some(Codec::Gzip), 100);

    // Should be passthrough (5 < 100)
    match &wrapped.body {
        CompressionBody::Passthrough { .. } => {}
        _ => panic!("Expected passthrough body below min size"),
    }
}

#[test]
fn test_compress_above_min_size() {
    let response =
        make_response_with_headers("large enough content", [("content-length", "200")]);
    let wrapped = wrap(response, Some(Codec::Gzip), 100);

    // Should be compressed (200 >= 100)
    match &wrapped.body {
        CompressionBody::Compressed { .. } => {}
        _ => panic!("Expected compressed body above min size"),
    }

    // Content-Length should be removed
    assert!(wrapped.headers.get(header::CONTENT_LENGTH).is_none());
}

#[test]
fn test_compress_unknown_size() {
    // No Content-Length header means unknown size, should compress
    let response = make_response("unknown size content");
    let wrapped = wrap(response, Some(Codec::Gzip), 100);

    // Should be compressed (unknown size doesn't trigger min_size check)
    match &wrapped.body {
        CompressionBody::Compressed { .. } => {}
        _ => panic!("Expected compressed body for unknown size"),
    }
}

#[test]
fn test_always_flush_when_x_accel_buffering_no() {
    let response = make_response_with_headers("streaming data", [("x-accel-buffering", "no")]);
    let wrapped = wrap(response, Some(Codec::Gzip), 0);

    match &wrapped.body {
        CompressionBody::Compressed { state, .. } => {
            assert!(state.always_flush());
        }
        _ => panic!("Expected compressed body"),
    }
}

#[test]
fn test_no_always_flush_by_default() {
    let response = make_response("normal data");
    let wrapped = wrap(response, Some(Codec::Gzip), 0);

    match &wrapped.body {
        CompressionBody::Compressed { state, .. } => {
            assert!(!state.always_flush());
        }
        _ => panic!("Expected compressed body"),
    }
}

#[test]
fn test_x_accel_buffering_case_insensitive() {
    let response = make_response_with_headers("streaming data", [("x-accel-buffering", "NO")]);
    let wrapped = wrap(response, Some(Codec::Gzip), 0);

    match &wrapped.body {
        CompressionBody::Compressed { state, .. } => {
            assert!(state.always_flush());
        }
        _ => panic!("Expected compressed body"),
    }
}

#[test]
fn test_brotli_content_encoding() {
    let response = make_response("hello world");
    let wrapped = wrap(response, Some(Codec::Brotli), 0);

    assert_eq!(
        wrapped.headers.get(header::CONTENT_ENCODING).unwrap(),
        "br"
    );
}

#[test]
fn test_zstd_content_encoding() {
    let response = make_response("hello world");
    let wrapped = wrap(response, Some(Codec::Zstd), 0);

    assert_eq!(
        wrapped.headers.get(header::CONTENT_ENCODING).unwrap(),
        "zstd"
    );
}

#[test]
fn test_compress_application_grpc() {
    let response =
        make_response_with_headers("grpc data", [("content-type", "application/grpc")]);
    let wrapped = wrap(response, Some(Codec::Gzip), 0);

    // Should be compressed with streaming (always_flush)
    match &wrapped.body {
        CompressionBody::Compressed { state, .. } => {
            assert!(state.always_flush());
        }
        _ => panic!("Expected compressed body for application/grpc"),
    }
}

#[test]
fn test_compress_application_grpc_with_suffix() {
    let response =
        make_response_with_headers("grpc data", [("content-type", "application/grpc+proto")]);
    let wrapped = wrap(response, Some(Codec::Gzip), 0);

    // Should be compressed with streaming (always_flush)
    match &wrapped.body {
        CompressionBody::Compressed { state, .. } => {
            assert!(state.always_flush());
        }
        _ => panic!("Expected compressed body for application/grpc+proto"),
    }
}

#[test]
fn test_compress_application_grpc_web() {
    let response =
        make_response_with_headers("grpc-web data", [("content-type", "application/grpc-web")]);
    let wrapped = wrap(response, Some(Codec::Gzip), 0);

    match &wrapped.body {
        CompressionBody::Compressed { state, .. } => {
            assert!(state.always_flush());
        }
        _ => panic!("Expected compressed body"),
    }
}

#[test]
fn test_compress_application_grpc_web_proto() {
    let response = make_response_with_headers(
        "grpc-web data",
        [("content-type", "application/grpc-web+proto")],
    );
    let wrapped = wrap(response, Some(Codec::Gzip), 0);

    match &wrapped.body {
        CompressionBody::Compressed { state, .. } => {
            assert!(state.always_flush());
        }
        _ => panic!("Expected compressed body"),
    }
}

#[test]
fn test_always_flush_text_event_stream() {
    let response =
        make_response_with_headers("event: data\n\n", [("content-type", "text/event-stream")]);
    let wrapped = wrap(response, Some(Codec::Gzip), 0);

    match &wrapped.body {
        CompressionBody::Compressed { state, .. } => {
            assert!(state.always_flush());
        }
        _ => panic!("Expected compressed body"),
    }
}

#[test]
fn test_always_flush_text_event_stream_with_charset() {
    let response = make_response_with_headers(
        "event: data\n\n",
        [("content-type", "text/event-stream; charset=utf-8")],
    );
    let wrapped = wrap(response, Some(Codec::Gzip), 0);

    match &wrapped.body {
        CompressionBody::Compressed { state, .. } => {
            assert!(state.always_flush());
        }
        _ => panic!("Expected compressed body"),
    }
}

#[test]
fn test_no_compress_switching_protocols() {
    // WebSocket upgrade responses (101) must not be compressed.
    let response = make_response_with_status("", http::StatusCode::SWITCHING_PROTOCOLS.as_u16());
    let wrapped = wrap(response, Some(Codec::Gzip), 0);

    match &wrapped.body {
        CompressionBody::Passthrough { .. } => {}
        _ => panic!("Expected passthrough body for 101 Switching Protocols"),
    }

    // No bogus Content-Encoding should be added to the handshake response.
    assert!(wrapped.headers.get(header::CONTENT_ENCODING).is_none());
}

#[test]
fn test_no_compress_no_content() {
    let response = make_response_with_status("", http::StatusCode::NO_CONTENT.as_u16());
    let wrapped = wrap(response, Some(Codec::Gzip), 0);

    match &wrapped.body {
        CompressionBody::Passthrough { .. } => {}
        _ => panic!("Expected passthrough body for 204 No Content"),
    }
}

#[test]
fn test_no_compress_not_modified() {
    let response = make_response_with_status("", http::StatusCode::NOT_MODIFIED.as_u16());
    let wrapped = wrap(response, Some(Codec::Gzip), 0);

    match &wrapped.body {
        CompressionBody::Passthrough { .. } => {}
        _ => panic!("Expected passthrough body for 304 Not Modified"),
    }
}

#[test]
fn test_no_compress_range_response() {
    let response =
        make_response_with_headers("partial content", [("content-range", "bytes 0-99/200")]);
    let wrapped = wrap(response, Some(Codec::Gzip), 0);

    // Should be passthrough for range responses
    match &wrapped.body {
        CompressionBody::Passthrough { .. } => {}
        _ => panic!("Expected passthrough body for range response"),
    }
}

#[test]
fn test_vary_header_added() {
    let response = make_response("hello world");
    let wrapped = wrap(response, Some(Codec::Gzip), 0);

    assert_eq!(
        wrapped.headers.get(header::VARY).unwrap(),
        "accept-encoding"
    );
}

#[test]
fn test_vary_header_appended() {
    let response = make_response_with_headers("hello world", [("vary", "origin")]);
    let wrapped = wrap(response, Some(Codec::Gzip), 0);

    // With append, there will be two Vary headers
    let vary_values: Vec<_> = wrapped
        .headers
        .get_all(header::VARY)
        .iter()
        .map(|v| v.to_str().unwrap())
        .collect();
    assert_eq!(vary_values, vec!["origin", "accept-encoding"]);
}

#[test]
fn test_vary_header_not_duplicated() {
    let response = make_response_with_headers("hello world", [("vary", "accept-encoding")]);
    let wrapped = wrap(response, Some(Codec::Gzip), 0);

    assert_eq!(
        wrapped.headers.get(header::VARY).unwrap(),
        "accept-encoding"
    );
}

#[test]
fn test_vary_header_star_not_modified() {
    let response = make_response_with_headers("hello world", [("vary", "*")]);
    let wrapped = wrap(response, Some(Codec::Gzip), 0);

    assert_eq!(wrapped.headers.get(header::VARY).unwrap(), "*");
}

#[test]
fn test_accept_ranges_removed() {
    let response = make_response_with_headers("hello world", [("accept-ranges", "bytes")]);
    let wrapped = wrap(response, Some(Codec::Gzip), 0);

    // Accept-Ranges should be removed when compressing
    assert!(wrapped.headers.get(header::ACCEPT_RANGES).is_none());
}

#[test]
fn test_accept_ranges_kept_when_not_compressing() {
    let response = make_response_with_headers("hello world", [("accept-ranges", "bytes")]);
    let wrapped = wrap(response, None, 0);

    // Accept-Ranges should be kept when not compressing
    assert_eq!(
        wrapped.headers.get(header::ACCEPT_RANGES).unwrap(),
        "bytes"
    );
}

fn values(headers: &HeaderMap, name: &str) -> Vec<Vec<u8>> {
    headers
        .get_all(name)
        .iter()
        .map(|v| v.as_bytes().to_vec())
        .collect()
}

fn is_compressed(wrapped: &Response<CompressionBody<&'static str>>) -> bool {
    matches!(wrapped.body, CompressionBody::Compressed { .. })
}

#[test]
fn every_codec_names_itself() {
    for codec in [Codec::Zstd, Codec::Brotli, Codec::Gzip, Codec::Deflate] {
        let wrapped = wrap(make_response("x"), Some(codec), 0);
        assert_eq!(
            values(&wrapped.headers, "content-encoding"),
            [codec.content_encoding().as_bytes()]
        );
        match wrapped.body {
            CompressionBody::Compressed { inner, state } => {
                assert_eq!(inner, "x");
                assert_eq!(state.codec, codec);
                assert_eq!(state.state(), CompressState::Reading);
                assert!(!state.always_flush());
            }
            CompressionBody::Passthrough { .. } => panic!("Expected compressed body"),
        }
    }
}

#[test]
fn statuses_without_a_body() {
    for status in 100..=999 {
        let wrapped = wrap(make_response_with_status("x", status), Some(Codec::Gzip), 0);
        let code = http::StatusCode::from_u16(status).unwrap();
        let bodiless = code.is_informational()
            || code == http::StatusCode::NO_CONTENT
            || code == http::StatusCode::NOT_MODIFIED;
        assert_eq!(is_compressed(&wrapped), !bodiless, "{status}");
        assert_eq!(wrapped.status, status);
        assert_eq!(wrapped.headers.is_empty(), bodiless);
    }
}

#[test]
fn passthrough_changes_nothing() {
    let headers = [
        ("content-encoding", "br"),
        ("content-length", "12"),
        ("accept-ranges", "bytes"),
        ("vary", "origin"),
    ];
    let response = make_response_with_headers("x", headers);
    let before = response.headers.clone();
    let wrapped = wrap(response, Some(Codec::Gzip), 0);
    assert_eq!(wrapped.headers, before);
    match wrapped.body {
        CompressionBody::Passthrough { inner } => assert_eq!(inner, "x"),
        CompressionBody::Compressed { .. } => panic!("Expected passthrough body"),
    }
}

#[test]
fn other_headers_stay() {
    let mut response = make_response_with_headers(
        "x",
        [
            ("content-type", "text/html"),
            ("content-length", "500"),
            ("accept-ranges", "bytes"),
            ("etag", "abc"),
        ],
    );
    response
        .headers
        .append("set-cookie", HeaderValue::from_static("a=1"));
    response
        .headers
        .append("set-cookie", HeaderValue::from_static("b=2"));
    let wrapped = wrap(response, Some(Codec::Brotli), 100);
    assert_eq!(values(&wrapped.headers, "content-type"), [b"text/html"]);
    assert_eq!(values(&wrapped.headers, "etag"), [b"abc"]);
    assert_eq!(values(&wrapped.headers, "set-cookie"), [b"a=1", b"b=2"]);
    assert_eq!(values(&wrapped.headers, "content-encoding"), [b"br"]);
    assert!(values(&wrapped.headers, "content-length").is_empty());
    assert!(values(&wrapped.headers, "accept-ranges").is_empty());
    assert_eq!(values(&wrapped.headers, "vary"), [b"accept-encoding"]);
    assert_eq!(wrapped.headers.len(), 6);
}

#[test]
fn a_compressed_response_is_not_compressed_again() {
    let once = wrap(make_response("x"), Some(Codec::Gzip), 0);
    let again = Response {
        status: once.status,
        headers: once.headers,
        body: "y",
    };
    let twice = wrap(again, Some(Codec::Zstd), 0);
    assert!(!is_compressed(&twice));
    assert_eq!(values(&twice.headers, "content-encoding"), [b"gzip"]);
    assert_eq!(values(&twice.headers, "vary"), [b"accept-encoding"]);
}

#[test]
fn vary_is_added_once() {
    let mut headers = HeaderMap::new();
    headers.append("vary", HeaderValue::from_static("origin, cookie"));
    add_vary_accept_encoding(&mut headers).unwrap();
    let once = values(&headers, "vary");
    assert_eq!(once, [&b"origin, cookie"[..], &b"accept-encoding"[..]]);
    add_vary_accept_encoding(&mut headers).unwrap();
    assert_eq!(values(&headers, "vary"), once);
}

#[test]
fn vary_is_found_in_any_value() {
    for covering in ["origin, Accept-Encoding", " ACCEPT-ENCODING ,x", "a,*", "\t* "] {
        let mut headers = HeaderMap::new();
        headers.append("vary", HeaderValue::from_bytes(b"\xff*").unwrap());
        headers.append("vary", HeaderValue::from_static("origin"));
        headers.append("vary", HeaderValue::from_str(covering).unwrap());
        add_vary_accept_encoding(&mut headers).unwrap();
        assert_eq!(values(&headers, "vary").len(), 3, "{covering}");
    }
    for other in ["accept-encodings", "**", "accept encoding", ""] {
        let mut headers = HeaderMap::new();
        headers.append("vary", HeaderValue::from_str(other).unwrap());
        add_vary_accept_encoding(&mut headers).unwrap();
        assert_eq!(values(&headers, "vary").len(), 2, "{other}");
    }
    // A value that is not text covers nothing
    let mut headers = HeaderMap::new();
    headers.append("vary", HeaderValue::from_bytes(b"*,\xff").unwrap());
    add_vary_accept_encoding(&mut headers).unwrap();
    assert_eq!(values(&headers, "vary").len(), 2);
}

#[test]
fn presence_of_headers() {
    let mut headers = HeaderMap::new();
    assert!(!has_content_encoding(&headers));
    assert!(!has_content_range(&headers));
    headers.insert("content-encoding", HeaderValue::from_static(""));
    headers.insert("content-range", HeaderValue::from_static(""));
    assert!(has_content_encoding(&headers));
    assert!(has_content_range(&headers));
}

#[test]
fn content_types() {
    let cases = [
        ("image/png", true, false),
        ("image/svg+xml", false, false),
        ("image/svg", true, false),
        ("IMAGE/png", false, false),
        (" image/png", false, false),
        ("text/event-stream", false, true),
        ("text/event-streams", false, true),
        ("application/grpc-web+proto", false, true),
        ("application/json", false, false),
        ("", false, false),
    ];
    for (content_type, uncompressible, streaming) in cases {
        let mut headers = HeaderMap::new();
        headers.insert("content-type", HeaderValue::from_static(content_type));
        headers.append("content-type", HeaderValue::from_static("image/gif"));
        assert_eq!(
            is_uncompressible_content_type(&headers),
            uncompressible,
            "{content_type}"
        );
        assert_eq!(is_streaming_content_type(&headers), streaming, "{content_type}");
    }
    let mut headers = HeaderMap::new();
    assert!(!is_uncompressible_content_type(&headers));
    headers.insert(
        "content-type",
        HeaderValue::from_bytes(b"image/\xff").unwrap(),
    );
    assert!(!is_uncompressible_content_type(&headers));
    assert!(!is_streaming_content_type(&headers));
}

#[test]
fn minimum_sizes() {
    let cases = [
        ("5", 5, false),
        ("5", 6, true),
        ("+5", 6, true),
        ("-5", 6, false),
        ("five", 6, false),
        ("5 ", 6, false),
        ("", 6, false),
        ("0", 0, false),
        ("0", 1, true),
        ("99999999999999999999999999", usize::MAX, false),
    ];
    for (length, min_size, below) in cases {
        let mut headers = HeaderMap::new();
        headers.insert("content-length", HeaderValue::from_static(length));
        assert_eq!(is_below_min_size(&headers, min_size), below, "{length}");
    }
    assert!(!is_below_min_size(&HeaderMap::new(), usize::MAX));
}

#[test]
fn a_lower_minimum_compresses_more() {
    for min_size in 0..300 {
        let response = make_response_with_headers("x", [("content-length", "200")]);
        let wrapped = wrap(response, Some(Codec::Gzip), min_size);
        assert_eq!(is_compressed(&wrapped), min_size <= 200);
    }
}

#[test]
fn buffering_headers() {
    for (value, off) in [("no", true), ("nO", true), ("yes", false), ("no ", false), ("", false)] {
        let mut headers = HeaderMap::new();
        headers.insert("x-accel-buffering", HeaderValue::from_static(value));
        assert_eq!(has_buffering_off(&headers), off, "{value}");
    }
    assert!(!has_buffering_off(&HeaderMap::new()));
}

#[test]
fn a_full_header_map_is_refused() {
    let mut response = make_response("x");
    let mut n = 0;
    loop {
        let name = HeaderName::from_bytes(format!("h{n}").as_bytes()).unwrap();
        if response
            .headers
            .try_insert(name, HeaderValue::from_static("v"))
            .is_err()
        {
            break;
        }
        n += 1;
    }
    assert!(n >= 6554);
    let before = response.headers.clone();
    let full = add_vary_accept_encoding(&mut response.headers);
    assert_eq!(full, Err(HeadersFull));
    assert_eq!(response.headers, before);
    let refused = wrap_response(response, Some(Codec::Gzip), 0);
    assert!(matches!(refused, Err(HeadersFull)));
    let unchanged = Response {
        status: 200,
        headers: before,
        body: "x",
    };
    assert!(!is_compressed(&wrap(unchanged, None, 0)));
}

#[test]
fn many_headers_have_room() {
    let mut response = make_response("x");
    for n in 0..6552 {
        let name = HeaderName::from_bytes(format!("h{n}").as_bytes()).unwrap();
        response.headers.insert(name, HeaderValue::from_static("v"));
    }
    let wrapped = wrap(response, Some(Codec::Gzip), 0);
    assert!(is_compressed(&wrapped));
    assert_eq!(wrapped.headers.len(), 6554);
}
