use http::header::HeaderMap;
use http_compression::body::CompressionBody;
use http_compression::codec::Codec;
use http_compression::future::{poll, Polled, ResponseFuture};
use http_compression::response::Response;

fn response() -> Response<u32> {
    Response {
        status: 200,
        headers: HeaderMap::new(),
        body: 7,
    }
}

#[test]
fn a_pending_response_stays_pending() {
    let polled: Polled<Result<Response<u32>, String>> = Polled::Pending;
    assert!(matches!(
        poll(polled, Some(Codec::Gzip), 0),
        Ok(Polled::Pending)
    ));
}

#[test]
fn an_error_is_handed_on() {
    let polled: Polled<Result<Response<u32>, String>> = Polled::Ready(Err("broken".to_string()));
    match poll(polled, Some(Codec::Gzip), 0) {
        Ok(Polled::Ready(Err(error))) => assert_eq!(error, "broken"),
        other => panic!("{other:?}"),
    }
}

#[test]
fn a_ready_response_is_wrapped() {
    let polled: Polled<Result<Response<u32>, String>> = Polled::Ready(Ok(response()));
    match poll(polled, Some(Codec::Deflate), 0) {
        Ok(Polled::Ready(Ok(wrapped))) => match wrapped.body {
            CompressionBody::Compressed { inner, state } => {
                assert_eq!(inner, 7);
                assert_eq!(state.codec, Codec::Deflate);
                assert_eq!(wrapped.headers["content-encoding"], "deflate");
            }
            CompressionBody::Passthrough { .. } => panic!("Expected compressed body"),
        },
        other => panic!("{other:?}"),
    }
}

#[test]
fn a_future_keeps_what_it_is_made_of() {
    let future = ResponseFuture::new("inner", Some(Codec::Zstd), 42);
    assert_eq!(future.inner, "inner");
    assert_eq!(future.accepted_codec, Some(Codec::Zstd));
    assert_eq!(future.min_size, 42);
}
