# http_compression

Compression of HTTP responses, verified with Verus: which codec a client
accepts, whether a response is to be compressed, and what that does to its
headers.

- `src/codec.rs`: the codecs, and the choice between them by an
  Accept-Encoding header.
- `src/quality.rs`, `src/natural.rs`: quality values, read from decimal text
  and rounded to single precision with integers of any size.
- `src/response.rs`, `src/body.rs`: the decision about a response, its headers
  and its body.
- `src/future.rs`: what becomes of the outcome of the inner service.
- `src/encoder.rs`: the encoder of each codec.
- `src/headers.rs`: the header map of the `http` crate.
- `src/text.rs`: splitting, trimming and comparing text.
- `src/laws.rs`: what holds of the library as a whole.
- `app/`: the future over another service's response.

The items that are believed without proof are the calls into the `http` crate
in `src/headers.rs` and into the `compression-codecs` crate in
`src/encoder.rs`. Each states above it what it claims of the call.
