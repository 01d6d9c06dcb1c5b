//! What becomes of a response, told by its raw headers: by the bytes of the
//! values under each name, and by the characters that they spell.
use crate::body::{CompressState, CompressionBody};
use crate::codec::Codec;
use crate::headers::{bytes_of, header_contents, is_visible, text_of, values_of};
use crate::laws::{law_vary_is_added_once, lemma_names_differ};
use crate::laws::text::{
    is_blank, is_entry, is_small, is_spelled, law_entries_are_fields, law_fields_are_entries,
    law_trimming, law_trimming_finds, lemma_lower, law_prefix, law_spelling, law_decimal_digits,
    writes,
};
use crate::response::{
    covers_accept_encoding, first_text, is_streaming, is_too_small, is_unbuffered,
    is_uncompressible, is_wrapped, one_covers, refuses, value_covers, varies, with_encoding,
    with_vary, Response,
};
use crate::text::{fields, is_digit, is_white_space, same_ignoring_case, trimmed, word_value};
use vstd::prelude::*;

verus! {

/// The bytes of a header value are the characters of the text, all of them
/// printable ASCII or tabulators.
pub open spec fn is_text(value: Seq<u8>, text: Seq<char>) -> bool {
    &&& value.len() == text.len()
    &&& forall|i: int|
        0 <= i < text.len() ==> value[i] == (#[trigger] text[i]) as u32 && (' ' <= text[i]
            && text[i] <= '~' || text[i] == '\t')
}

/// The first value under the name is this text.
pub open spec fn reads(
    contents: Map<Seq<char>, Seq<Seq<u8>>>,
    name: Seq<char>,
    text: Seq<char>,
) -> bool {
    contents.contains_key(name) && contents[name].len() > 0 && is_text(contents[name][0], text)
}

/// The text is a number that can be a length: digits, with or without a plus
/// sign in front.
pub open spec fn is_length(text: Seq<char>, number: nat) -> bool {
    writes(text, number) || (text.len() > 0 && text[0] == '+' && writes(text.skip(1), number))
}

/// Bytes are text exactly if all of them are printable ASCII or tabulators, and
/// then the text has these characters.
pub proof fn law_header_text(value: Seq<u8>, text: Seq<char>)
    ensures
        is_text(value, text) <==> text_of(value) == Some(text),
{
    if is_text(value, text) {
        assert forall|i: int| 0 <= i < value.len() implies is_visible(#[trigger] value[i]) by {
            assert(value[i] == text[i] as u32);
        }
        assert(value.map_values(|byte: u8| byte as char) =~= text);
    }
    if text_of(value) == Some(text) {
        assert forall|i: int| 0 <= i < text.len() implies value[i] == (#[trigger] text[i]) as u32
            && (' ' <= text[i] && text[i] <= '~' || text[i] == '\t') by {
            assert(is_visible(value[i]));
        }
    }
}

proof fn lemma_reads(
    contents: Map<Seq<char>, Seq<Seq<u8>>>,
    name: Seq<char>,
    text: Seq<char>,
)
    ensures
        reads(contents, name, text) <==> first_text(contents, name) == Some(text),
{
    if values_of(contents, name).len() > 0 {
        law_header_text(values_of(contents, name)[0], text);
    }
}

/// Text is a machine word exactly if it is digits, with or without a plus sign
/// in front, that write down a number which a machine word can hold.
pub proof fn law_lengths(text: Seq<char>, number: nat)
    ensures
        is_length(text, number) && number <= usize::MAX <==> word_value(text) == Some(
            number as usize,
        ) && number <= usize::MAX,
{
    law_decimal_digits(text, number);
    if text.len() > 0 {
        law_decimal_digits(text.skip(1), number);
        if text[0] == '+' {
            assert(!is_digit(text[0]));
        }
    }
}

proof fn lemma_only_text(contents: Map<Seq<char>, Seq<Seq<u8>>>, name: Seq<char>)
    ensures
        forall|text: Seq<char>| #[trigger]
            reads(contents, name, text) <==> first_text(contents, name) == Some(text),
{
    assert forall|text: Seq<char>| #[trigger]
        reads(contents, name, text) <==> first_text(contents, name) == Some(text) by {
        lemma_reads(contents, name, text);
    }
}

/// Content is refused for its type exactly if the first Content-Type header
/// begins with that of images, and not with that of SVG.
pub proof fn law_refused_types(contents: Map<Seq<char>, Seq<Seq<u8>>>)
    ensures
        is_uncompressible(contents) <==> exists|text: Seq<char>| #[trigger]
            reads(contents, "content-type"@, text) && "image/"@.is_prefix_of(text)
                && !"image/svg+xml"@.is_prefix_of(text),
{
    lemma_only_text(contents, "content-type"@);
    if let Some(text) = first_text(contents, "content-type"@) {
        assert(reads(contents, "content-type"@, text));
        law_prefix(text, "image/"@);
        law_prefix(text, "image/svg+xml"@);
    }
}

/// Content is a stream exactly if the first Content-Type header begins with
/// that of event streams or of gRPC.
pub proof fn law_streams(contents: Map<Seq<char>, Seq<Seq<u8>>>)
    ensures
        is_streaming(contents) <==> exists|text: Seq<char>| #[trigger]
            reads(contents, "content-type"@, text) && ("text/event-stream"@.is_prefix_of(text)
                || "application/grpc"@.is_prefix_of(text)),
{
    lemma_only_text(contents, "content-type"@);
    if let Some(text) = first_text(contents, "content-type"@) {
        assert(reads(contents, "content-type"@, text));
        law_prefix(text, "text/event-stream"@);
        law_prefix(text, "application/grpc"@);
    }
}

/// Buffering is off exactly if the first X-Accel-Buffering header is `no`, in
/// capital or small letters.
pub proof fn law_buffering(contents: Map<Seq<char>, Seq<Seq<u8>>>)
    ensures
        is_unbuffered(contents) <==> exists|text: Seq<char>| #[trigger]
            reads(contents, "x-accel-buffering"@, text) && text.len() == 2 && (text[0] == 'n'
                || text[0] == 'N') && (text[1] == 'o' || text[1] == 'O'),
{
    lemma_only_text(contents, "x-accel-buffering"@);
    reveal_strlit("no");
    if let Some(text) = first_text(contents, "x-accel-buffering"@) {
        assert(reads(contents, "x-accel-buffering"@, text));
        if text.len() == 2 {
            lemma_lower(text[0], 'n');
            lemma_lower(text[1], 'o');
        }
        assert("no"@.len() == 2 && "no"@[0] == 'n' && "no"@[1] == 'o');
        assert(same_ignoring_case(text, "no"@) <==> text.len() == 2 && (text[0] == 'n' || text[0]
            == 'N') && (text[1] == 'o' || text[1] == 'O'));
    }
}

/// Content is too small exactly if the first Content-Length header is a number
/// below the minimum.
pub proof fn law_small_contents(contents: Map<Seq<char>, Seq<Seq<u8>>>, min_size: usize)
    ensures
        is_too_small(contents, min_size) <==> exists|text: Seq<char>, number: nat|
            #![trigger reads(contents, "content-length"@, text), is_length(text, number)]
            reads(contents, "content-length"@, text) && is_length(text, number) && number
                < min_size,
{
    let name = "content-length"@;
    assert forall|text: Seq<char>, number: nat|
        #![trigger reads(contents, name, text), is_length(text, number)]
        reads(contents, name, text) && is_length(text, number) && number
            < min_size implies is_too_small(contents, min_size) by {
        lemma_reads(contents, name, text);
        law_lengths(text, number);
    }
    if is_too_small(contents, min_size) {
        let text = first_text(contents, name)->0;
        let number = word_value(text)->0;
        lemma_reads(contents, name, text);
        law_lengths(text, number as nat);
        assert(reads(contents, name, text) && is_length(text, number as nat));
    }
}

/// A response is compressed exactly if a codec is accepted, its status is none
/// of 1xx, 204 and 304, it has neither an encoding nor a range, its content
/// type is not that of an image unless it is SVG, and its length, where it
/// gives one, is not below the minimum.
pub proof fn law_what_is_compressed<B>(
    response: Response<B>,
    accepted_codec: Option<Codec>,
    min_size: usize,
    wrapped: Response<CompressionBody<B>>,
)
    requires
        is_wrapped(response, accepted_codec, min_size, wrapped),
    ensures
        wrapped.body is Compressed <==> ({
            let contents = header_contents(response.headers);
            &&& accepted_codec is Some
            &&& !(100 <= response.status < 200) && response.status != 204 && response.status != 304
            &&& !contents.contains_key("content-encoding"@)
            &&& !contents.contains_key("content-range"@)
            &&& forall|text: Seq<char>| #[trigger]
                reads(contents, "content-type"@, text) ==> !"image/"@.is_prefix_of(text)
                    || "image/svg+xml"@.is_prefix_of(text)
            &&& forall|text: Seq<char>, number: nat|
                #![trigger reads(contents, "content-length"@, text), is_length(text, number)]
                reads(contents, "content-length"@, text) && is_length(text, number) ==> number
                    >= min_size
        }),
{
    let contents = header_contents(response.headers);
    law_refused_types(contents);
    law_small_contents(contents, min_size);
}

/// What is not compressed is handed on with its status, its headers and its
/// body as they were.
pub proof fn law_the_rest_is_unchanged<B>(
    response: Response<B>,
    accepted_codec: Option<Codec>,
    min_size: usize,
    wrapped: Response<CompressionBody<B>>,
)
    requires
        is_wrapped(response, accepted_codec, min_size, wrapped),
        !(wrapped.body is Compressed),
    ensures
        wrapped.status == response.status,
        wrapped.headers == response.headers,
        wrapped.body == (CompressionBody::Passthrough { inner: response.body }),
{
}

/// A response that gives a length below the minimum is handed on unchanged,
/// whatever else its headers say.
pub proof fn law_short_responses_are_unchanged<B>(
    response: Response<B>,
    accepted_codec: Option<Codec>,
    min_size: usize,
    wrapped: Response<CompressionBody<B>>,
    length: Seq<char>,
    number: nat,
)
    requires
        is_wrapped(response, accepted_codec, min_size, wrapped),
        reads(header_contents(response.headers), "content-length"@, length),
        is_length(length, number),
        number < min_size,
    ensures
        wrapped.status == response.status,
        wrapped.headers == response.headers,
        wrapped.body == (CompressionBody::Passthrough { inner: response.body }),
{
    law_what_is_compressed(response, accepted_codec, min_size, wrapped);
    law_the_rest_is_unchanged(response, accepted_codec, min_size, wrapped);
}

/// One of the entries between the commas of the text is the word, in capital
/// or small letters and with any white space around it.
pub open spec fn lists(text: Seq<char>, word: Seq<char>) -> bool {
    exists|a: int, b: int, c: int, d: int| #[trigger]
        is_entry(text, ',', a, b) && a <= c <= d <= b && #[trigger] is_spelled(
            text.subrange(c, d),
            word,
        ) && is_blank(text.subrange(a, c)) && is_blank(text.subrange(d, b))
}

/// The value of a Vary header lists everything, or Accept-Encoding.
pub open spec fn lists_accept_encoding(value: Seq<u8>) -> bool {
    exists|text: Seq<char>| #[trigger]
        is_text(value, text) && (lists(text, "*"@) || lists(text, "accept-encoding"@))
}

/// A word that neither begins nor ends with white space, in any letters.
spec fn is_solid(word: Seq<char>) -> bool {
    &&& word.len() > 0
    &&& is_small(word)
    &&& 33 <= word[0] as u32 && (word[0] as u32) < 127
    &&& 33 <= word.last() as u32 && (word.last() as u32) < 127
}

proof fn lemma_lists(text: Seq<char>, word: Seq<char>)
    requires
        is_solid(word),
    ensures
        lists(text, word) <==> exists|k: int|
            0 <= k < fields(text, ',').len() && same_ignoring_case(
                trimmed(#[trigger] fields(text, ',')[k]),
                word,
            ),
{
    if lists(text, word) {
        let (a, b, c, d) = choose|a: int, b: int, c: int, d: int| #[trigger]
            is_entry(text, ',', a, b) && a <= c <= d <= b && #[trigger] is_spelled(
                text.subrange(c, d),
                word,
            ) && is_blank(text.subrange(a, c)) && is_blank(text.subrange(d, b));
        let core = text.subrange(c, d);
        let k = law_entries_are_fields(text, ',', a, b);
        assert(text.subrange(a, c) + core + text.subrange(d, b) =~= text.subrange(a, b));
        law_spelling(core, word);
        assert(core[0] == word[0] || core[0] as u32 + 32 == word[0] as u32);
        let last = word.len() - 1;
        assert(core[last] == word[last] || core[last] as u32 + 32 == word[last] as u32);
        assert(!is_white_space(core[0]) && !is_white_space(core[last]));
        law_trimming_finds(text.subrange(a, c), core, text.subrange(d, b));
        assert(same_ignoring_case(trimmed(fields(text, ',')[k]), word));
    }
    if exists|k: int|
        0 <= k < fields(text, ',').len() && same_ignoring_case(
            trimmed(#[trigger] fields(text, ',')[k]),
            word,
        ) {
        let k = choose|k: int|
            0 <= k < fields(text, ',').len() && same_ignoring_case(
                trimmed(#[trigger] fields(text, ',')[k]),
                word,
            );
        let (a, b) = law_fields_are_entries(text, ',', k);
        let entry = text.subrange(a, b);
        let (i, j) = law_trimming(entry);
        let (c, d) = (a + i, a + j);
        assert(text.subrange(c, d) =~= entry.subrange(i, j));
        assert(text.subrange(a, c) =~= entry.take(i));
        assert(text.subrange(d, b) =~= entry.skip(j));
        law_spelling(text.subrange(c, d), word);
        assert(is_entry(text, ',', a, b) && is_spelled(text.subrange(c, d), word));
    }
}

proof fn lemma_value_covers(value: Seq<u8>)
    ensures
        value_covers(value) <==> lists_accept_encoding(value),
{
    reveal_strlit("*");
    reveal_strlit("accept-encoding");
    assert forall|text: Seq<char>| #[trigger] is_text(value, text) implies text_of(value) == Some(
        text,
    ) by {
        law_header_text(value, text);
    }
    if let Some(text) = text_of(value) {
        law_header_text(value, text);
        let entries = fields(text, ',');
        lemma_lists(text, "*"@);
        lemma_lists(text, "accept-encoding"@);
        if one_covers(entries) {
            let k = choose|k: int|
                0 <= k < entries.len() && covers_accept_encoding(#[trigger] entries[k]);
            assert(covers_accept_encoding(entries[k]));
            assert(lists(text, "*"@) || lists(text, "accept-encoding"@));
        }
        if lists(text, "*"@) {
            let k = choose|k: int|
                0 <= k < entries.len() && same_ignoring_case(trimmed(#[trigger] entries[k]), "*"@);
            assert(covers_accept_encoding(entries[k]));
        }
        if lists(text, "accept-encoding"@) {
            let k = choose|k: int|
                0 <= k < entries.len() && same_ignoring_case(
                    trimmed(#[trigger] entries[k]),
                    "accept-encoding"@,
                );
            assert(covers_accept_encoding(entries[k]));
        }
    }
}

/// The values under a name, and none where the name is absent.
pub open spec fn under(contents: Map<Seq<char>, Seq<Seq<u8>>>, name: Seq<char>) -> Seq<Seq<u8>> {
    if contents.contains_key(name) {
        contents[name]
    } else {
        Seq::empty()
    }
}

/// Where a Vary header lists everything or Accept-Encoding, adding
/// Accept-Encoding changes nothing. Otherwise one more Vary header follows the
/// earlier ones and says just that; no other header changes.
pub proof fn law_vary_lists_accept_encoding(contents: Map<Seq<char>, Seq<Seq<u8>>>)
    ensures
        (exists|i: int|
            0 <= i < under(contents, "vary"@).len() && lists_accept_encoding(
                #[trigger] under(contents, "vary"@)[i],
            )) ==> with_vary(contents) == contents,
        !(exists|i: int|
            0 <= i < under(contents, "vary"@).len() && lists_accept_encoding(
                #[trigger] under(contents, "vary"@)[i],
            )) ==> {
            let before = under(contents, "vary"@);
            let after = under(with_vary(contents), "vary"@);
            &&& after.len() == before.len() + 1
            &&& after.drop_last() == before
            &&& is_text(after.last(), "accept-encoding"@)
            &&& with_vary(contents).remove("vary"@) == contents.remove("vary"@)
        },
{
    let before = under(contents, "vary"@);
    assert(before == values_of(contents, "vary"@));
    assert forall|i: int| 0 <= i < before.len() implies (value_covers(#[trigger] before[i])
        <==> lists_accept_encoding(before[i])) by {
        lemma_value_covers(before[i]);
    }
    if varies(contents) {
        let i = choose|i: int| 0 <= i < before.len() && value_covers(#[trigger] before[i]);
        assert(lists_accept_encoding(before[i]));
    } else {
        let after = under(with_vary(contents), "vary"@);
        assert(after.drop_last() =~= before);
        assert(with_vary(contents).remove("vary"@) =~= contents.remove("vary"@));
        reveal_strlit("accept-encoding");
        assert(is_text(bytes_of("accept-encoding"@), "accept-encoding"@));
    }
}

/// The name under which each codec announces itself.
proof fn lemma_name(codec: Codec)
    ensures
        is_text(
            bytes_of(codec.name()),
            match codec {
                Codec::Zstd => "zstd"@,
                Codec::Brotli => "br"@,
                Codec::Gzip => "gzip"@,
                Codec::Deflate => "deflate"@,
            },
        ),
{
    reveal_strlit("zstd");
    reveal_strlit("br");
    reveal_strlit("gzip");
    reveal_strlit("deflate");
}

/// The headers of a compressed response: the name of the codec for its only
/// encoding, neither a length nor accepted ranges, the Vary headers with
/// Accept-Encoding among them, and all others as they were.
pub proof fn law_headers_of_compressed_responses<B>(
    response: Response<B>,
    codec: Codec,
    min_size: usize,
    wrapped: Response<CompressionBody<B>>,
)
    requires
        is_wrapped(response, Some(codec), min_size, wrapped),
        wrapped.body is Compressed,
    ensures
        ({
            let before = header_contents(response.headers);
            let after = header_contents(wrapped.headers);
            let encoding = after["content-encoding"@];
            &&& after.contains_key("content-encoding"@) && encoding.len() == 1
            &&& is_text(
                encoding[0],
                match codec {
                    Codec::Zstd => "zstd"@,
                    Codec::Brotli => "br"@,
                    Codec::Gzip => "gzip"@,
                    Codec::Deflate => "deflate"@,
                },
            )
            &&& !after.contains_key("content-length"@)
            &&& !after.contains_key("accept-ranges"@)
            &&& forall|name: Seq<char>|
                name != "content-encoding"@ && name != "content-length"@ && name
                    != "accept-ranges"@ && name != "vary"@ ==> (#[trigger] after.contains_key(name)
                    <==> before.contains_key(name)) && (before.contains_key(name) ==> after[name]
                    == before[name])
            &&& (exists|i: int|
                0 <= i < under(before, "vary"@).len() && lists_accept_encoding(
                    #[trigger] under(before, "vary"@)[i],
                )) ==> under(after, "vary"@) == under(before, "vary"@)
            &&& !(exists|i: int|
                0 <= i < under(before, "vary"@).len() && lists_accept_encoding(
                    #[trigger] under(before, "vary"@)[i],
                )) ==> {
                &&& under(after, "vary"@).len() == under(before, "vary"@).len() + 1
                &&& under(after, "vary"@).drop_last() == under(before, "vary"@)
                &&& is_text(under(after, "vary"@).last(), "accept-encoding"@)
            }
            &&& exists|i: int|
                0 <= i < under(after, "vary"@).len() && lists_accept_encoding(
                    #[trigger] under(after, "vary"@)[i],
                )
        }),
{
    let before = header_contents(response.headers);
    let after = header_contents(wrapped.headers);
    let encoded = with_encoding(before, codec);
    assert(after == with_vary(encoded));
    lemma_names_differ();
    law_vary_is_added_once(encoded);
    lemma_name(codec);
    assert(under(encoded, "vary"@) == under(before, "vary"@));
    law_vary_lists_accept_encoding(encoded);
    let values = under(after, "vary"@);
    assert(values == values_of(after, "vary"@));
    let i = choose|i: int| 0 <= i < values.len() && value_covers(#[trigger] values[i]);
    lemma_value_covers(values[i]);
    assert(lists_accept_encoding(under(after, "vary"@)[i]));
    assert(values_of(after, "content-encoding"@) == values_of(encoded, "content-encoding"@));
    assert forall|name: Seq<char>|
        name != "content-encoding"@ && name != "content-length"@ && name != "accept-ranges"@ && name
            != "vary"@ implies (#[trigger] after.contains_key(name) <==> before.contains_key(name))
        && (before.contains_key(name) ==> after[name] == before[name]) by {
        assert(values_of(after, name) == values_of(encoded, name));
    }
}

/// A compressed response keeps its status and its body, is to be compressed
/// with the accepted codec, and nothing of it has been read. It is flushed at
/// once exactly if its first X-Accel-Buffering header is `no`, in capital or
/// small letters, or its first Content-Type header begins with that of an
/// event stream or of gRPC.
pub proof fn law_body_of_compressed_responses<B>(
    response: Response<B>,
    accepted_codec: Option<Codec>,
    min_size: usize,
    wrapped: Response<CompressionBody<B>>,
)
    requires
        is_wrapped(response, accepted_codec, min_size, wrapped),
        wrapped.body is Compressed,
    ensures
        wrapped.status == response.status,
        wrapped.body matches CompressionBody::Compressed { inner, state } && inner == response.body
            && accepted_codec == Some(state.codec) && state.state == CompressState::Reading && (
        state.always_flush <==> {
            let contents = header_contents(response.headers);
            ||| exists|text: Seq<char>| #[trigger]
                reads(contents, "x-accel-buffering"@, text) && text.len() == 2 && (text[0] == 'n'
                    || text[0] == 'N') && (text[1] == 'o' || text[1] == 'O')
            ||| exists|text: Seq<char>| #[trigger]
                reads(contents, "content-type"@, text) && ("text/event-stream"@.is_prefix_of(text)
                    || "application/grpc"@.is_prefix_of(text))
        }),
{
    let contents = header_contents(response.headers);
    law_buffering(contents);
    law_streams(contents);
}

/// Only a response that is to be compressed can be refused, and only where its
/// header map holds thousands of names.
pub proof fn law_refusals_are_rare<B>(
    response: Response<B>,
    accepted_codec: Option<Codec>,
    min_size: usize,
)
    requires
        refuses(response, accepted_codec, min_size),
    ensures
        accepted_codec is Some,
        header_contents(response.headers).dom().len() >= 6553,
        !(100 <= response.status < 200) && response.status != 204 && response.status != 304,
        !header_contents(response.headers).contains_key("content-encoding"@),
        !header_contents(response.headers).contains_key("content-range"@),
        forall|text: Seq<char>| #[trigger]
            reads(header_contents(response.headers), "content-type"@, text)
                ==> !"image/"@.is_prefix_of(text) || "image/svg+xml"@.is_prefix_of(text),
        forall|text: Seq<char>, number: nat|
            #[trigger]
            reads(header_contents(response.headers), "content-length"@, text)
                && #[trigger] is_length(text, number) ==> number >= min_size,
{
    let contents = header_contents(response.headers);
    law_refused_types(contents);
    law_small_contents(contents, min_size);
}

} // verus!
