//! What holds of the library as a whole.
pub mod codec;
pub mod encoder;
pub mod quality;
pub mod response;
pub mod text;

use crate::body::CompressionBody;
use crate::codec::{
    beats, candidate, candidates, codec_named, encoding_with_quality, is_best, offers, selects,
    Codec,
};
use crate::headers::{bytes_of, header_contents, is_visible, is_visible_char, values_of};
use crate::laws::text::{
    is_blank, law_fields_join, law_one_field, lemma_absent, lemma_blank_end, lemma_blank_start,
    lemma_start_before_blank,
};
use crate::quality::{
    denominator, distance, infinite_rank, is_nearest, lemma_magnitude_increases, lemma_nearest,
    lemma_nearest_exists, lemma_nearest_is_unique, lemma_zero_rounds_to_zero, magnitude, nearest,
    numerator, Quality, ONE,
};
use crate::response::{
    applied_codec, compressed_headers, covers_accept_encoding, first_text, is_bodiless,
    is_compressible, is_streaming, is_too_small, is_uncompressible, is_wrapped, value_covers,
    varies, with_encoding, with_vary, Response,
};
use crate::text::{begins_with, fields, is_white_space, trim_start, trimmed};
use vstd::arithmetic::power::{lemma_pow_positive, pow};
use vstd::arithmetic::power2::{lemma2_to64, lemma_pow2_adds, pow2};
use vstd::prelude::*;

verus! {

/// At most one codec can be chosen from what a header offers.
pub proof fn law_choice_is_unique(
    offered: Seq<(Codec, Quality)>,
    a: Option<Codec>,
    b: Option<Codec>,
)
    requires
        selects(offered, a),
        selects(offered, b),
    ensures
        a == b,
{
    if let (Some(x), Some(y)) = (a, b) {
        let i = choose|i: int| #[trigger] is_best(offered, i) && offered[i].0 == x;
        let j = choose|j: int| #[trigger] is_best(offered, j) && offered[j].0 == y;
        if offered[0].1 is Number {
            assert(!beats(offered[i], offered[j]));
            assert(!beats(offered[j], offered[i]));
        }
    }
}

/// Where the first quality is a number, the chosen codec is offered with a
/// quality that no other number exceeds, and it is the best codec of those
/// offered with that quality.
pub proof fn law_choice_is_best(offered: Seq<(Codec, Quality)>, chosen: Codec, other: int)
    requires
        selects(offered, Some(chosen)),
        0 <= other < offered.len(),
        offered[0].1 is Number,
        offered[other].1 is Number,
    ensures
        exists|i: int|
            0 <= i < offered.len() && (#[trigger] offered[i]).0 == chosen && (offered[i].1.exceeds_spec(
                offered[other].1,
            ) || (offered[i].1.equals_spec(offered[other].1) && chosen.priority_spec()
                <= offered[other].0.priority_spec())),
{
    let i = choose|i: int| #[trigger] is_best(offered, i) && offered[i].0 == chosen;
    assert(!beats(offered[other], offered[i]));
}

/// The order of the offers does not matter, as long as the first quality is a
/// number.
pub proof fn law_order_does_not_matter(
    a: Seq<(Codec, Quality)>,
    b: Seq<(Codec, Quality)>,
    from_a: Option<Codec>,
    from_b: Option<Codec>,
)
    requires
        a.len() > 0 ==> a[0].1 is Number,
        b.len() > 0 ==> b[0].1 is Number,
        a.to_multiset() == b.to_multiset(),
        selects(a, from_a),
        selects(b, from_b),
    ensures
        from_a == from_b,
{
    a.to_multiset_ensures();
    b.to_multiset_ensures();
    if let (Some(x), Some(y)) = (from_a, from_b) {
        let i = choose|i: int| #[trigger] is_best(a, i) && a[i].0 == x;
        let j = choose|j: int| #[trigger] is_best(b, j) && b[j].0 == y;
        assert(b.to_multiset().count(a[i]) > 0);
        let k = choose|k: int| 0 <= k < b.len() && b[k] == a[i];
        assert(a.to_multiset().count(b[j]) > 0);
        let l = choose|l: int| 0 <= l < a.len() && a[l] == b[j];
        assert(!beats(b[k], b[j]));
        assert(!beats(a[l], a[i]));
    }
}

/// No offer has the quality zero: what a client weighs with zero is never
/// chosen.
pub proof fn law_zero_is_never_offered(entries: Seq<Seq<char>>)
    ensures
        forall|i: int|
            0 <= i < offers(entries).len() ==> !(#[trigger] offers(entries)[i]).1.is_zero_spec(),
    decreases entries.len(),
{
    if entries.len() > 0 {
        law_zero_is_never_offered(entries.drop_last());
        let before = offers(entries.drop_last());
        assert forall|i: int| 0 <= i < offers(entries).len() implies !(#[trigger] offers(
            entries,
        )[i]).1.is_zero_spec() by {
            if i < before.len() {
                assert(offers(entries)[i] == before[i]);
            }
        }
    }
}

/// Every offer comes from an entry that names its codec.
pub proof fn law_offers_come_from_entries(entries: Seq<Seq<char>>, i: int)
    requires
        0 <= i < offers(entries).len(),
    ensures
        exists|k: int|
            0 <= k < entries.len() && candidate(#[trigger] entries[k]) == Some(offers(entries)[i]),
    decreases entries.len(),
{
    let before = offers(entries.drop_last());
    if i < before.len() {
        law_offers_come_from_entries(entries.drop_last(), i);
        let k = choose|k: int|
            0 <= k < entries.drop_last().len() && candidate(
                #[trigger] entries.drop_last()[k],
            ) == Some(before[i]);
        assert(entries[k] == entries.drop_last()[k]);
    } else {
        assert(candidate(entries[entries.len() - 1]) == Some(offers(entries)[i]));
    }
}

proof fn lemma_offers_join(a: Seq<Seq<char>>, b: Seq<Seq<char>>)
    ensures
        offers(a + b) == offers(a) + offers(b),
    decreases b.len(),
{
    if b.len() == 0 {
        assert(a + b =~= a);
        assert(offers(a) + offers(b) =~= offers(a));
    } else {
        assert((a + b).drop_last() =~= a + b.drop_last());
        lemma_offers_join(a, b.drop_last());
        assert(offers(a + b) =~= offers(a) + offers(b));
    }
}

/// A header made of two lists offers what the first offers and then what the
/// second offers.
pub proof fn law_lists_join(a: Seq<char>, b: Seq<char>)
    ensures
        candidates(a + seq![','] + b) == candidates(a) + candidates(b),
{
    law_fields_join(a, b, ',');
    lemma_offers_join(fields(a, ','), fields(b, ','));
}

/// Lists with no offer do not change what a header offers, on either side.
pub proof fn law_unsupported_lists_are_ignored(a: Seq<char>, b: Seq<char>)
    requires
        candidates(b).len() == 0,
    ensures
        candidates(a + seq![','] + b) == candidates(a),
        candidates(b + seq![','] + a) == candidates(a),
{
    law_lists_join(a, b);
    law_lists_join(b, a);
    assert(candidates(a) + candidates(b) =~= candidates(a));
    assert(candidates(b) + candidates(a) =~= candidates(a));
}

/// White space around an entry does not change what it offers.
pub proof fn law_space_around_entries_is_ignored(
    before: Seq<char>,
    entry: Seq<char>,
    behind: Seq<char>,
)
    requires
        is_blank(before),
        is_blank(behind),
    ensures
        candidate(before + entry + behind) == candidate(entry),
{
    assert(before + entry + behind =~= before + (entry + behind));
    lemma_blank_start(before, entry + behind);
    lemma_start_before_blank(entry, behind);
    lemma_blank_end(trim_start(entry), behind);
    if trim_start(entry).len() == 0 {
        assert(trim_start(entry + behind).len() == 0 ==> trim_start(entry + behind) =~= trim_start(
            entry,
        ));
    }
}

/// Text of one word: without commas, semicolons or white space.
pub open spec fn is_word(s: Seq<char>) -> bool {
    forall|i: int|
        0 <= i < s.len() ==> (#[trigger] s[i]) != ',' && s[i] != ';' && !is_white_space(s[i])
}

/// A header that is only the name of a codec offers that codec, and nothing
/// else, with the quality one.
pub proof fn law_a_name_is_an_offer(name: Seq<char>)
    requires
        is_word(name),
    ensures
        candidates(name) == match codec_named(name) {
            Some(codec) => seq![(codec, Quality::Number(ONE))],
            None => Seq::empty(),
        },
{
    law_one_field(name, ',');
    lemma_absent(name, ';', 0);
    assert(trimmed(name) == name);
    assert(name.take(name.len() as int) =~= name);
    let entries = seq![name];
    assert(entries.drop_last() =~= Seq::empty());
    assert(offers(entries.drop_last()) =~= Seq::empty());
    assert(encoding_with_quality(name) == (name, Quality::Number(ONE)));
    assert(offers(entries) =~= match codec_named(name) {
        Some(codec) => seq![(codec, Quality::Number(ONE))],
        None => Seq::empty(),
    });
}

/// A client that accepts exactly the name under which a codec announces itself
/// gets that codec.
pub proof fn law_content_encoding_is_accepted(codec: Codec)
    ensures
        selects(candidates(codec.name()), Some(codec)),
{
    reveal_strlit("zstd");
    reveal_strlit("br");
    reveal_strlit("brotli");
    reveal_strlit("gzip");
    reveal_strlit("x-gzip");
    reveal_strlit("deflate");
    let name = codec.name();
    law_a_name_is_an_offer(name);
    assert("br"@.len() != "zstd"@.len());
    assert("gzip"@[0] != "zstd"@[0]);
    assert("deflate"@.len() == 7);
    assert(codec_named(name) == Some(codec));
    assert(is_best(candidates(name), 0));
}

/// A number that single precision holds exactly is rounded to itself.
pub proof fn law_exact_numbers_stay(n: int, d: int, rank: int)
    requires
        d > 0,
        0 <= rank <= infinite_rank(),
        n == magnitude(rank) * d,
    ensures
        nearest(n, d) == rank,
{
    assert forall|other: int| 0 <= other <= infinite_rank() && other != rank implies {
        ||| distance(n, d, rank) < #[trigger] distance(n, d, other)
        ||| distance(n, d, rank) == distance(n, d, other) && rank % 2 == 0
    } by {
        let here = magnitude(rank);
        let there = magnitude(other);
        if other < rank {
            lemma_magnitude_increases(other, rank);
        } else {
            lemma_magnitude_increases(rank, other);
        }
        assert(here * d != there * d) by (nonlinear_arith)
            requires
                here != there,
                d > 0,
        ;
    }
    lemma_nearest(n, d, rank);
}

/// The number one has the rank of one: to write `q=1` is to give no quality.
pub proof fn law_one_is_one()
    ensures
        nearest(numerator(1, 0), denominator(0)) == ONE,
{
    lemma2_to64();
    lemma_pow2_adds(23, 126);
    assert(pow(10, 0) == 1) by {
        reveal(pow);
    }
    assert(ONE as int / 0x80_0000 == 127 && ONE as int % 0x80_0000 == 0);
    let unit = pow2(149) as int;
    assert(1 * unit * 1 == unit);
    assert(magnitude(ONE as int) == unit);
    law_exact_numbers_stay(numerator(1, 0), 1, ONE as int);
}

/// Zero has the rank zero, however it is written.
pub proof fn law_zero_is_zero(exponent: int)
    ensures
        nearest(numerator(0, exponent), denominator(exponent)) == 0,
{
    if exponent < 0 {
        lemma_pow_positive(10, (-exponent) as nat);
    }
    lemma_zero_rounds_to_zero(exponent);
    lemma_nearest(numerator(0, exponent), denominator(exponent), 0);
}

proof fn lemma_nearest_scales(n: int, d: int, factor: int, rank: int)
    requires
        is_nearest(n, d, rank),
        factor > 0,
    ensures
        is_nearest(n * factor, d * factor, rank),
{
    assert forall|r: int| #[trigger]
        distance(n * factor, d * factor, r) == distance(n, d, r) * factor by {
        let m = magnitude(r);
        let difference = n - m * d;
        assert(n * factor - m * (d * factor) == difference * factor) by (nonlinear_arith)
            requires
                difference == n - m * d,
        ;
        assert(difference < 0 <==> difference * factor < 0) by (nonlinear_arith)
            requires
                factor > 0,
        ;
        assert((-difference) * factor == -(difference * factor)) by (nonlinear_arith);
    }
    assert forall|other: int| 0 <= other <= infinite_rank() && other != rank implies {
        ||| distance(n * factor, d * factor, rank) < #[trigger] distance(
            n * factor,
            d * factor,
            other,
        )
        ||| distance(n * factor, d * factor, rank) == distance(n * factor, d * factor, other)
            && rank % 2 == 0
    } by {
        let here = distance(n, d, rank);
        let there = distance(n, d, other);
        assert(here < there ==> here * factor < there * factor) by (nonlinear_arith)
            requires
                factor > 0,
        ;
    }
}

/// Rounding keeps the order: the lower of two numbers never gets the higher
/// rank.
pub proof fn law_rounding_keeps_order(n1: int, d1: int, n2: int, d2: int)
    requires
        d1 > 0,
        d2 > 0,
        n1 * d2 <= n2 * d1,
    ensures
        nearest(n1, d1) <= nearest(n2, d2),
{
    let low = nearest(n1, d1);
    let high = nearest(n2, d2);
    lemma_nearest_exists(n1, d1);
    lemma_nearest_exists(n2, d2);
    if low > high {
        let d = d1 * d2;
        assert(d > 0 && d2 * d1 == d) by (nonlinear_arith)
            requires
                d == d1 * d2,
                d1 > 0,
                d2 > 0,
        ;
        lemma_nearest_scales(n1, d1, d2, low);
        lemma_nearest_scales(n2, d2, d1, high);
        lemma_magnitude_increases(high, low);
        let a = magnitude(high) * d;
        let b = magnitude(low) * d;
        assert(a < b) by (nonlinear_arith)
            requires
                a == magnitude(high) * d,
                b == magnitude(low) * d,
                magnitude(high) < magnitude(low),
                d > 0,
        ;
        assert(distance(n1 * d2, d, low) <= distance(n1 * d2, d, high));
        assert(distance(n2 * d1, d, high) <= distance(n2 * d1, d, low));
        assert(n1 * d2 == n2 * d1);
        lemma_nearest_is_unique(n1 * d2, d, low, high);
    }
}

/// A response that is not to be compressed is handed on with its status, its
/// headers and its body as they were.
pub proof fn law_refused_responses_are_unchanged<B>(
    response: Response<B>,
    accepted_codec: Option<Codec>,
    min_size: usize,
    wrapped: Response<CompressionBody<B>>,
)
    requires
        is_wrapped(response, accepted_codec, min_size, wrapped),
        ({
            let contents = header_contents(response.headers);
            ||| accepted_codec is None
            ||| is_bodiless(response.status)
            ||| contents.contains_key("content-encoding"@)
            ||| contents.contains_key("content-range"@)
            ||| is_uncompressible(contents)
            ||| is_too_small(contents, min_size)
        }),
    ensures
        wrapped == (Response {
            status: response.status,
            headers: response.headers,
            body: CompressionBody::Passthrough { inner: response.body },
        }),
{
}

/// Every other response is compressed with the accepted codec, and says so.
pub proof fn law_other_responses_are_compressed<B>(
    response: Response<B>,
    codec: Codec,
    min_size: usize,
    wrapped: Response<CompressionBody<B>>,
)
    requires
        is_wrapped(response, Some(codec), min_size, wrapped),
        !is_bodiless(response.status),
        is_compressible(header_contents(response.headers), min_size),
    ensures
        wrapped.body matches CompressionBody::Compressed { inner, state } && inner == response.body
            && state.codec == codec,
        values_of(header_contents(wrapped.headers), "content-encoding"@) == seq![
            bytes_of(codec.name()),
        ],
{
    law_compressed_headers(header_contents(response.headers), codec);
}

/// The body inside is the one that was given, compressed or not.
pub proof fn law_the_body_is_kept<B>(
    response: Response<B>,
    accepted_codec: Option<Codec>,
    min_size: usize,
    wrapped: Response<CompressionBody<B>>,
)
    requires
        is_wrapped(response, accepted_codec, min_size, wrapped),
    ensures
        match wrapped.body {
            CompressionBody::Compressed { inner, .. } => inner == response.body,
            CompressionBody::Passthrough { inner } => inner == response.body,
        },
{
}

pub(crate) proof fn lemma_names_differ()
    ensures
        "content-encoding"@ != "content-length"@,
        "content-encoding"@ != "accept-ranges"@,
        "content-encoding"@ != "vary"@,
        "content-length"@ != "vary"@,
        "accept-ranges"@ != "vary"@,
{
    reveal_strlit("content-encoding");
    reveal_strlit("content-length");
    reveal_strlit("accept-ranges");
    reveal_strlit("vary");
    assert("content-encoding"@.len() == 16);
    assert("content-length"@.len() == 14);
    assert("accept-ranges"@.len() == 13);
    assert("vary"@.len() == 4);
}

/// A compressed response has its codec for its only encoding, neither a length
/// nor accepted ranges, and a Vary header that covers Accept-Encoding; the
/// earlier Vary headers and all other headers stay.
pub proof fn law_compressed_headers(contents: Map<Seq<char>, Seq<Seq<u8>>>, codec: Codec)
    ensures
        values_of(compressed_headers(contents, codec), "content-encoding"@) == seq![
            bytes_of(codec.name()),
        ],
        !compressed_headers(contents, codec).contains_key("content-length"@),
        !compressed_headers(contents, codec).contains_key("accept-ranges"@),
        varies(compressed_headers(contents, codec)),
        values_of(contents, "vary"@).is_prefix_of(
            values_of(compressed_headers(contents, codec), "vary"@),
        ),
        forall|name: Seq<char>|
            name != "content-encoding"@ && name != "content-length"@ && name != "accept-ranges"@
                && name != "vary"@ ==> #[trigger] values_of(
                compressed_headers(contents, codec),
                name,
            ) == values_of(contents, name) && compressed_headers(contents, codec).contains_key(name)
                == contents.contains_key(name),
{
    lemma_names_differ();
    let encoded = with_encoding(contents, codec);
    law_vary_is_added_once(encoded);
    assert(values_of(encoded, "vary"@) == values_of(contents, "vary"@));
}

proof fn lemma_accept_encoding_covers()
    ensures
        value_covers(bytes_of("accept-encoding"@)),
{
    reveal_strlit("accept-encoding");
    let text = "accept-encoding"@;
    let bytes = bytes_of(text);
    assert(bytes.map_values(|byte: u8| byte as char) =~= text);
    assert forall|i: int| 0 <= i < bytes.len() implies is_visible(#[trigger] bytes[i]) by {
        assert(is_visible_char(text[i]));
    }
    law_one_field(text, ',');
    assert(trimmed(text) == text);
    assert(covers_accept_encoding(fields(text, ',')[0]));
}

/// Adding Accept-Encoding to the Vary headers makes them cover it, keeps those
/// that are there, touches no other header, and does nothing a second time.
pub proof fn law_vary_is_added_once(contents: Map<Seq<char>, Seq<Seq<u8>>>)
    ensures
        varies(with_vary(contents)),
        with_vary(with_vary(contents)) == with_vary(contents),
        values_of(contents, "vary"@).is_prefix_of(values_of(with_vary(contents), "vary"@)),
        forall|name: Seq<char>|
            name != "vary"@ ==> #[trigger] values_of(with_vary(contents), name) == values_of(
                contents,
                name,
            ) && with_vary(contents).contains_key(name) == contents.contains_key(name),
{
    if !varies(contents) {
        lemma_accept_encoding_covers();
        let values = values_of(with_vary(contents), "vary"@);
        assert(value_covers(values[values.len() - 1]));
    }
}

/// A compressed response is never compressed again, whatever is accepted then.
pub proof fn law_compression_happens_once<B>(
    response: Response<B>,
    accepted_codec: Option<Codec>,
    min_size: usize,
    wrapped: Response<CompressionBody<B>>,
    later_codec: Option<Codec>,
    later_min_size: usize,
)
    requires
        is_wrapped(response, accepted_codec, min_size, wrapped),
        wrapped.body is Compressed,
    ensures
        applied_codec(
            wrapped.status,
            header_contents(wrapped.headers),
            later_codec,
            later_min_size,
        ) is None,
{
    lemma_names_differ();
}

/// What is compressed above one minimum size is compressed above a smaller one.
pub proof fn law_lower_minimum_compresses_more(
    status: u16,
    contents: Map<Seq<char>, Seq<Seq<u8>>>,
    accepted_codec: Option<Codec>,
    min_size: usize,
    lower: usize,
)
    requires
        lower <= min_size,
        applied_codec(status, contents, accepted_codec, min_size) is Some,
    ensures
        applied_codec(status, contents, accepted_codec, lower) == accepted_codec,
{
}

/// Without a Content-Length header the size is unknown, and no minimum refuses
/// the response. The minimum zero refuses none.
pub proof fn law_unknown_size_is_no_obstacle(
    contents: Map<Seq<char>, Seq<Seq<u8>>>,
    min_size: usize,
)
    requires
        !contents.contains_key("content-length"@) || min_size == 0,
    ensures
        !is_too_small(contents, min_size),
{
}

/// Streams are never refused for their content type.
pub proof fn law_streams_are_compressible(contents: Map<Seq<char>, Seq<Seq<u8>>>)
    requires
        is_streaming(contents),
    ensures
        !is_uncompressible(contents),
{
    reveal_strlit("image/");
    reveal_strlit("text/event-stream");
    reveal_strlit("application/grpc");
    match first_text(contents, "content-type"@) {
        Some(text) => {
            if begins_with(text, "image/"@) {
                assert(text.take(6)[0] == text[0]);
                assert(text[0] == 'i');
                if begins_with(text, "text/event-stream"@) {
                    assert(text.take(17)[0] == text[0]);
                }
                if begins_with(text, "application/grpc"@) {
                    assert(text.take(16)[0] == text[0]);
                }
            }
        },
        None => {},
    }
}

/// SVG images are never refused for their content type.
pub proof fn law_svg_is_compressible(contents: Map<Seq<char>, Seq<Seq<u8>>>)
    requires
        first_text(contents, "content-type"@) matches Some(text) && begins_with(
            text,
            "image/svg+xml"@,
        ),
    ensures
        !is_uncompressible(contents),
{
}

} // verus!
