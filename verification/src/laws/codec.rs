//! What an Accept-Encoding header offers and which offer is taken, told by the
//! characters of the header and by the ranks of the qualities.
use crate::codec::{
    beats, candidate, candidates, codec_named, encoding_with_quality, is_best, offers, selects,
    Codec,
};
use crate::laws::text::{
    is_blank, law_first_position, law_one_field, law_trimming_finds, lemma_absent,
};
use crate::quality::{quality_value, Quality, ONE};
use crate::text::{begins_with, is_white_space, position, trimmed};
use vstd::prelude::*;

verus! {

/// Qualities are told apart by their ranks: the greater one has the higher
/// rank, equal ones have the same rank, and zero is the rank zero. What is not
/// a number is neither equal to, above nor below anything, and not zero.
pub proof fn law_qualities_compare_by_rank(a: i32, b: i32)
    ensures
        Quality::Number(a).exceeds_spec(Quality::Number(b)) <==> a > b,
        Quality::Number(a).equals_spec(Quality::Number(b)) <==> a == b,
        Quality::Number(a).is_zero_spec() <==> a == 0,
        !Quality::NotANumber.is_zero_spec(),
        forall|other: Quality|
            !#[trigger] other.exceeds_spec(Quality::NotANumber)
                && !Quality::NotANumber.exceeds_spec(other),
        forall|other: Quality|
            !#[trigger] other.equals_spec(Quality::NotANumber) && !Quality::NotANumber.equals_spec(
                other,
            ),
{
}

/// `a` is `b`, or stands before it in the order Zstandard, Brotli, gzip,
/// deflate.
pub open spec fn is_preferred(a: Codec, b: Codec) -> bool {
    match a {
        Codec::Zstd => true,
        Codec::Brotli => b != Codec::Zstd,
        Codec::Gzip => b == Codec::Gzip || b == Codec::Deflate,
        Codec::Deflate => b == Codec::Deflate,
    }
}

/// One codec has the lower priority number exactly if it is preferred.
pub proof fn law_priorities(a: Codec, b: Codec)
    ensures
        a.priority_spec() <= b.priority_spec() <==> is_preferred(a, b),
        0 <= a.priority_spec() < 4,
{
}

/// The offer at `i` has a number for its quality, no other rank exceeds its
/// rank, and its codec is the preferred one of those with just that rank.
pub open spec fn has_highest_rank(offered: Seq<(Codec, Quality)>, i: int) -> bool {
    &&& 0 <= i < offered.len()
    &&& offered[i].1 matches Quality::Number(rank) && forall|j: int|
        0 <= j < offered.len() ==> ((#[trigger] offered[j]).1 matches Quality::Number(other)
            ==> other <= rank && (other == rank ==> is_preferred(offered[i].0, offered[j].0)))
}

/// Nothing is chosen exactly where nothing is offered. Where the first quality
/// is not a number, the first codec is chosen. Otherwise the codec that is
/// offered with the highest rank is chosen, and at the same rank the preferred
/// one.
pub proof fn law_the_highest_rank_is_chosen(
    offered: Seq<(Codec, Quality)>,
    chosen: Option<Codec>,
)
    requires
        selects(offered, chosen),
    ensures
        chosen is None <==> offered.len() == 0,
        offered.len() > 0 && offered[0].1 == Quality::NotANumber ==> chosen == Some(offered[0].0),
        offered.len() > 0 && offered[0].1 != Quality::NotANumber ==> exists|i: int| #[trigger]
            has_highest_rank(offered, i) && chosen == Some(offered[i].0),
        forall|i: int| #[trigger]
            has_highest_rank(offered, i) && offered[0].1 != Quality::NotANumber ==> chosen == Some(
                offered[i].0,
            ),
{
    if let Some(codec) = chosen {
        let i = choose|i: int| #[trigger] is_best(offered, i) && offered[i].0 == codec;
        if let Quality::Number(rank) = offered[i].1 {
            if offered[0].1 is Number {
                assert forall|j: int| 0 <= j < offered.len() implies ((
                #[trigger] offered[j]).1 matches Quality::Number(other) ==> other <= rank && (other
                    == rank ==> is_preferred(offered[i].0, offered[j].0))) by {
                    assert(!beats(offered[j], offered[i]));
                    law_priorities(offered[i].0, offered[j].0);
                }
                assert(has_highest_rank(offered, i));
                assert forall|k: int| #[trigger] has_highest_rank(offered, k) implies chosen
                    == Some(offered[k].0) by {
                    assert(offered[k].1 == offered[i].1);
                    law_priorities(offered[i].0, offered[k].0);
                    law_priorities(offered[k].0, offered[i].0);
                }
            }
        }
    }
}

/// A header without commas has one entry, and offers what that entry offers.
pub proof fn law_one_entry(entry: Seq<char>)
    requires
        !entry.contains(','),
    ensures
        match candidate(entry) {
            Some(offer) => candidates(entry).len() == 1 && candidates(entry)[0] == offer,
            None => candidates(entry).len() == 0,
        },
{
    law_one_field(entry, ',');
    let entries = seq![entry];
    assert(entries.drop_last() =~= Seq::empty());
    assert(offers(entries.drop_last()) =~= Seq::empty());
    assert(offers(entries) == match candidate(entry) {
        Some(offer) => Seq::empty().push(offer),
        None => Seq::empty(),
    });
}

/// The name is one that a codec goes by.
pub open spec fn is_name_of(name: Seq<char>, codec: Codec) -> bool {
    match codec {
        Codec::Zstd => name == seq!['z', 's', 't', 'd'],
        Codec::Brotli => name == seq!['b', 'r'] || name == seq!['b', 'r', 'o', 't', 'l', 'i'],
        Codec::Gzip => {
            ||| name == seq!['g', 'z', 'i', 'p']
            ||| name == seq!['x', '-', 'g', 'z', 'i', 'p']
        },
        Codec::Deflate => name == seq!['d', 'e', 'f', 'l', 'a', 't', 'e'],
    }
}

proof fn lemma_named(name: Seq<char>, codec: Codec)
    ensures
        is_name_of(name, codec) <==> codec_named(name) == Some(codec),
{
    reveal_strlit("zstd");
    reveal_strlit("br");
    reveal_strlit("brotli");
    reveal_strlit("gzip");
    reveal_strlit("x-gzip");
    reveal_strlit("deflate");
    assert("zstd"@ =~= seq!['z', 's', 't', 'd']);
    assert("br"@ =~= seq!['b', 'r']);
    assert("brotli"@ =~= seq!['b', 'r', 'o', 't', 'l', 'i']);
    assert("gzip"@ =~= seq!['g', 'z', 'i', 'p']);
    assert("x-gzip"@ =~= seq!['x', '-', 'g', 'z', 'i', 'p']);
    assert("deflate"@ =~= seq!['d', 'e', 'f', 'l', 'a', 't', 'e']);
    assert("zstd"@[0] != "gzip"@[0]);
    assert("brotli"@[0] != "x-gzip"@[0]);
    assert("zstd"@.len() == 4 && "br"@.len() == 2 && "brotli"@.len() == 6 && "gzip"@.len() == 4
        && "x-gzip"@.len() == 6 && "deflate"@.len() == 7);
}

/// Text that neither begins nor ends with white space.
pub open spec fn is_tight(s: Seq<char>) -> bool {
    s.len() > 0 ==> !is_white_space(s[0]) && !is_white_space(s.last())
}

/// What an entry with this name and this quality offers: the codec that goes
/// by the name, with the quality, and nothing where no codec does or where the
/// quality is zero.
pub open spec fn is_offer_of(
    offer: Option<(Codec, Quality)>,
    name: Seq<char>,
    quality: Quality,
) -> bool {
    match offer {
        Some((codec, offered)) => is_name_of(name, codec) && offered == quality && quality
            != Quality::Number(0),
        None => quality == Quality::Number(0) || forall|codec: Codec| !is_name_of(name, codec),
    }
}

proof fn lemma_offer(entry: Seq<char>, name: Seq<char>, quality: Quality)
    requires
        encoding_with_quality(trimmed(entry)) == (name, quality),
    ensures
        is_offer_of(candidate(entry), name, quality),
{
    assert forall|codec: Codec| #[trigger] is_name_of(name, codec) <==> codec_named(name) == Some(
        codec,
    ) by {
        lemma_named(name, codec);
    }
}

proof fn lemma_two_in_front(s: Seq<char>, prefix: Seq<char>)
    requires
        prefix.len() == 2,
    ensures
        begins_with(s, prefix) <==> s.len() >= 2 && s[0] == prefix[0] && s[1] == prefix[1],
{
    if s.len() >= 2 {
        assert(s.take(2)[0] == s[0] && s.take(2)[1] == s[1]);
        if s[0] == prefix[0] && s[1] == prefix[1] {
            assert(s.take(2) =~= prefix);
        }
    }
}

/// An entry without a semicolon is a name with white space around it, and has
/// the quality one.
pub proof fn law_entries_without_parameters(before: Seq<char>, name: Seq<char>, behind: Seq<char>)
    requires
        is_blank(before),
        is_blank(behind),
        is_tight(name),
        !name.contains(';'),
    ensures
        encoding_with_quality(before + name + behind) == (name, Quality::Number(0x3f80_0000)),
        is_offer_of(candidate(before + name + behind), name, Quality::Number(0x3f80_0000)),
{
    let entry = before + name + behind;
    let nothing = Seq::<char>::empty();
    lemma_name_alone(before, name, behind);
    lemma_name_alone(nothing, name, nothing);
    assert(nothing + name + nothing =~= name);
    law_trimming_finds(before, name, behind);
    lemma_offer(entry, name, Quality::Number(ONE));
}

proof fn lemma_name_alone(before: Seq<char>, name: Seq<char>, behind: Seq<char>)
    requires
        is_blank(before),
        is_blank(behind),
        is_tight(name),
        !name.contains(';'),
    ensures
        encoding_with_quality(before + name + behind) == (name, Quality::Number(0x3f80_0000)),
{
    let entry = before + name + behind;
    assert forall|i: int| 0 <= i < entry.len() implies #[trigger] entry[i] != ';' by {
        if i < before.len() {
            assert(is_white_space(before[i]));
        } else if i < before.len() + name.len() {
            assert(name.contains(name[i - before.len()]));
        } else {
            assert(is_white_space(behind[i - before.len() - name.len()]));
        }
    }
    lemma_absent(entry, ';', 0);
    assert(entry.take(entry.len() as int) =~= entry);
    law_trimming_finds(before, name, behind);
}

/// The quality that the parameters of an entry give: the one that the text
/// behind `q=` or `Q=` at their front writes down, and one where there is no
/// such text.
pub open spec fn quality_of(parameters: Seq<char>) -> Quality {
    if parameters.len() >= 2 && (parameters[0] == 'q' || parameters[0] == 'Q') && parameters[1]
        == '=' && quality_value(parameters.skip(2)) is Some {
        quality_value(parameters.skip(2)).unwrap()
    } else {
        Quality::Number(0x3f80_0000)
    }
}

/// An entry with a semicolon is a name, the semicolon and parameters, with
/// white space around the name and around the parameters. The parameters give
/// its quality.
pub proof fn law_entries_with_parameters(
    before: Seq<char>,
    name: Seq<char>,
    space: Seq<char>,
    gap: Seq<char>,
    parameters: Seq<char>,
    behind: Seq<char>,
)
    requires
        is_blank(before),
        is_blank(space),
        is_blank(gap),
        is_blank(behind),
        is_tight(name),
        !name.contains(';'),
        is_tight(parameters),
    ensures
        encoding_with_quality(before + name + space + seq![';'] + gap + parameters + behind) == (
            name,
            quality_of(parameters),
        ),
        is_offer_of(
            candidate(before + name + space + seq![';'] + gap + parameters + behind),
            name,
            quality_of(parameters),
        ),
{
    let entry = before + name + space + seq![';'] + gap + parameters + behind;
    let nothing = Seq::<char>::empty();
    // What is left of the white space once the entry is trimmed.
    let (front, inner_space) = if name.len() > 0 {
        (before, space)
    } else {
        (before + space, nothing)
    };
    let (back, inner_gap) = if parameters.len() > 0 {
        (behind, gap)
    } else {
        (gap + behind, nothing)
    };
    let core = name + inner_space + seq![';'] + inner_gap + parameters;
    assert(entry =~= front + core + back);
    assert(name.len() > 0 ==> core[0] == name[0]);
    assert(name.len() == 0 ==> core[0] == ';');
    assert(parameters.len() > 0 ==> core.last() == parameters.last());
    assert(parameters.len() == 0 ==> core.last() == ';');
    law_trimming_finds(front, core, back);
    lemma_name_and_parameters(before, name, space, gap, parameters, behind);
    lemma_name_and_parameters(nothing, name, inner_space, inner_gap, parameters, nothing);
    assert(nothing + name + inner_space + seq![';'] + inner_gap + parameters + nothing =~= core);
    lemma_offer(entry, name, quality_of(parameters));
}

proof fn lemma_name_and_parameters(
    before: Seq<char>,
    name: Seq<char>,
    space: Seq<char>,
    gap: Seq<char>,
    parameters: Seq<char>,
    behind: Seq<char>,
)
    requires
        is_blank(before),
        is_blank(space),
        is_blank(gap),
        is_blank(behind),
        is_tight(name),
        !name.contains(';'),
        is_tight(parameters),
    ensures
        encoding_with_quality(before + name + space + seq![';'] + gap + parameters + behind) == (
            name,
            quality_of(parameters),
        ),
{
    let entry = before + name + space + seq![';'] + gap + parameters + behind;
    let left = before + name + space;
    let semicolon = left.len() as int;
    assert(entry[semicolon] == ';');
    assert forall|i: int| 0 <= i < semicolon implies #[trigger] entry[i] != ';' by {
        assert(entry[i] == left[i]);
        if i < before.len() {
            assert(is_white_space(before[i]));
        } else if i < before.len() + name.len() {
            assert(name.contains(name[i - before.len()]));
        } else {
            assert(is_white_space(space[i - before.len() - name.len()]));
        }
    }
    law_first_position(entry, ';', 0);
    assert(position(entry, ';', 0) == semicolon);
    assert(entry.take(semicolon) =~= left);
    law_trimming_finds(before, name, space);
    assert(entry.skip(semicolon + 1) =~= gap + parameters + behind);
    law_trimming_finds(gap, parameters, behind);
    reveal_strlit("q=");
    reveal_strlit("Q=");
    lemma_two_in_front(parameters, "q="@);
    lemma_two_in_front(parameters, "Q="@);
}

} // verus!
