//! The compression codecs and the choice between them by an Accept-Encoding
//! header.
use crate::quality::{parse_quality, quality_value, Quality, ONE};
use crate::text::{
    begins_with, characters, fields, find, position, spells, split, starts_with, trim, trimmed,
};
use vstd::prelude::*;
use vstd::slice::slice_subrange;

verus! {

/// Supported compression codecs.
#[derive(Debug, Clone, Copy, PartialEq, Eq, Structural)]
#[non_exhaustive]
pub enum Codec {
    /// Zstd compression.
    Zstd,
    /// Brotli compression.
    Brotli,
    /// Gzip compression.
    Gzip,
    /// Deflate compression.
    Deflate,
}

/// The codec that an Accept-Encoding entry names, by its own name or by an
/// alias. Names are told apart by case.
pub open spec fn codec_named(encoding: Seq<char>) -> Option<Codec> {
    if encoding == "zstd"@ {
        Some(Codec::Zstd)
    } else if encoding == "br"@ || encoding == "brotli"@ {
        Some(Codec::Brotli)
    } else if encoding == "gzip"@ || encoding == "x-gzip"@ {
        Some(Codec::Gzip)
    } else if encoding == "deflate"@ {
        Some(Codec::Deflate)
    } else {
        None
    }
}

/// The quality that the parameters of an entry give: the number behind `q=`,
/// and one where there is none that can be read.
pub open spec fn parameter_quality(parameters: Seq<char>) -> Quality {
    if begins_with(parameters, "q="@) || begins_with(parameters, "Q="@) {
        match quality_value(parameters.skip(2)) {
            Some(quality) => quality,
            None => Quality::Number(ONE),
        }
    } else {
        Quality::Number(ONE)
    }
}

/// The encoding and the quality of an entry: what stands before the first
/// semicolon, and what the text behind it gives.
pub open spec fn encoding_with_quality(entry: Seq<char>) -> (Seq<char>, Quality) {
    let semicolon = position(entry, ';', 0);
    let quality = if semicolon == entry.len() {
        Quality::Number(ONE)
    } else {
        parameter_quality(trimmed(entry.skip(semicolon + 1)))
    };
    (trimmed(entry.take(semicolon)), quality)
}

/// What an entry of the header offers: a supported codec, unless the quality
/// is zero.
pub open spec fn candidate(entry: Seq<char>) -> Option<(Codec, Quality)> {
    let (encoding, quality) = encoding_with_quality(trimmed(entry));
    match codec_named(encoding) {
        Some(codec) if !quality.is_zero_spec() => Some((codec, quality)),
        _ => None,
    }
}

/// What the entries offer, in their order.
pub open spec fn offers(entries: Seq<Seq<char>>) -> Seq<(Codec, Quality)>
    decreases entries.len(),
{
    if entries.len() == 0 {
        Seq::empty()
    } else {
        let before = offers(entries.drop_last());
        match candidate(entries.last()) {
            Some(offer) => before.push(offer),
            None => before,
        }
    }
}

/// What an Accept-Encoding header offers: its entries stand between commas.
pub open spec fn candidates(header: Seq<char>) -> Seq<(Codec, Quality)> {
    offers(fields(header, ','))
}

/// `a` is to be taken before `b`: for a higher quality, or at the same quality
/// for the better codec.
pub open spec fn beats(a: (Codec, Quality), b: (Codec, Quality)) -> bool {
    ||| a.1.exceeds_spec(b.1)
    ||| a.1.equals_spec(b.1) && a.0.priority_spec() < b.0.priority_spec()
}

/// The offer at `i` is the one to take: none of the others beats it. An offer
/// with no number for its quality is taken only where it comes first, and then
/// it stands against everything.
pub open spec fn is_best(offered: Seq<(Codec, Quality)>, i: int) -> bool {
    &&& 0 <= i < offered.len()
    &&& if offered[0].1 is NotANumber {
        i == 0
    } else {
        &&& offered[i].1 is Number
        &&& forall|j: int| 0 <= j < offered.len() ==> !beats(#[trigger] offered[j], offered[i])
    }
}

/// `chosen` is the codec of the offer to take, and nothing where nothing is
/// offered.
pub open spec fn selects(offered: Seq<(Codec, Quality)>, chosen: Option<Codec>) -> bool {
    match chosen {
        Some(codec) => exists|i: int| #[trigger] is_best(offered, i) && offered[i].0 == codec,
        None => offered.len() == 0,
    }
}

impl Codec {
    /// The name of this codec in a Content-Encoding header.
    pub open spec fn name(self) -> Seq<char> {
        match self {
            Codec::Zstd => "zstd"@,
            Codec::Brotli => "br"@,
            Codec::Gzip => "gzip"@,
            Codec::Deflate => "deflate"@,
        }
    }

    /// The place of this codec among those of one quality; lower is better.
    pub open spec fn priority_spec(self) -> int {
        match self {
            Codec::Zstd => 0,
            Codec::Brotli => 1,
            Codec::Gzip => 2,
            Codec::Deflate => 3,
        }
    }

    /// Returns the Content-Encoding header value for this codec.
    pub fn content_encoding(&self) -> (r: &'static str)
        ensures
            r@ == self.name(),
    {
        match self {
            Codec::Zstd => "zstd",
            Codec::Brotli => "br",
            Codec::Gzip => "gzip",
            Codec::Deflate => "deflate",
        }
    }

    /// Returns the priority of this codec (lower is better).
    pub fn priority(&self) -> (r: u8)
        ensures
            r == self.priority_spec(),
    {
        match self {
            Codec::Zstd => 0,
            Codec::Brotli => 1,
            Codec::Gzip => 2,
            Codec::Deflate => 3,
        }
    }

    /// Returns the codec that an encoding names, if it is a supported one.
    fn named(encoding: &[char]) -> (r: Option<Codec>)
        ensures
            r == codec_named(encoding@),
    {
        if spells(encoding, "zstd") {
            Some(Codec::Zstd)
        } else if spells(encoding, "br") || spells(encoding, "brotli") {
            Some(Codec::Brotli)
        } else if spells(encoding, "gzip") || spells(encoding, "x-gzip") {
            Some(Codec::Gzip)
        } else if spells(encoding, "deflate") {
            Some(Codec::Deflate)
        } else {
            None
        }
    }

    /// Parses the Accept-Encoding header and returns the best supported codec.
    ///
    /// The header value is expected to be comma-separated encodings with optional
    /// quality values (e.g., "gzip, br;q=1.0, zstd;q=0.8").
    pub fn from_accept_encoding(header: &str) -> (r: Option<Codec>)
        ensures
            selects(candidates(header@), r),
    {
        let header = characters(header);
        let entries = split(header.as_slice(), ',');
        let ghost all = fields(header@, ',');
        let mut best: Option<(Codec, Quality)> = None;
        let mut i: usize = 0;
        while i < entries.len()
            invariant
                i <= entries@.len() == all.len(),
                forall|k: int| 0 <= k < entries@.len() ==> (#[trigger] entries@[k])@ == all[k],
                match best {
                    Some(offer) => exists|k: int| #[trigger]
                        is_best(offers(all.take(i as int)), k) && offers(all.take(i as int))[k]
                            == offer,
                    None => offers(all.take(i as int)).len() == 0,
                },
            decreases entries@.len() - i,
        {
            let ghost before = offers(all.take(i as int));
            let ghost after = offers(all.take(i + 1));
            assert(all.take(i + 1).drop_last() =~= all.take(i as int));
            let entry = trim(entries[i].as_slice());
            let (encoding, quality) = parse_encoding_with_quality(entry);
            if !quality.is_zero() {
                if let Some(codec) = Codec::named(encoding) {
                    assert(after == before.push((codec, quality)));
                    match best {
                        None => {
                            best = Some((codec, quality));
                            assert(is_best(after, 0));
                        },
                        Some((chosen, highest)) => {
                            let ghost k = choose|k: int| #[trigger]
                                is_best(before, k) && before[k] == (chosen, highest);
                            if quality.exceeds(highest) || (quality.equals(highest)
                                && codec.priority() < chosen.priority()) {
                                best = Some((codec, quality));
                                assert(is_best(after, after.len() - 1));
                            } else {
                                assert(is_best(after, k) && after[k] == before[k]);
                            }
                        },
                    }
                }
            }
            i += 1;
        }
        assert(all.take(all.len() as int) =~= all);
        match best {
            Some((codec, _)) => Some(codec),
            None => None,
        }
    }
}

/// Parses an encoding entry like "gzip" or "br;q=0.8" into (encoding, quality).
pub fn parse_encoding_with_quality(s: &[char]) -> (r: (&[char], Quality))
    ensures
        (r.0@, r.1) == encoding_with_quality(s@),
{
    let semicolon: usize = find(s, ';');
    let before = slice_subrange(s, 0, semicolon);
    assert(before@ =~= s@.take(semicolon as int));
    let encoding = trim(before);
    if semicolon == s.len() {
        return (encoding, Quality::one());
    }
    let behind = slice_subrange(s, semicolon + 1, s.len());
    assert(behind@ =~= s@.skip(semicolon + 1));
    let parameters = trim(behind);
    proof {
        reveal_strlit("q=");
        reveal_strlit("Q=");
    }
    if starts_with(parameters, "q=") || starts_with(parameters, "Q=") {
        let number = slice_subrange(parameters, 2, parameters.len());
        assert(number@ =~= parameters@.skip(2));
        match parse_quality(number) {
            Some(quality) => (encoding, quality),
            None => (encoding, Quality::one()),
        }
    } else {
        (encoding, Quality::one())
    }
}

} // verus!
