//! Which texts are qualities, and of which rank, told by their characters and
//! by the halfway points between neighbouring values.
use crate::laws::text::{is_spelled, law_decimal_digits, law_digits_end, law_spelling, writes};
use crate::quality::{
    decimal_value, denominator, distance, exponent_value, infinite_rank,
    lemma_magnitude_increases, lemma_nearest_exists, magnitude, nearest, numerator, quality_value,
    unsigned_value, Quality,
};
use crate::text::{digits_end, is_digit};
use vstd::arithmetic::power::{lemma_pow_positive, pow};
use vstd::arithmetic::power2::{lemma2_to64, lemma_pow2_unfold, pow2};
use vstd::prelude::*;

verus! {

/// The values begin at zero. The first 2^24 of them are one unit apart, and
/// after each further 2^23 of them the distance to the next doubles.
pub proof fn law_steps_between_values(rank: int)
    requires
        0 <= rank,
    ensures
        magnitude(0) == 0,
        rank < 0x100_0000 ==> magnitude(rank + 1) == magnitude(rank) + 1,
        rank >= 0x80_0000 ==> magnitude(rank + 1) == magnitude(rank) + pow2(
            (rank / 0x80_0000 - 1) as nat,
        ),
{
    let block = 0x80_0000int;
    lemma2_to64();
    if rank + 1 < block {
    } else if rank < block {
        assert(0x80_0000 * pow2(0) == 0x80_0000) by (nonlinear_arith)
            requires
                pow2(0) == 1,
        ;
    } else {
        let exponent = (rank / block - 1) as nat;
        let step = pow2(exponent) as int;
        let offset = rank % block;
        if offset < block - 1 {
            assert((rank + 1) / block == rank / block && (rank + 1) % block == offset + 1);
            assert((block + offset + 1) * step == (block + offset) * step + step)
                by (nonlinear_arith);
        } else {
            assert((rank + 1) / block == rank / block + 1 && (rank + 1) % block == 0);
            lemma_pow2_unfold((exponent + 1) as nat);
            assert(block * (2 * step) == (block + offset) * step + step) by (nonlinear_arith)
                requires
                    offset == block - 1,
            ;
        }
        if rank < 0x100_0000 {
            assert(rank / block == 1);
        }
    }
}

/// The fraction lies between the points halfway from the value with this rank
/// to its neighbours. It may be such a point itself only if the rank is even.
pub open spec fn is_rounded(n: int, d: int, rank: int) -> bool {
    &&& 0 <= rank <= 0x7f80_0000
    &&& rank > 0 ==> {
        let low = (magnitude(rank - 1) + magnitude(rank)) * d;
        low < 2 * n || (low == 2 * n && rank % 2 == 0)
    }
    &&& rank < 0x7f80_0000 ==> {
        let high = (magnitude(rank) + magnitude(rank + 1)) * d;
        2 * n < high || (2 * n == high && rank % 2 == 0)
    }
}

proof fn lemma_halfway(n: int, d: int, low: int)
    requires
        d > 0,
        0 <= low,
    ensures
        distance(n, d, low) < distance(n, d, low + 1) <==> 2 * n < (magnitude(low) + magnitude(
            low + 1,
        )) * d,
        distance(n, d, low) == distance(n, d, low + 1) <==> 2 * n == (magnitude(low) + magnitude(
            low + 1,
        )) * d,
{
    lemma_magnitude_increases(low, low + 1);
    let a = magnitude(low);
    let b = magnitude(low + 1);
    assert((a + b) * d == a * d + b * d) by (nonlinear_arith);
    assert(a * d < b * d) by (nonlinear_arith)
        requires
            a < b,
            d > 0,
    ;
}

proof fn lemma_midpoints_increase(d: int, a: int, b: int)
    requires
        d > 0,
        0 <= a < b,
    ensures
        (magnitude(a) + magnitude(a + 1)) * d <= (magnitude(b - 1) + magnitude(b)) * d,
        a + 1 < b ==> (magnitude(a) + magnitude(a + 1)) * d < (magnitude(b - 1) + magnitude(b)) * d,
{
    if a + 1 < b {
        lemma_magnitude_increases(a, b - 1);
        lemma_magnitude_increases(a + 1, b);
        let low = magnitude(a) + magnitude(a + 1);
        let high = magnitude(b - 1) + magnitude(b);
        assert(low * d < high * d) by (nonlinear_arith)
            requires
                low < high,
                d > 0,
        ;
    }
}

/// A fraction gets the rank between whose halfway points it lies, and there is
/// just one such rank.
pub proof fn law_rounding_goes_by_halfway_points(n: int, d: int, rank: int)
    requires
        d > 0,
    ensures
        nearest(n, d) == rank <==> is_rounded(n, d, rank),
{
    let found = nearest(n, d);
    lemma_nearest_exists(n, d);
    if found > 0 {
        lemma_halfway(n, d, found - 1);
        assert(distance(n, d, found) <= distance(n, d, found - 1));
    }
    if found < infinite_rank() {
        lemma_halfway(n, d, found);
        assert(distance(n, d, found) <= distance(n, d, found + 1));
    }
    assert(is_rounded(n, d, found));
    if is_rounded(n, d, rank) && rank != found {
        if rank < found {
            lemma_midpoints_increase(d, rank, found);
        } else {
            lemma_midpoints_increase(d, found, rank);
        }
    }
}

/// The text is digits after an optional sign, and writes down this number.
pub open spec fn is_power(s: Seq<char>, power: int) -> bool {
    ||| power >= 0 && writes(s, power as nat)
    ||| power >= 0 && s.len() > 0 && s[0] == '+' && writes(s.skip(1), power as nat)
    ||| power <= 0 && s.len() > 0 && s[0] == '-' && writes(s.skip(1), (-power) as nat)
}

/// The text is nothing, for the power zero, or an `e` and a power.
pub open spec fn is_exponent(s: Seq<char>, power: int) -> bool {
    ||| s.len() == 0 && power == 0
    ||| s.len() > 0 && (s[0] == 'e' || s[0] == 'E') && is_power(s.skip(1), power)
}

/// The text is the whole part, a point, the fraction and the rest. Without a
/// fraction it may be without the point.
pub open spec fn is_made_of(
    s: Seq<char>,
    whole: Seq<char>,
    fraction: Seq<char>,
    rest: Seq<char>,
) -> bool {
    ||| s == whole + seq!['.'] + fraction + rest
    ||| fraction.len() == 0 && s == whole + rest
}

/// The text writes down `digits` times ten to the power `exponent`.
pub open spec fn is_decimal(s: Seq<char>, digits: nat, exponent: int) -> bool {
    exists|whole: Seq<char>, fraction: Seq<char>, rest: Seq<char>, power: int| #[trigger]
        is_made_of(s, whole, fraction, rest) && #[trigger] is_exponent(rest, power) && writes(
            whole + fraction,
            digits,
        ) && exponent == power - fraction.len()
}

proof fn lemma_exponent_value(s: Seq<char>, power: int)
    ensures
        exponent_value(s) == Some(power) <==> is_power(s, power),
{
    let size = (if power >= 0 {
        power
    } else {
        -power
    }) as nat;
    law_decimal_digits(s, size);
    if s.len() > 0 {
        law_decimal_digits(s.skip(1), size);
        if s[0] == '+' || s[0] == '-' {
            assert(!is_digit(s[0]));
        }
    }
}

proof fn lemma_read_decimal(s: Seq<char>, digits: nat, exponent: int)
    requires
        decimal_value(s) == Some((digits, exponent)),
    ensures
        is_decimal(s, digits, exponent),
{
    law_digits_end(s, 0);
    let point = digits_end(s, 0);
    let has_point = point < s.len() && s[point] == '.';
    let end = if has_point {
        law_digits_end(s, point + 1);
        digits_end(s, point + 1)
    } else {
        point
    };
    let whole = s.take(point);
    let fraction = if has_point {
        s.subrange(point + 1, end)
    } else {
        Seq::empty()
    };
    let rest = s.skip(end);
    if has_point {
        assert(s =~= whole + seq!['.'] + fraction + rest);
    } else {
        assert(s =~= whole + rest);
    }
    assert(is_made_of(s, whole, fraction, rest));
    let both = whole + fraction;
    assert forall|i: int| 0 <= i < both.len() implies is_digit(#[trigger] both[i]) by {
        if i < whole.len() {
            assert(both[i] == s[i]);
        } else {
            assert(both[i] == s[point + 1 + i - whole.len()]);
        }
    }
    law_decimal_digits(both, digits);
    let power = exponent + fraction.len();
    if end < s.len() {
        assert(rest[0] == s[end]);
        assert(rest.skip(1) =~= s.skip(end + 1));
        lemma_exponent_value(rest.skip(1), power);
    }
    assert(is_exponent(rest, power));
}

proof fn lemma_write_decimal(
    s: Seq<char>,
    whole: Seq<char>,
    fraction: Seq<char>,
    rest: Seq<char>,
    power: int,
    digits: nat,
)
    requires
        is_made_of(s, whole, fraction, rest),
        is_exponent(rest, power),
        writes(whole + fraction, digits),
    ensures
        decimal_value(s) == Some((digits, power - fraction.len())),
{
    let both = whole + fraction;
    law_decimal_digits(both, digits);
    assert forall|i: int| 0 <= i < whole.len() implies is_digit(#[trigger] s[i]) by {
        assert(s[i] == both[i]);
    }
    law_digits_end(s, 0);
    let point = digits_end(s, 0);
    let has_point = s == whole + seq!['.'] + fraction + rest;
    if has_point {
        assert(s[whole.len() as int] == '.');
        assert(point == whole.len());
        assert forall|i: int| point + 1 <= i < point + 1 + fraction.len() implies is_digit(
            #[trigger] s[i],
        ) by {
            assert(s[i] == both[i - 1]);
        }
        law_digits_end(s, point + 1);
        let end = digits_end(s, point + 1);
        if rest.len() > 0 {
            assert(s[point + 1 + fraction.len()] == rest[0]);
        }
        assert(end == point + 1 + fraction.len());
        assert(s.take(point) =~= whole);
        assert(s.subrange(point + 1, end) =~= fraction);
        if rest.len() > 0 {
            assert(s.skip(end + 1) =~= rest.skip(1));
            lemma_exponent_value(rest.skip(1), power);
        }
    } else {
        assert(s == whole + rest);
        if rest.len() > 0 {
            assert(s[whole.len() as int] == rest[0]);
        }
        assert(point == whole.len());
        assert(s.take(point) =~= whole);
        assert(s.take(point) + Seq::<char>::empty() =~= both);
        if rest.len() > 0 {
            assert(s.skip(point + 1) =~= rest.skip(1));
            lemma_exponent_value(rest.skip(1), power);
        }
    }
}

/// Unsigned decimal numbers are read for what they write down, and nothing
/// else is read as one.
pub proof fn law_decimals(s: Seq<char>, digits: nat, exponent: int)
    ensures
        decimal_value(s) == Some((digits, exponent)) <==> is_decimal(s, digits, exponent),
{
    if decimal_value(s) == Some((digits, exponent)) {
        lemma_read_decimal(s, digits, exponent);
    }
    if is_decimal(s, digits, exponent) {
        let (whole, fraction, rest, power) = choose|
            whole: Seq<char>,
            fraction: Seq<char>,
            rest: Seq<char>,
            power: int,
        | #[trigger]
            is_made_of(s, whole, fraction, rest) && #[trigger] is_exponent(rest, power) && writes(
                whole + fraction,
                digits,
            ) && exponent == power - fraction.len();
        lemma_write_decimal(s, whole, fraction, rest, power, digits);
    }
}

/// The rank is that of `digits` times ten to the power `exponent`, rounded.
/// Values are counted in units of 2^-149.
pub open spec fn is_rank_of(digits: nat, exponent: int, rank: int) -> bool {
    if exponent >= 0 {
        is_rounded(digits * pow2(149) * pow(10, exponent as nat), 1, rank)
    } else {
        is_rounded(digits * pow2(149) as int, pow(10, (-exponent) as nat), rank)
    }
}

/// The text is a quality without a sign: a word for infinity, the word `nan`,
/// or a decimal number.
pub open spec fn is_unsigned_quality(s: Seq<char>, quality: Quality) -> bool {
    match quality {
        Quality::NotANumber => is_spelled(s, "nan"@),
        Quality::Number(rank) => {
            ||| rank == 0x7f80_0000 && (is_spelled(s, "inf"@) || is_spelled(s, "infinity"@))
            ||| exists|digits: nat, exponent: int| #[trigger]
                is_decimal(s, digits, exponent) && is_rank_of(digits, exponent, rank as int)
        },
    }
}

/// The two qualities are each other's negatives.
pub open spec fn are_opposite(a: Quality, b: Quality) -> bool {
    match (a, b) {
        (Quality::NotANumber, Quality::NotANumber) => true,
        (Quality::Number(x), Quality::Number(y)) => x + y == 0,
        _ => false,
    }
}

/// The text is this quality: after an optional sign, of which a minus turns
/// the quality round.
pub open spec fn is_quality(s: Seq<char>, quality: Quality) -> bool {
    ||| is_unsigned_quality(s, quality)
    ||| s.len() > 0 && s[0] == '+' && is_unsigned_quality(s.skip(1), quality)
    ||| s.len() > 0 && s[0] == '-' && exists|opposite: Quality| #[trigger]
        is_unsigned_quality(s.skip(1), opposite) && are_opposite(quality, opposite)
}

proof fn lemma_word(s: Seq<char>, word: Seq<char>)
    requires
        is_spelled(s, word),
        word.len() > 0,
        'a' <= word[0] <= 'z',
    ensures
        decimal_value(s) is None,
        s[0] != '+' && s[0] != '-',
{
    assert(s[0] == word[0] || s[0] as u32 + 32 == word[0] as u32);
    assert(!is_digit(s[0]));
    assert(s.take(0) + Seq::<char>::empty() =~= Seq::<char>::empty());
}

proof fn lemma_unsigned_quality(s: Seq<char>, quality: Quality)
    ensures
        unsigned_value(s) == Some(quality) <==> is_unsigned_quality(s, quality),
        is_unsigned_quality(s, quality) ==> s.len() > 0 && s[0] != '+' && s[0] != '-',
{
    reveal_strlit("inf");
    reveal_strlit("infinity");
    reveal_strlit("nan");
    law_spelling(s, "inf"@);
    law_spelling(s, "infinity"@);
    law_spelling(s, "nan"@);
    assert("inf"@[0] == 'i' && "infinity"@[0] == 'i' && "nan"@[0] == 'n');
    assert("inf"@.len() == 3 && "infinity"@.len() == 8 && "nan"@.len() == 3);
    assert forall|digits: nat, exponent: int| #[trigger]
        is_decimal(s, digits, exponent) implies decimal_value(s) == Some((digits, exponent)) by {
        law_decimals(s, digits, exponent);
    }
    if is_spelled(s, "inf"@) {
        lemma_word(s, "inf"@);
        assert(s[0] == 'i' || s[0] == 'I');
        if is_spelled(s, "nan"@) {
            assert(s[0] == 'n' || s[0] == 'N');
        }
    } else if is_spelled(s, "infinity"@) {
        lemma_word(s, "infinity"@);
    } else if is_spelled(s, "nan"@) {
        lemma_word(s, "nan"@);
    } else if let Some((digits, exponent)) = decimal_value(s) {
        law_decimals(s, digits, exponent);
        let n = numerator(digits, exponent);
        let d = denominator(exponent);
        let unit = digits * pow2(149);
        assert(unit * 1 == unit);
        if exponent < 0 {
            lemma_pow_positive(10, (-exponent) as nat);
        }
        lemma_nearest_exists(n, d);
        if let Quality::Number(rank) = quality {
            law_rounding_goes_by_halfway_points(n, d, rank as int);
        }
        if s[0] == '+' || s[0] == '-' {
            assert(digits_end(s, 0) == 0);
            assert(s.take(0) + Seq::<char>::empty() =~= Seq::<char>::empty());
        }
        assert(s.len() > 0);
    }
}

/// Text is read as a quality exactly if it is one, and as the one that it is.
pub proof fn law_qualities(s: Seq<char>, quality: Quality)
    ensures
        quality_value(s) == Some(quality) <==> is_quality(s, quality),
{
    lemma_unsigned_quality(s, quality);
    if s.len() > 0 && (s[0] == '+' || s[0] == '-') {
        let behind = s.skip(1);
        lemma_unsigned_quality(behind, quality);
        assert forall|other: Quality| #[trigger]
            is_unsigned_quality(behind, other) <==> unsigned_value(behind) == Some(other) by {
            lemma_unsigned_quality(behind, other);
        }
        if let Some(other) = unsigned_value(behind) {
            assert(is_unsigned_quality(behind, other));
        }
    }
}

} // verus!
