//! Quality values: decimal fractions as a single-precision binary number
//! holds them.
//!
//! A quality is written in decimal and compared after rounding to single
//! precision, so that two weights which differ by less than the precision
//! count as equal. No arithmetic is ever done on a quality; it is only
//! compared. So a quality is held by its rank: the position of its rounded
//! value on the number line of single-precision values, with zero at zero and
//! the negative values mirrored below it. For a value that is not negative the
//! rank is the value's bit pattern.
use crate::natural::{Natural, Relation};
use crate::text::{
    all_digits, digits_end, digits_value, is_digit, same_ignoring_case, skip_digits,
    spells_ignoring_case,
};
use vstd::arithmetic::power::{lemma_pow_adds, lemma_pow_increases, lemma_pow_positive, pow};
use vstd::arithmetic::power2::{lemma2_to64, lemma_pow2_adds, lemma_pow2_pos, lemma_pow2_unfold, pow2};
use vstd::prelude::*;
use vstd::slice::slice_subrange;

verus! {

/// A quality value.
#[derive(Clone, Copy, Debug, PartialEq, Eq, Structural)]
pub enum Quality {
    /// The text was `nan`: neither equal to, above nor below any quality.
    NotANumber,
    /// The number with this rank.
    Number(i32),
}

/// The rank of infinity, which no other rank exceeds.
pub open spec fn infinite_rank() -> int {
    0x7f80_0000
}

/// The value with a rank that is not negative, in units of the smallest
/// positive value, 2^-149. There are 2^23 values to each power of two. Infinity
/// counts as the power of two that follows the largest finite value.
pub open spec fn magnitude(rank: int) -> int {
    if rank < 0x80_0000 {
        rank
    } else {
        (0x80_0000 + rank % 0x80_0000) * pow2((rank / 0x80_0000 - 1) as nat)
    }
}

/// How far the fraction is from the value with a rank, times the denominator.
pub open spec fn distance(numerator: int, denominator: int, rank: int) -> int {
    let difference = numerator - magnitude(rank) * denominator;
    if difference < 0 {
        -difference
    } else {
        difference
    }
}

/// No value is closer to the fraction than the one with this rank, and where
/// another is just as close this rank is even.
pub open spec fn is_nearest(numerator: int, denominator: int, rank: int) -> bool {
    &&& 0 <= rank <= infinite_rank()
    &&& forall|other: int|
        0 <= other <= infinite_rank() && other != rank ==> {
            ||| distance(numerator, denominator, rank) < #[trigger] distance(
                numerator,
                denominator,
                other,
            )
            ||| distance(numerator, denominator, rank) == distance(numerator, denominator, other)
                && rank % 2 == 0
        }
}

/// The rank of the value nearest to the fraction.
pub open spec fn nearest(numerator: int, denominator: int) -> int {
    choose|rank: int| is_nearest(numerator, denominator, rank)
}

/// The numerator of `digits` times ten to the power `exponent`, in units of
/// 2^-149.
pub open spec fn numerator(digits: nat, exponent: int) -> int {
    digits * pow2(149) * (if exponent >= 0 {
        pow(10, exponent as nat)
    } else {
        1
    })
}

/// The denominator of a number with this decimal exponent.
pub open spec fn denominator(exponent: int) -> int {
    if exponent >= 0 {
        1
    } else {
        pow(10, (-exponent) as nat)
    }
}

/// What stands behind the `e` of a number: digits after an optional sign.
pub open spec fn exponent_value(s: Seq<char>) -> Option<int> {
    let signed = s.len() > 0 && (s[0] == '+' || s[0] == '-');
    let digits = if signed {
        s.skip(1)
    } else {
        s
    };
    if digits.len() == 0 || !all_digits(digits) {
        None
    } else if s[0] == '-' {
        Some(-digits_value(digits))
    } else {
        Some(digits_value(digits) as int)
    }
}

/// The digits and the decimal exponent of an unsigned decimal number: digits
/// with at most one point among or beside them, then optionally an exponent.
pub open spec fn decimal_value(s: Seq<char>) -> Option<(nat, int)> {
    let point = digits_end(s, 0);
    let end = if point < s.len() && s[point] == '.' {
        digits_end(s, point + 1)
    } else {
        point
    };
    let fraction = if end > point {
        s.subrange(point + 1, end)
    } else {
        Seq::empty()
    };
    let digits = s.take(point) + fraction;
    if digits.len() == 0 {
        None
    } else if end == s.len() {
        Some((digits_value(digits), -fraction.len()))
    } else if s[end] == 'e' || s[end] == 'E' {
        match exponent_value(s.skip(end + 1)) {
            Some(exponent) => Some((digits_value(digits), exponent - fraction.len())),
            None => None,
        }
    } else {
        None
    }
}

/// The quality that unsigned text writes down.
pub open spec fn unsigned_value(s: Seq<char>) -> Option<Quality> {
    if same_ignoring_case(s, "inf"@) || same_ignoring_case(s, "infinity"@) {
        Some(Quality::Number(infinite_rank() as i32))
    } else if same_ignoring_case(s, "nan"@) {
        Some(Quality::NotANumber)
    } else {
        match decimal_value(s) {
            Some((digits, exponent)) => Some(
                Quality::Number(nearest(numerator(digits, exponent), denominator(exponent)) as i32),
            ),
            None => None,
        }
    }
}

/// The quality that text writes down, after an optional sign.
pub open spec fn quality_value(s: Seq<char>) -> Option<Quality> {
    let signed = s.len() > 0 && (s[0] == '+' || s[0] == '-');
    if !signed {
        unsigned_value(s)
    } else {
        match unsigned_value(s.skip(1)) {
            Some(Quality::Number(rank)) if s[0] == '-' => Some(Quality::Number((-rank) as i32)),
            unsigned => unsigned,
        }
    }
}

/// The rank of one.
pub const ONE: i32 = 0x3f80_0000;

impl Quality {
    /// This is zero, of either sign.
    pub open spec fn is_zero_spec(self) -> bool {
        self == Quality::Number(0)
    }

    /// This is greater than `other`.
    pub open spec fn exceeds_spec(self, other: Quality) -> bool {
        match (self, other) {
            (Quality::Number(a), Quality::Number(b)) => a > b,
            _ => false,
        }
    }

    /// This and `other` are the same number.
    pub open spec fn equals_spec(self, other: Quality) -> bool {
        match (self, other) {
            (Quality::Number(a), Quality::Number(b)) => a == b,
            _ => false,
        }
    }

    /// The quality of an entry that gives none.
    pub fn one() -> (r: Quality)
        ensures
            r == Quality::Number(ONE),
    {
        Quality::Number(ONE)
    }

    /// Whether this is zero, of either sign.
    pub fn is_zero(self) -> (r: bool)
        ensures
            r == self.is_zero_spec(),
    {
        match self {
            Quality::Number(rank) => rank == 0,
            Quality::NotANumber => false,
        }
    }

    /// Whether this is greater than `other`.
    pub fn exceeds(self, other: Quality) -> (r: bool)
        ensures
            r == self.exceeds_spec(other),
    {
        match (self, other) {
            (Quality::Number(a), Quality::Number(b)) => a > b,
            _ => false,
        }
    }

    /// Whether this and `other` are the same number.
    pub fn equals(self, other: Quality) -> (r: bool)
        ensures
            r == self.equals_spec(other),
    {
        match (self, other) {
            (Quality::Number(a), Quality::Number(b)) => a == b,
            _ => false,
        }
    }
}

/// The sum of the values with this rank and the next: twice their midpoint.
spec fn doubled_midpoint(rank: int) -> int {
    magnitude(rank) + magnitude(rank + 1)
}

/// Half of `twice` is no closer to the next value than to the one with this
/// rank, and where it is as close this rank is even.
spec fn rounds_no_higher(twice: int, denominator: int, rank: int) -> bool {
    ||| twice < doubled_midpoint(rank) * denominator
    ||| twice == doubled_midpoint(rank) * denominator && rank % 2 == 0
}

/// The odd factor of a doubled midpoint.
spec fn midpoint_factor(rank: int) -> int {
    if rank < 0x80_0000 {
        2 * rank + 1
    } else {
        2 * (0x80_0000 + rank % 0x80_0000) + 1
    }
}

/// The power of two in a doubled midpoint.
spec fn midpoint_shift(rank: int) -> nat {
    if rank < 0x80_0000 {
        0
    } else {
        (rank / 0x80_0000 - 1) as nat
    }
}

/// The first rank of the first full block of values.
proof fn lemma_first_power()
    ensures
        magnitude(0x80_0000) == 0x80_0000,
{
    lemma2_to64();
    assert(0x80_0000 * pow2(0) == 0x80_0000) by (nonlinear_arith)
        requires
            pow2(0) == 1,
    ;
}

proof fn lemma_doubled_midpoint(rank: int)
    requires
        0 <= rank < infinite_rank(),
    ensures
        doubled_midpoint(rank) == midpoint_factor(rank) * pow2(midpoint_shift(rank)),
{
    lemma2_to64();
    let block = 0x80_0000int;
    if rank < block {
        lemma_first_power();
        let factor = midpoint_factor(rank);
        assert(factor * pow2(0) == factor) by (nonlinear_arith)
            requires
                pow2(0) == 1,
        ;
    } else {
        let exponent = (rank / block - 1) as nat;
        let step = pow2(exponent) as int;
        let offset = rank % block;
        if offset < block - 1 {
            assert((rank + 1) / block == rank / block && (rank + 1) % block == offset + 1);
            assert((block + offset) * step + (block + offset + 1) * step == (2 * (block + offset)
                + 1) * step) by (nonlinear_arith);
        } else {
            assert((rank + 1) / block == rank / block + 1 && (rank + 1) % block == 0);
            lemma_pow2_unfold((exponent + 1) as nat);
            assert((block + offset) * step + block * (2 * step) == (2 * (block + offset) + 1)
                * step) by (nonlinear_arith)
                requires
                    offset == block - 1,
            ;
        }
    }
}

/// A higher rank means a greater value.
pub proof fn lemma_magnitude_increases(low: int, high: int)
    requires
        0 <= low < high,
    ensures
        magnitude(low) < magnitude(high),
    decreases high - low,
{
    let block = 0x80_0000int;
    lemma2_to64();
    if low + 1 < high {
        lemma_magnitude_increases(low, high - 1);
        lemma_magnitude_increases(high - 1, high);
    } else if low < block {
        lemma_first_power();
    } else {
        let exponent = (low / block - 1) as nat;
        let step = pow2(exponent) as int;
        let offset = low % block;
        lemma_pow2_pos(exponent);
        if offset < block - 1 {
            assert(high / block == low / block && high % block == offset + 1);
            assert((block + offset) * step < (block + offset + 1) * step) by (nonlinear_arith)
                requires
                    step > 0,
            ;
        } else {
            assert(high / block == low / block + 1 && high % block == 0);
            lemma_pow2_unfold((exponent + 1) as nat);
            assert((block + offset) * step < block * (2 * step)) by (nonlinear_arith)
                requires
                    step > 0,
                    offset == block - 1,
            ;
        }
    }
}

/// The rank between the two neighbouring midpoints is the nearest.
proof fn lemma_nearest_between_midpoints(n: int, d: int, rank: int)
    requires
        0 <= rank <= infinite_rank(),
        d > 0,
        rank < infinite_rank() ==> rounds_no_higher(2 * n, d, rank),
        rank > 0 ==> !rounds_no_higher(2 * n, d, rank - 1),
    ensures
        is_nearest(n, d, rank),
{
    assert forall|other: int| 0 <= other <= infinite_rank() && other != rank implies {
        ||| distance(n, d, rank) < #[trigger] distance(n, d, other)
        ||| distance(n, d, rank) == distance(n, d, other) && rank % 2 == 0
    } by {
        let here = magnitude(rank) * d;
        let there = magnitude(other) * d;
        if other > rank {
            let next = magnitude(rank + 1) * d;
            lemma_magnitude_increases(rank, rank + 1);
            if other > rank + 1 {
                lemma_magnitude_increases(rank + 1, other);
            }
            assert(here < next <= there && doubled_midpoint(rank) * d == here + next)
                by (nonlinear_arith)
                requires
                    here == magnitude(rank) * d,
                    next == magnitude(rank + 1) * d,
                    there == magnitude(other) * d,
                    magnitude(rank) < magnitude(rank + 1) <= magnitude(other),
                    doubled_midpoint(rank) == magnitude(rank) + magnitude(rank + 1),
                    d > 0,
            ;
        } else {
            let previous = magnitude(rank - 1) * d;
            lemma_magnitude_increases(rank - 1, rank);
            if other < rank - 1 {
                lemma_magnitude_increases(other, rank - 1);
            }
            assert(there <= previous < here && doubled_midpoint(rank - 1) * d == previous + here)
                by (nonlinear_arith)
                requires
                    here == magnitude(rank) * d,
                    previous == magnitude(rank - 1) * d,
                    there == magnitude(other) * d,
                    magnitude(other) <= magnitude(rank - 1) < magnitude(rank),
                    doubled_midpoint(rank - 1) == magnitude(rank - 1) + magnitude(rank),
                    d > 0,
            ;
        }
    }
}

/// Rounding has one result.
pub proof fn lemma_nearest_is_unique(n: int, d: int, a: int, b: int)
    requires
        d > 0,
        is_nearest(n, d, a),
        is_nearest(n, d, b),
    ensures
        a == b,
{
    if a != b {
        let low = if a < b {
            a
        } else {
            b
        };
        let high = if a < b {
            b
        } else {
            a
        };
        assert(distance(n, d, low) == distance(n, d, high));
        assert(low % 2 == 0 && high % 2 == 0);
        let middle = low + 1;
        lemma_magnitude_increases(low, middle);
        lemma_magnitude_increases(middle, high);
        let x = magnitude(low) * d;
        let y = magnitude(middle) * d;
        let z = magnitude(high) * d;
        assert(x < y < z) by (nonlinear_arith)
            requires
                x == magnitude(low) * d,
                y == magnitude(middle) * d,
                z == magnitude(high) * d,
                magnitude(low) < magnitude(middle) < magnitude(high),
                d > 0,
        ;
        assert(distance(n, d, middle) < distance(n, d, low));
    }
}

/// Whether the fraction, given by twice its numerator, rounds to this rank or
/// to a lower one.
fn check_rounds_no_higher(twice: &Natural, denominator: &Natural, rank: u32) -> (r: bool)
    requires
        rank < infinite_rank(),
    ensures
        r == rounds_no_higher(twice@ as int, denominator@ as int, rank as int),
{
    let mut midpoint = denominator.copy();
    let factor: u32 = if rank < 0x80_0000 {
        2 * rank + 1
    } else {
        2 * (0x80_0000 + rank % 0x80_0000) + 1
    };
    let places: u32 = if rank < 0x80_0000 {
        0
    } else {
        rank / 0x80_0000 - 1
    };
    midpoint.multiply_add(factor, 0);
    midpoint.shift(places);
    proof {
        lemma_doubled_midpoint(rank as int);
        let d = denominator@ as int;
        let f = factor as int;
        let p = pow2(places as nat) as int;
        assert(d * f * p == (f * p) * d) by (nonlinear_arith);
    }
    match twice.relation(&midpoint) {
        Relation::Less => true,
        Relation::Equal => rank % 2 == 0,
        Relation::Greater => false,
    }
}

/// The rank of the value nearest to a fraction, given by twice its numerator.
fn round(twice: &Natural, denominator: &Natural, Ghost(n): Ghost<int>) -> (r: u32)
    requires
        denominator@ > 0,
        twice@ == 2 * n,
    ensures
        is_nearest(n, denominator@ as int, r as int),
{
    let mut low: u32 = 0;
    let mut high: u32 = 0x7f80_0000;
    while low < high
        invariant
            low <= high <= infinite_rank(),
            twice@ == 2 * n,
            high < infinite_rank() ==> rounds_no_higher(2 * n, denominator@ as int, high as int),
            low > 0 ==> !rounds_no_higher(2 * n, denominator@ as int, low - 1),
        decreases high - low,
    {
        let middle: u32 = low + (high - low) / 2;
        if check_rounds_no_higher(twice, denominator, middle) {
            high = middle;
        } else {
            low = middle + 1;
        }
    }
    proof {
        lemma_nearest_between_midpoints(n, denominator@ as int, low as int);
    }
    low
}

/// Ten to the power forty is past the finite values, and ten to the power
/// fifty is past twice the number of units in one.
proof fn lemma_extreme_powers()
    ensures
        pow(10, 40) > pow2(128),
        pow(10, 50) > pow2(150),
{
    lemma2_to64();
    lemma_pow2_adds(64, 64);
    lemma_pow2_adds(128, 22);
    assert(pow(10, 10) == 10_000_000_000) by {
        reveal_with_fuel(pow, 11);
    }
    lemma_pow_adds(10, 10, 10);
    lemma_pow_adds(10, 20, 20);
    lemma_pow_adds(10, 40, 10);
    assert(pow(10, 20) == 100_000_000_000_000_000_000);
    let twenty = pow(10, 20);
    assert(twenty * twenty == 10_000_000_000_000_000_000_000_000_000_000_000_000_000)
        by (nonlinear_arith)
        requires
            twenty == 100_000_000_000_000_000_000,
    ;
    assert(pow2(128) == 0x1_0000_0000_0000_0000_0000_0000_0000_0000);
}

/// The greatest rank stands for 2^277 units.
proof fn lemma_infinite_magnitude()
    ensures
        magnitude(infinite_rank()) == pow2(277),
{
    lemma2_to64();
    lemma_pow2_adds(23, 254);
}

/// A number of at least ten to the power forty rounds to infinity.
proof fn lemma_rounds_to_infinity(digits: nat, exponent: int)
    requires
        digits >= 1,
        exponent >= 40,
    ensures
        is_nearest(numerator(digits, exponent), denominator(exponent), infinite_rank()),
{
    let n = numerator(digits, exponent);
    let top = infinite_rank();
    let power = pow(10, exponent as nat);
    let unit = pow2(149) as int;
    lemma_extreme_powers();
    lemma_pow_increases(10, 40, exponent as nat);
    lemma_pow2_pos(149);
    lemma_pow2_adds(149, 128);
    lemma_infinite_magnitude();
    lemma_magnitude_increases(top - 1, top);
    assert(digits * unit * power > unit * pow2(128)) by (nonlinear_arith)
        requires
            digits >= 1,
            unit > 0,
            power > pow2(128),
            pow2(128) >= 0,
    ;
    assert(doubled_midpoint(top - 1) * 1 == doubled_midpoint(top - 1));
    lemma_nearest_between_midpoints(n, 1, top);
}

/// A number below ten to the power minus fifty rounds to zero.
proof fn lemma_rounds_to_zero(digits: nat, width: nat, exponent: int)
    requires
        digits < pow(10, width),
        exponent + width <= -50,
    ensures
        is_nearest(numerator(digits, exponent), denominator(exponent), 0),
{
    let n = numerator(digits, exponent);
    let d = denominator(exponent);
    let unit = pow2(149) as int;
    let spare = pow(10, (-exponent - width) as nat);
    lemma_extreme_powers();
    lemma_pow_positive(10, (-exponent) as nat);
    lemma_pow_positive(10, width);
    lemma_pow_increases(10, 50, (-exponent - width) as nat);
    lemma_pow_adds(10, width, (-exponent - width) as nat);
    lemma_pow2_unfold(150);
    lemma_pow2_pos(149);
    lemma_first_midpoint();
    assert(2 * (digits * unit * 1) < pow(10, width) * spare) by (nonlinear_arith)
        requires
            digits < pow(10, width),
            0 <= digits,
            2 * unit < spare,
            unit > 0,
    ;
    assert(doubled_midpoint(0) * d == d);
    lemma_nearest_between_midpoints(n, d, 0);
}

/// Zero rounds to zero.
pub proof fn lemma_zero_rounds_to_zero(exponent: int)
    ensures
        is_nearest(numerator(0, exponent), denominator(exponent), 0),
{
    let n = numerator(0, exponent);
    let d = denominator(exponent);
    if exponent < 0 {
        lemma_pow_positive(10, (-exponent) as nat);
    }
    let scale = if exponent >= 0 {
        pow(10, exponent as nat)
    } else {
        1
    };
    assert(0 * pow2(149) * scale == 0) by (nonlinear_arith);
    lemma_first_midpoint();
    assert(doubled_midpoint(0) * d == d);
    lemma_nearest_between_midpoints(n, d, 0);
}

proof fn lemma_first_midpoint()
    ensures
        doubled_midpoint(0) == 1,
{
}

/// A number of `s.len()` digits is below that power of ten.
proof fn lemma_digits_value_bound(s: Seq<char>)
    requires
        all_digits(s),
    ensures
        digits_value(s) < pow(10, s.len()),
    decreases s.len(),
{
    reveal(pow);
    if s.len() > 0 {
        let shorter = s.drop_last();
        assert forall|k: int| 0 <= k < shorter.len() implies is_digit(#[trigger] shorter[k]) by {
            assert(shorter[k] == s[k]);
        }
        lemma_digits_value_bound(shorter);
        assert(is_digit(s[s.len() - 1]));
        assert(pow(10, s.len()) == 10 * pow(10, shorter.len()));
    }
}

/// The characters before the end of a run of digits are digits.
proof fn lemma_digits_end(s: Seq<char>, from: int)
    requires
        0 <= from <= s.len(),
    ensures
        from <= digits_end(s, from) <= s.len(),
        forall|k: int| from <= k < digits_end(s, from) ==> is_digit(#[trigger] s[k]),
    decreases s.len() - from,
{
    if from < s.len() && is_digit(s[from]) {
        lemma_digits_end(s, from + 1);
    }
}

/// Every fraction has a nearest value.
pub proof fn lemma_nearest_exists(n: int, d: int)
    requires
        d > 0,
    ensures
        is_nearest(n, d, nearest(n, d)),
{
    lemma_nearest_exists_from(n, d, 0);
}

proof fn lemma_nearest_exists_from(n: int, d: int, rank: int)
    requires
        d > 0,
        0 <= rank <= infinite_rank(),
        rank > 0 ==> !rounds_no_higher(2 * n, d, rank - 1),
    ensures
        exists|r: int| is_nearest(n, d, r),
    decreases infinite_rank() - rank,
{
    if rank == infinite_rank() || rounds_no_higher(2 * n, d, rank) {
        lemma_nearest_between_midpoints(n, d, rank);
    } else {
        lemma_nearest_exists_from(n, d, rank + 1);
    }
}

/// The rank that is nearest is what rounding gives.
pub proof fn lemma_nearest(n: int, d: int, rank: int)
    requires
        d > 0,
        is_nearest(n, d, rank),
    ensures
        nearest(n, d) == rank,
{
    lemma_nearest_is_unique(n, d, nearest(n, d), rank);
}

/// Reads further decimal digits behind those that `number` holds.
fn append_digits(number: &mut Natural, s: &[char], Ghost(before): Ghost<Seq<char>>)
    requires
        all_digits(s@),
        old(number)@ == digits_value(before),
    ensures
        final(number)@ == digits_value(before + s@),
{
    let mut i: usize = 0;
    assert(before + s@.take(0) =~= before);
    while i < s.len()
        invariant
            i <= s@.len(),
            all_digits(s@),
            number@ == digits_value(before + s@.take(i as int)),
        decreases s@.len() - i,
    {
        let c = s[i];
        assert(is_digit(s@[i as int]));
        let digit: u32 = c as u32 - 48;
        assert((before + s@.take(i + 1)).drop_last() =~= before + s@.take(i as int));
        number.multiply_add(10, digit);
        i += 1;
    }
    assert(s@.take(s@.len() as int) =~= s@);
}

/// Exponents of this size and beyond are not told apart.
const LARGE: i128 = 1_000_000_000_000_000_000_000_000;

/// `read` is `exact`, or both are large and of one sign.
spec fn stands_for(read: int, exact: int) -> bool {
    ||| read == exact
    ||| read >= LARGE && exact >= LARGE
    ||| read <= -LARGE && exact <= -LARGE
}

/// Reads the exponent of a number.
fn read_exponent(s: &[char]) -> (r: Option<i128>)
    ensures
        match r {
            Some(read) => {
                &&& exponent_value(s@) is Some
                &&& stands_for(read as int, exponent_value(s@)->0)
                &&& -20 * LARGE < read < 20 * LARGE
            },
            None => exponent_value(s@) is None,
        },
{
    let signed = s.len() > 0 && (s[0] == '+' || s[0] == '-');
    let digits = if signed {
        slice_subrange(s, 1, s.len())
    } else {
        s
    };
    assert(s@.len() > 0 ==> s@.subrange(1, s@.len() as int) =~= s@.skip(1));
    if digits.len() == 0 {
        return None;
    }
    let mut read: i128 = 0;
    let mut i: usize = 0;
    while i < digits.len()
        invariant
            i <= digits@.len(),
            all_digits(digits@.take(i as int)),
            0 <= read < 20 * LARGE,
            stands_for(read as int, digits_value(digits@.take(i as int)) as int),
            digits@ == (if s@.len() > 0 && (s@[0] == '+' || s@[0] == '-') {
                s@.skip(1)
            } else {
                s@
            }),
        decreases digits@.len() - i,
    {
        let c = digits[i];
        assert(digits@[i as int] == c);
        if !('0' <= c && c <= '9') {
            assert(!is_digit(digits@[i as int]));
            return None;
        }
        assert(digits@.take(i + 1).drop_last() =~= digits@.take(i as int));
        if read < LARGE {
            read = 10 * read + (c as u32 - 48) as i128;
        }
        assert forall|k: int| 0 <= k < digits@.take(i + 1).len() implies is_digit(
            #[trigger] digits@.take(i + 1)[k],
        ) by {
            if k < i {
                assert(digits@.take(i as int)[k] == digits@[k]);
            }
        }
        i += 1;
    }
    assert(digits@.take(digits@.len() as int) =~= digits@);
    if s[0] == '-' {
        Some(-read)
    } else {
        Some(read)
    }
}

/// Multiplies by ten to a power.
fn scale_up(number: &mut Natural, power: i128)
    requires
        power >= 0,
    ensures
        final(number)@ == old(number)@ * pow(10, power as nat),
{
    let mut done: i128 = 0;
    assert(pow(10, 0) == 1) by {
        reveal(pow);
    }
    assert(number@ * 1 == number@);
    while done < power
        invariant
            0 <= done <= power,
            number@ == old(number)@ * pow(10, done as nat),
        decreases power - done,
    {
        proof {
            reveal(pow);
            let start = old(number)@ as int;
            let ten = pow(10, done as nat);
            assert(pow(10, (done + 1) as nat) == 10 * ten);
            assert((start * ten) * 10 == start * (10 * ten)) by (nonlinear_arith);
        }
        number.multiply_add(10, 0);
        done += 1;
    }
}

/// The rank of the value nearest to `digits` times ten to the power `exact`,
/// where `exponent` is what was read of that power.
fn nearest_rank(digits: Natural, width: usize, exponent: i128, Ghost(exact): Ghost<int>) -> (r: u32)
    requires
        digits@ < pow(10, width as nat),
        -LARGE * 30 < exponent < LARGE * 30,
        exponent == exact || exponent >= 40 && exact >= 40 || exponent + width <= -50 && exact
            + width <= -50,
    ensures
        r == nearest(numerator(digits@, exact), denominator(exact)),
        r <= infinite_rank(),
{
    let ghost n = numerator(digits@, exact);
    let ghost d = denominator(exact);
    proof {
        if exact < 0 {
            lemma_pow_positive(10, (-exact) as nat);
        }
    }
    if let Relation::Equal = digits.relation(&Natural::new(0)) {
        proof {
            lemma_zero_rounds_to_zero(exact);
            lemma_nearest(n, d, 0);
        }
        return 0;
    }
    if exponent >= 40 {
        proof {
            lemma_rounds_to_infinity(digits@, exact);
            lemma_nearest(n, d, infinite_rank());
        }
        return 0x7f80_0000;
    }
    if exponent + width as i128 <= -50 {
        proof {
            lemma_rounds_to_zero(digits@, width as nat, exact);
            lemma_nearest(n, d, 0);
        }
        return 0;
    }
    let mut twice = digits;
    twice.shift(150);
    let mut below = Natural::new(1);
    if exponent >= 0 {
        scale_up(&mut twice, exponent);
    } else {
        scale_up(&mut below, -exponent);
    }
    proof {
        lemma_pow2_unfold(150);
        let m = digits@ as int;
        let unit = pow2(149) as int;
        let scale = if exact >= 0 {
            pow(10, exact as nat)
        } else {
            1
        };
        assert(m * (2 * unit) * scale == 2 * (m * unit * scale)) by (nonlinear_arith);
        assert(exact < 0 ==> m * (2 * unit) == m * (2 * unit) * scale);
        assert(1 * d == d);
    }
    let rank = round(&twice, &below, Ghost(n));
    proof {
        lemma_nearest(n, d, rank as int);
    }
    rank
}

/// The quality that unsigned text writes down.
fn parse_unsigned(s: &[char]) -> (r: Option<Quality>)
    ensures
        r == unsigned_value(s@),
        r matches Some(Quality::Number(rank)) ==> 0 <= rank <= infinite_rank(),
{
    if spells_ignoring_case(s, "inf") || spells_ignoring_case(s, "infinity") {
        return Some(Quality::Number(0x7f80_0000));
    }
    if spells_ignoring_case(s, "nan") {
        return Some(Quality::NotANumber);
    }
    let point: usize = skip_digits(s, 0);
    let end: usize = if point < s.len() && s[point] == '.' {
        skip_digits(s, point + 1)
    } else {
        point
    };
    let whole = slice_subrange(s, 0, point);
    let fraction = if end > point {
        slice_subrange(s, point + 1, end)
    } else {
        slice_subrange(s, point, point)
    };
    proof {
        lemma_digits_end(s@, 0);
        assert(whole@ =~= s@.take(point as int));
        if end > point {
            lemma_digits_end(s@, point + 1);
        } else {
            assert(fraction@ =~= Seq::empty());
        }
        assert(all_digits(whole@));
        assert(all_digits(fraction@));
        assert(all_digits(whole@ + fraction@));
        lemma_digits_value_bound(whole@ + fraction@);
    }
    let width: usize = if end > point {
        end - 1
    } else {
        point
    };
    if width == 0 {
        return None;
    }
    let mut digits = Natural::new(0);
    append_digits(&mut digits, whole, Ghost(Seq::empty()));
    assert(Seq::empty() + whole@ =~= whole@);
    append_digits(&mut digits, fraction, Ghost(whole@));
    let exponent: i128 = if end == s.len() {
        0
    } else if s[end] == 'e' || s[end] == 'E' {
        let tail = slice_subrange(s, end + 1, s.len());
        assert(tail@ =~= s@.skip(end + 1));
        match read_exponent(tail) {
            Some(exponent) => exponent,
            None => {
                return None;
            },
        }
    } else {
        return None;
    };
    let ghost exact = match decimal_value(s@) {
        Some((_, exact)) => exact,
        None => 0,
    };
    let rank = nearest_rank(digits, width, exponent - fraction.len() as i128, Ghost(exact));
    Some(Quality::Number(rank as i32))
}

/// The quality that text writes down: a decimal number with an optional sign
/// and an optional exponent, or the name of infinity or of no number, rounded
/// to single precision.
pub fn parse_quality(s: &[char]) -> (r: Option<Quality>)
    ensures
        r == quality_value(s@),
{
    if s.len() > 0 && (s[0] == '+' || s[0] == '-') {
        let unsigned = slice_subrange(s, 1, s.len());
        assert(unsigned@ =~= s@.skip(1));
        match parse_unsigned(unsigned) {
            Some(Quality::Number(rank)) => if s[0] == '-' {
                Some(Quality::Number(-rank))
            } else {
                Some(Quality::Number(rank))
            },
            other => other,
        }
    } else {
        parse_unsigned(s)
    }
}

} // verus!
