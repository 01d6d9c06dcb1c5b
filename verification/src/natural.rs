//! Natural numbers of any size, with the few operations that reading a
//! decimal fraction takes.
use vstd::arithmetic::power::pow;
use vstd::arithmetic::power2::{lemma2_to64, lemma_pow2_adds, pow2};
use vstd::prelude::*;

verus! {

/// One more than the largest limb.
pub open spec fn base() -> int {
    0x1_0000_0000
}

/// The number that limbs in base 2^32 stand for, the least significant first.
pub open spec fn limbs_value(limbs: Seq<u32>) -> nat
    decreases limbs.len(),
{
    if limbs.len() == 0 {
        0
    } else {
        (limbs[0] + base() * limbs_value(limbs.skip(1))) as nat
    }
}

/// A natural number of any size.
pub struct Natural {
    limbs: Vec<u32>,
}

impl View for Natural {
    type V = nat;

    closed spec fn view(&self) -> nat {
        limbs_value(self.limbs@)
    }
}

/// How one number stands to another.
#[derive(Clone, Copy, Debug, PartialEq, Eq, Structural)]
pub enum Relation {
    Less,
    Equal,
    Greater,
}

impl Natural {
    /// The number with the value of one machine word.
    pub fn new(value: u32) -> (r: Natural)
        ensures
            r@ == value,
    {
        let r = Natural { limbs: vec![value] };
        proof {
            reveal_with_fuel(limbs_value, 2);
        }
        r
    }

    /// The same number again.
    pub fn copy(&self) -> (r: Natural)
        ensures
            r@ == self@,
    {
        let mut limbs: Vec<u32> = Vec::new();
        let mut i: usize = 0;
        while i < self.limbs.len()
            invariant
                i <= self.limbs@.len(),
                limbs@ == self.limbs@.take(i as int),
            decreases self.limbs@.len() - i,
        {
            limbs.push(self.limbs[i]);
            i += 1;
        }
        assert(limbs@ =~= self.limbs@);
        Natural { limbs }
    }

    /// Multiplies by one word and adds another.
    pub fn multiply_add(&mut self, factor: u32, summand: u32)
        ensures
            final(self)@ == old(self)@ * factor + summand,
    {
        let ghost source = self.limbs@;
        let mut limbs: Vec<u32> = Vec::new();
        let mut carry: u64 = summand as u64;
        let mut i: usize = 0;
        assert(source.skip(0) =~= source);
        assert(pow(base(), 0) == 1) by {
            reveal(pow);
        }
        while i < self.limbs.len()
            invariant
                i <= self.limbs@.len(),
                self.limbs@ == source,
                limbs@.len() == i,
                carry < base(),
                limbs_value(source) * factor + summand == limbs_value(limbs@) + pow(
                    base(),
                    i as nat,
                ) * (limbs_value(source.skip(i as int)) * factor + carry),
            decreases self.limbs@.len() - i,
        {
            let limb: u32 = self.limbs[i];
            assert(limb * factor <= 0xffff_ffff * 0xffff_ffff) by (nonlinear_arith)
                requires
                    limb <= 0xffff_ffff,
                    factor <= 0xffff_ffff,
            ;
            let total: u64 = limb as u64 * factor as u64 + carry;
            let low: u32 = (total % 0x1_0000_0000) as u32;
            let high: u64 = total / 0x1_0000_0000;
            proof {
                lemma_value_push(limbs@, low);
                assert(source.skip(i as int).skip(1) =~= source.skip(i + 1));
                lemma_carry_step(
                    pow(base(), i as nat),
                    limb as int,
                    limbs_value(source.skip(i + 1)) as int,
                    factor as int,
                    carry as int,
                    low as int,
                    high as int,
                );
                reveal(pow);
                assert(pow(base(), (i + 1) as nat) == base() * pow(base(), i as nat));
            }
            limbs.push(low);
            carry = high;
            i += 1;
        }
        proof {
            lemma_value_push(limbs@, carry as u32);
            let weight = pow(base(), i as nat);
            assert(limbs_value(source.skip(i as int)) == 0);
            assert(weight * (0 * factor + carry) == weight * carry) by (nonlinear_arith);
        }
        limbs.push(carry as u32);
        self.limbs = limbs;
    }

    /// Multiplies by a power of two.
    pub fn shift(&mut self, places: u32)
        ensures
            final(self)@ == old(self)@ * pow2(places as nat),
    {
        let mut left: u32 = places;
        proof {
            lemma2_to64();
        }
        while left > 0
            invariant
                left <= places,
                self@ * pow2(left as nat) == old(self)@ * pow2(places as nat),
            ensures
                left == 0,
            decreases left,
        {
            let ghost before = self@;
            let step: u32 = if left >= 16 {
                16
            } else {
                1
            };
            proof {
                lemma2_to64();
                lemma_pow2_adds(step as nat, (left - step) as nat);
                let whole = pow2(left as nat);
                let part = pow2(step as nat);
                let rest = pow2((left - step) as nat);
                assert(before * whole == (before * part) * rest) by (nonlinear_arith)
                    requires
                        whole == part * rest,
                ;
            }
            if left >= 16 {
                self.multiply_add(0x1_0000, 0);
            } else {
                self.multiply_add(2, 0);
            }
            left -= step;
        }
        proof {
            lemma2_to64();
        }
    }

    /// How this number stands to another.
    pub fn relation(&self, other: &Natural) -> (r: Relation)
        ensures
            r == Relation::Less <==> self@ < other@,
            r == Relation::Equal <==> self@ == other@,
            r == Relation::Greater <==> self@ > other@,
    {
        let longer = if self.limbs.len() >= other.limbs.len() {
            self.limbs.len()
        } else {
            other.limbs.len()
        };
        let mut r = Relation::Equal;
        let mut i: usize = longer;
        proof {
            lemma_value_past_end(self.limbs@, i as int);
            lemma_value_past_end(other.limbs@, i as int);
        }
        while i > 0
            invariant
                r == Relation::Less <==> value_from(self.limbs@, i as int) < value_from(
                    other.limbs@,
                    i as int,
                ),
                r == Relation::Equal <==> value_from(self.limbs@, i as int) == value_from(
                    other.limbs@,
                    i as int,
                ),
                r == Relation::Greater <==> value_from(self.limbs@, i as int) > value_from(
                    other.limbs@,
                    i as int,
                ),
            decreases i,
        {
            i -= 1;
            let a: u32 = if i < self.limbs.len() {
                self.limbs[i]
            } else {
                0
            };
            let b: u32 = if i < other.limbs.len() {
                other.limbs[i]
            } else {
                0
            };
            proof {
                lemma_value_from_step(self.limbs@, i as int);
                lemma_value_from_step(other.limbs@, i as int);
            }
            if r == Relation::Equal {
                if a < b {
                    r = Relation::Less;
                } else if a > b {
                    r = Relation::Greater;
                }
            }
        }
        assert(self.limbs@.skip(0) =~= self.limbs@);
        assert(other.limbs@.skip(0) =~= other.limbs@);
        r
    }
}

/// The number that the limbs from position `i` on stand for.
spec fn value_from(limbs: Seq<u32>, i: int) -> nat {
    if i < limbs.len() {
        limbs_value(limbs.skip(i))
    } else {
        0
    }
}

/// The limb at position `i`, or zero past the last.
spec fn limb_at(limbs: Seq<u32>, i: int) -> int {
    if i < limbs.len() {
        limbs[i] as int
    } else {
        0
    }
}

proof fn lemma_value_past_end(limbs: Seq<u32>, i: int)
    requires
        limbs.len() <= i,
    ensures
        value_from(limbs, i) == 0,
{
}

proof fn lemma_value_from_step(limbs: Seq<u32>, i: int)
    requires
        0 <= i,
    ensures
        value_from(limbs, i) == limb_at(limbs, i) + base() * value_from(limbs, i + 1),
{
    if i < limbs.len() {
        assert(limbs.skip(i).skip(1) =~= limbs.skip(i + 1));
        assert(limbs_value(limbs.skip(i + 1)) == value_from(limbs, i + 1));
    }
}

/// A limb more at the top adds its weight.
proof fn lemma_value_push(limbs: Seq<u32>, top: u32)
    ensures
        limbs_value(limbs.push(top)) == limbs_value(limbs) + pow(base(), limbs.len()) * top,
    decreases limbs.len(),
{
    reveal(pow);
    let longer = limbs.push(top);
    if limbs.len() == 0 {
        assert(longer.skip(1) =~= Seq::empty());
        assert(limbs_value(longer.skip(1)) == 0);
        assert(longer[0] == top);
    } else {
        assert(longer.skip(1) =~= limbs.skip(1).push(top));
        lemma_value_push(limbs.skip(1), top);
        let rest = limbs_value(limbs.skip(1)) as int;
        let weight = pow(base(), (limbs.len() - 1) as nat);
        assert(pow(base(), limbs.len()) == base() * weight);
        assert(base() * (rest + weight * top) == base() * rest + (base() * weight) * top)
            by (nonlinear_arith);
    }
}

proof fn lemma_carry_step(
    weight: int,
    limb: int,
    rest: int,
    factor: int,
    carry: int,
    low: int,
    high: int,
)
    requires
        limb * factor + carry == low + base() * high,
    ensures
        weight * ((limb + base() * rest) * factor + carry) == weight * low + (base() * weight) * (
        rest * factor + high),
{
    let b = base();
    assert((limb + b * rest) * factor == limb * factor + b * (rest * factor)) by (nonlinear_arith);
    assert(weight * (low + b * high + b * (rest * factor)) == weight * low + (b * weight) * (rest
        * factor + high)) by (nonlinear_arith);
}

} // verus!
