//! Exact arithmetic for the multiplier.
//!
//! A multiplier is only ever added to, halved, and multiplied by a whole
//! number. So it is always a dyadic rational `num / 2^exp`, and the library
//! keeps it as that pair. No operation reduces the pair: numerator and
//! exponent only grow, which is what makes an overflow final.

use vstd::prelude::*;
use vstd::arithmetic::power2::{
    lemma2_to64,
    lemma_pow2_adds,
    lemma_pow2_pos,
    lemma_pow2_strictly_increases,
    pow2,
};
use vstd::bits::{
    lemma_u128_shr_is_div,
    lemma_u64_pow2_no_overflow,
    lemma_u64_shl_is_mul,
};

verus! {

/// A number of chips.
pub type Chips = u64;

/// The mathematical value of a multiplier: the rational `num / 2^exp`, in the
/// representation that the operations below build.
pub struct Dyadic {
    pub num: nat,
    pub exp: nat,
}

impl Dyadic {
    pub open spec fn zero() -> Dyadic {
        Dyadic { num: 0, exp: 0 }
    }

    /// The whole number `k`.
    pub open spec fn from_int(k: nat) -> Dyadic {
        Dyadic { num: k, exp: 0 }
    }

    /// The sum, over the larger of the two exponents.
    pub open spec fn plus(self, other: Dyadic) -> Dyadic {
        let exp = if self.exp >= other.exp {
            self.exp
        } else {
            other.exp
        };
        Dyadic {
            num: self.num * pow2((exp - self.exp) as nat) + other.num * pow2(
                (exp - other.exp) as nat,
            ),
            exp,
        }
    }

    /// Half of the value.
    pub open spec fn half(self) -> Dyadic {
        Dyadic { num: self.num, exp: self.exp + 1 }
    }

    /// `k` times the value.
    pub open spec fn times(self, k: nat) -> Dyadic {
        Dyadic { num: self.num * k, exp: self.exp }
    }

    /// The value grown by half of itself.
    pub open spec fn times_three_halves(self) -> Dyadic {
        self.plus(self.half())
    }

    /// Whether a `Mult` can hold this pair.
    pub open spec fn fits(self) -> bool {
        self.num <= u64::MAX && self.exp <= u32::MAX
    }

    /// Whether neither the numerator nor the exponent is larger than in `other`.
    pub open spec fn within(self, other: Dyadic) -> bool {
        self.num <= other.num && self.exp <= other.exp
    }

    /// Whether the two pairs stand for the same rational.
    pub open spec fn same_value(self, other: Dyadic) -> bool {
        self.num * pow2(other.exp) == other.num * pow2(self.exp)
    }

    /// The whole part of `chips` times the value.
    pub open spec fn floor_times(self, chips: nat) -> nat {
        (chips * self.num) / pow2(self.exp)
    }

    /// A sum is no smaller than either operand, in numerator and in exponent.
    pub proof fn lemma_plus_grows(self, other: Dyadic)
        ensures
            self.within(self.plus(other)),
            other.within(self.plus(other)),
    {
        let sum = self.plus(other);
        let a = pow2((sum.exp - self.exp) as nat);
        let b = pow2((sum.exp - other.exp) as nat);
        lemma_pow2_pos((sum.exp - self.exp) as nat);
        lemma_pow2_pos((sum.exp - other.exp) as nat);
        assert(self.num * a >= self.num) by (nonlinear_arith)
            requires
                a >= 1,
        ;
        assert(other.num * b >= other.num) by (nonlinear_arith)
            requires
                b >= 1,
        ;
        assert(self.num * a >= 0);
        assert(other.num * b >= 0);
    }

    /// Multiplying by a positive whole number does not shrink the pair.
    pub proof fn lemma_times_grows(self, k: nat)
        requires
            k >= 1,
        ensures
            self.within(self.times(k)),
    {
        assert(self.num * k >= self.num) by (nonlinear_arith)
            requires
                k >= 1,
        ;
    }

    /// Growing by a half triples the numerator over one more binary place.
    pub proof fn lemma_times_three_halves(self)
        ensures
            self.times_three_halves() == (Dyadic { num: self.num * 3, exp: self.exp + 1 }),
    {
        lemma2_to64();
        assert(self.num * pow2(1) + self.num * pow2(0) == self.num * 3);
    }

    /// The sum stands for the sum of the two rationals: over the common
    /// denominator `2^(self.exp + other.exp)`, its numerator is the sum of the
    /// two cross products.
    pub proof fn lemma_plus_value(self, other: Dyadic)
        ensures
            self.plus(other).num * pow2(self.exp) * pow2(other.exp) == (self.num * pow2(other.exp)
                + other.num * pow2(self.exp)) * pow2(self.plus(other).exp),
    {
        let sum = self.plus(other);
        let da = (sum.exp - self.exp) as nat;
        let db = (sum.exp - other.exp) as nat;
        lemma_pow2_adds(da, self.exp);
        lemma_pow2_adds(db, other.exp);
        let pa = pow2(self.exp);
        let pb = pow2(other.exp);
        let pe = pow2(sum.exp);
        let qa = pow2(da);
        let qb = pow2(db);
        assert(qa * pa == pe);
        assert(qb * pb == pe);
        assert((self.num * qa + other.num * qb) * pa * pb == (self.num * pb + other.num * pa)
            * pe) by (nonlinear_arith)
            requires
                qa * pa == pe,
                qb * pb == pe,
        ;
    }
}

/// A multiplier: the rational `num / 2^exp`.
#[derive(Clone, Copy, PartialEq, Eq, Debug, Hash)]
pub struct Mult {
    pub num: u64,
    pub exp: u32,
}

impl View for Mult {
    type V = Dyadic;

    open spec fn view(&self) -> Dyadic {
        Dyadic { num: self.num as nat, exp: self.exp as nat }
    }
}

/// `n * 2^d`, or `None` where that is more than a `u64` holds.
fn scale_up(n: u64, d: u32) -> (r: Option<u64>)
    ensures
        n * pow2(d as nat) <= u64::MAX ==> r == Some((n * pow2(d as nat)) as u64),
        n * pow2(d as nat) > u64::MAX ==> r.is_none(),
{
    if n == 0 {
        assert(0 * pow2(d as nat) == 0);
        return Some(0);
    }
    if d >= 64 {
        proof {
            lemma2_to64();
            if d > 64 {
                lemma_pow2_strictly_increases(64, d as nat);
            }
            let p = pow2(d as nat);
            assert(n * p >= p) by (nonlinear_arith)
                requires
                    n >= 1,
                    p >= 0,
            ;
        }
        return None;
    }
    let shift: u64 = d as u64;
    proof {
        lemma_u64_pow2_no_overflow(d as nat);
        assert(1 * pow2(d as nat) == pow2(d as nat));
        lemma_u64_shl_is_mul(1, shift);
    }
    let factor: u64 = 1u64 << shift;
    n.checked_mul(factor)
}

impl Mult {
    pub fn zero() -> (m: Mult)
        ensures
            m@ == Dyadic::zero(),
    {
        Mult { num: 0, exp: 0 }
    }

    /// The whole number `k`.
    pub fn from_int(k: u64) -> (m: Mult)
        ensures
            m@ == Dyadic::from_int(k as nat),
    {
        Mult { num: k, exp: 0 }
    }

    /// The sum of two multipliers, or `None` where the sum does not fit.
    pub fn checked_plus(self, other: Mult) -> (r: Option<Mult>)
        ensures
            self@.plus(other@).fits() ==> r.is_some() && r.unwrap()@ == self@.plus(other@),
            !self@.plus(other@).fits() ==> r.is_none(),
    {
        let exp: u32 = if self.exp >= other.exp {
            self.exp
        } else {
            other.exp
        };
        let left = scale_up(self.num, exp - self.exp);
        let right = scale_up(other.num, exp - other.exp);
        proof {
            lemma_pow2_pos((exp - self.exp) as nat);
            lemma_pow2_pos((exp - other.exp) as nat);
            assert(self.num * pow2((exp - self.exp) as nat) >= 0) by (nonlinear_arith);
            assert(other.num * pow2((exp - other.exp) as nat) >= 0) by (nonlinear_arith);
        }
        match (left, right) {
            (Some(a), Some(b)) => match a.checked_add(b) {
                Some(num) => Some(Mult { num, exp }),
                None => None,
            },
            _ => None,
        }
    }

    /// Half of the multiplier, or `None` where the exponent does not fit.
    pub fn checked_half(self) -> (r: Option<Mult>)
        ensures
            self@.half().fits() ==> r.is_some() && r.unwrap()@ == self@.half(),
            !self@.half().fits() ==> r.is_none(),
    {
        match self.exp.checked_add(1) {
            Some(exp) => Some(Mult { num: self.num, exp }),
            None => None,
        }
    }

    /// `k` times the multiplier, or `None` where the product does not fit.
    pub fn checked_times(self, k: u64) -> (r: Option<Mult>)
        ensures
            self@.times(k as nat).fits() ==> r.is_some() && r.unwrap()@ == self@.times(k as nat),
            !self@.times(k as nat).fits() ==> r.is_none(),
    {
        match self.num.checked_mul(k) {
            Some(num) => Some(Mult { num, exp: self.exp }),
            None => None,
        }
    }

    /// The multiplier grown by half of itself, or `None` where the result
    /// does not fit.
    pub fn checked_times_three_halves(self) -> (r: Option<Mult>)
        ensures
            self@.times_three_halves().fits() ==> r.is_some() && r.unwrap()@
                == self@.times_three_halves(),
            !self@.times_three_halves().fits() ==> r.is_none(),
    {
        match self.checked_half() {
            Some(half) => self.checked_plus(half),
            None => {
                proof {
                    self@.lemma_plus_grows(self@.half());
                }
                None
            },
        }
    }

    /// The whole part of `chips` times the multiplier: the final score.
    pub fn floor_times(self, chips: Chips) -> (score: u128)
        ensures
            score == self@.floor_times(chips as nat),
    {
        assert(chips * self.num <= u128::MAX) by (nonlinear_arith)
            requires
                chips <= 0xffff_ffff_ffff_ffff,
                self.num <= 0xffff_ffff_ffff_ffff,
        ;
        let product: u128 = (chips as u128) * (self.num as u128);
        if self.exp >= 128 {
            proof {
                lemma2_to64();
                lemma_pow2_adds(64, 64);
                if self.exp > 128 {
                    lemma_pow2_strictly_increases(128, self.exp as nat);
                }
                let p = pow2(self.exp as nat);
                assert(pow2(64) * pow2(64) == 0x1_0000_0000_0000_0000_0000_0000_0000_0000)
                    by (nonlinear_arith)
                    requires
                        pow2(64) == 0x1_0000_0000_0000_0000,
                ;
                assert(product < p);
                assert(product as nat / p == 0) by (nonlinear_arith)
                    requires
                        0 <= product < p,
                ;
            }
            return 0;
        }
        let shift: u128 = self.exp as u128;
        proof {
            lemma_u128_shr_is_div(product, shift);
        }
        product >> shift
    }

    /// Whether the multiplier is the whole number `k`.
    pub fn is_int(self, k: u64) -> (b: bool)
        ensures
            b == self@.same_value(Dyadic::from_int(k as nat)),
    {
        proof {
            lemma2_to64();
            assert(self.num * pow2(0) == self.num);
        }
        match scale_up(k, self.exp) {
            Some(scaled) => scaled == self.num,
            None => false,
        }
    }
}

} // verus!
