//! A 192-bit unsigned integer with verified arithmetic.
//!
//! The valuation engine tracks unnormalized probabilities as integers scaled
//! by 20 per remaining trial, so values grow up to 20 raised to the total
//! trial budget. A budget of up to 44 trials keeps every intermediate value
//! below 2^192, which the contracts of the operations here demand and the
//! engine proves.
//!
//! A value is three 64-bit limbs in little-endian order; every limb triple
//! is a valid, canonical representation.

use vstd::arithmetic::div_mod::{lemma_fundamental_div_mod, lemma_mod_bound};
use vstd::prelude::*;

verus! {

/// 2^64, the radix between adjacent limbs.
pub open spec fn limb_radix() -> nat {
    0x1_0000_0000_0000_0000nat
}

/// 2^128.
pub open spec fn limb_radix_squared() -> nat {
    0x1_0000_0000_0000_0000_0000_0000_0000_0000nat
}

/// 2^192, one more than the largest representable value.
pub open spec fn u192_bound() -> nat {
    0x1_0000_0000_0000_0000_0000_0000_0000_0000_0000_0000_0000_0000nat
}

/// A 192-bit unsigned integer: `lo + 2^64 * mid + 2^128 * hi`.
#[derive(Copy, Clone, Debug, PartialEq, Eq, Structural, Hash)]
pub struct U192 {
    pub lo: u64,
    pub mid: u64,
    pub hi: u64,
}

impl U192 {
    /// The mathematical value of this triple of limbs.
    pub open spec fn as_nat(self) -> nat {
        (self.lo + self.mid * limb_radix() + self.hi * limb_radix_squared()) as nat
    }
}

impl View for U192 {
    type V = nat;

    open spec fn view(&self) -> nat {
        self.as_nat()
    }
}

/// The product of two limb-sized values stays below 2^128.
proof fn lemma_limb_product_fits(a: int, m: int)
    requires
        0 <= a < limb_radix(),
        0 <= m < limb_radix(),
    ensures
        a * m <= (limb_radix() - 1) * (limb_radix() - 1),
{
    assert(a * m <= (limb_radix() - 1) * (limb_radix() - 1)) by (nonlinear_arith)
        requires
            0 <= a < limb_radix(),
            0 <= m < limb_radix(),
    ;
}

/// Limbs are a positional representation: equal values have equal limbs.
pub proof fn lemma_u192_canonical(a: U192, b: U192)
    requires
        a.as_nat() == b.as_nat(),
    ensures
        a == b,
{
    if a.hi != b.hi {
        assert(false);
    }
    if a.mid != b.mid {
        assert(false);
    }
}

impl U192 {
    pub fn zero() -> (r: U192)
        ensures
            r.as_nat() == 0,
    {
        U192 { lo: 0, mid: 0, hi: 0 }
    }

    pub fn one() -> (r: U192)
        ensures
            r.as_nat() == 1,
    {
        U192 { lo: 1, mid: 0, hi: 0 }
    }

    pub fn from_u64(v: u64) -> (r: U192)
        ensures
            r.as_nat() == v,
    {
        U192 { lo: v, mid: 0, hi: 0 }
    }

    /// The largest representable value, used by the engine as the sentinel
    /// that marks a cell not yet filled.
    pub fn max_value() -> (r: U192)
        ensures
            r.as_nat() == u192_bound() - 1,
    {
        U192 { lo: u64::MAX, mid: u64::MAX, hi: u64::MAX }
    }

    /// Sum of two values, which must fit in 192 bits.
    pub fn add(self, other: U192) -> (r: U192)
        requires
            self.as_nat() + other.as_nat() < u192_bound(),
        ensures
            r.as_nat() == self.as_nat() + other.as_nat(),
    {
        let radix: u128 = 0x1_0000_0000_0000_0000;
        let s0: u128 = self.lo as u128 + other.lo as u128;
        let r0: u64 = (s0 % radix) as u64;
        let c0: u64 = (s0 / radix) as u64;
        proof {
            lemma_fundamental_div_mod(s0 as int, radix as int);
            lemma_mod_bound(s0 as int, radix as int);
        }
        let s1: u128 = self.mid as u128 + other.mid as u128 + c0 as u128;
        let r1: u64 = (s1 % radix) as u64;
        let c1: u64 = (s1 / radix) as u64;
        proof {
            lemma_fundamental_div_mod(s1 as int, radix as int);
            lemma_mod_bound(s1 as int, radix as int);
        }
        let s2: u128 = self.hi as u128 + other.hi as u128 + c1 as u128;
        let r2: u64 = (s2 % radix) as u64;
        let c2: u64 = (s2 / radix) as u64;
        proof {
            lemma_fundamental_div_mod(s2 as int, radix as int);
            lemma_mod_bound(s2 as int, radix as int);
            assert(c2 == 0);
        }
        U192 { lo: r0, mid: r1, hi: r2 }
    }

    /// Product with a single limb, which must fit in 192 bits.
    pub fn mul_u64(self, m: u64) -> (r: U192)
        requires
            self.as_nat() * m < u192_bound(),
        ensures
            r.as_nat() == self.as_nat() * m,
    {
        let radix: u128 = 0x1_0000_0000_0000_0000;
        proof {
            lemma_limb_product_fits(self.lo as int, m as int);
            lemma_limb_product_fits(self.mid as int, m as int);
            lemma_limb_product_fits(self.hi as int, m as int);
        }
        let p0: u128 = self.lo as u128 * m as u128;
        let r0: u64 = (p0 % radix) as u64;
        let c0: u64 = (p0 / radix) as u64;
        proof {
            lemma_fundamental_div_mod(p0 as int, radix as int);
            lemma_mod_bound(p0 as int, radix as int);
        }
        let p1: u128 = self.mid as u128 * m as u128 + c0 as u128;
        let r1: u64 = (p1 % radix) as u64;
        let c1: u64 = (p1 / radix) as u64;
        proof {
            lemma_fundamental_div_mod(p1 as int, radix as int);
            lemma_mod_bound(p1 as int, radix as int);
        }
        let p2: u128 = self.hi as u128 * m as u128 + c1 as u128;
        let r2: u64 = (p2 % radix) as u64;
        let c2: u64 = (p2 / radix) as u64;
        proof {
            lemma_fundamental_div_mod(p2 as int, radix as int);
            lemma_mod_bound(p2 as int, radix as int);
            let a0 = self.lo as int;
            let a1 = self.mid as int;
            let a2 = self.hi as int;
            let mm = m as int;
            let q0 = p0 as int;
            let q1 = p1 as int;
            let q2 = p2 as int;
            assert(q0 == a0 * mm);
            assert(q1 == a1 * mm + c0);
            assert(q2 == a2 * mm + c1);
            assert(q0 == 0x1_0000_0000_0000_0000 * c0 + r0);
            assert(q1 == 0x1_0000_0000_0000_0000 * c1 + r1);
            assert(q2 == 0x1_0000_0000_0000_0000 * c2 + r2);
            assert((a0 + a1 * 0x1_0000_0000_0000_0000int + a2
                * 0x1_0000_0000_0000_0000_0000_0000_0000_0000int) * mm == r0 + r1
                * 0x1_0000_0000_0000_0000int + r2 * 0x1_0000_0000_0000_0000_0000_0000_0000_0000int
                + c2 * 0x1_0000_0000_0000_0000_0000_0000_0000_0000_0000_0000_0000_0000int)
                by (nonlinear_arith)
                requires
                    q0 == a0 * mm,
                    q1 == a1 * mm + c0,
                    q2 == a2 * mm + c1,
                    q0 == 0x1_0000_0000_0000_0000 * c0 + r0,
                    q1 == 0x1_0000_0000_0000_0000 * c1 + r1,
                    q2 == 0x1_0000_0000_0000_0000 * c2 + r2,
            ;
            assert(self.as_nat() * m == (a0 + a1 * 0x1_0000_0000_0000_0000int + a2
                * 0x1_0000_0000_0000_0000_0000_0000_0000_0000int) * mm);
            assert(c2 == 0);
        }
        U192 { lo: r0, mid: r1, hi: r2 }
    }

    /// Strict comparison of values.
    pub fn lt(&self, other: &U192) -> (r: bool)
        ensures
            r == (self.as_nat() < other.as_nat()),
    {
        if self.hi != other.hi {
            self.hi < other.hi
        } else if self.mid != other.mid {
            self.mid < other.mid
        } else {
            self.lo < other.lo
        }
    }

    /// Larger of two values.
    pub fn max(self, other: U192) -> (r: U192)
        ensures
            r.as_nat() == if self.as_nat() >= other.as_nat() {
                self.as_nat()
            } else {
                other.as_nat()
            },
    {
        if self.lt(&other) {
            other
        } else {
            self
        }
    }
}

} // verus!
