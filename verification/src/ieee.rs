//! Measured values as IEEE 754 bit patterns, and their order.
//!
//! The library stores, compares and selects measured values; it does no
//! arithmetic on them. So it holds the bit patterns, and what it needs of them
//! is exact: which of two is the smaller, and which are numbers at all.

use vstd::arithmetic::div_mod::{
    lemma_fundamental_div_mod, lemma_fundamental_div_mod_converse,
};
use vstd::arithmetic::power2::{lemma_pow2_pos, lemma_pow2_unfold, pow2};
use vstd::prelude::*;

verus! {

/// The magnitude that exponent and fraction bits stand for, in units of the
/// smallest one: `w` fraction bits, and the exponent above them. An infinity
/// counts as the first value beyond the finite ones.
pub open spec fn magnitude(raw: nat, w: nat) -> nat {
    let fraction = raw % pow2(w);
    let exponent = raw / pow2(w);
    if exponent == 0 {
        fraction
    } else {
        (pow2(w) + fraction) * pow2((exponent - 1) as nat)
    }
}

/// The next bit pattern has the next larger magnitude.
proof fn lemma_magnitude_step(raw: nat, w: nat)
    ensures
        magnitude(raw, w) < magnitude(raw + 1, w),
{
    let p = pow2(w) as int;
    lemma_pow2_pos(w);
    let f = raw as int % p;
    let e = raw as int / p;
    lemma_fundamental_div_mod(raw as int, p);
    assert(e >= 0) by (nonlinear_arith)
        requires
            raw == p * e + f,
            f < p,
            0 < p,
            raw >= 0,
    ;
    if f + 1 < p {
        assert(raw + 1 == e * p + (f + 1)) by (nonlinear_arith)
            requires
                raw == p * e + f,
        ;
        lemma_fundamental_div_mod_converse(raw as int + 1, p, e, f + 1);
        if e > 0 {
            let s = pow2((e - 1) as nat) as int;
            lemma_pow2_pos((e - 1) as nat);
            assert((p + f) * s < (p + (f + 1)) * s) by (nonlinear_arith)
                requires
                    0 < s,
            ;
        }
    } else {
        assert(raw + 1 == (e + 1) * p + 0) by (nonlinear_arith)
            requires
                raw == p * e + f,
                f + 1 == p,
        ;
        lemma_fundamental_div_mod_converse(raw as int + 1, p, e + 1, 0);
        let t = pow2(e as nat) as int;
        lemma_pow2_pos(e as nat);
        if e > 0 {
            let s = pow2((e - 1) as nat) as int;
            lemma_pow2_unfold(e as nat);
            lemma_pow2_pos((e - 1) as nat);
            assert((p + f) * s < (p + 0) * t) by (nonlinear_arith)
                requires
                    t == 2 * s,
                    0 < s,
                    f < p,
            ;
        } else {
            vstd::arithmetic::power2::lemma2_to64();
            assert((p + 0) * t == p) by (nonlinear_arith)
                requires
                    t == 1,
            ;
        }
    }
}

/// A larger bit pattern, sign aside, has the larger magnitude.
proof fn lemma_magnitude_order(r: nat, s: nat, w: nat)
    requires
        r < s,
    ensures
        magnitude(r, w) < magnitude(s, w),
    decreases s - r,
{
    lemma_magnitude_step((s - 1) as nat, w);
    if r < s - 1 {
        lemma_magnitude_order(r, (s - 1) as nat, w);
    }
}

/// The number 0 has the magnitude 0.
proof fn lemma_magnitude_zero(w: nat)
    ensures
        magnitude(0, w) == 0,
{
    lemma_pow2_pos(w);
    lemma_fundamental_div_mod_converse(0, pow2(w) as int, 0, 0);
}

/// Comparing signed bit patterns compares the numbers.
proof fn lemma_signed_order(neg_a: bool, a: nat, neg_b: bool, b: nat, w: nat)
    ensures
        ({
            let ka = if neg_a { -a } else { a as int };
            let kb = if neg_b { -b } else { b as int };
            let va = if neg_a { -magnitude(a, w) } else { magnitude(a, w) as int };
            let vb = if neg_b { -magnitude(b, w) } else { magnitude(b, w) as int };
            (ka < kb <==> va < vb) && (ka == kb <==> va == vb)
        }),
{
    lemma_magnitude_zero(w);
    if a < b {
        lemma_magnitude_order(a, b, w);
    } else if b < a {
        lemma_magnitude_order(b, a, w);
    }
    if 0 < a {
        lemma_magnitude_order(0, a, w);
    }
    if 0 < b {
        lemma_magnitude_order(0, b, w);
    }
}

/// A single-precision number, by its bit pattern.
#[derive(Clone, Copy, PartialEq, Eq, Debug, Hash, Structural)]
pub struct Single {
    pub bits: u32,
}

impl Single {
    /// Exponent and fraction bits.
    pub open spec fn raw(self) -> nat {
        (self.bits as nat) % 0x8000_0000
    }

    pub open spec fn is_negative(self) -> bool {
        self.bits >= 0x8000_0000
    }

    /// Whether the pattern stands for no number.
    pub open spec fn nan(self) -> bool {
        self.raw() > 0x7f80_0000
    }

    /// Whether the pattern stands for a finite number.
    pub open spec fn finite(self) -> bool {
        self.raw() < 0x7f80_0000
    }

    /// The number, in units of 2^-149.
    pub open spec fn value(self) -> int {
        if self.is_negative() {
            -magnitude(self.raw(), 23)
        } else {
            magnitude(self.raw(), 23) as int
        }
    }

    /// `self < other`: false where one of the two is no number.
    pub open spec fn below(self, other: Single) -> bool {
        !self.nan() && !other.nan() && self.value() < other.value()
    }

    /// `self <= other`: false where one of the two is no number.
    pub open spec fn at_most(self, other: Single) -> bool {
        !self.nan() && !other.nan() && self.value() <= other.value()
    }

    /// `self == other`: the two zeros are equal, and no-numbers never are.
    pub open spec fn same(self, other: Single) -> bool {
        !self.nan() && !other.nan() && self.value() == other.value()
    }

    /// The number of a pattern by its parts: with exponent `e` and fraction
    /// `fraction`, whose leading digits are those of `n`.
    pub proof fn whole(self, n: nat, e: nat, fraction: nat, shift: nat)
        requires
            self.bits == e * 0x80_0000 + fraction,
            0 < e < 0xff,
            fraction < 0x80_0000,
            0x80_0000 + fraction == n * pow2(shift),
        ensures
            self.value() == n * pow2((shift + e - 1) as nat),
    {
        vstd::arithmetic::power2::lemma2_to64();
        assert(pow2(23) == 0x80_0000);
        lemma_fundamental_div_mod_converse(self.raw() as int, 0x80_0000, e as int, fraction as int);
        vstd::arithmetic::power2::lemma_pow2_adds(shift, (e - 1) as nat);
        let (a, b) = (pow2(shift), pow2((e - 1) as nat));
        assert((n * a) * b == n * (a * b)) by (nonlinear_arith);
    }

    /// Among positive numbers the larger pattern is the larger number.
    pub proof fn positive_order(self, other: Single)
        requires
            self.bits < other.bits <= 0x7f80_0000,
        ensures
            self.below(other),
    {
        lemma_signed_order(false, self.raw(), false, other.raw(), 23);
    }

    pub fn from_bits(bits: u32) -> (s: Single)
        ensures
            s == (Single { bits }),
    {
        Single { bits }
    }

    fn key(self) -> (k: i64)
        ensures
            k == if self.is_negative() {
                -self.raw()
            } else {
                self.raw() as int
            },
            -0x8000_0000 < k < 0x8000_0000,
    {
        if self.bits >= 0x8000_0000 {
            -((self.bits - 0x8000_0000) as i64)
        } else {
            self.bits as i64
        }
    }

    pub fn is_nan(self) -> (r: bool)
        ensures
            r == self.nan(),
    {
        let k: i64 = self.key();
        k > 0x7f80_0000 || k < -0x7f80_0000
    }

    pub fn is_finite(self) -> (r: bool)
        ensures
            r == self.finite(),
    {
        let k: i64 = self.key();
        -0x7f80_0000 < k && k < 0x7f80_0000
    }

    pub fn lt(self, other: Single) -> (r: bool)
        ensures
            r == self.below(other),
    {
        proof {
            lemma_signed_order(self.is_negative(), self.raw(), other.is_negative(), other.raw(), 23);
        }
        !self.is_nan() && !other.is_nan() && self.key() < other.key()
    }

    pub fn le(self, other: Single) -> (r: bool)
        ensures
            r == self.at_most(other),
    {
        proof {
            lemma_signed_order(self.is_negative(), self.raw(), other.is_negative(), other.raw(), 23);
        }
        !self.is_nan() && !other.is_nan() && self.key() <= other.key()
    }

    pub fn eq_num(self, other: Single) -> (r: bool)
        ensures
            r == self.same(other),
    {
        proof {
            lemma_signed_order(self.is_negative(), self.raw(), other.is_negative(), other.raw(), 23);
        }
        !self.is_nan() && !other.is_nan() && self.key() == other.key()
    }
}

/// A double-precision number, by its bit pattern.
#[derive(Clone, Copy, PartialEq, Eq, Debug, Hash, Structural)]
pub struct Double {
    pub bits: u64,
}

impl Double {
    /// Exponent and fraction bits.
    pub open spec fn raw(self) -> nat {
        (self.bits as nat) % 0x8000_0000_0000_0000
    }

    pub open spec fn is_negative(self) -> bool {
        self.bits >= 0x8000_0000_0000_0000
    }

    /// Whether the pattern stands for no number.
    pub open spec fn nan(self) -> bool {
        self.raw() > 0x7ff0_0000_0000_0000
    }

    /// The number, in units of 2^-1074.
    pub open spec fn value(self) -> int {
        if self.is_negative() {
            -magnitude(self.raw(), 52)
        } else {
            magnitude(self.raw(), 52) as int
        }
    }

    /// `self < other`: false where one of the two is no number.
    pub open spec fn below(self, other: Double) -> bool {
        !self.nan() && !other.nan() && self.value() < other.value()
    }

    pub fn from_bits(bits: u64) -> (d: Double)
        ensures
            d == (Double { bits }),
    {
        Double { bits }
    }

    fn key(self) -> (k: i64)
        ensures
            k == if self.is_negative() {
                -self.raw()
            } else {
                self.raw() as int
            },
    {
        if self.bits >= 0x8000_0000_0000_0000 {
            -((self.bits - 0x8000_0000_0000_0000) as i64)
        } else {
            self.bits as i64
        }
    }

    pub fn is_nan(self) -> (r: bool)
        ensures
            r == self.nan(),
    {
        let k: i64 = self.key();
        k > 0x7ff0_0000_0000_0000 || k < -0x7ff0_0000_0000_0000
    }

    pub fn lt(self, other: Double) -> (r: bool)
        ensures
            r == self.below(other),
    {
        proof {
            lemma_signed_order(self.is_negative(), self.raw(), other.is_negative(), other.raw(), 52);
        }
        !self.is_nan() && !other.is_nan() && self.key() < other.key()
    }
}

} // verus!
