//! Real numbers carried as IEEE 754 binary64 bit patterns.
//!
//! A pattern is read here as an exact integer: its value in units of
//! 2^-1074, the spacing of the smallest subnormals. Every finite binary64
//! number is a whole multiple of that unit, so nothing is rounded. Patterns
//! that are not real numbers keep a place in the order: the infinities lie
//! beyond every finite value, and the remaining patterns beyond the
//! infinities.
use vstd::prelude::*;
use vstd::arithmetic::power2::{pow2, lemma_pow2_pos, lemma_pow2_strictly_increases, lemma_pow2_unfold, lemma2_to64};
use vstd::arithmetic::mul::{lemma_mul_strict_inequality, lemma_mul_inequality, lemma_mul_is_associative, lemma_mul_is_commutative};

verus! {

/// The bit that holds the sign.
pub const SIGN_BIT: u64 = 0x8000_0000_0000_0000;

/// Two to the power 52: the weight of the implicit leading bit of a normal
/// number, and the number of patterns that share one exponent.
pub const HIDDEN_BIT: u64 = 0x0010_0000_0000_0000;

/// The magnitude bits of positive infinity; every larger magnitude is not a
/// number.
pub const INFINITY_BITS: u64 = 0x7FF0_0000_0000_0000;

/// The bits of the number one.
pub const ONE_BITS: u64 = 0x3FF0_0000_0000_0000;

/// The exact value, in units of 2^-1074, of the magnitude bits `m`.
///
/// With exponent field `e` and fraction field `f`, a subnormal (`e == 0`) is
/// worth `f` units and a normal number `(2^52 + f) * 2^(e - 1)` units.
pub open spec fn scaled(m: nat) -> nat {
    let e = m / (HIDDEN_BIT as nat);
    let f = m % (HIDDEN_BIT as nat);
    if e == 0 {
        f
    } else {
        (HIDDEN_BIT + f) as nat * pow2((e - 1) as nat)
    }
}

/// A number given by its binary64 bit pattern.
///
/// The derived `==` compares patterns. Two patterns may denote the same
/// value (the two zeros): see [`Number::same_value`].
#[derive(Clone, Copy, Debug, PartialEq, Eq, Structural)]
pub struct Number {
    pub bits: u64,
}

impl Number {
    /// Whether the sign bit is set.
    pub open spec fn negative(self) -> bool {
        self.bits >= SIGN_BIT
    }

    /// The pattern without its sign bit.
    pub open spec fn magnitude(self) -> nat {
        (self.bits % SIGN_BIT) as nat
    }

    /// The magnitude bits with the sign in front. It orders the patterns as
    /// [`Number::value`] does, and both zeros have 0.
    pub open spec fn signed(self) -> int {
        if self.negative() {
            -(self.magnitude() as int)
        } else {
            self.magnitude() as int
        }
    }

    /// The rank of the pattern in the total order of binary64: as
    /// [`Number::signed`], but with negative zero before positive zero, so
    /// that distinct patterns have distinct keys.
    pub open spec fn key(self) -> int {
        if self.negative() {
            -(self.magnitude() as int) - 1
        } else {
            self.magnitude() as int
        }
    }

    /// The exact value in units of 2^-1074.
    pub open spec fn value(self) -> int {
        if self.negative() {
            -(scaled(self.magnitude()) as int)
        } else {
            scaled(self.magnitude()) as int
        }
    }

    /// Whether the pattern denotes a real number: neither an infinity nor
    /// not-a-number.
    pub open spec fn finite(self) -> bool {
        self.magnitude() < INFINITY_BITS
    }

    /// Whether the value lies strictly between zero and one.
    pub open spec fn in_open_unit(self) -> bool {
        0 < self.value() < Number::one().value()
    }

    /// Whether the value lies between zero and one, ends included.
    pub open spec fn in_closed_unit(self) -> bool {
        0 <= self.value() <= Number::one().value()
    }

    /// Positive zero.
    pub open spec fn zero() -> Number {
        Number { bits: 0 }
    }

    /// The number one.
    pub open spec fn one() -> Number {
        Number { bits: ONE_BITS }
    }

    /// The number with the given bit pattern.
    pub fn from_bits(bits: u64) -> (r: Number)
        ensures
            r.bits == bits,
    {
        Number { bits }
    }

    /// The bit pattern.
    pub fn to_bits(&self) -> (r: u64)
        ensures
            r == self.bits,
    {
        self.bits
    }

    /// The magnitude bits with the sign in front.
    pub fn signed_magnitude(&self) -> (r: i64)
        ensures
            r == self.signed(),
    {
        if self.bits >= SIGN_BIT {
            -((self.bits - SIGN_BIT) as i64)
        } else {
            self.bits as i64
        }
    }

    /// The rank in the total order of binary64.
    pub fn order_key(&self) -> (r: i64)
        ensures
            r == self.key(),
    {
        if self.bits >= SIGN_BIT {
            -((self.bits - SIGN_BIT) as i64) - 1
        } else {
            self.bits as i64
        }
    }

    /// Whether the pattern denotes a real number.
    pub fn is_finite(&self) -> (r: bool)
        ensures
            r == self.finite(),
    {
        self.bits % SIGN_BIT < INFINITY_BITS
    }

    /// Whether this value is less than the other.
    pub fn lt(&self, other: &Number) -> (r: bool)
        ensures
            r == (self.value() < other.value()),
    {
        proof {
            lemma_value_order(*self, *other);
        }
        self.signed_magnitude() < other.signed_magnitude()
    }

    /// Whether this value is at most the other.
    pub fn le(&self, other: &Number) -> (r: bool)
        ensures
            r == (self.value() <= other.value()),
    {
        proof {
            lemma_value_order(*self, *other);
        }
        self.signed_magnitude() <= other.signed_magnitude()
    }

    /// Whether the two patterns denote the same value.
    pub fn same_value(&self, other: &Number) -> (r: bool)
        ensures
            r == (self.value() == other.value()),
    {
        proof {
            lemma_value_order(*self, *other);
        }
        self.signed_magnitude() == other.signed_magnitude()
    }

    /// Whether the value lies strictly between zero and one.
    pub fn is_in_open_unit(&self) -> (r: bool)
        ensures
            r == self.in_open_unit(),
    {
        let zero = Number { bits: 0 };
        let one = Number { bits: ONE_BITS };
        zero.lt(self) && self.lt(&one)
    }

    /// Whether the value lies between zero and one, ends included.
    pub fn is_in_closed_unit(&self) -> (r: bool)
        ensures
            r == self.in_closed_unit(),
    {
        let zero = Number { bits: 0 };
        let one = Number { bits: ONE_BITS };
        zero.le(self) && self.le(&one)
    }
}

/// Larger magnitude bits are worth strictly more.
pub proof fn lemma_scaled_increases(m1: nat, m2: nat)
    requires
        m1 < m2,
    ensures
        scaled(m1) < scaled(m2),
{
    let h = HIDDEN_BIT as int;
    let e1 = (m1 / (HIDDEN_BIT as nat)) as int;
    let f1 = (m1 % (HIDDEN_BIT as nat)) as int;
    let e2 = (m2 / (HIDDEN_BIT as nat)) as int;
    let f2 = (m2 % (HIDDEN_BIT as nat)) as int;
    assert(e1 <= e2);
    if e1 == e2 {
        assert(f1 < f2);
        if e1 != 0 {
            let p = pow2((e1 - 1) as nat) as int;
            lemma_pow2_pos((e1 - 1) as nat);
            lemma_mul_strict_inequality(h + f1, h + f2, p);
        }
    } else {
        // Every value with exponent field `e1` lies below 2^52 * 2^e1, and
        // every value with a larger exponent field at or above it.
        let q = pow2(e1 as nat) as int;
        lemma_pow2_pos(e1 as nat);
        assert(scaled(m1) < h * q) by {
            if e1 == 0 {
                lemma2_to64();
            } else {
                let p = pow2((e1 - 1) as nat) as int;
                lemma_pow2_pos((e1 - 1) as nat);
                lemma_pow2_unfold(e1 as nat);
                lemma_mul_strict_inequality(h + f1, 2 * h, p);
                lemma_mul_is_associative(h, 2, p);
            }
        }
        let r = pow2((e2 - 1) as nat) as int;
        lemma_pow2_pos((e2 - 1) as nat);
        assert(q <= r) by {
            if e1 < e2 - 1 {
                lemma_pow2_strictly_increases(e1 as nat, (e2 - 1) as nat);
            }
        }
        assert(h * q <= scaled(m2)) by {
            lemma_mul_inequality(h, h + f2, r);
            lemma_mul_inequality(q, r, h);
            lemma_mul_is_commutative(h, q);
            lemma_mul_is_commutative(h, r);
        }
    }
}

/// Values compare as the signed magnitude bits do.
pub proof fn lemma_value_order(a: Number, b: Number)
    ensures
        (a.value() < b.value()) == (a.signed() < b.signed()),
        (a.value() == b.value()) == (a.signed() == b.signed()),
        (a.value() <= b.value()) == (a.signed() <= b.signed()),
{
    let ma = a.magnitude();
    let mb = b.magnitude();
    assert(scaled(0) == 0);
    if ma < mb {
        lemma_scaled_increases(ma, mb);
    }
    if mb < ma {
        lemma_scaled_increases(mb, ma);
    }
    if 0 < ma {
        lemma_scaled_increases(0, ma);
    }
    if 0 < mb {
        lemma_scaled_increases(0, mb);
    }
}

/// The total order refines the order of values: a smaller value has a
/// smaller key, and equal keys mean equal patterns.
pub proof fn lemma_key_order(a: Number, b: Number)
    ensures
        a.value() < b.value() ==> a.key() < b.key(),
        a.key() <= b.key() ==> a.value() <= b.value(),
        a.key() == b.key() <==> a == b,
{
    lemma_value_order(a, b);
}

} // verus!
