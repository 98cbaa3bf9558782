//! Double-precision numbers, read through their bit patterns.
//!
//! The renderer's arithmetic runs on the machine's IEEE 754 binary64 numbers.
//! Every decision the tracer takes from such a number (is this root in front of
//! the ray, which of two hits is nearer, is the surface lit) is a comparison,
//! and a comparison can be read off the sixty-four bits with integer
//! arithmetic alone. This module gives the bit pattern a type, says what
//! number it denotes, and proves that the order read off the bits is the order
//! of the numbers.

use vstd::prelude::*;
use vstd::arithmetic::power2::{lemma2_to64, lemma_pow2_pos, lemma_pow2_strictly_increases, lemma_pow2_unfold, pow2};

verus! {

/// The sign bit of a pattern.
pub const SIGN_BIT: u64 = 0x8000_0000_0000_0000;

/// The pattern of positive infinity: every exponent bit set, no fraction bit.
pub const INFINITY: u64 = 0x7FF0_0000_0000_0000;

/// The lowest exponent bit, two to the power 52; in a normal number it is also
/// the weight of the significand's implicit leading bit.
pub const HIDDEN_BIT: u64 = 0x0010_0000_0000_0000;

/// The pattern of positive zero.
pub const ZERO: u64 = 0;

/// The pattern of the number one.
pub const ONE: u64 = 0x3FF0_0000_0000_0000;

/// A double-precision number, held as its bit pattern.
///
/// Derived equality compares patterns: it tells the two zeros apart and holds
/// between a NaN and itself. The order of the numbers is [`Double::lt`].
#[derive(Clone, Copy, Debug, PartialEq, Eq)]
pub struct Double {
    pub bits: u64,
}

impl Double {
    /// The sign bit is set. True of negative zero and of half the NaNs, too.
    pub open spec fn negative(self) -> bool {
        self.bits >= SIGN_BIT
    }

    /// The pattern without its sign bit.
    pub open spec fn magnitude(self) -> int {
        if self.bits >= SIGN_BIT {
            self.bits - SIGN_BIT
        } else {
            self.bits as int
        }
    }

    /// Not a number: all exponent bits set and a fraction that is not zero.
    pub open spec fn nan(self) -> bool {
        self.magnitude() > INFINITY
    }

    /// Zero, subnormal or normal: neither an infinity nor a NaN.
    pub open spec fn finite(self) -> bool {
        self.magnitude() < INFINITY
    }

    /// The biased exponent field, from 0 to 2047.
    pub open spec fn exponent(self) -> int {
        self.magnitude() / (HIDDEN_BIT as int)
    }

    /// The fraction field, below two to the power 52.
    pub open spec fn fraction(self) -> int {
        self.magnitude() % (HIDDEN_BIT as int)
    }

    /// The significand as an integer: the fraction, with the implicit leading
    /// bit in front of it unless the number is subnormal or zero.
    pub open spec fn significand(self) -> int {
        if self.exponent() == 0 {
            self.fraction()
        } else {
            HIDDEN_BIT + self.fraction()
        }
    }

    /// The power of two by which the significand is scaled, counted from the
    /// smallest exponent a double can have.
    pub open spec fn scale(self) -> nat {
        if self.exponent() <= 1 {
            0
        } else {
            (self.exponent() - 1) as nat
        }
    }

    /// The absolute value of a finite number, in units of two to the power
    /// -1074 (the smallest positive double). Every finite double is a whole
    /// number of these units, so the value is exact.
    pub open spec fn units(self) -> int {
        self.significand() * pow2(self.scale())
    }

    /// The value of a finite number, in the units of [`Double::units`].
    pub open spec fn value(self) -> int {
        if self.negative() {
            -self.units()
        } else {
            self.units()
        }
    }

    /// The greatest whole number that is not above a finite number.
    pub open spec fn floor(self) -> int {
        self.value() / unit()
    }

    /// The place of a pattern in the order of the numbers: the magnitude, with
    /// the sign in front. Both zeros have rank 0.
    pub open spec fn rank(self) -> int {
        if self.negative() {
            -self.magnitude()
        } else {
            self.magnitude()
        }
    }

    /// `self < other` as IEEE 754 defines it: false as soon as either side is
    /// a NaN, and otherwise the order of the ranks.
    pub open spec fn less(self, other: Double) -> bool {
        &&& !self.nan()
        &&& !other.nan()
        &&& self.rank() < other.rank()
    }

    /// `self == other` as IEEE 754 defines it: a NaN equals nothing, the two
    /// zeros equal each other.
    pub open spec fn same(self, other: Double) -> bool {
        &&& !self.nan()
        &&& !other.nan()
        &&& self.rank() == other.rank()
    }

    /// Greater than zero and less than infinity.
    pub open spec fn positive_finite(self) -> bool {
        (Double { bits: ZERO }).less(self) && self.less(Double { bits: INFINITY })
    }

    /// The number with the given bit pattern.
    pub fn from_bits(bits: u64) -> (r: Double)
        ensures
            r.bits == bits,
    {
        Double { bits }
    }

    /// The bit pattern of the number.
    pub fn to_bits(self) -> (r: u64)
        ensures
            r == self.bits,
    {
        self.bits
    }

    /// Whether the number is a NaN.
    pub fn is_nan(self) -> (r: bool)
        ensures
            r == self.nan(),
    {
        if self.bits >= SIGN_BIT {
            self.bits - SIGN_BIT > INFINITY
        } else {
            self.bits > INFINITY
        }
    }

    /// Whether `self < other`. A NaN on either side gives `false`; negative
    /// zero is not less than positive zero.
    pub fn lt(self, other: Double) -> (r: bool)
        ensures
            r == self.less(other),
    {
        if self.is_nan() || other.is_nan() {
            false
        } else if self.bits >= SIGN_BIT {
            if other.bits >= SIGN_BIT {
                // both carry a minus sign: the larger magnitude is the smaller number
                other.bits < self.bits
            } else {
                // minus against plus: less, unless both are zero
                self.bits > SIGN_BIT || other.bits > 0
            }
        } else {
            other.bits < SIGN_BIT && self.bits < other.bits
        }
    }

    /// Whether the number is greater than zero and less than infinity.
    pub fn is_positive_finite(self) -> (r: bool)
        ensures
            r == self.positive_finite(),
    {
        0 < self.bits && self.bits < INFINITY
    }
}

/// The value of the number one: how many units make up a whole.
pub open spec fn unit() -> int {
    (Double { bits: ONE }).value()
}

/// A whole is two to the power 1074 units.
pub proof fn lemma_unit_is_positive()
    ensures
        unit() == HIDDEN_BIT * pow2(1022),
        unit() > 0,
{
    let one = Double { bits: ONE };
    assert(one.exponent() == 1023);
    assert(one.fraction() == 0);
    lemma_pow2_pos(1022);
    assert(HIDDEN_BIT * pow2(1022) > 0) by (nonlinear_arith)
        requires
            pow2(1022) > 0,
            HIDDEN_BIT > 0,
    ;
}

/// Among finite numbers a larger magnitude denotes more units.
proof fn lemma_units_grow_with_magnitude(a: Double, b: Double)
    requires
        a.finite(),
        b.finite(),
        a.magnitude() < b.magnitude(),
    ensures
        a.units() < b.units(),
{
    let h: int = HIDDEN_BIT as int;
    let pa: int = pow2(a.scale()) as int;
    let pb: int = pow2(b.scale()) as int;
    lemma_pow2_pos(a.scale());
    lemma_pow2_pos(b.scale());
    assert(a.exponent() <= b.exponent());
    if a.exponent() == b.exponent() {
        assert(a.significand() < b.significand());
        assert(a.significand() * pa < b.significand() * pa) by (nonlinear_arith)
            requires
                a.significand() < b.significand(),
                pa > 0,
        ;
    } else {
        // b is normal, and its leading bit alone outweighs all of a
        assert(h * pb <= b.significand() * pb) by (nonlinear_arith)
            requires
                h <= b.significand(),
                pb > 0,
        ;
        if a.exponent() == 0 {
            lemma2_to64();
            assert(a.units() == a.fraction());
            assert(h * 1 <= h * pb) by (nonlinear_arith)
                requires
                    pb >= 1,
                    h > 0,
            ;
        } else {
            let above: int = pow2((a.scale() + 1) as nat) as int;
            lemma_pow2_unfold((a.scale() + 1) as nat);
            assert(above == 2 * pa);
            assert(a.significand() * pa < (2 * h) * pa) by (nonlinear_arith)
                requires
                    a.significand() < 2 * h,
                    pa > 0,
            ;
            assert((2 * h) * pa == h * (2 * pa)) by (nonlinear_arith);
            if a.scale() + 1 < b.scale() {
                lemma_pow2_strictly_increases((a.scale() + 1) as nat, b.scale());
            }
            assert(above <= pb);
            assert(h * above <= h * pb) by (nonlinear_arith)
                requires
                    above <= pb,
                    h > 0,
            ;
        }
    }
}

/// The order read off the bits is the order of the values: of two finite
/// numbers, the one that `lt` calls less is the one whose exact value is less.
pub proof fn lemma_less_is_value_order(a: Double, b: Double)
    requires
        a.finite(),
        b.finite(),
    ensures
        a.less(b) <==> a.value() < b.value(),
        a.same(b) <==> a.value() == b.value(),
{
    let zero = Double { bits: ZERO };
    assert(zero.units() == 0) by {
        lemma2_to64();
    }
    // units are never negative, and zero only for a magnitude of zero
    assert(a.magnitude() > 0 ==> a.units() > 0) by {
        if a.magnitude() > 0 {
            lemma_units_grow_with_magnitude(zero, a);
        }
    }
    assert(b.magnitude() > 0 ==> b.units() > 0) by {
        if b.magnitude() > 0 {
            lemma_units_grow_with_magnitude(zero, b);
        }
    }
    assert(a.magnitude() == 0 ==> a.units() == 0) by {
        lemma2_to64();
    }
    assert(b.magnitude() == 0 ==> b.units() == 0) by {
        lemma2_to64();
    }
    if a.magnitude() < b.magnitude() {
        lemma_units_grow_with_magnitude(a, b);
    } else if b.magnitude() < a.magnitude() {
        lemma_units_grow_with_magnitude(b, a);
    } else {
        assert(a.units() == b.units());
    }
}

/// `less` is a strict order: nothing is less than itself, and it is
/// transitive. A NaN stands outside it on both sides.
pub proof fn lemma_less_is_strict_order(a: Double, b: Double, c: Double)
    ensures
        !a.less(a),
        a.less(b) ==> !b.less(a),
        a.less(b) && b.less(c) ==> a.less(c),
        a.nan() ==> !a.less(b) && !b.less(a) && !a.same(b),
{
}

/// Of two numbers that are not NaN exactly one of less, same and greater
/// holds.
pub proof fn lemma_less_is_total(a: Double, b: Double)
    requires
        !a.nan(),
        !b.nan(),
    ensures
        a.less(b) || a.same(b) || b.less(a),
        !(a.less(b) && a.same(b)),
        !(b.less(a) && a.same(b)),
{
}

/// The numbers greater than zero and less than infinity are the patterns
/// strictly between those of zero and infinity, and among them the order of
/// the numbers is the order of the patterns as unsigned integers.
pub proof fn lemma_positive_order_is_bit_order(a: Double, b: Double)
    ensures
        a.positive_finite() <==> 0 < a.bits < INFINITY,
        a.positive_finite() && b.positive_finite() ==> (a.less(b) <==> a.bits < b.bits),
        a.positive_finite() && b.positive_finite() ==> (a.same(b) <==> a.bits == b.bits),
{
}

} // verus!
