//! Surface brightness: the diffuse term, the checker pattern and the clamp
//! that makes a channel fit for a pixel.
//!
//! The products and sums of shading are the caller's arithmetic. Which value
//! goes into them is selected here, by comparison.

use vstd::prelude::*;
use vstd::arithmetic::div_mod::{lemma_basic_div, lemma_fundamental_div_mod_converse};
use vstd::arithmetic::power2::{lemma2_to64, lemma_pow2_adds, lemma_pow2_unfold, pow2};
use crate::double::{lemma_less_is_value_order, lemma_unit_is_positive, unit, Double, ONE, ZERO};

verus! {

/// The pattern of 0.1, the least diffuse term: a surface that faces away from
/// the light keeps a tenth of its colour and is never fully black.
pub const AMBIENT_FLOOR: u64 = 0x3FB9_9999_9999_999A;

/// The pattern of the number two, the period of the checker pattern.
pub const TWO: u64 = 0x4000_0000_0000_0000;

/// The pattern of one half, the factor of a dark checker cell.
pub const HALF: u64 = 0x3FE0_0000_0000_0000;

/// How much of a plane's base colour a checker cell shows.
#[derive(Clone, Copy, Debug, PartialEq, Eq)]
pub enum Intensity {
    /// The base colour as it is.
    Full,
    /// The base colour at half its intensity.
    Half,
}

impl Intensity {
    /// The factor by which the base colour is multiplied.
    pub open spec fn weight(self) -> Double {
        match self {
            Intensity::Full => Double { bits: ONE },
            Intensity::Half => Double { bits: HALF },
        }
    }

    /// The factor by which the base colour is multiplied: one, or one half.
    pub fn factor(self) -> (r: Double)
        ensures
            r == self.weight(),
    {
        match self {
            Intensity::Full => Double::from_bits(ONE),
            Intensity::Half => Double::from_bits(HALF),
        }
    }
}

/// The diffuse term for a surface whose normal has the dot product `d` with
/// the light direction: `d` held between the ambient floor and one. A NaN
/// counts as fully lit.
pub open spec fn lit(d: Double) -> Double {
    if d.nan() || (Double { bits: ONE }).less(d) {
        Double { bits: ONE }
    } else if d.less(Double { bits: AMBIENT_FLOOR }) {
        Double { bits: AMBIENT_FLOOR }
    } else {
        d
    }
}

/// The checker cell of a point on a plane, from its two in-plane coordinates
/// taken modulo two and folded into the range from zero to two. The cell is
/// dark where both lie above one or both lie below one. A coordinate of
/// exactly one is on neither side, and the cell is then bright.
pub open spec fn cell(m: Double, n: Double) -> Intensity {
    let one = Double { bits: ONE };
    if (one.less(m) && one.less(n)) || (m.less(one) && n.less(one)) {
        Intensity::Half
    } else {
        Intensity::Full
    }
}

/// A colour channel held between zero and one. A NaN becomes zero.
pub open spec fn unit_clamped(c: Double) -> Double {
    if c.nan() || c.less(Double { bits: ZERO }) {
        Double { bits: ZERO }
    } else if (Double { bits: ONE }).less(c) {
        Double { bits: ONE }
    } else {
        c
    }
}

/// A coordinate folded into the checker's period: a number from zero up to,
/// but not including, two.
pub open spec fn in_period(m: Double) -> bool {
    &&& !m.nan()
    &&& !m.less(Double { bits: ZERO })
    &&& m.less(Double { bits: TWO })
}

/// The diffuse term: the dot product of normal and light, clamped to the range
/// from the ambient floor to one.
pub fn diffuse(d: Double) -> (r: Double)
    ensures
        r == lit(d),
        !r.nan(),
        !r.less(Double { bits: AMBIENT_FLOOR }),
        !(Double { bits: ONE }).less(r),
{
    let one = Double::from_bits(ONE);
    let floor = Double::from_bits(AMBIENT_FLOOR);
    // the smaller of the term and one, then the larger of that and the floor;
    // a NaN is not smaller than one and so gives way to it
    let capped = if d.lt(one) {
        d
    } else {
        one
    };
    if floor.lt(capped) {
        capped
    } else {
        floor
    }
}

/// The intensity of the checker pattern at folded coordinates `m` and `n`.
pub fn checker(m: Double, n: Double) -> (r: Intensity)
    ensures
        r == cell(m, n),
{
    let one = Double::from_bits(ONE);
    if (one.lt(m) && one.lt(n)) || (m.lt(one) && n.lt(one)) {
        Intensity::Half
    } else {
        Intensity::Full
    }
}

/// Clamps a colour channel to the range from zero to one.
pub fn clamp_unit(c: Double) -> (r: Double)
    ensures
        r == unit_clamped(c),
        !r.nan(),
        !r.less(Double { bits: ZERO }),
        !(Double { bits: ONE }).less(r),
{
    if c.is_nan() || c.lt(Double::from_bits(ZERO)) {
        Double::from_bits(ZERO)
    } else if Double::from_bits(ONE).lt(c) {
        Double::from_bits(ONE)
    } else {
        c
    }
}

/// The constants denote what their names say. Two and one half are exact. No
/// double is one tenth; the ambient floor is the double nearest to it, above
/// it by less than half the step to the next double.
pub proof fn lemma_shade_constants()
    ensures
        (Double { bits: TWO }).value() == 2 * unit(),
        2 * (Double { bits: HALF }).value() == unit(),
        0 <= 10 * (Double { bits: AMBIENT_FLOOR }).value() - unit() <= 5 * pow2(
            (Double { bits: AMBIENT_FLOOR }).scale(),
        ),
{
    let one = Double { bits: ONE };
    let two = Double { bits: TWO };
    let half = Double { bits: HALF };
    let tenth = Double { bits: AMBIENT_FLOOR };
    lemma_unit_is_positive();
    assert(one.exponent() == 1023 && one.fraction() == 0);
    assert(two.exponent() == 1024 && two.fraction() == 0);
    assert(half.exponent() == 1022 && half.fraction() == 0);
    assert(tenth.exponent() == 1019 && tenth.fraction() == 0x9_9999_9999_999A);
    lemma_pow2_unfold(1023);
    lemma_pow2_unfold(1022);
    lemma_pow2_adds(1018, 4);
    lemma2_to64();
    let h: int = one.significand();
    let w: int = pow2(1022) as int;
    let v: int = pow2(1021) as int;
    let u: int = pow2(1018) as int;
    assert(h * (2 * w) == 2 * (h * w)) by (nonlinear_arith);
    assert(2 * (h * v) == h * (2 * v)) by (nonlinear_arith);
    assert(10 * (tenth.significand() * u) - h * (u * 16) == 4 * u) by (nonlinear_arith)
        requires
            tenth.significand() == 7205759403792794,
            h == 4503599627370496,
    ;
}

/// A folded coordinate lies in the first or in the second half of the period:
/// its floor is 0 below one and 1 from one on.
pub proof fn lemma_floor_in_period(m: Double)
    requires
        in_period(m),
    ensures
        m.floor() == if m.less(Double { bits: ONE }) {
            0int
        } else {
            1int
        },
{
    let zero = Double { bits: ZERO };
    let one = Double { bits: ONE };
    let two = Double { bits: TWO };
    lemma_unit_is_positive();
    lemma_less_is_value_order(m, zero);
    lemma_less_is_value_order(m, one);
    lemma_less_is_value_order(m, two);
    assert(zero.value() == 0) by {
        lemma2_to64();
    }
    lemma_shade_constants();
    let v = m.value();
    if v < unit() {
        lemma_basic_div(v, unit());
    } else {
        lemma_fundamental_div_mod_converse(v, unit(), 1, v - unit());
    }
}

/// The checker pattern alternates with the parity of the cell: away from the
/// cell boundaries a point is dark exactly where the floors of its two folded
/// coordinates add up to an even number.
pub proof fn lemma_checker_follows_floor_parity(m: Double, n: Double)
    requires
        in_period(m),
        in_period(n),
        !m.same(Double { bits: ONE }),
        !n.same(Double { bits: ONE }),
    ensures
        cell(m, n) == if (m.floor() + n.floor()) % 2 == 0 {
            Intensity::Half
        } else {
            Intensity::Full
        },
{
    lemma_floor_in_period(m);
    lemma_floor_in_period(n);
}

/// The diffuse term by value: never below the floor, never above one, and the
/// dot product itself wherever that lies in between.
pub proof fn lemma_lit_is_clamp(d: Double)
    requires
        d.finite(),
    ensures
        (Double { bits: AMBIENT_FLOOR }).value() <= lit(d).value() <= unit(),
        (Double { bits: AMBIENT_FLOOR }).value() <= d.value() <= unit() ==> lit(d).value() == d.value(),
        d.value() < (Double { bits: AMBIENT_FLOOR }).value() ==> lit(d) == (Double { bits: AMBIENT_FLOOR }),
        d.value() > unit() ==> lit(d) == (Double { bits: ONE }),
{
    let one = Double { bits: ONE };
    let floor = Double { bits: AMBIENT_FLOOR };
    lemma_less_is_value_order(d, one);
    lemma_less_is_value_order(floor, d);
    lemma_less_is_value_order(floor, one);
}

} // verus!
