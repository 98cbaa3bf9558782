//! Which primitive a ray hits.
//!
//! Testing a ray against a primitive is arithmetic and yields numbers: for a
//! plane the ray parameter of the crossing, for a sphere the discriminant of
//! the quadratic and its smaller root. [`Probe`] holds those numbers. Whether
//! they amount to a hit, and which of the hits along a ray is the one seen, is
//! decided here. So is the end of a march through a distance field.

use vstd::prelude::*;
use vstd::arithmetic::power2::{lemma2_to64, lemma_pow2_adds, pow2};
use crate::double::{lemma_less_is_value_order, unit, Double, ONE, ZERO};

verus! {

/// The pattern of 0.001: a marched ray that has come this close to a surface
/// counts as having hit it.
pub const SURFACE_EPSILON: u64 = 0x3F50_624D_D2F1_A9FC;

/// What testing one primitive against a ray produced.
#[derive(Clone, Copy, Debug, PartialEq, Eq)]
pub enum Probe {
    /// A plane: `t` is the ray parameter at which the ray's line crosses it.
    /// For a ray parallel to the plane the division that yields `t` has a zero
    /// denominator, and `t` is an infinity or a NaN.
    Plane { t: Double },
    /// A sphere: the discriminant of the ray-sphere quadratic, and `t`, its
    /// smaller root. Where the discriminant is negative the root is a NaN.
    Sphere { discriminant: Double, t: Double },
}

impl Probe {
    /// The distance at which the ray hits the primitive, if it does.
    ///
    /// The root must lie strictly in front of the origin and be finite; a
    /// sphere's discriminant must be greater than zero, so a ray that only
    /// touches the sphere misses it. A NaN in either number fails these tests,
    /// which is how degenerate geometry comes out as a miss.
    pub open spec fn hit(self) -> Option<Double> {
        match self {
            Probe::Plane { t } => if t.positive_finite() {
                Some(t)
            } else {
                None
            },
            Probe::Sphere { discriminant, t } => if (Double { bits: ZERO }).less(discriminant) && t.positive_finite() {
                Some(t)
            } else {
                None
            },
        }
    }

    /// The primitive is missed, or hit strictly farther away than `d`.
    pub open spec fn beyond(self, d: Double) -> bool {
        match self.hit() {
            Some(t) => d.less(t),
            None => true,
        }
    }

    /// The primitive is missed, or hit no nearer than `d`.
    pub open spec fn not_before(self, d: Double) -> bool {
        match self.hit() {
            Some(t) => !t.less(d),
            None => true,
        }
    }

    /// The distance at which the ray hits the primitive, or `None` for a miss.
    pub fn distance(&self) -> (r: Option<Double>)
        ensures
            r == self.hit(),
    {
        match self {
            Probe::Plane { t } => {
                if t.is_positive_finite() {
                    Some(*t)
                } else {
                    None
                }
            },
            Probe::Sphere { discriminant, t } => {
                if Double::from_bits(ZERO).lt(*discriminant) && t.is_positive_finite() {
                    Some(*t)
                } else {
                    None
                }
            },
        }
    }
}

/// A march through a distance field has reached a surface: the distance that
/// the field gave at the last step is below the surface epsilon. The test is
/// made once, when the step budget is spent; a march that has not come that
/// close by then is a miss, and so is one whose distance has become a NaN.
/// This accepts a ray that is near a surface for one that is on it.
pub open spec fn on_surface(last: Double) -> bool {
    last.less(Double { bits: SURFACE_EPSILON })
}

/// Whether a march whose last step measured the distance `last` has hit.
pub fn converged(last: Double) -> (r: bool)
    ensures
        r == on_surface(last),
{
    last.lt(Double::from_bits(SURFACE_EPSILON))
}

/// No double is one thousandth; the surface epsilon is the double nearest to
/// it, above it by less than half the step to the next double.
pub proof fn lemma_surface_epsilon_is_a_thousandth()
    ensures
        0 <= 1000 * (Double { bits: SURFACE_EPSILON }).value() - unit() <= 500 * pow2(
            (Double { bits: SURFACE_EPSILON }).scale(),
        ),
{
    let one = Double { bits: ONE };
    let eps = Double { bits: SURFACE_EPSILON };
    assert(one.exponent() == 1023 && one.fraction() == 0);
    assert(eps.exponent() == 1013 && eps.fraction() == 0x0_624D_D2F1_A9FC);
    lemma_pow2_adds(1012, 10);
    lemma2_to64();
    let h: int = one.significand();
    let u: int = pow2(1012) as int;
    assert(1000 * (eps.significand() * u) - h * (u * 1024) == 96 * u) by (nonlinear_arith)
        requires
            eps.significand() == 4611686018427388,
            h == 4503599627370496,
    ;
}

/// The hit that a scan of the scene settles on.
#[derive(Clone, Copy, Debug, PartialEq, Eq)]
pub struct Nearest {
    /// The place of the primitive in the scene's list.
    pub index: usize,
    /// The distance along the ray at which it is hit.
    pub distance: Double,
}

/// `probes[i]` is the hit that is seen among the first `n` primitives: it is
/// a hit, every primitive listed before it is missed or hit strictly farther
/// away, and none listed after it is hit nearer. Of several hits at one
/// distance this is the first listed.
pub open spec fn is_nearest_of(probes: Seq<Probe>, n: int, i: int) -> bool {
    &&& 0 <= i < n <= probes.len()
    &&& probes[i].hit() is Some
    &&& forall|j: int| 0 <= j < i ==> (#[trigger] probes[j]).beyond(probes[i].hit()->0)
    &&& forall|j: int| i < j < n ==> (#[trigger] probes[j]).not_before(probes[i].hit()->0)
}

/// None of the first `n` primitives is hit.
pub open spec fn all_miss_of(probes: Seq<Probe>, n: int) -> bool {
    forall|j: int| 0 <= j < n ==> (#[trigger] probes[j]).hit() is None
}

/// `probes[i]` is the hit that is seen: the nearest, and of several nearest
/// the first listed.
pub open spec fn is_nearest(probes: Seq<Probe>, i: int) -> bool {
    is_nearest_of(probes, probes.len() as int, i)
}

/// No primitive is hit.
pub open spec fn all_miss(probes: Seq<Probe>) -> bool {
    all_miss_of(probes, probes.len() as int)
}

/// Scans the probes of one ray, in the order of the scene's list, and returns
/// the nearest hit, or `None` where the ray leaves the scene. A later hit
/// replaces the one held only if it is strictly nearer, so of two primitives
/// hit at the same distance the one listed first is returned.
pub fn nearest(probes: &Vec<Probe>) -> (r: Option<Nearest>)
    ensures
        match r {
            Some(n) => is_nearest(probes@, n.index as int) && probes@[n.index as int].hit() == Some(
                n.distance,
            ),
            None => all_miss(probes@),
        },
{
    let mut best: Option<Nearest> = None;
    let mut i: usize = 0;
    while i < probes.len()
        invariant
            i <= probes.len(),
            match best {
                Some(n) => is_nearest_of(probes@, i as int, n.index as int) && probes@[n.index as int].hit()
                    == Some(n.distance),
                None => all_miss_of(probes@, i as int),
            },
        decreases probes.len() - i,
    {
        if let Some(t) = probes[i].distance() {
            let nearer: bool = match best {
                Some(n) => t.lt(n.distance),
                None => true,
            };
            if nearer {
                best = Some(Nearest { index: i, distance: t });
            }
        }
        i = i + 1;
    }
    best
}

/// A list of probes has at most one nearest hit: the result of [`nearest`] is
/// the only index that its contract allows.
pub proof fn lemma_nearest_is_unique(probes: Seq<Probe>, i: int, j: int)
    requires
        is_nearest(probes, i),
        is_nearest(probes, j),
    ensures
        i == j,
{
    if i < j {
        assert(probes[i].beyond(probes[j].hit()->0));
        assert(probes[j].not_before(probes[i].hit()->0));
    } else if j < i {
        assert(probes[j].beyond(probes[i].hit()->0));
        assert(probes[i].not_before(probes[j].hit()->0));
    }
}

/// A scene with a nearest hit is no scene of misses: the two answers of
/// [`nearest`] exclude each other.
pub proof fn lemma_nearest_excludes_all_miss(probes: Seq<Probe>, i: int)
    requires
        is_nearest(probes, i),
    ensures
        !all_miss(probes),
{
    assert(probes[i].hit() is Some);
}

/// Where two primitives are hit at the same distance, the one listed first
/// wins: no primitive listed before the nearest hit is hit at its distance.
pub proof fn lemma_tie_goes_to_first(probes: Seq<Probe>, i: int, j: int)
    requires
        is_nearest(probes, i),
        0 <= j < probes.len(),
        probes[j].hit() is Some,
        probes[j].hit()->0.same(probes[i].hit()->0),
    ensures
        i <= j,
{
    if j < i {
        assert(probes[j].beyond(probes[i].hit()->0));
    }
}

/// The nearest hit is nearest by value: no primitive is hit at a distance
/// whose exact value is smaller.
pub proof fn lemma_nearest_has_least_value(probes: Seq<Probe>, i: int, j: int)
    requires
        is_nearest(probes, i),
        0 <= j < probes.len(),
        probes[j].hit() is Some,
    ensures
        0 < probes[i].hit()->0.value() <= probes[j].hit()->0.value(),
{
    let d = probes[i].hit()->0;
    let t = probes[j].hit()->0;
    lemma_less_is_value_order(d, t);
    lemma_less_is_value_order(t, d);
    lemma_less_is_value_order(Double { bits: ZERO }, d);
    assert((Double { bits: ZERO }).value() == 0) by {
        lemma2_to64();
    }
    if j < i {
        assert(probes[j].beyond(d));
    } else if j > i {
        assert(probes[j].not_before(d));
    }
}

/// Degenerate geometry is a miss: a probe whose root is a NaN, an infinity,
/// zero or negative reports no hit, and so does a sphere whose discriminant is
/// a NaN, zero or negative.
pub proof fn lemma_degenerate_probe_misses(p: Probe)
    ensures
        match p {
            Probe::Plane { t } => t.nan() || !t.finite() || !(Double { bits: ZERO }).less(t),
            Probe::Sphere { discriminant, t } => {
                ||| t.nan() || !t.finite() || !(Double { bits: ZERO }).less(t)
                ||| discriminant.nan() || !(Double { bits: ZERO }).less(discriminant)
            },
        } ==> p.hit() is None,
        p.hit() is Some ==> p.hit()->0.positive_finite(),
{
}

} // verus!
