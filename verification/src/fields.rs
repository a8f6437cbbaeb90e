//! The substrate: three continuous fields, kinetic, thermal and electromagnetic,
//! over position and time. All noise is seeded, so that drift is reproducible.

use crate::binary32::arith::size_of;
use crate::binary32::bounds::lemma_product_finite;
use crate::binary32::bounds::lemma_sign_of_units;
use crate::binary32::errors::lemma_product_error;
use crate::binary32::errors::lemma_sum_error;
use crate::binary32::model::grid;
use crate::binary32::model::lemma_grid_order;
use crate::binary32::num;
use crate::binary32::Binary32;
use crate::components::lookup;
use crate::components::node_of;
use crate::components::Node;
use crate::draws::chacha_triple;
use crate::draws::chacha_word;
use crate::draws::draw_triple;
use crate::draws::draw_word;
use crate::economy::FIXED_DT;
use crate::interface::action::MINUS_ONE;
use crate::interface::action::TAU;
use crate::interface::observation::HALF;
use crate::interface::vector::Vec2Lite;
use crate::interface::vector::ONE;
use crate::interface::vector::TWO;
use crate::spatial_hash::reachable;
use crate::spatial_hash::SpatialHash;
use crate::tags::MAGNETIC;
use vstd::arithmetic::power2::lemma_pow2_pos;
use vstd::arithmetic::power2::pow2;
use vstd::prelude::*;

verus! {

/// Pattern of 1.5, the largest electromagnetic value.
pub const EM_LIMIT: u32 = 0x3fc0_0000;

/// Pattern of -1.5, the smallest electromagnetic value.
pub const MINUS_EM_LIMIT: u32 = 0xbfc0_0000;

/// Patterns of the drift periods in seconds: 120, 200 and 90.
pub const THERMAL_PERIOD: u32 = 0x42f0_0000;

pub const KINETIC_PERIOD: u32 = 0x4348_0000;

pub const EM_PERIOD: u32 = 0x42b4_0000;

/// Pattern of the volatility, 0.6.
pub const VOLATILITY: u32 = 0x3f19_999a;

/// Patterns of 0.4, 0.25 and 0.3.
pub const DRIFT_AMPLITUDE: u32 = 0x3ecc_cccd;

pub const EM_AMPLITUDE: u32 = 0x3e80_0000;

pub const SPIKE_SCALE: u32 = 0x3e99_999a;

/// Pattern of the drag coefficient, 0.35.
pub const DRAG_COEFFICIENT: u32 = 0x3eb3_3333;

/// Pattern of the range of magnetic coupling, 10.
pub const MAGNETIC_RANGE: u32 = 0x4120_0000;

/// Pattern of its square, 100.
pub const MAGNETIC_RANGE_SQUARED: u32 = 0x42c8_0000;

/// Pattern of the strength of magnetic coupling, 1.2.
pub const MAGNETIC_STRENGTH: u32 = 0x3f99_999a;

/// Pattern of one quarter, the smallest squared distance of a coupled pair.
pub const QUARTER: u32 = 0x3e80_0000;

/// The master seed of a world.
#[derive(Clone, Copy, Debug, PartialEq, Eq, Structural)]
pub struct SimSeed(pub u64);

/// The three fields at a place and time.
#[derive(Clone, Copy, Debug, Default, PartialEq, Eq, Structural)]
pub struct FieldSample {
    /// Drag.
    pub kinetic: Binary32,
    /// Heat; negative for cold.
    pub thermal: Binary32,
    /// Signed signal noise.
    pub em: Binary32,
}

/// The three noise functions at one lattice point.
#[derive(Clone, Copy, Debug, Default, PartialEq, Eq, Structural)]
pub struct Noise {
    pub kinetic: Binary32,
    pub thermal: Binary32,
    pub em: Binary32,
}

/// The angles whose sines drive the drift, in radians.
#[derive(Clone, Copy, Debug, Default, PartialEq, Eq, Structural)]
pub struct Drift {
    pub kinetic: Binary32,
    pub thermal: Binary32,
    pub em: Binary32,
}

/// The state of the fields, apart from the noise functions themselves.
#[derive(Clone, Copy, Debug, PartialEq, Eq, Structural)]
pub struct FieldSampler {
    /// Seeds of the three noise functions.
    pub kinetic_seed: u32,
    pub thermal_seed: u32,
    pub em_seed: u32,
    /// Seconds since the start.
    pub time: Binary32,
    pub thermal_drift_period: Binary32,
    pub kinetic_drift_period: Binary32,
    pub em_drift_period: Binary32,
    pub volatility: Binary32,
    pub kinetic_scale: Binary32,
    pub thermal_offset: Binary32,
    pub em_offset: Binary32,
}

/// The bands of the fields are in order.
proof fn lemma_field_bands()
    ensures
        num(0).le(num(TWO)),
        num(MINUS_EM_LIMIT).le(num(EM_LIMIT)),
{
    lemma_grid_order(0, TWO as nat);
    lemma_grid_order(0, EM_LIMIT as nat);
    assert(grid(0) == 0);
}

impl FieldSampler {
    pub open spec fn with_seeds_spec(kinetic: u32, thermal: u32, em: u32) -> FieldSampler {
        FieldSampler {
            kinetic_seed: kinetic,
            thermal_seed: thermal,
            em_seed: em,
            time: num(0),
            thermal_drift_period: num(THERMAL_PERIOD),
            kinetic_drift_period: num(KINETIC_PERIOD),
            em_drift_period: num(EM_PERIOD),
            volatility: num(VOLATILITY),
            kinetic_scale: num(ONE),
            thermal_offset: num(0),
            em_offset: num(0),
        }
    }

    /// The fields at their start, with these seeds of the noise functions.
    #[verifier::when_used_as_spec(with_seeds_spec)]
    pub fn with_seeds(kinetic: u32, thermal: u32, em: u32) -> (r: FieldSampler)
        ensures
            r == FieldSampler::with_seeds_spec(kinetic, thermal, em),
    {
        FieldSampler {
            kinetic_seed: kinetic,
            thermal_seed: thermal,
            em_seed: em,
            time: num(0),
            thermal_drift_period: num(THERMAL_PERIOD),
            kinetic_drift_period: num(KINETIC_PERIOD),
            em_drift_period: num(EM_PERIOD),
            volatility: num(VOLATILITY),
            kinetic_scale: num(ONE),
            thermal_offset: num(0),
            em_offset: num(0),
        }
    }

    /// The fields of a world at its start.
    pub open spec fn seeded(seed: SimSeed) -> FieldSampler {
        let (k, t, e) = chacha_triple(seed.0);
        FieldSampler::with_seeds(chacha_word(k), chacha_word(t), chacha_word(e))
    }

    /// Sets the fields up from the seed of the world. Each noise function gets a
    /// seed of its own.
    pub fn from_world(seed: SimSeed) -> (r: FieldSampler)
        ensures
            r == FieldSampler::seeded(seed),
    {
        let (k, t, e) = draw_triple(seed.0);
        FieldSampler::with_seeds(draw_word(k), draw_word(t), draw_word(e))
    }

    pub open spec fn lattice_point_spec(pos: Vec2Lite) -> Vec2Lite {
        Vec2Lite { x: pos.x.plus(num(HALF)), y: pos.y.plus(num(HALF)) }
    }

    /// Where the noise functions are asked for a position: half a cell off, so
    /// that whole coordinates do not meet lattice corners.
    #[verifier::when_used_as_spec(lattice_point_spec)]
    pub fn lattice_point(pos: Vec2Lite) -> (r: Vec2Lite)
        ensures
            r == FieldSampler::lattice_point_spec(pos),
    {
        Vec2Lite { x: pos.x.plus(num(HALF)), y: pos.y.plus(num(HALF)) }
    }

    pub open spec fn sample_spec(self, noise: Noise) -> FieldSample {
        FieldSample {
            kinetic: noise.kinetic.times(num(HALF)).plus(num(HALF)).times(self.kinetic_scale).clamp(
                num(0),
                num(TWO),
            ),
            thermal: noise.thermal.times(num(HALF)).plus(self.thermal_offset).max(num(MINUS_ONE)),
            em: noise.em.plus(self.em_offset).clamp(num(MINUS_EM_LIMIT), num(EM_LIMIT)),
        }
    }

    /// The fields where the noise functions have these values.
    #[verifier::when_used_as_spec(sample_spec)]
    pub fn sample(self, noise: Noise) -> (r: FieldSample)
        ensures
            r == self.sample_spec(noise),
    {
        proof {
            lemma_field_bands();
        }
        FieldSample {
            kinetic: noise.kinetic.times(num(HALF)).plus(num(HALF)).times(self.kinetic_scale).clamp(
                num(0),
                num(TWO),
            ),
            thermal: noise.thermal.times(num(HALF)).plus(self.thermal_offset).max(num(MINUS_ONE)),
            em: noise.em.plus(self.em_offset).clamp(num(MINUS_EM_LIMIT), num(EM_LIMIT)),
        }
    }

    /// The position, one `epsilon` to the right of it, and one above it.
    pub open spec fn stencil_spec(pos: Vec2Lite, epsilon: Binary32) -> (
        Vec2Lite,
        Vec2Lite,
        Vec2Lite,
    ) {
        let along = num(ONE).times(epsilon);
        let across = num(0).times(epsilon);
        (
            pos,
            pos.plus(Vec2Lite { x: along, y: across }),
            pos.plus(Vec2Lite { x: across, y: along }),
        )
    }

    /// The three positions that a gradient is taken from.
    #[verifier::when_used_as_spec(stencil_spec)]
    pub fn stencil(pos: Vec2Lite, epsilon: Binary32) -> (r: (Vec2Lite, Vec2Lite, Vec2Lite))
        ensures
            r == FieldSampler::stencil_spec(pos, epsilon),
    {
        let along: Binary32 = num(ONE).times(epsilon);
        let across: Binary32 = num(0).times(epsilon);
        (
            pos,
            pos.plus(Vec2Lite { x: along, y: across }),
            pos.plus(Vec2Lite { x: across, y: along }),
        )
    }

    /// The gradient of one field by forward differences.
    pub open spec fn slope(
        center: Binary32,
        right: Binary32,
        above: Binary32,
        epsilon: Binary32,
    ) -> Vec2Lite {
        Vec2Lite { x: right.minus(center), y: above.minus(center) }.scaled(num(ONE).over(epsilon))
    }

    pub open spec fn calm_spec(noise: Noise) -> Binary32 {
        noise.kinetic.times(num(HALF)).plus(num(HALF)).clamp(num(0), num(TWO))
    }

    /// The kinetic field without its drift.
    #[verifier::when_used_as_spec(calm_spec)]
    fn calm(noise: Noise) -> (r: Binary32)
        ensures
            r == FieldSampler::calm_spec(noise),
    {
        proof {
            lemma_field_bands();
        }
        noise.kinetic.times(num(HALF)).plus(num(HALF)).clamp(num(0), num(TWO))
    }

    /// The gradients of the three fields, from the noise at the three positions
    /// of the stencil. The kinetic drift is a factor, and is left out; the other
    /// two are offsets, and cancel from the differences.
    pub open spec fn gradients(
        self,
        center: Noise,
        right: Noise,
        above: Noise,
        epsilon: Binary32,
    ) -> Seq<Vec2Lite> {
        let (c, x, y) = (self.sample(center), self.sample(right), self.sample(above));
        seq![
            FieldSampler::slope(
                FieldSampler::calm_spec(center),
                FieldSampler::calm_spec(right),
                FieldSampler::calm_spec(above),
                epsilon,
            ),
            FieldSampler::slope(c.thermal, x.thermal, y.thermal, epsilon),
            FieldSampler::slope(c.em, x.em, y.em, epsilon),
        ]
    }

    /// The fields and their gradients, from the noise at the three positions of
    /// the stencil. Drift is in every value, and in no gradient.
    pub fn sample_with_gradient(
        self,
        center: Noise,
        right: Noise,
        above: Noise,
        epsilon: Binary32,
    ) -> (r: (FieldSample, [Vec2Lite; 3]))
        ensures
            r.0 == self.sample(center),
            r.1@ == self.gradients(center, right, above, epsilon),
    {
        let c: FieldSample = self.sample(center);
        let x: FieldSample = self.sample(right);
        let y: FieldSample = self.sample(above);
        let still: Binary32 = FieldSampler::calm(center);
        let still_x: Binary32 = FieldSampler::calm(right);
        let still_y: Binary32 = FieldSampler::calm(above);
        let k: Binary32 = num(ONE).over(epsilon);
        let gradients: [Vec2Lite; 3] = [
            Vec2Lite::new(still_x.minus(still), still_y.minus(still)).scaled(k),
            Vec2Lite::new(x.thermal.minus(c.thermal), y.thermal.minus(c.thermal)).scaled(k),
            Vec2Lite::new(x.em.minus(c.em), y.em.minus(c.em)).scaled(k),
        ];
        assert(gradients@ =~= self.gradients(center, right, above, epsilon));
        (c, gradients)
    }

    pub open spec fn drift_angles_spec(self) -> Drift {
        Drift {
            kinetic: self.time.times(num(TAU).over(self.kinetic_drift_period)),
            thermal: self.time.times(num(TAU).over(self.thermal_drift_period)),
            em: self.time.times(num(TAU).over(self.em_drift_period)),
        }
    }

    /// Where each drift stands in its period.
    #[verifier::when_used_as_spec(drift_angles_spec)]
    pub fn drift_angles(self) -> (r: Drift)
        ensures
            r == self.drift_angles_spec(),
    {
        Drift {
            kinetic: self.time.times(num(TAU).over(self.kinetic_drift_period)),
            thermal: self.time.times(num(TAU).over(self.thermal_drift_period)),
            em: self.time.times(num(TAU).over(self.em_drift_period)),
        }
    }

    /// The fields with the drift that these sines say.
    pub open spec fn drifted(self, sines: Drift) -> FieldSampler {
        FieldSampler {
            kinetic_scale: num(ONE).minus(num(DRIFT_AMPLITUDE).times(sines.kinetic)),
            thermal_offset: num(DRIFT_AMPLITUDE).times(sines.thermal),
            em_offset: num(EM_AMPLITUDE).times(sines.em),
            ..self
        }
    }

    /// Sets the drift from the sines of [`FieldSampler::drift_angles`].
    pub fn refresh_drift(&mut self, sines: Drift)
        ensures
            *final(self) == old(self).drifted(sines),
    {
        self.kinetic_scale = num(ONE).minus(num(DRIFT_AMPLITUDE).times(sines.kinetic));
        self.thermal_offset = num(DRIFT_AMPLITUDE).times(sines.thermal);
        self.em_offset = num(EM_AMPLITUDE).times(sines.em);
    }

    /// Sets the clock. The drift must be refreshed from the angles returned.
    pub fn set_time(&mut self, time: Binary32) -> (r: Drift)
        ensures
            *final(self) == (FieldSampler { time, ..*old(self) }),
            r == final(self).drift_angles(),
    {
        self.time = time;
        self.drift_angles()
    }

    pub open spec fn is_em_spike_spec(self, noise: Noise) -> bool {
        let limit = num(ONE).plus(num(SPIKE_SCALE).times(self.volatility));
        let em = self.sample(noise).em;
        limit.lt(em) || em.lt(limit.negated())
    }

    /// Does the electromagnetic field spike enough to set off a volatile trap?
    #[verifier::when_used_as_spec(is_em_spike_spec)]
    pub fn is_em_spike(self, noise: Noise) -> (r: bool)
        ensures
            r == self.is_em_spike_spec(noise),
    {
        let limit: Binary32 = num(ONE).plus(num(SPIKE_SCALE).times(self.volatility));
        let em: Binary32 = self.sample(noise).em;
        limit.lt(em) || em.lt(limit.negated())
    }
}

/// Advances the clock of the fields by one fixed step. The drift must be
/// refreshed from the angles returned.
pub fn advance_fields(sampler: &mut FieldSampler) -> (r: Drift)
    ensures
        *final(sampler) == (FieldSampler {
            time: old(sampler).time.plus(num(FIXED_DT)),
            ..*old(sampler)
        }),
        r == final(sampler).drift_angles(),
{
    sampler.time = sampler.time.plus(num(FIXED_DT));
    sampler.drift_angles()
}

/// The fields stay within their bands, whatever the noise and the drift, unless
/// one of these is no number.
pub proof fn lemma_fields_bounded(sampler: FieldSampler, noise: Noise)
    ensures
        ({
            let s = sampler.sample(noise);
            &&& s.kinetic.nan() || (num(0).le(s.kinetic) && s.kinetic.le(num(TWO)))
            &&& num(MINUS_ONE).le(s.thermal)
            &&& s.em.nan() || (num(MINUS_EM_LIMIT).le(s.em) && s.em.le(num(EM_LIMIT)))
        }),
{
    lemma_field_bands();
}

/// The heat and the signal noise are finite and at none of their bounds.
pub open spec fn within_bounds(sampler: FieldSampler, noise: Noise) -> bool {
    let heat = noise.thermal.times(num(HALF)).plus(sampler.thermal_offset);
    let signal = noise.em.plus(sampler.em_offset);
    &&& heat.finite() && num(MINUS_ONE).lt(heat)
    &&& signal.finite() && num(MINUS_EM_LIMIT).lt(signal) && signal.lt(num(EM_LIMIT))
}

/// Two gradients taken over `1 / k` agree up to rounding: `scale` is the sum of
/// the sizes of the values that they were taken from. Each is off by at most five
/// roundings of these, and one of the smallest units.
pub open spec fn agree(a: Binary32, b: Binary32, k: Binary32, scale: nat) -> bool {
    0x100_0000 * (pow2(149) * size_of(a.units() - b.units())) <= 5 * (k.size() * scale)
        + 0x100_0000 * pow2(149)
}

/// A difference of two values with the same offset, against the difference
/// without it.
proof fn lemma_offset_cancels(
    center: Binary32,
    other: Binary32,
    offset: Binary32,
)
    requires
        center.plus(offset).finite(),
        other.plus(offset).finite(),
        other.plus(offset).minus(center.plus(offset)).finite(),
    ensures
        ({
            let c = center.plus(offset);
            let x = other.plus(offset);
            let d = x.minus(c);
            &&& 0x100_0000 * size_of(d.units() - (other.units() - center.units())) <= 3 * (c.size()
                + x.size())
            &&& d.size() <= 2 * (c.size() + x.size())
        }),
{
    lemma_sum_finite(center, offset);
    lemma_sum_finite(other, offset);
    let c = center.plus(offset);
    let x = other.plus(offset);
    let d = x.minus(c);
    lemma_sum_error(center, offset);
    lemma_sum_error(other, offset);
    assert(c.negated().units() == -c.units());
    lemma_sum_error(x, c.negated());
    lemma_sign_of_units(c);
    lemma_sign_of_units(x);
    lemma_sign_of_units(d);
}

/// Two gradients taken over the same step from differences that agree.
proof fn lemma_scaled_agree(a: Binary32, b: Binary32, k: Binary32, first: nat, second: nat, d: int)
    requires
        a.finite(),
        b.finite(),
        k.finite(),
        a.times(k).finite(),
        b.times(k).finite(),
        0x100_0000 * size_of(a.units() - d) <= 3 * first,
        0x100_0000 * size_of(b.units() - d) <= 3 * second,
        a.size() <= 2 * first,
        b.size() <= 2 * second,
    ensures
        agree(a.times(k), b.times(k), k, first + second),
{
    lemma_product_error(a, k);
    lemma_product_error(b, k);
    lemma_pow2_pos(149);
    let u = pow2(149) as int;
    let (ga, gb) = (a.times(k).units(), b.times(k).units());
    let (da, db, w) = (a.units(), b.units(), k.units());
    let z = k.size() as int;
    lemma_sign_of_units(a);
    lemma_sign_of_units(b);
    lemma_sign_of_units(k);
    let e = 0x100_0000int;
    assert(a.size() * k.size() <= 2 * (z * first)) by (nonlinear_arith)
        requires
            a.size() <= 2 * first,
            z == k.size(),
    ;
    assert(b.size() * k.size() <= 2 * (z * second)) by (nonlinear_arith)
        requires
            b.size() <= 2 * second,
            z == k.size(),
    ;
    let gapped = size_of(da - db) as int;
    assert(e * gapped <= 3 * (first + second));
    assert(e * size_of(da * w - db * w) <= 3 * (z * (first + second))) by {
        assert(size_of(da * w - db * w) == gapped * z) by {
            assert(da * w - db * w == (da - db) * w) by (nonlinear_arith);
            lemma_size_of_product(da - db, w);
        }
        assert(e * (gapped * z) <= 3 * (z * (first + second))) by (nonlinear_arith)
            requires
                e * gapped <= 3 * (first + second),
                z >= 0,
        ;
    }
    assert(size_of(ga * u - gb * u) == u * size_of(ga - gb)) by {
        assert(ga * u - gb * u == (ga - gb) * u) by (nonlinear_arith);
        lemma_size_of_product(ga - gb, u);
        assert(size_of(ga - gb) * u == u * size_of(ga - gb)) by (nonlinear_arith);
    }
    assert(z * (first + second) == z * first + z * second) by (nonlinear_arith);
    assert(0x80_0000 * u + 0x80_0000 * u == 0x100_0000 * u);
}

/// The size of a product is the product of the sizes.
proof fn lemma_size_of_product(a: int, b: int)
    ensures
        size_of(a * b) == size_of(a) * size_of(b),
{
    assert((-a) * b == -(a * b) && a * (-b) == -(a * b) && (-a) * (-b) == a * b)
        by (nonlinear_arith);
    assert(a >= 0 && b >= 0 ==> a * b >= 0) by (nonlinear_arith);
    assert(a < 0 && b >= 0 ==> a * b <= 0) by (nonlinear_arith);
    assert(a >= 0 && b < 0 ==> a * b <= 0) by (nonlinear_arith);
    assert(a < 0 && b < 0 ==> a * b >= 0) by (nonlinear_arith);
}

/// A sum that is finite has finite terms.
proof fn lemma_sum_finite(a: Binary32, b: Binary32)
    requires
        a.plus(b).finite(),
    ensures
        a.finite(),
        b.finite(),
{
}

/// Drift cancels from the gradients: whatever the drift of two samplers, the same
/// noise gives them the same kinetic gradient, and thermal and electromagnetic
/// gradients that agree up to rounding where no value is at a bound.
pub proof fn lemma_drift_cancels(
    first: FieldSampler,
    second: FieldSampler,
    center: Noise,
    right: Noise,
    above: Noise,
    epsilon: Binary32,
)
    requires
        within_bounds(first, center),
        within_bounds(first, right),
        within_bounds(first, above),
        within_bounds(second, center),
        within_bounds(second, right),
        within_bounds(second, above),
        forall|f: int|
            1 <= f < 3 ==> (#[trigger] first.gradients(center, right, above, epsilon)[f]).finite(),
        forall|f: int|
            1 <= f < 3 ==> (#[trigger] second.gradients(center, right, above, epsilon)[f]).finite(),
    ensures
        ({
            let a = first.gradients(center, right, above, epsilon);
            let b = second.gradients(center, right, above, epsilon);
            let k = num(ONE).over(epsilon);
            let (p, q) = (first.sample(center), second.sample(center));
            let (px, qx) = (first.sample(right), second.sample(right));
            let (py, qy) = (first.sample(above), second.sample(above));
            &&& a[0] == b[0]
            &&& agree(a[1].x, b[1].x, k, p.thermal.size() + px.thermal.size() + (q.thermal.size()
                + qx.thermal.size()))
            &&& agree(a[1].y, b[1].y, k, p.thermal.size() + py.thermal.size() + (q.thermal.size()
                + qy.thermal.size()))
            &&& agree(a[2].x, b[2].x, k, p.em.size() + px.em.size() + (q.em.size() + qx.em.size()))
            &&& agree(a[2].y, b[2].y, k, p.em.size() + py.em.size() + (q.em.size() + qy.em.size()))
        }),
{
    let a = first.gradients(center, right, above, epsilon);
    let b = second.gradients(center, right, above, epsilon);
    let k = num(ONE).over(epsilon);
    assert(a[1].finite() && a[2].finite() && b[1].finite() && b[2].finite());
    let (hc, hx, hy) = (
        center.thermal.times(num(HALF)),
        right.thermal.times(num(HALF)),
        above.thermal.times(num(HALF)),
    );
    lemma_one_agrees(hc, hx, first.thermal_offset, second.thermal_offset, k);
    lemma_one_agrees(hc, hy, first.thermal_offset, second.thermal_offset, k);
    lemma_one_agrees(center.em, right.em, first.em_offset, second.em_offset, k);
    lemma_one_agrees(center.em, above.em, first.em_offset, second.em_offset, k);
}

/// One coordinate of one field.
proof fn lemma_one_agrees(
    center: Binary32,
    other: Binary32,
    first: Binary32,
    second: Binary32,
    k: Binary32,
)
    requires
        center.plus(first).finite(),
        other.plus(first).finite(),
        center.plus(second).finite(),
        other.plus(second).finite(),
        other.plus(first).minus(center.plus(first)).times(k).finite(),
        other.plus(second).minus(center.plus(second)).times(k).finite(),
    ensures
        agree(
            other.plus(first).minus(center.plus(first)).times(k),
            other.plus(second).minus(center.plus(second)).times(k),
            k,
            center.plus(first).size() + other.plus(first).size() + (center.plus(second).size()
                + other.plus(second).size()),
        ),
{
    let a = other.plus(first).minus(center.plus(first));
    let b = other.plus(second).minus(center.plus(second));
    lemma_product_finite(a, k);
    lemma_product_finite(b, k);
    lemma_offset_cancels(center, other, first);
    lemma_offset_cancels(center, other, second);
    lemma_scaled_agree(
        a,
        b,
        k,
        center.plus(first).size() + other.plus(first).size(),
        center.plus(second).size() + other.plus(second).size(),
        other.units() - center.units(),
    );
}

/// The drag on a node: against its motion, by the kinetic field and its mass.
pub open spec fn drag(node: Node, field: FieldSample) -> Vec2Lite {
    match node.physical {
        Some(p) => node.motion().negated().scaled(field.kinetic).scaled(
            num(DRAG_COEFFICIENT),
        ).scaled(p.mass),
        None => Vec2Lite::zero(),
    }
}

/// Is the node part of the substrate's dynamics?
pub open spec fn coupled(node: Node) -> bool {
    node.physical is Some && node.tags is Some
}

/// A force on a node.
#[derive(Clone, Copy, Debug, PartialEq, Eq, Structural)]
pub struct Push {
    pub entity: u64,
    pub force: Vec2Lite,
}

/// The drag on every coupled node, in table order.
pub open spec fn drag_forces(nodes: Seq<Node>, fields: Seq<FieldSample>) -> Seq<Push>
    decreases nodes.len(),
{
    if nodes.len() == 0 {
        Seq::empty()
    } else {
        let rest = drag_forces(nodes.drop_last(), fields);
        let i = nodes.len() - 1;
        if coupled(nodes[i]) {
            rest.push(Push { entity: nodes[i].entity, force: drag(nodes[i], fields[i]) })
        } else {
            rest
        }
    }
}

/// The drag of the kinetic field on every node, given the fields at each.
pub fn apply_drag(nodes: &Vec<Node>, fields: &[FieldSample]) -> (r: Vec<Push>)
    requires
        fields@.len() == nodes@.len(),
    ensures
        r@ == drag_forces(nodes@, fields@),
{
    let mut out: Vec<Push> = Vec::new();
    let mut i: usize = 0;
    assert(nodes@.take(0) =~= Seq::<Node>::empty());
    while i < nodes.len()
        invariant
            i <= nodes@.len(),
            fields@.len() == nodes@.len(),
            out@ == drag_forces(nodes@.take(i as int), fields@),
        decreases nodes@.len() - i,
    {
        assert(nodes@.take(i + 1).drop_last() =~= nodes@.take(i as int));
        let node: Node = nodes[i];
        match (node.physical, node.tags) {
            (Some(p), Some(_)) => {
                let force: Vec2Lite = node.motion().negated().scaled(fields[i].kinetic).scaled(
                    num(DRAG_COEFFICIENT),
                ).scaled(p.mass);
                out.push(Push { entity: node.entity, force });
            },
            _ => {},
        }
        i += 1;
    }
    assert(nodes@.take(i as int) =~= nodes@);
    out
}

/// Two magnetic nodes within range of each other.
#[derive(Clone, Copy, Debug, PartialEq, Eq, Structural)]
pub struct MagneticPair {
    pub first: u64,
    pub second: u64,
    pub delta: Vec2Lite,
    pub distance_squared: Binary32,
    /// Where the electromagnetic field decides on the polarity.
    pub midpoint: Vec2Lite,
}

/// Is the node magnetic?
pub open spec fn magnetic(node: Node) -> bool {
    coupled(node) && node.tagged(MAGNETIC)
}

/// The pair of a magnetic node and another, if they couple. Each pair is seen
/// from its lower number only.
pub open spec fn pair_of(nodes: Seq<Node>, node: Node, other: u64) -> Option<MagneticPair> {
    match node_of(nodes, other) {
        Some(o) => {
            let delta = o.position.minus(node.position);
            let d2 = delta.length_squared().max(num(QUARTER));
            if node.entity < other && magnetic(o) && !num(MAGNETIC_RANGE_SQUARED).lt(d2) {
                Some(
                    MagneticPair {
                        first: node.entity,
                        second: other,
                        delta,
                        distance_squared: d2,
                        midpoint: node.position.plus(delta.scaled(num(HALF))),
                    },
                )
            } else {
                None
            }
        },
        None => None,
    }
}

/// The pairs of a node with those nearby, in the order of the query.
pub open spec fn pairs_with(nodes: Seq<Node>, node: Node, nearby: Seq<u64>) -> Seq<MagneticPair>
    decreases nearby.len(),
{
    if nearby.len() == 0 {
        Seq::empty()
    } else {
        let rest = pairs_with(nodes, node, nearby.drop_last());
        match pair_of(nodes, node, nearby.last()) {
            Some(p) => rest.push(p),
            None => rest,
        }
    }
}

/// The pairs of the first `n` nodes of the table.
pub open spec fn magnetic_couples(nodes: Seq<Node>, hash: SpatialHash, n: nat) -> Seq<MagneticPair>
    decreases n,
{
    if n == 0 {
        Seq::empty()
    } else {
        let node = nodes[n - 1];
        let rest = magnetic_couples(nodes, hash, (n - 1) as nat);
        if magnetic(node) {
            rest + pairs_with(nodes, node, hash.found(node.position, num(MAGNETIC_RANGE)))
        } else {
            rest
        }
    }
}

/// The magnetic nodes that act on each other, each pair once.
pub fn magnetic_pairs(nodes: &Vec<Node>, hash: &SpatialHash) -> (r: Vec<MagneticPair>)
    requires
        forall|i: int|
            0 <= i < nodes@.len() ==> reachable(
                (#[trigger] nodes@[i]).position,
                num(MAGNETIC_RANGE),
            ),
    ensures
        r@ == magnetic_couples(nodes@, *hash, nodes@.len()),
{
    let mut out: Vec<MagneticPair> = Vec::new();
    let mut nearby: Vec<u64> = Vec::new();
    let mut i: usize = 0;
    while i < nodes.len()
        invariant
            i <= nodes@.len(),
            forall|i: int|
                0 <= i < nodes@.len() ==> reachable(
                    (#[trigger] nodes@[i]).position,
                    num(MAGNETIC_RANGE),
                ),
            out@ == magnetic_couples(nodes@, *hash, i as nat),
        decreases nodes@.len() - i,
    {
        let node: Node = nodes[i];
        if node.physical.is_some() && node.tagged(MAGNETIC) {
            hash.query_radius(node.position, num(MAGNETIC_RANGE), &mut nearby);
            let ghost head = out@;
            let mut j: usize = 0;
            assert(out@ =~= head + pairs_with(nodes@, node, nearby@.take(0)));
            while j < nearby.len()
                invariant
                    j <= nearby@.len(),
                    out@ == head + pairs_with(nodes@, node, nearby@.take(j as int)),
                decreases nearby@.len() - j,
            {
                assert(nearby@.take(j + 1).drop_last() =~= nearby@.take(j as int));
                let other: u64 = nearby[j];
                match lookup(nodes, other) {
                    Some(o) => {
                        let delta: Vec2Lite = o.position.minus(node.position);
                        let d2: Binary32 = delta.length_squared().max(num(QUARTER));
                        if node.entity < other && o.physical.is_some() && o.tagged(MAGNETIC) && !num(
                            MAGNETIC_RANGE_SQUARED,
                        ).lt(d2) {
                            out.push(
                                MagneticPair {
                                    first: node.entity,
                                    second: other,
                                    delta,
                                    distance_squared: d2,
                                    midpoint: node.position.plus(delta.scaled(num(HALF))),
                                },
                            );
                        }
                    },
                    None => {},
                }
                assert(out@ =~= head + pairs_with(nodes@, node, nearby@.take(j + 1)));
                j += 1;
            }
            assert(nearby@.take(j as int) =~= nearby@);
        }
        i += 1;
    }
    out
}

impl MagneticPair {
    pub open spec fn force_spec(self, field: FieldSample) -> Vec2Lite {
        self.delta.normalize_or_zero().scaled(field.em.signum()).scaled(
            num(MAGNETIC_STRENGTH).over(self.distance_squared.max(num(ONE))),
        )
    }

    /// The force on the first of the pair, given the fields at the midpoint.
    #[verifier::when_used_as_spec(force_spec)]
    pub fn force(self, field: FieldSample) -> (r: Vec2Lite)
        ensures
            r == self.force_spec(field),
    {
        self.delta.normalize_or_zero().scaled(field.em.signum()).scaled(
            num(MAGNETIC_STRENGTH).over(self.distance_squared.max(num(ONE))),
        )
    }
}

/// The pushes of the first `n` pairs: on each pair two, equal and opposite.
pub open spec fn pair_pushes(pairs: Seq<MagneticPair>, fields: Seq<FieldSample>, n: nat) -> Seq<
    Push,
>
    decreases n,
{
    if n == 0 {
        Seq::empty()
    } else {
        let force = pairs[n - 1].force(fields[n - 1]);
        pair_pushes(pairs, fields, (n - 1) as nat).push(
            Push { entity: pairs[n - 1].first, force },
        ).push(Push { entity: pairs[n - 1].second, force: force.negated() })
    }
}

/// The forces of the substrate: drag first, then the magnetic pairs, given the
/// fields at every node and at every pair's midpoint.
pub fn apply_field_forces(
    nodes: &Vec<Node>,
    fields: &[FieldSample],
    pairs: &Vec<MagneticPair>,
    pair_fields: &[FieldSample],
) -> (r: Vec<Push>)
    requires
        fields@.len() == nodes@.len(),
        pair_fields@.len() == pairs@.len(),
    ensures
        r@ == drag_forces(nodes@, fields@) + pair_pushes(pairs@, pair_fields@, pairs@.len()),
{
    let mut out: Vec<Push> = apply_drag(nodes, fields);
    let ghost head = out@;
    let mut i: usize = 0;
    assert(out@ =~= head + pair_pushes(pairs@, pair_fields@, 0));
    while i < pairs.len()
        invariant
            i <= pairs@.len(),
            pair_fields@.len() == pairs@.len(),
            out@ == head + pair_pushes(pairs@, pair_fields@, i as nat),
        decreases pairs@.len() - i,
    {
        let pair: MagneticPair = pairs[i];
        let force: Vec2Lite = pair.force(pair_fields[i]);
        out.push(Push { entity: pair.first, force });
        out.push(Push { entity: pair.second, force: force.negated() });
        assert(out@ =~= head + pair_pushes(pairs@, pair_fields@, (i + 1) as nat));
        i += 1;
    }
    out
}

/// Magnetic forces come in pairs: what acts on one node acts on the other in the
/// opposite direction.
pub proof fn lemma_pair_forces_opposite(pairs: Seq<MagneticPair>, fields: Seq<FieldSample>, i: int)
    requires
        0 <= i < pairs.len(),
    ensures
        ({
            let pushes = pair_pushes(pairs, fields, pairs.len());
            &&& pushes.len() == 2 * pairs.len()
            &&& pushes[2 * i].entity == pairs[i].first
            &&& pushes[2 * i].force == pairs[i].force(fields[i])
            &&& pushes[2 * i + 1].entity == pairs[i].second
            &&& pushes[2 * i + 1].force == pushes[2 * i].force.negated()
        }),
{
    lemma_pushes_at(pairs, fields, pairs.len(), i);
}

proof fn lemma_pushes_at(pairs: Seq<MagneticPair>, fields: Seq<FieldSample>, n: nat, i: int)
    requires
        0 <= i < n <= pairs.len(),
    ensures
        ({
            let pushes = pair_pushes(pairs, fields, n);
            let force = pairs[i].force(fields[i]);
            &&& pushes.len() == 2 * n
            &&& pushes[2 * i] == Push { entity: pairs[i].first, force }
            &&& pushes[2 * i + 1] == Push { entity: pairs[i].second, force: force.negated() }
        }),
    decreases n,
{
    if n == 1 {
        assert(pair_pushes(pairs, fields, 0).len() == 0);
    } else if i < n - 1 {
        lemma_pushes_at(pairs, fields, (n - 1) as nat, i);
    } else {
        lemma_pushes_at(pairs, fields, (n - 1) as nat, i - 1);
    }
}

pub open spec fn seeded_rng_spec(seed: SimSeed, key: u64) -> u64 {
    seed.0 ^ key.wrapping_mul(0x9E37_79B9_7F4A_7C15)
}

/// The seed of the generator that belongs to a spatial key of this world.
pub fn seeded_rng(seed: SimSeed, key: u64) -> (r: u64)
    ensures
        r == seeded_rng_spec(seed, key),
{
    seed.0 ^ key.wrapping_mul(0x9E37_79B9_7F4A_7C15)
}

} // verus!
