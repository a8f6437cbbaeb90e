//! What an agent asks of its body.

use crate::binary32::bounds::lemma_one;
use crate::binary32::bounds::lemma_product_shrinks;
use crate::binary32::bounds::lemma_rounded_at_most;
use crate::binary32::bounds::lemma_sign_of_units;
use crate::binary32::bounds::lemma_signed;
use crate::binary32::bounds::lemma_signed_self;
use crate::binary32::bounds::lemma_sum_between;
use crate::binary32::convert::one_unit;
use crate::binary32::model::grid;
use crate::binary32::model::lemma_grid_order;
use crate::binary32::model::lemma_rounded_exact;
use crate::binary32::model::rounded;
use crate::binary32::model::INFINITY_BITS;
use crate::binary32::num;
use crate::binary32::Binary32;
use crate::interface::shortening::lemma_null_is_short;
use crate::interface::shortening::lemma_shortened_to_one;
use crate::interface::shortening::unit_bound;
use crate::interface::vector::Vec2Lite;
use crate::interface::vector::ONE;
use vstd::arithmetic::power2::pow2;
use vstd::prelude::*;

verus! {

/// Numbers in the action tensor: force, torque, clamp, fabricate, oscillator
/// frequency and phase.
pub const ACTION_STRIDE: usize = 7;

/// Pattern of minus one.
pub const MINUS_ONE: u32 = 0xbf80_0000;

/// Pattern of the largest oscillator frequency, 16.
pub const OSC_LIMIT: u32 = 0x4180_0000;

/// Pattern of the smallest oscillator frequency, -16.
pub const MINUS_OSC_LIMIT: u32 = 0xc180_0000;

/// Pattern of a full turn in radians.
pub const TAU: u32 = 0x40c9_0fdb;

/// Continuous action emitted every step. Every actuator call costs stored
/// energy: there is no free action. The world interprets and bounds these.
#[derive(Clone, Copy, Debug, Default, PartialEq, Eq, Structural)]
pub struct ActionTensor {
    pub force: Vec2Lite,
    pub torque: Binary32,
    /// Above one half: clamp to the nearest neighbor. Otherwise: release.
    pub clamp: Binary32,
    /// Above one half: fabricate, for mass and energy.
    pub fabricate: Binary32,
    /// Commanded oscillator frequency in radians per second.
    pub osc_freq: Binary32,
    /// Commanded oscillator phase in radians.
    pub osc_phase: Binary32,
}

pub open spec fn finite_or_zero_spec(value: Binary32) -> Binary32 {
    if value.finite() {
        value
    } else {
        num(0)
    }
}

/// The number, and zero in place of an infinity or a NaN.
#[verifier::when_used_as_spec(finite_or_zero_spec)]
pub fn finite_or_zero(value: Binary32) -> (r: Binary32)
    ensures
        r == finite_or_zero_spec(value),
{
    if value.is_finite() {
        value
    } else {
        num(0)
    }
}

/// The patterns of the bands' edges are in order.
proof fn lemma_band_edges()
    ensures
        num(MINUS_ONE).le(num(ONE)),
        num(0).le(num(ONE)),
        num(MINUS_OSC_LIMIT).le(num(OSC_LIMIT)),
{
    lemma_grid_order(0, ONE as nat);
    lemma_grid_order(0, OSC_LIMIT as nat);
    assert(grid(0) == 0);
}

impl ActionTensor {
    /// The action that asks for nothing.
    pub open spec fn noop_spec() -> ActionTensor {
        ActionTensor {
            force: Vec2Lite::zero(),
            torque: num(0),
            clamp: num(0),
            fabricate: num(0),
            osc_freq: num(0),
            osc_phase: num(0),
        }
    }

    /// The action that asks for nothing.
    #[verifier::when_used_as_spec(noop_spec)]
    pub fn noop() -> (r: ActionTensor)
        ensures
            r == ActionTensor::noop_spec(),
    {
        ActionTensor {
            force: Vec2Lite::zero(),
            torque: num(0),
            clamp: num(0),
            fabricate: num(0),
            osc_freq: num(0),
            osc_phase: num(0),
        }
    }

    /// The action with every component in its physical range.
    pub open spec fn sanitized(self) -> ActionTensor {
        ActionTensor {
            force: if self.force.finite() {
                self.force.clamp_length_max(num(ONE))
            } else {
                Vec2Lite::zero()
            },
            torque: finite_or_zero(self.torque).clamp(num(MINUS_ONE), num(ONE)),
            clamp: finite_or_zero(self.clamp).clamp(num(0), num(ONE)),
            fabricate: finite_or_zero(self.fabricate).clamp(num(0), num(ONE)),
            osc_freq: finite_or_zero(self.osc_freq).clamp(num(MINUS_OSC_LIMIT), num(OSC_LIMIT)),
            osc_phase: finite_or_zero(self.osc_phase).rem_euclid(num(TAU)),
        }
    }

    /// Brings every component into its physical range, so that nothing
    /// downstream sees an infinity, a NaN or a value out of band.
    pub fn sanitize(&mut self)
        ensures
            *final(self) == old(self).sanitized(),
    {
        proof {
            lemma_band_edges();
        }
        self.torque = finite_or_zero(self.torque);
        self.clamp = finite_or_zero(self.clamp);
        self.fabricate = finite_or_zero(self.fabricate);
        self.osc_freq = finite_or_zero(self.osc_freq);
        self.osc_phase = finite_or_zero(self.osc_phase);
        self.force = if self.force.is_finite() {
            self.force.clamp_length_max(num(ONE))
        } else {
            Vec2Lite::zero()
        };
        self.torque = self.torque.clamp(num(MINUS_ONE), num(ONE));
        self.clamp = self.clamp.clamp(num(0), num(ONE));
        self.fabricate = self.fabricate.clamp(num(0), num(ONE));
        self.osc_freq = self.osc_freq.clamp(num(MINUS_OSC_LIMIT), num(OSC_LIMIT));
        self.osc_phase = self.osc_phase.rem_euclid(num(TAU));
    }

    /// The components in wire order.
    pub open spec fn flat(self) -> Seq<Binary32> {
        seq![
            self.force.x,
            self.force.y,
            self.torque,
            self.clamp,
            self.fabricate,
            self.osc_freq,
            self.osc_phase,
        ]
    }

    /// Flattens into the wire layout.
    pub fn to_f32(&self) -> (r: [Binary32; 7])
        ensures
            r@ == self.flat(),
    {
        let r: [Binary32; 7] = [
            self.force.x,
            self.force.y,
            self.torque,
            self.clamp,
            self.fabricate,
            self.osc_freq,
            self.osc_phase,
        ];
        assert(r@ =~= self.flat());
        r
    }

    /// The action that seven numbers in wire order describe, before bounding.
    pub open spec fn unflat(s: Seq<Binary32>) -> ActionTensor {
        ActionTensor {
            force: Vec2Lite { x: s[0], y: s[1] },
            torque: s[2],
            clamp: s[3],
            fabricate: s[4],
            osc_freq: s[5],
            osc_phase: s[6],
        }
    }

    /// Reads the wire layout and bounds what it says.
    pub fn from_f32(s: &[Binary32]) -> (r: ActionTensor)
        requires
            s@.len() == ACTION_STRIDE,
        ensures
            r == ActionTensor::unflat(s@).sanitized(),
    {
        let mut a: ActionTensor = ActionTensor {
            force: Vec2Lite::new(s[0], s[1]),
            torque: s[2],
            clamp: s[3],
            fabricate: s[4],
            osc_freq: s[5],
            osc_phase: s[6],
        };
        a.sanitize();
        a
    }
}

/// The factor that shortens a vector longer than one is at most one.
pub proof fn lemma_shortening_factor(l: Binary32)
    requires
        num(ONE).lt(l),
    ensures
        num(ONE).over(l).finite(),
        num(ONE).over(l).size() <= one_unit(),
{
    lemma_one();
    lemma_sign_of_units(l);
    lemma_grid_order(0, ONE as nat);
    assert(grid(0) == 0);
    if !l.infinite() {
        let one = one_unit();
        let n = num(ONE).size() * pow2(149);
        assert(n <= one * l.size()) by (nonlinear_arith)
            requires
                n == one * one,
                one <= l.size(),
        ;
        lemma_rounded_at_most(n, l.size(), ONE as nat);
        lemma_signed(false, rounded(n, l.size()));
        lemma_grid_order(rounded(n, l.size()), ONE as nat);
    } else {
        lemma_signed(false, 0);
    }
}

/// Whatever an agent says, the world acts on finite commands within their bands.
pub proof fn lemma_sanitized_bounded(a: ActionTensor)
    ensures
        a.sanitized().force.finite(),
        unit_bound(a.sanitized().force),
        num(MINUS_ONE).le(a.sanitized().torque) && a.sanitized().torque.le(num(ONE)),
        num(0).le(a.sanitized().clamp) && a.sanitized().clamp.le(num(ONE)),
        num(0).le(a.sanitized().fabricate) && a.sanitized().fabricate.le(num(ONE)),
        num(MINUS_OSC_LIMIT).le(a.sanitized().osc_freq) && a.sanitized().osc_freq.le(
            num(OSC_LIMIT),
        ),
        num(0).le(a.sanitized().osc_phase) && a.sanitized().osc_phase.le(num(TAU)),
{
    lemma_band_edges();
    let f = a.force;
    if f.finite() {
        lemma_shortened_to_one(f);
    } else {
        lemma_null_is_short();
    }
    if f.finite() && num(ONE).lt(f.length()) && num(0).lt(f.length()) {
        lemma_shortening_factor(f.length());
        let k = num(ONE).over(f.length());
        lemma_product_shrinks(f.x, k);
        lemma_product_shrinks(f.y, k);
    }
    let phase = finite_or_zero(a.osc_phase);
    let tau = num(TAU);
    lemma_grid_order(0, TAU as nat);
    assert(grid(0) == 0);
    let left = phase.size() % tau.size();
    let r = phase.rem(tau);
    lemma_rounded_at_most(left, 1, TAU as nat);
    lemma_signed(phase.negative(), rounded(left, 1));
    lemma_grid_order(rounded(left, 1), TAU as nat);
    lemma_sign_of_units(r);
    if r.lt(num(0)) {
        lemma_signed_self(tau);
        assert(tau.abs() == tau);
        lemma_sum_between(r, tau, num(0), tau);
    }
}

/// An action within its bands is what the world acts on, to the last bit.
pub proof fn lemma_in_band_unchanged(a: ActionTensor)
    requires
        a.force.finite(),
        !num(ONE).lt(a.force.length()),
        num(MINUS_ONE).le(a.torque) && a.torque.le(num(ONE)),
        num(0).le(a.clamp) && a.clamp.le(num(ONE)),
        num(0).le(a.fabricate) && a.fabricate.le(num(ONE)),
        num(MINUS_OSC_LIMIT).le(a.osc_freq) && a.osc_freq.le(num(OSC_LIMIT)),
        num(0).le(a.osc_phase) && a.osc_phase.lt(num(TAU)),
    ensures
        a.sanitized() == a,
{
    lemma_band_finite(a.torque, OSC_LIMIT);
    lemma_band_finite(a.clamp, OSC_LIMIT);
    lemma_band_finite(a.fabricate, OSC_LIMIT);
    lemma_band_finite(a.osc_freq, OSC_LIMIT);
    lemma_band_finite(a.osc_phase, OSC_LIMIT);
    lemma_grid_order(ONE as nat, OSC_LIMIT as nat);
    lemma_grid_order(TAU as nat, OSC_LIMIT as nat);
    lemma_grid_order(0, ONE as nat);
    assert(grid(0) == 0);
    let phase = a.osc_phase;
    lemma_sign_of_units(phase);
    vstd::arithmetic::div_mod::lemma_small_mod(phase.size(), num(TAU).size());
    lemma_rounded_exact(phase.magnitude());
    lemma_signed_self(phase);
}

/// What lies within a finite band is finite.
proof fn lemma_band_finite(x: Binary32, limit: u32)
    requires
        limit < INFINITY_BITS,
        !x.nan(),
    ensures
        -(grid(limit as nat) as int) <= x.units() <= grid(limit as nat) ==> x.finite(),
{
    lemma_grid_order(limit as nat, x.magnitude());
    lemma_sign_of_units(x);
}

} // verus!
