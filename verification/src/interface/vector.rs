//! Plane vectors and rotations.

use crate::binary32::num;
use crate::binary32::Binary32;
use vstd::prelude::*;

verus! {

/// Pattern of one.
pub const ONE: u32 = 0x3f80_0000;

/// Pattern of two.
pub const TWO: u32 = 0x4000_0000;

/// Self-contained plane vector, so that the interface needs no mathematics
/// library of its users.
#[derive(Clone, Copy, Debug, Default, PartialEq, Eq, Structural)]
pub struct Vec2Lite {
    pub x: Binary32,
    pub y: Binary32,
}

impl Vec2Lite {
    pub open spec fn new_spec(x: Binary32, y: Binary32) -> Vec2Lite {
        Vec2Lite { x, y }
    }

    #[verifier::when_used_as_spec(new_spec)]
    pub fn new(x: Binary32, y: Binary32) -> (r: Vec2Lite)
        ensures
            r == Vec2Lite::new_spec(x, y),
    {
        Vec2Lite { x, y }
    }

    pub open spec fn zero_spec() -> Vec2Lite {
        Vec2Lite { x: num(0), y: num(0) }
    }

    /// The null vector.
    #[verifier::when_used_as_spec(zero_spec)]
    pub fn zero() -> (r: Vec2Lite)
        ensures
            r == Vec2Lite::zero_spec(),
    {
        Vec2Lite { x: num(0), y: num(0) }
    }

    pub open spec fn plus_spec(self, other: Vec2Lite) -> Vec2Lite {
        Vec2Lite { x: self.x.plus(other.x), y: self.y.plus(other.y) }
    }

    #[verifier::when_used_as_spec(plus_spec)]
    pub fn plus(self, other: Vec2Lite) -> (r: Vec2Lite)
        ensures
            r == self.plus_spec(other),
    {
        Vec2Lite { x: self.x.plus(other.x), y: self.y.plus(other.y) }
    }

    pub open spec fn minus_spec(self, other: Vec2Lite) -> Vec2Lite {
        Vec2Lite { x: self.x.minus(other.x), y: self.y.minus(other.y) }
    }

    #[verifier::when_used_as_spec(minus_spec)]
    pub fn minus(self, other: Vec2Lite) -> (r: Vec2Lite)
        ensures
            r == self.minus_spec(other),
    {
        Vec2Lite { x: self.x.minus(other.x), y: self.y.minus(other.y) }
    }

    pub open spec fn negated_spec(self) -> Vec2Lite {
        Vec2Lite { x: self.x.negated(), y: self.y.negated() }
    }

    #[verifier::when_used_as_spec(negated_spec)]
    pub fn negated(self) -> (r: Vec2Lite)
        ensures
            r == self.negated_spec(),
    {
        Vec2Lite { x: self.x.negated(), y: self.y.negated() }
    }

    pub open spec fn scaled_spec(self, k: Binary32) -> Vec2Lite {
        Vec2Lite { x: self.x.times(k), y: self.y.times(k) }
    }

    #[verifier::when_used_as_spec(scaled_spec)]
    pub fn scaled(self, k: Binary32) -> (r: Vec2Lite)
        ensures
            r == self.scaled_spec(k),
    {
        Vec2Lite { x: self.x.times(k), y: self.y.times(k) }
    }

    pub open spec fn length_squared_spec(self) -> Binary32 {
        self.x.times(self.x).plus(self.y.times(self.y))
    }

    #[verifier::when_used_as_spec(length_squared_spec)]
    pub fn length_squared(self) -> (r: Binary32)
        ensures
            r == self.length_squared_spec(),
    {
        self.x.times(self.x).plus(self.y.times(self.y))
    }

    pub open spec fn length_spec(self) -> Binary32 {
        self.length_squared().root()
    }

    #[verifier::when_used_as_spec(length_spec)]
    pub fn length(self) -> (r: Binary32)
        ensures
            r == self.length_spec(),
    {
        self.length_squared().root()
    }

    pub open spec fn distance_squared_spec(self, other: Vec2Lite) -> Binary32 {
        self.minus(other).length_squared()
    }

    #[verifier::when_used_as_spec(distance_squared_spec)]
    pub fn distance_squared(self, other: Vec2Lite) -> (r: Binary32)
        ensures
            r == self.distance_squared_spec(other),
    {
        self.minus(other).length_squared()
    }

    pub open spec fn distance_spec(self, other: Vec2Lite) -> Binary32 {
        self.minus(other).length()
    }

    #[verifier::when_used_as_spec(distance_spec)]
    pub fn distance(self, other: Vec2Lite) -> (r: Binary32)
        ensures
            r == self.distance_spec(other),
    {
        self.minus(other).length()
    }

    pub open spec fn clamp_length_max_spec(self, max: Binary32) -> Vec2Lite {
        let l = self.length();
        if max.lt(l) && num(0).lt(l) {
            self.scaled(max.over(l))
        } else {
            self
        }
    }

    /// The vector shortened to `max` where it is longer.
    #[verifier::when_used_as_spec(clamp_length_max_spec)]
    pub fn clamp_length_max(self, max: Binary32) -> (r: Vec2Lite)
        ensures
            r == self.clamp_length_max_spec(max),
    {
        let l: Binary32 = self.length();
        if max.lt(l) && num(0).lt(l) {
            self.scaled(max.over(l))
        } else {
            self
        }
    }

    pub open spec fn finite(self) -> bool {
        self.x.finite() && self.y.finite()
    }

    pub fn is_finite(self) -> (r: bool)
        ensures
            r == self.finite(),
    {
        self.x.is_finite() && self.y.is_finite()
    }

    pub open spec fn normalize_or_zero_spec(self) -> Vec2Lite {
        let k = num(ONE).over(self.length());
        if k.finite() && num(0).lt(k) {
            self.scaled(k)
        } else {
            Vec2Lite::zero()
        }
    }

    /// The direction of the vector, and the null vector where it has none.
    #[verifier::when_used_as_spec(normalize_or_zero_spec)]
    pub fn normalize_or_zero(self) -> (r: Vec2Lite)
        ensures
            r == self.normalize_or_zero_spec(),
    {
        let k: Binary32 = num(ONE).over(self.length());
        if k.is_finite() && num(0).lt(k) {
            self.scaled(k)
        } else {
            Vec2Lite::zero()
        }
    }
}

/// A rotation in space, as the unit quaternion of a body's transform.
#[derive(Clone, Copy, Debug, Default, PartialEq, Eq, Structural)]
pub struct Rotation {
    pub x: Binary32,
    pub y: Binary32,
    pub z: Binary32,
    pub w: Binary32,
}

impl Rotation {
    pub open spec fn inverse_spec(self) -> Rotation {
        Rotation { x: self.x.negated(), y: self.y.negated(), z: self.z.negated(), w: self.w }
    }

    /// The rotation that undoes this one.
    #[verifier::when_used_as_spec(inverse_spec)]
    pub fn inverse(self) -> (r: Rotation)
        ensures
            r == self.inverse_spec(),
    {
        Rotation { x: self.x.negated(), y: self.y.negated(), z: self.z.negated(), w: self.w }
    }

    pub open spec fn rotate_spec(self, v: Vec2Lite) -> Vec2Lite {
        let axis2 = self.x.times(self.x).plus(self.y.times(self.y)).plus(self.z.times(self.z));
        let keep = self.w.times(self.w).minus(axis2);
        let along = v.x.times(self.x).plus(v.y.times(self.y)).plus(num(0).times(self.z)).times(
            num(TWO),
        );
        let turn = self.w.times(num(TWO));
        let cross_x = self.y.times(num(0)).minus(v.y.times(self.z));
        let cross_y = self.z.times(v.x).minus(num(0).times(self.x));
        Vec2Lite {
            x: v.x.times(keep).plus(self.x.times(along)).plus(cross_x.times(turn)),
            y: v.y.times(keep).plus(self.y.times(along)).plus(cross_y.times(turn)),
        }
    }

    /// The plane vector `v`, turned, with its height dropped.
    #[verifier::when_used_as_spec(rotate_spec)]
    pub fn rotate(self, v: Vec2Lite) -> (r: Vec2Lite)
        ensures
            r == self.rotate_spec(v),
    {
        let axis2: Binary32 = self.x.times(self.x).plus(self.y.times(self.y)).plus(
            self.z.times(self.z),
        );
        let keep: Binary32 = self.w.times(self.w).minus(axis2);
        let along: Binary32 = v.x.times(self.x).plus(v.y.times(self.y)).plus(
            num(0).times(self.z),
        ).times(num(TWO));
        let turn: Binary32 = self.w.times(num(TWO));
        let cross_x: Binary32 = self.y.times(num(0)).minus(v.y.times(self.z));
        let cross_y: Binary32 = self.z.times(v.x).minus(num(0).times(self.x));
        Vec2Lite {
            x: v.x.times(keep).plus(self.x.times(along)).plus(cross_x.times(turn)),
            y: v.y.times(keep).plus(self.y.times(along)).plus(cross_y.times(turn)),
        }
    }
}

} // verus!
