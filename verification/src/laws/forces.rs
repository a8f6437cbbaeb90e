//! The forces of the fields, as numbers.

use crate::binary32::model::Binary32;
use crate::binary32::order::num;
use crate::binary32::value::lemma_decimal;
use crate::binary32::value::lemma_large;
use crate::binary32::value::lemma_mag_product;
use crate::binary32::value::lemma_modest_fits;
use crate::binary32::value::lemma_near_bounds;
use crate::binary32::value::lemma_near_product;
use crate::binary32::value::lemma_near_self;
use crate::binary32::value::lemma_near_widens;
use crate::binary32::value::lemma_product_sign;
use crate::binary32::value::lemma_product_within;
use crate::binary32::value::lemma_times_fits;
use crate::binary32::value::lemma_tiny;
use crate::binary32::value::lemma_value_negated;
use crate::binary32::value::mag;
use crate::binary32::value::modest;
use crate::binary32::value::near;
use crate::binary32::value::ratio;
use crate::binary32::value::tiny;
use crate::binary32::value::value;
use crate::components::Node;
use crate::fields::coupled;
use crate::fields::drag_forces;
use crate::fields::FieldSample;
use crate::fields::Push;
use crate::fields::DRAG_COEFFICIENT;
use vstd::arithmetic::power2::lemma2_to64;
use vstd::prelude::*;

verus! {

/// The force that holds a part of a motion back: against it, and 0.35 times the
/// motion, the kinetic field and the mass, up to rounding.
#[verifier::opaque]
pub open spec fn holds_back(
    force: Binary32,
    motion: Binary32,
    kinetic: Binary32,
    mass: Binary32,
) -> bool {
    &&& !force.nan()
    &&& motion.units() >= 0 ==> force.units() <= 0
    &&& motion.units() <= 0 ==> force.units() >= 0
    &&& modest(motion) && modest(kinetic) && modest(mass) ==> near(
        force,
        -(ratio(35, 100) * value(motion) * value(kinetic) * value(mass)),
        8,
        (4 as real * value(mass) + 1 as real) * tiny(),
    )
}

/// Drag opposes motion: each node with matter and tags gets one push, against
/// each part of its velocity and in proportion to the motion, to the kinetic
/// field where it is and to its mass; and no other push is made.
pub proof fn lemma_drag_opposes_motion(nodes: Seq<Node>, fields: Seq<FieldSample>)
    requires
        fields.len() == nodes.len(),
        forall|i: int|
            0 <= i < nodes.len() && #[trigger] coupled(nodes[i]) ==> {
                &&& nodes[i].motion().finite()
                &&& nodes[i].physical->0.mass.finite() && nodes[i].physical->0.mass.units() > 0
                &&& fields[i].kinetic.finite() && fields[i].kinetic.units() >= 0
            },
    ensures
        forall|i: int|
            0 <= i < nodes.len() && nodes[i].physical is Some && nodes[i].tags is Some ==> exists|
                k: int,
            |
                0 <= k < drag_forces(nodes, fields).len() && dragged(
                    #[trigger] drag_forces(nodes, fields)[k],
                    #[trigger] nodes[i],
                    fields[i],
                ),
        forall|k: int|
            0 <= k < drag_forces(nodes, fields).len() ==> exists|i: int|
                0 <= i < nodes.len() && dragged(
                    #[trigger] drag_forces(nodes, fields)[k],
                    #[trigger] nodes[i],
                    fields[i],
                ),
    decreases nodes.len(),
{
    if nodes.len() > 0 {
        let n = nodes.len() - 1;
        let before = nodes.drop_last();
        let less = fields.take(n);
        let old_pushes = drag_forces(before, less);
        lemma_drag_needs_no_more(before, fields, less);
        let pushes = drag_forces(nodes, fields);
        assert forall|i: int| 0 <= i < before.len() && #[trigger] coupled(before[i]) implies {
            &&& before[i].motion().finite()
            &&& before[i].physical->0.mass.finite() && before[i].physical->0.mass.units() > 0
            &&& less[i].kinetic.finite() && less[i].kinetic.units() >= 0
        } by {
            assert(coupled(nodes[i]));
        }
        lemma_drag_opposes_motion(before, less);
        if coupled(nodes[n]) {
            let p = nodes[n].physical->0;
            let v = nodes[n].motion();
            lemma_drag_part(v.x, fields[n].kinetic, p.mass);
            lemma_drag_part(v.y, fields[n].kinetic, p.mass);
            assert(dragged(pushes[pushes.len() - 1], nodes[n], fields[n]));
        }
        assert forall|i: int|
            0 <= i < nodes.len() && nodes[i].physical is Some
                && nodes[i].tags is Some implies exists|k: int|
            0 <= k < pushes.len() && dragged(
                #[trigger] pushes[k],
                #[trigger] nodes[i],
                fields[i],
            ) by {
            if i < n {
                assert(before[i] == nodes[i]);
                let k = choose|k: int|
                    0 <= k < old_pushes.len() && dragged(
                        #[trigger] old_pushes[k],
                        #[trigger] before[i],
                        less[i],
                    );
                assert(pushes[k] == old_pushes[k]);
            }
        }
        assert forall|k: int| 0 <= k < pushes.len() implies exists|i: int|
            0 <= i < nodes.len() && dragged(
                #[trigger] pushes[k],
                #[trigger] nodes[i],
                fields[i],
            ) by {
            if k < old_pushes.len() {
                assert(pushes[k] == old_pushes[k]);
                let i = choose|i: int|
                    0 <= i < before.len() && dragged(
                        #[trigger] old_pushes[k],
                        #[trigger] before[i],
                        less[i],
                    );
                assert(before[i] == nodes[i]);
            }
        }
    }
}

/// The push is the drag on the node, and on no other.
pub open spec fn dragged(push: Push, node: Node, field: FieldSample) -> bool {
    &&& node.physical is Some && node.tags is Some
    &&& push.entity == node.entity
    &&& holds_back(push.force.x, node.motion().x, field.kinetic, node.physical->0.mass)
    &&& holds_back(push.force.y, node.motion().y, field.kinetic, node.physical->0.mass)
}

/// The drag on nodes depends on their own fields only.
proof fn lemma_drag_needs_no_more(nodes: Seq<Node>, a: Seq<FieldSample>, b: Seq<FieldSample>)
    requires
        a.len() >= nodes.len(),
        b.len() >= nodes.len(),
        forall|i: int| 0 <= i < nodes.len() ==> a[i] == b[i],
    ensures
        drag_forces(nodes, a) == drag_forces(nodes, b),
    decreases nodes.len(),
{
    if nodes.len() > 0 {
        lemma_drag_needs_no_more(nodes.drop_last(), a, b);
    }
}

/// The coefficient of drag.
proof fn lemma_drag_coefficient()
    ensures
        near(num(DRAG_COEFFICIENT), ratio(35, 100), 1, 0 as real),
        num(DRAG_COEFFICIENT).units() > 0,
{
    lemma2_to64();
    lemma_decimal(DRAG_COEFFICIENT, 0xb3_3333, 124, 35, 100);
}

/// One part of a drag.
proof fn lemma_drag_part(v: Binary32, k: Binary32, m: Binary32)
    requires
        v.finite(),
        k.finite(),
        m.finite(),
        k.units() >= 0,
        m.units() > 0,
    ensures
        holds_back(v.negated().times(k).times(num(DRAG_COEFFICIENT)).times(m), v, k, m),
{
    reveal(holds_back);
    let c = num(DRAG_COEFFICIENT);
    lemma_drag_coefficient();
    lemma_tiny();
    let a = v.negated();
    lemma_value_negated(v);
    assert(a.units() == -v.units());
    let b = a.times(k);
    let d = b.times(c);
    let f = d.times(m);
    lemma_no_nan(a, k);
    lemma_no_nan(b, c);
    lemma_no_nan(d, m);
    lemma_product_sign(a, k);
    lemma_product_sign(b, c);
    lemma_product_sign(d, m);
    crate::binary32::value::lemma_value_sign(m);
    lemma_large();
    if modest(v) && modest(k) && modest(m) {
        let (x, y, z) = (value(a), value(k), value(m));
        let q = ratio(35, 100);
        let (t, o) = (tiny(), 0 as real);
        lemma_modest_fits(a, k);
        lemma_near_self(a);
        lemma_near_self(k);
        lemma_near_self(m);
        lemma_near_product(a, k, x, y, 0, 0, o, o);
        assert(2 as real * (o * mag(y) + o * mag(x) + o * o) + t == t) by (nonlinear_arith)
            requires
                o == 0 as real,
        ;
        let h = 0x4000_0000 as real;
        lemma_near_bounds(b, x * y, 2, t, h * h);
        lemma_near_bounds(c, q, 1, o, 1 as real);
        lemma_product_within(value(b), value(c), 2 as real * h * h, 2 as real);
        lemma_times_fits(b, c);
        lemma_near_product(b, c, x * y, q, 2, 1, t, o);
        assert(2 as real * (t * mag(q) + o * mag(x * y) + t * o) + t <= 2 as real * t)
            by (nonlinear_arith)
            requires
                o == 0 as real,
                mag(q) == q,
                q == 35 as real / 100 as real,
                t >= 0 as real,
        ;
        lemma_near_widens(
            d,
            x * y * q,
            5,
            2 as real * (t * mag(q) + o * mag(x * y) + t * o) + t,
            5,
            2 as real * t,
        );
        lemma_mag_product(x * y, q);
        assert(mag(x * y) * mag(q) <= h * h) by (nonlinear_arith)
            requires
                mag(x * y) <= h * h,
                mag(x * y) >= 0 as real,
                mag(q) == q,
                q == 35 as real / 100 as real,
        ;
        lemma_near_bounds(d, x * y * q, 5, 2 as real * t, h * h);
        lemma_product_within(value(d), value(m), 2 as real * h * h, h);
        lemma_times_fits(d, m);
        lemma_near_product(d, m, x * y * q, z, 5, 0, 2 as real * t, o);
        let s = 2 as real * (2 as real * t * mag(z) + o * mag(x * y * q) + 2 as real * t * o) + t;
        assert(s == (4 as real * z + 1 as real) * t) by (nonlinear_arith)
            requires
                o == 0 as real,
                mag(z) == z,
                s == 2 as real * (2 as real * t * mag(z) + o * mag(x * y * q) + 2 as real * t * o)
                    + t,
        ;
        let w = value(v);
        assert(x * y * q * z == -(q * w * y * z)) by (nonlinear_arith)
            requires
                x == -w,
        ;
        lemma_near_widens(f, x * y * q * z, 7, s, 8, s);
    }
}

/// A product of numbers, one of which is finite and not zero or both finite.
proof fn lemma_no_nan(a: Binary32, b: Binary32)
    requires
        !a.nan(),
        b.finite(),
        a.finite() || b.units() != 0,
    ensures
        !a.times(b).nan(),
{
    crate::binary32::bounds::lemma_sign_of_units(b);
    vstd::arithmetic::power2::lemma_pow2_pos(149);
    crate::binary32::bounds::lemma_signed(
        a.negative() != b.negative(),
        crate::binary32::model::INFINITY_BITS as nat,
    );
    if !a.infinite() {
        let n = a.size() * b.size();
        crate::binary32::model::lemma_rounded_nearest(n, vstd::arithmetic::power2::pow2(149));
        crate::binary32::bounds::lemma_signed(
            a.negative() != b.negative(),
            crate::binary32::model::rounded(n, vstd::arithmetic::power2::pow2(149)),
        );
    }
}

} // verus!
