//! What volatile traps release, and to whom, as numbers.

use crate::binary32::model::Binary32;
use crate::binary32::order::num;
use crate::binary32::value::lemma_decimal;
use crate::binary32::value::lemma_large;
use crate::binary32::value::lemma_modest_fits;
use crate::binary32::value::lemma_near_bounds;
use crate::binary32::value::lemma_near_product;
use crate::binary32::value::lemma_near_quotient;
use crate::binary32::value::lemma_near_self;
use crate::binary32::value::lemma_product_within;
use crate::binary32::value::lemma_times_fits;
use crate::binary32::value::lemma_tiny;
use crate::binary32::value::lemma_value_order;
use crate::binary32::value::lemma_value_sign;
use crate::binary32::value::lemma_value_zero;
use crate::binary32::value::mag;
use crate::binary32::value::modest;
use crate::binary32::value::near;
use crate::binary32::value::ratio;
use crate::binary32::value::tiny;
use crate::binary32::value::value;
use crate::components::lemma_place;
use crate::components::node_of;
use crate::components::place_of;
use crate::components::EnergyFlow;
use crate::components::Node;
use crate::economy::shared_out;
use crate::economy::trap_release;
use crate::economy::trap_target;
use crate::economy::trap_weight;
use crate::economy::TRAP_CLOSEST;
use crate::economy::VOLATILE_TRAP_DRAIN_FRACTION;
use crate::economy::VOLATILE_TRAP_RANGE_SQUARED;
use crate::interface::vector::Vec2Lite;
use crate::interface::vector::ONE;
use crate::laws::births::lemma_whole_ratio;
use crate::laws::climate::lemma_quotient_fits;
use crate::laws::energy::only_energy_differs;
use crate::laws::energy::solvent;
use crate::laws::heat::lemma_no_slack;
use crate::laws::heat::moved_by;
use crate::laws::vectors::is_length;
use crate::laws::vectors::lemma_length_value;
use crate::laws::vectors::modest_vector;
use crate::tags::AGENT;
use vstd::arithmetic::power2::lemma2_to64;
use vstd::prelude::*;

verus! {

/// A trap releases half of what it holds.
pub proof fn lemma_trap_releases_half(trap: Node)
    requires
        trap.physical is Some,
        modest(trap.physical->0.energy),
        value(trap.physical->0.energy) >= 0 as real,
    ensures
        near(trap_release(trap), value(trap.physical->0.energy) * ratio(1, 2), 2, tiny()),
{
    lemma_tiny();
    lemma2_to64();
    lemma_decimal(VOLATILE_TRAP_DRAIN_FRACTION, 0x80_0000, 125, 1, 2);
    assert(ratio(1, 2) == 1 as real / 2 as real);
    lemma_value_zero();
    let e = trap.physical->0.energy.max(num(0));
    lemma_value_order(trap.physical->0.energy, num(0));
    let h = num(VOLATILE_TRAP_DRAIN_FRACTION);
    lemma_modest_fits(e, h);
    lemma_near_self(e);
    lemma_near_self(h);
    lemma_near_product(e, h, value(e), ratio(1, 2), 0, 0, 0 as real, 0 as real);
    lemma_no_slack(value(e), ratio(1, 2), tiny());
}

/// The larger of a distance and a tenth.
pub open spec fn not_too_close(l: real, closest: real) -> real {
    if l < closest {
        closest
    } else {
        l
    }
}

/// The weight of a target is one over its distance, or over a tenth where it is
/// nearer: the closer, the more.
pub proof fn lemma_weight_falls_with_distance(target: Node, pos: Vec2Lite)
    requires
        modest_vector(target.position.minus(pos)),
        modest(target.position.distance(pos)),
    ensures
        ({
            let delta = target.position.minus(pos);
            let l = target.position.distance(pos);
            let closest = value(num(TRAP_CLOSEST));
            &&& is_length(l, value(delta.x), value(delta.y))
            &&& near(num(TRAP_CLOSEST), ratio(1, 10), 1, 0 as real)
            &&& near(
                trap_weight(target, pos),
                1 as real / not_too_close(value(l), closest),
                1,
                tiny(),
            )
        }),
{
    lemma_length_value(target.position.minus(pos));
    let l = target.position.distance(pos);
    lemma2_to64();
    lemma_decimal(TRAP_CLOSEST, 0xcc_cccd, 122, 1, 10);
    lemma_decimal(ONE, 0x80_0000, 126, 1, 1);
    lemma_decimal(0x4180_0000, 0x80_0000, 130, 16, 1);
    lemma_whole_ratio(1);
    lemma_whole_ratio(16);
    let c = num(TRAP_CLOSEST);
    let q = ratio(1, 10);
    assert(q == 1 as real / 10 as real);
    let e = crate::binary32::value::eps();
    assert(1 as real * (e * mag(q)) + 0 as real <= 1 as real / 1000 as real) by (nonlinear_arith)
        requires
            mag(q) == q,
            q == 1 as real / 10 as real,
            e == 1 as real / 0x100_0000 as real,
    ;
    lemma_value_order(l, c);
    let g = l.max(c);
    lemma_value_sign(g);
    lemma_quotient_fits(num(ONE), g, num(0x4180_0000));
    lemma_near_quotient(num(ONE), g);
}

/// The targets of a trap are the agents whose distance squared is at most 64, and
/// never the trap itself.
pub proof fn lemma_targets_are_agents_within_eight(
    nodes: Seq<Node>,
    trap: u64,
    pos: Vec2Lite,
    other: u64,
)
    requires
        node_of(nodes, other) matches Some(o) ==> o.position.distance_squared(pos).finite(),
    ensures
        trap_target(nodes, trap, pos, other) <==> {
            &&& other != trap
            &&& node_of(nodes, other) is Some
            &&& node_of(nodes, other)->0.tagged(AGENT)
            &&& value(node_of(nodes, other)->0.position.distance_squared(pos)) <= 64 as real
        },
{
    lemma2_to64();
    lemma_decimal(VOLATILE_TRAP_RANGE_SQUARED, 0x80_0000, 132, 64, 1);
    lemma_whole_ratio(64);
    if node_of(nodes, other) is Some {
        let o = node_of(nodes, other)->0;
        lemma_value_order(num(VOLATILE_TRAP_RANGE_SQUARED), o.position.distance_squared(pos));
    }
}

/// The share of a target: of what was released, the part that its weight is of all.
pub open spec fn is_share(share: Binary32, released: real, weight: real, total: real) -> bool {
    near(share, released * (weight / total), 3, (2 as real * mag(released) + 1 as real) * tiny())
}

/// Each target gets its share by weight, and no other node changes.
pub proof fn lemma_shares_follow_the_weights(
    nodes: Seq<Node>,
    weights: Seq<(u64, Binary32)>,
    released: Binary32,
    total: Binary32,
    n: nat,
    i: int,
)
    requires
        0 < n <= weights.len(),
        modest(released),
        value(released) >= 1 as real,
        weights[n - 1].1.finite(),
        value(weights[n - 1].1) >= ratio(1, 1000),
        total.finite(),
        value(weights[n - 1].1) <= value(total) <= 1000000 as real,
        ({
            let before = shared_out(nodes, weights, released, total, (n - 1) as nat);
            &&& place_of(before, weights[n - 1].0) == Some(i)
            &&& solvent(before[i])
            &&& modest(before[i].physical->0.energy)
        }),
    ensures
        ({
            let before = shared_out(nodes, weights, released, total, (n - 1) as nat);
            let after = shared_out(nodes, weights, released, total, n);
            &&& after.len() == before.len()
            &&& forall|k: int| 0 <= k < before.len() && k != i ==> after[k] == before[k]
            &&& only_energy_differs(before[i], after[i])
            &&& exists|share: Binary32| #[trigger]
                is_share(share, value(released), value(weights[n - 1].1), value(total))
                    && moved_by(
                    after[i].physical->0.energy,
                    value(before[i].physical->0.energy),
                    value(share),
                )
        }),
{
    let before = shared_out(nodes, weights, released, total, (n - 1) as nat);
    let w = weights[n - 1].1;
    lemma_place(before, weights[n - 1].0);
    lemma_tiny();
    lemma_large();
    lemma2_to64();
    lemma_decimal(ONE, 0x80_0000, 126, 1, 1);
    lemma_whole_ratio(1);
    assert(ratio(1, 1000) == 1 as real / 1000 as real);
    lemma_value_sign(w);
    lemma_value_sign(total);
    let (x, y, r, t, o) = (value(w), value(total), value(released), tiny(), 0 as real);
    lemma_quotient_fits(w, total, num(ONE));
    lemma_near_quotient(w, total);
    let q = w.over(total);
    let z = x / y;
    assert(1 as real / 0x4000_0000 as real <= z && z <= 1 as real) by (nonlinear_arith)
        requires
            z == x / y,
            1 as real / 1000 as real <= x,
            x <= y,
            y <= 1000000 as real,
    ;
    lemma_near_bounds(q, z, 1, t, 1 as real);
    lemma_product_within(r, value(q), 0x4000_0000 as real, 2 as real);
    lemma_times_fits(released, q);
    lemma_near_self(released);
    lemma_near_product(released, q, r, z, 0, 1, o, t);
    let share = released.times(q);
    let k = 2 as real * (o * mag(z) + t * mag(r) + o * t) + t;
    assert(k == (2 as real * mag(r) + 1 as real) * t) by (nonlinear_arith)
        requires
            k == 2 as real * (o * mag(z) + t * mag(r) + o * t) + t,
            o == 0 as real,
    ;
    assert(is_share(share, r, x, y));
    let e = crate::binary32::value::eps();
    assert(1 as real * (e * mag(z)) + t <= z / 2 as real) by (nonlinear_arith)
        requires
            mag(z) == z,
            z >= 1 as real / 0x4000_0000 as real,
            e == 1 as real / 0x100_0000 as real,
            t <= 1 as real / 0x1_0000_0000_0000 as real,
    ;
    crate::binary32::value::lemma_value_product(released, q);
    lemma_share_positive(share, r, value(q), z);
    lemma_value_sign(share);
    lemma_credit_of_share(before[i], share);
}

/// A share of at least one part in two thousand million is more than nothing.
proof fn lemma_share_positive(share: Binary32, r: real, q: real, z: real)
    requires
        share.finite(),
        mag(value(share) - r * q) <= crate::binary32::value::eps() * mag(r * q) + tiny(),
        r >= 1 as real,
        r <= 0x4000_0000 as real,
        q >= z / 2 as real,
        z >= 1 as real / 0x4000_0000 as real,
        q <= 2 as real,
    ensures
        value(share) > 0 as real,
        value(share) <= 0x1_0000_0000 as real,
{
    lemma_tiny();
    let p = r * q;
    assert(p >= q) by (nonlinear_arith)
        requires
            p == r * q,
            r >= 1 as real,
            q >= 0 as real,
    ;
    assert(p <= 0x8000_0000 as real) by (nonlinear_arith)
        requires
            p == r * q,
            0 as real <= r <= 0x4000_0000 as real,
            0 as real <= q <= 2 as real,
    ;
    let e = crate::binary32::value::eps();
    assert(e * mag(p) <= p / 4 as real) by (nonlinear_arith)
        requires
            mag(p) == p,
            p >= 0 as real,
            e == 1 as real / 0x100_0000 as real,
    ;
}

/// A share, credited.
proof fn lemma_credit_of_share(node: Node, share: Binary32)
    requires
        solvent(node),
        modest(node.physical->0.energy),
        share.finite(),
        share.units() > 0,
        value(share) <= 0x1_0000_0000 as real,
    ensures
        ({
            let after = node.credited(EnergyFlow::Harvested, share);
            &&& only_energy_differs(node, after)
            &&& moved_by(
                after.physical->0.energy,
                value(node.physical->0.energy),
                value(share),
            )
        }),
{
    lemma_large();
    lemma_value_sign(share);
    crate::components::lemma_amount_valid(share);
    crate::binary32::value::lemma_plus_fits(node.physical->0.energy, share);
    crate::binary32::value::lemma_value_sum(node.physical->0.energy, share);
}

} // verus!
