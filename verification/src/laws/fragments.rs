//! What breaks into what, as numbers.

use crate::binary32::convert::one_unit;
use crate::binary32::model::Binary32;
use crate::binary32::order::num;
use crate::binary32::shares::lemma_from_u32;
use crate::binary32::value::eps;
use crate::binary32::value::lemma_decimal;
use crate::binary32::value::lemma_large;
use crate::binary32::value::lemma_modest_fits;
use crate::binary32::value::lemma_near_bounds;
use crate::binary32::value::lemma_near_product;
use crate::binary32::value::lemma_near_quotient;
use crate::binary32::value::lemma_near_self;
use crate::binary32::value::lemma_plus_fits;
use crate::binary32::value::lemma_tiny;
use crate::binary32::value::lemma_value_order;
use crate::binary32::value::lemma_value_sign;
use crate::binary32::value::lemma_value_sum;
use crate::binary32::value::lemma_value_units;
use crate::binary32::value::mag;
use crate::binary32::value::modest;
use crate::binary32::value::near;
use crate::binary32::value::ratio;
use crate::binary32::value::tiny;
use crate::binary32::value::value;
use crate::components::node_of;
use crate::components::Node;
use crate::components::Physical;
use crate::components::Yield;
use crate::fragmentation::brood;
use crate::fragmentation::daughter;
use crate::fragmentation::fragmentable;
use crate::fragmentation::fragmented;
use crate::fragmentation::limited_count;
use crate::fragmentation::viable;
use crate::fragmentation::DaughterDraw;
use crate::fragmentation::Fracture;
use crate::fragmentation::MIN_MASS;
use crate::fragmentation::MIN_STRUCTURE;
use crate::fragmentation::SCATTER;
use crate::laws::climate::lemma_quotient_fits;
use crate::laws::heat::lemma_no_slack;
use crate::laws::heat::moved_by;
use vstd::arithmetic::power2::lemma2_to64;
use vstd::prelude::*;

verus! {

/// A small whole number stands for itself.
proof fn lemma_whole(n: u32)
    requires
        1 <= n <= 3,
    ensures
        Binary32::from_u32(n).finite(),
        Binary32::from_u32(n).units() > 0,
        value(Binary32::from_u32(n)) == n as real,
{
    lemma_from_u32(n);
    let k = Binary32::from_u32(n);
    lemma_value_units(k);
    let (x, u, m) = (value(k), one_unit() as real, n as real);
    let w = one_unit();
    assert((n * w) as real == n as real * w as real) by (nonlinear_arith);
    assert(x == m) by (nonlinear_arith)
        requires
            x * u == m * u,
            u > 0 as real,
    ;
    crate::binary32::bounds::lemma_one();
    assert(n * w > 0) by (nonlinear_arith)
        requires
            n >= 1,
            w > 0,
    ;
}

/// A number shared by a few.
proof fn lemma_part(x: Binary32, n: u32)
    requires
        modest(x),
        value(x) > 0 as real,
        1 <= n <= 3,
    ensures
        near(x.over(Binary32::from_u32(n)), value(x) / n as real, 1, tiny()),
{
    lemma_whole(n);
    let k = Binary32::from_u32(n);
    lemma_value_sign(x);
    let (a, m) = (value(x), n as real);
    assert(a <= a * m) by (nonlinear_arith)
        requires
            a > 0 as real,
            m >= 1 as real,
    ;
    lemma_quotient_fits(x, k, x);
    lemma_near_quotient(x, k);
}

/// A body breaks into so many only where each would have 0.05 of mass and 0.5 of
/// structure: it does with a little more than that, and not with a little less.
pub proof fn lemma_only_large_bodies_break(physical: Physical, threshold: Yield, n: u32)
    requires
        2 <= n <= 3,
        modest(physical.mass),
        value(physical.mass) > 0 as real,
        modest(threshold.0),
        value(threshold.0) > 0 as real,
    ensures
        value(physical.mass) / n as real >= ratio(51, 1000) && value(threshold.0) / n as real
            >= ratio(501, 1000) ==> viable(physical, threshold, n),
        value(physical.mass) / n as real <= ratio(49, 1000) || value(threshold.0) / n as real
            <= ratio(499, 1000) ==> !viable(physical, threshold, n),
{
    lemma_part(physical.mass, n);
    lemma_part(threshold.0, n);
    lemma2_to64();
    lemma_tiny();
    lemma_decimal(MIN_MASS, 0xcc_cccd, 121, 5, 100);
    lemma_decimal(MIN_STRUCTURE, 0x80_0000, 125, 1, 2);
    assert(ratio(5, 100) == 5 as real / 100 as real && ratio(1, 2) == 1 as real / 2 as real);
    assert(ratio(51, 1000) == 51 as real / 1000 as real && ratio(49, 1000) == 49 as real
        / 1000 as real);
    assert(ratio(501, 1000) == 501 as real / 1000 as real && ratio(499, 1000) == 499 as real
        / 1000 as real);
    let k = Binary32::from_u32(n);
    let (m, s) = (physical.mass.over(k), threshold.0.over(k));
    lemma_value_order(num(MIN_MASS), m);
    lemma_value_order(num(MIN_STRUCTURE), s);
    lemma_off_by_little(ratio(5, 100));
    lemma_off_by_little(value(physical.mass) / n as real);
    lemma_off_by_little(value(threshold.0) / n as real);
}

/// One rounding is little.
proof fn lemma_off_by_little(x: real)
    ensures
        1 as real * (eps() * mag(x)) <= mag(x) / 1000000 as real,
{
    let m = mag(x);
    assert(1 as real * (eps() * m) <= m / 1000000 as real) by (nonlinear_arith)
        requires
            m >= 0 as real,
            eps() == 1 as real / 0x100_0000 as real,
    ;
}

/// A body breaks into three where the roll says three and it is large enough, and
/// else into two.
pub proof fn lemma_two_or_three(physical: Physical, threshold: Yield, roll: i32)
    ensures
        limited_count(physical, threshold, roll) == 3 <==> roll == 3 && viable(
            physical,
            threshold,
            3,
        ),
        limited_count(physical, threshold, roll) == 2 || limited_count(physical, threshold, roll)
            == 3,
{
}

/// A daughter has its part of the threshold, as threshold and as structure, stands
/// 0.8 away from where the parent stood in the direction that was drawn, and is no
/// agent.
pub proof fn lemma_daughter_stands_apart(
    node: Node,
    share: Binary32,
    n: u32,
    i: u32,
    draw: DaughterDraw,
)
    requires
        fragmentable(node),
        2 <= n <= 3,
        modest(node.yield_thresh->Some_0.0),
        value(node.yield_thresh->Some_0.0) > 0 as real,
        modest(node.position.x),
        modest(node.position.y),
        modest(draw.direction.x),
        modest(draw.direction.y),
    ensures
        ({
            let d = daughter(node, share, n, i, draw);
            &&& near(
                d.physical->0.structure,
                value(node.yield_thresh->Some_0.0) / n as real,
                1,
                tiny(),
            )
            &&& d.yield_thresh is Some && d.yield_thresh->Some_0.0 == d.physical->0.structure
            &&& d.body_mass == Some(d.physical->0.mass)
            &&& d.marker is None && d.clamp is None && d.fabricate is None && !d.dead
            &&& set_apart(d.position.x, node.position.x, draw.direction.x)
            &&& set_apart(d.position.y, node.position.y, draw.direction.y)
        }),
{
    lemma_part(node.yield_thresh->Some_0.0, n);
    lemma_set_apart(node.position.x, draw.direction.x);
    lemma_set_apart(node.position.y, draw.direction.y);
}

/// One part of a place: 0.8 of the direction away.
pub open spec fn set_apart(after: Binary32, before: Binary32, direction: Binary32) -> bool {
    exists|step: Binary32| #[trigger]
        near(step, value(direction) * ratio(8, 10), 3, tiny()) && moved_by(
            after,
            value(before),
            value(step),
        )
}

/// One part of a place.
proof fn lemma_set_apart(before: Binary32, direction: Binary32)
    requires
        modest(before),
        modest(direction),
    ensures
        set_apart(before.plus(direction.times(num(SCATTER))), before, direction),
{
    lemma_tiny();
    lemma_large();
    lemma2_to64();
    lemma_decimal(SCATTER, 0xcc_cccd, 125, 8, 10);
    assert(ratio(8, 10) == 8 as real / 10 as real);
    let c = num(SCATTER);
    let (x, q, o) = (value(direction), ratio(8, 10), 0 as real);
    lemma_near_bounds(c, q, 1, o, 1 as real);
    lemma_modest_fits(direction, c);
    lemma_near_self(direction);
    lemma_near_product(direction, c, x, q, 0, 1, o, o);
    lemma_no_slack(x, q, tiny());
    let step = direction.times(c);
    assert(near(step, x * q, 3, tiny()));
    crate::binary32::value::lemma_product_within(x, q, 0x4000_0000 as real, 1 as real);
    lemma_near_bounds(step, x * q, 3, tiny(), 0x4000_0000 as real);
    lemma_plus_fits(before, step);
    lemma_value_sum(before, step);
}

/// Every flagged node that can be taken apart goes, and its daughters come, after
/// those of the ones before it; a flag on anything else does nothing.
pub proof fn lemma_the_flagged_go(
    nodes: Seq<Node>,
    queue: Seq<Fracture>,
    draws: Seq<Vec<DaughterDraw>>,
    n: nat,
)
    requires
        0 < n <= queue.len(),
    ensures
        ({
            let (gone, born) = fragmented(nodes, queue, draws, (n - 1) as nat);
            let (all_gone, all_born) = fragmented(nodes, queue, draws, n);
            let victim = node_of(nodes, queue[n - 1].victim);
            if victim is Some && victim->0.physical is Some && victim->0.tags is Some
                && victim->0.yield_thresh is Some && victim->0.node_rng is Some {
                &&& all_gone == gone.push(queue[n - 1].victim)
                &&& all_born == born + brood(victim->0, queue[n - 1].share, draws[n - 1]@)
            } else {
                all_gone == gone && all_born == born
            }
        }),
{
}

} // verus!
