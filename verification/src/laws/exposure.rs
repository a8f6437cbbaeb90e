//! What shelters a node from heat, and what heat flags.

use crate::binary32::order::num;
use crate::binary32::value::lemma_decimal;
use crate::binary32::value::lemma_value_order;
use crate::binary32::value::lemma_value_zero;
use crate::binary32::value::ratio;
use crate::binary32::value::value;
use crate::components::node_of;
use crate::components::Node;
use crate::economy::drain_queues;
use crate::economy::drained;
use crate::economy::drained_table;
use crate::economy::drains;
use crate::economy::shelter_exposure_factor_spec;
use crate::economy::shelters;
use crate::economy::SHELTERED;
use crate::economy::SHELTER_RADIUS;
use crate::economy::SHELTER_RADIUS_SQUARED;
use crate::fields::FieldSampler;
use crate::fields::Noise;
use crate::fragmentation::can_fragment;
use crate::fragmentation::Fracture;
use crate::interface::vector::ONE;
use crate::laws::births::lemma_whole_ratio;
use crate::spatial_hash::SpatialHash;
use crate::tags::SHELTER;
use vstd::arithmetic::power2::lemma2_to64;
use vstd::prelude::*;

verus! {

/// The other node is a shelter beside the node: its distance squared is at most
/// 6.25.
pub open spec fn is_beside(nodes: Seq<Node>, node: Node, other: u64) -> bool {
    &&& other != node.entity
    &&& node_of(nodes, other) is Some
    &&& node_of(nodes, other)->0.tagged(SHELTER)
    &&& value(node_of(nodes, other)->0.position.distance_squared(node.position)) <= ratio(625, 100)
}

/// A shelter beside a node keeps three quarters of the heat off it, and nothing else
/// does.
pub proof fn lemma_shelter_quarters_the_heat(nodes: Seq<Node>, hash: SpatialHash, node: Node)
    requires
        forall|k: int|
            0 <= k < nodes.len() ==> (#[trigger] nodes[k]).position.distance_squared(
                node.position,
            ).finite(),
    ensures
        ({
            let listed = hash.found(node.position, num(SHELTER_RADIUS));
            let factor = shelter_exposure_factor_spec(nodes, hash, node);
            &&& factor.finite()
            &&& (exists|j: int|
                0 <= j < listed.len() && is_beside(nodes, node, #[trigger] listed[j])) ==> value(
                factor,
            ) == ratio(1, 4)
            &&& (forall|j: int|
                0 <= j < listed.len() ==> !is_beside(nodes, node, #[trigger] listed[j])) ==> value(
                factor,
            ) == 1 as real
        }),
{
    lemma2_to64();
    lemma_decimal(SHELTERED, 0x80_0000, 124, 1, 4);
    lemma_decimal(ONE, 0x80_0000, 126, 1, 1);
    lemma_decimal(SHELTER_RADIUS_SQUARED, 0xc8_0000, 128, 625, 100);
    lemma_whole_ratio(1);
    let listed = hash.found(node.position, num(SHELTER_RADIUS));
    assert forall|j: int| 0 <= j < listed.len() implies shelters(
        nodes,
        node,
        #[trigger] listed[j],
    ) == is_beside(nodes, node, listed[j]) by {
        crate::components::lemma_place(nodes, listed[j]);
        if node_of(nodes, listed[j]) is Some {
            let o = node_of(nodes, listed[j])->0;
            lemma_value_order(
                o.position.distance_squared(node.position),
                num(SHELTER_RADIUS_SQUARED),
            );
        }
    }
}

/// Heat reaches every node that lives and has matter, each with the field where it
/// is and under its own shelter; all others stay as they are.
pub proof fn lemma_heat_reaches_every_node(
    nodes: Seq<Node>,
    hash: SpatialHash,
    sampler: FieldSampler,
    noise: Seq<Noise>,
    i: int,
)
    requires
        0 <= i < nodes.len(),
    ensures
        ({
            let after = drained_table(nodes, hash, sampler, noise);
            let n = nodes[i];
            &&& after.len() == nodes.len()
            &&& !n.dead && n.conductivity is Some && n.tags is Some && n.yield_thresh is Some
                && n.physical is Some && n.ledger is Some ==> after[i] == drained(
                n,
                sampler.sample(noise[i]),
                shelter_exposure_factor_spec(nodes, hash, n),
            )
            &&& n.dead || n.physical is None ==> after[i] == n
        }),
{
}

/// A node whose energy is gone is flagged to die, and one whose structure is gone
/// while it has energy, and is large enough to break, is flagged to break.
pub proof fn lemma_heat_flags_the_spent(
    after: Seq<Node>,
    fragments: Seq<Fracture>,
    deaths: Seq<u64>,
    n: nat,
    i: int,
)
    requires
        0 <= i < n <= after.len(),
        drains(after[i]),
        after[i].physical->0.energy.finite(),
        after[i].physical->0.structure.finite(),
    ensures
        ({
            let (f, d) = drain_queues(after, fragments, deaths, n);
            let p = after[i].physical->0;
            let breaks = value(p.structure) <= 0 as real && value(p.energy) > 0 as real
                && can_fragment(p, after[i].yield_thresh->Some_0);
            &&& breaks ==> exists|k: int|
                0 <= k < f.len() && (#[trigger] f[k]).victim == after[i].entity && f[k].killer is None
            &&& value(p.energy) <= 0 as real ==> d.contains(after[i].entity)
        }),
    decreases n,
{
    lemma_value_zero();
    let p = after[i].physical->0;
    lemma_value_order(p.structure, num(0));
    lemma_value_order(num(0), p.energy);
    lemma_value_order(p.energy, num(0));
    let (f, d) = drain_queues(after, fragments, deaths, n);
    let (g, e) = drain_queues(after, fragments, deaths, (n - 1) as nat);
    if i < n - 1 {
        lemma_heat_flags_the_spent(after, fragments, deaths, (n - 1) as nat, i);
        let breaks = value(p.structure) <= 0 as real && value(p.energy) > 0 as real
            && can_fragment(p, after[i].yield_thresh->Some_0);
        if breaks {
            let k = choose|k: int|
                0 <= k < g.len() && (#[trigger] g[k]).victim == after[i].entity
                    && g[k].killer is None;
            assert(f[k] == g[k]);
        }
        if value(p.energy) <= 0 as real {
            let k = choose|k: int| 0 <= k < e.len() && e[k] == after[i].entity;
            assert(d[k] == e[k]);
        }
    } else {
        if value(p.structure) <= 0 as real && value(p.energy) > 0 as real && can_fragment(
            p,
            after[i].yield_thresh->Some_0,
        ) {
            assert(f[g.len() as int].victim == after[i].entity);
        }
        if value(p.energy) <= 0 as real && !e.contains(after[i].entity) {
            assert(d[e.len() as int] == after[i].entity);
        }
    }
}

/// Nothing is flagged but for cause: what the drain adds to the queues is a node of
/// the table whose energy or structure is gone.
pub proof fn lemma_heat_flags_for_cause(
    after: Seq<Node>,
    fragments: Seq<Fracture>,
    deaths: Seq<u64>,
    n: nat,
)
    requires
        n <= after.len(),
    ensures
        ({
            let (f, d) = drain_queues(after, fragments, deaths, n);
            &&& f.len() >= fragments.len()
            &&& d.len() >= deaths.len()
            &&& forall|k: int|
                #![trigger f[k]]
                fragments.len() <= k < f.len() ==> exists|i: int|
                    0 <= i < n && (#[trigger] after[i]).entity == f[k].victim && drains(after[i])
                        && after[i].physical->0.structure.le(num(0)) && num(0).lt(
                        after[i].physical->0.energy,
                    )
            &&& forall|k: int|
                #![trigger d[k]]
                deaths.len() <= k < d.len() ==> exists|i: int|
                    0 <= i < n && (#[trigger] after[i]).entity == d[k] && drains(after[i])
                        && after[i].physical->0.energy.le(num(0))
        }),
    decreases n,
{
    if n > 0 {
        lemma_heat_flags_for_cause(after, fragments, deaths, (n - 1) as nat);
        let (f, d) = drain_queues(after, fragments, deaths, n);
        let (g, e) = drain_queues(after, fragments, deaths, (n - 1) as nat);
        assert forall|k: int|
            #![trigger f[k]]
            fragments.len() <= k < f.len() implies exists|i: int|
            0 <= i < n && (#[trigger] after[i]).entity == f[k].victim && drains(after[i])
                && after[i].physical->0.structure.le(num(0)) && num(0).lt(
                after[i].physical->0.energy,
            ) by {
            if k < g.len() {
                assert(f[k] == g[k]);
            } else {
                assert(after[n - 1].entity == f[k].victim);
            }
        }
        assert forall|k: int|
            #![trigger d[k]]
            deaths.len() <= k < d.len() implies exists|i: int|
            0 <= i < n && (#[trigger] after[i]).entity == d[k] && drains(after[i])
                && after[i].physical->0.energy.le(num(0)) by {
            if k < e.len() {
                assert(d[k] == e[k]);
            } else {
                assert(after[n - 1].entity == d[k]);
            }
        }
    }
}

} // verus!
