//! What contacts do to matter, as numbers.

use crate::binary32::model::Binary32;
use crate::binary32::order::num;
use crate::binary32::value::eps;
use crate::binary32::value::lemma_decimal;
use crate::binary32::value::lemma_large;
use crate::binary32::value::lemma_modest_fits;
use crate::binary32::value::lemma_near_product;
use crate::binary32::value::lemma_near_self;
use crate::binary32::value::lemma_plus_fits;
use crate::binary32::value::lemma_product_within;
use crate::binary32::value::lemma_sum_at_most;
use crate::binary32::value::lemma_times_fits;
use crate::binary32::value::lemma_tiny;
use crate::binary32::value::lemma_value_minus;
use crate::binary32::value::lemma_value_negated;
use crate::binary32::value::lemma_value_order;
use crate::binary32::value::lemma_value_product;
use crate::binary32::value::lemma_value_sign;
use crate::binary32::value::lemma_value_sum;
use crate::binary32::value::lemma_value_zero;
use crate::binary32::value::mag;
use crate::binary32::value::modest;
use crate::binary32::value::near;
use crate::binary32::value::ratio;
use crate::binary32::value::tiny;
use crate::binary32::value::value;
use crate::components::lemma_place;
use crate::components::lemma_place_same;
use crate::components::node_of;
use crate::components::place_of;
use crate::components::Node;
use crate::components::Physical;
use crate::fragmentation::battered;
use crate::fragmentation::hit;
use crate::fragmentation::rested;
use crate::fragmentation::Contact;
use crate::fragmentation::Fracture;
use crate::fragmentation::DAMAGE_SCALE;
use crate::fragmentation::STRESS_FLOOR;
use crate::fragmentation::STRESS_RETENTION;
use crate::interface::observation::HALF;
use crate::tags::AGENT;
use vstd::arithmetic::power2::lemma2_to64;
use vstd::arithmetic::power2::lemma_pow2_adds;
use vstd::prelude::*;

verus! {

/// A node that can be damaged, with numbers of everyday size.
pub open spec fn sound(node: Node) -> bool {
    &&& node.physical is Some && node.yield_thresh is Some && node.impulse is Some
    &&& modest(node.impulse->0.value)
    &&& modest(node.yield_thresh->Some_0.0)
    &&& modest(node.physical->0.structure)
}

/// The stress on a node and an impulse, together.
pub open spec fn load(node: Node, impulse: Binary32) -> real {
    value(node.impulse->0.value) + value(impulse)
}

/// How far rounding can put the damage off.
pub open spec fn damage_error(node: Node, impulse: Binary32) -> real {
    2 as real * (eps() * (mag(value(node.impulse->0.value)) + mag(value(impulse)) + mag(
        value(node.yield_thresh->Some_0.0),
    ) + mag(value(node.physical->0.structure)))) + 2 as real * tiny()
}

/// What an impulse does to a node. Up to the threshold it adds to the stress and
/// does no damage. Beyond it the structure falls by a quarter of the excess, and
/// half of the threshold stays as stress. The source is kept, and nothing else of
/// the node changes.
pub open spec fn worn(before: Node, after: Node, source: u64, impulse: Binary32) -> bool {
    let threshold = value(before.yield_thresh->Some_0.0);
    let loss = value(before.physical->0.structure) - value(after.physical->0.structure);
    let total = load(before, impulse);
    &&& after == (Node { physical: after.physical, impulse: after.impulse, ..before })
    &&& after.physical is Some && after.impulse is Some
    &&& after.physical->0 == (Physical {
        structure: after.physical->0.structure,
        ..before.physical->0
    })
    &&& after.impulse->0.source == Some(source)
    &&& after.physical->0.structure.finite()
    &&& total <= threshold ==> {
        &&& after.physical == before.physical
        &&& mag(value(after.impulse->0.value) - total) <= eps() * mag(total)
    }
    &&& total > threshold ==> mag(loss - (total - threshold) / 4 as real) <= damage_error(
        before,
        impulse,
    )
    &&& total > threshold + eps() * mag(total) ==> near(
        after.impulse->0.value,
        threshold / 2 as real,
        2,
        tiny(),
    )
}

/// What is entered of a node that broke: the victim, and the killer where an agent
/// struck, which is owed half of the energy.
pub open spec fn entered(nodes: Seq<Node>, f: Fracture, victim: Node, source: u64) -> bool {
    let agent = node_of(nodes, source) is Some && node_of(nodes, source)->0.tagged(AGENT);
    &&& f.victim == victim.entity
    &&& agent ==> f.killer == Some(source) && (modest(victim.physical->0.energy) ==> near(
        f.share,
        value(victim.physical->0.energy) / 2 as real,
        2,
        tiny(),
    ))
    &&& !agent ==> f.killer is None && value(f.share) == 0 as real
}

/// A blow wears its victim, and no other node. It breaks the victim only where the
/// excess over the threshold, a quarter of it, is as much as the structure: then
/// the structure is gone and the node is entered once, if it has energy. A node
/// with more structure than that keeps some, and is not entered.
pub proof fn lemma_blow_wears_the_victim(
    nodes: Seq<Node>,
    queue: Seq<Fracture>,
    victim: u64,
    source: u64,
    impulse: Binary32,
    i: int,
)
    requires
        place_of(nodes, victim) == Some(i),
        sound(nodes[i]),
        modest(impulse),
    ensures
        ({
            let (after, flags) = hit(nodes, queue, victim, source, impulse);
            let structure = value(nodes[i].physical->0.structure);
            let excess = load(nodes[i], impulse) - value(nodes[i].yield_thresh->Some_0.0);
            let off = damage_error(nodes[i], impulse);
            &&& after.len() == nodes.len()
            &&& forall|k: int| 0 <= k < nodes.len() && k != i ==> after[k] == nodes[k]
            &&& worn(nodes[i], after[i], source, impulse)
            &&& excess <= 0 as real ==> flags == queue
            &&& structure > excess / 4 as real + off && excess > 0 as real ==> {
                &&& value(after[i].physical->0.structure) > 0 as real
                &&& flags == queue
            }
            &&& flags != queue ==> {
                &&& value(after[i].physical->0.structure) <= 0 as real
                &&& flags.len() == queue.len() + 1 && flags.drop_last() == queue
                &&& entered(nodes, flags.last(), nodes[i], source)
                &&& forall|k: int| 0 <= k < queue.len() ==> queue[k].victim != nodes[i].entity
            }
            &&& structure + off < excess / 4 as real && excess > eps() * mag(
                load(nodes[i], impulse),
            ) && nodes[i].physical->0.energy.finite() && nodes[i].physical->0.energy.units() > 0
                ==> exists|k: int|
                0 <= k < flags.len() && (#[trigger] flags[k]).victim == nodes[i].entity
        }),
{
    lemma_place(nodes, victim);
    let node = nodes[i];
    lemma_struck(node, source, impulse);
    lemma_struck(node, 0, impulse);
    lemma_value_zero();
    let (after, flags) = hit(nodes, queue, victim, source, impulse);
    let left = after[i].physical->0.structure;
    lemma_value_order(left, num(0));
    lemma_value_sign(left);
    lemma_value_sign(node.physical->0.energy);
    lemma_sum_against(node.impulse->0.value, impulse, node.yield_thresh->Some_0.0);
    assert(crate::binary32::model::grid(0) == 0);
    lemma_place_same(nodes, after, source);
    lemma_place(nodes, source);
    if flags != queue {
        let e = node.physical->0.energy;
        if modest(e) {
            lemma_half(e);
        }
        assert(flags.drop_last() =~= queue);
    }
}

/// A sum against a bound: where it is at most the bound it is rounded to at most
/// that, and where it is above by more than a rounding it stays above.
proof fn lemma_sum_against(a: Binary32, b: Binary32, t: Binary32)
    requires
        modest(a),
        modest(b),
        modest(t),
    ensures
        a.plus(b).finite(),
        value(a) + value(b) <= value(t) ==> a.plus(b).le(t),
        value(a) + value(b) > value(t) + eps() * mag(value(a) + value(b)) ==> !a.plus(b).le(t),
        a.plus(b).le(t) <==> value(a.plus(b)) <= value(t),
{
    lemma_modest_fits(a, b);
    lemma_value_sum(a, b);
    lemma_value_order(a.plus(b), t);
    lemma_large();
    if value(a) + value(b) <= value(t) {
        lemma_sum_at_most(a, b, t);
    }
}

/// Half of a number.
proof fn lemma_half(x: Binary32)
    requires
        modest(x),
    ensures
        near(x.times(num(HALF)), value(x) / 2 as real, 2, tiny()),
{
    lemma2_to64();
    lemma_decimal(HALF, 0x80_0000, 125, 1, 2);
    lemma_near_self(x);
    lemma_near_self(num(HALF));
    lemma_modest_fits(x, num(HALF));
    let (a, b, o) = (value(x), ratio(1, 2), 0 as real);
    lemma_near_product(x, num(HALF), a, b, 0, 0, o, o);
    assert(2 as real * (o * mag(b) + o * mag(a) + o * o) + tiny() == tiny()) by (nonlinear_arith)
        requires
            o == 0 as real,
    ;
    assert(a * b == a / 2 as real) by (nonlinear_arith)
        requires
            b == 1 as real / 2 as real,
    ;
}

/// What an impulse does to a node.
proof fn lemma_struck(node: Node, source: u64, impulse: Binary32)
    requires
        sound(node),
        modest(impulse),
    ensures
        worn(node, crate::fragmentation::struck(node, source, impulse), source, impulse),
{
    let after = crate::fragmentation::struck(node, source, impulse);
    let (s, i) = (node.impulse->0.value, impulse);
    let t = node.yield_thresh->Some_0.0;
    let st = node.physical->0.structure;
    let f = s.plus(i);
    lemma_sum_against(s, i, t);
    lemma_value_sum(s, i);
    lemma_tiny();
    lemma_large();
    let total = load(node, impulse);
    let e = eps();
    assert(e * mag(total) >= 0 as real) by (nonlinear_arith)
        requires
            e > 0 as real,
            mag(total) >= 0 as real,
    ;
    let (a, b, c, d) = (mag(value(s)), mag(value(i)), mag(value(t)), mag(value(st)));
    assert(e * (a + b + c + d) >= e * mag(total)) by (nonlinear_arith)
        requires
            e > 0 as real,
            mag(total) <= a + b,
            c >= 0 as real,
            d >= 0 as real,
    ;
    if !f.le(t) {
        lemma_half(t);
        lemma_small_product(e, mag(total));
        lemma_value_negated(t);
        lemma_plus_fits(f, t.negated());
        let x = f.minus(t);
        lemma_value_minus(f, t);
        lemma2_to64();
        let q = num(DAMAGE_SCALE);
        lemma_decimal(DAMAGE_SCALE, 0x80_0000, 124, 1, 4);
        lemma_small_product(e, mag(value(f) - value(t)));
        lemma_product_within(value(x), value(q), 0x4_0000_0000 as real, 1 as real);
        lemma_times_fits(x, q);
        let w = x.times(q);
        lemma_value_product(x, q);
        let v = value(x) * value(q);
        assert(v == value(x) / 4 as real) by (nonlinear_arith)
            requires
                v == value(x) * value(q),
                value(q) == 1 as real / 4 as real,
        ;
        lemma_small_product(e, mag(v));
        lemma_value_negated(w);
        lemma_plus_fits(st, w.negated());
        lemma_value_minus(st, w);
        lemma_error_adds_up(
            e,
            value(s),
            value(i),
            value(t),
            value(st),
            value(f),
            value(x),
            value(w),
            value(st.minus(w)),
            tiny(),
        );
    }
}

/// A rounding of a number is less than the number.
proof fn lemma_small_product(e: real, m: real)
    requires
        e == eps(),
        m >= 0 as real,
    ensures
        0 as real <= e * m,
        e * m <= m,
{
    assert(0 as real <= e * m && e * m <= m) by (nonlinear_arith)
        requires
            e == 1 as real / 0x100_0000 as real,
            m >= 0 as real,
    ;
}

/// The errors of the four operations that make up a loss of structure.
proof fn lemma_error_adds_up(
    e: real,
    s: real,
    i: real,
    th: real,
    st: real,
    f: real,
    x: real,
    w: real,
    l: real,
    t: real,
)
    requires
        e == eps(),
        t >= 0 as real,
        mag(f - (s + i)) <= e * mag(s + i),
        mag(x - (f - th)) <= e * mag(f - th),
        mag(w - x / 4 as real) <= e * mag(x / 4 as real) + t,
        mag(l - (st - w)) <= e * mag(st - w),
    ensures
        mag((st - l) - (s + i - th) / 4 as real) <= 2 as real * (e * (mag(s) + mag(i) + mag(th)
            + mag(st))) + 2 as real * t,
{
    let (p, h, g) = (mag(s) + mag(i), mag(th), mag(st));
    let (x1, x2, x3, x4) = (
        mag(f - (s + i)),
        mag(x - (f - th)),
        mag(w - x / 4 as real),
        mag(l - (st - w)),
    );
    let (n1, n2, n3) = (mag(f - th), mag(x / 4 as real), mag(st - w));
    assert(mag(s + i) <= p);
    lemma_rounding_grows(e, mag(s + i), p);
    assert(n1 <= p + x1 + h) by {
        lemma_three(f - (s + i), s + i, -th);
    }
    assert(n2 <= (n1 + x2) / 4 as real) by {
        lemma_three(x - (f - th), f - th, 0 as real);
    }
    assert(n3 <= g + n2 + x3) by {
        lemma_three(st, -(x / 4 as real), -(w - x / 4 as real));
    }
    assert(mag((st - l) - (s + i - th) / 4 as real) <= x4 + x3 + x2 / 4 as real + x1 / 4 as real)
        by {
        let (d1, d2, d3, d4) = (f - (s + i), x - (f - th), w - x / 4 as real, l - (st - w));
        assert((st - l) - (s + i - th) / 4 as real == -d4 + d3 + (d2 + d1) / 4 as real);
        lemma_three(-d4, d3, (d2 + d1) / 4 as real);
        lemma_three(d2 / 4 as real, d1 / 4 as real, 0 as real);
    }
    lemma_errors_in_all(e, p, h, g, x1, x2, x3, x4, n1, n2, n3, t);
}

/// The size of a sum of three.
proof fn lemma_three(a: real, b: real, c: real)
    ensures
        mag(a + b + c) <= mag(a) + mag(b) + mag(c),
{
}

/// Errors that follow from one another, in all.
proof fn lemma_errors_in_all(
    e: real,
    p: real,
    h: real,
    g: real,
    x1: real,
    x2: real,
    x3: real,
    x4: real,
    n1: real,
    n2: real,
    n3: real,
    t: real,
)
    requires
        e == eps(),
        p >= 0 as real,
        h >= 0 as real,
        g >= 0 as real,
        t >= 0 as real,
        x1 <= e * p,
        n1 <= p + x1 + h,
        x2 <= e * n1,
        n2 <= (n1 + x2) / 4 as real,
        x3 <= e * n2 + t,
        n3 <= g + n2 + x3,
        x4 <= e * n3,
    ensures
        x4 + x3 + x2 / 4 as real + x1 / 4 as real <= 2 as real * (e * (p + h + g)) + 2 as real * t,
{
    let z = 1 as real / 0x100_0000 as real;
    assert(e * p == z * p && e * n1 == z * n1 && e * n2 == z * n2 && e * n3 == z * n3 && e * (p + h
        + g) == z * (p + h + g)) by (nonlinear_arith)
        requires
            e == z,
    ;
}

/// A rounding of more is more.
proof fn lemma_rounding_grows(e: real, a: real, b: real)
    requires
        e == eps(),
        a <= b,
    ensures
        e * a <= e * b,
{
    assert(e * a <= e * b) by (nonlinear_arith)
        requires
            e == 1 as real / 0x100_0000 as real,
            a <= b,
    ;
}

/// A contact acts both ways: each of the two is worn by the impulse of the other,
/// and no other node changes.
pub proof fn lemma_contact_acts_both_ways(
    nodes: Seq<Node>,
    queue: Seq<Fracture>,
    contacts: Seq<Contact>,
    n: nat,
    i: int,
    j: int,
)
    requires
        0 < n <= contacts.len(),
        ({
            let before = battered(nodes, queue, contacts, (n - 1) as nat).0;
            let c = contacts[n - 1];
            &&& place_of(before, c.first) == Some(i)
            &&& place_of(before, c.second) == Some(j)
            &&& i != j
            &&& sound(before[i])
            &&& sound(before[j])
            &&& modest(c.impulse)
            &&& value(c.impulse) > 0 as real
        }),
    ensures
        ({
            let before = battered(nodes, queue, contacts, (n - 1) as nat).0;
            let after = battered(nodes, queue, contacts, n).0;
            let c = contacts[n - 1];
            &&& after.len() == before.len()
            &&& worn(before[i], after[i], c.second, c.impulse)
            &&& worn(before[j], after[j], c.first, c.impulse)
            &&& forall|k: int| 0 <= k < before.len() && k != i && k != j ==> after[k] == before[k]
        }),
{
    let (before, flags) = battered(nodes, queue, contacts, (n - 1) as nat);
    let c = contacts[n - 1];
    lemma_value_sign(c.impulse);
    assert(crate::binary32::model::grid(0) == 0);
    let (mid, mid_flags) = hit(before, flags, c.first, c.second, c.impulse);
    lemma_blow_wears_the_victim(before, flags, c.first, c.second, c.impulse, i);
    lemma_place(before, c.first);
    lemma_place(before, c.second);
    lemma_place_same(before, mid, c.second);
    lemma_blow_wears_the_victim(mid, mid_flags, c.second, c.first, c.impulse, j);
}

/// Stress fades: in each step 0.92 of it stays, and what is below 0.0001 goes,
/// with its source. Nothing else of the node changes.
pub proof fn lemma_stress_fades(node: Node)
    requires
        sound(node),
    ensures
        ({
            let after = rested(node);
            let kept = ratio(92, 100) * value(node.impulse->0.value);
            &&& after.impulse is Some
            &&& after == (Node { impulse: after.impulse, ..node })
            &&& kept > ratio(1001, 10000000) ==> {
                &&& near(after.impulse->0.value, kept, 3, tiny())
                &&& after.impulse->0.source == node.impulse->0.source
            }
            &&& kept < ratio(999, 10000000) ==> value(after.impulse->0.value) == 0 as real
                && after.impulse->0.source is None
        }),
{
    let s = node.impulse->0.value;
    let r = num(STRESS_RETENTION);
    lemma2_to64();
    lemma_decimal(STRESS_RETENTION, 0xeb_851f, 125, 92, 100);
    lemma_pow2_adds(32, 5);
    assert(ratio(92, 100) == 92 as real / 100 as real);
    lemma_decimal(STRESS_FLOOR, 0xd1_b717, 112, 1, 10000);
    lemma_tiny();
    lemma_value_zero();
    lemma_near_self(s);
    crate::binary32::value::lemma_near_bounds(r, ratio(92, 100), 1, 0 as real, 1 as real);
    lemma_modest_fits(s, r);
    let (x, y, o) = (value(s), ratio(92, 100), 0 as real);
    lemma_near_product(s, r, x, y, 0, 1, o, o);
    assert(2 as real * (o * mag(y) + o * mag(x) + o * o) + tiny() == tiny()) by (nonlinear_arith)
        requires
            o == 0 as real,
    ;
    let kept = y * x;
    assert(x * y == kept) by (nonlinear_arith)
        requires
            kept == y * x,
    ;
    let v = s.times(r);
    lemma_value_order(v, num(STRESS_FLOOR));
    let f = value(num(STRESS_FLOOR));
    let g = ratio(1, 10000);
    assert(1 as real * (eps() * mag(g)) + o <= g / 100000 as real) by (nonlinear_arith)
        requires
            o == 0 as real,
            mag(g) == g,
            g == 1 as real / 10000 as real,
            eps() == 1 as real / 0x100_0000 as real,
    ;
    let m = mag(kept);
    assert(3 as real * (eps() * m) <= m / 1000000 as real) by (nonlinear_arith)
        requires
            eps() == 1 as real / 0x100_0000 as real,
            m >= 0 as real,
    ;
    assert(ratio(1001, 10000000) == 1001 as real / 10000000 as real);
    assert(ratio(999, 10000000) == 999 as real / 10000000 as real);
    assert(g == 1 as real / 10000 as real);
    assert(near(v, kept, 3, tiny()));
    assert(tiny() <= 1 as real / 1000000000 as real);
    assert(mag(value(v) - kept) <= m / 1000000 as real + tiny());
    assert(mag(f - g) <= g / 100000 as real);
    assert(kept > ratio(1001, 10000000) ==> value(v) > f);
    assert(kept < ratio(999, 10000000) ==> value(v) < f);
    assert(!v.nan() && !num(STRESS_FLOOR).nan());
}

} // verus!
