//! What volatile traps give away. A trap that goes off loses one amount, its
//! targets get their shares of it, and nobody else is touched.

use crate::binary32::arith::size_of;
use crate::binary32::bounds::lemma_one;
use crate::binary32::bounds::lemma_product_monotone;
use crate::binary32::bounds::lemma_rounded_at_most;
use crate::binary32::bounds::lemma_sign_of_units;
use crate::binary32::bounds::lemma_signed;
use crate::binary32::bounds::lemma_sum_between;
use crate::binary32::bounds::lemma_sum_monotone;
use crate::binary32::bounds::lemma_sum_not_negative;
use crate::binary32::convert::one_unit;
use crate::binary32::errors::lemma_product_error;
use crate::binary32::errors::lemma_quotient_error;
use crate::binary32::errors::lemma_sum_error;
use crate::binary32::model::grid;
use crate::binary32::model::lemma_grid_assembled;
use crate::binary32::model::lemma_grid_order;
use crate::binary32::model::lemma_mantissa_shift;
use crate::binary32::model::lemma_rounded_exact;
use crate::binary32::model::mantissa;
use crate::binary32::model::rounded;
use crate::binary32::model::BINADE;
use crate::binary32::num;
use crate::binary32::shares::lemma_parts_make_up;
use crate::binary32::whole::lemma_number;
use crate::binary32::Binary32;
use crate::components::lemma_amount_valid;
use crate::components::lemma_place;
use crate::components::lemma_place_same;
use crate::components::node_of;
use crate::components::place_of;
use crate::components::valid_energy_amount;
use crate::components::EnergyFlow;
use crate::components::Node;
use crate::economy::discharged;
use crate::economy::shared_out;
use crate::economy::total_weight;
use crate::economy::trap_release;
use crate::economy::trap_target;
use crate::economy::trap_weight;
use crate::economy::trap_weights;
use crate::economy::TRAP_CLOSEST;
use crate::economy::VOLATILE_TRAP_DRAIN_FRACTION;
use crate::economy::VOLATILE_TRAP_RANGE;
use crate::interface::vector::Vec2Lite;
use crate::spatial_hash::SpatialHash;
use vstd::arithmetic::power2::lemma2_to64;
use vstd::arithmetic::power2::lemma_pow2_adds;
use vstd::arithmetic::power2::lemma_pow2_strictly_increases;
use vstd::arithmetic::power2::pow2;
use vstd::prelude::*;

verus! {

/// What a target of a trap gets.
pub open spec fn trap_share(weight: Binary32, released: Binary32, total: Binary32) -> Binary32 {
    released.times(weight.over(total))
}

/// What the first `n` targets get together, in units.
pub open spec fn shares_sum(
    weights: Seq<(u64, Binary32)>,
    released: Binary32,
    total: Binary32,
    n: nat,
) -> int
    decreases n,
{
    if n == 0 {
        0
    } else {
        shares_sum(weights, released, total, (n - 1) as nat) + trap_share(
            weights[n - 1].1,
            released,
            total,
        ).units()
    }
}

/// What the first `n` weights are together, in units and without rounding.
spec fn weights_sum(weights: Seq<(u64, Binary32)>, n: nat) -> int
    decreases n,
{
    if n == 0 {
        0
    } else {
        weights_sum(weights, (n - 1) as nat) + weights[n - 1].1.units()
    }
}

/// What the first `n` fractions are together, in units.
spec fn fractions_sum(weights: Seq<(u64, Binary32)>, total: Binary32, n: nat) -> int
    decreases n,
{
    if n == 0 {
        0
    } else {
        fractions_sum(weights, total, (n - 1) as nat) + weights[n - 1].1.over(total).units()
    }
}

/// Few enough targets for what is said of their shares to be less than the whole:
/// about five and a half million.
pub open spec fn few(n: nat) -> bool {
    3 * n + 4 <= 0x100_0000
}

/// A weight is a number from zero to sixteen.
pub open spec fn plain_weight(w: Binary32) -> bool {
    w.finite() && 0 <= w.units() <= 16 * one_unit()
}

/// Every weight of a trap is plain, whatever the distance.
proof fn lemma_trap_weight(target: Node, pos: Vec2Lite)
    ensures
        plain_weight(trap_weight(target, pos)),
{
    lemma_one();
    lemma2_to64();
    let m = target.position.distance(pos).max(num(TRAP_CLOSEST));
    let c = num(TRAP_CLOSEST);
    lemma_grid_assembled(BINADE as nat, 122);
    assert(122 * BINADE + BINADE == 0x3d80_0000);
    lemma_pow2_adds(23, 122);
    lemma_pow2_adds(4, 145);
    lemma_grid_order(0x3d80_0000, TRAP_CLOSEST as nat);
    lemma_grid_assembled(BINADE as nat, 130);
    assert(130 * BINADE + BINADE == 0x4180_0000);
    lemma_pow2_adds(23, 130);
    lemma_pow2_adds(4, 149);
    assert(grid(0) == 0);
    lemma_sign_of_units(m);
    assert(!m.nan() && m.units() >= c.units());
    if m.infinite() {
        lemma_signed(false, 0);
    } else {
        let u = one_unit();
        let p = 0x4180_0000nat;
        assert(u * u <= grid(p) * m.size()) by (nonlinear_arith)
            requires
                grid(p) == 16 * u,
                16 * m.size() >= u,
        ;
        lemma_rounded_at_most(u * u, m.size(), p);
        let r = rounded(u * u, m.size());
        lemma_signed(false, r);
        lemma_grid_order(r, p);
    }
}

/// The total of plain weights, against their exact sum.
proof fn lemma_total_weight(weights: Seq<(u64, Binary32)>)
    requires
        few(weights.len()),
        forall|k: int| 0 <= k < weights.len() ==> plain_weight((#[trigger] weights[k]).1),
    ensures
        ({
            let t = total_weight(weights);
            let n = weights.len();
            &&& t.finite()
            &&& 0 <= t.units() <= 16 * n * one_unit()
            &&& 0x100_0000 * size_of(t.units() - weights_sum(weights, n)) <= 2 * n * t.units()
        }),
    decreases weights.len(),
{
    lemma_one();
    let n = weights.len();
    let u = one_unit() as int;
    assert(grid(0) == 0);
    if n > 0 {
        let rest = weights.drop_last();
        let w = weights.last().1;
        assert forall|k: int| 0 <= k < rest.len() implies plain_weight((#[trigger] rest[k]).1) by {
            assert(rest[k] == weights[k]);
        }
        assert(weights[n - 1] == weights.last());
        lemma_total_weight(rest);
        lemma_weights_prefix(rest, weights, (n - 1) as nat);
        let s = total_weight(rest);
        let t = s.plus(w);
        lemma2_to64();
        lemma_pow2_adds(4, 149);
        let high = lemma_number(n as int, 153);
        assert(16 * (n - 1) * u + 16 * u == 16 * n * u) by (nonlinear_arith);
        assert(n * pow2(153) == 16 * n * u) by (nonlinear_arith)
            requires
                pow2(153) == 16 * u,
        ;
        lemma_sum_between(s, w, s, high);
        lemma_sum_error(s, w);
        let (a, b) = (s.units(), t.units());
        let e = 0x100_0000int;
        let exact = weights_sum(weights, n);
        let before = weights_sum(rest, (n - 1) as nat);
        assert(2 * (n - 1) * a <= 2 * (n - 1) * b) by (nonlinear_arith)
            requires
                a <= b,
                n >= 1,
        ;
        assert(2 * (n - 1) * b + 2 * b == 2 * n * b) by (nonlinear_arith);
        assert(a + w.units() <= 2 * b);
        assert(exact == before + w.units());
    } else {
        assert(16 * n * u == 0 && 2 * n * 0 == 0) by (nonlinear_arith)
            requires
                n == 0,
        ;
    }
}

/// The first weights do not depend on the later ones.
proof fn lemma_weights_prefix(some: Seq<(u64, Binary32)>, more: Seq<(u64, Binary32)>, n: nat)
    requires
        n <= some.len() <= more.len(),
        forall|k: int| 0 <= k < some.len() ==> #[trigger] some[k] == more[k],
    ensures
        weights_sum(some, n) == weights_sum(more, n),
    decreases n,
{
    if n > 0 {
        lemma_weights_prefix(some, more, (n - 1) as nat);
        assert(some[n - 1] == more[n - 1]);
    }
}

/// One fraction of the total is a number from zero to one.
proof fn lemma_fraction(w: Binary32, total: Binary32)
    requires
        plain_weight(w),
        total.finite(),
        total.units() > 0,
        w.units() <= 2 * total.units(),
    ensures
        w.over(total).finite(),
        0 <= w.over(total).units() <= 2 * one_unit(),
        0x100_0000 * size_of(w.over(total).units() * total.units() - w.units() * pow2(149))
            <= w.units() * pow2(149) + 0x80_0000 * total.units(),
{
    lemma_one();
    lemma2_to64();
    lemma_sign_of_units(w);
    lemma_sign_of_units(total);
    lemma_grid_assembled(BINADE as nat, 127);
    assert(127 * BINADE + BINADE == 0x4000_0000);
    lemma_pow2_adds(23, 127);
    lemma_pow2_adds(1, 149);
    let u = one_unit();
    let p = 0x4000_0000nat;
    assert(w.size() * u <= grid(p) * total.size()) by (nonlinear_arith)
        requires
            grid(p) == 2 * u,
            w.size() <= 2 * total.size(),
    ;
    lemma_rounded_at_most(w.size() * pow2(149), total.size(), p);
    let r = rounded(w.size() * pow2(149), total.size());
    lemma_signed(w.negative() != total.negative(), r);
    lemma_grid_order(r, p);
    lemma_quotient_error(w, total);
}

/// A term of a sum of terms that are not negative is at most the sum.
proof fn lemma_weight_at_most_sum(weights: Seq<(u64, Binary32)>, n: nat, k: int)
    requires
        0 <= k < n <= weights.len(),
        forall|k: int| 0 <= k < weights.len() ==> plain_weight((#[trigger] weights[k]).1),
    ensures
        weights[k].1.units() <= weights_sum(weights, n),
    decreases n,
{
    lemma_weights_not_negative(weights, (n - 1) as nat);
    assert(plain_weight(weights[n - 1].1));
    if k < n - 1 {
        lemma_weight_at_most_sum(weights, (n - 1) as nat, k);
    }
}

/// Weights are together not negative.
proof fn lemma_weights_not_negative(weights: Seq<(u64, Binary32)>, n: nat)
    requires
        n <= weights.len(),
        forall|k: int| 0 <= k < weights.len() ==> plain_weight((#[trigger] weights[k]).1),
    ensures
        weights_sum(weights, n) >= 0,
    decreases n,
{
    if n > 0 {
        lemma_weights_not_negative(weights, (n - 1) as nat);
        assert(plain_weight(weights[n - 1].1));
    }
}

/// The fractions together, against the weights together.
proof fn lemma_fractions(weights: Seq<(u64, Binary32)>, total: Binary32, n: nat)
    requires
        n <= weights.len(),
        total.finite(),
        total.units() > 0,
        forall|k: int|
            0 <= k < weights.len() ==> plain_weight((#[trigger] weights[k]).1)
                && weights[k].1.units() <= 2 * total.units(),
    ensures
        fractions_sum(weights, total, n) >= 0,
        0x100_0000 * size_of(
            fractions_sum(weights, total, n) * total.units() - weights_sum(weights, n) * pow2(149),
        ) <= weights_sum(weights, n) * pow2(149) + 0x80_0000 * (n * total.units()),
    decreases n,
{
    let t = total.units();
    let u = pow2(149) as int;
    if n > 0 {
        lemma_fractions(weights, total, (n - 1) as nat);
        let w = weights[n - 1].1;
        assert(plain_weight(w));
        lemma_fraction(w, total);
        let (q, x) = (fractions_sum(weights, total, (n - 1) as nat), w.over(total).units());
        let (s, y) = (weights_sum(weights, (n - 1) as nat), w.units());
        assert((q + x) * t == q * t + x * t) by (nonlinear_arith);
        assert((s + y) * u == s * u + y * u) by (nonlinear_arith);
        assert(n * t == (n - 1) * t + t) by (nonlinear_arith);
    } else {
        assert(0 * t == 0 && 0 * u == 0) by (nonlinear_arith);
    }
}

/// The shares together, against the fractions together.
proof fn lemma_shares(
    weights: Seq<(u64, Binary32)>,
    released: Binary32,
    total: Binary32,
    n: nat,
)
    requires
        n <= weights.len(),
        released.finite(),
        released.units() >= 0,
        total.finite(),
        total.units() > 0,
        forall|k: int|
            0 <= k < weights.len() ==> plain_weight((#[trigger] weights[k]).1)
                && weights[k].1.units() <= 2 * total.units(),
        forall|k: int|
            0 <= k < weights.len() ==> trap_share(
                (#[trigger] weights[k]).1,
                released,
                total,
            ).finite(),
    ensures
        0x100_0000 * size_of(
            shares_sum(weights, released, total, n) * pow2(149) - released.units() * fractions_sum(
                weights,
                total,
                n,
            ),
        ) <= released.units() * fractions_sum(weights, total, n) + 0x80_0000 * (n * pow2(149)),
    decreases n,
{
    let r = released.units();
    let u = pow2(149) as int;
    if n > 0 {
        lemma_shares(weights, released, total, (n - 1) as nat);
        let w = weights[n - 1].1;
        assert(plain_weight(w));
        lemma_fraction(w, total);
        let q = w.over(total);
        lemma_product_error(released, q);
        let (f, x) = (fractions_sum(weights, total, (n - 1) as nat), q.units());
        let (s, y) = (
            shares_sum(weights, released, total, (n - 1) as nat),
            trap_share(w, released, total).units(),
        );
        assert(r * x >= 0) by (nonlinear_arith)
            requires
                r >= 0,
                x >= 0,
        ;
        assert((s + y) * u == s * u + y * u) by (nonlinear_arith);
        assert(r * (f + x) == r * f + r * x) by (nonlinear_arith);
        assert(n * u == (n - 1) * u + u) by (nonlinear_arith);
    } else {
        assert(r * 0 == 0 && 0 * u == 0) by (nonlinear_arith);
    }
}

/// The sums, put together.
proof fn lemma_shares_bound(n: int, r: int, t: int, u: int, w: int, q: int, s: int)
    requires
        0 < n,
        3 * n + 4 <= 0x100_0000,
        r >= 0,
        t > 0,
        u >= 0x80_0000,
        q >= 0,
        0x100_0000 * size_of(t - w) <= 2 * n * t,
        0x100_0000 * size_of(q * t - w * u) <= w * u + 0x80_0000 * (n * t),
        0x100_0000 * size_of(s * u - r * q) <= r * q + 0x80_0000 * (n * u),
    ensures
        0x100_0000 * size_of(s - r) <= (3 * n + 4) * r + 0x80_0000 * n,
{
    let e = 0x100_0000int;
    assert(2 * n * t <= e * t) by (nonlinear_arith)
        requires
            2 * n <= e,
            t > 0,
    ;
    assert(0 <= w <= 2 * t);
    assert(w * u <= 2 * (t * u)) by (nonlinear_arith)
        requires
            w <= 2 * t,
            u >= 0,
    ;
    assert(0x80_0000 * (n * t) <= n * (t * u)) by (nonlinear_arith)
        requires
            u >= 0x80_0000,
            n > 0,
            t > 0,
    ;
    let d = size_of(t - w) as int;
    assert(e * (d * u) <= 2 * (n * (t * u))) by (nonlinear_arith)
        requires
            e * d <= 2 * n * t,
            u >= 0,
    ;
    assert(size_of(w * u - t * u) == d * u) by {
        assert(w * u - t * u == -((t - w) * u)) by (nonlinear_arith);
        assert((t - w) * u >= 0 <==> t - w >= 0 || u == 0) by (nonlinear_arith)
            requires
                u >= 0,
        ;
        assert((-(t - w)) * u == -((t - w) * u)) by (nonlinear_arith);
    }
    assert(e * size_of(q * t - t * u) <= 2 * (t * u) + 3 * (n * (t * u)));
    let f = size_of(q - u) as int;
    assert(size_of(q * t - t * u) == f * t) by {
        assert(q * t - t * u == (q - u) * t) by (nonlinear_arith);
        assert((q - u) * t >= 0 <==> q - u >= 0) by (nonlinear_arith)
            requires
                t > 0,
        ;
        assert((-(q - u)) * t == -((q - u) * t)) by (nonlinear_arith);
    }
    assert(e * f <= (3 * n + 2) * u) by (nonlinear_arith)
        requires
            e * (f * t) <= 2 * (t * u) + 3 * (n * (t * u)),
            t > 0,
    ;
    assert((3 * n + 2) * u <= e * u) by (nonlinear_arith)
        requires
            3 * n + 2 <= e,
            u >= 0,
    ;
    assert(q <= 2 * u);
    assert(r * q <= 2 * (r * u)) by (nonlinear_arith)
        requires
            q <= 2 * u,
            r >= 0,
    ;
    assert(e * (r * f) <= (3 * n + 2) * (r * u)) by (nonlinear_arith)
        requires
            e * f <= (3 * n + 2) * u,
            r >= 0,
    ;
    assert(size_of(r * q - r * u) == r * f) by {
        assert(r * q - r * u == r * (q - u)) by (nonlinear_arith);
        assert(q - u >= 0 ==> r * (q - u) >= 0) by (nonlinear_arith)
            requires
                r >= 0,
        ;
        assert(q - u < 0 ==> r * (q - u) <= 0) by (nonlinear_arith)
            requires
                r >= 0,
        ;
        assert(r * (-(q - u)) == -(r * (q - u))) by (nonlinear_arith);
    }
    assert((3 * n + 2) * (r * u) + 2 * (r * u) == (3 * n + 4) * (r * u)) by (nonlinear_arith);
    assert(e * size_of(s * u - r * u) <= (3 * n + 4) * (r * u) + 0x80_0000 * (n * u));
    let g = size_of(s - r) as int;
    assert(size_of(s * u - r * u) == g * u) by {
        assert(s * u - r * u == (s - r) * u) by (nonlinear_arith);
        assert((s - r) * u >= 0 <==> s - r >= 0) by (nonlinear_arith)
            requires
                u > 0,
        ;
        assert((-(s - r)) * u == -((s - r) * u)) by (nonlinear_arith);
    }
    assert(e * g <= (3 * n + 4) * r + 0x80_0000 * n) by (nonlinear_arith)
        requires
            e * (g * u) <= (3 * n + 4) * (r * u) + 0x80_0000 * (n * u),
            u > 0,
    ;
}

/// What the targets of a trap get together is what it released, up to rounding:
/// `3 n + 4` roundings of it for `n` targets, and half a smallest unit each.
pub proof fn lemma_shares_make_up_the_release(weights: Seq<(u64, Binary32)>, released: Binary32)
    requires
        few(weights.len()),
        forall|k: int| 0 <= k < weights.len() ==> plain_weight((#[trigger] weights[k]).1),
        total_weight(weights).units() > 0,
        released.finite(),
        released.units() >= 0,
        released.units() <= num(0x7eff_ffff).units(),
    ensures
        forall|k: int|
            0 <= k < weights.len() ==> {
                let share = trap_share((#[trigger] weights[k]).1, released, total_weight(weights));
                share.finite() && share.units() >= 0
            },
        0x100_0000 * size_of(
            shares_sum(weights, released, total_weight(weights), weights.len()) - released.units(),
        ) <= (3 * weights.len() + 4) * released.units() + 0x80_0000 * weights.len(),
{
    lemma_one();
    lemma2_to64();
    lemma_pow2_strictly_increases(64, 149);
    let total = total_weight(weights);
    let n = weights.len();
    lemma_total_weight(weights);
    let t = total.units();
    assert(n > 0) by {
        assert(grid(0) == 0);
    }
    assert(2 * n * t <= 0x100_0000 * t) by (nonlinear_arith)
        requires
            2 * n <= 0x100_0000,
            t > 0,
    ;
    assert forall|k: int| 0 <= k < weights.len() implies plain_weight((#[trigger] weights[k]).1)
        && weights[k].1.units() <= 2 * total.units() by {
        lemma_weight_at_most_sum(weights, n, k);
    }
    assert forall|k: int| 0 <= k < weights.len() implies {
        let share = trap_share((#[trigger] weights[k]).1, released, total);
        share.finite() && share.units() >= 0
    } by {
        lemma_fraction(weights[k].1, total);
        lemma_share_finite(released, weights[k].1.over(total));
    }
    lemma_fractions(weights, total, n);
    lemma_shares(weights, released, total, n);
    lemma_shares_bound(
        n as int,
        released.units(),
        t,
        pow2(149) as int,
        weights_sum(weights, n),
        fractions_sum(weights, total, n),
        shares_sum(weights, released, total, n),
    );
}

/// The largest number is twice the one a binade below it.
proof fn lemma_largest()
    ensures
        grid(0x7f7f_ffff) == 2 * grid(0x7eff_ffff),
{
    let p = 0x7eff_ffffnat;
    let top = 0x7f7f_ffffnat;
    lemma_mantissa_shift(p);
    lemma_mantissa_shift(top);
    assert(p / (BINADE as nat) == 253 && top / (BINADE as nat) == 254);
    vstd::arithmetic::power2::lemma_pow2_unfold(253);
    assert(grid(top) == 2 * grid(p)) by (nonlinear_arith)
        requires
            grid(p) == mantissa(p) * pow2(252),
            grid(top) == mantissa(top) * pow2(253),
            mantissa(top) == mantissa(p),
            pow2(253) == 2 * pow2(252),
    ;
}

/// At most twice a number below half of the largest is finite.
proof fn lemma_share_finite(released: Binary32, q: Binary32)
    requires
        released.finite(),
        0 <= released.units() <= num(0x7eff_ffff).units(),
        q.finite(),
        0 <= q.units() <= 2 * one_unit(),
    ensures
        released.times(q).finite(),
        released.times(q).units() >= 0,
{
    lemma_one();
    lemma_sign_of_units(released);
    lemma_sign_of_units(q);
    let p = 0x7eff_ffffnat;
    let top = 0x7f7f_ffffnat;
    lemma_grid_order(released.magnitude(), p);
    lemma_largest();
    let n = released.size() * q.size();
    let u = one_unit();
    assert(n <= grid(top) * u) by (nonlinear_arith)
        requires
            n == released.size() * q.size(),
            released.size() <= grid(p),
            q.size() <= 2 * u,
            grid(top) == 2 * grid(p),
    ;
    lemma_rounded_at_most(n, pow2(149), top);
    lemma_signed(released.negative() != q.negative(), rounded(n, pow2(149)));
    lemma_product_monotone(released, released, q);
}

/// The weights of a trap are plain.
proof fn lemma_trap_weights(nodes: Seq<Node>, trap: u64, pos: Vec2Lite, near: Seq<u64>, n: nat)
    ensures
        forall|k: int|
            0 <= k < trap_weights(nodes, trap, pos, near, n).len() ==> {
                let (entity, weight) = #[trigger] trap_weights(nodes, trap, pos, near, n)[k];
                plain_weight(weight) && trap_target(nodes, trap, pos, entity)
            },
    decreases n,
{
    if n > 0 {
        lemma_trap_weights(nodes, trap, pos, near, (n - 1) as nat);
        let rest = trap_weights(nodes, trap, pos, near, (n - 1) as nat);
        let all = trap_weights(nodes, trap, pos, near, n);
        if trap_target(nodes, trap, pos, near[n - 1]) {
            lemma_trap_weight(node_of(nodes, near[n - 1])->Some_0, pos);
        }
        assert forall|k: int| 0 <= k < all.len() implies {
            let (entity, weight) = #[trigger] all[k];
            plain_weight(weight) && trap_target(nodes, trap, pos, entity)
        } by {
            if k < rest.len() {
                assert(all[k] == rest[k]);
            }
        }
    }
}

/// What a trap releases is at most half of the largest number.
proof fn lemma_release(trap: Node)
    ensures
        ({
            let released = trap.debited(EnergyFlow::Transferred, trap_release(trap)).1;
            released.finite() && 0 <= released.units() <= num(0x7eff_ffff).units()
        }),
{
    assert(grid(0) == 0);
    let released = trap.debited(EnergyFlow::Transferred, trap_release(trap)).1;
    match (trap.physical, trap.ledger) {
        (Some(p), Some(_)) => {
            let e = p.energy.max(num(0));
            let release = trap_release(trap);
            let booked = valid_energy_amount(release);
            lemma_amount_valid(release);
            lemma_sign_of_units(e);
            lemma_sign_of_units(p.energy);
            if e.finite() {
                lemma_half_is_small(e);
            }
            lemma_sign_of_units(booked);
            lemma_sign_of_units(release);
        },
        _ => {},
    }
}

/// Half of a number is at most half of the largest.
proof fn lemma_half_is_small(e: Binary32)
    requires
        e.finite(),
    ensures
        e.times(num(VOLATILE_TRAP_DRAIN_FRACTION)).finite(),
        e.times(num(VOLATILE_TRAP_DRAIN_FRACTION)).units() <= num(0x7eff_ffff).units(),
{
    lemma_one();
    lemma2_to64();
    let p = 0x7eff_ffffnat;
    let top = 0x7f7f_ffffnat;
    let half = num(VOLATILE_TRAP_DRAIN_FRACTION);
    lemma_grid_assembled(BINADE as nat, 125);
    lemma_pow2_adds(23, 125);
    assert(125 * BINADE + BINADE == VOLATILE_TRAP_DRAIN_FRACTION);
    vstd::arithmetic::power2::lemma_pow2_unfold(149);
    lemma_largest();
    lemma_grid_order(e.magnitude(), top);
    let n = e.size() * half.size();
    assert(n <= grid(p) * pow2(149)) by (nonlinear_arith)
        requires
            n == e.size() * half.size(),
            e.size() <= 2 * grid(p),
            2 * half.size() == pow2(149),
    ;
    lemma_rounded_at_most(n, pow2(149), p);
    let r = rounded(n, pow2(149));
    lemma_signed(e.negative() != half.negative(), r);
    lemma_grid_order(r, p);
}

/// The energy that a node holds, in units.
pub open spec fn stored(node: Node) -> int {
    match node.physical {
        Some(p) => p.energy.units(),
        None => 0,
    }
}

/// The energy that all nodes hold together.
pub open spec fn reserve(nodes: Seq<Node>) -> int
    decreases nodes.len(),
{
    if nodes.len() == 0 {
        0
    } else {
        reserve(nodes.drop_last()) + stored(nodes.last())
    }
}

/// One node changes the reserve by what it changed itself.
proof fn lemma_reserve_update(nodes: Seq<Node>, i: int, node: Node)
    requires
        0 <= i < nodes.len(),
    ensures
        reserve(nodes.update(i, node)) == reserve(nodes) - stored(nodes[i]) + stored(node),
    decreases nodes.len(),
{
    let after = nodes.update(i, node);
    if i < nodes.len() - 1 {
        lemma_reserve_update(nodes.drop_last(), i, node);
        assert(after.drop_last() =~= nodes.drop_last().update(i, node));
        assert(after.last() == nodes.last());
    } else {
        assert(after.drop_last() =~= nodes.drop_last());
    }
}

/// The node can be credited: it has a ledger, and a body whose energy is finite
/// and not negative.
pub open spec fn creditable(node: Node) -> bool {
    node.ledger is Some && (node.physical matches Some(p) && p.energy.finite()
        && p.energy.units() >= 0)
}

/// Everyone on the list is there and can be credited, and holds at most `peak`.
pub open spec fn all_creditable(
    nodes: Seq<Node>,
    weights: Seq<(u64, Binary32)>,
    peak: nat,
) -> bool {
    forall|k: int|
        0 <= k < weights.len() ==> (node_of(nodes, (#[trigger] weights[k]).0) matches Some(node)
            && creditable(node) && stored(node) <= peak)
}

/// Nothing more than nothing.
proof fn lemma_plus_zero(e: Binary32)
    requires
        e.finite(),
    ensures
        e.plus(num(0)).units() == e.units(),
{
    assert(grid(0) == 0);
    lemma_sign_of_units(e);
    if e.units() != 0 {
        lemma_rounded_exact(e.magnitude());
        lemma_signed(e.units() < 0, e.magnitude());
    } else {
        lemma_signed(e.negative() && num(0).negative(), 0);
    }
}

/// What one credit does: the energy grows by the amount up to one rounding of
/// what it grew to.
proof fn lemma_credit(node: Node, amount: Binary32)
    requires
        node.ledger is Some,
        node.physical is Some,
        !node.physical->Some_0.energy.nan(),
        node.physical->Some_0.energy.units() >= 0,
        amount.finite(),
        amount.units() >= 0,
    ensures
        ({
            let after = node.credited(EnergyFlow::Harvested, amount);
            &&& after.ledger is Some
            &&& after.physical is Some
            &&& after.entity == node.entity
            &&& !after.physical->Some_0.energy.nan()
            &&& after.physical->Some_0.energy.units() >= 0
            &&& after.physical->Some_0.energy.finite() ==> {
                &&& node.physical->Some_0.energy.finite()
                &&& stored(node) <= stored(after)
                &&& 0x100_0000 * size_of(stored(after) - stored(node) - amount.units()) <= 2
                    * stored(after)
            }
        }),
{
    let e = node.physical->Some_0.energy;
    let booked = valid_energy_amount(amount);
    lemma_amount_valid(amount);
    assert(grid(0) == 0);
    lemma_sign_of_units(amount);
    lemma_sign_of_units(booked);
    lemma_sign_of_units(e);
    assert(booked.units() == amount.units());
    let after = e.plus(booked);
    if e.finite() {
        lemma_sum_not_negative(e, booked);
        if after.finite() {
            lemma_sum_monotone(num(0), booked, e);
            lemma_plus_zero(e);
            lemma_sum_error(e, booked);
        }
    } else {
        assert(after == e);
    }
}

/// After any number of credits everyone on the list is still there, with a ledger
/// and with an energy that is not negative.
proof fn lemma_credits_keep(
    nodes: Seq<Node>,
    weights: Seq<(u64, Binary32)>,
    released: Binary32,
    total: Binary32,
    n: nat,
    peak: nat,
)
    requires
        n <= weights.len(),
        all_creditable(nodes, weights, peak),
        forall|k: int|
            0 <= k < weights.len() ==> {
                let share = trap_share((#[trigger] weights[k]).1, released, total);
                share.finite() && share.units() >= 0
            },
    ensures
        ({
            let after = shared_out(nodes, weights, released, total, n);
            &&& after.len() == nodes.len()
            &&& forall|i: int|
                0 <= i < nodes.len() ==> (#[trigger] after[i]).entity == nodes[i].entity
            &&& forall|k: int|
                0 <= k < weights.len() ==> (node_of(
                    after,
                    (#[trigger] weights[k]).0,
                ) matches Some(node) && node.ledger is Some && (node.physical matches Some(p)
                    && !p.energy.nan() && p.energy.units() >= 0))
        }),
    decreases n,
{
    if n > 0 {
        lemma_credits_keep(nodes, weights, released, total, (n - 1) as nat, peak);
        let before = shared_out(nodes, weights, released, total, (n - 1) as nat);
        let after = shared_out(nodes, weights, released, total, n);
        let target = weights[n - 1].0;
        let share = trap_share(weights[n - 1].1, released, total);
        lemma_place(before, target);
        let i = place_of(before, target)->Some_0;
        assert(node_of(before, weights[n - 1].0) is Some);
        lemma_credit(before[i], share);
        assert forall|k: int| 0 <= k < weights.len() implies (node_of(
            after,
            (#[trigger] weights[k]).0,
        ) matches Some(node) && node.ledger is Some && (node.physical matches Some(p)
            && !p.energy.nan() && p.energy.units() >= 0)) by {
            assert(node_of(before, weights[k].0) is Some);
            lemma_place(before, weights[k].0);
            lemma_place_same(before, after, weights[k].0);
        }
    } else {
        assert forall|k: int| 0 <= k < weights.len() implies (node_of(
            nodes,
            (#[trigger] weights[k]).0,
        ) matches Some(node) && node.ledger is Some && (node.physical matches Some(p)
            && !p.energy.nan() && p.energy.units() >= 0)) by {
            assert(node_of(nodes, weights[k].0) is Some);
        }
    }
}

/// The reserve grows by what was shared out, up to one rounding for each share.
proof fn lemma_credits_add_up(
    nodes: Seq<Node>,
    weights: Seq<(u64, Binary32)>,
    released: Binary32,
    total: Binary32,
    n: nat,
    first: nat,
    peak: nat,
)
    requires
        n <= weights.len(),
        all_creditable(nodes, weights, first),
        forall|k: int|
            0 <= k < weights.len() ==> {
                let share = trap_share((#[trigger] weights[k]).1, released, total);
                share.finite() && share.units() >= 0
            },
        all_creditable(shared_out(nodes, weights, released, total, n), weights, peak),
    ensures
        0x100_0000 * size_of(
            reserve(shared_out(nodes, weights, released, total, n)) - reserve(nodes) - shares_sum(
                weights,
                released,
                total,
                n,
            ),
        ) <= 2 * (n * peak),
    decreases n,
{
    if n > 0 {
        lemma_credits_keep(nodes, weights, released, total, (n - 1) as nat, first);
        let before = shared_out(nodes, weights, released, total, (n - 1) as nat);
        let after = shared_out(nodes, weights, released, total, n);
        let target = weights[n - 1].0;
        let share = trap_share(weights[n - 1].1, released, total);
        lemma_place(before, target);
        let i = place_of(before, target)->Some_0;
        assert(node_of(before, weights[n - 1].0) is Some);
        assert(node_of(after, weights[n - 1].0) is Some);
        lemma_credit(before[i], share);
        lemma_place_same(before, after, target);
        let node = before[i].credited(EnergyFlow::Harvested, share);
        assert(after == before.update(i, node));
        assert(creditable(after[i]) && stored(after[i]) <= peak);
        lemma_reserve_update(before, i, node);
        assert forall|k: int| 0 <= k < weights.len() implies (node_of(
            before,
            (#[trigger] weights[k]).0,
        ) matches Some(m) && creditable(m) && stored(m) <= peak) by {
            assert(node_of(before, weights[k].0) is Some);
            assert(node_of(after, weights[k].0) is Some);
            lemma_place(before, weights[k].0);
            lemma_place_same(before, after, weights[k].0);
        }
        lemma_credits_add_up(nodes, weights, released, total, (n - 1) as nat, first, peak);
        assert(n * peak == (n - 1) * peak + peak) by (nonlinear_arith);
    } else {
        assert(0 * peak == 0) by (nonlinear_arith);
    }
}

/// A trap that goes off loses one amount, and its targets get their shares of it.
/// Together the shares are that amount, up to rounding.
pub proof fn lemma_discharge_moves_one_amount(nodes: Seq<Node>, hash: SpatialHash, trap: u64)
    requires
        node_of(nodes, trap) is Some,
        discharged(nodes, hash, trap) != nodes,
        few(targets(nodes, hash, trap).len()),
    ensures
        ({
            let i = place_of(nodes, trap)->Some_0;
            let weights = targets(nodes, hash, trap);
            let total = total_weight(weights);
            let n = weights.len();
            let (after, released) = nodes[i].debited(
                EnergyFlow::Transferred,
                trap_release(nodes[i]),
            );
            &&& discharged(nodes, hash, trap) == shared_out(
                nodes.update(i, after),
                weights,
                released,
                total,
                n,
            )
            &&& released.finite() && released.units() >= 0
            &&& total.finite() && total.units() > 0
            &&& forall|k: int|
                0 <= k < n ==> {
                    let share = trap_share((#[trigger] weights[k]).1, released, total);
                    share.finite() && share.units() >= 0
                }
            &&& 0x100_0000 * size_of(shares_sum(weights, released, total, n) - released.units())
                <= (3 * n + 4) * released.units() + 0x80_0000 * n
        }),
{
    lemma_place(nodes, trap);
    let i = place_of(nodes, trap)->Some_0;
    let pos = nodes[i].position;
    let near = hash.found(pos, num(VOLATILE_TRAP_RANGE));
    let weights = targets(nodes, hash, trap);
    let total = total_weight(weights);
    let released = nodes[i].debited(EnergyFlow::Transferred, trap_release(nodes[i])).1;
    lemma_trap_weights(nodes, trap, pos, near, near.len());
    assert forall|k: int| 0 <= k < weights.len() implies plain_weight((#[trigger] weights[k]).1) by {
        let (entity, weight) = weights[k];
    }
    lemma_total_weight(weights);
    lemma_release(nodes[i]);
    assert(grid(0) == 0);
    lemma_shares_make_up_the_release(weights, released);
}

/// The targets of a trap, with their weights.
pub open spec fn targets(nodes: Seq<Node>, hash: SpatialHash, trap: u64) -> Seq<(u64, Binary32)> {
    let pos = node_of(nodes, trap)->Some_0.position;
    let near = hash.found(pos, num(VOLATILE_TRAP_RANGE));
    trap_weights(nodes, trap, pos, near, near.len())
}

/// A trap that goes off keeps the energy of the world, up to rounding: for `n`
/// targets `3 n + 4` roundings of what it released, `2 n + 1` of what anyone
/// concerned holds at most, and half a smallest unit for each share. The trap and
/// its targets have ledgers, and energies that are finite and not negative, both
/// before and after.
pub proof fn lemma_discharge_keeps_energy(
    nodes: Seq<Node>,
    hash: SpatialHash,
    trap: u64,
    peak: nat,
)
    requires
        node_of(nodes, trap) matches Some(node) && creditable(node) && stored(node) <= peak,
        few(targets(nodes, hash, trap).len()),
        all_creditable(nodes, targets(nodes, hash, trap), peak),
        all_creditable(discharged(nodes, hash, trap), targets(nodes, hash, trap), peak),
    ensures
        ({
            let n = targets(nodes, hash, trap).len();
            let node = node_of(nodes, trap)->Some_0;
            let released = node.debited(EnergyFlow::Transferred, trap_release(node)).1;
            0x100_0000 * size_of(reserve(discharged(nodes, hash, trap)) - reserve(nodes)) <= (3 * n
                + 4) * released.units() + (2 * n + 1) * peak + 0x80_0000 * n
        }),
{
    let weights = targets(nodes, hash, trap);
    let n = weights.len();
    lemma_place(nodes, trap);
    let i = place_of(nodes, trap)->Some_0;
    let pos = nodes[i].position;
    lemma_release(nodes[i]);
    let (after, released) = nodes[i].debited(EnergyFlow::Transferred, trap_release(nodes[i]));
    let result = discharged(nodes, hash, trap);
    let r = released.units();
    assert((3 * n + 4) * r >= 0 && (2 * n + 1) * peak >= 0) by (nonlinear_arith)
        requires
            r >= 0,
    ;
    if result != nodes {
        lemma_discharge_moves_one_amount(nodes, hash, trap);
        let total = total_weight(weights);
        let start = nodes.update(i, after);
        let near = hash.found(pos, num(VOLATILE_TRAP_RANGE));
        lemma_trap_weights(nodes, trap, pos, near, near.len());
        assert forall|k: int| 0 <= k < weights.len() implies (node_of(
            start,
            (#[trigger] weights[k]).0,
        ) matches Some(m) && creditable(m) && stored(m) <= peak) by {
            let (entity, weight) = weights[k];
            assert(trap_target(nodes, trap, pos, entity));
            assert(node_of(nodes, weights[k].0) is Some);
            lemma_place(nodes, entity);
            lemma_place_same(nodes, start, entity);
        }
        lemma_credits_add_up(start, weights, released, total, n, peak, peak);
        lemma_reserve_update(nodes, i, after);
        lemma_debit(nodes[i]);
        assert((2 * n + 1) * peak == 2 * (n * peak) + peak) by (nonlinear_arith);
    }
}

/// What a trap is debited leaves it, up to one rounding.
proof fn lemma_debit(node: Node)
    requires
        creditable(node),
    ensures
        ({
            let (after, released) = node.debited(EnergyFlow::Transferred, trap_release(node));
            0x100_0000 * size_of(stored(after) - stored(node) + released.units()) <= stored(node)
        }),
{
    let p = node.physical->Some_0;
    let e = p.energy;
    let (after, released) = node.debited(EnergyFlow::Transferred, trap_release(node));
    lemma_release(node);
    lemma_amount_valid(trap_release(node));
    assert(grid(0) == 0);
    lemma_sign_of_units(e);
    lemma_sign_of_units(released);
    assert(released.units() <= e.units());
    assert(released.negated().units() == -released.units());
    lemma_parts_make_up(e, released);
    lemma_sum_error(e, released.negated());
}

/// Whoever is no agent, and whoever is out of the trap's range, is left as it was
/// when the trap goes off.
pub proof fn lemma_only_targets_gain(nodes: Seq<Node>, hash: SpatialHash, trap: u64, j: int)
    requires
        node_of(nodes, trap) is Some,
        0 <= j < nodes.len(),
        nodes[j].entity != trap,
        !trap_target(nodes, trap, node_of(nodes, trap)->Some_0.position, nodes[j].entity),
    ensures
        discharged(nodes, hash, trap)[j] == nodes[j],
{
    lemma_place(nodes, trap);
    let i = place_of(nodes, trap)->Some_0;
    let pos = nodes[i].position;
    let near = hash.found(pos, num(VOLATILE_TRAP_RANGE));
    let weights = trap_weights(nodes, trap, pos, near, near.len());
    let total = total_weight(weights);
    let (after, released) = nodes[i].debited(EnergyFlow::Transferred, trap_release(nodes[i]));
    let start = nodes.update(i, after);
    lemma_trap_weights(nodes, trap, pos, near, near.len());
    lemma_untouched(start, weights, released, total, weights.len(), j);
}

/// Sharing out touches those on the list only.
proof fn lemma_untouched(
    nodes: Seq<Node>,
    weights: Seq<(u64, Binary32)>,
    released: Binary32,
    total: Binary32,
    n: nat,
    j: int,
)
    requires
        n <= weights.len(),
        0 <= j < nodes.len(),
        forall|k: int| 0 <= k < weights.len() ==> (#[trigger] weights[k]).0 != nodes[j].entity,
    ensures
        shared_out(nodes, weights, released, total, n).len() == nodes.len(),
        forall|i: int|
            0 <= i < nodes.len() ==> (#[trigger] shared_out(nodes, weights, released, total, n)[i]).entity
                == nodes[i].entity,
        shared_out(nodes, weights, released, total, n)[j] == nodes[j],
    decreases n,
{
    if n > 0 {
        lemma_untouched(nodes, weights, released, total, (n - 1) as nat, j);
        let before = shared_out(nodes, weights, released, total, (n - 1) as nat);
        lemma_place(before, weights[n - 1].0);
        assert(weights[n - 1].0 != nodes[j].entity);
    }
}

} // verus!
