//! What rounding cannot do to a bound.

use crate::binary32::arith::size_of;
use crate::binary32::convert::one_unit;
use crate::binary32::model::grid;
use crate::binary32::model::lemma_grid_assembled;
use crate::binary32::model::lemma_grid_order;
use crate::binary32::model::lemma_rounded_nearest;
use crate::binary32::model::rounded;
use crate::binary32::model::Binary32;
use crate::binary32::model::BINADE;
use crate::binary32::model::INFINITY_BITS;
use vstd::arithmetic::power2::lemma_pow2_pos;
use vstd::arithmetic::power2::pow2;
use vstd::prelude::*;

verus! {

/// Pattern of one.
pub const ONE_BITS: u32 = 0x3f80_0000;

/// One is `2^149` units.
pub proof fn lemma_one()
    ensures
        grid(ONE_BITS as nat) == one_unit(),
        one_unit() == pow2(149),
        one_unit() > 0,
{
    lemma_pow2_pos(149);
    lemma_grid_assembled(BINADE as nat, 126);
    vstd::arithmetic::power2::lemma_pow2_adds(23, 126);
    vstd::arithmetic::power2::lemma2_to64();
    assert(126 * BINADE + BINADE == ONE_BITS);
}

/// What is at most a number of the format rounds to at most that number.
pub proof fn lemma_rounded_at_most(num: nat, den: nat, p: nat)
    requires
        den > 0,
        p <= INFINITY_BITS,
        num <= grid(p) * den,
    ensures
        rounded(num, den) <= p,
{
    lemma_rounded_nearest(num, den);
    let r = rounded(num, den);
    if r > p {
        lemma_grid_order(p, r);
        lemma_grid_order(p, (r - 1) as nat);
        let a = grid((r - 1) as nat);
        let b = grid(r);
        let g = grid(p);
        assert((a + b) * den > 2 * num) by (nonlinear_arith)
            requires
                a >= g,
                b > g,
                num <= g * den,
                den > 0,
        ;
    }
}

/// What is at least a number of the format rounds to at least that number.
pub proof fn lemma_rounded_at_least(num: nat, den: nat, p: nat)
    requires
        den > 0,
        p <= INFINITY_BITS,
        num >= grid(p) * den,
    ensures
        rounded(num, den) >= p,
{
    lemma_rounded_nearest(num, den);
    let r = rounded(num, den);
    if r < p {
        lemma_grid_order(r, p);
        lemma_grid_order(r + 1, p);
        let a = grid(r);
        let b = grid(r + 1);
        let g = grid(p);
        assert((a + b) * den < 2 * num) by (nonlinear_arith)
            requires
                a < g,
                b <= g,
                num >= g * den,
                den > 0,
        ;
    }
}

/// Rounding keeps the order of fractions.
pub proof fn lemma_rounded_monotone(a: nat, b: nat, den: nat)
    requires
        den > 0,
        a <= b,
    ensures
        rounded(a, den) <= rounded(b, den),
{
    lemma_rounded_nearest(a, den);
    lemma_rounded_nearest(b, den);
    let p = rounded(a, den);
    let q = rounded(b, den);
    if q < p {
        let hi = grid(q) + grid(q + 1);
        let lo = grid((p - 1) as nat) + grid(p);
        lemma_grid_order(q, (p - 1) as nat);
        lemma_grid_order(q + 1, p);
        assert(hi * den <= lo * den) by (nonlinear_arith)
            requires
                hi <= lo,
                den > 0,
        ;
        if q + 1 < p {
            assert(hi * den < lo * den) by (nonlinear_arith)
                requires
                    hi < lo,
                    den > 0,
            ;
        } else {
            assert(p % 2 != q % 2);
        }
    }
}

/// A sign and a magnitude make the number that has them.
pub proof fn lemma_signed(negative: bool, p: nat)
    requires
        p <= INFINITY_BITS,
    ensures
        Binary32::signed(negative, p).magnitude() == p,
        Binary32::signed(negative, p).negative() == negative,
        Binary32::signed(negative, p).units() == if negative {
            -(grid(p) as int)
        } else {
            grid(p) as int
        },
        !Binary32::signed(negative, p).nan(),
{
}

/// A number is its sign and its magnitude.
pub proof fn lemma_signed_self(x: Binary32)
    ensures
        Binary32::signed(x.negative(), x.magnitude()) == x,
{
}

/// Numbers below zero have their sign bit set, and those above do not.
pub proof fn lemma_sign_of_units(x: Binary32)
    ensures
        x.units() < 0 ==> x.negative(),
        x.units() > 0 ==> !x.negative(),
        x.units() == 0 <==> x.zero(),
        size_of(x.units()) == x.size(),
{
    lemma_grid_order(0, x.magnitude());
    assert(grid(0) == 0);
}

/// The sum of two finite numbers, bounded from both sides by numbers.
pub proof fn lemma_sum_between(a: Binary32, b: Binary32, low: Binary32, high: Binary32)
    requires
        a.finite(),
        b.finite(),
        low.finite(),
        high.finite(),
        low.units() <= a.units() + b.units() <= high.units(),
    ensures
        a.plus(b).finite(),
        low.units() <= a.plus(b).units() <= high.units(),
{
    let s = a.units() + b.units();
    lemma_sign_of_units(low);
    lemma_sign_of_units(high);
    assert(grid(0) == 0);
    if s > 0 {
        lemma_rounded_at_most(s as nat, 1, high.magnitude());
        lemma_signed(false, rounded(s as nat, 1));
        lemma_grid_order(rounded(s as nat, 1), high.magnitude());
        if low.units() > 0 {
            lemma_rounded_at_least(s as nat, 1, low.magnitude());
            lemma_grid_order(low.magnitude(), rounded(s as nat, 1));
        }
    } else if s < 0 {
        let n = (-s) as nat;
        lemma_rounded_at_most(n, 1, low.magnitude());
        lemma_signed(true, rounded(n, 1));
        lemma_grid_order(rounded(n, 1), low.magnitude());
        if high.units() < 0 {
            lemma_rounded_at_least(n, 1, high.magnitude());
            lemma_grid_order(high.magnitude(), rounded(n, 1));
        }
    } else {
        lemma_signed(a.negative() && b.negative(), 0);
    }
}

/// Numbers that are not negative have a sum that is not negative.
pub proof fn lemma_sum_not_negative(a: Binary32, b: Binary32)
    requires
        a.finite(),
        b.finite(),
        a.units() >= 0,
        b.units() >= 0,
    ensures
        !a.plus(b).nan(),
        a.plus(b).units() >= 0,
{
    let s = a.units() + b.units();
    assert(grid(0) == 0);
    if s > 0 {
        lemma_rounded_nearest(s as nat, 1);
        lemma_signed(false, rounded(s as nat, 1));
    } else {
        lemma_signed(a.negative() && b.negative(), 0);
    }
}

/// A finite number times one of at most one is no larger than it was.
pub proof fn lemma_product_shrinks(a: Binary32, k: Binary32)
    requires
        a.finite(),
        k.finite(),
        k.size() <= one_unit(),
    ensures
        a.times(k).finite(),
        a.times(k).size() <= a.size(),
        a.times(k).magnitude() <= a.magnitude(),
        a.times(k).negative() == (a.negative() != k.negative()),
{
    lemma_pow2_pos(149);
    let num = a.size() * k.size();
    assert(num <= a.size() * pow2(149)) by (nonlinear_arith)
        requires
            num == a.size() * k.size(),
            k.size() <= pow2(149),
    ;
    lemma_rounded_at_most(num, pow2(149), a.magnitude());
    lemma_signed(a.negative() != k.negative(), rounded(num, pow2(149)));
    lemma_grid_order(rounded(num, pow2(149)), a.magnitude());
}

/// Products grow with their factors.
pub proof fn lemma_product_monotone(a: Binary32, b: Binary32, k: Binary32)
    requires
        a.finite(),
        b.finite(),
        k.finite(),
        0 <= a.units() <= b.units(),
        0 <= k.units(),
    ensures
        !a.times(k).nan(),
        !b.times(k).nan(),
        0 <= a.times(k).units() <= b.times(k).units(),
{
    lemma_pow2_pos(149);
    lemma_sign_of_units(a);
    lemma_sign_of_units(b);
    lemma_sign_of_units(k);
    let x = a.size() * k.size();
    let y = b.size() * k.size();
    assert(x <= y) by (nonlinear_arith)
        requires
            x == a.size() * k.size(),
            y == b.size() * k.size(),
            a.size() <= b.size(),
    ;
    lemma_rounded_monotone(x, y, pow2(149));
    let p = rounded(x, pow2(149));
    let q = rounded(y, pow2(149));
    lemma_rounded_nearest(x, pow2(149));
    lemma_rounded_nearest(y, pow2(149));
    lemma_signed(a.negative() != k.negative(), p);
    lemma_signed(b.negative() != k.negative(), q);
    lemma_grid_order(p, q);
    assert(grid(0) == 0);
    lemma_grid_order(0, p);
    lemma_grid_order(0, q);
    if a.zero() || k.zero() {
        assert(x == 0) by (nonlinear_arith)
            requires
                x == a.size() * k.size(),
                a.size() == 0 || k.size() == 0,
        ;
        lemma_rounded_at_most(0, pow2(149), 0);
    }
    if b.zero() || k.zero() {
        assert(y == 0) by (nonlinear_arith)
            requires
                y == b.size() * k.size(),
                b.size() == 0 || k.size() == 0,
        ;
        lemma_rounded_at_most(0, pow2(149), 0);
    }
}

/// Sums grow with their terms.
pub proof fn lemma_sum_monotone(a: Binary32, b: Binary32, c: Binary32)
    requires
        a.finite(),
        b.finite(),
        c.finite(),
        0 <= a.units() <= b.units(),
        0 <= c.units(),
    ensures
        !c.plus(a).nan(),
        !c.plus(b).nan(),
        0 <= c.plus(a).units() <= c.plus(b).units(),
{
    assert(grid(0) == 0);
    let s = (a.units() + c.units()) as nat;
    let t = (b.units() + c.units()) as nat;
    lemma_rounded_monotone(s, t, 1);
    lemma_rounded_nearest(s, 1);
    lemma_rounded_nearest(t, 1);
    lemma_signed(false, rounded(s, 1));
    lemma_signed(false, rounded(t, 1));
    lemma_grid_order(rounded(s, 1), rounded(t, 1));
    lemma_signed(true, 0);
    lemma_signed(false, 0);
    if s > 0 {
        assert(c.plus(a) == Binary32::signed(false, rounded(s, 1)));
    }
    if t > 0 {
        assert(c.plus(b) == Binary32::signed(false, rounded(t, 1)));
    }
}

/// Factors commute.
pub proof fn lemma_product_commutes(a: Binary32, b: Binary32)
    ensures
        a.times(b) == b.times(a),
{
    assert(a.size() * b.size() == b.size() * a.size()) by (nonlinear_arith);
}

/// A product that is finite has finite factors, unless one of them is no number.
pub proof fn lemma_product_finite(a: Binary32, b: Binary32)
    requires
        a.times(b).finite(),
    ensures
        a.finite(),
        b.finite(),
{
    lemma_signed(true, INFINITY_BITS as nat);
    lemma_signed(false, INFINITY_BITS as nat);
}

} // verus!
