//! Dividing a number into equal shares, and taking a part from a whole.

use crate::binary32::arith::size_of;
use crate::binary32::bounds::lemma_one;
use crate::binary32::bounds::lemma_rounded_at_least;
use crate::binary32::bounds::lemma_rounded_at_most;
use crate::binary32::bounds::lemma_sign_of_units;
use crate::binary32::bounds::lemma_signed;
use crate::binary32::bounds::lemma_sum_between;
use crate::binary32::convert::lemma_on_grid;
use crate::binary32::convert::one_unit;
use crate::binary32::model::grid;
use crate::binary32::model::lemma_grid_assembled;
use crate::binary32::model::lemma_grid_order;
use crate::binary32::model::lemma_mantissa_shift;
use crate::binary32::model::lemma_rounded;
use crate::binary32::model::lemma_rounded_exact;
use crate::binary32::model::lemma_rounded_nearest;
use crate::binary32::model::mantissa;
use crate::binary32::model::nearest;
use crate::binary32::model::rounded;
use crate::binary32::model::shift;
use crate::binary32::model::Binary32;
use crate::binary32::model::BINADE;
use crate::binary32::model::INFINITY_BITS;
use crate::binary32::order::num;
use vstd::arithmetic::power2::lemma_pow2_pos;
use vstd::arithmetic::power2::lemma_pow2_unfold;
use vstd::arithmetic::power2::pow2;
use vstd::prelude::*;

verus! {

/// Integers of 24 bits are numbers of the format.
pub proof fn lemma_from_u32(n: u32)
    requires
        n < 0x100_0000,
    ensures
        Binary32::from_u32(n).finite(),
        !Binary32::from_u32(n).negative(),
        Binary32::from_u32(n).units() == n * one_unit(),
{
    if n > 0 {
        let g = lemma_on_grid(n as nat, 149);
        lemma_rounded_exact(g);
        lemma_signed(false, g);
    } else {
        assert(0 * one_unit() == 0) by (nonlinear_arith);
        assert(grid(0) == 0);
        lemma_rounded_exact(0);
        lemma_signed(false, 0);
    }
}

/// A quotient that is a number of the format is met exactly.
pub proof fn lemma_rounded_meets(numerator: nat, den: nat, p: nat)
    requires
        den > 0,
        p <= INFINITY_BITS,
        numerator == grid(p) * den,
    ensures
        rounded(numerator, den) == p,
{
    lemma_rounded_at_most(numerator, den, p);
    lemma_rounded_at_least(numerator, den, p);
}

/// A fraction rounds as it does in lower terms.
pub proof fn lemma_rounded_reduced(numerator: nat, den: nat, k: nat)
    requires
        den > 0,
        k > 0,
    ensures
        den * k > 0,
        rounded(numerator * k, den * k) == rounded(numerator, den),
{
    lemma_rounded_nearest(numerator, den);
    let p = rounded(numerator, den);
    assert(den * k > 0) by (nonlinear_arith)
        requires
            den > 0,
            k > 0,
    ;
    if p > 0 {
        let g = grid((p - 1) as nat) + grid(p);
        assert(g * (den * k) == (g * den) * k) by (nonlinear_arith);
        assert((g * den <= 2 * numerator ==> (g * den) * k <= 2 * (numerator * k)) && (g * den < 2
            * numerator ==> (g * den) * k < 2 * (numerator * k))) by (nonlinear_arith)
            requires
                k > 0,
        ;
    }
    if p < INFINITY_BITS {
        let g = grid(p) + grid(p + 1);
        assert(g * (den * k) == (g * den) * k) by (nonlinear_arith);
        assert((2 * numerator <= g * den ==> 2 * (numerator * k) <= (g * den) * k) && (2 * numerator
            < g * den ==> 2 * (numerator * k) < (g * den) * k)) by (nonlinear_arith)
            requires
                k > 0,
        ;
    }
    assert(nearest(numerator * k, den * k, p));
    lemma_rounded(numerator * k, den * k, p);
}

/// One of `n` equal shares is the number nearest to the `n`-th part.
pub proof fn lemma_share(x: Binary32, n: u32)
    requires
        x.finite(),
        0 < n < 0x100_0000,
    ensures
        x.over(Binary32::from_u32(n)) == Binary32::signed(
            x.negative(),
            rounded(x.size(), n as nat),
        ),
{
    lemma_from_u32(n);
    lemma_one();
    let d = Binary32::from_u32(n);
    let one = one_unit();
    assert(n * one > 0) by (nonlinear_arith)
        requires
            n > 0,
            one > 0,
    ;
    lemma_sign_of_units(d);
    lemma_rounded_reduced(x.size(), n as nat, one);
}

/// Equal shares make up the whole, up to half a step of the format each.
pub proof fn lemma_shares_make_the_whole(x: Binary32, n: u32)
    requires
        x.finite(),
        !x.negative(),
        0 < n < 0x100_0000,
    ensures
        ({
            let share = x.over(Binary32::from_u32(n));
            let p = share.magnitude();
            &&& share.finite()
            &&& !share.negative()
            &&& share.units() <= x.units()
            &&& p > 0 ==> (grid((p - 1) as nat) + grid(p)) * n <= 2 * x.units()
            &&& 2 * x.units() <= (grid(p) + grid(p + 1)) * n
        }),
{
    lemma_share(x, n);
    let p = rounded(x.size(), n as nat);
    lemma_rounded_nearest(x.size(), n as nat);
    assert(x.size() <= grid(x.magnitude()) * n) by (nonlinear_arith)
        requires
            n >= 1,
            x.size() == grid(x.magnitude()),
    ;
    lemma_rounded_at_most(x.size(), n as nat, x.magnitude());
    lemma_signed(false, p);
    lemma_grid_order(p, x.magnitude());
}

/// What is left of the whole and the part make up the whole: to the last unit
/// where the exact rest is a number of the format, and up to half a step of the
/// format elsewhere.
pub open spec fn parts_make_up(whole: Binary32, part: Binary32) -> bool {
    let left = whole.minus(part);
    let rest = whole.units() - part.units();
    let p = left.magnitude();
    &&& left.finite()
    &&& 0 <= left.units() <= whole.units()
    &&& p > 0 ==> grid((p - 1) as nat) + grid(p) <= 2 * rest
    &&& 2 * rest <= grid(p) + grid(p + 1)
    &&& forall|q: nat| q < INFINITY_BITS && #[trigger] grid(q) == rest ==> left.units() == rest
}

/// A part taken from a whole is neither lost nor made.
pub proof fn lemma_parts_make_up(whole: Binary32, part: Binary32)
    requires
        whole.finite(),
        part.finite(),
        0 <= part.units() <= whole.units(),
    ensures
        parts_make_up(whole, part),
{
    let left = whole.minus(part);
    let rest = whole.units() - part.units();
    lemma_sign_of_units(part);
    lemma_sign_of_units(whole);
    assert(part.negated().units() == -part.units());
    assert(grid(0) == 0);
    lemma_sum_between(whole, part.negated(), num(0), whole);
    lemma_grid_order(0, 1);
    if rest > 0 {
        let p = rounded(rest as nat, 1);
        lemma_rounded_nearest(rest as nat, 1);
        lemma_signed(false, p);
        assert forall|q: nat| q < INFINITY_BITS && #[trigger] grid(q) == rest implies left.units()
            == rest by {
            lemma_rounded_exact(q);
        }
    } else {
        lemma_signed(whole.negative() && part.negated().negative(), 0);
    }
}

/// Half of an even number is a number of the format.
proof fn lemma_half_on_grid(p: nat) -> (q: nat)
    requires
        p < INFINITY_BITS,
        grid(p) % 2 == 0,
    ensures
        q <= p,
        2 * grid(q) == grid(p),
{
    lemma_mantissa_shift(p);
    let m = mantissa(p);
    let s = shift(p);
    let q = if s > 0 {
        lemma_pow2_unfold(s);
        let w = pow2((s - 1) as nat);
        assert(m * pow2(s) == 2 * (m * w)) by (nonlinear_arith)
            requires
                pow2(s) == 2 * w,
        ;
        lemma_on_grid(m, (s - 1) as nat)
    } else {
        vstd::arithmetic::power2::lemma2_to64();
        assert(m * pow2(0) == m) by (nonlinear_arith)
            requires
                pow2(0) == 1,
        ;
        if m == 0 {
            assert(grid(0) == 0);
            0
        } else {
            let h = m / 2;
            assert(h * pow2(0) == h) by (nonlinear_arith)
                requires
                    pow2(0) == 1,
            ;
            lemma_on_grid(h, 0)
        }
    };
    lemma_grid_order(q, p);
    q
}

/// Halving an even number of units loses nothing, and what is left is the other
/// half.
pub proof fn lemma_half_exact(x: Binary32)
    requires
        x.finite(),
        x.size() % 2 == 0,
    ensures
        x.times(num(0x3f00_0000)).finite(),
        2 * x.times(num(0x3f00_0000)).units() == x.units(),
        x.minus(x.times(num(0x3f00_0000))).finite(),
        2 * x.minus(x.times(num(0x3f00_0000))).units() == x.units(),
{
    let half = num(0x3f00_0000);
    let q = lemma_half_on_grid(x.magnitude());
    lemma_grid_assembled(BINADE as nat, 125);
    vstd::arithmetic::power2::lemma_pow2_adds(23, 125);
    vstd::arithmetic::power2::lemma2_to64();
    assert(125 * BINADE + BINADE == 0x3f00_0000);
    assert(half.size() == pow2(148));
    lemma_pow2_unfold(149);
    lemma_pow2_pos(148);
    assert(x.size() * pow2(148) == grid(q) * pow2(149)) by (nonlinear_arith)
        requires
            x.size() == 2 * grid(q),
            pow2(149) == 2 * pow2(148),
    ;
    lemma_rounded_meets(x.size() * pow2(148), pow2(149), q);
    let h = x.times(half);
    lemma_signed(x.negative(), q);
    assert(h == Binary32::signed(x.negative(), q));
    let s = x.units() + h.negated().units();
    lemma_signed(!h.negative(), h.magnitude());
    assert(size_of(s) == grid(q));
    lemma_rounded_exact(q);
    lemma_sign_of_units(x);
    lemma_signed(true, q);
    lemma_signed(false, q);
    lemma_grid_order(0, q);
    assert(grid(0) == 0);
    assert(rounded(grid(q), 1) == q);
}

/// Numbers that are no multiple of four units are tiny.
proof fn lemma_no_quarter(p: nat)
    requires
        grid(p) % 4 != 0,
    ensures
        grid(p) < 0x200_0000,
{
    lemma_mantissa_shift(p);
    let m = mantissa(p);
    let s = shift(p);
    vstd::arithmetic::power2::lemma2_to64();
    if s >= 2 {
        lemma_pow2_unfold(s);
        lemma_pow2_unfold((s - 1) as nat);
        let w = pow2((s - 2) as nat);
        assert(m * pow2(s) == 4 * (m * w)) by (nonlinear_arith)
            requires
                pow2(s) == 4 * w,
        ;
    } else {
        assert(m * pow2(s) < 0x200_0000) by (nonlinear_arith)
            requires
                m < 0x100_0000,
                pow2(s) <= 2,
        ;
    }
}

/// Dividing by four is exact, except of tiny numbers that have no quarter.
pub proof fn lemma_quarter(x: Binary32)
    requires
        x.finite(),
    ensures
        x.over(num(0x4080_0000)).finite(),
        x.size() % 4 == 0 ==> 4 * x.over(num(0x4080_0000)).units() == x.units(),
        x.size() % 4 != 0 ==> {
            let q = x.over(num(0x4080_0000));
            &&& x.size() < 0x200_0000
            &&& q.size() < 0x200_0000
            &&& q.units() == 0 <==> x.size() <= 2
            &&& q.units() > 0 ==> x.units() > 0
            &&& q.units() < 0 ==> x.units() < 0
        },
{
    let four = num(0x4080_0000);
    let q = x.over(four);
    lemma_one();
    lemma_from_u32(4);
    lemma_grid_assembled(BINADE as nat, 128);
    vstd::arithmetic::power2::lemma_pow2_adds(23, 128);
    vstd::arithmetic::power2::lemma_pow2_adds(2, 149);
    vstd::arithmetic::power2::lemma2_to64();
    assert(128 * BINADE + BINADE == 0x4080_0000);
    lemma_grid_order(four.magnitude(), Binary32::from_u32(4).magnitude());
    assert(four == Binary32::from_u32(4));
    lemma_share(x, 4);
    let p = rounded(x.size(), 4);
    lemma_rounded_nearest(x.size(), 4);
    lemma_rounded_at_most(x.size(), 4, x.magnitude());
    lemma_signed(x.negative(), p);
    lemma_grid_order(p, x.magnitude());
    if x.size() % 4 == 0 {
        let h = lemma_half_on_grid(x.magnitude());
        let k = lemma_half_on_grid(h);
        lemma_rounded_meets(x.size(), 4, k);
    } else {
        lemma_no_quarter(x.magnitude());
        assert(grid(0) == 0);
        assert(grid(1) == 1);
        lemma_grid_order(0, p);
        if p > 0 {
            lemma_grid_order(0, (p - 1) as nat);
        }
    }
}

} // verus!
