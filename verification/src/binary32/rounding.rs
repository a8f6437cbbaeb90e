//! Rounding of an integer at a binary exponent, with what was cut off below it.

use crate::binary32::model::grid;
use crate::binary32::model::lemma_gap;
use crate::binary32::model::lemma_grid_assembled;
use crate::binary32::model::lemma_rounded;
use crate::binary32::model::nearest;
use crate::binary32::model::rounded;
use crate::binary32::model::BINADE;
use crate::binary32::model::INFINITY_BITS;
use vstd::arithmetic::power2::lemma2_to64;
use vstd::arithmetic::power2::lemma2_to64_rest;
use vstd::arithmetic::power2::lemma_pow2_adds;
use vstd::arithmetic::power2::lemma_pow2_pos;
use vstd::arithmetic::power2::lemma_pow2_strictly_increases;
use vstd::arithmetic::power2::lemma_pow2_unfold;
use vstd::arithmetic::power2::pow2;
use vstd::prelude::*;

verus! {

/// Exponents are passed with this added, so that they are never negative: an
/// integer `q` at exponent `e` stands for `q * 2^(e - BIAS)` units.
pub const BIAS: u32 = 300;

/// Integers with this many bits or more may carry a cut-off rest.
pub const STICKY_MIN: u128 = 0x200_0000;

/// No integer that is rounded has more than this many bits.
pub const MAX_BITS: u32 = 120;

/// `p` is the pattern nearest to any number of the range that `q`, `sticky` and
/// `e` describe: exactly `q` at `e` where `sticky` is false, and strictly
/// between `q` and `q + 1` at `e` where it is true.
pub open spec fn rounds_to(q: nat, sticky: bool, e: nat, p: nat) -> bool {
    let scale = pow2(BIAS as nat);
    &&& p <= INFINITY_BITS
    &&& p > 0 ==> {
        let middle = (grid((p - 1) as nat) + grid(p)) * scale;
        if p % 2 == 0 || sticky {
            middle <= 2 * (q * pow2(e))
        } else {
            middle < 2 * (q * pow2(e))
        }
    }
    &&& p < INFINITY_BITS ==> {
        let middle = (grid(p) + grid(p + 1)) * scale;
        if sticky {
            2 * ((q + 1) * pow2(e)) <= middle
        } else if p % 2 == 0 {
            2 * (q * pow2(e)) <= middle
        } else {
            2 * (q * pow2(e)) < middle
        }
    }
}

/// A fraction in the range of `q`, `sticky` and `e` rounds to the same pattern.
pub proof fn lemma_rounds_fraction(q: nat, sticky: bool, e: nat, p: nat, num: nat, den: nat)
    requires
        rounds_to(q, sticky, e, p),
        den > 0,
        sticky ==> q * pow2(e) * den < num * pow2(BIAS as nat) < (q + 1) * pow2(e) * den,
        !sticky ==> q * pow2(e) * den == num * pow2(BIAS as nat),
    ensures
        nearest(num, den, p),
        rounded(num, den) == p,
{
    let t = pow2(BIAS as nat);
    let w = pow2(e);
    lemma_pow2_pos(BIAS as nat);
    lemma_pow2_pos(e);
    if p > 0 {
        let b = grid((p - 1) as nat) + grid(p);
        if b * t < 2 * (q * w) {
            assert(b * den < 2 * num) by (nonlinear_arith)
                requires
                    b * t < 2 * (q * w),
                    q * w * den <= num * t,
                    den > 0,
                    t > 0,
            ;
        } else if sticky {
            assert(b * den < 2 * num) by (nonlinear_arith)
                requires
                    b * t <= 2 * (q * w),
                    q * w * den < num * t,
                    den > 0,
                    t > 0,
            ;
        } else {
            assert(b * den <= 2 * num) by (nonlinear_arith)
                requires
                    b * t <= 2 * (q * w),
                    q * w * den <= num * t,
                    den > 0,
                    t > 0,
            ;
        }
    }
    if p < INFINITY_BITS {
        let b = grid(p) + grid(p + 1);
        if sticky {
            assert(2 * num < b * den) by (nonlinear_arith)
                requires
                    2 * ((q + 1) * w) <= b * t,
                    num * t < (q + 1) * w * den,
                    den > 0,
                    t > 0,
            ;
        } else if 2 * (q * w) < b * t {
            assert(2 * num < b * den) by (nonlinear_arith)
                requires
                    2 * (q * w) < b * t,
                    num * t <= q * w * den,
                    den > 0,
                    t > 0,
            ;
        } else {
            assert(2 * num <= b * den) by (nonlinear_arith)
                requires
                    2 * (q * w) <= b * t,
                    num * t <= q * w * den,
                    den > 0,
                    t > 0,
            ;
        }
    }
    assert(nearest(num, den, p));
    lemma_rounded(num, den, p);
}

/// `2^n`, computed.
pub fn power_of_two(n: u32) -> (r: u128)
    requires
        n <= 127,
    ensures
        r == pow2(n as nat),
        r >= 1,
{
    let mut r: u128 = 1;
    let mut i: u32 = 0;
    proof {
        lemma2_to64();
        lemma2_to64_rest();
        lemma_pow2_adds(63, 64);
    }
    while i < n
        invariant
            i <= n <= 127,
            r == pow2(i as nat),
            r >= 1,
            pow2(127) == 0x8000_0000_0000_0000_0000_0000_0000_0000,
        decreases n - i,
    {
        proof {
            lemma_pow2_unfold((i + 1) as nat);
            if i + 1 < 127 {
                lemma_pow2_strictly_increases((i + 1) as nat, 127);
            }
        }
        r = r * 2;
        i = i + 1;
    }
    r
}

/// The number of bits that `q` takes.
pub fn bit_length(q: u128) -> (l: u32)
    requires
        q < pow2(MAX_BITS as nat),
    ensures
        l <= MAX_BITS,
        q < pow2(l as nat),
        l > 0 ==> pow2((l - 1) as nat) <= q,
        l == 0 <==> q == 0,
{
    let mut l: u32 = 0;
    let mut v: u128 = q;
    proof {
        lemma2_to64();
        assert(v * pow2(0) == q && (v + 1) * pow2(0) == q + 1) by (nonlinear_arith)
            requires
                pow2(0) == 1,
                v == q,
        ;
    }
    while v > 0
        invariant
            v * pow2(l as nat) <= q < (v + 1) * pow2(l as nat),
            q < pow2(MAX_BITS as nat),
            l > 0 ==> pow2((l - 1) as nat) <= q,
            l == 0 ==> v == q,
            l <= MAX_BITS,
        decreases v,
    {
        let ghost w = pow2(l as nat);
        let ghost w2 = pow2((l + 1) as nat);
        proof {
            lemma_pow2_unfold((l + 1) as nat);
            lemma_pow2_pos(l as nat);
            assert(w <= q) by (nonlinear_arith)
                requires
                    v * w <= q,
                    v >= 1,
                    w > 0,
            ;
            if l >= MAX_BITS {
                assert(false);
            }
            let h = v / 2;
            assert(h * w2 <= q && q < (h + 1) * w2) by (nonlinear_arith)
                requires
                    v * w <= q,
                    q < (v + 1) * w,
                    w2 == 2 * w,
                    2 * h <= v,
                    v <= 2 * h + 1,
                    w > 0,
            ;
        }
        v = v / 2;
        l = l + 1;
    }
    proof {
        let w = pow2(l as nat);
        assert((v + 1) * w == w) by (nonlinear_arith)
            requires
                v == 0,
        ;
        if q == 0 && l > 0 {
            lemma_pow2_pos((l - 1) as nat);
        }
    }
    l
}

/// At or above `2^128` the result is infinite.
proof fn lemma_overflow(q: nat, sticky: bool, e: nat, m: nat, s: nat)
    requires
        m >= BINADE,
        s >= 254,
        m * pow2(s) * pow2(BIAS as nat) <= q * pow2(e),
    ensures
        rounds_to(q, sticky, e, INFINITY_BITS as nat),
{
    let scale = pow2(BIAS as nat);
    let w = pow2(e);
    let top = INFINITY_BITS as nat;
    let b = BINADE as nat;
    lemma_pow2_pos(BIAS as nat);
    lemma_pow2_pos(254);
    if s > 254 {
        lemma_pow2_strictly_increases(254, s);
    }
    lemma_grid_assembled(b, 254);
    assert(254 * b + b == top);
    assert(grid(top) <= m * pow2(s)) by (nonlinear_arith)
        requires
            grid(top) == b * pow2(254),
            m >= b,
            pow2(s) >= pow2(254),
    ;
    lemma_gap((top - 1) as nat);
    let below = grid((top - 1) as nat);
    let g = grid(top);
    let x = m * pow2(s);
    assert((below + g) * scale <= 2 * (q * w)) by (nonlinear_arith)
        requires
            below <= g,
            g <= x,
            x * scale <= q * w,
            scale > 0,
    ;
}

/// Shifting up loses nothing.
proof fn lemma_exact(q: nat, e: nat, m: nat, s: nat, k: nat, p: nat)
    requires
        m == q * pow2(k),
        e == k + BIAS + s,
        p == s * BINADE as nat + m,
        m < 2 * BINADE,
        s > 0 ==> m >= BINADE,
        s < 254,
    ensures
        rounds_to(q, false, e, p),
        p < INFINITY_BITS,
{
    let scale = pow2(BIAS as nat);
    lemma_pow2_pos(BIAS as nat);
    lemma_pow2_adds(k, s);
    lemma_pow2_adds(k + s, BIAS as nat);
    lemma_grid_assembled(m, s);
    let c = pow2(k);
    let d = pow2(s);
    let w = pow2(e);
    let g = grid(p);
    assert(g * scale == q * w) by (nonlinear_arith)
        requires
            g == m * d,
            m == q * c,
            c * d * scale == w,
    ;
    lemma_gap(p);
    let above = grid(p + 1);
    assert(2 * (q * w) < (g + above) * scale) by (nonlinear_arith)
        requires
            g * scale == q * w,
            above > g,
            scale > 0,
    ;
    if p > 0 {
        lemma_gap((p - 1) as nat);
        let below = grid((p - 1) as nat);
        assert((below + g) * scale < 2 * (q * w)) by (nonlinear_arith)
            requires
                g * scale == q * w,
                below < g,
                scale > 0,
        ;
    }
}

/// What lies far below the smallest number rounds to zero.
proof fn lemma_vanishes(q: nat, sticky: bool, e: nat, t: nat, l: nat, s: nat)
    requires
        q < pow2(l),
        l <= MAX_BITS,
        t == s + BIAS - e,
        t > 120,
        s == (if l + e > 324 { l + e - 324 } else { 0 }),
    ensures
        rounds_to(q, sticky, e, 0),
{
    let scale = pow2(BIAS as nat);
    let w = pow2(e);
    assert(s == 0);
    assert(e <= 179);
    lemma_pow2_adds(l, e);
    lemma_pow2_adds(1, l + e);
    lemma2_to64();
    if l + e + 1 < 300 {
        lemma_pow2_strictly_increases(l + e + 1, 300);
    }
    lemma_pow2_pos(e);
    let a = pow2(l);
    assert(2 * ((q + 1) * w) <= scale) by (nonlinear_arith)
        requires
            q + 1 <= a,
            2 * (a * w) <= scale,
    ;
    assert(2 * (q * w) <= 2 * ((q + 1) * w)) by (nonlinear_arith)
        requires
            w > 0,
    ;
    lemma_gap(0);
    let b = grid(0) + grid(1);
    assert(b == 1);
    assert(b * scale == scale) by (nonlinear_arith)
        requires
            b == 1,
    ;
}

/// What is left after cutting `t` bits is a mantissa.
proof fn lemma_cut(q: nat, l: nat, t: nat, m: nat, s: nat, e: nat)
    requires
        l > 0,
        pow2((l - 1) as nat) <= q < pow2(l),
        t > 0,
        t == s + BIAS - e,
        m == q / pow2(t),
        s == (if l + e > 324 { l + e - 324 } else { 0 }),
    ensures
        m < 2 * BINADE,
        s > 0 ==> m >= BINADE,
        m * pow2(s) * pow2(BIAS as nat) <= q * pow2(e),
{
    lemma2_to64();
    lemma_pow2_pos(t);
    let u = pow2(t);
    lemma_pow2_adds(24, t);
    if l < t + 24 {
        lemma_pow2_strictly_increases(l, t + 24);
    }
    assert(m * u <= q) by {
        vstd::arithmetic::div_mod::lemma_fundamental_div_mod(q as int, u as int);
        vstd::arithmetic::mul::lemma_mul_is_commutative(u as int, m as int);
    }
    assert(m < 0x100_0000) by (nonlinear_arith)
        requires
            m * u <= q,
            q < 0x100_0000 * u,
            u > 0,
    ;
    if s > 0 {
        assert(l == t + 24);
        lemma_pow2_adds(23, t);
        assert(q < (m + 1) * u) by {
            vstd::arithmetic::div_mod::lemma_fundamental_div_mod(q as int, u as int);
            assert((m + 1) * u == u * m + u) by (nonlinear_arith);
        }
        assert(m >= 0x80_0000) by (nonlinear_arith)
            requires
                q < (m + 1) * u,
                q >= 0x80_0000 * u,
                u > 0,
        ;
    }
    lemma_pow2_adds(s, BIAS as nat);
    lemma_pow2_adds(t, e);
    lemma_pow2_pos(e);
    let d = pow2(s);
    let scale = pow2(BIAS as nat);
    let w = pow2(e);
    assert(m * d * scale <= q * w) by (nonlinear_arith)
        requires
            m * u <= q,
            d * scale == u * w,
            w > 0,
    {
        assert(m * d * scale == m * (d * scale));
        assert(m * (u * w) == (m * u) * w);
    }
}

/// Rounding by the bits that were cut.
proof fn lemma_cut_rounds(
    q: nat,
    sticky: bool,
    e: nat,
    t: nat,
    m: nat,
    r: nat,
    s: nat,
    up: bool,
)
    requires
        t > 0,
        t == s + BIAS - e,
        m == q / pow2(t),
        r == q % pow2(t),
        m < 2 * BINADE,
        s > 0 ==> m >= BINADE,
        s < 254,
        up == (r > pow2((t - 1) as nat) || (r == pow2((t - 1) as nat) && (sticky || m % 2 == 1))),
    ensures
        s * BINADE + m < INFINITY_BITS,
        rounds_to(q, sticky, e, if up { s * BINADE as nat + m + 1 } else { s * BINADE as nat + m }),
{
    let p = s * BINADE as nat + m;
    let scale = pow2(BIAS as nat);
    let w = pow2(e);
    let u = pow2(t);
    let half = pow2((t - 1) as nat);
    let d = pow2(s);
    lemma_pow2_pos(BIAS as nat);
    lemma_pow2_pos(e);
    lemma_pow2_pos((t - 1) as nat);
    lemma_pow2_pos(s);
    lemma_pow2_unfold(t);
    lemma_pow2_adds(s, BIAS as nat);
    lemma_pow2_adds(t, e);
    assert(d * scale == u * w);
    vstd::arithmetic::div_mod::lemma_fundamental_div_mod(q as int, u as int);
    assert(q == m * u + r) by (nonlinear_arith)
        requires
            q == u * m + r,
    ;
    lemma_grid_assembled(m, s);
    lemma_grid_assembled(m + 1, s);
    let g = grid(p);
    let g1 = grid(p + 1);
    assert(p + 1 == s * BINADE as nat + (m + 1));
    // Both neighbours and the number between them, on one scale.
    assert(g * scale == m * u * w) by (nonlinear_arith)
        requires
            g == m * d,
            d * scale == u * w,
    ;
    assert(g1 * scale == (m + 1) * u * w) by (nonlinear_arith)
        requires
            g1 == (m + 1) * d,
            d * scale == u * w,
    ;
    assert((g + g1) * scale == 2 * ((m * u + half) * w)) by (nonlinear_arith)
        requires
            g * scale == m * u * w,
            g1 * scale == (m + 1) * u * w,
            u == 2 * half,
    ;
    assert(p % 2 == m % 2);
    lemma_gap(p);
    if up {
        assert(m * u + half <= q);
        assert(2 * ((m * u + half) * w) <= 2 * (q * w)) by (nonlinear_arith)
            requires
                m * u + half <= q,
                w > 0,
        ;
        if r > half {
            assert(2 * ((m * u + half) * w) < 2 * (q * w)) by (nonlinear_arith)
                requires
                    m * u + half < q,
                    w > 0,
            ;
        }
        lemma_gap(p + 1);
        let g2 = grid(p + 2);
        assert(q + 1 <= (m + 1) * u) by (nonlinear_arith)
            requires
                q == m * u + r,
                r < u,
        ;
        assert(2 * ((q + 1) * w) < (g1 + g2) * scale) by (nonlinear_arith)
            requires
                g1 * scale == (m + 1) * u * w,
                q + 1 <= (m + 1) * u,
                g2 > g1,
                scale > 0,
                w > 0,
        {
            assert((q + 1) * w <= (m + 1) * u * w);
        }
        assert(2 * (q * w) <= 2 * ((q + 1) * w)) by (nonlinear_arith)
            requires
                w > 0,
        ;
    } else {
        if r < half {
            assert(q + 1 <= m * u + half);
            assert(2 * ((q + 1) * w) <= 2 * ((m * u + half) * w)) by (nonlinear_arith)
                requires
                    q + 1 <= m * u + half,
                    w > 0,
            ;
            assert(2 * (q * w) < 2 * ((q + 1) * w)) by (nonlinear_arith)
                requires
                    w > 0,
            ;
        } else {
            assert(q == m * u + half);
        }
        if p > 0 {
            lemma_gap((p - 1) as nat);
            let below = grid((p - 1) as nat);
            assert((below + g) * scale < 2 * (q * w)) by (nonlinear_arith)
                requires
                    g * scale == m * u * w,
                    m * u <= q,
                    below < g,
                    scale > 0,
                    w > 0,
            {
                assert(m * u * w <= q * w);
            }
        }
    }
}

/// Rounds the range that `q`, `sticky` and `e` describe.
pub fn round_at(q: u128, sticky: bool, e: u32) -> (p: u32)
    requires
        q < pow2(MAX_BITS as nat),
        e <= 1000,
        sticky ==> q >= STICKY_MIN,
    ensures
        rounds_to(q as nat, sticky, e as nat, p as nat),
{
    let ghost scale = pow2(BIAS as nat);
    let ghost w = pow2(e as nat);
    proof {
        lemma2_to64();
        lemma2_to64_rest();
        lemma_pow2_pos(BIAS as nat);
        lemma_pow2_pos(e as nat);
    }
    if q == 0 {
        proof {
            let b = grid(0) + grid(1);
            assert(b * scale >= 0) by (nonlinear_arith);
            assert(2 * (0 * w) == 0) by (nonlinear_arith);
        }
        return 0;
    }
    let l: u32 = bit_length(q);
    let s: u32 = if l + e > 324 {
        l + e - 324
    } else {
        0
    };
    if s + BIAS <= e {
        // Every bit fits: shift up.
        let k: u32 = e - BIAS - s;
        proof {
            assert(l + k <= 24);
            lemma_pow2_adds(l as nat, k as nat);
            if l + k < 24 {
                lemma_pow2_strictly_increases((l + k) as nat, 24);
            }
            lemma_pow2_pos(k as nat);
            let a = pow2(l as nat);
            let c = pow2(k as nat);
            assert(q * c < 0x100_0000) by (nonlinear_arith)
                requires
                    q < a,
                    a * c <= 0x100_0000,
                    c > 0,
            ;
            if s > 0 {
                lemma_pow2_adds((l - 1) as nat, k as nat);
                let d = pow2((l - 1) as nat);
                assert(q * c >= 0x80_0000) by (nonlinear_arith)
                    requires
                        q >= d,
                        d * c == 0x80_0000,
                        c > 0,
                ;
            }
            if sticky {
                lemma_pow2_strictly_increases(24, 25);
                if l < 26 {
                    if l < 25 {
                        lemma_pow2_strictly_increases(l as nat, 25);
                    }
                    assert(false);
                }
            }
        }
        let unit: u128 = power_of_two(k);
        let m: u128 = q * unit;
        if s >= 254 {
            proof {
                lemma_pow2_adds(k as nat, s as nat);
                lemma_pow2_adds((k + s) as nat, BIAS as nat);
                let c = pow2(k as nat);
                let d = pow2(s as nat);
                assert(m * d * scale <= q * w) by (nonlinear_arith)
                    requires
                        m == q * c,
                        c * d * scale == w,
                ;
                lemma_overflow(q as nat, sticky, e as nat, m as nat, s as nat);
            }
            return INFINITY_BITS;
        }
        let p: u32 = s * BINADE + m as u32;
        proof {
            lemma_exact(q as nat, e as nat, m as nat, s as nat, k as nat, p as nat);
        }
        return p;
    }
    let t: u32 = s + BIAS - e;
    if t > 120 {
        // Less than half of the smallest number.
        proof {
            lemma_vanishes(q as nat, sticky, e as nat, t as nat, l as nat, s as nat);
        }
        return 0;
    }
    let unit: u128 = power_of_two(t);
    let half: u128 = power_of_two(t - 1);
    let m: u128 = q / unit;
    let r: u128 = q % unit;
    proof {
        lemma_pow2_unfold(t as nat);
        lemma_cut(q as nat, l as nat, t as nat, m as nat, s as nat, e as nat);
    }
    if s >= 254 {
        proof {
            lemma_overflow(q as nat, sticky, e as nat, m as nat, s as nat);
        }
        return INFINITY_BITS;
    }
    let p: u32 = s * BINADE + m as u32;
    let up: bool = r > half || (r == half && (sticky || m % 2 == 1));
    proof {
        lemma_cut_rounds(q as nat, sticky, e as nat, t as nat, m as nat, r as nat, s as nat, up);
    }
    if up {
        p + 1
    } else {
        p
    }
}

} // verus!
