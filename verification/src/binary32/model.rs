//! The numbers of the format, and what it means to round to one of them.

use vstd::arithmetic::power2::lemma_pow2_pos;
use vstd::arithmetic::power2::lemma_pow2_unfold;
use vstd::arithmetic::power2::lemma2_to64;
use vstd::arithmetic::power2::pow2;
use vstd::prelude::*;

verus! {

/// Bit pattern of positive infinity.
pub const INFINITY_BITS: u32 = 0x7f80_0000;

/// Bit pattern of the one NaN that the arithmetic returns.
pub const NAN_BITS: u32 = 0x7fc0_0000;

/// The sign bit.
pub const SIGN_BIT: u32 = 0x8000_0000;

/// The step between two neighbouring exponents, as patterns.
pub const BINADE: u32 = 0x80_0000;

/// A single-precision number, held as its bit pattern. `==` compares patterns;
/// [`Binary32::eq_num`] compares numbers.
#[derive(Clone, Copy, Debug, Default, PartialEq, Eq, Structural)]
pub struct Binary32 {
    pub bits: u32,
}

/// The `p`-th non-negative number of the format, counted from zero, in units of
/// `2^-149`. The pattern of positive infinity stands for `2^128`.
pub open spec fn grid(p: nat) -> nat {
    let exponent = p / BINADE as nat;
    let fraction = p % BINADE as nat;
    if exponent == 0 {
        fraction
    } else {
        (BINADE as nat + fraction) * pow2((exponent - 1) as nat)
    }
}

impl Binary32 {
    /// Is the sign bit set?
    pub open spec fn negative(self) -> bool {
        self.bits >= SIGN_BIT
    }

    /// The pattern without its sign bit.
    pub open spec fn magnitude(self) -> nat {
        if self.bits >= SIGN_BIT {
            (self.bits - SIGN_BIT) as nat
        } else {
            self.bits as nat
        }
    }

    /// Not a number.
    pub open spec fn nan(self) -> bool {
        self.magnitude() > INFINITY_BITS
    }

    /// Plus or minus infinity.
    pub open spec fn infinite(self) -> bool {
        self.magnitude() == INFINITY_BITS
    }

    /// Neither infinite nor NaN.
    pub open spec fn finite(self) -> bool {
        self.magnitude() < INFINITY_BITS
    }

    /// Plus or minus zero.
    pub open spec fn zero(self) -> bool {
        self.magnitude() == 0
    }

    /// The size of the number in units of `2^-149`.
    pub open spec fn size(self) -> nat {
        grid(self.magnitude())
    }

    /// The number itself in units of `2^-149`, infinities standing at `2^128`.
    pub open spec fn units(self) -> int {
        if self.negative() {
            -(self.size() as int)
        } else {
            self.size() as int
        }
    }

    /// Positive zero.
    pub open spec fn zero_spec() -> Binary32 {
        Binary32 { bits: 0 }
    }

    /// The number of sign `negative` whose pattern without sign is `p`.
    pub open spec fn signed(negative: bool, p: nat) -> Binary32 {
        if negative {
            Binary32 { bits: (p + SIGN_BIT) as u32 }
        } else {
            Binary32 { bits: p as u32 }
        }
    }
}

/// `p` is the pattern nearest to `num / den` units, the even one of two equally
/// near. Everything from half a step below `2^128` upwards rounds to infinity.
pub open spec fn nearest(num: nat, den: nat, p: nat) -> bool {
    &&& p <= INFINITY_BITS
    &&& p > 0 ==> {
        let middle = (grid((p - 1) as nat) + grid(p)) * den;
        if p % 2 == 0 {
            middle <= 2 * num
        } else {
            middle < 2 * num
        }
    }
    &&& p < INFINITY_BITS ==> {
        let middle = (grid(p) + grid(p + 1)) * den;
        if p % 2 == 0 {
            2 * num <= middle
        } else {
            2 * num < middle
        }
    }
}

/// The pattern nearest to `num / den` units.
pub open spec fn rounded(num: nat, den: nat) -> nat {
    choose|p: nat| nearest(num, den, p)
}

/// `p` is the pattern nearest to the square root of `square`, in units.
pub open spec fn nearest_root(square: nat, p: nat) -> bool {
    &&& p <= INFINITY_BITS
    &&& p > 0 ==> {
        let middle = grid((p - 1) as nat) + grid(p);
        if p % 2 == 0 {
            middle * middle <= 4 * square
        } else {
            middle * middle < 4 * square
        }
    }
    &&& p < INFINITY_BITS ==> {
        let middle = grid(p) + grid(p + 1);
        if p % 2 == 0 {
            4 * square <= middle * middle
        } else {
            4 * square < middle * middle
        }
    }
}

/// The pattern nearest to the square root of `square`, in units.
pub open spec fn rounded_root(square: nat) -> nat {
    choose|p: nat| nearest_root(square, p)
}

/// The distance from the `p`-th number to the next one.
pub open spec fn gap(p: nat) -> nat {
    let exponent = p / BINADE as nat;
    if exponent == 0 {
        1
    } else {
        pow2((exponent - 1) as nat)
    }
}

/// Neighbours differ by [`gap`].
pub proof fn lemma_gap(p: nat)
    ensures
        grid(p + 1) == grid(p) + gap(p),
        gap(p) >= 1,
{
    let b = BINADE as nat;
    let e = p / b;
    let f = p % b;
    assert(p == e * b + f);
    if e > 0 {
        lemma_pow2_pos((e - 1) as nat);
    }
    if f + 1 < b {
        assert((p + 1) / b == e && (p + 1) % b == f + 1);
        if e > 0 {
            let w = pow2((e - 1) as nat);
            assert((b + (f + 1)) * w == (b + f) * w + w) by (nonlinear_arith);
        }
    } else {
        assert((p + 1) / b == e + 1 && (p + 1) % b == 0);
        let w = pow2(e);
        lemma_pow2_pos(e);
        if e > 0 {
            let v = pow2((e - 1) as nat);
            lemma_pow2_unfold(e);
            assert(w == 2 * v);
            assert((b + 0) * w == (b + f) * v + v) by (nonlinear_arith)
                requires
                    w == 2 * v,
                    f + 1 == b,
            ;
        } else {
            lemma2_to64();
            assert((b + 0) * w == b) by (nonlinear_arith)
                requires
                    w == 1,
            ;
        }
    }
}

/// The numbers grow with their patterns.
pub proof fn lemma_grid_increases(p: nat, q: nat)
    requires
        p < q,
    ensures
        grid(p) < grid(q),
    decreases q - p,
{
    lemma_gap((q - 1) as nat);
    if p + 1 < q {
        lemma_grid_increases(p, (q - 1) as nat);
    }
}

/// Patterns and numbers are ordered alike.
pub proof fn lemma_grid_order(p: nat, q: nat)
    ensures
        p < q <==> grid(p) < grid(q),
        p == q <==> grid(p) == grid(q),
{
    if p < q {
        lemma_grid_increases(p, q);
    } else if q < p {
        lemma_grid_increases(q, p);
    }
}

/// A mantissa `m` at shift `s` is the number with pattern `s * BINADE + m`.
pub proof fn lemma_grid_assembled(m: nat, s: nat)
    requires
        m <= 2 * BINADE,
        s > 0 ==> m >= BINADE,
    ensures
        grid(s * BINADE as nat + m) == m * pow2(s),
{
    let b = BINADE as nat;
    let p = s * b + m;
    lemma_pow2_pos(s);
    lemma2_to64();
    if m < b {
        assert(s == 0);
        assert(p / b == 0 && p % b == m);
        assert(m * pow2(s) == m) by (nonlinear_arith)
            requires
                pow2(s) == 1,
        ;
    } else if m < 2 * b {
        assert(p == (s + 1) * b + (m - b)) by (nonlinear_arith)
            requires
                p == s * b + m,
        ;
        vstd::arithmetic::div_mod::lemma_fundamental_div_mod_converse(
            p as int,
            b as int,
            (s + 1) as int,
            (m - b) as int,
        );
    } else {
        assert(p == (s + 2) * b) by (nonlinear_arith)
            requires
                p == s * b + m,
                m == 2 * b,
        ;
        vstd::arithmetic::div_mod::lemma_fundamental_div_mod_converse(
            p as int,
            b as int,
            (s + 2) as int,
            0,
        );
        lemma_pow2_unfold(s + 1);
        let v = pow2(s);
        let w = pow2(s + 1);
        assert((b + 0) * w == m * v) by (nonlinear_arith)
            requires
                m == 2 * b,
                w == 2 * v,
        ;
    }
}

/// The mantissa of a pattern.
pub open spec fn mantissa(p: nat) -> nat {
    if p < BINADE {
        p
    } else {
        BINADE as nat + p % BINADE as nat
    }
}

/// The shift of a pattern.
pub open spec fn shift(p: nat) -> nat {
    if p < BINADE {
        0
    } else {
        (p / BINADE as nat - 1) as nat
    }
}

/// A number is its mantissa at its shift.
pub proof fn lemma_mantissa_shift(p: nat)
    ensures
        grid(p) == mantissa(p) * pow2(shift(p)),
        mantissa(p) < 2 * BINADE,
        shift(p) > 0 ==> mantissa(p) >= BINADE,
        p == shift(p) * BINADE as nat + mantissa(p),
        p <= INFINITY_BITS ==> shift(p) <= 254,
        p < INFINITY_BITS ==> shift(p) <= 253,
{
    let b = BINADE as nat;
    lemma2_to64();
    if p < b {
        assert(p / b == 0 && p % b == p);
        assert(p * pow2(0) == p) by (nonlinear_arith)
            requires
                pow2(0) == 1,
        ;
    } else {
        assert(p / b >= 1);
        assert(p == (p / b) * b + p % b);
    }
}

/// At most one pattern is nearest.
pub proof fn lemma_nearest_unique(num: nat, den: nat, p: nat, q: nat)
    requires
        den > 0,
        nearest(num, den, p),
        nearest(num, den, q),
    ensures
        p == q,
{
    if p < q {
        lemma_nearest_not_below(num, den, p, q);
    } else if q < p {
        lemma_nearest_not_below(num, den, q, p);
    }
}

proof fn lemma_nearest_not_below(num: nat, den: nat, p: nat, q: nat)
    requires
        den > 0,
        p < q,
    ensures
        !(nearest(num, den, p) && nearest(num, den, q)),
{
    let hi = grid(p) + grid(p + 1);
    let lo = grid((q - 1) as nat) + grid(q);
    lemma_gap(p);
    lemma_grid_order(p, (q - 1) as nat);
    lemma_grid_order(p + 1, q);
    if q == p + 1 {
        assert(lo == hi);
        assert(p % 2 != q % 2);
    } else {
        assert(hi < lo);
        assert(hi * den < lo * den) by (nonlinear_arith)
            requires
                hi < lo,
                den > 0,
        ;
    }
}

/// At most one pattern is nearest to a square root.
pub proof fn lemma_nearest_root_unique(square: nat, p: nat, q: nat)
    requires
        nearest_root(square, p),
        nearest_root(square, q),
    ensures
        p == q,
{
    if p < q {
        lemma_nearest_root_not_below(square, p, q);
    } else if q < p {
        lemma_nearest_root_not_below(square, q, p);
    }
}

proof fn lemma_nearest_root_not_below(square: nat, p: nat, q: nat)
    requires
        p < q,
    ensures
        !(nearest_root(square, p) && nearest_root(square, q)),
{
    let hi = grid(p) + grid(p + 1);
    let lo = grid((q - 1) as nat) + grid(q);
    lemma_grid_order(p, (q - 1) as nat);
    lemma_grid_order(p + 1, q);
    if q == p + 1 {
        assert(lo == hi);
        assert(p % 2 != q % 2);
    } else {
        assert(hi < lo);
        assert(hi * hi < lo * lo) by (nonlinear_arith)
            requires
                hi < lo,
        ;
    }
}

/// What is nearest is what [`rounded`] names.
pub proof fn lemma_rounded(num: nat, den: nat, p: nat)
    requires
        den > 0,
        nearest(num, den, p),
    ensures
        rounded(num, den) == p,
{
    lemma_nearest_unique(num, den, p, rounded(num, den));
}

/// What is nearest to a root is what [`rounded_root`] names.
pub proof fn lemma_rounded_root(square: nat, p: nat)
    requires
        nearest_root(square, p),
    ensures
        rounded_root(square) == p,
{
    lemma_nearest_root_unique(square, p, rounded_root(square));
}

proof fn lemma_nearest_from(num: nat, den: nat, p: nat) -> (r: nat)
    requires
        den > 0,
        p <= INFINITY_BITS,
        p == INFINITY_BITS || num < grid(p + 1) * den,
    ensures
        nearest(num, den, r),
    decreases p,
{
    let g = grid(p);
    lemma_gap(p);
    if g * den <= num {
        if p > 0 {
            lemma_gap((p - 1) as nat);
            let below = grid((p - 1) as nat);
            assert((below + g) * den < 2 * num) by (nonlinear_arith)
                requires
                    g * den <= num,
                    below < g,
                    den > 0,
            ;
        }
        if p == INFINITY_BITS {
            p
        } else {
            let g1 = grid(p + 1);
            lemma_gap(p + 1);
            let g2 = grid(p + 2);
            assert(2 * num < (g1 + g2) * den) by (nonlinear_arith)
                requires
                    num < g1 * den,
                    g1 < g2,
                    den > 0,
            ;
            let middle = (g + g1) * den;
            if 2 * num < middle || (2 * num == middle && p % 2 == 0) {
                p
            } else {
                p + 1
            }
        }
    } else {
        if p == 0 {
            assert(g == 0);
            assert(g * den == 0) by (nonlinear_arith)
                requires
                    g == 0,
            ;
        }
        lemma_nearest_from(num, den, (p - 1) as nat)
    }
}

proof fn lemma_nearest_root_from(square: nat, p: nat) -> (r: nat)
    requires
        p <= INFINITY_BITS,
        p == INFINITY_BITS || square < grid(p + 1) * grid(p + 1),
    ensures
        nearest_root(square, r),
    decreases p,
{
    let g = grid(p);
    lemma_gap(p);
    if g * g <= square {
        if p > 0 {
            lemma_gap((p - 1) as nat);
            let below = grid((p - 1) as nat);
            assert((below + g) * (below + g) < 4 * square) by (nonlinear_arith)
                requires
                    g * g <= square,
                    below < g,
            ;
        }
        if p == INFINITY_BITS {
            p
        } else {
            let g1 = grid(p + 1);
            lemma_gap(p + 1);
            let g2 = grid(p + 2);
            assert(4 * square < (g1 + g2) * (g1 + g2)) by (nonlinear_arith)
                requires
                    square < g1 * g1,
                    g1 < g2,
            ;
            let middle = g + g1;
            if 4 * square < middle * middle || (4 * square == middle * middle && p % 2 == 0) {
                p
            } else {
                p + 1
            }
        }
    } else {
        if p == 0 {
            assert(g == 0);
            assert(g * g == 0) by (nonlinear_arith)
                requires
                    g == 0,
            ;
        }
        lemma_nearest_root_from(square, (p - 1) as nat)
    }
}

/// Every root rounds to something.
pub proof fn lemma_rounded_root_nearest(square: nat)
    ensures
        nearest_root(square, rounded_root(square)),
        rounded_root(square) <= INFINITY_BITS,
{
    let p = lemma_nearest_root_from(square, INFINITY_BITS as nat);
    lemma_rounded_root(square, p);
}

/// Everything rounds to something.
pub proof fn lemma_rounded_nearest(num: nat, den: nat)
    requires
        den > 0,
    ensures
        nearest(num, den, rounded(num, den)),
        rounded(num, den) <= INFINITY_BITS,
{
    let p = lemma_nearest_from(num, den, INFINITY_BITS as nat);
    lemma_rounded(num, den, p);
}

/// A number of the format rounds to itself.
pub proof fn lemma_rounded_exact(p: nat)
    requires
        p <= INFINITY_BITS,
    ensures
        rounded(grid(p), 1) == p,
{
    lemma_gap(p);
    if p > 0 {
        lemma_gap((p - 1) as nat);
    }
    assert(nearest(grid(p), 1, p));
    lemma_rounded(grid(p), 1, p);
}

} // verus!
