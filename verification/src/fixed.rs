//! Fixed-point prices: an `i64` counts billionths of the unit interval.

use vstd::prelude::*;

verus! {

/// The fixed-point representation of `1`.
pub const UNIT: i64 = 1_000_000_000;

/// The largest magnitude a bid can have: twice the unit.
pub const BID_LIMIT: i64 = 2_000_000_000;

/// Degree of the polynomial behind [`decay`].
pub const DECAY_TERMS: u32 = 12;

/// The quotient `a / b` rounded towards negative infinity.
pub fn floor_div(a: i128, b: i128) -> (q: i128)
    requires
        b > 0,
    ensures
        q == a as int / b as int,
{
    if a >= 0 {
        a / b
    } else {
        let m: i128 = -(a + 1);
        let h: i128 = m / b;
        proof {
            let ai: int = a as int;
            let bi: int = b as int;
            assert(m as int == -ai - 1);
            assert(ai / bi == -((-ai - 1) / bi) - 1) by (nonlinear_arith)
                requires
                    ai < 0,
                    bi > 0,
            ;
        }
        -h - 1
    }
}

/// The polynomial `1 - x/k (1 - x/(k+1) (... (1 - x/12)))` at `x = s / UNIT`,
/// each division rounded down to the grid before the next step.
pub open spec fn decay_tail(s: int, k: int) -> int
    decreases DECAY_TERMS + 1 - k,
{
    if 1 <= k <= DECAY_TERMS {
        UNIT - (s * decay_tail(s, k + 1)) / (k * UNIT)
    } else {
        UNIT as int
    }
}

/// The fixed-point stand-in for `e^(-s)`: the Taylor polynomial of degree
/// twelve of the exponential, evaluated innermost term first.
pub open spec fn decay(s: int) -> int {
    decay_tail(s, 1)
}

/// Every partial evaluation of the polynomial stays between `UNIT - s / k`
/// and `UNIT`.
pub proof fn lemma_decay_tail_bounds(s: int, k: int)
    requires
        0 <= s <= UNIT,
        1 <= k,
    ensures
        0 <= UNIT - s <= decay_tail(s, k) <= UNIT,
    decreases DECAY_TERMS + 1 - k,
{
    if k <= DECAY_TERMS {
        lemma_decay_tail_bounds(s, k + 1);
        let h = decay_tail(s, k + 1);
        let q = (s * h) / (k * UNIT);
        assert(0 <= q <= s) by (nonlinear_arith)
            requires
                0 <= s <= UNIT,
                0 <= h <= UNIT,
                1 <= k,
                q == (s * h) / (k * UNIT),
        ;
    }
}

/// No shading leaves a bid whole, and the factor never leaves the band
/// between `1 - s` and `1`, as `e^(-s)` does not.
pub proof fn lemma_decay_bounds(s: int)
    requires
        0 <= s <= UNIT,
    ensures
        UNIT - s <= decay(s) <= UNIT,
        s == 0 ==> decay(s) == UNIT,
{
    lemma_decay_tail_bounds(s, 1);
}

/// The factor lies below `1 - s + s^2 / 2`, up to one step of the grid, as
/// `e^(-s)` does.
pub proof fn lemma_decay_curves(s: int)
    requires
        0 <= s <= UNIT,
    ensures
        decay(s) <= UNIT - s + (s * s) / (2 * UNIT) + 1,
{
    let u = UNIT as int;
    lemma_decay_tail_bounds(s, 3);
    let h2 = decay_tail(s, 3);
    let h1 = decay_tail(s, 2);
    assert(h1 == u - (s * h2) / (2 * u));
    assert((s * h2) / (2 * u) <= s / 2) by (nonlinear_arith)
        requires
            0 <= s,
            0 <= h2 <= u,
            u > 0,
    ;
    assert(decay(s) == u - (s * h1) / (1 * u));
    assert((s * h1) / u >= s - (s * s) / (2 * u) - 1) by (nonlinear_arith)
        requires
            0 <= s <= u,
            u - s / 2 <= h1,
            u > 0,
    ;
}

/// The common denominator of the exact polynomial from its `k`-th factor on:
/// the product of `j * UNIT` for `j` from `k` to twelve.
pub open spec fn series_den(k: int) -> int
    decreases DECAY_TERMS + 1 - k,
{
    if 1 <= k <= DECAY_TERMS {
        k * UNIT * series_den(k + 1)
    } else {
        1
    }
}

/// The exact value of `1 - x/k (1 - x/(k+1) (... (1 - x/12)))` at
/// `x = s / UNIT`, as a numerator over [`series_den`].
pub open spec fn series_num(s: int, k: int) -> int
    decreases DECAY_TERMS + 1 - k,
{
    if 1 <= k <= DECAY_TERMS {
        k * UNIT * series_den(k + 1) - s * series_num(s, k + 1)
    } else {
        1
    }
}

/// Rounding costs each partial evaluation at most two steps of the grid
/// against the exact polynomial, and the whole at most three.
pub proof fn lemma_decay_tail_exact(s: int, k: int)
    requires
        0 <= s <= UNIT,
        1 <= k <= DECAY_TERMS + 1,
    ensures
        series_den(k) > 0,
        k >= 2 ==> -2 * series_den(k) <= decay_tail(s, k) * series_den(k) - UNIT * series_num(s, k)
            <= 2 * series_den(k),
        -3 * series_den(k) <= decay_tail(s, k) * series_den(k) - UNIT * series_num(s, k) <= 3
            * series_den(k),
    decreases DECAY_TERMS + 1 - k,
{
    if k <= DECAY_TERMS {
        lemma_decay_tail_exact(s, k + 1);
        lemma_decay_tail_bounds(s, k + 1);
        let u = UNIT as int;
        let d = series_den(k + 1);
        let n = series_num(s, k + 1);
        let t = decay_tail(s, k + 1);
        let step = k * u;
        let q = (s * t) / step;
        let r = (s * t) % step;
        assert(s * t == q * step + r && 0 <= r < step) by (nonlinear_arith)
            requires
                step > 0,
                q == (s * t) / step,
                r == (s * t) % step,
        ;
        let gap = t * d - u * n;
        let next = (u - q) * (step * d) - u * (step * d - s * n);
        assert(series_den(k) == step * d);
        assert(series_num(s, k) == step * d - s * n);
        assert(decay_tail(s, k) == u - q);
        assert(step * d > 0) by (nonlinear_arith)
            requires
                step > 0,
                d > 0,
        ;
        let whole = step * d;
        assert((u - q) * whole == u * whole - q * whole) by (nonlinear_arith);
        assert(u * (whole - s * n) == u * whole - u * (s * n)) by (nonlinear_arith);
        assert(s * gap == s * (t * d) - s * (u * n)) by (nonlinear_arith)
            requires
                gap == t * d - u * n,
        ;
        assert(s * (t * d) == (s * t) * d) by (nonlinear_arith);
        assert((q * step + r) * d == q * whole + r * d) by (nonlinear_arith)
            requires
                whole == step * d,
        ;
        assert(s * (u * n) == u * (s * n)) by (nonlinear_arith);
        assert(next == r * d - s * gap);
        assert(-(step * d) - s * (2 * d) <= next <= step * d + s * (2 * d)) by (nonlinear_arith)
            requires
                next == r * d - s * gap,
                0 <= r < step,
                0 <= s,
                d > 0,
                -2 * d <= gap <= 2 * d,
        ;
        if k >= 2 {
            assert(step * d + s * (2 * d) <= 2 * (step * d)) by (nonlinear_arith)
                requires
                    step == k * u,
                    k >= 2,
                    0 <= s <= u,
                    d > 0,
            ;
        } else {
            assert(step * d + s * (2 * d) <= 3 * (step * d)) by (nonlinear_arith)
                requires
                    step == k * u,
                    k == 1,
                    0 <= s <= u,
                    d > 0,
            ;
        }
    }
}

/// The factor is within three steps of the grid of the Taylor polynomial of
/// degree twelve of `e^(-x)` at `x = s / UNIT`, taken exactly.
pub proof fn lemma_decay_exact(s: int)
    requires
        0 <= s <= UNIT,
    ensures
        series_den(1) > 0,
        -3 * series_den(1) <= decay(s) * series_den(1) - UNIT * series_num(s, 1) <= 3 * series_den(
            1,
        ),
{
    lemma_decay_tail_exact(s, 1);
}

/// Computes [`decay`].
pub fn decay_factor(s: i64) -> (r: i64)
    requires
        0 <= s <= UNIT,
    ensures
        r == decay(s as int),
        UNIT - s <= r <= UNIT,
{
    let mut h: i64 = UNIT;
    let mut k: u32 = DECAY_TERMS;
    while k > 0
        invariant
            0 <= s <= UNIT,
            k <= DECAY_TERMS,
            0 <= h <= UNIT,
            h == decay_tail(s as int, k + 1),
        decreases k,
    {
        proof {
            assert(0 <= s * h <= 1_000_000_000_000_000_000) by (nonlinear_arith)
                requires
                    0 <= s <= 1_000_000_000,
                    0 <= h <= 1_000_000_000,
            ;
            lemma_decay_tail_bounds(s as int, k as int);
        }
        let num: i64 = s * h;
        let den: i64 = (k as i64) * UNIT;
        h = UNIT - num / den;
        k -= 1;
    }
    proof {
        lemma_decay_bounds(s as int);
    }
    h
}

} // verus!
