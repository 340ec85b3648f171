//! UCB1 scoring in Q16 fixed-point arithmetic: the exploitation average plus
//! an exploration bonus of sqrt(2)/2 times the square root of ln(parent
//! visits) / visits, all over integers. Scores are held in half-point units
//! (a win counts 2, a draw 1), so the plain average fits the same scale.
//!
//! One Q16 unit is 1/65536; 45426 is ln 2 and 46341 is sqrt(2)/2, both in
//! Q16. An unvisited node scores [`UCB_INF`], above every finite score.

use vstd::prelude::*;

use vstd::arithmetic::power2::{
    lemma2_to64, lemma2_to64_rest, lemma_pow2_pos, lemma_pow2_strictly_increases,
    lemma_pow2_unfold, pow2,
};

verus! {

/// The score of an unvisited node: preferred over every visited one.
pub const UCB_INF: u64 = u64::MAX;

/// Every visited node's score is below this bound, and so below
/// [`UCB_INF`].
pub const UCB_FINITE_BOUND: u64 = 0x1_0000_0000;

/// The default exploration constant: sqrt(2)/2 in Q16.
pub const DEFAULT_EXPLORATION: u64 = 46341;

/// The largest accepted exploration constant (256 in Q16): above it the
/// finite-score bound could no longer be promised.
pub const MAX_EXPLORATION: u64 = 0x100_0000;

/// The integer square root: the largest `r` with `r * r <= x`.
pub open spec fn spec_isqrt(x: nat) -> nat
    decreases x,
{
    if x == 0 {
        0
    } else {
        let r = spec_isqrt((x - 1) as nat);
        if (r + 1) * (r + 1) <= x {
            (r + 1) as nat
        } else {
            r
        }
    }
}

/// `spec_isqrt` brackets its argument between consecutive squares.
pub proof fn lemma_isqrt(x: nat)
    ensures
        spec_isqrt(x) * spec_isqrt(x) <= x,
        x < (spec_isqrt(x) + 1) * (spec_isqrt(x) + 1),
    decreases x,
{
    if x == 0 {
        assert(spec_isqrt(0nat) == 0);
        assert(x < (spec_isqrt(x) + 1) * (spec_isqrt(x) + 1)) by (nonlinear_arith)
            requires
                x == 0,
                spec_isqrt(x) == 0,
        ;
    } else {
        lemma_isqrt((x - 1) as nat);
        let r0 = spec_isqrt((x - 1) as nat);
        if (r0 + 1) * (r0 + 1) <= x {
            assert(spec_isqrt(x) == (r0 + 1) as nat);
            assert(x == (r0 + 1) * (r0 + 1));
            assert(x < (spec_isqrt(x) + 1) * (spec_isqrt(x) + 1)) by (nonlinear_arith)
                requires
                    spec_isqrt(x) == r0 + 1,
                    x == (r0 + 1) * (r0 + 1),
            ;
        } else {
            assert(spec_isqrt(x) == r0);
            assert(x < (spec_isqrt(x) + 1) * (spec_isqrt(x) + 1)) by (nonlinear_arith)
                requires
                    spec_isqrt(x) == r0,
                    !((r0 + 1) * (r0 + 1) <= x),
            ;
        }
    }
}

/// Any value bracketed between consecutive squares of `r` is `r`'s square
/// root.
pub proof fn lemma_isqrt_unique(x: nat, r: nat)
    requires
        r * r <= x,
        x < (r + 1) * (r + 1),
    ensures
        r == spec_isqrt(x),
{
    lemma_isqrt(x);
    let s = spec_isqrt(x);
    assert(r == s) by (nonlinear_arith)
        requires
            r * r <= x < (r + 1) * (r + 1),
            s * s <= x < (s + 1) * (s + 1),
    ;
}

/// The integer square root of a 64-bit value, by bisection.
pub fn isqrt64(x: u64) -> (r: u64)
    ensures
        r as nat == spec_isqrt(x as nat),
{
    let mut lo: u64 = 0;
    let mut hi: u64 = 0x1_0000_0000;
    while lo + 1 < hi
        invariant
            lo < hi <= 0x1_0000_0000,
            (lo as int) * (lo as int) <= x as int,
            (hi as int) * (hi as int) > x as int,
        decreases hi - lo,
    {
        let mid = lo + (hi - lo) / 2;
        proof {
            assert((mid as int) * (mid as int) <= 0x1_0000_0000 * 0x1_0000_0000)
                by (nonlinear_arith)
                requires
                    0 <= mid <= 0x1_0000_0000,
            ;
        }
        if (mid as u128) * (mid as u128) <= x as u128 {
            lo = mid;
        } else {
            hi = mid;
        }
    }
    proof {
        lemma_isqrt_unique(x as nat, lo as nat);
    }
    lo
}

/// The floor of the binary logarithm.
pub open spec fn log2_floor(n: nat) -> nat
    decreases n,
{
    if n < 2 {
        0
    } else {
        (1 + log2_floor(n / 2)) as nat
    }
}

/// `log2_floor` brackets its argument between consecutive powers of two.
pub proof fn lemma_log2_floor(n: nat)
    requires
        n >= 1,
    ensures
        pow2(log2_floor(n)) <= n,
        n < pow2(log2_floor(n) + 1),
    decreases n,
{
    if n < 2 {
        lemma2_to64();
    } else {
        lemma_log2_floor(n / 2);
        let k = log2_floor(n / 2);
        lemma_pow2_unfold(k + 1);
        lemma_pow2_unfold(k + 2);
    }
}

/// A 64-bit value's binary logarithm is at most 63.
pub proof fn lemma_log2_floor_64(n: nat)
    requires
        1 <= n <= u64::MAX,
    ensures
        log2_floor(n) <= 63,
{
    lemma_log2_floor(n);
    if log2_floor(n) > 63 {
        lemma2_to64();
        lemma_pow2_strictly_increases(64, log2_floor(n) + 1);
        if log2_floor(n) > 64 {
            lemma_pow2_strictly_increases(64, log2_floor(n));
        }
        assert(pow2(log2_floor(n)) >= pow2(64));
        assert(false);
    }
}

/// The fractional Q-bits of the binary logarithm of `z` (itself in Q16,
/// normalized into [1, 2)), computed digit by digit by repeated squaring:
/// `i` more bits to produce.
pub open spec fn spec_frac(z: nat, i: nat) -> nat
    decreases i,
{
    if i == 0 {
        0
    } else {
        let z2 = (z * z) / 65536;
        if z2 >= 131072 {
            (pow2((i - 1) as nat) + spec_frac(z2 / 2, (i - 1) as nat)) as nat
        } else {
            spec_frac(z2, (i - 1) as nat)
        }
    }
}

/// The fraction produced from `i` digits is below `2^i`.
pub proof fn lemma_frac_bound(z: nat, i: nat)
    ensures
        spec_frac(z, i) < pow2(i),
    decreases i,
{
    lemma_pow2_pos(i);
    if i == 0 {
    } else {
        let z2 = (z * z) / 65536;
        lemma_pow2_unfold(i);
        if z2 >= 131072 {
            lemma_frac_bound(z2 / 2, (i - 1) as nat);
        } else {
            lemma_frac_bound(z2, (i - 1) as nat);
        }
    }
}

/// The binary logarithm in Q16: integer part from `log2_floor`, sixteen
/// fractional digits from `spec_frac` of the normalized mantissa.
pub open spec fn spec_log2_fix(n: nat) -> nat {
    (log2_floor(n) * 65536 + spec_frac(n * 65536 / pow2(log2_floor(n)), 16)) as nat
}

/// The natural logarithm in Q16: the binary logarithm rescaled by ln 2.
pub open spec fn spec_ln_fix(n: nat) -> nat {
    spec_log2_fix(n) * 45426 / 65536
}

/// The natural logarithm of a 64-bit value stays below 3000000 in Q16.
pub proof fn lemma_ln_fix_bound(n: nat)
    requires
        1 <= n <= u64::MAX,
    ensures
        spec_ln_fix(n) < 3000000,
{
    lemma_log2_floor_64(n);
    lemma_frac_bound(n * 65536 / pow2(log2_floor(n)), 16);
    lemma2_to64();
    assert(log2_floor(n) * 65536 <= 63 * 65536) by (nonlinear_arith)
        requires
            log2_floor(n) <= 63,
    ;
    let lf = log2_floor(n);
    let fr = spec_frac(n * 65536 / pow2(lf), 16);
    assert(fr < pow2(16));
    assert(fr <= 65535);
    assert(lf * 65536 >= 0) by (nonlinear_arith);
    assert(spec_log2_fix(n) == (lf * 65536 + fr) as nat);
    assert((lf * 65536 + fr) as nat <= 63 * 65536 + 65535) by (nonlinear_arith)
        requires
            lf <= 63,
            fr <= 65535,
    ;
    assert(spec_log2_fix(n) <= 63 * 65536 + 65535);
    assert(spec_ln_fix(n) <= (63 * 65536 + 65535) * 45426 / 65536) by (nonlinear_arith)
        requires
            spec_log2_fix(n) <= 63 * 65536 + 65535,
            spec_ln_fix(n) == spec_log2_fix(n) * 45426 / 65536,
    ;
}

/// The natural logarithm of `n` in Q16.
pub fn ln_fix(n: u64) -> (r: u64)
    requires
        n >= 1,
    ensures
        r as nat == spec_ln_fix(n as nat),
{
    proof {
        lemma_log2_floor_64(n as nat);
        lemma_log2_floor(n as nat);
    }
    let mut k: u64 = 0;
    let mut m: u64 = n;
    while m >= 2
        invariant
            m >= 1,
            log2_floor(n as nat) == k + log2_floor(m as nat),
            k <= log2_floor(n as nat) <= 63,
        decreases m,
    {
        m = m / 2;
        k += 1;
    }
    let mut d: u64 = 1;
    let mut j: u64 = 0;
    proof {
        lemma2_to64();
    }
    while j < k
        invariant
            j <= k <= 63,
            d as nat == pow2(j as nat),
        decreases k - j,
    {
        proof {
            lemma2_to64();
            lemma2_to64_rest();
            if (j as nat) < 63 {
                lemma_pow2_strictly_increases(j as nat, 63);
            }
            lemma_pow2_unfold(j as nat + 1);
        }
        d = d * 2;
        j += 1;
    }
    let ghost kk = log2_floor(n as nat);
    proof {
        // the normalized mantissa n * 2^16 / 2^k lies in [2^16, 2^17)
        lemma2_to64();
        assert(m == 1);
        assert(k as nat == kk);
        assert(pow2(kk) <= n as nat && (n as nat) < pow2(kk + 1));
        lemma_pow2_unfold(kk + 1);
        assert((n as nat) * 65536 / pow2(kk) >= 65536 && (n as nat) * 65536 / pow2(kk)
            < 131072) by (nonlinear_arith)
            requires
                pow2(kk) <= n as nat,
                (n as nat) < 2 * pow2(kk),
                pow2(kk) >= 1,
        ;
        assert((n as int) * 65536 <= 0xFFFF_FFFF_FFFF_FFFF * 65536) by (nonlinear_arith)
            requires
                n <= 0xFFFF_FFFF_FFFF_FFFF,
        ;
    }
    let z0: u64 = ((n as u128) * 65536 / (d as u128)) as u64;
    let mut z: u64 = z0;
    let mut frac: u64 = 0;
    let mut it: u64 = 0;
    while it < 16
        invariant
            it <= 16,
            65536 <= z < 131072,
            frac < pow2(it as nat),
            spec_frac(z0 as nat, 16) == frac * pow2((16 - it) as nat) + spec_frac(
                z as nat,
                (16 - it) as nat,
            ),
        decreases 16 - it,
    {
        let ghost f0 = frac as nat;
        let ghost z_old = z as nat;
        let ghost rem = (16 - it) as nat;
        proof {
            assert((z as nat) * (z as nat) / 65536 >= 65536 && (z as nat) * (z as nat) / 65536
                < 4 * 65536) by (nonlinear_arith)
                requires
                    65536 <= (z as nat) && (z as nat) < 131072,
            ;
            lemma_pow2_unfold(rem);
            lemma2_to64();
            if (it as nat) < 15 {
                lemma_pow2_strictly_increases(it as nat, 15);
            }
            assert(frac < 32768);
        }
        let z2 = (((z as u128) * (z as u128)) / 65536) as u64;
        if z2 >= 131072 {
            frac = frac * 2 + 1;
            z = z2 / 2;
        } else {
            frac = frac * 2;
            z = z2;
        }
        it += 1;
        proof {
            let p = pow2((rem - 1) as nat);
            assert((2 * f0 + 1) * p == f0 * (2 * p) + p) by (nonlinear_arith);
            assert((2 * f0) * p == f0 * (2 * p)) by (nonlinear_arith);
            assert(spec_frac(z0 as nat, 16) == frac * pow2((16 - it) as nat) + spec_frac(
                z as nat,
                (16 - it) as nat,
            ));
        }
    }
    let lg: u64 = k * 65536 + frac;
    proof {
        lemma2_to64();
        assert(pow2(0) == 1);
        assert(it == 16);
        assert((16 - it) as nat == 0);
        assert(spec_frac(z as nat, 0nat) == 0);
        assert(spec_frac(z0 as nat, 16) == frac * pow2(0) + spec_frac(z as nat, 0nat));
        assert(frac * pow2(0) == frac * 1) by (nonlinear_arith)
            requires
                pow2(0) == 1,
        ;
        assert(spec_frac(z0 as nat, 16) == frac as nat);
        assert(z0 as nat == (n as nat) * 65536 / pow2(kk));
        assert(lg as nat == spec_log2_fix(n as nat));
    }
    lg * 45426 / 65536
}

/// The UCB1 score of a visited node in Q16, from the exploration constant
/// (also in Q16), its accumulated score in half-points, its visit count,
/// and its parent's visit count.
pub open spec fn spec_ucb(c2: nat, score2: nat, n: nat, pn: nat) -> nat {
    (score2 * 32768 / n + c2 * spec_isqrt(spec_ln_fix(pn) * 65536 / n) / 65536) as nat
}

/// Every visited node's UCB1 score is finite: below [`UCB_FINITE_BOUND`],
/// hence below [`UCB_INF`]. An unvisited sibling therefore always outranks
/// it.
pub proof fn lemma_ucb_bounded(c2: nat, score2: nat, n: nat, pn: nat)
    requires
        c2 <= MAX_EXPLORATION,
        1 <= n,
        score2 <= 2 * n,
        1 <= pn <= u64::MAX,
    ensures
        spec_ucb(c2, score2, n, pn) < UCB_FINITE_BOUND,
        spec_ucb(c2, score2, n, pn) < UCB_INF,
{
    assert(score2 * 32768 / n <= 65536) by (nonlinear_arith)
        requires
            1 <= n,
            score2 <= 2 * n,
    ;
    lemma_ln_fix_bound(pn);
    let ratio = spec_ln_fix(pn) * 65536 / n;
    assert(ratio < 3000000 * 65536) by (nonlinear_arith)
        requires
            1 <= n,
            spec_ln_fix(pn) < 3000000,
            ratio == spec_ln_fix(pn) * 65536 / n,
    ;
    lemma_isqrt(ratio);
    let ex = spec_isqrt(ratio);
    assert(ex < 524288) by (nonlinear_arith)
        requires
            ex * ex <= ratio,
            ratio < 3000000 * 65536,
    ;
    assert(c2 * ex / 65536 <= 0x100_0000 * 524288 / 65536) by (nonlinear_arith)
        requires
            ex < 524288,
            c2 <= 0x100_0000,
    ;
}

/// The UCB1 score of a visited node, computed exactly as `spec_ucb` says.
pub fn ucb_value(c2: u64, score2: u64, n: u64, pn: u64) -> (r: u64)
    requires
        c2 <= MAX_EXPLORATION,
        1 <= n,
        score2 <= 2 * n,
        1 <= pn,
    ensures
        r as nat == spec_ucb(c2 as nat, score2 as nat, n as nat, pn as nat),
        r < UCB_FINITE_BOUND,
{
    proof {
        assert((score2 as nat) * 32768 / (n as nat) <= 65536) by (nonlinear_arith)
            requires
                1 <= n as nat,
                score2 as nat <= 2 * (n as nat),
        ;
    }
    let value = (((score2 as u128) * 32768) / (n as u128)) as u64;
    let lnp = ln_fix(pn);
    proof {
        lemma_ln_fix_bound(pn as nat);
    }
    let ratio = lnp * 65536 / n;
    let ex = isqrt64(ratio);
    proof {
        lemma_isqrt(ratio as nat);
        assert(ex < 524288) by (nonlinear_arith)
            requires
                (ex as nat) * (ex as nat) <= (ratio as nat),
                (ratio as nat) < 3000000 * 65536,
        ;
        assert((c2 as int) * (ex as int) <= 0x100_0000 * 524288) by (nonlinear_arith)
            requires
                ex < 524288,
                c2 <= 0x100_0000,
        ;
        lemma_ucb_bounded(c2 as nat, score2 as nat, n as nat, pn as nat);
    }
    value + c2 * ex / 65536
}

} // verus!
