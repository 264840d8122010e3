//! Fixed-point arithmetic for the upper-confidence selection score. The
//! score balances a node's observed win rate against an exploration bonus,
//! sqrt(ln(parent playouts + playouts) / playouts), computed here with 16
//! fractional bits so that every step is exact integer arithmetic.
use vstd::prelude::*;

verus! {

use vstd::arithmetic::power2::pow2;
use vstd::arithmetic::power2::lemma_pow2_unfold;
use vstd::arithmetic::power2::lemma_pow2_pos;
use vstd::arithmetic::power2::lemma_pow2_strictly_increases;

/// Fixed-point scale: 16 fractional bits.
pub const SCORE_SCALE: u64 = 65536;

/// Largest win or playout count the score arithmetic accepts.
pub const COUNT_LIMIT: u64 = 0x100_0000_0000;

/// Largest exploration constant the score arithmetic accepts.
pub const EXPLORE_LIMIT: u64 = 65536;

/// ln(2) in 16-bit fixed point.
pub const LN2_FIX: u64 = 45426;

/// The integer square root: the largest r with r * r <= x.
pub open spec fn spec_isqrt(x: int) -> int {
    choose|r: int| 0 <= r && #[trigger] (r * r) <= x && (r + 1) * (r + 1) > x
}

/// A value with the square-root property is the integer square root.
proof fn lemma_isqrt_is(x: int, r: int)
    requires
        x >= 0,
        0 <= r,
        r * r <= x,
        (r + 1) * (r + 1) > x,
    ensures
        r == spec_isqrt(x),
{
    assert(0 <= r && #[trigger] (r * r) <= x && (r + 1) * (r + 1) > x);
    let rr = spec_isqrt(x);
    assert(0 <= rr && rr * rr <= x && (rr + 1) * (rr + 1) > x);
    assert(rr == r) by (nonlinear_arith)
        requires
            0 <= r,
            0 <= rr,
            r * r <= x,
            (r + 1) * (r + 1) > x,
            rr * rr <= x,
            (rr + 1) * (rr + 1) > x;
}

/// Integer square root by binary search.
pub fn isqrt(x: u64) -> (r: u64)
    ensures
        r as int == spec_isqrt(x as int),
        r as int * r as int <= x as int,
        (r as int + 1) * (r as int + 1) > x as int,
{
    if x == 0 {
        proof {
            lemma_isqrt_is(0, 0);
        }
        return 0;
    }
    let mut lo: u64 = 0;
    let mut hi: u64 = 0x1_0000_0000;
    proof {
        assert((hi as int) * (hi as int) > x as int) by (nonlinear_arith)
            requires
                hi == 0x1_0000_0000u64,
                x <= u64::MAX;
    }
    while hi - lo > 1
        invariant
            lo < hi <= 0x1_0000_0000u64,
            (lo as int) * (lo as int) <= x as int,
            (hi as int) * (hi as int) > x as int,
        decreases hi - lo,
    {
        let mid = lo + (hi - lo) / 2;
        proof {
            assert((mid as int) * (mid as int) <= 0x1_0000_0000_0000_0000) by (nonlinear_arith)
                requires
                    mid <= 0x1_0000_0000u64;
        }
        if (mid as u128) * (mid as u128) <= x as u128 {
            lo = mid;
        } else {
            hi = mid;
        }
    }
    proof {
        assert(hi == lo + 1);
        lemma_isqrt_is(x as int, lo as int);
    }
    lo
}

/// The position of the highest set bit: the largest k with 2^k <= x.
pub open spec fn spec_msb(x: nat) -> nat
    decreases x,
{
    if x < 2 {
        0
    } else {
        1 + spec_msb(x / 2)
    }
}

/// The highest set bit brackets its value between two powers of two.
proof fn lemma_msb_bounds(x: nat)
    requires
        x >= 1,
    ensures
        pow2(spec_msb(x)) <= x < pow2(spec_msb(x) + 1),
    decreases x,
{
    if x < 2 {
        vstd::arithmetic::power2::lemma2_to64();
    } else {
        lemma_msb_bounds(x / 2);
        let k = spec_msb(x / 2);
        lemma_pow2_unfold(k + 1);
        if spec_msb(x) == k + 1 {
            assert(pow2(k + 1) <= 2 * (x / 2) <= x);
            lemma_pow2_unfold(k + 2);
            assert(x <= 2 * (x / 2) + 1 < 2 * pow2(k + 1));
        }
    }
}

/// The highest set bit of a value below 2^42 is below 42.
proof fn lemma_msb_small(x: nat)
    requires
        1 <= x < 0x400_0000_0000,
    ensures
        spec_msb(x) <= 41,
{
    lemma_msb_bounds(x);
    if spec_msb(x) > 41 {
        vstd::arithmetic::power2::lemma2_to64_rest();
        if spec_msb(x) > 42 {
            lemma_pow2_strictly_increases(42, spec_msb(x));
        }
        assert(pow2(spec_msb(x)) >= 0x400_0000_0000);
        assert(false);
    }
}

/// The fractional fixed-point bits of log2 of a mantissa in [1, 2), computed
/// by repeated squaring, most significant bit first.
pub open spec fn frac_bits(m: nat, steps: nat) -> nat
    decreases steps,
{
    if steps == 0 {
        0
    } else {
        let m2 = m * m / 65536;
        if m2 >= 131072 {
            pow2((steps - 1) as nat) + frac_bits(m2 / 2, (steps - 1) as nat)
        } else {
            frac_bits(m2, (steps - 1) as nat)
        }
    }
}

/// The fractional bits fit below 2^steps.
proof fn lemma_frac_bits_bound(m: nat, steps: nat)
    ensures
        frac_bits(m, steps) < pow2(steps),
    decreases steps,
{
    lemma_pow2_pos(steps);
    if steps > 0 {
        let m2 = m * m / 65536;
        lemma_pow2_unfold(steps);
        if m2 >= 131072 {
            lemma_frac_bits_bound(m2 / 2, (steps - 1) as nat);
        } else {
            lemma_frac_bits_bound(m2, (steps - 1) as nat);
        }
    }
}

/// log2(x) in 16-bit fixed point: integer part from the highest set bit,
/// fractional part from squaring the mantissa.
pub open spec fn spec_log2_fix(x: nat) -> nat {
    spec_msb(x) * 65536 + frac_bits(x * 65536 / pow2(spec_msb(x)), 16)
}

/// ln(x) in 16-bit fixed point.
pub open spec fn spec_ln_fix(x: nat) -> nat {
    spec_log2_fix(x) * 45426 / 65536
}

/// The position of the highest set bit, by repeated halving.
fn floor_log2(x: u64) -> (k: u64)
    requires
        x >= 1,
    ensures
        k as nat == spec_msb(x as nat),
        k <= 63,
    {
    let mut v: u64 = x;
    let mut k: u64 = 0;
    proof {
        vstd::arithmetic::power2::lemma2_to64();
        assert(pow2(0) * (x as nat) == x as nat) by (nonlinear_arith)
            requires
                pow2(0) == 1;
    }
    while v >= 2
        invariant
            v >= 1,
            spec_msb(x as nat) == k + spec_msb(v as nat),
            k <= 63,
            v <= x,
            // each halving at least halves v, so k stays below 64
            pow2(k as nat) * v <= x as nat,
        decreases v,
    {
        proof {
            assert(spec_msb(v as nat) == 1 + spec_msb((v / 2) as nat));
            lemma_pow2_unfold(k as nat + 1);
            assert(pow2(k as nat + 1) * ((v / 2) as nat) <= pow2(k as nat) * v <= x as nat)
                by (nonlinear_arith)
                requires
                    v >= 2,
                    pow2(k as nat + 1) == 2 * pow2(k as nat),
                    pow2(k as nat) * v <= x as nat;
            lemma_pow2_pos(k as nat + 1);
            if k + 1 > 63 {
                vstd::arithmetic::power2::lemma2_to64();
                if k + 1 > 64 {
                    lemma_pow2_strictly_increases(64, k as nat + 1);
                }
                assert(pow2(k as nat + 1) >= 0x1_0000_0000_0000_0000);
                assert(pow2(k as nat + 1) * ((v / 2) as nat) >= pow2(k as nat + 1))
                    by (nonlinear_arith)
                    requires
                        (v / 2) as nat >= 1,
                        pow2(k as nat + 1) > 0;
                assert(false);
            }
        }
        v = v / 2;
        k = k + 1;
    }
    k
}

/// 2^k as a run-time value.
fn pow2_exec(k: u64) -> (d: u64)
    requires
        k <= 63,
    ensures
        d as nat == pow2(k as nat),
        d >= 1,
{
    let mut d: u64 = 1;
    let mut i: u64 = 0;
    proof {
        vstd::arithmetic::power2::lemma2_to64();
    }
    while i < k
        invariant
            i <= k <= 63,
            d as nat == pow2(i as nat),
        decreases k - i,
    {
        proof {
            lemma_pow2_unfold(i as nat + 1);
            if i < 63 {
                lemma_pow2_strictly_increases(i as nat, 63);
            }
            vstd::arithmetic::power2::lemma2_to64();
            vstd::arithmetic::power2::lemma2_to64_rest();
        }
        d = d * 2;
        i = i + 1;
    }
    proof {
        lemma_pow2_pos(k as nat);
    }
    d
}

/// ln(x) in 16-bit fixed point.
pub fn ln_fix(x: u64) -> (r: u64)
    requires
        1 <= x < 0x400_0000_0000,
    ensures
        r as nat == spec_ln_fix(x as nat),
        r < 0x30_0000,
{
    let k = floor_log2(x);
    proof {
        lemma_msb_small(x as nat);
        lemma_msb_bounds(x as nat);
        lemma_pow2_unfold(k as nat + 1);
    }
    let d = pow2_exec(k);
    let m0: u64 = (x * 65536) / d;
    proof {
        let xn = x as nat;
        let dn = pow2(k as nat);
        assert(m0 as nat == xn * 65536 / dn);
        assert(65536 <= xn * 65536 / dn < 131072) by (nonlinear_arith)
            requires
                dn >= 1,
                dn <= xn,
                xn < 2 * dn;
    }

    let mut m: u64 = m0;
    let mut frac: u64 = 0;
    let mut step: u64 = 0;
    proof {
        vstd::arithmetic::power2::lemma2_to64();
    }
    while step < 16
        invariant
            step <= 16,
            65536 <= m < 131072,
            frac < pow2(step as nat),
            frac_bits(m0 as nat, 16) == frac * pow2((16 - step) as nat) + frac_bits(
                m as nat,
                (16 - step) as nat,
            ),
        decreases 16 - step,
    {
        proof {
            vstd::arithmetic::power2::lemma2_to64();
            assert((m as nat) * (m as nat) < 0x4_0000_0000_0000) by (nonlinear_arith)
                requires
                    m < 131072;
        }
        let m2 = (m * m) / 65536;
        proof {
            assert(65536 <= m2 < 262144) by (nonlinear_arith)
                requires
                    65536 <= m < 131072,
                    m2 == m * m / 65536;
            let rest = (16 - step) as nat;
            assert(frac_bits(m as nat, rest) == if (m as nat * m as nat / 65536) >= 131072 {
                pow2((rest - 1) as nat) + frac_bits((m as nat * m as nat / 65536) / 2,
                    (rest - 1) as nat)
            } else {
                frac_bits(m as nat * m as nat / 65536, (rest - 1) as nat)
            });
            lemma_pow2_unfold(rest);
            lemma_pow2_unfold(step as nat + 1);
            lemma_pow2_strictly_increases(step as nat, 16);
            let fr = frac as nat;
            let p1 = pow2((rest - 1) as nat);
            assert(pow2(rest) == 2 * p1);
            assert(fr * pow2(rest) == (2 * fr) * p1) by (nonlinear_arith)
                requires
                    pow2(rest) == 2 * p1;
            assert((2 * fr + 1) * p1 == (2 * fr) * p1 + p1) by (nonlinear_arith);
        }
        if m2 >= 131072 {
            m = m2 / 2;
            frac = frac * 2 + 1;
        } else {
            m = m2;
            frac = frac * 2;
        }
        step += 1;
    }

    proof {
        vstd::arithmetic::power2::lemma2_to64();
        assert(frac_bits(m0 as nat, 16) == frac * pow2(0) + frac_bits(m as nat, 0));
        lemma_frac_bits_bound(m0 as nat, 16);
        assert(spec_log2_fix(x as nat) == k as nat * 65536 + frac as nat);
    }
    let log2fix: u64 = k * 65536 + frac;
    let r: u64 = (log2fix * LN2_FIX) / SCORE_SCALE;
    proof {
        assert(log2fix <= 41 * 65536 + 65535);
        assert(r as nat == spec_ln_fix(x as nat));
    }
    r
}

/// The selection score in 16-bit fixed point: the observed win rate plus an
/// exploration bonus, explore * sqrt(ln(parent playouts + playouts) /
/// playouts). A column with no playouts yet scores above everything, which
/// plays the role of the small epsilon in the textbook formula.
pub open spec fn spec_score(wins: u64, playouts: u64, parent_playouts: u64, explore: u64) -> int {
    if playouts == 0 {
        u64::MAX as int
    } else {
        wins as int * 65536 / playouts as int + explore as int * spec_isqrt(
            spec_ln_fix((parent_playouts + playouts) as nat) as int * 65536 / playouts as int,
        )
    }
}

/// The selection score of a node with the given statistics, against its
/// parent's playout count.
pub fn get_score(wins: u64, playouts: u64, parent_playouts: u64, explore: u64) -> (score: u64)
    requires
        wins <= COUNT_LIMIT,
        playouts <= COUNT_LIMIT,
        parent_playouts <= COUNT_LIMIT,
        explore <= EXPLORE_LIMIT,
    ensures
        score as int == spec_score(wins, playouts, parent_playouts, explore),
{
    if playouts == 0 {
        return u64::MAX;
    }
    let exploit = wins * SCORE_SCALE / playouts;
    let x = parent_playouts + playouts;
    let l = ln_fix(x);
    let t = (l * SCORE_SCALE) / playouts;
    let root = isqrt(t);
    proof {
        assert((root as int) * (root as int) <= t as int);
        assert(root < 0x10_0000) by (nonlinear_arith)
            requires
                (root as int) * (root as int) <= t as int,
                t < 0x30_0000u64 * 65536;
        assert(exploit <= wins * 65536) by (nonlinear_arith)
            requires
                playouts >= 1,
                exploit == (wins as int) * 65536 / (playouts as int);
        assert((explore as int) * (root as int) <= 0x10000 * 0x10_0000) by (nonlinear_arith)
            requires
                explore <= 0x10000u64,
                root <= 0x10_0000u64;
    }
    exploit + explore * root
}

} // verus!
