//! Fixed-point frecency score arithmetic.
//!
//! A score lives in "decayed log space": it records, in base-2 logarithm,
//! the exponentially decayed accumulation of visits as of the moment of the
//! last update, measured in units of the 30-day half-life.  Concretely a
//! score `s` updated at time `t` stands for `log2(weight) + t / half_life`,
//! and a further visit at time `now` turns an existing score `s` into
//!
//! ```text
//!     nd + log2(2^(s - nd) + 1)        where nd = now / half_life
//! ```
//!
//! which lets repeated visits accumulate while old ones fade, without
//! storing a timestamp per visit.  Scores are comparable only at a common
//! `now`; comparison order is unaffected by the common decay offset.
//!
//! All arithmetic is integer fixed point with 32 fractional bits, so every
//! step is exact integer math with a verified mirror: `exp2` over the
//! fractional part uses a table of the 32 constants `2^(2^-k)`, and `log2`
//! of a value in `[1, 2)` uses the classic squaring loop.

use vstd::prelude::*;

verus! {

use vstd::arithmetic::div_mod::{
    lemma_div_is_ordered, lemma_div_is_ordered_by_denominator, lemma_div_plus_one,
    lemma_div_pos_is_pos,
};
use vstd::arithmetic::mul::lemma_mul_inequality;

/// One unit — a single half-life — in fixed-point scale (2^32).
pub const SCALE: u64 = 4294967296;

/// Seconds in the 30-day half-life of a visit's contribution.
pub const HALF_LIFE_SECS: u64 = 2592000;

/// Largest accepted clock reading, in seconds since the epoch (2^40,
/// roughly 34000 years): keeps every decay offset comfortably inside i64.
pub const MAX_NOW_SECS: u64 = 1099511627776;

/// Upper bound on any decay offset: `MAX_NOW_SECS * SCALE / HALF_LIFE_SECS`
/// is below 2^51.
pub const MAX_DECAY: i64 = 2251799813685248;

/// Mathematical power of two.
pub open spec fn pow2i(e: nat) -> int
    decreases e,
{
    if e == 0 {
        1
    } else {
        2 * pow2i((e - 1) as nat)
    }
}

proof fn lemma_pow2i_values()
    ensures
        pow2i(31) == 2147483648,
        pow2i(32) == 4294967296,
{
    reveal_with_fuel(pow2i, 33);
}

proof fn lemma_pow2i_pos(e: nat)
    ensures
        pow2i(e) >= 1,
    decreases e,
{
    if e > 0 {
        lemma_pow2i_pos((e - 1) as nat);
    }
}

proof fn lemma_pow2i_le(a: nat, b: nat)
    requires
        a <= b,
    ensures
        pow2i(a) <= pow2i(b),
    decreases b,
{
    if a < b {
        lemma_pow2i_le(a, (b - 1) as nat);
        lemma_pow2i_pos((b - 1) as nat);
    }
}

/// 2^e for e <= 32.
fn pow2_exec(e: u64) -> (r: u64)
    requires
        e <= 32,
    ensures
        r as int == pow2i(e as nat),
        1 <= r,
{
    let mut r: u64 = 1;
    let mut j: u64 = 0;
    while j < e
        invariant
            j <= e,
            e <= 32,
            r as int == pow2i(j as nat),
            1 <= r,
        decreases e - j,
    {
        proof {
            lemma_pow2i_le(j as nat, 31);
            lemma_pow2i_values();
        }
        r = r * 2;
        j = j + 1;
    }
    r
}

/// `floor(2^(2^(j-32)) * 2^32)` for `j` in `0..32`: the multiplier that a set
/// bit `j` of the fractional exponent contributes.
pub open spec fn spec_exp2_bit(j: int) -> int {
    if j == 0 { 4294967296 }
    else if j == 1 { 4294967297 }
    else if j == 2 { 4294967298 }
    else if j == 3 { 4294967301 }
    else if j == 4 { 4294967307 }
    else if j == 5 { 4294967318 }
    else if j == 6 { 4294967340 }
    else if j == 7 { 4294967384 }
    else if j == 8 { 4294967473 }
    else if j == 9 { 4294967650 }
    else if j == 10 { 4294968005 }
    else if j == 11 { 4294968715 }
    else if j == 12 { 4294970135 }
    else if j == 13 { 4294972974 }
    else if j == 14 { 4294978652 }
    else if j == 15 { 4294990009 }
    else if j == 16 { 4295012722 }
    else if j == 17 { 4295058149 }
    else if j == 18 { 4295149004 }
    else if j == 19 { 4295330720 }
    else if j == 20 { 4295694174 }
    else if j == 21 { 4296421177 }
    else if j == 22 { 4297875550 }
    else if j == 23 { 4300785773 }
    else if j == 24 { 4306612133 }
    else if j == 25 { 4318288543 }
    else if j == 26 { 4341736423 }
    else if j == 27 { 4389014833 }
    else if j == 28 { 4485121743 }
    else if j == 29 { 4683695047 }
    else if j == 30 { 5107605667 }
    else { 6074000999 }
}

fn exp2_bit(j: u64) -> (r: u64)
    requires
        j < 32,
    ensures
        r as int == spec_exp2_bit(j as int),
        4294967296 <= r < 8589934592,
{
    if j == 0 { 4294967296 }
    else if j == 1 { 4294967297 }
    else if j == 2 { 4294967298 }
    else if j == 3 { 4294967301 }
    else if j == 4 { 4294967307 }
    else if j == 5 { 4294967318 }
    else if j == 6 { 4294967340 }
    else if j == 7 { 4294967384 }
    else if j == 8 { 4294967473 }
    else if j == 9 { 4294967650 }
    else if j == 10 { 4294968005 }
    else if j == 11 { 4294968715 }
    else if j == 12 { 4294970135 }
    else if j == 13 { 4294972974 }
    else if j == 14 { 4294978652 }
    else if j == 15 { 4294990009 }
    else if j == 16 { 4295012722 }
    else if j == 17 { 4295058149 }
    else if j == 18 { 4295149004 }
    else if j == 19 { 4295330720 }
    else if j == 20 { 4295694174 }
    else if j == 21 { 4296421177 }
    else if j == 22 { 4297875550 }
    else if j == 23 { 4300785773 }
    else if j == 24 { 4306612133 }
    else if j == 25 { 4318288543 }
    else if j == 26 { 4341736423 }
    else if j == 27 { 4389014833 }
    else if j == 28 { 4485121743 }
    else if j == 29 { 4683695047 }
    else if j == 30 { 5107605667 }
    else { 6074000999 }
}

/// State of the fractional `exp2` after the lowest `j` bits of `f` have been
/// folded in.  Every step truncates downward, so the running product can
/// never reach 2.0; the clamp only serves the verifier.
pub open spec fn spec_exp2_loop(f: int, j: nat) -> int
    decreases j,
{
    if j == 0 {
        SCALE as int
    } else {
        let y = spec_exp2_loop(f, (j - 1) as nat);
        if (f / pow2i((j - 1) as nat)) % 2 == 1 {
            let y2 = y * spec_exp2_bit(j - 1) / (SCALE as int);
            if y2 > 2 * SCALE - 1 {
                2 * SCALE - 1
            } else {
                y2
            }
        } else {
            y
        }
    }
}

/// `floor(2^(f / SCALE) * SCALE)` (up to the table's truncation) for
/// `0 <= f < SCALE`.
pub open spec fn spec_exp2_frac(f: int) -> int {
    spec_exp2_loop(f, 32)
}

fn exp2_frac(f: u64) -> (r: u64)
    requires
        f < SCALE,
    ensures
        r as int == spec_exp2_frac(f as int),
        SCALE <= r < 2 * SCALE,
{
    let mut y: u64 = SCALE;
    let mut p: u64 = 1;
    let mut j: u64 = 0;
    while j < 32
        invariant
            j <= 32,
            p as int == pow2i(j as nat),
            1 <= p,
            y as int == spec_exp2_loop(f as int, j as nat),
            SCALE <= y <= 2 * SCALE - 1,
            f < SCALE,
        decreases 32 - j,
    {
        if (f / p) % 2 == 1 {
            let c = exp2_bit(j);
            proof {
                assert((y as u128) * (c as u128) == (y as int) * (c as int)
                    && (y as int) * (c as int) < 340282366920938463463374607431768211455)
                    by (nonlinear_arith)
                    requires 0 <= y <= 2 * SCALE as int, 0 <= c <= 2 * SCALE as int;
            }
            let prod: u128 = (y as u128) * (c as u128) / (SCALE as u128);
            proof {
                // prod stays below 2^64, and is at least y again
                assert((y as int) * (c as int) <= (2 * SCALE as int) * (2 * SCALE as int))
                    by (nonlinear_arith)
                    requires 0 <= y <= 2 * SCALE as int, 0 <= c <= 2 * SCALE as int;
                lemma_div_is_ordered(
                    (y as int) * (c as int),
                    (2 * SCALE as int) * (2 * SCALE as int),
                    SCALE as int,
                );
                assert((2 * SCALE as int) * (2 * SCALE as int) / (SCALE as int) == 4 * SCALE)
                    by (nonlinear_arith);
                assert((y as int) * (SCALE as int) <= (y as int) * (c as int))
                    by (nonlinear_arith)
                    requires 0 <= y, SCALE <= c;
                lemma_div_is_ordered(
                    (y as int) * (SCALE as int),
                    (y as int) * (c as int),
                    SCALE as int,
                );
                assert((y as int) * (SCALE as int) / (SCALE as int) == y as int)
                    by (nonlinear_arith)
                    requires SCALE as int > 0;
            }
            let y2 = prod as u64;
            if y2 > 2 * SCALE - 1 {
                y = 2 * SCALE - 1;
            } else {
                y = y2;
            }
        }
        proof {
            lemma_pow2i_le(j as nat, 31);
            lemma_pow2i_values();
        }
        p = p * 2;
        j = j + 1;
    }
    y
}

/// State of the `log2` squaring loop after `j` of its 32 iterations:
/// `.0` is the running mantissa in `[SCALE, 2*SCALE)`, `.1` the bits of the
/// result produced so far.
pub open spec fn spec_log2_loop(x: int, j: nat) -> (int, int)
    decreases j,
{
    if j == 0 {
        (x, 0)
    } else {
        let prev = spec_log2_loop(x, (j - 1) as nat);
        let y2 = prev.0 * prev.0 / (SCALE as int);
        if y2 >= 2 * SCALE {
            (y2 / 2, 2 * prev.1 + 1)
        } else {
            (y2, 2 * prev.1)
        }
    }
}

/// `floor(log2(x / SCALE) * SCALE)` for `SCALE <= x < 2*SCALE`; always in
/// `[0, SCALE)`.
pub open spec fn spec_log2_frac(x: int) -> int {
    spec_log2_loop(x, 32).1
}

fn log2_frac(x: u64) -> (r: u64)
    requires
        SCALE <= x < 2 * SCALE,
    ensures
        r as int == spec_log2_frac(x as int),
        r < SCALE,
{
    let mut y: u64 = x;
    let mut r: u64 = 0;
    let mut j: u64 = 0;
    while j < 32
        invariant
            j <= 32,
            y as int == spec_log2_loop(x as int, j as nat).0,
            r as int == spec_log2_loop(x as int, j as nat).1,
            SCALE <= y < 2 * SCALE,
            (r as int) < pow2i(j as nat),
        decreases 32 - j,
    {
        proof {
            lemma_pow2i_le(j as nat, 31);
            lemma_pow2i_values();
            assert((y as u128) * (y as u128) == (y as int) * (y as int)
                && (y as int) * (y as int) < 340282366920938463463374607431768211455)
                by (nonlinear_arith)
                requires 0 <= y < 2 * SCALE as int;
        }
        let prod: u128 = (y as u128) * (y as u128) / (SCALE as u128);
        proof {
            assert((SCALE as int) * (SCALE as int) <= (y as int) * (y as int)
                < (2 * SCALE as int) * (2 * SCALE as int)) by (nonlinear_arith)
                requires SCALE <= y < 2 * SCALE as int;
            lemma_div_is_ordered(
                (SCALE as int) * (SCALE as int),
                (y as int) * (y as int),
                SCALE as int,
            );
            assert((SCALE as int) * (SCALE as int) / (SCALE as int) == SCALE as int)
                by (nonlinear_arith)
                requires SCALE as int > 0;
            lemma_div_is_ordered(
                (y as int) * (y as int),
                (2 * SCALE as int) * (2 * SCALE as int),
                SCALE as int,
            );
            assert((2 * SCALE as int) * (2 * SCALE as int) / (SCALE as int) == 4 * SCALE)
                by (nonlinear_arith);
            assert((y as int) * (y as int) / (SCALE as int) < 4 * (SCALE as int))
                by (nonlinear_arith)
                requires 0 <= y as int <= 2 * (SCALE as int) - 1, SCALE as int == 4294967296;
        }
        let y2 = prod as u64;
        if y2 >= 2 * SCALE {
            proof {
                assert(SCALE <= y2 / 2 < 2 * SCALE) by (nonlinear_arith)
                    requires 2 * SCALE as int <= y2 < 4 * SCALE as int;
            }
            y = y2 / 2;
            r = 2 * r + 1;
        } else {
            y = y2;
            r = 2 * r;
        }
        j = j + 1;
    }
    proof {
        lemma_pow2i_values();
    }
    r
}

/// `floor(log2(1 + 2^(-u / SCALE)) * SCALE)` for `u >= 0`: the increment a
/// new visit adds on top of the fresher of the two exponents being merged.
/// Zero once `u` is 33 half-lives or more — the older contribution has
/// decayed below the fixed point's resolution.
pub open spec fn spec_h(u: int) -> int {
    if u == 0 {
        SCALE as int
    } else if u >= 33 * (SCALE as int) {
        0
    } else {
        let i = u / (SCALE as int);
        let f = u % (SCALE as int);
        let m = if f == 0 {
            (SCALE as int) / pow2i(i as nat)
        } else {
            spec_exp2_frac((SCALE as int) - f) / (2 * pow2i(i as nat))
        };
        spec_log2_frac(SCALE + m)
    }
}

fn h_exec(u: u64) -> (r: u64)
    ensures
        r as int == spec_h(u as int),
        r <= SCALE,
{
    if u == 0 {
        SCALE
    } else if u >= 141733920768 {
        // 33 half-lives
        proof {
            assert(33 * (SCALE as int) == 141733920768);
        }
        0
    } else {
        let i = u / SCALE;
        let f = u % SCALE;
        let m: u64;
        if f == 0 {
            // u != 0 and u is a whole number of half-lives, so i >= 1
            proof {
                vstd::arithmetic::div_mod::lemma_fundamental_div_mod(u as int, SCALE as int);
            }
            let p = pow2_exec(i);
            proof {
                lemma_pow2i_le(1, i as nat);
                lemma_div_is_ordered_by_denominator(SCALE as int, 2, p as int);
            }
            m = SCALE / p;
        } else {
            let e = exp2_frac(SCALE - f);
            let p = pow2_exec(i);
            proof {
                lemma_pow2i_pos(i as nat);
                lemma_pow2i_le(i as nat, 32);
                lemma_pow2i_values();
                lemma_div_is_ordered_by_denominator(e as int, 2, 2 * p as int);
            }
            m = e / (2 * p);
        }
        log2_frac(SCALE + m)
    }
}

/// The score an existing entry with score `s` gets when visited again at
/// decay offset `nd`: `nd + log2(2^(s - nd) + 1)`, in fixed point.  The
/// formula is evaluated around whichever of `s` and `nd` is larger, so it
/// is well defined for every stored score.
pub open spec fn spec_visit_update(s: int, nd: int) -> int {
    let z = s - nd;
    if z >= 0 {
        s + spec_h(z)
    } else {
        nd + spec_h(-z)
    }
}

/// Decay offset of a wall-clock instant: `secs * SCALE / HALF_LIFE_SECS`.
/// This is also the score a previously unknown key receives when visited.
pub open spec fn spec_now_decay(secs: int) -> int {
    secs * (SCALE as int) / (HALF_LIFE_SECS as int)
}

/// Converts a clock reading in seconds since the epoch into a decay offset.
pub fn now_decay(secs: u64) -> (r: i64)
    requires
        secs <= MAX_NOW_SECS,
    ensures
        r as int == spec_now_decay(secs as int),
        0 <= r <= MAX_DECAY,
{
    proof {
        lemma_div_pos_is_pos(secs as int * SCALE as int, HALF_LIFE_SECS as int);
        lemma_mul_inequality(secs as int, MAX_NOW_SECS as int, SCALE as int);
        lemma_div_is_ordered(
            secs as int * SCALE as int,
            MAX_NOW_SECS as int * SCALE as int,
            HALF_LIFE_SECS as int,
        );
        lemma_div_is_ordered_by_denominator(
            MAX_NOW_SECS as int * SCALE as int,
            2097152,
            HALF_LIFE_SECS as int,
        );
        assert((secs as u128) * (SCALE as u128) == secs as int * SCALE as int)
            by (nonlinear_arith);
    }
    (((secs as u128) * (SCALE as u128)) / (HALF_LIFE_SECS as u128)) as i64
}

/// Applies one visit to an existing score.
pub fn visit_update(s: i64, nd: i64) -> (r: i64)
    requires
        0 <= nd <= MAX_DECAY,
    ensures
        r as int == spec_visit_update(s as int, nd as int),
        r >= s,
        r >= nd,
{
    let z: i128 = (s as i128) - (nd as i128);
    if z >= 0 {
        if z >= 141733920768 {
            proof {
                assert(33 * (SCALE as int) == 141733920768);
                assert(spec_h((s - nd) as int) == 0);
            }
            s
        } else {
            let u = z as u64;
            let hh = h_exec(u);
            s + (hh as i64)
        }
    } else {
        let zn: i128 = -z;
        if zn >= 141733920768 {
            proof {
                assert(33 * (SCALE as int) == 141733920768);
            }
            nd
        } else {
            let u = zn as u64;
            let hh = h_exec(u);
            nd + (hh as i64)
        }
    }
}

/// A later instant always maps to a strictly larger decay offset: the scale
/// exceeds the half-life in seconds, so even one second moves the floor.
pub proof fn lemma_now_decay_strictly_monotonic(t1: int, t2: int)
    requires
        0 <= t1 < t2,
    ensures
        spec_now_decay(t1) < spec_now_decay(t2),
{
    lemma_mul_inequality(t1 + 1, t2, SCALE as int);
    assert(t1 * (SCALE as int) + HALF_LIFE_SECS <= (t1 + 1) * (SCALE as int))
        by (nonlinear_arith)
        requires HALF_LIFE_SECS <= SCALE;
    lemma_div_plus_one(t1 * (SCALE as int), HALF_LIFE_SECS as int);
    lemma_div_is_ordered(
        t1 * (SCALE as int) + HALF_LIFE_SECS as int,
        t2 * (SCALE as int),
        HALF_LIFE_SECS as int,
    );
}

} // verus!
