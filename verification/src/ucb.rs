//! Fixed-point arithmetic for the UCB1 selection rule.
//!
//! The engine keeps all scores as integers. A fixed-point value `v` stands
//! for the rational `v / FP_SCALE`, so `FP_SCALE` itself stands for one.
//! UCB1 for a child `c` of a parent `p` is
//! `score(c)/visits(c) + factor * sqrt(2 * ln(visits(p)) / visits(c))`,
//! computed here over fixed-point integers: the natural logarithm is
//! approximated by `floor(log2(n)) * ln(2)` and the square root by the
//! integer square root, both exactly pinned down by the spec functions below.

use vstd::prelude::*;
use vstd::arithmetic::div_mod::{
    lemma_div_is_ordered, lemma_div_multiples_vanish, lemma_fundamental_div_mod,
    lemma_fundamental_div_mod_converse,
};

verus! {

/// Scale of the fixed-point numbers used throughout the engine:
/// a fixed-point value `v` stands for the rational `v / FP_SCALE`.
pub const FP_SCALE: i64 = 65536;

/// `ln(2) * FP_SCALE`, rounded down.
pub const LN2_FP: u64 = 45426;

/// Largest magnitude a single simulation outcome may have.
pub const VALUE_LIMIT: i64 = 2147483648;

/// Largest number of backups a tree may accumulate over its lifetime.
pub const MAX_BACKUPS: u64 = 2147483648;

/// Largest exploration factor `Searcher` accepts (65536.0 in real terms).
pub const FACTOR_LIMIT: i64 = 4294967296;

/// Floor of the base-two logarithm; zero when `n` is zero.
pub open spec fn spec_log2(n: nat) -> nat
    decreases n,
{
    if n < 2 {
        0
    } else {
        1 + spec_log2(n / 2)
    }
}

/// Integer square root: the greatest `r` with `r * r <= x`.
pub open spec fn spec_isqrt(x: nat) -> nat
    decreases x,
{
    if x == 0 {
        0
    } else {
        let r = spec_isqrt((x - 1) as nat);
        if (r + 1) * (r + 1) <= x {
            r + 1
        } else {
            r
        }
    }
}

/// The integer square root is characterized by `r^2 <= x < (r+1)^2`.
pub proof fn lemma_isqrt_bounds(x: nat)
    ensures
        spec_isqrt(x) * spec_isqrt(x) <= x,
        x < (spec_isqrt(x) + 1) * (spec_isqrt(x) + 1),
    decreases x,
{
    if x > 0 {
        lemma_isqrt_bounds((x - 1) as nat);
        let r = spec_isqrt((x - 1) as nat);
        let s = spec_isqrt(x);
        assert(s == if (r + 1) * (r + 1) <= x {
            r + 1
        } else {
            r
        });
        if (r + 1) * (r + 1) <= x {
            assert(s == r + 1);
            assert(x - 1 < (r + 1) * (r + 1));
            assert(x == (r + 1) * (r + 1));
            assert((s + 1) * (s + 1) > s * s) by (nonlinear_arith);
            assert(s * s <= x);
            assert(x < (s + 1) * (s + 1));
        } else {
            assert(s == r);
            assert(s * s <= x);
            assert(x < (s + 1) * (s + 1));
        }
    } else {
        let s = spec_isqrt(x);
        assert(x == 0 && s == 0);
        assert(x < (s + 1) * (s + 1)) by (nonlinear_arith)
            requires x == 0nat, s == 0nat;
    }
}

/// Any `r` with `r^2 <= x < (r+1)^2` is the integer square root of `x`.
pub proof fn lemma_isqrt_unique(x: nat, r: nat)
    requires
        r * r <= x,
        x < (r + 1) * (r + 1),
    ensures
        r == spec_isqrt(x),
{
    lemma_isqrt_bounds(x);
    let s = spec_isqrt(x);
    if r < s {
        assert((r + 1) * (r + 1) <= s * s) by (nonlinear_arith)
            requires r + 1 <= s;
    }
    if s < r {
        assert((s + 1) * (s + 1) <= r * r) by (nonlinear_arith)
            requires s + 1 <= r;
    }
}

/// Fixed-point approximation of the natural logarithm of `n`.
pub open spec fn spec_ln_fp(n: nat) -> nat {
    spec_log2(n) * (LN2_FP as nat)
}

/// Fixed-point exploitation term: the mean score of a child, rounded down.
pub open spec fn spec_exploit_fp(score: int, visits: nat) -> int {
    score * FP_SCALE / visits as int
}

/// Fixed-point exploration term: `sqrt(2 * ln(parent_visits) / visits)`.
pub open spec fn spec_explore_fp(parent_visits: nat, visits: nat) -> int {
    spec_isqrt(((2 * spec_ln_fp(parent_visits) * (FP_SCALE as nat)) / visits) as nat) as int
}

/// The fixed-point UCB1 value of a child. An unvisited child compares
/// greater than every visited one, so it is always explored first.
pub open spec fn spec_ucb1(score: int, visits: nat, parent_visits: nat, factor: int) -> int {
    if visits == 0 {
        i64::MAX as int
    } else {
        spec_exploit_fp(score, visits) + factor * spec_explore_fp(parent_visits, visits) / (
        FP_SCALE as int)
    }
}

/// Floor of the base-two logarithm, computed by repeated halving.
pub fn log2_u64(n: u64) -> (r: u64)
    ensures
        r == spec_log2(n as nat),
{
    proof {
        vstd::arithmetic::power2::lemma2_to64();
        vstd::arithmetic::power2::lemma2_to64_rest();
        lemma_log2_power(n as nat, 63);
    }
    let mut cur: u64 = n;
    let mut acc: u64 = 0;
    while cur >= 2
        invariant
            acc + spec_log2(cur as nat) == spec_log2(n as nat),
            spec_log2(n as nat) <= 63,
        decreases cur,
    {
        cur = cur / 2;
        acc = acc + 1;
    }
    acc
}

/// Integer square root by binary search.
pub fn isqrt_u64(x: u64) -> (r: u64)
    ensures
        r == spec_isqrt(x as nat),
{
    if x == 0 {
        return 0;
    }
    let mut lo: u64 = 0;
    let mut hi: u64 = 4294967296;
    proof {
        assert((x as nat) < (hi as nat) * (hi as nat)) by (nonlinear_arith)
            requires hi == 4294967296u64, x <= u64::MAX;
    }
    while hi - lo > 1
        invariant
            lo < hi <= 4294967296,
            (lo as nat) * (lo as nat) <= x as nat,
            (x as nat) < (hi as nat) * (hi as nat),
        decreases hi - lo,
    {
        let mid: u64 = lo + (hi - lo) / 2;
        proof {
            assert(mid as int * mid as int <= 4294967296int * 4294967296int)
                by (nonlinear_arith)
                requires 0 <= mid as int <= 4294967296int;
        }
        let sq: u128 = (mid as u128) * (mid as u128);
        if sq <= x as u128 {
            lo = mid;
        } else {
            hi = mid;
        }
    }
    proof {
        assert(hi == lo + 1);
        lemma_isqrt_unique(x as nat, lo as nat);
    }
    lo
}


/// For nonnegative `num` with `num <= b * v`, the quotient `num / v` is at most `b`.
proof fn lemma_div_le(num: int, v: int, b: int)
    requires
        v >= 1,
        num <= b * v,
    ensures
        num / v <= b,
{
    lemma_div_is_ordered(num, b * v, v);
    assert(v * b == b * v) by (nonlinear_arith);
    lemma_div_multiples_vanish(b, v);
}

/// Euclidean division of a negated nonnegative numerator by a positive divisor.
pub proof fn lemma_neg_div(m: int, v: int)
    requires
        m >= 0,
        v >= 1,
    ensures
        m % v == 0 ==> (-m) / v == -(m / v),
        m % v != 0 ==> (-m) / v == -(m / v) - 1,
{
    lemma_fundamental_div_mod(m, v);
    if m % v == 0 {
        assert(-m == -(m / v) * v + 0) by (nonlinear_arith)
            requires m == v * (m / v) + m % v, m % v == 0;
        lemma_fundamental_div_mod_converse(-m, v, -(m / v), 0);
    } else {
        assert(-m == (-(m / v) - 1) * v + (v - m % v)) by (nonlinear_arith)
            requires m == v * (m / v) + m % v;
        lemma_fundamental_div_mod_converse(-m, v, -(m / v) - 1, v - m % v);
    }
}

/// Floor division of the product `score * FP_SCALE` by a positive `visits`,
/// matching the mathematical (Euclidean) division of the spec also for
/// negative scores.
fn exploit_fp(score: i64, visits: u64) -> (r: i64)
    requires
        1 <= visits <= MAX_BACKUPS,
        -VALUE_LIMIT * visits <= score <= VALUE_LIMIT * visits,
    ensures
        r == spec_exploit_fp(score as int, visits as nat),
        -VALUE_LIMIT * FP_SCALE <= r <= VALUE_LIMIT * FP_SCALE,
{
    proof {
        assert(-4611686018427387904int <= score as int <= 4611686018427387904int)
            by (nonlinear_arith)
            requires
                -2147483648int * visits as int <= score as int <= 2147483648int
                    * visits as int,
                1 <= visits as int <= 2147483648int,
        ;
    }
    let v128 = visits as u128;
    if score >= 0 {
        let num: u128 = (score as u128) * 65536;
        let q = num / v128;
        proof {
            assert(num as int <= (2147483648int * 65536) * visits as int)
                by (nonlinear_arith)
                requires
                    num as int == score as int * 65536,
                    score as int <= 2147483648int * visits as int,
                    visits as int >= 1,
            ;
            lemma_div_le(num as int, visits as int, 2147483648int * 65536);
        }
        q as i64
    } else {
        let mag: u64 = (-score) as u64;
        let num: u128 = (mag as u128) * 65536;
        let q = num / v128;
        let rem = num % v128;
        proof {
            lemma_neg_div(num as int, visits as int);
            assert(score as int * FP_SCALE as int == -(num as int)) by (nonlinear_arith)
                requires
                    mag as int == -(score as int),
                    num as int == mag as int * 65536,
                    FP_SCALE as int == 65536,
            ;
            assert(num as int <= (2147483648int * 65536) * visits as int)
                by (nonlinear_arith)
                requires
                    num as int == mag as int * 65536,
                    mag as int <= 2147483648int * visits as int,
                    visits as int >= 1,
            ;
            lemma_div_le(num as int, visits as int, 2147483648int * 65536);
            if rem > 0 && q as int == 2147483648int * 65536 {
                lemma_fundamental_div_mod(num as int, visits as int);
                assert(num as int > (2147483648int * 65536) * visits as int)
                    by (nonlinear_arith)
                    requires
                        num as int == visits as int * (q as int) + rem as int,
                        q as int == 2147483648int * 65536,
                        rem as int >= 1,
                        visits as int >= 1,
                ;
                assert(false);
            }
        }
        if rem > 0 {
            -((q as i64) + 1)
        } else {
            -(q as i64)
        }
    }
}

/// The fixed-point UCB1 value of a child, equal to `spec_ucb1`.
pub fn ucb1_value(score: i64, visits: u64, parent_visits: u64, factor: i64) -> (r: i64)
    requires
        visits <= MAX_BACKUPS,
        -VALUE_LIMIT * visits <= score <= VALUE_LIMIT * visits,
        parent_visits <= MAX_BACKUPS,
        0 <= factor <= FACTOR_LIMIT,
    ensures
        r == spec_ucb1(score as int, visits as nat, parent_visits as nat, factor as int),
{
    if visits == 0 {
        return i64::MAX;
    }
    let exploit = exploit_fp(score, visits);
    let lg = log2_u64(parent_visits);
    proof {
        lemma_log2_monotone_bound(parent_visits as nat);
    }
    let ln: u64 = LN2_FP * lg;
    let radicand: u64 = (2 * ln * 65536) / visits;
    proof {
        assert(2 * ln as int * 65536 <= (2 * ln as int * 65536) * visits as int)
            by (nonlinear_arith)
            requires visits as int >= 1, ln as int >= 0,
        ;
        lemma_div_le(
            (2 * ln as int * 65536) as int,
            visits as int,
            2 * ln as int * 65536,
        );
    }
    let root = isqrt_u64(radicand);
    proof {
        lemma_isqrt_bounds(radicand as nat);
        assert(root as int <= 1048576int) by (nonlinear_arith)
            requires
                root as int * root as int <= radicand as int,
                radicand as int <= 274877906944int,
        ;
        assert(factor as int * root as int <= 4294967296int * 1048576int)
            by (nonlinear_arith)
            requires
                0 <= factor as int <= 4294967296int,
                0 <= root as int <= 1048576int,
        ;
    }
    let contribution: u64 = (((factor as u128) * (root as u128)) / 65536) as u64;
    proof {
        lemma_div_le(factor as int * root as int, 65536, 4294967296int * 1048576int);
        assert((4294967296int * 1048576int) * 65536 >= factor as int * root as int)
            by (nonlinear_arith)
            requires factor as int * root as int <= 4294967296int * 1048576int,
        ;
    }
    exploit + (contribution as i64)
}


/// `log2` of a value no greater than `MAX_BACKUPS` is at most 32.
proof fn lemma_log2_monotone_bound(n: nat)
    ensures
        n <= MAX_BACKUPS ==> spec_log2(n) <= 32,
{
    if n <= MAX_BACKUPS {
        vstd::arithmetic::power2::lemma2_to64();
        assert(n < vstd::arithmetic::power2::pow2(32) * 2);
        lemma_log2_power(n, 32);
    }
}

/// If `n < 2 * 2^k`, the floor log2 of `n` is at most `k`.
proof fn lemma_log2_power(n: nat, k: nat)
    requires
        n < vstd::arithmetic::power2::pow2(k) * 2,
    ensures
        spec_log2(n) <= k,
    decreases n,
{
    if n >= 2 {
        if k == 0 {
            assert(vstd::arithmetic::power2::pow2(0) == 1) by {
                vstd::arithmetic::power2::lemma2_to64();
            }
            assert(false);
        } else {
            vstd::arithmetic::power2::lemma_pow2_unfold(k);
            lemma_log2_power(n / 2, (k - 1) as nat);
        }
    }
}

} // verus!
