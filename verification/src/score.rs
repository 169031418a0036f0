use vstd::prelude::*;

verus! {

/// Floor of the base-2 logarithm: halvings until the value reaches 1.
pub open spec fn lg(p: int) -> int
    decreases p,
{
    if p < 2 {
        0
    } else {
        1 + lg(p / 2)
    }
}

/// Integer power of two.
pub open spec fn p2(k: int) -> int
    decreases k,
{
    if k <= 0 {
        1
    } else {
        2 * p2(k - 1)
    }
}

proof fn lemma_p2_ge(k: int)
    requires
        0 <= k,
    ensures
        p2(k) >= k + 1,
    decreases k,
{
    if k > 0 {
        lemma_p2_ge(k - 1);
    }
}

proof fn lemma_lg_unique(p: int, k: int)
    requires
        1 <= p,
        0 <= k,
        p2(k) <= p < 2 * p2(k),
    ensures
        k == lg(p),
    decreases k,
{
    if k > 0 {
        assert(p2(k) == 2 * p2(k - 1));
        lemma_p2_ge(k - 1);
        assert(p2(k - 1) <= p / 2 < 2 * p2(k - 1));
        lemma_lg_unique(p / 2, k - 1);
    }
}

/// lg(p) and the matching power of two, computed together.
fn floor_pow2(p: u64) -> (r: (u64, u64))
    requires
        1 <= p,
    ensures
        r.1 == lg(p as int),
        r.0 == p2(r.1 as int),
        r.0 <= p < 2 * (r.0 as int),
{
    let mut pw: u64 = 1;
    let mut k: u64 = 0;
    while pw <= p / 2
        invariant
            1 <= pw <= p,
            0 <= k,
            pw == p2(k as int),
        decreases p - pw,
    {
        proof {
            lemma_p2_ge(k as int + 1);
        }
        pw = pw * 2;
        k = k + 1;
    }
    proof {
        lemma_lg_unique(p as int, k as int);
    }
    (pw, k)
}

/// Integer square root, defined by stepping the argument down to zero.
pub open spec fn isq(n: int) -> int
    decreases n,
{
    if n < 1 {
        0
    } else if (isq(n - 1) + 1) * (isq(n - 1) + 1) <= n {
        isq(n - 1) + 1
    } else {
        isq(n - 1)
    }
}

proof fn lemma_isq_bounds(n: int)
    requires
        0 <= n,
    ensures
        0 <= isq(n),
        isq(n) * isq(n) <= n,
        n < (isq(n) + 1) * (isq(n) + 1),
    decreases n,
{
    if n > 0 {
        lemma_isq_bounds(n - 1);
        let r = isq(n - 1);
        if (r + 1) * (r + 1) <= n {
            assert(n < (r + 1 + 1) * (r + 1 + 1)) by (nonlinear_arith)
                requires
                    0 <= r,
                    n - 1 < (r + 1) * (r + 1),
            ;
        }
    }
}

proof fn lemma_isq_unique(n: int, r: int)
    requires
        0 <= n,
        0 <= r,
        r * r <= n,
        n < (r + 1) * (r + 1),
    ensures
        r == isq(n),
{
    lemma_isq_bounds(n);
    let s = isq(n);
    if r < s {
        assert((r + 1) * (r + 1) <= s * s) by (nonlinear_arith)
            requires
                0 <= r,
                r < s,
        ;
        assert(false);
    }
    if s < r {
        assert((s + 1) * (s + 1) <= r * r) by (nonlinear_arith)
            requires
                0 <= s,
                s < r,
        ;
        assert(false);
    }
}

/// Integer square root by binary search.
fn isqrt(n: u128) -> (r: u128)
    ensures
        r == isq(n as int),
        r < 0x1_0000_0000_0000_0000,
{
    let mut lo: u128 = 0;
    let mut hi: u128 = 0x1_0000_0000_0000_0000;
    proof {
        assert((n as int) < 0x1_0000_0000_0000_0000 * 0x1_0000_0000_0000_0000);
    }
    while lo + 1 < hi
        invariant
            lo < hi <= 0x1_0000_0000_0000_0000,
            lo * lo <= n,
            (n as int) < hi * hi,
        decreases hi - lo,
    {
        let mid = lo + (hi - lo) / 2;
        proof {
            assert(mid * mid <= (hi - 1) * (hi - 1)) by (nonlinear_arith)
                requires
                    0 <= mid <= hi - 1,
            ;
            assert((hi - 1) * (hi - 1) < 0x1_0000_0000_0000_0000 * 0x1_0000_0000_0000_0000)
                by (nonlinear_arith)
                requires
                    0 <= hi - 1 < 0x1_0000_0000_0000_0000,
            ;
        }
        if mid * mid <= n {
            lo = mid;
        } else {
            hi = mid;
        }
    }
    proof {
        lemma_isq_unique(n as int, lo as int);
    }
    lo
}

/// Natural logarithm in 1/4096 fixed point, by linear interpolation between
/// neighboring powers of two: ln(p) ~ (lg(p) + (p - 2^lg(p)) / 2^lg(p)) ln 2,
/// with ln 2 ~ 2839 / 4096.
pub open spec fn ln_fp(p: int) -> int {
    (lg(p) * 4096 + (p - p2(lg(p))) * 4096 / p2(lg(p))) * 2839 / 4096
}

/// The child-selection score of the tree search, in 1/4096 fixed point:
/// rel_wins / child_plays + 0.75 * sqrt(ln(parent_plays) / child_plays).
pub open spec fn sel_score(parent_plays: int, child_plays: int, rel_wins: int) -> int {
    rel_wins * 4096 / child_plays + 3 * isq(ln_fp(parent_plays) * 4096 / child_plays) / 4
}

/// The fixed-point selection score, computed exactly as the spec states it.
pub fn score_of(parent_plays: u64, child_plays: u64, rel_wins: u64) -> (s: u128)
    requires
        1 <= parent_plays,
        1 <= child_plays,
    ensures
        s == sel_score(parent_plays as int, child_plays as int, rel_wins as int),
{
    let (pw, k) = floor_pow2(parent_plays);
    let frac: u128 = ((parent_plays - pw) as u128) * 4096 / (pw as u128);
    let lnv: u128 = ((k as u128) * 4096 + frac) * 2839 / 4096;
    let z: u128 = lnv * 4096 / (child_plays as u128);
    let root = isqrt(z);
    (rel_wins as u128) * 4096 / (child_plays as u128) + 3 * root / 4
}

} // verus!
