//! Level size ratios: fixed, or adapted to the workload (Dostoevsky).
//!
//! The adaptive ratio is `T = round(sqrt(Z * W / R))` with `Z = 1.5`,
//! computed exactly in integers: `n = round(sqrt(3W / 2R))` is the unique
//! `n` with `(2n - 1)^2 * R <= 6W < (2n + 1)^2 * R` (or `6W < R` for `n = 0`).

use vstd::prelude::*;

verus! {

/// `x` saturated to the range of `u64`.
pub open spec fn saturate(x: int) -> u64 {
    if x > u64::MAX {
        u64::MAX
    } else if x < 0 {
        0
    } else {
        x as u64
    }
}

/// Whether `n` is `sqrt(3 * writes / (2 * reads))` rounded (halves up).
pub open spec fn is_rounded_ratio(n: int, writes: int, reads: int) -> bool {
    &&& n >= 0
    &&& (n == 0 || (2 * n - 1) * (2 * n - 1) * reads <= 6 * writes)
    &&& 6 * writes < (2 * n + 1) * (2 * n + 1) * reads
}

/// `n` clamped below by `lo`, then above by `hi`.
pub open spec fn clamp_ratio(n: int, lo: u64, hi: u64) -> int {
    let c = if n > lo {
        n
    } else {
        lo as int
    };
    if c < hi {
        c
    } else {
        hi as int
    }
}

/// Workload-aware compaction strategy.
#[derive(Debug, Clone, Copy)]
pub enum CompactionStrategy {
    /// Fixed size ratio (traditional LSM).
    Fixed(u64),
    /// Adaptive size ratio based on the read/write ratio (Dostoevsky).
    Adaptive {
        /// Current size ratio (dynamically adjusted).
        current_ratio: u64,
        /// Minimum allowed ratio.
        min_ratio: u64,
        /// Maximum allowed ratio.
        max_ratio: u64,
    },
}

/// The size ratio a strategy currently prescribes.
pub open spec fn spec_current_ratio(s: CompactionStrategy) -> u64 {
    match s {
        CompactionStrategy::Fixed(r) => r,
        CompactionStrategy::Adaptive { current_ratio, .. } => current_ratio,
    }
}

/// Lemma: `a * r > x` exactly when `a > x / r`, for `r > 0`.
proof fn lemma_mul_gt_iff_gt_div(a: int, r: int, x: int)
    requires
        r > 0,
        x >= 0,
        a >= 0,
    ensures
        (a * r > x) <==> (a > x / r),
{
    let q = x / r;
    let m = x % r;
    assert(x == r * q + m && 0 <= m < r) by (nonlinear_arith)
        requires
            r > 0,
            q == x / r,
            m == x % r,
    ;
    if a > q {
        assert(a * r >= (q + 1) * r) by (nonlinear_arith)
            requires
                a >= q + 1,
                r > 0,
        ;
        assert((q + 1) * r == r * q + r) by (nonlinear_arith);
    } else {
        assert(a * r <= q * r) by (nonlinear_arith)
            requires
                a <= q,
                r > 0,
        ;
        assert(q * r == r * q) by (nonlinear_arith);
    }
}

/// Lemma: odd squares grow with `n`.
proof fn lemma_odd_square_monotone(n1: int, n2: int)
    requires
        0 <= n1 <= n2,
    ensures
        (2 * n1 + 1) * (2 * n1 + 1) <= (2 * n2 + 1) * (2 * n2 + 1),
{
    assert((2 * n1 + 1) * (2 * n1 + 1) <= (2 * n2 + 1) * (2 * n2 + 1)) by (nonlinear_arith)
        requires
            0 <= n1 <= n2,
    ;
}

/// Computes `round(sqrt(3 * writes / (2 * reads)))` (halves rounded up).
pub fn rounded_ratio(writes: u64, reads: u64) -> (n: u64)
    requires
        reads > 0,
    ensures
        is_rounded_ratio(n as int, writes as int, reads as int),
{
    let q: u128 = (6 * (writes as u128)) / (reads as u128);
    // The answer lies in [lo, hi]: (2 * hi + 1)^2 exceeds every possible q.
    let mut lo: u64 = 0;
    let mut hi: u64 = 0x2_0000_0000;
    proof {
        assert((2 * hi + 1) * (2 * hi + 1) > q) by (nonlinear_arith)
            requires
                hi == 0x2_0000_0000,
                q <= 6 * 0xffff_ffff_ffff_ffffu64,
        ;
    }
    while lo < hi
        invariant
            reads > 0,
            q == (6 * writes as int) / (reads as int),
            lo <= hi <= 0x2_0000_0000,
            (2 * hi + 1) * (2 * hi + 1) > q,
            lo == 0 || (2 * lo - 1) * (2 * lo - 1) <= q,
        decreases hi - lo,
    {
        let mid = lo + (hi - lo) / 2;
        proof {
            assert((2 * mid + 1) * (2 * mid + 1) <= 0x4_0000_0001u128 * 0x4_0000_0001u128)
                by (nonlinear_arith)
                requires
                    mid <= 0x2_0000_0000u64,
            ;
        }
        let sq: u128 = (2 * (mid as u128) + 1) * (2 * (mid as u128) + 1);
        if sq > q {
            hi = mid;
        } else {
            lo = mid + 1;
        }
    }
    proof {
        let w = writes as int;
        let r = reads as int;
        let n = lo as int;
        lemma_mul_gt_iff_gt_div((2 * n + 1) * (2 * n + 1), r, 6 * w);
        if n > 0 {
            lemma_mul_gt_iff_gt_div((2 * n - 1) * (2 * n - 1), r, 6 * w);
        }
    }
    lo
}

/// Whether strategy `new` is what adapting `old` to `writes` and `reads`
/// gives: a fixed strategy stays; an adaptive one with no reads or no writes
/// stays; otherwise its ratio becomes the rounded ratio, raised to
/// `min_ratio` and lowered to `max_ratio`.
pub open spec fn adjusts(old: CompactionStrategy, new: CompactionStrategy, writes: u64, reads: u64) -> bool {
    match old {
        CompactionStrategy::Fixed(_) => new == old,
        CompactionStrategy::Adaptive { current_ratio, min_ratio, max_ratio } => if reads == 0 || writes == 0 {
            new == old
        } else {
            exists|n: int|
                #![trigger is_rounded_ratio(n, writes as int, reads as int)]
                is_rounded_ratio(n, writes as int, reads as int) && new == (CompactionStrategy::Adaptive {
                    current_ratio: clamp_ratio(n, min_ratio, max_ratio) as u64,
                    min_ratio,
                    max_ratio,
                })
        },
    }
}

impl CompactionStrategy {
    /// Get the current size ratio.
    pub fn current_ratio(&self) -> (r: u64)
        ensures
            r == spec_current_ratio(*self),
    {
        match self {
            CompactionStrategy::Fixed(ratio) => *ratio,
            CompactionStrategy::Adaptive { current_ratio, .. } => *current_ratio,
        }
    }

    /// Adjust the ratio to the workload (Dostoevsky formula, `Z = 1.5`).
    ///
    /// A fixed strategy never changes. An adaptive one with no reads or no
    /// writes recorded keeps its ratio; otherwise its ratio becomes
    /// `round(sqrt(1.5 * writes / reads))`, raised to `min_ratio` and then
    /// lowered to `max_ratio`.
    pub fn adjust_for_workload(&mut self, writes: u64, reads: u64)
        ensures
            adjusts(*old(self), *final(self), writes, reads),
    {
        match self {
            CompactionStrategy::Fixed(_) => {},
            CompactionStrategy::Adaptive { current_ratio, min_ratio, max_ratio } => {
                if reads == 0 || writes == 0 {
                    return;
                }
                let new_ratio = rounded_ratio(writes, reads);
                let raised = if new_ratio > *min_ratio {
                    new_ratio
                } else {
                    *min_ratio
                };
                *current_ratio = if raised < *max_ratio {
                    raised
                } else {
                    *max_ratio
                };
            },
        }
    }
}

/// Law: the rounded ratio is unique, so an adaptive adjustment is a
/// function of the workload and the bounds.
pub proof fn law_rounded_ratio_unique(n1: int, n2: int, writes: int, reads: int)
    requires
        reads > 0,
        writes >= 0,
        is_rounded_ratio(n1, writes, reads),
        is_rounded_ratio(n2, writes, reads),
    ensures
        n1 == n2,
{
    if n1 < n2 {
        lemma_odd_square_monotone(n1, n2 - 1);
        assert((2 * n1 + 1) * (2 * n1 + 1) * reads <= (2 * (n2 - 1) + 1) * (2 * (n2 - 1) + 1) * reads)
            by (nonlinear_arith)
            requires
                (2 * n1 + 1) * (2 * n1 + 1) <= (2 * (n2 - 1) + 1) * (2 * (n2 - 1) + 1),
                reads > 0,
        ;
    } else if n2 < n1 {
        lemma_odd_square_monotone(n2, n1 - 1);
        assert((2 * n2 + 1) * (2 * n2 + 1) * reads <= (2 * (n1 - 1) + 1) * (2 * (n1 - 1) + 1) * reads)
            by (nonlinear_arith)
            requires
                (2 * n2 + 1) * (2 * n2 + 1) <= (2 * (n1 - 1) + 1) * (2 * (n1 - 1) + 1),
                reads > 0,
        ;
    }
}

/// Computes `a * b`, saturating at `u64::MAX`.
pub fn saturating_mul_u64(a: u64, b: u64) -> (r: u64)
    ensures
        r == saturate(a * b),
{
    match a.checked_mul(b) {
        Some(x) => x,
        None => u64::MAX,
    }
}

/// Lemma: saturating a factor first does not change a saturated product.
proof fn lemma_saturate_mul(x: int, b: int)
    requires
        x >= 0,
        0 <= b <= u64::MAX,
    ensures
        saturate(saturate(x) * b) == saturate(x * b),
{
    if x > u64::MAX {
        if b > 0 {
            assert(x * b >= x) by (nonlinear_arith)
                requires
                    x >= 0,
                    b >= 1,
            ;
            assert(u64::MAX * b >= u64::MAX) by (nonlinear_arith)
                requires
                    b >= 1,
            ;
        }
    }
}

/// Lemma: powers of a non-negative base are non-negative.
proof fn lemma_pow_nonneg(b: int, e: nat)
    requires
        b >= 0,
    ensures
        vstd::arithmetic::power::pow(b, e) >= 0,
    decreases e,
{
    reveal(vstd::arithmetic::power::pow);
    if e > 0 {
        lemma_pow_nonneg(b, (e - 1) as nat);
        let p = vstd::arithmetic::power::pow(b, (e - 1) as nat);
        assert(b * p >= 0) by (nonlinear_arith)
            requires
                b >= 0,
                p >= 0,
        ;
    }
}

/// Computes `base^exp`, saturating at `u64::MAX`.
pub fn saturating_pow_u64(base: u64, exp: u32) -> (r: u64)
    ensures
        r == saturate(vstd::arithmetic::power::pow(base as int, exp as nat)),
{
    let mut acc: u64 = 1;
    let mut i: u32 = 0;
    proof {
        vstd::arithmetic::power::lemma_pow0(base as int);
    }
    while i < exp
        invariant
            i <= exp,
            acc == saturate(vstd::arithmetic::power::pow(base as int, i as nat)),
        decreases exp - i,
    {
        proof {
            lemma_pow_nonneg(base as int, i as nat);
        }
        acc = saturating_mul_u64(acc, base);
        proof {
            let p = vstd::arithmetic::power::pow(base as int, i as nat);
            reveal(vstd::arithmetic::power::pow);
            assert(vstd::arithmetic::power::pow(base as int, (i + 1) as nat) == base * p);
            lemma_saturate_mul(p, base as int);
            assert(p * base == base * p) by (nonlinear_arith);
        }
        i = i + 1;
    }
    acc
}

} // verus!
