//! Fixed-point numerics shared by the query layer, and the solve loop's
//! control: per-mille normalization whose output sums to exactly the scale,
//! the iteration stop rule, and a monotone record of the best exploitability
//! observed.
use vstd::prelude::*;

verus! {

use vstd::arithmetic::div_mod::{lemma_div_is_ordered, lemma_div_multiples_vanish};
use crate::range::WEIGHT_SCALE;

/// Sum of the first `k` entries.
pub open spec fn spec_sum64(s: Seq<u64>, k: int) -> int
    decreases k,
{
    if k <= 0 {
        0
    } else {
        spec_sum64(s, k - 1) + s[k - 1]
    }
}

/// Sum of the first `k` entries.
pub open spec fn spec_sum32(s: Seq<u32>, k: int) -> int
    decreases k,
{
    if k <= 0 {
        0
    } else {
        spec_sum32(s, k - 1) + s[k - 1]
    }
}

/// Per-mille share of entry `k` under cumulative rounding: the difference
/// between the floored cumulative shares after and before it.
pub open spec fn spec_norm_at(s: Seq<u64>, k: int) -> int {
    let total = spec_sum64(s, s.len() as int);
    spec_sum64(s, k + 1) * 1000 / total - spec_sum64(s, k) * 1000 / total
}

pub proof fn lemma_sum64_bound(s: Seq<u64>, k: int, bound: int)
    requires
        0 <= k <= s.len(),
        0 <= bound,
        forall|j: int| 0 <= j < s.len() ==> s[j] <= bound,
    ensures
        0 <= spec_sum64(s, k) <= k * bound,
    decreases k,
{
    if k > 0 {
        lemma_sum64_bound(s, k - 1, bound);
        assert((k - 1) * bound + bound == k * bound) by (nonlinear_arith);
    } else {
        assert(k * bound == 0) by (nonlinear_arith)
            requires
                k == 0,
        ;
    }
}

pub proof fn lemma_sum64_mono(s: Seq<u64>, j: int, k: int)
    requires
        0 <= j <= k <= s.len(),
    ensures
        spec_sum64(s, j) <= spec_sum64(s, k),
    decreases k,
{
    if j < k {
        lemma_sum64_mono(s, j, k - 1);
    }
}

/// A sum of entries that are all at least one is at least their count.
pub proof fn lemma_sum64_lower(s: Seq<u64>, k: int)
    requires
        0 <= k <= s.len(),
        forall|j: int| 0 <= j < s.len() ==> s[j] >= 1,
    ensures
        spec_sum64(s, k) >= k,
    decreases k,
{
    if k > 0 {
        lemma_sum64_lower(s, k - 1);
    }
}

pub proof fn lemma_sum32_prefix_eq(s1: Seq<u32>, s2: Seq<u32>, k: int)
    requires
        0 <= k <= s1.len(),
        k <= s2.len(),
        forall|j: int| 0 <= j < k ==> s1[j] == s2[j],
    ensures
        spec_sum32(s1, k) == spec_sum32(s2, k),
    decreases k,
{
    if k > 0 {
        lemma_sum32_prefix_eq(s1, s2, k - 1);
    }
}

/// Normalize a vector of non-negative fixed-point masses to per-mille
/// shares. When the total mass is positive the shares sum to exactly the
/// scale; a zero total yields all zeros.
pub fn normalize_permille(vals: &Vec<u64>, bound: u64) -> (r: Vec<u32>)
    requires
        vals@.len() <= 4000,
        bound <= 400000000000u64,
        forall|j: int| 0 <= j < vals@.len() ==> vals@[j] <= bound,
    ensures
        r@.len() == vals@.len(),
        spec_sum64(vals@, vals@.len() as int) > 0 ==> (forall|k: int|
            0 <= k < r@.len() ==> r@[k] == spec_norm_at(vals@, k)),
        spec_sum64(vals@, vals@.len() as int) > 0 ==> spec_sum32(r@, r@.len() as int)
            == WEIGHT_SCALE,
        spec_sum64(vals@, vals@.len() as int) == 0 ==> (forall|k: int|
            0 <= k < r@.len() ==> r@[k] == 0),
        forall|k: int| 0 <= k < r@.len() ==> r@[k] <= 1000,
{
    let n = vals.len();
    let mut total: u64 = 0;
    let mut i: usize = 0;
    while i < n
        invariant
            0 <= i <= n,
            n == vals@.len(),
            n <= 4000,
            bound <= 400000000000u64,
            forall|j: int| 0 <= j < vals@.len() ==> vals@[j] <= bound,
            total == spec_sum64(vals@, i as int),
            total <= (i as int) * (bound as int),
        decreases n - i,
    {
        proof {
            assert((i as int) * (bound as int) + bound <= (i + 1) * (bound as int))
                by (nonlinear_arith)
                requires
                    bound >= 0,
            ;
            assert((i as int) * (bound as int) <= 4000 * 400000000000int) by (nonlinear_arith)
                requires
                    0 <= i <= 4000,
                    0 <= bound <= 400000000000int,
            ;
        }
        total = total + vals[i];
        i = i + 1;
    }
    let mut out: Vec<u32> = Vec::new();
    if total == 0 {
        let mut k: usize = 0;
        while k < n
            invariant
                0 <= k <= n,
                out@.len() == k,
                forall|j: int| 0 <= j < k ==> out@[j] == 0,
            decreases n - k,
        {
            out.push(0);
            k = k + 1;
        }
        return out;
    }
    proof {
        lemma_sum64_bound(vals@, n as int, bound as int);
        assert((n as int) * (bound as int) <= 4000 * 400000000000int) by (nonlinear_arith)
            requires
                0 <= n <= 4000,
                0 <= bound <= 400000000000int,
        ;
    }
    let mut prefix: u64 = 0;
    let mut cprev: u64 = 0;
    let mut i2: usize = 0;
    while i2 < n
        invariant
            0 <= i2 <= n,
            n == vals@.len(),
            total == spec_sum64(vals@, n as int),
            total > 0,
            total <= 1600000000000000u64,
            forall|j: int| 0 <= j < vals@.len() ==> vals@[j] <= bound,
            prefix == spec_sum64(vals@, i2 as int),
            prefix <= total,
            cprev == spec_sum64(vals@, i2 as int) * 1000 / (total as int),
            cprev <= 1000,
            out@.len() == i2,
            forall|j: int| 0 <= j < i2 ==> out@[j] == spec_norm_at(vals@, j),
            forall|j: int| 0 <= j < i2 ==> out@[j] <= 1000,
            spec_sum32(out@, i2 as int) == cprev,
        decreases n - i2,
    {
        proof {
            lemma_sum64_mono(vals@, i2 as int + 1, n as int);
        }
        let prefix2 = prefix + vals[i2];
        proof {
            assert(prefix2 == spec_sum64(vals@, i2 as int + 1));
            assert(prefix2 <= total);
        }
        let c = (prefix2 * 1000) / total;
        proof {
            lemma_div_is_ordered(
                spec_sum64(vals@, i2 as int) * 1000,
                spec_sum64(vals@, i2 as int + 1) * 1000,
                total as int,
            );
            lemma_div_is_ordered(
                spec_sum64(vals@, i2 as int + 1) * 1000,
                (total as int) * 1000,
                total as int,
            );
            lemma_div_multiples_vanish(1000, total as int);
            assert((total as int) * 1000 == (total as int) * 1000int);
            assert(((total as int) * 1000) / (total as int) == 1000);
            assert(c <= 1000);
            assert(cprev <= c);
        }
        let share = (c - cprev) as u32;
        let ghost old_out = out@;
        out.push(share);
        proof {
            lemma_sum32_prefix_eq(old_out, out@, i2 as int);
            assert(spec_sum32(out@, i2 as int + 1) == spec_sum32(out@, i2 as int) + share);
            assert(out@[i2 as int] == spec_norm_at(vals@, i2 as int));
        }
        prefix = prefix2;
        cprev = c;
        i2 = i2 + 1;
    }
    proof {
        assert(cprev == (spec_sum64(vals@, n as int) * 1000) / (total as int));
        lemma_div_multiples_vanish(1000, total as int);
        assert(cprev == 1000);
    }
    out
}

/// The positive part of each accumulated regret: negative regrets are
/// floored at zero before a strategy is derived, so they can never produce
/// a negative probability.
pub open spec fn spec_pos_regrets(s: Seq<i64>) -> Seq<u64> {
    Seq::new(
        s.len(),
        |k: int|
            if s[k] > 0 {
                s[k] as u64
            } else {
                0u64
            },
    )
}

/// A sum over entries equals the single-hand row sum of the same array.
pub proof fn lemma_sum32_eq_row(s: Seq<u32>, a: int)
    ensures
        spec_sum32(s, a) == crate::tree::row_sum(s, 1, 0, a),
    decreases a,
{
    if a > 0 {
        lemma_sum32_eq_row(s, a - 1);
    }
}

/// Regret matching, the strategy-update kernel of the solving iteration:
/// the next distribution over a node's actions gives each action a share
/// proportional to the positive part of its accumulated regret, and is
/// uniform when no regret is positive. The result is always a valid
/// per-mille distribution: it sums to exactly the whole scale.
pub fn regret_match(regrets: &Vec<i64>) -> (r: Vec<u32>)
    requires
        1 <= regrets@.len() <= 40,
        forall|k: int| 0 <= k < regrets@.len() ==> regrets@[k] <= 400000000000i64,
    ensures
        r@.len() == regrets@.len(),
        spec_sum32(r@, r@.len() as int) == WEIGHT_SCALE,
        spec_sum64(spec_pos_regrets(regrets@), regrets@.len() as int) > 0 ==> (forall|k: int|
            0 <= k < r@.len() ==> r@[k] == spec_norm_at(spec_pos_regrets(regrets@), k)),
        spec_sum64(spec_pos_regrets(regrets@), regrets@.len() as int) == 0 ==> r@
            == crate::tree::spec_uniform(regrets@.len() as int, 1),
        forall|k: int| 0 <= k < r@.len() ==> r@[k] <= 1000,
{
    let n = regrets.len();
    let mut pos: Vec<u64> = Vec::new();
    let mut any = false;
    let mut k: usize = 0;
    while k < n
        invariant
            0 <= k <= n,
            n == regrets@.len(),
            forall|j: int| 0 <= j < regrets@.len() ==> regrets@[j] <= 400000000000i64,
            pos@.len() == k,
            forall|j: int| 0 <= j < k ==> pos@[j] == spec_pos_regrets(regrets@)[j],
            forall|j: int| 0 <= j < k ==> pos@[j] <= 400000000000u64,
            any ==> (exists|j: int| 0 <= j < k && pos@[j] > 0),
            !any ==> (forall|j: int| 0 <= j < k ==> pos@[j] == 0),
        decreases n - k,
    {
        let rg = regrets[k];
        let p: u64 = if rg > 0 {
            rg as u64
        } else {
            0
        };
        let ghost old_pos = pos@;
        let ghost old_any = any;
        if p > 0 {
            any = true;
        }
        pos.push(p);
        proof {
            if p > 0 {
                assert(pos@[k as int] > 0);
            } else if old_any {
                let j = choose|j: int| 0 <= j < k && old_pos[j] > 0;
                assert(pos@[j] > 0);
            }
        }
        k = k + 1;
    }
    proof {
        assert(pos@ =~= spec_pos_regrets(regrets@));
        if any {
            let j = choose|j: int| 0 <= j < n && pos@[j] > 0;
            lemma_sum64_mono(pos@, j + 1, n as int);
            lemma_sum64_bound(pos@, j, 400000000000int);
            assert(spec_sum64(pos@, j + 1) == spec_sum64(pos@, j) + pos@[j]);
            assert(spec_sum64(pos@, n as int) > 0);
        } else {
            assert(forall|j: int| 0 <= j < pos@.len() ==> pos@[j] <= 0);
            lemma_sum64_bound(pos@, n as int, 0);
            assert(spec_sum64(pos@, n as int) == 0);
        }
    }
    if any {
        let r = normalize_permille(&pos, 400000000000u64);
        proof {
            lemma_sum32_eq_row(r@, r@.len() as int);
        }
        r
    } else {
        let r = crate::tree::uniform_strat(n, 1);
        proof {
            crate::tree::lemma_uniform_row_sum(n as int, 1, 0);
            lemma_sum32_eq_row(r@, r@.len() as int);
            assert((n as int) * 1 == n as int) by (nonlinear_arith);
            assert forall|k: int| 0 <= k < r@.len() implies r@[k] <= 1000 by {
                crate::tree::lemma_row_entry_bound(r@, 1, 0, k, n as int);
                assert(r@[k * 1 + 0] == r@[k]);
            }
        }
        r
    }
}

/// The solve loop's stop rule: stop as soon as the exploitability target is
/// met, and in any case when the iteration budget is spent.
pub fn should_stop(
    iteration: u32,
    max_iterations: u32,
    exploitability_millis: u64,
    target_millis: u64,
) -> (r: bool)
    ensures
        r == (iteration >= max_iterations || exploitability_millis <= target_millis),
{
    iteration >= max_iterations || exploitability_millis <= target_millis
}

/// Running record of the lowest exploitability observed over the solve
/// loop: the reported value never worsens as more iterations are recorded.
pub struct ExploitTracker {
    pub best: u64,
}

impl ExploitTracker {
    /// Start with no observation.
    pub fn start() -> (t: ExploitTracker)
        ensures
            t.best == u64::MAX,
    {
        ExploitTracker { best: u64::MAX }
    }

    /// Record one observed exploitability; the report keeps the minimum, so
    /// it never increases.
    pub fn record(&mut self, observed: u64)
        ensures
            final(self).best == (if observed < old(self).best {
                observed
            } else {
                old(self).best
            }),
            final(self).best <= old(self).best,
            final(self).best <= observed,
    {
        if observed < self.best {
            self.best = observed;
        }
    }
}

} // verus!
