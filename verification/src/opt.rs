use crate::judge::{JudgeTable, NUM_JUDGES};
use crate::partition::{bucket_of, lemma_bucket_le_sum, lemma_bucket_members, lemma_member_splits,
    lemma_partition_sizes, lemma_sizes_sum_le, lemma_sizes_sum_nonneg, seq_has, set_wf, sizes_sum,
    splits};
use crate::vocab::MAX_WORDS;
use vstd::prelude::*;

verus! {

/// A score larger than any reachable strategy cost; half of `i32::MAX`, so a
/// pruned branch can still be added to a running total without overflow.
pub const INFTY: i32 = 1073741823;

/// Sum over the buckets below judge value `j` of the optimal cost of each
/// bucket.  Only specified for splitting guesses, whose buckets are strictly
/// smaller than the set itself.
pub open spec fn buckets_opt_sum(t: JudgeTable, s: Seq<usize>, g: int, j: int) -> int
    decreases s.len(), 0int, j,
        when splits(t, s, g) && 0 <= j <= NUM_JUDGES
{
    if j <= 0 {
        0
    } else {
        buckets_opt_sum(t, s, g, j - 1) + opt_cost(t, bucket_of(t, s, g, j - 1))
    }
}

/// The least cost, over splitting guesses below `g`, of the buckets the
/// guess produces; `INFTY` when no guess below `g` splits.
pub open spec fn best_over_guesses(t: JudgeTable, s: Seq<usize>, g: int) -> int
    decreases s.len(), 1int, g,
{
    if g <= 0 {
        INFTY as int
    } else {
        let rest = best_over_guesses(t, s, g - 1);
        if splits(t, s, g - 1) {
            let v = buckets_opt_sum(t, s, g - 1, NUM_JUDGES as int);
            if v < rest {
                v
            } else {
                rest
            }
        } else {
            rest
        }
    }
}

/// The optimal total guess count for candidate set `s`: the least, over all
/// splitting guesses, of one guess charged per remaining answer plus the
/// optimal cost of every feedback bucket.
pub open spec fn opt_cost(t: JudgeTable, s: Seq<usize>) -> int
    decreases s.len(), 2int, 0int,
{
    if s.len() <= 1 {
        s.len() as int
    } else {
        s.len() + best_over_guesses(t, s, t.guess_until as int)
    }
}

/// In a strictly increasing sequence every entry is at least its index.
proof fn lemma_sorted_lower(s: Seq<usize>, i: int)
    requires
        forall|a: int, b: int| #![trigger s[a], s[b]] 0 <= a < b < s.len() ==> s[a] < s[b],
        0 <= i < s.len(),
    ensures
        s[i] >= i,
    decreases i,
{
    if i > 0 {
        lemma_sorted_lower(s, i - 1);
        assert(s[i - 1] < s[i]);
    }
}

/// A well-formed candidate set cannot outgrow the answer range.
pub proof fn lemma_set_len_bound(t: JudgeTable, s: Seq<usize>)
    requires
        t.wf(),
        set_wf(t, s),
    ensures
        s.len() <= t.ans_until,
        s.len() <= MAX_WORDS,
{
    if s.len() > 0 {
        let i = s.len() - 1;
        lemma_sorted_lower(s, i as int);
        assert(t.spec_valid_answer(s[i as int] as int));
    }
}

/// The minimum over guesses is at most the value of any splitting guess.
pub proof fn lemma_best_le_candidate(t: JudgeTable, s: Seq<usize>, g: int, gmax: int)
    requires
        0 <= g < gmax,
        splits(t, s, g),
    ensures
        best_over_guesses(t, s, gmax) <= buckets_opt_sum(t, s, g, NUM_JUDGES as int),
    decreases gmax,
{
    if g < gmax - 1 {
        lemma_best_le_candidate(t, s, g, gmax - 1);
    }
}

/// Bucket cost sums are bounded by the sizes below and by a quadratic above:
/// each bucket of size `b` costs at least `b` and at most `b * (|s| - 1)`.
pub proof fn lemma_buckets_sum_bounds(t: JudgeTable, s: Seq<usize>, g: int, j: int)
    requires
        t.wf(),
        set_wf(t, s),
        2 <= s.len(),
        0 <= g < t.guess_until,
        splits(t, s, g),
        0 <= j <= NUM_JUDGES,
    ensures
        sizes_sum(t, s, g, j) <= buckets_opt_sum(t, s, g, j),
        buckets_opt_sum(t, s, g, j) <= (s.len() - 1) * sizes_sum(t, s, g, j),
    decreases s.len(), 0int, j,
{
    let n = s.len() as int;
    if j <= 0 {
        assert((n - 1) * 0 == 0) by (nonlinear_arith);
    } else {
        lemma_buckets_sum_bounds(t, s, g, j - 1);
        lemma_sizes_sum_nonneg(t, s, g, j - 1);
        let b = bucket_of(t, s, g, j - 1);
        let bl = b.len() as int;
        assert(bl < n);
        lemma_bucket_members(t, s, g, j - 1);
        if bl == 0 {
            assert(opt_cost(t, b) == 0);
            assert((n - 1) * sizes_sum(t, s, g, j) == (n - 1) * sizes_sum(t, s, g, j - 1));
        } else {
            lemma_opt_bounds(t, b);
            assert(bl <= opt_cost(t, b));
            assert(opt_cost(t, b) <= bl * bl);
            assert(bl * bl <= bl * (n - 1)) by (nonlinear_arith)
                requires
                    0 <= bl <= n - 1,
            ;
            assert((n - 1) * sizes_sum(t, s, g, j - 1) + bl * (n - 1) == (n - 1) * (sizes_sum(
                t,
                s,
                g,
                j - 1,
            ) + bl)) by (nonlinear_arith);
            assert(sizes_sum(t, s, g, j) == sizes_sum(t, s, g, j - 1) + bl);
        }
    }
}

/// Bucket cost sums grow with the judge range.
pub proof fn lemma_buckets_sum_monotone(t: JudgeTable, s: Seq<usize>, g: int, j1: int, j2: int)
    requires
        t.wf(),
        set_wf(t, s),
        2 <= s.len(),
        0 <= g < t.guess_until,
        splits(t, s, g),
        0 <= j1 <= j2 <= NUM_JUDGES,
    ensures
        buckets_opt_sum(t, s, g, j1) <= buckets_opt_sum(t, s, g, j2),
    decreases j2,
{
    if j1 < j2 {
        lemma_buckets_sum_monotone(t, s, g, j1, j2 - 1);
        let b = bucket_of(t, s, g, j2 - 1);
        lemma_bucket_members(t, s, g, j2 - 1);
        lemma_opt_bounds(t, b);
    }
}

/// Any splitting guess leaves at least `|s| - 1` members to identify.
pub proof fn lemma_best_ge(t: JudgeTable, s: Seq<usize>, g: int)
    requires
        t.wf(),
        set_wf(t, s),
        2 <= s.len(),
        0 <= g <= t.guess_until,
    ensures
        best_over_guesses(t, s, g) >= s.len() - 1,
    decreases s.len(), 1int, g,
{
    lemma_set_len_bound(t, s);
    if g > 0 {
        lemma_best_ge(t, s, g - 1);
        if splits(t, s, g - 1) {
            lemma_buckets_sum_bounds(t, s, g - 1, NUM_JUDGES as int);
            lemma_sizes_sum_le(t, s, g - 1);
        }
    }
}

/// The trivial cost bounds: identifying `n` answers takes at least `2n - 1`
/// guesses in total and never more than `n * n`.
pub proof fn lemma_opt_bounds(t: JudgeTable, s: Seq<usize>)
    requires
        t.wf(),
        set_wf(t, s),
    ensures
        s.len() >= 1 ==> 2 * s.len() - 1 <= opt_cost(t, s),
        opt_cost(t, s) <= s.len() * s.len(),
        opt_cost(t, s) >= 0,
    decreases s.len(), 2int, 0int,
{
    let n = s.len() as int;
    if n <= 1 {
        assert(n * n >= n) by (nonlinear_arith);
    } else {
        let gmax = t.guess_until as int;
        lemma_best_ge(t, s, gmax);
        let g0 = s[0] as int;
        assert(seq_has(s, g0));
        lemma_member_splits(t, s, g0);
        lemma_buckets_sum_bounds(t, s, g0, NUM_JUDGES as int);
        lemma_best_le_candidate(t, s, g0, gmax);
        assert(buckets_opt_sum(t, s, g0, NUM_JUDGES as int) <= (n - 1) * (n - 1));
        assert(n + (n - 1) * (n - 1) <= n * n) by (nonlinear_arith)
            requires
                n >= 2,
        ;
    }
}

/// Identifying one of two candidates costs exactly three guesses in total:
/// guess either one, then the other is known.
pub proof fn lemma_opt_pair(t: JudgeTable, s: Seq<usize>)
    requires
        t.wf(),
        set_wf(t, s),
        s.len() == 2,
    ensures
        opt_cost(t, s) == 3,
{
    lemma_opt_bounds(t, s);
    let g0 = s[0] as int;
    let x1 = s[1];
    assert(seq_has(s, g0));
    lemma_member_splits(t, s, g0);
    assert(t.spec_valid_answer(s[0] as int));
    assert(t.spec_valid_answer(s[1] as int));
    t.lemma_entry_wf(g0, x1 as int);
    t.lemma_self_correct(s[0] as int);
    let j1 = t.judge_of(g0, x1 as int);
    assert(j1 != crate::judge::ALL_CORRECT) by {
        if j1 == crate::judge::ALL_CORRECT {
            t.lemma_correct_implies_eq(g0, x1 as int);
            assert(s[0] < s[1]);
        }
    }
    let pre = s.drop_last();
    assert(pre.len() == 1 && pre[0] == s[0]);
    assert(pre.drop_last().len() == 0);
    assert forall|j2: int| 0 <= j2 < NUM_JUDGES && j2 != j1 implies bucket_of(t, s, g0, j2).len()
        == 0 by {
        assert(bucket_of(t, pre.drop_last(), g0, j2).len() == 0);
        assert(t.judge_of(g0, pre.last() as int) == crate::judge::ALL_CORRECT);
        assert(bucket_of(t, pre, g0, j2).len() == 0);
        assert(s.last() == x1);
    }
    assert(bucket_of(t, s, g0, j1) =~= seq![x1]) by {
        assert(bucket_of(t, pre.drop_last(), g0, j1).len() == 0);
        assert(t.judge_of(g0, pre.last() as int) == crate::judge::ALL_CORRECT);
        assert(bucket_of(t, pre, g0, j1).len() == 0);
        assert(s.last() == x1);
    }
    assert(opt_cost(t, bucket_of(t, s, g0, j1)) == 1);
    lemma_buckets_sum_single(t, s, g0, j1, NUM_JUDGES as int);
    assert(buckets_opt_sum(t, s, g0, NUM_JUDGES as int) == 1);
    lemma_best_le_candidate(t, s, g0, t.guess_until as int);
    assert(opt_cost(t, s) <= 3);
}

/// When every bucket but one is empty, the sum is that bucket's cost.
pub proof fn lemma_buckets_sum_single(t: JudgeTable, s: Seq<usize>, g: int, jstar: int, j: int)
    requires
        splits(t, s, g),
        0 <= jstar < NUM_JUDGES,
        0 <= j <= NUM_JUDGES,
        forall|j2: int|
            0 <= j2 < NUM_JUDGES && j2 != jstar ==> bucket_of(t, s, g, j2).len() == 0,
    ensures
        buckets_opt_sum(t, s, g, j) == if jstar < j {
            opt_cost(t, bucket_of(t, s, g, jstar))
        } else {
            0
        },
    decreases j,
{
    if j > 0 {
        lemma_buckets_sum_single(t, s, g, jstar, j - 1);
        if j - 1 != jstar {
            assert(bucket_of(t, s, g, j - 1).len() == 0);
            assert(opt_cost(t, bucket_of(t, s, g, j - 1)) == 0);
        }
    }
}

/// With every bucket of size at most two, the cost sum is at most twice the
/// members minus one (once at least one bucket is inhabited).
pub proof fn lemma_buckets_sum_small(t: JudgeTable, s: Seq<usize>, g: int, j: int)
    requires
        t.wf(),
        set_wf(t, s),
        2 <= s.len(),
        0 <= g < t.guess_until,
        splits(t, s, g),
        0 <= j <= NUM_JUDGES,
        forall|j2: int| 0 <= j2 < NUM_JUDGES ==> bucket_of(t, s, g, j2).len() <= 2,
    ensures
        buckets_opt_sum(t, s, g, j) <= 2 * sizes_sum(t, s, g, j) - if sizes_sum(t, s, g, j) > 0 {
            1int
        } else {
            0int
        },
    decreases j,
{
    if j > 0 {
        lemma_buckets_sum_small(t, s, g, j - 1);
        lemma_sizes_sum_nonneg(t, s, g, j - 1);
        let b = bucket_of(t, s, g, j - 1);
        lemma_bucket_members(t, s, g, j - 1);
        if b.len() == 0 {
            assert(opt_cost(t, b) == 0);
        } else if b.len() == 1 {
            assert(opt_cost(t, b) == 1);
        } else {
            assert(b.len() == 2);
            lemma_opt_pair(t, b);
        }
    }
}

/// When the minimum over guesses is reached at all, some guess reaches it.
pub proof fn lemma_best_witness(t: JudgeTable, s: Seq<usize>, gmax: int)
    requires
        0 <= gmax,
        best_over_guesses(t, s, gmax) < INFTY as int,
    ensures
        exists|g: int|
            0 <= g < gmax && #[trigger] splits(t, s, g) && buckets_opt_sum(
                t,
                s,
                g,
                NUM_JUDGES as int,
            ) == best_over_guesses(t, s, gmax),
    decreases gmax,
{
    if gmax > 0 {
        let rest = best_over_guesses(t, s, gmax - 1);
        if splits(t, s, gmax - 1) && buckets_opt_sum(t, s, gmax - 1, NUM_JUDGES as int) < rest {
            assert(splits(t, s, gmax - 1));
        } else {
            lemma_best_witness(t, s, gmax - 1);
            let g = choose|g: int|
                0 <= g < gmax - 1 && #[trigger] splits(t, s, g) && buckets_opt_sum(
                    t,
                    s,
                    g,
                    NUM_JUDGES as int,
                ) == rest;
            assert(splits(t, s, g));
        }
    }
}

/// For a three-member set, some member matches the best splitting guess:
/// guessing a member costs at most six in total, while any outside guess
/// leaves all three members to identify.
pub proof fn lemma_three_member_min(t: JudgeTable, s: Seq<usize>)
    requires
        t.wf(),
        set_wf(t, s),
        s.len() == 3,
    ensures
        exists|g: int|
            0 <= g < t.guess_until && #[trigger] seq_has(s, g) && splits(t, s, g)
                && buckets_opt_sum(t, s, g, NUM_JUDGES as int) <= best_over_guesses(
                t,
                s,
                t.guess_until as int,
            ),
{
    let gmax = t.guess_until as int;
    let g0 = s[0] as int;
    assert(seq_has(s, g0));
    lemma_member_splits(t, s, g0);
    assert forall|j2: int| 0 <= j2 < NUM_JUDGES implies bucket_of(t, s, g0, j2).len() <= 2 by {
        lemma_bucket_le_sum(t, s, g0, j2);
    }
    lemma_buckets_sum_small(t, s, g0, NUM_JUDGES as int);
    assert(buckets_opt_sum(t, s, g0, NUM_JUDGES as int) <= 3);
    lemma_best_le_candidate(t, s, g0, gmax);
    let best = best_over_guesses(t, s, gmax);
    assert(best < INFTY as int);
    lemma_best_witness(t, s, gmax);
    let gw = choose|g: int|
        0 <= g < gmax && #[trigger] splits(t, s, g) && buckets_opt_sum(t, s, g, NUM_JUDGES as int)
            == best;
    if seq_has(s, gw) {
        assert(seq_has(s, gw) && splits(t, s, gw) && buckets_opt_sum(t, s, gw, NUM_JUDGES as int)
            <= best);
    } else {
        lemma_partition_sizes(t, s, gw);
        assert(sizes_sum(t, s, gw, NUM_JUDGES as int) == 3);
        lemma_buckets_sum_bounds(t, s, gw, NUM_JUDGES as int);
        assert(best >= 3);
        assert(seq_has(s, g0) && splits(t, s, g0) && buckets_opt_sum(t, s, g0, NUM_JUDGES as int)
            <= best);
    }
}

/// The optimum is at most one round plus the bucket costs of any splitting
/// guess.
pub proof fn lemma_opt_le_via(t: JudgeTable, s: Seq<usize>, g: int)
    requires
        2 <= s.len(),
        0 <= g < t.guess_until,
        splits(t, s, g),
    ensures
        opt_cost(t, s) <= s.len() + buckets_opt_sum(t, s, g, NUM_JUDGES as int),
{
    lemma_best_le_candidate(t, s, g, t.guess_until as int);
}

} // verus!
