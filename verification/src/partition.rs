use crate::judge::{Judge, JudgeTable, ALL_CORRECT, NUM_JUDGES};
use crate::vocab::{Answer, Guess};
use vstd::prelude::*;

verus! {

/// `v` occurs in `s`.
pub open spec fn seq_has(s: Seq<usize>, v: int) -> bool {
    exists|i: int| 0 <= i < s.len() && s[i] == v
}

/// A well-formed candidate set: strictly increasing valid answer indices.
pub open spec fn set_wf(t: JudgeTable, s: Seq<usize>) -> bool {
    &&& forall|i: int| 0 <= i < s.len() ==> t.spec_valid_answer((#[trigger] s[i]) as int)
    &&& forall|i: int, j: int|
        #![trigger s[i], s[j]]
        0 <= i < j < s.len() ==> s[i] < s[j]
}

/// The members of `s` whose judge under guess `g` is `j`, in the order of
/// `s`; the all-Correct bucket is always dropped.
pub open spec fn bucket_of(t: JudgeTable, s: Seq<usize>, g: int, j: int) -> Seq<usize>
    decreases s.len(),
{
    if s.len() == 0 {
        Seq::empty()
    } else {
        let pre = bucket_of(t, s.drop_last(), g, j);
        if t.judge_of(g, s.last() as int) == j && j != ALL_CORRECT {
            pre.push(s.last())
        } else {
            pre
        }
    }
}

/// A candidate set partitioned by judge value: one (possibly empty) bucket
/// per judge value, the all-Correct bucket left empty.
pub struct Partition {
    pub buckets: Vec<Vec<usize>>,
}

pub open spec fn is_partition_of(p: Partition, t: JudgeTable, s: Seq<usize>, g: int) -> bool {
    &&& p.buckets@.len() == NUM_JUDGES
    &&& forall|j: int| 0 <= j < NUM_JUDGES ==> (#[trigger] p.buckets@[j])@ == bucket_of(t, s, g, j)
}

/// The sum of the bucket lengths below judge value `j`.
pub open spec fn sizes_sum(t: JudgeTable, s: Seq<usize>, g: int, j: int) -> int
    decreases j,
{
    if j <= 0 {
        0
    } else {
        sizes_sum(t, s, g, j - 1) + bucket_of(t, s, g, j - 1).len()
    }
}

/// Every guess splits off at most the last member: dropping the last member
/// of `s` lowers the size sum by one exactly when the last member's judge
/// lies below `j` and is not all-Correct.
pub proof fn lemma_sizes_sum_step(t: JudgeTable, s: Seq<usize>, g: int, j: int)
    requires
        s.len() >= 1,
    ensures
        sizes_sum(t, s, g, j) == sizes_sum(t, s.drop_last(), g, j) + if 0 <= t.judge_of(
            g,
            s.last() as int,
        ) < j && t.judge_of(g, s.last() as int) != ALL_CORRECT {
            1int
        } else {
            0int
        },
    decreases j,
{
    if j > 0 {
        lemma_sizes_sum_step(t, s, g, j - 1);
    }
}

pub proof fn lemma_sizes_sum_nonneg(t: JudgeTable, s: Seq<usize>, g: int, j: int)
    ensures
        sizes_sum(t, s, g, j) >= 0,
    decreases j,
{
    if j > 0 {
        lemma_sizes_sum_nonneg(t, s, g, j - 1);
    }
}

pub proof fn lemma_sizes_sum_monotone(t: JudgeTable, s: Seq<usize>, g: int, j1: int, j2: int)
    requires
        0 <= j1 <= j2,
    ensures
        sizes_sum(t, s, g, j1) <= sizes_sum(t, s, g, j2),
    decreases j2,
{
    if j1 < j2 {
        lemma_sizes_sum_monotone(t, s, g, j1, j2 - 1);
    }
}

/// Each bucket's length is at most the total size sum.
pub proof fn lemma_bucket_le_sum(t: JudgeTable, s: Seq<usize>, g: int, j: int)
    requires
        0 <= j < NUM_JUDGES,
    ensures
        bucket_of(t, s, g, j).len() <= sizes_sum(t, s, g, NUM_JUDGES as int),
{
    lemma_sizes_sum_nonneg(t, s, g, j);
    lemma_sizes_sum_monotone(t, s, g, j + 1, NUM_JUDGES as int);
}

pub proof fn lemma_sizes_sum_empty(t: JudgeTable, s: Seq<usize>, g: int, j: int)
    requires
        s.len() == 0,
    ensures
        sizes_sum(t, s, g, j) == 0,
    decreases j,
{
    if j > 0 {
        lemma_sizes_sum_empty(t, s, g, j - 1);
    }
}

/// Partition completeness: the buckets together hold every member of `s`
/// except `g` itself when `g` is a member (its judge is all-Correct and is
/// dropped); nothing else is ever dropped.
pub proof fn lemma_partition_sizes(t: JudgeTable, s: Seq<usize>, g: int)
    requires
        t.wf(),
        set_wf(t, s),
        0 <= g < t.guess_until,
    ensures
        sizes_sum(t, s, g, NUM_JUDGES as int) == s.len() - if seq_has(s, g) {
            1int
        } else {
            0int
        },
    decreases s.len(),
{
    if s.len() == 0 {
        assert(!seq_has(s, g));
        lemma_sizes_sum_empty(t, s, g, NUM_JUDGES as int);
    } else {
        let pre = s.drop_last();
        let x = s.last();
        assert(set_wf(t, pre)) by {
            assert(forall|i: int| 0 <= i < pre.len() ==> pre[i] == s[i]);
        }
        lemma_partition_sizes(t, pre, g);
        lemma_sizes_sum_step(t, s, g, NUM_JUDGES as int);
        assert(t.spec_valid_answer(x as int)) by {
            assert(s[s.len() - 1] == x);
        }
        t.lemma_entry_wf(g, x as int);
        let jx = t.judge_of(g, x as int);
        assert(0 <= jx < NUM_JUDGES);
        assert(sizes_sum(t, s, g, NUM_JUDGES as int) == sizes_sum(t, pre, g, NUM_JUDGES as int)
            + if jx != ALL_CORRECT {
                1int
            } else {
                0int
            });
        assert(sizes_sum(t, pre, g, NUM_JUDGES as int) == pre.len() - if seq_has(pre, g) {
            1int
        } else {
            0int
        });
        if jx == ALL_CORRECT {
            t.lemma_correct_implies_eq(g, x as int);
            assert(x == g);
            assert(seq_has(s, g)) by {
                assert(s[s.len() - 1] == g);
            }
            assert(!seq_has(pre, g)) by {
                if seq_has(pre, g) {
                    let i = choose|i: int| 0 <= i < pre.len() && pre[i] == g;
                    assert(s[i] == pre[i]);
                    assert(s[i] < s[s.len() - 1]);
                }
            }
        } else {
            assert(x != g) by {
                if x == g {
                    t.lemma_self_correct(x as int);
                }
            }
            assert(seq_has(pre, g) == seq_has(s, g)) by {
                if seq_has(pre, g) {
                    let i = choose|i: int| 0 <= i < pre.len() && pre[i] == g;
                    assert(s[i] == pre[i]);
                }
                if seq_has(s, g) {
                    let i = choose|i: int| 0 <= i < s.len() && s[i] == g;
                    assert(i < s.len() - 1);
                    assert(pre[i] == g);
                }
            }
        }
    }
}

/// Buckets inherit membership, validity and strict order from `s`.
pub proof fn lemma_bucket_members(t: JudgeTable, s: Seq<usize>, g: int, j: int)
    ensures
        forall|k: int|
            0 <= k < bucket_of(t, s, g, j).len() ==> seq_has(
                s,
                (#[trigger] bucket_of(t, s, g, j)[k]) as int,
            ),
        forall|k: int|
            0 <= k < bucket_of(t, s, g, j).len() ==> t.judge_of(
                g,
                (#[trigger] bucket_of(t, s, g, j)[k]) as int,
            ) == j,
        j == ALL_CORRECT ==> bucket_of(t, s, g, j).len() == 0,
        set_wf(t, s) ==> set_wf(t, bucket_of(t, s, g, j)),
    decreases s.len(),
{
    let b = bucket_of(t, s, g, j);
    if s.len() == 0 {
    } else {
        let pre = s.drop_last();
        let x = s.last();
        lemma_bucket_members(t, pre, g, j);
        let bp = bucket_of(t, pre, g, j);
        assert(forall|k: int| 0 <= k < pre.len() ==> pre[k] == s[k]);
        assert(forall|v: int| seq_has(pre, v) ==> seq_has(s, v)) by {
            assert forall|v: int| seq_has(pre, v) implies seq_has(s, v) by {
                let i = choose|i: int| 0 <= i < pre.len() && pre[i] == v;
                assert(s[i] == v);
            }
        }
        if t.judge_of(g, x as int) == j && j != ALL_CORRECT {
            assert(b == bp.push(x));
            assert(seq_has(s, x as int)) by {
                assert(s[s.len() - 1] == x);
            }
            if set_wf(t, s) {
                assert(set_wf(t, pre)) by {
                    assert(forall|i: int| 0 <= i < pre.len() ==> pre[i] == s[i]);
                }
                assert forall|k1: int, k2: int|
                    #![trigger b[k1], b[k2]]
                    0 <= k1 < k2 < b.len() implies b[k1] < b[k2] by {
                    if k2 < b.len() - 1 {
                        assert(bp[k1] < bp[k2]);
                    } else {
                        // b[k2] is x, the last member of s; b[k1] sits in pre
                        assert(b[k1] == bp[k1]);
                        assert(seq_has(pre, bp[k1] as int));
                        let i = choose|i: int| 0 <= i < pre.len() && pre[i] == bp[k1] as int;
                        assert(s[i] == pre[i]);
                        assert(s[i] < s[s.len() - 1]);
                    }
                }
                assert forall|k: int| 0 <= k < b.len() implies t.spec_valid_answer(
                    (#[trigger] b[k]) as int,
                ) by {
                    if k < b.len() - 1 {
                        assert(t.spec_valid_answer(bp[k] as int));
                    } else {
                        assert(t.spec_valid_answer(s[s.len() - 1] as int));
                    }
                }
            }
        } else {
            assert(b == bp);
        }
    }
}

/// A member whose judge is not all-Correct lands in its judge's bucket.
pub proof fn lemma_bucket_has(t: JudgeTable, s: Seq<usize>, g: int, q: int)
    requires
        0 <= q < s.len(),
        t.judge_of(g, s[q] as int) != ALL_CORRECT,
    ensures
        seq_has(bucket_of(t, s, g, t.judge_of(g, s[q] as int)), s[q] as int),
    decreases s.len(),
{
    let j = t.judge_of(g, s[q] as int);
    let b = bucket_of(t, s, g, j);
    let pre = s.drop_last();
    if q == s.len() - 1 {
        assert(s.last() == s[q]);
        assert(b == bucket_of(t, pre, g, j).push(s[q]));
        assert(b[b.len() - 1] == s[q]);
    } else {
        assert(pre[q] == s[q]);
        lemma_bucket_has(t, pre, g, q);
        let bp = bucket_of(t, pre, g, j);
        let i = choose|i: int| 0 <= i < bp.len() && bp[i] == s[q] as int;
        if t.judge_of(g, s.last() as int) == j && j != ALL_CORRECT {
            assert(b == bp.push(s.last()));
            assert(b[i] == s[q]);
        } else {
            assert(b == bp);
        }
    }
}

/// The sum of a weight over the first `q` members of `s`.
pub open spec fn wsum(s: Seq<usize>, w: spec_fn(usize) -> int, q: int) -> int
    decreases q,
{
    if q <= 0 {
        0
    } else {
        wsum(s, w, q - 1) + w(s[q - 1])
    }
}

/// The weight sums of the buckets below judge value `j`.
pub open spec fn buckets_wsum(
    t: JudgeTable,
    s: Seq<usize>,
    g: int,
    w: spec_fn(usize) -> int,
    j: int,
) -> int
    decreases j,
{
    if j <= 0 {
        0
    } else {
        buckets_wsum(t, s, g, w, j - 1) + wsum(
            bucket_of(t, s, g, j - 1),
            w,
            bucket_of(t, s, g, j - 1).len() as int,
        )
    }
}

proof fn lemma_wsum_prefix(s1: Seq<usize>, s2: Seq<usize>, w: spec_fn(usize) -> int, q: int)
    requires
        0 <= q,
        forall|k: int| 0 <= k < q ==> s1[k] == s2[k],
    ensures
        wsum(s1, w, q) == wsum(s2, w, q),
    decreases q,
{
    if q > 0 {
        lemma_wsum_prefix(s1, s2, w, q - 1);
    }
}

proof fn lemma_buckets_wsum_step(
    t: JudgeTable,
    s: Seq<usize>,
    g: int,
    w: spec_fn(usize) -> int,
    j: int,
)
    requires
        s.len() >= 1,
    ensures
        buckets_wsum(t, s, g, w, j) == buckets_wsum(t, s.drop_last(), g, w, j) + if 0 <= t.judge_of(
            g,
            s.last() as int,
        ) < j && t.judge_of(g, s.last() as int) != ALL_CORRECT {
            w(s.last())
        } else {
            0
        },
    decreases j,
{
    if j > 0 {
        lemma_buckets_wsum_step(t, s, g, w, j - 1);
        let pre = s.drop_last();
        let bp = bucket_of(t, pre, g, j - 1);
        let b = bucket_of(t, s, g, j - 1);
        if t.judge_of(g, s.last() as int) == j - 1 && j - 1 != ALL_CORRECT {
            assert(b == bp.push(s.last()));
            lemma_wsum_prefix(bp.push(s.last()), bp, w, bp.len() as int);
            assert(wsum(b, w, b.len() as int) == wsum(bp, w, bp.len() as int) + w(
                bp.push(s.last())[bp.len() as int],
            ));
        } else {
            assert(b == bp);
        }
    }
}

proof fn lemma_buckets_wsum_empty(
    t: JudgeTable,
    s: Seq<usize>,
    g: int,
    w: spec_fn(usize) -> int,
    j: int,
)
    requires
        s.len() == 0,
    ensures
        buckets_wsum(t, s, g, w, j) == 0,
    decreases j,
{
    if j > 0 {
        lemma_buckets_wsum_empty(t, s, g, w, j - 1);
    }
}

/// Weighted partition completeness: any weight summed over the members
/// equals its sum over the buckets, plus the guess's own weight when the
/// guess is a member (its all-Correct bucket being dropped).
pub proof fn lemma_partition_wsum(t: JudgeTable, s: Seq<usize>, g: int, w: spec_fn(usize) -> int)
    requires
        t.wf(),
        set_wf(t, s),
        0 <= g < t.guess_until,
    ensures
        wsum(s, w, s.len() as int) == buckets_wsum(t, s, g, w, NUM_JUDGES as int) + if seq_has(
            s,
            g,
        ) {
            w(g as usize)
        } else {
            0
        },
    decreases s.len(),
{
    if s.len() == 0 {
        assert(!seq_has(s, g));
        lemma_buckets_wsum_empty(t, s, g, w, NUM_JUDGES as int);
    } else {
        let pre = s.drop_last();
        let x = s.last();
        assert(set_wf(t, pre)) by {
            assert(forall|i: int| 0 <= i < pre.len() ==> pre[i] == s[i]);
        }
        lemma_partition_wsum(t, pre, g, w);
        lemma_buckets_wsum_step(t, s, g, w, NUM_JUDGES as int);
        lemma_wsum_prefix(s, pre, w, pre.len() as int);
        assert(wsum(s, w, s.len() as int) == wsum(pre, w, pre.len() as int) + w(x)) by {
            assert(s[s.len() - 1] == x);
        }
        assert(t.spec_valid_answer(x as int)) by {
            assert(s[s.len() - 1] == x);
        }
        t.lemma_entry_wf(g, x as int);
        let jx = t.judge_of(g, x as int);
        assert(0 <= jx < NUM_JUDGES);
        assert(buckets_wsum(t, s, g, w, NUM_JUDGES as int) == buckets_wsum(
            t,
            pre,
            g,
            w,
            NUM_JUDGES as int,
        ) + if jx != ALL_CORRECT {
            w(x)
        } else {
            0
        });
        if jx == ALL_CORRECT {
            t.lemma_correct_implies_eq(g, x as int);
            assert(x == g);
            assert(seq_has(s, g)) by {
                assert(s[s.len() - 1] == g);
            }
            assert(!seq_has(pre, g)) by {
                if seq_has(pre, g) {
                    let i = choose|i: int| 0 <= i < pre.len() && pre[i] == g;
                    assert(s[i] == pre[i]);
                    assert(s[i] < s[s.len() - 1]);
                }
            }
        } else {
            assert(x != g) by {
                if x == g {
                    t.lemma_self_correct(x as int);
                }
            }
            assert(seq_has(pre, g) == seq_has(s, g)) by {
                if seq_has(pre, g) {
                    let i = choose|i: int| 0 <= i < pre.len() && pre[i] == g;
                    assert(s[i] == pre[i]);
                }
                if seq_has(s, g) {
                    let i = choose|i: int| 0 <= i < s.len() && s[i] == g;
                    assert(i < s.len() - 1);
                    assert(pre[i] == g);
                }
            }
        }
    }
}

/// When every other bucket's weight sum vanishes, the bucket sweep reduces
/// to the one remaining bucket.
pub proof fn lemma_buckets_wsum_single(
    t: JudgeTable,
    s: Seq<usize>,
    g: int,
    w: spec_fn(usize) -> int,
    jstar: int,
    j: int,
)
    requires
        0 <= jstar < NUM_JUDGES,
        0 <= j <= NUM_JUDGES,
        forall|j2: int|
            0 <= j2 < NUM_JUDGES && j2 != jstar ==> wsum(
                bucket_of(t, s, g, j2),
                w,
                bucket_of(t, s, g, j2).len() as int,
            ) == 0,
    ensures
        buckets_wsum(t, s, g, w, j) == if jstar < j {
            wsum(bucket_of(t, s, g, jstar), w, bucket_of(t, s, g, jstar).len() as int)
        } else {
            0
        },
    decreases j,
{
    if j > 0 {
        lemma_buckets_wsum_single(t, s, g, w, jstar, j - 1);
    }
}

/// A weight that vanishes on every member sums to nothing.
pub proof fn lemma_wsum_zero(s: Seq<usize>, w: spec_fn(usize) -> int, q: int)
    requires
        0 <= q <= s.len(),
        forall|i: int| 0 <= i < s.len() ==> w(#[trigger] s[i]) == 0,
    ensures
        wsum(s, w, q) == 0,
    decreases q,
{
    if q > 0 {
        lemma_wsum_zero(s, w, q - 1);
    }
}

/// Weights that agree on every member sum alike.
pub proof fn lemma_wsum_agree(s: Seq<usize>, w1: spec_fn(usize) -> int, w2: spec_fn(usize) -> int, q: int)
    requires
        0 <= q <= s.len(),
        forall|i: int| 0 <= i < s.len() ==> w1(#[trigger] s[i]) == w2(s[i]),
    ensures
        wsum(s, w1, q) == wsum(s, w2, q),
    decreases q,
{
    if q > 0 {
        lemma_wsum_agree(s, w1, w2, q - 1);
    }
}

/// Summing a pointwise difference is the difference of the sums.
pub proof fn lemma_wsum_linear(
    s: Seq<usize>,
    w1: spec_fn(usize) -> int,
    w2: spec_fn(usize) -> int,
    w3: spec_fn(usize) -> int,
    q: int,
)
    requires
        0 <= q <= s.len(),
        forall|i: int| 0 <= i < s.len() ==> w3(#[trigger] s[i]) == w1(s[i]) - w2(s[i]),
    ensures
        wsum(s, w3, q) == wsum(s, w1, q) - wsum(s, w2, q),
    decreases q,
{
    if q > 0 {
        lemma_wsum_linear(s, w1, w2, w3, q - 1);
    }
}

/// A pointwise shift by one raises the sum by the count.
pub proof fn lemma_wsum_shift(s: Seq<usize>, w1: spec_fn(usize) -> int, w2: spec_fn(usize) -> int, q: int)
    requires
        0 <= q <= s.len(),
        forall|i: int| 0 <= i < s.len() ==> w2(#[trigger] s[i]) == w1(s[i]) + 1,
    ensures
        wsum(s, w2, q) == wsum(s, w1, q) + q,
    decreases q,
{
    if q > 0 {
        lemma_wsum_shift(s, w1, w2, q - 1);
    }
}

/// A guess splits a set when every bucket is strictly smaller than the set.
pub open spec fn splits(t: JudgeTable, s: Seq<usize>, g: int) -> bool {
    forall|j: int| 0 <= j < NUM_JUDGES ==> bucket_of(t, s, g, j).len() < s.len()
}

/// A guess that is itself a member always splits: its own bucket is dropped,
/// so every bucket misses at least that member.
pub proof fn lemma_member_splits(t: JudgeTable, s: Seq<usize>, g: int)
    requires
        t.wf(),
        set_wf(t, s),
        s.len() >= 1,
        seq_has(s, g),
    ensures
        splits(t, s, g),
        0 <= g < t.guess_until,
        sizes_sum(t, s, g, NUM_JUDGES as int) == s.len() - 1,
{
    let i = choose|i: int| 0 <= i < s.len() && s[i] == g;
    assert(t.spec_valid_answer(s[i] as int));
    lemma_partition_sizes(t, s, g);
    assert forall|j: int| 0 <= j < NUM_JUDGES implies bucket_of(t, s, g, j).len() < s.len() by {
        lemma_bucket_le_sum(t, s, g, j);
    }
}

/// The size sum never exceeds the set size.
pub proof fn lemma_sizes_sum_le(t: JudgeTable, s: Seq<usize>, g: int)
    requires
        t.wf(),
        set_wf(t, s),
        0 <= g < t.guess_until,
    ensures
        sizes_sum(t, s, g, NUM_JUDGES as int) <= s.len(),
        sizes_sum(t, s, g, NUM_JUDGES as int) >= s.len() - 1,
{
    lemma_partition_sizes(t, s, g);
}

impl JudgeTable {
    /// Groups a candidate set by feedback pattern under `guess`, dropping the
    /// all-Correct bucket.
    pub fn partition(&self, rem_ans: &Vec<Answer>, guess: &Guess) -> (p: Partition)
        requires
            self.wf(),
            set_wf(*self, rem_ans@),
            *guess < self.guess_until,
        ensures
            is_partition_of(p, *self, rem_ans@, *guess as int),
    {
        let ghost gv = *guess as int;
        let mut buckets: Vec<Vec<usize>> = Vec::new();
        let mut j: usize = 0;
        while j < NUM_JUDGES
            invariant
                j <= NUM_JUDGES,
                buckets@.len() == j,
                forall|k: int| 0 <= k < j ==> (#[trigger] buckets@[k])@.len() == 0,
            decreases NUM_JUDGES - j,
        {
            buckets.push(Vec::new());
            j += 1;
        }
        let mut i: usize = 0;
        while i < rem_ans.len()
            invariant
                self.wf(),
                set_wf(*self, rem_ans@),
                *guess < self.guess_until,
                gv == *guess as int,
                i <= rem_ans@.len(),
                buckets@.len() == NUM_JUDGES,
                forall|k: int|
                    0 <= k < NUM_JUDGES ==> (#[trigger] buckets@[k])@ == bucket_of(
                        *self,
                        rem_ans@.take(i as int),
                        gv,
                        k,
                    ),
            decreases rem_ans@.len() - i,
        {
            let ghost i0 = i as int;
            let ghost pre = rem_ans@.take(i0);
            let a = rem_ans[i];
            let jv = self.judge(guess, &a);
            if jv != ALL_CORRECT {
                buckets[jv].push(a);
            }
            proof {
                let cur = rem_ans@.take(i0 + 1);
                assert(cur.drop_last() =~= pre);
                assert(cur.last() == rem_ans@[i0]);
                assert forall|k: int| 0 <= k < NUM_JUDGES implies (#[trigger] buckets@[k])@
                    == bucket_of(*self, cur, gv, k) by {
                    if k == jv && jv != ALL_CORRECT {
                        assert(buckets@[k]@ == bucket_of(*self, pre, gv, k).push(a));
                    } else {
                        assert(buckets@[k]@ == bucket_of(*self, pre, gv, k));
                    }
                }
            }
            i += 1;
        }
        proof {
            assert(rem_ans@.take(rem_ans@.len() as int) =~= rem_ans@);
        }
        Partition { buckets }
    }
}

} // verus!
