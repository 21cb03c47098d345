use crate::vocab::{word_views, Answer, Guess, Vocabulary, MAX_WORDS};
use vstd::arithmetic::div_mod::{lemma_fundamental_div_mod, lemma_fundamental_div_mod_converse,
    lemma_mod_multiples_vanish, lemma_mod_pos_bound, lemma_small_mod};
use vstd::prelude::*;

verus! {

/// One position's feedback: the guessed character occurs nowhere, occurs at
/// another position, or is exactly right.
#[derive(Clone, Copy, PartialEq, Eq, Structural, Debug)]
pub enum Status {
    Nowhere,
    Wrong,
    Correct,
}

impl Status {
    pub open spec fn spec_code(self) -> int {
        match self {
            Status::Nowhere => 0,
            Status::Wrong => 1,
            Status::Correct => 2,
        }
    }

    /// The trit this status contributes at a position.
    pub fn code(self) -> (r: usize)
        ensures
            r == self.spec_code(),
    {
        match self {
            Status::Nowhere => 0,
            Status::Wrong => 1,
            Status::Correct => 2,
        }
    }
}

/// A feedback pattern: five trits packed in base four, position 0 in the low
/// digit.
pub type Judge = usize;

/// The all-Correct pattern: trit 2 at each of the five positions.
pub const ALL_CORRECT: usize = 2 + 8 + 32 + 128 + 512;

/// Every judge value lies below `NUM_JUDGES`; `ALL_CORRECT` is the largest.
pub const NUM_JUDGES: usize = 683;

pub open spec fn pow4(k: nat) -> nat
    decreases k,
{
    if k == 0 {
        1
    } else {
        4 * pow4((k - 1) as nat)
    }
}

/// The trit at position `k` of a packed judge value.
pub open spec fn digit_of(j: int, k: nat) -> int {
    (j / (pow4(k) as int)) % 4
}

/// Packs the first `i` digits of `ds` in base four, position 0 lowest.
pub open spec fn encode_digits(ds: Seq<int>, i: int) -> int
    decreases i,
{
    if i <= 0 {
        0
    } else {
        encode_digits(ds, i - 1) + ds[i - 1] * (pow4((i - 1) as nat) as int)
    }
}

/// The largest value `encode_digits` can take on `i` digits that are at most
/// two each.
pub open spec fn max_encoding(i: int) -> int
    decreases i,
{
    if i <= 0 {
        0
    } else {
        max_encoding(i - 1) + 2 * (pow4((i - 1) as nat) as int)
    }
}

/// A well-formed judge value: in range, with every trit at most two.
pub open spec fn judge_wf(j: int) -> bool {
    &&& 0 <= j <= ALL_CORRECT
    &&& forall|k: nat| k < 5 ==> #[trigger] digit_of(j, k) <= 2
}

/// The answer positions matched exactly by the guess, before misplaced
/// pairing starts.
pub open spec fn exact_mask(g: Seq<char>, a: Seq<char>) -> Seq<bool> {
    Seq::new(5, |j: int| 0 <= j < g.len() && g[j] == a[j])
}

/// The leftmost answer position at or after `j` that is unused and holds
/// character `c`; five when there is none.
pub open spec fn find_slot(a: Seq<char>, used: Seq<bool>, c: char, j: int) -> int
    decreases 5 - j,
{
    if j < 0 || j >= 5 {
        5
    } else if !used[j] && a[j] == c {
        j
    } else {
        find_slot(a, used, c, j + 1)
    }
}

/// Processes the first `i` guess positions: returns the trit per position and
/// the set of consumed answer positions.  Exactly matched positions score
/// two; a scanned unmatched position pairs with the leftmost unused answer
/// position holding its character, scoring one and consuming that position;
/// otherwise it scores zero.
pub open spec fn scan(g: Seq<char>, a: Seq<char>, i: int) -> (Seq<int>, Seq<bool>)
    decreases i,
{
    if i <= 0 {
        (Seq::empty(), exact_mask(g, a))
    } else {
        let (ds, used) = scan(g, a, i - 1);
        if g[i - 1] == a[i - 1] {
            (ds.push(2), used)
        } else {
            let s = find_slot(a, used, g[i - 1], 0);
            if s < 5 {
                (ds.push(1), used.update(s, true))
            } else {
                (ds.push(0), used)
            }
        }
    }
}

/// The Wordle feedback of guess word `g` against answer word `a`, packed in
/// base four.
pub open spec fn spec_judge(g: Seq<char>, a: Seq<char>) -> int {
    encode_digits(scan(g, a, g.len() as int).0, g.len() as int)
}

pub proof fn lemma_pow4_pos(k: nat)
    ensures
        pow4(k) >= 1,
    decreases k,
{
    if k > 0 {
        lemma_pow4_pos((k - 1) as nat);
    }
}

pub proof fn lemma_pow4_le(k1: nat, k2: nat)
    requires
        k1 <= k2,
    ensures
        pow4(k1) <= pow4(k2),
    decreases k2,
{
    if k1 < k2 {
        lemma_pow4_le(k1, (k2 - 1) as nat);
        lemma_pow4_pos((k2 - 1) as nat);
    }
}

pub proof fn lemma_pow4_add(k1: nat, k2: nat)
    ensures
        pow4((k1 + k2) as nat) as int == (pow4(k1) as int) * (pow4(k2) as int),
    decreases k1,
{
    if k1 == 0 {
        assert(pow4(k1) == 1);
        assert((k1 + k2) as nat == k2);
        assert(pow4((k1 + k2) as nat) as int == 1 * (pow4(k2) as int));
    } else {
        lemma_pow4_add((k1 - 1) as nat, k2);
        let a = pow4((k1 - 1) as nat) as int;
        let b = pow4(k2) as int;
        assert(((k1 - 1) as nat + k2) as nat == (k1 + k2 - 1) as nat);
        assert(pow4((k1 + k2 - 1) as nat) as int == a * b);
        assert(pow4((k1 + k2) as nat) as int == 4 * (pow4((k1 + k2 - 1) as nat) as int));
        assert(pow4((k1 + k2) as nat) as int == 4 * (a * b));
        assert(4 * (a * b) == (4 * a) * b) by (nonlinear_arith);
        assert(pow4(k1) as int == 4 * a);
        assert(pow4((k1 + k2) as nat) as int == (pow4(k1) as int) * b);
    }
}

pub proof fn lemma_max_encoding_lt_pow4(i: int)
    requires
        i >= 0,
    ensures
        max_encoding(i) < pow4(i as nat),
    decreases i,
{
    if i > 0 {
        lemma_max_encoding_lt_pow4(i - 1);
    }
}

pub proof fn lemma_max_encoding_monotone(i1: int, i2: int)
    requires
        0 <= i1 <= i2,
    ensures
        max_encoding(i1) <= max_encoding(i2),
    decreases i2,
{
    if i1 < i2 {
        lemma_max_encoding_monotone(i1, i2 - 1);
        lemma_pow4_pos((i2 - 1) as nat);
    }
}

pub proof fn lemma_max_encoding_values()
    ensures
        max_encoding(5) == ALL_CORRECT,
        max_encoding(4) == 170,
        pow4(0) == 1,
        pow4(1) == 4,
        pow4(2) == 16,
        pow4(3) == 64,
        pow4(4) == 256,
        pow4(5) == 1024,
    {
    reveal_with_fuel(pow4, 6);
    reveal_with_fuel(max_encoding, 6);
}

/// `encode_digits` reads only the first `i` entries.
pub proof fn lemma_encode_prefix(ds1: Seq<int>, ds2: Seq<int>, i: int)
    requires
        forall|k: int| 0 <= k < i ==> ds1[k] == ds2[k],
    ensures
        encode_digits(ds1, i) == encode_digits(ds2, i),
    decreases i,
{
    if i > 0 {
        lemma_encode_prefix(ds1, ds2, i - 1);
    }
}

/// Appending a digit adds it at the next place value.
pub proof fn lemma_encode_push(ds: Seq<int>, d: int, i: int)
    requires
        0 <= i,
        ds.len() == i,
    ensures
        encode_digits(ds.push(d), i + 1) == encode_digits(ds, i) + d * (pow4(i as nat) as int),
{
    lemma_encode_prefix(ds.push(d), ds, i);
    assert(ds.push(d)[i] == d);
}

pub proof fn lemma_encode_bounds(ds: Seq<int>, i: int)
    requires
        0 <= i,
        forall|k: int| 0 <= k < i ==> 0 <= #[trigger] ds[k] <= 2,
    ensures
        0 <= encode_digits(ds, i) <= max_encoding(i),
    decreases i,
{
    if i > 0 {
        lemma_encode_bounds(ds, i - 1);
        lemma_pow4_pos((i - 1) as nat);
        assert(ds[i - 1] * (pow4((i - 1) as nat) as int) <= 2 * (pow4((i - 1) as nat) as int))
            by (nonlinear_arith)
            requires
                0 <= ds[i - 1] <= 2,
                pow4((i - 1) as nat) >= 1,
        ;
        assert(ds[i - 1] * (pow4((i - 1) as nat) as int) >= 0) by (nonlinear_arith)
            requires
                0 <= ds[i - 1],
                pow4((i - 1) as nat) >= 1,
        ;
    }
}

/// All-two digits pack to the maximal encoding.
pub proof fn lemma_encode_all_two(ds: Seq<int>, i: int)
    requires
        0 <= i,
        forall|k: int| 0 <= k < i ==> #[trigger] ds[k] == 2,
    ensures
        encode_digits(ds, i) == max_encoding(i),
    decreases i,
{
    if i > 0 {
        lemma_encode_all_two(ds, i - 1);
    }
}

/// Unpacking recovers each packed digit: position `k` of the encoding of `i`
/// digits is `ds[k]` below `i` and zero above it.
pub proof fn lemma_encode_digit(ds: Seq<int>, i: int, k: nat)
    requires
        0 <= i <= 5,
        k < 5,
        forall|m: int| 0 <= m < i ==> 0 <= #[trigger] ds[m] <= 2,
    ensures
        digit_of(encode_digits(ds, i), k) == if k < i {
            ds[k as int]
        } else {
            0
        },
    decreases i,
{
    let p = pow4(k) as int;
    lemma_pow4_pos(k);
    if i == 0 {
        assert(0int / p == 0) by (nonlinear_arith)
            requires
                p >= 1,
        ;
    } else {
        let e1 = encode_digits(ds, i - 1);
        let d = ds[i - 1];
        let q4 = pow4((i - 1) as nat) as int;
        let e = e1 + d * q4;
        lemma_encode_bounds(ds, i - 1);
        lemma_max_encoding_lt_pow4(i - 1);
        lemma_pow4_pos((i - 1) as nat);
        if k == i - 1 {
            assert(p == q4);
            assert(e == d * p + e1) by (nonlinear_arith)
                requires
                    e == e1 + d * q4,
                    p == q4,
            ;
            lemma_fundamental_div_mod_converse(e, p, d, e1);
            lemma_small_mod(d as nat, 4);
            assert(digit_of(e, k) == d % 4);
        } else if k < i - 1 {
            lemma_encode_digit(ds, i - 1, k);
            // d * pow4(i-1) is a multiple of 4 * pow4(k)
            let x = pow4((i - 2 - k) as nat) as int;
            let m = d * x;
            lemma_pow4_add(k + 1, (i - 2 - k) as nat);
            assert((k + 1 + (i - 2 - k)) as nat == (i - 1) as nat);
            assert(q4 == (pow4((k + 1) as nat) as int) * x);
            assert(pow4((k + 1) as nat) as int == 4 * p);
            assert(q4 == (4 * p) * x);
            assert(d * q4 == (4 * m) * p) by (nonlinear_arith)
                requires
                    q4 == (4 * p) * x,
                    m == d * x,
            ;
            lemma_fundamental_div_mod(e1, p);
            lemma_mod_pos_bound(e1, p);
            let q = e1 / p;
            let r = e1 % p;
            assert(e1 == p * q + r);
            assert(e == (q + 4 * m) * p + r) by (nonlinear_arith)
                requires
                    e == e1 + d * q4,
                    d * q4 == (4 * m) * p,
                    e1 == p * q + r,
            ;
            lemma_fundamental_div_mod_converse(e, p, q + 4 * m, r);
            lemma_mod_multiples_vanish(m, q, 4);
            assert(digit_of(e, k) == (q + 4 * m) % 4);
            assert(digit_of(e1, k) == q % 4);
        } else {
            // k >= i: the whole encoding lies below pow4(k)
            lemma_encode_bounds(ds, i);
            lemma_max_encoding_lt_pow4(i);
            lemma_pow4_le(i as nat, k);
            assert(e / p == 0) by (nonlinear_arith)
                requires
                    0 <= e < p,
            ;
        }
    }
}

pub proof fn lemma_find_slot(a: Seq<char>, used: Seq<bool>, c: char, j: int)
    requires
        0 <= j <= 5,
    ensures
        j <= find_slot(a, used, c, j) <= 5,
        find_slot(a, used, c, j) < 5 ==> {
            let s = find_slot(a, used, c, j);
            !used[s] && a[s] == c
        },
        forall|k: int| j <= k < find_slot(a, used, c, j) ==> (used[k] || a[k] != c),
    decreases 5 - j,
{
    if j < 5 {
        if !(!used[j] && a[j] == c) {
            lemma_find_slot(a, used, c, j + 1);
        }
    }
}

/// Basic shape of the scan state: `i` digits so far, each a valid trit, two
/// exactly at the exactly-matched positions; the used set stays five wide.
pub proof fn lemma_scan_props(g: Seq<char>, a: Seq<char>, i: int)
    requires
        0 <= i <= g.len(),
        g.len() <= 5,
        a.len() == 5,
    ensures
        scan(g, a, i).0.len() == i,
        forall|k: int| 0 <= k < i ==> 0 <= #[trigger] scan(g, a, i).0[k] <= 2,
        forall|k: int| 0 <= k < i && g[k] == a[k] ==> #[trigger] scan(g, a, i).0[k] == 2,
        forall|k: int| 0 <= k < i && #[trigger] scan(g, a, i).0[k] == 2 ==> g[k] == a[k],
        scan(g, a, i).1.len() == 5,
    decreases i,
{
    if i > 0 {
        lemma_scan_props(g, a, i - 1);
        if g[i - 1] != a[i - 1] {
            lemma_find_slot(a, scan(g, a, i - 1).1, g[i - 1], 0);
        }
    }
}

/// A word judged against itself scores all-Correct.
pub proof fn lemma_self_judge(a: Seq<char>)
    requires
        a.len() == 5,
    ensures
        spec_judge(a, a) == ALL_CORRECT,
{
    lemma_self_scan(a, 5);
    lemma_encode_all_two(scan(a, a, 5).0, 5);
    lemma_max_encoding_values();
}

proof fn lemma_self_scan(a: Seq<char>, i: int)
    requires
        0 <= i <= a.len(),
        a.len() == 5,
    ensures
        scan(a, a, i).0.len() == i,
        forall|k: int| 0 <= k < i ==> #[trigger] scan(a, a, i).0[k] == 2,
    decreases i,
{
    if i > 0 {
        lemma_self_scan(a, i - 1);
    }
}

/// The all-Correct pattern unpacks to trit two at every position.
pub proof fn lemma_all_correct_digits()
    ensures
        forall|k: nat| k < 5 ==> #[trigger] digit_of(ALL_CORRECT as int, k) == 2,
{
    lemma_max_encoding_values();
    assert forall|k: nat| k < 5 implies #[trigger] digit_of(ALL_CORRECT as int, k) == 2 by {
        if k == 0 {
            lemma_fundamental_div_mod_converse(682, 1, 682, 0);
            lemma_fundamental_div_mod_converse(682, 4, 170, 2);
        } else if k == 1 {
            lemma_fundamental_div_mod_converse(682, 4, 170, 2);
            lemma_fundamental_div_mod_converse(170, 4, 42, 2);
        } else if k == 2 {
            lemma_fundamental_div_mod_converse(682, 16, 42, 10);
            lemma_fundamental_div_mod_converse(42, 4, 10, 2);
        } else if k == 3 {
            lemma_fundamental_div_mod_converse(682, 64, 10, 42);
            lemma_fundamental_div_mod_converse(10, 4, 2, 2);
        } else {
            lemma_fundamental_div_mod_converse(682, 256, 2, 170);
            lemma_fundamental_div_mod_converse(2, 4, 0, 2);
        }
    }
}

/// Only a word equal to the answer can score all-Correct.
pub proof fn lemma_all_correct_needs_equal(g: Seq<char>, a: Seq<char>)
    requires
        g.len() <= 5,
        a.len() == 5,
        spec_judge(g, a) == ALL_CORRECT,
    ensures
        g == a,
{
    let l = g.len() as int;
    lemma_scan_props(g, a, l);
    let ds = scan(g, a, l).0;
    if l < 5 {
        lemma_encode_bounds(ds, l);
        lemma_max_encoding_monotone(l, 4);
        lemma_max_encoding_values();
        assert(false);
    }
    lemma_all_correct_digits();
    assert forall|k: int| 0 <= k < 5 implies g[k] == a[k] by {
        lemma_encode_digit(ds, 5, k as nat);
        assert(digit_of(ALL_CORRECT as int, k as nat) == 2);
        assert(ds[k] == 2);
    }
    assert(g =~= a);
}

/// How many of the first `k` flags are set.
pub open spec fn mask_count(s: Seq<bool>, k: int) -> int
    decreases k,
{
    if k <= 0 {
        0
    } else {
        mask_count(s, k - 1) + if s[k - 1] {
            1int
        } else {
            0int
        }
    }
}

/// How many of the first `i` trits are Misplaced.
pub open spec fn ones_count(ds: Seq<int>, i: int) -> int
    decreases i,
{
    if i <= 0 {
        0
    } else {
        ones_count(ds, i - 1) + if ds[i - 1] == 1 {
            1int
        } else {
            0int
        }
    }
}

proof fn lemma_ones_prefix(ds1: Seq<int>, ds2: Seq<int>, i: int)
    requires
        forall|k: int| 0 <= k < i ==> ds1[k] == ds2[k],
    ensures
        ones_count(ds1, i) == ones_count(ds2, i),
    decreases i,
{
    if i > 0 {
        lemma_ones_prefix(ds1, ds2, i - 1);
    }
}

proof fn lemma_mask_count_update(s: Seq<bool>, idx: int, k: int)
    requires
        0 <= idx < s.len(),
        !s[idx],
        0 <= k <= s.len(),
    ensures
        mask_count(s.update(idx, true), k) == mask_count(s, k) + if idx < k {
            1int
        } else {
            0int
        },
    decreases k,
{
    if k > 0 {
        lemma_mask_count_update(s, idx, k - 1);
    }
}

/// Misplaced pairing is injective: every Misplaced trit consumes one fresh,
/// previously unused answer position, so the used positions are exactly the
/// exact matches plus one per Misplaced trit.
pub proof fn lemma_misplaced_injective(g: Seq<char>, a: Seq<char>, i: int)
    requires
        0 <= i <= g.len(),
        g.len() <= 5,
        a.len() == 5,
    ensures
        mask_count(scan(g, a, i).1, 5) == mask_count(exact_mask(g, a), 5) + ones_count(
            scan(g, a, i).0,
            i,
        ),
    decreases i,
{
    if i > 0 {
        lemma_misplaced_injective(g, a, i - 1);
        lemma_scan_props(g, a, i - 1);
        let ds = scan(g, a, i - 1).0;
        let used = scan(g, a, i - 1).1;
        if g[i - 1] == a[i - 1] {
            lemma_ones_prefix(ds.push(2), ds, i - 1);
        } else {
            let s = find_slot(a, used, g[i - 1], 0);
            lemma_find_slot(a, used, g[i - 1], 0);
            if s < 5 {
                lemma_ones_prefix(ds.push(1), ds, i - 1);
                lemma_mask_count_update(used, s, 5);
            } else {
                lemma_ones_prefix(ds.push(0), ds, i - 1);
            }
        }
    }
}

/// A position scores the Correct trit exactly when guess and answer agree
/// there.
pub proof fn lemma_judge_exact(g: Seq<char>, a: Seq<char>, k: int)
    requires
        g.len() <= 5,
        a.len() == 5,
        0 <= k < g.len(),
    ensures
        digit_of(spec_judge(g, a), k as nat) == 2 <==> g[k] == a[k],
{
    lemma_scan_props(g, a, g.len() as int);
    lemma_encode_digit(scan(g, a, g.len() as int).0, g.len() as int, k as nat);
}

/// Every judge the scan produces is well formed.
pub proof fn lemma_spec_judge_wf(g: Seq<char>, a: Seq<char>)
    requires
        g.len() <= 5,
        a.len() == 5,
    ensures
        judge_wf(spec_judge(g, a)),
{
    let l = g.len() as int;
    lemma_scan_props(g, a, l);
    let ds = scan(g, a, l).0;
    lemma_encode_bounds(ds, l);
    lemma_max_encoding_monotone(l, 5);
    lemma_max_encoding_values();
    assert forall|k: nat| k < 5 implies #[trigger] digit_of(spec_judge(g, a), k) <= 2 by {
        lemma_encode_digit(ds, l, k);
    }
}

/// The leftmost unused answer position holding `c`, or five when none does.
fn find_slot_exec(aw: &Vec<char>, used: &Vec<bool>, c: char) -> (s: usize)
    requires
        aw@.len() == 5,
        used@.len() == 5,
    ensures
        s == find_slot(aw@, used@, c, 0),
{
    let mut j: usize = 0;
    while j < 5
        invariant
            j <= 5,
            aw@.len() == 5,
            used@.len() == 5,
            find_slot(aw@, used@, c, 0) == find_slot(aw@, used@, c, j as int),
        decreases 5 - j,
    {
        if !used[j] && aw[j] == c {
            return j;
        }
        j += 1;
    }
    5
}

/// Judges guess word `gw` against answer word `aw`: exact matches first, then
/// a left-to-right pairing of unmatched guess positions with the leftmost
/// unused answer position holding the same character.
pub fn judge_words(gw: &Vec<char>, aw: &Vec<char>) -> (r: usize)
    requires
        gw@.len() <= 5,
        aw@.len() == 5,
    ensures
        r == spec_judge(gw@, aw@),
        judge_wf(r as int),
{
    proof {
        lemma_spec_judge_wf(gw@, aw@);
        lemma_max_encoding_values();
    }
    let glen = gw.len();
    let mut used: Vec<bool> = Vec::new();
    let mut j: usize = 0;
    while j < 5
        invariant
            j <= 5,
            gw@.len() == glen,
            glen <= 5,
            aw@.len() == 5,
            used@.len() == j,
            forall|k: int| 0 <= k < j ==> used@[k] == exact_mask(gw@, aw@)[k],
        decreases 5 - j,
    {
        used.push(j < glen && gw[j] == aw[j]);
        j += 1;
    }
    proof {
        assert(used@ =~= exact_mask(gw@, aw@));
    }
    let mut ret: usize = 0;
    let mut pw: usize = 1;
    let mut i: usize = 0;
    while i < glen
        invariant
            i <= glen,
            gw@.len() == glen,
            glen <= 5,
            aw@.len() == 5,
            pw == pow4(i as nat),
            ret == encode_digits(scan(gw@, aw@, i as int).0, i as int),
            used@ == scan(gw@, aw@, i as int).1,
            0 <= ret <= max_encoding(i as int),
        decreases glen - i,
    {
        proof {
            lemma_scan_props(gw@, aw@, i as int);
            lemma_pow4_le(i as nat, 4);
            lemma_max_encoding_values();
            lemma_max_encoding_monotone(i as int, 4);
        }
        let ghost ds = scan(gw@, aw@, i as int).0;
        let ghost i0 = i as int;
        if gw[i] == aw[i] {
            ret = ret + 2 * pw;
            proof {
                assert(scan(gw@, aw@, i0 + 1).0 =~= ds.push(2));
                lemma_encode_push(ds, 2, i0);
                assert(ret == encode_digits(scan(gw@, aw@, i0 + 1).0, i0 + 1));
            }
        } else {
            let s = find_slot_exec(aw, &used, gw[i]);
            if s < 5 {
                ret = ret + pw;
                used[s] = true;
            }
            proof {
                if s < 5 {
                    assert(scan(gw@, aw@, i0 + 1).0 =~= ds.push(1));
                    assert(scan(gw@, aw@, i0 + 1).1 =~= scan(gw@, aw@, i0).1.update(s as int, true));
                    lemma_encode_push(ds, 1, i0);
                    assert(ret == encode_digits(scan(gw@, aw@, i0 + 1).0, i0 + 1));
                } else {
                    assert(scan(gw@, aw@, i0 + 1).0 =~= ds.push(0));
                    lemma_encode_push(ds, 0, i0);
                    assert(ret == encode_digits(scan(gw@, aw@, i0 + 1).0, i0 + 1));
                }
            }
        }
        pw = pw * 4;
        i += 1;
    }
    ret
}

/// Precomputed feedback for every (answer, guess) pair, so that partitioning
/// a candidate set is a table walk.
pub struct JudgeTable {
    pub ans_until: usize,
    pub guess_until: usize,
    pub data: Vec<Vec<usize>>,
    /// The word list the table was computed from, kept for specification.
    pub words: Ghost<Seq<Seq<char>>>,
}

impl JudgeTable {
    /// Answer `a` is valid: below `ans_until` with a five-character word.
    pub open spec fn spec_valid_answer(self, a: int) -> bool {
        0 <= a < self.ans_until && self.words@[a].len() == 5
    }

    /// The table invariant: word list well formed, one full row per valid
    /// answer, and every entry the judge of its pair of words.
    pub open spec fn wf(self) -> bool {
        &&& self.ans_until <= self.guess_until
        &&& self.guess_until <= self.words@.len()
        &&& self.words@.len() <= MAX_WORDS
        &&& forall|g: int| 0 <= g < self.guess_until ==> (#[trigger] self.words@[g]).len() <= 5
        &&& forall|g: int, h: int|
            #![trigger self.words@[g], self.words@[h]]
            0 <= g < self.guess_until && 0 <= h < self.guess_until && g != h ==> self.words@[g]
                != self.words@[h]
        &&& self.data@.len() == self.ans_until
        &&& forall|a: int|
            0 <= a < self.ans_until ==> (#[trigger] self.data@[a])@.len() == if self
                .spec_valid_answer(a) {
                self.guess_until as int
            } else {
                0
            }
        &&& forall|a: int, g: int|
            #![trigger self.data@[a]@[g]]
            self.spec_valid_answer(a) && 0 <= g < self.guess_until ==> self.data@[a]@[g] as int
                == spec_judge(self.words@[g], self.words@[a])
    }

    /// The judge of guess index `g` against answer index `a`.
    pub open spec fn judge_of(self, g: int, a: int) -> int {
        self.data@[a]@[g] as int
    }

    /// Every entry of a well-formed table is a well-formed judge value.
    pub proof fn lemma_entry_wf(self, g: int, a: int)
        requires
            self.wf(),
            self.spec_valid_answer(a),
            0 <= g < self.guess_until,
        ensures
            judge_wf(self.judge_of(g, a)),
            0 <= self.judge_of(g, a) < NUM_JUDGES,
    {
        lemma_spec_judge_wf(self.words@[g], self.words@[a]);
    }

    /// A valid answer judged against itself scores all-Correct.
    pub proof fn lemma_self_correct(self, a: int)
        requires
            self.wf(),
            self.spec_valid_answer(a),
        ensures
            self.judge_of(a, a) == ALL_CORRECT,
    {
        lemma_self_judge(self.words@[a]);
    }

    /// Only the guess equal to the answer scores all-Correct.
    pub proof fn lemma_correct_implies_eq(self, g: int, a: int)
        requires
            self.wf(),
            self.spec_valid_answer(a),
            0 <= g < self.guess_until,
            self.judge_of(g, a) == ALL_CORRECT,
        ensures
            g == a,
    {
        if g != a {
            lemma_all_correct_needs_equal(self.words@[g], self.words@[a]);
            assert(self.words@[g] != self.words@[a]);
        }
    }

    /// Materialises the judge table for a vocabulary: one row per valid
    /// answer, one entry per guess.
    pub fn new(voc: &Vocabulary) -> (t: JudgeTable)
        requires
            voc.wf(),
        ensures
            t.wf(),
            t.ans_until == voc.ans_until,
            t.guess_until == voc.guess_until,
            t.words@ == word_views(voc.words@),
    {
        let ghost wv = word_views(voc.words@);
        let mut data: Vec<Vec<usize>> = Vec::new();
        let mut a: usize = 0;
        while a < voc.ans_until
            invariant
                voc.wf(),
                wv == word_views(voc.words@),
                a <= voc.ans_until,
                data@.len() == a,
                forall|x: int|
                    0 <= x < a ==> (#[trigger] data@[x])@.len() == if voc.spec_valid_answer(x) {
                        voc.guess_until as int
                    } else {
                        0
                    },
                forall|x: int, g: int|
                    #![trigger data@[x]@[g]]
                    0 <= x < a && voc.spec_valid_answer(x) && 0 <= g < voc.guess_until
                        ==> data@[x]@[g] as int == spec_judge(wv[g], wv[x]),
            decreases voc.ans_until - a,
        {
            let mut row: Vec<usize> = Vec::new();
            if voc.valid_answer(a) {
                let mut g: usize = 0;
                while g < voc.guess_until
                    invariant
                        voc.wf(),
                        wv == word_views(voc.words@),
                        a < voc.ans_until,
                        voc.spec_valid_answer(a as int),
                        g <= voc.guess_until,
                        row@.len() == g,
                        forall|k: int|
                            0 <= k < g ==> (#[trigger] row@[k]) as int == spec_judge(
                                wv[k],
                                wv[a as int],
                            ),
                    decreases voc.guess_until - g,
                {
                    let j = judge_words(voc.word(g), voc.word(a));
                    row.push(j);
                    g += 1;
                }
            }
            data.push(row);
            a += 1;
        }
        JudgeTable {
            ans_until: voc.ans_until,
            guess_until: voc.guess_until,
            data,
            words: Ghost(wv),
        }
    }

    /// Looks the feedback of `guess` against `ans` up in the table.
    pub fn judge(&self, guess: &Guess, ans: &Answer) -> (r: Judge)
        requires
            self.wf(),
            self.spec_valid_answer(*ans as int),
            *guess < self.guess_until,
        ensures
            r as int == self.judge_of(*guess as int, *ans as int),
            judge_wf(r as int),
            r < NUM_JUDGES,
    {
        proof {
            self.lemma_entry_wf(*guess as int, *ans as int);
        }
        self.data[*ans][*guess]
    }
}

} // verus!
