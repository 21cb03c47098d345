use crate::judge::{digit_of, Judge, JudgeTable, ALL_CORRECT, NUM_JUDGES};
use crate::partition::{bucket_of, is_partition_of, lemma_bucket_has, lemma_bucket_members, seq_has,
    set_wf};
use crate::solver::{copy_set, dec_chars, dec_digit, dec_digit_exec, push_dec, render_file,
    render_row};
use crate::vocab::{word_views, Answer, Guess, Vocabulary};
use vstd::prelude::*;

verus! {

broadcast use vstd::seq::axiom_seq_index_decreases, vstd::std_specs::vec::axiom_vec_decreases_to_view;

/// Why a strategy file was rejected.
#[derive(Clone, Copy, PartialEq, Eq, Structural, Debug)]
pub enum TreeError {
    /// The file holds a character that is neither a digit, a separator nor a
    /// newline, or a number too large to be a word index.
    InputMalformed,
    /// The derived answer and guess ranges do not fit the vocabulary.
    BadBounds,
    /// The sequences violate tree consistency: two answers with a common
    /// prefix disagree on the next guess, or a sequence ends too early.
    Inconsistent,
}

/// A node of the decision tree: a terminal leaf, or a guess with the
/// candidates it was played against and one child per feedback pattern.
pub enum Node {
    Terminal,
    NonTerminal { guess: usize, rem_ans: Vec<Answer>, edges: Vec<(usize, Node)> },
}

/// Each listed edge is sound: the all-Correct edge is a terminal reached
/// only when the guess is itself a candidate, and every other edge leads to
/// a well-formed subtree for its feedback bucket.
pub open spec fn edges_ok(
    t: JudgeTable,
    rem: Seq<usize>,
    g: int,
    edges: Seq<(usize, Node)>,
    k: int,
) -> bool
    decreases edges, k,
        when 0 <= k <= edges.len()
{
    if k <= 0 {
        true
    } else {
        proof {
            assert(decreases_to!(edges => edges[k - 1]));
        }
        let e = edges[k - 1];
        &&& edges_ok(t, rem, g, edges, k - 1)
        &&& e.0 < NUM_JUDGES
        &&& if e.0 == ALL_CORRECT {
            e.1 is Terminal && seq_has(rem, g)
        } else {
            bucket_of(t, rem, g, e.0 as int).len() > 0 && node_ok(
                t,
                e.1,
                bucket_of(t, rem, g, e.0 as int),
            )
        }
    }
}

pub open spec fn has_edge(edges: Seq<(usize, Node)>, j: int) -> bool {
    exists|k: int| 0 <= k < edges.len() && (#[trigger] edges[k]).0 == j
}

/// A well-formed subtree for candidate set `rem`: its guess is legal, its
/// edges are sound, every inhabited feedback bucket has an edge, and the
/// all-Correct edge is present exactly when the guess is a candidate.
pub open spec fn node_ok(t: JudgeTable, node: Node, rem: Seq<usize>) -> bool
    decreases node, 0int,
{
    match node {
        Node::Terminal => false,
        Node::NonTerminal { guess, rem_ans, edges } => {
            &&& rem_ans@ == rem
            &&& rem.len() >= 1
            &&& guess < t.guess_until
            &&& edges_ok(t, rem, guess as int, edges@, edges@.len() as int)
            &&& forall|j: int|
                0 <= j < NUM_JUDGES && j != ALL_CORRECT && bucket_of(
                    t,
                    rem,
                    guess as int,
                    j,
                ).len() > 0 ==> has_edge(edges@, j)
            &&& (seq_has(rem, guess as int) ==> has_edge(edges@, ALL_CORRECT as int))
        },
    }
}

/// Sound edges stay sound when another edge is appended after them.
proof fn lemma_edges_ok_push(
    t: JudgeTable,
    rem: Seq<usize>,
    g: int,
    edges: Seq<(usize, Node)>,
    e2: (usize, Node),
    k: int,
)
    requires
        edges_ok(t, rem, g, edges, k),
        0 <= k <= edges.len(),
    ensures
        edges_ok(t, rem, g, edges.push(e2), k),
    decreases k,
{
    if k > 0 {
        lemma_edges_ok_push(t, rem, g, edges, e2, k - 1);
        assert(edges.push(e2)[k - 1] == edges[k - 1]);
    }
}

/// The first edge at or after position `k` labelled `j`, if any.
pub open spec fn edge_lookup(edges: Seq<(usize, Node)>, j: int, k: int) -> Option<Node>
    decreases edges.len() - k,
{
    if k < 0 || k >= edges.len() {
        None::<Node>
    } else if edges[k].0 == j {
        Some(edges[k].1)
    } else {
        edge_lookup(edges, j, k + 1)
    }
}

impl Node {
    /// The child reached by feedback `judge`, or nothing at a terminal or
    /// for a feedback the tree never produces.
    pub fn next<'a>(&'a self, judge: &Judge) -> (r: Option<&'a Node>)
        ensures
            self is Terminal ==> r is None,
            self matches Node::NonTerminal { edges, .. } ==> match r {
                Some(ch) => edge_lookup(edges@, *judge as int, 0) == Some(*ch),
                None => edge_lookup(edges@, *judge as int, 0) is None,
            },
    {
        match self {
            Node::Terminal => None,
            Node::NonTerminal { edges, .. } => {
                let mut k: usize = 0;
                #[verifier::loop_isolation(false)]
                while k < edges.len()
                    invariant
                        k <= edges@.len(),
                        edge_lookup(edges@, *judge as int, 0) == edge_lookup(
                            edges@,
                            *judge as int,
                            k as int,
                        ),
                    decreases edges@.len() - k,
                {
                    if edges[k].0 == *judge {
                        return Some(&edges[k].1);
                    }
                    k += 1;
                }
                None
            },
        }
    }
}

/// The five feedback digits of a judge value as characters, position 0
/// first.
pub open spec fn judge_digits(j: int) -> Seq<char> {
    Seq::new(5, |i: int| dec_digit(digit_of(j, i as nat) as nat))
}

pub open spec fn lit_guess() -> Seq<char> {
    seq!['{', '"', 'g', 'u', 'e', 's', 's', '"', ':', '"']
}

pub open spec fn lit_rem() -> Seq<char> {
    seq!['"', ',', '"', 'r', 'e', 'm', '"', ':']
}

pub open spec fn lit_edges() -> Seq<char> {
    seq![',', '"', 'e', 'd', 'g', 'e', 's', '"', ':', '{']
}

/// The JSON text of the first `k` edges: each a quoted five-digit judge
/// string mapped to the child's JSON, comma separated.
pub open spec fn json_edges(ws: Seq<Seq<char>>, edges: Seq<(usize, Node)>, k: int) -> Seq<char>
    decreases edges, k,
        when 0 <= k <= edges.len()
{
    if k <= 0 {
        Seq::empty()
    } else {
        proof {
            assert(decreases_to!(edges => edges[k - 1]));
        }
        let e = edges[k - 1];
        json_edges(ws, edges, k - 1) + (if k - 1 > 0 {
            seq![',']
        } else {
            Seq::<char>::empty()
        }) + seq!['"'] + judge_digits(e.0 as int) + seq!['"', ':'] + json_of(ws, e.1)
    }
}

/// The JSON text of a node: a terminal is the empty object; a non-terminal
/// lists its guess word, how many candidates remain, and its edges.
pub open spec fn json_of(ws: Seq<Seq<char>>, node: Node) -> Seq<char>
    decreases node, 0int,
{
    match node {
        Node::Terminal => seq!['{', '}'],
        Node::NonTerminal { guess, rem_ans, edges } => {
            let w = if guess < ws.len() {
                ws[guess as int]
            } else {
                Seq::<char>::empty()
            };
            lit_guess() + w + lit_rem() + dec_chars(rem_ans@.len() as nat) + lit_edges()
                + json_edges(ws, edges@, edges@.len() as int) + seq!['}', '}']
        },
    }
}


fn push_lit_guess(out: &mut Vec<char>)
    ensures
        final(out)@ == old(out)@ + lit_guess(),
{
    out.push('{');
    out.push('"');
    out.push('g');
    out.push('u');
    out.push('e');
    out.push('s');
    out.push('s');
    out.push('"');
    out.push(':');
    out.push('"');
    proof {
        assert(out@ =~= old(out)@ + lit_guess());
    }
}

fn push_lit_rem(out: &mut Vec<char>)
    ensures
        final(out)@ == old(out)@ + lit_rem(),
{
    out.push('"');
    out.push(',');
    out.push('"');
    out.push('r');
    out.push('e');
    out.push('m');
    out.push('"');
    out.push(':');
    proof {
        assert(out@ =~= old(out)@ + lit_rem());
    }
}

fn push_lit_edges(out: &mut Vec<char>)
    ensures
        final(out)@ == old(out)@ + lit_edges(),
{
    out.push(',');
    out.push('"');
    out.push('e');
    out.push('d');
    out.push('g');
    out.push('e');
    out.push('s');
    out.push('"');
    out.push(':');
    out.push('{');
    proof {
        assert(out@ =~= old(out)@ + lit_edges());
    }
}

/// Appends the five feedback digits of a judge value, position 0 first.
fn push_judge_digits(out: &mut Vec<char>, j: usize)
    ensures
        final(out)@ == old(out)@ + judge_digits(j as int),
{
    let mut p: usize = 0;
    let mut pw: usize = 1;
    while p < 5
        invariant
            p <= 5,
            pw == crate::judge::pow4(p as nat),
            out@ == old(out)@ + judge_digits(j as int).take(p as int),
        decreases 5 - p,
    {
        proof {
            crate::judge::lemma_max_encoding_values();
            crate::judge::lemma_pow4_le(p as nat, 4);
        }
        let d = (j / pw) % 4;
        let c = dec_digit_exec(d);
        out.push(c);
        proof {
            assert(d == digit_of(j as int, p as nat));
            assert(judge_digits(j as int)[p as int] == dec_digit(d as nat));
            assert(out@ =~= old(out)@ + judge_digits(j as int).take(p + 1));
        }
        pw = pw * 4;
        p += 1;
    }
    proof {
        assert(judge_digits(j as int).take(5) =~= judge_digits(j as int));
    }
}

/// Appends word `guess` of the list, or nothing when out of range.
fn push_word(out: &mut Vec<char>, words: &Vec<Vec<char>>, guess: usize)
    ensures
        final(out)@ == old(out)@ + if guess < words@.len() {
            word_views(words@)[guess as int]
        } else {
            Seq::<char>::empty()
        },
{
    let ghost ws = word_views(words@);
    if guess < words.len() {
        let w = &words[guess];
        proof {
            assert(w@ == ws[guess as int]);
        }
        let mut k: usize = 0;
        while k < w.len()
            invariant
                k <= w@.len(),
                w@ == ws[guess as int],
                guess < words@.len(),
                ws == word_views(words@),
                out@ == old(out)@ + ws[guess as int].take(k as int),
            decreases w@.len() - k,
        {
            out.push(w[k]);
            proof {
                assert(out@ =~= old(out)@ + ws[guess as int].take(k + 1));
            }
            k += 1;
        }
        proof {
            assert(ws[guess as int].take(ws[guess as int].len() as int) =~= ws[guess as int]);
        }
    }
}

impl Node {
    /// Serialises the subtree as JSON, appending to `out`.  An out-of-range
    /// guess index prints as an empty word.
    #[verifier::rlimit(100)]
    pub fn write(&self, words: &Vec<Vec<char>>, out: &mut Vec<char>)
        ensures
            final(out)@ == old(out)@ + json_of(word_views(words@), *self),
        decreases *self,
    {
        let ghost ws = word_views(words@);
        match self {
            Node::Terminal => {
                out.push('{');
                out.push('}');
                proof {
                    assert(out@ =~= old(out)@ + json_of(ws, *self));
                }
            },
            Node::NonTerminal { guess, rem_ans, edges } => {
                let ghost wspec = if *guess < ws.len() {
                    ws[*guess as int]
                } else {
                    Seq::<char>::empty()
                };
                push_lit_guess(out);
                push_word(out, words, *guess);
                push_lit_rem(out);
                push_dec(out, rem_ans.len());
                push_lit_edges(out);
                let ghost head = old(out)@ + lit_guess() + wspec + lit_rem() + dec_chars(
                    rem_ans@.len() as nat,
                ) + lit_edges();
                proof {
                    assert(out@ =~= head);
                }
                let mut k: usize = 0;
                #[verifier::loop_isolation(false)]
                while k < edges.len()
                    invariant
                        k <= edges@.len(),
                        out@ == head + json_edges(ws, edges@, k as int),
                    decreases edges@.len() - k,
                {
                    if k > 0 {
                        out.push(',');
                    }
                    out.push('"');
                    let j = edges[k].0;
                    push_judge_digits(out, j);
                    out.push('"');
                    out.push(':');
                    let ch = &edges[k].1;
                    proof {
                        assert(decreases_to!(*self => *edges));
                        assert(decreases_to!(*edges => edges@[k as int]));
                        assert(decreases_to!(edges@[k as int] => edges@[k as int].1));
                    }
                    ch.write(words, out);
                    proof {
                        assert(out@ =~= head + json_edges(ws, edges@, k + 1));
                    }
                    k += 1;
                }
                out.push('}');
                out.push('}');
                proof {
                    assert(out@ =~= old(out)@ + json_of(ws, *self));
                }
            },
        }
    }
}

/// Every edge of a sound edge list satisfies the per-edge conditions.
proof fn lemma_edges_ok_index(
    t: JudgeTable,
    rem: Seq<usize>,
    g: int,
    edges: Seq<(usize, Node)>,
    k: int,
    p: int,
)
    requires
        edges_ok(t, rem, g, edges, k),
        0 <= p < k <= edges.len(),
    ensures
        edges[p].0 < NUM_JUDGES,
        edges[p].0 == ALL_CORRECT ==> edges[p].1 is Terminal && seq_has(rem, g),
        edges[p].0 != ALL_CORRECT ==> bucket_of(t, rem, g, edges[p].0 as int).len() > 0 && node_ok(
            t,
            edges[p].1,
            bucket_of(t, rem, g, edges[p].0 as int),
        ),
    decreases k,
{
    if p < k - 1 {
        lemma_edges_ok_index(t, rem, g, edges, k - 1, p);
    }
}

/// When some edge carries label `j`, the lookup finds one that does.
proof fn lemma_edge_lookup_finds(edges: Seq<(usize, Node)>, j: int, k: int)
    requires
        0 <= k <= edges.len(),
        exists|p: int| k <= p < edges.len() && (#[trigger] edges[p]).0 == j,
    ensures
        exists|p: int|
            k <= p < edges.len() && (#[trigger] edges[p]).0 == j && edge_lookup(edges, j, k)
                == Some(edges[p].1),
    decreases edges.len() - k,
{
    if edges[k].0 == j {
        assert(k <= k < edges.len() && edges[k].0 == j && edge_lookup(edges, j, k) == Some(
            edges[k].1,
        ));
    } else {
        let p0 = choose|p: int| k <= p < edges.len() && (#[trigger] edges[p]).0 == j;
        assert(k + 1 <= p0 < edges.len() && edges[p0].0 == j);
        lemma_edge_lookup_finds(edges, j, k + 1);
        let p1 = choose|p: int|
            k + 1 <= p < edges.len() && (#[trigger] edges[p]).0 == j && edge_lookup(edges, j, k + 1)
                == Some(edges[p].1);
        assert(k <= p1 < edges.len() && edges[p1].0 == j && edge_lookup(edges, j, k) == Some(
            edges[p1].1,
        ));
    }
}

/// One round of play from a well-formed subtree: the feedback of any
/// remaining candidate always has an edge.  All-Correct feedback occurs
/// exactly for the guess itself and its edge ends at a terminal; any other
/// feedback leads to the well-formed subtree of the candidates that share
/// it, the observed candidate among them.
pub proof fn lemma_tree_walk_round(t: JudgeTable, node: Node, rem: Seq<usize>, q: int)
    requires
        t.wf(),
        set_wf(t, rem),
        node_ok(t, node, rem),
        0 <= q < rem.len(),
    ensures
        node matches Node::NonTerminal { guess, edges, .. } ==> {
            let ja = t.judge_of(guess as int, rem[q] as int);
            &&& (ja == ALL_CORRECT ==> rem[q] == guess && (edge_lookup(edges@, ja, 0)
                matches Some(ch) && ch is Terminal))
            &&& (ja != ALL_CORRECT ==> (edge_lookup(edges@, ja, 0) matches Some(ch) && node_ok(
                t,
                ch,
                bucket_of(t, rem, guess as int, ja),
            ) && seq_has(bucket_of(t, rem, guess as int, ja), rem[q] as int)))
        },
{
    match node {
        Node::Terminal => {},
        Node::NonTerminal { guess, rem_ans, edges } => {
            let gi = guess as int;
            assert(t.spec_valid_answer(rem[q] as int));
            t.lemma_entry_wf(gi, rem[q] as int);
            let ja = t.judge_of(gi, rem[q] as int);
            if ja == ALL_CORRECT {
                t.lemma_correct_implies_eq(gi, rem[q] as int);
                assert(seq_has(rem, gi)) by {
                    assert(rem[q] == gi);
                }
                assert(has_edge(edges@, ALL_CORRECT as int));
                lemma_edge_lookup_finds(edges@, ALL_CORRECT as int, 0);
                let p = choose|p: int|
                    0 <= p < edges@.len() && (#[trigger] edges@[p]).0 == ALL_CORRECT as int
                        && edge_lookup(edges@, ALL_CORRECT as int, 0) == Some(edges@[p].1);
                lemma_edges_ok_index(t, rem, gi, edges@, edges@.len() as int, p);
            } else {
                lemma_bucket_has(t, rem, gi, q);
                assert(bucket_of(t, rem, gi, ja).len() > 0) by {
                    let i = choose|i: int|
                        0 <= i < bucket_of(t, rem, gi, ja).len() && bucket_of(t, rem, gi, ja)[i]
                            == rem[q];
                }
                assert(has_edge(edges@, ja));
                lemma_edge_lookup_finds(edges@, ja, 0);
                let p = choose|p: int|
                    0 <= p < edges@.len() && (#[trigger] edges@[p]).0 == ja && edge_lookup(
                        edges@,
                        ja,
                        0,
                    ) == Some(edges@[p].1);
                lemma_edges_ok_index(t, rem, gi, edges@, edges@.len() as int, p);
            }
        },
    }
}

/// The node reached from `node` by following `hist` from position `i` on.
pub open spec fn spec_walk(node: Node, hist: Seq<usize>, i: int) -> Option<Node>
    decreases hist.len() - i,
{
    if i < 0 || i >= hist.len() {
        Some(node)
    } else {
        match node {
            Node::Terminal => None::<Node>,
            Node::NonTerminal { guess, rem_ans, edges } => {
                match edge_lookup(edges@, hist[i] as int, 0) {
                    Some(ch) => spec_walk(ch, hist, i + 1),
                    None => None::<Node>,
                }
            },
        }
    }
}

/// A `Some` result of `edge_lookup` is the child of a listed edge.
pub proof fn lemma_edge_lookup_member(edges: Seq<(usize, Node)>, j: int, k: int)
    requires
        0 <= k <= edges.len(),
    ensures
        edge_lookup(edges, j, k) matches Some(ch) ==> exists|p: int|
            k <= p < edges.len() && (#[trigger] edges[p]).0 == j && edges[p].1 == ch,
    decreases edges.len() - k,
{
    if k < edges.len() {
        if edges[k].0 == j {
            let ch = edge_lookup(edges, j, k)->Some_0;
            assert(k <= k < edges.len() && edges[k].0 == j && edges[k].1 == ch);
        } else {
            lemma_edge_lookup_member(edges, j, k + 1);
            if edge_lookup(edges, j, k + 1) is Some {
                let ch = edge_lookup(edges, j, k + 1)->Some_0;
                let p0 = choose|p: int|
                    k + 1 <= p < edges.len() && (#[trigger] edges[p]).0 == j && edges[p].1 == ch;
                assert(k <= p0 < edges.len() && edges[p0].0 == j && edges[p0].1 == ch);
            }
        }
    }
}

/// The feedback trail the tree produces when the answer is `a`: each node
/// judges its own guess against `a`, records that feedback, and follows its
/// edge; the trail ends where a terminal or a missing edge stops the walk.
pub open spec fn play_hist(t: JudgeTable, node: Node, a: usize) -> Seq<usize>
    decreases node,
{
    match node {
        Node::Terminal => Seq::<usize>::empty(),
        Node::NonTerminal { guess, rem_ans, edges } => {
            let ja = t.judge_of(guess as int, a as int);
            match edge_lookup(edges@, ja, 0) {
                Some(ch) => {
                    proof {
                        lemma_edge_lookup_member(edges@, ja, 0);
                        let p = choose|p: int|
                            0 <= p < edges@.len() && (#[trigger] edges@[p]).0 == ja && edges@[p].1
                                == ch;
                        assert(decreases_to!(edges@ => edges@[p]));
                        assert(decreases_to!(node => ch));
                    }
                    seq![ja as usize] + play_hist(t, ch, a)
                },
                None => seq![ja as usize],
            }
        },
    }
}

/// Walking ignores history entries before its starting position.
proof fn lemma_spec_walk_cons(node: Node, j: usize, h: Seq<usize>, i: int)
    requires
        0 <= i <= h.len(),
    ensures
        spec_walk(node, seq![j] + h, i + 1) == spec_walk(node, h, i),
    decreases h.len() - i,
{
    let hh = seq![j] + h;
    if i < h.len() {
        match node {
            Node::Terminal => {},
            Node::NonTerminal { guess, rem_ans, edges } => {
                assert(hh[i + 1] == h[i]);
                match edge_lookup(edges@, h[i] as int, 0) {
                    Some(ch) => {
                        lemma_spec_walk_cons(ch, j, h, i + 1);
                    },
                    None => {},
                }
            },
        }
    }
}

/// A well-formed tree identifies every candidate: playing candidate
/// `rem[q]` against it, feeding each node's guess its feedback for that
/// candidate, walks edge by edge to a terminal, and the final feedback is
/// all-Correct, so the last guess made is the candidate itself.
pub proof fn lemma_tree_identifies(t: JudgeTable, node: Node, rem: Seq<usize>, q: int)
    requires
        t.wf(),
        set_wf(t, rem),
        node_ok(t, node, rem),
        0 <= q < rem.len(),
    ensures
        ({
            let hist = play_hist(t, node, rem[q]);
            &&& spec_walk(node, hist, 0) matches Some(nd) && nd is Terminal
            &&& hist.len() >= 1
            &&& hist.last() == ALL_CORRECT
        }),
    decreases node,
{
    match node {
        Node::Terminal => {},
        Node::NonTerminal { guess, rem_ans, edges } => {
            let a = rem[q];
            lemma_tree_walk_round(t, node, rem, q);
            let ja = t.judge_of(guess as int, a as int);
            let hist = play_hist(t, node, a);
            if ja == ALL_CORRECT {
                let ch = edge_lookup(edges@, ja, 0)->Some_0;
                assert(edge_lookup(edges@, ja, 0) == Some(ch) && ch is Terminal);
                assert(hist == seq![ja as usize] + play_hist(t, ch, a));
                assert(play_hist(t, ch, a) == Seq::<usize>::empty());
                assert(hist.len() == 1 && hist[0] == ALL_CORRECT);
                assert(spec_walk(ch, hist, 1) == Some(ch));
                assert(spec_walk(node, hist, 0) == Some(ch));
            } else {
                let bv = bucket_of(t, rem, guess as int, ja);
                let ch = edge_lookup(edges@, ja, 0)->Some_0;
                assert(edge_lookup(edges@, ja, 0) == Some(ch));
                assert(node_ok(t, ch, bv) && seq_has(bv, a as int));
                let q2 = choose|k: int| 0 <= k < bv.len() && bv[k] == a;
                assert(0 <= q2 < bv.len() && bv[q2] == a);
                lemma_bucket_members(t, rem, guess as int, ja);
                lemma_edge_lookup_member(edges@, ja, 0);
                let p = choose|p2: int|
                    0 <= p2 < edges@.len() && (#[trigger] edges@[p2]).0 == ja && edges@[p2].1
                        == ch;
                assert(decreases_to!(edges@ => edges@[p]));
                assert(decreases_to!(node => ch));
                lemma_tree_identifies(t, ch, bv, q2);
                let h2 = play_hist(t, ch, a);
                assert(hist == seq![ja as usize] + h2);
                assert(hist[0] == ja as usize);
                lemma_spec_walk_cons(ch, ja as usize, h2, 0);
                assert(spec_walk(ch, hist, 1) == spec_walk(ch, h2, 0));
                assert(spec_walk(node, hist, 0) == spec_walk(ch, hist, 1));
                assert(hist.last() == h2.last());
            }
        },
    }
}

/// Tokens must stay below this bound: no word index reaches it.
pub const MAX_TOKEN: usize = 100000000;

/// The parser state after reading a prefix of a strategy file: finished
/// lines, the line being read, and the token being read.
pub struct ParseState {
    pub rows: Seq<Seq<usize>>,
    pub cur_row: Seq<usize>,
    pub cur: int,
    pub in_tok: bool,
}

pub open spec fn parse_init() -> ParseState {
    ParseState { rows: Seq::empty(), cur_row: Seq::empty(), cur: 0, in_tok: false }
}

pub open spec fn is_sep(c: char) -> bool {
    c == ' ' || c == '\t' || c == '\r'
}

pub open spec fn is_digit_char(c: char) -> bool {
    48 <= c as u32 <= 57
}

pub open spec fn digit_val(c: char) -> int {
    c as u32 - 48
}

/// Closes the pending token, if any; fails when the token is too large to
/// be a word index.
pub open spec fn flush_tok(st: ParseState) -> Option<ParseState> {
    if st.in_tok {
        if st.cur >= MAX_TOKEN {
            None
        } else {
            Some(
                ParseState {
                    rows: st.rows,
                    cur_row: st.cur_row.push(st.cur as usize),
                    cur: 0,
                    in_tok: false,
                },
            )
        }
    } else {
        Some(st)
    }
}

/// One character of parsing: separators close tokens, a newline closes the
/// line, digits extend the pending token, anything else is malformed.
pub open spec fn parse_step(st: ParseState, c: char) -> Option<ParseState> {
    if is_sep(c) {
        flush_tok(st)
    } else if c == '\n' {
        match flush_tok(st) {
            None => None,
            Some(st2) => Some(
                ParseState {
                    rows: st2.rows.push(st2.cur_row),
                    cur_row: Seq::empty(),
                    cur: 0,
                    in_tok: false,
                },
            ),
        }
    } else if is_digit_char(c) {
        if st.cur > 10000000 {
            None
        } else {
            Some(
                ParseState {
                    rows: st.rows,
                    cur_row: st.cur_row,
                    cur: st.cur * 10 + digit_val(c),
                    in_tok: true,
                },
            )
        }
    } else {
        None
    }
}

/// Parsing folded over the first `j` characters of `text`, from `st`.
pub open spec fn parse_chunk(st: Option<ParseState>, text: Seq<char>, j: int) -> Option<ParseState>
    decreases j,
{
    if j <= 0 {
        st
    } else {
        match parse_chunk(st, text, j - 1) {
            None => None,
            Some(s2) => parse_step(s2, text[j - 1]),
        }
    }
}

/// Closes the file: the pending token, then the pending line; an empty file
/// is rejected.
pub open spec fn parse_finish(st: ParseState) -> Option<Seq<Seq<usize>>> {
    match flush_tok(st) {
        None => None,
        Some(st2) => {
            let rows = if st2.cur_row.len() > 0 {
                st2.rows.push(st2.cur_row)
            } else {
                st2.rows
            };
            if rows.len() == 0 {
                None
            } else {
                Some(rows)
            }
        },
    }
}

/// The rows a strategy file parses to, when it is well formed.
pub open spec fn spec_parse(text: Seq<char>) -> Option<Seq<Seq<usize>>> {
    match parse_chunk(Some(parse_init()), text, text.len() as int) {
        None => None,
        Some(st) => parse_finish(st),
    }
}

/// The views of a list of rows.
pub open spec fn rows_view(rows: Seq<Vec<usize>>) -> Seq<Seq<usize>> {
    rows.map_values(|r: Vec<usize>| r@)
}

/// Once parsing has failed, reading further characters cannot recover.
proof fn lemma_chunk_none(st: Option<ParseState>, text: Seq<char>, i: int, j: int)
    requires
        0 <= i <= j,
        parse_chunk(st, text, i) is None,
    ensures
        parse_chunk(st, text, j) is None,
    decreases j,
{
    if i < j {
        lemma_chunk_none(st, text, i, j - 1);
    }
}

/// Parses a strategy file into rows of indices, exactly as `spec_parse`
/// reads it.
fn parse_rows(text: &Vec<char>) -> (r: Result<Vec<Vec<usize>>, TreeError>)
    ensures
        r matches Ok(rows) ==> {
            &&& spec_parse(text@) == Some(rows_view(rows@))
            &&& rows@.len() >= 1
            &&& forall|p: int, k: int|
                #![trigger rows@[p]@[k]]
                0 <= p < rows@.len() && 0 <= k < rows@[p]@.len() ==> rows@[p]@[k] < MAX_TOKEN
        },
        r is Err ==> spec_parse(text@) is None && r == Err::<Vec<Vec<usize>>, TreeError>(
            TreeError::InputMalformed,
        ),
{
    let mut rows: Vec<Vec<usize>> = Vec::new();
    let mut cur_row: Vec<usize> = Vec::new();
    let mut cur: usize = 0;
    let mut in_tok = false;
    let mut i: usize = 0;
    proof {
        assert(rows_view(rows@) =~= Seq::<Seq<usize>>::empty());
        assert(parse_chunk(Some(parse_init()), text@, 0) == Some(
            ParseState { rows: rows_view(rows@), cur_row: cur_row@, cur: cur as int, in_tok },
        ));
    }
    while i < text.len()
        invariant
            i <= text@.len(),
            cur <= 100000009,
            !in_tok ==> cur == 0,
            parse_chunk(Some(parse_init()), text@, i as int) == Some(
                ParseState { rows: rows_view(rows@), cur_row: cur_row@, cur: cur as int, in_tok },
            ),
            forall|p: int, k: int|
                #![trigger rows@[p]@[k]]
                0 <= p < rows@.len() && 0 <= k < rows@[p]@.len() ==> rows@[p]@[k] < MAX_TOKEN,
            forall|k: int| 0 <= k < cur_row@.len() ==> (#[trigger] cur_row@[k]) < MAX_TOKEN,
        decreases text@.len() - i,
    {
        let ghost st0 = ParseState {
            rows: rows_view(rows@),
            cur_row: cur_row@,
            cur: cur as int,
            in_tok,
        };
        let c = text[i];
        if c == ' ' || c == '\t' || c == '\r' {
            if in_tok {
                if cur >= 100000000 {
                    proof {
                        assert(flush_tok(st0) is None);
                        lemma_chunk_none(
                            Some(parse_init()),
                            text@,
                            i + 1,
                            text@.len() as int,
                        );
                    }
                    return Err(TreeError::InputMalformed);
                }
                cur_row.push(cur);
                in_tok = false;
                cur = 0;
                proof {
                    assert(cur_row@ == st0.cur_row.push(st0.cur as usize));
                }
            }
        } else if c == '\n' {
            if in_tok {
                if cur >= 100000000 {
                    proof {
                        assert(flush_tok(st0) is None);
                        lemma_chunk_none(
                            Some(parse_init()),
                            text@,
                            i + 1,
                            text@.len() as int,
                        );
                    }
                    return Err(TreeError::InputMalformed);
                }
                cur_row.push(cur);
                in_tok = false;
                cur = 0;
            }
            let done_row = cur_row;
            cur_row = Vec::new();
            rows.push(done_row);
            proof {
                assert(rows_view(rows@) =~= st0.rows.push(
                    if st0.in_tok {
                        st0.cur_row.push(st0.cur as usize)
                    } else {
                        st0.cur_row
                    },
                ));
            }
        } else if c as u32 >= 48 && c as u32 <= 57 {
            let d = (c as u32 - 48) as usize;
            if cur > 10000000 {
                proof {
                    lemma_chunk_none(Some(parse_init()), text@, i + 1, text@.len() as int);
                }
                return Err(TreeError::InputMalformed);
            }
            cur = cur * 10 + d;
            in_tok = true;
            proof {
                assert(is_digit_char(c));
                assert(cur as int == st0.cur * 10 + digit_val(c));
            }
        } else {
            proof {
                assert(!is_digit_char(c) && !is_sep(c) && c != '\n');
                assert(parse_step(st0, c) is None);
                lemma_chunk_none(Some(parse_init()), text@, i + 1, text@.len() as int);
            }
            return Err(TreeError::InputMalformed);
        }
        proof {
            assert(parse_chunk(Some(parse_init()), text@, i + 1) == Some(
                ParseState { rows: rows_view(rows@), cur_row: cur_row@, cur: cur as int, in_tok },
            ));
        }
        i += 1;
    }
    let ghost stf = ParseState {
        rows: rows_view(rows@),
        cur_row: cur_row@,
        cur: cur as int,
        in_tok,
    };
    proof {
        assert(parse_chunk(Some(parse_init()), text@, text@.len() as int) == Some(stf));
    }
    if in_tok {
        if cur >= 100000000 {
            proof {
                assert(flush_tok(stf) is None);
            }
            return Err(TreeError::InputMalformed);
        }
        cur_row.push(cur);
    }
    let ghost flushed = flush_tok(stf)->Some_0;
    proof {
        assert(flushed.cur_row == cur_row@);
        assert(flushed.rows == rows_view(rows@));
    }
    let ghost rows0 = rows_view(rows@);
    if cur_row.len() > 0 {
        let ghost crv = cur_row@;
        rows.push(cur_row);
        proof {
            assert(rows_view(rows@) =~= rows0.push(crv));
        }
    }
    if rows.len() == 0 {
        proof {
            assert(parse_finish(stf) is None);
        }
        return Err(TreeError::InputMalformed);
    }
    proof {
        assert(parse_finish(stf) == Some(rows_view(rows@)));
    }
    Ok(rows)
}

/// The larger of two values.
pub open spec fn max2(a: int, b: int) -> int {
    if a > b {
        a
    } else {
        b
    }
}

/// The largest of the first `k` entries of a row; zero when there is none.
pub open spec fn row_max_val(row: Seq<usize>, k: int) -> int
    decreases k,
{
    if k <= 0 {
        0
    } else {
        max2(row_max_val(row, k - 1), row[k - 1] as int)
    }
}

/// The largest index among the first `p` rows; zero when there is none.
pub open spec fn rows_max_val(rows: Seq<Seq<usize>>, p: int) -> int
    decreases p,
{
    if p <= 0 {
        0
    } else {
        max2(rows_max_val(rows, p - 1), row_max_val(rows[p - 1], rows[p - 1].len() as int))
    }
}

proof fn lemma_row_max_val_ge(row: Seq<usize>, k: int, k0: int)
    requires
        0 <= k0 < k <= row.len(),
    ensures
        row[k0] <= row_max_val(row, k),
        row_max_val(row, k) >= 0,
    decreases k,
{
    if k0 < k - 1 {
        lemma_row_max_val_ge(row, k - 1, k0);
    } else {
        lemma_row_max_val_nonneg(row, k - 1);
    }
}

proof fn lemma_row_max_val_nonneg(row: Seq<usize>, k: int)
    ensures
        row_max_val(row, k) >= 0,
    decreases k,
{
    if k > 0 {
        lemma_row_max_val_nonneg(row, k - 1);
    }
}

/// Every entry is bounded by the row-list maximum.
pub proof fn lemma_rows_max_val_ge(rows: Seq<Seq<usize>>, p: int, p0: int, k0: int)
    requires
        0 <= p0 < p <= rows.len(),
        0 <= k0 < rows[p0].len(),
    ensures
        rows[p0][k0] <= rows_max_val(rows, p),
    decreases p,
{
    if p0 < p - 1 {
        lemma_rows_max_val_ge(rows, p - 1, p0, k0);
        lemma_row_max_val_nonneg(rows[p - 1], rows[p - 1].len() as int);
    } else {
        lemma_row_max_val_ge(rows[p0], rows[p0].len() as int, k0);
        lemma_rows_max_val_nonneg(rows, p - 1);
    }
}

proof fn lemma_rows_max_val_nonneg(rows: Seq<Seq<usize>>, p: int)
    ensures
        rows_max_val(rows, p) >= 0,
    decreases p,
{
    if p > 0 {
        lemma_rows_max_val_nonneg(rows, p - 1);
        lemma_row_max_val_nonneg(rows[p - 1], rows[p - 1].len() as int);
    }
}

/// The row-list maximum stays below any bound every entry respects.
pub proof fn lemma_rows_max_val_lt(rows: Seq<Seq<usize>>, p: int, bound: int)
    requires
        0 <= p <= rows.len(),
        bound > 0,
        forall|p2: int, k2: int|
            #![trigger rows[p2][k2]]
            0 <= p2 < rows.len() && 0 <= k2 < rows[p2].len() ==> rows[p2][k2] < bound,
    ensures
        rows_max_val(rows, p) < bound,
    decreases p,
{
    if p > 0 {
        lemma_rows_max_val_lt(rows, p - 1, bound);
        lemma_row_max_val_lt(rows[p - 1], rows[p - 1].len() as int, bound, rows, p - 1);
    }
}

proof fn lemma_row_max_val_lt(row: Seq<usize>, k: int, bound: int, rows: Seq<Seq<usize>>, p0: int)
    requires
        0 <= k <= row.len(),
        bound > 0,
        0 <= p0 < rows.len(),
        rows[p0] == row,
        forall|p2: int, k2: int|
            #![trigger rows[p2][k2]]
            0 <= p2 < rows.len() && 0 <= k2 < rows[p2].len() ==> rows[p2][k2] < bound,
    ensures
        row_max_val(row, k) < bound,
    decreases k,
{
    if k > 0 {
        lemma_row_max_val_lt(row, k - 1, bound, rows, p0);
        assert(rows[p0][k - 1] < bound);
    }
}

/// The largest index a row list holds; zero when there is none.
fn rows_max(rows: &Vec<Vec<usize>>) -> (mx: usize)
    ensures
        mx as int == rows_max_val(rows_view(rows@), rows@.len() as int),
{
    let ghost rv = rows_view(rows@);
    let mut mx: usize = 0;
    let mut p: usize = 0;
    while p < rows.len()
        invariant
            p <= rows@.len(),
            rv == rows_view(rows@),
            mx as int == rows_max_val(rv, p as int),
        decreases rows@.len() - p,
    {
        let row = &rows[p];
        let mut k: usize = 0;
        while k < row.len()
            invariant
                k <= row@.len(),
                p < rows@.len(),
                rv == rows_view(rows@),
                row@ == rv[p as int],
                mx as int == max2(rows_max_val(rv, p as int), row_max_val(rv[p as int], k as int)),
            decreases row@.len() - k,
        {
            proof {
                lemma_rows_max_val_nonneg(rv, p as int);
                lemma_row_max_val_nonneg(rv[p as int], k as int);
            }
            if row[k] > mx {
                mx = row[k];
            }
            k += 1;
        }
        p += 1;
    }
    mx
}

/// A decision tree read back from a strategy file

/// The first `q` candidates all still have a guess at this round and agree
/// with the first candidate on it.
pub open spec fn rows_ok_at(gs: Seq<Vec<usize>>, rem: Seq<usize>, depth: int, q: int) -> bool
    decreases q,
{
    if q <= 0 {
        true
    } else {
        &&& rows_ok_at(gs, rem, depth, q - 1)
        &&& gs[rem[q - 1] as int]@.len() > depth
        &&& gs[rem[q - 1] as int]@[depth] == gs[rem[0] as int]@[depth]
    }
}

/// The tree-consistency invariant of the strategy file at candidate set
/// `rem` and round `depth`: every candidate still has a guess, all agree on
/// it, and every feedback bucket of that guess is consistent one round
/// deeper.
pub open spec fn consistent(gs: Seq<Vec<usize>>, t: JudgeTable, rem: Seq<usize>, depth: int) -> bool
    decreases row_measure(gs, rem, rem.len() as int, depth), 1int, 0int,
{
    &&& rows_ok_at(gs, rem, depth, rem.len() as int)
    &&& buckets_consistent(
        gs,
        t,
        rem,
        depth,
        gs[rem[0] as int]@[depth] as int,
        NUM_JUDGES as int,
    )
}

pub open spec fn buckets_consistent(
    gs: Seq<Vec<usize>>,
    t: JudgeTable,
    rem: Seq<usize>,
    depth: int,
    g: int,
    j: int,
) -> bool
    decreases row_measure(gs, rem, rem.len() as int, depth), 0int, j,
        when 0 <= j <= NUM_JUDGES && 1 <= rem.len() && 0 <= depth && (forall|q: int|
            0 <= q < rem.len() ==> gs[(#[trigger] rem[q]) as int]@.len() > depth)
{
    if j <= 0 {
        true
    } else {
        proof {
            lemma_bucket_members(t, rem, g, j - 1);
            lemma_row_measure_decreases(gs, rem, bucket_of(t, rem, g, j - 1), depth);
        }
        &&& buckets_consistent(gs, t, rem, depth, g, j - 1)
        &&& (bucket_of(t, rem, g, j - 1).len() == 0 || consistent(
            gs,
            t,
            bucket_of(t, rem, g, j - 1),
            depth + 1,
        ))
    }
}

/// Consistency reads only the candidates' own rows: any row list that
/// agrees on them is consistent too.
pub proof fn lemma_consistent_frame(
    gs1: Seq<Vec<usize>>,
    gs2: Seq<Vec<usize>>,
    t: JudgeTable,
    rem: Seq<usize>,
    depth: int,
)
    requires
        consistent(gs1, t, rem, depth),
        1 <= rem.len(),
        0 <= depth,
        forall|q: int|
            0 <= q < rem.len() ==> gs2[(#[trigger] rem[q]) as int]@ == gs1[rem[q] as int]@,
    ensures
        consistent(gs2, t, rem, depth),
    decreases row_measure(gs1, rem, rem.len() as int, depth), 1int, 0int,
{
    lemma_rows_ok_frame(gs1, gs2, rem, depth, rem.len() as int);
    assert(gs2[rem[0] as int]@ == gs1[rem[0] as int]@);
    assert forall|q: int|
        0 <= q < rem.len() implies gs1[(#[trigger] rem[q]) as int]@.len() > depth by {
        lemma_rows_ok_at_index(gs1, rem, depth, q, rem.len() as int);
    }
    lemma_buckets_frame(gs1, gs2, t, rem, depth, gs1[rem[0] as int]@[depth] as int,
        NUM_JUDGES as int);
}

proof fn lemma_rows_ok_frame(
    gs1: Seq<Vec<usize>>,
    gs2: Seq<Vec<usize>>,
    rem: Seq<usize>,
    depth: int,
    q: int,
)
    requires
        rows_ok_at(gs1, rem, depth, q),
        q <= rem.len(),
        forall|q2: int|
            0 <= q2 < rem.len() ==> gs2[(#[trigger] rem[q2]) as int]@ == gs1[rem[q2] as int]@,
    ensures
        rows_ok_at(gs2, rem, depth, q),
    decreases q,
{
    if q > 0 {
        lemma_rows_ok_frame(gs1, gs2, rem, depth, q - 1);
    }
}

proof fn lemma_buckets_frame(
    gs1: Seq<Vec<usize>>,
    gs2: Seq<Vec<usize>>,
    t: JudgeTable,
    rem: Seq<usize>,
    depth: int,
    g: int,
    j: int,
)
    requires
        buckets_consistent(gs1, t, rem, depth, g, j),
        0 <= j <= NUM_JUDGES,
        1 <= rem.len(),
        0 <= depth,
        forall|q: int| 0 <= q < rem.len() ==> gs1[(#[trigger] rem[q]) as int]@.len() > depth,
        forall|q: int|
            0 <= q < rem.len() ==> gs2[(#[trigger] rem[q]) as int]@ == gs1[rem[q] as int]@,
    ensures
        buckets_consistent(gs2, t, rem, depth, g, j),
    decreases row_measure(gs1, rem, rem.len() as int, depth), 0int, j,
{
    if j > 0 {
        lemma_buckets_frame(gs1, gs2, t, rem, depth, g, j - 1);
        let b = bucket_of(t, rem, g, j - 1);
        lemma_bucket_members(t, rem, g, j - 1);
        if b.len() > 0 {
            assert forall|q: int|
                0 <= q < b.len() implies gs2[(#[trigger] b[q]) as int]@ == gs1[b[q] as int]@ by {
                assert(seq_has(rem, b[q] as int));
                let i = choose|i: int| 0 <= i < rem.len() && rem[i] == b[q];
                assert(gs2[rem[i] as int]@ == gs1[rem[i] as int]@);
            }
            lemma_row_measure_decreases(gs1, rem, b, depth);
            if consistent(gs1, t, b, depth + 1) {
                lemma_consistent_frame(gs1, gs2, t, b, depth + 1);
            }
        }
    }
}

/// Per-bucket consistency assembles into the bucket sweep.
pub proof fn lemma_buckets_consistent_build(
    gs: Seq<Vec<usize>>,
    t: JudgeTable,
    rem: Seq<usize>,
    depth: int,
    g: int,
    j: int,
)
    requires
        0 <= j <= NUM_JUDGES,
        1 <= rem.len(),
        0 <= depth,
        forall|q: int| 0 <= q < rem.len() ==> gs[(#[trigger] rem[q]) as int]@.len() > depth,
        forall|j2: int|
            0 <= j2 < j ==> bucket_of(t, rem, g, j2).len() == 0 || consistent(
                gs,
                t,
                bucket_of(t, rem, g, j2),
                depth + 1,
            ),
    ensures
        buckets_consistent(gs, t, rem, depth, g, j),
    decreases j,
{
    if j > 0 {
        lemma_buckets_consistent_build(gs, t, rem, depth, g, j - 1);
    }
}

proof fn lemma_rows_ok_at_index(gs: Seq<Vec<usize>>, rem: Seq<usize>, depth: int, q: int, qmax: int)
    requires
        rows_ok_at(gs, rem, depth, qmax),
        0 <= q < qmax,
    ensures
        gs[rem[q] as int]@.len() > depth,
        gs[rem[q] as int]@[depth] == gs[rem[0] as int]@[depth],
    decreases qmax,
{
    if q < qmax - 1 {
        lemma_rows_ok_at_index(gs, rem, depth, q, qmax - 1);
    }
}

pub proof fn lemma_rows_ok_at_build(gs: Seq<Vec<usize>>, rem: Seq<usize>, depth: int, q: int)
    requires
        0 <= q,
        forall|q2: int|
            0 <= q2 < q ==> gs[(#[trigger] rem[q2]) as int]@.len() > depth
                && gs[rem[q2] as int]@[depth] == gs[rem[0] as int]@[depth],
    ensures
        rows_ok_at(gs, rem, depth, q),
    decreases q,
{
    if q > 0 {
        lemma_rows_ok_at_build(gs, rem, depth, q - 1);
    }
}

proof fn lemma_buckets_consistent_index(
    gs: Seq<Vec<usize>>,
    t: JudgeTable,
    rem: Seq<usize>,
    depth: int,
    g: int,
    jmax: int,
    j0: int,
)
    requires
        buckets_consistent(gs, t, rem, depth, g, jmax),
        0 <= j0 < jmax <= NUM_JUDGES,
        1 <= rem.len(),
        0 <= depth,
        forall|q: int| 0 <= q < rem.len() ==> gs[(#[trigger] rem[q]) as int]@.len() > depth,
    ensures
        bucket_of(t, rem, g, j0).len() == 0 || consistent(gs, t, bucket_of(t, rem, g, j0), depth
            + 1),
    decreases jmax,
{
    if j0 < jmax - 1 {
        lemma_buckets_consistent_index(gs, t, rem, depth, g, jmax - 1, j0);
    }
}

/// A single candidate whose row plays itself at this round is consistent:
/// the guess identifies it and leaves every feedback bucket empty.
pub proof fn lemma_singleton_consistent(
    gs: Seq<Vec<usize>>,
    t: JudgeTable,
    rem: Seq<usize>,
    depth: int,
)
    requires
        t.wf(),
        set_wf(t, rem),
        rem.len() == 1,
        0 <= depth,
        gs[rem[0] as int]@.len() > depth,
        gs[rem[0] as int]@[depth] == rem[0],
    ensures
        consistent(gs, t, rem, depth),
{
    let a = rem[0];
    lemma_rows_ok_at_build(gs, rem, depth, 1);
    assert(t.spec_valid_answer(a as int));
    t.lemma_self_correct(a as int);
    assert forall|j2: int|
        0 <= j2 < NUM_JUDGES implies bucket_of(t, rem, a as int, j2).len() == 0 by {
        assert(rem.drop_last().len() == 0);
        assert(bucket_of(t, rem.drop_last(), a as int, j2).len() == 0);
        assert(rem.last() == a);
    }
    lemma_buckets_consistent_build(gs, t, rem, depth, a as int, NUM_JUDGES as int);
}

/// A pair whose rows play the first candidate and then, for the second, the
/// second candidate itself is consistent.
pub proof fn lemma_pair_consistent(
    gs: Seq<Vec<usize>>,
    t: JudgeTable,
    rem: Seq<usize>,
    depth: int,
)
    requires
        t.wf(),
        set_wf(t, rem),
        rem.len() == 2,
        0 <= depth,
        gs[rem[0] as int]@.len() > depth,
        gs[rem[1] as int]@.len() > depth + 1,
        gs[rem[0] as int]@[depth] == rem[0],
        gs[rem[1] as int]@[depth] == rem[0],
        gs[rem[1] as int]@[depth + 1] == rem[1],
    ensures
        consistent(gs, t, rem, depth),
{
    let a0 = rem[0];
    let a1 = rem[1];
    lemma_rows_ok_at_build(gs, rem, depth, 2);
    assert(t.spec_valid_answer(a0 as int));
    assert(t.spec_valid_answer(a1 as int));
    t.lemma_self_correct(a0 as int);
    t.lemma_entry_wf(a0 as int, a1 as int);
    let j1 = t.judge_of(a0 as int, a1 as int);
    assert(j1 != ALL_CORRECT) by {
        if j1 == ALL_CORRECT {
            t.lemma_correct_implies_eq(a0 as int, a1 as int);
            assert(rem[0] < rem[1]);
        }
    }
    let pre = rem.drop_last();
    assert(pre.len() == 1 && pre[0] == a0);
    assert(pre.drop_last().len() == 0);
    assert forall|j2: int|
        0 <= j2 < NUM_JUDGES && j2 != j1 implies bucket_of(t, rem, a0 as int, j2).len() == 0 by {
        assert(bucket_of(t, pre.drop_last(), a0 as int, j2).len() == 0);
        assert(t.judge_of(a0 as int, pre.last() as int) == ALL_CORRECT);
        assert(bucket_of(t, pre, a0 as int, j2).len() == 0);
        assert(rem.last() == a1);
    }
    let b1 = bucket_of(t, rem, a0 as int, j1);
    assert(b1 =~= seq![a1]) by {
        assert(bucket_of(t, pre.drop_last(), a0 as int, j1).len() == 0);
        assert(t.judge_of(a0 as int, pre.last() as int) == ALL_CORRECT);
        assert(bucket_of(t, pre, a0 as int, j1).len() == 0);
        assert(rem.last() == a1);
    }
    lemma_bucket_members(t, rem, a0 as int, j1);
    assert(b1[0] == a1);
    lemma_singleton_consistent(gs, t, b1, depth + 1);
    assert forall|j2: int|
        0 <= j2 < NUM_JUDGES implies bucket_of(t, rem, a0 as int, j2).len() == 0 || consistent(
            gs,
            t,
            bucket_of(t, rem, a0 as int, j2),
            depth + 1,
        ) by {
        if j2 == j1 {
            assert(consistent(gs, t, bucket_of(t, rem, a0 as int, j2), depth + 1));
        }
    }
    lemma_buckets_consistent_build(gs, t, rem, depth, a0 as int, NUM_JUDGES as int);
}

/// Every guess in the subtree comes from the strategy file: a node plays
/// its first candidate's recorded guess for its round, and each feedback
/// child does so one round deeper.
pub open spec fn node_follows(gs: Seq<Vec<usize>>, node: Node, depth: int) -> bool
    decreases node, 0int,
{
    match node {
        Node::Terminal => true,
        Node::NonTerminal { guess, rem_ans, edges } => {
            &&& guess == gs[rem_ans@[0] as int]@[depth]
            &&& edges_follow(gs, edges@, depth, edges@.len() as int)
        },
    }
}

pub open spec fn edges_follow(
    gs: Seq<Vec<usize>>,
    edges: Seq<(usize, Node)>,
    depth: int,
    k: int,
) -> bool
    decreases edges, k,
        when 0 <= k <= edges.len()
{
    if k <= 0 {
        true
    } else {
        proof {
            assert(decreases_to!(edges => edges[k - 1]));
        }
        &&& edges_follow(gs, edges, depth, k - 1)
        &&& node_follows(gs, edges[k - 1].1, depth + 1)
    }
}

proof fn lemma_edges_follow_push(
    gs: Seq<Vec<usize>>,
    edges: Seq<(usize, Node)>,
    e2: (usize, Node),
    depth: int,
    k: int,
)
    requires
        edges_follow(gs, edges, depth, k),
        0 <= k <= edges.len(),
    ensures
        edges_follow(gs, edges.push(e2), depth, k),
    decreases k,
{
    if k > 0 {
        lemma_edges_follow_push(gs, edges, e2, depth, k - 1);
        assert(edges.push(e2)[k - 1] == edges[k - 1]);
    }
}

/// Parsing a prefix of `a` ignores anything appended after `a`.
proof fn lemma_chunk_prefix(st0: Option<ParseState>, a: Seq<char>, b: Seq<char>, i: int)
    requires
        0 <= i <= a.len(),
    ensures
        parse_chunk(st0, a + b, i) == parse_chunk(st0, a, i),
    decreases i,
{
    if i > 0 {
        lemma_chunk_prefix(st0, a, b, i - 1);
        assert((a + b)[i - 1] == a[i - 1]);
    }
}

/// Parsing concatenated text is parsing the first part, then the second.
proof fn lemma_chunk_append(st0: Option<ParseState>, a: Seq<char>, b: Seq<char>, j: int)
    requires
        0 <= j <= b.len(),
    ensures
        parse_chunk(st0, a + b, a.len() + j) == parse_chunk(
            parse_chunk(st0, a, a.len() as int),
            b,
            j,
        ),
    decreases j,
{
    if j == 0 {
        lemma_chunk_prefix(st0, a, b, a.len() as int);
    } else {
        lemma_chunk_append(st0, a, b, j - 1);
        assert((a + b)[a.len() + j - 1] == b[j - 1]);
    }
}

/// Decimal digit characters read back as themselves.
proof fn lemma_dec_digit_char(d: int)
    requires
        0 <= d < 10,
    ensures
        is_digit_char(dec_digit(d as nat)),
        digit_val(dec_digit(d as nat)) == d,
{
}

/// Reading the decimal rendering of `x` from outside a token accumulates
/// exactly `x` as the pending token.
proof fn lemma_parse_dec(rows: Seq<Seq<usize>>, cur_row: Seq<usize>, x: int)
    requires
        0 <= x < MAX_TOKEN,
    ensures
        parse_chunk(
            Some(ParseState { rows, cur_row, cur: 0, in_tok: false }),
            dec_chars(x as nat),
            dec_chars(x as nat).len() as int,
        ) == Some(ParseState { rows, cur_row, cur: x, in_tok: true }),
    decreases x,
{
    let stv = ParseState { rows, cur_row, cur: 0, in_tok: false };
    let st0 = Some(stv);
    let txt = dec_chars(x as nat);
    if x < 10 {
        lemma_dec_digit_char(x);
        assert(txt == seq![dec_digit(x as nat)]);
        assert(txt.len() == 1);
        assert(txt[0] == dec_digit(x as nat));
        assert(!is_sep(txt[0]) && txt[0] != '\n');
        assert(parse_chunk(st0, txt, 0) == st0);
        assert(parse_chunk(st0, txt, 1) == parse_step(stv, txt[0]));
        assert(parse_step(stv, txt[0]) == Some(
            ParseState { rows, cur_row, cur: x, in_tok: true },
        ));
    } else {
        lemma_parse_dec(rows, cur_row, x / 10);
        let hd = dec_chars((x / 10) as nat);
        let d = x % 10;
        lemma_dec_digit_char(d);
        let dc = dec_digit(d as nat);
        assert(txt == hd.push(dc));
        assert(hd.push(dc) =~= hd + seq![dc]);
        lemma_chunk_append(st0, hd, seq![dc], 1);
        let st1 = ParseState { rows, cur_row, cur: x / 10, in_tok: true };
        assert(parse_chunk(st0, hd, hd.len() as int) == Some(st1));
        assert(parse_chunk(st0, hd + seq![dc], hd.len() as int + 1) == parse_chunk(
            Some(st1),
            seq![dc],
            1,
        ));
        assert(seq![dc][0] == dc);
        assert(parse_chunk(Some(st1), seq![dc], 0) == Some(st1));
        assert(parse_chunk(Some(st1), seq![dc], 1) == parse_step(st1, dc));
        assert(!is_sep(dc) && dc != '\n');
        assert(x / 10 <= 10000000);
        vstd::arithmetic::div_mod::lemma_fundamental_div_mod(x, 10);
        assert(parse_step(st1, dc) == Some(
            ParseState { rows, cur_row, cur: x, in_tok: true },
        ));
        assert(txt.len() == hd.len() + 1);
    }
}

/// Reading a rendered line accumulates its first `k` entries: the first
/// `k - 1` closed, the last still pending.
proof fn lemma_parse_row(rows: Seq<Seq<usize>>, row: Seq<usize>, k: int)
    requires
        1 <= k <= row.len(),
        forall|q: int| 0 <= q < row.len() ==> (#[trigger] row[q]) < MAX_TOKEN,
    ensures
        parse_chunk(
            Some(ParseState { rows, cur_row: Seq::empty(), cur: 0, in_tok: false }),
            render_row(row, k),
            render_row(row, k).len() as int,
        ) == Some(
            ParseState { rows, cur_row: row.take(k - 1), cur: row[k - 1] as int, in_tok: true },
        ),
    decreases k,
{
    let st0 = Some(ParseState { rows, cur_row: Seq::<usize>::empty(), cur: 0, in_tok: false });
    if k == 1 {
        lemma_parse_dec(rows, Seq::empty(), row[0] as int);
        assert(row.take(0) =~= Seq::<usize>::empty());
    } else {
        lemma_parse_row(rows, row, k - 1);
        let a = render_row(row, k - 1);
        let b = seq![' '];
        let c = dec_chars(row[k - 1] as nat);
        assert(render_row(row, k) == a + b + c);
        let st1 = ParseState {
            rows,
            cur_row: row.take(k - 2),
            cur: row[k - 2] as int,
            in_tok: true,
        };
        assert(parse_chunk(st0, a, a.len() as int) == Some(st1));
        lemma_chunk_append(st0, a, b, 1);
        assert(parse_chunk(st0, a + b, a.len() as int + 1) == parse_chunk(Some(st1), b, 1));
        assert(b[0] == ' ');
        assert(is_sep(' '));
        assert(parse_chunk(Some(st1), b, 0) == Some(st1));
        assert(parse_chunk(Some(st1), b, 1) == parse_step(st1, ' '));
        assert(parse_step(st1, ' ') == flush_tok(st1));
        assert(row[k - 2] < MAX_TOKEN);
        assert(row.take(k - 2).push((row[k - 2] as int) as usize) =~= row.take(k - 1));
        let st2 = ParseState { rows, cur_row: row.take(k - 1), cur: 0, in_tok: false };
        assert(flush_tok(st1) == Some(st2));
        assert((a + b).len() == a.len() + 1);
        assert(parse_chunk(st0, a + b, (a + b).len() as int) == Some(st2));
        lemma_parse_dec(rows, row.take(k - 1), row[k - 1] as int);
        lemma_chunk_append(st0, a + b, c, c.len() as int);
        assert((a + b) + c == render_row(row, k));
        assert(parse_chunk(st0, render_row(row, k), (a + b).len() as int + c.len() as int) == parse_chunk(
            Some(st2),
            c,
            c.len() as int,
        ));
        assert(parse_chunk(Some(st2), c, c.len() as int) == Some(
            ParseState {
                rows,
                cur_row: row.take(k - 1),
                cur: row[k - 1] as int,
                in_tok: true,
            },
        ));
        assert(render_row(row, k).len() == (a + b).len() + c.len());
    }
}

/// Reading the first `i` rendered lines reconstructs the first `i` rows.
proof fn lemma_parse_file(gs: Seq<Vec<usize>>, i: int)
    requires
        0 <= i <= gs.len(),
        forall|p: int, k: int|
            #![trigger gs[p]@[k]]
            0 <= p < gs.len() && 0 <= k < gs[p]@.len() ==> gs[p]@[k] < MAX_TOKEN,
    ensures
        parse_chunk(
            Some(parse_init()),
            render_file(gs, i),
            render_file(gs, i).len() as int,
        ) == Some(
            ParseState {
                rows: rows_view(gs).take(i),
                cur_row: Seq::empty(),
                cur: 0,
                in_tok: false,
            },
        ),
    decreases i,
{
    let st0 = Some(parse_init());
    if i == 0 {
        assert(rows_view(gs).take(0) =~= Seq::<Seq<usize>>::empty());
    } else {
        lemma_parse_file(gs, i - 1);
        let a = render_file(gs, i - 1);
        let row = gs[i - 1]@;
        let b = render_row(row, row.len() as int);
        let c = seq!['\n'];
        assert(render_file(gs, i) == a + b + c);
        let sta = ParseState {
            rows: rows_view(gs).take(i - 1),
            cur_row: Seq::<usize>::empty(),
            cur: 0,
            in_tok: false,
        };
        assert(parse_chunk(st0, a, a.len() as int) == Some(sta));
        lemma_chunk_append(st0, a, b, b.len() as int);
        lemma_chunk_append(st0, a + b, c, 1);
        let target = ParseState {
            rows: rows_view(gs).take(i - 1).push(row),
            cur_row: Seq::<usize>::empty(),
            cur: 0,
            in_tok: false,
        };
        assert(c[0] == '\n');
        if row.len() == 0 {
            assert(row =~= Seq::<usize>::empty());
            assert(b == Seq::<char>::empty());
            assert(parse_chunk(Some(sta), b, 0) == Some(sta));
            assert(parse_chunk(st0, a + b, a.len() as int) == parse_chunk(Some(sta), b, 0));
            assert((a + b).len() == a.len());
            assert(parse_chunk(st0, a + b, (a + b).len() as int) == Some(sta));
            assert(parse_chunk(Some(sta), c, 0) == Some(sta));
            assert(parse_chunk(Some(sta), c, 1) == parse_step(sta, '\n'));
            assert(flush_tok(sta) == Some(sta));
            assert(parse_step(sta, '\n') == Some(target));
        } else {
            lemma_parse_row(rows_view(gs).take(i - 1), row, row.len() as int);
            let stb = ParseState {
                rows: rows_view(gs).take(i - 1),
                cur_row: row.take(row.len() - 1),
                cur: row[row.len() - 1] as int,
                in_tok: true,
            };
            assert(parse_chunk(st0, a + b, a.len() as int + b.len() as int) == parse_chunk(
                Some(sta),
                b,
                b.len() as int,
            ));
            assert(parse_chunk(Some(sta), b, b.len() as int) == Some(stb));
            assert((a + b).len() == a.len() + b.len());
            assert(parse_chunk(Some(stb), c, 0) == Some(stb));
            assert(parse_chunk(Some(stb), c, 1) == parse_step(stb, '\n'));
            assert(row[row.len() - 1] < MAX_TOKEN);
            assert(row.take(row.len() - 1).push(
                (row[row.len() - 1] as int) as usize,
            ) =~= row);
            assert(flush_tok(stb) == Some(
                ParseState {
                    rows: rows_view(gs).take(i - 1),
                    cur_row: row,
                    cur: 0,
                    in_tok: false,
                },
            ));
            assert(parse_step(stb, '\n') == Some(target));
        }
        assert(rows_view(gs).take(i - 1).push(row) =~= rows_view(gs).take(i));
        assert(parse_chunk(st0, (a + b) + c, (a + b).len() as int + 1) == parse_chunk(
            parse_chunk(st0, a + b, (a + b).len() as int),
            c,
            1,
        ));
        assert((a + b) + c == render_file(gs, i));
        assert(render_file(gs, i).len() == (a + b).len() + 1);
    }
}

/// Round trip: a rendered strategy file parses back to exactly the rows it
/// was rendered from.
pub proof fn lemma_parse_render(gs: Seq<Vec<usize>>)
    requires
        1 <= gs.len(),
        forall|p: int, k: int|
            #![trigger gs[p]@[k]]
            0 <= p < gs.len() && 0 <= k < gs[p]@.len() ==> gs[p]@[k] < MAX_TOKEN,
    ensures
        spec_parse(render_file(gs, gs.len() as int)) == Some(rows_view(gs)),
{
    lemma_parse_file(gs, gs.len() as int);
    assert(rows_view(gs).take(gs.len() as int) =~= rows_view(gs));
}

/// The bounds a parsed file induces fit the vocabulary: the answers do not
/// outnumber the guesses, and every derived guess index names a word the
/// vocabulary allows as a guess.
pub open spec fn tree_bounds_ok(rows: Seq<Seq<usize>>, voc: Vocabulary) -> bool {
    &&& rows.len() <= rows_max_val(rows, rows.len() as int) + 1
    &&& rows_max_val(rows, rows.len() as int) + 1 <= voc.guess_until
}

/// A decision tree read back from a strategy file: the per-answer guess
/// sequences and the judge table for the ranges the file spans.
pub struct DecisionTree {
    pub guess_seq: Vec<Vec<Guess>>,
    pub judge_table: JudgeTable,
}

impl DecisionTree {
    pub open spec fn wf(self) -> bool {
        &&& self.judge_table.wf()
        &&& self.guess_seq@.len() == self.judge_table.ans_until
        &&& forall|i: int, k: int|
            #![trigger self.guess_seq@[i]@[k]]
            0 <= i < self.guess_seq@.len() && 0 <= k < self.guess_seq@[i]@.len()
                ==> self.guess_seq@[i]@[k] < self.judge_table.guess_until
    }

    /// Parses a strategy file against a vocabulary: line `i` holds the
    /// guess indices played when the secret is answer `i`, whitespace
    /// separated.  The judge table is sized by the line count and the
    /// largest index seen.  Reading a file the solver wrote recovers the
    /// solver's sequences exactly: see `lemma_parse_render`.
    pub fn new(text: &Vec<char>, voc: &Vocabulary) -> (r: Result<DecisionTree, TreeError>)
        requires
            voc.wf(),
        ensures
            r matches Ok(dt) ==> {
                &&& dt.wf()
                &&& dt.judge_table.words@ == word_views(voc.words@)
                &&& spec_parse(text@) == Some(rows_view(dt.guess_seq@))
                &&& dt.judge_table.ans_until == dt.guess_seq@.len()
                &&& dt.judge_table.guess_until == rows_max_val(
                    rows_view(dt.guess_seq@),
                    dt.guess_seq@.len() as int,
                ) + 1
            },
            r is Ok <==> (spec_parse(text@) matches Some(rows) && tree_bounds_ok(rows, *voc)),
            r == Err::<DecisionTree, TreeError>(TreeError::InputMalformed) <==> spec_parse(text@)
                is None,
            (spec_parse(text@) matches Some(rows) && !tree_bounds_ok(rows, *voc)) ==> r
                == Err::<DecisionTree, TreeError>(TreeError::BadBounds),
    {
        let rows = match parse_rows(text) {
            Ok(rows) => rows,
            Err(e) => {
                return Err(e);
            },
        };
        let ghost rv = rows_view(rows@);
        proof {
            assert forall|p: int, k: int|
                #![trigger rv[p][k]]
                0 <= p < rv.len() && 0 <= k < rv[p].len() implies rv[p][k] < MAX_TOKEN by {
                assert(rows@[p]@[k] < MAX_TOKEN);
            }
            lemma_rows_max_val_lt(rv, rv.len() as int, MAX_TOKEN as int);
        }
        let maxg = rows_max(&rows);
        let ans_until = rows.len();
        let guess_until = maxg + 1;
        if !(ans_until <= guess_until && guess_until <= voc.guess_until) {
            proof {
                assert(!tree_bounds_ok(rv, *voc));
            }
            return Err(TreeError::BadBounds);
        }
        let words = copy_words(&voc.words);
        let voc2 = Vocabulary { words, ans_until, guess_until };
        proof {
            assert(voc2.wf());
            assert(word_views(voc2.words@) == word_views(voc.words@));
        }
        let judge_table = JudgeTable::new(&voc2);
        proof {
            assert forall|p: int, k: int|
                #![trigger rows@[p]@[k]]
                0 <= p < rows@.len() && 0 <= k < rows@[p]@.len() implies rows@[p]@[k]
                < judge_table.guess_until by {
                lemma_rows_max_val_ge(rv, rv.len() as int, p, k);
                assert(rv[p][k] == rows@[p]@[k]);
            }
            assert(tree_bounds_ok(rv, *voc));
        }
        Ok(DecisionTree { guess_seq: rows, judge_table })

    }

    /// Rebuilds the decision tree for candidate set `rem_ans` at round
    /// `depth`: all candidates must agree on the guess of this round, the
    /// candidates are split by that guess's feedback, and each bucket is
    /// rebuilt one round deeper.
    pub fn build(&self, rem_ans: &Vec<Answer>, depth: usize) -> (r: Result<Node, TreeError>)
        requires
            self.wf(),
            set_wf(self.judge_table, rem_ans@),
            1 <= rem_ans@.len(),
        ensures
            r matches Ok(node) ==> node_ok(self.judge_table, node, rem_ans@),
            r matches Ok(node) ==> node matches Node::NonTerminal { guess, .. } && guess
                == self.guess_seq@[rem_ans@[0] as int]@[depth as int],
            r matches Ok(node) ==> node_follows(self.guess_seq@, node, depth as int),
            r is Ok <==> consistent(self.guess_seq@, self.judge_table, rem_ans@, depth as int),
            r is Err ==> r == Err::<Node, TreeError>(TreeError::Inconsistent),
        decreases row_measure(self.guess_seq@, rem_ans@, rem_ans@.len() as int, depth as int),
    {
        let ghost t = self.judge_table;
        let n = rem_ans.len();
        let a0 = rem_ans[0];
        proof {
            assert(t.spec_valid_answer(a0 as int));
        }
        let ghost gs = self.guess_seq@;
        let rowlen0 = self.guess_seq[a0].len();
        if rowlen0 <= depth {
            proof {
                assert(!rows_ok_at(gs, rem_ans@, depth as int, rem_ans@.len() as int)) by {
                    if rows_ok_at(gs, rem_ans@, depth as int, rem_ans@.len() as int) {
                        lemma_rows_ok_at_index(
                            gs,
                            rem_ans@,
                            depth as int,
                            0,
                            rem_ans@.len() as int,
                        );
                    }
                }
            }
            return Err(TreeError::Inconsistent);
        }
        let guess = self.guess_seq[a0][depth];
        let mut i: usize = 1;
        while i < n
            invariant
                self.wf(),
                t == self.judge_table,
                gs == self.guess_seq@,
                set_wf(t, rem_ans@),
                n == rem_ans@.len(),
                i <= n,
                guess == self.guess_seq@[rem_ans@[0] as int]@[depth as int],
                forall|q: int|
                    0 <= q < i ==> self.guess_seq@[(#[trigger] rem_ans@[q]) as int]@.len() > depth
                        && self.guess_seq@[rem_ans@[q] as int]@[depth as int] == guess,
            decreases n - i,
        {
            let a = rem_ans[i];
            proof {
                assert(t.spec_valid_answer(a as int));
            }
            if self.guess_seq[a].len() <= depth {
                proof {
                    assert(!rows_ok_at(gs, rem_ans@, depth as int, rem_ans@.len() as int)) by {
                        if rows_ok_at(gs, rem_ans@, depth as int, rem_ans@.len() as int) {
                            lemma_rows_ok_at_index(
                                gs,
                                rem_ans@,
                                depth as int,
                                i as int,
                                rem_ans@.len() as int,
                            );
                        }
                    }
                }
                return Err(TreeError::Inconsistent);
            }
            if self.guess_seq[a][depth] != guess {
                proof {
                    assert(!rows_ok_at(gs, rem_ans@, depth as int, rem_ans@.len() as int)) by {
                        if rows_ok_at(gs, rem_ans@, depth as int, rem_ans@.len() as int) {
                            lemma_rows_ok_at_index(
                                gs,
                                rem_ans@,
                                depth as int,
                                i as int,
                                rem_ans@.len() as int,
                            );
                        }
                    }
                }
                return Err(TreeError::Inconsistent);
            }
            i += 1;
        }
        proof {
            assert(guess < t.guess_until);
            lemma_rows_ok_at_build(gs, rem_ans@, depth as int, n as int);
        }
        let part = self.judge_table.partition(rem_ans, &guess);
        let ghost gi = guess as int;
        let mut edges: Vec<(usize, Node)> = Vec::new();
        let mut j: usize = 0;
        while j < NUM_JUDGES
            invariant
                self.wf(),
                t == self.judge_table,
                set_wf(t, rem_ans@),
                n == rem_ans@.len(),
                1 <= n,
                gi == guess as int,
                0 <= gi < t.guess_until,
                is_partition_of(part, t, rem_ans@, gi),
                j <= NUM_JUDGES,
                depth < rowlen0,
                gs == self.guess_seq@,
                gi == gs[rem_ans@[0] as int]@[depth as int] as int,
                edges_ok(t, rem_ans@, gi, edges@, edges@.len() as int),
                edges_follow(gs, edges@, depth as int, edges@.len() as int),
                rows_ok_at(gs, rem_ans@, depth as int, n as int),
                buckets_consistent(gs, t, rem_ans@, depth as int, gi, j as int),
                forall|j2: int|
                    0 <= j2 < j && j2 != ALL_CORRECT && bucket_of(t, rem_ans@, gi, j2).len() > 0
                        ==> has_edge(edges@, j2),
                forall|q: int|
                    0 <= q < n ==> self.guess_seq@[(#[trigger] rem_ans@[q]) as int]@.len() > depth,
            decreases NUM_JUDGES - j,
        {
            let ghost j0 = j as int;
            proof {
                lemma_bucket_members(t, rem_ans@, gi, j0);
                assert(part.buckets@[j0]@ == bucket_of(t, rem_ans@, gi, j0));
            }
            if part.buckets[j].len() > 0 {
                proof {
                    lemma_row_measure_decreases(
                        self.guess_seq@,
                        rem_ans@,
                        bucket_of(t, rem_ans@, gi, j0),
                        depth as int,
                    );
                }
                let child = match self.build(&part.buckets[j], depth + 1) {
                    Ok(c) => c,
                    Err(e) => {
                        proof {
                            assert(!consistent(gs, t, rem_ans@, depth as int)) by {
                                if consistent(gs, t, rem_ans@, depth as int) {
                                    lemma_buckets_consistent_index(
                                        gs,
                                        t,
                                        rem_ans@,
                                        depth as int,
                                        gi,
                                        NUM_JUDGES as int,
                                        j0,
                                    );
                                }
                            }
                        }
                        return Err(e);
                    },
                };
                let ghost pre_edges = edges@;
                edges.push((j, child));
                proof {
                    lemma_edges_follow_push(gs, pre_edges, (j, child), depth as int, pre_edges.len() as int);
                    assert(edges_follow(gs, edges@, depth as int, edges@.len() as int)) by {
                        assert(edges@[edges@.len() - 1].1 == child);
                    }
                    assert(j0 != ALL_CORRECT) by {
                        lemma_bucket_members(t, rem_ans@, gi, ALL_CORRECT as int);
                        assert(bucket_of(t, rem_ans@, gi, ALL_CORRECT as int).len() == 0);
                    }
                    lemma_edges_ok_push(
                        t,
                        rem_ans@,
                        gi,
                        pre_edges,
                        (j, child),
                        pre_edges.len() as int,
                    );
                    assert(edges@[edges@.len() - 1] == (j, child));
                    assert forall|j2: int|
                        0 <= j2 < j0 + 1 && j2 != ALL_CORRECT && bucket_of(
                            t,
                            rem_ans@,
                            gi,
                            j2,
                        ).len() > 0 implies has_edge(edges@, j2) by {
                        if j2 < j0 {
                            assert(has_edge(pre_edges, j2));
                            let k = choose|k: int|
                                0 <= k < pre_edges.len() && (#[trigger] pre_edges[k]).0 == j2;
                            assert(edges@[k].0 == j2);
                        } else {
                            assert(edges@[edges@.len() - 1].0 == j2);
                        }
                    }
                }
            }
            j += 1;
        }
        let inrem = vec_has(rem_ans, guess);
        if inrem {
            let ghost pre_edges = edges@;
            edges.push((ALL_CORRECT, Node::Terminal));
            proof {
                lemma_edges_follow_push(gs, pre_edges, (ALL_CORRECT, Node::Terminal), depth as int, pre_edges.len() as int);
                assert(node_follows(gs, edges@[edges@.len() - 1].1, depth as int + 1)) by {
                    assert(edges@[edges@.len() - 1].1 == Node::Terminal);
                }
                assert(edges_follow(gs, edges@, depth as int, edges@.len() as int));
                lemma_edges_ok_push(
                    t,
                    rem_ans@,
                    gi,
                    pre_edges,
                    (ALL_CORRECT, Node::Terminal),
                    pre_edges.len() as int,
                );
                assert(edges@[edges@.len() - 1] == (ALL_CORRECT, Node::Terminal));
                assert forall|j2: int|
                    0 <= j2 < NUM_JUDGES && j2 != ALL_CORRECT && bucket_of(
                        t,
                        rem_ans@,
                        gi,
                        j2,
                    ).len() > 0 implies has_edge(edges@, j2) by {
                    assert(has_edge(pre_edges, j2));
                    let k = choose|k: int|
                        0 <= k < pre_edges.len() && (#[trigger] pre_edges[k]).0 == j2;
                    assert(edges@[k].0 == j2);
                }
                assert(has_edge(edges@, ALL_CORRECT as int)) by {
                    assert(edges@[edges@.len() - 1].0 == ALL_CORRECT);
                }
            }
        }
        let node = Node::NonTerminal { guess, rem_ans: copy_set(rem_ans), edges };
        proof {
            assert(node_ok(t, node, rem_ans@));
            assert(node_follows(gs, node, depth as int));
            assert(consistent(gs, t, rem_ans@, depth as int));
        }
        Ok(node)
    }

    /// Follows a feedback history from `node`; nothing when the history
    /// leaves the tree.
    pub fn next<'a>(node: &'a Node, history: &Vec<Judge>) -> (r: Option<&'a Node>)
        ensures
            match r {
                Some(x) => spec_walk(*node, history@, 0) == Some(*x),
                None => spec_walk(*node, history@, 0) is None,
            },
    {
        let mut cur: &Node = node;
        let mut i: usize = 0;
        while i < history.len()
            invariant
                i <= history@.len(),
                spec_walk(*node, history@, 0) == spec_walk(*cur, history@, i as int),
            decreases history@.len() - i,
        {
            match cur.next(&history[i]) {
                Some(c) => {
                    cur = c;
                },
                None => {
                    return None;
                },
            }
            i += 1;
        }
        Some(cur)
    }
}

/// `x` occurs in `v`.
pub fn vec_has(v: &Vec<usize>, x: usize) -> (r: bool)
    ensures
        r == seq_has(v@, x as int),
{
    let mut i: usize = 0;
    while i < v.len()
        invariant
            i <= v@.len(),
            forall|k: int| 0 <= k < i ==> v@[k] != x,
        decreases v@.len() - i,
    {
        if v[i] == x {
            proof {
                assert(v@[i as int] == x);
            }
            return true;
        }
        i += 1;
    }
    proof {
        if seq_has(v@, x as int) {
            let k = choose|k: int| 0 <= k < v@.len() && v@[k] == x;
        }
    }
    false
}

/// An owned copy of a word list.
pub fn copy_words(ws: &Vec<Vec<char>>) -> (r: Vec<Vec<char>>)
    ensures
        r@.len() == ws@.len(),
        forall|i: int| 0 <= i < ws@.len() ==> (#[trigger] r@[i])@ == ws@[i]@,
{
    let mut r: Vec<Vec<char>> = Vec::new();
    let mut i: usize = 0;
    while i < ws.len()
        invariant
            i <= ws@.len(),
            r@.len() == i,
            forall|k: int| 0 <= k < i ==> (#[trigger] r@[k])@ == ws@[k]@,
        decreases ws@.len() - i,
    {
        let w = &ws[i];
        let mut c: Vec<char> = Vec::new();
        let mut k: usize = 0;
        while k < w.len()
            invariant
                k <= w@.len(),
                c@ == w@.take(k as int),
            decreases w@.len() - k,
        {
            c.push(w[k]);
            proof {
                assert(w@.take(k + 1) =~= w@.take(k as int).push(w@[k as int]));
            }
            k += 1;
        }
        proof {
            assert(w@.take(w@.len() as int) =~= w@);
        }
        r.push(c);
        i += 1;
    }
    r
}

/// The longest guess sequence among the first `k` members of `rem`.
pub open spec fn row_max(gs: Seq<Vec<usize>>, rem: Seq<usize>, k: int) -> int
    decreases k,
{
    if k <= 0 {
        0
    } else {
        let prev = row_max(gs, rem, k - 1);
        let cur = gs[rem[k - 1] as int]@.len() as int;
        if cur > prev {
            cur
        } else {
            prev
        }
    }
}

/// Rounds still possibly ahead of the rebuild at depth `depth`.
pub open spec fn row_measure(gs: Seq<Vec<usize>>, rem: Seq<usize>, k: int, depth: int) -> int {
    if row_max(gs, rem, k) - depth > 0 {
        row_max(gs, rem, k) - depth
    } else {
        0
    }
}

proof fn lemma_row_max_ge(gs: Seq<Vec<usize>>, rem: Seq<usize>, q: int)
    requires
        0 <= q < rem.len(),
    ensures
        gs[rem[q] as int]@.len() <= row_max(gs, rem, rem.len() as int),
    decreases rem.len(),
{
    lemma_row_max_ge_aux(gs, rem, q, rem.len() as int);
}

proof fn lemma_row_max_ge_aux(gs: Seq<Vec<usize>>, rem: Seq<usize>, q: int, k: int)
    requires
        0 <= q < k <= rem.len(),
    ensures
        gs[rem[q] as int]@.len() <= row_max(gs, rem, k),
    decreases k,
{
    if q < k - 1 {
        lemma_row_max_ge_aux(gs, rem, q, k - 1);
    }
}

proof fn lemma_row_max_sub(gs: Seq<Vec<usize>>, rem: Seq<usize>, sub: Seq<usize>, k: int)
    requires
        0 <= k <= sub.len(),
        forall|q: int| 0 <= q < sub.len() ==> seq_has(rem, (#[trigger] sub[q]) as int),
    ensures
        row_max(gs, sub, k) <= row_max(gs, rem, rem.len() as int),
    decreases k,
{
    if k > 0 {
        lemma_row_max_sub(gs, rem, sub, k - 1);
        assert(seq_has(rem, sub[k - 1] as int));
        let i = choose|i: int| 0 <= i < rem.len() && rem[i] == sub[k - 1] as int;
        lemma_row_max_ge(gs, rem, i);
    }
}

/// Recursing into a bucket one round deeper strictly shrinks the measure,
/// provided every current member still has a guess at this round.
pub proof fn lemma_row_measure_decreases(
    gs: Seq<Vec<usize>>,
    rem: Seq<usize>,
    sub: Seq<usize>,
    depth: int,
)
    requires
        rem.len() >= 1,
        0 <= depth,
        forall|q: int| 0 <= q < rem.len() ==> gs[(#[trigger] rem[q]) as int]@.len() > depth,
        forall|q: int| 0 <= q < sub.len() ==> seq_has(rem, (#[trigger] sub[q]) as int),
    ensures
        0 <= row_measure(gs, sub, sub.len() as int, depth + 1) < row_measure(
            gs,
            rem,
            rem.len() as int,
            depth,
        ),
{
    lemma_row_max_ge(gs, rem, 0);
    lemma_row_max_sub(gs, rem, sub, sub.len() as int);
}

} // verus!
