use std::collections::HashMap;

use wordle_pokemon::judge::{JudgeTable, ALL_CORRECT, NUM_JUDGES};
use wordle_pokemon::opt::INFTY;
use wordle_pokemon::solver::{render_guess_seq, Solver};
use wordle_pokemon::vocab::Vocabulary;

fn chars(s: &str) -> Vec<char> {
    s.chars().collect()
}

fn mk_vocab(words: &[&str], ans_until: usize, guess_until: usize) -> Vocabulary {
    let ws: Vec<Vec<char>> = words.iter().map(|w| chars(w)).collect();
    Vocabulary::new(ws, ans_until, guess_until).expect("vocabulary should be accepted")
}

fn ten_words() -> Vec<&'static str> {
    vec![
        "AAAAA", "BBBBB", "CCCCC", "DDDDD", "EEEEE", "ABCDE", "BCDEA", "CDEAB", "DEABC", "EABCD",
    ]
}

/// An independent brute-force optimum: no pruning, no greedy seeding, plain
/// minimisation over every splitting guess.
fn brute_best(table: &JudgeTable, guess_until: usize, rem: &[usize],
    memo: &mut HashMap<Vec<usize>, i64>) -> i64 {
    let n = rem.len();
    if n <= 1 {
        return n as i64;
    }
    if let Some(v) = memo.get(rem) {
        return *v;
    }
    let mut best = i64::MAX;
    for g in 0..guess_until {
        let mut buckets: Vec<Vec<usize>> = vec![Vec::new(); NUM_JUDGES];
        for &a in rem {
            let j = table.judge(&g, &a);
            if j != ALL_CORRECT {
                buckets[j].push(a);
            }
        }
        if buckets.iter().any(|b| b.len() == n) {
            continue;
        }
        let mut cost = n as i64;
        for b in buckets.iter() {
            if !b.is_empty() {
                cost += brute_best(table, guess_until, b, memo);
            }
        }
        if cost < best {
            best = cost;
        }
    }
    memo.insert(rem.to_vec(), best);
    best
}

#[test]
fn singleton_answer() {
    // A = {w0}, G = V: best = 1 and seq[w0] = [w0]
    let words = ten_words();
    let voc = mk_vocab(&words, 1, words.len());
    let mut solver = Solver::new(&voc);
    let best = solver.build_best_solution();
    assert_eq!(best, 1);
    let (gs, text) = solver.write().expect("strategy should be recorded");
    assert_eq!(gs.len(), 1);
    assert_eq!(gs[0], vec![0]);
    let line: String = text.iter().collect();
    assert_eq!(line, "0\n");
}

#[test]
fn two_answers() {
    // A = {w0, w1}: best = 3 and the sequence lengths sum to 3
    let words = ten_words();
    let voc = mk_vocab(&words, 2, words.len());
    let mut solver = Solver::new(&voc);
    let best = solver.build_best_solution();
    assert_eq!(best, 3);
    let (gs, _) = solver.write().expect("strategy should be recorded");
    assert_eq!(gs.len(), 2);
    assert_eq!(gs[0].len() + gs[1].len(), 3);
    assert_eq!(gs[0], vec![0]);
    assert_eq!(gs[1], vec![0, 1]);
}

#[test]
fn three_identical_prefix_answers() {
    // three answers sharing a four-character prefix: the optimal first guess
    // is an answer and best = 6
    let words = vec![
        "ABCDA", "ABCDB", "ABCDC", "VWXYZ", "PQRST", "LMNOP", "FGHIJ", "KKKKK", "GGGGG", "ZZZZZ",
    ];
    let voc = mk_vocab(&words, 3, words.len());
    let mut solver = Solver::new(&voc);
    let best = solver.build_best_solution();
    assert_eq!(best, 6);
    let (gs, _) = solver.write().expect("strategy should be recorded");
    let total: usize = gs.iter().map(|r| r.len()).sum();
    assert_eq!(total, 6);
    // the first guess of every sequence is the same answer index
    let first = gs[0][0];
    assert!(first < 3);
    for row in gs.iter() {
        assert_eq!(row[0], first);
    }
}

#[test]
fn end_to_end_small_matches_brute_force() {
    let words = vec!["ABCDE", "ABCDF", "ABCEF", "ABDEF", "ACDEF"];
    let voc = mk_vocab(&words, 5, 5);
    let mut solver = Solver::new(&voc);
    let best = solver.build_best_solution();
    assert!(best <= 12, "best = {best}");
    let table = JudgeTable::new(&voc);
    let all: Vec<usize> = (0..5).collect();
    let mut memo = HashMap::new();
    let expected = brute_best(&table, 5, &all, &mut memo);
    assert_eq!(best as i64, expected);
    // the emitted sequence lengths sum to the optimal score
    let (gs, _) = solver.write().expect("strategy should be recorded");
    let total: usize = gs.iter().map(|r| r.len()).sum();
    assert_eq!(total as i32, best);
}

#[test]
fn greedy_bounds_best() {
    let words = ten_words();
    let voc = mk_vocab(&words, words.len(), words.len());
    let mut s1 = Solver::new(&voc);
    let greedy = s1.build_good_solution();
    let mut s2 = Solver::new(&voc);
    let best = s2.build_best_solution();
    assert!(best <= greedy);
    assert!(best >= 2 * words.len() as i32 - 1);
}

#[test]
fn lower_bound_is_admissible() {
    // lb(S, d) <= best[S] for every depth tried
    let words = ten_words();
    let voc = mk_vocab(&words, words.len(), words.len());
    let all: Vec<usize> = (0..words.len()).collect();
    for depth in 0..4 {
        let mut s = Solver::new(&voc);
        let lb = s.lower_bound(&all, depth);
        let best = s.dfs_best_solution(&all, INFTY);
        assert!(lb <= best, "depth {depth}: {lb} > {best}");
        assert!(lb >= 2 * words.len() as i32 - 1);
    }
}

#[test]
fn lower_bound_on_subsets() {
    let words = ten_words();
    let voc = mk_vocab(&words, words.len(), words.len());
    let subsets: Vec<Vec<usize>> = vec![vec![0], vec![0, 1], vec![1, 4, 7], vec![0, 2, 4, 6, 8]];
    for sub in subsets {
        let mut s = Solver::new(&voc);
        let lb = s.lower_bound(&sub, 1);
        let best = s.dfs_best_solution(&sub, INFTY);
        assert!(lb <= best, "{sub:?}");
    }
}

#[test]
fn score_is_deterministic_across_runs() {
    // the sequential search gives the same score and sequences every run
    let words = ten_words();
    let voc = mk_vocab(&words, words.len(), words.len());
    let mut s1 = Solver::new(&voc);
    let b1 = s1.build_best_solution();
    let (gs1, text1) = s1.write().expect("strategy should be recorded");
    let mut s2 = Solver::new(&voc);
    let b2 = s2.build_best_solution();
    let (gs2, text2) = s2.write().expect("strategy should be recorded");
    assert_eq!(b1, b2);
    assert_eq!(gs1, gs2);
    assert_eq!(text1, text2);
}

#[test]
fn parallel_equivalence() {
    // the same inputs under thread pools of width one and eight give the
    // same score and the same sequence lengths
    let words = ten_words();
    let run = |threads: usize| -> (i32, Vec<usize>) {
        let pool = rayon::ThreadPoolBuilder::new().num_threads(threads).build().unwrap();
        pool.install(|| {
            let voc = mk_vocab(&words, words.len(), words.len());
            let mut s = Solver::new(&voc);
            let b = s.build_best_solution();
            let (gs, _) = s.write().expect("strategy should be recorded");
            (b, gs.iter().map(|r| r.len()).collect())
        })
    };
    let (b1, l1) = run(1);
    let (b8, l8) = run(8);
    assert_eq!(b1, b8);
    assert_eq!(l1, l8);
}

#[test]
fn every_sequence_ends_with_its_answer() {
    let words = ten_words();
    let voc = mk_vocab(&words, words.len(), words.len());
    let mut solver = Solver::new(&voc);
    let _ = solver.build_best_solution();
    let (gs, _) = solver.write().expect("strategy should be recorded");
    for (s, row) in gs.iter().enumerate() {
        assert!(!row.is_empty());
        assert_eq!(*row.last().unwrap(), s);
    }
}

#[test]
fn render_format() {
    let gs: Vec<Vec<usize>> = vec![vec![0], vec![0, 1], vec![12, 3, 407]];
    let text: String = render_guess_seq(&gs).iter().collect();
    assert_eq!(text, "0\n0 1\n12 3 407\n");
}

#[test]
fn invalid_answers_are_skipped() {
    // a guess-only word inside the answer range is not an answer; the
    // solver works on the valid answers alone
    let words = vec!["AAAAA", "BBB", "CCCCC", "DDDDD"];
    let ws: Vec<Vec<char>> = words.iter().map(|w| w.chars().collect()).collect();
    let voc = Vocabulary::new(ws, 4, 4).expect("vocabulary should be accepted");
    let mut solver = Solver::new(&voc);
    assert_eq!(solver.all_ans, vec![0, 2, 3]);
    let best = solver.build_best_solution();
    // three answers, pairwise distinguishable in one round each
    assert!(best >= 5 && best <= 6);
    let (gs, _) = solver.write().expect("strategy should be recorded");
    assert!(gs[1].is_empty(), "the invalid answer gets no sequence");
    for &a in &[0usize, 2, 3] {
        assert_eq!(*gs[a].last().unwrap(), a);
    }
}
