use wordle_pokemon::judge::{judge_words, JudgeTable, Status, ALL_CORRECT, NUM_JUDGES};
use wordle_pokemon::vocab::{Vocabulary, VocabError};

fn chars(s: &str) -> Vec<char> {
    s.chars().collect()
}

fn mk_vocab(words: &[&str], ans_until: usize, guess_until: usize) -> Vocabulary {
    let ws: Vec<Vec<char>> = words.iter().map(|w| chars(w)).collect();
    Vocabulary::new(ws, ans_until, guess_until).expect("vocabulary should be accepted")
}

fn ten_words() -> Vec<&'static str> {
    vec![
        "AAAAA", "BBBBB", "CCCCC", "DDDDD", "EEEEE", "ABCDE", "BCDEA", "CDEAB", "DEABC", "EABCD",
    ]
}

#[test]
fn status_codes() {
    assert_eq!(Status::Nowhere.code(), 0);
    assert_eq!(Status::Wrong.code(), 1);
    assert_eq!(Status::Correct.code(), 2);
}

#[test]
fn all_correct_value() {
    // trit two at each of the five base-four positions
    assert_eq!(ALL_CORRECT, 2 + 8 + 32 + 128 + 512);
    assert_eq!(NUM_JUDGES, ALL_CORRECT + 1);
}

#[test]
fn self_judge_is_all_correct() {
    let words = ten_words();
    let voc = mk_vocab(&words, words.len(), words.len());
    let table = JudgeTable::new(&voc);
    for i in 0..words.len() {
        assert_eq!(table.judge(&i, &i), ALL_CORRECT);
    }
}

#[test]
fn judge_duplicate_letter_in_guess() {
    // guess = "AABCD", answer = "AEXYZ": position 0 Exact; position 1 Absent
    // because the answer's only A is already used; the rest Absent.
    let g = chars("AABCD");
    let a = chars("AEXYZ");
    let j = judge_words(&g, &a);
    assert_eq!(j, 2);
    // per-position digits: 2,0,0,0,0
    for (pos, want) in [(0usize, 2usize), (1, 0), (2, 0), (3, 0), (4, 0)] {
        let digit = (j / 4usize.pow(pos as u32)) % 4;
        assert_eq!(digit, want);
    }
}

#[test]
fn judge_misplaced_pairs_leftmost() {
    // guess = "EABCD" against answer = "ABCDE": no exact position, every
    // character of the guess occurs somewhere in the answer.
    let g = chars("EABCD");
    let a = chars("ABCDE");
    let j = judge_words(&g, &a);
    for pos in 0..5 {
        let digit = (j / 4usize.pow(pos as u32)) % 4;
        assert_eq!(digit, 1, "position {pos}");
    }
}

#[test]
fn judge_is_deterministic() {
    let words = ten_words();
    let voc = mk_vocab(&words, words.len(), words.len());
    let t1 = JudgeTable::new(&voc);
    let voc2 = mk_vocab(&words, words.len(), words.len());
    let t2 = JudgeTable::new(&voc2);
    for a in 0..words.len() {
        for g in 0..words.len() {
            assert_eq!(t1.judge(&g, &a), t2.judge(&g, &a));
            assert_eq!(t1.judge(&g, &a), t1.judge(&g, &a));
            assert!(t1.judge(&g, &a) < NUM_JUDGES);
        }
    }
}

#[test]
fn judge_digits_in_range() {
    let words = ten_words();
    let voc = mk_vocab(&words, words.len(), words.len());
    let table = JudgeTable::new(&voc);
    for a in 0..words.len() {
        for g in 0..words.len() {
            let j = table.judge(&g, &a);
            for pos in 0..5 {
                let digit = (j / 4usize.pow(pos as u32)) % 4;
                assert!(digit <= 2);
            }
        }
    }
}

#[test]
fn partition_completeness() {
    let words = ten_words();
    let n = words.len();
    let voc = mk_vocab(&words, n, n);
    let table = JudgeTable::new(&voc);
    let all: Vec<usize> = (0..n).collect();
    for g in 0..n {
        let part = table.partition(&all, &g);
        let total: usize = part.buckets.iter().map(|b| b.len()).sum();
        // the guess itself is dropped from its all-Correct bucket
        assert_eq!(total, n - 1, "guess {g}");
        assert_eq!(part.buckets[ALL_CORRECT].len(), 0);
        // no bucket holds the guess
        for b in part.buckets.iter() {
            assert!(!b.contains(&g));
        }
    }
    // a guess outside the candidate set drops nothing
    let some: Vec<usize> = vec![0, 1, 2];
    let part = table.partition(&some, &5);
    let total: usize = part.buckets.iter().map(|b| b.len()).sum();
    assert_eq!(total, 3);
}

#[test]
fn vocabulary_getters() {
    let words = ten_words();
    let voc = mk_vocab(&words, 4, words.len());
    assert_eq!(voc.len(), words.len());
    assert_eq!(voc.word(5), &chars("ABCDE"));
    assert!(voc.valid_answer(0));
    assert!(!voc.valid_answer(4), "beyond ans_until");
    assert!(voc.valid_guess(9));
    assert!(!voc.valid_guess(10));
}

#[test]
fn vocabulary_rejects_bad_bounds() {
    let ws: Vec<Vec<char>> = vec![chars("AAAAA")];
    assert!(matches!(Vocabulary::new(ws, 2, 1), Err(VocabError::BadBounds)));
    let ws2: Vec<Vec<char>> = vec![chars("AAAAA")];
    assert!(matches!(Vocabulary::new(ws2, 1, 2), Err(VocabError::BadBounds)));
}

#[test]
fn vocabulary_rejects_long_word() {
    let ws: Vec<Vec<char>> = vec![chars("AAAAA"), chars("BBBBBB")];
    assert!(matches!(Vocabulary::new(ws, 2, 2), Err(VocabError::WordTooLong)));
}

#[test]
fn vocabulary_rejects_duplicate_word() {
    let ws: Vec<Vec<char>> = vec![chars("AAAAA"), chars("AAAAA")];
    assert!(matches!(Vocabulary::new(ws, 2, 2), Err(VocabError::DuplicateWord)));
}

#[test]
fn vocabulary_accepts_short_guess_word() {
    // guess-only words may have fewer than five characters
    let ws: Vec<Vec<char>> = vec![chars("AAAAA"), chars("BBB")];
    let voc = Vocabulary::new(ws, 1, 2).expect("short guess words are legal");
    assert!(voc.valid_guess(1));
    assert!(!voc.valid_answer(1));
}
