use wordle_pokemon::judge::ALL_CORRECT;
use wordle_pokemon::solver::Solver;
use wordle_pokemon::tree::{DecisionTree, Node, TreeError};
use wordle_pokemon::vocab::Vocabulary;

fn chars(s: &str) -> Vec<char> {
    s.chars().collect()
}

fn mk_vocab(words: &[&str], ans_until: usize, guess_until: usize) -> Vocabulary {
    let ws: Vec<Vec<char>> = words.iter().map(|w| chars(w)).collect();
    Vocabulary::new(ws, ans_until, guess_until).expect("vocabulary should be accepted")
}

fn small_words() -> Vec<&'static str> {
    vec!["ABCDE", "ABCDF", "ABCEF", "ABDEF", "ACDEF"]
}

fn solve_and_write(words: &[&str]) -> (Vocabulary, Vec<Vec<usize>>, Vec<char>) {
    let voc = mk_vocab(words, words.len(), words.len());
    let mut solver = Solver::new(&voc);
    let _ = solver.build_best_solution();
    let (gs, text) = solver.write().expect("strategy should be recorded");
    (voc, gs, text)
}

#[test]
fn parse_rejects_garbage() {
    let voc = mk_vocab(&small_words(), 5, 5);
    let r = DecisionTree::new(&chars("0 x\n"), &voc);
    assert!(matches!(r, Err(TreeError::InputMalformed)));
    let r2 = DecisionTree::new(&chars(""), &voc);
    assert!(matches!(r2, Err(TreeError::InputMalformed)));
}

#[test]
fn parse_rejects_out_of_range_index() {
    let voc = mk_vocab(&small_words(), 5, 5);
    let r = DecisionTree::new(&chars("0\n99\n"), &voc);
    assert!(matches!(r, Err(TreeError::BadBounds)));
}

#[test]
fn build_rejects_inconsistent_file() {
    // two answers whose sequences agree on round zero, but the second
    // sequence ends before its answer is identified
    let voc = mk_vocab(&small_words(), 5, 5);
    let dt = DecisionTree::new(&chars("0 1\n0\n"), &voc).expect("file parses");
    let rem: Vec<usize> = vec![0, 1];
    let r = dt.build(&rem, 0);
    assert!(matches!(r, Err(TreeError::Inconsistent)));
}

#[test]
fn build_rejects_disagreeing_prefix() {
    let voc = mk_vocab(&small_words(), 5, 5);
    let dt = DecisionTree::new(&chars("0\n1 1\n"), &voc).expect("file parses");
    let rem: Vec<usize> = vec![0, 1];
    let r = dt.build(&rem, 0);
    assert!(matches!(r, Err(TreeError::Inconsistent)));
}

/// Emit a strategy file, rebuild the tree from it, and walk the tree for
/// each secret: the walk follows exactly the emitted guesses and every
/// intermediate judge matches the judge table.
#[test]
fn round_trip_guess_sequence_file() {
    let words = small_words();
    let (voc, gs, text) = solve_and_write(&words);
    let dt = DecisionTree::new(&text, &voc).expect("emitted file parses");
    assert_eq!(dt.guess_seq, gs);
    let all: Vec<usize> = (0..words.len()).collect();
    let root = dt.build(&all, 0).expect("emitted file is consistent");
    for s in 0..words.len() {
        let mut cur: &Node = &root;
        let rounds = gs[s].len();
        for (round, &g) in gs[s].iter().enumerate() {
            match cur {
                Node::NonTerminal { guess, rem_ans, .. } => {
                    assert_eq!(*guess, g, "secret {s}, round {round}");
                    assert!(rem_ans.contains(&s));
                }
                Node::Terminal => panic!("terminal reached too early for secret {s}"),
            }
            let j = dt.judge_table.judge(&g, &s);
            if round + 1 == rounds {
                assert_eq!(j, ALL_CORRECT, "last guess identifies the secret");
                match cur.next(&j) {
                    Some(Node::Terminal) => {}
                    _ => panic!("the all-correct edge must reach a terminal"),
                }
            } else {
                assert_ne!(j, ALL_CORRECT);
                cur = cur.next(&j).expect("edge for observed judge");
            }
        }
    }
}

#[test]
fn tree_walk_by_history() {
    let words = small_words();
    let (voc, gs, text) = solve_and_write(&words);
    let dt = DecisionTree::new(&text, &voc).expect("emitted file parses");
    let all: Vec<usize> = (0..words.len()).collect();
    let root = dt.build(&all, 0).expect("emitted file is consistent");
    for s in 0..words.len() {
        // history of judges up to, but not including, the final guess
        let mut history: Vec<usize> = Vec::new();
        for &g in gs[s].iter().take(gs[s].len() - 1) {
            history.push(dt.judge_table.judge(&g, &s));
        }
        let node = DecisionTree::next(&root, &history).expect("history stays inside the tree");
        match node {
            Node::NonTerminal { guess, .. } => assert_eq!(*guess, s),
            Node::Terminal => panic!("walk must end before the terminal"),
        }
    }
}

// --- A minimal JSON reader for the emitted subset: objects with string ---
// --- keys, string or number values, and nested objects.                ---

#[derive(Debug, Clone)]
enum JsonVal {
    Str(String),
    Num(u64),
    Obj(Vec<(String, JsonVal)>),
}

struct Reader<'a> {
    cs: &'a [char],
    pos: usize,
}

impl<'a> Reader<'a> {
    fn peek(&self) -> char {
        self.cs[self.pos]
    }

    fn eat(&mut self, c: char) {
        assert_eq!(self.cs[self.pos], c, "at {}", self.pos);
        self.pos += 1;
    }

    fn string(&mut self) -> String {
        self.eat('"');
        let mut s = String::new();
        while self.peek() != '"' {
            s.push(self.peek());
            self.pos += 1;
        }
        self.eat('"');
        s
    }

    fn value(&mut self) -> JsonVal {
        match self.peek() {
            '{' => {
                self.eat('{');
                let mut fields = Vec::new();
                if self.peek() == '}' {
                    self.eat('}');
                    return JsonVal::Obj(fields);
                }
                loop {
                    let key = self.string();
                    self.eat(':');
                    let v = self.value();
                    fields.push((key, v));
                    if self.peek() == ',' {
                        self.eat(',');
                    } else {
                        break;
                    }
                }
                self.eat('}');
                JsonVal::Obj(fields)
            }
            '"' => JsonVal::Str(self.string()),
            _ => {
                let mut n: u64 = 0;
                while self.pos < self.cs.len() && self.peek().is_ascii_digit() {
                    n = n * 10 + self.peek() as u64 - '0' as u64;
                    self.pos += 1;
                }
                JsonVal::Num(n)
            }
        }
    }
}

fn obj_get<'a>(v: &'a JsonVal, key: &str) -> Option<&'a JsonVal> {
    match v {
        JsonVal::Obj(fields) => fields.iter().find(|(k, _)| k == key).map(|(_, v)| v),
        _ => None,
    }
}

fn judge_string(j: usize) -> String {
    (0..5).map(|i| char::from_digit(((j >> (2 * i)) & 0b11) as u32, 10).unwrap()).collect()
}

/// The decision-tree JSON, parsed and re-walked, reproduces every secret's
/// guess sequence.
#[test]
fn round_trip_json() {
    let words = small_words();
    let (voc, gs, text) = solve_and_write(&words);
    let dt = DecisionTree::new(&text, &voc).expect("emitted file parses");
    let all: Vec<usize> = (0..words.len()).collect();
    let root = dt.build(&all, 0).expect("emitted file is consistent");
    let mut out: Vec<char> = Vec::new();
    root.write(&voc.words, &mut out);
    let mut reader = Reader { cs: &out, pos: 0 };
    let json = reader.value();
    assert_eq!(reader.pos, out.len(), "the whole text is one JSON value");
    for s in 0..words.len() {
        let mut cur = json.clone();
        let rounds = gs[s].len();
        for (round, &g) in gs[s].iter().enumerate() {
            let word: String = words[g].to_string();
            match obj_get(&cur, "guess") {
                Some(JsonVal::Str(w)) => assert_eq!(*w, word, "secret {s}, round {round}"),
                _ => panic!("non-terminal must list its guess"),
            }
            match obj_get(&cur, "rem") {
                Some(JsonVal::Num(_)) => {}
                _ => panic!("non-terminal must list its candidate count"),
            }
            let j = dt.judge_table.judge(&g, &s);
            let edges = obj_get(&cur, "edges").expect("non-terminal lists edges");
            let next = obj_get(edges, &judge_string(j));
            if round + 1 == rounds {
                assert_eq!(j, ALL_CORRECT);
                match next {
                    Some(JsonVal::Obj(fields)) => assert!(fields.is_empty(), "terminal is empty"),
                    _ => panic!("the all-correct edge must be present"),
                }
            } else {
                cur = next.expect("edge for observed judge").clone();
            }
        }
    }
}

#[test]
fn terminal_json_is_empty_object() {
    let voc = mk_vocab(&small_words(), 5, 5);
    let mut out: Vec<char> = Vec::new();
    Node::Terminal.write(&voc.words, &mut out);
    let s: String = out.iter().collect();
    assert_eq!(s, "{}");
}
