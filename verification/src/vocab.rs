use vstd::prelude::*;

verus! {

/// Index of a word that may be a secret.
pub type Answer = usize;

/// Index of a word that may be played.
pub type Guess = usize;

/// The views of a list of words.
pub open spec fn word_views(ws: Seq<Vec<char>>) -> Seq<Seq<char>> {
    ws.map_values(|w: Vec<char>| w@)
}

/// Upper bound on the number of words a vocabulary may hold.  It keeps every
/// score the search computes far below `INFTY`, so score arithmetic cannot
/// overflow.
pub const MAX_WORDS: usize = 10000;

/// Why a word list was rejected.
#[derive(Clone, Copy, PartialEq, Eq, Structural, Debug)]
pub enum VocabError {
    /// The bounds do not satisfy `ans_until <= guess_until <= words.len() <= MAX_WORDS`.
    BadBounds,
    /// A word inside the guess range has more than five characters.
    WordTooLong,
    /// Two words inside the guess range are identical.
    DuplicateWord,
}

/// An indexed, immutable word list, with the two bounds that carve out the
/// answer set and the guess set.  Index `i` is the sole identity of a word.
pub struct Vocabulary {
    pub words: Vec<Vec<char>>,
    pub ans_until: usize,
    pub guess_until: usize,
}

impl Vocabulary {
    /// The vocabulary invariant: bounds are ordered, every guessable word has
    /// at most five characters, and no two guessable words are identical.
    pub open spec fn wf(self) -> bool {
        &&& self.ans_until <= self.guess_until
        &&& self.guess_until <= self.words@.len()
        &&& self.words@.len() <= MAX_WORDS
        &&& forall|i: int| 0 <= i < self.guess_until ==> (#[trigger] self.words@[i])@.len() <= 5
        &&& forall|i: int, j: int|
            #![trigger self.words@[i], self.words@[j]]
            0 <= i < self.guess_until && 0 <= j < self.guess_until && i != j
                ==> self.words@[i]@ != self.words@[j]@
    }

    /// Answer `i` is valid when it lies below `ans_until` and its word has
    /// exactly five characters.
    pub open spec fn spec_valid_answer(self, i: int) -> bool {
        0 <= i < self.ans_until && self.words@[i]@.len() == 5
    }

    pub open spec fn spec_valid_guess(self, i: int) -> bool {
        0 <= i < self.guess_until
    }

    pub fn len(&self) -> (n: usize)
        ensures
            n == self.words@.len(),
    {
        self.words.len()
    }

    pub fn word(&self, i: usize) -> (w: &Vec<char>)
        requires
            i < self.words@.len(),
        ensures
            w == self.words@[i as int],
    {
        &self.words[i]
    }

    pub fn valid_answer(&self, i: usize) -> (r: bool)
        requires
            i < self.words@.len(),
        ensures
            r == self.spec_valid_answer(i as int),
    {
        i < self.ans_until && self.words[i].len() == 5
    }

    pub fn valid_guess(&self, i: usize) -> (r: bool)
        ensures
            r == self.spec_valid_guess(i as int),
    {
        i < self.guess_until
    }

    /// Builds a vocabulary after checking the invariant at run time, so that
    /// unchecked input can be turned into a well-formed word list.
    pub fn new(words: Vec<Vec<char>>, ans_until: usize, guess_until: usize) -> (r: Result<
        Vocabulary,
        VocabError,
    >)
        ensures
            r matches Ok(v) ==> {
                &&& v.words@ == words@
                &&& v.ans_until == ans_until
                &&& v.guess_until == guess_until
                &&& v.wf()
            },
            !(ans_until <= guess_until && guess_until <= words@.len() && words@.len() <= MAX_WORDS)
                <==> r == Err::<Vocabulary, VocabError>(VocabError::BadBounds),
            (ans_until <= guess_until && guess_until <= words@.len() && words@.len() <= MAX_WORDS
                && !(forall|i: int| 0 <= i < guess_until ==> (#[trigger] words@[i])@.len() <= 5))
                <==> r == Err::<Vocabulary, VocabError>(VocabError::WordTooLong),
            r is Ok <==> (Vocabulary { words, ans_until, guess_until }).wf(),
    {
        if !(ans_until <= guess_until && guess_until <= words.len() && words.len() <= MAX_WORDS) {
            return Err(VocabError::BadBounds);
        }
        let mut i: usize = 0;
        while i < guess_until
            invariant
                ans_until <= guess_until,
                guess_until <= words@.len(),
                words@.len() <= MAX_WORDS,
                forall|k: int| 0 <= k < i ==> (#[trigger] words@[k])@.len() <= 5,
            decreases guess_until - i,
        {
            if words[i].len() > 5 {
                proof {
                    assert(!(forall|k: int|
                        0 <= k < guess_until ==> (#[trigger] words@[k])@.len() <= 5)) by {
                        assert(words@[i as int]@.len() > 5);
                    }
                }
                return Err(VocabError::WordTooLong);
            }
            i += 1;
        }
        let mut i: usize = 0;
        while i < guess_until
            invariant
                ans_until <= guess_until,
                guess_until <= words@.len(),
                words@.len() <= MAX_WORDS,
                forall|k: int| 0 <= k < guess_until ==> (#[trigger] words@[k])@.len() <= 5,
                forall|p: int, q: int|
                    #![trigger words@[p], words@[q]]
                    0 <= p < i && 0 <= q < guess_until && p != q ==> words@[p]@ != words@[q]@,
            decreases guess_until - i,
        {
            let mut j: usize = i + 1;
            while j < guess_until
                invariant
                    i < j <= guess_until,
                    ans_until <= guess_until,
                    guess_until <= words@.len(),
                    words@.len() <= MAX_WORDS,
                    forall|k: int| 0 <= k < guess_until ==> (#[trigger] words@[k])@.len() <= 5,
                    forall|q: int| i < q < j ==> words@[i as int]@ != (#[trigger] words@[q])@,
                decreases guess_until - j,
            {
                if chars_eq(&words[i], &words[j]) {
                    proof {
                        assert(!(forall|p: int, q: int|
                            #![trigger words@[p], words@[q]]
                            0 <= p < guess_until && 0 <= q < guess_until && p != q ==> words@[p]@
                                != words@[q]@)) by {
                            assert(words@[i as int]@ == words@[j as int]@ && i != j);
                        }
                    }
                    return Err(VocabError::DuplicateWord);
                }
                j += 1;
            }
            i += 1;
        }
        Ok(Vocabulary { words, ans_until, guess_until })
    }
}

/// Character-wise equality of two words.
pub fn chars_eq(a: &Vec<char>, b: &Vec<char>) -> (r: bool)
    ensures
        r == (a@ == b@),
{
    if a.len() != b.len() {
        assert(a@ != b@) by {
            assert(a@.len() != b@.len());
        }
        return false;
    }
    let mut i: usize = 0;
    while i < a.len()
        invariant
            a@.len() == b@.len(),
            i <= a@.len(),
            forall|k: int| 0 <= k < i ==> a@[k] == b@[k],
        decreases a@.len() - i,
    {
        if a[i] != b[i] {
            return false;
        }
        i += 1;
    }
    proof {
        assert(a@ =~= b@);
    }
    true
}

} // verus!
