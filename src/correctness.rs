use vstd::prelude::*;
use vstd::string::StringSliceAdditionalSpecFns;

verus! {

/// The feedback on one letter of a guess.
#[derive(Debug, Clone, Copy, PartialEq, Eq, Hash, PartialOrd, Ord, Structural)]
pub enum Correctness {
    /// Green
    Correct,
    /// Yellow
    Misplaced,
    /// Gray
    Wrong,
}

/// A word of the game: five lowercase ASCII letters.
pub open spec fn is_word(s: Seq<char>) -> bool {
    &&& s.len() == 5
    &&& forall|i: int| 0 <= i < s.len() ==> 'a' <= #[trigger] s[i] <= 'z'
}

/// The bytes of a word, one per letter.
pub open spec fn bytes_of(s: Seq<char>) -> Seq<u8> {
    Seq::new(s.len(), |i: int| s[i] as u8)
}

/// The bytes of a string that holds a word are its letters.
pub proof fn lemma_word_bytes(s: &str)
    requires
        is_word(s@),
    ensures
        s.spec_bytes() == bytes_of(s@),
{
    broadcast use vstd::string::is_ascii_spec_bytes;

    assert(vstd::string::is_ascii(s));
    assert(s.spec_bytes() =~= bytes_of(s@));
}

/// The number of positions `k < n` where `answer` holds `c` and the guess
/// does not match `answer`: occurrences of `c` left over after the exact
/// matches, counted in the first `n` positions.
pub open spec fn unmatched(answer: Seq<char>, guess: Seq<char>, c: char, n: int) -> nat
    decreases n,
{
    if n <= 0 {
        0
    } else {
        unmatched(answer, guess, c, n - 1) + if answer[n - 1] == c && answer[n - 1]
            != guess[n - 1] {
            1nat
        } else {
            0nat
        }
    }
}

/// The number of positions `j < n` where the guess holds `c` and does not
/// match `answer`.
pub open spec fn open_before(answer: Seq<char>, guess: Seq<char>, c: char, n: int) -> nat
    decreases n,
{
    if n <= 0 {
        0
    } else {
        open_before(answer, guess, c, n - 1) + if guess[n - 1] == c && answer[n - 1]
            != guess[n - 1] {
            1nat
        } else {
            0nat
        }
    }
}

/// The feedback at position `i`: exact matches are correct; among the other
/// positions holding a letter, the first ones (in guess order) are misplaced,
/// as many as that letter occurs unmatched in the answer; the rest are wrong.
pub open spec fn mask_at(answer: Seq<char>, guess: Seq<char>, i: int) -> Correctness {
    if answer[i] == guess[i] {
        Correctness::Correct
    } else if open_before(answer, guess, guess[i], i) < unmatched(
        answer,
        guess,
        guess[i],
        answer.len() as int,
    ) {
        Correctness::Misplaced
    } else {
        Correctness::Wrong
    }
}

/// The mask that `guess` gets when `answer` is the hidden word.
pub open spec fn mask_of(answer: Seq<char>, guess: Seq<char>) -> Seq<Correctness> {
    Seq::new(guess.len(), |i: int| mask_at(answer, guess, i))
}

/// Whether `candidate` could be the hidden word, given that `word` received
/// `mask`.
pub open spec fn admits(word: Seq<char>, mask: Seq<Correctness>, candidate: Seq<char>) -> bool {
    mask_of(candidate, word) == mask
}

/// The number of positions `k < n` that hold `c` in `answer` and are not yet
/// marked in `used`.
pub open spec fn free_count(answer: Seq<char>, used: Seq<bool>, c: char, n: int) -> nat
    decreases n,
{
    if n <= 0 {
        0
    } else {
        free_count(answer, used, c, n - 1) + if answer[n - 1] == c && !used[n - 1] {
            1nat
        } else {
            0nat
        }
    }
}

proof fn lemma_free_after_exact(answer: Seq<char>, guess: Seq<char>, used: Seq<bool>, n: int)
    requires
        0 <= n <= answer.len(),
        n <= guess.len(),
        n <= used.len(),
        forall|k: int| 0 <= k < n ==> #[trigger] used[k] == (answer[k] == guess[k]),
    ensures
        forall|c: char| #[trigger]
            free_count(answer, used, c, n) == unmatched(answer, guess, c, n),
    decreases n,
{
    if n > 0 {
        lemma_free_after_exact(answer, guess, used, n - 1);
        assert forall|c: char|
            #[trigger] free_count(answer, used, c, n) == unmatched(answer, guess, c, n) by {
            assert(free_count(answer, used, c, n - 1) == unmatched(answer, guess, c, n - 1));
        }
    } else {
        assert forall|c: char|
            #[trigger] free_count(answer, used, c, n) == unmatched(answer, guess, c, n) by {}
    }
}

proof fn lemma_free_mark(answer: Seq<char>, used: Seq<bool>, k: int, n: int)
    requires
        0 <= k < used.len(),
        used.len() == answer.len(),
        0 <= n <= used.len(),
        !used[k],
    ensures
        forall|c: char| #[trigger]
            free_count(answer, used.update(k, true), c, n) == if k < n && answer[k] == c {
                free_count(answer, used, c, n) - 1
            } else {
                free_count(answer, used, c, n) as int
            },
        k < n ==> free_count(answer, used, answer[k], n) > 0,
    decreases n,
{
    if n > 0 {
        lemma_free_mark(answer, used, k, n - 1);
        let u = used.update(k, true);
        assert(u[n - 1] == if n - 1 == k {
            true
        } else {
            used[n - 1]
        });
        assert forall|c: char| #[trigger]
            free_count(answer, u, c, n) == if k < n && answer[k] == c {
                free_count(answer, used, c, n) - 1
            } else {
                free_count(answer, used, c, n) as int
            } by {
            assert(free_count(answer, u, c, n - 1) == if k < n - 1 && answer[k] == c {
                free_count(answer, used, c, n - 1) - 1
            } else {
                free_count(answer, used, c, n - 1) as int
            });
        }
    } else {
        assert forall|c: char| #[trigger]
            free_count(answer, used.update(k, true), c, n) == free_count(answer, used, c, n) by {}
    }
}

proof fn lemma_free_zero(answer: Seq<char>, used: Seq<bool>, c: char, n: int)
    requires
        0 <= n <= answer.len(),
        n <= used.len(),
        forall|k: int| 0 <= k < n ==> !(answer[k] == c && !used[k]),
    ensures
        free_count(answer, used, c, n) == 0,
    decreases n,
{
    if n > 0 {
        lemma_free_zero(answer, used, c, n - 1);
    }
}

impl Correctness {
    /// Marks the first unused position of `answer` that holds `letter`, and
    /// tells whether there was one.
    fn is_misplaced(letter: u8, answer: &str, used: &mut [bool; 5]) -> (r: bool)
        requires
            is_word(answer@),
        ensures
            r == (free_count(answer@, old(used)@, letter as char, 5) > 0),
            r ==> exists|k: int|
                0 <= k < 5 && answer@[k] == letter as char && !old(used)@[k]
                    && final(used)@ == old(used)@.update(k, true) && forall|j: int|
                    0 <= j < k ==> !(answer@[j] == letter as char && !old(used)@[j]),
            !r ==> final(used)@ == old(used)@,
    {
        proof {
            lemma_word_bytes(answer);
        }
        let a = answer.as_bytes();
        let mut i: usize = 0;
        while i < 5
            invariant
                a@ == bytes_of(answer@),
                is_word(answer@),
                0 <= i <= 5,
                used@ == old(used)@,
                forall|k: int|
                    0 <= k < i ==> !(answer@[k] == letter as char && !used@[k]),
            decreases 5 - i,
        {
            if a[i] == letter && !used[i] {
                proof {
                    lemma_free_mark(answer@, used@, i as int, 5);
                }
                used[i] = true;
                return true;
            }
            i = i + 1;
        }
        proof {
            lemma_free_zero(answer@, used@, letter as char, 5);
        }
        false
    }

    /// The feedback that `guess` receives when `answer` is the hidden word.
    pub fn compute(answer: &str, guess: &str) -> (r: [Correctness; 5])
        requires
            is_word(answer@),
            is_word(guess@),
        ensures
            r@ == mask_of(answer@, guess@),
    {
        proof {
            lemma_word_bytes(answer);
            lemma_word_bytes(guess);
        }
        let a = answer.as_bytes();
        let g = guess.as_bytes();
        let ghost sa = answer@;
        let ghost sg = guess@;
        let mut c = [Correctness::Wrong; 5];
        let mut misplaced = [0u16; 26];
        let mut i: usize = 0;
        while i < 5
            invariant
                a@ == bytes_of(sa),
                g@ == bytes_of(sg),
                is_word(sa),
                is_word(sg),
                0 <= i <= 5,
                forall|k: int| 0 <= k < i ==> #[trigger] c@[k] == (if sa[k] == sg[k] {
                    Correctness::Correct
                } else {
                    Correctness::Wrong
                }),
                forall|k: int| i <= k < 5 ==> #[trigger] c@[k] == Correctness::Wrong,
                forall|l: int| 0 <= l < 26 ==> #[trigger] misplaced@[l] <= i,
                forall|l: int|
                    0 <= l < 26 ==> #[trigger] misplaced@[l] as int == unmatched(
                        sa,
                        sg,
                        (l + 97) as char,
                        i as int,
                    ),
            decreases 5 - i,
        {
            if a[i] == g[i] {
                c[i] = Correctness::Correct;
            } else {
                let idx = (a[i] - 97u8) as usize;
                misplaced[idx] = misplaced[idx] + 1;
            }
            i = i + 1;
        }
        let mut i: usize = 0;
        while i < 5
            invariant
                a@ == bytes_of(sa),
                g@ == bytes_of(sg),
                is_word(sa),
                is_word(sg),
                0 <= i <= 5,
                forall|k: int| 0 <= k < i ==> #[trigger] c@[k] == mask_at(sa, sg, k),
                forall|k: int| i <= k < 5 ==> #[trigger] c@[k] == (if sa[k] == sg[k] {
                    Correctness::Correct
                } else {
                    Correctness::Wrong
                }),
                forall|l: int|
                    0 <= l < 26 ==> #[trigger] misplaced@[l] as int == if open_before(
                        sa,
                        sg,
                        (l + 97) as char,
                        i as int,
                    ) < unmatched(sa, sg, (l + 97) as char, 5) {
                        unmatched(sa, sg, (l + 97) as char, 5) - open_before(
                            sa,
                            sg,
                            (l + 97) as char,
                            i as int,
                        )
                    } else {
                        0
                    },
            decreases 5 - i,
        {
            if c[i] == Correctness::Wrong {
                let idx = (g[i] - 97u8) as usize;
                if misplaced[idx] > 0 {
                    c[i] = Correctness::Misplaced;
                    misplaced[idx] = misplaced[idx] - 1;
                }
            }
            i = i + 1;
        }
        assert(c@ =~= mask_of(sa, sg));
        c
    }
}

/// A move of a game: the word that was guessed and the feedback it got.
pub struct Guess {
    pub word: String,
    pub mask: [Correctness; 5],
}

impl Guess {
    /// Whether `word` could be the hidden word, given this move; the same as
    /// comparing the mask computed against `word` with the one observed.
    pub fn matches(&self, word: &str) -> (r: bool)
        requires
            is_word(word@),
            is_word(self.word@),
        ensures
            r == admits(self.word@, self.mask@, word@),
    {
        let gw = self.word.as_str();
        proof {
            lemma_word_bytes(word);
            lemma_word_bytes(gw);
        }
        let a = word.as_bytes();
        let g = gw.as_bytes();
        let ghost sa = word@;
        let ghost sg = self.word@;
        let ghost mask = self.mask@;
        let mut used = [false; 5];
        let mut i: usize = 0;
        while i < 5
            invariant
                a@ == bytes_of(sa),
                g@ == bytes_of(sg),
                sa == word@,
                sg == self.word@,
                mask == self.mask@,
                is_word(sa),
                is_word(sg),
                0 <= i <= 5,
                forall|k: int|
                    0 <= k < i ==> (sa[k] == sg[k]) == (#[trigger] mask[k] == Correctness::Correct),
                forall|k: int| 0 <= k < i ==> #[trigger] used@[k] == (sa[k] == sg[k]),
                forall|k: int| i <= k < 5 ==> !#[trigger] used@[k],
            decreases 5 - i,
        {
            if a[i] == g[i] {
                if self.mask[i] != Correctness::Correct {
                    proof {
                        assert(mask_of(sa, sg)[i as int] != mask[i as int]);
                    }
                    return false;
                }
                used[i] = true;
            } else if self.mask[i] == Correctness::Correct {
                proof {
                    assert(mask_of(sa, sg)[i as int] != mask[i as int]);
                }
                return false;
            }
            i = i + 1;
        }
        proof {
            lemma_free_after_exact(sa, sg, used@, 5);
        }
        let mut i: usize = 0;
        while i < 5
            invariant
                a@ == bytes_of(sa),
                g@ == bytes_of(sg),
                sa == word@,
                sg == self.word@,
                mask == self.mask@,
                is_word(sa),
                is_word(sg),
                0 <= i <= 5,
                forall|k: int|
                    0 <= k < 5 ==> (sa[k] == sg[k]) == (#[trigger] mask[k] == Correctness::Correct),
                forall|k: int| 0 <= k < i ==> #[trigger] mask_of(sa, sg)[k] == mask[k],
                forall|c: char| #[trigger]
                    free_count(sa, used@, c, 5) == if open_before(sa, sg, c, i as int)
                        < unmatched(sa, sg, c, 5) {
                        unmatched(sa, sg, c, 5) - open_before(sa, sg, c, i as int)
                    } else {
                        0
                    },
            decreases 5 - i,
        {
            let ghost prev = used@;
            if self.mask[i] != Correctness::Correct {
                let found = Correctness::is_misplaced(g[i], word, &mut used);
                if found != (self.mask[i] == Correctness::Misplaced) {
                    proof {
                        assert(mask_of(sa, sg)[i as int] != mask[i as int]);
                    }
                    return false;
                }
                proof {
                    if found {
                        let k = choose|k: int|
                            0 <= k < 5 && sa[k] == g[i as int] as char && !prev[k] && used@
                                == prev.update(k, true);
                        lemma_free_mark(sa, prev, k, 5);
                    }
                    assert forall|c: char| #[trigger]
                        free_count(sa, used@, c, 5) == if open_before(sa, sg, c, i + 1)
                            < unmatched(sa, sg, c, 5) {
                            unmatched(sa, sg, c, 5) - open_before(sa, sg, c, i + 1)
                        } else {
                            0
                        } by {
                        assert(free_count(sa, prev, c, 5) == if open_before(sa, sg, c, i as int)
                            < unmatched(sa, sg, c, 5) {
                            unmatched(sa, sg, c, 5) - open_before(sa, sg, c, i as int)
                        } else {
                            0
                        });
                    }
                }
            } else {
                proof {
                    assert forall|c: char| #[trigger]
                        free_count(sa, used@, c, 5) == if open_before(sa, sg, c, i + 1)
                            < unmatched(sa, sg, c, 5) {
                            unmatched(sa, sg, c, 5) - open_before(sa, sg, c, i + 1)
                        } else {
                            0
                        } by {
                        assert(free_count(sa, prev, c, 5) == if open_before(sa, sg, c, i as int)
                            < unmatched(sa, sg, c, 5) {
                            unmatched(sa, sg, c, 5) - open_before(sa, sg, c, i as int)
                        } else {
                            0
                        });
                    }
                }
            }
            i = i + 1;
        }
        proof {
            assert(mask_of(sa, sg) =~= mask);
        }
        true
    }
}

/// The feedback depends on the two words alone: equal inputs give equal
/// masks.
pub proof fn lemma_compute_deterministic(
    answer: Seq<char>,
    guess: Seq<char>,
    answer2: Seq<char>,
    guess2: Seq<char>,
)
    requires
        answer == answer2,
        guess == guess2,
    ensures
        mask_of(answer, guess) == mask_of(answer2, guess2),
{
}

/// The hidden word is always consistent with the feedback it produced.
pub proof fn lemma_answer_admitted(word: Seq<char>, answer: Seq<char>)
    requires
        is_word(word),
        is_word(answer),
    ensures
        admits(word, mask_of(answer, word), answer),
{
}

/// A word whose mask for `word` differs from the one `answer` produced is
/// ruled out by that feedback.
pub proof fn lemma_other_mask_rejected(word: Seq<char>, answer: Seq<char>, other: Seq<char>)
    requires
        is_word(word),
        is_word(answer),
        is_word(other),
        mask_of(answer, word) != mask_of(other, word),
    ensures
        !admits(word, mask_of(answer, word), other),
{
}

} // verus!
