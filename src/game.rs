use vstd::prelude::*;
use vstd::string::StringSliceAdditionalSpecFns;

use crate::correctness::{admits, is_word, lemma_word_bytes, mask_of, Correctness, Guess};

verus! {

/// The most guesses one game allows before it counts as lost.
pub const MAX_TURNS: usize = 32;

/// A strategy that proposes the next word from the moves made so far.
pub trait Guesser {
    /// The next word to play, given the earlier moves of this game.
    fn guess(&mut self, history: &[Guess]) -> String;

    /// Told once, when the game ends whatever its outcome, how many guesses
    /// were made.
    fn finish(&self, guesses: usize) {
    }
}

/// What one guess leads to.
#[derive(Debug, Clone, Copy, PartialEq, Eq, Structural)]
pub enum Outcome {
    /// The guess is the hidden word.
    Solved,
    /// The guess is not a word that the game accepts.
    Rejected,
    /// The guess was recorded with its feedback.
    Feedback,
}

/// Whether `w` is one of `words`.
pub open spec fn listed(words: Seq<String>, w: Seq<char>) -> bool {
    exists|i: int| 0 <= i < words.len() && (#[trigger] words[i])@ == w
}

/// A referee: the words it accepts as guesses, and the rules of a game.
pub struct Wordle {
    dictionary: Option<Vec<String>>,
}

impl Wordle {
    /// Whether the game takes `w` as a guess.
    pub closed spec fn accepts(&self, w: Seq<char>) -> bool {
        &&& is_word(w)
        &&& match self.dictionary {
            None => true,
            Some(d) => listed(d@, w),
        }
    }

    /// A game that accepts every word of five lowercase letters.
    pub fn new() -> (r: Self)
        ensures
            forall|w: Seq<char>| #[trigger] r.accepts(w) == is_word(w),
    {
        Wordle { dictionary: None }
    }

    /// A game that accepts the five-letter lowercase words of `words` only.
    pub fn with_dictionary(words: Vec<String>) -> (r: Self)
        ensures
            forall|w: Seq<char>| #[trigger]
                r.accepts(w) == (is_word(w) && listed(words@, w)),
    {
        Wordle { dictionary: Some(words) }
    }

    /// Whether the game takes `w` as a guess.
    pub fn is_allowed(&self, w: &str) -> (r: bool)
        ensures
            r == self.accepts(w@),
    {
        if !is_lowercase_word(w) {
            return false;
        }
        match &self.dictionary {
            None => true,
            Some(d) => {
                let mut i: usize = 0;
                while i < d.len()
                    invariant
                        0 <= i <= d@.len(),
                        is_word(w@),
                        self.dictionary == Some(*d),
                        forall|k: int| 0 <= k < i ==> (#[trigger] d@[k])@ != w@,
                    decreases d@.len() - i,
                {
                    if same_word(d[i].as_str(), w) {
                        return true;
                    }
                    i = i + 1;
                }
                false
            },
        }
    }

    /// Judges one guess of a game whose hidden word is `answer`: a correct
    /// guess solves it; one the game does not accept is rejected; any other is
    /// added to `history` with the feedback it gets.
    pub fn turn(&self, answer: &str, guess: String, history: &mut Vec<Guess>) -> (r: Outcome)
        requires
            is_word(answer@),
        ensures
            r == Outcome::Solved <==> guess@ == answer@,
            r == Outcome::Rejected <==> guess@ != answer@ && !self.accepts(guess@),
            r != Outcome::Feedback ==> final(history)@ == old(history)@,
            r == Outcome::Feedback ==> {
                &&& final(history)@.len() == old(history)@.len() + 1
                &&& final(history)@.subrange(0, old(history)@.len() as int) == old(history)@
                &&& final(history)@.last().word@ == guess@
                &&& final(history)@.last().mask@ == mask_of(answer@, guess@)
            },
    {
        if same_word(guess.as_str(), answer) {
            return Outcome::Solved;
        }
        if !self.is_allowed(guess.as_str()) {
            return Outcome::Rejected;
        }
        let mask = Correctness::compute(answer, guess.as_str());
        history.push(Guess { word: guess, mask });
        proof {
            assert(final(history)@.subrange(0, old(history)@.len() as int) =~= old(history)@);
        }
        Outcome::Feedback
    }

    /// Plays one game against `guesser` with hidden word `answer`, and returns
    /// the number of the guess that found it; `None` when it was not found
    /// within the allowed turns, or a guess was not accepted. The guesser is
    /// told the number of guesses made when the game ends.
    pub fn play<G: Guesser>(&self, answer: &str, mut guesser: G) -> (r: Option<usize>)
        requires
            is_word(answer@),
        ensures
            r matches Some(i) ==> 1 <= i <= MAX_TURNS,
    {
        let mut history: Vec<Guess> = Vec::new();
        let mut i: usize = 1;
        while i <= MAX_TURNS
            invariant
                1 <= i <= MAX_TURNS + 1,
                is_word(answer@),
                forall|k: int|
                    0 <= k < history@.len() ==> admits(
                        (#[trigger] history@[k]).word@,
                        history@[k].mask@,
                        answer@,
                    ),
            decreases MAX_TURNS + 1 - i,
        {
            let guess = guesser.guess(history.as_slice());
            let ghost before = history@;
            match self.turn(answer, guess, &mut history) {
                Outcome::Solved => {
                    guesser.finish(i);
                    return Some(i);
                },
                Outcome::Rejected => {
                    guesser.finish(i);
                    return None;
                },
                Outcome::Feedback => {
                    proof {
                        assert forall|k: int| 0 <= k < history@.len() implies admits(
                            (#[trigger] history@[k]).word@,
                            history@[k].mask@,
                            answer@,
                        ) by {
                            if k < before.len() {
                                assert(history@.subrange(0, before.len() as int)[k]
                                    == history@[k]);
                            }
                        }
                    }
                },
            }
            i = i + 1;
        }
        guesser.finish(MAX_TURNS);
        None
    }
}

/// Whether `s` is five lowercase ASCII letters.
pub fn is_lowercase_word(s: &str) -> (r: bool)
    ensures
        r == is_word(s@),
{
    if !s.is_ascii() {
        proof {
            if is_word(s@) {
                assert(vstd::string::is_ascii(s));
            }
        }
        return false;
    }
    proof {
        broadcast use vstd::string::is_ascii_spec_bytes;

        assert(s.spec_bytes().len() == s@.len());
    }
    let b = s.as_bytes();
    if b.len() != 5 {
        return false;
    }
    let mut i: usize = 0;
    while i < 5
        invariant
            0 <= i <= 5,
            b@ == s.spec_bytes(),
            s@.len() == 5,
            vstd::string::is_ascii(s),
            forall|k: int| 0 <= k < s@.len() ==> b@[k] == #[trigger] s@[k] as u8,
            forall|k: int| 0 <= k < i ==> 'a' <= #[trigger] s@[k] <= 'z',
        decreases 5 - i,
    {
        if b[i] < 97u8 || b[i] > 122u8 {
            return false;
        }
        assert('\0' <= s@[i as int] <= '\u{7f}');
        i = i + 1;
    }
    true
}

/// Whether `a` is the word `b`.
fn same_word(a: &str, b: &str) -> (r: bool)
    requires
        is_word(b@),
    ensures
        r == (a@ == b@),
{
    if !is_lowercase_word(a) {
        return false;
    }
    proof {
        lemma_word_bytes(a);
        lemma_word_bytes(b);
    }
    let x = a.as_bytes();
    let y = b.as_bytes();
    let mut i: usize = 0;
    while i < 5
        invariant
            0 <= i <= 5,
            is_word(a@),
            is_word(b@),
            x@ == crate::correctness::bytes_of(a@),
            y@ == crate::correctness::bytes_of(b@),
            forall|k: int| 0 <= k < i ==> #[trigger] a@[k] == b@[k],
        decreases 5 - i,
    {
        if x[i] != y[i] {
            return false;
        }
        i = i + 1;
    }
    proof {
        assert(a@ =~= b@);
    }
    true
}

} // verus!
