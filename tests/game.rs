use roget::Correctness::{Correct as C, Wrong as W};
use std::cell::Cell;
use std::rc::Rc;
use roget::{Guess, Guesser, Outcome, Wordle, WORD_LENGTH};

struct Always(&'static str);

impl Guesser for Always {
    fn guess(&mut self, _history: &[Guess]) -> String {
        self.0.to_string()
    }
}

struct RightAfter(usize);

impl Guesser for RightAfter {
    fn guess(&mut self, history: &[Guess]) -> String {
        if history.len() == self.0 {
            return "right".to_string();
        }
        "wrong".to_string()
    }
}

#[test]
fn genius() {
    let w = Wordle::new();
    let guesser = Always("right");
    assert_eq!(w.play("right", guesser), Some(1));
}

#[test]
fn magnificent() {
    let w = Wordle::new();
    let guesser = RightAfter(1);
    assert_eq!(w.play("right", guesser), Some(2));
}

#[test]
fn impressive() {
    let w = Wordle::new();
    let guesser = RightAfter(2);
    assert_eq!(w.play("right", guesser), Some(3));
}

#[test]
fn splendid() {
    let w = Wordle::new();
    let guesser = RightAfter(3);
    assert_eq!(w.play("right", guesser), Some(4));
}

#[test]
fn great() {
    let w = Wordle::new();
    let guesser = RightAfter(4);
    assert_eq!(w.play("right", guesser), Some(WORD_LENGTH));
}

#[test]
fn phew() {
    let w = Wordle::new();
    let guesser = RightAfter(WORD_LENGTH);
    assert_eq!(w.play("right", guesser), Some(6));
}

#[test]
fn oops() {
    let w = Wordle::new();
    let guesser = Always("wrong");
    assert_eq!(w.play("right", guesser), None);
}

#[test]
fn guess_outside_dictionary_ends_game() {
    let w = Wordle::with_dictionary(vec!["right".to_string()]);
    assert_eq!(w.play("right", Always("wrong")), None);
    assert_eq!(w.play("right", Always("right")), Some(1));
}

#[test]
fn malformed_guess_is_rejected() {
    let w = Wordle::new();
    assert_eq!(w.play("right", Always("Right")), None);
    assert_eq!(w.play("right", Always("rights")), None);
}

#[test]
fn dictionary_membership() {
    let w = Wordle::with_dictionary(vec!["crane".to_string(), "toolong".to_string()]);
    assert!(w.is_allowed("crane"));
    assert!(!w.is_allowed("slate"));
    assert!(!w.is_allowed("toolong"));
    assert!(Wordle::new().is_allowed("slate"));
    assert!(!Wordle::new().is_allowed("sl4te"));
}

#[test]
fn turn_records_feedback() {
    let w = Wordle::new();
    let mut history = Vec::new();
    assert_eq!(w.turn("right", "tight".to_string(), &mut history), Outcome::Feedback);
    assert_eq!(history.len(), 1);
    assert_eq!(history[0].word, "tight");
    assert_eq!(history[0].mask, [W, C, C, C, C]);
    assert_eq!(w.turn("right", "right".to_string(), &mut history), Outcome::Solved);
    assert_eq!(w.turn("right", "xx".to_string(), &mut history), Outcome::Rejected);
    assert_eq!(history.len(), 1);
}

struct Counted {
    word: &'static str,
    finished: Rc<Cell<Option<usize>>>,
}

impl Guesser for Counted {
    fn guess(&mut self, _history: &[Guess]) -> String {
        self.word.to_string()
    }

    fn finish(&self, guesses: usize) {
        self.finished.set(Some(guesses));
    }
}

#[test]
fn finish_is_told_whatever_the_outcome() {
    let w = Wordle::with_dictionary(vec!["right".to_string(), "wrong".to_string()]);
    let done = Rc::new(Cell::new(None));
    assert_eq!(w.play("right", Counted { word: "right", finished: done.clone() }), Some(1));
    assert_eq!(done.get(), Some(1));
    let done = Rc::new(Cell::new(None));
    assert_eq!(w.play("right", Counted { word: "wrong", finished: done.clone() }), None);
    assert_eq!(done.get(), Some(32));
    let done = Rc::new(Cell::new(None));
    assert_eq!(w.play("right", Counted { word: "tight", finished: done.clone() }), None);
    assert_eq!(done.get(), Some(1));
}
