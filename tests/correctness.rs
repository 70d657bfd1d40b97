use roget::Correctness;
use roget::Correctness::{Correct as C, Misplaced as M, Wrong as W};
use roget::{all_patterns, enumerate_mask, Guess, MAX_MASK_ENUM};

#[test]
fn all_green() {
    assert_eq!(Correctness::compute("abcde", "abcde"), [C, C, C, C, C]);
}

#[test]
fn all_gray() {
    assert_eq!(Correctness::compute("abcde", "fghij"), [W, W, W, W, W]);
}

#[test]
fn all_yellow() {
    assert_eq!(Correctness::compute("abcde", "eabcd"), [M, M, M, M, M]);
}

#[test]
fn repeat_green() {
    assert_eq!(Correctness::compute("aabbb", "aaccc"), [C, C, W, W, W]);
}

#[test]
fn repeat_yellow() {
    assert_eq!(Correctness::compute("aabbb", "ccaac"), [W, W, M, M, W]);
}

#[test]
fn repeat_some_green() {
    assert_eq!(Correctness::compute("aabbb", "caacc"), [W, C, M, W, W]);
}

#[test]
fn repeat_letter_in_guess_against_answer() {
    assert_eq!(Correctness::compute("azzaz", "aaabb"), [C, M, W, W, W]);
}

#[test]
fn repeat_letter_matched_once() {
    assert_eq!(Correctness::compute("baccc", "aaddd"), [W, C, W, W, W]);
}

#[test]
fn repeat_letter_beside_match() {
    assert_eq!(Correctness::compute("abcde", "aacde"), [C, W, C, C, C]);
}

#[test]
fn compute_is_repeatable() {
    let a = Correctness::compute("crane", "nacre");
    let b = Correctness::compute("crane", "nacre");
    assert_eq!(a, b);
    assert_eq!(a, [M, M, M, M, C]);
}

fn guess(word: &str, mask: [Correctness; 5]) -> Guess {
    Guess { word: word.to_string(), mask }
}

#[test]
fn answer_matches_its_own_feedback() {
    let words = ["aabbb", "ccaac", "caacc", "crane", "nacre", "right", "wrong", "azzaz", "aaabb"];
    for w in words {
        for a in words {
            let g = guess(w, Correctness::compute(a, w));
            assert!(g.matches(a), "{} {}", w, a);
        }
    }
}

#[test]
fn other_feedback_rules_out() {
    let words = ["aabbb", "ccaac", "caacc", "crane", "nacre", "right", "wrong", "azzaz", "aaabb"];
    for w in words {
        for a in words {
            for b in words {
                let g = guess(w, Correctness::compute(a, w));
                let same = Correctness::compute(a, w) == Correctness::compute(b, w);
                assert_eq!(g.matches(b), same, "{} {} {}", w, a, b);
            }
        }
    }
}

#[test]
fn matches_examples() {
    assert!(guess("abcde", [C, C, C, C, C]).matches("abcde"));
    assert!(!guess("abcdf", [C, C, C, C, C]).matches("abcde"));
    assert!(guess("abcde", [W, W, W, W, W]).matches("fghij"));
    assert!(guess("abcde", [M, M, M, M, M]).matches("eabcd"));
    assert!(guess("baaaa", [W, C, M, W, W]).matches("aaccc"));
    assert!(!guess("baaaa", [W, C, M, W, W]).matches("caacc"));
    assert!(guess("aaabb", [C, M, W, W, W]).matches("azzaz"));
    assert!(!guess("aaabb", [C, M, M, W, W]).matches("azzaz"));
}

#[test]
fn pattern_count() {
    assert_eq!(MAX_MASK_ENUM, 243);
    assert_eq!(all_patterns().len(), 243);
}

#[test]
fn patterns_are_inverse_of_enumeration() {
    let patterns = all_patterns();
    for (i, p) in patterns.iter().enumerate() {
        assert_eq!(enumerate_mask(p), i);
    }
    for a in 0..patterns.len() {
        for b in (a + 1)..patterns.len() {
            assert_ne!(patterns[a], patterns[b]);
        }
    }
}

#[test]
fn enumeration_values() {
    assert_eq!(enumerate_mask(&[C, C, C, C, C]), 0);
    assert_eq!(enumerate_mask(&[C, C, C, C, M]), 1);
    assert_eq!(enumerate_mask(&[C, C, C, M, C]), 3);
    assert_eq!(enumerate_mask(&[M, C, C, C, C]), 81);
    assert_eq!(enumerate_mask(&[W, W, W, W, W]), 242);
    assert_eq!(all_patterns()[0], [C, C, C, C, C]);
    assert_eq!(all_patterns()[5], [C, C, C, M, W]);
    assert_eq!(all_patterns()[242], [W, W, W, W, W]);
}
