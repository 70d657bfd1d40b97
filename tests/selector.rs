use roget::frequency::{frequency_order, parse_line, total_count};
use roget::selector::{consistent_indices, mask_indices, opening_word, plan, search_len, Plan};
use roget::Correctness::{Correct as C, Misplaced as M, Wrong as W};
use roget::{enumerate_mask, Correctness, Guess};

fn pool(words: &[&str]) -> Vec<String> {
    words.iter().map(|w| w.to_string()).collect()
}

#[test]
fn filter_keeps_consistent_words_in_order() {
    let words = pool(&["crane", "right", "tight", "night", "fight", "wrong"]);
    let last = Guess { word: "tight".to_string(), mask: Correctness::compute("right", "tight") };
    assert_eq!(consistent_indices(&words, &last), vec![1, 3, 4]);
}

#[test]
fn filter_can_empty_the_pool() {
    let words = pool(&["crane", "slate"]);
    let last = Guess { word: "crane".to_string(), mask: [C, C, C, C, M] };
    assert_eq!(consistent_indices(&words, &last), Vec::<usize>::new());
}

#[test]
fn buckets_follow_masks() {
    let words = pool(&["right", "tight", "wrong"]);
    let idx = mask_indices(&words, "tight");
    assert_eq!(idx.len(), 3);
    assert_eq!(idx[0], enumerate_mask(&[W, C, C, C, C]));
    assert_eq!(idx[1], 0);
    assert_eq!(idx[2], enumerate_mask(&Correctness::compute("wrong", "tight")));
    assert_eq!(idx[2], enumerate_mask(&[W, W, M, W, W]));
    assert_eq!(idx[2], 233);
}

#[test]
fn cutoff_sizes() {
    assert_eq!(search_len(0), 20);
    assert_eq!(search_len(60), 20);
    assert_eq!(search_len(63), 21);
    assert_eq!(search_len(12972), 4324);
}

#[test]
fn turn_plans() {
    assert_eq!(plan(0, 12972), Plan::Opening);
    assert_eq!(plan(2, 0), Plan::NoCandidate);
    assert_eq!(plan(1, 1), Plan::Search(1));
    assert_eq!(plan(1, 10), Plan::Search(10));
    assert_eq!(plan(1, 300), Plan::Search(100));
}

#[test]
fn opening() {
    assert_eq!(opening_word(), "tares");
}

#[test]
fn parse_dictionary_lines() {
    assert_eq!(parse_line("tares 1234"), Some(("tares".to_string(), 1234)));
    assert_eq!(parse_line("aahed 0"), Some(("aahed".to_string(), 0)));
    assert_eq!(parse_line("tares"), None);
    assert_eq!(parse_line("tares "), None);
    assert_eq!(parse_line("tares 12x"), None);
    assert_eq!(parse_line("tares 1 2"), None);
    assert_eq!(parse_line("tares 18446744073709551615"), Some(("tares".to_string(), u64::MAX)));
    assert_eq!(parse_line("tares 18446744073709551616"), None);
}

#[test]
fn totals() {
    assert_eq!(total_count(&vec![]), Some(0));
    assert_eq!(total_count(&vec![1, 2, 3]), Some(6));
    assert_eq!(total_count(&vec![u64::MAX, 1]), None);
}

#[test]
fn descending_stable_order() {
    assert_eq!(frequency_order(&vec![5, 9, 5, 1, 9]), vec![1, 4, 0, 2, 3]);
    assert_eq!(frequency_order(&vec![]), Vec::<usize>::new());
    assert_eq!(frequency_order(&vec![3, 3, 3]), vec![0, 1, 2]);
}
