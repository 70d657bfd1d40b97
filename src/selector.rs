use vstd::prelude::*;

use crate::correctness::{admits, is_word, mask_of, Correctness, Guess};
use crate::pattern::{enumerate_mask, pack};

verus! {

/// The fewest candidates that one search evaluates as guesses.
pub const MIN_SEARCH: usize = 20;

/// What the selector does on a turn.
#[derive(Debug, Clone, Copy, PartialEq, Eq, Structural)]
pub enum Plan {
    /// No move yet: play the fixed opening word.
    Opening,
    /// No word is consistent with the feedback so far.
    NoCandidate,
    /// Score the first `n` candidates of the pool and play the best.
    Search(usize),
}

/// Every entry of `words` is a word of the game.
pub open spec fn all_words(words: Seq<String>) -> bool {
    forall|i: int| 0 <= i < words.len() ==> is_word(#[trigger] words[i]@)
}

/// The positions below `n` of the words that `word` and `mask` admit, in
/// increasing order.
pub open spec fn admitted(
    words: Seq<String>,
    word: Seq<char>,
    mask: Seq<Correctness>,
    n: int,
) -> Seq<usize>
    decreases n,
{
    if n <= 0 {
        Seq::empty()
    } else if admits(word, mask, words[n - 1]@) {
        admitted(words, word, mask, n - 1).push((n - 1) as usize)
    } else {
        admitted(words, word, mask, n - 1)
    }
}

/// How many candidates a search evaluates in a pool of `pool_size` words.
pub open spec fn search_len_spec(pool_size: int) -> int {
    if pool_size / 3 > MIN_SEARCH {
        pool_size / 3
    } else {
        MIN_SEARCH as int
    }
}

/// How many candidates a search evaluates in a non-empty pool of
/// `pool_size` words: the search length, or the whole pool if smaller.
pub open spec fn searched(pool_size: int) -> int {
    if search_len_spec(pool_size) < pool_size {
        search_len_spec(pool_size)
    } else {
        pool_size
    }
}

/// The positions of the words of the pool that stay candidates after the
/// move `last`, in pool order.
pub fn consistent_indices(words: &Vec<String>, last: &Guess) -> (r: Vec<usize>)
    requires
        all_words(words@),
        is_word(last.word@),
    ensures
        r@ == admitted(words@, last.word@, last.mask@, words@.len() as int),
{
    let mut r: Vec<usize> = Vec::new();
    let mut i: usize = 0;
    while i < words.len()
        invariant
            0 <= i <= words@.len(),
            all_words(words@),
            is_word(last.word@),
            r@ == admitted(words@, last.word@, last.mask@, i as int),
        decreases words@.len() - i,
    {
        if last.matches(words[i].as_str()) {
            r.push(i);
        }
        i = i + 1;
    }
    r
}

/// For each word of the pool, the index of the mask that `guess` would get
/// if that word were the hidden one.
pub fn mask_indices(words: &Vec<String>, guess: &str) -> (r: Vec<usize>)
    requires
        all_words(words@),
        is_word(guess@),
    ensures
        r@.len() == words@.len(),
        forall|k: int|
            0 <= k < words@.len() ==> #[trigger] r@[k] == pack(mask_of(words@[k]@, guess@)),
        forall|k: int| 0 <= k < words@.len() ==> #[trigger] r@[k] < 243,
{
    let mut r: Vec<usize> = Vec::new();
    let mut i: usize = 0;
    while i < words.len()
        invariant
            0 <= i <= words@.len(),
            all_words(words@),
            is_word(guess@),
            r@.len() == i,
            forall|k: int|
                0 <= k < i ==> #[trigger] r@[k] == pack(mask_of(words@[k]@, guess@)),
            forall|k: int| 0 <= k < i ==> #[trigger] r@[k] < 243,
        decreases words@.len() - i,
    {
        let mask = Correctness::compute(words[i].as_str(), guess);
        r.push(enumerate_mask(&mask));
        i = i + 1;
    }
    r
}

/// How many candidates, taken in pool order, one search evaluates: a third
/// of the pool, but at least `MIN_SEARCH`.
pub fn search_len(pool_size: usize) -> (r: usize)
    ensures
        r == search_len_spec(pool_size as int),
{
    let third = pool_size / 3;
    if third > MIN_SEARCH {
        third
    } else {
        MIN_SEARCH
    }
}

/// Decides the kind of a turn from the number of moves so far and the size
/// of the pool after the last one was applied.
pub fn plan(turns_so_far: usize, pool_size: usize) -> (r: Plan)
    ensures
        turns_so_far == 0 ==> r == Plan::Opening,
        turns_so_far > 0 && pool_size == 0 ==> r == Plan::NoCandidate,
        turns_so_far > 0 && pool_size > 0 ==> r == Plan::Search(
            searched(pool_size as int) as usize,
        ),
{
    if turns_so_far == 0 {
        Plan::Opening
    } else if pool_size == 0 {
        Plan::NoCandidate
    } else {
        let n = search_len(pool_size);
        if n < pool_size {
            Plan::Search(n)
        } else {
            Plan::Search(pool_size)
        }
    }
}

/// The pool after a move holds exactly the words that the feedback admits,
/// so it never grows.
pub proof fn lemma_admitted_members(
    words: Seq<String>,
    word: Seq<char>,
    mask: Seq<Correctness>,
    n: int,
)
    requires
        0 <= n <= words.len(),
        words.len() <= usize::MAX,
    ensures
        forall|k: int|
            0 <= k < admitted(words, word, mask, n).len() ==> {
                let j = #[trigger] admitted(words, word, mask, n)[k];
                j < n && admits(word, mask, words[j as int]@)
            },
        forall|j: int|
            0 <= j < n && admits(word, mask, #[trigger] words[j]@) ==> admitted(
                words,
                word,
                mask,
                n,
            ).contains(j as usize),
        admitted(words, word, mask, n).len() <= n,
    decreases n,
{
    if n > 0 {
        lemma_admitted_members(words, word, mask, n - 1);
        let prev = admitted(words, word, mask, n - 1);
        if admits(word, mask, words[n - 1]@) {
            let cur = prev.push((n - 1) as usize);
            assert(cur[prev.len() as int] == (n - 1) as usize);
            assert forall|k: int| 0 <= k < cur.len() implies {
                let j = #[trigger] cur[k];
                j < n && admits(word, mask, words[j as int]@)
            } by {
                if k < prev.len() {
                    assert(cur[k] == prev[k]);
                }
            }
            assert forall|j: int|
                0 <= j < n && admits(word, mask, #[trigger] words[j]@) implies prev.push(
                (n - 1) as usize,
            ).contains(j as usize) by {
                if j < n - 1 {
                    let t = choose|t: int| 0 <= t < prev.len() && prev[t] == j as usize;
                    assert(prev.push((n - 1) as usize)[t] == j as usize);
                } else {
                    assert(prev.push((n - 1) as usize)[prev.len() as int] == j as usize);
                }
            }
        }
    }
}

/// The fixed first guess of every game.
pub fn opening_word() -> (r: String)
    ensures
        r@ == seq!['t', 'a', 'r', 'e', 's'],
        is_word(r@),
{
    proof {
        reveal_strlit("tares");
    }
    "tares".to_owned()
}

/// With one candidate left, a search evaluates exactly that candidate.
pub proof fn lemma_sole_candidate_searched()
    ensures
        searched(1) == 1,
{
}

} // verus!
