use vstd::prelude::*;
use vstd::string::StrSliceExecFns;

verus! {

/// `p` is the position of the first space of `s`.
pub open spec fn is_first_space(s: Seq<char>, p: int) -> bool {
    &&& 0 <= p < s.len()
    &&& s[p] == ' '
    &&& forall|j: int| 0 <= j < p ==> #[trigger] s[j] != ' '
}

/// `t` is a non-empty run of decimal digits.
pub open spec fn is_digits(t: Seq<char>) -> bool {
    &&& t.len() > 0
    &&& forall|i: int| 0 <= i < t.len() ==> '0' <= #[trigger] t[i] <= '9'
}

/// The number that the decimal digits `t` spell.
pub open spec fn digits_value(t: Seq<char>) -> nat
    decreases t.len(),
{
    if t.len() == 0 {
        0
    } else {
        digits_value(t.drop_last()) * 10 + ((t.last() as int) - ('0' as int)) as nat
    }
}

/// The count field of a line whose first space is at `p`.
pub open spec fn count_field(s: Seq<char>, p: int) -> Seq<char> {
    s.subrange(p + 1, s.len() as int)
}

/// A line is well formed when its first space is followed by a count that
/// fits in a `u64`.
pub open spec fn well_formed_at(s: Seq<char>, p: int) -> bool {
    &&& is_first_space(s, p)
    &&& is_digits(count_field(s, p))
    &&& digits_value(count_field(s, p)) <= u64::MAX
}

proof fn lemma_digits_prefix(t: Seq<char>, k: int)
    requires
        0 <= k <= t.len(),
        forall|i: int| 0 <= i < t.len() ==> '0' <= #[trigger] t[i] <= '9',
    ensures
        digits_value(t.subrange(0, k)) <= digits_value(t),
    decreases t.len(),
{
    if k < t.len() {
        assert(t.drop_last().subrange(0, k) =~= t.subrange(0, k));
        lemma_digits_prefix(t.drop_last(), k);
    } else {
        assert(t.subrange(0, k) =~= t);
    }
}

/// Reads a dictionary line `<word> <count>`: the word is what precedes the
/// first space, the count the decimal digits after it. `None` when the line
/// has no space, or what follows it is not a count that fits in a `u64`.
pub fn parse_line(line: &str) -> (r: Option<(String, u64)>)
    ensures
        match r {
            Some((w, n)) => exists|p: int|
                #[trigger] well_formed_at(line@, p) && w@ == line@.subrange(0, p) && n
                    == digits_value(count_field(line@, p)),
            None => forall|p: int| !#[trigger] well_formed_at(line@, p),
        },
{
    let len = line.unicode_len();
    let mut p: usize = 0;
    while p < len
        invariant
            len == line@.len(),
            0 <= p <= len,
            forall|j: int| 0 <= j < p ==> #[trigger] line@[j] != ' ',
        ensures
            p < len ==> line@[p as int] == ' ',
            p <= len,
            forall|j: int| 0 <= j < p ==> #[trigger] line@[j] != ' ',
        decreases len - p,
    {
        if line.get_char(p) == ' ' {
            break;
        }
        p = p + 1;
    }
    if p == len {
        return None;
    }
    assert(is_first_space(line@, p as int));
    let ghost field = count_field(line@, p as int);
    proof {
        assert forall|q: int| #[trigger] is_first_space(line@, q) implies q == p by {
            if q < p {
                assert(line@[q] != ' ');
            } else if q > p {
                assert(line@[p as int] != ' ');
            }
        }
    }
    if p + 1 == len {
        return None;
    }
    let mut value: u64 = 0;
    let mut j: usize = p + 1;
    while j < len
        invariant
            len == line@.len(),
            p < j <= len,
            field == line@.subrange(p + 1, len as int),
            field == count_field(line@, p as int),
            is_first_space(line@, p as int),
            forall|q: int| #[trigger] is_first_space(line@, q) ==> q == p,
            forall|i: int| 0 <= i < j - p - 1 ==> '0' <= #[trigger] field[i] <= '9',
            value == digits_value(field.subrange(0, j - p - 1)),
        decreases len - j,
    {
        let c = line.get_char(j);
        if c < '0' || c > '9' {
            proof {
                assert(field[j - p - 1] == c);
                assert(!is_digits(field));
            }
            return None;
        }
        let d = (c as u32 - '0' as u32) as u64;
        proof {
            let pre = field.subrange(0, j - p);
            assert(pre.drop_last() =~= field.subrange(0, j - p - 1));
            assert(pre.last() == c);
        }
        if value > (u64::MAX - d) / 10 {
            proof {
                if is_digits(field) {
                    lemma_digits_prefix(field, j - p);
                }
                assert(!well_formed_at(line@, p as int));
            }
            return None;
        }
        value = value * 10 + d;
        j = j + 1;
    }
    proof {
        assert(field.subrange(0, len - p - 1) =~= field);
        assert(well_formed_at(line@, p as int));
    }
    let word = line.substring_char(0, p).to_owned();
    Some((word, value))
}

/// The sum of `counts`, or `None` when it does not fit in a `u64`.
pub fn total_count(counts: &Vec<u64>) -> (r: Option<u64>)
    ensures
        match r {
            Some(t) => t == counts@.fold_left(0int, |acc: int, c: u64| acc + c),
            None => counts@.fold_left(0int, |acc: int, c: u64| acc + c) > u64::MAX,
        },
{
    let mut total: u64 = 0;
    let mut i: usize = 0;
    while i < counts.len()
        invariant
            0 <= i <= counts@.len(),
            total == counts@.subrange(0, i as int).fold_left(0int, |acc: int, c: u64| acc + c),
        decreases counts@.len() - i,
    {
        proof {
            let pre = counts@.subrange(0, i + 1);
            assert(pre.drop_last() =~= counts@.subrange(0, i as int));
        }
        if total > u64::MAX - counts[i] {
            proof {
                lemma_sum_grows(counts@, i + 1);
            }
            return None;
        }
        total = total + counts[i];
        i = i + 1;
    }
    proof {
        assert(counts@.subrange(0, i as int) =~= counts@);
    }
    Some(total)
}

proof fn lemma_sum_grows(s: Seq<u64>, k: int)
    requires
        0 <= k <= s.len(),
    ensures
        s.subrange(0, k).fold_left(0int, |acc: int, c: u64| acc + c) <= s.fold_left(
            0int,
            |acc: int, c: u64| acc + c,
        ),
    decreases s.len(),
{
    if k < s.len() {
        assert(s.drop_last().subrange(0, k) =~= s.subrange(0, k));
        lemma_sum_grows(s.drop_last(), k);
    } else {
        assert(s.subrange(0, k) =~= s);
    }
}

/// `order` lists each position of `counts` once, by descending count, and
/// positions of equal count in their input order.
pub open spec fn is_frequency_order(counts: Seq<u64>, order: Seq<usize>) -> bool {
    &&& order.len() == counts.len()
    &&& order.no_duplicates()
    &&& forall|k: int| 0 <= k < order.len() ==> #[trigger] order[k] < counts.len()
    &&& forall|a: int, b: int|
        0 <= a < b < order.len() ==> counts[#[trigger] order[a] as int] >= counts[#[trigger] order[b] as int]
    &&& forall|a: int, b: int|
        0 <= a < b < order.len() && counts[#[trigger] order[a] as int] == counts[#[trigger] order[b] as int]
            ==> order[a] < order[b]
}

/// The positions of `counts` from the most frequent to the least, ties kept
/// in their input order.
pub fn frequency_order(counts: &Vec<u64>) -> (r: Vec<usize>)
    ensures
        is_frequency_order(counts@, r@),
{
    let mut r: Vec<usize> = Vec::new();
    let mut i: usize = 0;
    while i < counts.len()
        invariant
            0 <= i <= counts@.len(),
            is_frequency_order(counts@.subrange(0, i as int), r@),
        decreases counts@.len() - i,
    {
        let ghost pre = counts@.subrange(0, i as int);
        let ghost cur = counts@.subrange(0, i + 1);
        assert forall|k: int| 0 <= k < i implies #[trigger] cur[k] == pre[k] by {}
        let c = counts[i];
        let mut pos: usize = 0;
        while pos < r.len()
            invariant
                0 <= pos <= r@.len(),
                r@.len() == i,
                i < counts@.len(),
                c == counts@[i as int],
                is_frequency_order(pre, r@),
                pre == counts@.subrange(0, i as int),
                forall|k: int| 0 <= k < pos ==> counts@[#[trigger] r@[k] as int] >= c,
            ensures
                pos < r@.len() ==> counts@[r@[pos as int] as int] < c,
                0 <= pos <= r@.len(),
                forall|k: int| 0 <= k < pos ==> counts@[#[trigger] r@[k] as int] >= c,
            decreases r@.len() - pos,
        {
            assert(pre[r@[pos as int] as int] == counts@[r@[pos as int] as int]);
            if counts[r[pos]] < c {
                break;
            }
            pos = pos + 1;
        }
        let ghost old_r = r@;
        r.insert(pos, i);
        proof {
            assert forall|k: int| 0 <= k < old_r.len() implies #[trigger] pre[old_r[k] as int]
                == counts@[old_r[k] as int] by {}
            assert forall|k: int| pos < k < r@.len() implies counts@[#[trigger] r@[k] as int]
                < c by {
                assert(r@[k] == old_r[k - 1]);
                if k - 1 > pos {
                    assert(pre[old_r[pos as int] as int] >= pre[old_r[k - 1] as int]);
                }
            }
            assert forall|k: int| 0 <= k < r@.len() implies #[trigger] cur[r@[k] as int]
                == counts@[r@[k] as int] by {
                if k < pos {
                    assert(r@[k] == old_r[k]);
                } else if k > pos {
                    assert(r@[k] == old_r[k - 1]);
                }
            }
            assert forall|a: int, b: int| 0 <= a < b < r@.len() implies cur[#[trigger] r@[a] as int]
                >= cur[#[trigger] r@[b] as int] by {
                if b < pos {
                } else if a < pos && b == pos {
                } else if a < pos {
                    assert(r@[b] == old_r[b - 1]);
                } else if a == pos {
                } else {
                    assert(r@[a] == old_r[a - 1]);
                    assert(r@[b] == old_r[b - 1]);
                }
            }
            assert forall|a: int, b: int|
                0 <= a < b < r@.len() && cur[#[trigger] r@[a] as int] == cur[#[trigger] r@[b] as int]
                implies r@[a] < r@[b] by {
                if b < pos {
                } else if a < pos && b == pos {
                    assert(r@[a] == old_r[a]);
                } else if a < pos {
                    assert(r@[b] == old_r[b - 1]);
                } else if a == pos {
                } else {
                    assert(r@[a] == old_r[a - 1]);
                    assert(r@[b] == old_r[b - 1]);
                }
            }
            assert forall|a: int, b: int| 0 <= a < r@.len() && 0 <= b < r@.len() && a != b
                implies r@[a] != r@[b] by {
                if a != pos && b != pos {
                    let a2 = if a < pos { a } else { a - 1 };
                    let b2 = if b < pos { b } else { b - 1 };
                    assert(r@[a] == old_r[a2]);
                    assert(r@[b] == old_r[b2]);
                } else if a == pos {
                    let b2 = if b < pos { b } else { b - 1 };
                    assert(r@[b] == old_r[b2]);
                } else {
                    let a2 = if a < pos { a } else { a - 1 };
                    assert(r@[a] == old_r[a2]);
                }
            }
            assert forall|k: int| 0 <= k < r@.len() implies #[trigger] r@[k] < cur.len() by {
                if k < pos {
                    assert(r@[k] == old_r[k]);
                } else if k > pos {
                    assert(r@[k] == old_r[k - 1]);
                }
            }
        }
        i = i + 1;
    }
    proof {
        assert(counts@.subrange(0, i as int) =~= counts@);
    }
    r
}

} // verus!
