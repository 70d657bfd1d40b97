use vstd::prelude::*;

use crate::correctness::Correctness;

verus! {

/// How many distinct masks a five-letter guess can receive.
pub const MAX_MASK_ENUM: usize = 243;

/// The base-three digit of one feedback value.
pub open spec fn digit(c: Correctness) -> nat {
    match c {
        Correctness::Correct => 0,
        Correctness::Misplaced => 1,
        Correctness::Wrong => 2,
    }
}

/// The feedback value of a base-three digit.
pub open spec fn of_digit(d: nat) -> Correctness {
    if d == 0 {
        Correctness::Correct
    } else if d == 1 {
        Correctness::Misplaced
    } else {
        Correctness::Wrong
    }
}

/// The index of a mask: its digits read in base three, first position most
/// significant.
pub open spec fn pack(m: Seq<Correctness>) -> nat
    decreases m.len(),
{
    if m.len() == 0 {
        0
    } else {
        pack(m.drop_last()) * 3 + digit(m.last())
    }
}

/// The mask of `len` positions whose index is `n`.
pub open spec fn unpack(n: nat, len: nat) -> Seq<Correctness>
    decreases len,
{
    if len == 0 {
        Seq::empty()
    } else {
        unpack(n / 3, (len - 1) as nat).push(of_digit(n % 3))
    }
}

/// Three to the power `n`.
pub open spec fn pow3(n: nat) -> nat
    decreases n,
{
    if n == 0 {
        1
    } else {
        3 * pow3((n - 1) as nat)
    }
}

proof fn lemma_pack_below(m: Seq<Correctness>)
    ensures
        pack(m) < pow3(m.len()),
    decreases m.len(),
{
    if m.len() > 0 {
        lemma_pack_below(m.drop_last());
    }
}

proof fn lemma_unpack_of_pack(m: Seq<Correctness>)
    ensures
        unpack(pack(m), m.len()) == m,
    decreases m.len(),
{
    if m.len() > 0 {
        lemma_unpack_of_pack(m.drop_last());
        let p = pack(m);
        assert(p / 3 == pack(m.drop_last()));
        assert(of_digit(p % 3) == m.last());
        assert(unpack(p, m.len()) =~= m);
    }
}

proof fn lemma_pack_of_unpack(n: nat, len: nat)
    requires
        n < pow3(len),
    ensures
        pack(unpack(n, len)) == n,
        unpack(n, len).len() == len,
    decreases len,
{
    if len > 0 {
        lemma_pack_of_unpack(n / 3, (len - 1) as nat);
        let u = unpack(n, len);
        assert(u.drop_last() =~= unpack(n / 3, (len - 1) as nat));
        assert(digit(of_digit(n % 3)) == n % 3);
    }
}

/// Every five-position mask has an index below 243, and the mask can be
/// recovered from it; so distinct masks have distinct indices.
pub proof fn lemma_pack_injective(m: Seq<Correctness>, m2: Seq<Correctness>)
    requires
        m.len() == 5,
        m2.len() == 5,
    ensures
        pack(m) < 243,
        unpack(pack(m), 5) == m,
        pack(m) == pack(m2) ==> m == m2,
{
    lemma_pack_below(m);
    lemma_unpack_of_pack(m);
    lemma_unpack_of_pack(m2);
    reveal_with_fuel(pow3, 6);
    assert(pow3(5) == 243);
}

/// Every index below 243 is the index of exactly one five-position mask.
pub proof fn lemma_index_has_mask(n: nat)
    requires
        n < 243,
    ensures
        unpack(n, 5).len() == 5,
        pack(unpack(n, 5)) == n,
        forall|m: Seq<Correctness>| m.len() == 5 && #[trigger] pack(m) == n ==> m == unpack(n, 5),
{
    reveal_with_fuel(pow3, 6);
    assert(pow3(5) == 243);
    lemma_pack_of_unpack(n, 5);
    assert forall|m: Seq<Correctness>| m.len() == 5 && #[trigger] pack(m) == n implies m
        == unpack(n, 5) by {
        lemma_unpack_of_pack(m);
    }
}

proof fn lemma_pow3_small(i: nat)
    requires
        i < 5,
    ensures
        pow3(i) <= 81,
{
    reveal_with_fuel(pow3, 6);
    if i == 0 {
    } else if i == 1 {
    } else if i == 2 {
    } else if i == 3 {
    } else {
        assert(i == 4);
    }
}

/// The index of `mask` in the fixed order of all masks.
pub fn enumerate_mask(mask: &[Correctness; 5]) -> (r: usize)
    ensures
        r == pack(mask@),
        r < MAX_MASK_ENUM,
{
    let mut acc: usize = 0;
    let mut i: usize = 0;
    while i < 5
        invariant
            0 <= i <= 5,
            acc == pack(mask@.subrange(0, i as int)),
            acc < pow3(i as nat),
        decreases 5 - i,
    {
        let d: usize = match mask[i] {
            Correctness::Correct => 0,
            Correctness::Misplaced => 1,
            Correctness::Wrong => 2,
        };
        proof {
            lemma_pow3_small(i as nat);
            let s = mask@.subrange(0, i + 1);
            assert(s.drop_last() =~= mask@.subrange(0, i as int));
        }
        acc = acc * 3 + d;
        i = i + 1;
    }
    proof {
        assert(mask@.subrange(0, 5) =~= mask@);
        reveal_with_fuel(pow3, 6);
    assert(pow3(5) == 243);
    }
    acc
}

/// All masks, each at its own index.
pub fn all_patterns() -> (r: Vec<[Correctness; 5]>)
    ensures
        r@.len() == MAX_MASK_ENUM,
        forall|n: int| 0 <= n < MAX_MASK_ENUM ==> (#[trigger] r@[n])@ == unpack(n as nat, 5),
{
    let mut r: Vec<[Correctness; 5]> = Vec::new();
    let mut n: usize = 0;
    while n < MAX_MASK_ENUM
        invariant
            0 <= n <= MAX_MASK_ENUM,
            r@.len() == n,
            forall|k: int| 0 <= k < n ==> (#[trigger] r@[k])@ == unpack(k as nat, 5),
        decreases MAX_MASK_ENUM - n,
    {
        let mut m = [Correctness::Wrong; 5];
        let mut x: usize = n;
        let mut j: usize = 5;
        while j > 0
            invariant
                0 <= j <= 5,
                unpack(n as nat, 5) == unpack(x as nat, j as nat) + m@.subrange(j as int, 5),
            decreases j,
        {
            let d = x % 3;
            let c = if d == 0 {
                Correctness::Correct
            } else if d == 1 {
                Correctness::Misplaced
            } else {
                Correctness::Wrong
            };
            let ghost old_m = m@;
            m[j - 1] = c;
            proof {
                assert(m@.subrange(j - 1, 5) =~= seq![c] + old_m.subrange(j as int, 5));
                assert(unpack(x as nat, j as nat) == unpack((x / 3) as nat, (j - 1) as nat).push(
                    c,
                ));
                assert(unpack(x as nat, j as nat) + old_m.subrange(j as int, 5) =~= unpack(
                    (x / 3) as nat,
                    (j - 1) as nat,
                ) + m@.subrange(j - 1, 5));
            }
            x = x / 3;
            j = j - 1;
        }
        proof {
            assert(m@.subrange(0, 5) =~= m@);
            assert(unpack(x as nat, 0) + m@ =~= m@);
        }
        r.push(m);
        n = n + 1;
    }
    r
}

} // verus!
