use vstd::prelude::*;
use crate::search::{has_class, has_other};

verus! {

/// Every cell of the pattern holds 0 or 1.
pub open spec fn is_binary(p: Seq<u8>) -> bool {
    forall|j: int| 0 <= j < p.len() ==> #[trigger] p[j] <= 1
}

/// Number of cells of the pattern that hold `v`.
pub open spec fn count_of(p: Seq<u8>, v: u8) -> nat
    decreases p.len(),
{
    if p.len() == 0 {
        0
    } else {
        count_of(p.drop_last(), v) + if p.last() == v { 1nat } else { 0nat }
    }
}

pub proof fn lemma_count_bound(p: Seq<u8>, v: u8)
    ensures
        count_of(p, v) <= p.len(),
    decreases p.len(),
{
    if p.len() > 0 {
        lemma_count_bound(p.drop_last(), v);
    }
}

/// Setting one cell changes the count by what left and what came.
pub proof fn lemma_count_update(p: Seq<u8>, i: int, x: u8, v: u8)
    requires
        0 <= i < p.len(),
    ensures
        count_of(p.update(i, x), v) + (if p[i] == v { 1int } else { 0int })
            == count_of(p, v) + (if x == v { 1int } else { 0int }),
    decreases p.len(),
{
    let q = p.update(i, x);
    if i == p.len() - 1 {
        assert(q.drop_last() =~= p.drop_last());
    } else {
        assert(q.drop_last() =~= p.drop_last().update(i, x));
        lemma_count_update(p.drop_last(), i, x, v);
    }
}

/// A positive count has a witness.
pub proof fn lemma_count_witness(p: Seq<u8>, v: u8)
    requires
        count_of(p, v) > 0,
    ensures
        has_class(p, v),
    decreases p.len(),
{
    if p.last() == v {
        assert(p[p.len() - 1] == v);
    } else {
        lemma_count_witness(p.drop_last(), v);
        let j = choose|j: int| 0 <= j < p.drop_last().len() && p.drop_last()[j] == v;
        assert(p[j] == v);
    }
}

/// A count below the length leaves some other cell.
pub proof fn lemma_count_other(p: Seq<u8>, v: u8)
    requires
        count_of(p, v) < p.len(),
    ensures
        has_other(p, v),
    decreases p.len(),
{
    if p.last() != v {
        assert(p[p.len() - 1] != v);
    } else {
        lemma_count_other(p.drop_last(), v);
        let j = choose|j: int| 0 <= j < p.drop_last().len() && p.drop_last()[j] != v;
        assert(p[j] != v);
    }
}

/// A zero count has no witness.
pub proof fn lemma_count_none(p: Seq<u8>, v: u8)
    requires
        count_of(p, v) == 0,
    ensures
        forall|j: int| 0 <= j < p.len() ==> p[j] != v,
    decreases p.len(),
{
    if p.len() > 0 {
        lemma_count_none(p.drop_last(), v);
        assert forall|j: int| 0 <= j < p.len() implies p[j] != v by {
            if j < p.len() - 1 {
                assert(p.drop_last()[j] == p[j]);
            }
        }
    }
}

/// A full count leaves no other cell.
pub proof fn lemma_count_full(p: Seq<u8>, v: u8)
    requires
        count_of(p, v) == p.len(),
    ensures
        forall|j: int| 0 <= j < p.len() ==> p[j] == v,
    decreases p.len(),
{
    if p.len() > 0 {
        lemma_count_bound(p.drop_last(), v);
        lemma_count_full(p.drop_last(), v);
        assert forall|j: int| 0 <= j < p.len() implies p[j] == v by {
            if j < p.len() - 1 {
                assert(p.drop_last()[j] == p[j]);
            }
        }
    }
}

/// The count of the all-zero pattern.
pub proof fn lemma_count_zeros(n: nat, v: u8)
    ensures
        count_of(Seq::new(n, |j: int| 0u8), v) == if v == 0 { n } else { 0 },
    decreases n,
{
    if n > 0 {
        assert(Seq::new(n, |j: int| 0u8).drop_last() =~= Seq::new((n - 1) as nat, |j: int| 0u8));
        lemma_count_zeros((n - 1) as nat, v);
    }
}

/// Number of cells set in the pattern.
pub fn popcount(pattern: &Vec<u8>) -> (r: usize)
    ensures
        r == count_of(pattern@, 1),
{
    let mut c: usize = 0;
    let mut i: usize = 0;
    while i < pattern.len()
        invariant
            i <= pattern@.len(),
            c == count_of(pattern@.subrange(0, i as int), 1),
            c <= i,
        decreases pattern@.len() - i,
    {
        proof {
            let s = pattern@.subrange(0, i as int + 1);
            assert(s.drop_last() =~= pattern@.subrange(0, i as int));
        }
        if pattern[i] == 1 {
            c = c + 1;
        }
        i = i + 1;
    }
    proof {
        assert(pattern@.subrange(0, i as int) =~= pattern@);
    }
    c
}

} // verus!
