use vstd::prelude::*;

verus! {

/// Some cell of the pattern holds `class`.
pub open spec fn has_class(p: Seq<u8>, class: u8) -> bool {
    exists|j: int| 0 <= j < p.len() && p[j] == class
}

/// Some cell of the pattern holds another value than `class`.
pub open spec fn has_other(p: Seq<u8>, class: u8) -> bool {
    exists|j: int| 0 <= j < p.len() && p[j] != class
}

/// Cell `k` has the highest energy among the cells of class `class`, and no
/// earlier cell of that class has as much.
pub open spec fn is_tightest_cluster(p: Seq<u8>, w: Seq<i128>, class: u8, k: int) -> bool {
    &&& 0 <= k < p.len()
    &&& p[k] == class
    &&& forall|j: int| 0 <= j < p.len() && p[j] == class ==> w[j] <= w[k]
    &&& forall|j: int| 0 <= j < k && p[j] == class ==> w[j] < w[k]
}

/// Cell `k` has the lowest energy among the cells outside class `class`, and
/// no earlier such cell has as little.
pub open spec fn is_largest_void(p: Seq<u8>, w: Seq<i128>, class: u8, k: int) -> bool {
    &&& 0 <= k < p.len()
    &&& p[k] != class
    &&& forall|j: int| 0 <= j < p.len() && p[j] != class ==> w[k] <= w[j]
    &&& forall|j: int| 0 <= j < k && p[j] != class ==> w[k] < w[j]
}

/// The cell of class `minority` with the highest energy, the first in scan
/// order among equals; `None` when no cell has that class.
pub fn find_tightest_cluster(pattern: &Vec<u8>, weights: &Vec<i128>, minority: u8) -> (r: Option<usize>)
    requires
        pattern@.len() == weights@.len(),
    ensures
        r is None <==> !has_class(pattern@, minority),
        r matches Some(k) ==> is_tightest_cluster(pattern@, weights@, minority, k as int),
{
    let mut best: Option<usize> = None;
    let mut i: usize = 0;
    while i < pattern.len()
        invariant
            pattern@.len() == weights@.len(),
            i <= pattern@.len(),
            best is None <==> forall|j: int| 0 <= j < i ==> pattern@[j] != minority,
            best matches Some(k) ==> k < i && pattern@[k as int] == minority
                && (forall|j: int| 0 <= j < i && pattern@[j] == minority ==> weights@[j] <= weights@[k as int])
                && (forall|j: int| 0 <= j < k && pattern@[j] == minority ==> weights@[j] < weights@[k as int]),
        decreases pattern@.len() - i,
    {
        if pattern[i] == minority {
            match best {
                None => {
                    best = Some(i);
                },
                Some(k) => {
                    if weights[k] < weights[i] {
                        best = Some(i);
                    }
                },
            }
        }
        i = i + 1;
    }
    best
}

/// The cell outside class `minority` with the lowest energy, the first in
/// scan order among equals; `None` when every cell has that class.
pub fn find_largest_void(pattern: &Vec<u8>, weights: &Vec<i128>, minority: u8) -> (r: Option<usize>)
    requires
        pattern@.len() == weights@.len(),
    ensures
        r is None <==> !has_other(pattern@, minority),
        r matches Some(k) ==> is_largest_void(pattern@, weights@, minority, k as int),
{
    let mut best: Option<usize> = None;
    let mut i: usize = 0;
    while i < pattern.len()
        invariant
            pattern@.len() == weights@.len(),
            i <= pattern@.len(),
            best is None <==> forall|j: int| 0 <= j < i ==> pattern@[j] == minority,
            best matches Some(k) ==> k < i && pattern@[k as int] != minority
                && (forall|j: int| 0 <= j < i && pattern@[j] != minority ==> weights@[k as int] <= weights@[j])
                && (forall|j: int| 0 <= j < k && pattern@[j] != minority ==> weights@[k as int] < weights@[j]),
        decreases pattern@.len() - i,
    {
        if pattern[i] != minority {
            match best {
                None => {
                    best = Some(i);
                },
                Some(k) => {
                    if weights[i] < weights[k] {
                        best = Some(i);
                    }
                },
            }
        }
        i = i + 1;
    }
    best
}

} // verus!
