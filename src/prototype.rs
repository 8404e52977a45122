use vstd::prelude::*;
use crate::torus::valid_width;
use crate::energy::{
    bounded, covers, updated, update_weights, zero_field, field_cap, energy_limit, lemma_updated_bounded,
    is_field_of, lemma_zero_field, lemma_updated_field, weight, field_at, total, lemma_total_update,
    lemma_field_at_range, lemma_field_at_add,
};
use crate::potential::{
    bits, potential, index_weight, lemma_potential_cell, lemma_index_weight_cell, lemma_potential_shift,
    lemma_potential_nonneg, lemma_index_weight_nonneg,
};
use crate::search::{is_tightest_cluster, is_largest_void, find_tightest_cluster, find_largest_void};
use crate::pattern::{is_binary, count_of, lemma_count_update, lemma_count_zeros};

verus! {

/// A binary pattern together with the energy field built alongside it.
pub struct Prototype {
    pub pattern: Vec<u8>,
    pub weights: Vec<i128>,
}

impl Prototype {
    /// Both grids cover the `width` x `width` torus, the pattern is binary and
    /// the energies stay within the field's cap.
    pub open spec fn wf(&self, width: u32) -> bool {
        &&& valid_width(width)
        &&& self.pattern@.len() == width * width
        &&& self.weights@.len() == width * width
        &&& is_binary(self.pattern@)
        &&& bounded(self.weights@, field_cap())
    }

    /// Removing the tightest cluster and then filling the largest void puts
    /// back the very cell that was removed, or there is nothing to remove.
    pub open spec fn converged(&self, width: u32, kernel: Seq<u32>) -> bool {
        count_of(self.pattern@, 1) == 0 || exists|c: int|
            is_tightest_cluster(self.pattern@, self.weights@, 1, c)
            && #[trigger] is_largest_void(
                self.pattern@.update(c, 0),
                updated(self.weights@, kernel, width as int, c, -1),
                1,
                c,
            )
    }
}

/// How many times cell `j` occurs among the draws.
pub open spec fn draws(points: Seq<usize>, j: int) -> nat
    decreases points.len(),
{
    if points.len() == 0 {
        0
    } else {
        draws(points.drop_last(), j) + if points.last() == j { 1nat } else { 0nat }
    }
}

/// The units that a pattern built from `points` carries in its field: one
/// for each set cell, and one more for each repeated draw of a cell.
pub open spec fn units(pattern: Seq<u8>, points: Seq<usize>) -> Seq<int> {
    Seq::new(pattern.len(), |j: int| pattern[j] as int + extra(points, j))
}

/// `p` is a prototype built from the draws `points`: well formed and
/// converged, with one set cell for each distinct draw, and its field is the
/// kernel sum over the set cells plus one unit for each repeated draw.
pub open spec fn is_prototype_of(p: Prototype, width: u32, kernel: Seq<u32>, points: Seq<usize>) -> bool {
    &&& p.wf(width)
    &&& p.converged(width, kernel)
    &&& count_of(p.pattern@, 1) <= points.len()
    &&& is_field_of(p.weights@, units(p.pattern@, points), kernel, width as int)
    &&& total(units(p.pattern@, points), (width * width) as nat) == points.len()
}

/// A zero pattern of `n` cells.
pub fn zero_pattern(n: usize) -> (r: Vec<u8>)
    ensures
        r@ == Seq::new(n as nat, |j: int| 0u8),
{
    let mut v: Vec<u8> = Vec::new();
    let mut i: usize = 0;
    while i < n
        invariant
            i <= n,
            v@ == Seq::new(i as nat, |j: int| 0u8),
        decreases n - i,
    {
        v.push(0);
        i = i + 1;
        assert(v@ =~= Seq::new(i as nat, |j: int| 0u8));
    }
    v
}

/// Builds the initial binary pattern: sets each of `points` (a cell may come
/// more than once, and then adds its kernel again), then swaps the tightest
/// cluster for the largest void until a swap puts back the cell it took.
///
/// This always ends: a swap that moves a cell lowers the pairwise energy of
/// the pattern, or keeps it and moves a set cell to an earlier index.
pub fn build_prototype(width: u32, kernel: &Vec<u32>, points: &Vec<usize>) -> (p: Prototype)
    requires
        valid_width(width),
        covers(kernel@, width as int),
        forall|t: int| 0 <= t < points@.len() ==> #[trigger] points@[t] < width * width,
    ensures
        is_prototype_of(p, width, kernel@, points@),
{
    let n = (width * width) as usize;
    let mut pattern = zero_pattern(n);
    let mut weights = zero_field(n);
    let ghost kmax = u32::MAX as int;
    let np = points.len();
    proof {
        assert(np <= usize::MAX);
        lemma_count_zeros(n as nat, 1);
        lemma_zero_field(weights@, kernel@, width as int);
        assert(Seq::new(n as nat, |j: int| 0int) =~= Seq::new(n as nat, |j: int| draws(points@.subrange(0, 0), j) as int));
        lemma_total_zero(n as nat, n as nat);
        assert(points@.len() * kmax <= 0x1_0000_0000_0000_0000 * kmax) by (nonlinear_arith)
            requires points@.len() <= 0x1_0000_0000_0000_0000, kmax >= 0;
    }
    let mut t: usize = 0;
    while t < points.len()
        invariant
            valid_width(width),
            covers(kernel@, width as int),
            n == width * width,
            forall|s: int| 0 <= s < points@.len() ==> #[trigger] points@[s] < width * width,
            t <= points@.len(),
            pattern@.len() == n,
            weights@.len() == n,
            is_binary(pattern@),
            count_of(pattern@, 1) <= t,
            kmax == u32::MAX,
            bounded(weights@, t * kmax),
            points@.len() * kmax <= 0x1_0000_0000_0000_0000 * kmax,
            forall|j: int| 0 <= j < n ==>
                #[trigger] pattern@[j] == if draws(points@.subrange(0, t as int), j) > 0 { 1u8 } else { 0u8 },
            is_field_of(weights@, Seq::new(n as nat, |j: int| draws(points@.subrange(0, t as int), j) as int), kernel@, width as int),
            total(Seq::new(n as nat, |j: int| draws(points@.subrange(0, t as int), j) as int), n as nat) == t,
        decreases points@.len() - t,
    {
        let idx = points[t];
        let ghost m = Seq::new(n as nat, |j: int| draws(points@.subrange(0, t as int), j) as int);
        let ghost m1 = Seq::new(n as nat, |j: int| draws(points@.subrange(0, t + 1), j) as int);
        proof {
            assert(points@.subrange(0, t + 1).drop_last() =~= points@.subrange(0, t as int));
            assert(m1 =~= m.update(idx as int, m[idx as int] + 1));
            assert(points@[t as int] < width * width);
            lemma_count_update(pattern@, idx as int, 1, 1);
            assert(t * kmax + kmax <= points@.len() * kmax) by (nonlinear_arith)
                requires t < points@.len(), kmax >= 0;
            lemma_updated_bounded(weights@, kernel@, width as int, idx as int, 1, t * kmax);
            lemma_updated_field(weights@, m, kernel@, width as int, idx as int, 1);
            lemma_total_update(m, n as nat, idx as int, 1);
        }
        let ghost before = pattern@;
        pattern.set(idx, 1);
        update_weights(&mut weights, width, kernel, idx, 1);
        t = t + 1;
        proof {
            assert((t - 1) * kmax + kmax == t * kmax) by (nonlinear_arith);
            assert forall|j: int| 0 <= j < n implies
                #[trigger] pattern@[j] == if draws(points@.subrange(0, t as int), j) > 0 { 1u8 } else { 0u8 } by {
                assert(points@.subrange(0, t as int).drop_last() =~= points@.subrange(0, t - 1));
                if j != idx {
                    assert(pattern@[j] == before[j]);
                }
            }
        }
    }
    proof {
        assert(points@.subrange(0, t as int) =~= points@);
        assert(Seq::new(n as nat, |j: int| draws(points@.subrange(0, t as int), j) as int) =~= units(pattern@, points@));
    }
    let ghost e = Seq::new(n as nat, |j: int| extra(points@, j));
    let ghost g = Seq::new(n as nat, |i: int| field_at(e, kernel@, width as int, i, n as nat));
    proof {
        lemma_extra_field_nonneg(e, g, kernel@, width as int, n as nat);
        assert(points@.len() * kmax + 2 * kmax <= energy_limit()) by (nonlinear_arith)
            requires points@.len() * kmax <= 0x1_0000_0000_0000_0000 * kmax, kmax == u32::MAX;
    }
    loop
        invariant
            valid_width(width),
            covers(kernel@, width as int),
            n == width * width,
            pattern@.len() == n,
            weights@.len() == n,
            is_binary(pattern@),
            count_of(pattern@, 1) <= points@.len(),
            kmax == u32::MAX,
            points@.len() * kmax + 2 * kmax <= energy_limit(),
            points@.len() * kmax <= field_cap(),
            e == Seq::new(n as nat, |j: int| extra(points@, j)),
            g == Seq::new(n as nat, |i: int| field_at(e, kernel@, width as int, i, n as nat)),
            forall|i: int| 0 <= i < n ==> #[trigger] g[i] >= 0,
            is_field_of(weights@, units(pattern@, points@), kernel@, width as int),
            total(units(pattern@, points@), n as nat) == points@.len(),
            bounded(weights@, points@.len() * kmax),
        decreases
            potential(bits(pattern@), weights@, g, n as nat),
            index_weight(bits(pattern@), n as nat),
    {
        let c = match find_tightest_cluster(&pattern, &weights, 1) {
            Some(c) => c,
            None => {
                proof {
                    if count_of(pattern@, 1) > 0 {
                        crate::pattern::lemma_count_witness(pattern@, 1);
                    }
                }
                return Prototype { pattern, weights };
            },
        };
        let ghost pat_start = pattern@;
        let ghost w0 = weights@;
        let ghost u0 = units(pat_start, points@);
        proof {
            lemma_count_update(pattern@, c as int, 0, 1);
            lemma_updated_bounded(weights@, kernel@, width as int, c as int, -1, points@.len() * kmax);
            lemma_updated_field(weights@, u0, kernel@, width as int, c as int, -1);
            lemma_total_update(u0, n as nat, c as int, -1);
            assert(u0.update(c as int, u0[c as int] - 1) =~= units(pat_start.update(c as int, 0), points@));
        }
        pattern.set(c, 0);
        update_weights(&mut weights, width, kernel, c, -1);
        proof {
            assert(pattern@[c as int] != 1);
        }
        let v = match find_largest_void(&pattern, &weights, 1) {
            Some(v) => v,
            None => c,
        };
        let ghost pat_mid = pattern@;
        let ghost w1 = weights@;
        let ghost u1 = units(pat_mid, points@);
        proof {
            lemma_count_update(pattern@, v as int, 1, 1);
            lemma_updated_bounded(weights@, kernel@, width as int, v as int, 1, points@.len() * kmax + kmax);
            lemma_updated_field(weights@, u1, kernel@, width as int, v as int, 1);
            lemma_total_update(u1, n as nat, v as int, 1);
            assert(u1.update(v as int, u1[v as int] + 1) =~= units(pat_mid.update(v as int, 1), points@));
        }
        pattern.set(v, 1);
        update_weights(&mut weights, width, kernel, v, 1);
        proof {
            lemma_units_field_bounded(weights@, units(pattern@, points@), kernel@, width as int, n as nat);
        }
        if c == v {
            proof {
                assert(pattern@ =~= pat_start);
                assert(weights@ =~= w0);
                assert(updated(weights@, kernel@, width as int, c as int, -1) =~= w1);
                assert(pat_mid =~= pat_start.update(c as int, 0));
                assert(is_tightest_cluster(pattern@, weights@, 1, c as int));
                assert(is_largest_void(pattern@.update(c as int, 0), updated(weights@, kernel@, width as int, c as int, -1), 1, c as int));
            }
            return Prototype { pattern, weights };
        }
        proof {
            lemma_swap_lowers_potential(pat_start, pat_mid, pattern@, w0, w1, weights@, e, g, points@, kernel@, width as int, c as int, v as int);
            lemma_units_field_bounded(w0, u0, kernel@, width as int, n as nat);
            lemma_potential_nonneg(bits(pat_start), w0, g, n as nat);
            lemma_potential_nonneg(bits(pattern@), weights@, g, n as nat);
            lemma_index_weight_nonneg(bits(pat_start), n as nat);
            lemma_index_weight_nonneg(bits(pattern@), n as nat);
        }
    }
}

/// Extra units of a cell: one for each draw of it beyond the first.
pub open spec fn extra(points: Seq<usize>, j: int) -> int {
    if draws(points, j) > 0 { draws(points, j) - 1 } else { 0 }
}

proof fn lemma_total_zero(n: nat, len: nat)
    requires
        len <= n,
    ensures
        total(Seq::new(n, |j: int| 0int), len) == 0,
    decreases len,
{
    if len > 0 {
        lemma_total_zero(n, (len - 1) as nat);
    }
}

proof fn lemma_extra_field_nonneg(e: Seq<int>, g: Seq<int>, kernel: Seq<u32>, width: int, n: nat)
    requires
        e.len() == n,
        g.len() == n,
        forall|j: int| 0 <= j < n ==> #[trigger] e[j] >= 0,
        forall|i: int| 0 <= i < n ==> #[trigger] g[i] == field_at(e, kernel, width, i, n),
    ensures
        forall|i: int| 0 <= i < n ==> #[trigger] g[i] >= 0,
{
    assert forall|i: int| 0 <= i < n implies #[trigger] g[i] >= 0 by {
        lemma_field_at_range(e, kernel, width, i, n);
    }
}

proof fn lemma_units_field_bounded(w: Seq<i128>, u: Seq<int>, kernel: Seq<u32>, width: int, n: nat)
    requires
        u.len() == n,
        is_field_of(w, u, kernel, width),
        forall|j: int| 0 <= j < n ==> #[trigger] u[j] >= 0,
    ensures
        bounded(w, total(u, n) * u32::MAX),
        forall|i: int| 0 <= i < n ==> #[trigger] w[i] >= 0,
{
    assert forall|i: int| 0 <= i < w.len() implies -(total(u, n) * u32::MAX) <= #[trigger] w[i] <= total(u, n) * u32::MAX by {
        lemma_field_at_range(u, kernel, width, i, n);
    }
    assert forall|i: int| 0 <= i < n implies #[trigger] w[i] >= 0 by {
        lemma_field_at_range(u, kernel, width, i, n);
    }
}

/// A swap that moves a cell lowers the potential, or keeps it and moves the
/// set cell to an earlier index.
proof fn lemma_swap_lowers_potential(
    pat_start: Seq<u8>,
    pat_mid: Seq<u8>,
    pat_end: Seq<u8>,
    w0: Seq<i128>,
    w1: Seq<i128>,
    w2: Seq<i128>,
    e: Seq<int>,
    g: Seq<int>,
    points: Seq<usize>,
    kernel: Seq<u32>,
    width: int,
    c: int,
    v: int,
)
    requires
        width >= 1,
        pat_start.len() == width * width,
        w0.len() == width * width,
        0 <= c < width * width,
        0 <= v < width * width,
        c != v,
        is_binary(pat_start),
        pat_start[c] == 1,
        pat_mid == pat_start.update(c, 0),
        pat_end == pat_mid.update(v, 1),
        w1.len() == width * width,
        w2.len() == width * width,
        forall|i: int| 0 <= i < width * width ==> #[trigger] w1[i] == w0[i] - weight(kernel, width, i, c),
        forall|i: int| 0 <= i < width * width ==> #[trigger] w2[i] == w1[i] + weight(kernel, width, i, v),
        is_largest_void(pat_mid, w1, 1, v),
        e == Seq::new((width * width) as nat, |j: int| extra(points, j)),
        g == Seq::new((width * width) as nat, |i: int| field_at(e, kernel, width, i, (width * width) as nat)),
        is_field_of(w0, units(pat_start, points), kernel, width),
        is_field_of(w1, units(pat_mid, points), kernel, width),
    ensures
        potential(bits(pat_end), w2, g, (width * width) as nat) < potential(bits(pat_start), w0, g, (width * width) as nat)
            || (potential(bits(pat_end), w2, g, (width * width) as nat) == potential(bits(pat_start), w0, g, (width * width) as nat)
                && index_weight(bits(pat_end), (width * width) as nat) < index_weight(bits(pat_start), (width * width) as nat)),
{
    let n = (width * width) as nat;
    let o0 = bits(pat_start);
    let o1 = bits(pat_mid);
    let o2 = bits(pat_end);
    assert(o1 =~= o0.update(c, o0[c] - 1));
    assert(o2 =~= o1.update(v, o1[v] + 1));
    // Removing the cluster.
    lemma_potential_cell(o0, w1, g, n, c, -1);
    lemma_potential_shift(o0, w0, w1, g, kernel, width, c, -1, n);
    assert forall|j: int| 0 <= j < n implies #[trigger] units(pat_start, points)[j] == o0[j] + e[j] by {}
    lemma_field_at_add(o0, e, units(pat_start, points), kernel, width, c, n);
    // Filling the void.
    lemma_potential_cell(o1, w2, g, n, v, 1);
    lemma_potential_shift(o1, w1, w2, g, kernel, width, v, 1, n);
    assert forall|j: int| 0 <= j < n implies #[trigger] units(pat_mid, points)[j] == o1[j] + e[j] by {}
    lemma_field_at_add(o1, e, units(pat_mid, points), kernel, width, v, n);
    lemma_index_weight_cell(o0, n, c, -1);
    lemma_index_weight_cell(o1, n, v, 1);
    let k0 = weight(kernel, width, c, c);
    assert(weight(kernel, width, v, v) == k0);
    assert(w1[c] == w0[c] - k0);
    assert(w2[v] == w1[v] + k0);
    assert(pat_mid[c] != 1);
    assert(w1[v] <= w1[c]);
    if w1[v] == w1[c] {
        assert(!(c < v));
    }
}

} // verus!
