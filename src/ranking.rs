use vstd::prelude::*;
use crate::torus::valid_width;
use crate::energy::{
    bounded, covers, update_weights, zero_field, field_cap, lemma_updated_bounded,
    is_field_of, lemma_zero_field, lemma_updated_field, field_at, weight, lemma_field_at_update,
    lemma_field_at_zero,
};
use crate::search::{is_tightest_cluster, is_largest_void};
use crate::search::{find_tightest_cluster, find_largest_void};
use crate::pattern::{
    is_binary, count_of, popcount, lemma_count_update, lemma_count_witness, lemma_count_other,
    lemma_count_none, lemma_count_full, lemma_count_bound,
};
use crate::prototype::Prototype;

verus! {

/// Some cell has rank `r`.
pub open spec fn has_rank(ranks: Seq<u32>, r: int) -> bool {
    exists|i: int| 0 <= i < ranks.len() && ranks[i] == r
}

/// Every cell has a rank below the cell count, and each such rank belongs to
/// exactly one cell.
pub open spec fn is_rank_permutation(ranks: Seq<u32>) -> bool {
    &&& forall|i: int| 0 <= i < ranks.len() ==> #[trigger] ranks[i] < ranks.len()
    &&& forall|i: int, j: int|
        0 <= i < ranks.len() && 0 <= j < ranks.len() && i != j ==> #[trigger] ranks[i] != #[trigger] ranks[j]
    &&& forall|r: int| 0 <= r < ranks.len() ==> #[trigger] has_rank(ranks, r)
}

/// The first rank given to a cluster of empty cells: half the grid, or the
/// prototype's count if that is larger.
pub open spec fn phase3_start(ones: int, n: int) -> int {
    if ones > n / 2 { ones } else { n / 2 }
}

/// `inv` maps each rank below `hi` to the cell that holds it, and every
/// cell set in `pat` holds a rank below `hi` that maps back to it.
pub open spec fn ranked_below(ranks: Seq<u32>, inv: Seq<int>, pat: Seq<u8>, hi: int) -> bool {
    &&& forall|r: int| 0 <= r < hi ==> 0 <= #[trigger] inv[r] < ranks.len() && ranks[inv[r]] == r && pat[inv[r]] == 1
    &&& forall|j: int| 0 <= j < ranks.len() && pat[j] == 1 ==> #[trigger] ranks[j] < hi && inv[ranks[j] as int] == j
}

/// The cells of `pat` that are set and ranked below `r`.
pub open spec fn set_before(pat: Seq<u8>, ranks: Seq<u32>, r: int) -> Seq<u8> {
    Seq::new(pat.len(), |j: int| if pat[j] == 1 && ranks[j] < r { 1u8 } else { 0u8 })
}

/// The cells ranked below `r`.
pub open spec fn ranked_under(ranks: Seq<u32>, r: int) -> Seq<u8> {
    Seq::new(ranks.len(), |j: int| if ranks[j] < r { 1u8 } else { 0u8 })
}

/// One unit at each cell of `pat` that is set and ranked in `[lo, hi)`.
pub open spec fn band(pat: Seq<u8>, ranks: Seq<u32>, lo: int, hi: int) -> Seq<int> {
    Seq::new(pat.len(), |j: int| if pat[j] == 1 && lo <= ranks[j] < hi { 1int } else { 0int })
}

/// One unit at each cell ranked in `[lo, hi)`.
pub open spec fn rank_band(ranks: Seq<u32>, lo: int, hi: int) -> Seq<int> {
    Seq::new(ranks.len(), |j: int| if lo <= ranks[j] < hi { 1int } else { 0int })
}

/// The field `w` with `sign` times the field of the units `m` added.
pub open spec fn shifted(w: Seq<i128>, m: Seq<int>, sign: int, kernel: Seq<u32>, width: int) -> Seq<i128> {
    Seq::new(w.len(), |i: int| (w[i] + sign * field_at(m, kernel, width, i, m.len())) as i128)
}

/// The cells set in `proto_pat` and ranked at most `r`.
pub open spec fn kept_upto(proto_pat: Seq<u8>, ranks: Seq<u32>, r: int) -> Seq<u8> {
    Seq::new(proto_pat.len(), |k: int| if proto_pat[k] == 1 && ranks[k] <= r { 1u8 } else { 0u8 })
}

/// One unit at each cell set in `proto_pat` and ranked above `r`.
pub open spec fn gone_above(proto_pat: Seq<u8>, ranks: Seq<u32>, r: int) -> Seq<int> {
    Seq::new(proto_pat.len(), |k: int| if proto_pat[k] == 1 && ranks[k] > r { 1int } else { 0int })
}

/// Cell `j` was the tightest cluster among the cells of `proto_pat` ranked at most
/// its rank, in the field `w0` less the cells of `proto_pat` ranked above it.
pub open spec fn removal_record(proto_pat: Seq<u8>, ranks: Seq<u32>, w0: Seq<i128>, kernel: Seq<u32>, width: int, j: int) -> bool {
    is_tightest_cluster(
        kept_upto(proto_pat, ranks, ranks[j] as int),
        shifted(w0, gone_above(proto_pat, ranks, ranks[j] as int), -1, kernel, width),
        1,
        j,
    )
}

/// The field of one unit at each empty cell of `p`.
pub open spec fn empty_energy(p: Seq<u8>, kernel: Seq<u32>, width: int) -> Seq<i128> {
    Seq::new(p.len(), |i: int| field_at(empty_cells(p), kernel, width, i, p.len()) as i128)
}

/// One unit at each empty cell of the pattern.
pub open spec fn empty_cells(p: Seq<u8>) -> Seq<int> {
    Seq::new(p.len(), |j: int| if p[j] == 0 { 1int } else { 0int })
}

/// The field made by adding the kernel once at every empty cell.
pub fn complement_field(pattern: &Vec<u8>, width: u32, kernel: &Vec<u32>) -> (w: Vec<i128>)
    requires
        valid_width(width),
        covers(kernel@, width as int),
        pattern@.len() == width * width,
    ensures
        w@.len() == width * width,
        bounded(w@, (width * width) * u32::MAX),
        is_field_of(w@, empty_cells(pattern@), kernel@, width as int),
{
    let n = (width * width) as usize;
    let ghost kmax = u32::MAX as int;
    proof {
        assert(n * kmax <= 0x1_0000_0000 * kmax) by (nonlinear_arith)
            requires n <= 0x1_0000_0000, kmax >= 0;
    }
    let mut weights = zero_field(n);
    proof {
        lemma_zero_field(weights@, kernel@, width as int);
        assert(Seq::new(n as nat, |j: int| 0int) =~= Seq::new(n as nat, |j: int| if j < 0 && pattern@[j] == 0 { 1int } else { 0int }));
    }
    let mut i: usize = 0;
    while i < n
        invariant
            valid_width(width),
            covers(kernel@, width as int),
            n == width * width,
            pattern@.len() == n,
            weights@.len() == n,
            kmax == u32::MAX,
            n * kmax <= 0x1_0000_0000 * kmax,
            i <= n,
            bounded(weights@, i * kmax),
            is_field_of(weights@, Seq::new(n as nat, |j: int| if j < i && pattern@[j] == 0 { 1int } else { 0int }), kernel@, width as int),
        decreases n - i,
    {
        let ghost m = Seq::new(n as nat, |j: int| if j < i && pattern@[j] == 0 { 1int } else { 0int });
        let ghost m1 = Seq::new(n as nat, |j: int| if j < i + 1 && pattern@[j] == 0 { 1int } else { 0int });
        proof {
            assert(i * kmax <= n * kmax) by (nonlinear_arith)
                requires i <= n, kmax >= 0;
        }
        if pattern[i] == 0 {
            proof {
                lemma_updated_bounded(weights@, kernel@, width as int, i as int, 1, i * kmax);
                lemma_updated_field(weights@, m, kernel@, width as int, i as int, 1);
                assert(m.update(i as int, m[i as int] + 1) =~= m1);
            }
            update_weights(&mut weights, width, kernel, i, 1);
        } else {
            proof {
                assert(m =~= m1);
            }
        }
        proof {
            assert(i * kmax + kmax == (i + 1) * kmax) by (nonlinear_arith);
            assert(bounded(weights@, (i + 1) * kmax));
        }
        i = i + 1;
    }
    proof {
        assert(Seq::new(n as nat, |j: int| if j < i && pattern@[j] == 0 { 1int } else { 0int }) =~= empty_cells(pattern@));
    }
    weights
}

fn copy_of<T: Copy>(v: &Vec<T>) -> (r: Vec<T>)
    ensures
        r@ == v@,
{
    let mut out: Vec<T> = Vec::new();
    let mut i: usize = 0;
    while i < v.len()
        invariant
            i <= v@.len(),
            out@ == v@.subrange(0, i as int),
        decreases v@.len() - i,
    {
        out.push(v[i]);
        i = i + 1;
        assert(out@ =~= v@.subrange(0, i as int));
    }
    assert(out@ =~= v@);
    out
}

/// `ranks` ranks every cell once, and each rank is the choice that the phase
/// owning it makes: the prototype's set cells are removed tightest cluster
/// first with the ranks below its count, then the largest voids take the
/// ranks up to half the grid, then the tightest clusters of empty cells take
/// the rest.
pub open spec fn ranks_over(p: Prototype, width: u32, kernel: Seq<u32>, ranks: Seq<u32>) -> bool {
    &&& ranks.len() == width * width
    &&& is_rank_permutation(ranks)
    &&& forall|j: int| 0 <= j < ranks.len() ==>
        (p.pattern@[j] == 1 <==> #[trigger] ranks[j] < count_of(p.pattern@, 1))
    &&& forall|j: int| 0 <= j < ranks.len() && #[trigger] ranks[j] < count_of(p.pattern@, 1) ==>
        is_tightest_cluster(
            ranked_under(ranks, ranks[j] + 1),
            shifted(p.weights@, rank_band(ranks, ranks[j] + 1, count_of(p.pattern@, 1) as int), -1, kernel, width as int),
            1,
            j,
        )
    &&& forall|j: int| 0 <= j < ranks.len() && count_of(p.pattern@, 1) <= #[trigger] ranks[j]
        < phase3_start(count_of(p.pattern@, 1) as int, ranks.len() as int) ==>
        is_largest_void(
            ranked_under(ranks, ranks[j] as int),
            shifted(p.weights@, rank_band(ranks, count_of(p.pattern@, 1) as int, ranks[j] as int), 1, kernel, width as int),
            1,
            j,
        )
    &&& forall|j: int| 0 <= j < ranks.len() && #[trigger] ranks[j] >= phase3_start(count_of(p.pattern@, 1) as int, ranks.len() as int) ==>
        is_tightest_cluster(
            ranked_under(ranks, ranks[j] as int),
            empty_energy(ranked_under(ranks, ranks[j] as int), kernel, width as int),
            0,
            j,
        )
}

/// Ranks every cell of the grid, starting from a prototype pattern.
///
/// The set cells of the prototype are removed tightest cluster first and take
/// the ranks below the prototype's count in descending order. From a fresh
/// copy of the prototype, largest voids are filled with the next ranks up to
/// half the grid. Then the energy is rebuilt from the cells still empty, and
/// the tightest clusters of empty cells are filled with the remaining ranks.
pub fn assign_ranks(width: u32, kernel: &Vec<u32>, proto: &Prototype) -> (ranks: Vec<u32>)
    requires
        proto.wf(width),
        covers(kernel@, width as int),
    ensures
        ranks_over(*proto, width, kernel@, ranks@),
{
    let n = (width * width) as usize;
    let ghost kmax = u32::MAX as int;
    let ghost proto_pat = proto.pattern@;
    let ones = popcount(&proto.pattern);
    proof {
        lemma_count_bound(proto_pat, 1);
        assert(n * kmax <= 0x1_0000_0000 * kmax) by (nonlinear_arith)
            requires n <= 0x1_0000_0000, kmax >= 0;
    }
    let mut ranks: Vec<u32> = Vec::new();
    let mut i: usize = 0;
    while i < n
        invariant
            i <= n,
            ranks@ == Seq::new(i as nat, |j: int| 0u32),
        decreases n - i,
    {
        ranks.push(0);
        i = i + 1;
        assert(ranks@ =~= Seq::new(i as nat, |j: int| 0u32));
    }
    let ghost mut inv: Seq<int> = Seq::new(n as nat, |r: int| 0int);

    // Remove the prototype's set cells, tightest first, counting down.
    let mut pat1 = copy_of(&proto.pattern);
    let mut w1 = copy_of(&proto.weights);
    let mut rank: u32 = ones as u32;
    let ghost mut steps: int = 0;
    proof {
        assert forall|i: int| 0 <= i < n implies #[trigger] w1@[i] == proto.weights@[i]
            - field_at(Seq::new(n as nat, |k: int| if proto_pat[k] == 1 && pat1@[k] != 1 { 1int } else { 0int }), kernel@, width as int, i, n as nat) by {
            assert(Seq::new(n as nat, |k: int| if proto_pat[k] == 1 && pat1@[k] != 1 { 1int } else { 0int }) =~= Seq::new(n as nat, |j: int| 0int));
            lemma_field_at_zero(n as nat, kernel@, width as int, i, n as nat);
        }
    }
    while rank > 0
        invariant
            valid_width(width),
            covers(kernel@, width as int),
            n == width * width,
            proto_pat == proto.pattern@,
            proto_pat.len() == n,
            is_binary(proto_pat),
            ones == count_of(proto_pat, 1),
            ones <= n,
            pat1@.len() == n,
            w1@.len() == n,
            ranks@.len() == n,
            inv.len() == n,
            rank <= ones,
            count_of(pat1@, 1) == rank,
            forall|j: int| 0 <= j < n && #[trigger] pat1@[j] == 1 ==> proto_pat[j] == 1,
            kmax == u32::MAX,
            n * kmax <= 0x1_0000_0000 * kmax,
            steps == ones - rank,
            bounded(w1@, field_cap() + steps * kmax),
            forall|r: int| rank <= r < ones ==>
                0 <= #[trigger] inv[r] < n && ranks@[inv[r]] == r && proto_pat[inv[r]] == 1 && pat1@[inv[r]] != 1,
            forall|j: int| 0 <= j < n && proto_pat[j] == 1 && pat1@[j] != 1 ==>
                rank <= #[trigger] ranks@[j] < ones && inv[ranks@[j] as int] == j,
            is_binary(pat1@),
            proto.weights@.len() == n,
            forall|j: int| 0 <= j < n && proto_pat[j] == 1 && #[trigger] pat1@[j] == 1 ==> ranks@[j] == 0,
            forall|i: int| 0 <= i < n ==> #[trigger] w1@[i] == proto.weights@[i]
                - field_at(Seq::new(n as nat, |k: int| if proto_pat[k] == 1 && pat1@[k] != 1 { 1int } else { 0int }), kernel@, width as int, i, n as nat),
            forall|j: int| 0 <= j < n && proto_pat[j] == 1 && pat1@[j] != 1 ==>
                #[trigger] removal_record(proto_pat, ranks@, proto.weights@, kernel@, width as int, j),
        decreases rank,
    {
        proof {
            lemma_count_witness(pat1@, 1);
            assert(steps * kmax <= n * kmax) by (nonlinear_arith)
                requires steps <= n, kmax >= 0;
        }
        let c = match find_tightest_cluster(&pat1, &w1, 1) {
            Some(c) => c,
            None => 0,
        };
        let ghost before = pat1@;
        let ghost ranks_before = ranks@;
        proof {
            lemma_count_update(pat1@, c as int, 0, 1);
            lemma_updated_bounded(w1@, kernel@, width as int, c as int, -1, field_cap() + steps * kmax);
        }
        let ghost w_before = w1@;
        pat1.set(c, 0);
        update_weights(&mut w1, width, kernel, c, -1);
        rank = rank - 1;
        ranks.set(c, rank);
        proof {
            inv = inv.update(rank as int, c as int);
            steps = steps + 1;
            assert((steps - 1) * kmax + kmax == steps * kmax) by (nonlinear_arith);
            assert(proto_pat[c as int] == 1);
            assert forall|j: int| 0 <= j < n && #[trigger] pat1@[j] == 1 implies proto_pat[j] == 1 by {
                assert(before[j] == 1);
            }
            lemma_removal_step(proto_pat, before, pat1@, ranks_before, ranks@, w_before, w1@, proto.weights@, kernel@, width as int, c as int, rank as int);
            assert forall|r: int| rank <= r < ones implies
                0 <= #[trigger] inv[r] < n && ranks@[inv[r]] == r && proto_pat[inv[r]] == 1 && pat1@[inv[r]] != 1 by {
                if r != rank {
                    assert(0 <= inv[r] < n && ranks_before[inv[r]] == r && before[inv[r]] != 1);
                }
            }
            assert forall|j: int| 0 <= j < n && proto_pat[j] == 1 && pat1@[j] != 1 implies
                rank <= #[trigger] ranks@[j] < ones && inv[ranks@[j] as int] == j by {
                if j != c {
                    assert(before[j] != 1);
                    assert(rank < ranks_before[j] < ones && inv[ranks_before[j] as int] == j);
                }
            }
        }
    }
    proof {
        lemma_count_none(pat1@, 1);
    }

    // From a fresh copy, fill the largest voids, counting up to half the grid.
    let mut pat = copy_of(&proto.pattern);
    let mut w2 = copy_of(&proto.weights);
    let mut rank: u32 = ones as u32;
    let half: u32 = width * width / 2;
    let ghost mut steps: int = 0;
    proof {
        assert forall|i: int| 0 <= i < n implies #[trigger] w2@[i]
            == proto.weights@[i] + field_at(band(pat@, ranks@, ones as int, rank as int), kernel@, width as int, i, n as nat) by {
            assert(band(pat@, ranks@, ones as int, rank as int) =~= Seq::new(n as nat, |j: int| 0int));
            lemma_field_at_zero(n as nat, kernel@, width as int, i, n as nat);
        }
        assert forall|r: int| 0 <= r < rank implies
            0 <= #[trigger] inv[r] < n && ranks@[inv[r]] == r && pat@[inv[r]] == 1 by {}
        assert forall|j: int| 0 <= j < n && pat@[j] == 1 implies
            #[trigger] ranks@[j] < rank && inv[ranks@[j] as int] == j by {
            assert(proto_pat[j] == 1 && pat1@[j] != 1);
        }
    }
    while rank < half
        invariant
            valid_width(width),
            covers(kernel@, width as int),
            n == width * width,
            half == n / 2,
            proto_pat == proto.pattern@,
            proto_pat.len() == n,
            ones == count_of(proto_pat, 1),
            pat@.len() == n,
            w2@.len() == n,
            ranks@.len() == n,
            inv.len() == n,
            is_binary(pat@),
            ones <= rank <= n,
            rank == ones || rank <= half,
            count_of(pat@, 1) == rank,
            forall|j: int| 0 <= j < n && proto_pat[j] == 1 ==> #[trigger] pat@[j] == 1,
            forall|j: int| 0 <= j < n && pat@[j] == 1 ==> (proto_pat[j] == 1 <==> #[trigger] ranks@[j] < ones),
            kmax == u32::MAX,
            n * kmax <= 0x1_0000_0000 * kmax,
            steps == rank - ones,
            bounded(w2@, field_cap() + steps * kmax),
            ranked_below(ranks@, inv, pat@, rank as int),
            proto.weights@.len() == n,
            forall|j: int| 0 <= j < n && proto_pat[j] == 1 ==> #[trigger] removal_record(proto_pat, ranks@, proto.weights@, kernel@, width as int, j),
            forall|i: int| 0 <= i < n ==> #[trigger] w2@[i]
                == proto.weights@[i] + field_at(band(pat@, ranks@, ones as int, rank as int), kernel@, width as int, i, n as nat),
            forall|j: int| 0 <= j < n && pat@[j] == 1 && ones <= #[trigger] ranks@[j] < rank ==>
                is_largest_void(
                    set_before(pat@, ranks@, ranks@[j] as int),
                    shifted(proto.weights@, band(pat@, ranks@, ones as int, ranks@[j] as int), 1, kernel@, width as int),
                    1,
                    j,
                ),
        decreases half - rank,
    {
        proof {
            lemma_count_other(pat@, 1);
            assert(steps * kmax <= n * kmax) by (nonlinear_arith)
                requires steps <= n, kmax >= 0;
        }
        let v = match find_largest_void(&pat, &w2, 1) {
            Some(v) => v,
            None => 0,
        };
        let ghost before = pat@;
        let ghost ranks_before = ranks@;
        proof {
            lemma_count_update(pat@, v as int, 1, 1);
            lemma_updated_bounded(w2@, kernel@, width as int, v as int, 1, field_cap() + steps * kmax);
        }
        let ghost w_before = w2@;
        pat.set(v, 1);
        update_weights(&mut w2, width, kernel, v, 1);
        ranks.set(v, rank);
        let ghost inv_before = inv;
        proof {
            inv = inv.update(rank as int, v as int);
        }
        rank = rank + 1;
        proof {
            steps = steps + 1;
            assert((steps - 1) * kmax + kmax == steps * kmax) by (nonlinear_arith);
            lemma_step_keeps_ranked(ranks_before, ranks@, inv_before, inv, before, pat@, v as int, (rank - 1) as int);
            lemma_void_step(before, pat@, ranks_before, ranks@, w_before, w2@, proto.weights@, kernel@, width as int, v as int, (rank - 1) as int, ones as int);
            lemma_records_kept(proto_pat, ranks_before, ranks@, proto.weights@, kernel@, width as int, v as int, (rank - 1) as int);
            assert forall|j: int| 0 <= j < n && pat@[j] == 1 implies (proto_pat[j] == 1 <==> #[trigger] ranks@[j] < ones) by {
                if j != v {
                    assert(before[j] == 1);
                    assert(ranks_before[j] == ranks@[j]);
                }
            }
            assert forall|j: int| 0 <= j < n && proto_pat[j] == 1 implies #[trigger] pat@[j] == 1 by {
                assert(before[j] == 1);
            }
        }
    }

    // Rebuild the energy from the empty cells, whose clusters are filled next.
    let mut w3 = complement_field(&pat, width, kernel);
    let ghost mut steps: int = 0;
    let ghost h3 = rank as int;
    proof {
        assert(h3 == phase3_start(ones as int, n as int));
    }
    while rank < width * width
        invariant
            valid_width(width),
            covers(kernel@, width as int),
            n == width * width,
            proto_pat == proto.pattern@,
            proto_pat.len() == n,
            ones == count_of(proto_pat, 1),
            pat@.len() == n,
            w3@.len() == n,
            ranks@.len() == n,
            inv.len() == n,
            is_binary(pat@),
            ones <= rank <= n,
            count_of(pat@, 1) == rank,
            forall|j: int| 0 <= j < n && proto_pat[j] == 1 ==> #[trigger] pat@[j] == 1,
            forall|j: int| 0 <= j < n && pat@[j] == 1 ==> (proto_pat[j] == 1 <==> #[trigger] ranks@[j] < ones),
            kmax == u32::MAX,
            n * kmax <= 0x1_0000_0000 * kmax,
            0 <= steps <= rank,
            bounded(w3@, n * kmax + steps * kmax),
            ranked_below(ranks@, inv, pat@, rank as int),
            is_field_of(w3@, empty_cells(pat@), kernel@, width as int),
            0 <= h3 <= rank,
            ones <= h3,
            proto.weights@.len() == n,
            forall|j: int| 0 <= j < n && proto_pat[j] == 1 ==> #[trigger] removal_record(proto_pat, ranks@, proto.weights@, kernel@, width as int, j),
            forall|j: int| 0 <= j < n && pat@[j] == 1 && ones <= #[trigger] ranks@[j] < h3 ==>
                is_largest_void(
                    set_before(pat@, ranks@, ranks@[j] as int),
                    shifted(proto.weights@, band(pat@, ranks@, ones as int, ranks@[j] as int), 1, kernel@, width as int),
                    1,
                    j,
                ),
            forall|j: int| 0 <= j < n && pat@[j] == 1 && #[trigger] ranks@[j] >= h3 ==>
                is_tightest_cluster(
                    set_before(pat@, ranks@, ranks@[j] as int),
                    empty_energy(set_before(pat@, ranks@, ranks@[j] as int), kernel@, width as int),
                    0,
                    j,
                ),
        decreases n - rank,
    {
        proof {
            lemma_count_other(pat@, 1);
            let j = choose|j: int| 0 <= j < pat@.len() && pat@[j] != 1;
            assert(pat@[j] <= 1);
            assert(steps * kmax <= n * kmax) by (nonlinear_arith)
                requires steps <= n, kmax >= 0;
        }
        let c = match find_tightest_cluster(&pat, &w3, 0) {
            Some(c) => c,
            None => 0,
        };
        let ghost before = pat@;
        let ghost ranks_before = ranks@;
        proof {
            lemma_count_update(pat@, c as int, 1, 1);
            lemma_updated_bounded(w3@, kernel@, width as int, c as int, -1, n * kmax + steps * kmax);
            let ec = empty_cells(pat@);
            lemma_updated_field(w3@, ec, kernel@, width as int, c as int, -1);
            assert(ec.update(c as int, ec[c as int] - 1) =~= empty_cells(pat@.update(c as int, 1)));
        }
        let ghost w_before = w3@;
        pat.set(c, 1);
        update_weights(&mut w3, width, kernel, c, -1);
        ranks.set(c, rank);
        let ghost inv_before = inv;
        proof {
            inv = inv.update(rank as int, c as int);
        }
        rank = rank + 1;
        proof {
            steps = steps + 1;
            assert(n * kmax + (steps - 1) * kmax + kmax == n * kmax + steps * kmax) by (nonlinear_arith);
            lemma_step_keeps_ranked(ranks_before, ranks@, inv_before, inv, before, pat@, c as int, (rank - 1) as int);
            lemma_cluster_step(before, pat@, ranks_before, ranks@, w_before, kernel@, width as int, c as int, (rank - 1) as int, h3);
            lemma_voids_kept(before, pat@, ranks_before, ranks@, proto.weights@, kernel@, width as int, c as int, (rank - 1) as int, ones as int, h3);
            lemma_records_kept(proto_pat, ranks_before, ranks@, proto.weights@, kernel@, width as int, c as int, (rank - 1) as int);
            assert forall|j: int| 0 <= j < n && pat@[j] == 1 implies (proto_pat[j] == 1 <==> #[trigger] ranks@[j] < ones) by {
                if j != c {
                    assert(before[j] == 1);
                    assert(ranks_before[j] == ranks@[j]);
                }
            }
            assert forall|j: int| 0 <= j < n && proto_pat[j] == 1 implies #[trigger] pat@[j] == 1 by {
                assert(before[j] == 1);
            }
        }
    }
    proof {
        lemma_count_full(pat@, 1);
        lemma_ranked_gives_permutation(ranks@, inv, pat@);
        assert forall|r: int| #![trigger ranked_under(ranks@, r)] true implies set_before(pat@, ranks@, r) =~= ranked_under(ranks@, r) by {}
        assert forall|j: int| 0 <= j < ranks@.len() && #[trigger] ranks@[j] < ones implies
            is_tightest_cluster(
                ranked_under(ranks@, ranks@[j] + 1),
                shifted(proto.weights@, rank_band(ranks@, ranks@[j] + 1, ones as int), -1, kernel@, width as int),
                1,
                j,
            ) by {
            assert(pat@[j] == 1);
            assert(proto_pat[j] == 1);
            assert(removal_record(proto_pat, ranks@, proto.weights@, kernel@, width as int, j));
            assert forall|k: int| 0 <= k < n implies (#[trigger] proto_pat[k] == 1 <==> ranks@[k] < ones) by {
                assert(pat@[k] == 1);
            }
            assert(kept_upto(proto_pat, ranks@, ranks@[j] as int) =~= ranked_under(ranks@, ranks@[j] + 1));
            assert(gone_above(proto_pat, ranks@, ranks@[j] as int) =~= rank_band(ranks@, ranks@[j] + 1, ones as int));
        }
        assert forall|j: int| 0 <= j < ranks@.len() && ones <= #[trigger] ranks@[j] < phase3_start(ones as int, n as int) implies
            is_largest_void(
                ranked_under(ranks@, ranks@[j] as int),
                shifted(proto.weights@, rank_band(ranks@, ones as int, ranks@[j] as int), 1, kernel@, width as int),
                1,
                j,
            ) by {
            assert(pat@[j] == 1);
            assert(set_before(pat@, ranks@, ranks@[j] as int) =~= ranked_under(ranks@, ranks@[j] as int));
            assert(band(pat@, ranks@, ones as int, ranks@[j] as int) =~= rank_band(ranks@, ones as int, ranks@[j] as int));
        }
        assert forall|j: int| 0 <= j < ranks@.len() && #[trigger] ranks@[j] >= phase3_start(ones as int, n as int) implies
            is_tightest_cluster(
                ranked_under(ranks@, ranks@[j] as int),
                empty_energy(ranked_under(ranks@, ranks@[j] as int), kernel@, width as int),
                0,
                j,
            ) by {
            assert(pat@[j] == 1);
            assert(set_before(pat@, ranks@, ranks@[j] as int) =~= ranked_under(ranks@, ranks@[j] as int));
        }
    }
    ranks
}

/// Removing the tightest cluster keeps the record of every earlier removal,
/// and records this one.
proof fn lemma_removal_step(
    proto_pat: Seq<u8>,
    pat0: Seq<u8>,
    pat1: Seq<u8>,
    ranks0: Seq<u32>,
    ranks1: Seq<u32>,
    w0: Seq<i128>,
    w1: Seq<i128>,
    base: Seq<i128>,
    kernel: Seq<u32>,
    width: int,
    c: int,
    r: int,
)
    requires
        0 <= c < proto_pat.len(),
        pat0.len() == proto_pat.len(),
        ranks0.len() == proto_pat.len(),
        w0.len() == proto_pat.len(),
        w1.len() == proto_pat.len(),
        base.len() == proto_pat.len(),
        is_binary(pat0),
        pat0[c] == 1,
        proto_pat[c] == 1,
        0 <= r <= u32::MAX,
        pat1 == pat0.update(c, 0),
        ranks1 == ranks0.update(c, r as u32),
        forall|k: int| 0 <= k < proto_pat.len() && proto_pat[k] == 1 && #[trigger] pat0[k] == 1 ==> ranks0[k] == 0,
        forall|k: int| 0 <= k < proto_pat.len() && #[trigger] pat0[k] == 1 ==> proto_pat[k] == 1,
        forall|k: int| 0 <= k < proto_pat.len() && proto_pat[k] == 1 && pat0[k] != 1 ==> r < #[trigger] ranks0[k],
        forall|i: int| 0 <= i < proto_pat.len() ==> #[trigger] w0[i] == base[i]
            - field_at(Seq::new(proto_pat.len(), |k: int| if proto_pat[k] == 1 && pat0[k] != 1 { 1int } else { 0int }), kernel, width, i, proto_pat.len()),
        forall|i: int| 0 <= i < proto_pat.len() ==> #[trigger] w1[i] == w0[i] - weight(kernel, width, i, c),
        is_tightest_cluster(pat0, w0, 1, c),
        forall|j: int| 0 <= j < proto_pat.len() && proto_pat[j] == 1 && pat0[j] != 1 ==>
            #[trigger] removal_record(proto_pat, ranks0, base, kernel, width, j),
    ensures
        forall|k: int| 0 <= k < proto_pat.len() && proto_pat[k] == 1 && #[trigger] pat1[k] == 1 ==> ranks1[k] == 0,
        forall|i: int| 0 <= i < proto_pat.len() ==> #[trigger] w1[i] == base[i]
            - field_at(Seq::new(proto_pat.len(), |k: int| if proto_pat[k] == 1 && pat1[k] != 1 { 1int } else { 0int }), kernel, width, i, proto_pat.len()),
        forall|j: int| 0 <= j < proto_pat.len() && proto_pat[j] == 1 && pat1[j] != 1 ==>
            #[trigger] removal_record(proto_pat, ranks1, base, kernel, width, j),
{
    let m0 = Seq::new(proto_pat.len(), |k: int| if proto_pat[k] == 1 && pat0[k] != 1 { 1int } else { 0int });
    let m1 = Seq::new(proto_pat.len(), |k: int| if proto_pat[k] == 1 && pat1[k] != 1 { 1int } else { 0int });
    assert(m1 =~= m0.update(c, m0[c] + 1));
    assert forall|i: int| 0 <= i < proto_pat.len() implies #[trigger] w1[i] == base[i]
        - field_at(m1, kernel, width, i, proto_pat.len()) by {
        lemma_field_at_update(m0, kernel, width, i, proto_pat.len(), c, 1);
    }
    assert(kept_upto(proto_pat, ranks1, r) =~= pat0);
    assert(gone_above(proto_pat, ranks1, r) =~= m0);
    assert forall|i: int| 0 <= i < w0.len() implies #[trigger] shifted(base, m0, -1, kernel, width)[i] == w0[i] by {
        let x = base[i] + -1 * field_at(m0, kernel, width, i, proto_pat.len());
        assert(x == w0[i]);
        assert(shifted(base, m0, -1, kernel, width)[i] == x as i128);
    }
    assert(shifted(base, m0, -1, kernel, width) =~= w0);
    assert forall|j: int| 0 <= j < proto_pat.len() && proto_pat[j] == 1 && pat1[j] != 1 implies
        #[trigger] removal_record(proto_pat, ranks1, base, kernel, width, j) by {
        if j != c {
            assert(pat0[j] != 1);
            assert(removal_record(proto_pat, ranks0, base, kernel, width, j));
            assert(ranks1[j] == ranks0[j]);
            assert(kept_upto(proto_pat, ranks1, ranks1[j] as int) =~= kept_upto(proto_pat, ranks0, ranks0[j] as int));
            assert(gone_above(proto_pat, ranks1, ranks1[j] as int) =~= gone_above(proto_pat, ranks0, ranks0[j] as int));
        } else {
            assert(ranks1[j] as int == r);
        }
    }
}

/// Ranking a cell outside `proto_pat` leaves every removal record as it was.
proof fn lemma_records_kept(
    proto_pat: Seq<u8>,
    ranks0: Seq<u32>,
    ranks1: Seq<u32>,
    base: Seq<i128>,
    kernel: Seq<u32>,
    width: int,
    c: int,
    r: int,
)
    requires
        0 <= c < proto_pat.len(),
        ranks0.len() == proto_pat.len(),
        proto_pat[c] != 1,
        0 <= r <= u32::MAX,
        ranks1 == ranks0.update(c, r as u32),
        forall|j: int| 0 <= j < proto_pat.len() && proto_pat[j] == 1 ==> #[trigger] removal_record(proto_pat, ranks0, base, kernel, width, j),
    ensures
        forall|j: int| 0 <= j < proto_pat.len() && proto_pat[j] == 1 ==> #[trigger] removal_record(proto_pat, ranks1, base, kernel, width, j),
{
    assert forall|j: int| 0 <= j < proto_pat.len() && proto_pat[j] == 1 implies #[trigger] removal_record(proto_pat, ranks1, base, kernel, width, j) by {
        assert(removal_record(proto_pat, ranks0, base, kernel, width, j));
        assert(ranks1[j] == ranks0[j]);
        assert(kept_upto(proto_pat, ranks1, ranks1[j] as int) =~= kept_upto(proto_pat, ranks0, ranks0[j] as int));
        assert(gone_above(proto_pat, ranks1, ranks1[j] as int) =~= gone_above(proto_pat, ranks0, ranks0[j] as int));
    }
}

/// Filling the largest void keeps the record of every earlier choice, and
/// records this one.
proof fn lemma_void_step(
    pat0: Seq<u8>,
    pat1: Seq<u8>,
    ranks0: Seq<u32>,
    ranks1: Seq<u32>,
    w0: Seq<i128>,
    w1: Seq<i128>,
    base: Seq<i128>,
    kernel: Seq<u32>,
    width: int,
    v: int,
    r0: int,
    lo: int,
)
    requires
        0 <= v < pat0.len(),
        pat0.len() == ranks0.len(),
        w0.len() == pat0.len(),
        w1.len() == pat0.len(),
        base.len() == pat0.len(),
        is_binary(pat0),
        pat0[v] != 1,
        0 <= lo <= r0 <= u32::MAX,
        pat1 == pat0.update(v, 1),
        ranks1 == ranks0.update(v, r0 as u32),
        forall|j: int| 0 <= j < pat0.len() && pat0[j] == 1 ==> #[trigger] ranks0[j] < r0,
        forall|i: int| 0 <= i < pat0.len() ==> #[trigger] w0[i]
            == base[i] + field_at(band(pat0, ranks0, lo, r0), kernel, width, i, pat0.len()),
        forall|i: int| 0 <= i < pat0.len() ==> #[trigger] w1[i] == w0[i] + weight(kernel, width, i, v),
        is_largest_void(pat0, w0, 1, v),
        forall|j: int| 0 <= j < pat0.len() && pat0[j] == 1 && lo <= #[trigger] ranks0[j] < r0 ==>
            is_largest_void(
                set_before(pat0, ranks0, ranks0[j] as int),
                shifted(base, band(pat0, ranks0, lo, ranks0[j] as int), 1, kernel, width),
                1,
                j,
            ),
    ensures
        forall|i: int| 0 <= i < pat1.len() ==> #[trigger] w1[i]
            == base[i] + field_at(band(pat1, ranks1, lo, r0 + 1), kernel, width, i, pat1.len()),
        forall|j: int| 0 <= j < pat1.len() && pat1[j] == 1 && lo <= #[trigger] ranks1[j] < r0 + 1 ==>
            is_largest_void(
                set_before(pat1, ranks1, ranks1[j] as int),
                shifted(base, band(pat1, ranks1, lo, ranks1[j] as int), 1, kernel, width),
                1,
                j,
            ),
{
    let b0 = band(pat0, ranks0, lo, r0);
    assert(band(pat1, ranks1, lo, r0 + 1) =~= b0.update(v, b0[v] + 1));
    assert forall|i: int| 0 <= i < pat1.len() implies #[trigger] w1[i]
        == base[i] + field_at(band(pat1, ranks1, lo, r0 + 1), kernel, width, i, pat1.len()) by {
        lemma_field_at_update(b0, kernel, width, i, pat0.len(), v, 1);
    }
    assert(set_before(pat1, ranks1, r0) =~= pat0);
    assert(band(pat1, ranks1, lo, r0) =~= b0);
    assert forall|i: int| 0 <= i < w0.len() implies #[trigger] shifted(base, b0, 1, kernel, width)[i] == w0[i] by {
        let x = base[i] + field_at(b0, kernel, width, i, pat0.len());
        assert(x == w0[i]);
        assert(shifted(base, b0, 1, kernel, width)[i] == x as i128);
    }
    assert(shifted(base, b0, 1, kernel, width) =~= w0);
    assert forall|j: int| 0 <= j < pat1.len() && pat1[j] == 1 && lo <= #[trigger] ranks1[j] < r0 + 1 implies
        is_largest_void(
            set_before(pat1, ranks1, ranks1[j] as int),
            shifted(base, band(pat1, ranks1, lo, ranks1[j] as int), 1, kernel, width),
            1,
            j,
        ) by {
        if j != v {
            assert(pat0[j] == 1);
            assert(ranks1[j] == ranks0[j]);
            assert(set_before(pat1, ranks1, ranks1[j] as int) =~= set_before(pat0, ranks0, ranks0[j] as int));
            assert(band(pat1, ranks1, lo, ranks1[j] as int) =~= band(pat0, ranks0, lo, ranks0[j] as int));
        } else {
            assert(ranks1[j] as int == r0);
        }
    }
}

/// Filling a cell with a rank of at least `hi` leaves the record of the voids
/// ranked below `hi` as it was.
proof fn lemma_voids_kept(
    pat0: Seq<u8>,
    pat1: Seq<u8>,
    ranks0: Seq<u32>,
    ranks1: Seq<u32>,
    base: Seq<i128>,
    kernel: Seq<u32>,
    width: int,
    c: int,
    r0: int,
    lo: int,
    hi: int,
)
    requires
        0 <= c < pat0.len(),
        pat0.len() == ranks0.len(),
        pat0[c] != 1,
        0 <= hi <= r0 <= u32::MAX,
        pat1 == pat0.update(c, 1),
        ranks1 == ranks0.update(c, r0 as u32),
        forall|j: int| 0 <= j < pat0.len() && pat0[j] == 1 && lo <= #[trigger] ranks0[j] < hi ==>
            is_largest_void(
                set_before(pat0, ranks0, ranks0[j] as int),
                shifted(base, band(pat0, ranks0, lo, ranks0[j] as int), 1, kernel, width),
                1,
                j,
            ),
    ensures
        forall|j: int| 0 <= j < pat1.len() && pat1[j] == 1 && lo <= #[trigger] ranks1[j] < hi ==>
            is_largest_void(
                set_before(pat1, ranks1, ranks1[j] as int),
                shifted(base, band(pat1, ranks1, lo, ranks1[j] as int), 1, kernel, width),
                1,
                j,
            ),
{
    assert forall|j: int| 0 <= j < pat1.len() && pat1[j] == 1 && lo <= #[trigger] ranks1[j] < hi implies
        is_largest_void(
            set_before(pat1, ranks1, ranks1[j] as int),
            shifted(base, band(pat1, ranks1, lo, ranks1[j] as int), 1, kernel, width),
            1,
            j,
        ) by {
        assert(j != c);
        assert(ranks1[j] == ranks0[j]);
        assert(set_before(pat1, ranks1, ranks1[j] as int) =~= set_before(pat0, ranks0, ranks0[j] as int));
        assert(band(pat1, ranks1, lo, ranks1[j] as int) =~= band(pat0, ranks0, lo, ranks0[j] as int));
    }
}

/// Filling the tightest cluster of empty cells keeps the record of every
/// earlier choice, and records this one.
proof fn lemma_cluster_step(
    pat0: Seq<u8>,
    pat1: Seq<u8>,
    ranks0: Seq<u32>,
    ranks1: Seq<u32>,
    w0: Seq<i128>,
    kernel: Seq<u32>,
    width: int,
    c: int,
    r0: int,
    h3: int,
)
    requires
        0 <= c < pat0.len(),
        pat0.len() == ranks0.len(),
        w0.len() == pat0.len(),
        is_binary(pat0),
        pat0[c] == 0,
        0 <= h3 <= r0 <= u32::MAX,
        pat1 == pat0.update(c, 1),
        ranks1 == ranks0.update(c, r0 as u32),
        forall|j: int| 0 <= j < pat0.len() && pat0[j] == 1 ==> #[trigger] ranks0[j] < r0,
        is_field_of(w0, empty_cells(pat0), kernel, width),
        is_tightest_cluster(pat0, w0, 0, c),
        forall|j: int| 0 <= j < pat0.len() && pat0[j] == 1 && #[trigger] ranks0[j] >= h3 ==>
            is_tightest_cluster(
                set_before(pat0, ranks0, ranks0[j] as int),
                empty_energy(set_before(pat0, ranks0, ranks0[j] as int), kernel, width),
                0,
                j,
            ),
    ensures
        forall|j: int| 0 <= j < pat1.len() && pat1[j] == 1 && #[trigger] ranks1[j] >= h3 ==>
            is_tightest_cluster(
                set_before(pat1, ranks1, ranks1[j] as int),
                empty_energy(set_before(pat1, ranks1, ranks1[j] as int), kernel, width),
                0,
                j,
            ),
{
    assert(set_before(pat1, ranks1, r0) =~= pat0);
    assert forall|i: int| 0 <= i < w0.len() implies #[trigger] empty_energy(pat0, kernel, width)[i] == w0[i] by {
        let x = field_at(empty_cells(pat0), kernel, width, i, pat0.len());
        assert(x == w0[i]);
        assert(empty_energy(pat0, kernel, width)[i] == x as i128);
    }
    assert(empty_energy(pat0, kernel, width) =~= w0);
    assert forall|j: int| 0 <= j < pat1.len() && pat1[j] == 1 && #[trigger] ranks1[j] >= h3 implies
        is_tightest_cluster(
            set_before(pat1, ranks1, ranks1[j] as int),
            empty_energy(set_before(pat1, ranks1, ranks1[j] as int), kernel, width),
            0,
            j,
        ) by {
        if j != c {
            assert(pat0[j] == 1);
            assert(ranks1[j] == ranks0[j] && ranks0[j] >= h3);
            assert(set_before(pat1, ranks1, ranks1[j] as int) =~= set_before(pat0, ranks0, ranks0[j] as int));
        } else {
            assert(ranks1[j] as int == r0);
        }
    }
}

/// Setting an empty cell and giving it the next rank keeps the ranks below
/// the new bound matched with the set cells.
proof fn lemma_step_keeps_ranked(
    ranks0: Seq<u32>,
    ranks1: Seq<u32>,
    inv0: Seq<int>,
    inv1: Seq<int>,
    pat0: Seq<u8>,
    pat1: Seq<u8>,
    cell: int,
    r0: int,
)
    requires
        0 <= cell < ranks0.len(),
        0 <= r0 < inv0.len(),
        r0 <= u32::MAX,
        pat0.len() == ranks0.len(),
        pat0[cell] != 1,
        pat1 == pat0.update(cell, 1),
        ranks1 == ranks0.update(cell, r0 as u32),
        inv1 == inv0.update(r0, cell),
        ranked_below(ranks0, inv0, pat0, r0),
    ensures
        ranked_below(ranks1, inv1, pat1, r0 + 1),
{
    assert forall|r: int| 0 <= r < r0 + 1 implies
        0 <= #[trigger] inv1[r] < ranks1.len() && ranks1[inv1[r]] == r && pat1[inv1[r]] == 1 by {
        if r < r0 {
            assert(pat0[inv0[r]] == 1);
            assert(inv1[r] != cell);
        }
    }
    assert forall|j: int| 0 <= j < ranks1.len() && pat1[j] == 1 implies
        #[trigger] ranks1[j] < r0 + 1 && inv1[ranks1[j] as int] == j by {
        if j != cell {
            assert(pat0[j] == 1);
            assert(ranks0[j] < r0 && inv0[ranks0[j] as int] == j);
        }
    }
}

proof fn lemma_ranked_gives_permutation(ranks: Seq<u32>, inv: Seq<int>, pat: Seq<u8>)
    requires
        pat.len() == ranks.len(),
        forall|j: int| 0 <= j < pat.len() ==> pat[j] == 1,
        ranked_below(ranks, inv, pat, ranks.len() as int),
    ensures
        is_rank_permutation(ranks),
{
    assert forall|i: int, j: int|
        0 <= i < ranks.len() && 0 <= j < ranks.len() && i != j implies #[trigger] ranks[i] != #[trigger] ranks[j] by {
        assert(pat[i] == 1 && pat[j] == 1);
    }
    assert forall|r: int| 0 <= r < ranks.len() implies #[trigger] has_rank(ranks, r) by {
        assert(ranks[inv[r]] == r);
    }
    assert forall|i: int| 0 <= i < ranks.len() implies #[trigger] ranks[i] < ranks.len() by {
        assert(pat[i] == 1);
    }
}

} // verus!
