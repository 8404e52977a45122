use vstd::prelude::*;
use crate::torus::{valid_width, max_sq_dist};
use crate::energy::covers;
use crate::prototype::{Prototype, build_prototype, is_prototype_of};
use crate::ranking::{assign_ranks, is_rank_permutation, ranks_over};
use crate::sampling::{initial_points, initial_count};

verus! {

/// The grey level of a cell of rank `rank` on a grid of `n` cells.
pub open spec fn grey_of(rank: int, n: int) -> int {
    (rank * 256) / n
}

/// Size a kernel table needs for a `width` x `width` grid: one more than the
/// largest squared toroidal distance.
pub fn kernel_len(width: u32) -> (r: usize)
    requires
        valid_width(width),
    ensures
        r == max_sq_dist(width as int) + 1,
{
    let h = (width / 2) as u64;
    proof {
        assert(4 * (h * h) <= width * width) by (nonlinear_arith)
            requires h == width / 2, width >= 0;
    }
    (2 * (h * h) + 1) as usize
}

/// Ranks every cell of a `width` x `width` grid from the drawn cells
/// `points`: balances them into a prototype, then ranks over it.
pub fn ranks_from_points(width: u32, kernel: &Vec<u32>, points: &Vec<usize>) -> (ranks: Vec<u32>)
    requires
        valid_width(width),
        covers(kernel@, width as int),
        forall|t: int| 0 <= t < points@.len() ==> #[trigger] points@[t] < width * width,
    ensures
        exists|p: Prototype| #[trigger] is_prototype_of(p, width, kernel@, points@) && ranks_over(p, width, kernel@, ranks@),
{
    let proto = build_prototype(width, kernel, points);
    let ranks = assign_ranks(width, kernel, &proto);
    proof {
        assert(is_prototype_of(proto, width, kernel@, points@) && ranks_over(proto, width, kernel@, ranks@));
    }
    ranks
}

/// Ranks every cell of a `width` x `width` grid. The initial pattern is drawn
/// from a generator seeded with `seed`, then balanced by cluster-for-void
/// swaps until it settles.
pub fn dither_mask(width: u32, kernel: &Vec<u32>, seed: u64) -> (ranks: Vec<u32>)
    requires
        valid_width(width),
        covers(kernel@, width as int),
    ensures
        ranks@.len() == width * width,
        is_rank_permutation(ranks@),
        exists|points: Seq<usize>, p: Prototype|
            points.len() == initial_count(width)
            && (forall|t: int| 0 <= t < points.len() ==> #[trigger] points[t] < width * width)
            && #[trigger] is_prototype_of(p, width, kernel@, points)
            && ranks_over(p, width, kernel@, ranks@),
{
    let points = initial_points(seed, width);
    let ranks = ranks_from_points(width, kernel, &points);
    proof {
        let p = choose|p: Prototype| #[trigger] is_prototype_of(p, width, kernel@, points@) && ranks_over(p, width, kernel@, ranks@);
        assert(points@.len() == initial_count(width)
            && (forall|t: int| 0 <= t < points@.len() ==> #[trigger] points@[t] < width * width)
            && is_prototype_of(p, width, kernel@, points@)
            && ranks_over(p, width, kernel@, ranks@));
    }
    ranks
}

/// Turns ranks into RGB pixels: cell `i` becomes three equal bytes of
/// `ranks[i] * 256 / n`, where `n` is the number of cells.
pub fn rank_pixels(ranks: &Vec<u32>) -> (pixels: Vec<u8>)
    requires
        ranks@.len() * 3 <= usize::MAX,
        forall|i: int| 0 <= i < ranks@.len() ==> #[trigger] ranks@[i] < ranks@.len(),
    ensures
        pixels@.len() == 3 * ranks@.len(),
        forall|i: int, k: int| 0 <= i < ranks@.len() && 0 <= k < 3 ==>
            #[trigger] pixels@[3 * i + k] == grey_of(ranks@[i] as int, ranks@.len() as int),
{
    let n = ranks.len();
    let mut pixels: Vec<u8> = Vec::new();
    let mut i: usize = 0;
    while i < n
        invariant
            n == ranks@.len(),
            n * 3 <= usize::MAX,
            forall|j: int| 0 <= j < n ==> #[trigger] ranks@[j] < n,
            i <= n,
            pixels@.len() == 3 * i,
            forall|j: int, k: int| 0 <= j < i && 0 <= k < 3 ==>
                #[trigger] pixels@[3 * j + k] == grey_of(ranks@[j] as int, n as int),
        decreases n - i,
    {
        let rank = ranks[i] as u64;
        proof {
            assert(rank * 256 < n * 256) by (nonlinear_arith)
                requires rank < n;
            assert((rank * 256) / (n as int) < 256) by (nonlinear_arith)
                requires rank < n, n > 0;
            assert(n <= u64::MAX);
        }
        let value = ((rank * 256) / (n as u64)) as u8;
        let ghost before = pixels@;
        pixels.push(value);
        pixels.push(value);
        pixels.push(value);
        proof {
            assert forall|j: int, k: int| 0 <= j < i + 1 && 0 <= k < 3 implies
                #[trigger] pixels@[3 * j + k] == grey_of(ranks@[j] as int, n as int) by {
                if j < i {
                    assert(3 * j + k < 3 * i);
                    assert(pixels@[3 * j + k] == before[3 * j + k]);
                }
            }
        }
        i = i + 1;
    }
    pixels
}

} // verus!
