use vstd::prelude::*;
use rand::distributions::Distribution;
use rand::rngs::StdRng;
use rand::SeedableRng;
use crate::torus::valid_width;

verus! {

#[verifier::external_type_specification]
#[verifier::external_body]
pub struct ExStdRng(StdRng);

/// Relies on rand's `SeedableRng::seed_from_u64` for `StdRng`: a generator
/// whose stream is fixed by the seed.
#[verifier::external_body]
fn seeded_rng(seed: u64) -> StdRng {
    StdRng::seed_from_u64(seed)
}

/// Relies on rand's `Uniform::from(0..n)` and its `Distribution::sample`: an
/// index drawn uniformly from `[0, n)`. `Uniform::new` panics on an empty
/// range, hence `n > 0`.
#[verifier::external_body]
fn draw_index(rng: &mut StdRng, n: usize) -> (r: usize)
    requires
        n > 0,
    ensures
        r < n,
{
    rand::distributions::Uniform::from(0..n).sample(rng)
}

/// How many cells the initial pattern draws: 26/256 of the grid, rounded
/// down.
pub open spec fn initial_count(width: u32) -> int {
    (width * width * 26) / 256
}

/// Number of initial draws for a `width` x `width` grid.
pub fn initial_point_count(width: u32) -> (r: usize)
    requires
        valid_width(width),
    ensures
        r == initial_count(width),
{
    let n = (width as u64) * (width as u64);
    (n * 26 / 256) as usize
}

/// Draws the cells of the initial pattern from a generator seeded with
/// `seed`. The same cell may be drawn more than once.
pub fn initial_points(seed: u64, width: u32) -> (points: Vec<usize>)
    requires
        valid_width(width),
    ensures
        points@.len() == initial_count(width),
        forall|t: int| 0 <= t < points@.len() ==> #[trigger] points@[t] < width * width,
{
    let n = (width * width) as usize;
    let count = initial_point_count(width);
    proof {
        assert(n >= 1) by (nonlinear_arith)
            requires n == width * width, width >= 1;
    }
    let mut rng = seeded_rng(seed);
    let mut points: Vec<usize> = Vec::new();
    let mut t: usize = 0;
    while t < count
        invariant
            n == width * width,
            n >= 1,
            t <= count,
            points@.len() == t,
            forall|s: int| 0 <= s < points@.len() ==> #[trigger] points@[s] < n,
        decreases count - t,
    {
        let idx = draw_index(&mut rng, n);
        points.push(idx);
        t = t + 1;
    }
    points
}

} // verus!
