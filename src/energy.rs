use vstd::prelude::*;
use crate::torus::{sq_dist, max_sq_dist, valid_width, toroidal_sq_distance};

verus! {

/// Largest magnitude an energy may have before an update, so that adding or
/// removing one kernel weight cannot overflow.
pub open spec fn energy_limit() -> int {
    i128::MAX - u32::MAX
}

/// Every energy lies within `[-b, b]`.
pub open spec fn bounded(w: Seq<i128>, b: int) -> bool {
    forall|i: int| 0 <= i < w.len() ==> -b <= #[trigger] w[i] <= b
}

/// A kernel table covers a grid when every squared distance on it has an
/// entry.
pub open spec fn covers(kernel: Seq<u32>, width: int) -> bool {
    kernel.len() > max_sq_dist(width)
}

/// The weight that a unit at `center` gives to `cell`.
pub open spec fn weight(kernel: Seq<u32>, width: int, cell: int, center: int) -> int {
    kernel[sq_dist(width, cell, center)] as int
}

/// The field after adding `sign` times the kernel centred at `center`.
pub open spec fn updated(w: Seq<i128>, kernel: Seq<u32>, width: int, center: int, sign: int) -> Seq<i128> {
    Seq::new(w.len(), |i: int| (w[i] + sign * weight(kernel, width, i, center)) as i128)
}

/// Adds `sign` (plus or minus one) times the kernel centred at `index` to
/// every cell of the field.
pub fn update_weights(weights: &mut Vec<i128>, width: u32, kernel: &Vec<u32>, index: usize, sign: i8)
    requires
        valid_width(width),
        old(weights)@.len() == width * width,
        covers(kernel@, width as int),
        index < width * width,
        sign == 1 || sign == -1,
        bounded(old(weights)@, energy_limit()),
    ensures
        final(weights)@ == updated(old(weights)@, kernel@, width as int, index as int, sign as int),
        forall|i: int| 0 <= i < final(weights)@.len() ==>
            #[trigger] final(weights)@[i] == old(weights)@[i] + sign * weight(kernel@, width as int, i, index as int),
{
    let n = weights.len();
    let mut i: usize = 0;
    while i < n
        invariant
            n == weights@.len(),
            n == old(weights)@.len(),
            n == width * width,
            valid_width(width),
            covers(kernel@, width as int),
            index < width * width,
            sign == 1 || sign == -1,
            bounded(old(weights)@, energy_limit()),
            i <= n,
            forall|j: int| 0 <= j < i ==>
                #[trigger] weights@[j] == old(weights)@[j] + sign * weight(kernel@, width as int, j, index as int),
            forall|j: int| i <= j < n ==> #[trigger] weights@[j] == old(weights)@[j],
        decreases n - i,
    {
        let d = toroidal_sq_distance(width, i, index);
        let k = kernel[d as usize] as i128;
        let cur = weights[i];
        assert(-energy_limit() <= old(weights)@[i as int] <= energy_limit());
        if sign == 1 {
            weights.set(i, cur + k);
        } else {
            weights.set(i, cur - k);
        }
        i = i + 1;
    }
    proof {
        assert(weights@ =~= updated(old(weights)@, kernel@, width as int, index as int, sign as int));
    }
}

/// Energy at `cell` of units placed `m[j]` times at each cell `j < len`.
pub open spec fn field_at(m: Seq<int>, kernel: Seq<u32>, width: int, cell: int, len: nat) -> int
    decreases len,
{
    if len == 0 {
        0
    } else {
        field_at(m, kernel, width, cell, (len - 1) as nat)
            + m[len - 1] * weight(kernel, width, cell, len - 1)
    }
}

/// `w` is the energy field of the multiplicities `m`: each energy is the sum
/// over all cells of the kernel centred there, once per unit.
pub open spec fn is_field_of(w: Seq<i128>, m: Seq<int>, kernel: Seq<u32>, width: int) -> bool {
    &&& w.len() == m.len()
    &&& forall|i: int| 0 <= i < w.len() ==> #[trigger] w[i] == field_at(m, kernel, width, i, m.len())
}

pub proof fn lemma_field_at_update(m: Seq<int>, kernel: Seq<u32>, width: int, cell: int, len: nat, c: int, s: int)
    requires
        0 <= c < m.len(),
        len <= m.len(),
    ensures
        field_at(m.update(c, m[c] + s), kernel, width, cell, len)
            == field_at(m, kernel, width, cell, len) + if c < len { s * weight(kernel, width, cell, c) } else { 0 },
    decreases len,
{
    if len > 0 {
        lemma_field_at_update(m, kernel, width, cell, (len - 1) as nat, c, s);
        let k = weight(kernel, width, cell, c);
        assert((m[c] + s) * k == m[c] * k + s * k) by (nonlinear_arith);
    }
}

pub proof fn lemma_field_at_zero(n: nat, kernel: Seq<u32>, width: int, cell: int, len: nat)
    requires
        len <= n,
    ensures
        field_at(Seq::new(n, |j: int| 0int), kernel, width, cell, len) == 0,
    decreases len,
{
    if len > 0 {
        lemma_field_at_zero(n, kernel, width, cell, (len - 1) as nat);
    }
}

/// The zero field belongs to no units at all.
pub proof fn lemma_zero_field(w: Seq<i128>, kernel: Seq<u32>, width: int)
    requires
        forall|i: int| 0 <= i < w.len() ==> w[i] == 0,
    ensures
        is_field_of(w, Seq::new(w.len(), |j: int| 0int), kernel, width),
{
    assert forall|i: int| 0 <= i < w.len() implies #[trigger] w[i] == field_at(Seq::new(w.len(), |j: int| 0int), kernel, width, i, w.len()) by {
        lemma_field_at_zero(w.len(), kernel, width, i, w.len());
    }
}

/// An update adds or removes one unit at its centre.
pub proof fn lemma_updated_field(w: Seq<i128>, m: Seq<int>, kernel: Seq<u32>, width: int, c: int, s: int)
    requires
        is_field_of(w, m, kernel, width),
        0 <= c < m.len(),
        s == 1 || s == -1,
        bounded(w, energy_limit()),
    ensures
        is_field_of(updated(w, kernel, width, c, s), m.update(c, m[c] + s), kernel, width),
{
    let w1 = updated(w, kernel, width, c, s);
    let m1 = m.update(c, m[c] + s);
    assert forall|i: int| 0 <= i < w1.len() implies #[trigger] w1[i] == field_at(m1, kernel, width, i, m1.len()) by {
        lemma_field_at_update(m, kernel, width, i, m.len(), c, s);
        let k = weight(kernel, width, i, c);
        assert(0 <= k <= u32::MAX);
        assert(-energy_limit() <= w[i] <= energy_limit());
    }
}

/// Sum of the multiplicities of the cells below `len`.
pub open spec fn total(m: Seq<int>, len: nat) -> int
    decreases len,
{
    if len == 0 { 0 } else { total(m, (len - 1) as nat) + m[len - 1] }
}

pub proof fn lemma_total_update(m: Seq<int>, len: nat, c: int, s: int)
    requires
        0 <= c < m.len(),
        len <= m.len(),
    ensures
        total(m.update(c, m[c] + s), len) == total(m, len) + if c < len { s } else { 0 },
    decreases len,
{
    if len > 0 {
        lemma_total_update(m, (len - 1) as nat, c, s);
    }
}

/// With no negative multiplicity, an energy lies between zero and the total
/// count of units times the largest weight.
pub proof fn lemma_field_at_range(m: Seq<int>, kernel: Seq<u32>, width: int, cell: int, len: nat)
    requires
        len <= m.len(),
        forall|j: int| 0 <= j < m.len() ==> #[trigger] m[j] >= 0,
    ensures
        0 <= field_at(m, kernel, width, cell, len) <= total(m, len) * u32::MAX,
    decreases len,
{
    if len > 0 {
        lemma_field_at_range(m, kernel, width, cell, (len - 1) as nat);
        let k = weight(kernel, width, cell, len - 1);
        let x = m[len - 1];
        assert(0 <= k <= u32::MAX);
        assert(0 <= x * k <= x * u32::MAX) by (nonlinear_arith)
            requires 0 <= k <= u32::MAX, x >= 0;
        assert(total(m, (len - 1) as nat) * u32::MAX + x * u32::MAX == total(m, len) * u32::MAX) by (nonlinear_arith)
            requires total(m, len) == total(m, (len - 1) as nat) + x;
    }
}

/// Energies add up over a sum of multiplicities.
pub proof fn lemma_field_at_add(a: Seq<int>, b: Seq<int>, ab: Seq<int>, kernel: Seq<u32>, width: int, cell: int, len: nat)
    requires
        len <= a.len(),
        a.len() == b.len(),
        ab.len() == a.len(),
        forall|j: int| 0 <= j < a.len() ==> #[trigger] ab[j] == a[j] + b[j],
    ensures
        field_at(ab, kernel, width, cell, len) == field_at(a, kernel, width, cell, len) + field_at(b, kernel, width, cell, len),
    decreases len,
{
    if len > 0 {
        lemma_field_at_add(a, b, ab, kernel, width, cell, (len - 1) as nat);
        let k = weight(kernel, width, cell, len - 1);
        assert(ab[len - 1] * k == a[len - 1] * k + b[len - 1] * k) by (nonlinear_arith)
            requires ab[len - 1] == a[len - 1] + b[len - 1];
    }
}

/// A bound on the field's energies that leaves room for far more updates
/// than any run performs.
pub open spec fn field_cap() -> int {
    0x10_0000_0000_0000_0000_0000_0000
}

/// One update moves each energy by at most one kernel weight.
pub proof fn lemma_updated_bounded(w: Seq<i128>, kernel: Seq<u32>, width: int, center: int, sign: int, b: int)
    requires
        bounded(w, b),
        sign == 1 || sign == -1,
        b + u32::MAX <= energy_limit(),
    ensures
        bounded(updated(w, kernel, width, center, sign), b + u32::MAX),
{
    let w1 = updated(w, kernel, width, center, sign);
    assert forall|i: int| 0 <= i < w1.len() implies -(b + u32::MAX) <= #[trigger] w1[i] <= b + u32::MAX by {
        let k = weight(kernel, width, i, center);
        assert(0 <= k <= u32::MAX);
    }
}

/// A field of `n` zero energies.
pub fn zero_field(n: usize) -> (r: Vec<i128>)
    ensures
        r@ == Seq::new(n as nat, |j: int| 0i128),
        bounded(r@, 0),
{
    let mut v: Vec<i128> = Vec::new();
    let mut i: usize = 0;
    while i < n
        invariant
            i <= n,
            v@ == Seq::new(i as nat, |j: int| 0i128),
        decreases n - i,
    {
        v.push(0);
        i = i + 1;
        assert(v@ =~= Seq::new(i as nat, |j: int| 0i128));
    }
    v
}

/// Adding the kernel at a cell and then removing it again restores every
/// energy exactly, whatever the field held before.
pub proof fn lemma_update_round_trip(w: Seq<i128>, kernel: Seq<u32>, width: int, center: int)
    requires
        bounded(w, energy_limit()),
    ensures
        updated(updated(w, kernel, width, center, 1), kernel, width, center, -1) == w,
{
    let w1 = updated(w, kernel, width, center, 1);
    let w2 = updated(w1, kernel, width, center, -1);
    assert forall|i: int| 0 <= i < w.len() implies w2[i] == w[i] by {
        assert(w1[i] == w[i] + weight(kernel, width, i, center));
    }
    assert(w2 =~= w);
}

} // verus!
