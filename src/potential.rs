use vstd::prelude::*;
use crate::torus::lemma_sq_dist_offset;
use crate::energy::{weight, field_at};

verus! {

/// The pattern as multiplicities: one unit at each set cell.
pub open spec fn bits(p: Seq<u8>) -> Seq<int> {
    Seq::new(p.len(), |j: int| p[j] as int)
}

/// Sum over the cells below `len` of `o[i] * (w[i] + g[i])`: the pairwise
/// energy of the units `o`, counting their energy against the fixed units
/// behind `g` twice.
pub open spec fn potential(o: Seq<int>, w: Seq<i128>, g: Seq<int>, len: nat) -> int
    decreases len,
{
    if len == 0 {
        0
    } else {
        potential(o, w, g, (len - 1) as nat) + o[len - 1] * (w[len - 1] + g[len - 1])
    }
}

/// Sum over the cells below `len` of `o[i] * i`.
pub open spec fn index_weight(o: Seq<int>, len: nat) -> int
    decreases len,
{
    if len == 0 {
        0
    } else {
        index_weight(o, (len - 1) as nat) + o[len - 1] * (len - 1)
    }
}

pub proof fn lemma_potential_cell(o: Seq<int>, w: Seq<i128>, g: Seq<int>, len: nat, c: int, s: int)
    requires
        0 <= c < o.len(),
        len <= o.len(),
    ensures
        potential(o.update(c, o[c] + s), w, g, len)
            == potential(o, w, g, len) + if c < len { s * (w[c] + g[c]) } else { 0 },
    decreases len,
{
    if len > 0 {
        lemma_potential_cell(o, w, g, (len - 1) as nat, c, s);
        let x = w[c] + g[c];
        assert((o[c] + s) * x == o[c] * x + s * x) by (nonlinear_arith);
    }
}

pub proof fn lemma_index_weight_cell(o: Seq<int>, len: nat, c: int, s: int)
    requires
        0 <= c < o.len(),
        len <= o.len(),
    ensures
        index_weight(o.update(c, o[c] + s), len) == index_weight(o, len) + if c < len { s * c } else { 0 },
    decreases len,
{
    if len > 0 {
        lemma_index_weight_cell(o, (len - 1) as nat, c, s);
        assert((o[c] + s) * c == o[c] * c + s * c) by (nonlinear_arith);
    }
}

/// Moving the field by a kernel centred at `c` moves the potential by the
/// energy of the units at `c`, since the kernel is symmetric.
pub proof fn lemma_potential_shift(
    o: Seq<int>,
    w: Seq<i128>,
    w2: Seq<i128>,
    g: Seq<int>,
    kernel: Seq<u32>,
    width: int,
    c: int,
    s: int,
    len: nat,
)
    requires
        width >= 1,
        0 <= c < width * width,
        len <= width * width,
        forall|i: int| 0 <= i < len ==> #[trigger] w2[i] == w[i] + s * weight(kernel, width, i, c),
    ensures
        potential(o, w2, g, len) == potential(o, w, g, len) + s * field_at(o, kernel, width, c, len),
    decreases len,
{
    if len > 0 {
        let l = len - 1;
        lemma_potential_shift(o, w, w2, g, kernel, width, c, s, l as nat);
        lemma_sq_dist_offset(width, l, c);
        let k = weight(kernel, width, l, c);
        assert(k == weight(kernel, width, c, l));
        assert(o[l] * (w[l] + s * k + g[l]) == o[l] * (w[l] + g[l]) + s * (o[l] * k)) by (nonlinear_arith);
        assert(w2[l] == w[l] + s * k);
        assert(potential(o, w2, g, len) == potential(o, w2, g, l as nat) + o[l] * (w2[l] + g[l]));
        assert(potential(o, w, g, len) == potential(o, w, g, l as nat) + o[l] * (w[l] + g[l]));
        assert(field_at(o, kernel, width, c, len) == field_at(o, kernel, width, c, l as nat) + o[l] * k);
        assert(s * field_at(o, kernel, width, c, len) == s * field_at(o, kernel, width, c, l as nat) + s * (o[l] * k)) by (nonlinear_arith)
            requires field_at(o, kernel, width, c, len) == field_at(o, kernel, width, c, l as nat) + o[l] * k;
    }
}

pub proof fn lemma_potential_nonneg(o: Seq<int>, w: Seq<i128>, g: Seq<int>, len: nat)
    requires
        len <= o.len(),
        len <= w.len(),
        len <= g.len(),
        forall|j: int| 0 <= j < len ==> #[trigger] o[j] >= 0 && w[j] >= 0 && g[j] >= 0,
    ensures
        potential(o, w, g, len) >= 0,
    decreases len,
{
    if len > 0 {
        lemma_potential_nonneg(o, w, g, (len - 1) as nat);
        let l = len - 1;
        assert(o[l] * (w[l] + g[l]) >= 0) by (nonlinear_arith)
            requires o[l] >= 0, w[l] + g[l] >= 0;
    }
}

pub proof fn lemma_index_weight_nonneg(o: Seq<int>, len: nat)
    requires
        len <= o.len(),
        forall|j: int| 0 <= j < len ==> #[trigger] o[j] >= 0,
    ensures
        index_weight(o, len) >= 0,
    decreases len,
{
    if len > 0 {
        lemma_index_weight_nonneg(o, (len - 1) as nat);
        let l = len - 1;
        assert(o[l] * l >= 0) by (nonlinear_arith)
            requires o[l] >= 0, l >= 0;
    }
}

} // verus!
