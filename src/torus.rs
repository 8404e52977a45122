use vstd::prelude::*;

verus! {

/// Distance along one axis between coordinates `a` and `b` of a ring of
/// `w` positions: the shorter of the direct and the wrapped way.
pub open spec fn axis_dist(a: int, b: int, w: int) -> int {
    let d = if a >= b { a - b } else { b - a };
    if d <= w - d { d } else { w - d }
}

/// Length of a signed offset `d` on a ring of `w` positions.
pub open spec fn offset_len(d: int, w: int) -> int {
    let m = d % w;
    if m <= w - m { m } else { w - m }
}

/// Squared toroidal distance between cells `i` and `j` of a `w` x `w` grid.
pub open spec fn sq_dist(w: int, i: int, j: int) -> int {
    let dx = axis_dist(i % w, j % w, w);
    let dy = axis_dist(i / w, j / w, w);
    dx * dx + dy * dy
}

/// Squared length of the toroidal offset `(dx, dy)`.
pub open spec fn offset_sq(w: int, dx: int, dy: int) -> int {
    offset_len(dx, w) * offset_len(dx, w) + offset_len(dy, w) * offset_len(dy, w)
}

/// The largest squared toroidal distance on a `w` x `w` grid.
pub open spec fn max_sq_dist(w: int) -> int {
    2 * ((w / 2) * (w / 2))
}

/// A grid width whose cell count fits in a `u32`.
pub open spec fn valid_width(w: u32) -> bool {
    1 <= w && w * w <= u32::MAX
}

proof fn lemma_axis_dist_bound(a: int, b: int, w: int)
    requires
        0 <= a < w,
        0 <= b < w,
    ensures
        0 <= axis_dist(a, b, w) <= w / 2,
{
}

pub proof fn lemma_sq_dist_bound(w: int, i: int, j: int)
    requires
        w >= 1,
        0 <= i < w * w,
        0 <= j < w * w,
    ensures
        0 <= sq_dist(w, i, j) <= max_sq_dist(w),
{
    assert(0 <= i % w < w) by (nonlinear_arith)
        requires w >= 1;
    assert(0 <= j % w < w) by (nonlinear_arith)
        requires w >= 1;
    assert(0 <= i / w < w) by (nonlinear_arith)
        requires w >= 1, 0 <= i < w * w;
    assert(0 <= j / w < w) by (nonlinear_arith)
        requires w >= 1, 0 <= j < w * w;
    let dx = axis_dist(i % w, j % w, w);
    let dy = axis_dist(i / w, j / w, w);
    lemma_axis_dist_bound(i % w, j % w, w);
    lemma_axis_dist_bound(i / w, j / w, w);
    let h = w / 2;
    assert(dx * dx <= h * h) by (nonlinear_arith)
        requires 0 <= dx <= h;
    assert(dy * dy <= h * h) by (nonlinear_arith)
        requires 0 <= dy <= h;
    assert(dx * dx >= 0 && dy * dy >= 0) by (nonlinear_arith);
}

/// Within the grid, the distance along an axis is the length of the offset
/// between the two coordinates.
pub proof fn lemma_axis_dist_is_offset_len(a: int, b: int, w: int)
    requires
        0 <= a < w,
        0 <= b < w,
    ensures
        axis_dist(a, b, w) == offset_len(a - b, w),
{
    if a >= b {
        vstd::arithmetic::div_mod::lemma_small_mod((a - b) as nat, w as nat);
    } else {
        vstd::arithmetic::div_mod::lemma_mod_add_multiples_vanish(a - b, w);
        vstd::arithmetic::div_mod::lemma_small_mod((a - b + w) as nat, w as nat);
    }
}

/// Offset lengths do not change when the offset is reversed.
pub proof fn lemma_offset_len_neg(d: int, w: int)
    requires
        w >= 1,
    ensures
        offset_len(-d, w) == offset_len(d, w),
{
    let m = d % w;
    vstd::arithmetic::div_mod::lemma_fundamental_div_mod(d, w);
    vstd::arithmetic::div_mod::lemma_mod_bound(d, w);
    let q = d / w;
    assert(d == q * w + m) by (nonlinear_arith)
        requires d == w * q + m;
    assert(-d == (-q) * w + 0 - m) by (nonlinear_arith)
        requires d == q * w + m;
    assert(-d == (-q - 1) * w + (w - m)) by (nonlinear_arith)
        requires d == q * w + m;
    if m == 0 {
        vstd::arithmetic::div_mod::lemma_fundamental_div_mod_converse(-d, w, -(d / w), 0);
    } else {
        vstd::arithmetic::div_mod::lemma_fundamental_div_mod_converse(-d, w, -(d / w) - 1, w - m);
    }
}

/// Offset lengths repeat with period `w`.
pub proof fn lemma_offset_len_periodic(d: int, w: int)
    requires
        w >= 1,
    ensures
        offset_len(d + w, w) == offset_len(d, w),
{
    vstd::arithmetic::div_mod::lemma_mod_add_multiples_vanish(d, w);
}

/// The kernel weight of an offset is unchanged by a half turn of the offset
/// and by a shift of a whole period along either axis.
pub proof fn lemma_weight_symmetric_periodic(kernel: Seq<u32>, w: int, dx: int, dy: int)
    requires
        w >= 1,
    ensures
        offset_sq(w, -dx, -dy) == offset_sq(w, dx, dy),
        offset_sq(w, dx + w, dy) == offset_sq(w, dx, dy),
        offset_sq(w, dx, dy + w) == offset_sq(w, dx, dy),
        kernel[offset_sq(w, -dx, -dy)] == kernel[offset_sq(w, dx, dy)],
        kernel[offset_sq(w, dx + w, dy)] == kernel[offset_sq(w, dx, dy)],
        kernel[offset_sq(w, dx, dy + w)] == kernel[offset_sq(w, dx, dy)],
{
    lemma_offset_len_neg(dx, w);
    lemma_offset_len_neg(dy, w);
    lemma_offset_len_periodic(dx, w);
    lemma_offset_len_periodic(dy, w);
}

/// The squared distance between two cells is the squared length of the
/// offset between their coordinates, so it does not depend on the order of
/// the two cells.
pub proof fn lemma_sq_dist_offset(w: int, i: int, j: int)
    requires
        w >= 1,
        0 <= i < w * w,
        0 <= j < w * w,
    ensures
        sq_dist(w, i, j) == offset_sq(w, i % w - j % w, i / w - j / w),
        sq_dist(w, i, j) == sq_dist(w, j, i),
{
    assert(0 <= i % w < w) by (nonlinear_arith)
        requires w >= 1;
    assert(0 <= j % w < w) by (nonlinear_arith)
        requires w >= 1;
    assert(0 <= i / w < w) by (nonlinear_arith)
        requires w >= 1, 0 <= i < w * w;
    assert(0 <= j / w < w) by (nonlinear_arith)
        requires w >= 1, 0 <= j < w * w;
    lemma_axis_dist_is_offset_len(i % w, j % w, w);
    lemma_axis_dist_is_offset_len(i / w, j / w, w);
}

/// Squared toroidal distance between cells `a` and `b` of a `width` x `width`
/// grid.
pub fn toroidal_sq_distance(width: u32, a: usize, b: usize) -> (r: u32)
    requires
        valid_width(width),
        a < width * width,
        b < width * width,
    ensures
        r == sq_dist(width as int, a as int, b as int),
        r <= max_sq_dist(width as int),
{
    proof {
        lemma_sq_dist_bound(width as int, a as int, b as int);
        assert(0 <= (a as int) / (width as int) < width) by (nonlinear_arith)
            requires width >= 1, 0 <= a < width * width;
        assert(0 <= (b as int) / (width as int) < width) by (nonlinear_arith)
            requires width >= 1, 0 <= b < width * width;
    }
    let a32 = a as u32;
    let b32 = b as u32;
    let ax = a32 % width;
    let ay = a32 / width;
    let bx = b32 % width;
    let by_ = b32 / width;
    let dx = axis_distance(ax, bx, width);
    let dy = axis_distance(ay, by_, width);
    proof {
        lemma_axis_dist_bound(ax as int, bx as int, width as int);
        lemma_axis_dist_bound(ay as int, by_ as int, width as int);
        let h = (width / 2) as int;
        assert(dx * dx <= h * h) by (nonlinear_arith)
            requires 0 <= dx <= h;
        assert(dy * dy <= h * h) by (nonlinear_arith)
            requires 0 <= dy <= h;
        assert(h * h <= u32::MAX / 2) by (nonlinear_arith)
            requires h == width / 2, width * width <= u32::MAX;
    }
    dx * dx + dy * dy
}

fn axis_distance(a: u32, b: u32, w: u32) -> (r: u32)
    requires
        a < w,
        b < w,
    ensures
        r == axis_dist(a as int, b as int, w as int),
{
    let d = if a >= b { a - b } else { b - a };
    if d <= w - d { d } else { w - d }
}

} // verus!
