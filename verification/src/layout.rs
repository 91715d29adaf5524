use vstd::prelude::*;
use vstd::arithmetic::div_mod::{
    lemma_basic_div, lemma_div_by_multiple, lemma_div_is_ordered,
    lemma_div_multiples_vanish_fancy, lemma_div_pos_is_pos, lemma_fundamental_div_mod,
    lemma_mod_bound, lemma_small_mod,
};
use vstd::arithmetic::mul::{lemma_mul_inequality, lemma_mul_is_commutative,
    lemma_mul_is_distributive_add, lemma_mul_upper_bound};
use crate::enums::{AlignmentMode, StitchError};

verus! {

/// The width and height of one image, in pixels.
#[derive(Clone, Copy, Debug, PartialEq, Eq, Structural)]
pub struct Extent {
    pub w: u64,
    pub h: u64,
}

/// Where one image lands on the canvas: its top-left origin and its placed
/// size after any downscaling.
#[derive(Clone, Copy, Debug, PartialEq, Eq, Structural)]
pub struct Placement {
    pub x: u64,
    pub y: u64,
    pub w: u64,
    pub h: u64,
}

/// The computed arrangement: the canvas size and one placement per image, in
/// input order.
#[derive(Clone, Debug)]
pub struct LayoutPlan {
    pub canvas_w: u64,
    pub canvas_h: u64,
    pub placements: Vec<Placement>,
}

/// The least `r >= c` with `r * r >= n`; walking upward from `c`.
pub open spec fn ceil_sqrt_from(c: int, n: int) -> int
    decreases n - c,
{
    if c * c >= n || n - c <= 0 {
        c
    } else {
        ceil_sqrt_from(c + 1, n)
    }
}

/// The number of grid columns for each alignment: one per image in a single
/// row, a single column, or the ceiling of the square root of the image
/// count for the near-square grid.
pub open spec fn spec_columns(n: int, alignment: AlignmentMode) -> int {
    match alignment {
        AlignmentMode::Horizontal => n,
        AlignmentMode::Vertical => 1,
        AlignmentMode::Grid => ceil_sqrt_from(1, n),
    }
}

/// The number of grid rows: the image count divided by the column count,
/// rounded up.
pub open spec fn spec_rows(n: int, c: int) -> int {
    (n + c - 1) / c
}

/// The width of column `j` among the first `m` images: the maximum width of
/// the images placed in that column, or zero for an empty column.
pub open spec fn col_width(dims: Seq<Extent>, c: int, j: int, m: int) -> int
    decreases m,
{
    if m <= 0 {
        0
    } else {
        let prev = col_width(dims, c, j, m - 1);
        if (m - 1) % c == j && dims[m - 1].w > prev {
            dims[m - 1].w as int
        } else {
            prev
        }
    }
}

/// The height of row `k` among the first `m` images: the maximum height of
/// the images placed in that row, or zero for an empty row.
pub open spec fn row_height(dims: Seq<Extent>, c: int, k: int, m: int) -> int
    decreases m,
{
    if m <= 0 {
        0
    } else {
        let prev = row_height(dims, c, k, m - 1);
        if (m - 1) / c == k && dims[m - 1].h > prev {
            dims[m - 1].h as int
        } else {
            prev
        }
    }
}

/// The sum of the widths of the first `j` columns: the horizontal offset of
/// column `j`, and for `j == c` the canvas width before scaling.
pub open spec fn sum_col_widths(dims: Seq<Extent>, c: int, j: int) -> int
    decreases j,
{
    if j <= 0 {
        0
    } else {
        sum_col_widths(dims, c, j - 1) + col_width(dims, c, j - 1, dims.len() as int)
    }
}

/// The sum of the heights of the first `k` rows: the vertical offset of row
/// `k`, and for `k == spec_rows` the canvas height before scaling.
pub open spec fn sum_row_heights(dims: Seq<Extent>, c: int, k: int) -> int
    decreases k,
{
    if k <= 0 {
        0
    } else {
        sum_row_heights(dims, c, k - 1) + row_height(dims, c, k - 1, dims.len() as int)
    }
}

/// The canvas width before scaling.
pub open spec fn spec_canvas_w(dims: Seq<Extent>, c: int) -> int {
    sum_col_widths(dims, c, c)
}

/// The canvas height before scaling.
pub open spec fn spec_canvas_h(dims: Seq<Extent>, c: int) -> int {
    sum_row_heights(dims, c, spec_rows(dims.len() as int, c))
}

/// The uniform scale factor, as the fraction `num / den`: the tighter of the
/// two per-axis ratios, over the axes that are both bounded and exceeded,
/// and one (no scaling) when neither axis calls for it. Never above one.
pub open spec fn spec_scale(cw: int, ch: int, maxw: int, maxh: int) -> (int, int) {
    let first = if maxw > 0 && cw > maxw {
        (maxw, cw)
    } else {
        (1int, 1int)
    };
    if maxh > 0 && ch > maxh && maxh * first.1 < first.0 * ch {
        (maxh, ch)
    } else {
        first
    }
}

/// A length scaled by the fraction `num / den`, rounded down.
pub open spec fn scaled(v: int, num: int, den: int) -> int {
    v * num / den
}

/// The scale factor the plan applies, derived from the unscaled canvas.
pub open spec fn spec_scale_of(dims: Seq<Extent>, alignment: AlignmentMode, maxw: int, maxh: int) -> (
    int,
    int,
) {
    let c = spec_columns(dims.len() as int, alignment);
    spec_scale(spec_canvas_w(dims, c), spec_canvas_h(dims, c), maxw, maxh)
}

/// The placement of image `i`: its column and row offsets and its own size,
/// all scaled by the plan's uniform factor.
pub open spec fn spec_placement(
    dims: Seq<Extent>,
    alignment: AlignmentMode,
    maxw: int,
    maxh: int,
    i: int,
) -> Placement {
    let c = spec_columns(dims.len() as int, alignment);
    let s = spec_scale_of(dims, alignment, maxw, maxh);
    Placement {
        x: scaled(sum_col_widths(dims, c, i % c), s.0, s.1) as u64,
        y: scaled(sum_row_heights(dims, c, i / c), s.0, s.1) as u64,
        w: scaled(dims[i].w as int, s.0, s.1) as u64,
        h: scaled(dims[i].h as int, s.0, s.1) as u64,
    }
}

/// Whether a placement lies fully on a canvas of the given size.
pub open spec fn placement_within(p: Placement, cw: int, ch: int) -> bool {
    p.x + p.w <= cw && p.y + p.h <= ch
}

/// Whether placement `p` covers canvas pixel `(x, y)`.
pub open spec fn covers_placement(p: Placement, x: int, y: int) -> bool {
    p.x <= x < p.x + p.w && p.y <= y < p.y + p.h
}

/// Whether two placed rectangles share no pixel.
pub open spec fn rects_disjoint(a: Placement, b: Placement) -> bool {
    a.x + a.w <= b.x || b.x + b.w <= a.x || a.y + a.h <= b.y || b.y + b.h <= a.y
}

/// Whether the placements are pairwise free of overlap.
pub open spec fn placements_disjoint(ps: Seq<Placement>) -> bool {
    forall|i: int, j: int| 0 <= i < j < ps.len() ==> rects_disjoint(ps[i], ps[j])
}

proof fn lemma_col_width_nonneg(dims: Seq<Extent>, c: int, j: int, m: int)
    ensures
        col_width(dims, c, j, m) >= 0,
    decreases m,
{
    if m > 0 {
        lemma_col_width_nonneg(dims, c, j, m - 1);
    }
}

proof fn lemma_row_height_nonneg(dims: Seq<Extent>, c: int, k: int, m: int)
    ensures
        row_height(dims, c, k, m) >= 0,
    decreases m,
{
    if m > 0 {
        lemma_row_height_nonneg(dims, c, k, m - 1);
    }
}

proof fn lemma_sum_col_widths_mono(dims: Seq<Extent>, c: int, j1: int, j2: int)
    requires
        j1 <= j2,
    ensures
        sum_col_widths(dims, c, j1) <= sum_col_widths(dims, c, j2),
    decreases j2 - j1,
{
    if j1 < j2 {
        lemma_sum_col_widths_mono(dims, c, j1, j2 - 1);
        lemma_col_width_nonneg(dims, c, j2 - 1, dims.len() as int);
    }
}

proof fn lemma_sum_row_heights_mono(dims: Seq<Extent>, c: int, k1: int, k2: int)
    requires
        k1 <= k2,
    ensures
        sum_row_heights(dims, c, k1) <= sum_row_heights(dims, c, k2),
    decreases k2 - k1,
{
    if k1 < k2 {
        lemma_sum_row_heights_mono(dims, c, k1, k2 - 1);
        lemma_row_height_nonneg(dims, c, k2 - 1, dims.len() as int);
    }
}

proof fn lemma_col_width_covers(dims: Seq<Extent>, c: int, i: int, m: int)
    requires
        0 <= i < m,
        1 <= c,
    ensures
        dims[i].w <= col_width(dims, c, i % c, m),
    decreases m,
{
    if i == m - 1 {
        lemma_col_width_nonneg(dims, c, i % c, m - 1);
    } else {
        lemma_col_width_covers(dims, c, i, m - 1);
    }
}

proof fn lemma_row_height_covers(dims: Seq<Extent>, c: int, i: int, m: int)
    requires
        0 <= i < m,
        1 <= c,
    ensures
        dims[i].h <= row_height(dims, c, i / c, m),
    decreases m,
{
    if i == m - 1 {
        lemma_row_height_nonneg(dims, c, i / c, m - 1);
    } else {
        lemma_row_height_covers(dims, c, i, m - 1);
    }
}

/// The quotients of two non-negative numbers never sum above the quotient of
/// their sum.
proof fn lemma_div_superadd(x: int, y: int, d: int)
    requires
        0 <= x,
        0 <= y,
        1 <= d,
    ensures
        x / d + y / d <= (x + y) / d,
{
    lemma_fundamental_div_mod(x, d);
    lemma_fundamental_div_mod(y, d);
    lemma_fundamental_div_mod(x + y, d);
    lemma_mod_bound(x, d);
    lemma_mod_bound(y, d);
    lemma_mod_bound(x + y, d);
    let q1 = x / d;
    let q2 = y / d;
    let q3 = (x + y) / d;
    if q1 + q2 > q3 {
        lemma_mul_inequality(q3 + 1, q1 + q2, d);
        lemma_mul_is_commutative(q3 + 1, d);
        lemma_mul_is_commutative(q1 + q2, d);
        lemma_mul_is_distributive_add(d, q3, 1);
        lemma_mul_is_distributive_add(d, q1, q2);
        assert(false);
    }
}

proof fn lemma_scaled_superadd(a: int, b: int, num: int, den: int)
    requires
        0 <= a,
        0 <= b,
        0 <= num,
        1 <= den,
    ensures
        scaled(a, num, den) + scaled(b, num, den) <= scaled(a + b, num, den),
{
    lemma_mul_nonneg_pair(a, num);
    lemma_mul_nonneg_pair(b, num);
    lemma_div_superadd(a * num, b * num, den);
    lemma_mul_is_distributive_add_other_way_local(num, a, b);
}

proof fn lemma_mul_nonneg_pair(a: int, b: int)
    requires
        0 <= a,
        0 <= b,
    ensures
        0 <= a * b,
{
    lemma_mul_inequality(0, a, b);
}

proof fn lemma_mul_is_distributive_add_other_way_local(x: int, a: int, b: int)
    ensures
        (a + b) * x == a * x + b * x,
{
    lemma_mul_is_commutative(a + b, x);
    lemma_mul_is_distributive_add(x, a, b);
    lemma_mul_is_commutative(a, x);
    lemma_mul_is_commutative(b, x);
}

proof fn lemma_scaled_mono(a: int, b: int, num: int, den: int)
    requires
        0 <= a <= b,
        0 <= num,
        1 <= den,
    ensures
        scaled(a, num, den) <= scaled(b, num, den),
{
    lemma_mul_inequality(a, b, num);
    lemma_div_is_ordered(a * num, b * num, den);
}

/// Scaling by a factor of at most one never lengthens a length.
proof fn lemma_scaled_le(v: int, num: int, den: int)
    requires
        0 <= v,
        0 <= num <= den,
        1 <= den,
    ensures
        0 <= scaled(v, num, den) <= v,
{
    lemma_mul_inequality(num, den, v);
    lemma_mul_is_commutative(num, v);
    lemma_mul_is_commutative(den, v);
    lemma_div_is_ordered(v * num, v * den, den);
    lemma_div_by_multiple(v, den);
    lemma_mul_nonneg_pair(v, num);
    lemma_div_pos_is_pos(v * num, den);
}

/// Row indices of the first `n` images stay below the row count.
proof fn lemma_row_index_bound(i: int, n: int, c: int)
    requires
        0 <= i < n,
        1 <= c,
    ensures
        0 <= i / c < spec_rows(n, c),
        0 <= i % c < c,
    decreases 0int,
{
    lemma_div_pos_is_pos(i, c);
    lemma_div_is_ordered(i, n - 1, c);
    lemma_fundamental_div_mod(n - 1, c);
    lemma_mod_bound(n - 1, c);
    lemma_mod_bound(i, c);
    let q = (n - 1) / c;
    let b = (n - 1) % c;
    assert(n + c - 1 == c * (q + 1) + b) by {
        lemma_mul_is_distributive_add(c, q, 1);
    }
    lemma_div_multiples_vanish_fancy(q + 1, b, c);
}

/// The row count is at least one and at most the image count.
proof fn lemma_rows_bounds(n: int, c: int)
    requires
        1 <= n,
        1 <= c,
    ensures
        1 <= spec_rows(n, c) <= n,
{
    lemma_mul_inequality(1, c, n);
    lemma_mul_is_commutative(c, n);
    lemma_div_is_ordered(n + c - 1, c * n + c - 1, c);
    lemma_div_multiples_vanish_fancy(n, c - 1, c);
    lemma_div_is_ordered(c, n + c - 1, c);
    lemma_div_by_multiple(1, c);
    lemma_mul_is_commutative(1, c);
}

fn ceil_sqrt(n: u64) -> (c: u64)
    requires
        1 <= n <= 0xFFFF_FFFF,
    ensures
        c == ceil_sqrt_from(1, n as int),
        1 <= c <= 0x10000,
        c <= n,
{
    let mut c: u64 = 1;
    while c * c < n
        invariant
            1 <= c <= 0x10000,
            c * c <= 0x1_0000_0000,
            c == 1 || (c - 1) * (c - 1) < n,
            n <= 0xFFFF_FFFF,
            ceil_sqrt_from(1, n as int) == ceil_sqrt_from(c as int, n as int),
        decreases n - c,
    {
        proof {
            assert(c as int <= (c as int) * (c as int)) by (nonlinear_arith)
                requires
                    1 <= c as int,
            ;
            assert(c < 0x10000) by (nonlinear_arith)
                requires
                    (c as int) * (c as int) < 0x1_0000_0000,
                    1 <= c as int,
            ;
            assert((c as int + 1) * (c as int + 1) <= 0x1_0000_0000) by (nonlinear_arith)
                requires
                    1 <= c as int,
                    c as int <= 0xFFFF,
            ;
        }
        c = c + 1;
    }
    proof {
        if c > 1 {
            assert(c as int - 1 <= (c as int - 1) * (c as int - 1)) by (nonlinear_arith)
                requires
                    1 <= c as int - 1,
            ;
        }
    }
    c
}

fn scale_dim(v: u64, num: u64, den: u64) -> (r: u64)
    requires
        1 <= den,
        num <= den,
    ensures
        r == scaled(v as int, num as int, den as int),
        r <= v,
{
    proof {
        lemma_scaled_le(v as int, num as int, den as int);
        lemma_mul_upper_bound(v as int, u64::MAX as int, num as int, u64::MAX as int);
    }
    let prod: u128 = (v as u128) * (num as u128);
    let q: u128 = prod / (den as u128);
    q as u64
}

/// Computes the layout: the grid shape for the alignment, top-left cell
/// placement with cumulative column/row offsets, the canvas size, and the
/// uniform downscale demanded by the optional per-axis bounds (zero means
/// unbounded). Fails with `EmptyInput` exactly when no image is supplied.
/// Every placement lies on the canvas and no two placements overlap.
#[verifier::loop_isolation(false)]
#[verifier::rlimit(100)]
pub fn plan_layout(dims: &Vec<Extent>, alignment: AlignmentMode, maxw: u64, maxh: u64) -> (r:
    Result<LayoutPlan, StitchError>)
    requires
        dims@.len() <= 0xFFFF_FFFF,
        forall|i: int|
            0 <= i < dims@.len() ==> 1 <= (#[trigger] dims@[i]).w <= 0xFFFF_FFFF && 1
                <= dims@[i].h <= 0xFFFF_FFFF,
    ensures
        dims@.len() == 0 ==> (r matches Err(e) && e == StitchError::EmptyInput),
        dims@.len() > 0 ==> (r matches Ok(p) && ({
            let c = spec_columns(dims@.len() as int, alignment);
            let s = spec_scale_of(dims@, alignment, maxw as int, maxh as int);
            &&& p.placements@.len() == dims@.len()
            &&& p.canvas_w == scaled(spec_canvas_w(dims@, c), s.0, s.1)
            &&& p.canvas_h == scaled(spec_canvas_h(dims@, c), s.0, s.1)
            &&& forall|i: int|
                0 <= i < dims@.len() ==> p.placements@[i] == spec_placement(
                    dims@,
                    alignment,
                    maxw as int,
                    maxh as int,
                    i,
                )
            &&& forall|i: int|
                0 <= i < dims@.len() ==> placement_within(
                    #[trigger] p.placements@[i],
                    p.canvas_w as int,
                    p.canvas_h as int,
                )
            &&& placements_disjoint(p.placements@)
        })),
{
    let n = dims.len();
    if n == 0 {
        return Err(StitchError::EmptyInput);
    }
    // Grid shape
    let c: usize = match alignment {
        AlignmentMode::Horizontal => n,
        AlignmentMode::Vertical => 1,
        AlignmentMode::Grid => ceil_sqrt(n as u64) as usize,
    };
    proof {
        assert(c as int == spec_columns(n as int, alignment));
        assert(1 <= c <= n);
        lemma_rows_bounds(n as int, c as int);
    }
    let rows: usize = ((n as u64 + c as u64 - 1) / (c as u64)) as usize;
    proof {
        assert(rows as int == spec_rows(n as int, c as int));
    }
    // Column widths and row heights: the maximum extent in each.
    let mut col_widths: Vec<u64> = Vec::new();
    let mut j: usize = 0;
    while j < c
        invariant
            j <= c,
            col_widths@.len() == j,
            forall|k: int| 0 <= k < j ==> col_widths@[k] == 0,
        decreases c - j,
    {
        col_widths.push(0);
        j = j + 1;
    }
    let mut row_heights: Vec<u64> = Vec::new();
    let mut k: usize = 0;
    while k < rows
        invariant
            k <= rows,
            row_heights@.len() == k,
            forall|q: int| 0 <= q < k ==> row_heights@[q] == 0,
        decreases rows - k,
    {
        row_heights.push(0);
        k = k + 1;
    }
    let mut i: usize = 0;
    while i < n
        invariant
            i <= n,
            col_widths@.len() == c,
            row_heights@.len() == rows,
            forall|q: int|
                0 <= q < c ==> col_widths@[q] == col_width(dims@, c as int, q, i as int)
                    && col_widths@[q] <= 0xFFFF_FFFF,
            forall|q: int|
                0 <= q < rows ==> row_heights@[q] == row_height(dims@, c as int, q, i as int)
                    && row_heights@[q] <= 0xFFFF_FFFF,
        decreases n - i,
    {
        proof {
            lemma_row_index_bound(i as int, n as int, c as int);
        }
        let j = i % c;
        let k = i / c;
        if dims[i].w > col_widths[j] {
            col_widths[j] = dims[i].w;
        }
        if dims[i].h > row_heights[k] {
            row_heights[k] = dims[i].h;
        }
        i = i + 1;
    }
    // Cumulative offsets and the unscaled canvas size.
    let mut x_offsets: Vec<u64> = Vec::new();
    let mut acc_w: u64 = 0;
    let mut j: usize = 0;
    while j < c
        invariant
            j <= c,
            x_offsets@.len() == j,
            forall|q: int| 0 <= q < j ==> x_offsets@[q] == sum_col_widths(dims@, c as int, q),
            acc_w == sum_col_widths(dims@, c as int, j as int),
            acc_w <= (j as int) * 0xFFFF_FFFF,
        decreases c - j,
    {
        x_offsets.push(acc_w);
        acc_w = acc_w + col_widths[j];
        j = j + 1;
    }
    let canvas_w = acc_w;
    let mut y_offsets: Vec<u64> = Vec::new();
    let mut acc_h: u64 = 0;
    let mut k: usize = 0;
    while k < rows
        invariant
            k <= rows,
            y_offsets@.len() == k,
            forall|q: int| 0 <= q < k ==> y_offsets@[q] == sum_row_heights(dims@, c as int, q),
            acc_h == sum_row_heights(dims@, c as int, k as int),
            acc_h <= (k as int) * 0xFFFF_FFFF,
        decreases rows - k,
    {
        y_offsets.push(acc_h);
        acc_h = acc_h + row_heights[k];
        k = k + 1;
    }
    let canvas_h = acc_h;
    proof {
        assert(canvas_w as int == spec_canvas_w(dims@, c as int));
        assert(canvas_h as int == spec_canvas_h(dims@, c as int));
    }
    // The uniform scale factor num / den.
    let mut num: u64 = 1;
    let mut den: u64 = 1;
    if maxw > 0 && canvas_w > maxw {
        num = maxw;
        den = canvas_w;
    }
    if maxh > 0 && canvas_h > maxh {
        proof {
            lemma_mul_upper_bound(maxh as int, u64::MAX as int, den as int, u64::MAX as int);
            lemma_mul_upper_bound(num as int, u64::MAX as int, canvas_h as int, u64::MAX as int);
        }
        if (maxh as u128) * (den as u128) < (num as u128) * (canvas_h as u128) {
            num = maxh;
            den = canvas_h;
        }
    }
    let ghost s = spec_scale_of(dims@, alignment, maxw as int, maxh as int);
    proof {
        assert(num as int == s.0 && den as int == s.1);
        assert(1 <= num <= den);
    }
    // Scaled placements.
    let mut placements: Vec<Placement> = Vec::new();
    let mut i: usize = 0;
    while i < n
        invariant
            i <= n,
            x_offsets@.len() == c,
            y_offsets@.len() == rows,
            forall|q: int| 0 <= q < c ==> x_offsets@[q] == sum_col_widths(dims@, c as int, q),
            forall|q: int| 0 <= q < rows ==> y_offsets@[q] == sum_row_heights(dims@, c as int, q),
            placements@.len() == i,
            forall|q: int|
                0 <= q < i ==> placements@[q] == spec_placement(
                    dims@,
                    alignment,
                    maxw as int,
                    maxh as int,
                    q,
                ),
        decreases n - i,
    {
        proof {
            lemma_row_index_bound(i as int, n as int, c as int);
        }
        let j = i % c;
        let k = i / c;
        let x = scale_dim(x_offsets[j], num, den);
        let y = scale_dim(y_offsets[k], num, den);
        let pw = scale_dim(dims[i].w, num, den);
        let ph = scale_dim(dims[i].h, num, den);
        placements.push(Placement { x, y, w: pw, h: ph });
        i = i + 1;
    }
    let canvas_w_s = scale_dim(canvas_w, num, den);
    let canvas_h_s = scale_dim(canvas_h, num, den);
    // Every placement fits on the canvas, and no two overlap.
    proof {
        lemma_plan_conclusion(
            dims@,
            alignment,
            maxw as int,
            maxh as int,
            c as int,
            n as int,
            num as int,
            den as int,
            canvas_w as int,
            canvas_h as int,
            placements@,
            canvas_w_s as int,
            canvas_h_s as int,
        );
    }
    Ok(LayoutPlan { canvas_w: canvas_w_s, canvas_h: canvas_h_s, placements })
}


/// Once the placements follow the planned formulas, they all fit on the
/// scaled canvas and no two of them overlap.
#[verifier::rlimit(100)]
proof fn lemma_plan_conclusion(
    dims: Seq<Extent>,
    alignment: AlignmentMode,
    maxw: int,
    maxh: int,
    c: int,
    n: int,
    num: int,
    den: int,
    canvas_w: int,
    canvas_h: int,
    placements: Seq<Placement>,
    canvas_w_s: int,
    canvas_h_s: int,
)
    requires
        1 <= c,
        n == dims.len(),
        1 <= n,
        forall|i: int|
            0 <= i < n ==> 1 <= (#[trigger] dims[i]).w <= 0xFFFF_FFFF && 1 <= dims[i].h
                <= 0xFFFF_FFFF,
        c == spec_columns(n, alignment),
        num == spec_scale_of(dims, alignment, maxw, maxh).0,
        den == spec_scale_of(dims, alignment, maxw, maxh).1,
        1 <= num <= den,
        canvas_w == spec_canvas_w(dims, c),
        canvas_h == spec_canvas_h(dims, c),
        0 <= canvas_w <= u64::MAX,
        0 <= canvas_h <= u64::MAX,
        canvas_w_s == scaled(canvas_w, num, den),
        canvas_h_s == scaled(canvas_h, num, den),
        placements.len() == n,
        forall|i: int|
            0 <= i < n ==> #[trigger] placements[i] == spec_placement(
                dims,
                alignment,
                maxw,
                maxh,
                i,
            ),
    ensures
        forall|i: int|
            0 <= i < n ==> placement_within(#[trigger] placements[i], canvas_w_s, canvas_h_s),
        placements_disjoint(placements),
{
    assert forall|i: int|
        0 <= i < n implies placement_within(#[trigger] placements[i], canvas_w_s, canvas_h_s) by {
        lemma_row_index_bound(i, n, c);
        lemma_placement_in_range(dims, c, n, i, num, den, canvas_w, canvas_h);
        let j = i % c;
        let k = i / c;
        lemma_placed_edge_x(dims, c, i, j + 1, num, den);
        lemma_scaled_mono_canvas(dims, c, j + 1, c, num, den);
        lemma_placed_edge_y(dims, c, i, k + 1, num, den);
        lemma_scaled_mono_rows(dims, c, k + 1, spec_rows(n, c), num, den);
    }
    assert forall|i1: int, i2: int|
        0 <= i1 < i2 < n implies rects_disjoint(placements[i1], placements[i2]) by {
        lemma_row_index_bound(i1, n, c);
        lemma_row_index_bound(i2, n, c);
        lemma_placement_in_range(dims, c, n, i1, num, den, canvas_w, canvas_h);
        lemma_placement_in_range(dims, c, n, i2, num, den, canvas_w, canvas_h);
        let j1 = i1 % c;
        let j2 = i2 % c;
        let k1 = i1 / c;
        let k2 = i2 / c;
        if j1 == j2 && k1 == k2 {
            lemma_fundamental_div_mod(i1, c);
            lemma_fundamental_div_mod(i2, c);
            assert(false);
        }
        if j1 < j2 {
            lemma_placed_edge_x(dims, c, i1, j1 + 1, num, den);
            lemma_scaled_mono_canvas(dims, c, j1 + 1, j2, num, den);
        } else if j2 < j1 {
            lemma_placed_edge_x(dims, c, i2, j2 + 1, num, den);
            lemma_scaled_mono_canvas(dims, c, j2 + 1, j1, num, den);
        } else if k1 < k2 {
            lemma_placed_edge_y(dims, c, i1, k1 + 1, num, den);
            lemma_scaled_mono_rows(dims, c, k1 + 1, k2, num, den);
        } else {
            lemma_placed_edge_y(dims, c, i2, k2 + 1, num, den);
            lemma_scaled_mono_rows(dims, c, k2 + 1, k1, num, den);
        }
    }
}

/// The scaled placement components of image `i`, read back as integers from
/// the struct's fields: each cast stays in range.
proof fn lemma_placement_in_range(
    dims: Seq<Extent>,
    c: int,
    n: int,
    i: int,
    num: int,
    den: int,
    cw: int,
    ch: int,
)
    requires
        1 <= c,
        n == dims.len(),
        0 <= i < n,
        1 <= num <= den,
        cw == spec_canvas_w(dims, c),
        ch == spec_canvas_h(dims, c),
        0 <= cw <= u64::MAX,
        0 <= ch <= u64::MAX,
        1 <= dims[i].w <= 0xFFFF_FFFF,
        1 <= dims[i].h <= 0xFFFF_FFFF,
    ensures
        ({
            let xs = sum_col_widths(dims, c, i % c);
            let ys = sum_row_heights(dims, c, i / c);
            &&& 0 <= scaled(xs, num, den) <= xs <= cw
            &&& 0 <= scaled(ys, num, den) <= ys <= ch
            &&& 0 <= scaled(dims[i].w as int, num, den) <= dims[i].w
            &&& 0 <= scaled(dims[i].h as int, num, den) <= dims[i].h
        }),
{
    lemma_row_index_bound(i, n, c);
    let xs = sum_col_widths(dims, c, i % c);
    let ys = sum_row_heights(dims, c, i / c);
    lemma_sum_col_widths_nonneg(dims, c, i % c);
    lemma_sum_row_heights_nonneg(dims, c, i / c);
    lemma_sum_col_widths_mono(dims, c, i % c, c);
    lemma_sum_row_heights_mono(dims, c, i / c, spec_rows(n, c));
    lemma_scaled_le(xs, num, den);
    lemma_scaled_le(ys, num, den);
    lemma_scaled_le(dims[i].w as int, num, den);
    lemma_scaled_le(dims[i].h as int, num, den);
}

/// The scaled right edge of image `i` stays left of the scaled offset of any
/// column past its own.
proof fn lemma_placed_edge_x(dims: Seq<Extent>, c: int, i: int, j: int, num: int, den: int)
    requires
        1 <= c,
        0 <= i < dims.len(),
        j == i % c + 1,
        0 <= num,
        1 <= den,
    ensures
        scaled(sum_col_widths(dims, c, i % c), num, den) + scaled(dims[i].w as int, num, den)
            <= scaled(sum_col_widths(dims, c, j), num, den),
{
    lemma_col_width_covers(dims, c, i, dims.len() as int);
    lemma_sum_col_widths_nonneg(dims, c, i % c);
    lemma_scaled_superadd(sum_col_widths(dims, c, i % c), dims[i].w as int, num, den);
    lemma_scaled_mono(
        sum_col_widths(dims, c, i % c) + dims[i].w,
        sum_col_widths(dims, c, j),
        num,
        den,
    );
}

/// The scaled bottom edge of image `i` stays above the scaled offset of any
/// row past its own.
proof fn lemma_placed_edge_y(dims: Seq<Extent>, c: int, i: int, k: int, num: int, den: int)
    requires
        1 <= c,
        0 <= i < dims.len(),
        k == i / c + 1,
        0 <= num,
        1 <= den,
    ensures
        scaled(sum_row_heights(dims, c, i / c), num, den) + scaled(dims[i].h as int, num, den)
            <= scaled(sum_row_heights(dims, c, k), num, den),
{
    lemma_row_height_covers(dims, c, i, dims.len() as int);
    lemma_sum_row_heights_nonneg(dims, c, i / c);
    lemma_scaled_superadd(sum_row_heights(dims, c, i / c), dims[i].h as int, num, den);
    lemma_scaled_mono(
        sum_row_heights(dims, c, i / c) + dims[i].h,
        sum_row_heights(dims, c, k),
        num,
        den,
    );
}

proof fn lemma_sum_col_widths_nonneg(dims: Seq<Extent>, c: int, j: int)
    ensures
        sum_col_widths(dims, c, j) >= 0,
{
    lemma_sum_col_widths_mono(dims, c, 0, if j >= 0 { j } else { 0 });
}

proof fn lemma_sum_row_heights_nonneg(dims: Seq<Extent>, c: int, k: int)
    ensures
        sum_row_heights(dims, c, k) >= 0,
{
    lemma_sum_row_heights_mono(dims, c, 0, if k >= 0 { k } else { 0 });
}

proof fn lemma_scaled_mono_canvas(dims: Seq<Extent>, c: int, j1: int, j2: int, num: int, den: int)
    requires
        j1 <= j2,
        0 <= num,
        1 <= den,
    ensures
        scaled(sum_col_widths(dims, c, j1), num, den) <= scaled(
            sum_col_widths(dims, c, j2),
            num,
            den,
        ),
{
    lemma_sum_col_widths_nonneg(dims, c, j1);
    lemma_sum_col_widths_mono(dims, c, j1, j2);
    lemma_scaled_mono(sum_col_widths(dims, c, j1), sum_col_widths(dims, c, j2), num, den);
}

proof fn lemma_scaled_mono_rows(dims: Seq<Extent>, c: int, k1: int, k2: int, num: int, den: int)
    requires
        k1 <= k2,
        0 <= num,
        1 <= den,
    ensures
        scaled(sum_row_heights(dims, c, k1), num, den) <= scaled(
            sum_row_heights(dims, c, k2),
            num,
            den,
        ),
{
    lemma_sum_row_heights_nonneg(dims, c, k1);
    lemma_sum_row_heights_mono(dims, c, k1, k2);
    lemma_scaled_mono(sum_row_heights(dims, c, k1), sum_row_heights(dims, c, k2), num, den);
}

/// The summed pixel area of the first `m` images.
pub open spec fn sum_areas(dims: Seq<Extent>, m: int) -> int
    decreases m,
{
    if m <= 0 {
        0
    } else {
        sum_areas(dims, m - 1) + dims[m - 1].w * dims[m - 1].h
    }
}

proof fn lemma_ceil_sqrt_from_props(c0: int, n: int)
    requires
        1 <= c0,
        (c0 - 1) * (c0 - 1) < n,
        1 <= n,
    ensures
        ({
            let r = ceil_sqrt_from(c0, n);
            &&& r >= c0
            &&& r * r >= n
            &&& (r - 1) * (r - 1) < n
        }),
    decreases n - c0,
{
    if c0 * c0 >= n {
    } else if n - c0 <= 0 {
        assert(c0 <= c0 * c0) by (nonlinear_arith)
            requires
                1 <= c0,
        ;
        assert(false);
    } else {
        lemma_ceil_sqrt_from_props(c0 + 1, n);
    }
}

/// The grid shape law: for `n` images the grid uses the ceiling of the
/// square root of `n` as its column count, and the ceiling of `n` over that
/// as its row count.
pub proof fn lemma_grid_shape(n: int)
    requires
        1 <= n,
    ensures
        ({
            let c = spec_columns(n, AlignmentMode::Grid);
            let r = spec_rows(n, c);
            &&& 1 <= c
            &&& c * c >= n
            &&& (c - 1) * (c - 1) < n
            &&& 1 <= r
            &&& r * c >= n
            &&& (r - 1) * c < n
        }),
{
    lemma_ceil_sqrt_from_props(1, n);
    let c = spec_columns(n, AlignmentMode::Grid);
    let r = spec_rows(n, c);
    lemma_rows_bounds(n, c);
    lemma_fundamental_div_mod(n + c - 1, c);
    lemma_mod_bound(n + c - 1, c);
    assert(r * c >= n && (r - 1) * c < n) by (nonlinear_arith)
        requires
            n + c - 1 == c * r + (n + c - 1) % c,
            0 <= (n + c - 1) % c < c,
            1 <= c,
    ;
}

proof fn lemma_cell_area_bound(dims: Seq<Extent>, c: int, m: int)
    requires
        1 <= c,
        0 <= m <= dims.len(),
        forall|i: int| 0 <= i < dims.len() ==> 1 <= (#[trigger] dims[i]).w && 1 <= dims[i].h,
    ensures
        sum_areas(dims, m) <= spec_canvas_w(dims, c) * sum_row_heights(dims, c, m / c)
            + sum_col_widths(dims, c, m % c) * row_height(dims, c, m / c, dims.len() as int),
    decreases m,
{
    let n = dims.len() as int;
    let cw = spec_canvas_w(dims, c);
    if m == 0 {
        lemma_basic_div(0, c);
        lemma_small_mod(0, c as nat);
    } else {
        lemma_cell_area_bound(dims, c, m - 1);
        let q = (m - 1) / c;
        let s = (m - 1) % c;
        lemma_fundamental_div_mod(m - 1, c);
        lemma_mod_bound(m - 1, c);
        lemma_row_index_bound(m - 1, n, c);
        // the image fits in its cell
        lemma_col_width_covers(dims, c, m - 1, n);
        lemma_row_height_covers(dims, c, m - 1, n);
        lemma_col_width_nonneg(dims, c, s, n);
        lemma_row_height_nonneg(dims, c, q, n);
        let colw = col_width(dims, c, s, n);
        let rowh = row_height(dims, c, q, n);
        assert(dims[m - 1].w * dims[m - 1].h <= colw * rowh) by (nonlinear_arith)
            requires
                0 <= dims[m - 1].w <= colw,
                0 <= dims[m - 1].h <= rowh,
        ;
        if s < c - 1 {
            // same row, next column
            lemma_div_multiples_vanish_fancy(q, s + 1, c);
            assert(m == c * q + (s + 1));
            assert(m / c == q && m % c == s + 1) by {
                lemma_fundamental_div_mod(m, c);
                lemma_mod_bound(m, c);
                assert(m / c == q) by (nonlinear_arith)
                    requires
                        m == c * q + (s + 1),
                        m == c * (m / c) + m % c,
                        0 <= s + 1 < c,
                        0 <= m % c < c,
                        1 <= c,
                ;
            }
            assert(sum_col_widths(dims, c, s + 1) == sum_col_widths(dims, c, s) + colw);
            assert((sum_col_widths(dims, c, s) + colw) * rowh == sum_col_widths(dims, c, s) * rowh
                + colw * rowh) by (nonlinear_arith);
        } else {
            // the row is full: move to the next row
            assert(m == c * (q + 1)) by (nonlinear_arith)
                requires
                    m - 1 == c * q + s,
                    s == c - 1,
            ;
            lemma_div_by_multiple(q + 1, c);
            lemma_mul_is_commutative(q + 1, c);
            assert(m / c == q + 1);
            assert(m % c == 0) by {
                lemma_fundamental_div_mod(m, c);
            }
            lemma_basic_div(0, c);
            lemma_small_mod(0, c as nat);
            assert(sum_col_widths(dims, c, c) == sum_col_widths(dims, c, s) + colw);
            assert(sum_row_heights(dims, c, q + 1) == sum_row_heights(dims, c, q) + rowh);
            assert(cw * (sum_row_heights(dims, c, q) + rowh) == cw * sum_row_heights(dims, c, q)
                + cw * rowh) by (nonlinear_arith);
            assert((sum_col_widths(dims, c, s) + colw) * rowh == sum_col_widths(dims, c, s) * rowh
                + colw * rowh) by (nonlinear_arith);
            lemma_sum_col_widths_nonneg(dims, c, s);
            assert(sum_col_widths(dims, c, s) * rowh + colw * rowh <= cw * rowh) by (
            nonlinear_arith)
                requires
                    sum_col_widths(dims, c, s) + colw == cw,
                    0 <= rowh,
            ;
            assert(0 * row_height(dims, c, q + 1, n) == 0) by (nonlinear_arith);
        }
    }
}

/// The canvas area law: the canvas, before any downscaling, is at least as
/// large as the images it holds, since each column is as wide as its widest
/// image and each row as tall as its tallest.
pub proof fn lemma_canvas_area(dims: Seq<Extent>, c: int)
    requires
        1 <= c,
        1 <= dims.len(),
        forall|i: int| 0 <= i < dims.len() ==> 1 <= (#[trigger] dims[i]).w && 1 <= dims[i].h,
    ensures
        spec_canvas_w(dims, c) * spec_canvas_h(dims, c) >= sum_areas(dims, dims.len() as int),
{
    let n = dims.len() as int;
    let cw = spec_canvas_w(dims, c);
    let r = spec_rows(n, c);
    lemma_cell_area_bound(dims, c, n);
    let q = n / c;
    let s = n % c;
    lemma_fundamental_div_mod(n, c);
    lemma_mod_bound(n, c);
    let rowh = row_height(dims, c, q, n);
    lemma_row_height_nonneg(dims, c, q, n);
    if s == 0 {
        // the last row is exactly full
        lemma_div_multiples_vanish_fancy(q, c - 1, c);
        assert(n + c - 1 == c * q + (c - 1));
        assert(r == q);
        lemma_sum_col_widths_nonneg(dims, c, 0);
        assert(sum_col_widths(dims, c, 0) * rowh == 0) by (nonlinear_arith)
            requires
                sum_col_widths(dims, c, 0) == 0,
        ;
    } else {
        // a partially filled final row still lies within the canvas
        lemma_div_multiples_vanish_fancy(q + 1, s - 1, c);
        assert(n + c - 1 == c * (q + 1) + (s - 1)) by (nonlinear_arith)
            requires
                n == c * q + s,
        ;
        assert(r == q + 1);
        lemma_sum_col_widths_mono(dims, c, s, c);
        lemma_sum_col_widths_nonneg(dims, c, s);
        assert(sum_col_widths(dims, c, s) * rowh <= cw * rowh) by (nonlinear_arith)
            requires
                0 <= sum_col_widths(dims, c, s) <= cw,
                0 <= rowh,
        ;
        assert(sum_row_heights(dims, c, q + 1) == sum_row_heights(dims, c, q) + rowh);
        assert(cw * (sum_row_heights(dims, c, q) + rowh) == cw * sum_row_heights(dims, c, q)
            + cw * rowh) by (nonlinear_arith);
    }
}

/// The cumulative widths of the first `i` images, for the row-layout law.
pub open spec fn prefix_widths(dims: Seq<Extent>, i: int) -> int
    decreases i,
{
    if i <= 0 {
        0
    } else {
        prefix_widths(dims, i - 1) + dims[i - 1].w
    }
}

/// The cumulative heights of the first `i` images, for the column-layout law.
pub open spec fn prefix_heights(dims: Seq<Extent>, i: int) -> int
    decreases i,
{
    if i <= 0 {
        0
    } else {
        prefix_heights(dims, i - 1) + dims[i - 1].h
    }
}

proof fn lemma_single_row_col_width(dims: Seq<Extent>, j: int, m: int)
    requires
        dims.len() >= 1,
        0 <= j < dims.len(),
        0 <= m <= dims.len(),
        forall|i: int| 0 <= i < dims.len() ==> 1 <= (#[trigger] dims[i]).w,
    ensures
        col_width(dims, dims.len() as int, j, m) == if j < m {
            dims[j].w as int
        } else {
            0
        },
    decreases m,
{
    let n = dims.len() as int;
    if m > 0 {
        lemma_single_row_col_width(dims, j, m - 1);
        lemma_small_mod((m - 1) as nat, n as nat);
    }
}

/// The row-layout law: a horizontal arrangement of `n` images is the grid
/// with `n` columns and one row, and its offsets are the plain cumulative
/// sums of the image widths; the canvas is their total width, and as tall
/// as the tallest image.
pub proof fn lemma_horizontal_row_sums(dims: Seq<Extent>)
    requires
        1 <= dims.len(),
        forall|i: int| 0 <= i < dims.len() ==> 1 <= (#[trigger] dims[i]).w && 1 <= dims[i].h,
    ensures
        spec_columns(dims.len() as int, AlignmentMode::Horizontal) == dims.len(),
        spec_rows(dims.len() as int, dims.len() as int) == 1,
        forall|i: int|
            0 <= i <= dims.len() ==> #[trigger] sum_col_widths(dims, dims.len() as int, i)
                == prefix_widths(dims, i),
        sum_row_heights(dims, dims.len() as int, 0) == 0,
        spec_canvas_w(dims, dims.len() as int) == prefix_widths(dims, dims.len() as int),
        spec_canvas_h(dims, dims.len() as int) == row_height(
            dims,
            dims.len() as int,
            0,
            dims.len() as int,
        ),
{
    let n = dims.len() as int;
    lemma_div_multiples_vanish_fancy(1, n - 1, n);
    assert(n + n - 1 == n * 1 + (n - 1));
    assert(spec_rows(n, n) == 1);
    assert forall|i: int|
        0 <= i <= n implies #[trigger] sum_col_widths(dims, n, i) == prefix_widths(dims, i) by {
        lemma_horizontal_prefix(dims, i);
    }
    assert(sum_row_heights(dims, n, 0) == 0);
    assert(sum_row_heights(dims, n, 1) == row_height(dims, n, 0, n));
}

proof fn lemma_horizontal_prefix(dims: Seq<Extent>, i: int)
    requires
        1 <= dims.len(),
        0 <= i <= dims.len(),
        forall|k: int| 0 <= k < dims.len() ==> 1 <= (#[trigger] dims[k]).w,
    ensures
        sum_col_widths(dims, dims.len() as int, i) == prefix_widths(dims, i),
    decreases i,
{
    if i > 0 {
        lemma_horizontal_prefix(dims, i - 1);
        lemma_single_row_col_width(dims, i - 1, dims.len() as int);
    }
}

proof fn lemma_single_col_row_height(dims: Seq<Extent>, k: int, m: int)
    requires
        dims.len() >= 1,
        0 <= k < dims.len(),
        0 <= m <= dims.len(),
        forall|i: int| 0 <= i < dims.len() ==> 1 <= (#[trigger] dims[i]).h,
    ensures
        row_height(dims, 1, k, m) == if k < m {
            dims[k].h as int
        } else {
            0
        },
    decreases m,
{
    if m > 0 {
        lemma_single_col_row_height(dims, k, m - 1);
        lemma_div_by_multiple(m - 1, 1);
        assert((m - 1) / 1 == m - 1);
    }
}

/// The column-layout law: a vertical arrangement of `n` images is the grid
/// with one column and `n` rows, and its offsets are the plain cumulative
/// sums of the image heights; the canvas is their total height, and as wide
/// as the widest image.
pub proof fn lemma_vertical_column_sums(dims: Seq<Extent>)
    requires
        1 <= dims.len(),
        forall|i: int| 0 <= i < dims.len() ==> 1 <= (#[trigger] dims[i]).w && 1 <= dims[i].h,
    ensures
        spec_columns(dims.len() as int, AlignmentMode::Vertical) == 1,
        spec_rows(dims.len() as int, 1) == dims.len(),
        forall|i: int|
            0 <= i <= dims.len() ==> #[trigger] sum_row_heights(dims, 1, i) == prefix_heights(
                dims,
                i,
            ),
        sum_col_widths(dims, 1, 0) == 0,
        spec_canvas_h(dims, 1) == prefix_heights(dims, dims.len() as int),
        spec_canvas_w(dims, 1) == col_width(dims, 1, 0, dims.len() as int),
{
    let n = dims.len() as int;
    assert(spec_rows(n, 1) == n);
    assert forall|i: int|
        0 <= i <= n implies #[trigger] sum_row_heights(dims, 1, i) == prefix_heights(dims, i) by {
        lemma_vertical_prefix(dims, i);
    }
}

proof fn lemma_vertical_prefix(dims: Seq<Extent>, i: int)
    requires
        1 <= dims.len(),
        0 <= i <= dims.len(),
        forall|k: int| 0 <= k < dims.len() ==> 1 <= (#[trigger] dims[k]).h,
    ensures
        sum_row_heights(dims, 1, i) == prefix_heights(dims, i),
    decreases i,
{
    if i > 0 {
        lemma_vertical_prefix(dims, i - 1);
        lemma_single_col_row_height(dims, i - 1, dims.len() as int);
    }
}

/// With no bound set, or none exceeded, the factor is one and every
/// coordinate is handed back unchanged.
pub proof fn lemma_identity_scale(v: int)
    requires
        0 <= v,
    ensures
        scaled(v, 1, 1) == v,
{
    lemma_div_by_multiple(v, 1);
}

/// The size-constraint law: the chosen scale factor is at most one, the
/// scaled canvas never grows, and a bounded axis never ends above its
/// bound.
pub proof fn lemma_size_constraint(cw: int, ch: int, maxw: int, maxh: int)
    requires
        1 <= cw,
        1 <= ch,
        0 <= maxw,
        0 <= maxh,
    ensures
        ({
            let s = spec_scale(cw, ch, maxw, maxh);
            &&& 1 <= s.0 <= s.1
            &&& scaled(cw, s.0, s.1) <= cw
            &&& scaled(ch, s.0, s.1) <= ch
            &&& maxw > 0 ==> scaled(cw, s.0, s.1) <= maxw
            &&& maxh > 0 ==> scaled(ch, s.0, s.1) <= maxh
        }),
{
    let s = spec_scale(cw, ch, maxw, maxh);
    let num = s.0;
    let den = s.1;
    lemma_scaled_le(cw, num, den);
    lemma_scaled_le(ch, num, den);
    lemma_scale_axis_bound(cw, maxw, num, den);
    lemma_scale_axis_bound(ch, maxh, num, den);
}

/// A bounded axis ends at or below its bound: either it was not scaled
/// because it already fit, or the factor is at most `bound / axis`.
proof fn lemma_scale_axis_bound(v: int, bound: int, num: int, den: int)
    requires
        1 <= v,
        1 <= num <= den,
        bound > 0 ==> (v <= bound || num * v <= bound * den),
    ensures
        bound > 0 ==> scaled(v, num, den) <= bound,
{
    if bound > 0 {
        if v <= bound {
            lemma_scaled_le(v, num, den);
        } else {
            lemma_mul_is_commutative(num, v);
            lemma_div_is_ordered(v * num, bound * den, den);
            lemma_mul_is_commutative(bound, den);
            lemma_div_by_multiple(bound, den);
        }
    }
}

/// The aspect-ratio law: scaling a width and a height by the same factor
/// keeps their ratio, up to the rounding of each to a whole pixel.
pub proof fn lemma_scale_preserves_aspect(w: int, h: int, num: int, den: int)
    requires
        1 <= w,
        1 <= h,
        1 <= num <= den,
    ensures
        scaled(w, num, den) * h < (scaled(h, num, den) + 1) * w,
        scaled(h, num, den) * w < (scaled(w, num, den) + 1) * h,
{
    lemma_fundamental_div_mod(w * num, den);
    lemma_mod_bound(w * num, den);
    lemma_fundamental_div_mod(h * num, den);
    lemma_mod_bound(h * num, den);
    let sw = scaled(w, num, den);
    let sh = scaled(h, num, den);
    let r1 = (w * num) % den;
    let r2 = (h * num) % den;
    assert(sw * h < (sh + 1) * w && sh * w < (sw + 1) * h) by (nonlinear_arith)
        requires
            w * num == den * sw + r1,
            h * num == den * sh + r2,
            0 <= r1 < den,
            0 <= r2 < den,
            1 <= w,
            1 <= h,
            1 <= den,
            1 <= num,
    ;
}

} // verus!
