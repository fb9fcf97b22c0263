//! Finding the right-image column that corresponds to a clicked left-image
//! point: the 5 by 5 patch around the point is compared with patches along
//! the same row of the right image.
use vstd::prelude::*;
use crate::display::clamp_int;
use crate::raster::RgbImage;
use crate::stereo::abs_diff;

verus! {

/// Half the side of the compared patches.
pub const PATCH_HALF: i32 = 2;

/// Difference of the patch samples at offset `(dx, dy)`: the left sample
/// near `(lx, ly)` and the right sample near `(rx, ly)`, each position
/// clamped into its picture (the row is clamped into the left picture).
pub open spec fn patch_diff(l: &RgbImage, r: &RgbImage, lx: int, ly: int, rx: int, dx: int, dy: int) -> int {
    let px = clamp_int(lx + dx, 0, l.width - 1);
    let py = clamp_int(ly + dy, 0, l.height - 1);
    let qx = clamp_int(rx + dx, 0, r.width - 1);
    abs_diff(l.sample(px, py, 0), r.sample(qx, py, 0)) + abs_diff(l.sample(px, py, 1), r.sample(qx, py, 1))
        + abs_diff(l.sample(px, py, 2), r.sample(qx, py, 2))
}

/// Sum over `dx` in `-PATCH_HALF..=k` for one `dy`.
pub open spec fn patch_row(l: &RgbImage, r: &RgbImage, lx: int, ly: int, rx: int, dy: int, k: int) -> int
    decreases k + PATCH_HALF + 1,
{
    if k < -PATCH_HALF {
        0
    } else {
        patch_row(l, r, lx, ly, rx, dy, k - 1) + patch_diff(l, r, lx, ly, rx, k, dy)
    }
}

/// Sum over `dy` in `-PATCH_HALF..=k` of whole patch rows.
pub open spec fn patch_rows(l: &RgbImage, r: &RgbImage, lx: int, ly: int, rx: int, k: int) -> int
    decreases k + PATCH_HALF + 1,
{
    if k < -PATCH_HALF {
        0
    } else {
        patch_rows(l, r, lx, ly, rx, k - 1) + patch_row(l, r, lx, ly, rx, k, PATCH_HALF as int)
    }
}

/// Sum of absolute differences between the patch around `(lx, ly)` in the
/// left picture and the patch around `(rx, ly)` in the right picture.
pub open spec fn patch_cost(l: &RgbImage, r: &RgbImage, lx: int, ly: int, rx: int) -> int {
    patch_rows(l, r, lx, ly, rx, PATCH_HALF as int)
}

/// `b` is the first column of `start..=end` with the smallest patch cost.
pub open spec fn is_best_column(
    l: &RgbImage,
    r: &RgbImage,
    lx: int,
    ly: int,
    start: int,
    end: int,
    b: int,
) -> bool {
    &&& start <= b <= end
    &&& forall|e: int| start <= e <= end ==> patch_cost(l, r, lx, ly, b) <= #[trigger] patch_cost(l, r, lx, ly, e)
    &&& forall|e: int| start <= e < b ==> #[trigger] patch_cost(l, r, lx, ly, e) > patch_cost(l, r, lx, ly, b)
}

/// Inputs on which the search reads only pixels inside both pictures and
/// no position overflows 32 bits.
pub open spec fn search_inputs_ok(l: &RgbImage, r: &RgbImage, lx: int, ly: int, start: int, end: int) -> bool {
    start <= end ==> {
        &&& l.width >= 1
        &&& l.height >= 1
        &&& r.width >= 1
        &&& clamp_int(ly + PATCH_HALF, 0, l.height - 1) < r.height
        &&& i32::MIN + PATCH_HALF <= lx <= i32::MAX - PATCH_HALF
        &&& i32::MIN + PATCH_HALF <= ly <= i32::MAX - PATCH_HALF
        &&& i32::MIN + PATCH_HALF <= start
        &&& end <= i32::MAX - PATCH_HALF
    }
}

fn clamp_i32(v: i32, lo: i32, hi: i32) -> (r: i32)
    requires
        lo <= hi,
    ensures
        r == clamp_int(v as int, lo as int, hi as int),
{
    if v < lo {
        lo
    } else if v > hi {
        hi
    } else {
        v
    }
}

fn abs_diff_u8(a: u8, b: u8) -> (d: i64)
    ensures
        d == abs_diff(a, b),
        0 <= d <= 255,
{
    if a >= b {
        (a - b) as i64
    } else {
        (b - a) as i64
    }
}

proof fn lemma_clamp_monotone(a: int, b: int, lo: int, hi: int)
    requires
        a <= b,
        lo <= hi,
    ensures
        clamp_int(a, lo, hi) <= clamp_int(b, lo, hi),
        lo <= clamp_int(a, lo, hi) <= hi,
{
}

/// The patch cost of column `rx`.
fn patch_cost_at(left: &RgbImage, right: &RgbImage, lx: i32, ly: i32, rx: i32) -> (cost: i64)
    requires
        left.wf(),
        right.wf(),
        left.width <= i32::MAX,
        left.height <= i32::MAX,
        right.width <= i32::MAX,
        left.width >= 1,
        left.height >= 1,
        right.width >= 1,
        clamp_int(ly + PATCH_HALF, 0, left.height - 1) < right.height,
        i32::MIN + PATCH_HALF <= lx <= i32::MAX - PATCH_HALF,
        i32::MIN + PATCH_HALF <= ly <= i32::MAX - PATCH_HALF,
        i32::MIN + PATCH_HALF <= rx <= i32::MAX - PATCH_HALF,
    ensures
        cost == patch_cost(left, right, lx as int, ly as int, rx as int),
{
    let lw = left.width as i32;
    let lh = left.height as i32;
    let rw = right.width as i32;
    let mut sum: i64 = 0;
    let mut dy: i32 = -PATCH_HALF;
    while dy <= PATCH_HALF
        invariant
            left.wf(),
            right.wf(),
            lw as int == left.width,
            lh as int == left.height,
            rw as int == right.width,
            lw >= 1,
            lh >= 1,
            rw >= 1,
            clamp_int(ly + PATCH_HALF, 0, left.height - 1) < right.height,
            i32::MIN + PATCH_HALF <= lx <= i32::MAX - PATCH_HALF,
            i32::MIN + PATCH_HALF <= ly <= i32::MAX - PATCH_HALF,
            i32::MIN + PATCH_HALF <= rx <= i32::MAX - PATCH_HALF,
            -PATCH_HALF <= dy <= PATCH_HALF + 1,
            sum == patch_rows(left, right, lx as int, ly as int, rx as int, dy - 1),
            0 <= sum <= 3825 * (dy + 2),
        decreases PATCH_HALF + 1 - dy,
    {
        let py = clamp_i32(ly + dy, 0, lh - 1);
        proof {
            lemma_clamp_monotone(ly + dy, ly + PATCH_HALF, 0, lh - 1);
        }
        let row_before = sum;
        let mut dx: i32 = -PATCH_HALF;
        while dx <= PATCH_HALF
            invariant
                left.wf(),
                right.wf(),
                lw as int == left.width,
                lh as int == left.height,
                rw as int == right.width,
                lw >= 1,
                lh >= 1,
                rw >= 1,
                0 <= py < left.height,
                py < right.height,
                py == clamp_int(ly + dy, 0, lh - 1),
                i32::MIN + PATCH_HALF <= lx <= i32::MAX - PATCH_HALF,
                i32::MIN + PATCH_HALF <= rx <= i32::MAX - PATCH_HALF,
                -PATCH_HALF <= dy <= PATCH_HALF,
                -PATCH_HALF <= dx <= PATCH_HALF + 1,
                sum == row_before + patch_row(left, right, lx as int, ly as int, rx as int, dy as int, dx - 1),
                0 <= row_before <= 3825 * (dy + 2),
                0 <= sum - row_before <= 765 * (dx + 2),
            decreases PATCH_HALF + 1 - dx,
        {
            let px = clamp_i32(lx + dx, 0, lw - 1);
            let qx = clamp_i32(rx + dx, 0, rw - 1);
            let lp = left.get_pixel(px as u32, py as u32);
            let rp = right.get_pixel(qx as u32, py as u32);
            sum = sum + abs_diff_u8(lp.0, rp.0) + abs_diff_u8(lp.1, rp.1) + abs_diff_u8(lp.2, rp.2);
            dx = dx + 1;
        }
        dy = dy + 1;
    }
    sum
}

/// The column of `right_start..=right_end` whose patch, on the row of the
/// clicked point, best matches the patch around `(left_x, left_y)`: the
/// first column with the smallest sum of absolute differences; `None` when
/// the range is empty.  (Comparing the sums orders the columns as comparing
/// the sums divided by the patch size does.)
pub fn find_corresponding_x(
    left: &RgbImage,
    right: &RgbImage,
    left_x: i32,
    left_y: i32,
    right_start: i32,
    right_end: i32,
) -> (best: Option<i32>)
    requires
        left.wf(),
        right.wf(),
        left.width <= i32::MAX,
        left.height <= i32::MAX,
        right.width <= i32::MAX,
        search_inputs_ok(left, right, left_x as int, left_y as int, right_start as int, right_end as int),
    ensures
        right_start > right_end ==> best is None,
        right_start <= right_end ==> (best matches Some(b) && is_best_column(
            left,
            right,
            left_x as int,
            left_y as int,
            right_start as int,
            right_end as int,
            b as int,
        )),
{
    if right_start > right_end {
        return None;
    }
    let ghost lx = left_x as int;
    let ghost ly = left_y as int;
    let mut best_x: i32 = right_start;
    let mut best_cost: i64 = patch_cost_at(left, right, left_x, left_y, right_start);
    let mut rx: i32 = right_start;
    while rx < right_end
        invariant
            left.wf(),
            right.wf(),
            left.width <= i32::MAX,
            left.height <= i32::MAX,
            right.width <= i32::MAX,
            right_start <= right_end,
            search_inputs_ok(left, right, lx, ly, right_start as int, right_end as int),
            lx == left_x,
            ly == left_y,
            right_start <= best_x <= rx <= right_end,
            best_cost == patch_cost(left, right, lx, ly, best_x as int),
            forall|e: int| right_start <= e <= rx ==> best_cost <= #[trigger] patch_cost(left, right, lx, ly, e),
            forall|e: int| right_start <= e < best_x ==> #[trigger] patch_cost(left, right, lx, ly, e) > best_cost,
        decreases right_end - rx,
    {
        rx = rx + 1;
        let cost = patch_cost_at(left, right, left_x, left_y, rx);
        if cost < best_cost {
            best_cost = cost;
            best_x = rx;
        }
    }
    Some(best_x)
}

proof fn lemma_patch_row_sums(l: &RgbImage, r: &RgbImage, lx: int, ly: int, rx: int, dy: int, k: int)
    ensures
        patch_row(l, r, lx, ly, rx, dy, k) >= 0,
        (forall|dx: int| -PATCH_HALF <= dx <= k ==> #[trigger] patch_diff(l, r, lx, ly, rx, dx, dy) == 0)
            ==> patch_row(l, r, lx, ly, rx, dy, k) == 0,
        forall|dx: int|
            -PATCH_HALF <= dx <= k ==> patch_row(l, r, lx, ly, rx, dy, k) >= #[trigger] patch_diff(
                l,
                r,
                lx,
                ly,
                rx,
                dx,
                dy,
            ),
    decreases k + PATCH_HALF + 1,
{
    if k >= -PATCH_HALF {
        lemma_patch_row_sums(l, r, lx, ly, rx, dy, k - 1);
    }
}

proof fn lemma_patch_rows_sums(l: &RgbImage, r: &RgbImage, lx: int, ly: int, rx: int, k: int)
    ensures
        patch_rows(l, r, lx, ly, rx, k) >= 0,
        (forall|dx: int, dy: int|
            -PATCH_HALF <= dx <= PATCH_HALF && -PATCH_HALF <= dy <= k ==> #[trigger] patch_diff(
                l,
                r,
                lx,
                ly,
                rx,
                dx,
                dy,
            ) == 0) ==> patch_rows(l, r, lx, ly, rx, k) == 0,
        forall|dx: int, dy: int|
            -PATCH_HALF <= dx <= PATCH_HALF && -PATCH_HALF <= dy <= k ==> patch_rows(
                l,
                r,
                lx,
                ly,
                rx,
                k,
            ) >= #[trigger] patch_diff(l, r, lx, ly, rx, dx, dy),
    decreases k + PATCH_HALF + 1,
{
    if k >= -PATCH_HALF {
        lemma_patch_rows_sums(l, r, lx, ly, rx, k - 1);
        lemma_patch_row_sums(l, r, lx, ly, rx, k, PATCH_HALF as int);
    }
}

/// The pixels compared at offset `(dx, dy)`: the left pixel near
/// `(lx, ly)` and the right pixel near `(rx, ly)`, each position clamped into
/// its picture (the row into the left picture) — equal in all three
/// channels.
pub open spec fn patch_pixels_equal(l: &RgbImage, r: &RgbImage, lx: int, ly: int, rx: int, dx: int, dy: int) -> bool {
    let py = clamp_int(ly + dy, 0, l.height - 1);
    l.pixel(clamp_int(lx + dx, 0, l.width - 1), py) == r.pixel(clamp_int(rx + dx, 0, r.width - 1), py)
}

/// The patch around column `rx` differs from the clicked point's patch
/// somewhere, in some channel.
pub open spec fn patch_differs(l: &RgbImage, r: &RgbImage, lx: int, ly: int, rx: int) -> bool {
    exists|dx: int, dy: int|
        -PATCH_HALF <= dx <= PATCH_HALF && -PATCH_HALF <= dy <= PATCH_HALF
            && !#[trigger] patch_pixels_equal(l, r, lx, ly, rx, dx, dy)
}

/// A column whose whole 5 by 5 patch equals the clicked point's patch in
/// all three channels is found when every other column of the range
/// differs from it somewhere, in some channel: the search returns exactly
/// that column.
pub proof fn lemma_exact_patch_is_found(
    l: &RgbImage,
    r: &RgbImage,
    lx: int,
    ly: int,
    start: int,
    end: int,
    b: int,
    c: int,
)
    requires
        start <= b <= end,
        forall|dx: int, dy: int|
            -PATCH_HALF <= dx <= PATCH_HALF && -PATCH_HALF <= dy <= PATCH_HALF ==> #[trigger] patch_pixels_equal(
                l,
                r,
                lx,
                ly,
                b,
                dx,
                dy,
            ),
        forall|e: int| start <= e <= end && e != b ==> #[trigger] patch_differs(l, r, lx, ly, e),
        is_best_column(l, r, lx, ly, start, end, c),
    ensures
        c == b,
{
    lemma_patch_rows_sums(l, r, lx, ly, b, PATCH_HALF as int);
    assert forall|dx: int, dy: int|
        -PATCH_HALF <= dx <= PATCH_HALF && -PATCH_HALF <= dy <= PATCH_HALF implies #[trigger] patch_diff(
        l,
        r,
        lx,
        ly,
        b,
        dx,
        dy,
    ) == 0 by {
        assert(patch_pixels_equal(l, r, lx, ly, b, dx, dy));
    }
    assert(patch_cost(l, r, lx, ly, b) == 0);
    if c != b {
        assert(patch_cost(l, r, lx, ly, c) <= patch_cost(l, r, lx, ly, b));
        assert(patch_differs(l, r, lx, ly, c));
        let (dx, dy) = choose|dx: int, dy: int|
            -PATCH_HALF <= dx <= PATCH_HALF && -PATCH_HALF <= dy <= PATCH_HALF
                && !#[trigger] patch_pixels_equal(l, r, lx, ly, c, dx, dy);
        lemma_patch_rows_sums(l, r, lx, ly, c, PATCH_HALF as int);
        assert(patch_diff(l, r, lx, ly, c, dx, dy) > 0);
        assert(false);
    }
}

} // verus!
