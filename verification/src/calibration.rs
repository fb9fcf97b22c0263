//! Chessboard calibration: the pixel search that refines each expected
//! corner position, and the rule on how many image pairs a calibration
//! needs.
use vstd::prelude::*;
use crate::display::clamp_int;
use crate::raster::GrayImage;
use crate::stereo::abs_diff;

verus! {

/// A calibration needs at least this many image pairs whose two views
/// both show the board.
pub const MIN_CALIBRATION_PAIRS: usize = 3;

/// Why a calibration could not be made.
#[derive(Debug)]
pub enum CalibrationError {
    /// Fewer than `MIN_CALIBRATION_PAIRS` usable pairs.
    NotEnoughPairs { found: usize },
}

/// Column examined for offset `dx` around `x`: kept one pixel inside the
/// left and right borders.
pub open spec fn search_col(img: &GrayImage, x: int, dx: int) -> int {
    clamp_int(x + dx, 1, img.width - 1)
}

pub open spec fn search_row(img: &GrayImage, y: int, dy: int) -> int {
    clamp_int(y + dy, 1, img.height - 1)
}

/// The grey value at the expected position (a negative coordinate taken
/// as zero), when it lies in the picture.
pub open spec fn center_value(img: &GrayImage, x: int, y: int) -> Option<u8> {
    let cx = if x < 0 { 0 } else { x };
    let cy = if y < 0 { 0 } else { y };
    if cx < img.width && cy < img.height {
        Some(img.sample(cx, cy))
    } else {
        None
    }
}

/// How far the examined pixel's grey value is from the value at the
/// expected position (zero when that position lies outside the picture).
pub open spec fn corner_score(img: &GrayImage, x: int, y: int, dx: int, dy: int) -> int {
    let g = img.sample(search_col(img, x, dx), search_row(img, y, dy));
    match center_value(img, x, y) {
        Some(c) => abs_diff(g, c),
        None => 0,
    }
}

/// Offsets are examined row by row (`dy` outer), left to right.
pub open spec fn examined_before(dx1: int, dy1: int, dx2: int, dy2: int) -> bool {
    dy1 < dy2 || (dy1 == dy2 && dx1 < dx2)
}

pub open spec fn in_window(r: int, dx: int, dy: int) -> bool {
    -r <= dx <= r && -r <= dy <= r
}

/// `(dx, dy)` is the first examined offset of the window with the
/// smallest score.
pub open spec fn is_best_offset(img: &GrayImage, x: int, y: int, r: int, dx: int, dy: int) -> bool {
    &&& in_window(r, dx, dy)
    &&& forall|ex: int, ey: int|
        #[trigger] in_window(r, ex, ey) ==> corner_score(img, x, y, dx, dy) <= corner_score(
            img,
            x,
            y,
            ex,
            ey,
        )
    &&& forall|ex: int, ey: int|
        #[trigger] in_window(r, ex, ey) && examined_before(ex, ey, dx, dy) ==> corner_score(
            img,
            x,
            y,
            ex,
            ey,
        ) > corner_score(img, x, y, dx, dy)
}

/// There is only one first offset of smallest score.
pub proof fn lemma_best_offset_unique(
    img: &GrayImage,
    x: int,
    y: int,
    r: int,
    a: (int, int),
    b: (int, int),
)
    requires
        is_best_offset(img, x, y, r, a.0, a.1),
        is_best_offset(img, x, y, r, b.0, b.1),
    ensures
        a == b,
{
    assert(in_window(r, a.0, a.1));
    assert(in_window(r, b.0, b.1));
    if examined_before(a.0, a.1, b.0, b.1) {
        assert(false);
    } else if examined_before(b.0, b.1, a.0, a.1) {
        assert(false);
    }
}

fn clamp_i64(v: i64, lo: i64, hi: i64) -> (r: i64)
    requires
        lo <= hi,
    ensures
        r == clamp_int(v as int, lo as int, hi as int),
{
    if v < lo {
        lo
    } else if v > hi {
        hi
    } else {
        v
    }
}

/// Refines an expected corner position: within the square of half-side
/// `search_r` around `(x, y)` (positions kept one pixel inside the
/// picture) the pixel whose grey value is closest to the value at `(x, y)`,
/// the first such pixel row by row; `None` when `search_r` is negative, in
/// which case nothing is examined.
pub fn find_corner_at(image: &GrayImage, x: i32, y: i32, search_r: i32) -> (best: Option<(u32, u32)>)
    requires
        image.wf(),
        image.width <= i32::MAX,
        image.height <= i32::MAX,
        search_r >= 0 ==> image.width >= 2 && image.height >= 2,
    ensures
        search_r < 0 ==> best is None,
        search_r >= 0 ==> (best matches Some(p) && exists|dx: int, dy: int|
            is_best_offset(image, x as int, y as int, search_r as int, dx, dy) && p.0 == search_col(
                image,
                x as int,
                dx,
            ) && p.1 == search_row(image, y as int, dy)),
        best matches Some(p) ==> 1 <= p.0 < image.width && 1 <= p.1 < image.height,
{
    if search_r < 0 {
        return None;
    }
    let w = image.width as i64;
    let h = image.height as i64;
    let r = search_r as i64;
    let cx: i64 = if x < 0 { 0 } else { x as i64 };
    let cy: i64 = if y < 0 { 0 } else { y as i64 };
    let center: Option<u8> = if cx < w && cy < h {
        Some(image.get_pixel(cx as u32, cy as u32))
    } else {
        None
    };
    let ghost xi = x as int;
    let ghost yi = y as int;
    let ghost ri = r as int;
    let mut best_score: i64 = i64::MAX;
    let mut best_x: u32 = 1;
    let mut best_y: u32 = 1;
    let ghost mut best_dx: int = 0;
    let ghost mut best_dy: int = 0;
    let mut dy: i64 = -r;
    while dy <= r
        invariant
            image.wf(),
            w == image.width,
            h == image.height,
            w >= 2,
            h >= 2,
            w <= i32::MAX,
            h <= i32::MAX,
            xi == x,
            yi == y,
            0 <= r <= i32::MAX,
            ri == r,
            center == center_value(image, xi, yi),
            -r <= dy <= r + 1,
            best_score == i64::MAX ==> dy == -r,
            best_score < i64::MAX ==> {
                &&& in_window(ri, best_dx, best_dy)
                &&& best_dy < dy
                &&& best_x == search_col(image, xi, best_dx)
                &&& best_y == search_row(image, yi, best_dy)
                &&& best_score == corner_score(image, xi, yi, best_dx, best_dy)
                &&& forall|ex: int, ey: int|
                    #[trigger] in_window(ri, ex, ey) && ey < dy ==> best_score <= corner_score(
                        image,
                        xi,
                        yi,
                        ex,
                        ey,
                    )
                &&& forall|ex: int, ey: int|
                    #[trigger] in_window(ri, ex, ey) && examined_before(ex, ey, best_dx, best_dy)
                        ==> corner_score(image, xi, yi, ex, ey) > best_score
            },
        decreases r + 1 - dy,
    {
        let py = clamp_i64(y as i64 + dy, 1, h - 1);
        let mut dx: i64 = -r;
        while dx <= r
            invariant
                image.wf(),
                w == image.width,
                h == image.height,
                w >= 2,
                h >= 2,
                xi == x,
                yi == y,
                0 <= r <= i32::MAX,
                ri == r,
                center == center_value(image, xi, yi),
                -r <= dy <= r,
                -r <= dx <= r + 1,
                py == search_row(image, yi, dy as int),
                best_score == i64::MAX ==> dx == -r && dy == -r,
                best_score < i64::MAX ==> {
                    &&& in_window(ri, best_dx, best_dy)
                    &&& examined_before(best_dx, best_dy, dx as int, dy as int)
                    &&& best_x == search_col(image, xi, best_dx)
                    &&& best_y == search_row(image, yi, best_dy)
                    &&& best_score == corner_score(image, xi, yi, best_dx, best_dy)
                    &&& forall|ex: int, ey: int|
                        #[trigger] in_window(ri, ex, ey) && examined_before(ex, ey, dx as int, dy as int)
                            ==> best_score <= corner_score(image, xi, yi, ex, ey)
                    &&& forall|ex: int, ey: int|
                        #[trigger] in_window(ri, ex, ey) && examined_before(
                            ex,
                            ey,
                            best_dx,
                            best_dy,
                        ) ==> corner_score(image, xi, yi, ex, ey) > best_score
                },
            decreases r + 1 - dx,
        {
            let px = clamp_i64(x as i64 + dx, 1, w - 1);
            let g = image.get_pixel(px as u32, py as u32);
            let score: i64 = match center {
                Some(c) => if g >= c {
                    (g - c) as i64
                } else {
                    (c - g) as i64
                },
                None => 0,
            };
            proof {
                assert(score == corner_score(image, xi, yi, dx as int, dy as int));
            }
            if score < best_score {
                best_score = score;
                best_x = px as u32;
                best_y = py as u32;
                proof {
                    best_dx = dx as int;
                    best_dy = dy as int;
                }
            }
            dx = dx + 1;
        }
        dy = dy + 1;
    }
    proof {
        assert(best_score < i64::MAX);
        assert(is_best_offset(image, xi, yi, ri, best_dx, best_dy));
    }
    Some((best_x, best_y))
}

/// The inner corners of a board with `cols` by `rows` corners, as
/// `(column, row)` indices in the order the board is read: row by row, each
/// row left to right.
pub fn board_corners(cols: u32, rows: u32) -> (corners: Vec<(u32, u32)>)
    requires
        cols * rows <= usize::MAX,
    ensures
        corners@.len() == cols * rows,
        forall|k: int|
            0 <= k < corners@.len() ==> (#[trigger] corners@[k]).0 == k % (cols as int) && corners@[k].1 == k / (cols as int),
{
    let mut corners: Vec<(u32, u32)> = Vec::new();
    let mut row: u32 = 0;
    while row < rows
        invariant
            cols * rows <= usize::MAX,
            row <= rows,
            corners@.len() == row * cols,
            forall|k: int|
                0 <= k < corners@.len() ==> (#[trigger] corners@[k]).0 == k % (cols as int) && corners@[k].1 == k / (cols as int),
        decreases rows - row,
    {
        let mut col: u32 = 0;
        while col < cols
            invariant
                cols * rows <= usize::MAX,
                row < rows,
                col <= cols,
                corners@.len() == row * cols + col,
                forall|k: int|
                    0 <= k < corners@.len() ==> (#[trigger] corners@[k]).0 == k % (cols as int) && corners@[k].1 == k / (cols as int),
            decreases cols - col,
        {
            proof {
                assert(row * cols + col < cols * rows) by (nonlinear_arith)
                    requires
                        row < rows,
                        col < cols,
                ;
                let k = row * cols + col;
                assert(k % cols as int == col && k / cols as int == row) by (nonlinear_arith)
                    requires
                        k == row * cols + col,
                        col < cols,
                        0 <= row,
                ;
            }
            corners.push((col, row));
            col = col + 1;
        }
        proof {
            assert((row + 1) * cols == row * cols + cols) by (nonlinear_arith);
        }
        row = row + 1;
    }
    assert(row * cols == cols * rows) by (nonlinear_arith)
        requires
            row == rows,
    ;
    corners
}

/// Number of the first `i` image pairs in which the board was detected in
/// both views.
pub open spec fn pairs_detected(left_detected: Seq<bool>, right_detected: Seq<bool>, i: int) -> nat
    decreases i,
{
    if i <= 0 {
        0
    } else {
        pairs_detected(left_detected, right_detected, i - 1) + if left_detected[i - 1]
            && right_detected[i - 1] {
            1nat
        } else {
            0nat
        }
    }
}

/// Number of image pairs, taken pairwise up to the shorter list, in which
/// the board was detected in both views.
pub open spec fn usable_pairs(left_detected: Seq<bool>, right_detected: Seq<bool>) -> nat {
    let n = if left_detected.len() <= right_detected.len() {
        left_detected.len()
    } else {
        right_detected.len()
    };
    pairs_detected(left_detected, right_detected, n as int)
}

/// Counts the pairs a calibration can use (see `usable_pairs`): an error
/// when there are fewer than `MIN_CALIBRATION_PAIRS`.
pub fn count_valid_pairs(left_detected: &[bool], right_detected: &[bool]) -> (res: Result<
    usize,
    CalibrationError,
>)
    ensures
        usable_pairs(left_detected@, right_detected@) < MIN_CALIBRATION_PAIRS ==> (res matches Err(
            CalibrationError::NotEnoughPairs { found },
        ) && found == usable_pairs(left_detected@, right_detected@)),
        usable_pairs(left_detected@, right_detected@) >= MIN_CALIBRATION_PAIRS ==> (res matches Ok(
            n,
        ) && n == usable_pairs(left_detected@, right_detected@)),
{
    let n = if left_detected.len() <= right_detected.len() {
        left_detected.len()
    } else {
        right_detected.len()
    };
    let mut count: usize = 0;
    let mut i: usize = 0;
    while i < n
        invariant
            n <= left_detected@.len(),
            n <= right_detected@.len(),
            n == left_detected@.len() || n == right_detected@.len(),
            i <= n,
            count == pairs_detected(left_detected@, right_detected@, i as int),
            count <= i,
        decreases n - i,
    {
        if left_detected[i] && right_detected[i] {
            count = count + 1;
        }
        i = i + 1;
    }
    if count < MIN_CALIBRATION_PAIRS {
        Err(CalibrationError::NotEnoughPairs { found: count })
    } else {
        Ok(count)
    }
}

proof fn lemma_pairs_within_detections(l: Seq<bool>, r: Seq<bool>, i: int)
    requires
        0 <= i <= l.len(),
        i <= r.len(),
    ensures
        pairs_detected(l, r, i) <= l.take(i).filter(|d: bool| d).len(),
        pairs_detected(l, r, i) <= r.take(i).filter(|d: bool| d).len(),
        (forall|k: int| 0 <= k < i ==> #[trigger] l[k] && r[k]) ==> pairs_detected(l, r, i) == i,
    decreases i,
{
    reveal(Seq::filter);
    if i > 0 {
        lemma_pairs_within_detections(l, r, i - 1);
        assert(l.take(i).drop_last() =~= l.take(i - 1));
        assert(r.take(i).drop_last() =~= r.take(i - 1));
        assert(l.take(i).last() == l[i - 1]);
        assert(r.take(i).last() == r[i - 1]);
    }
}

proof fn lemma_prefix_detections(s: Seq<bool>, i: int)
    requires
        0 <= i <= s.len(),
    ensures
        s.take(i).filter(|d: bool| d).len() <= s.filter(|d: bool| d).len(),
{
    assert(s =~= s.take(i) + s.skip(i));
    Seq::filter_distributes_over_add(s.take(i), s.skip(i), |d: bool| d);
}

/// A pair counts only if the board was detected in it: the number of usable
/// pairs never exceeds the number of left views, nor the number of right
/// views, in which the board was detected; when the board was detected in
/// every view of the first `min(len)` pairs, all of them count.
pub proof fn lemma_usable_pairs_are_detected(left_detected: Seq<bool>, right_detected: Seq<bool>)
    ensures
        usable_pairs(left_detected, right_detected) <= left_detected.filter(|d: bool| d).len(),
        usable_pairs(left_detected, right_detected) <= right_detected.filter(|d: bool| d).len(),
        (forall|k: int|
            0 <= k < left_detected.len() && 0 <= k < right_detected.len() ==> #[trigger] left_detected[k]
                && right_detected[k]) ==> usable_pairs(left_detected, right_detected) == if left_detected.len()
            <= right_detected.len() {
            left_detected.len()
        } else {
            right_detected.len()
        },
{
    let n = if left_detected.len() <= right_detected.len() {
        left_detected.len() as int
    } else {
        right_detected.len() as int
    };
    lemma_pairs_within_detections(left_detected, right_detected, n);
    lemma_prefix_detections(left_detected, n);
    lemma_prefix_detections(right_detected, n);
}

/// The corner search examines the whole square of offsets `-r..=r` by
/// `-r..=r` around the expected position: the chosen offset lies in it, its
/// score is at most the score of every position of the square, and every
/// position before it, row by row and left to right, scores more.
pub proof fn lemma_corner_search_covers_square(img: &GrayImage, x: int, y: int, r: int, dx: int, dy: int)
    requires
        is_best_offset(img, x, y, r, dx, dy),
    ensures
        -r <= dx <= r && -r <= dy <= r,
        forall|ex: int, ey: int|
            -r <= ex <= r && -r <= ey <= r ==> corner_score(img, x, y, dx, dy) <= #[trigger] corner_score(
                img,
                x,
                y,
                ex,
                ey,
            ),
        forall|ex: int, ey: int|
            -r <= ex <= r && -r <= ey <= r && (ey < dy || (ey == dy && ex < dx)) ==> #[trigger] corner_score(
                img,
                x,
                y,
                ex,
                ey,
            ) > corner_score(img, x, y, dx, dy),
{
    assert forall|ex: int, ey: int|
        -r <= ex <= r && -r <= ey <= r implies corner_score(img, x, y, dx, dy) <= #[trigger] corner_score(
        img,
        x,
        y,
        ex,
        ey,
    ) by {
        assert(in_window(r, ex, ey));
    }
    assert forall|ex: int, ey: int|
        -r <= ex <= r && -r <= ey <= r && (ey < dy || (ey == dy && ex < dx)) implies #[trigger] corner_score(
        img,
        x,
        y,
        ex,
        ey,
    ) > corner_score(img, x, y, dx, dy) by {
        assert(in_window(r, ex, ey));
        assert(examined_before(ex, ey, dx, dy));
    }
}

} // verus!
