//! Block-matching disparity between the left and right views.
//!
//! For every left pixel the matcher tries each disparity `d` of the
//! configured range, compares the block around the pixel with the right
//! image and keeps the disparity with the smallest mean absolute difference.
use vstd::prelude::*;
use crate::raster::{GrayImage, RgbImage};

verus! {

/// Horizontal positions in the right image are only matched below this column.
pub const MATCH_COLUMN_LIMIT: i32 = 1024;

/// Block columns to the right of this one are never read.
pub const BLOCK_COLUMN_LIMIT: i32 = 1919;

/// The matcher's settings (the integer part of the `[stereo]` section of
/// the configuration).
pub struct StereoConfig {
    pub algorithm: String,
    pub block_size: u32,
    pub max_disparity: u32,
    pub min_disparity: i32,
    pub speckle_window_size: u32,
    pub speckle_range: u32,
}

impl Default for StereoConfig {
    fn default() -> (cfg: StereoConfig)
        ensures
            cfg.algorithm@ == "block_match"@,
            cfg.block_size == 9,
            cfg.max_disparity == 128,
            cfg.min_disparity == 0,
            cfg.speckle_window_size == 100,
            cfg.speckle_range == 2,
    {
        StereoConfig {
            algorithm: String::from_str("block_match"),
            block_size: 9,
            max_disparity: 128,
            min_disparity: 0,
            speckle_window_size: 100,
            speckle_range: 2,
        }
    }
}

/// A disparity map with the mask of the pixels where it is valid.
pub struct StereoRectified {
    pub disparity: GrayImage,
    pub valid_mask: GrayImage,
}

pub open spec fn abs_diff(a: u8, b: u8) -> int {
    if a >= b {
        a - b
    } else {
        b - a
    }
}

pub open spec fn max_int(a: int, b: int) -> int {
    if a >= b {
        a
    } else {
        b
    }
}

pub open spec fn min_int(a: int, b: int) -> int {
    if a <= b {
        a
    } else {
        b
    }
}

/// Sum of the absolute channel differences between left pixel `(cx, cy)`
/// and right pixel `(mx, cy)`.
pub open spec fn pixel_cost(l: &RgbImage, r: &RgbImage, cx: int, mx: int, cy: int) -> int {
    abs_diff(l.sample(cx, cy, 0), r.sample(mx, cy, 0)) + abs_diff(
        l.sample(cx, cy, 1),
        r.sample(mx, cy, 1),
    ) + abs_diff(l.sample(cx, cy, 2), r.sample(mx, cy, 2))
}

/// The right image has a pixel at column `mx` of row `cy`.
pub open spec fn right_has(r: &RgbImage, mx: int, cy: int) -> bool {
    0 <= mx < r.width && 0 <= cy < r.height
}

/// Cost summed over columns `xs..=xe` of row `cy`.
pub open spec fn row_cost(l: &RgbImage, r: &RgbImage, mx: int, cy: int, xs: int, xe: int) -> int
    decreases xe + 1 - xs,
{
    if xe < xs {
        0
    } else {
        row_cost(l, r, mx, cy, xs, xe - 1) + pixel_cost(l, r, xe, mx, cy)
    }
}

/// Cost summed over the block `xs..=xe` by `ys..=ye`, counting only the
/// rows where the right image has the compared pixel.
pub open spec fn window_cost(
    l: &RgbImage,
    r: &RgbImage,
    mx: int,
    xs: int,
    xe: int,
    ys: int,
    ye: int,
) -> int
    decreases ye + 1 - ys,
{
    if ye < ys {
        0
    } else {
        window_cost(l, r, mx, xs, xe, ys, ye - 1) + if right_has(r, mx, ye) {
            row_cost(l, r, mx, ye, xs, xe)
        } else {
            0
        }
    }
}

/// Number of compared pixel pairs in the block.
pub open spec fn window_count(r: &RgbImage, mx: int, xs: int, xe: int, ys: int, ye: int) -> int
    decreases ye + 1 - ys,
{
    if ye < ys {
        0
    } else {
        window_count(r, mx, xs, xe, ys, ye - 1) + if right_has(r, mx, ye) && xs <= xe {
            xe - xs + 1
        } else {
            0
        }
    }
}


/// `v` as the matcher's unsigned loop bounds read it: a negative 32-bit
/// value wraps around to `v + 2^32`.
pub open spec fn wrap_u32(v: int) -> int {
    if v < 0 {
        v + 0x1_0000_0000
    } else {
        v
    }
}

/// Columns `xs..=xe` of the block read for column `x` with half-size `bh`
/// (an end below zero wraps around, as the unsigned loop reads it).
pub open spec fn block_cols(x: int, bh: int) -> (int, int) {
    (max_int(x - bh, 0), wrap_u32(min_int(x + bh, BLOCK_COLUMN_LIMIT as int)))
}

/// Rows `ys..=ye` of the block read for row `y` with half-size `bh` in a
/// picture of height `h`.
pub open spec fn block_rows(y: int, bh: int, h: int) -> (int, int) {
    (max_int(y - bh, 0), wrap_u32(min_int(y + bh, h - 1)))
}

/// Mean absolute difference of the block around `(x, y)` against the right
/// image shifted by `d`, rounded down (zero when nothing is compared).
pub open spec fn match_cost(
    l: &RgbImage,
    r: &RgbImage,
    x: int,
    y: int,
    d: int,
    bh: int,
    h: int,
) -> int {
    let mx = x + d;
    let (xs, xe) = block_cols(x, bh);
    let (ys, ye) = block_rows(y, bh, h);
    let n = window_count(r, mx, xs, xe, ys, ye);
    if n > 0 {
        window_cost(l, r, mx, xs, xe, ys, ye) / n
    } else {
        0
    }
}

/// `d` is tried for column `x`: it lies in `[mind, maxd)` and moves `x`
/// into `[0, MATCH_COLUMN_LIMIT)`.
pub open spec fn is_candidate(x: int, d: int, mind: int, maxd: int) -> bool {
    &&& mind <= d < maxd
    &&& 0 <= x + d < MATCH_COLUMN_LIMIT
}

pub open spec fn has_candidate(x: int, mind: int, maxd: int) -> bool {
    exists|d: int| is_candidate(x, d, mind, maxd)
}

/// `d` is the first candidate with the smallest matching cost.
pub open spec fn is_best(
    l: &RgbImage,
    r: &RgbImage,
    x: int,
    y: int,
    d: int,
    bh: int,
    mind: int,
    maxd: int,
    h: int,
) -> bool {
    &&& is_candidate(x, d, mind, maxd)
    &&& forall|e: int| #[trigger]
        is_candidate(x, e, mind, maxd) ==> match_cost(l, r, x, y, d, bh, h) <= match_cost(
            l,
            r,
            x,
            y,
            e,
            bh,
            h,
        )
    &&& forall|e: int|
        #[trigger] is_candidate(x, e, mind, maxd) && e < d ==> match_cost(l, r, x, y, e, bh, h)
            > match_cost(l, r, x, y, d, bh, h)
}

/// The disparity chosen for pixel `(x, y)`: the first candidate with the
/// smallest cost, or `mind` when no disparity is a candidate.
pub open spec fn best_disparity(
    l: &RgbImage,
    r: &RgbImage,
    x: int,
    y: int,
    bh: int,
    mind: int,
    maxd: int,
    h: int,
) -> int {
    if has_candidate(x, mind, maxd) {
        choose|d: int| is_best(l, r, x, y, d, bh, mind, maxd, h)
    } else {
        mind
    }
}

/// There is at most one first candidate of smallest cost.
pub proof fn lemma_best_unique(
    l: &RgbImage,
    r: &RgbImage,
    x: int,
    y: int,
    a: int,
    b: int,
    bh: int,
    mind: int,
    maxd: int,
    h: int,
)
    requires
        is_best(l, r, x, y, a, bh, mind, maxd, h),
        is_best(l, r, x, y, b, bh, mind, maxd, h),
    ensures
        a == b,
{
    if a < b {
        assert(is_candidate(x, a, mind, maxd));
    } else if b < a {
        assert(is_candidate(x, b, mind, maxd));
    }
}

/// Disparity as stored in the 8-bit map.
pub open spec fn clamp_u8(d: int) -> int {
    if d < 0 {
        0
    } else if d > 255 {
        255
    } else {
        d
    }
}


/// A 32-bit value read as a signed one.
pub open spec fn as_i32(v: u32) -> int {
    if v <= i32::MAX {
        v as int
    } else {
        v - 0x1_0000_0000
    }
}

/// The block half-size as the matcher computes it: `block_size` read as a
/// signed 32-bit value, halved with the quotient rounded toward zero.
pub open spec fn config_block_half(config: &StereoConfig) -> int {
    let b = as_i32(config.block_size);
    if b >= 0 {
        b / 2
    } else {
        -((-b) / 2)
    }
}

/// The upper disparity bound as the matcher reads it: `max_disparity`
/// reinterpreted as a signed 32-bit value.
pub open spec fn config_max_d(config: &StereoConfig) -> int {
    as_i32(config.max_disparity)
}

/// The block read for pixel `(x, y)` lies in the left picture whenever the
/// matcher reads any of it.
pub open spec fn window_fits(l: &RgbImage, x: int, y: int, bh: int, h: int) -> bool {
    let (xs, xe) = block_cols(x, bh);
    let (ys, ye) = block_rows(y, bh, h);
    (xs <= xe && ys <= ye) ==> xe < l.width && ye < h
}

/// Inputs on which matching pixel `(x, y)` reads only pixels of the left
/// image and no intermediate position overflows 32 bits.
pub open spec fn pixel_inputs_ok(l: &RgbImage, x: int, y: int, bh: int, mind: int, maxd: int, h: int) -> bool {
    &&& y + bh <= i32::MAX
    &&& y - bh <= i32::MAX
    &&& x - bh <= i32::MAX
    &&& mind < maxd ==> x + maxd - 1 <= i32::MAX
    &&& has_candidate(x, mind, maxd) ==> x + bh <= i32::MAX && window_fits(l, x, y, bh, h)
}

/// Inputs on which matching every pixel of `left` reads only pixels of the
/// left image and no intermediate position overflows 32 bits.
pub open spec fn disparity_inputs_ok(left: &RgbImage, config: &StereoConfig) -> bool {
    &&& left.width <= i32::MAX
    &&& left.height <= i32::MAX
    &&& forall|x: int, y: int|
        0 <= x < left.width && 0 <= y < left.height ==> #[trigger] pixel_inputs_ok(
            left,
            x,
            y,
            config_block_half(config),
            config.min_disparity as int,
            config_max_d(config),
            left.height as int,
        )
}

fn block_half_of(config: &StereoConfig) -> (b: i32)
    ensures
        b == config_block_half(config),
{
    if config.block_size <= 0x7fff_ffffu32 {
        (config.block_size / 2) as i32
    } else {
        let neg: i64 = config.block_size as i64 - 0x1_0000_0000i64;
        let q: i64 = -((-neg) / 2);
        q as i32
    }
}

fn max_disparity_of(config: &StereoConfig) -> (m: i32)
    ensures
        m == config_max_d(config),
{
    if config.max_disparity <= 0x7fff_ffffu32 {
        config.max_disparity as i32
    } else {
        (config.max_disparity as i64 - 0x1_0000_0000i64) as i32
    }
}

fn wrap_u32_exec(v: i64) -> (r: i64)
    requires
        -0x1_0000_0000 < v,
    ensures
        r == wrap_u32(v as int),
{
    if v < 0 {
        v + 0x1_0000_0000
    } else {
        v
    }
}

fn pixel_inputs_valid(left: &RgbImage, x: i64, y: i64, bh: i64, mind: i64, maxd: i64, h: i64) -> (b: bool)
    requires
        0 <= x <= i32::MAX,
        0 <= y <= i32::MAX,
        i32::MIN <= bh <= i32::MAX,
        i32::MIN <= mind <= i32::MAX,
        i32::MIN <= maxd <= i32::MAX,
        1 <= h <= i32::MAX,
    ensures
        b == pixel_inputs_ok(left, x as int, y as int, bh as int, mind as int, maxd as int, h as int),
{
    let imax: i64 = 0x7fff_ffff;
    if y + bh > imax || y - bh > imax || x - bh > imax {
        return false;
    }
    if mind < maxd && x + maxd - 1 > imax {
        return false;
    }
    let lo: i64 = if mind >= -x {
        mind
    } else {
        -x
    };
    let hi: i64 = if maxd <= 1024 - x {
        maxd
    } else {
        1024 - x
    };
    proof {
        lemma_has_candidate(x as int, mind as int, maxd as int);
    }
    if lo < hi {
        if x + bh > imax {
            return false;
        }
        let xs: i64 = if x - bh > 0 {
            x - bh
        } else {
            0
        };
        let xe: i64 = wrap_u32_exec(
            if x + bh < 1919 {
                x + bh
            } else {
                1919
            },
        );
        let ys: i64 = if y - bh > 0 {
            y - bh
        } else {
            0
        };
        let ye: i64 = wrap_u32_exec(
            if y + bh < h - 1 {
                y + bh
            } else {
                h - 1
            },
        );
        if xs <= xe && ys <= ye && !(xe < left.width as i64 && ye < h) {
            return false;
        }
    }
    true
}

proof fn lemma_has_candidate(x: int, mind: int, maxd: int)
    ensures
        has_candidate(x, mind, maxd) <==> max_int(mind, -x) < min_int(maxd, MATCH_COLUMN_LIMIT - x),
{
    let lo = max_int(mind, -x);
    if lo < min_int(maxd, MATCH_COLUMN_LIMIT - x) {
        assert(is_candidate(x, lo, mind, maxd));
    }
}

/// Tells whether `compute_disparity` may be called on `left` with `config`
/// (see `disparity_inputs_ok`).
pub fn disparity_inputs_valid(left: &RgbImage, config: &StereoConfig) -> (b: bool)
    ensures
        b == disparity_inputs_ok(left, config),
{
    if left.width > 0x7fff_ffffu32 || left.height > 0x7fff_ffffu32 {
        return false;
    }
    let w: i64 = left.width as i64;
    let h: i64 = left.height as i64;
    let bh: i64 = block_half_of(config) as i64;
    let mind: i64 = config.min_disparity as i64;
    let maxd: i64 = max_disparity_of(config) as i64;
    let ghost gbh = config_block_half(config);
    let ghost gmind = config.min_disparity as int;
    let ghost gmaxd = config_max_d(config);
    let mut y: i64 = 0;
    while y < h
        invariant
            0 <= y <= h,
            w == left.width,
            h == left.height,
            w <= i32::MAX,
            h <= i32::MAX,
            bh == gbh,
            mind == gmind,
            maxd == gmaxd,
            gbh == config_block_half(config),
            gmind == config.min_disparity as int,
            gmaxd == config_max_d(config),
            i32::MIN <= bh <= i32::MAX,
            i32::MIN <= maxd <= i32::MAX,
            forall|xx: int, yy: int|
                0 <= xx < w && 0 <= yy < y ==> #[trigger] pixel_inputs_ok(
                    left,
                    xx,
                    yy,
                    gbh,
                    gmind,
                    gmaxd,
                    h as int,
                ),
        decreases h - y,
    {
        let mut x: i64 = 0;
        while x < w
            invariant
                0 <= x <= w,
                0 <= y < h,
                w == left.width,
                h == left.height,
                w <= i32::MAX,
                h <= i32::MAX,
                bh == gbh,
                mind == gmind,
                maxd == gmaxd,
                gbh == config_block_half(config),
                gmind == config.min_disparity as int,
                gmaxd == config_max_d(config),
                i32::MIN <= bh <= i32::MAX,
                i32::MIN <= maxd <= i32::MAX,
                forall|xx: int, yy: int|
                    0 <= xx < w && 0 <= yy < y ==> #[trigger] pixel_inputs_ok(
                        left,
                        xx,
                        yy,
                        gbh,
                        gmind,
                        gmaxd,
                        h as int,
                    ),
                forall|xx: int|
                    0 <= xx < x ==> #[trigger] pixel_inputs_ok(
                        left,
                        xx,
                        y as int,
                        gbh,
                        gmind,
                        gmaxd,
                        h as int,
                    ),
            decreases w - x,
        {
            if !pixel_inputs_valid(left, x, y, bh, mind, maxd, h) {
                proof {
                    assert(!pixel_inputs_ok(left, x as int, y as int, gbh, gmind, gmaxd, h as int));
                }
                return false;
            }
            x = x + 1;
        }
        y = y + 1;
    }
    true
}

/// Row sums of absolute differences are at most `765` per column.
proof fn lemma_row_cost_bounds(l: &RgbImage, r: &RgbImage, mx: int, cy: int, xs: int, xe: int)
    ensures
        0 <= row_cost(l, r, mx, cy, xs, xe),
        xs <= xe + 1 ==> row_cost(l, r, mx, cy, xs, xe) <= 765 * (xe + 1 - xs),
    decreases xe + 1 - xs,
{
    if xe >= xs {
        lemma_row_cost_bounds(l, r, mx, cy, xs, xe - 1);
    }
}

/// Block sums are at most `765` per compared pair.
proof fn lemma_window_cost_bounds(
    l: &RgbImage,
    r: &RgbImage,
    mx: int,
    xs: int,
    xe: int,
    ys: int,
    ye: int,
)
    ensures
        0 <= window_cost(l, r, mx, xs, xe, ys, ye),
        0 <= window_count(r, mx, xs, xe, ys, ye),
        window_cost(l, r, mx, xs, xe, ys, ye) <= 765 * window_count(r, mx, xs, xe, ys, ye),
    decreases ye + 1 - ys,
{
    if ye >= ys {
        lemma_window_cost_bounds(l, r, mx, xs, xe, ys, ye - 1);
        lemma_row_cost_bounds(l, r, mx, ye, xs, xe);
    }
}

/// Every pixel of the block that `match_cost` compares for disparity `d`
/// (rows where the right image has column `x + d`) equals, in all three
/// channels, the right pixel it is compared with.
pub open spec fn block_matches(l: &RgbImage, r: &RgbImage, x: int, y: int, d: int, bh: int, h: int) -> bool {
    let (xs, xe) = block_cols(x, bh);
    let (ys, ye) = block_rows(y, bh, h);
    forall|cx: int, cy: int|
        xs <= cx <= xe && ys <= cy <= ye && right_has(r, x + d, cy) ==> #[trigger] l.pixel(cx, cy)
            == r.pixel(x + d, cy)
}

/// For disparity `d` some pixel pair is compared, and every compared left
/// pixel differs, in some channel, from the right pixel it is compared
/// with.
pub open spec fn block_mismatches(l: &RgbImage, r: &RgbImage, x: int, y: int, d: int, bh: int, h: int) -> bool {
    let (xs, xe) = block_cols(x, bh);
    let (ys, ye) = block_rows(y, bh, h);
    &&& xs <= xe
    &&& exists|cy: int| ys <= cy <= ye && #[trigger] right_has(r, x + d, cy)
    &&& forall|cx: int, cy: int|
        xs <= cx <= xe && ys <= cy <= ye && right_has(r, x + d, cy) ==> #[trigger] l.pixel(cx, cy)
            != r.pixel(x + d, cy)
}

proof fn lemma_row_cost_equal_or_not(l: &RgbImage, r: &RgbImage, mx: int, cy: int, xs: int, xe: int)
    ensures
        (forall|cx: int| xs <= cx <= xe ==> #[trigger] l.pixel(cx, cy) == r.pixel(mx, cy)) ==> row_cost(
            l,
            r,
            mx,
            cy,
            xs,
            xe,
        ) == 0,
        (forall|cx: int| xs <= cx <= xe ==> #[trigger] l.pixel(cx, cy) != r.pixel(mx, cy)) ==> row_cost(
            l,
            r,
            mx,
            cy,
            xs,
            xe,
        ) >= xe + 1 - xs,
    decreases xe + 1 - xs,
{
    if xe >= xs {
        lemma_row_cost_equal_or_not(l, r, mx, cy, xs, xe - 1);
        if l.pixel(xe, cy) != r.pixel(mx, cy) {
            assert(pixel_cost(l, r, xe, mx, cy) >= 1);
        }
        lemma_row_cost_bounds(l, r, mx, cy, xs, xe - 1);
    }
}

proof fn lemma_window_equal_or_not(
    l: &RgbImage,
    r: &RgbImage,
    mx: int,
    xs: int,
    xe: int,
    ys: int,
    ye: int,
)
    ensures
        (forall|cx: int, cy: int|
            xs <= cx <= xe && ys <= cy <= ye && right_has(r, mx, cy) ==> #[trigger] l.pixel(cx, cy)
                == r.pixel(mx, cy)) ==> window_cost(l, r, mx, xs, xe, ys, ye) == 0,
        (forall|cx: int, cy: int|
            xs <= cx <= xe && ys <= cy <= ye && right_has(r, mx, cy) ==> #[trigger] l.pixel(cx, cy)
                != r.pixel(mx, cy)) ==> window_cost(l, r, mx, xs, xe, ys, ye) >= window_count(
            r,
            mx,
            xs,
            xe,
            ys,
            ye,
        ),
        (xs <= xe && exists|cy: int| ys <= cy <= ye && #[trigger] right_has(r, mx, cy)) ==> window_count(
            r,
            mx,
            xs,
            xe,
            ys,
            ye,
        ) > 0,
    decreases ye + 1 - ys,
{
    if ye >= ys {
        lemma_window_equal_or_not(l, r, mx, xs, xe, ys, ye - 1);
        lemma_row_cost_equal_or_not(l, r, mx, ye, xs, xe);
        lemma_window_cost_bounds(l, r, mx, xs, xe, ys, ye - 1);
    }
}

/// The matching cost of a pixel pair is `|dR| + |dG| + |dB|`: a disparity
/// whose compared pixels all equal the left block in all three channels is
/// chosen when every other candidate compares some pixels and each of them
/// differs in some channel.
pub proof fn lemma_exact_block_is_chosen(
    l: &RgbImage,
    r: &RgbImage,
    x: int,
    y: int,
    bh: int,
    mind: int,
    maxd: int,
    h: int,
    d0: int,
)
    requires
        is_candidate(x, d0, mind, maxd),
        block_matches(l, r, x, y, d0, bh, h),
        forall|e: int|
            #[trigger] is_candidate(x, e, mind, maxd) && e != d0 ==> block_mismatches(
                l,
                r,
                x,
                y,
                e,
                bh,
                h,
            ),
    ensures
        best_disparity(l, r, x, y, bh, mind, maxd, h) == d0,
{
    let (xs, xe) = block_cols(x, bh);
    let (ys, ye) = block_rows(y, bh, h);
    lemma_window_equal_or_not(l, r, x + d0, xs, xe, ys, ye);
    lemma_window_cost_bounds(l, r, x + d0, xs, xe, ys, ye);
    assert(match_cost(l, r, x, y, d0, bh, h) == 0);
    assert forall|e: int| #[trigger] is_candidate(x, e, mind, maxd) && e != d0 implies match_cost(
        l,
        r,
        x,
        y,
        e,
        bh,
        h,
    ) >= 1 by {
        assert(block_mismatches(l, r, x, y, e, bh, h));
        lemma_window_equal_or_not(l, r, x + e, xs, xe, ys, ye);
        let n = window_count(r, x + e, xs, xe, ys, ye);
        let c = window_cost(l, r, x + e, xs, xe, ys, ye);
        assert(c / n >= 1) by (nonlinear_arith)
            requires
                n > 0,
                c >= n,
        ;
    }
    assert(is_best(l, r, x, y, d0, bh, mind, maxd, h));
    assert(has_candidate(x, mind, maxd));
    let c = choose|c: int| is_best(l, r, x, y, c, bh, mind, maxd, h);
    lemma_best_unique(l, r, x, y, c, d0, bh, mind, maxd, h);
}

fn abs_diff_u8(a: u8, b: u8) -> (d: i64)
    ensures
        d == abs_diff(a, b),
{
    if a >= b {
        (a - b) as i64
    } else {
        (b - a) as i64
    }
}

/// Without columns to compare, a block costs nothing and compares nothing.
proof fn lemma_empty_cols(l: &RgbImage, r: &RgbImage, mx: int, xs: int, xe: int, ys: int, ye: int)
    requires
        xe < xs,
    ensures
        window_cost(l, r, mx, xs, xe, ys, ye) == 0,
        window_count(r, mx, xs, xe, ys, ye) == 0,
    decreases ye + 1 - ys,
{
    if ye >= ys {
        lemma_empty_cols(l, r, mx, xs, xe, ys, ye - 1);
    }
}

/// Mean absolute difference over the block `xs..=xe` by `ys..=ye` against
/// column `mx` of the right image.
fn window_average(
    left: &RgbImage,
    right: &RgbImage,
    mx: i64,
    xs: i64,
    xe: i64,
    ys: i64,
    ye: i64,
) -> (avg: i64)
    requires
        left.wf(),
        right.wf(),
        0 <= mx <= i32::MAX,
        0 <= xs <= 0x1_0000_0000,
        0 <= ys <= 0x1_0000_0000,
        xe < 0x1_0000_0000,
        ye < 0x1_0000_0000,
        (xs <= xe && ys <= ye) ==> xe <= BLOCK_COLUMN_LIMIT && xe < left.width && ye < left.height,
    ensures
        avg == ({
            let n = window_count(right, mx as int, xs as int, xe as int, ys as int, ye as int);
            if n > 0 {
                window_cost(left, right, mx as int, xs as int, xe as int, ys as int, ye as int) / n
            } else {
                0
            }
        }),
        0 <= avg <= 765,
{
    if xs > xe {
        proof {
            lemma_empty_cols(left, right, mx as int, xs as int, xe as int, ys as int, ye as int);
        }
        return 0;
    }
    if ys > ye {
        return 0;
    }
    let mut sum: i64 = 0;
    let mut count: i64 = 0;
    let mut cy: i64 = ys;
    while cy <= ye
        invariant
            left.wf(),
            right.wf(),
            0 <= mx <= i32::MAX,
            0 <= xs <= xe,
            xe <= BLOCK_COLUMN_LIMIT,
            xe < left.width,
            0 <= ys <= cy <= ye + 1,
            ye < left.height,
            sum == window_cost(left, right, mx as int, xs as int, xe as int, ys as int, cy - 1),
            count == window_count(right, mx as int, xs as int, xe as int, ys as int, cy - 1),
            0 <= count <= (cy - ys) * 1920,
            0 <= sum <= 765 * count,
        decreases ye + 1 - cy,
    {
        let ghost row_sum_before = sum;
        let ghost count_before = count;
        if (mx as u64) < right.width as u64 && (cy as u64) < right.height as u64 {
            let mut cx: i64 = xs;
            while cx <= xe
                invariant
                    left.wf(),
                    right.wf(),
                    0 <= mx < right.width,
                    0 <= cy < right.height,
                    0 <= ys <= cy <= ye,
                    ye < left.height,
                    0 <= xs <= xe,
                    xe <= BLOCK_COLUMN_LIMIT,
                    xe < left.width,
                    xs <= cx <= xe + 1,
                    sum == row_sum_before + row_cost(
                        left,
                        right,
                        mx as int,
                        cy as int,
                        xs as int,
                        cx - 1,
                    ),
                    count == count_before + (cx - xs),
                    0 <= count_before <= (cy - ys) * 1920,
                    0 <= row_sum_before <= 765 * count_before,
                    0 <= sum <= 765 * count,
                decreases xe + 1 - cx,
            {
                let lp = left.get_pixel(cx as u32, cy as u32);
                let rp = right.get_pixel(mx as u32, cy as u32);
                let c = abs_diff_u8(lp.0, rp.0) + abs_diff_u8(lp.1, rp.1) + abs_diff_u8(
                    lp.2,
                    rp.2,
                );
                sum = sum + c;
                count = count + 1;
                cx = cx + 1;
            }
        }
        cy = cy + 1;
    }
    proof {
        lemma_window_cost_bounds(
            left,
            right,
            mx as int,
            xs as int,
            xe as int,
            ys as int,
            cy - 1,
        );
    }
    if count > 0 {
        proof {
            assert(sum / count <= 765) by (nonlinear_arith)
                requires
                    0 <= sum <= 765 * count,
                    count > 0,
            ;
            assert(0 <= sum / count) by (nonlinear_arith)
                requires
                    0 <= sum,
                    count > 0,
            ;
        }
        sum / count
    } else {
        0
    }
}

/// The disparity of pixel `(x, y)`: among the disparities `d` in
/// `[min_disparity, max_disparity)` that move `x` into
/// `[0, MATCH_COLUMN_LIMIT)`, the first one whose block around `(x, y)`
/// has the smallest mean absolute difference against the right image;
/// `min_disparity` when no disparity qualifies.  A negative `block_half`
/// gives an empty block (cost zero) unless an end of it wraps around.
pub fn compute_disparity_at(
    left: &RgbImage,
    right: &RgbImage,
    x: i32,
    y: i32,
    block_half: i32,
    min_disparity: i32,
    max_disparity: i32,
    width: i32,
    height: i32,
) -> (best: i32)
    requires
        left.wf(),
        right.wf(),
        0 <= x < left.width <= i32::MAX,
        0 <= y < height <= left.height,
        pixel_inputs_ok(
            left,
            x as int,
            y as int,
            block_half as int,
            min_disparity as int,
            max_disparity as int,
            height as int,
        ),
    ensures
        !has_candidate(x as int, min_disparity as int, max_disparity as int) ==> best
            == min_disparity,
        has_candidate(x as int, min_disparity as int, max_disparity as int) ==> is_best(
            left,
            right,
            x as int,
            y as int,
            best as int,
            block_half as int,
            min_disparity as int,
            max_disparity as int,
            height as int,
        ),
        best == best_disparity(
            left,
            right,
            x as int,
            y as int,
            block_half as int,
            min_disparity as int,
            max_disparity as int,
            height as int,
        ),
{
    let ghost bh = block_half as int;
    let ghost mind = min_disparity as int;
    let ghost maxd = max_disparity as int;
    let ghost h = height as int;
    let mut best_disp: i32 = min_disparity;
    let mut min_sad: i64 = i32::MAX as i64;
    let b: i64 = block_half as i64;
    let xi: i64 = x as i64;
    let yi: i64 = y as i64;
    let y_start: i64 = if yi - b > 0 {
        yi - b
    } else {
        0
    };
    let y_end: i64 = wrap_u32_exec(
        if yi + b < height as i64 - 1 {
            yi + b
        } else {
            height as i64 - 1
        },
    );
    let x_start: i64 = if xi - b > 0 {
        xi - b
    } else {
        0
    };
    let x_end: i64 = wrap_u32_exec(
        if xi + b < BLOCK_COLUMN_LIMIT as i64 {
            xi + b
        } else {
            BLOCK_COLUMN_LIMIT as i64
        },
    );
    assert(block_cols(x as int, bh) == (x_start as int, x_end as int));
    assert(block_rows(y as int, bh, h) == (y_start as int, y_end as int));
    let mut d: i32 = min_disparity;
    while d < max_disparity
        invariant
            left.wf(),
            right.wf(),
            0 <= x < left.width <= i32::MAX,
            0 <= y < height <= left.height,
            bh == block_half as int,
            mind == min_disparity as int,
            maxd == max_disparity as int,
            h == height as int,
            min_disparity < max_disparity ==> x + max_disparity - 1 <= i32::MAX,
            has_candidate(x as int, mind, maxd) ==> window_fits(left, x as int, y as int, bh, h),
            block_cols(x as int, bh) == (x_start as int, x_end as int),
            block_rows(y as int, bh, h) == (y_start as int, y_end as int),
            0 <= x_start <= 0x1_0000_0000,
            0 <= y_start <= 0x1_0000_0000,
            x_end < 0x1_0000_0000,
            y_end < 0x1_0000_0000,
            mind <= d,
            d <= maxd || d == mind,
            min_sad <= i32::MAX,
            min_sad == i32::MAX ==> best_disp == min_disparity && forall|e: int|
                mind <= e < d ==> !#[trigger] is_candidate(x as int, e, mind, maxd),
            min_sad < i32::MAX ==> {
                &&& is_candidate(x as int, best_disp as int, mind, maxd)
                &&& best_disp < d
                &&& min_sad == match_cost(left, right, x as int, y as int, best_disp as int, bh, h)
                &&& forall|e: int|
                    mind <= e < d && #[trigger] is_candidate(x as int, e, mind, maxd) ==> min_sad
                        <= match_cost(left, right, x as int, y as int, e, bh, h)
                &&& forall|e: int|
                    mind <= e < best_disp && #[trigger] is_candidate(x as int, e, mind, maxd)
                        ==> match_cost(left, right, x as int, y as int, e, bh, h) > min_sad
            },
        decreases max_disparity - d,
    {
        let match_x = x + d;
        if match_x >= 0 && match_x < MATCH_COLUMN_LIMIT {
            proof {
                assert(is_candidate(x as int, d as int, mind, maxd));
                assert(window_fits(left, x as int, y as int, bh, h));
            }
            let sad = window_average(left, right, match_x as i64, x_start, x_end, y_start, y_end);
            if sad < min_sad {
                min_sad = sad;
                best_disp = d;
            }
        }
        d = d + 1;
    }
    proof {
        if has_candidate(x as int, mind, maxd) {
            let e = choose|e: int| is_candidate(x as int, e, mind, maxd);
            assert(min_sad < i32::MAX);
            assert(is_best(left, right, x as int, y as int, best_disp as int, bh, mind, maxd, h));
            let c = choose|c: int| is_best(left, right, x as int, y as int, c, bh, mind, maxd, h);
            lemma_best_unique(left, right, x as int, y as int, c, best_disp as int, bh, mind, maxd, h);
        } else {
            assert(min_sad == i32::MAX);
        }
    }
    best_disp
}

/// The disparity map of a stereo pair: the left image's size, where pixel
/// `(x, y)` holds `compute_disparity_at` for that pixel clamped to `0..=255`.
pub fn compute_disparity(left: &RgbImage, right: &RgbImage, config: &StereoConfig) -> (disparity:
    GrayImage)
    requires
        left.wf(),
        right.wf(),
        disparity_inputs_ok(left, config),
    ensures
        disparity.wf(),
        disparity.width == left.width,
        disparity.height == left.height,
        forall|x: int, y: int|
            0 <= x < left.width && 0 <= y < left.height ==> #[trigger] disparity.sample(x, y)
                == clamp_u8(
                best_disparity(
                    left,
                    right,
                    x,
                    y,
                    config_block_half(config),
                    config.min_disparity as int,
                    config_max_d(config),
                    left.height as int,
                ),
            ),
{
    let width = left.width;
    let height = left.height;
    let block_half: i32 = block_half_of(config);
    let max_disparity: i32 = max_disparity_of(config);
    let min_disparity: i32 = config.min_disparity;
    let buffer_len = left.data.len();
    proof {
        assert(width * height <= usize::MAX) by (nonlinear_arith)
            requires
                left.data@.len() == width * height * 3,
                left.data@.len() <= usize::MAX,
        ;
    }
    let ghost bh = block_half as int;
    let ghost mind = min_disparity as int;
    let ghost maxd = max_disparity as int;
    let pixel = |x: u32, y: u32| -> (v: u8)
        requires
            x < width,
            y < height,
            left.wf(),
            right.wf(),
            width == left.width,
            height == left.height,
            disparity_inputs_ok(left, config),
            block_half as int == config_block_half(config),
            max_disparity as int == config_max_d(config),
            min_disparity == config.min_disparity,
        ensures
            v == clamp_u8(
                best_disparity(
                    left,
                    right,
                    x as int,
                    y as int,
                    block_half as int,
                    min_disparity as int,
                    max_disparity as int,
                    height as int,
                ),
            ),
        {
            proof {
                assert(pixel_inputs_ok(
                    left,
                    x as int,
                    y as int,
                    config_block_half(config),
                    config.min_disparity as int,
                    config_max_d(config),
                    left.height as int,
                ));
            }
            let d = compute_disparity_at(
                left,
                right,
                x as i32,
                y as i32,
                block_half,
                min_disparity,
                max_disparity,
                width as i32,
                height as i32,
            );
            if d < 0 {
                0
            } else if d > 255 {
                255
            } else {
                d as u8
            }
        };
    proof {
        assert(block_half as int == config_block_half(config));
    }
    let disparity = GrayImage::from_fn(width, height, pixel);
    proof {
        assert forall|x: int, y: int|
            0 <= x < left.width && 0 <= y < left.height implies #[trigger] disparity.sample(x, y)
            == clamp_u8(
            best_disparity(
                left,
                right,
                x,
                y,
                config_block_half(config),
                config.min_disparity as int,
                config_max_d(config),
                left.height as int,
            ),
        ) by {
            assert(call_ensures(pixel, (x as u32, y as u32), disparity.sample(x, y)));
        }
    }
    disparity
}

} // verus!
