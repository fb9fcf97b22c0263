//! Pictures shown in the interface: the two views side by side, the
//! disparity map in grey and the measurement markers.
use vstd::prelude::*;
use vstd::string::StringExecFns;
use crate::camera::{is_split_of, view_pixel, StereoFrame};
use crate::raster::{GrayImage, RgbImage};
use crate::stereo::{
    best_disparity, clamp_u8, compute_disparity, config_block_half, config_max_d, disparity_inputs_ok,
    StereoConfig,
};

verus! {

/// Pixel `(x, y)` of the left and right views placed side by side.
pub open spec fn combined_pixel(l: &RgbImage, r: &RgbImage, x: int, y: int) -> (u8, u8, u8) {
    if x < l.width {
        l.pixel(x, y)
    } else {
        r.pixel(x - l.width, y)
    }
}

/// `c` shows `l` and `r` side by side: `l`'s height, twice `l`'s width,
/// `l` in the left half and `r` in the right half.
pub open spec fn is_combination(c: &RgbImage, l: &RgbImage, r: &RgbImage) -> bool {
    &&& c.wf()
    &&& c.width == 2 * l.width
    &&& c.height == l.height
    &&& forall|x: int, y: int|
        0 <= x < c.width && 0 <= y < c.height ==> #[trigger] c.pixel(x, y) == combined_pixel(
            l,
            r,
            x,
            y,
        )
}

/// The two views side by side, `left` then `right`, at `left`'s size each.
pub fn create_stereo_combined(left: &RgbImage, right: &RgbImage) -> (combined: RgbImage)
    requires
        left.wf(),
        right.wf(),
        left.width <= right.width,
        left.height <= right.height,
        2 * left.width <= u32::MAX,
        2 * left.width * left.height * 3 <= usize::MAX,
    ensures
        is_combination(&combined, left, right),
{
    let w = left.width;
    let h = left.height;
    let pixel = |x: u32, y: u32| -> (p: (u8, u8, u8))
        requires
            x < 2 * w,
            y < h,
            left.wf(),
            right.wf(),
            w == left.width,
            h == left.height,
            left.width <= right.width,
            left.height <= right.height,
        ensures
            p == combined_pixel(left, right, x as int, y as int),
        {
            if x < w {
                left.get_pixel(x, y)
            } else {
                right.get_pixel(x - w, y)
            }
        };
    let combined = RgbImage::from_fn(2 * w, h, pixel);
    assert forall|x: int, y: int|
        0 <= x < combined.width && 0 <= y < combined.height implies #[trigger] combined.pixel(x, y)
        == combined_pixel(left, right, x, y) by {
        assert(call_ensures(pixel, (x as u32, y as u32), combined.pixel(x, y)));
    }
    combined
}

/// The disparity map as a grey RGB picture: each sample repeats the
/// disparity.
pub fn disparity_to_rgb(disparity: &GrayImage) -> (img: RgbImage)
    requires
        disparity.wf(),
        disparity.width * disparity.height * 3 <= usize::MAX,
    ensures
        img.wf(),
        img.width == disparity.width,
        img.height == disparity.height,
        forall|x: int, y: int|
            0 <= x < img.width && 0 <= y < img.height ==> #[trigger] img.pixel(x, y) == (
                disparity.sample(x, y),
                disparity.sample(x, y),
                disparity.sample(x, y),
            ),
{
    let w = disparity.width;
    let h = disparity.height;
    let pixel = |x: u32, y: u32| -> (p: (u8, u8, u8))
        requires
            x < w,
            y < h,
            disparity.wf(),
            w == disparity.width,
            h == disparity.height,
        ensures
            p == (
                disparity.sample(x as int, y as int),
                disparity.sample(x as int, y as int),
                disparity.sample(x as int, y as int),
            ),
        {
            let v = disparity.get_pixel(x, y);
            (v, v, v)
        };
    let img = RgbImage::from_fn(w, h, pixel);
    assert forall|x: int, y: int| 0 <= x < img.width && 0 <= y < img.height implies #[trigger] img.pixel(
        x,
        y,
    ) == (disparity.sample(x, y), disparity.sample(x, y), disparity.sample(x, y)) by {
        assert(call_ensures(pixel, (x as u32, y as u32), img.pixel(x, y)));
    }
    img
}

/// The pictures the interface serves.
#[derive(Debug, Clone, Copy, PartialEq, Eq, Structural)]
pub enum ImageView {
    /// Both views side by side.
    Stereo,
    Left,
    Right,
    /// The disparity map in grey.
    Disparity,
}

/// The view a request names: `stereo`, `left`, `right` or `disparity`.
pub open spec fn view_named(name: Seq<char>) -> Option<ImageView> {
    if name == seq!['s', 't', 'e', 'r', 'e', 'o'] {
        Some(ImageView::Stereo)
    } else if name == seq!['l', 'e', 'f', 't'] {
        Some(ImageView::Left)
    } else if name == seq!['r', 'i', 'g', 'h', 't'] {
        Some(ImageView::Right)
    } else if name == seq!['d', 'i', 's', 'p', 'a', 'r', 'i', 't', 'y'] {
        Some(ImageView::Disparity)
    } else {
        None
    }
}

/// The view a request asks for; the side-by-side view when it names none,
/// `None` when it names an unknown one.
pub fn parse_view(name: Option<&str>) -> (v: Option<ImageView>)
    ensures
        v == (match name {
            None => Some(ImageView::Stereo),
            Some(n) => view_named(n@),
        }),
{
    match name {
        None => Some(ImageView::Stereo),
        Some(n) => {
            proof {
                reveal_strlit("stereo");
                reveal_strlit("left");
                reveal_strlit("right");
                reveal_strlit("disparity");
            }
            let s = String::from_str(n);
            assert("stereo"@ =~= seq!['s', 't', 'e', 'r', 'e', 'o']);
            assert("left"@ =~= seq!['l', 'e', 'f', 't']);
            assert("right"@ =~= seq!['r', 'i', 'g', 'h', 't']);
            assert("disparity"@ =~= seq!['d', 'i', 's', 'p', 'a', 'r', 'i', 't', 'y']);
            if s == String::from_str("stereo") {
                Some(ImageView::Stereo)
            } else if s == String::from_str("left") {
                Some(ImageView::Left)
            } else if s == String::from_str("right") {
                Some(ImageView::Right)
            } else if s == String::from_str("disparity") {
                Some(ImageView::Disparity)
            } else {
                None
            }
        },
    }
}

/// `c` has the size and samples of `img`.
pub open spec fn is_copy_of(c: &RgbImage, img: &RgbImage) -> bool {
    c.width == img.width && c.height == img.height && c.data@ == img.data@
}

/// `img` is the disparity map of `left` against `right` shown in grey.
pub open spec fn is_disparity_view(img: &RgbImage, left: &RgbImage, right: &RgbImage, config: &StereoConfig) -> bool {
    &&& img.wf()
    &&& img.width == left.width
    &&& img.height == left.height
    &&& forall|x: int, y: int|
        0 <= x < img.width && 0 <= y < img.height ==> {
            let d = clamp_u8(
                best_disparity(
                    left,
                    right,
                    x,
                    y,
                    config_block_half(config),
                    config.min_disparity as int,
                    config_max_d(config),
                    left.height as int,
                ),
            ) as u8;
            #[trigger] img.pixel(x, y) == (d, d, d)
        }
}

/// The picture for a view of the captured pair: `None` when a view it
/// needs has not been captured.
pub fn render_view(
    view: ImageView,
    left: Option<&RgbImage>,
    right: Option<&RgbImage>,
    config: &StereoConfig,
) -> (img: Option<RgbImage>)
    requires
        left matches Some(l) ==> l.wf(),
        right matches Some(r) ==> r.wf(),
        view == ImageView::Stereo && left is Some && right is Some ==> {
            let l = left->0;
            let r = right->0;
            &&& l.width <= r.width
            &&& l.height <= r.height
            &&& 2 * l.width <= u32::MAX
            &&& 2 * l.width * l.height * 3 <= usize::MAX
        },
        view == ImageView::Disparity && left is Some && right is Some ==> disparity_inputs_ok(
            left->0,
            config,
        ),
    ensures
        view == ImageView::Stereo ==> (if left is Some && right is Some {
            img matches Some(c) && is_combination(&c, left->0, right->0)
        } else {
            img is None
        }),
        view == ImageView::Left ==> (match left {
            Some(l) => img matches Some(c) && is_copy_of(&c, l),
            None => img is None,
        }),
        view == ImageView::Right ==> (match right {
            Some(r) => img matches Some(c) && is_copy_of(&c, r),
            None => img is None,
        }),
        view == ImageView::Disparity ==> (if left is Some && right is Some {
            img matches Some(c) && is_disparity_view(&c, left->0, right->0, config)
        } else {
            img is None
        }),
{
    match view {
        ImageView::Stereo => match (left, right) {
            (Some(l), Some(r)) => Some(create_stereo_combined(l, r)),
            _ => None,
        },
        ImageView::Left => match left {
            Some(l) => Some(l.duplicate()),
            None => None,
        },
        ImageView::Right => match right {
            Some(r) => Some(r.duplicate()),
            None => None,
        },
        ImageView::Disparity => match (left, right) {
            (Some(l), Some(r)) => {
                let n = l.data.len();
                let disparity = compute_disparity(l, r, config);
                assert(disparity.width * disparity.height * 3 == n);
                let c = disparity_to_rgb(&disparity);
                assert forall|x: int, y: int| 0 <= x < c.width && 0 <= y < c.height implies {
                    let d = clamp_u8(
                        best_disparity(
                            l,
                            r,
                            x,
                            y,
                            config_block_half(config),
                            config.min_disparity as int,
                            config_max_d(config),
                            l.height as int,
                        ),
                    ) as u8;
                    #[trigger] c.pixel(x, y) == (d, d, d)
                } by {
                    assert(c.pixel(x, y) == (
                        disparity.sample(x, y),
                        disparity.sample(x, y),
                        disparity.sample(x, y),
                    ));
                }
                Some(c)
            },
            _ => None,
        },
    }
}

/// The eight bytes every PNG file starts with.
pub open spec fn png_signature() -> Seq<u8> {
    seq![137u8, 80u8, 78u8, 71u8, 13u8, 10u8, 26u8, 10u8]
}

/// The PNG file the `image` crate writes for a picture of the given size
/// and RGB samples (default compression and filtering).
pub uninterp spec fn png_encoding(width: u32, height: u32, data: Seq<u8>) -> Seq<u8>;

/// Encodes a picture as PNG with `image::DynamicImage::write_to` (the
/// samples wrapped with `ImageBuffer::from_raw`).  Claimed, from the `png`
/// encoder's source: a picture without pixels is refused; any other is
/// encoded (writing into memory cannot fail), into `png_encoding` of its
/// size and samples, and a PNG file starts with the PNG signature.
#[verifier::external_body]
fn encode_png(img: &RgbImage) -> (res: Option<Vec<u8>>)
    requires
        img.wf(),
    ensures
        (img.width == 0 || img.height == 0) ==> res is None,
        (img.width > 0 && img.height > 0) ==> res is Some,
        res matches Some(bytes) ==> bytes@ == png_encoding(img.width, img.height, img.data@),
        res matches Some(bytes) ==> bytes@.len() >= 8 && bytes@.take(8) == png_signature(),
{
    let buffer = image::RgbImage::from_raw(img.width, img.height, img.data.clone())?;
    let mut out: Vec<u8> = Vec::new();
    match image::DynamicImage::ImageRgb8(buffer).write_to(
        &mut std::io::Cursor::new(&mut out),
        image::ImageFormat::Png,
    ) {
        Ok(()) => Some(out),
        Err(_) => None,
    }
}

/// The captured pictures a view is drawn from are there.
pub open spec fn view_available(view: ImageView, left: Option<&RgbImage>, right: Option<&RgbImage>) -> bool {
    match view {
        ImageView::Left => left is Some,
        ImageView::Right => right is Some,
        _ => left is Some && right is Some,
    }
}

/// `img` is the picture shown for `view` of the captured pair (see
/// `render_view`).
pub open spec fn is_view_picture(
    img: &RgbImage,
    view: ImageView,
    left: Option<&RgbImage>,
    right: Option<&RgbImage>,
    config: &StereoConfig,
) -> bool {
    match view {
        ImageView::Stereo => is_combination(img, left->0, right->0),
        ImageView::Left => is_copy_of(img, left->0),
        ImageView::Right => is_copy_of(img, right->0),
        ImageView::Disparity => is_disparity_view(img, left->0, right->0, config),
    }
}

/// A view has only one picture: its size and samples are fixed.
pub proof fn lemma_view_picture_unique(
    a: &RgbImage,
    b: &RgbImage,
    view: ImageView,
    left: Option<&RgbImage>,
    right: Option<&RgbImage>,
    config: &StereoConfig,
)
    requires
        left matches Some(l) ==> l.wf(),
        right matches Some(r) ==> r.wf(),
        view_available(view, left, right),
        is_view_picture(a, view, left, right, config),
        is_view_picture(b, view, left, right, config),
    ensures
        a.width == b.width,
        a.height == b.height,
        a.data@ == b.data@,
{
    match view {
        ImageView::Left | ImageView::Right => {},
        ImageView::Stereo => {
            assert(a.same_pixels(b));
            a.lemma_same_pixels_same_data(b);
        },
        ImageView::Disparity => {
            assert(a.same_pixels(b));
            a.lemma_same_pixels_same_data(b);
        },
    }
}

/// The picture for a view (see `render_view`) encoded as PNG: `None` when
/// the pictures it is drawn from have not been captured or the picture has
/// no pixels, else `png_encoding` of the picture.
pub fn view_png(
    view: ImageView,
    left: Option<&RgbImage>,
    right: Option<&RgbImage>,
    config: &StereoConfig,
) -> (png: Option<Vec<u8>>)
    requires
        left matches Some(l) ==> l.wf(),
        right matches Some(r) ==> r.wf(),
        view == ImageView::Stereo && left is Some && right is Some ==> {
            let l = left->0;
            let r = right->0;
            &&& l.width <= r.width
            &&& l.height <= r.height
            &&& 2 * l.width <= u32::MAX
            &&& 2 * l.width * l.height * 3 <= usize::MAX
        },
        view == ImageView::Disparity && left is Some && right is Some ==> disparity_inputs_ok(
            left->0,
            config,
        ),
    ensures
        !view_available(view, left, right) ==> png is None,
        view_available(view, left, right) ==> exists|img: RgbImage|
            #[trigger] is_view_picture(&img, view, left, right, config) && (if img.width > 0
                && img.height > 0 {
                png matches Some(bytes) && bytes@ == png_encoding(img.width, img.height, img.data@)
            } else {
                png is None
            }),
        png matches Some(bytes) ==> bytes@.len() >= 8 && bytes@.take(8) == png_signature(),
{
    match render_view(view, left, right, config) {
        Some(img) => {
            let png = encode_png(&img);
            assert(is_view_picture(&img, view, left, right, config));
            png
        },
        None => None,
    }
}

/// Half the side of a marker square.
pub const MARKER_HALF: i32 = 5;

pub open spec fn clamp_int(v: int, lo: int, hi: int) -> int {
    if v < lo {
        lo
    } else if v > hi {
        hi
    } else {
        v
    }
}

/// Colour of the `i`-th marker: red, green, blue, yellow, then again.
pub open spec fn marker_color(i: int) -> (u8, u8, u8) {
    let k = i % 4;
    if k == 0 {
        (255, 0, 0)
    } else if k == 1 {
        (0, 255, 0)
    } else if k == 2 {
        (0, 0, 255)
    } else {
        (255, 255, 0)
    }
}

/// The square of side `2 * MARKER_HALF + 1` around `c`, clipped to the
/// `w` by `h` picture, contains `(x, y)`.
pub open spec fn marker_covers(c: (i32, i32), w: int, h: int, x: int, y: int) -> bool {
    &&& clamp_int(c.0 - MARKER_HALF, 0, w - 1) <= x <= clamp_int(c.0 + MARKER_HALF, 0, w - 1)
    &&& clamp_int(c.1 - MARKER_HALF, 0, h - 1) <= y <= clamp_int(c.1 + MARKER_HALF, 0, h - 1)
}

/// The last of the first `n` markers that covers `(x, y)`, or `-1`.
pub open spec fn last_marker(centers: Seq<(i32, i32)>, n: int, w: int, h: int, x: int, y: int) -> int
    decreases n,
{
    if n <= 0 {
        -1
    } else if marker_covers(centers[n - 1], w, h, x, y) {
        n - 1
    } else {
        last_marker(centers, n - 1, w, h, x, y)
    }
}

proof fn lemma_last_marker_bounds(centers: Seq<(i32, i32)>, n: int, w: int, h: int, x: int, y: int)
    ensures
        -1 <= last_marker(centers, n, w, h, x, y) < n || (n <= 0 && last_marker(
            centers,
            n,
            w,
            h,
            x,
            y,
        ) == -1),
    decreases n,
{
    if n > 0 {
        lemma_last_marker_bounds(centers, n - 1, w, h, x, y);
    }
}

/// The colour of a pixel after drawing comes from the last marker whose
/// square of half-side `MARKER_HALF` around its center, each side clipped
/// to the `w` by `h` picture, contains the pixel in both its column and its
/// row; a pixel no such square contains keeps its colour.
pub proof fn lemma_marker_pixels(centers: Seq<(i32, i32)>, n: int, w: int, h: int, x: int, y: int)
    requires
        0 <= n <= centers.len(),
    ensures
        last_marker(centers, n, w, h, x, y) < 0 <==> forall|j: int|
            0 <= j < n ==> !({
                let c = #[trigger] centers[j];
                &&& clamp_int(c.0 - MARKER_HALF, 0, w - 1) <= x
                &&& x <= clamp_int(c.0 + MARKER_HALF, 0, w - 1)
                &&& clamp_int(c.1 - MARKER_HALF, 0, h - 1) <= y
                &&& y <= clamp_int(c.1 + MARKER_HALF, 0, h - 1)
            }),
        last_marker(centers, n, w, h, x, y) >= 0 ==> {
            let k = last_marker(centers, n, w, h, x, y);
            let c = centers[k];
            &&& k < n
            &&& clamp_int(c.0 - MARKER_HALF, 0, w - 1) <= x
            &&& x <= clamp_int(c.0 + MARKER_HALF, 0, w - 1)
            &&& clamp_int(c.1 - MARKER_HALF, 0, h - 1) <= y
            &&& y <= clamp_int(c.1 + MARKER_HALF, 0, h - 1)
            &&& forall|j: int|
                k < j < n ==> !({
                    let d = #[trigger] centers[j];
                    &&& clamp_int(d.0 - MARKER_HALF, 0, w - 1) <= x
                    &&& x <= clamp_int(d.0 + MARKER_HALF, 0, w - 1)
                    &&& clamp_int(d.1 - MARKER_HALF, 0, h - 1) <= y
                    &&& y <= clamp_int(d.1 + MARKER_HALF, 0, h - 1)
                })
        },
    decreases n,
{
    if n > 0 {
        lemma_marker_pixels(centers, n - 1, w, h, x, y);
        lemma_last_marker_bounds(centers, n, w, h, x, y);
    }
}

fn clamp_i32(v: i32, lo: i32, hi: i32) -> (r: i32)
    requires
        lo <= hi,
    ensures
        r == clamp_int(v as int, lo as int, hi as int),
{
    if v < lo {
        lo
    } else if v > hi {
        hi
    } else {
        v
    }
}

fn marker_color_exec(i: usize) -> (c: (u8, u8, u8))
    ensures
        c == marker_color(i as int),
{
    let k = i % 4;
    if k == 0 {
        (255, 0, 0)
    } else if k == 1 {
        (0, 255, 0)
    } else if k == 2 {
        (0, 0, 255)
    } else {
        (255, 255, 0)
    }
}

/// `image` with a filled square of side 11 drawn around each center (the
/// part of it inside the picture), markers drawn in order so that later
/// ones cover earlier ones; marker `i` has colour `marker_color(i)`.
pub fn draw_points(image: &RgbImage, centers: &[(i32, i32)]) -> (display: RgbImage)
    requires
        image.wf(),
        image.width <= i32::MAX,
        image.height <= i32::MAX,
        centers@.len() > 0 ==> image.width >= 1 && image.height >= 1,
        forall|i: int|
            0 <= i < centers@.len() ==> i32::MIN + MARKER_HALF <= (#[trigger] centers@[i]).0
                <= i32::MAX - MARKER_HALF && i32::MIN + MARKER_HALF <= centers@[i].1 <= i32::MAX
                - MARKER_HALF,
    ensures
        display.wf(),
        display.width == image.width,
        display.height == image.height,
        forall|x: int, y: int|
            0 <= x < display.width && 0 <= y < display.height ==> #[trigger] display.pixel(x, y)
                == ({
                let k = last_marker(
                    centers@,
                    centers@.len() as int,
                    image.width as int,
                    image.height as int,
                    x,
                    y,
                );
                if k >= 0 {
                    marker_color(k)
                } else {
                    image.pixel(x, y)
                }
            }),
{
    let w = image.width;
    let h = image.height;
    let len = image.data.len();
    proof {
        assert(w * h * 3 <= usize::MAX);
    }
    let pixel = |x: u32, y: u32| -> (p: (u8, u8, u8))
        requires
            x < w,
            y < h,
            image.wf(),
            w == image.width,
            h == image.height,
            w <= i32::MAX,
            h <= i32::MAX,
            forall|i: int|
                0 <= i < centers@.len() ==> i32::MIN + MARKER_HALF <= (#[trigger] centers@[i]).0
                    <= i32::MAX - MARKER_HALF && i32::MIN + MARKER_HALF <= centers@[i].1
                    <= i32::MAX - MARKER_HALF,
        ensures
            p == ({
                let k = last_marker(centers@, centers@.len() as int, w as int, h as int, x as int, y as int);
                if k >= 0 {
                    marker_color(k)
                } else {
                    image.pixel(x as int, y as int)
                }
            }),
        {
            let wi = w as i32;
            let hi = h as i32;
            let xi = x as i32;
            let yi = y as i32;
            let mut n = centers.len();
            while n > 0
                invariant
                    n <= centers@.len(),
                    wi as int == w,
                    hi as int == h,
                    1 <= wi,
                    1 <= hi,
                    xi as int == x,
                    yi as int == y,
                    forall|i: int|
                        0 <= i < centers@.len() ==> i32::MIN + MARKER_HALF <= (
                        #[trigger] centers@[i]).0 <= i32::MAX - MARKER_HALF && i32::MIN
                            + MARKER_HALF <= centers@[i].1 <= i32::MAX - MARKER_HALF,
                    last_marker(centers@, centers@.len() as int, w as int, h as int, x as int, y as int)
                        == last_marker(centers@, n as int, w as int, h as int, x as int, y as int),
                decreases n,
            {
                let c = centers[n - 1];
                let x0 = clamp_i32(c.0 - MARKER_HALF, 0, wi - 1);
                let x1 = clamp_i32(c.0 + MARKER_HALF, 0, wi - 1);
                let y0 = clamp_i32(c.1 - MARKER_HALF, 0, hi - 1);
                let y1 = clamp_i32(c.1 + MARKER_HALF, 0, hi - 1);
                if x0 <= xi && xi <= x1 && y0 <= yi && yi <= y1 {
                    return marker_color_exec(n - 1);
                }
                n = n - 1;
            }
            image.get_pixel(x, y)
        };
    let display = RgbImage::from_fn(w, h, pixel);
    assert forall|x: int, y: int|
        0 <= x < display.width && 0 <= y < display.height implies #[trigger] display.pixel(x, y)
        == ({
        let k = last_marker(centers@, centers@.len() as int, image.width as int, image.height as int, x, y);
        if k >= 0 {
            marker_color(k)
        } else {
            image.pixel(x, y)
        }
    }) by {
        assert(call_ensures(pixel, (x as u32, y as u32), display.pixel(x, y)));
    }
    display
}

/// Position of a view sample in the side-by-side buffer, as a pixel
/// position of the full-width picture.
proof fn lemma_view_offset(fw: int, offset: int, x: int, y: int)
    ensures
        y * (fw * 3) + offset * 3 + x * 3 == (y * fw + (offset + x)) * 3,
{
    assert(y * (fw * 3) + offset * 3 + x * 3 == (y * fw + (offset + x)) * 3) by (nonlinear_arith);
}

/// Splitting a side-by-side picture gives back the two views it was made
/// of.
pub proof fn lemma_split_undoes_combine(l: &RgbImage, r: &RgbImage, c: &RgbImage, frame: &StereoFrame)
    requires
        l.wf(),
        r.wf(),
        l.width == r.width,
        l.height == r.height,
        is_combination(c, l, r),
        is_split_of(frame, c.data@, (c.width, c.height)),
    ensures
        frame.left.width == l.width,
        frame.left.height == l.height,
        frame.left.data@ == l.data@,
        frame.right.width == r.width,
        frame.right.height == r.height,
        frame.right.data@ == r.data@,
{
    let w = l.width as int;
    let cw = c.width as int;
    assert(cw / 2 == w);
    assert forall|x: int, y: int|
        0 <= x < frame.left.width && 0 <= y < frame.left.height implies #[trigger] frame.left.pixel(
        x,
        y,
    ) == l.pixel(x, y) by {
        assert(frame.left.pixel(x, y) == view_pixel(c.data@, cw, 0, x, y));
        assert(c.pixel(x, y) == combined_pixel(l, r, x, y));
        lemma_view_offset(cw, 0, x, y);
    }
    assert forall|x: int, y: int|
        0 <= x < frame.right.width && 0 <= y < frame.right.height implies #[trigger] frame.right.pixel(
        x,
        y,
    ) == r.pixel(x, y) by {
        assert(frame.right.pixel(x, y) == view_pixel(c.data@, cw, w, x, y));
        assert(c.pixel(w + x, y) == combined_pixel(l, r, w + x, y));
        lemma_view_offset(cw, w, x, y);
    }
    frame.left.lemma_same_pixels_same_data(l);
    frame.right.lemma_same_pixels_same_data(r);
}

/// The two views of a split picture of even width can always be put side
/// by side again: they meet every requirement of `create_stereo_combined`.
pub proof fn lemma_split_can_be_combined(c: &RgbImage, frame: &StereoFrame)
    requires
        c.wf(),
        c.width % 2 == 0,
        is_split_of(frame, c.data@, (c.width, c.height)),
    ensures
        frame.left.wf(),
        frame.right.wf(),
        frame.left.width <= frame.right.width,
        frame.left.height <= frame.right.height,
        2 * frame.left.width <= u32::MAX,
        2 * frame.left.width * frame.left.height * 3 <= usize::MAX,
{
    assert(c.data@.len() <= usize::MAX) by {
        assert(c.data.len() == c.data@.len());
    }
    assert(2 * frame.left.width == c.width);
    assert(2 * frame.left.width * frame.left.height * 3 == c.width * c.height * 3) by (nonlinear_arith)
        requires
            2 * frame.left.width == c.width,
            frame.left.height == c.height,
    ;
}

/// Putting the two views of a split picture of even width side by side
/// gives back the picture.
pub proof fn lemma_combine_undoes_split(c: &RgbImage, frame: &StereoFrame, d: &RgbImage)
    requires
        c.wf(),
        c.width % 2 == 0,
        is_split_of(frame, c.data@, (c.width, c.height)),
        is_combination(d, &frame.left, &frame.right),
    ensures
        d.width == c.width,
        d.height == c.height,
        d.data@ == c.data@,
{
    let cw = c.width as int;
    let hw = cw / 2;
    assert forall|x: int, y: int| 0 <= x < d.width && 0 <= y < d.height implies #[trigger] d.pixel(
        x,
        y,
    ) == c.pixel(x, y) by {
        assert(d.pixel(x, y) == combined_pixel(&frame.left, &frame.right, x, y));
        if x < hw {
            assert(frame.left.pixel(x, y) == view_pixel(c.data@, cw, 0, x, y));
            lemma_view_offset(cw, 0, x, y);
        } else {
            let xr = x - hw;
            assert(frame.right.pixel(xr, y) == view_pixel(c.data@, cw, hw, xr, y));
            lemma_view_offset(cw, hw, xr, y);
        }
    }
    d.lemma_same_pixels_same_data(c);
}

} // verus!
