//! Plain pixel buffers: row-major, 8 bits per sample, three samples per
//! pixel for colour images and one for grey images.  The layout is the one
//! the `image` crate uses for `RgbImage` and `GrayImage`.
use vstd::prelude::*;

verus! {

/// Sample `c` of pixel `(x, y)` in a row-major RGB buffer of the given width.
pub open spec fn rgb_at(data: Seq<u8>, width: int, x: int, y: int, c: int) -> u8 {
    data[(y * width + x) * 3 + c]
}

/// The three samples of pixel `(x, y)` in a row-major RGB buffer.
pub open spec fn rgb_pixel_at(data: Seq<u8>, width: int, x: int, y: int) -> (u8, u8, u8) {
    (rgb_at(data, width, x, y, 0), rgb_at(data, width, x, y, 1), rgb_at(data, width, x, y, 2))
}

/// Pixel `(x, y)` of a row-major grey buffer of the given width.
pub open spec fn gray_at(data: Seq<u8>, width: int, x: int, y: int) -> u8 {
    data[y * width + x]
}

/// Row-major position of an in-bounds pixel lies inside the buffer.
pub proof fn lemma_pixel_index(w: int, h: int, x: int, y: int)
    requires
        0 <= x < w,
        0 <= y < h,
    ensures
        0 <= y * w,
        y * w + x < w * h,
        (y * w + x) * 3 + 2 < w * h * 3,
        0 <= (y * w + x) * 3,
{
    assert(0 <= y * w) by (nonlinear_arith)
        requires
            0 <= y,
            0 <= w,
    ;
    assert(y * w + x < w * h) by (nonlinear_arith)
        requires
            0 <= x < w,
            0 <= y < h,
    ;
    assert((y * w + x) * 3 + 2 < w * h * 3) by (nonlinear_arith)
        requires
            y * w + x < w * h,
    ;
}

/// Rows that come earlier start earlier: every pixel of rows `< y` lies
/// before the first pixel of row `y`.
pub proof fn lemma_row_before(w: int, x1: int, y1: int, y: int)
    requires
        0 <= x1 < w,
        0 <= y1 < y,
    ensures
        y1 * w + x1 < y * w,
{
    assert(y1 * w + x1 < y * w) by (nonlinear_arith)
        requires
            0 <= x1 < w,
            0 <= y1 < y,
    ;
}

/// Row `y + 1` starts where row `y` ends.
pub proof fn lemma_next_row(w: int, y: int)
    ensures
        (y + 1) * w == y * w + w,
{
    assert((y + 1) * w == y * w + w) by (nonlinear_arith);
}

/// Splits a position of a grey buffer into its column and row.
pub proof fn lemma_gray_index_decompose(w: int, h: int, i: int)
    requires
        0 < w,
        0 <= h,
        0 <= i < w * h,
    ensures
        0 <= i % w < w,
        0 <= i / w < h,
        (i / w) * w + i % w == i,
{
    vstd::arithmetic::div_mod::lemma_fundamental_div_mod(i, w);
    vstd::arithmetic::div_mod::lemma_mod_pos_bound(i, w);
    vstd::arithmetic::div_mod::lemma_div_pos_is_pos(i, w);
    let q = i / w;
    let r = i % w;
    assert(q * w == w * q) by (nonlinear_arith);
    assert(q < h) by (nonlinear_arith)
        requires
            i == w * q + r,
            0 <= r < w,
            i < w * h,
            0 < w,
    ;
}

/// Each buffer position holds exactly one pixel sample.
pub proof fn lemma_index_decompose(w: int, h: int, i: int)
    requires
        0 < w,
        0 <= h,
        0 <= i < w * h * 3,
    ensures
        ({
            let p = i / 3;
            let x = p % w;
            let y = p / w;
            &&& 0 <= x < w
            &&& 0 <= y < h
            &&& 0 <= i % 3 < 3
            &&& (y * w + x) * 3 + i % 3 == i
        }),
{
    let p = i / 3;
    vstd::arithmetic::div_mod::lemma_fundamental_div_mod(i, 3);
    vstd::arithmetic::div_mod::lemma_mod_pos_bound(i, 3);
    assert(0 <= p < w * h);
    lemma_gray_index_decompose(w, h, p);
}

/// An 8-bit RGB image stored row by row.
pub struct RgbImage {
    pub width: u32,
    pub height: u32,
    pub data: Vec<u8>,
}

/// An 8-bit single-channel image stored row by row.
pub struct GrayImage {
    pub width: u32,
    pub height: u32,
    pub data: Vec<u8>,
}

impl RgbImage {
    /// The buffer holds exactly three samples for every pixel.
    pub open spec fn wf(&self) -> bool {
        self.data@.len() == self.width * self.height * 3
    }

    pub open spec fn sample(&self, x: int, y: int, c: int) -> u8 {
        rgb_at(self.data@, self.width as int, x, y, c)
    }

    pub open spec fn pixel(&self, x: int, y: int) -> (u8, u8, u8) {
        rgb_pixel_at(self.data@, self.width as int, x, y)
    }

    /// Two images have the same size and the same pixels.
    pub open spec fn same_pixels(&self, other: &RgbImage) -> bool {
        &&& self.width == other.width
        &&& self.height == other.height
        &&& forall|x: int, y: int|
            0 <= x < self.width && 0 <= y < self.height ==> #[trigger] self.pixel(x, y)
                == other.pixel(x, y)
    }

    /// Two well-formed images with the same pixels have the same buffer.
    pub proof fn lemma_same_pixels_same_data(&self, other: &RgbImage)
        requires
            self.wf(),
            other.wf(),
            self.same_pixels(other),
        ensures
            self.data@ == other.data@,
    {
        let w = self.width as int;
        let h = self.height as int;
        if w > 0 {
            assert forall|i: int| 0 <= i < self.data@.len() implies self.data@[i]
                == other.data@[i] by {
                lemma_index_decompose(w, h, i);
                let p = i / 3;
                let x = p % w;
                let y = p / w;
                assert(self.pixel(x, y) == other.pixel(x, y));
                if i % 3 == 0 {
                    assert(self.sample(x, y, 0) == other.sample(x, y, 0));
                } else if i % 3 == 1 {
                    assert(self.sample(x, y, 1) == other.sample(x, y, 1));
                } else {
                    assert(self.sample(x, y, 2) == other.sample(x, y, 2));
                }
            }
        } else {
            assert(self.data@.len() == 0) by (nonlinear_arith)
                requires
                    self.data@.len() == w * h * 3,
                    w == 0,
            ;
        }
        assert(self.data@ =~= other.data@);
    }

    /// The width in pixels.
    pub fn width(&self) -> (w: u32)
        ensures
            w == self.width,
    {
        self.width
    }

    /// A copy of the image.
    pub fn duplicate(&self) -> (c: RgbImage)
        ensures
            c.width == self.width,
            c.height == self.height,
            c.data@ == self.data@,
    {
        let data = self.data.clone();
        assert(data@ =~= self.data@);
        RgbImage { width: self.width, height: self.height, data }
    }

    /// The height in pixels.
    pub fn height(&self) -> (h: u32)
        ensures
            h == self.height,
    {
        self.height
    }

    /// Wraps a raw buffer: `None` when it is shorter than `width * height * 3`
    /// samples (or that size does not fit in memory), else the image made of
    /// its first `width * height * 3` samples.
    pub fn from_raw(width: u32, height: u32, raw: Vec<u8>) -> (res: Option<RgbImage>)
        ensures
            res is Some <==> raw@.len() >= width * height * 3,
            res matches Some(img) ==> {
                &&& img.wf()
                &&& img.width == width
                &&& img.height == height
                &&& img.data@ == raw@.take(width * height * 3)
            },
    {
        proof {
            assert((width as u64) * (height as u64) <= u64::MAX) by (nonlinear_arith);
        }
        let n: u64 = width as u64 * height as u64;
        let len = raw.len();
        if n > (len / 3) as u64 {
            assert(raw@.len() < width * height * 3);
            return None;
        }
        let need: usize = (n as usize) * 3;
        let mut data = raw;
        data.truncate(need);
        assert(data@ =~= raw@.take(width * height * 3));
        Some(RgbImage { width, height, data })
    }

    /// The raw buffer, row by row.
    pub fn into_raw(self) -> (raw: Vec<u8>)
        ensures
            raw@ == self.data@,
    {
        self.data
    }

    /// Reads pixel `(x, y)`.
    pub fn get_pixel(&self, x: u32, y: u32) -> (p: (u8, u8, u8))
        requires
            self.wf(),
            x < self.width,
            y < self.height,
        ensures
            p == self.pixel(x as int, y as int),
    {
        proof {
            lemma_pixel_index(self.width as int, self.height as int, x as int, y as int);
        }
        let len = self.data.len();
        proof {
            assert((y as int) * (self.width as int) <= (y as int) * (self.width as int) + x);
        }
        let i: usize = ((y as usize) * (self.width as usize) + (x as usize)) * 3;
        (self.data[i], self.data[i + 1], self.data[i + 2])
    }

    /// Builds an image of the given size whose pixel `(x, y)` is `f(x, y)`,
    /// computing the pixels row by row.
    pub fn from_fn<F: Fn(u32, u32) -> (u8, u8, u8)>(width: u32, height: u32, f: F) -> (img:
        RgbImage)
        requires
            width * height * 3 <= usize::MAX,
            forall|x: u32, y: u32| x < width && y < height ==> call_requires(f, (x, y)),
        ensures
            img.wf(),
            img.width == width,
            img.height == height,
            forall|x: u32, y: u32|
                x < width && y < height ==> call_ensures(f, (x, y), #[trigger] img.pixel(x as int, y as int)),
    {
        let ghost w = width as int;
        let mut data: Vec<u8> = Vec::new();
        let mut y: u32 = 0;
        while y < height
            invariant
                y <= height,
                width * height * 3 <= usize::MAX,
                w == width as int,
                forall|x: u32, y: u32| x < width && y < height ==> call_requires(f, (x, y)),
                data@.len() == (y as int) * w * 3,
                forall|xx: u32, yy: u32|
                    xx < width && yy < y ==> call_ensures(
                        f,
                        (xx, yy),
                        #[trigger] rgb_pixel_at(data@, w, xx as int, yy as int),
                    ),
            decreases height - y,
        {
            let mut x: u32 = 0;
            let ghost row_start = data@;
            while x < width
                invariant
                    x <= width,
                    y < height,
                    w == width as int,
                    forall|x: u32, y: u32| x < width && y < height ==> call_requires(f, (x, y)),
                    data@.len() == ((y as int) * w + x) * 3,
                    row_start.len() == (y as int) * w * 3,
                    data@.subrange(0, row_start.len() as int) == row_start,
                    forall|xx: u32, yy: u32|
                        xx < width && yy < y ==> call_ensures(
                            f,
                            (xx, yy),
                            #[trigger] rgb_pixel_at(row_start, w, xx as int, yy as int),
                        ),
                    forall|xx: u32|
                        xx < x ==> call_ensures(
                            f,
                            (xx, y),
                            #[trigger] rgb_pixel_at(data@, w, xx as int, y as int),
                        ),
                decreases width - x,
            {
                let p = f(x, y);
                let ghost before = data@;
                data.push(p.0);
                data.push(p.1);
                data.push(p.2);
                proof {
                    assert(data@ == before.push(p.0).push(p.1).push(p.2));
                    assert(data@.subrange(0, row_start.len() as int) =~= row_start) by {
                        assert(data@.subrange(0, before.len() as int) =~= before);
                    }
                    assert forall|xx: u32| xx < x + 1 implies call_ensures(
                        f,
                        (xx, y),
                        #[trigger] rgb_pixel_at(data@, w, xx as int, y as int),
                    ) by {
                        lemma_pixel_index(w, height as int, xx as int, y as int);
                        if xx == x {
                            assert(data@[(y * w + x) * 3 + 0] == p.0);
                            assert(data@[(y * w + x) * 3 + 1] == p.1);
                            assert(data@[(y * w + x) * 3 + 2] == p.2);
                            assert(rgb_pixel_at(data@, w, xx as int, y as int) == p);
                            assert(call_ensures(f, (x, y), p));
                        } else {
                            assert(rgb_at(data@, w, xx as int, y as int, 0) == rgb_at(
                                before,
                                w,
                                xx as int,
                                y as int,
                                0,
                            ));
                            assert(rgb_at(data@, w, xx as int, y as int, 1) == rgb_at(
                                before,
                                w,
                                xx as int,
                                y as int,
                                1,
                            ));
                            assert(rgb_at(data@, w, xx as int, y as int, 2) == rgb_at(
                                before,
                                w,
                                xx as int,
                                y as int,
                                2,
                            ));
                            assert(rgb_pixel_at(data@, w, xx as int, y as int) == rgb_pixel_at(
                                before,
                                w,
                                xx as int,
                                y as int,
                            ));
                        }
                    }
                }
                x = x + 1;
            }
            proof {
                lemma_next_row(w, y as int);
                assert forall|xx: u32, yy: u32| xx < width && yy < y + 1 implies call_ensures(
                    f,
                    (xx, yy),
                    #[trigger] rgb_pixel_at(data@, w, xx as int, yy as int),
                ) by {
                    if yy < y {
                        lemma_row_before(w, xx as int, yy as int, y as int);
                        lemma_pixel_index(w, height as int, xx as int, yy as int);
                        assert(data@[(yy * w + xx) * 3 + 0] == row_start[(yy * w + xx) * 3 + 0]);
                        assert(data@[(yy * w + xx) * 3 + 1] == row_start[(yy * w + xx) * 3 + 1]);
                        assert(data@[(yy * w + xx) * 3 + 2] == row_start[(yy * w + xx) * 3 + 2]);
                        assert(rgb_pixel_at(data@, w, xx as int, yy as int) == rgb_pixel_at(
                            row_start,
                            w,
                            xx as int,
                            yy as int,
                        ));
                    }
                }
            }
            y = y + 1;
        }
        proof {
            assert((height as int) * w * 3 == width * height * 3) by (nonlinear_arith)
                requires
                    w == width as int,
            ;
        }
        RgbImage { width, height, data }
    }
}

impl GrayImage {
    /// The buffer holds exactly one sample for every pixel.
    pub open spec fn wf(&self) -> bool {
        self.data@.len() == self.width * self.height
    }

    pub open spec fn sample(&self, x: int, y: int) -> u8 {
        gray_at(self.data@, self.width as int, x, y)
    }

    /// The width in pixels.
    pub fn width(&self) -> (w: u32)
        ensures
            w == self.width,
    {
        self.width
    }

    /// The height in pixels.
    pub fn height(&self) -> (h: u32)
        ensures
            h == self.height,
    {
        self.height
    }

    /// Reads pixel `(x, y)`.
    pub fn get_pixel(&self, x: u32, y: u32) -> (v: u8)
        requires
            self.wf(),
            x < self.width,
            y < self.height,
        ensures
            v == self.sample(x as int, y as int),
    {
        proof {
            lemma_pixel_index(self.width as int, self.height as int, x as int, y as int);
        }
        let len = self.data.len();
        self.data[(y as usize) * (self.width as usize) + (x as usize)]
    }

    /// Builds an image of the given size whose pixel `(x, y)` is `f(x, y)`,
    /// computing the pixels row by row.
    pub fn from_fn<F: Fn(u32, u32) -> u8>(width: u32, height: u32, f: F) -> (img: GrayImage)
        requires
            width * height <= usize::MAX,
            forall|x: u32, y: u32| x < width && y < height ==> call_requires(f, (x, y)),
        ensures
            img.wf(),
            img.width == width,
            img.height == height,
            forall|x: u32, y: u32|
                x < width && y < height ==> call_ensures(f, (x, y), #[trigger] img.sample(x as int, y as int)),
    {
        let ghost w = width as int;
        let mut data: Vec<u8> = Vec::new();
        let mut y: u32 = 0;
        while y < height
            invariant
                y <= height,
                w == width as int,
                forall|x: u32, y: u32| x < width && y < height ==> call_requires(f, (x, y)),
                data@.len() == (y as int) * w,
                forall|xx: u32, yy: u32|
                    xx < width && yy < y ==> call_ensures(
                        f,
                        (xx, yy),
                        #[trigger] gray_at(data@, w, xx as int, yy as int),
                    ),
            decreases height - y,
        {
            let mut x: u32 = 0;
            let ghost row_start = data@;
            while x < width
                invariant
                    x <= width,
                    y < height,
                    w == width as int,
                    forall|x: u32, y: u32| x < width && y < height ==> call_requires(f, (x, y)),
                    data@.len() == (y as int) * w + x,
                    row_start.len() == (y as int) * w,
                    data@.subrange(0, row_start.len() as int) == row_start,
                    forall|xx: u32, yy: u32|
                        xx < width && yy < y ==> call_ensures(
                            f,
                            (xx, yy),
                            #[trigger] gray_at(row_start, w, xx as int, yy as int),
                        ),
                    forall|xx: u32|
                        xx < x ==> call_ensures(
                            f,
                            (xx, y),
                            #[trigger] gray_at(data@, w, xx as int, y as int),
                        ),
                decreases width - x,
            {
                let v = f(x, y);
                let ghost before = data@;
                data.push(v);
                proof {
                    assert(data@.subrange(0, row_start.len() as int) =~= row_start) by {
                        assert(data@.subrange(0, before.len() as int) =~= before);
                    }
                    assert forall|xx: u32| xx < x + 1 implies call_ensures(
                        f,
                        (xx, y),
                        #[trigger] gray_at(data@, w, xx as int, y as int),
                    ) by {
                        if xx < x {
                            assert(gray_at(data@, w, xx as int, y as int) == gray_at(
                                before,
                                w,
                                xx as int,
                                y as int,
                            ));
                        }
                    }
                }
                x = x + 1;
            }
            proof {
                lemma_next_row(w, y as int);
                assert forall|xx: u32, yy: u32| xx < width && yy < y + 1 implies call_ensures(
                    f,
                    (xx, yy),
                    #[trigger] gray_at(data@, w, xx as int, yy as int),
                ) by {
                    if yy < y {
                        lemma_row_before(w, xx as int, yy as int, y as int);
                        lemma_pixel_index(w, height as int, xx as int, yy as int);
                        assert(data@[yy * w + xx] == row_start[yy * w + xx]);
                        assert(gray_at(data@, w, xx as int, yy as int) == gray_at(
                            row_start,
                            w,
                            xx as int,
                            yy as int,
                        ));
                    }
                }
            }
            y = y + 1;
        }
        proof {
            assert((height as int) * w == width * height) by (nonlinear_arith)
                requires
                    w == width as int,
            ;
        }
        GrayImage { width, height, data }
    }
}

} // verus!
