//! One UVC device as ffmpeg reads it, and the frames made from what ffmpeg
//! returns.
use vstd::prelude::*;
use vstd::slice::slice_to_vec;
use vstd::string::{StrSliceExecFns, StringExecFns};
use crate::raster::RgbImage;
use crate::text::chars_of;
use super::CameraError;
use super::dshow::split_state;

verus! {

#[verifier::external_type_specification]
#[verifier::external_body]
pub struct ExImageError(image::ImageError);

/// Calls `image::load_from_memory` and converts the result with
/// `into_rgb8`.  Claimed: a decoded buffer holds at least three samples per
/// pixel (the invariant every `ImageBuffer` keeps).  Which bytes decode, and
/// to what, is left unsaid: the crate consults format-detection and
/// decoding hooks that any code in the process may register, so the outcome
/// is not a function of the bytes alone.  (Neither this library nor its
/// server registers a hook; a hook that panicked while being registered
/// would poison the crate's hook lock and make this call panic.)
#[verifier::external_body]
fn load_rgb8(bytes: &[u8]) -> (res: Result<(u32, u32, Vec<u8>), image::ImageError>)
    ensures
        res matches Ok((w, h, data)) ==> data@.len() >= w * h * 3,
{
    match image::load_from_memory(bytes) {
        Ok(img) => {
            let rgb = img.into_rgb8();
            let (w, h) = rgb.dimensions();
            Ok((w, h, rgb.into_raw()))
        },
        Err(e) => Err(e),
    }
}

/// The last line of `s` as `str::lines` yields it: the text after the last
/// newline when it is not empty, otherwise the last newline-terminated line
/// without a `'\r'` just before its newline; `None` for empty text.
pub open spec fn last_line(s: Seq<char>) -> Option<Seq<char>> {
    let (done, cur) = split_state(s);
    if cur.len() > 0 {
        Some(cur)
    } else if done.len() > 0 {
        let l = done.last();
        if l.len() > 0 && l.last() == '\r' {
            Some(l.drop_last())
        } else {
            Some(l)
        }
    } else {
        None
    }
}

/// The message reported when ffmpeg failed and printed nothing.
pub open spec fn unknown_error_text() -> Seq<char> {
    seq!['u', 'n', 'k', 'n', 'o', 'w', 'n', ' ', 'e', 'r', 'r', 'o', 'r']
}

/// The error reported when ffmpeg exits unsuccessfully: its exit code (`-1`
/// when it has none) and the last line of its error output (`unknown
/// error` when there is none).
pub fn capture_failure(exit_code: Option<i32>, stderr: &str) -> (e: CameraError)
    ensures
        e matches CameraError::CaptureFailed { exit_code: c, message: m } && c == (match exit_code {
            Some(code) => code,
            None => -1i32,
        }) && m@ == (match last_line(stderr@) {
            Some(l) => l,
            None => unknown_error_text(),
        }),
{
    let chars = chars_of(stderr);
    let n = chars.len();
    let mut start: usize = 0;
    let mut prev: Option<(usize, usize)> = None;
    let mut i: usize = 0;
    let ghost mut done: Seq<Seq<char>> = Seq::empty();
    assert(chars@.take(0) =~= Seq::<char>::empty());
    assert(chars@.subrange(0, 0) =~= Seq::<char>::empty());
    while i < n
        invariant
            n == chars@.len(),
            chars@ == stderr@,
            start <= i <= n,
            split_state(chars@.take(i as int)) == (done, chars@.subrange(start as int, i as int)),
            done.len() == 0 <==> prev is None,
            prev matches Some(p) ==> p.0 <= p.1 <= n && chars@.subrange(p.0 as int, p.1 as int)
                == done.last(),
        decreases n - i,
    {
        assert(chars@.take(i + 1).drop_last() =~= chars@.take(i as int));
        if chars[i] == '\n' {
            prev = Some((start, i));
            proof {
                done = done.push(chars@.subrange(start as int, i as int));
                assert(chars@.subrange(i + 1, i + 1) =~= Seq::<char>::empty());
            }
            start = i + 1;
        } else {
            assert(chars@.subrange(start as int, i + 1) =~= chars@.subrange(
                start as int,
                i as int,
            ).push(chars@[i as int]));
        }
        i = i + 1;
    }
    assert(chars@.take(n as int) =~= chars@);
    let code: i32 = match exit_code {
        Some(c) => c,
        None => -1,
    };
    let message: String = if start < n {
        stderr.substring_char(start, n).to_owned()
    } else {
        match prev {
            Some((a, b)) => {
                if b > a && chars[b - 1] == '\r' {
                    assert(chars@.subrange(a as int, b - 1) =~= chars@.subrange(
                        a as int,
                        b as int,
                    ).drop_last());
                    stderr.substring_char(a, b - 1).to_owned()
                } else {
                    stderr.substring_char(a, b).to_owned()
                }
            },
            None => {
                proof {
                    reveal_strlit("unknown error");
                }
                assert("unknown error"@ =~= unknown_error_text());
                String::from_str("unknown error")
            },
        }
    };
    CameraError::CaptureFailed { exit_code: code, message }
}

/// The picture shown when ffmpeg cannot deliver a raw frame: sample values
/// `(v, v / 2, 255 - v)` with `v = (x + y) mod 256`.
pub open spec fn test_pattern_pixel(x: int, y: int) -> (u8, u8, u8) {
    let v = (x + y) % 256;
    (v as u8, (v / 2) as u8, (255 - v) as u8)
}

/// The uniform grey shown when ffmpeg delivers too few bytes.
pub open spec fn grey_fill() -> (u8, u8, u8) {
    (128, 128, 128)
}

fn grey_pixel() -> (p: (u8, u8, u8))
    ensures
        p == grey_fill(),
{
    let g: u8 = 128;
    (g, g, g)
}

/// A frame of the given size filled with `grey_fill`.
fn grey_frame(width: u32, height: u32) -> (img: RgbImage)
    requires
        width * height * 3 <= usize::MAX,
    ensures
        img.wf(),
        img.width == width,
        img.height == height,
        forall|x: int, y: int|
            0 <= x < width && 0 <= y < height ==> #[trigger] img.pixel(x, y) == grey_fill(),
{
    let fill = |x: u32, y: u32| -> (p: (u8, u8, u8))
        ensures
            p == grey_fill(),
        { grey_pixel() };
    let img = RgbImage::from_fn(width, height, fill);
    assert forall|x: int, y: int| 0 <= x < width && 0 <= y < height implies #[trigger] img.pixel(
        x,
        y,
    ) == grey_fill() by {
        assert(call_ensures(fill, (x as u32, y as u32), img.pixel(x, y)));
    }
    img
}

/// A UVC camera read through ffmpeg.
pub struct UvcCamera {
    pub device_name: String,
    pub width: u32,
    pub height: u32,
}

impl UvcCamera {
    /// A camera on the given device delivering frames of the given size.
    pub fn new(device_name: &str, width: u32, height: u32) -> (res: Result<UvcCamera, CameraError>)
        ensures
            res matches Ok(cam) && cam.device_name@ == device_name@ && cam.width == width
                && cam.height == height,
    {
        Ok(UvcCamera { device_name: String::from_str(device_name), width, height })
    }

    /// The frame made from ffmpeg's `rawvideo` output (`None` when ffmpeg
    /// failed): the first `width * height * 3` bytes when there are that
    /// many, a uniform grey (128) frame when there are fewer, and the test
    /// pattern when ffmpeg failed.
    pub fn frame_from_rawvideo(&self, output: Option<&[u8]>) -> (img: RgbImage)
        requires
            output is Some ==> self.width * self.height * 3 <= u32::MAX,
            output is None ==> self.width + self.height <= u32::MAX + 2,
            self.width * self.height * 3 <= usize::MAX,
        ensures
            img.wf(),
            img.width == self.width,
            img.height == self.height,
            match output {
                Some(raw) => if raw@.len() >= self.width * self.height * 3 {
                    img.data@ == raw@.take(self.width * self.height * 3)
                } else {
                    forall|x: int, y: int|
                        0 <= x < self.width && 0 <= y < self.height ==> #[trigger] img.pixel(x, y)
                            == grey_fill()
                },
                None => forall|x: int, y: int|
                    0 <= x < self.width && 0 <= y < self.height ==> #[trigger] img.pixel(x, y)
                        == test_pattern_pixel(x, y),
            },
    {
        let width = self.width;
        let height = self.height;
        match output {
            Some(raw) => {
                let expected = (width * height * 3) as usize;
                if raw.len() >= expected {
                    match RgbImage::from_raw(width, height, slice_to_vec(raw)) {
                        Some(img) => img,
                        None => grey_frame(width, height),
                    }
                } else {
                    grey_frame(width, height)
                }
            },
            None => {
                let pattern = |x: u32, y: u32| -> (p: (u8, u8, u8))
                    requires
                        x < width,
                        y < height,
                        width + height <= u32::MAX + 2,
                    ensures
                        p == test_pattern_pixel(x as int, y as int),
                    {
                        let v = ((x + y) % 256) as u8;
                        (v, v / 2, 255 - v)
                    };
                let img = RgbImage::from_fn(width, height, pattern);
                assert forall|x: int, y: int|
                    0 <= x < width && 0 <= y < height implies #[trigger] img.pixel(x, y)
                    == test_pattern_pixel(x, y) by {
                    assert(call_ensures(pattern, (x as u32, y as u32), img.pixel(x, y)));
                }
                img
            },
        }
    }

    /// Accepts a decoded frame when it has the camera's size.
    pub fn check_frame_size(&self, width: u32, height: u32, data: Vec<u8>) -> (res: Result<
        RgbImage,
        CameraError,
    >)
        requires
            data@.len() >= width * height * 3,
        ensures
            (width == self.width && height == self.height) ==> (res matches Ok(img) && img.wf()
                && img.width == width && img.height == height && img.data@ == data@.take(
                width * height * 3,
            )),
            !(width == self.width && height == self.height) ==> (res matches Err(
                CameraError::UnexpectedFrameSize {
                    width: w,
                    height: h,
                    expected_width: ew,
                    expected_height: eh,
                },
            ) && w == width && h == height && ew == self.width && eh == self.height),
    {
        if width != self.width || height != self.height {
            return Err(
                CameraError::UnexpectedFrameSize {
                    width,
                    height,
                    expected_width: self.width,
                    expected_height: self.height,
                },
            );
        }
        match RgbImage::from_raw(width, height, data) {
            Some(img) => Ok(img),
            None => Err(
                CameraError::UnexpectedFrameSize {
                    width,
                    height,
                    expected_width: self.width,
                    expected_height: self.height,
                },
            ),
        }
    }

    /// The frame made from ffmpeg's BMP output: the decoded picture when the
    /// bytes decode (through `load_rgb8`) to a picture of the camera's size,
    /// a decoding error when they do not decode, a size error otherwise.
    /// Whatever the decoder gives back, a frame returned has the camera's
    /// size and its samples are those the decoder delivered.
    pub fn frame_from_bmp(&self, bmp: &[u8]) -> (res: Result<RgbImage, CameraError>)
        ensures
            res matches Ok(img) ==> img.wf() && img.width == self.width && img.height
                == self.height,
            res is Err ==> match res {
                Err(CameraError::Decode(_)) => true,
                Err(CameraError::UnexpectedFrameSize { expected_width, expected_height, .. }) => {
                    expected_width == self.width && expected_height == self.height
                },
                _ => false,
            },
    {
        match load_rgb8(bmp) {
            Ok((w, h, data)) => self.check_frame_size(w, h, data),
            Err(e) => Err(CameraError::Decode(e)),
        }
    }
}

} // verus!
