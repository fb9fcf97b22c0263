//! Dual-camera capture: device discovery, device selection and the split of
//! one side-by-side frame into the left and right views.
pub mod dshow;
pub mod uvc;
pub mod v4l2;

use vstd::prelude::*;
use crate::raster::RgbImage;
use self::uvc::UvcCamera;

verus! {

/// Why a camera could not be opened or a frame not be built.
#[derive(Debug)]
pub enum CameraError {
    /// The device listing names no camera.
    NoCameras,
    /// No listed camera has the requested index.
    IndexNotFound { index: u32, available: Vec<(u32, String)> },
    /// ffmpeg's picture could not be decoded.
    Decode(image::ImageError),
    /// ffmpeg delivered a picture of another size.
    UnexpectedFrameSize { width: u32, height: u32, expected_width: u32, expected_height: u32 },
    /// ffmpeg exited with an error.
    CaptureFailed { exit_code: i32, message: String },
    /// The side-by-side frame holds fewer samples than the two views need.
    InsufficientData { got: usize, expected: usize },
}

/// What the platform reports about attached cameras: ffmpeg's DirectShow
/// device listing, or which of the Video4Linux nodes `/dev/video0..9` exist.
pub enum DeviceProbe {
    Dshow(String),
    V4l2(Vec<bool>),
}

/// The cameras the probe reports, numbered as the platform numbers them.
pub fn list_cameras(probe: &DeviceProbe) -> (cameras: Vec<(u32, String)>)
    requires
        probe matches DeviceProbe::V4l2(present) ==> present@.len() <= u32::MAX,
    ensures
        cameras@.len() <= 0x1_0000_0000 ==> forall|j: int, k: int|
            0 <= j < k < cameras@.len() ==> cameras@[j].0 < cameras@[k].0,
        probe matches DeviceProbe::Dshow(text) ==> {
            &&& cameras@.len() == dshow::dshow_devices(text@).len()
            &&& forall|i: int|
                0 <= i < cameras@.len() ==> (#[trigger] cameras@[i]).0 == i % 0x1_0000_0000 && cameras@[i].1@
                    == dshow::dshow_devices(text@)[i]
        },
        probe matches DeviceProbe::V4l2(present) ==> {
            &&& cameras@.len() == present@.filter(|p: bool| p).len()
            &&& forall|j: int|
                0 <= j < cameras@.len() ==> {
                    let i = (#[trigger] cameras@[j]).0;
                    &&& i < present@.len()
                    &&& present@[i as int]
                    &&& cameras@[j].1@ == v4l2::device_path_spec(i as nat)
                }
            &&& forall|j: int, k: int|
                0 <= j < k < cameras@.len() ==> cameras@[j].0 < cameras@[k].0
            &&& forall|i: int|
                0 <= i < present@.len() && present@[i] ==> exists|j: int|
                    0 <= j < cameras@.len() && (#[trigger] cameras@[j]).0 == i
        },
{
    match probe {
        DeviceProbe::Dshow(text) => dshow::list_cameras(text.as_str()),
        DeviceProbe::V4l2(present) => v4l2::list_cameras(present.as_slice()),
    }
}

/// Two views taken at the same moment.
pub struct StereoFrame {
    pub left: RgbImage,
    pub right: RgbImage,
    pub timestamp_us: u64,
}

/// Sample `c` of pixel `(x, y)` of the view that starts `offset` columns
/// into a side-by-side frame `frame_width` pixels wide.
pub open spec fn view_sample(raw: Seq<u8>, frame_width: int, offset: int, x: int, y: int, c: int) -> u8 {
    raw[y * (frame_width * 3) + offset * 3 + x * 3 + c]
}

pub open spec fn view_pixel(raw: Seq<u8>, frame_width: int, offset: int, x: int, y: int) -> (u8, u8, u8) {
    (
        view_sample(raw, frame_width, offset, x, y, 0),
        view_sample(raw, frame_width, offset, x, y, 1),
        view_sample(raw, frame_width, offset, x, y, 2),
    )
}

/// `view` is the half of the side-by-side samples `raw` (a frame of the
/// given resolution) that starts `offset` columns in.
pub open spec fn is_view_of(view: &RgbImage, raw: Seq<u8>, resolution: (u32, u32), offset: int) -> bool {
    &&& view.wf()
    &&& view.width == resolution.0 / 2
    &&& view.height == resolution.1
    &&& forall|x: int, y: int|
        0 <= x < view.width && 0 <= y < view.height ==> #[trigger] view.pixel(x, y) == view_pixel(
            raw,
            resolution.0 as int,
            offset,
            x,
            y,
        )
}

/// `frame` is the split of the side-by-side samples `raw`: the left view is
/// the first half of every row, the right view the next half.
pub open spec fn is_split_of(frame: &StereoFrame, raw: Seq<u8>, resolution: (u32, u32)) -> bool {
    &&& is_view_of(&frame.left, raw, resolution, 0)
    &&& is_view_of(&frame.right, raw, resolution, (resolution.0 / 2) as int)
}

/// Bytes the two views of a frame of the given resolution take together.
pub open spec fn views_len(resolution: (u32, u32)) -> int {
    (resolution.0 / 2) * resolution.1 * 3 * 2
}

proof fn lemma_view_index(fw: int, hw: int, h: int, offset: int, x: int, y: int, c: int)
    requires
        0 <= x < hw,
        0 <= y < h,
        0 <= c < 3,
        0 <= offset <= hw,
        2 * hw <= fw,
    ensures
        0 <= y * (fw * 3) + offset * 3 + x * 3 + c < h * (fw * 3),
{
    assert(0 <= y * (fw * 3)) by (nonlinear_arith)
        requires
            0 <= y,
            0 <= fw,
    ;
    assert(y * (fw * 3) + fw * 3 <= h * (fw * 3)) by (nonlinear_arith)
        requires
            y < h,
            0 <= fw,
    ;
}

/// A camera delivering side-by-side stereo frames of a fixed resolution.
pub struct StereoCamera {
    pub camera: UvcCamera,
    pub resolution: (u32, u32),
}

impl StereoCamera {
    /// Opens camera `camera_index` for frames of the given resolution.
    /// With a DirectShow listing the index selects a listed camera (an error
    /// when none is listed or none has that index); with Video4Linux it
    /// names the node `/dev/video<index>`.
    pub fn new(camera_index: u32, resolution: (u32, u32), probe: &DeviceProbe) -> (res: Result<
        StereoCamera,
        CameraError,
    >)
        ensures
            probe matches DeviceProbe::Dshow(text) ==> {
                let devices = dshow::dshow_devices(text@);
                &&& devices.len() == 0 ==> (res matches Err(CameraError::NoCameras))
                &&& (devices.len() > 0 && camera_index >= devices.len()) ==> (res matches Err(
                    CameraError::IndexNotFound { index, available },
                ) && index == camera_index && available@.len() == devices.len() && forall|i: int|
                    0 <= i < available@.len() ==> (#[trigger] available@[i]).0 == i % 0x1_0000_0000
                        && available@[i].1@ == devices[i])
                &&& camera_index < devices.len() ==> (res matches Ok(cam)
                    && cam.camera.device_name@ == devices[camera_index as int]
                    && cam.camera.width == resolution.0 && cam.camera.height == resolution.1
                    && cam.resolution == resolution)
            },
            probe matches DeviceProbe::V4l2(_) ==> (res matches Ok(cam)
                && cam.camera.device_name@ == v4l2::device_path_spec(camera_index as nat)
                && cam.camera.width == resolution.0 && cam.camera.height == resolution.1
                && cam.resolution == resolution),
    {
        let (w, h) = resolution;
        let device_name: String = match probe {
            DeviceProbe::Dshow(text) => {
                let cameras = dshow::list_cameras(text.as_str());
                if cameras.len() == 0 {
                    return Err(CameraError::NoCameras);
                }
                if (camera_index as usize) < cameras.len() {
                    cameras[camera_index as usize].1.clone()
                } else {
                    return Err(
                        CameraError::IndexNotFound { index: camera_index, available: cameras },
                    );
                }
            },
            DeviceProbe::V4l2(_) => v4l2::device_path(camera_index),
        };
        let camera = match UvcCamera::new(device_name.as_str(), w, h) {
            Ok(c) => c,
            Err(e) => {
                return Err(e);
            },
        };
        Ok(StereoCamera { camera, resolution })
    }

    /// Splits a side-by-side frame of the camera's resolution into the left
    /// view (the first half of every row) and the right view (the second
    /// half); an error when the frame holds fewer samples than the two views
    /// need.  A frame with rows is split only at an even width.
    pub fn capture_sync_frame(&self, combined: &RgbImage, timestamp_us: u64) -> (res: Result<
        StereoFrame,
        CameraError,
    >)
        requires
            self.resolution.0 * self.resolution.1 * 3 <= usize::MAX,
            self.resolution.0 * 3 <= usize::MAX,
            combined.data@.len() >= views_len(self.resolution) ==> combined.data@.len()
                >= self.resolution.1 * (self.resolution.0 * 3),
            combined.data@.len() >= views_len(self.resolution) && self.resolution.1 > 0
                ==> self.resolution.0 % 2 == 0,
        ensures
            combined.data@.len() < views_len(self.resolution) ==> (res matches Err(
                CameraError::InsufficientData { got, expected },
            ) && got == combined.data@.len() && expected == views_len(self.resolution)),
            combined.data@.len() >= views_len(self.resolution) ==> (res matches Ok(frame)
                && is_split_of(&frame, combined.data@, self.resolution) && frame.timestamp_us
                == timestamp_us),
    {
        let raw = &combined.data;
        let combined_w: usize = self.resolution.0 as usize;
        let half_w32: u32 = self.resolution.0 / 2;
        let h32: u32 = self.resolution.1;
        let half_w: usize = half_w32 as usize;
        let h: usize = h32 as usize;
        proof {
            assert(half_w * h * 3 * 2 <= combined_w * h * 3) by (nonlinear_arith)
                requires
                    2 * half_w <= combined_w,
            ;
        }
        let half_bytes: usize = half_w * h * 3;
        let row_bytes: usize = combined_w * 3;
        if raw.len() < half_bytes * 2 {
            return Err(CameraError::InsufficientData { got: raw.len(), expected: half_bytes * 2 });
        }
        let ghost fw = combined_w as int;
        let view = |offset: usize| -> (v: RgbImage)
            requires
                offset == 0 || offset == half_w,
                raw@.len() >= h * row_bytes,
                row_bytes == combined_w * 3,
                2 * half_w <= combined_w,
                half_w == half_w32,
                h == h32,
                half_w32 * h32 * 3 <= usize::MAX,
            ensures
                v.wf(),
                v.width == half_w32,
                v.height == h32,
                forall|x: int, y: int|
                    0 <= x < half_w && 0 <= y < h ==> #[trigger] v.pixel(x, y) == view_pixel(
                        raw@,
                        combined_w as int,
                        offset as int,
                        x,
                        y,
                    ),
            {
                let sample = |x: u32, y: u32| -> (p: (u8, u8, u8))
                    requires
                        x < half_w,
                        y < h,
                        offset == 0 || offset == half_w,
                        raw@.len() >= h * row_bytes,
                        row_bytes == combined_w * 3,
                        2 * half_w <= combined_w,
                    ensures
                        p == view_pixel(raw@, combined_w as int, offset as int, x as int, y as int),
                    {
                        proof {
                            lemma_view_index(
                                combined_w as int,
                                half_w as int,
                                h as int,
                                offset as int,
                                x as int,
                                y as int,
                                2,
                            );
                            assert(y as int * row_bytes <= h * row_bytes) by (nonlinear_arith)
                                requires
                                    y < h,
                                    0 <= row_bytes,
                            ;
                        }
                        let i = (y as usize) * row_bytes + offset * 3 + (x as usize) * 3;
                        (raw[i], raw[i + 1], raw[i + 2])
                    };
                let img = RgbImage::from_fn(half_w32, h32, sample);
                proof {
                    assert forall|x: int, y: int|
                        0 <= x < half_w && 0 <= y < h implies #[trigger] img.pixel(x, y)
                        == view_pixel(raw@, combined_w as int, offset as int, x, y) by {
                        assert(call_ensures(sample, (x as u32, y as u32), img.pixel(x, y)));
                    }
                }
                img
            };
        proof {
            assert(half_w32 * h32 * 3 <= usize::MAX) by (nonlinear_arith)
                requires
                    half_w32 * h32 * 3 * 2 <= combined_w * h * 3,
                    combined_w * h * 3 <= usize::MAX,
                    h == h32,
            ;
        }
        let left = view(0);
        let right = view(half_w);
        Ok(StereoFrame { left, right, timestamp_us })
    }
}

} // verus!
