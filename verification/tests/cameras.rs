use std::io::Cursor;

use stereo_measure::camera::dshow;
use stereo_measure::camera::uvc::{capture_failure, UvcCamera};
use stereo_measure::camera::v4l2;
use stereo_measure::camera::{list_cameras, CameraError, DeviceProbe, StereoCamera};
use stereo_measure::display::create_stereo_combined;
use stereo_measure::raster::RgbImage;

const LISTING: &str = "[dshow @ 0000023] DirectShow video devices (some may be both video and audio devices)\r\n\
[dshow @ 0000023]  \"USB Camera\" (video)\r\n\
[dshow @ 0000023]     Alternative name \"@device_pnp_usb\"\r\n\
[dshow @ 0000023]  \"Integrated Webcam\" (video)\r\n\
[dshow @ 0000023] DirectShow audio devices\r\n\
[dshow @ 0000023]  \"Microphone\" (audio)\r\n\
dummy: Immediate exit requested\r\n";

fn names(cameras: &[(u32, String)]) -> Vec<(u32, &str)> {
    cameras.iter().map(|(i, n)| (*i, n.as_str())).collect()
}

#[test]
fn dshow_listing_gives_the_video_devices_in_order() {
    let cameras = dshow::list_cameras(LISTING);
    assert_eq!(names(&cameras), vec![(0, "USB Camera"), (1, "Integrated Webcam")]);
}

#[test]
fn dshow_listing_skips_the_placeholder_and_empty_names() {
    let text = "\"dummy\" (video)\n\"\" (video)\n\"Cam\" (video, audio)\n";
    assert_eq!(names(&dshow::list_cameras(text)), vec![(0, "Cam")]);
}

#[test]
fn dshow_listing_falls_back_to_alternative_names() {
    let text = "  \"dummy\" (video)\n  Alternative name \"@dev_a\"\n\tAlternative name \"@dev_b\" \nAlternative name no quotes\n";
    assert_eq!(names(&dshow::list_cameras(text)), vec![(0, "@dev_a"), (1, "@dev_b")]);
}

#[test]
fn dshow_listing_prefers_named_devices() {
    let text = "Alternative name \"@dev_a\"\n\"Cam\" (video)\n";
    assert_eq!(names(&dshow::list_cameras(text)), vec![(0, "Cam")]);
    assert!(dshow::list_cameras("").is_empty());
}

#[test]
fn v4l2_devices() {
    assert_eq!(v4l2::device_path(0), "/dev/video0");
    assert_eq!(v4l2::device_path(12), "/dev/video12");
    let cameras = v4l2::list_cameras(&[false, true, false, true]);
    assert_eq!(names(&cameras), vec![(1, "/dev/video1"), (3, "/dev/video3")]);
    assert_eq!(v4l2::PROBED_NODES, 10);
}

#[test]
fn listing_through_the_probe() {
    let d = list_cameras(&DeviceProbe::Dshow(LISTING.to_string()));
    assert_eq!(d.len(), 2);
    let v = list_cameras(&DeviceProbe::V4l2(vec![true, false]));
    assert_eq!(names(&v), vec![(0, "/dev/video0")]);
}

#[test]
fn opening_a_listed_camera() {
    let cam = StereoCamera::new(1, (3840, 1080), &DeviceProbe::Dshow(LISTING.to_string())).unwrap();
    assert_eq!(cam.camera.device_name, "Integrated Webcam");
    assert_eq!((cam.camera.width, cam.camera.height), (3840, 1080));
    assert_eq!(cam.resolution, (3840, 1080));
}

#[test]
fn opening_without_cameras() {
    let r = StereoCamera::new(0, (640, 480), &DeviceProbe::Dshow("nothing here\n".to_string()));
    assert!(matches!(r, Err(CameraError::NoCameras)));
}

#[test]
fn opening_an_unknown_index() {
    let r = StereoCamera::new(5, (640, 480), &DeviceProbe::Dshow(LISTING.to_string()));
    match r {
        Err(CameraError::IndexNotFound { index, available }) => {
            assert_eq!(index, 5);
            assert_eq!(names(&available), vec![(0, "USB Camera"), (1, "Integrated Webcam")]);
        }
        _ => panic!("expected IndexNotFound"),
    }
}

#[test]
fn opening_a_video4linux_node() {
    let cam = StereoCamera::new(3, (640, 480), &DeviceProbe::V4l2(vec![])).unwrap();
    assert_eq!(cam.camera.device_name, "/dev/video3");
}

fn side_by_side(width: u32, height: u32) -> RgbImage {
    RgbImage::from_fn(width, height, |x, y| (x as u8, y as u8, 7))
}

#[test]
fn splitting_a_side_by_side_frame() {
    let cam = StereoCamera::new(0, (4, 2), &DeviceProbe::V4l2(vec![])).unwrap();
    let frame = cam.capture_sync_frame(&side_by_side(4, 2), 42).unwrap();
    assert_eq!(frame.timestamp_us, 42);
    assert_eq!((frame.left.width, frame.left.height), (2, 2));
    assert_eq!((frame.right.width, frame.right.height), (2, 2));
    assert_eq!(frame.left.get_pixel(1, 1), (1, 1, 7));
    assert_eq!(frame.right.get_pixel(0, 1), (2, 1, 7));
    assert_eq!(frame.right.get_pixel(1, 0), (3, 0, 7));
}

#[test]
fn splitting_a_short_frame_fails() {
    let cam = StereoCamera::new(0, (4, 2), &DeviceProbe::V4l2(vec![])).unwrap();
    let short = RgbImage { width: 4, height: 2, data: vec![0; 10] };
    match cam.capture_sync_frame(&short, 0) {
        Err(CameraError::InsufficientData { got, expected }) => {
            assert_eq!(got, 10);
            assert_eq!(expected, 24);
        }
        _ => panic!("expected InsufficientData"),
    }
}

#[test]
fn split_then_combine_gives_the_frame_back() {
    let combined = side_by_side(6, 3);
    let cam = StereoCamera::new(0, (6, 3), &DeviceProbe::V4l2(vec![])).unwrap();
    let frame = cam.capture_sync_frame(&combined, 1).unwrap();
    let again = create_stereo_combined(&frame.left, &frame.right);
    assert_eq!(again.width, 6);
    assert_eq!(again.height, 3);
    assert_eq!(again.data, combined.data);
}

#[test]
fn combine_then_split_gives_the_views_back() {
    let left = RgbImage::from_fn(3, 2, |x, y| (x as u8, y as u8, 1));
    let right = RgbImage::from_fn(3, 2, |x, y| (x as u8, y as u8, 2));
    let combined = create_stereo_combined(&left, &right);
    let cam = StereoCamera::new(0, (6, 2), &DeviceProbe::V4l2(vec![])).unwrap();
    let frame = cam.capture_sync_frame(&combined, 0).unwrap();
    assert_eq!(frame.left.data, left.data);
    assert_eq!(frame.right.data, right.data);
}

#[test]
fn raw_frames() {
    let cam = UvcCamera::new("/dev/video0", 2, 2).unwrap();
    assert_eq!(cam.device_name, "/dev/video0");
    let raw: Vec<u8> = (0..15).collect();
    let img = cam.frame_from_rawvideo(Some(&raw));
    assert_eq!(img.data, (0..12).collect::<Vec<u8>>());
    let grey = cam.frame_from_rawvideo(Some(&raw[..11]));
    assert_eq!(grey.data, vec![128; 12]);
    let pattern = cam.frame_from_rawvideo(None);
    assert_eq!(pattern.get_pixel(0, 0), (0, 0, 255));
    assert_eq!(pattern.get_pixel(1, 1), (2, 1, 253));
}

#[test]
fn test_pattern_wraps_at_256() {
    let cam = UvcCamera::new("x", 300, 1).unwrap();
    let pattern = cam.frame_from_rawvideo(None);
    assert_eq!(pattern.get_pixel(255, 0), (255, 127, 0));
    assert_eq!(pattern.get_pixel(257, 0), (1, 0, 254));
}

fn bmp_of(width: u32, height: u32) -> Vec<u8> {
    let data: Vec<u8> = (0..width * height * 3).map(|v| (v * 7 % 256) as u8).collect();
    let img = image::RgbImage::from_raw(width, height, data).unwrap();
    let mut buf = Vec::new();
    image::DynamicImage::ImageRgb8(img)
        .write_to(&mut Cursor::new(&mut buf), image::ImageFormat::Bmp)
        .unwrap();
    buf
}

#[test]
fn bmp_frames_of_the_expected_size() {
    let cam = UvcCamera::new("USB Camera", 3, 2).unwrap();
    let img = cam.frame_from_bmp(&bmp_of(3, 2)).unwrap();
    assert_eq!((img.width, img.height), (3, 2));
    let expected: Vec<u8> = (0..18u32).map(|v| (v * 7 % 256) as u8).collect();
    assert_eq!(img.data, expected);
}

#[test]
fn bmp_frames_of_another_size() {
    let cam = UvcCamera::new("USB Camera", 4, 4).unwrap();
    match cam.frame_from_bmp(&bmp_of(3, 2)) {
        Err(CameraError::UnexpectedFrameSize { width, height, expected_width, expected_height }) => {
            assert_eq!((width, height, expected_width, expected_height), (3, 2, 4, 4));
        }
        _ => panic!("expected UnexpectedFrameSize"),
    }
}

#[test]
fn undecodable_frames() {
    let cam = UvcCamera::new("USB Camera", 4, 4).unwrap();
    assert!(matches!(cam.frame_from_bmp(b"not a picture"), Err(CameraError::Decode(_))));
}

#[test]
fn frame_size_check() {
    let cam = UvcCamera::new("c", 1, 1).unwrap();
    let ok = cam.check_frame_size(1, 1, vec![1, 2, 3, 4]).unwrap();
    assert_eq!(ok.data, vec![1, 2, 3]);
    assert!(matches!(
        cam.check_frame_size(1, 2, vec![0; 6]),
        Err(CameraError::UnexpectedFrameSize { width: 1, height: 2, expected_width: 1, expected_height: 1 })
    ));
}

fn failure(code: Option<i32>, stderr: &str) -> (i32, String) {
    match capture_failure(code, stderr) {
        CameraError::CaptureFailed { exit_code, message } => (exit_code, message),
        _ => panic!("expected CaptureFailed"),
    }
}

#[test]
fn capture_failures_report_the_last_line() {
    assert_eq!(failure(Some(1), "line one\nlast words\n"), (1, "last words".to_string()));
    assert_eq!(failure(Some(2), "a\r\nb\r\n"), (2, "b".to_string()));
    assert_eq!(failure(Some(3), "x\ny\r"), (3, "y\r".to_string()));
    assert_eq!(failure(Some(4), "only"), (4, "only".to_string()));
    assert_eq!(failure(Some(5), "a\n\n"), (5, "".to_string()));
    assert_eq!(failure(None, ""), (-1, "unknown error".to_string()));
}

#[test]
fn dshow_listing_uses_tagged_alternative_names() {
    let text = "[dshow @ 00000] (video)\n[dshow @ 00000]   Alternative name \"@device_cm:{A}\"\n";
    assert_eq!(names(&dshow::list_cameras(text)), vec![(0, "@device_cm:{A}")]);
}

#[test]
fn dshow_listing_keeps_quotes_inside_alternative_names() {
    let text = "[dshow @ 01] \"\" (video)\r\n[dshow @ 01]  Alternative name \"@dev]x\"\r\n[x] no name\n";
    assert_eq!(names(&dshow::list_cameras(text)), vec![(0, "@dev]x")]);
}

#[test]
fn splitting_without_rows() {
    let cam = StereoCamera::new(0, (5, 0), &DeviceProbe::V4l2(vec![])).unwrap();
    let empty = RgbImage { width: 5, height: 0, data: vec![] };
    let frame = cam.capture_sync_frame(&empty, 3).unwrap();
    assert_eq!((frame.left.width, frame.left.height), (2, 0));
    assert_eq!((frame.right.width, frame.right.height), (2, 0));
}
