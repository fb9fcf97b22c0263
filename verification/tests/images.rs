use stereo_measure::display::{
    create_stereo_combined, disparity_to_rgb, draw_points, parse_view, render_view, view_png,
    ImageView,
};
use stereo_measure::raster::{GrayImage, RgbImage};
use stereo_measure::stereo::StereoConfig;

fn rgb(width: u32, height: u32, f: impl Fn(u32, u32) -> (u8, u8, u8)) -> RgbImage {
    let mut data = Vec::new();
    for y in 0..height {
        for x in 0..width {
            let (r, g, b) = f(x, y);
            data.push(r);
            data.push(g);
            data.push(b);
        }
    }
    RgbImage { width, height, data }
}

#[test]
fn from_raw_keeps_the_first_samples() {
    let img = RgbImage::from_raw(2, 1, vec![1, 2, 3, 4, 5, 6, 7, 8]).unwrap();
    assert_eq!(img.width(), 2);
    assert_eq!(img.height(), 1);
    assert_eq!(img.data, vec![1, 2, 3, 4, 5, 6]);
    assert_eq!(img.get_pixel(1, 0), (4, 5, 6));
}

#[test]
fn from_raw_refuses_a_short_buffer() {
    assert!(RgbImage::from_raw(2, 2, vec![0; 11]).is_none());
    assert!(RgbImage::from_raw(0, 5, vec![]).is_some());
}

#[test]
fn from_fn_fills_row_by_row() {
    let img = RgbImage::from_fn(3, 2, |x, y| (x as u8, y as u8, 9));
    assert_eq!(img.data, vec![0, 0, 9, 1, 0, 9, 2, 0, 9, 0, 1, 9, 1, 1, 9, 2, 1, 9]);
    let g = GrayImage::from_fn(2, 2, |x, y| (x + 10 * y) as u8);
    assert_eq!(g.data, vec![0, 1, 10, 11]);
    assert_eq!(g.get_pixel(1, 1), 11);
}

#[test]
fn duplicate_and_into_raw_keep_the_samples() {
    let img = rgb(2, 2, |x, y| (x as u8, y as u8, 1));
    let copy = img.duplicate();
    assert_eq!(copy.width, 2);
    assert_eq!(copy.height, 2);
    assert_eq!(copy.into_raw(), img.data);
}

#[test]
fn combined_view_places_left_then_right() {
    let left = rgb(2, 1, |x, _| if x == 0 { (1, 2, 3) } else { (4, 5, 6) });
    let right = rgb(2, 1, |x, _| if x == 0 { (7, 8, 9) } else { (10, 11, 12) });
    let c = create_stereo_combined(&left, &right);
    assert_eq!(c.width, 4);
    assert_eq!(c.height, 1);
    assert_eq!(c.data, vec![1, 2, 3, 4, 5, 6, 7, 8, 9, 10, 11, 12]);
}

#[test]
fn combined_view_uses_the_left_size() {
    let left = rgb(1, 1, |_, _| (1, 1, 1));
    let right = rgb(3, 2, |x, y| (x as u8, y as u8, 2));
    let c = create_stereo_combined(&left, &right);
    assert_eq!(c.width, 2);
    assert_eq!(c.height, 1);
    assert_eq!(c.data, vec![1, 1, 1, 0, 0, 2]);
}

#[test]
fn disparity_shown_in_grey() {
    let g = GrayImage { width: 2, height: 1, data: vec![5, 9] };
    let img = disparity_to_rgb(&g);
    assert_eq!(img.width, 2);
    assert_eq!(img.data, vec![5, 5, 5, 9, 9, 9]);
}

#[test]
fn markers_are_drawn_in_order_and_clipped() {
    let image = rgb(20, 20, |_, _| (0, 0, 0));
    let out = draw_points(&image, &[(2, 2), (10, 10)]);
    assert_eq!(out.width, 20);
    assert_eq!(out.height, 20);
    assert_eq!(out.get_pixel(0, 0), (255, 0, 0));
    assert_eq!(out.get_pixel(7, 7), (0, 255, 0));
    assert_eq!(out.get_pixel(10, 10), (0, 255, 0));
    assert_eq!(out.get_pixel(15, 15), (0, 255, 0));
    assert_eq!(out.get_pixel(16, 16), (0, 0, 0));
    assert_eq!(out.get_pixel(19, 0), (0, 0, 0));
}

#[test]
fn marker_colours_cycle_through_four() {
    let image = rgb(60, 12, |_, _| (9, 9, 9));
    let centers = [(5, 5), (17, 5), (29, 5), (41, 5), (53, 5)];
    let out = draw_points(&image, &centers);
    assert_eq!(out.get_pixel(5, 5), (255, 0, 0));
    assert_eq!(out.get_pixel(17, 5), (0, 255, 0));
    assert_eq!(out.get_pixel(29, 5), (0, 0, 255));
    assert_eq!(out.get_pixel(41, 5), (255, 255, 0));
    assert_eq!(out.get_pixel(53, 5), (255, 0, 0));
    assert_eq!(out.get_pixel(11, 5), (9, 9, 9));
}

#[test]
fn a_marker_off_the_picture_is_clamped_onto_its_edge() {
    let image = rgb(4, 4, |_, _| (0, 0, 0));
    let out = draw_points(&image, &[(-20, 1)]);
    assert_eq!(out.get_pixel(0, 1), (255, 0, 0));
    assert_eq!(out.get_pixel(1, 1), (0, 0, 0));
}

#[test]
fn view_names() {
    assert_eq!(parse_view(None), Some(ImageView::Stereo));
    assert_eq!(parse_view(Some("stereo")), Some(ImageView::Stereo));
    assert_eq!(parse_view(Some("left")), Some(ImageView::Left));
    assert_eq!(parse_view(Some("right")), Some(ImageView::Right));
    assert_eq!(parse_view(Some("disparity")), Some(ImageView::Disparity));
    assert_eq!(parse_view(Some("Disparity")), None);
    assert_eq!(parse_view(Some("")), None);
}

#[test]
fn views_of_a_missing_capture_are_absent() {
    let config = StereoConfig::default();
    let left = rgb(2, 2, |_, _| (1, 2, 3));
    assert!(render_view(ImageView::Stereo, Some(&left), None, &config).is_none());
    assert!(render_view(ImageView::Right, Some(&left), None, &config).is_none());
    assert!(render_view(ImageView::Disparity, None, None, &config).is_none());
    let l = render_view(ImageView::Left, Some(&left), None, &config).unwrap();
    assert_eq!(l.data, left.data);
}

#[test]
fn stereo_and_disparity_views() {
    let config = StereoConfig {
        algorithm: "block_match".to_string(),
        block_size: 1,
        max_disparity: 2,
        min_disparity: 0,
        speckle_window_size: 100,
        speckle_range: 2,
    };
    let left = rgb(2, 1, |x, _| (x as u8 * 50, 0, 0));
    let right = rgb(2, 1, |x, _| (x as u8 * 50, 0, 0));
    let s = render_view(ImageView::Stereo, Some(&left), Some(&right), &config).unwrap();
    assert_eq!(s.width, 4);
    assert_eq!(s.data, vec![0, 0, 0, 50, 0, 0, 0, 0, 0, 50, 0, 0]);
    let d = render_view(ImageView::Disparity, Some(&left), Some(&right), &config).unwrap();
    assert_eq!(d.width, 2);
    // each column matches itself at d = 0, the first disparity tried
    assert_eq!(d.data, vec![0, 0, 0, 0, 0, 0]);
}

#[test]
fn views_as_png() {
    let config = StereoConfig::default();
    let left = rgb(3, 2, |x, y| (x as u8, y as u8, 9));
    let png = view_png(ImageView::Left, Some(&left), None, &config).unwrap();
    assert_eq!(&png[..8], &[137, 80, 78, 71, 13, 10, 26, 10]);
    let decoded = image::load_from_memory(&png).unwrap().into_rgb8();
    assert_eq!(decoded.dimensions(), (3, 2));
    assert_eq!(decoded.into_raw(), left.data);
    assert!(view_png(ImageView::Right, Some(&left), None, &config).is_none());
    let empty = rgb(0, 4, |_, _| (0, 0, 0));
    assert!(view_png(ImageView::Left, Some(&empty), None, &config).is_none());
}

#[test]
fn stereo_view_as_png_decodes_to_the_combined_picture() {
    let config = StereoConfig::default();
    let left = rgb(2, 2, |x, y| (x as u8, y as u8, 1));
    let right = rgb(2, 2, |x, y| (x as u8, y as u8, 2));
    let png = view_png(ImageView::Stereo, Some(&left), Some(&right), &config).unwrap();
    let decoded = image::load_from_memory(&png).unwrap().into_rgb8();
    assert_eq!(decoded.dimensions(), (4, 2));
    assert_eq!(decoded.into_raw(), create_stereo_combined(&left, &right).data);
}
