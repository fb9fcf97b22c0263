use stereo_measure::calibration::{
    board_corners, count_valid_pairs, find_corner_at, CalibrationError, MIN_CALIBRATION_PAIRS,
};
use stereo_measure::raster::{GrayImage, RgbImage};
use stereo_measure::reconstruct::find_corresponding_x;

fn stripes(width: u32, height: u32, bright: u32) -> RgbImage {
    RgbImage::from_fn(width, height, |x, _| if x == bright { (200, 200, 200) } else { (0, 0, 0) })
}

#[test]
fn corresponding_column_of_a_bright_stripe() {
    let left = stripes(20, 5, 8);
    let right = stripes(20, 5, 5);
    assert_eq!(find_corresponding_x(&left, &right, 8, 2, 0, 15), Some(5));
    assert_eq!(find_corresponding_x(&left, &right, 8, 2, 6, 15).map(|x| x >= 6), Some(true));
}

#[test]
fn corresponding_column_prefers_the_first_of_equal_matches() {
    let left = stripes(10, 3, 100);
    let right = stripes(10, 3, 100);
    assert_eq!(find_corresponding_x(&left, &right, 4, 1, 2, 7), Some(2));
}

#[test]
fn corresponding_column_of_an_empty_range() {
    let left = stripes(10, 3, 1);
    let right = stripes(10, 3, 1);
    assert_eq!(find_corresponding_x(&left, &right, 4, 1, 7, 6), None);
}

#[test]
fn corresponding_column_near_the_border() {
    // the patches are read with clamped positions: left of column 0 only
    // column 0 is seen, so the columns before 0 do not match
    let left = stripes(10, 3, 0);
    let right = stripes(10, 3, 0);
    assert_eq!(find_corresponding_x(&left, &right, 0, 0, -3, 9), Some(0));
}

fn gray(width: u32, height: u32, f: impl Fn(u32, u32) -> u8) -> GrayImage {
    GrayImage::from_fn(width, height, f)
}

#[test]
fn corner_search_takes_the_first_closest_pixel() {
    let img = gray(10, 10, |x, y| if (x, y) == (5, 5) || (x, y) == (6, 4) { 100 } else { 0 });
    assert_eq!(find_corner_at(&img, 5, 5, 2), Some((6, 4)));
}

#[test]
fn corner_search_with_a_zero_radius_stays_put() {
    let img = gray(10, 10, |x, _| x as u8);
    assert_eq!(find_corner_at(&img, 4, 7, 0), Some((4, 7)));
}

#[test]
fn corner_search_stays_inside_the_border() {
    let img = gray(6, 6, |x, y| (x * 10 + y) as u8);
    // the expected position is the corner (0, 0), value 0; the examined
    // positions are clamped to 1..=5 and (1, 1) holds the smallest value
    assert_eq!(find_corner_at(&img, 0, 0, 1), Some((1, 1)));
    assert_eq!(find_corner_at(&img, 5, 5, 3), Some((5, 5)));
}

#[test]
fn corner_search_off_the_picture() {
    // with the expected position outside the picture every score is 0, so
    // the first examined position wins
    let img = gray(6, 6, |x, y| (x + y) as u8);
    assert_eq!(find_corner_at(&img, 40, 3, 1), Some((5, 2)));
    // a negative coordinate reads the value at zero
    let img2 = gray(6, 6, |x, _| if x == 0 || x == 3 { 50 } else { 0 });
    assert_eq!(find_corner_at(&img2, -1, 2, 4), Some((3, 1)));
}

#[test]
fn corner_search_with_a_negative_radius() {
    let img = gray(4, 4, |_, _| 0);
    assert_eq!(find_corner_at(&img, 1, 1, -1), None);
}

#[test]
fn calibration_needs_three_usable_pairs() {
    assert_eq!(MIN_CALIBRATION_PAIRS, 3);
    match count_valid_pairs(&[true, false, true, true], &[true, true, true]) {
        Err(CalibrationError::NotEnoughPairs { found }) => assert_eq!(found, 2),
        _ => panic!("expected NotEnoughPairs"),
    }
    assert!(matches!(count_valid_pairs(&[true; 4], &[true; 5]), Ok(4)));
    // a pair counts only when the board was found in both views
    assert!(matches!(count_valid_pairs(&[true; 4], &[false; 5]), Err(CalibrationError::NotEnoughPairs { found: 0 })));
    assert!(matches!(count_valid_pairs(&[true, true, true, true], &[true, false, true, true]), Ok(3)));
    assert!(matches!(count_valid_pairs(&[], &[]), Err(CalibrationError::NotEnoughPairs { found: 0 })));
}

#[test]
fn board_corners_row_by_row() {
    assert_eq!(board_corners(3, 2), vec![(0, 0), (1, 0), (2, 0), (0, 1), (1, 1), (2, 1)]);
    assert_eq!(board_corners(9, 6).len(), 54);
    assert!(board_corners(0, 4).is_empty());
}
