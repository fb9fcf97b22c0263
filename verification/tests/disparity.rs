use stereo_measure::raster::RgbImage;
use stereo_measure::stereo::{
    compute_disparity, compute_disparity_at, disparity_inputs_valid, StereoConfig,
};

fn rgb(width: u32, height: u32, f: impl Fn(u32, u32) -> (u8, u8, u8)) -> RgbImage {
    let mut data = Vec::new();
    for y in 0..height {
        for x in 0..width {
            let (r, g, b) = f(x, y);
            data.push(r);
            data.push(g);
            data.push(b);
        }
    }
    RgbImage { width, height, data }
}

fn config(block_size: u32, min_disparity: i32, max_disparity: u32) -> StereoConfig {
    StereoConfig {
        algorithm: "block_match".to_string(),
        block_size,
        max_disparity,
        min_disparity,
        speckle_window_size: 100,
        speckle_range: 2,
    }
}

#[test]
fn default_config() {
    let c = StereoConfig::default();
    assert_eq!(c.algorithm, "block_match");
    assert_eq!(c.block_size, 9);
    assert_eq!(c.max_disparity, 128);
    assert_eq!(c.min_disparity, 0);
    assert_eq!(c.speckle_window_size, 100);
    assert_eq!(c.speckle_range, 2);
}

#[test]
fn disparity_at_finds_the_shift() {
    let left = rgb(8, 3, |x, _| if x == 1 { (100, 100, 100) } else { (0, 0, 0) });
    let right = rgb(8, 3, |x, _| if x == 3 { (100, 100, 100) } else { (0, 0, 0) });
    assert_eq!(compute_disparity_at(&left, &right, 1, 1, 0, 0, 4, 8, 3), 2);
}

#[test]
fn disparity_at_keeps_the_first_of_equal_costs() {
    let left = rgb(8, 3, |_, _| (7, 7, 7));
    let right = rgb(8, 3, |_, _| (7, 7, 7));
    assert_eq!(compute_disparity_at(&left, &right, 0, 1, 1, -1, 4, 8, 3), 0);
    assert_eq!(compute_disparity_at(&left, &right, 3, 1, 1, 0, 4, 8, 3), 0);
}

#[test]
fn disparity_at_without_candidate_is_the_minimum() {
    let left = rgb(4, 2, |_, _| (1, 2, 3));
    let right = rgb(4, 2, |_, _| (3, 2, 1));
    assert_eq!(compute_disparity_at(&left, &right, 0, 0, 0, -5, -1, 4, 2), -5);
    assert_eq!(compute_disparity_at(&left, &right, 2, 0, 0, 3, 3, 4, 2), 3);
}

#[test]
fn disparity_at_averages_the_block() {
    // block of 3 by 3 around (2, 1); the right image is the left one moved
    // one column to the right, so d = 1 matches exactly
    let left = rgb(6, 3, |x, y| ((10 * x + y) as u8, 0, 0));
    let right = rgb(6, 3, |x, y| if x == 0 { (255, 0, 0) } else { ((10 * (x - 1) + y) as u8, 0, 0) });
    assert_eq!(compute_disparity_at(&left, &right, 2, 1, 1, 0, 3, 6, 3), 1);
}

#[test]
fn disparity_map_of_a_shifted_pair() {
    let left = rgb(8, 2, |x, _| ((10 * x) as u8, 0, 0));
    let right = rgb(8, 2, |x, _| if x < 2 { (255, 0, 0) } else { ((10 * (x - 2)) as u8, 0, 0) });
    let c = config(1, 0, 4);
    assert!(disparity_inputs_valid(&left, &c));
    let d = compute_disparity(&left, &right, &c);
    assert_eq!(d.width, 8);
    assert_eq!(d.height, 2);
    // columns 6 and 7 reach past the right image, where nothing is compared
    // and the cost is 0
    let row = vec![2, 2, 2, 2, 2, 2, 2, 1];
    let mut expected = row.clone();
    expected.extend(row);
    assert_eq!(d.data, expected);
}

#[test]
fn disparity_map_clamps_negative_disparities_to_zero() {
    let left = rgb(4, 1, |_, _| (5, 5, 5));
    let right = rgb(4, 1, |_, _| (5, 5, 5));
    let c = config(1, -3, 1);
    let d = compute_disparity(&left, &right, &c);
    // the first candidate is -x for column x (or -3), each clamped to 0
    assert_eq!(d.data, vec![0, 0, 0, 0]);
}

#[test]
fn disparity_inputs_check() {
    let img = rgb(8, 2, |_, _| (0, 0, 0));
    assert!(disparity_inputs_valid(&img, &config(1, 0, 4)));
    // a block reaching past the last column is refused
    assert!(!disparity_inputs_valid(&img, &config(3, 0, 4)));
    // no candidate disparity: nothing is read
    assert!(disparity_inputs_valid(&img, &config(3, 2000, 2001)));
    assert!(disparity_inputs_valid(&rgb(0, 0, |_, _| (0, 0, 0)), &config(9, 0, 128)));
}

#[test]
fn the_largest_block_size_reads_as_half_zero() {
    // u32::MAX read as a signed value is -1, and -1 / 2 rounds to 0
    let left = rgb(8, 2, |x, _| ((10 * x) as u8, 0, 0));
    let right = rgb(8, 2, |x, _| if x < 2 { (255, 0, 0) } else { ((10 * (x - 2)) as u8, 0, 0) });
    let c = config(u32::MAX, 0, 4);
    assert!(disparity_inputs_valid(&left, &c));
    let d = compute_disparity(&left, &right, &c);
    assert_eq!(d.data, compute_disparity(&left, &right, &config(1, 0, 4)).data);
}

#[test]
fn a_negative_half_gives_an_empty_block() {
    let left = rgb(6, 4, |x, _| (x as u8 * 40, 0, 0));
    let right = rgb(6, 4, |_, _| (255, 255, 255));
    // nothing is compared, every candidate costs 0 and the first one wins
    assert_eq!(compute_disparity_at(&left, &right, 2, 2, -1, -1, 3, 6, 4), -1);
    // the rows wrap around at y = 0 but the columns are empty
    assert_eq!(compute_disparity_at(&left, &right, 2, 0, -1, 0, 3, 6, 4), 0);
}

#[test]
fn large_block_sizes_without_candidates() {
    let img = rgb(8, 2, |_, _| (1, 1, 1));
    // 0x8000_0000 reads as i32::MIN; with min >= max nothing is matched
    let c = config(0x8000_0000, 5, 5);
    assert!(disparity_inputs_valid(&img, &c));
    let d = compute_disparity(&img, &img, &c);
    assert_eq!(d.data, vec![5; 16]);
    // with candidates, both ends of the block wrap around at (0, 0)
    assert!(!disparity_inputs_valid(&img, &config(0x8000_0000, 0, 4)));
    // block size 0xFFFF_FFFD reads as -3, half -1: pixel (0, 0) wraps both ways
    assert!(!disparity_inputs_valid(&img, &config(0xFFFF_FFFD, 0, 4)));
}
