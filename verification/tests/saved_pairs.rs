use stereo_measure::files::{next_pair_index, pair_file_names, right_partner_name, saved_pair_index};

#[test]
fn pair_numbers_read_from_names() {
    assert_eq!(saved_pair_index("left_07.png"), Some(7));
    assert_eq!(saved_pair_index("left_123.png"), Some(123));
    assert_eq!(saved_pair_index("left_+3.png"), Some(3));
    assert_eq!(saved_pair_index("left_left_5.png"), Some(5));
    assert_eq!(saved_pair_index("left_5.png.png"), Some(5));
    assert_eq!(saved_pair_index("right_01.png"), None);
    assert_eq!(saved_pair_index("left_.png"), None);
    assert_eq!(saved_pair_index("left_1a.png"), None);
    assert_eq!(saved_pair_index("left_4294967295.png"), Some(4294967295));
    assert_eq!(saved_pair_index("left_4294967296.png"), None);
    assert_eq!(saved_pair_index("left_3.jpg"), None);
}

#[test]
fn next_pair_number() {
    let names: Vec<String> = ["left_01.png", "left_03.png", "right_07.png", "notes.txt"]
        .iter()
        .map(|s| s.to_string())
        .collect();
    assert_eq!(next_pair_index(&names), 4);
    assert_eq!(next_pair_index(&Vec::new()), 1);
}

#[test]
fn pair_file_names_are_padded() {
    assert_eq!(pair_file_names(4), ("left_04.png".to_string(), "right_04.png".to_string()));
    assert_eq!(pair_file_names(0), ("left_00.png".to_string(), "right_00.png".to_string()));
    assert_eq!(pair_file_names(123), ("left_123.png".to_string(), "right_123.png".to_string()));
}

#[test]
fn right_partners() {
    assert_eq!(right_partner_name("img_left_3.png"), Some("img_right_3.png".to_string()));
    assert_eq!(right_partner_name("a_left_b_left.png"), Some("a_right_b_right.png".to_string()));
    assert_eq!(right_partner_name("left_02.png"), Some("right_02.png".to_string()));
    assert_eq!(right_partner_name("left.png"), Some("right.png".to_string()));
    assert_eq!(right_partner_name("left_x_left.png"), Some("left_x_right.png".to_string()));
    assert_eq!(right_partner_name("lefty.png"), None);
    assert_eq!(right_partner_name("photo.png"), None);
    assert_eq!(right_partner_name(""), None);
}

#[test]
fn a_saved_pair_is_read_back() {
    for i in [1u32, 9, 10, 42, 100, 4294967295] {
        let (left, right) = pair_file_names(i);
        assert_eq!(saved_pair_index(&left), Some(i));
        assert_eq!(right_partner_name(&left), Some(right));
    }
}

#[test]
fn the_next_pair_gets_a_new_name() {
    let names: Vec<String> = ["left_01.png", "left_02.png", "left_10.png"].iter().map(|s| s.to_string()).collect();
    let next = next_pair_index(&names);
    let (left, _) = pair_file_names(next);
    assert_eq!(left, "left_11.png");
    assert!(!names.contains(&left));
}
