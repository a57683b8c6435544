use wave_sim::frames::frame_file_name;

#[test]
fn frame_zero() {
    assert_eq!(frame_file_name(0), "frame_0000.png");
}

#[test]
fn frame_single_digit() {
    assert_eq!(frame_file_name(7), "frame_0007.png");
}

#[test]
fn frame_three_digits() {
    assert_eq!(frame_file_name(123), "frame_0123.png");
}

#[test]
fn frame_four_digits() {
    assert_eq!(frame_file_name(9999), "frame_9999.png");
}

#[test]
fn frame_five_digits_is_not_cut() {
    assert_eq!(frame_file_name(10000), "frame_10000.png");
    assert_eq!(frame_file_name(12345), "frame_12345.png");
}

#[test]
fn frame_names_match_format() {
    for n in [0usize, 1, 9, 10, 99, 100, 999, 1000, 4321, 65536, usize::MAX] {
        assert_eq!(frame_file_name(n), format!("frame_{:04}.png", n));
    }
}

#[test]
fn frame_names_are_distinct() {
    let names: Vec<String> = (0..2000).map(frame_file_name).collect();
    let mut sorted = names.clone();
    sorted.sort();
    sorted.dedup();
    assert_eq!(sorted.len(), names.len());
}

#[test]
fn frame_names_below_ten_thousand_have_fourteen_chars_and_sort_by_number() {
    let names: Vec<String> = (0..10000).step_by(37).map(frame_file_name).collect();
    for name in &names {
        assert_eq!(name.len(), 14);
    }
    let mut sorted = names.clone();
    sorted.sort();
    assert_eq!(sorted, names);
}

#[test]
fn frame_number_reads_back_from_name() {
    for n in [0usize, 5, 42, 987, 31415] {
        let name = frame_file_name(n);
        let digits = &name[6..name.len() - 4];
        assert_eq!(digits.parse::<usize>().unwrap(), n);
    }
}
