use axis_labels_rs::renderer::{find_shortest_string_representation, format_float, render, vec_unique};

#[test]
fn renderer_shortest_string_representation_of_integers() {
    let labels = vec![1, 2, 3];
    let ls = find_shortest_string_representation(&labels, 0);
    assert_eq!(ls.len(), 3);
    assert_eq!(ls[0], "1");
    assert_eq!(ls[1], "2");
    assert_eq!(ls[2], "3");
}

#[test]
fn renderer_shortest_string_representation_of_half_integers() {
    // in tenths
    let labels = vec![10, 15, 20];
    let ls = find_shortest_string_representation(&labels, 1);
    assert_eq!(ls.len(), 3);
    assert_eq!(ls[0], "1.0");
    assert_eq!(ls[1], "1.5");
    assert_eq!(ls[2], "2.0");
}

#[test]
fn renderer_shortest_string_representation_of_fractions() {
    // in ten-thousandths
    let labels = vec![10_000, 20_000, 30_001];
    let ls = find_shortest_string_representation(&labels, 4);
    assert_eq!(ls.len(), 3);
    assert_eq!(ls[0], "1");
    assert_eq!(ls[1], "2");
    assert_eq!(ls[2], "3");
}

#[test]
fn plain_shortest_string_representation_does_not_look_at_the_shift() {
    let ls = find_shortest_string_representation(&vec![50, 75, 100], 1);
    assert_eq!(ls, vec!["5", "8", "10"]);
}

#[test]
fn plain_shortest_string_representation_gives_up_at_nine_digits() {
    let ls = find_shortest_string_representation(&vec![3, 3], 0);
    assert_eq!(ls, vec!["3.000000000", "3.000000000"]);
}

#[test]
fn plain_format_has_no_separators() {
    assert_eq!(format_float(1234567, 0, 0), "1234567");
    assert_eq!(format_float(12, 0, 3), "12.000");
    assert_eq!(format_float(-1234567, 2, 1), "-12345.7");
    assert_eq!(format_float(25, 1, 0), "2");
    assert_eq!(format_float(35, 1, 0), "4");
}

#[test]
fn vec_unique_tells_whether_two_strings_are_equal() {
    let strings = |texts: &[&str]| -> Vec<String> { texts.iter().map(|t| String::from(*t)).collect() };
    assert!(vec_unique(&Vec::new()));
    assert!(vec_unique(&strings(&["1", "2", "3"])));
    assert!(!vec_unique(&strings(&["1", "1", "3"])));
    assert!(!vec_unique(&strings(&["1", "2", "1"])));
}

#[test]
fn plain_render_writes_each_label_before_its_cell() {
    let (string, overlap) = render(&vec![2, 5, 8], 0, 10, 0, 20);
    // the cells 4, 10 and 16
    assert_eq!(string, "   2     5     8    ");
    assert!(!overlap);
    let (string, overlap) = render(&vec![250, 500, 750], 0, 1000, 0, 40);
    assert_eq!(string, "       250       500       750          ");
    assert!(!overlap);
}

#[test]
fn plain_render_leaves_out_what_does_not_fit() {
    // "0" would start before the row, "10" would end at its end
    let (string, overlap) = render(&vec![0, 5, 10], 0, 10, 0, 20);
    assert_eq!(string, "         5          ");
    assert!(overlap);
}

#[test]
fn plain_render_keeps_the_first_of_two_colliding_labels() {
    let (string, overlap) = render(&vec![50, 55, 60], 0, 100, 0, 20);
    // 50 in cells 8 and 9, 55 would stand in 9 and 10, 60 in cells 10 and 11
    assert_eq!(string, "        5060        ");
    assert!(overlap);
}

#[test]
fn plain_render_without_space_is_empty() {
    let (string, overlap) = render(&vec![5], 0, 10, 0, 0);
    assert_eq!(string, "");
    assert!(overlap);
    let (string, overlap) = render(&vec![5], 0, 10, 0, -3);
    assert_eq!(string, "");
    assert!(overlap);
    let (string, overlap) = render(&Vec::new(), 0, 10, 0, 4);
    assert_eq!(string, "    ");
    assert!(!overlap);
}
