use axis_labels_rs::ratio::Ratio;
use axis_labels_rs::rendering::{
    compute_delta_to_rounded, find_shortest_string_representation, format_float, render,
    vec_is_unique,
};

fn strings(texts: &[&str]) -> Vec<String> {
    texts.iter().map(|t| String::from(*t)).collect()
}

#[test]
fn render_smoke_test() {
    // in tenths
    let labels = vec![10, 20, 30];
    render(&labels, 1, 11, 1, 40, 0, false, &String::new());
}

#[test]
fn render_test_with_padding() {
    // in tenths
    let labels = vec![10, 20, 30];
    let (string, _overlap) = render(&labels, 1, 11, 1, 40, 10, false, &String::new());
    assert!(string[0..7].trim().is_empty());
    assert_eq!(string.len(), 50);
}

#[test]
fn render_drops_the_labels_beyond_the_axis() {
    let labels = vec![10, 20, 30];
    let (string, overlap) = render(&labels, 1, 11, 1, 40, 10, false, &String::new());
    assert_eq!(string, format!("{}1   ", " ".repeat(46)));
    assert!(overlap);
}

#[test]
fn render_places_each_label_at_its_share_of_the_axis() {
    let (string, overlap) = render(&vec![2, 5, 8], 0, 10, 0, 20, 0, false, &String::new());
    assert_eq!(string, "    2     5     8   ");
    assert!(!overlap);
}

#[test]
fn render_centres_the_labels() {
    let (string, overlap) = render(&vec![250, 500, 750], 0, 1000, 0, 40, 0, false, &String::new());
    // middles at 10, 20 and 30; a label of three characters starts one cell before
    assert_eq!(string, "         250       500       750        ");
    assert!(!overlap);
}

#[test]
fn render_rounds_the_position_to_the_nearest_cell() {
    // 21 * 5 / 10 = 10.5, which is rounded up
    let (string, _) = render(&vec![5], 0, 10, 0, 21, 2, false, &String::new());
    assert_eq!(string.find('5'), Some(13));
    // 10 * 44 / 100 = 4.4 and 10 * 46 / 100 = 4.6
    let (string, _) = render(&vec![44], 0, 100, 0, 10, 0, false, &String::new());
    assert_eq!(string.find("44"), Some(3));
    let (string, _) = render(&vec![46], 0, 100, 0, 10, 0, false, &String::new());
    assert_eq!(string.find("46"), Some(4));
}

#[test]
fn render_leaves_out_a_label_that_ends_in_the_last_cell() {
    let (string, overlap) = render(&vec![0, 5, 10], 0, 10, 0, 20, 0, false, &String::new());
    assert_eq!(string, "0         5         ");
    assert!(overlap);
    let (string, overlap) = render(&vec![9], 0, 10, 0, 20, 0, false, &String::new());
    assert_eq!(string, "                  9 ");
    assert!(!overlap);
}

#[test]
fn render_leaves_out_a_label_that_starts_before_the_first_cell() {
    let (string, overlap) = render(&vec![100, 500], 100, 900, 0, 20, 0, false, &String::new());
    // "100" would start one cell before the row
    assert_eq!(string, "         500        ");
    assert!(overlap);
}

#[test]
fn render_keeps_the_first_of_two_colliding_labels() {
    let (string, overlap) = render(&vec![0, 1, 2], 0, 100, 0, 10, 0, false, &String::new());
    assert_eq!(string, "0         ");
    assert!(overlap);
    let (string, overlap) = render(&vec![40, 50, 60], 0, 100, 0, 20, 0, false, &String::new());
    // 40 at cells 7 and 8, 50 would need cell 8 blank, 60 at cells 11 and 12
    assert_eq!(string, "       40  60       ");
    assert!(overlap);
}

#[test]
fn render_asks_for_a_blank_between_two_labels() {
    let (string, overlap) = render(&vec![40, 55], 0, 100, 0, 20, 0, false, &String::new());
    // 40 in cells 7 and 8, 55 in cells 10 and 11: one blank between them
    assert_eq!(string, "       40 55        ");
    assert!(!overlap);
    let (string, overlap) = render(&vec![40, 50], 0, 100, 0, 20, 0, false, &String::new());
    // 50 would stand in cells 9 and 10, right after 40
    assert_eq!(string, "       40           ");
    assert!(overlap);
}

#[test]
fn render_appends_the_unit_to_each_label() {
    let (string, overlap) = render(&vec![2, 5, 8], 0, 10, 0, 30, 0, false, &String::from("km"));
    assert_eq!(string, "     2km      5km      8km    ");
    assert!(!overlap);
}

#[test]
fn render_counts_characters_not_bytes() {
    let (string, overlap) = render(&vec![5], 0, 10, 0, 20, 0, false, &String::from("°"));
    assert_eq!(string.chars().count(), 20);
    assert_eq!(string, "         5°         ");
    assert!(!overlap);
}

#[test]
fn render_of_no_labels_is_blank() {
    let (string, overlap) = render(&Vec::new(), 0, 10, 0, 7, 2, false, &String::new());
    assert_eq!(string, "         ");
    assert!(!overlap);
    let (string, overlap) = render(&Vec::new(), 0, 10, 0, 7, 2, true, &String::new());
    assert_eq!(string, "");
    assert!(!overlap);
}

#[test]
fn render_stacks_the_characters_of_rotated_labels() {
    let (string, overlap) = render(&vec![2, 5, 8], 0, 10, 0, 20, 0, true, &String::from("m"));
    assert_eq!(string, "    2     5     8   \n    m     m     m   ");
    assert!(!overlap);
}

#[test]
fn render_of_rotated_labels_has_a_row_for_each_character_of_the_longest() {
    let (string, overlap) = render(&vec![5, 100], 0, 200, 0, 20, 1, true, &String::new());
    let rows: Vec<&str> = string.split('\n').collect();
    assert_eq!(rows, vec!["  5        1         ", "           0         ", "           0         "]);
    assert!(!overlap);
    for row in rows {
        assert_eq!(row.len(), 21);
    }
}

#[test]
fn render_of_rotated_labels_asks_for_a_blank_column_between_two_labels() {
    let (string, overlap) = render(&vec![50, 55, 60], 0, 100, 0, 20, 0, true, &String::new());
    // columns 10, 11 and 12
    assert_eq!(string, "          5 6       \n          0 0       ");
    assert!(overlap);
}

#[test]
fn render_width_is_padding_plus_space() {
    for space in 1..30u32 {
        for padding in 0..4u32 {
            let (string, _) = render(&vec![0, 25, 50, 75, 100], 0, 100, 0, space, padding, false, &String::new());
            assert_eq!(string.len() as u32, space + padding);
        }
    }
}

#[test]
fn render_without_overlap_shows_every_label() {
    for space in 1..60u32 {
        let labels = vec![10, 35, 60, 85];
        let (string, overlap) = render(&labels, 0, 100, 0, space, 1, false, &String::new());
        let shown: Vec<&str> = string.split_whitespace().collect();
        if overlap {
            assert!(shown.len() < 4);
        } else {
            assert_eq!(shown, vec!["10", "35", "60", "85"]);
        }
    }
}

#[test]
fn rendering_shortest_string_representation_of_integers() {
    let labels = vec![1, 2, 3];
    let ls = find_shortest_string_representation(&labels, 0, Ratio { num: 2, den: 60 });
    assert_eq!(ls.len(), 3);
    assert_eq!(ls[0], "1");
    assert_eq!(ls[1], "2");
    assert_eq!(ls[2], "3");
}

#[test]
fn rendering_shortest_string_representation_of_half_integers() {
    // in tenths
    let labels = vec![10, 15, 20];
    let ls = find_shortest_string_representation(&labels, 1, Ratio { num: 10, den: 60 });
    assert_eq!(ls.len(), 3);
    assert_eq!(ls[0], "1.0");
    assert_eq!(ls[1], "1.5");
    assert_eq!(ls[2], "2.0");
}

#[test]
fn rendering_shortest_string_representation_of_fractions() {
    // in ten-thousandths
    let labels = vec![10_000, 20_000, 30_001];
    let ls = find_shortest_string_representation(&labels, 4, Ratio { num: 20_000, den: 60 });
    assert_eq!(ls.len(), 3);
    assert_eq!(ls[0], "1");
    assert_eq!(ls[1], "2");
    assert_eq!(ls[2], "3");
}

#[test]
fn compute_delta_for_integers_should_be_zero() {
    let delta = compute_delta_to_rounded(1234, 0, 0) as f64;
    assert!((delta - 0.0) < 1e-6);
    assert_eq!(compute_delta_to_rounded(1234, 0, 0), 0);
}

#[test]
fn compute_delta_for_small_single_digit_should_be_that_digit() {
    let delta = compute_delta_to_rounded(1111, 3, 1) as f64 / 1000.0;
    assert!((delta - 0.111) < 1e-6);
    assert_eq!(compute_delta_to_rounded(1111, 3, 1), 11);
}

#[test]
fn compute_delta_for_medium_single_digit_should_be_the_rest_to_round_up() {
    let delta = compute_delta_to_rounded(11155, 4, 2) as f64 / 10_000.0;
    println!("delta = {delta}");
    assert!((delta - (1.12 - 1.1155)) < 1e-6);
    assert_eq!(compute_delta_to_rounded(11155, 4, 2), 45);
}

#[test]
fn compute_delta_for_high_single_digit_should_be_the_rest_to_one() {
    let delta = compute_delta_to_rounded(18888, 4, 3) as f64 / 10_000.0;
    assert!((delta - (1.889 - 1.8888)) < 1e-6);
    assert_eq!(compute_delta_to_rounded(18888, 4, 3), 2);
}

#[test]
fn compute_delta_of_negative_values_is_the_distance_to_the_nearest() {
    assert_eq!(compute_delta_to_rounded(-18888, 4, 3), 2);
    assert_eq!(compute_delta_to_rounded(-1111, 3, 1), 11);
    assert_eq!(compute_delta_to_rounded(-75, 1, 0), 5);
    assert_eq!(compute_delta_to_rounded(i64::MIN, 30, 0), 1 << 63);
    assert_eq!(compute_delta_to_rounded(i64::MAX, 19, 0), 776_627_963_145_224_193);
    assert_eq!(compute_delta_to_rounded(i64::MAX, 5, 7), 0);
}

#[test]
fn shortest_string_representation_of_fractions_when_more_than_uniqueness_is_required() {
    // in tenths
    let labels = vec![50, 75, 100];
    let ls = find_shortest_string_representation(&labels, 1, Ratio { num: 50, den: 2 * 60 });
    assert_eq!(ls.len(), 3);
    assert_eq!(ls[0], "5.0");
    assert_eq!(ls[1], "7.5");
    assert_eq!(ls[2], "10.0");
}

#[test]
fn shortest_string_representation_keeps_the_digits_where_the_shift_is_small() {
    let labels = vec![50, 75, 100];
    let ls = find_shortest_string_representation(&labels, 1, Ratio { num: 5, den: 1 });
    assert_eq!(ls, strings(&["5", "8", "10"]));
    let ls = find_shortest_string_representation(&labels, 1, Ratio { num: 49, den: 10 });
    assert_eq!(ls, strings(&["5.0", "7.5", "10.0"]));
}

#[test]
fn shortest_string_representation_gives_up_at_nine_digits() {
    let labels = vec![1, 2, 3];
    let ls = find_shortest_string_representation(&labels, 12, Ratio::whole(1_000_000));
    assert_eq!(ls, strings(&["0.000000000", "0.000000000", "0.000000000"]));
    let ls = find_shortest_string_representation(&vec![7, 7], 0, Ratio::whole(1));
    assert_eq!(ls, strings(&["7.000000000", "7.000000000"]));
}

#[test]
fn shortest_string_representation_looks_at_every_pair() {
    let labels = vec![10, 20, 10];
    let ls = find_shortest_string_representation(&labels, 1, Ratio::whole(1));
    assert_eq!(ls, strings(&["1.000000000", "2.000000000", "1.000000000"]));
}

#[test]
fn shortest_string_representation_of_nothing_is_empty() {
    let ls = find_shortest_string_representation(&Vec::new(), 1, Ratio::whole(1));
    assert!(ls.is_empty());
}

#[test]
fn shortest_string_representation_is_reproduced_by_formatting_it_again() {
    // in thousandths; the strings show hundredths
    let labels = vec![1_234, 1_236, -1_005];
    let ls = find_shortest_string_representation(&labels, 3, Ratio::whole(10));
    assert_eq!(ls, strings(&["1.23", "1.24", "-1.00"]));
    for text in ls {
        let hundredths = (text.parse::<f64>().unwrap() * 100.0).round() as i64;
        assert_eq!(format_float(hundredths, 2, 2), text);
    }
}

#[test]
fn should_render_float_to_specified_number_of_digits() {
    let x = 12;
    let str = format_float(x, 0, 3);
    assert_eq!(str, "12.000");
}

#[test]
fn should_render_thousand_separator() {
    let x = 1234567;
    let str = format_float(x, 0, 0);
    assert_eq!(str, "1,234,567");
}

#[test]
fn format_float_groups_the_whole_part_only() {
    assert_eq!(format_float(1_234_567_891, 6, 6), "1,234.567891");
    assert_eq!(format_float(999, 0, 0), "999");
    assert_eq!(format_float(1_000, 0, 0), "1,000");
    assert_eq!(format_float(100_000, 0, 1), "100,000.0");
    assert_eq!(format_float(1_000_000, 0, 0), "1,000,000");
    assert_eq!(format_float(1_002_003, 0, 0), "1,002,003");
    assert_eq!(format_float(0, 0, 0), "0");
    assert_eq!(format_float(0, 5, 2), "0.00");
}

#[test]
fn format_float_puts_the_sign_before_the_groups() {
    assert_eq!(format_float(-123, 0, 0), "-123");
    assert_eq!(format_float(-123_456, 0, 0), "-123,456");
    assert_eq!(format_float(-1_234_567, 3, 1), "-1,234.6");
    assert_eq!(format_float(i64::MIN, 0, 0), "-9,223,372,036,854,775,808");
    assert_eq!(format_float(i64::MAX, 0, 0), "9,223,372,036,854,775,807");
    assert_eq!(
        format_float(i64::MAX, 0, 19),
        "9,223,372,036,854,775,807.0000000000000000000"
    );
}

#[test]
fn format_float_rounds_half_to_even() {
    assert_eq!(format_float(5, 1, 0), "0");
    assert_eq!(format_float(15, 1, 0), "2");
    assert_eq!(format_float(25, 1, 0), "2");
    assert_eq!(format_float(35, 1, 0), "4");
    assert_eq!(format_float(75, 1, 0), "8");
    assert_eq!(format_float(125, 3, 2), "0.12");
    assert_eq!(format_float(135, 3, 2), "0.14");
    assert_eq!(format_float(1251, 4, 2), "0.13");
    assert_eq!(format_float(1249, 4, 2), "0.12");
    assert_eq!(format_float(-25, 1, 0), "-2");
    assert_eq!(format_float(-35, 1, 0), "-4");
    assert_eq!(format_float(9_995, 3, 2), "10.00");
    assert_eq!(format_float(999_950, 2, 0), "10,000");
}

#[test]
fn format_float_shows_no_sign_for_what_rounds_to_zero() {
    assert_eq!(format_float(-4, 1, 0), "0");
    assert_eq!(format_float(-5, 1, 0), "0");
    assert_eq!(format_float(-6, 1, 0), "-1");
    assert_eq!(format_float(-1, 3, 2), "0.00");
    assert_eq!(format_float(i64::MIN, 40, 3), "0.000");
    assert_eq!(format_float(i64::MAX, 20, 0), "0");
    assert_eq!(format_float(i64::MAX, 19, 0), "1");
}

#[test]
fn vec_is_unique_tells_whether_two_strings_are_equal() {
    assert!(vec_is_unique(&Vec::new()));
    assert!(vec_is_unique(&strings(&["1"])));
    assert!(vec_is_unique(&strings(&["1", "2", "3"])));
    assert!(!vec_is_unique(&strings(&["1", "1", "3"])));
    assert!(!vec_is_unique(&strings(&["1", "2", "2"])));
    assert!(!vec_is_unique(&strings(&["1", "2", "1"])));
    assert!(vec_is_unique(&strings(&["1", "1.0", "1.00"])));
}

#[test]
fn format_float_has_as_many_digits_as_asked_for() {
    assert_eq!(format_float(5, 0, 25), format!("5.{}", "0".repeat(25)));
    assert_eq!(format_float(-1_234_567, 3, 30), format!("-1,234.567{}", "0".repeat(27)));
    assert_eq!(
        format_float(i64::MAX, 30, 40),
        format!("0.{}9223372036854775807{}", "0".repeat(11), "0".repeat(10))
    );
    assert_eq!(
        format_float(i64::MIN, 21, 21),
        "-0.009223372036854775808"
    );
    assert_eq!(format_float(i64::MAX, 20, 20), "0.09223372036854775807");
    assert_eq!(format_float(i64::MAX, 19, 19), "0.9223372036854775807");
    assert_eq!(format_float(i64::MAX, 18, 18), "9.223372036854775807");
    assert_eq!(format_float(7, 1_000, 999), format!("0.{}1", "0".repeat(998)));
    assert_eq!(format_float(4, 1_000, 999), format!("0.{}", "0".repeat(999)));
    assert_eq!(format_float(7, 1_000, 1_002), format!("0.{}700", "0".repeat(999)));
    assert_eq!(format_float(i64::MAX, 25, 22), "0.0000009223372036854776");
    assert_eq!(format_float(i64::MAX, 25, 5), "0.00000");
    assert_eq!(format_float(i64::MAX, 24, 5), "0.00001");
}
