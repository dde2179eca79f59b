use axis_labels_rs::float_axis_labels;
use axis_labels_rs::Error;

#[test]
fn no_space_is_an_invalid_range() {
    assert_eq!(
        float_axis_labels(1, 11, 1, 0, 0, false, &String::new()),
        Err(Error::InvalidRange)
    );
    assert_eq!(
        float_axis_labels(1, 11, 1, 0, 5, true, &String::new()),
        Err(Error::InvalidRange)
    );
}

#[test]
fn an_inverted_range_is_invalid() {
    assert_eq!(
        float_axis_labels(11, 1, 1, 40, 0, false, &String::new()),
        Err(Error::InvalidRange)
    );
}

#[test]
fn a_range_of_one_point_is_invalid() {
    assert_eq!(
        float_axis_labels(7, 7, 0, 40, 0, false, &String::new()),
        Err(Error::InvalidRange)
    );
}

#[test]
fn labels_from_a_tenth_to_eleven_tenths() {
    let labels = float_axis_labels(1, 11, 1, 40, 0, false, &String::new()).unwrap();
    assert_eq!(labels.len(), 40);
    assert_eq!(labels, "               0.5                 1.0  ");
    let shown: Vec<f64> = labels.split_whitespace().map(|t| t.parse().unwrap()).collect();
    assert_eq!(shown, vec![0.5, 1.0]);
}

#[test]
fn labels_of_a_hundred() {
    let labels = float_axis_labels(0, 100, 0, 60, 1, false, &String::new()).unwrap();
    assert_eq!(labels, " 0          20          40          60          80           ");
}

#[test]
fn labels_are_the_same_on_a_finer_grid() {
    let coarse = float_axis_labels(0, 100, 0, 60, 1, false, &String::new()).unwrap();
    let fine = float_axis_labels(0, 100_000, 3, 60, 1, false, &String::new()).unwrap();
    assert_eq!(coarse, fine);
    let short = float_axis_labels(0, 1, 0, 60, 1, false, &String::new()).unwrap();
    let long = float_axis_labels(0, 1_000, 3, 60, 1, false, &String::new()).unwrap();
    assert_eq!(short, long);
}

#[test]
fn labels_of_a_growing_range() {
    let unit = String::new();
    assert_eq!(
        float_axis_labels(65, 75, 1, 60, 1, false, &unit).unwrap(),
        "      6.6         6.8         7.0         7.2         7.4    "
    );
    assert_eq!(
        float_axis_labels(6_500, 7_875, 3, 60, 1, false, &unit).unwrap(),
        "6.5                   7.0                   7.5              "
    );
}

#[test]
fn labels_with_a_unit() {
    assert_eq!(
        float_axis_labels(-5, 5, 0, 30, 0, false, &String::from("m")).unwrap(),
        "        -2m         2m        "
    );
}

#[test]
fn labels_of_large_values_have_separators() {
    assert_eq!(
        float_axis_labels(0, 1_000_000_000_000_000, 0, 80, 0, false, &String::new()).unwrap(),
        "0          250,000,000,000,000 500,000,000,000,000 750,000,000,000,000          "
    );
    assert_eq!(
        float_axis_labels(
            -1_000_000_000_000_000,
            1_000_000_000_000_000,
            0,
            80,
            0,
            false,
            &String::new()
        )
        .unwrap(),
        "          -500,000,000,000,000          0          500,000,000,000,000          "
    );
}

#[test]
fn labels_on_the_smallest_axis() {
    assert_eq!(float_axis_labels(0, 5, 0, 1, 0, false, &String::new()).unwrap(), " ");
    assert_eq!(float_axis_labels(0, 5, 0, 3, 0, false, &String::new()).unwrap(), "0  ");
}

#[test]
fn rotated_labels_are_stacked() {
    let labels = float_axis_labels(0, 1, 0, 17, 1, true, &String::from("s")).unwrap();
    let rows: Vec<&str> = labels.split('\n').collect();
    assert_eq!(
        rows,
        vec![
            " 0      0      0  ",
            " .      .      .  ",
            " 0      4      8  ",
            " s      s      s  "
        ]
    );
}

#[test]
fn rotated_labels_of_a_wide_range() {
    let labels = float_axis_labels(65, 10_000, 1, 17, 1, true, &String::new()).unwrap();
    let rows: Vec<&str> = labels.split('\n').collect();
    assert_eq!(rows, vec!["    2   4  6   8  ", "    0   0  0   0  ", "    0   0  0   0  "]);
}

#[test]
fn labels_are_as_long_as_padding_and_space() {
    let unit = String::new();
    let mut max: i64 = 7_500;
    for _ in 0..150 {
        max = max * 105 / 100;
        for padding in 0..3u32 {
            let labels = float_axis_labels(6_500, max, 3, 60, padding, false, &unit).unwrap();
            assert_eq!(labels.len() as u32, 60 + padding);
            assert!(labels.split_whitespace().count() >= 1);
        }
    }
}

#[test]
fn labels_are_found_for_every_valid_range() {
    let unit = String::new();
    for (x_min, x_max) in [
        (0, 1),
        (-1, 0),
        (999_999_999_999_999, 1_000_000_000_000_000),
        (-1_000_000_000_000_000, -999_999_999_999_999),
        (-1_000_000_000_000_000, 1_000_000_000_000_000),
        (0, 99),
        (0, 100),
        (1, 10),
        (13, 9_999),
    ] {
        for decimals in [0, 1, 5, 28, 30, u32::MAX - 2, u32::MAX] {
            for space in [1, 2, 17, 80] {
                let labels = float_axis_labels(x_min, x_max, decimals, space, 0, false, &unit);
                assert_eq!(labels.unwrap().len() as u32, space);
                let rotated = float_axis_labels(x_min, x_max, decimals, space, 0, true, &unit);
                for row in rotated.unwrap().split('\n') {
                    assert_eq!(row.len() as u32, space);
                }
            }
        }
    }
}

#[test]
fn the_same_range_gives_the_same_labels() {
    let unit = String::from("V");
    let first = float_axis_labels(-3_300, 5_000, 3, 72, 2, false, &unit);
    let second = float_axis_labels(-3_300, 5_000, 3, 72, 2, false, &unit);
    assert_eq!(first, second);
    assert!(first.unwrap().contains("V"));
}

#[test]
fn labels_of_the_finest_units_are_zero() {
    let unit = String::new();
    let fine = float_axis_labels(0, 7, 40, 60, 0, false, &unit).unwrap();
    assert!(fine.contains("0.000000000"));
    for decimals in [41, 1_000, u32::MAX - 2, u32::MAX - 1, u32::MAX] {
        assert_eq!(float_axis_labels(0, 7, decimals, 60, 0, false, &unit).unwrap(), fine);
    }
}
