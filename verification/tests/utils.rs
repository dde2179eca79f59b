use axis_labels_rs::utils::linspace;

#[test]
fn mismatching_limits_should_yield_empty_vector() {
    // in hundredths
    let space = linspace(0, 100, -300, 55);
    assert_eq!(space.len(), 0);
}

#[test]
fn simple_linspace() {
    // in tenths
    let space = linspace(0, 9, 21, 10);
    assert_eq!(space.len(), 2);
    assert!((space[0] as f64 / 10.0 - 1.0).abs() < 1e6);
    assert!((space[1] as f64 / 10.0 - 2.0).abs() < 1e6);
    assert_eq!(space, vec![10, 20]);
}

#[test]
fn simple_linspace_with_a_bit_of_offset() {
    // in tenths
    let space = linspace(5, 9, 29, 10);
    assert_eq!(space.len(), 2);
    assert!((space[0] as f64 / 10.0 - 1.5).abs() < 1e6);
    assert!((space[1] as f64 / 10.0 - 2.5).abs() < 1e6);
    assert_eq!(space, vec![15, 25]);
}

#[test]
fn linspace_should_be_numberically_stable() {
    // in tenths
    let space = linspace(0, 90_000, 100_001, 10);
    assert!((space[space.len() - 1] as f64 / 10.0 - 10_000.0).abs() < 1e6);
    assert_eq!(space[space.len() - 1], 100_000);
    assert_eq!(space.len(), 1001);
}

#[test]
fn linspace_leaves_out_the_upper_bound() {
    assert_eq!(linspace(0, 0, 30, 10), vec![0, 10, 20]);
    assert_eq!(linspace(0, 0, 31, 10), vec![0, 10, 20, 30]);
    assert_eq!(linspace(0, 1, 30, 10), vec![10, 20]);
}

#[test]
fn linspace_of_a_step_that_is_not_positive_is_empty() {
    assert_eq!(linspace(0, 0, 30, 0), Vec::<i64>::new());
    assert_eq!(linspace(0, 0, 30, -1), Vec::<i64>::new());
    assert_eq!(linspace(0, -30, 30, i64::MIN), Vec::<i64>::new());
}

#[test]
fn linspace_starts_at_the_zero_point_where_it_is_above_the_lower_bound() {
    assert_eq!(linspace(7, -100, 30, 10), vec![7, 17, 27]);
    assert_eq!(linspace(40, -100, 30, 10), Vec::<i64>::new());
}

#[test]
fn linspace_of_negative_values() {
    assert_eq!(linspace(-100, -35, -4, 10), vec![-30, -20, -10]);
    assert_eq!(linspace(-100, -30, 0, 10), vec![-30, -20, -10]);
}

#[test]
fn linspace_at_the_ends_of_the_integers() {
    assert_eq!(
        linspace(i64::MIN, i64::MAX - 2, i64::MAX, 1),
        vec![i64::MAX - 2, i64::MAX - 1]
    );
    assert_eq!(
        linspace(i64::MIN, i64::MIN, i64::MAX, i64::MAX),
        vec![i64::MIN, -1, i64::MAX - 1]
    );
    assert_eq!(linspace(i64::MAX, i64::MIN, i64::MAX, 1), Vec::<i64>::new());
}

#[test]
fn linspace_values_stay_within_the_bounds() {
    for step in 1..12 {
        for start in -25..5 {
            let space = linspace(start, -13, 17, step);
            for (k, x) in space.iter().enumerate() {
                assert!(-13 <= *x && *x < 17);
                assert_eq!((x - start) % step, 0);
                assert_eq!(*x, space[0] + k as i64 * step);
            }
            let expected = (start..17).step_by(step as usize).filter(|x| *x >= -13).count();
            assert_eq!(space.len(), expected);
        }
    }
}
