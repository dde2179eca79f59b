use axis_labels_rs::ratio::Ratio;
use axis_labels_rs::scoring::{
    compute_coverage_score, compute_density_score, compute_preferred_number_of_labels,
    compute_simplicity_score, overall_score, upper_bound_on_overall_score,
};

fn value(score: Ratio) -> f64 {
    score.num as f64 / score.den as f64
}

#[test]
fn preferred_label_count_smoke_tests() {
    compute_preferred_number_of_labels(66, false);
    compute_preferred_number_of_labels(21, true);
}

#[test]
fn preferred_label_count_is_one_per_fifteen_cells() {
    assert_eq!(compute_preferred_number_of_labels(66, false), 4);
    assert_eq!(compute_preferred_number_of_labels(60, false), 4);
    assert_eq!(compute_preferred_number_of_labels(59, false), 3);
}

#[test]
fn preferred_label_count_of_rotated_labels_is_one_per_five_point_six_cells() {
    assert_eq!(compute_preferred_number_of_labels(21, true), 3);
    assert_eq!(compute_preferred_number_of_labels(28, true), 5);
    assert_eq!(compute_preferred_number_of_labels(27, true), 4);
}

#[test]
fn preferred_label_count_stays_between_two_and_twenty() {
    assert_eq!(compute_preferred_number_of_labels(0, false), 2);
    assert_eq!(compute_preferred_number_of_labels(1, true), 2);
    assert_eq!(compute_preferred_number_of_labels(29, false), 2);
    assert_eq!(compute_preferred_number_of_labels(300, false), 20);
    assert_eq!(compute_preferred_number_of_labels(301, false), 20);
    assert_eq!(compute_preferred_number_of_labels(u32::MAX, false), 20);
    assert_eq!(compute_preferred_number_of_labels(u32::MAX, true), 20);
}

#[test]
fn simplicity_score_of_first_choice_labels_should_be_one() {
    let labels = vec![1, 2, 3];
    let score = value(compute_simplicity_score(&labels, 0, 1, 5));
    assert!((score - 1.0).abs() < 1e-6);
}

#[test]
fn simplicity_score_of_later_choice_labels_should_be_less_than_one() {
    let labels = vec![1, 2, 3];
    let score = value(compute_simplicity_score(&labels, 1, 2, 5));
    assert!(score < 0.9);
}

#[test]
fn simplicity_score_is_exact() {
    let labels = vec![1, 2, 3];
    let score = compute_simplicity_score(&labels, 1, 2, 5);
    assert_eq!((score.num, score.den), (-1, 4));
    let score = compute_simplicity_score(&labels, 5, 9, 6);
    assert_eq!((score.num, score.den), (-40, 5));
}

#[test]
fn coverage_score_of_full_cover_labels_should_be_one() {
    let labels = vec![1, 2, 3];
    let score = value(compute_coverage_score(&labels, 1, 3));
    assert!((score - 1.0).abs() < 1e-6);
}

#[test]
fn coverage_score_of_partial_cover_labels_should_be_less_than_one() {
    let labels = vec![10, 20, 30];
    let score = value(compute_coverage_score(&labels, -10, 55));
    assert!(score < 0.9);
}

#[test]
fn coverage_score_is_exact() {
    let labels = vec![10, 20, 30];
    let score = compute_coverage_score(&labels, -10, 55);
    // 1 - 5 * (25^2 + 20^2) / 65^2
    assert_eq!((score.num, score.den), (4225 - 5 * (625 + 400), 4225));
}

#[test]
fn coverage_score_of_a_single_label_is_zero() {
    let score = compute_coverage_score(&vec![2], 1, 3);
    assert_eq!(score.num, 0);
    assert!(score.den > 0);
    let score = compute_coverage_score(&Vec::new(), 1, 3);
    assert_eq!(score.num, 0);
}

#[test]
fn desity_score_of_preferred_count_should_be_one() {
    // at the preferred count the larger quotient of the two counts is one,
    // and the score, one minus that quotient, is at its greatest
    let labels = vec![1, 2, 3];
    let score = compute_density_score(&labels, 3);
    let quotient = 1.0 - value(score);
    assert!((quotient - 1.0).abs() < 1e-6);
    assert_eq!(score.num, 0);
}

#[test]
fn desity_score_of_too_few_labels_should_be_less_than_one() {
    let labels = vec![1, 2, 3];
    let score = value(compute_density_score(&labels, 5));
    assert!(score < 0.9);
}

#[test]
fn desity_score_of_too_many_labels_should_be_less_than_one() {
    let labels = vec![1, 2, 3];
    let score = value(compute_density_score(&labels, 2));
    assert!(score < 0.9);
}

#[test]
fn density_score_is_exact() {
    let labels = vec![1, 2, 3];
    let few = compute_density_score(&labels, 5);
    assert_eq!((few.num, few.den), (-2, 3));
    let many = compute_density_score(&labels, 2);
    assert_eq!((many.num, many.den), (-1, 2));
}

#[test]
fn density_score_is_greatest_at_the_preferred_count() {
    let best = compute_density_score(&vec![0; 7], 7);
    for n in 1..40usize {
        let score = compute_density_score(&vec![0; n], 7);
        assert!(!best.lt(&score));
        assert_eq!(score.lt(&best), n != 7);
    }
}

#[test]
fn overall_score_is_the_weighted_sum() {
    let one = Ratio::whole(1);
    let score = overall_score(one, one, one, one);
    // 0.4 + 0.25 + 0.3 + 0.2
    assert_eq!((score.num, score.den), (23, 20));
    let score = overall_score(
        Ratio { num: 1, den: 2 },
        Ratio { num: 1, den: 3 },
        Ratio { num: -1, den: 4 },
        Ratio::whole(0),
    );
    // 0.4 / 2 + 0.25 / 3 - 0.3 / 4 = 0.2083...
    assert!((value(score) - (0.2 + 0.25 / 3.0 - 0.075)).abs() < 1e-12);
    assert_eq!(score.den, 20 * 2 * 3 * 4);
}

#[test]
fn upper_bound_is_the_score_with_perfect_alignment() {
    let s = Ratio { num: -1, den: 4 };
    let c = Ratio { num: 2, den: 3 };
    let d = Ratio { num: -2, den: 3 };
    let bound = upper_bound_on_overall_score(s, c, d);
    let perfect = overall_score(s, c, d, Ratio::whole(1));
    assert_eq!((bound.num, bound.den), (perfect.num, perfect.den));
    let overlapping = overall_score(s, c, d, Ratio::whole(0));
    assert!(overlapping.lt(&bound));
    let half = overall_score(s, c, d, Ratio { num: 1, den: 2 });
    assert!(half.lt(&bound));
    assert!(overlapping.lt(&half));
}
