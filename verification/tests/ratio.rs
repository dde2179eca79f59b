use axis_labels_rs::ratio::{floor_div, Ratio};

#[test]
fn floor_division_rounds_down() {
    assert_eq!(floor_div(7, 2), (3, 1));
    assert_eq!(floor_div(-7, 2), (-4, 1));
    assert_eq!(floor_div(-8, 2), (-4, 0));
    assert_eq!(floor_div(0, 5), (0, 0));
    assert_eq!(floor_div(-1, 5), (-1, 4));
    assert_eq!(floor_div(i128::MIN, 1), (i128::MIN, 0));
    assert_eq!(floor_div(i128::MIN, i128::MAX), (-2, i128::MAX - 1));
}

#[test]
fn fractions_are_ordered_by_value() {
    let third = Ratio { num: 1, den: 3 };
    let half = Ratio { num: 2, den: 4 };
    let other_half = Ratio { num: 1, den: 2 };
    assert!(third.lt(&half));
    assert!(!half.lt(&third));
    assert!(!half.lt(&other_half));
    assert!(!other_half.lt(&half));
    let minus = Ratio { num: -1, den: 3 };
    assert!(minus.lt(&third));
    assert!(Ratio { num: -1, den: 2 }.lt(&minus));
    assert!(Ratio::whole(-1).lt(&Ratio { num: -1, den: 2 }));
}

#[test]
fn fractions_are_ordered_where_products_would_overflow() {
    let big = i128::MAX;
    let a = Ratio { num: big - 1, den: big };
    let b = Ratio { num: big - 2, den: big - 1 };
    // (m - 1) / m > (m - 2) / (m - 1)
    assert!(b.lt(&a));
    assert!(!a.lt(&b));
    let c = Ratio { num: -(big - 1), den: big };
    let d = Ratio { num: -(big - 2), den: big - 1 };
    assert!(c.lt(&d));
    assert!(!d.lt(&c));
    assert!(!a.lt(&a));
}
