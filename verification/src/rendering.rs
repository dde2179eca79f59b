//! The rendering of labels: the least number of digits that tells them
//! apart, and their grid.
use crate::decimal::{
    abs, lemma_pow10_positive, lemma_round_half_even_nat_near, pow10, power_of_ten,
    round_half_even_nat,
};
use crate::layout::{
    chars_of, draw_labels, ints_of, lemma_rendered_width, rendered_text, rows_of, some_dropped,
};
use crate::ratio::{Ratio, Rational};
use crate::text::{
    float_text, format_number, lemma_rounds_to_zero, magnitude, rounded_units, rounding_shift,
};
use vstd::prelude::*;

verus! {

/// Format the value `x / 10^decimals` with `nr_digits` digits after the
/// decimal point and with separators between the thousands of its whole part.
pub fn format_float(x: i64, decimals: u32, nr_digits: usize) -> (text: String)
    ensures
        text@ == float_text(x as int, decimals as nat, nr_digits as nat),
{
    format_number(x, decimals, nr_digits, true)
}

/// How far rounding to `nr_digits` digits after the decimal point moves the
/// value `x / 10^decimals`, in units of `10^-decimals`.
pub fn compute_delta_to_rounded(x: i64, decimals: u32, nr_digits: usize) -> (delta: u64)
    ensures
        delta == rounding_shift(x as int, decimals as nat, nr_digits as nat),
{
    if nr_digits >= decimals as usize {
        return 0;
    }
    let m: u128 = magnitude(x);
    let zeros: u32 = decimals - nr_digits as u32;
    let ghost unit_spec = pow10(zeros as nat);
    let ghost rounded = round_half_even_nat(m as int, unit_spec);
    proof {
        lemma_pow10_positive(zeros as nat);
        lemma_round_half_even_nat_near(m as int, unit_spec);
        assert((-rounded) * unit_spec == -(rounded * unit_spec)) by (nonlinear_arith);
    }
    if zeros >= 20 {
        proof {
            lemma_rounds_to_zero(m as int, zeros as nat);
            assert(0 * unit_spec == 0) by (nonlinear_arith);
        }
        return m as u64;
    }
    let unit: u128 = power_of_ten(zeros);
    let below: u128 = m % unit;
    let above: u128 = unit - below;
    proof {
        let q = m as int / unit as int;
        vstd::arithmetic::div_mod::lemma_fundamental_div_mod(m as int, unit as int);
        vstd::arithmetic::div_mod::lemma_mod_bound(m as int, unit as int);
        assert(unit * q == q * unit) by (nonlinear_arith);
        assert((q + 1) * unit == q * unit + unit) by (nonlinear_arith);
    }
    if below <= above {
        below as u64
    } else {
        above as u64
    }
}

/// No two of the texts are equal.
pub open spec fn all_distinct(texts: Seq<Seq<char>>) -> bool {
    forall|i: int, j: int| 0 <= i < j < texts.len() ==> texts[i] != texts[j]
}

/// The characters of each string.
pub open spec fn texts_of(strings: Seq<String>) -> Seq<Seq<char>> {
    Seq::new(strings.len(), |i: int| strings[i]@)
}

/// Whether the strings are pairwise distinct.
pub fn vec_is_unique(vector: &Vec<String>) -> (unique: bool)
    ensures
        unique == all_distinct(texts_of(vector@)),
{
    let n = vector.len();
    let mut j: usize = 0;
    while j < n
        invariant
            n == vector.len(),
            j <= n,
            forall|a: int, b: int| 0 <= a < b < j ==> vector[a]@ != vector[b]@,
        decreases n - j,
    {
        let mut i: usize = 0;
        while i < j
            invariant
                n == vector.len(),
                i <= j < n,
                forall|a: int| 0 <= a < i ==> vector[a]@ != vector[j as int]@,
            decreases j - i,
        {
            if vector[i] == vector[j] {
                proof {
                    let texts = texts_of(vector@);
                    assert(texts[i as int] == texts[j as int]);
                }
                return false;
            }
            i += 1;
        }
        j += 1;
    }
    proof {
        let texts = texts_of(vector@);
        assert forall|a: int, b: int| 0 <= a < b < texts.len() implies texts[a] != texts[b] by {
            assert(vector[a]@ != vector[b]@);
        }
    }
    true
}

/// The text of each label, rounded to `digits` digits after the decimal
/// point.
pub open spec fn label_texts(labels: Seq<i64>, decimals: nat, digits: nat) -> Seq<Seq<char>> {
    Seq::new(labels.len(), |i: int| float_text(labels[i] as int, decimals, digits))
}

/// The least number of digits, from `from` upwards and below ten, at which
/// the texts of the labels are pairwise distinct; ten where there is none.
pub open spec fn distinguishing_digits(labels: Seq<i64>, decimals: nat, from: nat) -> nat
    decreases 10 - from,
{
    if from >= 10 {
        10
    } else if all_distinct(label_texts(labels, decimals, from)) {
        from
    } else {
        distinguishing_digits(labels, decimals, from + 1)
    }
}

/// Whether rounding to `digits` digits moves some label by more than
/// `limit`, both in units of `10^-decimals`.
pub open spec fn shift_exceeds(labels: Seq<i64>, decimals: nat, digits: nat, limit: Rational) -> bool {
    exists|i: int|
        0 <= i < labels.len() && limit.lt(
            Rational::whole(#[trigger] rounding_shift(labels[i] as int, decimals, digits)),
        )
}

/// The number of digits that the labels are shown with: the least at which
/// their texts are pairwise distinct, and one more where rounding to that
/// number moves a label by more than `limit`. Where no number below ten
/// tells the labels apart, it is nine.
pub open spec fn shortest_digits(labels: Seq<i64>, decimals: nat, limit: Rational) -> nat {
    let digits = distinguishing_digits(labels, decimals, 0);
    if digits >= 10 {
        9
    } else if shift_exceeds(labels, decimals, digits, limit) {
        digits + 1
    } else {
        digits
    }
}

/// Each label formatted with `nr_digits` digits after the decimal point.
fn format_all(labels: &Vec<i64>, decimals: u32, nr_digits: usize) -> (texts: Vec<String>)
    ensures
        texts_of(texts@) == label_texts(labels@, decimals as nat, nr_digits as nat),
{
    let mut texts: Vec<String> = Vec::new();
    let mut i: usize = 0;
    while i < labels.len()
        invariant
            i <= labels.len(),
            texts.len() == i,
            forall|k: int|
                0 <= k < i ==> texts[k]@ == float_text(
                    labels[k] as int,
                    decimals as nat,
                    nr_digits as nat,
                ),
        decreases labels.len() - i,
    {
        texts.push(format_float(labels[i], decimals, nr_digits));
        i += 1;
    }
    proof {
        assert(texts_of(texts@) =~= label_texts(labels@, decimals as nat, nr_digits as nat));
    }
    texts
}

/// Whether rounding to `nr_digits` digits moves some label by more than
/// `limit`.
fn any_shift_exceeds(labels: &Vec<i64>, decimals: u32, nr_digits: usize, limit: &Ratio) -> (exceeds:
    bool)
    requires
        limit.wf(),
    ensures
        exceeds == shift_exceeds(labels@, decimals as nat, nr_digits as nat, limit@),
{
    let mut i: usize = 0;
    while i < labels.len()
        invariant
            limit.wf(),
            i <= labels.len(),
            forall|k: int|
                0 <= k < i ==> !limit@.lt(
                    Rational::whole(
                        #[trigger] rounding_shift(
                            labels[k] as int,
                            decimals as nat,
                            nr_digits as nat,
                        ),
                    ),
                ),
        decreases labels.len() - i,
    {
        let shift = Ratio::whole(compute_delta_to_rounded(labels[i], decimals, nr_digits) as i128);
        if limit.lt(&shift) {
            return true;
        }
        i += 1;
    }
    false
}

/// This finds the lowest number of digits where the labels are unique. It also checks for the
/// labels being shifted too much from the non-rounded version, and if so adds one digit to all
/// labels.
pub fn find_shortest_string_representation(
    labels: &Vec<i64>,
    decimals: u32,
    max_rounding_shift: Ratio,
) -> (texts: Vec<String>)
    requires
        max_rounding_shift.wf(),
    ensures
        texts_of(texts@) == label_texts(
            labels@,
            decimals as nat,
            shortest_digits(labels@, decimals as nat, max_rounding_shift@),
        ),
{
    let mut nr_digits: usize = 0;
    while nr_digits < 10
        invariant
            max_rounding_shift.wf(),
            nr_digits <= 10,
            distinguishing_digits(labels@, decimals as nat, 0) == distinguishing_digits(
                labels@,
                decimals as nat,
                nr_digits as nat,
            ),
        decreases 10 - nr_digits,
    {
        let texts = format_all(labels, decimals, nr_digits);
        if vec_is_unique(&texts) {
            if any_shift_exceeds(labels, decimals, nr_digits, &max_rounding_shift) {
                return format_all(labels, decimals, nr_digits + 1);
            }
            return texts;
        }
        nr_digits += 1;
    }
    format_all(labels, decimals, 9)
}

/// The cell at which the middle of a label is placed: the share of the axis
/// that lies before the label, in cells and rounded to the nearest cell, after
/// the cells of the left padding.
pub open spec fn label_position(
    label: int,
    x_min: int,
    x_max: int,
    available_space: int,
    padding_left: int,
) -> int {
    (2 * available_space * (label - x_min) + (x_max - x_min)) / (2 * (x_max - x_min))
        + padding_left
}

/// The cell of each label.
pub open spec fn label_positions(
    labels: Seq<i64>,
    x_min: int,
    x_max: int,
    available_space: int,
    padding_left: int,
) -> Seq<int> {
    Seq::new(
        labels.len(),
        |i: int| label_position(labels[i] as int, x_min, x_max, available_space, padding_left),
    )
}

/// Each text followed by the unit.
pub open spec fn with_unit(texts: Seq<Seq<char>>, unit: Seq<char>) -> Seq<Seq<char>> {
    Seq::new(texts.len(), |i: int| texts[i] + unit)
}

/// The most that rounding may move a label: half the share of the axis that
/// one cell stands for.
pub open spec fn shift_limit(x_min: int, x_max: int, available_space: int) -> Rational {
    Rational { num: x_max - x_min, den: 2 * available_space }
}

/// The texts that the labels are drawn with: each label with the least
/// number of digits that the axis asks for, followed by the unit.
pub open spec fn drawn_texts(
    labels: Seq<i64>,
    x_min: int,
    x_max: int,
    decimals: nat,
    available_space: int,
    unit: Seq<char>,
) -> Seq<Seq<char>> {
    with_unit(
        label_texts(
            labels,
            decimals,
            shortest_digits(labels, decimals, shift_limit(x_min, x_max, available_space)),
        ),
        unit,
    )
}

/// The whole quotient of a division with a divisor of at least one is no
/// larger in magnitude than the dividend, but for the one that rounding down
/// adds below zero.
pub(crate) proof fn lemma_quotient_bound(a: int, b: int, q: int, r: int)
    requires
        b >= 1,
        a == q * b + r,
        0 <= r < b,
    ensures
        -abs(a) - 1 <= q <= abs(a),
{
    if q >= 1 {
        assert(q * b >= q) by (nonlinear_arith)
            requires
                q >= 1,
                b >= 1,
        ;
    }
    if q <= -1 {
        assert((q + 1) * b <= q + 1) by (nonlinear_arith)
            requires
                q + 1 <= 0,
                b >= 1,
        ;
        assert((q + 1) * b == q * b + b) by (nonlinear_arith);
    }
}

/// The cell at which the middle of the label is placed.
fn position_of(label: i64, x_min: i64, x_max: i64, available_space: u32, padding_left: u32) -> (position:
    i128)
    requires
        x_min < x_max,
    ensures
        position == label_position(
            label as int,
            x_min as int,
            x_max as int,
            available_space as int,
            padding_left as int,
        ),
        -0x1_0000_0000_0000_0000_0000_0000_0000 < position < 0x1_0000_0000_0000_0000_0000_0000_0000,
{
    let width: i128 = x_max as i128 - x_min as i128;
    let offset: i128 = label as i128 - x_min as i128;
    let cells: i128 = 2 * (available_space as i128);
    proof {
        assert(-0x2_0000_0000 * 0x1_0000_0000_0000_0000 <= cells * offset <= 0x2_0000_0000
            * 0x1_0000_0000_0000_0000) by (nonlinear_arith)
            requires
                0 <= cells <= 0x2_0000_0000,
                -0x1_0000_0000_0000_0000 <= offset <= 0x1_0000_0000_0000_0000,
        ;
    }
    let scaled: i128 = cells * offset + width;
    let (quotient, rest) = crate::ratio::floor_div(scaled, 2 * width);
    proof {
        lemma_quotient_bound(scaled as int, 2 * width as int, quotient as int, rest as int);
    }
    quotient + padding_left as i128
}

/// Render the labels into a grid of `padding_left + available_space` cells
/// in a row, each label at the cell that its value has on the axis from
/// `x_min` to `x_max`, and say whether a label had to be left out. All values
/// are in units of `10^-decimals`.
pub fn render(
    labels: &Vec<i64>,
    x_min: i64,
    x_max: i64,
    decimals: u32,
    available_space: u32,
    padding_left: u32,
    vertical: bool,
    unit: &String,
) -> (result: (String, bool))
    requires
        x_min < x_max,
        available_space > 0,
    ensures
        result.0@ == rendered_text(
            drawn_texts(
                labels@,
                x_min as int,
                x_max as int,
                decimals as nat,
                available_space as int,
                unit@,
            ),
            label_positions(
                labels@,
                x_min as int,
                x_max as int,
                available_space as int,
                padding_left as int,
            ),
            (padding_left + available_space) as nat,
            vertical,
        ),
        result.1 == some_dropped(
            drawn_texts(
                labels@,
                x_min as int,
                x_max as int,
                decimals as nat,
                available_space as int,
                unit@,
            ),
            label_positions(
                labels@,
                x_min as int,
                x_max as int,
                available_space as int,
                padding_left as int,
            ),
            (padding_left + available_space) as nat,
            vertical,
            labels.len() as int,
        ),
        !vertical ==> result.0@.len() == padding_left + available_space,
{
    proof {
        lemma_rendered_width(
            drawn_texts(
                labels@,
                x_min as int,
                x_max as int,
                decimals as nat,
                available_space as int,
                unit@,
            ),
            label_positions(
                labels@,
                x_min as int,
                x_max as int,
                available_space as int,
                padding_left as int,
            ),
            (padding_left + available_space) as nat,
        );
    }
    let limit = Ratio { num: x_max as i128 - x_min as i128, den: 2 * (available_space as i128) };
    let label_strs = find_shortest_string_representation(labels, decimals, limit);
    let ghost shown = label_texts(
        labels@,
        decimals as nat,
        shortest_digits(
            labels@,
            decimals as nat,
            shift_limit(x_min as int, x_max as int, available_space as int),
        ),
    );
    let unit_chars = chars_of(unit);
    let n = labels.len();
    assert(texts_of(label_strs@).len() == shown.len());
    let mut texts: Vec<Vec<char>> = Vec::new();
    let mut positions: Vec<i128> = Vec::new();
    let mut i: usize = 0;
    while i < n
        invariant
            x_min < x_max,
            n == labels.len(),
            n == label_strs.len(),
            i <= n,
            unit_chars@ == unit@,
            texts_of(label_strs@) == shown,
            texts.len() == i,
            positions.len() == i,
            forall|k: int| 0 <= k < i ==> (#[trigger] texts[k])@ == shown[k] + unit@,
            forall|k: int|
                0 <= k < i ==> #[trigger] positions[k] == label_position(
                    labels[k] as int,
                    x_min as int,
                    x_max as int,
                    available_space as int,
                    padding_left as int,
                ),
            forall|k: int|
                0 <= k < i ==> -0x1_0000_0000_0000_0000_0000_0000_0000 < #[trigger] positions[k]
                    < 0x1_0000_0000_0000_0000_0000_0000_0000,
        decreases n - i,
    {
        let mut text = chars_of(&label_strs[i]);
        proof {
            assert(texts_of(label_strs@)[i as int] == label_strs[i as int]@);
        }
        let mut u: usize = 0;
        while u < unit_chars.len()
            invariant
                u <= unit_chars.len(),
                text@ =~= label_strs[i as int]@ + unit_chars@.take(u as int),
            decreases unit_chars.len() - u,
        {
            text.push(unit_chars[u]);
            u += 1;
        }
        proof {
            assert(unit_chars@.take(unit_chars.len() as int) =~= unit_chars@);
        }
        texts.push(text);
        positions.push(position_of(labels[i], x_min, x_max, available_space, padding_left));
        i += 1;
    }
    let width: u64 = padding_left as u64 + available_space as u64;
    proof {
        assert(rows_of(texts@) =~= drawn_texts(
            labels@,
            x_min as int,
            x_max as int,
            decimals as nat,
            available_space as int,
            unit@,
        ));
        assert(ints_of(positions@) =~= label_positions(
            labels@,
            x_min as int,
            x_max as int,
            available_space as int,
            padding_left as int,
        ));
    }
    draw_labels(&texts, &positions, width, vertical)
}

/// No text that a label is drawn with is empty or starts with a blank.
pub proof fn lemma_drawn_texts_start_with_sign_or_digit(
    labels: Seq<i64>,
    x_min: int,
    x_max: int,
    decimals: nat,
    available_space: int,
    unit: Seq<char>,
)
    ensures
        forall|k: int|
            0 <= k < labels.len() ==> {
                let text = #[trigger] drawn_texts(
                    labels,
                    x_min,
                    x_max,
                    decimals,
                    available_space,
                    unit,
                )[k];
                text.len() > 0 && text[0] != ' '
            },
{
    let digits = shortest_digits(labels, decimals, shift_limit(x_min, x_max, available_space));
    let texts = drawn_texts(labels, x_min, x_max, decimals, available_space, unit);
    assert forall|k: int| 0 <= k < labels.len() implies {
        let text = #[trigger] texts[k];
        text.len() > 0 && text[0] != ' '
    } by {
        let number = float_text(labels[k] as int, decimals, digits);
        crate::text::lemma_text_starts_with_sign_or_digit(
            rounded_units(labels[k] as int, decimals, digits),
            digits,
            true,
        );
        assert(label_texts(labels, decimals, digits)[k] == number);
        assert(texts[k] == number + unit);
        assert(texts[k][0] == number[0]);
    }
}

/// A value of a unit of `10^-30` or finer rounds to zero at ten digits or
/// fewer, and rounding moves it by its whole magnitude.
proof fn lemma_fine_value_rounds_to_zero(x: i64, decimals: nat, digits: nat)
    requires
        decimals >= 30,
        digits <= 10,
    ensures
        rounded_units(x as int, decimals, digits) == 0,
        rounding_shift(x as int, decimals, digits) == abs(x as int),
{
    let unit = pow10((decimals - digits) as nat);
    lemma_rounds_to_zero(abs(x as int), (decimals - digits) as nat);
    assert(0 * unit == 0) by (nonlinear_arith);
}

/// Labels of a unit of `10^-30` or finer have the same texts at ten digits or
/// fewer, whatever the unit is.
proof fn lemma_fine_labels_have_one_text(labels: Seq<i64>, fine: nat, finer: nat, digits: nat)
    requires
        fine >= 30,
        finer >= 30,
        digits <= 10,
    ensures
        label_texts(labels, fine, digits) == label_texts(labels, finer, digits),
        forall|limit: Rational|
            shift_exceeds(labels, fine, digits, limit) == shift_exceeds(
                labels,
                finer,
                digits,
                limit,
            ),
{
    assert forall|i: int| 0 <= i < labels.len() implies float_text(labels[i] as int, fine, digits)
        == float_text(labels[i] as int, finer, digits) && rounding_shift(
        labels[i] as int,
        fine,
        digits,
    ) == rounding_shift(labels[i] as int, finer, digits) by {
        lemma_fine_value_rounds_to_zero(labels[i], fine, digits);
        lemma_fine_value_rounds_to_zero(labels[i], finer, digits);
    }
    assert(label_texts(labels, fine, digits) =~= label_texts(labels, finer, digits));
    assert forall|limit: Rational|
        shift_exceeds(labels, fine, digits, limit) == shift_exceeds(
            labels,
            finer,
            digits,
            limit,
        ) by {
        if shift_exceeds(labels, fine, digits, limit) {
            let i = choose|i: int|
                0 <= i < labels.len() && limit.lt(
                    Rational::whole(#[trigger] rounding_shift(labels[i] as int, fine, digits)),
                );
            assert(limit.lt(Rational::whole(rounding_shift(labels[i] as int, finer, digits))));
        }
        if shift_exceeds(labels, finer, digits, limit) {
            let i = choose|i: int|
                0 <= i < labels.len() && limit.lt(
                    Rational::whole(#[trigger] rounding_shift(labels[i] as int, finer, digits)),
                );
            assert(limit.lt(Rational::whole(rounding_shift(labels[i] as int, fine, digits))));
        }
    }
}

/// Labels of a unit of `10^-30` or finer are told apart at the same number
/// of digits, whatever the unit is.
proof fn lemma_fine_labels_are_told_apart_alike(
    labels: Seq<i64>,
    fine: nat,
    finer: nat,
    from: nat,
)
    requires
        fine >= 30,
        finer >= 30,
    ensures
        distinguishing_digits(labels, fine, from) == distinguishing_digits(labels, finer, from),
    decreases 10 - from,
{
    if from < 10 {
        lemma_fine_labels_have_one_text(labels, fine, finer, from);
        lemma_fine_labels_are_told_apart_alike(labels, fine, finer, from + 1);
    }
}

/// Where the unit is `10^-30` or finer the labels are drawn with the same
/// texts, whatever the unit is: every label is zero at each number of digits
/// that is tried.
pub proof fn lemma_fine_units_draw_alike(
    labels: Seq<i64>,
    x_min: int,
    x_max: int,
    fine: nat,
    finer: nat,
    available_space: int,
    unit: Seq<char>,
)
    requires
        fine >= 30,
        finer >= 30,
    ensures
        drawn_texts(labels, x_min, x_max, fine, available_space, unit) == drawn_texts(
            labels,
            x_min,
            x_max,
            finer,
            available_space,
            unit,
        ),
{
    let limit = shift_limit(x_min, x_max, available_space);
    lemma_fine_labels_are_told_apart_alike(labels, fine, finer, 0);
    let told = distinguishing_digits(labels, fine, 0);
    if told < 10 {
        lemma_fine_labels_have_one_text(labels, fine, finer, told);
    }
    let digits = shortest_digits(labels, fine, limit);
    assert(digits == shortest_digits(labels, finer, limit));
    lemma_fine_labels_have_one_text(labels, fine, finer, digits);
}

/// The digits that tell the labels apart are the least that do: at that
/// number of digits the texts are pairwise distinct, and at no number before
/// it, from `from` on. It is ten only where no number below ten tells them
/// apart.
pub proof fn lemma_distinguishing_digits_are_least(labels: Seq<i64>, decimals: nat, from: nat)
    requires
        from <= 10,
    ensures
        from <= distinguishing_digits(labels, decimals, from) <= 10,
        distinguishing_digits(labels, decimals, from) < 10 ==> all_distinct(
            label_texts(labels, decimals, distinguishing_digits(labels, decimals, from)),
        ),
        forall|digits: nat|
            from <= digits < distinguishing_digits(labels, decimals, from) ==> !all_distinct(
                #[trigger] label_texts(labels, decimals, digits),
            ),
    decreases 10 - from,
{
    if from < 10 && !all_distinct(label_texts(labels, decimals, from)) {
        lemma_distinguishing_digits_are_least(labels, decimals, from + 1);
    }
}

} // verus!
