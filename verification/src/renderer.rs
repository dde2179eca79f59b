//! A plain rendering of labels: no separators, no unit, no padding, each
//! label written to end before its cell.
use crate::layout::{blank_canvas, blank_row, chars_of, is_blank, overwrite, push_row};
use crate::ratio::floor_div;
use crate::rendering::{all_distinct, texts_of, vec_is_unique};
use crate::text::{format_number, rounded_units, signed_text};
use vstd::prelude::*;

verus! {

/// The text of `units / 10^digits` with exactly `digits` digits after the
/// decimal point and nothing between the digits of the whole part.
pub open spec fn plain_number_text(units: int, digits: nat) -> Seq<char> {
    signed_text(units, digits, false)
}

/// The plain text of the value `x / 10^decimals` rounded to `digits` digits
/// after the decimal point.
pub open spec fn plain_float_text(x: int, decimals: nat, digits: nat) -> Seq<char> {
    plain_number_text(rounded_units(x, decimals, digits), digits)
}

/// The plain text of each label, rounded to `digits` digits.
pub open spec fn plain_label_texts(labels: Seq<i64>, decimals: nat, digits: nat) -> Seq<Seq<char>> {
    Seq::new(labels.len(), |i: int| plain_float_text(labels[i] as int, decimals, digits))
}

/// The least number of digits, from `from` upwards and below ten, at which
/// the plain texts of the labels are pairwise distinct; ten where there is
/// none.
pub open spec fn plain_distinguishing_digits(labels: Seq<i64>, decimals: nat, from: nat) -> nat
    decreases 10 - from,
{
    if from >= 10 {
        10
    } else if all_distinct(plain_label_texts(labels, decimals, from)) {
        from
    } else {
        plain_distinguishing_digits(labels, decimals, from + 1)
    }
}

/// The number of digits that the plain labels are shown with: the least at
/// which they are pairwise distinct, nine where no number below ten tells
/// them apart.
pub open spec fn plain_digits(labels: Seq<i64>, decimals: nat) -> nat {
    let digits = plain_distinguishing_digits(labels, decimals, 0);
    if digits >= 10 {
        9
    } else {
        digits
    }
}

/// The cell at which a plain label ends: the share of the axis that lies
/// before the label, in whole cells.
pub open spec fn plain_position(label: int, x_min: int, x_max: int, available_space: int) -> int {
    available_space * (label - x_min) / (x_max - x_min)
}

/// The cell of each plain label.
pub open spec fn plain_positions(labels: Seq<i64>, x_min: int, x_max: int, available_space: int) -> Seq<
    int,
> {
    Seq::new(
        labels.len(),
        |i: int| plain_position(labels[i] as int, x_min, x_max, available_space),
    )
}

/// Whether the text can be written to end before the cell `end`: it starts
/// on the row, it ends before the last cell, and its cells are blank.
pub open spec fn can_stamp(row: Seq<char>, text: Seq<char>, end: int) -> bool {
    &&& 0 <= end - text.len()
    &&& end < row.len()
    &&& is_blank(row, end - text.len(), end)
}

/// The row after the attempt to write the text so that it ends before the
/// cell `end`.
pub open spec fn stamp(row: Seq<char>, text: Seq<char>, end: int) -> Seq<char> {
    if can_stamp(row, text, end) {
        overwrite(row, end - text.len(), text)
    } else {
        row
    }
}

/// The row after the first `n` plain labels were tried in turn.
pub open spec fn plain_row(texts: Seq<Seq<char>>, positions: Seq<int>, width: nat, n: nat) -> Seq<
    char,
>
    decreases n,
{
    if n == 0 {
        blank_row(width)
    } else {
        stamp(plain_row(texts, positions, width, (n - 1) as nat), texts[n - 1], positions[n - 1])
    }
}

/// Whether the plain label of index `i` is written: whether it could be
/// written on what the labels before it left.
pub open spec fn is_stamped(texts: Seq<Seq<char>>, positions: Seq<int>, width: nat, i: int) -> bool {
    can_stamp(plain_row(texts, positions, width, i as nat), texts[i], positions[i])
}

/// Whether some plain label among the first `n` is not written.
pub open spec fn some_unstamped(texts: Seq<Seq<char>>, positions: Seq<int>, width: nat, n: int) -> bool {
    exists|i: int| 0 <= i < n && !#[trigger] is_stamped(texts, positions, width, i)
}

/// The number of cells of a row of `available_space` cells: none where the
/// space is negative.
pub open spec fn plain_width(available_space: int) -> nat {
    if available_space > 0 {
        available_space as nat
    } else {
        0
    }
}

/// Format the value `x / 10^decimals` with `nr_digits` digits after the
/// decimal point.
pub fn format_float(x: i64, decimals: u32, nr_digits: usize) -> (text: String)
    ensures
        text@ == plain_float_text(x as int, decimals as nat, nr_digits as nat),
{
    format_number(x, decimals, nr_digits, false)
}

/// Whether the strings are pairwise distinct.
pub fn vec_unique(vector: &Vec<String>) -> (unique: bool)
    ensures
        unique == all_distinct(texts_of(vector@)),
{
    vec_is_unique(vector)
}

/// Each label formatted with `nr_digits` digits after the decimal point.
fn format_all(labels: &Vec<i64>, decimals: u32, nr_digits: usize) -> (texts: Vec<String>)
    ensures
        texts_of(texts@) == plain_label_texts(labels@, decimals as nat, nr_digits as nat),
{
    let mut texts: Vec<String> = Vec::new();
    let mut i: usize = 0;
    while i < labels.len()
        invariant
            i <= labels.len(),
            texts.len() == i,
            forall|k: int|
                0 <= k < i ==> texts[k]@ == plain_float_text(
                    labels[k] as int,
                    decimals as nat,
                    nr_digits as nat,
                ),
        decreases labels.len() - i,
    {
        texts.push(format_float(labels[i], decimals, nr_digits));
        i += 1;
    }
    proof {
        assert(texts_of(texts@) =~= plain_label_texts(labels@, decimals as nat, nr_digits as nat));
    }
    texts
}

/// This finds the lowest number of digits where the labels are unique.
pub fn find_shortest_string_representation(labels: &Vec<i64>, decimals: u32) -> (texts: Vec<String>)
    ensures
        texts_of(texts@) == plain_label_texts(
            labels@,
            decimals as nat,
            plain_digits(labels@, decimals as nat),
        ),
{
    let mut nr_digits: usize = 0;
    while nr_digits < 10
        invariant
            nr_digits <= 10,
            plain_distinguishing_digits(labels@, decimals as nat, 0) == plain_distinguishing_digits(
                labels@,
                decimals as nat,
                nr_digits as nat,
            ),
        decreases 10 - nr_digits,
    {
        let texts = format_all(labels, decimals, nr_digits);
        if vec_unique(&texts) {
            return texts;
        }
        nr_digits += 1;
    }
    format_all(labels, decimals, 9)
}

/// Try to write the text on the canvas so that it ends before the cell
/// `end`.
#[verifier::loop_isolation(false)]
fn stamp_text(canvas: &mut Vec<char>, text: &Vec<char>, end: i128) -> (written: bool)
    requires
        -0x1_0000_0000_0000_0000_0000_0000_0000 < end < 0x1_0000_0000_0000_0000_0000_0000_0000,
    ensures
        written == can_stamp(old(canvas)@, text@, end as int),
        final(canvas)@ == stamp(old(canvas)@, text@, end as int),
{
    let ghost row = canvas@;
    let width: i128 = canvas.len() as i128;
    let len: i128 = text.len() as i128;
    let offset: i128 = end - len;
    if offset < 0 || end >= width {
        return false;
    }
    let first: usize = offset as usize;
    let mut t: usize = 0;
    while t < text.len()
        invariant
            t <= text.len(),
            canvas@ == row,
            is_blank(row, first as int, first + t),
        decreases text.len() - t,
    {
        if canvas[first + t] != ' ' {
            proof {
                assert(row[first + t] != ' ');
            }
            return false;
        }
        t += 1;
    }
    let mut t: usize = 0;
    while t < text.len()
        invariant
            t <= text.len(),
            canvas@.len() == row.len(),
            forall|k: int|
                0 <= k < row.len() ==> canvas@[k] == if first <= k < first + t {
                    text@[k - first]
                } else {
                    row[k]
                },
        decreases text.len() - t,
    {
        canvas.set(first + t, text[t]);
        t += 1;
    }
    proof {
        assert(canvas@ =~= overwrite(row, offset as int, text@));
    }
    true
}

/// The cell at which the plain label ends.
fn position_of(label: i64, x_min: i64, x_max: i64, available_space: i32) -> (position: i128)
    requires
        x_min < x_max,
    ensures
        position == plain_position(
            label as int,
            x_min as int,
            x_max as int,
            available_space as int,
        ),
        -0x1_0000_0000_0000_0000_0000_0000_0000 < position < 0x1_0000_0000_0000_0000_0000_0000_0000,
{
    let width: i128 = x_max as i128 - x_min as i128;
    let offset: i128 = label as i128 - x_min as i128;
    let cells: i128 = available_space as i128;
    proof {
        assert(-0x8000_0000 * 0x1_0000_0000_0000_0000 <= cells * offset <= 0x8000_0000
            * 0x1_0000_0000_0000_0000) by (nonlinear_arith)
            requires
                -0x8000_0000 <= cells <= 0x8000_0000,
                -0x1_0000_0000_0000_0000 <= offset <= 0x1_0000_0000_0000_0000,
        ;
    }
    let scaled: i128 = cells * offset;
    let (quotient, rest) = floor_div(scaled, width);
    proof {
        crate::rendering::lemma_quotient_bound(
            scaled as int,
            width as int,
            quotient as int,
            rest as int,
        );
    }
    quotient
}

/// Render the labels into a row of `available_space` cells, each label
/// ending before the cell that its value has on the axis from `x_min` to
/// `x_max`, and say whether a label had to be left out. All values are in
/// units of `10^-decimals`.
pub fn render(labels: &Vec<i64>, x_min: i64, x_max: i64, decimals: u32, available_space: i32) -> (result:
    (String, bool))
    requires
        x_min < x_max,
    ensures
        result.0@ == plain_row(
            plain_label_texts(labels@, decimals as nat, plain_digits(labels@, decimals as nat)),
            plain_positions(labels@, x_min as int, x_max as int, available_space as int),
            plain_width(available_space as int),
            labels.len() as nat,
        ),
        result.1 == some_unstamped(
            plain_label_texts(labels@, decimals as nat, plain_digits(labels@, decimals as nat)),
            plain_positions(labels@, x_min as int, x_max as int, available_space as int),
            plain_width(available_space as int),
            labels.len() as int,
        ),
{
    let ghost texts = plain_label_texts(
        labels@,
        decimals as nat,
        plain_digits(labels@, decimals as nat),
    );
    let ghost positions = plain_positions(
        labels@,
        x_min as int,
        x_max as int,
        available_space as int,
    );
    let ghost width = plain_width(available_space as int);
    let cells: u64 = if available_space > 0 {
        available_space as u64
    } else {
        0
    };
    let mut canvas = blank_canvas(cells);
    let mut found_overlap = false;
    let label_strs = find_shortest_string_representation(labels, decimals);
    assert(texts_of(label_strs@).len() == texts.len());
    let mut i: usize = 0;
    while i < labels.len()
        invariant
            x_min < x_max,
            i <= labels.len(),
            label_strs.len() == labels.len(),
            texts_of(label_strs@) == texts,
            positions == plain_positions(
                labels@,
                x_min as int,
                x_max as int,
                available_space as int,
            ),
            canvas@ == plain_row(texts, positions, width, i as nat),
            found_overlap == some_unstamped(texts, positions, width, i as int),
        decreases labels.len() - i,
    {
        let text = chars_of(&label_strs[i]);
        let end = position_of(labels[i], x_min, x_max, available_space);
        proof {
            assert(texts_of(label_strs@)[i as int] == label_strs[i as int]@);
            assert(positions[i as int] == end);
        }
        let written = stamp_text(&mut canvas, &text, end);
        if !written {
            found_overlap = true;
        }
        proof {
            assert(written == is_stamped(texts, positions, width, i as int));
            if some_unstamped(texts, positions, width, i as int) {
                let k = choose|k: int|
                    0 <= k < i && !#[trigger] is_stamped(texts, positions, width, k);
                assert(0 <= k < i + 1 && !is_stamped(texts, positions, width, k));
            }
            if some_unstamped(texts, positions, width, i + 1) {
                let k = choose|k: int|
                    0 <= k < i + 1 && !#[trigger] is_stamped(texts, positions, width, k);
                if k < i {
                    assert(some_unstamped(texts, positions, width, i as int));
                }
            }
        }
        i += 1;
    }
    let mut out = String::new();
    push_row(&mut out, &canvas);
    (out, found_overlap)
}

} // verus!
