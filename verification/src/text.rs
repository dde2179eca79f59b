//! The text of a fixed-point number, and the number that a text shows.
use crate::decimal::{
    abs, lemma_pow10_adds, lemma_pow10_increases, lemma_pow10_positive, lemma_pow10_values,
    lemma_round_half_even_nat_near, pow10, power_of_ten, round_half_even, round_half_even_nat,
    round_magnitude,
};
use vstd::prelude::*;

verus! {

/// `String::push` of the standard library appends the one character to the
/// end of the string and leaves the characters before it as they were.
pub assume_specification[ String::push ](text: &mut String, c: char)
    ensures
        final(text)@ == old(text)@.push(c),
;

/// The character of the decimal digit `d`.
pub open spec fn digit_char(d: int) -> char {
    if d == 0 {
        '0'
    } else if d == 1 {
        '1'
    } else if d == 2 {
        '2'
    } else if d == 3 {
        '3'
    } else if d == 4 {
        '4'
    } else if d == 5 {
        '5'
    } else if d == 6 {
        '6'
    } else if d == 7 {
        '7'
    } else if d == 8 {
        '8'
    } else {
        '9'
    }
}

/// The decimal digits of `n`, the most significant first, without leading
/// zeros; the one digit `0` for zero.
pub open spec fn digits_of(n: nat) -> Seq<char>
    decreases n,
{
    if n < 10 {
        seq![digit_char(n as int)]
    } else {
        digits_of(n / 10).push(digit_char((n % 10) as int))
    }
}

/// The last `width` decimal digits of `n`, the most significant first, with
/// leading zeros where `n` has fewer.
pub open spec fn zero_padded(n: nat, width: nat) -> Seq<char>
    decreases width,
{
    if width == 0 {
        Seq::empty()
    } else {
        zero_padded(n / 10, (width - 1) as nat).push(digit_char((n % 10) as int))
    }
}

/// `width` zeros.
pub open spec fn zeros(width: nat) -> Seq<char> {
    Seq::new(width, |i: int| '0')
}

/// The decimal digits of `n` in groups of three from the right, the groups
/// joined by commas.
pub open spec fn grouped_digits(n: nat) -> Seq<char>
    decreases n,
{
    if n < 1000 {
        digits_of(n)
    } else {
        grouped_digits(n / 1000) + seq![','] + zero_padded(n % 1000, 3)
    }
}

/// The digits of the whole number `n`: in groups of three where `grouped`,
/// one after the other where not.
pub open spec fn whole_text(n: nat, grouped: bool) -> Seq<char> {
    if grouped {
        grouped_digits(n)
    } else {
        digits_of(n)
    }
}

/// The decimal point and the last `digits` digits of `magnitude`; nothing
/// where no digit is asked for.
pub open spec fn fraction_text(magnitude: nat, digits: nat) -> Seq<char> {
    if digits == 0 {
        Seq::empty()
    } else {
        seq!['.'] + zero_padded(magnitude, digits)
    }
}

/// The text of `units / 10^digits` with exactly `digits` digits after the
/// decimal point: a minus sign where the number is below zero, the whole
/// part, and, where there are digits after it, the decimal point and those
/// digits.
pub open spec fn signed_text(units: int, digits: nat, grouped: bool) -> Seq<char> {
    let sign = if units < 0 {
        seq!['-']
    } else {
        Seq::empty()
    };
    sign + whole_text((abs(units) / pow10(digits)) as nat, grouped) + fraction_text(
        abs(units) as nat,
        digits,
    )
}

/// The text of `units / 10^digits` with exactly `digits` digits after the
/// decimal point and the whole part in groups of three.
pub open spec fn number_text(units: int, digits: nat) -> Seq<char> {
    signed_text(units, digits, true)
}

/// The value `x / 10^decimals` rounded to `digits` digits after the decimal
/// point, counted in units of `10^-digits`. A tie goes to the even neighbour.
pub open spec fn rounded_units(x: int, decimals: nat, digits: nat) -> int {
    if digits >= decimals {
        x * pow10((digits - decimals) as nat)
    } else {
        round_half_even(x, pow10((decimals - digits) as nat))
    }
}

/// The text of the value `x / 10^decimals` rounded to `digits` digits after
/// the decimal point.
pub open spec fn float_text(x: int, decimals: nat, digits: nat) -> Seq<char> {
    number_text(rounded_units(x, decimals, digits), digits)
}

/// How far rounding to `digits` digits after the decimal point moves the
/// value `x / 10^decimals`, in units of `10^-decimals`.
pub open spec fn rounding_shift(x: int, decimals: nat, digits: nat) -> int {
    if digits >= decimals {
        0
    } else {
        let unit = pow10((decimals - digits) as nat);
        abs(x - round_half_even(x, unit) * unit)
    }
}

fn digit(d: u8) -> (c: char)
    requires
        d < 10,
    ensures
        c == digit_char(d as int),
{
    match d {
        0 => '0',
        1 => '1',
        2 => '2',
        3 => '3',
        4 => '4',
        5 => '5',
        6 => '6',
        7 => '7',
        8 => '8',
        _ => '9',
    }
}

pub(crate) fn push_digits(text: &mut String, n: u128)
    ensures
        final(text)@ == old(text)@ + digits_of(n as nat),
    decreases n,
{
    if n >= 10 {
        push_digits(text, n / 10);
    }
    text.push(digit((n % 10) as u8));
    proof {
        if n >= 10 {
            assert(text@ =~= old(text)@ + digits_of(n as nat));
        } else {
            assert(text@ =~= old(text)@ + digits_of(n as nat));
        }
    }
}

pub(crate) fn push_zero_padded(text: &mut String, n: u128, width: usize)
    ensures
        final(text)@ == old(text)@ + zero_padded(n as nat, width as nat),
    decreases width,
{
    if width > 0 {
        push_zero_padded(text, n / 10, width - 1);
        text.push(digit((n % 10) as u8));
    }
    proof {
        assert(text@ =~= old(text)@ + zero_padded(n as nat, width as nat));
    }
}

fn push_grouped_digits(text: &mut String, n: u128)
    ensures
        final(text)@ == old(text)@ + grouped_digits(n as nat),
    decreases n,
{
    if n < 1000 {
        push_digits(text, n);
    } else {
        push_grouped_digits(text, n / 1000);
        text.push(',');
        push_zero_padded(text, n % 1000, 3);
        proof {
            assert(text@ =~= old(text)@ + grouped_digits(n as nat));
        }
    }
}

/// The magnitude of `x`.
pub(crate) fn magnitude(x: i64) -> (m: u128)
    ensures
        m == abs(x as int),
        m <= 0x8000_0000_0000_0000,
{
    if x >= 0 {
        x as u128
    } else {
        (-(x as i128)) as u128
    }
}

/// A value of 64 bits divided by a power of ten with twenty or more zeros
/// rounds to zero.
pub(crate) proof fn lemma_rounds_to_zero(m: int, e: nat)
    requires
        0 <= m <= 0x8000_0000_0000_0000,
        e >= 20,
    ensures
        round_half_even_nat(m, pow10(e)) == 0,
        m % pow10(e) == m,
        pow10(e) >= 100_000_000_000_000_000_000,
{
    lemma_pow10_increases(20, e);
    lemma_pow10_values();
    vstd::arithmetic::div_mod::lemma_basic_div(m, pow10(e));
    vstd::arithmetic::div_mod::lemma_small_mod(m as nat, pow10(e) as nat);
}

/// The last digits of a number split in two: the last `high + low` digits
/// are the last `high` digits of what stands before the last `low`, followed
/// by the last `low`.
proof fn lemma_zero_padded_splits(n: nat, high: nat, low: nat)
    ensures
        zero_padded(n, high + low) == zero_padded((n as int / pow10(low)) as nat, high)
            + zero_padded(n, low),
    decreases low,
{
    lemma_pow10_positive(low);
    if low == 0 {
        assert(zero_padded(n, high) + Seq::<char>::empty() =~= zero_padded(n, high));
    } else {
        let shorter = (low - 1) as nat;
        let c = digit_char((n % 10) as int);
        let front = zero_padded((n as int / pow10(low)) as nat, high);
        lemma_pow10_positive(shorter);
        lemma_zero_padded_splits(n / 10, high, shorter);
        vstd::arithmetic::div_mod::lemma_div_denominator(n as int, 10, pow10(shorter));
        vstd::arithmetic::div_mod::lemma_div_pos_is_pos(n as int, pow10(low));
        assert((high + low - 1) as nat == high + shorter);
        assert((front + zero_padded(n / 10, shorter)).push(c) =~= front + zero_padded(
            n / 10,
            shorter,
        ).push(c));
    }
}

/// The last digits of zero are zeros.
proof fn lemma_zero_padded_of_zero(width: nat)
    ensures
        zero_padded(0, width) == zeros(width),
    decreases width,
{
    if width > 0 {
        lemma_zero_padded_of_zero((width - 1) as nat);
        assert(zeros((width - 1) as nat).push('0') =~= zeros(width));
    } else {
        assert(zero_padded(0, width) =~= zeros(width));
    }
}

/// The last `width` digits of a multiple of `10^width` are zeros.
proof fn lemma_zero_padded_of_multiple(m: nat, width: nat)
    ensures
        zero_padded((m * pow10(width)) as nat, width) == zeros(width),
        m * pow10(width) >= 0,
        (m * pow10(width)) / pow10(width) == m,
    decreases width,
{
    lemma_pow10_positive(width);
    assert(m * pow10(width) >= 0) by (nonlinear_arith)
        requires
            m >= 0,
            pow10(width) >= 1,
    ;
    vstd::arithmetic::div_mod::lemma_div_multiples_vanish(m as int, pow10(width));
    assert(pow10(width) * m == m * pow10(width)) by (nonlinear_arith);
    if width > 0 {
        let shorter = (width - 1) as nat;
        lemma_zero_padded_of_multiple(m, shorter);
        assert(m * pow10(width) == 10 * (m * pow10(shorter))) by (nonlinear_arith)
            requires
                pow10(width) == 10 * pow10(shorter),
        ;
        assert(zeros(shorter).push('0') =~= zeros(width));
    } else {
        assert(zero_padded((m * pow10(width)) as nat, width) =~= zeros(width));
    }
}

/// Zeros at the end of a number and as many digits more after the decimal
/// point leave the whole part as it is.
proof fn lemma_scaled_quotient(m: nat, places: nat, trailing: nat)
    ensures
        (m * pow10(trailing)) / pow10(places + trailing) == m as int / pow10(places),
{
    let scale = pow10(trailing);
    lemma_pow10_positive(trailing);
    lemma_pow10_positive(places);
    lemma_pow10_adds(places, trailing);
    lemma_zero_padded_of_multiple(m, trailing);
    vstd::arithmetic::div_mod::lemma_div_denominator(m * scale, scale, pow10(places));
    assert(scale * pow10(places) == pow10(places) * scale) by (nonlinear_arith);
}

/// Append `count` zeros to the text.
fn push_zeros(text: &mut String, count: usize)
    ensures
        final(text)@ == old(text)@ + zeros(count as nat),
{
    let mut i: usize = 0;
    while i < count
        invariant
            i <= count,
            text@ =~= old(text)@ + zeros(i as nat),
        decreases count - i,
    {
        text.push('0');
        i += 1;
    }
}

/// The whole part of `m / 10^places`.
fn whole_part(m: u128, places: usize) -> (whole: u128)
    requires
        m <= 0x8000_0000_0000_0000,
    ensures
        whole == m as int / pow10(places as nat),
{
    if places > 20 {
        proof {
            lemma_rounds_to_zero(m as int, places as nat);
            vstd::arithmetic::div_mod::lemma_basic_div(m as int, pow10(places as nat));
        }
        0
    } else {
        proof {
            lemma_pow10_positive(places as nat);
        }
        m / power_of_ten(places as u32)
    }
}

/// Append the decimal point and the digits after it of `m / 10^places`,
/// followed by `trailing` zeros; nothing where that is no digit at all.
fn push_fraction(text: &mut String, m: u128, places: usize, trailing: usize)
    requires
        m <= 0x8000_0000_0000_0000,
        places + trailing <= usize::MAX,
    ensures
        final(text)@ == old(text)@ + fraction_text(
            (m * pow10(trailing as nat)) as nat,
            (places + trailing) as nat,
        ),
{
    let ghost scaled = (m * pow10(trailing as nat)) as nat;
    proof {
        lemma_zero_padded_of_multiple(m as nat, trailing as nat);
        lemma_zero_padded_splits(scaled, places as nat, trailing as nat);
    }
    if places == 0 && trailing == 0 {
        proof {
            assert(text@ =~= old(text)@ + Seq::<char>::empty());
        }
        return ;
    }
    text.push('.');
    if places > 20 {
        proof {
            lemma_zero_padded_splits(m as nat, (places - 20) as nat, 20);
            lemma_pow10_values();
            lemma_zero_padded_of_zero((places - 20) as nat);
        }
        push_zeros(text, places - 20);
        push_zero_padded(text, m, 20);
    } else {
        push_zero_padded(text, m, places);
    }
    push_zeros(text, trailing);
    proof {
        assert(text@ =~= old(text)@ + fraction_text(scaled, (places + trailing) as nat));
    }
}

/// The text of the value `x / 10^decimals` with `nr_digits` digits after the
/// decimal point, the whole part in groups of three where `grouped`.
pub(crate) fn format_number(x: i64, decimals: u32, nr_digits: usize, grouped: bool) -> (text: String)
    ensures
        text@ == signed_text(
            rounded_units(x as int, decimals as nat, nr_digits as nat),
            nr_digits as nat,
            grouped,
        ),
{
    let m: u128 = magnitude(x);
    let ghost units = rounded_units(x as int, decimals as nat, nr_digits as nat);
    let mut text = String::new();
    if nr_digits < decimals as usize {
        let dropped: u32 = decimals - nr_digits as u32;
        let rounded: u128 = if dropped >= 20 {
            proof {
                lemma_rounds_to_zero(m as int, dropped as nat);
            }
            0
        } else {
            let unit: u128 = power_of_ten(dropped);
            proof {
                lemma_pow10_positive(dropped as nat);
                lemma_pow10_increases(1, dropped as nat);
                assert(pow10(1) == 10) by {
                    lemma_pow10_values();
                }
                lemma_round_half_even_nat_near(m as int, unit as int);
                vstd::arithmetic::div_mod::lemma_div_is_ordered_by_denominator(
                    m as int,
                    10,
                    unit as int,
                );
            }
            round_magnitude(m, unit)
        };
        proof {
            assert(abs(units) == rounded);
            assert(units < 0 <==> x < 0 && rounded > 0);
            assert(pow10(0) == 1);
            assert(rounded * 1 == rounded);
        }
        if x < 0 && rounded > 0 {
            text.push('-');
        }
        let whole = whole_part(rounded, nr_digits);
        if grouped {
            push_grouped_digits(&mut text, whole);
        } else {
            push_digits(&mut text, whole);
        }
        push_fraction(&mut text, rounded, nr_digits, 0);
    } else {
        let trailing: usize = nr_digits - decimals as usize;
        let ghost scale = pow10(trailing as nat);
        proof {
            lemma_pow10_positive(trailing as nat);
            lemma_scaled_quotient(m as nat, decimals as nat, trailing as nat);
            assert((-(x as int)) * scale == -((x as int) * scale)) by (nonlinear_arith);
            assert(x > 0 ==> (x as int) * scale > 0) by (nonlinear_arith)
                requires
                    scale >= 1,
            ;
            assert(x == 0 ==> (x as int) * scale == 0) by (nonlinear_arith);
            assert(x < 0 ==> (x as int) * scale < 0) by (nonlinear_arith)
                requires
                    scale >= 1,
            ;
            assert(abs(units) == m * scale);
            assert(units < 0 <==> x < 0);
        }
        if x < 0 {
            text.push('-');
        }
        let whole = whole_part(m, decimals as usize);
        if grouped {
            push_grouped_digits(&mut text, whole);
        } else {
            push_digits(&mut text, whole);
        }
        push_fraction(&mut text, m, decimals as usize, trailing);
    }
    proof {
        assert(text@ =~= signed_text(units, nr_digits as nat, grouped));
    }
    text
}

/// The digit that a character stands for; none where it is no decimal
/// digit.
pub open spec fn digit_value(c: char) -> Option<int> {
    if c == '0' {
        Some(0)
    } else if c == '1' {
        Some(1)
    } else if c == '2' {
        Some(2)
    } else if c == '3' {
        Some(3)
    } else if c == '4' {
        Some(4)
    } else if c == '5' {
        Some(5)
    } else if c == '6' {
        Some(6)
    } else if c == '7' {
        Some(7)
    } else if c == '8' {
        Some(8)
    } else if c == '9' {
        Some(9)
    } else {
        None
    }
}

/// The whole number that the digits of a text make when they are read in
/// turn, whatever stands between them.
pub open spec fn digits_value(text: Seq<char>) -> int
    decreases text.len(),
{
    if text.len() == 0 {
        0
    } else {
        let before = digits_value(text.drop_last());
        match digit_value(text.last()) {
            Some(d) => before * 10 + d,
            None => before,
        }
    }
}

/// The number that a text shows, counted in units of its last digit: its
/// digits read as one whole number, below zero where the text starts with a
/// minus sign.
pub open spec fn shown_units(text: Seq<char>) -> int {
    if text.len() > 0 && text[0] == '-' {
        -digits_value(text.drop_first())
    } else {
        digits_value(text)
    }
}

/// A character at the end of a text adds its digit to the value, and nothing
/// where it is no digit.
proof fn lemma_digits_value_push(text: Seq<char>, c: char)
    ensures
        digits_value(text.push(c)) == match digit_value(c) {
            Some(d) => digits_value(text) * 10 + d,
            None => digits_value(text),
        },
{
    assert(text.push(c).drop_last() =~= text);
    assert(text.push(c).last() == c);
}

/// The digits of a number, padded with zeros to a width, shift what stands
/// before them by the width and add the number, as far as the width holds
/// it.
proof fn lemma_value_of_zero_padded(before: Seq<char>, n: nat, width: nat)
    ensures
        digits_value(before + zero_padded(n, width)) == digits_value(before) * pow10(width) + n
            % (pow10(width) as nat),
    decreases width,
{
    lemma_pow10_positive(width);
    if width == 0 {
        assert(before + zero_padded(n, width) =~= before);
        assert(digits_value(before) * 1 == digits_value(before)) by (nonlinear_arith);
    } else {
        let shorter = (width - 1) as nat;
        let power = pow10(shorter);
        let head = before + zero_padded(n / 10, shorter);
        let c = digit_char((n % 10) as int);
        lemma_pow10_positive(shorter);
        lemma_value_of_zero_padded(before, n / 10, shorter);
        lemma_digits_value_push(head, c);
        assert(before + zero_padded(n, width) =~= head.push(c));
        assert(digit_value(c) == Some((n % 10) as int));
        vstd::arithmetic::div_mod::lemma_mod_breakdown(n as int, 10, power);
        let value = digits_value(before);
        let middle = ((n / 10) % (power as nat)) as int;
        let last = (n % 10) as int;
        assert((value * power + middle) * 10 + last == value * (10 * power) + (10 * middle + last))
            by (nonlinear_arith);
    }
}

/// The digits of a number read back as the number.
proof fn lemma_value_of_digits(n: nat)
    ensures
        digits_value(digits_of(n)) == n,
        digits_of(n).len() > 0,
        digit_value(digits_of(n)[0]) is Some,
    decreases n,
{
    let c = digit_char((n % 10) as int);
    assert(digit_value(c) == Some((n % 10) as int));
    if n < 10 {
        lemma_digits_value_push(Seq::empty(), c);
        assert(Seq::<char>::empty().push(c) =~= digits_of(n));
        assert(digits_value(Seq::<char>::empty()) == 0);
    } else {
        lemma_value_of_digits(n / 10);
        lemma_digits_value_push(digits_of(n / 10), c);
    }
}

/// The grouped digits of a number read back as the number.
proof fn lemma_value_of_grouped_digits(n: nat)
    ensures
        digits_value(grouped_digits(n)) == n,
        grouped_digits(n).len() > 0,
        digit_value(grouped_digits(n)[0]) is Some,
    decreases n,
{
    if n < 1000 {
        lemma_value_of_digits(n);
    } else {
        let head = grouped_digits(n / 1000);
        lemma_value_of_grouped_digits(n / 1000);
        lemma_digits_value_push(head, ',');
        lemma_value_of_zero_padded(head.push(','), n % 1000, 3);
        lemma_pow10_values();
        assert(head + seq![','] =~= head.push(','));
        assert(grouped_digits(n)[0] == head[0]);
    }
}

/// The text of a number reads back as the number.
pub proof fn lemma_text_shows_its_number(units: int, digits: nat, grouped: bool)
    ensures
        shown_units(signed_text(units, digits, grouped)) == units,
{
    let power = pow10(digits);
    lemma_pow10_positive(digits);
    let whole = (abs(units) / power) as nat;
    vstd::arithmetic::div_mod::lemma_fundamental_div_mod(abs(units), power);
    vstd::arithmetic::div_mod::lemma_mod_bound(abs(units), power);
    vstd::arithmetic::div_mod::lemma_div_pos_is_pos(abs(units), power);
    lemma_value_of_grouped_digits(whole);
    lemma_value_of_digits(whole);
    let head = whole_text(whole, grouped);
    let body = head + fraction_text(abs(units) as nat, digits);
    assert(digits_value(body) == abs(units)) by {
        if digits == 0 {
            assert(power == 1);
            assert(body =~= head);
        } else {
            lemma_digits_value_push(head, '.');
            lemma_value_of_zero_padded(head.push('.'), abs(units) as nat, digits);
            assert(body =~= head.push('.') + zero_padded(abs(units) as nat, digits));
            assert(whole * power == power * whole) by (nonlinear_arith);
        }
    }
    assert(body[0] == head[0]);
    if units < 0 {
        let text = seq!['-'] + body;
        assert(signed_text(units, digits, grouped) =~= text);
        assert(text.drop_first() =~= body);
    } else {
        assert(signed_text(units, digits, grouped) =~= body);
    }
}

/// The text of a value reads back as the value rounded, and two values have
/// one text only where they round to one number.
pub proof fn lemma_text_shows_rounded_value(x: int, y: int, decimals: nat, digits: nat)
    ensures
        shown_units(float_text(x, decimals, digits)) == rounded_units(x, decimals, digits),
        float_text(x, decimals, digits) == float_text(y, decimals, digits) <==> rounded_units(
            x,
            decimals,
            digits,
        ) == rounded_units(y, decimals, digits),
{
    lemma_text_shows_its_number(rounded_units(x, decimals, digits), digits, true);
    lemma_text_shows_its_number(rounded_units(y, decimals, digits), digits, true);
}

/// Formatting is idempotent: the number that a text shows, formatted with
/// the digits of the text, gives the text again.
pub proof fn lemma_format_is_idempotent(x: int, decimals: nat, digits: nat)
    ensures
        float_text(shown_units(float_text(x, decimals, digits)), digits, digits) == float_text(
            x,
            decimals,
            digits,
        ),
{
    let units = rounded_units(x, decimals, digits);
    lemma_text_shows_its_number(units, digits, true);
    assert(pow10(0) == 1);
    assert(units * 1 == units);
}

/// The text of a number starts with its minus sign or with its first
/// digit.
pub proof fn lemma_text_starts_with_sign_or_digit(units: int, digits: nat, grouped: bool)
    ensures
        signed_text(units, digits, grouped).len() > 0,
        signed_text(units, digits, grouped)[0] == '-' || digit_value(
            signed_text(units, digits, grouped)[0],
        ) is Some,
{
    let whole = (abs(units) / pow10(digits)) as nat;
    lemma_value_of_grouped_digits(whole);
    lemma_value_of_digits(whole);
    let head = whole_text(whole, grouped);
    let body = head + fraction_text(abs(units) as nat, digits);
    assert(body[0] == head[0]);
    if units < 0 {
        assert(signed_text(units, digits, grouped) =~= seq!['-'] + body);
    } else {
        assert(signed_text(units, digits, grouped) =~= body);
    }
}

} // verus!
