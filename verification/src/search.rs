//! The candidates of the search for the best labels, their scores, and the
//! best of them.
use crate::ratio::{lemma_le_lt_transitive, Rational};
use crate::layout::{rendered_text, some_dropped};
use crate::rendering::{drawn_texts, label_positions};
use crate::scoring::{
    coverage_score, density_score, lemma_upper_bound_is_admissible,
    preferred_number_of_labels, simplicity_score, weighted_sum, weighted_sum_fits,
};
use crate::utils::{lemma_linspace_values, lemma_tick_count_bounds, linspace, linspace_values};
use vstd::prelude::*;

verus! {

/// The largest magnitude of an axis bound, counted in units of
/// `10^-decimals`: fifteen digits, as many as a 64-bit float keeps.
pub const MAX_MAGNITUDE: i64 = 1_000_000_000_000_000;

/// The number of nice numbers.
pub const NICE_NUMBERS: usize = 6;

/// The number of candidate steps: two powers of ten, nine skip amounts and
/// six nice numbers.
pub const CANDIDATES: usize = 108;

/// Ten times the nice number of index `i`. The nice numbers are 1, 5, 2, 2.5,
/// 4 and 3, the simplest first.
pub open spec fn nice_tenths(i: int) -> int {
    if i == 0 {
        10
    } else if i == 1 {
        50
    } else if i == 2 {
        20
    } else if i == 3 {
        25
    } else if i == 4 {
        40
    } else {
        30
    }
}

/// The largest power of ten that is not above `range`: ten to the power
/// `floor(log10(range))`.
pub open spec fn power_of_ten_below(range: int) -> int
    decreases range,
{
    if range < 10 {
        1
    } else {
        10 * power_of_ten_below(range / 10)
    }
}

/// The factor by which a short range is enlarged, so that a hundredth of the
/// power of ten below it is a whole number.
pub open spec fn zoom(range: int) -> int {
    if range < 10 {
        100
    } else if range < 100 {
        10
    } else {
        1
    }
}

/// The digits after the decimal point that the enlargement adds.
pub open spec fn zoom_decimals(range: int) -> nat {
    if range < 10 {
        2
    } else if range < 100 {
        1
    } else {
        0
    }
}

/// An axis as the search sees it: its bounds `lo` and `hi` on a grid of
/// `10^-decimals` on which every candidate label is a whole number, the cells
/// it is drawn in, and how its labels are drawn.
pub struct Axis {
    pub lo: i64,
    pub hi: i64,
    pub decimals: nat,
    pub available_space: int,
    pub padding_left: int,
    pub vertical: bool,
    pub unit: Seq<char>,
}

/// The axis from `x_min` to `x_max`, both in units of `10^-decimals`,
/// brought to the grid of its candidate labels.
pub open spec fn axis_of(
    x_min: i64,
    x_max: i64,
    decimals: u32,
    available_space: u32,
    padding_left: u32,
    vertical: bool,
    unit: Seq<char>,
) -> Axis {
    Axis {
        lo: (x_min * zoom(x_max - x_min)) as i64,
        hi: (x_max * zoom(x_max - x_min)) as i64,
        decimals: decimals as nat + zoom_decimals(x_max - x_min),
        available_space: available_space as int,
        padding_left: padding_left as int,
        vertical,
        unit,
    }
}

impl Axis {
    /// The bounds are within the magnitude that the search is made for, the
    /// range spans at least a hundred units of the grid, and the axis has
    /// cells.
    pub open spec fn wf(self) -> bool {
        &&& -100 * MAX_MAGNITUDE <= self.lo
        &&& self.hi <= 100 * MAX_MAGNITUDE
        &&& 100 <= self.hi - self.lo <= 2 * MAX_MAGNITUDE
        &&& 0 < self.available_space <= u32::MAX
        &&& 0 <= self.padding_left <= u32::MAX
    }

    /// The length of the axis.
    pub open spec fn width(self) -> int {
        self.hi - self.lo
    }

    /// The number of cells of the grid that is drawn.
    pub open spec fn cells(self) -> nat {
        (self.padding_left + self.available_space) as nat
    }

    /// The preferred number of labels.
    pub open spec fn preferred(self) -> int {
        preferred_number_of_labels(self.available_space, self.vertical)
    }

    /// The index of the nice number of candidate `c`.
    pub open spec fn nice_index(c: int) -> int {
        c % 6
    }

    /// The skip amount of candidate `c`.
    pub open spec fn skip(c: int) -> int {
        (c % 54) / 6 + 1
    }

    /// A tenth of the power of ten that candidate `c` steps by: the first 54
    /// candidates take the power of ten below the range, the others the next
    /// finer one.
    pub open spec fn tenth(self, c: int) -> int {
        if c < 54 {
            power_of_ten_below(self.width()) / 10
        } else {
            power_of_ten_below(self.width()) / 100
        }
    }

    /// The step of candidate `c`: its nice number times its skip amount
    /// times its power of ten.
    pub open spec fn step(self, c: int) -> int {
        nice_tenths(Self::nice_index(c)) * Self::skip(c) * self.tenth(c)
    }

    /// Where the labels of candidate `c` are counted from: the largest
    /// multiple of ten times its power of ten that is not above the lower
    /// bound.
    pub open spec fn start(self, c: int) -> int {
        (self.lo as int) / (100 * self.tenth(c)) * (100 * self.tenth(c))
    }

    /// The labels of candidate `c`.
    pub open spec fn ticks(self, c: int) -> Seq<i64> {
        linspace_values(self.start(c) as i64, self.lo, self.hi, self.step(c) as i64)
    }

    /// Whether candidate `c` has the two labels that a scale needs.
    pub open spec fn is_scoreable(self, c: int) -> bool {
        self.ticks(c).len() >= 2
    }

    /// The texts of the labels of candidate `c`.
    pub open spec fn texts(self, c: int) -> Seq<Seq<char>> {
        drawn_texts(
            self.ticks(c),
            self.lo as int,
            self.hi as int,
            self.decimals,
            self.available_space,
            self.unit,
        )
    }

    /// The cells of the labels of candidate `c`.
    pub open spec fn positions(self, c: int) -> Seq<int> {
        label_positions(
            self.ticks(c),
            self.lo as int,
            self.hi as int,
            self.available_space,
            self.padding_left,
        )
    }

    /// The grid of candidate `c`.
    pub open spec fn text(self, c: int) -> Seq<char> {
        rendered_text(self.texts(c), self.positions(c), self.cells(), self.vertical)
    }

    /// Whether a label of candidate `c` is left out of its grid.
    pub open spec fn overlaps(self, c: int) -> bool {
        some_dropped(
            self.texts(c),
            self.positions(c),
            self.cells(),
            self.vertical,
            self.ticks(c).len() as int,
        )
    }

    /// The alignment of candidate `c`: one where every label is drawn, zero
    /// where one is left out.
    pub open spec fn alignment(self, c: int) -> Rational {
        if self.overlaps(c) {
            Rational::whole(0)
        } else {
            Rational::whole(1)
        }
    }

    /// The overall score of candidate `c` with the given alignment.
    pub open spec fn score_with(self, c: int, alignment: Rational) -> Rational {
        weighted_sum(
            simplicity_score(Self::nice_index(c), Self::skip(c), 6),
            coverage_score(self.ticks(c), self.lo as int, self.hi as int),
            density_score(self.ticks(c).len() as int, self.preferred()),
            alignment,
        )
    }

    /// The overall score of candidate `c`.
    pub open spec fn score(self, c: int) -> Rational {
        self.score_with(c, self.alignment(c))
    }

    /// The most that candidate `c` can score: its score with a perfect
    /// alignment.
    pub open spec fn upper_bound(self, c: int) -> Rational {
        self.score_with(c, Rational::whole(1))
    }

    /// The best of the first `n` candidates: the first of those with at
    /// least two labels whose score no other of them exceeds. None where none
    /// of them has two labels.
    pub open spec fn best(self, n: nat) -> Option<int>
        decreases n,
    {
        if n == 0 {
            None
        } else {
            let c = n - 1;
            let before = self.best(c as nat);
            if !self.is_scoreable(c) {
                before
            } else {
                match before {
                    None => Some(c),
                    Some(b) => if self.score(b).lt(self.score(c)) {
                        Some(c)
                    } else {
                        Some(b)
                    },
                }
            }
        }
    }
}

/// The power of ten below a range is at most the range and more than a tenth
/// of it, and it is a multiple of ten and of a hundred where the range is at
/// least that.
pub proof fn lemma_power_of_ten_below(range: int)
    requires
        range >= 1,
    ensures
        1 <= power_of_ten_below(range) <= range < 10 * power_of_ten_below(range),
        range >= 10 ==> power_of_ten_below(range) / 10 * 10 == power_of_ten_below(range),
        range >= 100 ==> power_of_ten_below(range) / 100 * 100 == power_of_ten_below(range),
    decreases range,
{
    if range >= 10 {
        lemma_power_of_ten_below(range / 10);
    }
}

/// The largest power of ten that is not above `range`.
pub fn largest_power_of_ten(range: i64) -> (power: i64)
    requires
        range >= 1,
    ensures
        power == power_of_ten_below(range as int),
    decreases range,
{
    if range < 10 {
        1
    } else {
        proof {
            lemma_power_of_ten_below(range as int / 10);
        }
        10 * largest_power_of_ten(range / 10)
    }
}

/// Ten times the nice number of index `i`.
fn nice_number_tenths(i: usize) -> (tenths: i64)
    requires
        i < NICE_NUMBERS,
    ensures
        tenths == nice_tenths(i as int),
{
    if i == 0 {
        10
    } else if i == 1 {
        50
    } else if i == 2 {
        20
    } else if i == 3 {
        25
    } else if i == 4 {
        40
    } else {
        30
    }
}

/// The step and the start of a candidate are within reach of 64 bits, the
/// step is at least a tenth of the power of ten below the range, and the
/// start is not above the lower bound.
pub proof fn lemma_candidate_bounds(axis: Axis, c: int)
    requires
        axis.wf(),
        0 <= c < CANDIDATES,
    ensures
        1 <= axis.tenth(c) <= 200_000_000_000_000,
        10 * axis.tenth(c) <= axis.step(c) <= 450 * axis.tenth(c),
        axis.width() < 1000 * axis.tenth(c),
        c >= 54 ==> axis.width() >= 100 * axis.tenth(c),
        axis.lo - 100 * axis.tenth(c) < axis.start(c) <= axis.lo,
        axis.start(c) as i64 == axis.start(c),
        axis.step(c) as i64 == axis.step(c),
{
    let power = power_of_ten_below(axis.width());
    let tenth = axis.tenth(c);
    lemma_power_of_ten_below(axis.width());
    let tenths = nice_tenths(Axis::nice_index(c));
    let skip = Axis::skip(c);
    assert(10 <= tenths <= 50);
    assert(1 <= skip <= 9);
    assert(10 <= tenths * skip <= 450) by (nonlinear_arith)
        requires
            10 <= tenths <= 50,
            1 <= skip <= 9,
    ;
    assert(10 * tenth <= (tenths * skip) * tenth <= 450 * tenth) by (nonlinear_arith)
        requires
            10 <= tenths * skip <= 450,
            tenth >= 1,
    ;
    let period = 100 * tenth;
    vstd::arithmetic::div_mod::lemma_fundamental_div_mod(axis.lo as int, period);
    vstd::arithmetic::div_mod::lemma_mod_bound(axis.lo as int, period);
    let whole = (axis.lo as int) / period;
    assert(period * whole == whole * period) by (nonlinear_arith);
}

/// The labels of candidate `c`.
pub(crate) fn candidate_ticks(lo: i64, hi: i64, magnitude: i64, c: usize, Ghost(axis): Ghost<Axis>) -> (ticks:
    Vec<i64>)
    requires
        axis.wf(),
        axis.lo == lo,
        axis.hi == hi,
        magnitude == power_of_ten_below(hi - lo),
        c < CANDIDATES,
    ensures
        ticks@ == axis.ticks(c as int),
{
    proof {
        lemma_candidate_bounds(axis, c as int);
        lemma_power_of_ten_below(axis.width());
    }
    let tenth: i64 = if c < 54 {
        magnitude / 10
    } else {
        magnitude / 100
    };
    let nice: i64 = nice_number_tenths(c % NICE_NUMBERS);
    let skip: i64 = ((c % 54) / NICE_NUMBERS + 1) as i64;
    let period: i64 = 100 * tenth;
    let (whole, rest) = crate::ratio::floor_div(lo as i128, period as i128);
    let start: i128 = whole * (period as i128);
    let ghost scaled = nice * skip;
    proof {
        assert(10 <= nice * skip <= 450) by (nonlinear_arith)
            requires
                10 <= nice <= 50,
                1 <= skip <= 9,
        ;
        assert(0 <= (nice * skip) * tenth <= 450 * tenth) by (nonlinear_arith)
            requires
                10 <= nice * skip <= 450,
                tenth >= 1,
        ;
    }
    let step: i64 = nice * skip * tenth;
    linspace(start as i64, lo, hi, step)
}

/// A candidate has at most a hundred labels, all between the bounds of the
/// axis.
pub proof fn lemma_candidate_labels(axis: Axis, c: int)
    requires
        axis.wf(),
        0 <= c < CANDIDATES,
    ensures
        axis.ticks(c).len() <= 100,
        forall|k: int|
            0 <= k < axis.ticks(c).len() ==> axis.lo <= #[trigger] axis.ticks(c)[k] < axis.hi,
{
    lemma_candidate_bounds(axis, c);
    let start = axis.start(c);
    let step = axis.step(c);
    let tenth = axis.tenth(c);
    lemma_linspace_values(start as i64, axis.lo, axis.hi, step as i64);
    lemma_tick_count_bounds(start, axis.lo as int, axis.hi as int, step);
    assert(axis.width() < step * 100);
    vstd::arithmetic::div_mod::lemma_multiply_divide_lt(axis.width(), step, 100);
}

/// The scores of a candidate with two labels can be added up in 128 bits,
/// whatever its alignment, and its coverage is computed from values within
/// reach.
pub proof fn lemma_scores_fit(axis: Axis, c: int)
    requires
        axis.wf(),
        0 <= c < CANDIDATES,
        axis.is_scoreable(c),
    ensures
        weighted_sum_fits(
            simplicity_score(Axis::nice_index(c), Axis::skip(c), 6),
            coverage_score(axis.ticks(c), axis.lo as int, axis.hi as int),
            density_score(axis.ticks(c).len() as int, axis.preferred()),
            Rational::whole(1),
        ),
        weighted_sum_fits(
            simplicity_score(Axis::nice_index(c), Axis::skip(c), 6),
            coverage_score(axis.ticks(c), axis.lo as int, axis.hi as int),
            density_score(axis.ticks(c).len() as int, axis.preferred()),
            Rational::whole(0),
        ),
        axis.lo <= axis.ticks(c).first() < axis.hi,
        axis.lo <= axis.ticks(c).last() < axis.hi,
        axis.score(c).wf(),
        axis.upper_bound(c).wf(),
        axis.score(c).le(axis.upper_bound(c)),
{
    lemma_candidate_labels(axis, c);
    let ticks = axis.ticks(c);
    let n = ticks.len() as int;
    let p = axis.preferred();
    let w = axis.width();
    let simplicity = simplicity_score(Axis::nice_index(c), Axis::skip(c), 6);
    let coverage = coverage_score(ticks, axis.lo as int, axis.hi as int);
    let density = density_score(n, p);
    let after = axis.hi - ticks.last();
    let before = axis.lo - ticks.first();
    let ww = w * w;
    assert(ticks.first() == ticks[0]);
    assert(ticks.last() == ticks[n - 1]);
    assert(0 < ww <= 4_000_000_000_000_000_000_000_000_000_000) by (nonlinear_arith)
        requires
            100 <= w <= 2_000_000_000_000_000,
            ww == w * w,
    ;
    assert(0 <= after * after <= ww) by (nonlinear_arith)
        requires
            0 <= after <= w,
            ww == w * w,
    ;
    assert(0 <= before * before <= ww) by (nonlinear_arith)
        requires
            -w <= before <= 0,
            ww == w * w,
    ;
    assert(coverage.den == ww);
    assert(-9 * ww <= coverage.num <= ww);
    assert(simplicity.den == 5);
    assert(-40 <= simplicity.num <= 5) by {
        assert((Axis::skip(c) - 1) * 5 == 5 * Axis::skip(c) - 5) by (nonlinear_arith);
    }
    assert(1 <= density.den <= 20);
    assert(-100 <= density.num <= 0);
    let dd = density.den;
    // the products of the denominators
    assert(0 < ww * dd <= 20 * ww) by (nonlinear_arith)
        requires
            1 <= dd <= 20,
            ww > 0,
    ;
    assert(ww * dd * 1 == ww * dd);
    assert(5 * dd * 1 == 5 * dd);
    assert(5 * ww * 1 == 5 * ww);
    assert(5 * ww * dd == 5 * (ww * dd)) by (nonlinear_arith);
    assert(5 * ww * dd * 1 == 5 * (ww * dd)) by (nonlinear_arith);
    assert(-800 * ww <= simplicity.num * (ww * dd) <= 100 * ww) by (nonlinear_arith)
        requires
            -40 <= simplicity.num <= 5,
            0 < ww * dd <= 20 * ww,
    ;
    assert(-900 * ww <= coverage.num * (5 * dd) <= 100 * ww) by (nonlinear_arith)
        requires
            -9 * ww <= coverage.num <= ww,
            1 <= dd <= 20,
            ww > 0,
    ;
    assert(-500 * ww <= density.num * (5 * ww) <= 0) by (nonlinear_arith)
        requires
            -100 <= density.num <= 0,
            ww > 0,
    ;
    assert(1 * (5 * ww * dd) == 5 * (ww * dd)) by (nonlinear_arith);
    assert(0 * (5 * ww * dd) == 0) by (nonlinear_arith);
    lemma_upper_bound_is_admissible(simplicity, coverage, density, axis.alignment(c));
}

/// A candidate whose upper bound is below the best score cannot replace the
/// best: its own score is below it too.
pub proof fn lemma_pruned_candidate_is_no_better(axis: Axis, c: int, best: Rational)
    requires
        axis.wf(),
        0 <= c < CANDIDATES,
        axis.is_scoreable(c),
        best.wf(),
        axis.upper_bound(c).lt(best),
    ensures
        !best.lt(axis.score(c)),
{
    lemma_scores_fit(axis, c);
    lemma_le_lt_transitive(axis.score(c), axis.upper_bound(c), best);
}

/// The candidate that steps by a tenth of the power of ten below the range
/// puts at least ten labels on the axis, so the search never ends without
/// labels.
pub proof fn lemma_first_fine_candidate_is_scoreable(axis: Axis)
    requires
        axis.wf(),
    ensures
        axis.ticks(54).len() >= 10,
        axis.is_scoreable(54),
{
    lemma_candidate_bounds(axis, 54);
    let start = axis.start(54);
    let step = axis.step(54);
    let tenth = axis.tenth(54);
    assert(nice_tenths(0) * 1 * tenth == 10 * tenth) by (nonlinear_arith);
    assert(step == 10 * tenth);
    lemma_tick_count_bounds(start, axis.lo as int, axis.hi as int, step);
    assert(axis.width() >= step * 10);
    vstd::arithmetic::div_mod::lemma_div_is_ordered(step * 10, axis.width(), step);
    vstd::arithmetic::div_mod::lemma_div_multiples_vanish(10, step);
    assert(step * 10 == 10 * step);
}

/// What the search returns is the first maximum: among the first `n`
/// candidates the best has at least two labels, no candidate with two labels
/// scores more, and each one before it scores less. There is no best only
/// where no candidate has two labels.
pub proof fn lemma_best_is_first_maximum(axis: Axis, n: nat)
    requires
        axis.wf(),
        n <= CANDIDATES,
    ensures
        axis.best(n) is None <==> forall|c: int| 0 <= c < n ==> !#[trigger] axis.is_scoreable(c),
        axis.best(n) is Some ==> {
            let b = axis.best(n)->0;
            &&& 0 <= b < n
            &&& axis.is_scoreable(b)
            &&& forall|c: int|
                0 <= c < n && #[trigger] axis.is_scoreable(c) ==> axis.score(c).le(axis.score(b))
            &&& forall|c: int|
                0 <= c < b && #[trigger] axis.is_scoreable(c) ==> axis.score(c).lt(axis.score(b))
        },
    decreases n,
{
    if n > 0 {
        let last = n - 1;
        lemma_best_is_first_maximum(axis, last as nat);
        let before = axis.best(last as nat);
        if axis.is_scoreable(last) {
            lemma_scores_fit(axis, last);
            if before is Some {
                let b = before->0;
                lemma_scores_fit(axis, b);
                if axis.score(b).lt(axis.score(last)) {
                    assert forall|c: int| 0 <= c < n && #[trigger] axis.is_scoreable(c) implies (
                    axis.score(c).le(axis.score(last)) && (c < last ==> axis.score(c).lt(
                        axis.score(last),
                    ))) by {
                        if c < last {
                            lemma_scores_fit(axis, c);
                            lemma_le_lt_transitive(
                                axis.score(c),
                                axis.score(b),
                                axis.score(last),
                            );
                        }
                    }
                } else {
                    assert(axis.score(last).le(axis.score(b)));
                }
            }
        }
    }
}

} // verus!
