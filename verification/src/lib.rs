//! Labels for a numeric axis that is drawn in character cells.
//!
//! The labels are chosen among evenly spaced candidates by a score of their
//! simplicity, coverage, density and alignment, and rendered into a grid of
//! fixed width in which no two of them meet. All values are fixed-point
//! numbers: whole numbers of a unit `10^-decimals`. Every step, every score
//! and every rounding is exact.
use vstd::prelude::*;

pub mod decimal;
pub mod layout;
pub mod ratio;
pub mod renderer;
pub mod rendering;
pub mod scoring;
pub mod search;
pub mod text;
pub mod utils;

use crate::ratio::Ratio;
use crate::rendering::{lemma_fine_units_draw_alike, render};
use crate::scoring::{
    compute_coverage_score, compute_density_score, compute_preferred_number_of_labels,
    compute_simplicity_score, overall_score, upper_bound_on_overall_score,
};
use crate::search::{
    axis_of, candidate_ticks, largest_power_of_ten, lemma_first_fine_candidate_is_scoreable,
    lemma_pruned_candidate_is_no_better, lemma_scores_fit, CANDIDATES, MAX_MAGNITUDE,
    NICE_NUMBERS,
};

verus! {

/// Why no labels were made.
#[derive(Debug, Clone, Copy, PartialEq, Eq, Structural)]
pub enum Error {
    /// The axis has no cells, or its upper bound is not above its lower
    /// bound.
    InvalidRange,
    /// No candidate step puts two labels on the axis.
    NoLabelsFit,
}

/// Choose the labels of the axis from `x_min` to `x_max` and render them
/// into a grid of `padding_left + available_space` cells in a row. Both
/// bounds are counted in units of `10^-decimals`.
///
/// Every candidate step is tried: the two finest powers of ten that the range
/// spans, each with the skip amounts one to nine and with the six nice
/// numbers. The labels of a candidate are scored by their simplicity, their
/// coverage of the axis, their density and their alignment, and the grid of
/// the first candidate with the greatest score is returned. A candidate whose
/// score cannot exceed the best one so far is not rendered.
pub fn float_axis_labels(
    x_min: i64,
    x_max: i64,
    decimals: u32,
    available_space: u32,
    padding_left: u32,
    vertical: bool,
    unit: &String,
) -> (result: Result<String, Error>)
    requires
        -MAX_MAGNITUDE <= x_min <= MAX_MAGNITUDE,
        -MAX_MAGNITUDE <= x_max <= MAX_MAGNITUDE,
    ensures
        available_space == 0 || x_max <= x_min <==> result == Err::<String, Error>(
            Error::InvalidRange,
        ),
        available_space > 0 && x_min < x_max ==> {
            let axis = axis_of(
                x_min,
                x_max,
                decimals,
                available_space,
                padding_left,
                vertical,
                unit@,
            );
            &&& axis.best(CANDIDATES as nat) is Some
            &&& result is Ok
            &&& result->Ok_0@ == axis.text(axis.best(CANDIDATES as nat)->0)
            &&& !vertical ==> result->Ok_0@.len() == padding_left + available_space
        },
{
    if available_space == 0 || x_max <= x_min {
        return Err(Error::InvalidRange);
    }
    let range: i64 = x_max - x_min;
    let (factor, extra): (i64, u32) = if range < 10 {
        (100, 2)
    } else if range < 100 {
        (10, 1)
    } else {
        (1, 0)
    };
    let lo: i64 = x_min * factor;
    let hi: i64 = x_max * factor;
    let grid_decimals: u32 = if decimals <= u32::MAX - extra {
        decimals + extra
    } else {
        u32::MAX
    };
    let ghost axis = axis_of(
        x_min,
        x_max,
        decimals,
        available_space,
        padding_left,
        vertical,
        unit@,
    );
    assert(axis.wf() && axis.lo == lo && axis.hi == hi);
    let magnitude: i64 = largest_power_of_ten(hi - lo);
    let preferred: i32 = compute_preferred_number_of_labels(available_space, vertical);
    let mut found: bool = false;
    let mut best_score: Ratio = Ratio::whole(0);
    let mut best_text: String = String::new();
    let mut c: usize = 0;
    while c < CANDIDATES
        invariant
            c <= CANDIDATES,
            axis.wf(),
            axis.lo == lo,
            axis.hi == hi,
            axis.decimals == grid_decimals || (axis.decimals >= 30 && grid_decimals >= 30),
            axis.available_space == available_space,
            axis.padding_left == padding_left,
            axis.vertical == vertical,
            axis.unit == unit@,
            magnitude == search::power_of_ten_below(hi - lo),
            preferred == axis.preferred(),
            found == (axis.best(c as nat) is Some),
            best_score.wf(),
            found ==> {
                let b = axis.best(c as nat)->0;
                &&& 0 <= b < c
                &&& axis.is_scoreable(b)
                &&& best_score@ == axis.score(b)
                &&& best_text@ == axis.text(b)
            },
            c > 54 ==> found,
        decreases CANDIDATES - c,
    {
        let ticks = candidate_ticks(lo, hi, magnitude, c, Ghost(axis));
        proof {
            if c == 54 {
                lemma_first_fine_candidate_is_scoreable(axis);
            }
        }
        if ticks.len() >= 2 {
            proof {
                lemma_scores_fit(axis, c as int);
            }
            let simplicity = compute_simplicity_score(
                &ticks,
                (c % NICE_NUMBERS) as i32,
                ((c % 54) / NICE_NUMBERS + 1) as i32,
                NICE_NUMBERS,
            );
            let coverage = compute_coverage_score(&ticks, lo, hi);
            let density = compute_density_score(&ticks, preferred);
            let score_upper_bound = upper_bound_on_overall_score(simplicity, coverage, density);
            if found && score_upper_bound.lt(&best_score) {
                proof {
                    lemma_pruned_candidate_is_no_better(axis, c as int, best_score@);
                }
            } else {
                let (text, grid_overlap) = render(
                    &ticks,
                    lo,
                    hi,
                    grid_decimals,
                    available_space,
                    padding_left,
                    vertical,
                    unit,
                );
                proof {
                    if axis.decimals != grid_decimals {
                        lemma_fine_units_draw_alike(
                            ticks@,
                            lo as int,
                            hi as int,
                            grid_decimals as nat,
                            axis.decimals,
                            available_space as int,
                            unit@,
                        );
                    }
                }
                let grid_alignment = if grid_overlap {
                    Ratio::whole(0)
                } else {
                    Ratio::whole(1)
                };
                let score = overall_score(simplicity, coverage, density, grid_alignment);
                if !found || best_score.lt(&score) {
                    best_score = score;
                    best_text = text;
                    found = true;
                }
            }
        }
        c += 1;
    }
    proof {
        let b = axis.best(CANDIDATES as nat)->0;
        crate::layout::lemma_rendered_width(axis.texts(b), axis.positions(b), axis.cells());
    }
    if found {
        Ok(best_text)
    } else {
        Err(Error::NoLabelsFit)
    }
}

} // verus!
