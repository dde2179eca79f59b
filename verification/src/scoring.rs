//! The scores of a set of labels: simplicity, coverage and density, and
//! their weighted sum with the alignment.
use crate::decimal::abs;
use crate::ratio::{Ratio, Rational};
use vstd::prelude::*;

verus! {

/// The largest magnitude of a label or an axis bound that the coverage score
/// is computed for: the squares of the distances between such values fit in
/// 128 bits.
pub const MAX_COORDINATE: i64 = 1_000_000_000_000_000_000;

/// The largest magnitude of a weighted term of the overall score: four such
/// terms, each multiplied by its weight, add up within 128 bits.
pub const MAX_TERM: i128 = 0x03ff_ffff_ffff_ffff_ffff_ffff_ffff_ffff;

/// The preferred number of labels for an axis of `available_space` cells:
/// one label per 15 cells when the labels run along the axis, one per 5.6
/// cells when they are rotated, kept between 2 and 20.
pub open spec fn preferred_number_of_labels(available_space: int, vertical_direction: bool) -> int {
    let raw = if vertical_direction {
        available_space * 10 / 56
    } else {
        available_space / 15
    };
    if raw < 2 {
        2
    } else if raw > 20 {
        20
    } else {
        raw
    }
}

/// Compute an estimate for the preferred number of labels.
pub fn compute_preferred_number_of_labels(available_space: u32, vertical_direction: bool) -> (count:
    i32)
    ensures
        count == preferred_number_of_labels(available_space as int, vertical_direction),
        2 <= count <= 20,
{
    let space: u64 = available_space as u64;
    let raw: u64 = if vertical_direction {
        space * 10 / 56
    } else {
        space / 15
    };
    if raw < 2 {
        2
    } else if raw > 20 {
        20
    } else {
        raw as i32
    }
}

/// The simplicity of the nice number of index `i`, taken with the skip amount
/// `j`, out of `q_len` nice numbers: `1 - i / (q_len - 1) - (j - 1)`, over the
/// denominator `q_len - 1`.
pub open spec fn simplicity_score(i: int, j: int, q_len: int) -> Rational {
    Rational { num: (q_len - 1) - i - (j - 1) * (q_len - 1), den: q_len - 1 }
}

/// Simplicity score according to Talbot.
/// `i` is the index of the nice values, starting with 0. `j` is the skip amount, starting with 1.
/// `q_len` is the length of the list of nice values.
pub fn compute_simplicity_score(_labels: &Vec<i64>, i: i32, j: i32, q_len: usize) -> (score: Ratio)
    requires
        q_len > 1,
    ensures
        score@ == simplicity_score(i as int, j as int, q_len as int),
        score.wf(),
{
    let den: i128 = q_len as i128 - 1;
    let skip: i128 = j as i128 - 1;
    proof {
        assert(-0x8000_0001 * 0x1_0000_0000_0000_0000 <= skip * den <= 0x8000_0000
            * 0x1_0000_0000_0000_0000) by (nonlinear_arith)
            requires
                -0x8000_0001 <= skip <= 0x8000_0000,
                0 < den < 0x1_0000_0000_0000_0000,
        ;
    }
    Ratio { num: den - i as i128 - skip * den, den }
}

/// The coverage of the axis `[x_min, x_max]` by the labels:
/// `1 - 5 * ((x_max - last)^2 + (x_min - first)^2) / (x_max - x_min)^2`, over
/// the denominator `(x_max - x_min)^2`; zero for fewer than two labels.
pub open spec fn coverage_score(labels: Seq<i64>, x_min: int, x_max: int) -> Rational {
    if labels.len() < 2 {
        Rational::whole(0)
    } else {
        let width = x_max - x_min;
        let after = x_max - labels.last();
        let before = x_min - labels.first();
        Rational {
            num: width * width - 5 * (after * after + before * before),
            den: width * width,
        }
    }
}

/// Whether `x` is a value that the coverage score is computed for.
pub open spec fn is_coordinate(x: int) -> bool {
    -MAX_COORDINATE <= x <= MAX_COORDINATE
}

/// The square of a distance between two coordinates fits well within 128
/// bits.
proof fn lemma_square_bound(x: int)
    requires
        -2 * MAX_COORDINATE <= x <= 2 * MAX_COORDINATE,
    ensures
        0 <= x * x <= 4_000_000_000_000_000_000_000_000_000_000_000_000,
        x != 0 ==> x * x > 0,
{
    assert(0 <= x * x <= 4_000_000_000_000_000_000_000_000_000_000_000_000) by (nonlinear_arith)
        requires
            -2_000_000_000_000_000_000 <= x <= 2_000_000_000_000_000_000,
    ;
    assert(x != 0 ==> x * x > 0) by (nonlinear_arith);
}

/// Coverage score according to Talbot.
pub fn compute_coverage_score(labels: &Vec<i64>, x_min: i64, x_max: i64) -> (score: Ratio)
    requires
        x_min < x_max,
        is_coordinate(x_min as int),
        is_coordinate(x_max as int),
        labels.len() >= 2 ==> is_coordinate(labels@.first() as int) && is_coordinate(
            labels@.last() as int,
        ),
    ensures
        score@ == coverage_score(labels@, x_min as int, x_max as int),
        score.wf(),
{
    if labels.len() < 2 {
        return Ratio::whole(0);
    }
    let width: i128 = x_max as i128 - x_min as i128;
    let after: i128 = x_max as i128 - labels[labels.len() - 1] as i128;
    let before: i128 = x_min as i128 - labels[0] as i128;
    proof {
        lemma_square_bound(width as int);
        lemma_square_bound(after as int);
        lemma_square_bound(before as int);
    }
    let square: i128 = width * width;
    Ratio { num: square - 5 * (after * after + before * before), den: square }
}

/// The density of `n` labels where `p` are preferred: `1 - max(n / p, p / n)`.
/// The larger of the two quotients is that of the larger count by the
/// smaller, so the score stands over the smaller count.
pub open spec fn density_score(n: int, p: int) -> Rational {
    if n <= p {
        Rational { num: n - p, den: n }
    } else {
        Rational { num: p - n, den: p }
    }
}

/// Density score according to Talbot.
pub fn compute_density_score(labels: &Vec<i64>, preferred_nr: i32) -> (score: Ratio)
    requires
        labels.len() > 0,
        preferred_nr > 0,
    ensures
        score@ == density_score(labels.len() as int, preferred_nr as int),
        score.wf(),
{
    let n: i128 = labels.len() as i128;
    let p: i128 = preferred_nr as i128;
    if n <= p {
        Ratio { num: n - p, den: n }
    } else {
        Ratio { num: p - n, den: p }
    }
}

/// The weighted sum `0.4 * simplicity + 0.25 * coverage + 0.3 * density +
/// 0.2 * alignment`, over twenty times the product of the four denominators.
pub open spec fn weighted_sum(
    simplicity: Rational,
    coverage: Rational,
    density: Rational,
    alignment: Rational,
) -> Rational {
    Rational {
        num: 8 * (simplicity.num * (coverage.den * density.den * alignment.den)) + 5 * (coverage.num
            * (simplicity.den * density.den * alignment.den)) + 6 * (density.num * (simplicity.den
            * coverage.den * alignment.den)) + 4 * (alignment.num * (simplicity.den * coverage.den
            * density.den)),
        den: 20 * (simplicity.den * coverage.den * density.den * alignment.den),
    }
}

/// Whether the weighted sum of the four scores can be formed in 128 bits:
/// the common denominator fits, and so does each score brought to it.
pub open spec fn weighted_sum_fits(
    simplicity: Rational,
    coverage: Rational,
    density: Rational,
    alignment: Rational,
) -> bool {
    &&& simplicity.wf() && coverage.wf() && density.wf() && alignment.wf()
    &&& simplicity.den * coverage.den * density.den * alignment.den <= MAX_TERM
    &&& abs(simplicity.num * (coverage.den * density.den * alignment.den)) <= MAX_TERM
    &&& abs(coverage.num * (simplicity.den * density.den * alignment.den)) <= MAX_TERM
    &&& abs(density.num * (simplicity.den * coverage.den * alignment.den)) <= MAX_TERM
    &&& abs(alignment.num * (simplicity.den * coverage.den * density.den)) <= MAX_TERM
}

/// A product of positive factors is at least each product of some of them.
proof fn lemma_partial_products(a: int, b: int, c: int, d: int)
    requires
        a >= 1,
        b >= 1,
        c >= 1,
        d >= 1,
    ensures
        1 <= a * b <= a * b * c <= a * b * c * d,
        1 <= b * c <= b * c * d <= a * b * c * d,
        1 <= a * c <= a * c * d <= a * b * c * d,
        1 <= a * b <= a * b * d <= a * b * c * d,
{
    assert(1 <= a * b) by (nonlinear_arith)
        requires
            a >= 1,
            b >= 1,
    ;
    assert(1 <= b * c) by (nonlinear_arith)
        requires
            b >= 1,
            c >= 1,
    ;
    assert(1 <= a * c) by (nonlinear_arith)
        requires
            a >= 1,
            c >= 1,
    ;
    assert(a * b <= a * b * c) by (nonlinear_arith)
        requires
            a * b >= 1,
            c >= 1,
    ;
    assert(a * b <= a * b * d) by (nonlinear_arith)
        requires
            a * b >= 1,
            d >= 1,
    ;
    assert(a * b * c <= a * b * c * d) by (nonlinear_arith)
        requires
            a * b * c >= 1,
            d >= 1,
    ;
    assert(b * c <= b * c * d) by (nonlinear_arith)
        requires
            b * c >= 1,
            d >= 1,
    ;
    assert(a * c <= a * c * d) by (nonlinear_arith)
        requires
            a * c >= 1,
            d >= 1,
    ;
    assert(b * c * d <= a * b * c * d) by (nonlinear_arith)
        requires
            b * c * d >= 1,
            a >= 1,
    ;
    assert(a * c * d <= a * b * c * d) by (nonlinear_arith)
        requires
            a * c * d >= 1,
            b >= 1,
    ;
    assert(a * b * d <= a * b * c * d) by (nonlinear_arith)
        requires
            a * b * d >= 1,
            c >= 1,
    ;
}

/// Compute full score of labels based on properties
pub fn overall_score(simplicity: Ratio, coverage: Ratio, density: Ratio, alignment: Ratio) -> (score:
    Ratio)
    requires
        weighted_sum_fits(simplicity@, coverage@, density@, alignment@),
    ensures
        score@ == weighted_sum(simplicity@, coverage@, density@, alignment@),
        score.wf(),
{
    let sd: i128 = simplicity.den;
    let cd: i128 = coverage.den;
    let dd: i128 = density.den;
    let ad: i128 = alignment.den;
    proof {
        lemma_partial_products(sd as int, cd as int, dd as int, ad as int);
        lemma_partial_products(cd as int, dd as int, ad as int, sd as int);
        assert(cd * dd * ad * sd == sd * cd * dd * ad) by (nonlinear_arith);
        assert(sd * dd * ad == sd * dd * ad);
    }
    let cda: i128 = cd * dd * ad;
    let sda: i128 = sd * dd * ad;
    let sca: i128 = sd * cd * ad;
    let scd: i128 = sd * cd * dd;
    let all: i128 = scd * ad;
    let first: i128 = simplicity.num * cda;
    let second: i128 = coverage.num * sda;
    let third: i128 = density.num * sca;
    let fourth: i128 = alignment.num * scd;
    Ratio { num: 8 * first + 5 * second + 6 * third + 4 * fourth, den: 20 * all }
}

/// Compute upper bound to full score of labels based on partial properties
pub fn upper_bound_on_overall_score(simplicity: Ratio, coverage: Ratio, density: Ratio) -> (score:
    Ratio)
    requires
        weighted_sum_fits(simplicity@, coverage@, density@, Rational::whole(1)),
    ensures
        score@ == weighted_sum(simplicity@, coverage@, density@, Rational::whole(1)),
        score.wf(),
{
    overall_score(simplicity, coverage, density, Ratio::whole(1))
}

/// The overall score never exceeds its upper bound, whatever alignment
/// between zero and one it is computed with.
pub proof fn lemma_upper_bound_is_admissible(
    simplicity: Rational,
    coverage: Rational,
    density: Rational,
    alignment: Rational,
)
    requires
        simplicity.wf(),
        coverage.wf(),
        density.wf(),
        alignment.wf(),
        alignment.num <= alignment.den,
    ensures
        weighted_sum(simplicity, coverage, density, alignment).le(
            weighted_sum(simplicity, coverage, density, Rational::whole(1)),
        ),
{
    let sd = simplicity.den;
    let cd = coverage.den;
    let dd = density.den;
    let ad = alignment.den;
    let an = alignment.num;
    let sn = simplicity.num;
    let cn = coverage.num;
    let dn = density.num;
    let k = sd * cd * dd;
    let x = 8 * (sn * (cd * dd)) + 5 * (cn * (sd * dd)) + 6 * (dn * (sd * cd));
    let with = weighted_sum(simplicity, coverage, density, alignment);
    let bound = weighted_sum(simplicity, coverage, density, Rational::whole(1));
    lemma_partial_products(sd, cd, dd, ad);
    assert(with.num == x * ad + 4 * (an * k)) by (nonlinear_arith)
        requires
            with.num == 8 * (sn * (cd * dd * ad)) + 5 * (cn * (sd * dd * ad)) + 6 * (dn * (sd * cd
                * ad)) + 4 * (an * (sd * cd * dd)),
            x == 8 * (sn * (cd * dd)) + 5 * (cn * (sd * dd)) + 6 * (dn * (sd * cd)),
            k == sd * cd * dd,
    ;
    assert(bound.num == x + 4 * k) by (nonlinear_arith)
        requires
            bound.num == 8 * (sn * (cd * dd * 1)) + 5 * (cn * (sd * dd * 1)) + 6 * (dn * (sd * cd
                * 1)) + 4 * (1 * (sd * cd * dd)),
            x == 8 * (sn * (cd * dd)) + 5 * (cn * (sd * dd)) + 6 * (dn * (sd * cd)),
            k == sd * cd * dd,
    ;
    assert(with.den == 20 * (k * ad));
    assert(bound.den == 20 * k) by (nonlinear_arith)
        requires
            bound.den == 20 * (sd * cd * dd * 1),
            k == sd * cd * dd,
    ;
    assert((x * ad + 4 * (an * k)) * (20 * k) <= (x + 4 * k) * (20 * (k * ad))) by (nonlinear_arith)
        requires
            k >= 1,
            ad >= 1,
            an <= ad,
    {
        assert(an * k <= ad * k);
        assert((x * ad + 4 * (an * k)) <= (x * ad + 4 * (ad * k)));
        assert((x * ad + 4 * (ad * k)) * (20 * k) == (x + 4 * k) * (20 * (k * ad)));
    }
}

/// The density score is greatest, and zero, where the number of labels is
/// the preferred one.
pub proof fn lemma_density_is_greatest_at_preferred(n: int, p: int)
    requires
        n > 0,
        p > 0,
    ensures
        density_score(p, p) == (Rational { num: 0, den: p }),
        density_score(n, p).le(density_score(p, p)),
        n != p ==> density_score(n, p).lt(density_score(p, p)),
{
    let here = density_score(n, p);
    assert(here.num * p <= 0 * here.den) by (nonlinear_arith)
        requires
            here.num <= 0,
            p > 0,
    ;
    if n != p {
        assert(here.num * p < 0 * here.den) by (nonlinear_arith)
            requires
                here.num < 0,
                p > 0,
        ;
    }
}

/// The simplicity score of the first nice number with no skipping is one.
pub proof fn lemma_simplicity_of_first_choice(q_len: int)
    requires
        q_len > 1,
    ensures
        simplicity_score(0, 1, q_len).eqv(Rational::whole(1)),
{
    assert(0 * (q_len - 1) == 0) by (nonlinear_arith);
}

} // verus!
