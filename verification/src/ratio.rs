//! Fractions of whole numbers and their exact order.
use vstd::prelude::*;

verus! {

/// A fraction of two mathematical integers. It is the model of [`Ratio`] and
/// the currency of every score: the scores are compared exactly, never
/// rounded.
pub struct Rational {
    pub num: int,
    pub den: int,
}

impl Rational {
    /// The denominator is positive.
    pub open spec fn wf(self) -> bool {
        self.den > 0
    }

    /// `self < other`, by cross-multiplication.
    pub open spec fn lt(self, other: Rational) -> bool {
        self.num * other.den < other.num * self.den
    }

    /// `self <= other`, by cross-multiplication.
    pub open spec fn le(self, other: Rational) -> bool {
        self.num * other.den <= other.num * self.den
    }

    /// The two fractions denote the same number.
    pub open spec fn eqv(self, other: Rational) -> bool {
        self.num * other.den == other.num * self.den
    }

    /// The whole number `n`.
    pub open spec fn whole(n: int) -> Rational {
        Rational { num: n, den: 1 }
    }
}

/// A fraction of two machine integers with a positive denominator. It is not
/// kept in lowest terms.
#[derive(Clone, Copy, Debug)]
pub struct Ratio {
    pub num: i128,
    pub den: i128,
}

impl View for Ratio {
    type V = Rational;

    open spec fn view(&self) -> Rational {
        Rational { num: self.num as int, den: self.den as int }
    }
}

/// Floor division: the quotient and the remainder of `a` by a positive `b`,
/// the remainder never negative.
pub fn floor_div(a: i128, b: i128) -> (qr: (i128, i128))
    requires
        b > 0,
    ensures
        qr.0 == a / b,
        qr.1 == a % b,
        a == qr.0 * b + qr.1,
        0 <= qr.1 < b,
{
    if a >= 0 {
        let q: i128 = a / b;
        let r: i128 = a % b;
        proof {
            vstd::arithmetic::div_mod::lemma_fundamental_div_mod(a as int, b as int);
            vstd::arithmetic::div_mod::lemma_mod_bound(a as int, b as int);
            assert(q * b == b * q) by (nonlinear_arith);
        }
        (q, r)
    } else {
        let m: i128 = -(a + 1);
        let qm: i128 = m / b;
        let rm: i128 = m % b;
        proof {
            vstd::arithmetic::div_mod::lemma_fundamental_div_mod(m as int, b as int);
            vstd::arithmetic::div_mod::lemma_mod_bound(m as int, b as int);
            vstd::arithmetic::div_mod::lemma_div_pos_is_pos(m as int, b as int);
            vstd::arithmetic::div_mod::lemma_div_is_ordered_by_denominator(m as int, 1, b as int);
            vstd::arithmetic::div_mod::lemma_div_basics_3(m as int);
        }
        let q: i128 = -qm - 1;
        let r: i128 = b - 1 - rm;
        proof {
            assert(a == q * b + r) by (nonlinear_arith)
                requires
                    m == b * qm + rm,
                    m == -(a + 1),
                    q == -qm - 1,
                    r == b - 1 - rm,
            ;
            vstd::arithmetic::div_mod::lemma_fundamental_div_mod_converse(
                a as int,
                b as int,
                q as int,
                r as int,
            );
        }
        (q, r)
    }
}

/// Of two fractions with equal whole parts, the one with the smaller
/// remainder is the smaller; with different whole parts, the whole parts
/// decide.
proof fn lemma_lt_by_parts(a: int, b: int, c: int, d: int, q1: int, r1: int, q2: int, r2: int)
    requires
        b > 0,
        d > 0,
        a == q1 * b + r1,
        0 <= r1 < b,
        c == q2 * d + r2,
        0 <= r2 < d,
    ensures
        q1 < q2 ==> a * d < c * b,
        q1 > q2 ==> !(a * d < c * b),
        q1 == q2 ==> ((a * d < c * b) <==> (r1 * d < r2 * b)),
{
    assert(a * d == q1 * (b * d) + r1 * d) by (nonlinear_arith)
        requires
            a == q1 * b + r1,
    ;
    assert(c * b == q2 * (b * d) + r2 * b) by (nonlinear_arith)
        requires
            c == q2 * d + r2,
    ;
    assert(0 <= r1 * d < b * d) by (nonlinear_arith)
        requires
            0 <= r1 < b,
            d > 0,
    ;
    assert(0 <= r2 * b < b * d) by (nonlinear_arith)
        requires
            0 <= r2 < d,
            b > 0,
    ;
    if q1 < q2 {
        assert(q1 * (b * d) + (b * d) <= q2 * (b * d)) by (nonlinear_arith)
            requires
                q1 + 1 <= q2,
                b * d > 0,
        ;
    }
    if q1 > q2 {
        assert(q2 * (b * d) + (b * d) <= q1 * (b * d)) by (nonlinear_arith)
            requires
                q2 + 1 <= q1,
                b * d > 0,
        ;
    }
}

/// Whether `a / b < c / d`, decided without forming a product: first by the
/// whole parts, then, where those agree, by the reciprocals of the
/// remainders.
fn fraction_lt(a: i128, b: i128, c: i128, d: i128) -> (less: bool)
    requires
        b > 0,
        d > 0,
    ensures
        less == (a * d < c * b),
    decreases b + d,
{
    let (q1, r1) = floor_div(a, b);
    let (q2, r2) = floor_div(c, d);
    proof {
        lemma_lt_by_parts(
            a as int,
            b as int,
            c as int,
            d as int,
            q1 as int,
            r1 as int,
            q2 as int,
            r2 as int,
        );
    }
    if q1 < q2 {
        true
    } else if q1 > q2 {
        false
    } else if r2 == 0 {
        proof {
            assert(r1 * d >= 0) by (nonlinear_arith)
                requires
                    r1 >= 0,
                    d > 0,
            ;
            assert(r2 * b == 0) by (nonlinear_arith)
                requires
                    r2 == 0,
            ;
        }
        false
    } else if r1 == 0 {
        proof {
            assert(r2 * b > 0) by (nonlinear_arith)
                requires
                    r2 > 0,
                    b > 0,
            ;
            assert(r1 * d == 0) by (nonlinear_arith)
                requires
                    r1 == 0,
            ;
        }
        true
    } else {
        proof {
            assert(d * r1 == r1 * d) by (nonlinear_arith);
            assert(b * r2 == r2 * b) by (nonlinear_arith);
        }
        fraction_lt(d, r2, b, r1)
    }
}

impl Ratio {
    /// The denominator is positive.
    pub open spec fn wf(self) -> bool {
        self.den > 0
    }

    /// The whole number `n` as a fraction.
    pub fn whole(n: i128) -> (r: Ratio)
        ensures
            r@ == Rational::whole(n as int),
            r.wf(),
    {
        Ratio { num: n, den: 1 }
    }

    /// Whether `self` is strictly less than `other`. The answer is exact for
    /// every pair of fractions: nothing is multiplied, so nothing overflows.
    pub fn lt(&self, other: &Ratio) -> (less: bool)
        requires
            self.wf(),
            other.wf(),
        ensures
            less == self@.lt(other@),
    {
        fraction_lt(self.num, self.den, other.num, other.den)
    }
}

/// The order of fractions is transitive: `a <= b < c` gives `a < c`.
pub proof fn lemma_le_lt_transitive(a: Rational, b: Rational, c: Rational)
    requires
        a.wf(),
        b.wf(),
        c.wf(),
        a.le(b),
        b.lt(c),
    ensures
        a.lt(c),
{
    assert(a.num * c.den < c.num * a.den) by (nonlinear_arith)
        requires
            a.den > 0,
            b.den > 0,
            c.den > 0,
            a.num * b.den <= b.num * a.den,
            b.num * c.den < c.num * b.den,
    {
        assert((a.num * b.den) * c.den <= (b.num * a.den) * c.den);
        assert((b.num * c.den) * a.den < (c.num * b.den) * a.den);
        assert((a.num * c.den) * b.den < (c.num * a.den) * b.den);
    }
}

} // verus!
