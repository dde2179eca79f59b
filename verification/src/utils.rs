//! Evenly spaced values between two bounds.
use vstd::prelude::*;

verus! {

/// `a / b` rounded up, for a positive `b`.
pub open spec fn ceil_div(a: int, b: int) -> int {
    (a + b - 1) / b
}

/// `ceil_div(a, b)` is the least whole number whose product with `b` reaches
/// `a`.
pub proof fn lemma_ceil_div_is_least(a: int, b: int, k: int)
    requires
        b > 0,
    ensures
        ceil_div(a, b) <= k <==> a <= k * b,
{
    let q = ceil_div(a, b);
    let r = (a + b - 1) % b;
    vstd::arithmetic::div_mod::lemma_fundamental_div_mod(a + b - 1, b);
    vstd::arithmetic::div_mod::lemma_mod_bound(a + b - 1, b);
    assert(b * q == q * b) by (nonlinear_arith);
    if q <= k {
        assert(q * b <= k * b) by (nonlinear_arith)
            requires
                q <= k,
                b > 0,
        ;
    } else {
        assert((k + 1) * b <= q * b) by (nonlinear_arith)
            requires
                k + 1 <= q,
                b > 0,
        ;
        assert((k + 1) * b == k * b + b) by (nonlinear_arith);
    }
}

/// The number of steps from `zero_point` to the first value that is not below
/// `min`.
pub open spec fn first_index(zero_point: int, min: int, step: int) -> int {
    if min <= zero_point {
        0
    } else {
        ceil_div(min - zero_point, step)
    }
}

/// The number of values `zero_point + k * step`, `k` from zero upwards, that
/// lie below `max`.
pub open spec fn end_index(zero_point: int, max: int, step: int) -> int {
    if max <= zero_point {
        0
    } else {
        ceil_div(max - zero_point, step)
    }
}

/// How many of the values `zero_point`, `zero_point + step`,
/// `zero_point + 2 * step`, ... lie in `[min, max)`: none where the step is
/// not positive.
pub open spec fn tick_count(zero_point: int, min: int, max: int, step: int) -> nat {
    let n = end_index(zero_point, max, step) - first_index(zero_point, min, step);
    if step > 0 && n > 0 {
        n as nat
    } else {
        0
    }
}

/// The value of index `k` among those of `zero_point + j * step` that are not
/// below `min`.
pub open spec fn tick_value(zero_point: int, min: int, step: int, k: int) -> int {
    zero_point + (first_index(zero_point, min, step) + k) * step
}

/// The values `zero_point`, `zero_point + step`, `zero_point + 2 * step`, ...
/// that lie in `[min, max)`, in ascending order, each computed in closed form
/// from its index.
pub open spec fn linspace_values(zero_point: i64, min: i64, max: i64, step: i64) -> Seq<i64> {
    Seq::new(
        tick_count(zero_point as int, min as int, max as int, step as int),
        |k: int| tick_value(zero_point as int, min as int, step as int, k) as i64,
    )
}

/// Every value of the sequence lies in `[min, max)` and is reached from
/// `zero_point` by a whole number of steps; the values ascend; no value of
/// that kind is left out; and a step that is not positive gives the empty
/// sequence.
pub proof fn lemma_linspace_values(zero_point: i64, min: i64, max: i64, step: i64)
    ensures
        step <= 0 ==> linspace_values(zero_point, min, max, step).len() == 0,
        forall|k: int|
            0 <= k < linspace_values(zero_point, min, max, step).len() ==> {
                let v = #[trigger] linspace_values(zero_point, min, max, step)[k];
                &&& min <= v < max
                &&& v == tick_value(zero_point as int, min as int, step as int, k)
                &&& v >= zero_point
            },
        forall|i: int, k: int|
            0 <= i < k < linspace_values(zero_point, min, max, step).len()
                ==> #[trigger] linspace_values(zero_point, min, max, step)[i]
                < #[trigger] linspace_values(zero_point, min, max, step)[k],
        forall|j: int|
            j >= 0 && min <= zero_point + j * step < max && step > 0 ==> {
                let k = j - first_index(zero_point as int, min as int, step as int);
                &&& 0 <= k < linspace_values(zero_point, min, max, step).len()
                &&& linspace_values(zero_point, min, max, step)[k] == zero_point + #[trigger] (j
                    * step)
            },
{
    let z = zero_point as int;
    let first = first_index(z, min as int, step as int);
    let end = end_index(z, max as int, step as int);
    let values = linspace_values(zero_point, min, max, step);
    if step > 0 {
        lemma_index_bounds(z, min as int, max as int, step as int);
        assert forall|k: int| 0 <= k < values.len() implies {
            let v = #[trigger] values[k];
            &&& min <= v < max
            &&& v == tick_value(z, min as int, step as int, k)
            &&& v >= zero_point
        } by {
            let t = tick_value(z, min as int, step as int, k);
            lemma_ceil_div_is_least(max - z, step as int, first + k);
            lemma_ceil_div_is_least(min - z, step as int, first);
            assert(first * step <= (first + k) * step) by (nonlinear_arith)
                requires
                    k >= 0,
                    step > 0,
            ;
            assert(0 <= first * step) by (nonlinear_arith)
                requires
                    first >= 0,
                    step > 0,
            ;
        }
        assert forall|i: int, k: int| 0 <= i < k < values.len() implies #[trigger] values[i]
            < #[trigger] values[k] by {
            assert(values[i] == tick_value(z, min as int, step as int, i));
            assert(values[k] == tick_value(z, min as int, step as int, k));
            assert((first + i) * step < (first + k) * step) by (nonlinear_arith)
                requires
                    i < k,
                    step > 0,
            ;
        }
        assert forall|j: int| j >= 0 && min <= z + j * step < max implies {
            let k = j - first;
            &&& 0 <= k < values.len()
            &&& values[k] == z + #[trigger] (j * step)
        } by {
            lemma_ceil_div_is_least(max - z, step as int, j);
            lemma_ceil_div_is_least(min - z, step as int, j);
            assert(first <= j);
            assert(j < end);
        }
    }
}

/// Both indices are at least zero.
proof fn lemma_index_bounds(zero_point: int, min: int, max: int, step: int)
    requires
        step > 0,
    ensures
        first_index(zero_point, min, step) >= 0,
        end_index(zero_point, max, step) >= 0,
{
    lemma_ceil_div_is_least(min - zero_point, step, -1);
    lemma_ceil_div_is_least(max - zero_point, step, -1);
    assert((-1) * step < 0) by (nonlinear_arith)
        requires
            step > 0,
    ;
}

/// The sequence holds at most one value more than steps fit between `min`
/// and `max`, and at least as many as fit.
pub proof fn lemma_tick_count_bounds(zero_point: int, min: int, max: int, step: int)
    requires
        step > 0,
        zero_point <= min <= max,
    ensures
        tick_count(zero_point, min, max, step) <= (max - min) / step + 1,
        tick_count(zero_point, min, max, step) >= (max - min) / step,
{
    let first = first_index(zero_point, min, step);
    let end = end_index(zero_point, max, step);
    let n = (max - min) / step;
    lemma_index_bounds(zero_point, min, max, step);
    vstd::arithmetic::div_mod::lemma_fundamental_div_mod(max - min, step);
    vstd::arithmetic::div_mod::lemma_mod_bound(max - min, step);
    vstd::arithmetic::div_mod::lemma_div_pos_is_pos(max - min, step);
    assert(step * n == n * step) by (nonlinear_arith);
    // first * step reaches min - zero_point, and (first - 1) * step does not
    lemma_ceil_div_is_least(min - zero_point, step, first);
    lemma_ceil_div_is_least(min - zero_point, step, first - 1);
    assert((first - 1) * step == first * step - step) by (nonlinear_arith);
    assert((first + n + 1) * step == first * step + n * step + step) by (nonlinear_arith);
    assert((first + n - 1) * step == first * step + n * step - step) by (nonlinear_arith);
    if min == zero_point {
        assert(first == 0);
        assert(0 * step == 0) by (nonlinear_arith);
    }
    if max > zero_point {
        // end <= first + n + 1
        lemma_ceil_div_is_least(max - zero_point, step, first + n + 1);
        // end > first + n - 1
        lemma_ceil_div_is_least(max - zero_point, step, first + n - 1);
    } else {
        assert(n == 0);
    }
}

/// Generate the evenly spaced values `zero_point`, `zero_point + step`, ...
/// that lie in `[min, max)`. A step that is not positive gives no value.
pub fn linspace(zero_point: i64, min: i64, max: i64, step: i64) -> (ticks: Vec<i64>)
    ensures
        ticks@ == linspace_values(zero_point, min, max, step),
        step <= 0 ==> ticks.len() == 0,
        forall|k: int| 0 <= k < ticks.len() ==> min <= #[trigger] ticks[k] < max,
{
    proof {
        lemma_linspace_values(zero_point, min, max, step);
    }
    let mut ticks: Vec<i64> = Vec::new();
    if step <= 0 {
        assert(ticks@ =~= linspace_values(zero_point, min, max, step));
        return ticks;
    }
    let z: i128 = zero_point as i128;
    let s: i128 = step as i128;
    let ghost first_spec = first_index(z as int, min as int, s as int);
    let ghost end_spec = end_index(z as int, max as int, s as int);
    let first: i128 = if min <= zero_point {
        0
    } else {
        (min as i128 - z + s - 1) / s
    };
    proof {
        lemma_index_bounds(z as int, min as int, max as int, s as int);
        lemma_ceil_div_is_least(min - z, s as int, first as int);
        lemma_ceil_div_is_least(min - z, s as int, first - 1);
        assert((first - 1) * s == first * s - s) by (nonlinear_arith);
        if min <= zero_point {
            assert(0 * s == 0) by (nonlinear_arith);
        }
        assert(0 <= first * s) by (nonlinear_arith)
            requires
                first >= 0,
                s > 0,
        ;
    }
    let mut x: i128 = z + first * s;
    let hi: i128 = max as i128;
    while x < hi
        invariant
            s == step,
            hi == max,
            z == zero_point,
            step > 0,
            first == first_spec,
            first_spec == first_index(z as int, min as int, s as int),
            end_spec == end_index(z as int, max as int, s as int),
            first >= 0,
            x == z + (first + ticks.len()) * s,
            min <= x,
            x < 0x1_0000_0000_0000_0000_0000,
            ticks.len() > 0 ==> z + (first + ticks.len() - 1) * s < max,
            forall|k: int|
                0 <= k < ticks.len() ==> ticks[k] == tick_value(z as int, min as int, s as int, k),
        decreases (if x < hi { hi - x } else { 0 }),
    {
        proof {
            assert((first + ticks.len() + 1) * s == (first + ticks.len()) * s + s)
                by (nonlinear_arith);
        }
        ticks.push(x as i64);
        x = x + s;
    }
    proof {
        let len = ticks.len() as int;
        lemma_ceil_div_is_least(max - z, s as int, first + len);
        lemma_ceil_div_is_least(max - z, s as int, first + len - 1);
        if max <= z {
            assert(len == 0);
        }
        assert(len == tick_count(z as int, min as int, max as int, s as int));
        assert(ticks@ =~= linspace_values(zero_point, min, max, step));
    }
    ticks
}

} // verus!
