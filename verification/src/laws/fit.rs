//! The measured speed as the slope of the line that fits best.

use crate::binary32::{
    difference_of, integer, lemma_nearest, nearest, precision, product_of, quotient_of,
    unit_exponent, Binary32,
};
use crate::bounds::{lemma_negation, lemma_small_integer, lemma_sum_exact, lemma_zero};
use crate::motion::{elapsed, least_squares_slope, milliseconds_of, totals_of, Totals};
use crate::order::{lemma_integer_exact, lemma_rank_order, lemma_units_zero};
use crate::rounding::{lemma_encode_monotone, lemma_encode_scales, lemma_encode_zero};
use vstd::arithmetic::power2::{lemma_pow2_pos, pow2};
use vstd::prelude::*;

verus! {

/// The first `end` numbers, added up.
pub open spec fn total(values: Seq<int>, end: int) -> int
    decreases end,
{
    if end <= 0 {
        0
    } else {
        total(values, end - 1) + values[end - 1]
    }
}

/// The products of the first `end` pairs of numbers, added up.
pub open spec fn total_products(a: Seq<int>, b: Seq<int>, end: int) -> int
    decreases end,
{
    if end <= 0 {
        0
    } else {
        total_products(a, b, end - 1) + a[end - 1] * b[end - 1]
    }
}

/// The numerator of the least-squares slope.
pub open spec fn rise(times: Seq<int>, angles: Seq<int>) -> int {
    let n = times.len() as int;
    n * total_products(times, angles, n) - total(times, n) * total(angles, n)
}

/// The denominator of the least-squares slope.
pub open spec fn run(times: Seq<int>) -> int {
    let n = times.len() as int;
    n * total_products(times, times, n) - total(times, n) * total(times, n)
}

/// `num / den` as the nearest number.
pub open spec fn signed_ratio(num: int, den: nat) -> Binary32 {
    if num < 0 {
        nearest(true, (-num) as nat * pow2(unit_exponent()), den)
    } else {
        nearest(false, num as nat * pow2(unit_exponent()), den)
    }
}

/// No number is below 0.
pub open spec fn none_below_zero(values: Seq<int>) -> bool {
    forall|i: int| 0 <= i < values.len() ==> #[trigger] values[i] >= 0
}

/// The readings are whole milliseconds after the first one, and the angles
/// whole degrees.
pub open spec fn is_whole(
    history: Seq<(u64, Binary32)>,
    times: Seq<int>,
    angles: Seq<int>,
) -> bool {
    &&& times.len() == history.len()
    &&& angles.len() == history.len()
    &&& forall|i: int|
        #![trigger history[i]]
        0 <= i < history.len() ==> milliseconds_of(elapsed(history[0].0, history[i].0)) == integer(
            times[i],
        ) && history[i].1 == integer(angles[i])
    &&& none_below_zero(times)
    &&& none_below_zero(angles)
}

/// Every total is held exactly in single precision.
pub open spec fn totals_exact(times: Seq<int>, angles: Seq<int>) -> bool {
    let n = times.len() as int;
    &&& total(angles, n) < 0x100_0000
    &&& n * total_products(times, times, n) < 0x100_0000
    &&& n * total_products(times, angles, n) < 0x100_0000
    &&& total(times, n) * total(times, n) < 0x100_0000
    &&& total(times, n) * total(angles, n) < 0x100_0000
}

/// Small integers multiply exactly.
proof fn lemma_product_exact(a: nat, b: nat)
    requires
        a < 0x100_0000,
        b < 0x100_0000,
        a * b < 0x100_0000,
    ensures
        product_of(integer(a as int), integer(b as int)) == integer((a * b) as int),
{
    let unit = pow2(unit_exponent());
    lemma_pow2_pos(unit_exponent());
    lemma_integer_exact(a);
    lemma_integer_exact(b);
    lemma_integer_exact(a * b);
    assert((a * unit) * (b * unit) == unit * (a * b * unit)) by (nonlinear_arith);
    assert(unit * 1 == unit);
    lemma_encode_scales(precision(), a * b * unit, 1, unit);
}

/// Small integers subtract exactly.
proof fn lemma_difference_exact(a: nat, b: nat)
    requires
        a < 0x100_0000,
        b < 0x100_0000,
    ensures
        difference_of(integer(a as int), integer(b as int)) == integer(a - b),
{
    let unit = pow2(unit_exponent());
    lemma_integer_exact(a);
    lemma_integer_exact(b);
    lemma_negation(integer(b as int));
    lemma_encode_zero(precision(), 1);
    assert(a * unit - b * unit == (a - b) * unit) by (nonlinear_arith);
    assert((b - a) * unit == b * unit - a * unit) by (nonlinear_arith);
    if a == b {
        assert(0 * unit == 0);
    } else {
        lemma_pow2_pos(unit_exponent());
        assert((a - b) * unit != 0 && (a < b <==> (a - b) * unit < 0)) by (nonlinear_arith)
            requires
                a != b,
                unit > 0,
        ;
    }
}

/// A quotient of small integers is their ratio, rounded once.
proof fn lemma_quotient_rounded_once(num: int, den: nat)
    requires
        -0x100_0000 < num < 0x100_0000,
        0 < den < 0x100_0000,
    ensures
        quotient_of(integer(num), integer(den as int)) == signed_ratio(num, den),
{
    let unit = pow2(unit_exponent());
    let size = (if num < 0 {
        -num
    } else {
        num
    }) as nat;
    lemma_pow2_pos(unit_exponent());
    lemma_small_integer(num);
    lemma_integer_exact(size);
    lemma_integer_exact(den);
    lemma_nearest(num < 0, size * unit, 1);
    lemma_nearest(false, size * unit, 1);
    lemma_units_zero(integer(den as int));
    assert(den * unit > 0) by (nonlinear_arith)
        requires
            den > 0,
            unit > 0,
    ;
    assert(size * unit * unit == unit * (size * unit) && den * unit == unit * den)
        by (nonlinear_arith);
    lemma_encode_scales(precision(), size * unit, den, unit);
}

/// A total has every part in it.
pub(crate) proof fn lemma_total_monotone(values: Seq<int>, end: int, more: int)
    requires
        none_below_zero(values),
        0 <= end <= more <= values.len(),
    ensures
        0 <= total(values, end) <= total(values, more),
        end < more ==> total(values, end) + values[end] <= total(values, more),
    decreases more,
{
    if end < more {
        lemma_total_monotone(values, end, more - 1);
    } else if end > 0 {
        lemma_total_monotone(values, end - 1, end - 1);
    }
}

pub(crate) proof fn lemma_not_below_zero(a: int, b: int)
    by (nonlinear_arith)
    requires
        a >= 0,
        b >= 0,
    ensures
        a * b >= 0,
{
}

pub(crate) proof fn lemma_total_products_monotone(a: Seq<int>, b: Seq<int>, end: int, more: int)
    requires
        none_below_zero(a),
        none_below_zero(b),
        a.len() == b.len(),
        0 <= end <= more <= a.len(),
    ensures
        0 <= total_products(a, b, end) <= total_products(a, b, more),
        end < more ==> total_products(a, b, end) + a[end] * b[end] <= total_products(a, b, more),
    decreases more,
{
    if end < more {
        lemma_total_products_monotone(a, b, end, more - 1);
        lemma_not_below_zero(a[more - 1], b[more - 1]);
    } else if end > 0 {
        lemma_total_products_monotone(a, b, end - 1, end - 1);
        lemma_not_below_zero(a[end - 1], b[end - 1]);
    }
}

/// The totals are small where their products are.
proof fn lemma_totals_small(times: Seq<int>, angles: Seq<int>)
    requires
        totals_exact(times, angles),
        none_below_zero(times),
        none_below_zero(angles),
        angles.len() == times.len(),
        times.len() > 0,
    ensures
        times.len() < 0x100_0000 || total(times, times.len() as int) == 0,
        total(times, times.len() as int) < 0x100_0000,
        total_products(times, times, times.len() as int) < 0x100_0000,
        total_products(times, angles, times.len() as int) < 0x100_0000,
{
    let n = times.len() as int;
    let t = total(times, n);
    let tt = total_products(times, times, n);
    let ta = total_products(times, angles, n);
    lemma_total_monotone(times, 0, n);
    lemma_total_products_monotone(times, times, 0, n);
    lemma_total_products_monotone(times, angles, 0, n);
    assert(t < 0x100_0000) by (nonlinear_arith)
        requires
            t >= 0,
            t * t < 0x100_0000,
    ;
    assert(tt <= n * tt && ta <= n * ta) by (nonlinear_arith)
        requires
            n >= 1,
            tt >= 0,
            ta >= 0,
    ;
    if t > 0 && n >= 0x100_0000 {
        lemma_some_square(times, n);
        assert(n <= n * tt) by (nonlinear_arith)
            requires
                tt >= 1,
                n >= 0,
        ;
    }
}

/// Where a total is positive so is the total of squares.
proof fn lemma_some_square(values: Seq<int>, end: int)
    requires
        none_below_zero(values),
        0 <= end <= values.len(),
        total(values, end) > 0,
    ensures
        total_products(values, values, end) > 0,
    decreases end,
{
    if end > 0 {
        let last = values[end - 1];
        if last == 0 {
            lemma_some_square(values, end - 1);
        } else {
            lemma_total_products_monotone(values, values, 0, end - 1);
            assert(last * last > 0) by (nonlinear_arith)
                requires
                    last > 0,
            ;
        }
    }
}

/// No total of a whole history is rounded.
proof fn lemma_totals_of_whole(
    history: Seq<(u64, Binary32)>,
    times: Seq<int>,
    angles: Seq<int>,
    end: int,
)
    requires
        is_whole(history, times, angles),
        totals_exact(times, angles),
        0 <= end <= history.len(),
    ensures
        totals_of(history, end) == (Totals {
            t: integer(total(times, end)),
            a: integer(total(angles, end)),
            tt: integer(total_products(times, times, end)),
            ta: integer(total_products(times, angles, end)),
        }),
    decreases end,
{
    if end > 0 {
        let n = times.len() as int;
        lemma_totals_of_whole(history, times, angles, end - 1);
        lemma_totals_small(times, angles);
        let time = times[end - 1] as nat;
        let angle = angles[end - 1] as nat;
        assert(history[end - 1].1 == integer(angle as int));
        lemma_total_monotone(times, end - 1, n);
        lemma_total_monotone(angles, end - 1, n);
        lemma_total_products_monotone(times, times, end - 1, n);
        lemma_total_products_monotone(times, angles, end - 1, n);
        lemma_product_exact(time, time);
        lemma_product_exact(time, angle);
        lemma_sum_exact(total(times, end - 1) as nat, time);
        lemma_sum_exact(total(angles, end - 1) as nat, angle);
        lemma_sum_exact(total_products(times, times, end - 1) as nat, time * time);
        lemma_sum_exact(total_products(times, angles, end - 1) as nat, time * angle);
    }
}

/// Where readings are whole and small, the measured speed is the exact
/// least-squares slope, rounded once.
pub proof fn lemma_slope_rounded_once(
    history: Seq<(u64, Binary32)>,
    times: Seq<int>,
    angles: Seq<int>,
)
    requires
        is_whole(history, times, angles),
        totals_exact(times, angles),
        history.len() < 0x100_0000,
    ensures
        least_squares_slope(history) == if history.len() < 2 || run(times) <= 0 {
            None
        } else {
            Some(signed_ratio(rise(times, angles), run(times) as nat))
        },
{
    if history.len() >= 2 {
        let n = history.len();
        lemma_total_monotone(times, 0, n as int);
        lemma_total_monotone(angles, 0, n as int);
        lemma_total_products_monotone(times, times, 0, n as int);
        lemma_total_products_monotone(times, angles, 0, n as int);
        let t = total(times, n as int) as nat;
        let a = total(angles, n as int) as nat;
        let tt = total_products(times, times, n as int) as nat;
        let ta = total_products(times, angles, n as int) as nat;
        lemma_totals_of_whole(history, times, angles, n as int);
        lemma_totals_small(times, angles);
        lemma_product_exact(n, tt);
        lemma_product_exact(n, ta);
        lemma_product_exact(t, t);
        lemma_product_exact(t, a);
        lemma_difference_exact(n * tt, t * t);
        lemma_difference_exact(n * ta, t * a);
        let spread = run(times);
        lemma_zero();
        lemma_small_integer(spread);
        lemma_rank_order(integer(spread), integer(0));
        let unit = pow2(unit_exponent());
        lemma_pow2_pos(unit_exponent());
        assert(spread * unit <= 0 <==> spread <= 0) by (nonlinear_arith)
            requires
                unit > 0,
        ;
        if spread > 0 {
            lemma_quotient_rounded_once(rise(times, angles), spread as nat);
        }
    }
}

/// How far the first `end` times are from a time, squared and added up.
pub(crate) open spec fn spread_around(times: Seq<int>, time: int, end: int) -> int
    decreases end,
{
    if end <= 0 {
        0
    } else {
        spread_around(times, time, end - 1) + (times[end - 1] - time) * (times[end - 1] - time)
    }
}

proof fn lemma_spread_around(times: Seq<int>, time: int, end: int)
    requires
        0 <= end <= times.len(),
    ensures
        spread_around(times, time, end) == total_products(times, times, end) - 2 * (time * total(
            times,
            end,
        )) + end * (time * time),
        spread_around(times, time, end) >= 0,
        end > 0 && times[0] != time ==> spread_around(times, time, end) > 0,
    decreases end,
{
    if end > 0 {
        lemma_spread_around(times, time, end - 1);
        let x = times[end - 1];
        let t = total(times, end - 1);
        assert((x - time) * (x - time) == x * x - 2 * (time * x) + time * time) by (nonlinear_arith);
        assert(time * (t + x) == time * t + time * x) by (nonlinear_arith);
        assert(end * (time * time) == (end - 1) * (time * time) + time * time) by (nonlinear_arith);
        assert((x - time) * (x - time) >= 0) by (nonlinear_arith);
        assert(x != time ==> (x - time) * (x - time) > 0) by (nonlinear_arith);
    } else {
        assert(time * 0 == 0 && 0 * (time * time) == 0) by (nonlinear_arith);
    }
}

/// The denominator over the first `end` times.
pub(crate) open spec fn run_of(times: Seq<int>, end: int) -> int {
    end * total_products(times, times, end) - total(times, end) * total(times, end)
}

pub(crate) proof fn lemma_run_grows(times: Seq<int>, end: int)
    requires
        0 <= end <= times.len(),
    ensures
        run_of(times, end) >= 0,
        end > 0 ==> run_of(times, end) == run_of(times, end - 1) + spread_around(
            times,
            times[end - 1],
            end - 1,
        ),
    decreases end,
{
    if end > 0 {
        let before = end - 1;
        let x = times[before];
        let t = total(times, before);
        let tt = total_products(times, times, before);
        lemma_run_grows(times, before);
        lemma_spread_around(times, x, before);
        assert(end * (tt + x * x) - (t + x) * (t + x) == (before * tt - t * t) + (tt - 2 * (x * t)
            + before * (x * x))) by (nonlinear_arith)
            requires
                end == before + 1,
        ;
    } else {
        assert(run_of(times, 0) == 0);
    }
}

/// A history whose last reading is later than its first has a speed.
pub proof fn lemma_run_positive(times: Seq<int>)
    requires
        times.len() >= 2,
        times[0] != times[times.len() - 1],
    ensures
        run(times) > 0,
{
    let n = times.len() as int;
    lemma_run_grows(times, n);
    lemma_run_grows(times, n - 1);
    lemma_spread_around(times, times[n - 1], n - 1);
}

/// The angles are on a line through the times.
pub open spec fn is_steady(times: Seq<int>, angles: Seq<int>, start: int, num: int, den: nat) -> bool {
    &&& angles.len() == times.len()
    &&& den > 0
    &&& forall|i: int|
        0 <= i < times.len() ==> den * #[trigger] angles[i] == start + num * times[i]
}

proof fn lemma_steady_totals(
    times: Seq<int>,
    angles: Seq<int>,
    start: int,
    num: int,
    den: nat,
    end: int,
)
    requires
        is_steady(times, angles, start, num, den),
        0 <= end <= times.len(),
    ensures
        den * total(angles, end) == end * start + num * total(times, end),
        den * total_products(times, angles, end) == start * total(times, end) + num
            * total_products(times, times, end),
    decreases end,
{
    if end > 0 {
        let before = end - 1;
        lemma_steady_totals(times, angles, start, num, den, before);
        let x = times[before];
        let y = angles[before];
        let t = total(times, before);
        let a = total(angles, before);
        let tt = total_products(times, times, before);
        let ta = total_products(times, angles, before);
        assert(den * y == start + num * x);
        assert(den * (a + y) == end * start + num * (t + x)) by (nonlinear_arith)
            requires
                den * y == start + num * x,
                den * a == before * start + num * t,
                end == before + 1,
        ;
        assert(den * (x * y) == x * (start + num * x)) by (nonlinear_arith)
            requires
                den * y == start + num * x,
        ;
        assert(den * (ta + x * y) == start * (t + x) + num * (tt + x * x)) by (nonlinear_arith)
            requires
                den * (x * y) == x * (start + num * x),
                den * ta == start * t + num * tt,
        ;
    } else {
        assert(den * 0 == 0 && 0 * start == 0 && num * 0 == 0 && start * 0 == 0);
    }
}

/// The exact slope of a steady needle is its speed.
pub proof fn lemma_steady_slope(
    times: Seq<int>,
    angles: Seq<int>,
    start: int,
    num: int,
    den: nat,
)
    requires
        is_steady(times, angles, start, num, den),
    ensures
        den * rise(times, angles) == num * run(times),
{
    let n = times.len() as int;
    let t = total(times, n);
    let a = total(angles, n);
    let tt = total_products(times, times, n);
    let ta = total_products(times, angles, n);
    let up = rise(times, angles);
    let along = run(times);
    lemma_steady_totals(times, angles, start, num, den, n);
    assert(den * up == n * (den * ta) - t * (den * a)) by (nonlinear_arith)
        requires
            up == n * ta - t * a,
    ;
    assert(n * (start * t + num * tt) - t * (n * start + num * t) == num * along)
        by (nonlinear_arith)
        requires
            along == n * tt - t * t,
    ;
}

/// A steady needle's measured speed is its speed: where it moves `num` degrees
/// in `den` milliseconds, on whole and small readings, the speed is `num / den`,
/// rounded once.
pub proof fn lemma_steady_speed(
    history: Seq<(u64, Binary32)>,
    times: Seq<int>,
    angles: Seq<int>,
    start: int,
    num: int,
    den: nat,
)
    requires
        is_whole(history, times, angles),
        totals_exact(times, angles),
        2 <= history.len() < 0x100_0000,
        times[0] != times[times.len() - 1],
        is_steady(times, angles, start, num, den),
    ensures
        least_squares_slope(history) == Some(signed_ratio(num, den)),
{
    lemma_run_positive(times);
    lemma_slope_rounded_once(history, times, angles);
    lemma_steady_slope(times, angles, start, num, den);
    lemma_equal_ratios(rise(times, angles), run(times) as nat, num, den);
}

/// Equal ratios round to the same number.
proof fn lemma_equal_ratios(num: int, den: nat, num2: int, den2: nat)
    requires
        den > 0,
        den2 > 0,
        den2 * num == num2 * den,
    ensures
        signed_ratio(num, den) == signed_ratio(num2, den2),
{
    let unit = pow2(unit_exponent());
    assert(num < 0 <==> num2 < 0) by (nonlinear_arith)
        requires
            den > 0,
            den2 > 0,
            den2 * num == num2 * den,
    ;
    let size = (if num < 0 {
        -num
    } else {
        num
    }) as nat;
    let size2 = (if num2 < 0 {
        -num2
    } else {
        num2
    }) as nat;
    assert(size * unit * den2 == size2 * unit * den) by (nonlinear_arith)
        requires
            (size == num && size2 == num2) || (size == -num && size2 == -num2),
            den2 * num == num2 * den,
    ;
    lemma_encode_monotone(precision(), size * unit, den, size2 * unit, den2);
    lemma_encode_monotone(precision(), size2 * unit, den2, size * unit, den);
}

/// How far the angles are from the line `(start + num * time) / den`, times
/// `den`, squared and added up.
pub open spec fn squared_error(
    times: Seq<int>,
    angles: Seq<int>,
    start: int,
    num: int,
    den: int,
    end: int,
) -> int
    decreases end,
{
    if end <= 0 {
        0
    } else {
        let miss = den * angles[end - 1] - start - num * times[end - 1];
        squared_error(times, angles, start, num, den, end - 1) + miss * miss
    }
}

/// The error in terms of the totals.
proof fn lemma_squared_error(
    times: Seq<int>,
    angles: Seq<int>,
    start: int,
    num: int,
    den: int,
    end: int,
)
    requires
        0 <= end <= times.len(),
        angles.len() == times.len(),
    ensures
        squared_error(times, angles, start, num, den, end) == den * den * total_products(
            angles,
            angles,
            end,
        ) - 2 * (den * start * total(angles, end)) - 2 * (den * num * total_products(
            times,
            angles,
            end,
        )) + end * (start * start) + 2 * (start * num * total(times, end)) + num * num
            * total_products(times, times, end),
    decreases end,
{
    if end > 0 {
        let before = end - 1;
        lemma_squared_error(times, angles, start, num, den, before);
        let x = times[before] as int;
        let y = angles[before] as int;
        let miss = den * y - start - num * x;
        let t = total(times, before) as int;
        let a = total(angles, before) as int;
        let tt = total_products(times, times, before) as int;
        let ta = total_products(times, angles, before) as int;
        let aa = total_products(angles, angles, before) as int;
        lemma_square_of_three(den * y, -start, -(num * x));
        assert((den * y) * (den * y) == den * den * (y * y)) by (nonlinear_arith);
        assert((-start) * (-start) == start * start) by (nonlinear_arith);
        assert((-(num * x)) * (-(num * x)) == num * num * (x * x)) by (nonlinear_arith);
        assert((den * y) * (-start) == -(den * start * y)) by (nonlinear_arith);
        assert((den * y) * (-(num * x)) == -(den * num * (x * y))) by (nonlinear_arith);
        assert((-start) * (-(num * x)) == start * num * x) by (nonlinear_arith);
        assert(den * den * (aa + y * y) == den * den * aa + den * den * (y * y))
            by (nonlinear_arith);
        assert(den * start * (a + y) == den * start * a + den * start * y) by (nonlinear_arith);
        assert(den * num * (ta + x * y) == den * num * ta + den * num * (x * y))
            by (nonlinear_arith);
        assert(end * (start * start) == before * (start * start) + start * start)
            by (nonlinear_arith)
            requires
                end == before + 1,
        ;
        assert(start * num * (t + x) == start * num * t + start * num * x) by (nonlinear_arith);
        assert(num * num * (tt + x * x) == num * num * tt + num * num * (x * x))
            by (nonlinear_arith);
    } else {
        assert(den * den * 0 == 0 && den * start * 0 == 0 && den * num * 0 == 0 && 0 * (start
            * start) == 0 && start * num * 0 == 0 && num * num * 0 == 0) by (nonlinear_arith);
    }
}

/// The least error that any line can have, times `n * run`, for `den` 1.
pub(crate) open spec fn least_error(times: Seq<int>, angles: Seq<int>) -> int {
    let n = times.len() as int;
    let a = total(angles, n);
    run(times) * (n * total_products(angles, angles, n) - a * a) - rise(times, angles) * rise(
        times,
        angles,
    )
}

/// The error of a line is the least one, plus squares that vanish for the
/// least-squares line.
pub(crate) proof fn lemma_error_split(times: Seq<int>, angles: Seq<int>, start: int, num: int, den: int)
    requires
        angles.len() == times.len(),
    ensures
        ({
            let n = times.len() as int;
            let level = n * start + num * total(times, n) - den * total(angles, n);
            let tilt = run(times) * num - den * rise(times, angles);
            n * run(times) * squared_error(times, angles, start, num, den, n) == run(times) * (level
                * level) + tilt * tilt + den * den * least_error(times, angles)
        }),
{
    let n = times.len() as int;
    let t = total(times, n) as int;
    let a = total(angles, n) as int;
    let tt = total_products(times, times, n) as int;
    let ta = total_products(times, angles, n) as int;
    let aa = total_products(angles, angles, n) as int;
    let q = run(times);
    let p = rise(times, angles);
    let e = squared_error(times, angles, start, num, den, n);
    let level = n * start + num * t - den * a;
    let tilt = q * num - den * p;
    lemma_squared_error(times, angles, start, num, den, n);
    lemma_complete_squares(n, start, num, den, t, a, tt, ta, aa);
    let w = n * aa - a * a;
    let rest = level * level + q * (num * num) - 2 * (num * den * p) + den * den * w;
    assert(n * e == rest);
    assert(n * q * e == q * (n * e)) by (nonlinear_arith);
    lemma_scaled_sum(q, level * level, q * (num * num), num * den * p, den * den * w);
    lemma_square_of_three(q * num, -(den * p), 0);
    assert((q * num) * (q * num) == q * (q * (num * num))) by (nonlinear_arith);
    assert((q * num) * -(den * p) == -(q * (num * den * p))) by (nonlinear_arith);
    assert((-(den * p)) * (-(den * p)) == den * den * (p * p)) by (nonlinear_arith);
    assert((q * num) * 0 == 0 && (-(den * p)) * 0 == 0 && 0int * 0 == 0) by (nonlinear_arith);
    assert(q * (den * den * w) == den * den * (q * w)) by (nonlinear_arith);
    assert(den * den * (q * w - p * p) == den * den * (q * w) - den * den * (p * p))
        by (nonlinear_arith);
}

/// A sum of three, squared.
proof fn lemma_square_of_three(u: int, v: int, w: int)
    by (nonlinear_arith)
    ensures
        (u + v + w) * (u + v + w) == u * u + v * v + w * w + 2 * (u * v) + 2 * (u * w) + 2 * (v
            * w),
{
}

/// A factor times a sum.
proof fn lemma_scaled_sum(factor: int, u: int, v: int, w: int, x: int)
    by (nonlinear_arith)
    ensures
        factor * (u + v - 2 * w + x) == factor * u + factor * v - 2 * (factor * w) + factor * x,
{
}

proof fn lemma_complete_squares(
    n: int,
    start: int,
    num: int,
    den: int,
    t: int,
    a: int,
    tt: int,
    ta: int,
    aa: int,
)
    ensures
        ({
            let e = den * den * aa - 2 * (den * start * a) - 2 * (den * num * ta) + n * (start
                * start) + 2 * (start * num * t) + num * num * tt;
            let q = n * tt - t * t;
            let p = n * ta - t * a;
            let level = n * start + num * t - den * a;
            n * e == level * level + q * (num * num) - 2 * (num * den * p) + den * den * (n * aa - a
                * a)
        }),
{
    let q = n * tt - t * t;
    let p = n * ta - t * a;
    lemma_square_of_three(n * start, num * t, -(den * a));
    assert((n * start) * (n * start) == n * (n * (start * start))) by (nonlinear_arith);
    assert((num * t) * (num * t) == t * t * (num * num)) by (nonlinear_arith);
    assert((-(den * a)) * (-(den * a)) == den * den * (a * a)) by (nonlinear_arith);
    assert((n * start) * (num * t) == n * (start * num * t)) by (nonlinear_arith);
    assert((n * start) * -(den * a) == -(n * (den * start * a))) by (nonlinear_arith);
    assert((num * t) * -(den * a) == -(num * den * (t * a))) by (nonlinear_arith);
    assert(q * (num * num) == n * tt * (num * num) - t * t * (num * num)) by (nonlinear_arith)
        requires
            q == n * tt - t * t,
    ;
    assert(num * den * p == num * den * (n * ta) - num * den * (t * a)) by (nonlinear_arith)
        requires
            p == n * ta - t * a,
    ;
    assert(den * den * (n * aa - a * a) == den * den * (n * aa) - den * den * (a * a))
        by (nonlinear_arith);
    lemma_scaled_sum(
        n,
        den * den * aa,
        n * (start * start),
        den * start * a,
        2 * (start * num * t) + num * num * tt - 2 * (den * num * ta),
    );
    lemma_scaled_sum(n, 2 * (start * num * t), num * num * tt, den * num * ta, 0);
    assert(n * 0 == 0 && n * (2 * (start * num * t)) == 2 * (n * (start * num * t)))
        by (nonlinear_arith);
    assert(n * (den * den * aa) == den * den * (n * aa)) by (nonlinear_arith);
    assert(n * (den * num * ta) == num * den * (n * ta)) by (nonlinear_arith);
    assert(n * (num * num * tt) == n * tt * (num * num)) by (nonlinear_arith);
}

/// The least-squares slope is that of the line that fits best: a line with this
/// slope, through the middle of the readings, misses them by no more than any
/// other line, by the squares of the distances.
pub proof fn lemma_best_fit(
    times: Seq<int>,
    angles: Seq<int>,
    start: int,
    num: int,
    den: int,
    other_start: int,
    other_num: int,
    other_den: int,
)
    requires
        angles.len() == times.len(),
        times.len() >= 2,
        run(times) > 0,
        den > 0,
        other_den > 0,
        run(times) * num == den * rise(times, angles),
        times.len() * start + num * total(times, times.len() as int) == den * total(
            angles,
            times.len() as int,
        ),
    ensures
        other_den * other_den * squared_error(
            times,
            angles,
            start,
            num,
            den,
            times.len() as int,
        ) <= den * den * squared_error(
            times,
            angles,
            other_start,
            other_num,
            other_den,
            times.len() as int,
        ),
{
    let n = times.len() as int;
    let q = run(times);
    let e = squared_error(times, angles, start, num, den, n);
    let f = squared_error(times, angles, other_start, other_num, other_den, n);
    let m = least_error(times, angles);
    lemma_error_split(times, angles, start, num, den);
    lemma_error_split(times, angles, other_start, other_num, other_den);
    assert(q * (0 * 0) == 0) by (nonlinear_arith);
    let level = n * other_start + other_num * total(times, n) - other_den * total(angles, n);
    let tilt = q * other_num - other_den * rise(times, angles);
    assert(q * (level * level) >= 0 && tilt * tilt >= 0) by (nonlinear_arith)
        requires
            q > 0,
    ;
    let nq = n * q;
    assert(nq > 0) by (nonlinear_arith)
        requires
            n >= 2,
            q > 0,
            nq == n * q,
    ;
    assert(nq * e == den * den * m && nq * f >= other_den * other_den * m);
    assert(other_den * other_den * e <= den * den * f) by (nonlinear_arith)
        requires
            nq * e == den * den * m,
            nq * f >= other_den * other_den * m,
            nq > 0,
    {
        assert(nq * (other_den * other_den * e) == other_den * other_den * (den * den * m))
            by (nonlinear_arith)
            requires
                nq * e == den * den * m,
        ;
        assert(nq * (den * den * f) >= den * den * (other_den * other_den * m)) by (nonlinear_arith)
            requires
                nq * f >= other_den * other_den * m,
        ;
        assert(other_den * other_den * (den * den * m) == den * den * (other_den * other_den * m))
            by (nonlinear_arith);
    }
}

} // verus!
