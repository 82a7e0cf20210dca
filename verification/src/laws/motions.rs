//! Angles, times and speeds of the needle, in numbers.

use crate::accuracy::{growth, lemma_powers, lemma_roundings_add, near, scale};
use crate::binary32::{
    at_most, difference_of, integer, lemma_nearest, less, product_of, quotient_of, sum_of,
    unit_exponent, with_sign, Binary32,
};
use crate::bounds::{lemma_negation, lemma_small_integer};
use crate::estimates::{
    angles_of, lemma_milliseconds_finite, lemma_milliseconds_near, lemma_spread_finite, one,
    times_of,
};
use crate::laws::accuracy::{lemma_speed_error, speed_margin};
use crate::laws::fit::{rise, run};
use crate::laws::tracking::{is_turned_past, is_way, lemma_turned_past, lemma_way};
use crate::motion::{
    angle_between, compute_speed_least_squares, least_squares_slope, nanos_between, needle_degrees,
    to_milliseconds, totals_of, unwrap_target, History, Totals,
};
use crate::order::{lemma_rank_order, lemma_units_zero};
use crate::rounding::{distance, lemma_encode_zero};
use crate::skillcheck_logic::pointer_of;
use vstd::arithmetic::power2::{lemma_pow2_pos, pow2};
use vstd::prelude::*;

verus! {

/// An arc in radians comes out in degrees: times `180 / pi`, an arc below 0
/// after a full turn of `2 * pi` was added.
pub proof fn lemma_arc_in_degrees(radians: Binary32, degrees: Binary32)
    requires
        call_ensures(needle_degrees, (radians,), degrees),
    ensures
        ({
            let degrees_per_radian = Binary32 { bits: 0x4265_2ee1 };
            let full_turn = Binary32 { bits: 0x40c9_0fdb };
            &&& !less(radians, integer(0)) ==> degrees == product_of(radians, degrees_per_radian)
            &&& less(radians, integer(0)) ==> degrees == product_of(
                sum_of(radians, full_turn),
                degrees_per_radian,
            )
        }),
{
}

/// The needle is where its arc points in degrees, and nowhere without an arc.
pub proof fn lemma_needle_where_arc_points(radians: Binary32, degrees: Binary32)
    requires
        call_ensures(needle_degrees, (radians,), degrees),
    ensures
        pointer_of(Some(radians)) == Some(degrees),
        pointer_of(None) == None::<Binary32>,
{
}

/// The way between two angles is the shorter one.
pub proof fn lemma_shorter_way_taken(from: Binary32, to: Binary32, way: Binary32)
    requires
        call_ensures(angle_between, (from, to), way),
    ensures
        is_way(from, to, way),
{
    lemma_way(from, to, way);
}

/// Between whole degrees the way is exact: at most half a turn, and it leads
/// from the one to the other around the circle.
pub proof fn lemma_whole_degrees_apart(from: int, to: int, way: Binary32)
    requires
        call_ensures(angle_between, (integer(from), integer(to)), way),
        0 <= from <= 360,
        0 <= to <= 360,
    ensures
        exists|degrees: int|
            -180 <= degrees <= 180 && (#[trigger] (from + degrees) - to) % 360 == 0
                && way.finite() && way.value() == degrees * pow2(unit_exponent()),
{
    let unit = pow2(unit_exponent());
    let plain = difference_of(integer(to), integer(from));
    lemma_pow2_pos(unit_exponent());
    lemma_way(integer(from), integer(to), way);
    lemma_difference_whole(to, from);
    lemma_small_integer(-180);
    lemma_small_integer(180);
    lemma_small_integer(to - from);
    lemma_rank_order(plain, integer(-180));
    lemma_rank_order(integer(180), plain);
    let d = to - from;
    assert((d * unit < -180 * unit) == (d < -180) && (180 * unit < d * unit) == (180 < d))
        by (nonlinear_arith)
        requires
            unit > 0,
    ;
    let degrees = if d < -180 {
        d + 360
    } else if d > 180 {
        d - 360
    } else {
        d
    };
    if d < -180 {
        lemma_sum_whole(d, 360);
    } else if d > 180 {
        lemma_difference_whole(d, 360);
    }
    assert(way.value() == degrees * unit);
    assert(((from + degrees) - to) % 360 == 0);
}

/// Small whole numbers add up exactly.
proof fn lemma_sum_whole(a: int, b: int)
    requires
        -0x10_0000 < a < 0x10_0000,
        -0x10_0000 < b < 0x10_0000,
    ensures
        sum_of(integer(a), integer(b)).finite(),
        sum_of(integer(a), integer(b)).value() == (a + b) * pow2(unit_exponent()),
        a + b != 0 ==> sum_of(integer(a), integer(b)) == integer(a + b),
        a >= 0 || b >= 0 ==> sum_of(integer(a), integer(b)) == integer(a + b),
{
    let unit = pow2(unit_exponent());
    lemma_pow2_pos(unit_exponent());
    lemma_small_integer(a);
    lemma_small_integer(b);
    lemma_small_integer(a + b);
    assert(a * unit + b * unit == (a + b) * unit) by (nonlinear_arith);
    let total = (a + b) * unit;
    assert((a + b < 0) == (total < 0) && (a + b == 0) == (total == 0)) by (nonlinear_arith)
        requires
            unit > 0,
            total == (a + b) * unit,
    ;
    assert(-total == (-(a + b)) * unit) by (nonlinear_arith)
        requires
            total == (a + b) * unit,
    ;
    lemma_zero_held();
    lemma_units_zero(sum_of(integer(a), integer(b)));
    lemma_sign_held(a);
    lemma_sign_held(b);
}

proof fn lemma_zero_held()
    ensures
        integer(0) == with_sign(false, 0),
        with_sign(true, 0).magnitude() == 0,
        with_sign(false, 0).magnitude() == 0,
{
    assert(0 * pow2(unit_exponent()) == 0);
    lemma_encode_zero(24, 1);
}

proof fn lemma_sign_held(a: int)
    ensures
        integer(a).negative() == (a < 0),
{
    let size = (if a < 0 {
        -a
    } else {
        a
    }) as nat;
    lemma_nearest(a < 0, size * pow2(unit_exponent()), 1);
}

/// Small whole numbers subtract exactly.
proof fn lemma_difference_whole(a: int, b: int)
    requires
        -0x10_0000 < a < 0x10_0000,
        0 <= b < 0x10_0000,
    ensures
        difference_of(integer(a), integer(b)).finite(),
        difference_of(integer(a), integer(b)).value() == (a - b) * pow2(unit_exponent()),
        a != b ==> difference_of(integer(a), integer(b)) == integer(a - b),
        a >= 0 ==> difference_of(integer(a), integer(b)) == integer(a - b),
{
    let unit = pow2(unit_exponent());
    lemma_pow2_pos(unit_exponent());
    lemma_small_integer(a);
    lemma_small_integer(b);
    lemma_small_integer(a - b);
    lemma_negation(integer(b));
    assert(a * unit - b * unit == (a - b) * unit) by (nonlinear_arith);
    let total = (a - b) * unit;
    assert((a - b < 0) == (total < 0) && (a == b) == (total == 0)) by (nonlinear_arith)
        requires
            unit > 0,
            total == (a - b) * unit,
    ;
    assert(-total == (b - a) * unit) by (nonlinear_arith)
        requires
            total == (a - b) * unit,
    ;
    lemma_zero_held();
    lemma_units_zero(difference_of(integer(a), integer(b)));
    lemma_sign_held(a);
    lemma_sign_held(b);
}

/// The time between two clock readings is their difference, or nothing where
/// the second is not later.
pub proof fn lemma_time_between(from: u64, to: u64, nanos: u64)
    requires
        call_ensures(nanos_between, (from, to), nanos),
    ensures
        to >= from ==> from + nanos == to,
        to < from ==> nanos == 0,
{
}

/// A duration in milliseconds is a millionth of its nanoseconds, but for four
/// parts in `2^24 - 4`; it is made of whole seconds and the rest.
pub proof fn lemma_duration_in_milliseconds(nanos: u64, milliseconds: Binary32)
    requires
        call_ensures(to_milliseconds, (nanos,), milliseconds),
    ensures
        milliseconds.finite(),
        (0x100_0000 - 4) * distance(milliseconds.value() * 1_000_000, nanos * one()) <= 4 * (nanos
            * one()),
        milliseconds == product_of(
            sum_of(
                integer((nanos / 1_000_000_000) as int),
                quotient_of(integer((nanos % 1_000_000_000) as int), integer(1_000_000_000)),
            ),
            integer(1000),
        ),
{
    lemma_milliseconds_finite(nanos);
    lemma_milliseconds_near(nanos);
    reveal(near);
    lemma_powers(4);
    lemma_roundings_add(4);
    let (s, g) = (scale(4), growth(4));
    let x = nanos as nat * one();
    let off = distance(milliseconds.value() * 1_000_000, x as int);
    assert(s * off <= g * x - s * x);
    assert((0x100_0000 - 4) * off <= 4 * x) by (nonlinear_arith)
        requires
            s * off <= g * x - s * x,
            g * (0x100_0000 - 4) <= s * 0x100_0000,
            s > 0,
            x >= 0,
    {
        assert((0x100_0000 - 4) * (s * off) <= (0x100_0000 - 4) * (g * x - s * x));
        assert((0x100_0000 - 4) * (g * x) == (g * (0x100_0000 - 4)) * x);
        assert((g * (0x100_0000 - 4)) * x <= (s * 0x100_0000) * x);
        assert((0x100_0000 - 4) * (s * off) == s * ((0x100_0000 - 4) * off));
        assert((s * 0x100_0000) * x - (0x100_0000 - 4) * (s * x) == s * (4 * x));
    }
}

/// A target is turned forward by full turns until it is no longer behind, and
/// no further.
pub proof fn lemma_target_unwrapped(
    target: Binary32,
    current: Binary32,
    result: Binary32,
    turns: Seq<Binary32>,
)
    requires
        call_ensures(unwrap_target, (target, current), result),
        is_turned_past(turns, target, current),
    ensures
        result == turns.last(),
        !less(result, current),
{
    lemma_turned_past(turns, target, current);
}

/// A measured speed is the exact least-squares slope of the readings, but for
/// what roundings can do.
pub proof fn lemma_measured_speed(history: &History, speed: Option<Binary32>)
    requires
        call_ensures(compute_speed_least_squares, (history,), speed),
        history@.len() <= 0x1_0000,
        speed is Some,
        speed->0.finite(),
    ensures
        scale(2 * history@.len() + 11) * one() * distance(
            speed->0.value() * run(times_of(history@)),
            1_000_000 * rise(times_of(history@), angles_of(history@)),
        ) <= speed_margin(history@, speed->0),
{
    lemma_spread_finite(history@);
    lemma_speed_error(history@, speed->0);
}

/// The time of a reading in milliseconds from the first one on, 0 where the
/// clock went back: whole seconds and the rest, a thousand for each second.
pub open spec fn is_time_of(time: Binary32, history: Seq<(u64, Binary32)>, index: int) -> bool {
    let nanos: int = if history[index].0 >= history[0].0 {
        history[index].0 - history[0].0
    } else {
        0
    };
    time == product_of(
        sum_of(
            integer(nanos / 1_000_000_000),
            quotient_of(integer(nanos % 1_000_000_000), integer(1_000_000_000)),
        ),
        integer(1000),
    )
}

/// Sums of more and more parts, from none to all of them.
pub open spec fn is_running_sum(sums: Seq<Binary32>, parts: Seq<Binary32>) -> bool {
    &&& sums.len() == parts.len() + 1
    &&& sums[0] == integer(0)
    &&& forall|i: int|
        0 <= i < parts.len() ==> #[trigger] sums[i + 1] == sum_of(sums[i], parts[i])
}

/// Every number times the one at the same place.
pub open spec fn products(a: Seq<Binary32>, b: Seq<Binary32>) -> Seq<Binary32> {
    Seq::new(a.len(), |i: int| product_of(a[i], b[i]))
}

/// The angles of all readings.
pub open spec fn positions(history: Seq<(u64, Binary32)>) -> Seq<Binary32> {
    Seq::new(history.len(), |i: int| history[i].1)
}

proof fn lemma_totals_are(
    history: Seq<(u64, Binary32)>,
    times: Seq<Binary32>,
    t: Seq<Binary32>,
    a: Seq<Binary32>,
    tt: Seq<Binary32>,
    ta: Seq<Binary32>,
    end: int,
)
    requires
        times.len() == history.len(),
        forall|i: int| 0 <= i < times.len() ==> is_time_of(#[trigger] times[i], history, i),
        is_running_sum(t, times),
        is_running_sum(a, positions(history)),
        is_running_sum(tt, products(times, times)),
        is_running_sum(ta, products(times, positions(history))),
        0 <= end <= history.len(),
    ensures
        totals_of(history, end) == (Totals { t: t[end], a: a[end], tt: tt[end], ta: ta[end] }),
    decreases end,
{
    if end > 0 {
        let last = end - 1;
        lemma_totals_are(history, times, t, a, tt, ta, last);
        assert(is_time_of(times[last], history, last));
        assert(t[last + 1] == sum_of(t[last], times[last]));
        assert(a[last + 1] == sum_of(a[last], positions(history)[last]));
        assert(tt[last + 1] == sum_of(tt[last], products(times, times)[last]));
        assert(ta[last + 1] == sum_of(ta[last], products(times, positions(history))[last]));
    }
}

/// The speed over all readings, however many: their number times the products of
/// time and angle less the times by the angles, divided by their number times
/// the squared times less the times by themselves. There is none for fewer than
/// two readings, nor where the divisor is not above 0.
pub proof fn lemma_speed_of_all_readings(
    history: &History,
    speed: Option<Binary32>,
    times: Seq<Binary32>,
    t: Seq<Binary32>,
    a: Seq<Binary32>,
    tt: Seq<Binary32>,
    ta: Seq<Binary32>,
)
    requires
        call_ensures(compute_speed_least_squares, (history,), speed),
        times.len() == history@.len(),
        forall|i: int| 0 <= i < times.len() ==> is_time_of(#[trigger] times[i], history@, i),
        is_running_sum(t, times),
        is_running_sum(a, positions(history@)),
        is_running_sum(tt, products(times, times)),
        is_running_sum(ta, products(times, positions(history@))),
    ensures
        ({
            let n = integer(history@.len() as int);
            let divisor = difference_of(
                product_of(n, tt.last()),
                product_of(t.last(), t.last()),
            );
            let dividend = difference_of(
                product_of(n, ta.last()),
                product_of(t.last(), a.last()),
            );
            &&& history@.len() < 2 || at_most(divisor, integer(0)) ==> speed is None
            &&& history@.len() >= 2 && !at_most(divisor, integer(0)) ==> speed == Some(
                quotient_of(dividend, divisor),
            )
        }),
{
    lemma_totals_are(history@, times, t, a, tt, ta, history@.len() as int);
}

/// The slope that tracking goes by is the speed measured over its readings.
pub proof fn lemma_speed_gone_by(history: &History, speed: Option<Binary32>)
    requires
        call_ensures(compute_speed_least_squares, (history,), speed),
    ensures
        least_squares_slope(history@) == speed,
{
}

} // verus!
