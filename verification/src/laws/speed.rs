//! The measured speed.

use crate::binary32::{
    integer, lemma_nearest, lemma_with_sign, negation_of, precision, product_of, quotient_of,
    sum_of, unit_exponent, Binary32,
};
use crate::bounds::lemma_zero;
use crate::motion::{elapsed, least_squares_slope, milliseconds_of, seconds_of, totals_of};
use crate::order::{lemma_count_finite, lemma_units_zero};
use crate::rounding::lemma_encode_zero;
use vstd::arithmetic::power2::{lemma_pow2_pos, pow2};
use vstd::prelude::*;

verus! {

/// A history with all clock readings later by the same time.
pub open spec fn shifted(history: Seq<(u64, Binary32)>, by: u64) -> Seq<(u64, Binary32)> {
    Seq::new(history.len(), |i: int| ((history[i].0 + by) as u64, history[i].1))
}

proof fn lemma_totals_shifted(history: Seq<(u64, Binary32)>, by: u64, end: int)
    requires
        0 <= end <= history.len(),
        forall|i: int| 0 <= i < history.len() ==> (#[trigger] history[i]).0 + by <= u64::MAX,
    ensures
        totals_of(shifted(history, by), end) == totals_of(history, end),
    decreases end,
{
    if end > 0 {
        lemma_totals_shifted(history, by, end - 1);
        let (first, last) = (history[0].0, history[end - 1].0);
        assert(elapsed((first + by) as u64, (last + by) as u64) == elapsed(first, last));
    }
}

/// The speed does not depend on when the clock began to count.
pub proof fn lemma_speed_ignores_clock_origin(history: Seq<(u64, Binary32)>, by: u64)
    requires
        forall|i: int| 0 <= i < history.len() ==> (#[trigger] history[i]).0 + by <= u64::MAX,
    ensures
        least_squares_slope(shifted(history, by)) == least_squares_slope(history),
{
    lemma_totals_shifted(history, by, history.len() as int);
}

/// Zeros of either sign add up to a zero.
proof fn lemma_zero_sum(a: Binary32, b: Binary32)
    requires
        a.magnitude() == 0,
        b.magnitude() == 0,
    ensures
        sum_of(a, b).magnitude() == 0,
{
    lemma_units_zero(a);
    lemma_units_zero(b);
    lemma_with_sign(a.negative() && b.negative(), 0);
}

/// A zero times a number is a zero.
proof fn lemma_zero_product(a: Binary32, b: Binary32)
    requires
        a.finite(),
        b.magnitude() == 0,
    ensures
        product_of(a, b).magnitude() == 0,
{
    lemma_units_zero(b);
    assert(a.units() * b.units() == 0) by (nonlinear_arith)
        requires
            b.units() == 0,
    ;
    lemma_pow2_pos(unit_exponent());
    lemma_encode_zero(precision(), pow2(unit_exponent()));
    lemma_nearest(a.negative() != b.negative(), 0, pow2(unit_exponent()));
}

/// No time is 0 milliseconds.
proof fn lemma_no_time()
    ensures
        milliseconds_of(0).magnitude() == 0,
{
    let billion = integer(1_000_000_000);
    lemma_zero();
    let rest = quotient_of(integer(0), billion);
    lemma_zero_share(1_000_000_000);
    lemma_zero_sum(integer(0), rest);
    let seconds = seconds_of(0);
    lemma_zero_times_count(seconds, 1000);
}

/// Nothing of a total is a zero.
proof fn lemma_zero_share(total: nat)
    requires
        0 < total <= u64::MAX,
    ensures
        quotient_of(integer(0), integer(total as int)).magnitude() == 0,
{
    lemma_zero();
    lemma_count_finite(total);
    let divisor = integer(total as int);
    lemma_units_zero(integer(0));
    lemma_units_zero(divisor);
    assert(integer(0).units() * pow2(unit_exponent()) == 0) by (nonlinear_arith)
        requires
            integer(0).units() == 0,
    ;
    lemma_encode_zero(precision(), divisor.units());
    lemma_nearest(integer(0).negative() != divisor.negative(), 0, divisor.units());
}

/// A zero times a count is a zero.
proof fn lemma_zero_times_count(a: Binary32, count: nat)
    requires
        a.magnitude() == 0,
        0 < count <= u64::MAX,
    ensures
        product_of(a, integer(count as int)).magnitude() == 0,
        product_of(integer(count as int), a).magnitude() == 0,
{
    let factor = integer(count as int);
    lemma_count_finite(count);
    lemma_zero_product(factor, a);
    lemma_units_zero(a);
    assert(a.units() * factor.units() == 0) by (nonlinear_arith)
        requires
            a.units() == 0,
    ;
    lemma_pow2_pos(unit_exponent());
    lemma_encode_zero(precision(), pow2(unit_exponent()));
    lemma_nearest(a.negative() != factor.negative(), 0, pow2(unit_exponent()));
}

proof fn lemma_totals_without_time(history: Seq<(u64, Binary32)>, end: int)
    requires
        0 <= end <= history.len(),
        forall|i: int| 0 <= i < history.len() ==> (#[trigger] history[i]).0 <= history[0].0,
    ensures
        totals_of(history, end).t.magnitude() == 0,
        totals_of(history, end).tt.magnitude() == 0,
    decreases end,
{
    lemma_zero();
    if end > 0 {
        lemma_totals_without_time(history, end - 1);
        let before = totals_of(history, end - 1);
        lemma_no_time();
        assert(history[end - 1].0 <= history[0].0);
        let time = milliseconds_of(0);
        lemma_zero_product(time, time);
        lemma_zero_sum(before.t, time);
        lemma_zero_sum(before.tt, product_of(time, time));
    }
}

/// Where no clock reading is later than the first one there is no speed.
pub proof fn lemma_no_speed_without_time(history: Seq<(u64, Binary32)>)
    requires
        history.len() <= u64::MAX,
        forall|i: int| 0 <= i < history.len() ==> (#[trigger] history[i]).0 <= history[0].0,
    ensures
        least_squares_slope(history) is None,
{
    if history.len() >= 2 {
        let sums = totals_of(history, history.len() as int);
        let n = integer(history.len() as int);
        lemma_zero();
        lemma_totals_without_time(history, history.len() as int);
        lemma_zero_times_count(sums.tt, history.len());
        lemma_zero_product(sums.t, sums.t);
        let square = product_of(sums.t, sums.t);
        lemma_with_sign(!square.negative(), 0);
        lemma_zero_sum(product_of(n, sums.tt), negation_of(square));
    }
}

} // verus!
