//! The needle's motion: its angle, its steps, its speed, and how far it still has to go.

use crate::binary32::{
    at_most, difference_of, integer, less, product_of, quotient_of, sum_of, Binary32,
};
use std::collections::VecDeque;
use vstd::prelude::*;

verus! {

/// A full turn in radians, `2 * pi`.
pub open spec fn full_turn() -> Binary32 {
    Binary32 { bits: 0x40c9_0fdb }
}

/// Half a turn in radians, `pi`.
pub open spec fn half_turn() -> Binary32 {
    Binary32 { bits: 0x4049_0fdb }
}

/// The degrees of one radian, `180 / pi`.
pub open spec fn degrees_per_radian() -> Binary32 {
    Binary32 { bits: 0x4265_2ee1 }
}

/// An angle between minus and plus half a turn, as an arc tangent is.
pub open spec fn is_arc(radians: Binary32) -> bool {
    !radians.nan() && radians.magnitude() <= half_turn().magnitude()
}

/// An arc in degrees, counted from 0 on upwards.
pub open spec fn degrees_of(radians: Binary32) -> Binary32 {
    let turned = if less(radians, integer(0)) {
        sum_of(radians, full_turn())
    } else {
        radians
    };
    product_of(turned, degrees_per_radian())
}

/// The needle's angle in degrees, from the arc tangent of its direction.
pub fn needle_degrees(radians: Binary32) -> (degrees: Binary32)
    ensures
        degrees == degrees_of(radians),
{
    let turned: Binary32 = if radians.lt(Binary32::from_u64(0)) {
        radians.plus(Binary32 { bits: 0x40c9_0fdb })
    } else {
        radians
    };
    turned.times(Binary32 { bits: 0x4265_2ee1 })
}

/// The shorter way from one angle to another, in degrees; backwards is negative.
pub open spec fn shorter_way(from: Binary32, to: Binary32) -> Binary32 {
    let way = difference_of(to, from);
    if less(way, integer(-180)) {
        sum_of(way, integer(360))
    } else if less(integer(180), way) {
        difference_of(way, integer(360))
    } else {
        way
    }
}

/// The shorter way from one angle to another, in degrees.
pub fn angle_between(from: Binary32, to: Binary32) -> (way: Binary32)
    ensures
        way == shorter_way(from, to),
{
    let way: Binary32 = to.minus(from);
    if way.lt(Binary32::from_i32(-180)) {
        way.plus(Binary32::from_u64(360))
    } else if way.gt(Binary32::from_u64(180)) {
        way.minus(Binary32::from_u64(360))
    } else {
        way
    }
}

/// The nanoseconds from one clock reading to a later one; 0 where it is not later.
pub open spec fn elapsed(from: u64, to: u64) -> u64 {
    if to >= from {
        (to - from) as u64
    } else {
        0
    }
}

/// The nanoseconds from one clock reading to a later one.
pub fn nanos_between(from: u64, to: u64) -> (nanos: u64)
    ensures
        nanos == elapsed(from, to),
{
    if to >= from {
        to - from
    } else {
        0
    }
}

/// A duration in seconds: the whole ones plus the rest.
pub open spec fn seconds_of(nanos: u64) -> Binary32 {
    sum_of(
        integer((nanos / 1_000_000_000) as int),
        quotient_of(integer((nanos % 1_000_000_000) as int), integer(1_000_000_000)),
    )
}

/// A duration in milliseconds.
pub open spec fn milliseconds_of(nanos: u64) -> Binary32 {
    product_of(seconds_of(nanos), integer(1000))
}

/// A duration in milliseconds.
pub fn to_milliseconds(nanos: u64) -> (milliseconds: Binary32)
    ensures
        milliseconds == milliseconds_of(nanos),
{
    let whole: Binary32 = Binary32::from_u64(nanos / 1_000_000_000);
    let rest: Binary32 = Binary32::from_u64(nanos % 1_000_000_000);
    whole.plus(rest.over(Binary32::from_u64(1_000_000_000))).times(Binary32::from_u64(1000))
}

/// Clock readings in nanoseconds, each with the unwrapped angle at that time.
pub type History = VecDeque<(u64, Binary32)>;

/// Running totals over a history: of the times, the angles, the squared times,
/// and the products of time and angle. Times are in milliseconds from the
/// first reading on.
#[derive(Clone, Copy)]
pub struct Totals {
    pub t: Binary32,
    pub a: Binary32,
    pub tt: Binary32,
    pub ta: Binary32,
}

/// The totals over the first `end` readings.
pub open spec fn totals_of(history: Seq<(u64, Binary32)>, end: int) -> Totals
    decreases end,
{
    if end <= 0 {
        Totals { t: integer(0), a: integer(0), tt: integer(0), ta: integer(0) }
    } else {
        let before = totals_of(history, end - 1);
        let time = milliseconds_of(elapsed(history[0].0, history[end - 1].0));
        let angle = history[end - 1].1;
        Totals {
            t: sum_of(before.t, time),
            a: sum_of(before.a, angle),
            tt: sum_of(before.tt, product_of(time, time)),
            ta: sum_of(before.ta, product_of(time, angle)),
        }
    }
}

/// How far the readings are apart in time: the denominator of their slope.
pub open spec fn spread_of(history: Seq<(u64, Binary32)>) -> Binary32 {
    let n = integer(history.len() as int);
    let sums = totals_of(history, history.len() as int);
    difference_of(product_of(n, sums.tt), product_of(sums.t, sums.t))
}

/// The numerator of the slope.
pub open spec fn climb_of(history: Seq<(u64, Binary32)>) -> Binary32 {
    let n = integer(history.len() as int);
    let sums = totals_of(history, history.len() as int);
    difference_of(product_of(n, sums.ta), product_of(sums.t, sums.a))
}

/// The least-squares slope of angle over time, in degrees per millisecond.
/// There is none for fewer than two readings, nor where all are at one time.
pub open spec fn least_squares_slope(history: Seq<(u64, Binary32)>) -> Option<Binary32> {
    if history.len() < 2 || at_most(spread_of(history), integer(0)) {
        None
    } else {
        Some(quotient_of(climb_of(history), spread_of(history)))
    }
}

/// The totals with the next reading.
fn with_reading(history: &History, index: usize, sums: Totals) -> (totals: Totals)
    requires
        index < history@.len(),
        sums == totals_of(history@, index as int),
    ensures
        totals == totals_of(history@, index + 1),
{
    let (at, angle) = history[index];
    let time: Binary32 = to_milliseconds(nanos_between(history[0].0, at));
    Totals {
        t: sums.t.plus(time),
        a: sums.a.plus(angle),
        tt: sums.tt.plus(time.times(time)),
        ta: sums.ta.plus(time.times(angle)),
    }
}

/// The speed of the needle: the least-squares slope of its history.
pub fn compute_speed_least_squares(history: &History) -> (speed: Option<Binary32>)
    ensures
        speed == least_squares_slope(history@),
{
    if history.len() < 2 {
        return None;
    }
    let n: Binary32 = Binary32::from_u64(history.len() as u64);
    let zero: Binary32 = Binary32::from_u64(0);
    let mut sums: Totals = Totals { t: zero, a: zero, tt: zero, ta: zero };
    let mut i: usize = 0;
    while i < history.len()
        invariant
            i <= history.len(),
            history.len() >= 2,
            sums == totals_of(history@, i as int),
        decreases history.len() - i,
    {
        sums = with_reading(history, i, sums);
        i = i + 1;
    }
    let spread: Binary32 = n.times(sums.tt).minus(sums.t.times(sums.t));
    if spread.le(zero) {
        return None;
    }
    Some(n.times(sums.ta).minus(sums.t.times(sums.a)).over(spread))
}

/// An angle turned forward by whole turns.
pub open spec fn turned(angle: Binary32, turns: nat) -> Binary32
    decreases turns,
{
    if turns == 0 {
        angle
    } else {
        sum_of(turned(angle, (turns - 1) as nat), integer(360))
    }
}

/// After this many turns, and not before, the angle is no longer behind.
pub open spec fn catches_up(angle: Binary32, current: Binary32, turns: nat) -> bool {
    &&& !less(turned(angle, turns), current)
    &&& forall|fewer: nat| fewer < turns ==> less(#[trigger] turned(angle, fewer), current)
}

/// Some number of turns brings the angle up to the current one.
pub open spec fn reaches(angle: Binary32, current: Binary32) -> bool {
    exists|turns: nat| #[trigger] catches_up(angle, current, turns)
}

/// The target turned forward until it is no longer behind the current angle.
pub open spec fn ahead_of(target: Binary32, current: Binary32) -> Binary32 {
    turned(target, choose|turns: nat| #[trigger] catches_up(target, current, turns))
}

/// Turns the target forward until it is no longer behind the current angle.
pub fn unwrap_target(target: Binary32, current: Binary32) -> (result: Binary32)
    requires
        reaches(target, current),
    ensures
        result == ahead_of(target, current),
        !less(result, current),
{
    let ghost turns = choose|turns: nat| #[trigger] catches_up(target, current, turns);
    let ghost mut done: nat = 0;
    let mut angle: Binary32 = target;
    let full: Binary32 = Binary32::from_u64(360);
    while angle.lt(current)
        invariant
            full == integer(360),
            catches_up(target, current, turns),
            done <= turns,
            angle == turned(target, done),
        decreases turns - done,
    {
        angle = angle.plus(full);
        proof {
            done = done + 1;
        }
    }
    proof {
        if done < turns {
            assert(less(turned(target, done), current));
        }
    }
    angle
}

} // verus!
