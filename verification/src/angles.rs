//! Ranges of angles: what a frame can show, how far one step goes, and why the
//! target is always caught up with.

use crate::binary32::{
    at_most, difference_of, integer, lemma_nearest, lemma_with_sign, less, negation_of, precision,
    quotient_of, sum_of, unit_exponent, Binary32,
};
use crate::bounds::{
    lemma_against_integer, lemma_negation, lemma_sum_between, lemma_sum_monotone, lemma_within_one,
    lemma_zero,
};
use crate::motion::{
    catches_up, degrees_of, degrees_per_radian, full_turn, half_turn, is_arc, reaches, shorter_way,
    turned,
};
use crate::order::{
    lemma_decode_order, lemma_encode_power, lemma_integer_exact, lemma_nearest_of_units,
    lemma_rank_order, lemma_units_zero,
};
use crate::pixels::{is_circle, Direction};
use crate::rounding::{
    decode, distance, encode, lemma_decode, lemma_encode_at_exponent, lemma_encode_decode,
    lemma_encode_monotone, lemma_encode_nearest, lemma_encode_zero, lemma_fields,
    lemma_quotient_bounds, lemma_quotient_unique, lemma_representable,
};
use crate::scan::{cosine_sum, sine_sum};
use vstd::arithmetic::power2::{
    lemma2_to64, lemma2_to64_rest, lemma_pow2_adds, lemma_pow2_pos, lemma_pow2_strictly_increases,
    lemma_pow2_unfold, pow2,
};
use vstd::prelude::*;

verus! {

/// An angle as a frame shows it: from 0 to 360 degrees.
pub open spec fn is_angle(angle: Binary32) -> bool {
    at_most(integer(0), angle) && at_most(angle, integer(360))
}

/// An angle that has been counted up over whole turns, to at most `2^32` degrees.
pub open spec fn is_unwrapped(angle: Binary32) -> bool {
    at_most(integer(0), angle) && at_most(angle, integer(0x1_0000_0000))
}

proof fn lemma_minus_180()
    ensures
        integer(-180).finite(),
        integer(-180).value() == -180 * pow2(unit_exponent()),
{
    lemma_integer_exact(180);
    lemma_nearest(false, 180 * pow2(unit_exponent()), 1);
    lemma_nearest(true, 180 * pow2(unit_exponent()), 1);
}

/// An angle as a range of values.
proof fn lemma_is_angle(angle: Binary32)
    ensures
        is_angle(angle) <==> angle.finite() && 0 <= angle.value() <= 360 * pow2(unit_exponent()),
{
    lemma_zero();
    assert(0 * pow2(unit_exponent()) == 0);
    lemma_against_integer(angle, 0);
    lemma_against_integer(angle, 360);
}

/// The shorter way between two angles of a frame is at most half a turn.
#[verifier::spinoff_prover]
pub proof fn lemma_shorter_way_bounded(from: Binary32, to: Binary32)
    requires
        is_angle(from),
        is_angle(to),
    ensures
        shorter_way(from, to).finite(),
        -180 * pow2(unit_exponent()) <= shorter_way(from, to).value() <= 180 * pow2(
            unit_exponent(),
        ),
{
    let unit = pow2(unit_exponent());
    lemma_pow2_pos(unit_exponent());
    lemma_is_angle(from);
    lemma_is_angle(to);
    lemma_integer_exact(360);
    lemma_integer_exact(180);
    lemma_minus_180();
    let back = negation_of(from);
    lemma_negation(from);
    lemma_sum_between(to, back, -360, 360);
    let way = difference_of(to, from);
    lemma_rank_order(way, integer(-180));
    lemma_rank_order(integer(180), way);
    if less(way, integer(-180)) {
        lemma_sum_between(way, integer(360), 0, 180);
    } else if less(integer(180), way) {
        let full = negation_of(integer(360));
        lemma_negation(integer(360));
        lemma_sum_between(way, full, -180, 0);
    }
}

/// A full turn in radians, times the degrees of one radian, is a little over 360
/// and rounds to it.
proof fn lemma_full_turn()
    ensures
        encode(precision(), (0xc9_0fdb * 0xe5_2ee1 * pow2(110)) as nat, 1) == encode(
            precision(),
            360 * pow2(unit_exponent()),
            1,
        ),
{
    let unit = pow2(134);
    let most = (0xc9_0fdb * 0xe5_2ee1 * pow2(110)) as nat;
    let exact = 360 * pow2(149);
    lemma2_to64();
    lemma_pow2_pos(134);
    lemma_pow2_pos(110);
    lemma_pow2_adds(24, 110);
    lemma_pow2_adds(15, 134);
    lemma_pow2_adds(23, 134);
    lemma_pow2_adds(24, 134);
    assert(1 * pow2(134) == unit && 1 * pow2(157) == pow2(157) && 1 * pow2(158) == pow2(158));
    assert(most == 11_796_480 * unit + 7_817_595 * pow2(110)) by (nonlinear_arith)
        requires
            most == 0xc9_0fdb * 0xe5_2ee1 * pow2(110),
            unit == 0x100_0000 * pow2(110),
    ;
    assert(exact == 11_796_480 * unit + 0) by (nonlinear_arith)
        requires
            exact == 360 * (0x8000 * unit),
    ;
    lemma_quotient_unique(most, unit, 11_796_480, 7_817_595 * pow2(110));
    lemma_quotient_unique(exact, unit, 11_796_480, 0);
    lemma_encode_at_exponent(precision(), most, 1, 134);
    lemma_encode_at_exponent(precision(), exact, 1, 134);
}

/// The degrees of an arc are an angle as a frame shows it.
pub proof fn lemma_degrees_in_range(radians: Binary32)
    requires
        is_arc(radians),
    ensures
        is_angle(degrees_of(radians)),
{
    let unit = pow2(unit_exponent());
    lemma_zero();
    lemma_pow2_pos(unit_exponent());
    lemma2_to64();
    // The constants, as significands and exponents.
    lemma_decode(precision(), 128, 0xc9_0fdb);
    lemma_decode(precision(), 127, 0xc9_0fdb);
    lemma_decode(precision(), 131, 0xe5_2ee1);
    lemma_pow2_unfold(128);
    let turn = full_turn();
    let factor = degrees_per_radian();
    assert(turn.units() == 0xc9_0fdb * pow2(128));
    assert(half_turn().units() == 0xc9_0fdb * pow2(127));
    assert(factor.units() == 0xe5_2ee1 * pow2(131));
    lemma_decode_order(precision(), radians.magnitude(), half_turn().magnitude());
    lemma_rank_order(radians, integer(0));
    let turned = if less(radians, integer(0)) {
        sum_of(radians, turn)
    } else {
        radians
    };
    assert(turned.finite() && turned.units() <= turn.units() && 0 <= turned.value()) by {
        if less(radians, integer(0)) {
            let total = radians.value() + turn.value();
            assert(0 < total <= turn.units());
            lemma_encode_monotone(precision(), total as nat, 1, turn.units(), 1);
            lemma_encode_decode(precision(), turn.magnitude());
            lemma_nearest(false, total as nat, 1);
            lemma_decode_order(precision(), turned.magnitude(), turn.magnitude());
        }
    }
    lemma_units_zero(turned);
    let num = turned.units() * factor.units();
    lemma_integer_exact(360);
    lemma_full_turn();
    let most = 0xc9_0fdb * 0xe5_2ee1 * pow2(110);
    lemma_pow2_pos(131);
    lemma_pow2_adds(128, 131);
    lemma_pow2_adds(110, 149);
    assert(num * 1 <= most * unit) by (nonlinear_arith)
        requires
            num == turned.units() * factor.units(),
            turned.units() <= 0xc9_0fdb * pow2(128),
            factor.units() == 0xe5_2ee1 * pow2(131),
            most == 0xc9_0fdb * 0xe5_2ee1 * pow2(110),
            unit == pow2(149),
            pow2(128) * pow2(131) == pow2(110) * pow2(149),
            pow2(131) > 0,
    ;
    lemma_encode_monotone(precision(), num, unit, most as nat, 1);
    lemma_nearest(false, 360 * unit, 1);
    lemma_nearest(turned.negative(), num, unit);
    if turned.negative() {
        assert(num == 0) by (nonlinear_arith)
            requires
                num == 0 * factor.units(),
        ;
        lemma_encode_zero(precision(), unit);
    }
}

/// Not before `-2^33` degrees, from where on single precision can tell a turn.
pub open spec fn turnable_from(angle: Binary32) -> bool {
    !less(angle, integer(-0x2_0000_0000))
}

/// Not beyond `2^33` degrees, up to where single precision can tell a turn.
pub open spec fn turnable_to(angle: Binary32) -> bool {
    !less(integer(0x2_0000_0000), angle)
}

/// `2^33` is held exactly, with either sign.
proof fn lemma_eight_billion()
    ensures
        integer(0x2_0000_0000).finite(),
        integer(0x2_0000_0000).rank() == 0x5000_0000,
        integer(0x2_0000_0000).value() == 0x2_0000_0000 * pow2(149),
        integer(-0x2_0000_0000).finite(),
        integer(-0x2_0000_0000).rank() == -0x5000_0000,
        integer(-0x2_0000_0000).value() == -0x2_0000_0000 * pow2(149),
        pow2(182) == 0x2_0000_0000 * pow2(149),
        decode(precision(), 0x5000_0000) == pow2(182),
{
    lemma2_to64();
    lemma2_to64_rest();
    lemma_pow2_adds(33, 149);
    lemma_encode_power(159);
    lemma_nearest(false, 0x2_0000_0000 * pow2(149), 1);
    lemma_nearest(true, 0x2_0000_0000 * pow2(149), 1);
    lemma_decode(precision(), 159, pow2(23));
    lemma_pow2_adds(23, 159);
}

/// Rounding moves a value of up to `2^33` degrees, and a turn more, by less than a turn.
proof fn lemma_rounds_within_turn(exact: nat)
    requires
        exact < 0x2_0000_0000 * pow2(149) + 360 * pow2(149),
    ensures
        encode(precision(), exact, 1) < 0x5080_0000,
        distance(exact as int, decode(precision(), encode(precision(), exact, 1)) as int) < 360
            * pow2(149),
{
    let unit = pow2(149);
    lemma_pow2_pos(149);
    lemma2_to64();
    lemma2_to64_rest();
    // A multiple of 512 degrees is near.
    let step = pow2(158);
    lemma_pow2_adds(9, 149);
    lemma_quotient_bounds(exact, step);
    let quotient = exact / step;
    let rest = exact % step;
    let multiple = if exact >= 0x100_0000 * step {
        0x100_0000
    } else if 2 * rest <= step {
        quotient
    } else {
        quotient + 1
    };
    assert(exact < 0x100_0000 * step ==> quotient < 0x100_0000) by (nonlinear_arith)
        requires
            exact == quotient * step + rest,
            rest >= 0,
            step > 0,
    ;
    if multiple < 0x100_0000 {
        lemma_representable(precision(), multiple, 158);
    } else {
        lemma_representable(precision(), pow2(23), 159);
        lemma_pow2_unfold(159);
        assert(multiple * step == pow2(23) * pow2(159)) by (nonlinear_arith)
            requires
                multiple == 0x100_0000,
                pow2(159) == 2 * step,
                pow2(23) == 0x80_0000,
        ;
    }
    let offered = encode(precision(), multiple * step, 1);
    lemma_encode_nearest(precision(), exact, 1, offered);
    assert(exact < 0x100_0000 * step ==> 2 * distance(exact as int, (multiple * step) as int)
        <= step) by (nonlinear_arith)
        requires
            exact == quotient * step + rest,
            0 <= rest < step,
            exact < 0x100_0000 * step ==> ((2 * rest <= step && multiple == quotient) || (2 * rest
                > step && multiple == quotient + 1)),
    ;
    lemma_encode_power(160);
    lemma_pow2_adds(34, 149);
    lemma_encode_monotone(precision(), exact, 1, pow2(183), 1);
    // The encoding of `2^34` degrees stands for more than the nearest value can be.
    lemma_decode(precision(), 160, pow2(23));
    lemma_pow2_adds(23, 160);
}

/// One more turn moves an angle between minus and plus `2^33` degrees forward.
proof fn lemma_turn_advances(angle: Binary32)
    requires
        at_most(integer(-0x2_0000_0000), angle),
        less(angle, integer(0x2_0000_0000)),
    ensures
        sum_of(angle, integer(360)).finite(),
        angle.rank() < sum_of(angle, integer(360)).rank(),
{
    let unit = pow2(149);
    let next = sum_of(angle, integer(360));
    lemma_pow2_pos(149);
    lemma_integer_exact(360);
    lemma_eight_billion();
    lemma_rank_order(integer(-0x2_0000_0000), angle);
    lemma_rank_order(angle, integer(0x2_0000_0000));
    let total = angle.value() + 360 * unit;
    let size = (if total < 0 {
        -total
    } else {
        total
    }) as nat;
    lemma_rounds_within_turn(size);
    lemma_nearest(total < 0, size, 1);
    lemma_with_sign(false, 0);
    lemma_units_zero(next);
    if total != 0 {
        assert(next.units() == decode(precision(), encode(precision(), size, 1)));
    }
    lemma_rank_order(angle, next);
}

/// `2^32` is held exactly.
proof fn lemma_four_billion()
    ensures
        integer(0x1_0000_0000).finite(),
        integer(0x1_0000_0000).rank() == 0x4f80_0000,
        integer(0x1_0000_0000).value() == 0x1_0000_0000 * pow2(149),
{
    lemma2_to64();
    lemma2_to64_rest();
    lemma_pow2_adds(32, 149);
    lemma_encode_power(158);
    lemma_nearest(false, 0x1_0000_0000 * pow2(149), 1);
    lemma_decode(precision(), 158, pow2(23));
    lemma_pow2_adds(23, 158);
}

/// Turning a target forward catches up with every angle, as long as single
/// precision can tell a turn on the way.
pub proof fn lemma_reaches(target: Binary32, current: Binary32)
    requires
        turnable_from(target),
        turnable_to(current),
    ensures
        reaches(target, current),
{
    lemma_eight_billion();
    let turns = lemma_catches_up(target, current, 0);
    assert(catches_up(target, current, turns));
}

proof fn lemma_catches_up(target: Binary32, current: Binary32, done: nat) -> (turns: nat)
    requires
        turnable_from(turned(target, done)),
        turnable_to(current),
        forall|fewer: nat| fewer < done ==> less(#[trigger] turned(target, fewer), current),
    ensures
        catches_up(target, current, turns),
    decreases
            (if less(turned(target, done), current) {
                1 + current.rank() - turned(target, done).rank()
            } else {
                0
            }),
{
    let angle = turned(target, done);
    if less(angle, current) {
        lemma_eight_billion();
        lemma_turn_advances(angle);
        let next = turned(target, done + 1);
        assert(next == sum_of(angle, integer(360)));
        lemma_catches_up(target, current, done + 1)
    } else {
        done
    }
}

/// A target on its way forward is a number, and no further back than it was.
pub proof fn lemma_turned_on_the_way(target: Binary32, current: Binary32, turns: nat, done: nat)
    requires
        turnable_from(target),
        turnable_to(current),
        catches_up(target, current, turns),
        done < turns,
    ensures
        turnable_from(turned(target, done)),
        turned(target, done).finite(),
    decreases done,
{
    lemma_eight_billion();
    assert(less(turned(target, done), current));
    if done > 0 {
        let before = turned(target, (done - 1) as nat);
        lemma_turned_on_the_way(target, current, turns, (done - 1) as nat);
        assert(less(before, current));
        lemma_turn_advances(before);
    }
}

/// What is ahead of a number and within reach is a number.
pub proof fn lemma_turnable_finite(angle: Binary32, current: Binary32)
    requires
        angle.finite(),
        less(angle, current),
        turnable_to(current),
    ensures
        current.finite(),
{
    lemma_eight_billion();
}

/// From `2^33` degrees on, either way, a turn is lost in rounding.
proof fn lemma_turn_is_lost(angle: Binary32)
    requires
        less(angle, integer(-0x2_0000_0000)) || at_most(integer(0x2_0000_0000), angle),
    ensures
        sum_of(angle, integer(360)) == angle,
{
    let unit = pow2(149);
    lemma_eight_billion();
    lemma_integer_exact(360);
    if angle.finite() {
        lemma2_to64();
        lemma2_to64_rest();
        lemma_pow2_pos(149);
        let units = angle.units();
        let (exponent, significand) = lemma_fields(precision(), angle.magnitude());
        lemma_decode_order(precision(), 0x5000_0000, angle.magnitude());
        let step = pow2(exponent);
        lemma_pow2_pos(exponent);
        if exponent < 159 {
            lemma_pow2_strictly_increases(exponent, 159);
            lemma_pow2_adds(23, 159);
            lemma_pow2_unfold(159);
            lemma_pow2_unfold(158);
            assert(exponent < 158 ==> pow2(exponent) < pow2(158)) by {
                if exponent < 158 {
                    lemma_pow2_strictly_increases(exponent, 158);
                }
            }
            assert(significand * step < 0x100_0000 * pow2(158)) by (nonlinear_arith)
                requires
                    significand < 0x100_0000,
                    0 < step <= pow2(158),
            ;
            assert(false);
        }
        lemma_pow2_adds(10, 149);
        if exponent > 159 {
            lemma_pow2_strictly_increases(159, exponent);
        }
        assert(1024 * unit <= step);
        lemma_nearest_of_units(angle);
        if angle.negative() {
            lemma_lost_below(exponent, significand);
        } else {
            lemma_lost_above(exponent, significand);
        }
        let total = angle.value() + 360 * unit;
        assert(significand * step >= 0x80_0000 * (1024 * unit)) by (nonlinear_arith)
            requires
                significand >= 0x80_0000,
                step >= 1024 * unit,
        ;
        lemma_nearest(angle.negative(), (if total < 0 { -total } else { total }) as nat, 1);
    }
}

/// A turn above a multiple of at least 1024 degrees rounds back to it.
proof fn lemma_lost_above(exponent: nat, significand: nat)
    requires
        exponent >= 159,
        0x80_0000 <= significand < 0x100_0000,
    ensures
        encode(precision(), significand * pow2(exponent) + 360 * pow2(149), 1) == exponent
            * 0x80_0000 + significand,
{
    let unit = pow2(149);
    let step = pow2(exponent);
    let total = significand * step + 360 * unit;
    lemma_wide_step(exponent);
    lemma2_to64();
    lemma_pow2_adds(23, exponent);
    lemma_pow2_adds(24, exponent);
    assert(0x80_0000 * step <= total < 0x100_0000 * step) by (nonlinear_arith)
        requires
            total == significand * step + 360 * unit,
            0x80_0000 <= significand < 0x100_0000,
            1024 * unit <= step,
            unit > 0,
    ;
    lemma_encode_at_exponent(precision(), total, 1, exponent);
    lemma_quotient_unique(total, step, significand, 360 * unit);
}

/// A turn below a multiple of at least 1024 degrees rounds back to it.
proof fn lemma_lost_below(exponent: nat, significand: nat)
    requires
        exponent >= 159,
        0x80_0000 <= significand < 0x100_0000,
        exponent == 159 ==> significand > 0x80_0000,
    ensures
        encode(precision(), (significand * pow2(exponent) - 360 * pow2(149)) as nat, 1) == exponent
            * 0x80_0000 + significand,
{
    let unit = pow2(149);
    lemma2_to64();
    // Just below a power of two the numbers are twice as close.
    let (lower, last) = if significand > 0x80_0000 {
        (exponent, (significand - 1) as nat)
    } else {
        ((exponent - 1) as nat, 0xff_ffff)
    };
    let step = pow2(lower);
    lemma_wide_step(lower);
    lemma_pow2_unfold(exponent);
    let total = (significand * pow2(exponent) - 360 * unit) as nat;
    assert(significand * pow2(exponent) == (last + 1) * step) by (nonlinear_arith)
        requires
            (pow2(exponent) == step && significand == last + 1) || (pow2(exponent) == 2 * step
                && significand == 0x80_0000 && last == 0xff_ffff),
    ;
    assert((last + 1) * step >= 360 * unit) by (nonlinear_arith)
        requires
            last >= 0,
            1024 * unit <= step,
            unit > 0,
    ;
    assert(total == last * step + (step - 360 * unit)) by (nonlinear_arith)
        requires
            total == (last + 1) * step - 360 * unit,
    ;
    lemma_pow2_adds(23, lower);
    lemma_pow2_adds(24, lower);
    assert(0x80_0000 * step <= total < 0x100_0000 * step) by (nonlinear_arith)
        requires
            total == last * step + (step - 360 * unit),
            0x80_0000 <= last < 0x100_0000,
            1024 * unit <= step,
            unit > 0,
    ;
    lemma_encode_at_exponent(precision(), total, 1, lower);
    lemma_quotient_unique(total, step, last, (step - 360 * unit) as nat);
}

/// At these exponents numbers are at least 1024 degrees apart.
proof fn lemma_wide_step(exponent: nat)
    requires
        exponent >= 159,
    ensures
        1024 * pow2(149) <= pow2(exponent),
        pow2(149) > 0,
{
    lemma2_to64();
    lemma_pow2_pos(149);
    lemma_pow2_adds(10, 149);
    if exponent > 159 {
        lemma_pow2_strictly_increases(159, exponent);
    }
}

/// A target that is behind, where a turn is lost in rounding, stays behind.
pub(crate) proof fn lemma_stays_behind(target: Binary32, current: Binary32, turns: nat)
    requires
        less(target, current),
        !turnable_from(target) || !turnable_to(current),
    ensures
        less(turned(target, turns), current),
        !turnable_from(target) ==> turned(target, turns) == target,
        turned(target, turns) == target || at_most(turned(target, turns), integer(0x2_0000_0000)),
    decreases turns,
{
    let limit = integer(0x2_0000_0000);
    lemma_eight_billion();
    if turns > 0 {
        let before = turned(target, (turns - 1) as nat);
        lemma_stays_behind(target, current, (turns - 1) as nat);
        if !turnable_from(target) || at_most(limit, before) {
            lemma_turn_is_lost(before);
        } else if before.finite() {
            lemma_integer_exact(360);
            lemma_turn_is_lost(limit);
            lemma_rank_order(before, limit);
            lemma_sum_monotone(before, limit, integer(360));
        } else {
            lemma_integer_exact(360);
        }
    }
}

/// An angle that is not negative can be turned.
pub proof fn lemma_not_negative_turnable(target: Binary32)
    requires
        !less(target, integer(0)),
    ensures
        turnable_from(target),
{
    lemma_zero();
    lemma_eight_billion();
}

/// An angle that has been counted up can be turned to.
pub proof fn lemma_unwrapped_turnable(current: Binary32)
    requires
        is_unwrapped(current),
    ensures
        turnable_to(current),
{
    lemma_zero();
    lemma_four_billion();
    lemma_eight_billion();
}

/// Not before so many times `-2^33` degrees.
pub(crate) open spec fn not_below(angle: Binary32, times: nat) -> bool {
    ||| angle.nan()
    ||| angle.infinite() && !angle.negative()
    ||| angle.finite() && angle.value() >= -(times * pow2(182))
}

/// More turnable angles than this add nothing to their total.
pub(crate) open spec fn at_most_full(count: nat) -> nat {
    if count < 0x100_0000 {
        count
    } else {
        0x100_0000
    }
}

pub(crate) proof fn lemma_turnable_not_below(angle: Binary32)
    ensures
        turnable_from(angle) <==> not_below(angle, 1),
{
    lemma_eight_billion();
    if angle.finite() {
        lemma_rank_order(angle, integer(-0x2_0000_0000));
        assert(1 * pow2(182) == pow2(182));
    }
}

/// Multiples of `2^33` degrees are held exactly, and the last one swallows the next.
proof fn lemma_multiple_held(times: nat)
    requires
        times <= 0x100_0001,
    ensures
        encode(precision(), times * pow2(182), 1) < 0x5c00_0001,
        decode(precision(), encode(precision(), times * pow2(182), 1)) == at_most_full(times)
            * pow2(182),
{
    let value = times * pow2(182);
    lemma2_to64();
    lemma_pow2_pos(182);
    lemma_pow2_adds(24, 182);
    lemma_pow2_adds(1, 182);
    lemma_pow2_adds(23, 183);
    lemma_encode_power(183);
    lemma_decode(precision(), 183, pow2(23));
    if times <= 0x100_0000 {
        assert(value * 1 <= pow2(206) * 1) by (nonlinear_arith)
            requires
                value == times * pow2(182),
                times <= 0x100_0000,
                pow2(206) == 0x100_0000 * pow2(182),
        ;
        lemma_encode_monotone(precision(), value, 1, pow2(206), 1);
        if times < 0x100_0000 {
            lemma_representable(precision(), times, 182);
        }
    } else {
        lemma_pow2_unfold(207);
        assert(1 * pow2(206) == pow2(206) && 1 * pow2(207) == pow2(207) && 1 * pow2(183) == pow2(
            183,
        ));
        lemma_encode_at_exponent(precision(), value, 1, 183);
        lemma_quotient_unique(value, pow2(183), 0x80_0000, pow2(182));
    }
}

/// A total of turnable angles goes down by `2^33` degrees at most.
pub(crate) proof fn lemma_turnable_added(total: Binary32, count: nat, angle: Binary32)
    requires
        not_below(total, at_most_full(count)),
        turnable_from(angle),
    ensures
        not_below(sum_of(total, angle), at_most_full(count + 1)),
{
    lemma_turnable_not_below(angle);
    if total.finite() && angle.finite() {
        let exact = total.value() + angle.value();
        let before = at_most_full(count);
        let times = before + 1;
        lemma_pow2_pos(182);
        assert(times * pow2(182) == before * pow2(182) + 1 * pow2(182)) by (nonlinear_arith)
            requires
                times == before + 1,
        ;
        assert(at_most_full(count + 1) * pow2(182) >= 0) by (nonlinear_arith);
        if exact == 0 {
            lemma_with_sign(total.negative() && angle.negative(), 0);
            lemma_units_zero(sum_of(total, angle));
        } else if exact > 0 {
            lemma_nearest(false, exact as nat, 1);
        } else {
            let size = (-exact) as nat;
            lemma_nearest(true, size, 1);
            lemma_multiple_held(times);
            lemma_encode_monotone(precision(), size, 1, times * pow2(182), 1);
            lemma_decode_order(
                precision(),
                encode(precision(), size, 1),
                encode(precision(), times * pow2(182), 1),
            );
            assert(at_most_full(times) == at_most_full(count + 1));
        }
    }
}

/// The mean of turnable angles is turnable.
pub(crate) proof fn lemma_share_turnable(total: Binary32, count: nat)
    requires
        not_below(total, at_most_full(count)),
    ensures
        turnable_from(quotient_of(total, integer(count as int))),
{
    let divisor = integer(count as int);
    let unit = pow2(149);
    let times = at_most_full(count);
    lemma_eight_billion();
    lemma_pow2_pos(149);
    lemma_nearest(false, count * unit, 1);
    lemma_nearest(total.negative(), total.units() * unit, divisor.units());
    lemma_units_zero(total);
    lemma_units_zero(divisor);
    lemma_with_sign(total.negative(), 0);
    lemma_with_sign(total.negative(), 0x7f80_0000);
    if total.finite() && total.negative() && divisor.finite() {
        let (w, d) = (total.units(), divisor.units());
        // The divisor is no less than the count of angles that matter.
        assert(d >= times * unit) by {
            lemma_count_held(count);
        }
        if d == 0 {
            assert(times == 0) by (nonlinear_arith)
                requires
                    0 >= times * unit,
                    unit > 0,
            ;
            assert(0 * pow2(182) == 0) by (nonlinear_arith);
        } else {
            let billions = pow2(182);
            assert((w * unit) * 1 <= billions * d) by (nonlinear_arith)
                requires
                    w <= times * billions,
                    d >= times * unit,
                    unit > 0,
                    billions >= 0,
            {
                assert(w * unit <= (times * billions) * unit);
                assert((times * billions) * unit == billions * (times * unit));
                assert(billions * (times * unit) <= billions * d);
            }
            lemma_encode_monotone(precision(), w * unit, d, billions, 1);
            lemma_encode_power(159);
        }
    }
}

/// A count is held as no less than the angles that matter in it.
proof fn lemma_count_held(count: nat)
    requires
        integer(count as int).finite(),
    ensures
        integer(count as int).units() >= at_most_full(count) * pow2(149),
{
    let unit = pow2(149);
    let times = at_most_full(count);
    lemma2_to64();
    lemma_pow2_pos(149);
    if count < 0x100_0000 {
        lemma_integer_exact(count);
    } else {
        lemma_pow2_adds(24, 149);
        lemma_encode_power(150);
        lemma_pow2_adds(23, 150);
        lemma_decode(precision(), 150, pow2(23));
        assert(pow2(173) * 1 <= (count * unit) * 1) by (nonlinear_arith)
            requires
                count >= 0x100_0000,
                pow2(173) == 0x100_0000 * unit,
        ;
        lemma_encode_monotone(precision(), pow2(173), 1, count * unit, 1);
        lemma_nearest(false, count * unit, 1);
        lemma_decode_order(
            precision(),
            encode(precision(), pow2(173), 1),
            encode(precision(), count * unit, 1),
        );
    }
}

/// Counting an angle up by a step of a frame keeps it within `2^32` degrees.
pub proof fn lemma_count_up(angle: Binary32, step: Binary32)
    requires
        is_unwrapped(angle),
        step.finite(),
        0 <= step.value() < pow2(157),
    ensures
        is_unwrapped(sum_of(angle, step)),
{
    let unit = pow2(149);
    lemma_zero();
    lemma_four_billion();
    lemma2_to64();
    lemma2_to64_rest();
    lemma_pow2_pos(149);
    lemma_pow2_adds(32, 149);
    lemma_rank_order(integer(0), angle);
    lemma_rank_order(angle, integer(0x1_0000_0000));
    let total = (angle.value() + step.value()) as nat;
    let limit = pow2(181);
    assert(limit == 0x1_0000_0000 * unit);
    lemma_encode_power(158);
    if total <= limit {
        lemma_encode_monotone(precision(), total, 1, limit, 1);
    } else {
        lemma_pow2_unfold(158);
        lemma_pow2_adds(23, 158);
        lemma_pow2_strictly_increases(157, 181);
        lemma_pow2_unfold(182);
        assert(1 * pow2(182) == pow2(182) && 1 * pow2(181) == pow2(181));
        lemma_encode_at_exponent(precision(), total, 1, 158);
        assert(1 * pow2(158) == pow2(158));
        lemma_quotient_unique(total, pow2(158), pow2(23), (total - limit) as nat);
    }
    lemma_nearest(false, total, 1);
}

/// The directions of some degrees of the circle add up to numbers.
pub proof fn lemma_sums_bounded(mask: Seq<bool>, directions: Seq<Direction>, end: int)
    requires
        is_circle(directions),
        0 <= end <= 360,
    ensures
        cosine_sum(mask, directions, end).finite(),
        -end * pow2(unit_exponent()) <= cosine_sum(mask, directions, end).value() <= end * pow2(
            unit_exponent(),
        ),
        sine_sum(mask, directions, end).finite(),
        -end * pow2(unit_exponent()) <= sine_sum(mask, directions, end).value() <= end * pow2(
            unit_exponent(),
        ),
    decreases end,
{
    let unit = pow2(unit_exponent());
    lemma_zero();
    assert(0 * unit == 0);
    if end > 0 {
        lemma_sums_bounded(mask, directions, end - 1);
        let direction = directions[end - 1];
        assert(direction.within_one());
        lemma_within_one(direction.cos);
        lemma_within_one(direction.sin);
        assert((end - 1) * unit + unit == end * unit) by (nonlinear_arith);
        assert(-(end - 1) * unit - unit == -end * unit) by (nonlinear_arith);
        lemma_sum_between(cosine_sum(mask, directions, end - 1), direction.cos, -end, end);
        lemma_sum_between(sine_sum(mask, directions, end - 1), direction.sin, -end, end);
    }
}

/// An angle as a frame shows it is one that can be counted up.
pub proof fn lemma_angle_unwrapped(angle: Binary32)
    requires
        is_angle(angle),
    ensures
        is_unwrapped(angle),
{
    lemma_four_billion();
    lemma_is_angle(angle);
    lemma2_to64();
    lemma_pow2_pos(149);
    lemma_pow2_adds(32, 149);
    lemma_rank_order(angle, integer(0x1_0000_0000));
    assert(360 * pow2(149) <= 0x1_0000_0000 * pow2(149)) by (nonlinear_arith);
}

/// Counting an angle up by the way forward between two angles of frames keeps
/// it within `2^32` degrees.
pub proof fn lemma_forward_step(angle: Binary32, from: Binary32, to: Binary32)
    requires
        is_unwrapped(angle),
        is_angle(from),
        is_angle(to),
        !at_most(shorter_way(from, to), integer(0)),
    ensures
        is_unwrapped(sum_of(angle, shorter_way(from, to))),
{
    let way = shorter_way(from, to);
    lemma_zero();
    lemma_shorter_way_bounded(from, to);
    lemma_rank_order(way, integer(0));
    lemma2_to64();
    lemma_pow2_pos(149);
    lemma_pow2_adds(8, 149);
    assert(180 * pow2(149) < 256 * pow2(149)) by (nonlinear_arith)
        requires
            pow2(149) > 0,
    ;
    lemma_count_up(angle, way);
}

/// An angle that has been counted up is a number.
pub proof fn lemma_unwrapped_finite(angle: Binary32)
    requires
        is_unwrapped(angle),
    ensures
        angle.finite(),
        0 <= angle.value(),
{
    lemma_zero();
    lemma_four_billion();
    lemma_rank_order(integer(0), angle);
}

} // verus!
