//! How far the measured speed is from the exact slope of the readings.

use crate::accuracy::{
    growth, lemma_near_more, lemma_powers, lemma_quotient_off, lemma_quotient_rounded,
    lemma_size_of_product, near, rounded, scale, Estimate,
};
use crate::binary32::{integer, quotient_of, unit_exponent, Binary32};
use crate::bounds::lemma_zero;
use crate::estimates::{
    angles_of, climb_estimate, lemma_climb_near, lemma_estimates, lemma_spread_finite,
    lemma_spread_near, one, spread_estimate, times_of,
};
use crate::laws::fit::{
    is_steady, least_error, lemma_error_split, lemma_run_grows, lemma_steady_slope, rise, run,
    squared_error, total,
};
use crate::motion::{climb_of, least_squares_slope, spread_of};
use crate::order::{lemma_integer_exact, lemma_rank_order};
use crate::rounding::distance;
use crate::skillcheck_logic::updated_speed;
use vstd::arithmetic::power2::lemma_pow2_pos;
use vstd::prelude::*;

verus! {

/// How far the roundings can take a speed from the exact slope.
pub open spec fn speed_margin(history: Seq<(u64, Binary32)>, speed: Binary32) -> int {
    let roundings = 2 * history.len() + 11;
    distance(speed.value(), 0) * spread_estimate(history).margin(roundings) + 1_000_000 * one()
        * climb_estimate(history).margin(roundings) + 1_000_000_000_000 * (growth(roundings)
        * spread_of(history).value())
}

/// The last rounding.
proof fn lemma_speed_rounded(history: Seq<(u64, Binary32)>, speed: Binary32)
    requires
        least_squares_slope(history) == Some(speed),
        spread_of(history).finite(),
        speed.finite(),
    ensures
        climb_of(history).finite(),
        spread_of(history).value() > 0,
        spread_of(history).value() == spread_of(history).units(),
        rounded(
            climb_of(history).value() * one(),
            speed.value(),
            spread_of(history).units(),
            true,
        ),
{
    lemma_zero();
    lemma_integer_exact(0);
    lemma_rank_order(spread_of(history), integer(0));
    lemma_quotient_rounded(climb_of(history), spread_of(history));
}

/// The measured speed is the exact least-squares slope of the readings, but
/// for what `2 * n + 11` roundings can do.
///
/// Times are exact in nanoseconds and angles in units, so the exact slope is
/// `1_000_000 * rise / run` units per millisecond. The history is any whose
/// spread and speed come out finite.
pub proof fn lemma_speed_error(history: Seq<(u64, Binary32)>, speed: Binary32)
    requires
        least_squares_slope(history) == Some(speed),
        spread_of(history).finite(),
        speed.finite(),
    ensures
        scale(2 * history.len() + 11) * one() * distance(
            speed.value() * run(times_of(history)),
            1_000_000 * rise(times_of(history), angles_of(history)),
        ) <= speed_margin(history, speed),
{
    let k = (2 * history.len() + 10) as nat;
    lemma_speed_rounded(history, speed);
    lemma_spread_near(history);
    lemma_climb_near(history);
    lemma_near_more(
        (2 * history.len() + 6) as nat,
        k,
        climb_of(history).value(),
        climb_estimate(history),
    );
    lemma_estimates(history);
    lemma_slope_off(
        k,
        climb_of(history),
        climb_estimate(history),
        spread_of(history),
        spread_estimate(history),
        run(times_of(history)),
        speed,
    );
}

/// The slope from its two parts, in milliseconds.
proof fn lemma_slope_off(
    roundings: nat,
    climb: Binary32,
    for_climb: Estimate,
    spread: Binary32,
    for_spread: Estimate,
    along: int,
    speed: Binary32,
)
    requires
        near(roundings, climb.value(), for_climb),
        near(roundings, spread.value(), for_spread),
        spread.value() > 0,
        spread.value() == spread.units(),
        rounded(climb.value() * one(), speed.value(), spread.units(), true),
        for_climb.den == 1_000_000,
        for_spread.den == 1_000_000_000_000,
        for_spread.exact == along * one(),
    ensures
        scale(roundings + 1) * one() * distance(
            speed.value() * along,
            1_000_000 * for_climb.exact,
        ) <= distance(speed.value(), 0) * for_spread.margin(roundings + 1) + 1_000_000 * one()
            * for_climb.margin(roundings + 1) + 1_000_000_000_000 * (growth(roundings + 1)
            * spread.value()),
{
    let unit = one();
    lemma_pow2_pos(unit_exponent());
    lemma_quotient_off(
        roundings,
        climb.value(),
        for_climb,
        spread.units(),
        for_spread,
        unit,
        speed.value(),
    );
    lemma_millions(
        scale(roundings + 1) as int,
        unit as int,
        speed.value(),
        along,
        for_climb.exact,
        for_spread.margin(roundings + 1),
        for_climb.margin(roundings + 1),
        growth(roundings + 1) as int,
        spread.value(),
    );
}

/// Milliseconds are a million nanoseconds, throughout.
proof fn lemma_millions(
    s: int,
    unit: int,
    speed: int,
    along: int,
    up: int,
    along_margin: int,
    up_margin: int,
    g: int,
    spread: int,
)
    requires
        unit > 0,
        s * distance(
            (speed * 1_000_000) * (along * unit),
            (unit * 1_000_000_000_000) * up,
        ) <= distance(speed * 1_000_000, 0) * along_margin + (unit * 1_000_000_000_000) * up_margin
            + g * (1_000_000 * spread * 1_000_000_000_000),
    ensures
        s * unit * distance(speed * along, 1_000_000 * up) <= distance(speed, 0) * along_margin
            + 1_000_000 * unit * up_margin + 1_000_000_000_000 * (g * spread),
{
    let off = distance(speed * along, 1_000_000 * up);
    let x = speed * along - 1_000_000 * up;
    assert((speed * 1_000_000) * (along * unit) - (unit * 1_000_000_000_000) * up == (1_000_000
        * unit) * x) by (nonlinear_arith)
        requires
            x == speed * along - 1_000_000 * up,
    ;
    lemma_size_of_product(1_000_000 * unit, x);
    let wide = distance((speed * 1_000_000) * (along * unit), (unit * 1_000_000_000_000) * up);
    assert(wide == (1_000_000 * unit) * off);
    assert(s * wide == 1_000_000 * (s * unit * off)) by (nonlinear_arith)
        requires
            wide == (1_000_000 * unit) * off,
    ;
    let size = distance(speed, 0);
    assert(distance(speed * 1_000_000, 0) == 1_000_000 * size);
    assert((1_000_000 * size) * along_margin == 1_000_000 * (size * along_margin))
        by (nonlinear_arith);
    assert((unit * 1_000_000_000_000) * up_margin == 1_000_000 * (1_000_000 * unit * up_margin))
        by (nonlinear_arith);
    assert(g * (1_000_000 * spread * 1_000_000_000_000) == 1_000_000 * (1_000_000_000_000 * (g
        * spread))) by (nonlinear_arith);
}

/// Readings that are further apart in time than roundings can hide have a speed.
pub proof fn lemma_speed_exists(history: Seq<(u64, Binary32)>)
    requires
        history.len() >= 2,
        spread_of(history).finite(),
        scale(2 * history.len() + 10) * (run(times_of(history)) * one()) > spread_estimate(
            history,
        ).margin(2 * history.len() + 10),
    ensures
        least_squares_slope(history) == Some(quotient_of(climb_of(history), spread_of(history))),
{
    let k = (2 * history.len() + 10) as nat;
    let spread = spread_of(history);
    let what = spread_estimate(history);
    lemma_estimates(history);
    lemma_spread_near(history);
    lemma_zero();
    lemma_integer_exact(0);
    lemma_rank_order(spread, integer(0));
    reveal(near);
    lemma_powers(k);
    if spread.value() <= 0 {
        let off = distance(spread.value() * what.den, what.exact);
        assert(what.exact > 0) by (nonlinear_arith)
            requires
                scale(k) * what.exact > what.margin(k),
                what.margin(k) >= scale(k) * off,
                off >= 0,
                scale(k) > 0,
        ;
        assert(scale(k) * off >= scale(k) * what.exact) by (nonlinear_arith)
            requires
                off >= what.exact,
                scale(k) > 0,
        ;
    }
}

/// How far the readings are from the line with a speed through their middle,
/// by the squares of the distances, each times a million times their number.
pub open spec fn measured_error(history: Seq<(u64, Binary32)>, speed: Binary32) -> int {
    let n = history.len() as int;
    let times = times_of(history);
    let angles = angles_of(history);
    squared_error(
        times,
        angles,
        1_000_000 * total(angles, n) - speed.value() * total(times, n),
        speed.value() * n,
        1_000_000 * n,
        n,
    )
}

/// The measured speed is that of the line that fits best, but for roundings:
/// the line with this speed through the middle of the readings misses them by
/// no more than any other line, and the square of what roundings can do.
pub proof fn lemma_measured_fit(
    history: Seq<(u64, Binary32)>,
    speed: Binary32,
    start: int,
    num: int,
    den: int,
)
    requires
        least_squares_slope(history) == Some(speed),
        spread_of(history).finite(),
        speed.finite(),
    ensures
        ({
            let n = history.len() as int;
            let times = times_of(history);
            let spread = n * run(times);
            let other = squared_error(times, angles_of(history), start, num, den, n);
            let unit = scale(2 * history.len() + 11) * one();
            let scale_here = (1_000_000 * n) * (1_000_000 * n);
            let margin = speed_margin(history, speed);
            (unit * unit) * ((den * den) * (spread * measured_error(history, speed))) <= (unit
                * unit) * (scale_here * (spread * other)) + (den * den) * ((n * n) * (margin
                * margin))
        }),
{
    let n = history.len() as int;
    let times = times_of(history);
    let angles = angles_of(history);
    let (t, a) = (total(times, n), total(angles, n));
    let (q, p) = (run(times), rise(times, angles));
    let v = speed.value();
    let here_start = 1_000_000 * a - v * t;
    let here_num = v * n;
    let here_den = 1_000_000 * n;
    let other = squared_error(times, angles, start, num, den, n);
    let unit = (scale(2 * history.len() + 11) * one()) as int;
    let margin = speed_margin(history, speed);
    let off = distance(v * q, 1_000_000 * p);
    lemma_speed_error(history, speed);
    lemma_run_grows(times, n);
    lemma_error_split(times, angles, here_start, here_num, here_den);
    lemma_error_split(times, angles, start, num, den);
    // The line goes through the middle.
    assert(n * here_start + here_num * t - here_den * a == 0) by (nonlinear_arith)
        requires
            here_start == 1_000_000 * a - v * t,
            here_num == v * n,
            here_den == 1_000_000 * n,
    ;
    assert(q * (0 * 0) == 0) by (nonlinear_arith);
    // How far it is tilted.
    let tilt = q * here_num - here_den * p;
    let x = v * q - 1_000_000 * p;
    assert(tilt == n * x) by (nonlinear_arith)
        requires
            tilt == q * here_num - here_den * p,
            here_num == v * n,
            here_den == 1_000_000 * n,
            x == v * q - 1_000_000 * p,
    ;
    assert(tilt * tilt == (n * n) * (off * off)) by (nonlinear_arith)
        requires
            tilt == n * x,
            x == off || x == -off,
    ;
    let level = n * start + num * t - den * a;
    let other_tilt = q * num - den * p;
    assert(q * (level * level) >= 0 && other_tilt * other_tilt >= 0) by (nonlinear_arith)
        requires
            q >= 0,
    ;
    let m = least_error(times, angles);
    lemma_powers(2 * history.len() + 11);
    lemma_pow2_pos(unit_exponent());
    assert(unit >= 0) by (nonlinear_arith)
        requires
            unit == scale(2 * history.len() + 11) * one(),
    ;
    lemma_fit_margin(
        n * q * measured_error(history, speed),
        n * q * other,
        here_den,
        den,
        m,
        n,
        off,
        unit,
        margin,
    );
}

/// The errors of two lines compared, where the first is tilted a little.
proof fn lemma_fit_margin(
    here: int,
    there: int,
    here_den: int,
    den: int,
    least: int,
    n: int,
    off: int,
    unit: int,
    margin: int,
)
    requires
        here == (n * n) * (off * off) + here_den * here_den * least,
        there >= den * den * least,
        0 <= off,
        0 <= unit,
        unit * off <= margin,
    ensures
        (unit * unit) * ((den * den) * here) <= (unit * unit) * ((here_den * here_den) * there) + (
        den * den) * ((n * n) * (margin * margin)),
{
    let (uu, dd, hh, nn) = (unit * unit, den * den, here_den * here_den, n * n);
    assert(uu >= 0 && dd >= 0 && hh >= 0 && nn >= 0) by (nonlinear_arith)
        requires
            uu == unit * unit,
            dd == den * den,
            hh == here_den * here_den,
            nn == n * n,
    ;
    assert(dd * here == dd * (nn * (off * off)) + dd * (hh * least)) by (nonlinear_arith)
        requires
            here == nn * (off * off) + hh * least,
    ;
    assert(hh * there >= hh * (dd * least)) by (nonlinear_arith)
        requires
            there >= dd * least,
            hh >= 0,
    ;
    assert(hh * (dd * least) == dd * (hh * least)) by (nonlinear_arith);
    let extra = dd * (nn * (off * off));
    assert(uu * (dd * here) <= uu * (hh * there) + uu * extra) by (nonlinear_arith)
        requires
            dd * here <= hh * there + extra,
            uu >= 0,
    ;
    assert(uu * (off * off) <= margin * margin) by (nonlinear_arith)
        requires
            uu == unit * unit,
            0 <= unit * off <= margin,
    {
        assert((unit * unit) * (off * off) == (unit * off) * (unit * off));
    }
    assert(0 <= unit * off) by (nonlinear_arith)
        requires
            0 <= off,
            0 <= unit,
    ;
    assert(uu * extra == dd * (nn * (uu * (off * off)))) by (nonlinear_arith)
        requires
            extra == dd * (nn * (off * off)),
    ;
    let (w, mm) = (uu * (off * off), margin * margin);
    assert(nn * w <= nn * mm) by (nonlinear_arith)
        requires
            w <= mm,
            nn >= 0,
    ;
    let (x, y) = (nn * w, nn * mm);
    assert(dd * x <= dd * y) by (nonlinear_arith)
        requires
            x <= y,
            dd >= 0,
    ;
}

/// A steady needle's measured speed is its speed, but for roundings: where it
/// moves `num / den` units in each nanosecond, that is a million times as many
/// in a millisecond.
pub proof fn lemma_steady_error(
    history: Seq<(u64, Binary32)>,
    speed: Binary32,
    start: int,
    num: int,
    den: nat,
)
    requires
        least_squares_slope(history) == Some(speed),
        spread_of(history).finite(),
        speed.finite(),
        is_steady(times_of(history), angles_of(history), start, num, den),
    ensures
        scale(2 * history.len() + 11) * one() * (run(times_of(history)) * distance(
            speed.value() * den,
            1_000_000 * num,
        )) <= den * speed_margin(history, speed),
{
    let (q, p) = (run(times_of(history)), rise(times_of(history), angles_of(history)));
    let v = speed.value();
    let unit = (scale(2 * history.len() + 11) * one()) as int;
    let margin = speed_margin(history, speed);
    lemma_speed_error(history, speed);
    lemma_steady_slope(times_of(history), angles_of(history), start, num, den);
    lemma_run_grows(times_of(history), history.len() as int);
    lemma_steady_margin(unit, v, q, p, num, den, margin);
}

proof fn lemma_steady_margin(
    unit: int,
    v: int,
    q: int,
    p: int,
    num: int,
    den: nat,
    margin: int,
)
    requires
        q >= 0,
        den * p == num * q,
        unit * distance(v * q, 1_000_000 * p) <= margin,
    ensures
        unit * (q * distance(v * den, 1_000_000 * num)) <= den * margin,
{
    let off = distance(v * q, 1_000_000 * p);
    let here = distance(v * den, 1_000_000 * num);
    let x = v * q - 1_000_000 * p;
    let y = v * den - 1_000_000 * num;
    assert(x * den == y * q) by (nonlinear_arith)
        requires
            den * p == num * q,
            x == v * q - 1_000_000 * p,
            y == v * den - 1_000_000 * num,
    ;
    lemma_size_of_product(x, den as int);
    lemma_size_of_product(y, q);
    assert(off * den == here * q);
    assert(unit * (q * here) == den * (unit * off)) by (nonlinear_arith)
        requires
            off * den == here * q,
    ;
    assert(den * (unit * off) <= den * margin) by (nonlinear_arith)
        requires
            unit * off <= margin,
    ;
}

/// Every speed that tracking takes over from up to 65536 readings is their exact
/// slope, but for what roundings can do.
pub proof fn lemma_tracked_speed_error(
    before: Binary32,
    history: Seq<(u64, Binary32)>,
    needed: nat,
    limit: nat,
)
    requires
        history.len() <= 0x1_0000,
        updated_speed(before, history, needed, limit) != before,
    ensures
        scale(2 * history.len() + 11) * one() * distance(
            updated_speed(before, history, needed, limit).value() * run(times_of(history)),
            1_000_000 * rise(times_of(history), angles_of(history)),
        ) <= speed_margin(history, updated_speed(before, history, needed, limit)),
{
    let speed = updated_speed(before, history, needed, limit);
    lemma_zero();
    lemma_spread_finite(history);
    assert(least_squares_slope(history) == Some(speed));
    assert(speed.finite());
    lemma_speed_error(history, speed);
}

} // verus!
