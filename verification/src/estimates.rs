//! What the totals over a history stand for, and how far they are from it.

use crate::accuracy::{
    expanded, growth, held_exactly, lemma_difference_rounded, lemma_integer_finite,
    lemma_integer_rounded, lemma_near_difference_of, lemma_near_exact, lemma_near_expanded,
    lemma_near_more, lemma_near_product, lemma_near_product_of, lemma_near_rounded,
    lemma_near_sum_of, lemma_near_within, lemma_powers, lemma_product_finite, lemma_product_rounded,
    lemma_quotient_finite, lemma_quotient_rounded, lemma_sum_finite, lemma_sum_rounded, near,
    opposite, product, refined, rounded, scale, sum, Estimate,
};
use crate::binary32::{
    difference_of, integer, lemma_nearest, negation_of, precision, product_of, quotient_of, sum_of,
    unit_exponent, Binary32,
};
use crate::bounds::{lemma_negation, lemma_zero};
use crate::laws::fit::{
    lemma_total_monotone, lemma_total_products_monotone, rise, run, total, total_products,
};
use crate::motion::{climb_of, elapsed, milliseconds_of, seconds_of, spread_of, totals_of};
use crate::order::{lemma_encode_power, lemma_integer_exact};
use crate::rounding::{distance, lemma_encode_monotone, lemma_representable};
use vstd::arithmetic::div_mod::lemma_mod_multiples_basic;
use vstd::arithmetic::power2::{
    lemma2_to64, lemma2_to64_rest, lemma_pow2_adds, lemma_pow2_pos, lemma_pow2_strictly_increases,
    pow2,
};
use vstd::prelude::*;

verus! {

/// `2^149`: the units that make one.
pub open spec fn one() -> nat {
    pow2(unit_exponent())
}

/// `value / den` units, with nothing lost to underflow.
pub(crate) open spec fn plainly(den: nat, value: nat) -> Estimate {
    Estimate { den, exact: value as int, size: value, bound: value }
}

/// A billion is held exactly.
proof fn lemma_billion()
    ensures
        integer(1_000_000_000).finite(),
        integer(1_000_000_000).units() == 1_000_000_000 * one(),
        integer(1_000_000_000).value() == 1_000_000_000 * one(),
{
    lemma2_to64();
    lemma2_to64_rest();
    lemma_pow2_adds(9, 149);
    lemma_representable(precision(), 1953125, 158);
    let value = 1_000_000_000 * one();
    assert(value == 1953125 * pow2(158)) by (nonlinear_arith)
        requires
            value == 1_000_000_000 * pow2(149),
            pow2(158) == 512 * pow2(149),
    ;
    lemma_pow2_adds(30, 149);
    assert(value * 1 <= pow2(179) * 1) by (nonlinear_arith)
        requires
            value == 1_000_000_000 * pow2(149),
            pow2(179) == 0x4000_0000 * pow2(149),
    ;
    lemma_encode_power(156);
    lemma_encode_monotone(precision(), value, 1, pow2(179), 1);
    lemma_nearest(false, value, 1);
}

/// A count is rounded once.
proof fn lemma_count_near(count: nat)
    requires
        integer(count as int).finite(),
    ensures
        near(1, integer(count as int).value(), plainly(1, count * one())),
{
    let held = integer(count as int).value();
    let what = held_exactly((count * one()) as int);
    lemma_integer_rounded(count);
    lemma_near_exact((count * one()) as int);
    lemma_near_rounded(0, (count * one()) as int, what, 1, held, false);
    assert(refined(what, 1, false) == plainly(1, count * one()));
}

/// The rest of a second, divided by a billion.
proof fn lemma_rest_near(rest: nat)
    requires
        rest < 1_000_000_000,
        quotient_of(integer(rest as int), integer(1_000_000_000)).finite(),
    ensures
        near(
            2,
            quotient_of(integer(rest as int), integer(1_000_000_000)).value(),
            plainly(1_000_000_000, rest * one()),
        ),
{
    let part = integer(rest as int);
    let billion = integer(1_000_000_000);
    let held = quotient_of(part, billion).value();
    let unit = one();
    lemma_pow2_pos(unit_exponent());
    lemma_billion();
    lemma_quotient_rounded(part, billion);
    lemma_count_near(rest);
    lemma_integer_rounded(rest);
    lemma_nearest(false, rest * unit, 1);
    // Nothing underflows.
    lemma2_to64();
    lemma2_to64_rest();
    lemma_pow2_strictly_increases(60, 149);
    assert(part.value() * 1 == part.value());
    if rest == 0 {
        assert(0 * unit == 0) by (nonlinear_arith);
    } else {
        assert(rest * unit >= unit) by (nonlinear_arith)
            requires
                rest >= 1,
                unit > 0,
        ;
        assert(part.units() * unit >= 0x80_0000 * (1_000_000_000 * unit)) by (nonlinear_arith)
            requires
                part.units() >= 0x80_0000 * 1_000_000_000,
                unit > 0,
        ;
    }
    let wide = product(plainly(1, rest * unit), held_exactly(unit as int));
    lemma_near_exact(unit as int);
    lemma_near_product(1, part.value(), plainly(1, rest * unit), 0, unit as int, held_exactly(unit as int));
    lemma_near_rounded(1, part.value() * unit, wide, 1_000_000_000 * unit, held, false);
    let what = plainly(1_000_000_000, rest * unit);
    assert(refined(wide, 1_000_000_000 * unit, false) == expanded(what, unit)) by {
        assert((1 * 1) * (1_000_000_000 * unit) == 1_000_000_000 * unit) by (nonlinear_arith);
    }
    lemma_near_expanded(2, held, what, unit);
}

/// A duration in seconds is rounded three times.
proof fn lemma_seconds_near(nanos: u64)
    requires
        seconds_of(nanos).finite(),
    ensures
        near(3, seconds_of(nanos).value(), plainly(1_000_000_000, nanos as nat * one())),
{
    let unit = one();
    let whole = (nanos / 1_000_000_000) as nat;
    let rest = (nanos % 1_000_000_000) as nat;
    let part = quotient_of(integer(rest as int), integer(1_000_000_000));
    lemma_sum_rounded(integer(whole as int), part);
    lemma_count_near(whole);
    lemma_rest_near(rest);
    let a = plainly(1, whole * unit);
    let b = plainly(1_000_000_000, rest * unit);
    lemma_near_expanded(1, integer(whole as int).value(), a, 1_000_000_000);
    lemma_near_more(1, 2, integer(whole as int).value(), expanded(a, 1_000_000_000));
    lemma_near_sum_of(2, integer(whole as int), expanded(a, 1_000_000_000), part, b);
    assert(sum(expanded(a, 1_000_000_000), b) == plainly(1_000_000_000, nanos as nat * unit)) by {
        assert((whole * unit) * 1_000_000_000 + rest * unit == nanos as nat * unit)
            by (nonlinear_arith)
            requires
                nanos as nat == whole * 1_000_000_000 + rest,
        ;
    }
}

/// A duration in milliseconds is rounded four times.
pub(crate) proof fn lemma_milliseconds_near(nanos: u64)
    requires
        milliseconds_of(nanos).finite(),
    ensures
        near(4, milliseconds_of(nanos).value(), plainly(1_000_000, nanos as nat * one())),
{
    let unit = one();
    let seconds = seconds_of(nanos);
    let thousand = integer(1000);
    lemma_pow2_pos(unit_exponent());
    lemma_product_rounded(seconds, thousand);
    lemma_seconds_near(nanos);
    lemma_integer_exact(1000);
    let for_seconds = plainly(1_000_000_000, nanos as nat * unit);
    let k = held_exactly((1000 * unit) as int);
    lemma_near_exact((1000 * unit) as int);
    lemma_near_product(3, seconds.value(), for_seconds, 0, (1000 * unit) as int, k);
    assert((seconds.units() * (1000 * unit)) % unit == 0) by {
        let times = seconds.units() * 1000;
        assert(seconds.units() * (1000 * unit) == times * unit) by (nonlinear_arith)
            requires
                times == seconds.units() * 1000,
        ;
        lemma_mod_multiples_basic(times as int, unit as int);
    }
    let held = milliseconds_of(nanos).value();
    lemma_near_rounded(
        3,
        seconds.value() * thousand.value(),
        product(for_seconds, k),
        unit,
        held,
        false,
    );
    let what = plainly(1_000_000, nanos as nat * unit);
    assert(refined(product(for_seconds, k), unit, false) == expanded(what, 1000 * unit)) by {
        assert((1_000_000_000 * 1) * unit == 1_000_000 * (1000 * unit)) by (nonlinear_arith);
    }
    lemma_near_expanded(4, held, what, 1000 * unit);
}

/// The nanoseconds from the first reading to each.
pub open spec fn times_of(history: Seq<(u64, Binary32)>) -> Seq<int> {
    Seq::new(history.len(), |i: int| elapsed(history[0].0, history[i].0) as int)
}

/// The angles, in units of `2^-149` degrees.
pub open spec fn angles_of(history: Seq<(u64, Binary32)>) -> Seq<int> {
    Seq::new(history.len(), |i: int| history[i].1.value())
}

/// The numbers without their signs.
pub open spec fn sizes_of(values: Seq<int>) -> Seq<int> {
    Seq::new(values.len(), |i: int| distance(values[i], 0))
}

/// What the totals over the first `end` readings stand for.
spec fn for_t(history: Seq<(u64, Binary32)>, end: int) -> Estimate {
    plainly(1_000_000, total(times_of(history), end) as nat * one())
}

spec fn for_a(history: Seq<(u64, Binary32)>, end: int) -> Estimate {
    let size = total(sizes_of(angles_of(history)), end) as nat;
    Estimate { den: 1, exact: total(angles_of(history), end), size, bound: size }
}

spec fn for_tt(history: Seq<(u64, Binary32)>, end: int) -> Estimate {
    for_square_total(
        total_products(times_of(history), times_of(history), end) as nat,
        end as nat,
    )
}

spec fn for_ta(history: Seq<(u64, Binary32)>, end: int) -> Estimate {
    for_moment_total(
        total_products(times_of(history), angles_of(history), end),
        total_products(times_of(history), sizes_of(angles_of(history)), end) as nat,
        end as nat,
    )
}

proof fn lemma_t_near(history: Seq<(u64, Binary32)>, end: int)
    requires
        0 <= end <= history.len(),
        totals_of(history, end).t.finite(),
    ensures
        near((4 + end) as nat, totals_of(history, end).t.value(), for_t(history, end)),
    decreases end,
{
    let times = times_of(history);
    let unit = one();
    lemma_total_monotone(times, 0, end);
    lemma_powers((4 + end) as nat);
    if end == 0 {
        lemma_zero();
        lemma_nothing_near(4, 1_000_000);
        assert(0 * unit == 0) by (nonlinear_arith);
    } else {
        let before = totals_of(history, end - 1).t;
        let time = milliseconds_of(elapsed(history[0].0, history[end - 1].0));
        lemma_sum_rounded(before, time);
        lemma_t_near(history, end - 1);
        lemma_total_monotone(times, end - 1, end);
        let nanos = elapsed(history[0].0, history[end - 1].0);
        lemma_milliseconds_near(nanos);
        let what = plainly(1_000_000, nanos as nat * unit);
        lemma_near_more(4, (3 + end) as nat, time.value(), what);
        lemma_near_sum_of((3 + end) as nat, before, for_t(history, end - 1), time, what);
        let earlier = total(times, end - 1) as nat;
        assert(earlier * unit + nanos as nat * unit == (earlier + nanos as nat) * unit)
            by (nonlinear_arith);
        assert(sum(for_t(history, end - 1), what) == for_t(history, end));
    }
}

/// Nothing is held as nothing.
proof fn lemma_nothing_near(roundings: nat, den: nat)
    requires
        den > 0,
    ensures
        near(roundings, 0, plainly(den, 0)),
{
    reveal(near);
    lemma_powers(roundings);
    assert(0 * den == 0) by (nonlinear_arith);
    assert(scale(roundings) * 0 == 0 && growth(roundings) * 0 == 0) by (nonlinear_arith);
}

proof fn lemma_a_near(history: Seq<(u64, Binary32)>, end: int)
    requires
        0 <= end <= history.len(),
        totals_of(history, end).a.finite(),
    ensures
        near(end as nat, totals_of(history, end).a.value(), for_a(history, end)),
    decreases end,
{
    let sizes = sizes_of(angles_of(history));
    lemma_total_monotone(sizes, 0, end);
    if end == 0 {
        lemma_zero();
        lemma_nothing_near(0, 1);
    } else {
        let before = totals_of(history, end - 1).a;
        let angle = history[end - 1].1;
        lemma_sum_rounded(before, angle);
        lemma_a_near(history, end - 1);
        lemma_total_monotone(sizes, end - 1, end);
        let what = held_exactly(angle.value());
        lemma_near_exact(angle.value());
        lemma_near_more(0, (end - 1) as nat, angle.value(), what);
        lemma_near_sum_of((end - 1) as nat, before, for_a(history, end - 1), angle, what);
        assert(sum(for_a(history, end - 1), what) == for_a(history, end));
    }
}

/// A time and an angle, multiplied.
proof fn lemma_moment_near(nanos: u64, angle: Binary32)
    requires
        product_of(milliseconds_of(nanos), angle).finite(),
    ensures
        near(
            5,
            product_of(milliseconds_of(nanos), angle).value(),
            Estimate {
                den: 1_000_000,
                exact: nanos * angle.value(),
                size: nanos as nat * (distance(angle.value(), 0) as nat),
                bound: nanos as nat * (distance(angle.value(), 0) as nat) + 1_000_000,
            },
        ),
{
    let time = milliseconds_of(nanos);
    let unit = one();
    let (n, value, size) = (nanos as nat, angle.value(), distance(angle.value(), 0) as nat);
    lemma_pow2_pos(unit_exponent());
    lemma_product_rounded(time, angle);
    lemma_milliseconds_near(nanos);
    lemma_near_exact(value);
    let for_time = plainly(1_000_000, n * unit);
    lemma_near_product_of(4, time, for_time, 0, angle, held_exactly(value));
    let what = Estimate { den: 1_000_000, exact: n * value, size: n * size, bound: n * size + 1_000_000 };
    assert((n * unit) * value == (n * value) * unit && (n * unit) * size == (n * size) * unit)
        by (nonlinear_arith);
    assert((n * size + 1_000_000) * unit == (n * size) * unit + 1_000_000 * unit)
        by (nonlinear_arith);
    assert((1_000_000 * 1) * unit == 1_000_000 * unit);
    assert(refined(product(for_time, held_exactly(value)), unit, true) == expanded(what, unit));
    lemma_near_expanded(5, product_of(time, angle).value(), what, unit);
}

/// A time, squared.
proof fn lemma_square_near(nanos: u64)
    requires
        product_of(milliseconds_of(nanos), milliseconds_of(nanos)).finite(),
    ensures
        near(
            9,
            product_of(milliseconds_of(nanos), milliseconds_of(nanos)).value(),
            Estimate {
                den: 1_000_000_000_000,
                exact: nanos * nanos * one(),
                size: nanos as nat * nanos as nat * one(),
                bound: nanos as nat * nanos as nat * one() + 1_000_000_000_000,
            },
        ),
{
    let time = milliseconds_of(nanos);
    let unit = one();
    let n = nanos as nat;
    lemma_pow2_pos(unit_exponent());
    lemma_product_rounded(time, time);
    lemma_milliseconds_near(nanos);
    let for_time = plainly(1_000_000, n * unit);
    lemma_near_product_of(4, time, for_time, 4, time, for_time);
    let size = n * n * unit;
    let what = Estimate {
        den: 1_000_000_000_000,
        exact: size as int,
        size,
        bound: size + 1_000_000_000_000,
    };
    assert((n * unit) * (n * unit) == size * unit) by (nonlinear_arith)
        requires
            size == n * n * unit,
    ;
    assert((size + 1_000_000_000_000) * unit == size * unit + 1_000_000_000_000 * unit)
        by (nonlinear_arith);
    assert(1_000_000 * 1_000_000 * unit == 1_000_000_000_000 * unit);
    assert(refined(product(for_time, for_time), unit, true) == expanded(what, unit));
    lemma_near_expanded(9, product_of(time, time).value(), what, unit);
}

/// What moments stand for that add up to `exact`.
spec fn for_moment_total(exact: int, size: nat, count: nat) -> Estimate {
    Estimate { den: 1_000_000, exact, size, bound: size + count * 1_000_000 }
}

/// One more moment.
proof fn lemma_moment_added(
    roundings: nat,
    before: Binary32,
    exact: int,
    size: nat,
    count: nat,
    nanos: u64,
    angle: Binary32,
)
    requires
        roundings >= 5,
        near(roundings, before.value(), for_moment_total(exact, size, count)),
        sum_of(before, product_of(milliseconds_of(nanos), angle)).finite(),
    ensures
        near(
            roundings + 1,
            sum_of(before, product_of(milliseconds_of(nanos), angle)).value(),
            for_moment_total(
                exact + nanos * angle.value(),
                size + nanos as nat * (distance(angle.value(), 0) as nat),
                count + 1,
            ),
        ),
{
    let moment = product_of(milliseconds_of(nanos), angle);
    lemma_sum_rounded(before, moment);
    lemma_moment_near(nanos, angle);
    let (value, more) = (angle.value(), nanos as nat * (distance(angle.value(), 0) as nat));
    let what = for_moment_total(nanos * value, more, 1);
    lemma_near_more(5, roundings, moment.value(), what);
    let earlier = for_moment_total(exact, size, count);
    lemma_near_sum_of(roundings, before, earlier, moment, what);
    assert(sum(earlier, what) == for_moment_total(exact + nanos * value, size + more, count + 1));
}

proof fn lemma_ta_near(history: Seq<(u64, Binary32)>, end: int)
    requires
        0 <= end <= history.len(),
        totals_of(history, end).ta.finite(),
    ensures
        near((5 + end) as nat, totals_of(history, end).ta.value(), for_ta(history, end)),
    decreases end,
{
    let times = times_of(history);
    let sizes = sizes_of(angles_of(history));
    lemma_total_products_monotone(times, sizes, 0, end);
    if end == 0 {
        lemma_zero();
        lemma_nothing_near(5, 1_000_000);
    } else {
        let before = totals_of(history, end - 1).ta;
        let nanos = elapsed(history[0].0, history[end - 1].0);
        let angle = history[end - 1].1;
        lemma_sum_rounded(before, product_of(milliseconds_of(nanos), angle));
        lemma_ta_near(history, end - 1);
        lemma_total_products_monotone(times, sizes, end - 1, end);
        lemma_moment_added(
            (4 + end) as nat,
            before,
            total_products(times, angles_of(history), end - 1),
            total_products(times, sizes, end - 1) as nat,
            (end - 1) as nat,
            nanos,
            angle,
        );
    }
}

/// What squares stand for that add up to `nanos`.
spec fn for_square_total(nanos: nat, count: nat) -> Estimate {
    Estimate {
        den: 1_000_000_000_000,
        exact: (nanos * one()) as int,
        size: nanos * one(),
        bound: nanos * one() + count * 1_000_000_000_000,
    }
}

/// One more squared time.
proof fn lemma_square_added(
    roundings: nat,
    before: Binary32,
    earlier: nat,
    count: nat,
    nanos: u64,
)
    requires
        roundings >= 9,
        near(roundings, before.value(), for_square_total(earlier, count)),
        sum_of(before, product_of(milliseconds_of(nanos), milliseconds_of(nanos))).finite(),
    ensures
        near(
            roundings + 1,
            sum_of(before, product_of(milliseconds_of(nanos), milliseconds_of(nanos))).value(),
            for_square_total(earlier + nanos as nat * nanos as nat, count + 1),
        ),
{
    let unit = one();
    let n = nanos as nat;
    let square = product_of(milliseconds_of(nanos), milliseconds_of(nanos));
    lemma_sum_rounded(before, square);
    lemma_square_near(nanos);
    let what = for_square_total(n * n, 1);
    lemma_near_more(9, roundings, square.value(), what);
    lemma_near_sum_of(roundings, before, for_square_total(earlier, count), square, what);
    assert(earlier * unit + n * n * unit == (earlier + n * n) * unit) by (nonlinear_arith);
    assert(sum(for_square_total(earlier, count), what) == for_square_total(
        earlier + n * n,
        count + 1,
    ));
}

proof fn lemma_tt_near(history: Seq<(u64, Binary32)>, end: int)
    requires
        0 <= end <= history.len(),
        totals_of(history, end).tt.finite(),
    ensures
        near((9 + end) as nat, totals_of(history, end).tt.value(), for_tt(history, end)),
    decreases end,
{
    let times = times_of(history);
    lemma_total_products_monotone(times, times, 0, end);
    if end == 0 {
        lemma_zero();
        lemma_nothing_near(9, 1_000_000_000_000);
        assert(0 * one() == 0) by (nonlinear_arith);
    } else {
        let before = totals_of(history, end - 1).tt;
        let nanos = elapsed(history[0].0, history[end - 1].0);
        lemma_sum_rounded(before, product_of(milliseconds_of(nanos), milliseconds_of(nanos)));
        lemma_tt_near(history, end - 1);
        lemma_total_products_monotone(times, times, end - 1, end);
        lemma_square_added(
            (8 + end) as nat,
            before,
            total_products(times, times, end - 1) as nat,
            (end - 1) as nat,
            nanos,
        );
    }
}

/// What the denominator of the slope stands for, in square milliseconds: the
/// readings' spread in time.
#[verifier::opaque]
pub open spec fn spread_estimate(history: Seq<(u64, Binary32)>) -> Estimate {
    let n = history.len();
    let times = times_of(history);
    let t = total(times, n as int);
    let size = (n * total_products(times, times, n as int) + t * t) as nat * one();
    Estimate {
        den: 1_000_000_000_000,
        exact: run(times) * one(),
        size,
        bound: size + (n * n + 2) * 1_000_000_000_000,
    }
}

/// What the numerator of the slope stands for, in degrees times milliseconds.
#[verifier::opaque]
pub open spec fn climb_estimate(history: Seq<(u64, Binary32)>) -> Estimate {
    let n = history.len();
    let times = times_of(history);
    let angles = angles_of(history);
    let sizes = sizes_of(angles);
    let size = (n * total_products(times, sizes, n as int) + total(times, n as int) * total(
        sizes,
        n as int,
    )) as nat;
    Estimate {
        den: 1_000_000,
        exact: rise(times, angles),
        size,
        bound: size + (n * n + 2) * 1_000_000,
    }
}

/// A count times a total.
proof fn lemma_counted_near(count: nat, roundings: nat, a: Binary32, what: Estimate)
    requires
        near(roundings, a.value(), what),
        product_of(integer(count as int), a).finite(),
    ensures
        near(
            roundings + 2,
            product_of(integer(count as int), a).value(),
            Estimate {
                den: what.den,
                exact: count * what.exact,
                size: count * what.size,
                bound: count * what.bound + what.den,
            },
        ),
{
    let unit = one();
    let counted = integer(count as int);
    lemma_pow2_pos(unit_exponent());
    lemma_product_rounded(counted, a);
    lemma_count_near(count);
    lemma_near_product_of(1, counted, plainly(1, count * unit), roundings, a, what);
    let result = Estimate {
        den: what.den,
        exact: count * what.exact,
        size: count * what.size,
        bound: count * what.bound + what.den,
    };
    let (x, s, b) = (what.exact, what.size, what.bound);
    assert((count * unit) * x == (count * x) * unit && (count * unit) * s == (count * s) * unit)
        by (nonlinear_arith);
    assert((count * unit) * b + (1 * what.den) * unit == (count * b + what.den) * unit)
        by (nonlinear_arith);
    assert((1 * what.den) * unit == what.den * unit);
    assert(refined(product(plainly(1, count * unit), what), unit, true) == expanded(result, unit));
    lemma_near_expanded(roundings + 2, product_of(counted, a).value(), result, unit);
}

/// A time times something, the time's unit taken out.
proof fn lemma_timed_near(
    j: nat,
    t: Binary32,
    nanos: nat,
    k: nat,
    a: Binary32,
    what: Estimate,
)
    requires
        near(j, t.value(), plainly(1_000_000, nanos * one())),
        near(k, a.value(), what),
        product_of(t, a).finite(),
    ensures
        near(
            j + k + 1,
            product_of(t, a).value(),
            Estimate {
                den: 1_000_000 * what.den,
                exact: nanos * what.exact,
                size: nanos * what.size,
                bound: nanos * what.bound + 1_000_000 * what.den,
            },
        ),
{
    let unit = one();
    lemma_pow2_pos(unit_exponent());
    lemma_near_product_of(j, t, plainly(1_000_000, nanos * unit), k, a, what);
    let result = Estimate {
        den: 1_000_000 * what.den,
        exact: nanos * what.exact,
        size: nanos * what.size,
        bound: nanos * what.bound + 1_000_000 * what.den,
    };
    let (x, s, b, d) = (what.exact, what.size, what.bound, what.den);
    assert((nanos * unit) * x == (nanos * x) * unit && (nanos * unit) * s == (nanos * s) * unit)
        by (nonlinear_arith);
    assert((nanos * unit) * b + (1_000_000 * d) * unit == (nanos * b + 1_000_000 * d) * unit)
        by (nonlinear_arith);
    assert(refined(product(plainly(1_000_000, nanos * unit), what), unit, true) == expanded(
        result,
        unit,
    ));
    lemma_near_expanded(j + k + 1, product_of(t, a).value(), result, unit);
}

/// A count times the squared times.
spec fn for_counted(n: nat, tt: nat) -> Estimate {
    Estimate {
        den: 1_000_000_000_000,
        exact: (n * (tt * one())) as int,
        size: n * (tt * one()),
        bound: n * (tt * one() + n * 1_000_000_000_000) + 1_000_000_000_000,
    }
}

/// The time in all, squared.
spec fn for_squared(t: nat) -> Estimate {
    Estimate {
        den: 1_000_000_000_000,
        exact: (t * (t * one())) as int,
        size: t * (t * one()),
        bound: t * (t * one()) + 1_000_000_000_000,
    }
}

proof fn lemma_counted_squares_near(history: Seq<(u64, Binary32)>)
    requires
        product_of(
            integer(history.len() as int),
            totals_of(history, history.len() as int).tt,
        ).finite(),
    ensures
        near(
            11 + history.len(),
            product_of(
                integer(history.len() as int),
                totals_of(history, history.len() as int).tt,
            ).value(),
            for_counted(
                history.len(),
                total_products(times_of(history), times_of(history), history.len() as int) as nat,
            ),
        ),
{
    let n = history.len();
    let sums = totals_of(history, n as int);
    lemma_product_rounded(integer(n as int), sums.tt);
    lemma_tt_near(history, n as int);
    lemma_counted_near(n, 9 + n, sums.tt, for_tt(history, n as int));
}

proof fn lemma_squared_total_near(history: Seq<(u64, Binary32)>)
    requires
        product_of(
            totals_of(history, history.len() as int).t,
            totals_of(history, history.len() as int).t,
        ).finite(),
    ensures
        near(
            2 * history.len() + 9,
            product_of(
                totals_of(history, history.len() as int).t,
                totals_of(history, history.len() as int).t,
            ).value(),
            for_squared(total(times_of(history), history.len() as int) as nat),
        ),
{
    let n = history.len();
    let sums = totals_of(history, n as int);
    lemma_product_rounded(sums.t, sums.t);
    lemma_t_near(history, n as int);
    let t = total(times_of(history), n as int) as nat;
    lemma_timed_near(4 + n, sums.t, t, 4 + n, sums.t, for_t(history, n as int));
}

/// The spread from its two parts.
proof fn lemma_spread_parts(n: nat, t: nat, tt: nat)
    ensures
        sum(for_counted(n, tt), opposite(for_squared(t))) == (Estimate {
            den: 1_000_000_000_000,
            exact: (n * tt - t * t) * one(),
            size: (n * tt + t * t) * one(),
            bound: (n * tt + t * t) * one() + (n * n + 2) * 1_000_000_000_000,
        }),
{
    let unit = one();
    assert(n * (tt * unit) == (n * tt) * unit && t * (t * unit) == (t * t) * unit)
        by (nonlinear_arith);
    assert(n * (tt * unit + n * 1_000_000_000_000) == (n * tt) * unit + (n * n)
        * 1_000_000_000_000) by (nonlinear_arith);
    assert((n * tt) * unit + (t * t) * unit == (n * tt + t * t) * unit && (n * tt) * unit - (t * t)
        * unit == (n * tt - t * t) * unit) by (nonlinear_arith);
}

/// What the spread stands for, from its two parts.
proof fn lemma_spread_estimate(history: Seq<(u64, Binary32)>)
    ensures
        ({
            let n = history.len();
            let times = times_of(history);
            spread_estimate(history) == sum(
                for_counted(n, total_products(times, times, n as int) as nat),
                opposite(for_squared(total(times, n as int) as nat)),
            )
        }),
{
    reveal(spread_estimate);
    let n = history.len();
    let times = times_of(history);
    lemma_total_monotone(times, 0, n as int);
    lemma_total_products_monotone(times, times, 0, n as int);
    let t = total(times, n as int) as nat;
    let tt = total_products(times, times, n as int) as nat;
    lemma_spread_parts(n, t, tt);
    assert(n * tt >= 0 && t * t >= 0) by (nonlinear_arith);
}

/// A difference of two products, each near what it stands for.
proof fn lemma_difference_near(
    j: nat,
    a: Binary32,
    for_a: Estimate,
    k: nat,
    b: Binary32,
    for_b: Estimate,
)
    requires
        j <= k,
        near(j, a.value(), for_a),
        near(k, b.value(), for_b),
        for_a.den == for_b.den,
        difference_of(a, b).finite(),
    ensures
        near(k + 1, difference_of(a, b).value(), sum(for_a, opposite(for_b))),
{
    lemma_near_more(j, k, a.value(), for_a);
    lemma_near_difference_of(k, a, for_a, b, for_b);
}

/// The computed spread is within `2 * n + 10` roundings of the exact one.
pub proof fn lemma_spread_near(history: Seq<(u64, Binary32)>)
    requires
        history.len() >= 2,
        spread_of(history).finite(),
    ensures
        near(2 * history.len() + 10, spread_of(history).value(), spread_estimate(history)),
{
    let n = history.len();
    let times = times_of(history);
    let sums = totals_of(history, n as int);
    let counted = product_of(integer(n as int), sums.tt);
    let squared = product_of(sums.t, sums.t);
    let for_a = for_counted(n, total_products(times, times, n as int) as nat);
    let for_b = for_squared(total(times, n as int) as nat);
    lemma_difference_rounded(counted, squared);
    lemma_counted_squares_near(history);
    lemma_squared_total_near(history);
    lemma_difference_near(11 + n, counted, for_a, 2 * n + 9, squared, for_b);
    lemma_spread_estimate(history);
}

/// A count times the moments.
spec fn for_moments(n: nat, ta: int, size: nat) -> Estimate {
    Estimate {
        den: 1_000_000,
        exact: n * ta,
        size: n * size,
        bound: n * (size + n * 1_000_000) + 1_000_000,
    }
}

/// The time in all times the angles in all.
spec fn for_crossed(t: nat, a: int, size: nat) -> Estimate {
    Estimate { den: 1_000_000, exact: t * a, size: t * size, bound: t * size + 1_000_000 }
}

proof fn lemma_moments_near(history: Seq<(u64, Binary32)>)
    requires
        product_of(
            integer(history.len() as int),
            totals_of(history, history.len() as int).ta,
        ).finite(),
    ensures
        near(
            7 + history.len(),
            product_of(
                integer(history.len() as int),
                totals_of(history, history.len() as int).ta,
            ).value(),
            for_moments(
                history.len(),
                total_products(times_of(history), angles_of(history), history.len() as int),
                total_products(
                    times_of(history),
                    sizes_of(angles_of(history)),
                    history.len() as int,
                ) as nat,
            ),
        ),
{
    let n = history.len();
    let sums = totals_of(history, n as int);
    lemma_product_rounded(integer(n as int), sums.ta);
    lemma_ta_near(history, n as int);
    lemma_counted_near(n, 5 + n, sums.ta, for_ta(history, n as int));
}

proof fn lemma_crossed_near(history: Seq<(u64, Binary32)>)
    requires
        product_of(
            totals_of(history, history.len() as int).t,
            totals_of(history, history.len() as int).a,
        ).finite(),
    ensures
        near(
            2 * history.len() + 5,
            product_of(
                totals_of(history, history.len() as int).t,
                totals_of(history, history.len() as int).a,
            ).value(),
            for_crossed(
                total(times_of(history), history.len() as int) as nat,
                total(angles_of(history), history.len() as int),
                total(sizes_of(angles_of(history)), history.len() as int) as nat,
            ),
        ),
{
    let n = history.len();
    let sums = totals_of(history, n as int);
    lemma_product_rounded(sums.t, sums.a);
    lemma_t_near(history, n as int);
    lemma_a_near(history, n as int);
    let t = total(times_of(history), n as int) as nat;
    lemma_timed_near(4 + n, sums.t, t, n, sums.a, for_a(history, n as int));
}

/// The climb from its two parts.
proof fn lemma_climb_parts(n: nat, ta: int, ta_size: nat, t: nat, a: int, a_size: nat)
    ensures
        sum(for_moments(n, ta, ta_size), opposite(for_crossed(t, a, a_size))) == (Estimate {
            den: 1_000_000,
            exact: n * ta - t * a,
            size: n * ta_size + t * a_size,
            bound: n * ta_size + t * a_size + (n * n + 2) * 1_000_000,
        }),
{
    assert(n * (ta_size + n * 1_000_000) == n * ta_size + (n * n) * 1_000_000) by (nonlinear_arith);
}

/// What the climb stands for, from its two parts.
proof fn lemma_climb_estimate(history: Seq<(u64, Binary32)>)
    ensures
        ({
            let n = history.len();
            let times = times_of(history);
            let angles = angles_of(history);
            let sizes = sizes_of(angles);
            climb_estimate(history) == sum(
                for_moments(
                    n,
                    total_products(times, angles, n as int),
                    total_products(times, sizes, n as int) as nat,
                ),
                opposite(
                    for_crossed(
                        total(times, n as int) as nat,
                        total(angles, n as int),
                        total(sizes, n as int) as nat,
                    ),
                ),
            )
        }),
{
    reveal(climb_estimate);
    let n = history.len();
    let times = times_of(history);
    let angles = angles_of(history);
    let sizes = sizes_of(angles);
    lemma_total_monotone(times, 0, n as int);
    lemma_total_monotone(sizes, 0, n as int);
    lemma_total_products_monotone(times, sizes, 0, n as int);
    let t = total(times, n as int) as nat;
    let (a, a_size) = (total(angles, n as int), total(sizes, n as int) as nat);
    let ta = total_products(times, angles, n as int);
    let ta_size = total_products(times, sizes, n as int) as nat;
    lemma_climb_parts(n, ta, ta_size, t, a, a_size);
    assert(n * ta_size >= 0 && t * a_size >= 0) by (nonlinear_arith);
}

/// The computed climb is within `2 * n + 6` roundings of the exact one.
pub proof fn lemma_climb_near(history: Seq<(u64, Binary32)>)
    requires
        history.len() >= 2,
        climb_of(history).finite(),
    ensures
        near(2 * history.len() + 6, climb_of(history).value(), climb_estimate(history)),
{
    let n = history.len();
    let times = times_of(history);
    let angles = angles_of(history);
    let sizes = sizes_of(angles);
    let sums = totals_of(history, n as int);
    let counted = product_of(integer(n as int), sums.ta);
    let crossed = product_of(sums.t, sums.a);
    let for_a = for_moments(
        n,
        total_products(times, angles, n as int),
        total_products(times, sizes, n as int) as nat,
    );
    let for_b = for_crossed(
        total(times, n as int) as nat,
        total(angles, n as int),
        total(sizes, n as int) as nat,
    );
    lemma_difference_rounded(counted, crossed);
    lemma_moments_near(history);
    lemma_crossed_near(history);
    lemma_difference_near(7 + n, counted, for_a, 2 * n + 5, crossed, for_b);
    lemma_climb_estimate(history);
}

/// The units of the estimates, and what they are exactly.
pub(crate) proof fn lemma_estimates(history: Seq<(u64, Binary32)>)
    ensures
        spread_estimate(history).den == 1_000_000_000_000,
        spread_estimate(history).exact == run(times_of(history)) * one(),
        climb_estimate(history).den == 1_000_000,
        climb_estimate(history).exact == rise(times_of(history), angles_of(history)),
{
    reveal(spread_estimate);
    reveal(climb_estimate);
}

/// What is finite, in terms of one.
proof fn lemma_finite_limit()
    ensures
        pow2(276) == 0x8000_0000_0000_0000_0000_0000_0000_0000 * one(),
        one() >= 0x1_0000_0000_0000_0000,
{
    lemma2_to64();
    lemma2_to64_rest();
    lemma_pow2_adds(63, 64);
    lemma_pow2_adds(127, 149);
    lemma_pow2_strictly_increases(64, 149);
}

/// A product of numbers that are small enough.
proof fn lemma_product_small(a: Binary32, b: Binary32, p: nat, q: nat)
    requires
        a.finite(),
        b.finite(),
        distance(a.value(), 0) <= p * one(),
        distance(b.value(), 0) <= q * one(),
        p * q <= 0x8000_0000_0000_0000_0000_0000_0000_0000,
    ensures
        product_of(a, b).finite(),
{
    let unit = one();
    let limit = 0x8000_0000_0000_0000_0000_0000_0000_0000int;
    lemma_finite_limit();
    let (x, y) = (distance(a.value(), 0), distance(b.value(), 0));
    assert(x * y <= (p * unit) * (q * unit)) by (nonlinear_arith)
        requires
            0 <= x <= p * unit,
            0 <= y <= q * unit,
    ;
    assert((p * unit) * (q * unit) == (p * q) * (unit * unit)) by (nonlinear_arith);
    assert((p * q) * (unit * unit) <= limit * (unit * unit)) by (nonlinear_arith)
        requires
            p * q <= limit,
    ;
    assert(limit * (unit * unit) == (limit * unit) * unit) by (nonlinear_arith);
    lemma_product_finite(a, b);
}

/// A number of units that stands for so many.
proof fn lemma_plainly_within(
    roundings: nat,
    a: Binary32,
    den: nat,
    count: nat,
    most: nat,
)
    requires
        near(roundings, a.value(), plainly(den, count * one())),
        roundings <= 0x80_0000,
        2 * count <= most * den,
    ensures
        distance(a.value(), 0) <= most * one(),
{
    let unit = one();
    assert(2 * (count * unit) <= (most * unit) * den) by (nonlinear_arith)
        requires
            2 * count <= most * den,
    ;
    lemma_near_within(roundings, a.value(), plainly(den, count * unit), most * unit);
}

/// A whole number below `2^64` is finite.
proof fn lemma_whole_finite(count: nat)
    requires
        count <= 0x1_0000_0000_0000_0000,
    ensures
        integer(count as int).finite(),
{
    let unit = one();
    lemma_finite_limit();
    assert(count * unit <= 0x1_0000_0000_0000_0000 * unit) by (nonlinear_arith)
        requires
            count <= 0x1_0000_0000_0000_0000,
    ;
    lemma_integer_finite(count);
}

/// The rest of a second is finite.
proof fn lemma_rest_finite(rest: nat)
    requires
        rest < 1_000_000_000,
    ensures
        quotient_of(integer(rest as int), integer(1_000_000_000)).finite(),
        distance(quotient_of(integer(rest as int), integer(1_000_000_000)).value(), 0) <= 2 * one(),
{
    let unit = one();
    let part = integer(rest as int);
    lemma_finite_limit();
    lemma_pow2_pos(unit_exponent());
    lemma_whole_finite(rest);
    lemma_count_near(rest);
    lemma_plainly_within(1, part, 1, rest, 2_000_000_000);
    lemma_billion();
    let units = part.units();
    assert(units * unit <= pow2(276) * (1_000_000_000 * unit)) by (nonlinear_arith)
        requires
            units <= pow2(276) * 1_000_000_000,
    ;
    lemma_quotient_finite(part, integer(1_000_000_000));
    lemma_rest_near(rest);
    lemma_plainly_within(2, quotient_of(part, integer(1_000_000_000)), 1_000_000_000, rest, 2);
}

/// Every duration is a finite number of seconds.
proof fn lemma_seconds_finite(nanos: u64)
    ensures
        seconds_of(nanos).finite(),
        distance(seconds_of(nanos).value(), 0) <= 0x10_0000_0000 * one(),
{
    let whole = (nanos / 1_000_000_000) as nat;
    let rest = (nanos % 1_000_000_000) as nat;
    lemma_finite_limit();
    lemma_whole_finite(whole);
    lemma_count_near(whole);
    lemma_plainly_within(1, integer(whole as int), 1, whole, 0x2_0000_0000_0000_0000);
    lemma_rest_finite(rest);
    lemma_sum_finite(
        integer(whole as int),
        quotient_of(integer(rest as int), integer(1_000_000_000)),
    );
    lemma_seconds_near(nanos);
    lemma_plainly_within(3, seconds_of(nanos), 1_000_000_000, nanos as nat, 0x10_0000_0000);
}

/// Every duration is a finite number of milliseconds.
pub(crate) proof fn lemma_milliseconds_finite(nanos: u64)
    ensures
        milliseconds_of(nanos).finite(),
        distance(milliseconds_of(nanos).value(), 0) <= 0x4000_0000_0000 * one(),
{
    lemma_seconds_finite(nanos);
    lemma_integer_exact(1000);
    lemma_product_small(seconds_of(nanos), integer(1000), 0x10_0000_0000, 1000);
    lemma_milliseconds_near(nanos);
    lemma_plainly_within(4, milliseconds_of(nanos), 1_000_000, nanos as nat, 0x4000_0000_0000);
}

/// The totals of so many times are not too large.
proof fn lemma_times_bounded(history: Seq<(u64, Binary32)>, end: int)
    requires
        0 <= end <= history.len(),
    ensures
        0 <= total(times_of(history), end) <= end * 0x1_0000_0000_0000_0000,
        0 <= total_products(times_of(history), times_of(history), end) <= end
            * 0x1_0000_0000_0000_0000_0000_0000_0000_0000,
    decreases end,
{
    if end > 0 {
        lemma_times_bounded(history, end - 1);
        let time = times_of(history)[end - 1];
        assert(0 <= time * time <= 0x1_0000_0000_0000_0000_0000_0000_0000_0000) by (nonlinear_arith)
            requires
                0 <= time <= 0x1_0000_0000_0000_0000,
        ;
    }
}

proof fn lemma_t_finite(history: Seq<(u64, Binary32)>, end: int)
    requires
        0 <= end <= history.len() <= 0x1_0000,
    ensures
        totals_of(history, end).t.finite(),
        distance(totals_of(history, end).t.value(), 0) <= 0x4000_0000_0000_0000 * one(),
    decreases end,
{
    lemma_finite_limit();
    lemma_zero();
    lemma_integer_exact(0);
    if end > 0 {
        let nanos = elapsed(history[0].0, history[end - 1].0);
        lemma_t_finite(history, end - 1);
        lemma_milliseconds_finite(nanos);
        lemma_sum_finite(totals_of(history, end - 1).t, milliseconds_of(nanos));
        lemma_t_near(history, end);
        lemma_times_bounded(history, end);
        lemma_plainly_within(
            (4 + end) as nat,
            totals_of(history, end).t,
            1_000_000,
            total(times_of(history), end) as nat,
            0x4000_0000_0000_0000,
        );
    }
}

/// Squared times that add up to so many.
proof fn lemma_squares_within(
    roundings: nat,
    a: Binary32,
    nanos: nat,
    count: nat,
    most: nat,
)
    requires
        near(roundings, a.value(), for_square_total(nanos, count)),
        roundings <= 0x80_0000,
        count <= 0x1_0000,
        2 * nanos + 1 <= most * 1_000_000_000_000,
    ensures
        distance(a.value(), 0) <= most * one(),
{
    let unit = one();
    lemma_finite_limit();
    assert((2 * nanos + 1) * unit <= (most * unit) * 1_000_000_000_000) by (nonlinear_arith)
        requires
            2 * nanos + 1 <= most * 1_000_000_000_000,
    ;
    assert((2 * nanos + 1) * unit == 2 * (nanos * unit) + unit) by (nonlinear_arith);
    lemma_near_within(roundings, a.value(), for_square_total(nanos, count), most * unit);
}

proof fn lemma_tt_finite(history: Seq<(u64, Binary32)>, end: int)
    requires
        0 <= end <= history.len() <= 0x1_0000,
    ensures
        totals_of(history, end).tt.finite(),
        distance(totals_of(history, end).tt.value(), 0) <= 0x800_0000_0000_0000_0000_0000_0000
            * one(),
    decreases end,
{
    lemma_finite_limit();
    lemma_zero();
    lemma_integer_exact(0);
    if end > 0 {
        let nanos = elapsed(history[0].0, history[end - 1].0);
        let time = milliseconds_of(nanos);
        let n = nanos as nat;
        lemma_tt_finite(history, end - 1);
        lemma_milliseconds_finite(nanos);
        lemma_product_small(time, time, 0x4000_0000_0000, 0x4000_0000_0000);
        lemma_square_near(nanos);
        assert(n * n <= 0x1_0000_0000_0000_0000_0000_0000_0000_0000) by (nonlinear_arith)
            requires
                n <= 0x1_0000_0000_0000_0000,
        ;
        lemma_squares_within(
            9,
            product_of(time, time),
            n * n,
            1,
            0x800_0000_0000_0000_0000_0000_0000,
        );
        lemma_sum_finite(totals_of(history, end - 1).tt, product_of(time, time));
        lemma_tt_near(history, end);
        lemma_times_bounded(history, end);
        lemma_squares_within(
            (9 + end) as nat,
            totals_of(history, end).tt,
            total_products(times_of(history), times_of(history), end) as nat,
            end as nat,
            0x800_0000_0000_0000_0000_0000_0000,
        );
    }
}

/// The spread of up to 65536 readings is finite, whenever they were made.
pub proof fn lemma_spread_finite(history: Seq<(u64, Binary32)>)
    requires
        history.len() <= 0x1_0000,
    ensures
        spread_of(history).finite(),
{
    let n = history.len();
    let unit = one();
    let sums = totals_of(history, n as int);
    let count = integer(n as int);
    lemma_finite_limit();
    lemma_t_finite(history, n as int);
    lemma_tt_finite(history, n as int);
    lemma_integer_exact(n);
    assert(n * unit <= 0x1_0000 * unit) by (nonlinear_arith)
        requires
            n <= 0x1_0000,
    ;
    lemma_product_small(count, sums.tt, 0x1_0000, 0x800_0000_0000_0000_0000_0000_0000);
    lemma_product_small(sums.t, sums.t, 0x4000_0000_0000_0000, 0x4000_0000_0000_0000);
    lemma_times_bounded(history, n as int);
    let counted = product_of(count, sums.tt);
    let squared = product_of(sums.t, sums.t);
    let t = total(times_of(history), n as int) as nat;
    let tt = total_products(times_of(history), times_of(history), n as int) as nat;
    lemma_counted_squares_near(history);
    lemma_squared_total_near(history);
    lemma_parts_bounded(n, t, tt);
    let most = 0x1000_0000_0000_0000_0000_0000_0000_0000 * unit;
    lemma_near_within(11 + n, counted.value(), for_counted(n, tt), most);
    lemma_near_within(2 * n + 9, squared.value(), for_squared(t), most);
    lemma_negation(squared);
    lemma_sum_finite(counted, negation_of(squared));
}

proof fn lemma_parts_bounded(n: nat, t: nat, tt: nat)
    requires
        n <= 0x1_0000,
        t <= n * 0x1_0000_0000_0000_0000,
        tt <= n * 0x1_0000_0000_0000_0000_0000_0000_0000_0000,
    ensures
        for_counted(n, tt).bound <= 0x2_0000_0000_0000_0000_0000_0000_0000_0000_0000_0000 * one(),
        for_squared(t).bound <= 0x2_0000_0000_0000_0000_0000_0000_0000_0000_0000_0000 * one(),
{
    let unit = one();
    lemma_finite_limit();
    let most_tt = 0x1_0000_0000_0000_0000_0000_0000_0000_0000_0000nat;
    let most_t = 0x1_0000_0000_0000_0000_0000nat;
    assert(n * (tt * unit + n * 1_000_000_000_000) <= 0x1_0000 * (most_tt * unit + 0x1_0000
        * 1_000_000_000_000)) by (nonlinear_arith)
        requires
            n <= 0x1_0000,
            tt <= most_tt,
    {
        assert(tt * unit <= most_tt * unit);
        assert(tt * unit + n * 1_000_000_000_000 <= most_tt * unit + 0x1_0000 * 1_000_000_000_000);
    }
    assert(t * (t * unit) <= most_t * (most_t * unit)) by (nonlinear_arith)
        requires
            t <= most_t,
    {
        assert(t * unit <= most_t * unit);
    }
}

} // verus!
