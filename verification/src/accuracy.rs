//! How far roundings can take a result from the exact one.

use crate::binary32::{
    difference_of, integer, lemma_nearest, lemma_with_sign, nearest, negation_of, precision,
    product_of, quotient_of, sum_of, unit_exponent, Binary32,
};
use crate::bounds::lemma_negation;
use crate::order::{lemma_encode_power, lemma_units_zero};
use crate::rounding::{distance, lemma_encode_error, lemma_encode_monotone};
use vstd::arithmetic::power::{lemma_pow0, lemma_pow_adds, lemma_pow_positive, pow};
use vstd::arithmetic::power2::{lemma2_to64, lemma_pow2_pos, pow2};
use vstd::prelude::*;

verus! {

/// What errors are counted in after so many roundings: `2^24` for each.
pub open spec fn scale(roundings: nat) -> nat {
    pow(0x100_0000, roundings) as nat
}

/// What the scale grows to where every rounding goes up by one part in `2^24`.
pub open spec fn growth(roundings: nat) -> nat {
    pow(0x100_0001, roundings) as nat
}

pub(crate) proof fn lemma_powers(roundings: nat)
    ensures
        0 < scale(roundings) <= growth(roundings),
        scale(0) == 1,
        growth(0) == 1,
        scale(roundings + 1) == 0x100_0000 * scale(roundings),
        growth(roundings + 1) == 0x100_0001 * growth(roundings),
    decreases roundings,
{
    lemma_pow0(0x100_0000);
    lemma_pow0(0x100_0001);
    lemma_pow_positive(0x100_0000, roundings);
    lemma_pow_positive(0x100_0001, roundings);
    reveal(pow);
    if roundings > 0 {
        lemma_powers((roundings - 1) as nat);
    }
}

proof fn lemma_powers_add(a: nat, b: nat)
    ensures
        scale(a + b) == scale(a) * scale(b),
        growth(a + b) == growth(a) * growth(b),
{
    lemma_powers(a);
    lemma_powers(b);
    lemma_pow_adds(0x100_0000, a, b);
    lemma_pow_adds(0x100_0001, a, b);
    lemma_pow_positive(0x100_0000, a);
    lemma_pow_positive(0x100_0001, a);
    lemma_pow_positive(0x100_0000, b);
    lemma_pow_positive(0x100_0001, b);
}

/// What a held number stands for: `exact / den` units. `size` is the size of
/// the terms that the exact value is made of, and `bound` the size with what
/// underflow can add to it.
pub struct Estimate {
    pub den: nat,
    pub exact: int,
    pub size: nat,
    pub bound: nat,
}

impl Estimate {
    pub open spec fn wf(self) -> bool {
        &&& self.den > 0
        &&& -(self.size as int) <= self.exact <= self.size
        &&& self.size <= self.bound
    }

    /// How far so many roundings can go, counted in [`scale`].
    pub open spec fn margin(self, roundings: nat) -> int {
        growth(roundings) * self.bound - scale(roundings) * self.size
    }
}

/// So many roundings can take the exact value to the held one, and no further.
#[verifier::opaque]
pub open spec fn near(roundings: nat, held: int, what: Estimate) -> bool {
    &&& what.wf()
    &&& scale(roundings) * distance(held * what.den, what.exact) <= what.margin(roundings)
}

/// Sum and product of what two numbers stand for.
pub(crate) open spec fn sum(a: Estimate, b: Estimate) -> Estimate {
    Estimate {
        den: a.den,
        exact: a.exact + b.exact,
        size: a.size + b.size,
        bound: a.bound + b.bound,
    }
}

pub(crate) open spec fn product(a: Estimate, b: Estimate) -> Estimate {
    Estimate {
        den: a.den * b.den,
        exact: a.exact * b.exact,
        size: a.size * b.size,
        bound: a.bound * b.bound,
    }
}

/// The same in a `unit` times smaller unit, with one more unit for underflow.
pub(crate) open spec fn refined(what: Estimate, unit: nat, underflow: bool) -> Estimate {
    Estimate {
        den: what.den * unit,
        exact: what.exact,
        size: what.size,
        bound: what.bound + if underflow {
            what.den * unit
        } else {
            0
        },
    }
}

/// The same with all numbers larger by a factor.
pub(crate) open spec fn expanded(what: Estimate, factor: nat) -> Estimate {
    Estimate {
        den: what.den * factor,
        exact: what.exact * factor,
        size: what.size * factor,
        bound: what.bound * factor,
    }
}

/// A whole number of units, held as it is.
pub(crate) open spec fn held_exactly(value: int) -> Estimate {
    let size = distance(value, 0) as nat;
    Estimate { den: 1, exact: value, size, bound: size }
}

pub(crate) proof fn lemma_near_exact(value: int)
    ensures
        near(0, value, held_exactly(value)),
{
    reveal(near);
    lemma_powers(0);
    assert(value * 1 == value);
    assert(scale(0) * 0 == 0);
}

/// What a held number can be at most.
proof fn lemma_near_size(roundings: nat, held: int, what: Estimate)
    requires
        near(roundings, held, what),
    ensures
        scale(roundings) * distance(held * what.den, 0) <= growth(roundings) * what.bound,
{
    reveal(near);
    let one = scale(roundings);
    let off = distance(held * what.den, what.exact);
    let largest = distance(held * what.den, 0);
    lemma_powers(roundings);
    assert(one * largest <= one * off + one * what.size) by (nonlinear_arith)
        requires
            largest <= off + what.size,
            one > 0,
    ;
}

/// More roundings are allowed.
pub(crate) proof fn lemma_near_more(fewer: nat, more: nat, held: int, what: Estimate)
    requires
        near(fewer, held, what),
        fewer <= more,
    ensures
        near(more, held, what),
    decreases more,
{
    reveal(near);
    if fewer < more {
        let before = (more - 1) as nat;
        lemma_near_more(fewer, before, held, what);
        lemma_powers(before);
        let off = distance(held * what.den, what.exact);
        let (one, most) = (scale(before), growth(before));
        assert((0x100_0000 * one) * off == 0x100_0000 * (one * off)) by (nonlinear_arith);
        assert((0x100_0000 * one) * what.size == 0x100_0000 * (one * what.size))
            by (nonlinear_arith);
        assert((0x100_0001 * most) * what.bound == 0x100_0001 * (most * what.bound))
            by (nonlinear_arith);
        assert(most * what.bound >= 0) by (nonlinear_arith);
    }
}

pub(crate) proof fn lemma_near_sum(roundings: nat, x: int, a: Estimate, y: int, b: Estimate)
    requires
        near(roundings, x, a),
        near(roundings, y, b),
        a.den == b.den,
    ensures
        near(roundings, x + y, sum(a, b)),
{
    reveal(near);
    let (one, most) = (scale(roundings), growth(roundings));
    let off_x = distance(x * a.den, a.exact);
    let off_y = distance(y * b.den, b.exact);
    let off = distance((x + y) * a.den, a.exact + b.exact);
    assert((x + y) * a.den == x * a.den + y * a.den) by (nonlinear_arith);
    assert(one * off <= one * off_x + one * off_y) by (nonlinear_arith)
        requires
            off <= off_x + off_y,
            one >= 0,
    ;
    assert(most * (a.bound + b.bound) == most * a.bound + most * b.bound) by (nonlinear_arith);
    assert(one * (a.size + b.size) == one * a.size + one * b.size) by (nonlinear_arith);
}

/// Turning the sign round.
pub(crate) open spec fn opposite(what: Estimate) -> Estimate {
    Estimate { exact: -what.exact, ..what }
}

pub(crate) proof fn lemma_near_opposite(roundings: nat, held: int, what: Estimate)
    requires
        near(roundings, held, what),
    ensures
        near(roundings, -held, opposite(what)),
{
    reveal(near);
    assert((-held) * what.den == -(held * what.den)) by (nonlinear_arith);
}

/// The size of a product.
pub(crate) proof fn lemma_size_of_product(a: int, b: int)
    by (nonlinear_arith)
    ensures
        distance(a * b, 0) == distance(a, 0) * distance(b, 0),
{
    assert((-a) * b == -(a * b));
    assert(a * (-b) == -(a * b));
    assert((-a) * (-b) == a * b);
    assert(a >= 0 && b >= 0 ==> a * b >= 0);
    assert(a <= 0 && b >= 0 ==> a * b <= 0);
    assert(a >= 0 && b <= 0 ==> a * b <= 0);
    assert(a <= 0 && b <= 0 ==> a * b >= 0);
}

/// How far a product is off.
proof fn lemma_product_off(x: int, y: int, exact_x: int, exact_y: int)
    ensures
        distance(x * y, exact_x * exact_y) <= distance(x, 0) * distance(y, exact_y) + distance(
            x,
            exact_x,
        ) * distance(exact_y, 0),
{
    let p = x * (y - exact_y);
    let q = (x - exact_x) * exact_y;
    assert(x * y - exact_x * exact_y == p + q) by (nonlinear_arith)
        requires
            p == x * (y - exact_y),
            q == (x - exact_x) * exact_y,
    ;
    lemma_size_of_product(x, y - exact_y);
    lemma_size_of_product(x - exact_x, exact_y);
}

pub(crate) proof fn lemma_near_product(j: nat, x: int, a: Estimate, k: nat, y: int, b: Estimate)
    requires
        near(j, x, a),
        near(k, y, b),
    ensures
        near(j + k, x * y, product(a, b)),
{
    reveal(near);
    lemma_powers(j);
    lemma_powers(k);
    lemma_powers_add(j, k);
    lemma_near_size(j, x, a);
    let (one_x, most_x) = (scale(j), growth(j));
    let (one_y, most_y) = (scale(k), growth(k));
    let (wide_x, wide_y) = (x * a.den, y * b.den);
    let off_x = distance(wide_x, a.exact);
    let off_y = distance(wide_y, b.exact);
    let off = distance(wide_x * wide_y, a.exact * b.exact);
    assert((x * y) * (a.den * b.den) == wide_x * wide_y) by (nonlinear_arith)
        requires
            wide_x == x * a.den,
            wide_y == y * b.den,
    ;
    lemma_product_off(wide_x, wide_y, a.exact, b.exact);
    let size_x = distance(wide_x, 0);
    let size_y = distance(b.exact, 0);
    // Each factor in its own scale.
    let (sx, gx) = ((one_x * a.size) as int, (most_x * a.bound) as int);
    let (sy, gy) = ((one_y * b.size) as int, (most_y * b.bound) as int);
    let one = one_x * one_y;
    assert(one * off <= one * (size_x * off_y) + one * (off_x * size_y)) by (nonlinear_arith)
        requires
            off <= size_x * off_y + off_x * size_y,
            one >= 0,
    ;
    assert(one * (size_x * off_y) == (one_x * size_x) * (one_y * off_y)) by (nonlinear_arith)
        requires
            one == one_x * one_y,
    ;
    assert(one * (off_x * size_y) == (one_x * off_x) * (one_y * size_y)) by (nonlinear_arith)
        requires
            one == one_x * one_y,
    ;
    assert(one_x * size_x >= 0 && one_y * off_y >= 0 && one_x * off_x >= 0) by (nonlinear_arith)
        requires
            one_x >= 0,
            one_y >= 0,
            size_x >= 0,
            off_x >= 0,
            off_y >= 0,
    ;
    assert(0 <= one_y * size_y <= sy) by (nonlinear_arith)
        requires
            0 <= size_y <= b.size,
            one_y >= 0,
            sy == one_y * b.size,
    ;
    lemma_bounded_sum(one_x * size_x, one_y * off_y, one_x * off_x, one_y * size_y, gx, gy, sx, sy);
    assert((most_x * most_y) * (a.bound * b.bound) == gx * gy) by (nonlinear_arith)
        requires
            gx == most_x * a.bound,
            gy == most_y * b.bound,
    ;
    assert(one * (a.size * b.size) == sx * sy) by (nonlinear_arith)
        requires
            one == one_x * one_y,
            sx == one_x * a.size,
            sy == one_y * b.size,
    ;
    lemma_product_wf(a, b);
}

proof fn lemma_bounded_sum(p: int, q: int, r: int, s: int, gx: int, gy: int, sx: int, sy: int)
    requires
        0 <= p <= gx,
        0 <= q <= gy - sy,
        0 <= r <= gx - sx,
        0 <= s <= sy,
    ensures
        p * q + r * s <= gx * gy - sx * sy,
{
    assert(p * q <= gx * (gy - sy)) by (nonlinear_arith)
        requires
            0 <= p <= gx,
            0 <= q <= gy - sy,
    ;
    assert(r * s <= (gx - sx) * sy) by (nonlinear_arith)
        requires
            0 <= r <= gx - sx,
            0 <= s <= sy,
    ;
    assert(gx * (gy - sy) + (gx - sx) * sy == gx * gy - sx * sy) by (nonlinear_arith);
}

proof fn lemma_product_wf(a: Estimate, b: Estimate)
    requires
        a.wf(),
        b.wf(),
    ensures
        product(a, b).wf(),
{
    lemma_size_of_product(a.exact, b.exact);
    let (p, q) = (distance(a.exact, 0), distance(b.exact, 0));
    assert(p * q <= a.size * b.size) by (nonlinear_arith)
        requires
            0 <= p <= a.size,
            0 <= q <= b.size,
    ;
    assert(a.size * b.size <= a.bound * b.bound) by (nonlinear_arith)
        requires
            a.size <= a.bound,
            b.size <= b.bound,
    ;
    assert(a.den * b.den > 0) by (nonlinear_arith)
        requires
            a.den > 0,
            b.den > 0,
    ;
}

/// One part in `2^24` of what was rounded, and half a unit where it underflows.
pub(crate) open spec fn rounded(held: int, result: int, unit: nat, underflow: bool) -> bool {
    0x100_0000 * distance(result * unit, held) <= distance(held, 0) + if underflow {
        0x80_0000 * unit
    } else {
        0
    }
}

/// Rounding once more.
pub(crate) proof fn lemma_near_rounded(
    roundings: nat,
    held: int,
    what: Estimate,
    unit: nat,
    result: int,
    underflow: bool,
)
    requires
        near(roundings, held, what),
        unit > 0,
        rounded(held, result, unit, underflow),
    ensures
        near(roundings + 1, result, refined(what, unit, underflow)),
{
    reveal(near);
    lemma_powers(roundings);
    lemma_near_size(roundings, held, what);
    let (one, most) = (scale(roundings), growth(roundings));
    let den = what.den;
    let half: nat = if underflow {
        0x80_0000 * unit
    } else {
        0
    };
    let step = distance(result * unit, held);
    let off = distance(held * den, what.exact);
    let moved = distance((result * unit) * den, held * den);
    assert(result * (den * unit) == (result * unit) * den) by (nonlinear_arith);
    assert((result * unit) * den - held * den == (result * unit - held) * den) by (nonlinear_arith);
    lemma_size_of_product(result * unit - held, den as int);
    assert(moved == step * den);
    let wide = distance(held * den, 0);
    lemma_size_of_product(held, den as int);
    assert(0x100_0000 * (step * den) <= wide + half * den) by (nonlinear_arith)
        requires
            0x100_0000 * step <= distance(held, 0) + half,
            wide == distance(held, 0) * den,
    ;
    let all = distance(result * (den * unit), what.exact);
    assert(all <= moved + off);
    assert((0x100_0000 * one) * all <= one * wide + one * (half * den) + 0x100_0000 * (one * off))
        by (nonlinear_arith)
        requires
            all <= moved + off,
            0x100_0000 * moved <= wide + half * den,
            one >= 0,
    ;
    assert((0x100_0000 * one) * what.size == 0x100_0000 * (one * what.size)) by (nonlinear_arith);
    assert((0x100_0001 * most) * what.bound == 0x100_0001 * (most * what.bound))
        by (nonlinear_arith);
    if underflow {
        let more = den * unit;
        assert(one * (half * den) == 0x80_0000 * (one * more)) by (nonlinear_arith)
            requires
                half == 0x80_0000 * unit,
                more == den * unit,
        ;
        assert(0x80_0000 * (one * more) <= (0x100_0001 * most) * more) by (nonlinear_arith)
            requires
                0 <= one <= most,
                more >= 0,
        ;
        assert((0x100_0001 * most) * (what.bound + more) == (0x100_0001 * most) * what.bound + (
        0x100_0001 * most) * more) by (nonlinear_arith);
    } else {
        assert(one * (0 * den) == 0) by (nonlinear_arith);
    }
    assert(den * unit > 0) by (nonlinear_arith)
        requires
            den > 0,
            unit > 0,
    ;
}

/// A common factor does not matter.
pub(crate) proof fn lemma_near_expanded(roundings: nat, held: int, what: Estimate, factor: nat)
    requires
        factor > 0,
    ensures
        near(roundings, held, expanded(what, factor)) <==> near(roundings, held, what),
{
    reveal(near);
    let (one, most) = (scale(roundings), growth(roundings));
    let off = distance(held * what.den, what.exact);
    let wide = distance(held * (what.den * factor), what.exact * factor);
    assert(held * (what.den * factor) - what.exact * factor == (held * what.den - what.exact)
        * factor) by (nonlinear_arith);
    lemma_size_of_product(held * what.den - what.exact, factor as int);
    assert(wide == off * factor);
    let (p, q, r) = (one * off, most * what.bound, one * what.size);
    assert(one * wide == p * factor && most * (what.bound * factor) == q * factor && one * (
    what.size * factor) == r * factor) by (nonlinear_arith)
        requires
            wide == off * factor,
            p == one * off,
            q == most * what.bound,
            r == one * what.size,
    ;
    assert(p * factor <= q * factor - r * factor <==> p <= q - r) by (nonlinear_arith)
        requires
            factor > 0,
    ;
    assert(what.den * factor > 0 <==> what.den > 0) by (nonlinear_arith)
        requires
            factor > 0,
    ;
    let (x, s, b) = (what.exact, what.size as int, what.bound as int);
    assert(x * factor <= s * factor <==> x <= s) by (nonlinear_arith)
        requires
            factor > 0,
    ;
    assert(-(s * factor) <= x * factor <==> -s <= x) by (nonlinear_arith)
        requires
            factor > 0,
    ;
    assert(s * factor <= b * factor <==> s <= b) by (nonlinear_arith)
        requires
            factor > 0,
    ;
}

/// How far the nearest number is off.
proof fn lemma_nearest_error(negative: bool, num: nat, den: nat)
    requires
        den > 0,
        nearest(negative, num, den).finite(),
    ensures
        ({
            let result = nearest(negative, num, den);
            let off = distance((result.units() * den) as int, num as int);
            &&& result.negative() == negative
            &&& 0x100_0000 * off <= num + 0x80_0000 * den
            &&& num % den == 0 || num >= 0x80_0000 * den ==> 0x100_0000 * off <= num
        }),
{
    lemma_nearest(negative, num, den);
    lemma_encode_error(precision(), num, den);
    lemma2_to64();
}

pub(crate) proof fn lemma_integer_rounded(number: nat)
    requires
        integer(number as int).finite(),
    ensures
        rounded(
            (number * pow2(unit_exponent())) as int,
            integer(number as int).value(),
            1,
            false,
        ),
{
    lemma_nearest_error(false, number * pow2(unit_exponent()), 1);
    let held = integer(number as int).value();
    assert(held * 1 == held);
}

pub(crate) proof fn lemma_sum_rounded(a: Binary32, b: Binary32)
    requires
        sum_of(a, b).finite(),
    ensures
        a.finite(),
        b.finite(),
        rounded(a.value() + b.value(), sum_of(a, b).value(), 1, false),
{
    let total = a.value() + b.value();
    let held = sum_of(a, b).value();
    assert(held * 1 == held);
    if total == 0 {
        lemma_with_sign(a.negative() && b.negative(), 0);
        lemma_units_zero(sum_of(a, b));
    } else if total < 0 {
        lemma_nearest_error(true, (-total) as nat, 1);
    } else {
        lemma_nearest_error(false, total as nat, 1);
    }
}

pub(crate) proof fn lemma_difference_rounded(a: Binary32, b: Binary32)
    requires
        difference_of(a, b).finite(),
    ensures
        a.finite(),
        b.finite(),
        rounded(a.value() - b.value(), difference_of(a, b).value(), 1, false),
{
    lemma_with_sign(!b.negative(), b.magnitude());
    lemma_sum_rounded(a, negation_of(b));
    lemma_negation(b);
}

/// The value of a number in terms of its sign and units, times a factor.
proof fn lemma_signed_distance(negative: bool, units: nat, den: nat, size: nat)
    ensures
        ({
            let held: int = if negative {
                -(units as int)
            } else {
                units as int
            };
            let exact: int = if negative {
                -(size as int)
            } else {
                size as int
            };
            &&& distance(held * den, exact) == distance((units * den) as int, size as int)
            &&& distance(exact, 0) == size
        }),
{
    assert((-(units as int)) * den == -(units * den)) by (nonlinear_arith);
}

/// The sign and the size of a product of two values.
proof fn lemma_value_product(a: Binary32, b: Binary32)
    ensures
        a.value() * b.value() == if a.negative() != b.negative() {
            -((a.units() * b.units()) as int)
        } else {
            (a.units() * b.units()) as int
        },
{
    let (x, y) = (a.units() as int, b.units() as int);
    assert((-x) * y == -(x * y) && x * (-y) == -(x * y) && (-x) * (-y) == x * y)
        by (nonlinear_arith);
}

pub(crate) proof fn lemma_product_rounded(a: Binary32, b: Binary32)
    requires
        product_of(a, b).finite(),
    ensures
        a.finite(),
        b.finite(),
        rounded(a.value() * b.value(), product_of(a, b).value(), pow2(unit_exponent()), true),
        (a.units() * b.units()) % pow2(unit_exponent()) == 0 ==> rounded(
            a.value() * b.value(),
            product_of(a, b).value(),
            pow2(unit_exponent()),
            false,
        ),
{
    let unit = pow2(unit_exponent());
    let negative = a.negative() != b.negative();
    lemma_pow2_pos(unit_exponent());
    lemma_with_sign(negative, 0x7f80_0000);
    lemma_nearest_error(negative, a.units() * b.units(), unit);
    lemma_value_product(a, b);
    lemma_signed_distance(negative, product_of(a, b).units(), unit, a.units() * b.units());
}

pub(crate) proof fn lemma_quotient_rounded(a: Binary32, b: Binary32)
    requires
        quotient_of(a, b).finite(),
        b.finite(),
        b.value() > 0,
    ensures
        a.finite(),
        rounded(
            a.value() * pow2(unit_exponent()),
            quotient_of(a, b).value(),
            b.units(),
            true,
        ),
        a.units() == 0 || a.units() * pow2(unit_exponent()) >= 0x80_0000 * b.units() ==> rounded(
            a.value() * pow2(unit_exponent()),
            quotient_of(a, b).value(),
            b.units(),
            false,
        ),
{
    let unit = pow2(unit_exponent());
    let negative = a.negative();
    lemma_units_zero(b);
    lemma_with_sign(negative, 0x7f80_0000);
    lemma_nearest_error(negative, a.units() * unit, b.units());
    let units = a.units() as int;
    assert((-units) * unit == -(units * unit)) by (nonlinear_arith);
    lemma_signed_distance(negative, quotient_of(a, b).units(), b.units(), a.units() * unit);
    if a.units() == 0 {
        assert(0 * unit == 0) by (nonlinear_arith);
        assert(0nat % b.units() == 0) by (nonlinear_arith)
            requires
                b.units() > 0,
        ;
    }
}

pub(crate) proof fn lemma_near_sum_of(
    roundings: nat,
    a: Binary32,
    for_a: Estimate,
    b: Binary32,
    for_b: Estimate,
)
    requires
        near(roundings, a.value(), for_a),
        near(roundings, b.value(), for_b),
        for_a.den == for_b.den,
        sum_of(a, b).finite(),
    ensures
        near(roundings + 1, sum_of(a, b).value(), sum(for_a, for_b)),
{
    lemma_sum_rounded(a, b);
    lemma_near_sum(roundings, a.value(), for_a, b.value(), for_b);
    lemma_near_rounded(
        roundings,
        a.value() + b.value(),
        sum(for_a, for_b),
        1,
        sum_of(a, b).value(),
        false,
    );
    assert(for_a.den * 1 == for_a.den);
    assert(refined(sum(for_a, for_b), 1, false) == sum(for_a, for_b));
}

pub(crate) proof fn lemma_near_difference_of(
    roundings: nat,
    a: Binary32,
    for_a: Estimate,
    b: Binary32,
    for_b: Estimate,
)
    requires
        near(roundings, a.value(), for_a),
        near(roundings, b.value(), for_b),
        for_a.den == for_b.den,
        difference_of(a, b).finite(),
    ensures
        near(roundings + 1, difference_of(a, b).value(), sum(for_a, opposite(for_b))),
{
    lemma_difference_rounded(a, b);
    lemma_negation(b);
    lemma_near_opposite(roundings, b.value(), for_b);
    lemma_near_sum_of(roundings, a, for_a, negation_of(b), opposite(for_b));
}

pub(crate) proof fn lemma_near_product_of(
    j: nat,
    a: Binary32,
    for_a: Estimate,
    k: nat,
    b: Binary32,
    for_b: Estimate,
)
    requires
        near(j, a.value(), for_a),
        near(k, b.value(), for_b),
        product_of(a, b).finite(),
    ensures
        near(
            j + k + 1,
            product_of(a, b).value(),
            refined(product(for_a, for_b), pow2(unit_exponent()), true),
        ),
{
    lemma_product_rounded(a, b);
    lemma_pow2_pos(unit_exponent());
    lemma_near_product(j, a.value(), for_a, k, b.value(), for_b);
    lemma_near_rounded(
        j + k,
        a.value() * b.value(),
        product(for_a, for_b),
        pow2(unit_exponent()),
        product_of(a, b).value(),
        true,
    );
}

/// A quotient, rounded: how far it is from that of what its parts stand for.
pub(crate) proof fn lemma_quotient_off(
    roundings: nat,
    a: int,
    for_a: Estimate,
    b: nat,
    for_b: Estimate,
    unit: nat,
    result: int,
)
    requires
        near(roundings, a, for_a),
        near(roundings, b as int, for_b),
        b > 0,
        rounded(a * unit, result, b, true),
    ensures
        scale(roundings + 1) * distance(
            (result * for_a.den) * for_b.exact,
            (unit * for_b.den) * for_a.exact,
        ) <= distance(result * for_a.den, 0) * for_b.margin(roundings + 1) + (unit * for_b.den)
            * for_a.margin(roundings + 1) + growth(roundings + 1) * (for_a.den * b * for_b.den),
{
    let next = roundings + 1;
    lemma_powers(next);
    // What was divided.
    let wide = product(for_a, held_exactly(unit as int));
    lemma_near_exact(unit as int);
    lemma_near_product(roundings, a, for_a, 0, unit as int, held_exactly(unit as int));
    lemma_near_rounded(roundings, a * unit, wide, b, result, true);
    // What it was divided by.
    lemma_near_more(roundings, next, b as int, for_b);
    reveal(near);
    let (da, db) = (for_a.den, for_b.den);
    let left = result * da;
    let middle = distance(result * ((da * 1) * b), for_a.exact * unit);
    let off = distance((b * db) as int, for_b.exact);
    assert(da * 1 == da);
    assert(result * (da * b) == left * b) by (nonlinear_arith)
        requires
            left == result * da,
    ;
    assert((left * b) * db == left * (b * db)) by (nonlinear_arith);
    let target = (unit * db) * for_a.exact;
    assert((for_a.exact * unit) * db == target) by (nonlinear_arith)
        requires
            target == (unit * db) * for_a.exact,
    ;
    assert((left * b) * db - (for_a.exact * unit) * db == (left * b - for_a.exact * unit) * db)
        by (nonlinear_arith);
    lemma_size_of_product(left * b - for_a.exact * unit, db as int);
    assert(distance(left * (b * db), target) == middle * db);
    assert(left * (b * db) - left * for_b.exact == left * (b * db - for_b.exact))
        by (nonlinear_arith);
    lemma_size_of_product(left, b * db - for_b.exact);
    let size = distance(left, 0);
    assert(distance(left * (b * db), left * for_b.exact) == size * off);
    let all = distance(left * for_b.exact, target);
    assert(all <= size * off + middle * db);
    let (s, g) = (scale(next), growth(next));
    assert(s * all <= size * (s * off) + db * (s * middle)) by (nonlinear_arith)
        requires
            all <= size * off + middle * db,
            s >= 0,
    ;
    assert(size * (s * off) <= size * for_b.margin(next)) by (nonlinear_arith)
        requires
            s * off <= for_b.margin(next),
            size >= 0,
    ;
    let (sa, ba) = (for_a.size, for_a.bound);
    let most = g * (ba * unit + da * b) - s * (sa * unit);
    assert(s * middle <= most);
    assert(db * (s * middle) <= db * most) by (nonlinear_arith)
        requires
            s * middle <= most,
            db >= 0,
    ;
    let (x, y, z) = (g * ba, s * sa, da * b);
    assert(most == x * unit + g * z - y * unit) by {
        assert(g * (ba * unit + z) == (g * ba) * unit + g * z) by (nonlinear_arith);
        assert(s * (sa * unit) == (s * sa) * unit) by (nonlinear_arith);
    }
    assert(db * (x * unit + g * z - y * unit) == db * (x * unit) + db * (g * z) - db * (y * unit))
        by (nonlinear_arith);
    assert(db * (x * unit) == (unit * db) * x && db * (y * unit) == (unit * db) * y && db * (g * z)
        == g * (z * db)) by (nonlinear_arith);
    assert((unit * db) * (x - y) == (unit * db) * x - (unit * db) * y) by (nonlinear_arith);
}

/// So many roundings add at most one part in `2^24` each, and little more: where
/// `k` of them are few against `2^24`, at most `k` parts in `2^24 - k`.
pub proof fn lemma_roundings_add(roundings: nat)
    requires
        roundings <= 0x100_0000,
    ensures
        growth(roundings) * (0x100_0000 - roundings) <= scale(roundings) * 0x100_0000,
    decreases roundings,
{
    lemma_powers(0);
    if roundings > 0 {
        let before = (roundings - 1) as nat;
        lemma_powers(before);
        lemma_roundings_add(before);
        let (g, s, left) = (growth(before) as int, scale(before), 0x100_0000 - roundings);
        assert((0x100_0001 * g) * left == 0x100_0001 * (g * left)) by (nonlinear_arith);
        assert(g * (left + 1) == g * left + g) by (nonlinear_arith);
        assert(g * left <= g * 0x100_0000) by (nonlinear_arith)
            requires
                g >= 0,
                left <= 0x100_0000,
        ;
        assert((0x100_0000 * s) * 0x100_0000 == 0x100_0000 * (s * 0x100_0000)) by (nonlinear_arith);
    }
}

/// After few roundings a number is at most twice its bound.
pub(crate) proof fn lemma_near_within(roundings: nat, held: int, what: Estimate, most: nat)
    requires
        near(roundings, held, what),
        roundings <= 0x80_0000,
        2 * what.bound <= most * what.den,
    ensures
        distance(held, 0) <= most,
{
    lemma_near_size(roundings, held, what);
    lemma_roundings_add(roundings);
    lemma_powers(roundings);
    reveal(near);
    let (g, s) = (growth(roundings), scale(roundings));
    lemma_size_of_product(held, what.den as int);
    let size = distance(held, 0);
    assert(g <= 2 * s) by (nonlinear_arith)
        requires
            g * (0x100_0000 - roundings) <= s * 0x100_0000,
            roundings <= 0x80_0000,
            g >= 0,
    ;
    assert(size * what.den <= 2 * what.bound) by (nonlinear_arith)
        requires
            s * (size * what.den) <= g * what.bound,
            g <= 2 * s,
            s > 0,
    ;
    assert(size <= most) by (nonlinear_arith)
        requires
            size * what.den <= most * what.den,
            what.den > 0,
    ;
}

/// Up to `2^127` nothing is infinite.
proof fn lemma_nearest_finite(negative: bool, num: nat, den: nat)
    requires
        den > 0,
        num <= pow2(276) * den,
    ensures
        nearest(negative, num, den).finite(),
{
    lemma_encode_power(253);
    assert(num * 1 <= pow2(276) * den);
    lemma_encode_monotone(precision(), num, den, pow2(276), 1);
    lemma_nearest(negative, num, den);
}

pub(crate) proof fn lemma_integer_finite(number: nat)
    requires
        number * pow2(unit_exponent()) <= pow2(276),
    ensures
        integer(number as int).finite(),
{
    lemma_nearest_finite(false, number * pow2(unit_exponent()), 1);
}

pub(crate) proof fn lemma_sum_finite(a: Binary32, b: Binary32)
    requires
        a.finite(),
        b.finite(),
        distance(a.value(), 0) + distance(b.value(), 0) <= pow2(276),
    ensures
        sum_of(a, b).finite(),
{
    let total = a.value() + b.value();
    if total == 0 {
        lemma_with_sign(a.negative() && b.negative(), 0);
    } else if total < 0 {
        lemma_nearest_finite(true, (-total) as nat, 1);
    } else {
        lemma_nearest_finite(false, total as nat, 1);
    }
}

pub(crate) proof fn lemma_product_finite(a: Binary32, b: Binary32)
    requires
        a.finite(),
        b.finite(),
        distance(a.value(), 0) * distance(b.value(), 0) <= pow2(276) * pow2(unit_exponent()),
    ensures
        product_of(a, b).finite(),
{
    lemma_pow2_pos(unit_exponent());
    lemma_nearest_finite(
        a.negative() != b.negative(),
        a.units() * b.units(),
        pow2(unit_exponent()),
    );
}

pub(crate) proof fn lemma_quotient_finite(a: Binary32, b: Binary32)
    requires
        a.finite(),
        b.finite(),
        b.units() > 0,
        a.units() * pow2(unit_exponent()) <= pow2(276) * b.units(),
    ensures
        quotient_of(a, b).finite(),
{
    lemma_units_zero(b);
    lemma_nearest_finite(
        a.negative() != b.negative(),
        a.units() * pow2(unit_exponent()),
        b.units(),
    );
}

} // verus!
