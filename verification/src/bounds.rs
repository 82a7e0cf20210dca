//! What the operations keep of order and range.

use crate::binary32::{
    absolute_of, at_most, integer, lemma_nearest, lemma_with_sign, less, negation_of, precision,
    product_of, quotient_of, ratio, sum_of, truncated, unit_exponent, Binary32,
};
use crate::order::{
    lemma_decode_order, lemma_integer_exact, lemma_nearest_of_units, lemma_rank_order,
    lemma_units_zero,
};
use crate::rounding::{encode, lemma_encode_monotone, lemma_encode_zero, lemma_quotient_bounds};
use vstd::arithmetic::power2::{lemma_pow2_pos, pow2};
use vstd::prelude::*;

verus! {

/// Zero is held as the number with no bit set.
pub(crate) proof fn lemma_zero()
    ensures
        integer(0).magnitude() == 0,
        integer(0).rank() == 0,
        !integer(0).nan(),
        !integer(0).negative(),
        integer(0).value() == 0,
{
    lemma_integer_exact(0);
    assert(0 * pow2(unit_exponent()) == 0);
    lemma_units_zero(integer(0));
}

/// A sum of finite numbers stays within the integers that its exact value lies between.
pub(crate) proof fn lemma_sum_between(a: Binary32, b: Binary32, low: int, high: int)
    requires
        a.finite(),
        b.finite(),
        -0x100_0000 < low <= high < 0x100_0000,
        low * pow2(unit_exponent()) <= a.value() + b.value() <= high * pow2(unit_exponent()),
    ensures
        sum_of(a, b).finite(),
        low * pow2(unit_exponent()) <= sum_of(a, b).value() <= high * pow2(unit_exponent()),
{
    let unit = pow2(unit_exponent());
    let total = a.value() + b.value();
    let result = sum_of(a, b);
    lemma_pow2_pos(unit_exponent());
    let bound = (if total < 0 {
        -low
    } else {
        high
    }) as nat;
    assert(total < 0 ==> low < 0) by (nonlinear_arith)
        requires
            low * unit <= total,
            unit > 0,
    ;
    assert(total >= 0 ==> high >= 0) by (nonlinear_arith)
        requires
            total <= high * unit,
            unit > 0,
    ;
    let size = (if total < 0 {
        -total
    } else {
        total
    }) as nat;
    assert((-low) * unit == -(low * unit)) by (nonlinear_arith);
    assert(size <= bound * unit);
    lemma_integer_exact(bound);
    lemma_nearest(false, bound * unit, 1);
    lemma_encode_monotone(precision(), size, 1, bound * unit, 1);
    lemma_nearest(total < 0, size, 1);
    lemma_encode_zero(precision(), 1);
    if total == 0 {
        lemma_units_zero(result);
    } else {
        assert(result.magnitude() == encode(precision(), size, 1));
        lemma_decode_order(precision(), result.magnitude(), integer(bound as int).magnitude());
    }
    if total < 0 {
        assert(0 <= high * unit || result.value() <= high * unit) by {
            if high < 0 {
                // The upper end is negative too: it bounds the size from below.
                let least = (-high) as nat;
                assert((-high) * unit == -(high * unit)) by (nonlinear_arith);
                lemma_integer_exact(least);
                lemma_nearest(false, least * unit, 1);
                lemma_encode_monotone(precision(), least * unit, 1, size, 1);
                lemma_decode_order(
                    precision(),
                    integer(least as int).magnitude(),
                    result.magnitude(),
                );
            } else {
                assert(high * unit >= 0) by (nonlinear_arith)
                    requires
                        high >= 0,
                        unit > 0,
                ;
            }
        }
    } else if low > 0 {
        let least = low as nat;
        lemma_integer_exact(least);
        lemma_nearest(false, least * unit, 1);
        lemma_encode_monotone(precision(), least * unit, 1, size, 1);
        assert(total > 0) by (nonlinear_arith)
            requires
                low * unit <= total,
                low > 0,
                unit > 0,
        ;
        lemma_decode_order(precision(), integer(least as int).magnitude(), result.magnitude());
    } else {
        assert(low * unit <= 0) by (nonlinear_arith)
            requires
                low <= 0,
                unit > 0,
        ;
    }
}

/// Comparing with a small integer compares values.
pub(crate) proof fn lemma_against_integer(a: Binary32, number: nat)
    requires
        number < 0x100_0000,
    ensures
        at_most(a, integer(number as int)) && !a.infinite() ==> a.finite() && a.value() <= number
            * pow2(unit_exponent()),
        at_most(integer(number as int), a) && a.finite() ==> number * pow2(unit_exponent())
            <= a.value(),
        at_most(integer(number as int), a) ==> !a.nan() && !(a.infinite() && a.negative()),
        at_most(a, integer(number as int)) ==> !a.nan() && !(a.infinite() && !a.negative()),
        a.finite() && a.value() <= number * pow2(unit_exponent()) ==> at_most(
            a,
            integer(number as int),
        ),
        a.finite() && number * pow2(unit_exponent()) <= a.value() ==> at_most(
            integer(number as int),
            a,
        ),
{
    lemma_integer_exact(number);
    if a.finite() {
        lemma_rank_order(a, integer(number as int));
        lemma_rank_order(integer(number as int), a);
    }
}

/// A number within one, as a range of values.
pub(crate) proof fn lemma_within_one(a: Binary32)
    requires
        at_most(absolute_of(a), integer(1)),
    ensures
        a.finite(),
        -pow2(unit_exponent()) <= a.value() <= pow2(unit_exponent()),
{
    let size = absolute_of(a);
    lemma_with_sign(false, a.magnitude());
    lemma_against_integer(size, 1);
    assert(1 * pow2(unit_exponent()) == pow2(unit_exponent()));
}

/// A count is not negative.
pub proof fn lemma_count_not_negative(count: nat)
    ensures
        !less(integer(count as int), integer(0)),
{
    lemma_zero();
    lemma_nearest(false, count * pow2(unit_exponent()), 1);
}

/// Turning the sign round turns the value round.
pub proof fn lemma_negation(a: Binary32)
    requires
        a.finite(),
    ensures
        negation_of(a).finite(),
        negation_of(a).value() == -a.value(),
{
    lemma_with_sign(!a.negative(), a.magnitude());
}

/// Nothing divided by nothing is no number.
pub proof fn lemma_zero_over_zero()
    ensures
        quotient_of(integer(0), integer(0)).nan(),
{
    lemma_zero();
}

/// Small integers add up exactly.
pub proof fn lemma_sum_exact(a: nat, b: nat)
    requires
        a + b < 0x100_0000,
    ensures
        sum_of(integer(a as int), integer(b as int)) == integer((a + b) as int),
        integer((a + b) as int).finite(),
        integer((a + b) as int).units() == (a + b) * pow2(unit_exponent()),
{
    let unit = pow2(unit_exponent());
    lemma_integer_exact(a);
    lemma_integer_exact(b);
    lemma_integer_exact(a + b);
    assert(a * unit + b * unit == (a + b) * unit) by (nonlinear_arith);
    lemma_encode_zero(precision(), 1);
}

/// A number between integers, times a positive integer, is between the multiples.
pub(crate) proof fn lemma_product_between(factor: nat, a: Binary32, low: int, high: int)
    requires
        a.finite(),
        0 < factor < 0x1000,
        -0x1000 < low <= high < 0x1000,
        low * pow2(unit_exponent()) <= a.value() <= high * pow2(unit_exponent()),
    ensures
        product_of(integer(factor as int), a).finite(),
        factor * low * pow2(unit_exponent()) <= product_of(integer(factor as int), a).value()
            <= factor * high * pow2(unit_exponent()),
{
    let unit = pow2(unit_exponent());
    let scale = integer(factor as int);
    let result = product_of(scale, a);
    lemma_pow2_pos(unit_exponent());
    lemma_integer_exact(factor);
    let size = a.units();
    let num = scale.units() * size;
    let (least, most) = if a.negative() {
        (
            if high < 0 {
                -high
            } else {
                0
            },
            -low,
        )
    } else {
        (
            if low > 0 {
                low
            } else {
                0
            },
            high,
        )
    };
    assert((-low) * unit == -(low * unit) && (-high) * unit == -(high * unit)) by (nonlinear_arith);
    assert(0 * unit == 0);
    assert(most >= 0) by (nonlinear_arith)
        requires
            0 <= size <= most * unit,
            unit > 0,
    ;
    let near = (factor * least) as nat;
    let far = (factor * most) as nat;
    assert(0 <= factor * least <= factor * most < 0x100_0000) by (nonlinear_arith)
        requires
            0 < factor < 0x1000,
            0 <= least <= most < 0x1000,
    ;
    assert(near * unit * unit <= num && num <= far * unit * unit) by (nonlinear_arith)
        requires
            near == factor * least,
            far == factor * most,
            num == factor * unit * size,
            least * unit <= size <= most * unit,
            factor > 0,
            unit > 0,
    ;
    lemma_integer_exact(near);
    lemma_integer_exact(far);
    lemma_encode_monotone(precision(), near * unit, 1, num, unit);
    lemma_encode_monotone(precision(), num, unit, far * unit, 1);
    lemma_nearest(false, near * unit, 1);
    lemma_nearest(false, far * unit, 1);
    lemma_nearest(a.negative(), num, unit);
    lemma_decode_order(precision(), integer(near as int).magnitude(), result.magnitude());
    lemma_decode_order(precision(), result.magnitude(), integer(far as int).magnitude());
    assert(near * unit <= result.units() <= far * unit);
    assert(factor * low * unit <= result.value() <= factor * high * unit) by (nonlinear_arith)
        requires
            near * unit <= result.units() <= far * unit,
            near == factor * least,
            far == factor * most,
            factor > 0,
            unit > 0,
            a.negative() ==> result.value() == -result.units() && most == -low && (least == -high
                || (least == 0 && high >= 0)),
            !a.negative() ==> result.value() == result.units() && most == high && (least == low || (
            least == 0 && low <= 0)),
    ;
}

/// A small integer of either sign is held exactly.
pub(crate) proof fn lemma_small_integer(number: int)
    requires
        -0x100_0000 < number < 0x100_0000,
    ensures
        integer(number).finite(),
        integer(number).value() == number * pow2(unit_exponent()),
{
    let size = (if number < 0 {
        -number
    } else {
        number
    }) as nat;
    let unit = pow2(unit_exponent());
    lemma_integer_exact(size);
    lemma_nearest(number < 0, size * unit, 1);
    lemma_nearest(false, size * unit, 1);
    if number < 0 {
        assert((-number) * unit == -(number * unit)) by (nonlinear_arith);
    }
}

/// A part of a whole is at most 1.
pub(crate) proof fn lemma_ratio_within_one(num: nat, den: nat)
    requires
        num <= den,
        den > 0,
    ensures
        ratio(num, den).finite(),
        !ratio(num, den).negative(),
        at_most(absolute_of(ratio(num, den)), integer(1)),
{
    let unit = pow2(unit_exponent());
    lemma_integer_exact(1);
    assert(1 * unit == unit);
    assert(num * unit * 1 <= unit * den) by (nonlinear_arith)
        requires
            num <= den,
    ;
    lemma_encode_monotone(precision(), num * unit, den, unit, 1);
    lemma_nearest(false, num * unit, den);
    lemma_nearest(false, unit, 1);
    lemma_with_sign(false, ratio(num, den).magnitude());
}

/// A larger part of a whole is no smaller.
pub(crate) proof fn lemma_ratio_order(small: nat, large: nat, den: nat)
    requires
        small <= large <= den,
        den > 0,
    ensures
        ratio(small, den).units() <= ratio(large, den).units(),
{
    let unit = pow2(unit_exponent());
    assert(small * unit * den <= large * unit * den) by (nonlinear_arith)
        requires
            small <= large,
    ;
    lemma_ratio_within_one(small, den);
    lemma_ratio_within_one(large, den);
    lemma_encode_monotone(precision(), small * unit, den, large * unit, den);
    lemma_nearest(false, small * unit, den);
    lemma_nearest(false, large * unit, den);
    lemma_decode_order(precision(), ratio(small, den).magnitude(), ratio(large, den).magnitude());
}

/// Scaling by a number within one does not go beyond an integer bound.
pub(crate) proof fn lemma_product_within(a: Binary32, b: Binary32, bound: nat)
    requires
        a.finite(),
        bound < 0x100_0000,
        -(bound * pow2(unit_exponent())) <= a.value() <= bound * pow2(unit_exponent()),
        at_most(absolute_of(b), integer(1)),
    ensures
        product_of(a, b).finite(),
        product_of(a, b).negative() == (a.negative() != b.negative()),
        product_of(a, b).units() <= bound * pow2(unit_exponent()),
        -bound <= truncated(product_of(a, b)) <= bound,
        !a.negative() && !b.negative() ==> 0 <= truncated(product_of(a, b)),
{
    let unit = pow2(unit_exponent());
    let result = product_of(a, b);
    lemma_pow2_pos(unit_exponent());
    lemma_within_one(b);
    lemma_integer_exact(bound);
    let num = a.units() * b.units();
    assert(num * 1 <= bound * unit * unit) by (nonlinear_arith)
        requires
            num == a.units() * b.units(),
            0 <= a.units() <= bound * unit,
            0 <= b.units() <= unit,
    ;
    lemma_encode_monotone(precision(), num, unit, bound * unit, 1);
    lemma_nearest(a.negative() != b.negative(), num, unit);
    lemma_nearest(false, bound * unit, 1);
    lemma_decode_order(precision(), result.magnitude(), integer(bound as int).magnitude());
    lemma_quotient_bounds(result.units(), unit);
    let whole = result.units() / unit;
    assert(whole <= bound) by (nonlinear_arith)
        requires
            whole * unit <= result.units() <= bound * unit,
            unit > 0,
    ;
}

/// A larger factor gives no smaller product of numbers that are not negative.
pub(crate) proof fn lemma_product_order(a: Binary32, b: Binary32, c: Binary32)
    requires
        a.finite() && !a.negative(),
        b.finite() && !b.negative(),
        c.finite() && !c.negative(),
        b.units() <= c.units(),
        product_of(a, c).finite(),
    ensures
        product_of(a, b).finite(),
        product_of(a, b).units() <= product_of(a, c).units(),
        truncated(product_of(a, b)) <= truncated(product_of(a, c)),
{
    let unit = pow2(unit_exponent());
    lemma_pow2_pos(unit_exponent());
    let low = a.units() * b.units();
    let high = a.units() * c.units();
    assert(low * unit <= high * unit) by (nonlinear_arith)
        requires
            low == a.units() * b.units(),
            high == a.units() * c.units(),
            b.units() <= c.units(),
    ;
    lemma_encode_monotone(precision(), low, unit, high, unit);
    lemma_nearest(false, low, unit);
    lemma_nearest(false, high, unit);
    let x = product_of(a, b);
    let y = product_of(a, c);
    lemma_decode_order(precision(), x.magnitude(), y.magnitude());
    lemma_quotient_bounds(x.units(), unit);
    lemma_quotient_bounds(y.units(), unit);
    let p = x.units() / unit;
    let q = y.units() / unit;
    assert(p <= q) by (nonlinear_arith)
        requires
            p * unit <= x.units() <= y.units(),
            y.units() < q * unit + unit,
            unit > 0,
    ;
}

/// Adding a number that is not negative never makes a number smaller.
pub proof fn lemma_sum_grows(a: Binary32, b: Binary32)
    requires
        a.finite(),
        b.finite(),
        b.value() >= 0,
    ensures
        at_most(a, sum_of(a, b)),
{
    lemma_zero();
    lemma_units_zero(a);
    lemma_nearest_of_units(a);
    lemma_sum_monotone(integer(0), b, a);
    assert(sum_of(integer(0), a).rank() == a.rank());
    assert(sum_of(b, a).rank() == sum_of(a, b).rank());
}

/// Addition keeps the order.
pub proof fn lemma_sum_monotone(a: Binary32, b: Binary32, c: Binary32)
    requires
        a.finite(),
        b.finite(),
        c.finite(),
        a.value() <= b.value(),
    ensures
        at_most(sum_of(a, c), sum_of(b, c)),
{
    let low = a.value() + c.value();
    let high = b.value() + c.value();
    let small = (if low < 0 {
        -low
    } else {
        low
    }) as nat;
    let large = (if high < 0 {
        -high
    } else {
        high
    }) as nat;
    lemma_nearest(low < 0, small, 1);
    lemma_nearest(high < 0, large, 1);
    if high < 0 {
        lemma_encode_monotone(precision(), large, 1, small, 1);
    } else if low > 0 {
        lemma_encode_monotone(precision(), small, 1, large, 1);
    }
}

/// Numbers that are not negative add up to one that is not.
pub proof fn lemma_sum_not_negative(a: Binary32, b: Binary32)
    requires
        !less(a, integer(0)),
        !less(b, integer(0)),
    ensures
        !less(sum_of(a, b), integer(0)),
{
    lemma_zero();
    if a.finite() && b.finite() {
        lemma_rank_order(a, integer(0));
        lemma_rank_order(b, integer(0));
        let total = a.value() + b.value();
        lemma_nearest(false, total as nat, 1);
    }
}

/// A number that is not negative, divided by a count, is not negative.
pub proof fn lemma_share_not_negative(a: Binary32, count: nat)
    requires
        !less(a, integer(0)),
    ensures
        !less(quotient_of(a, integer(count as int)), integer(0)),
{
    let divisor = integer(count as int);
    lemma_zero();
    lemma_nearest(false, count * pow2(unit_exponent()), 1);
    lemma_nearest(a.negative(), a.units() * pow2(unit_exponent()), divisor.units());
    if a.negative() && a.finite() {
        lemma_units_zero(a);
        lemma_units_zero(divisor);
        assert(a.units() * pow2(unit_exponent()) == 0) by (nonlinear_arith)
            requires
                a.units() == 0,
        ;
        if divisor.units() > 0 {
            lemma_encode_zero(precision(), divisor.units());
        }
    }
}

} // verus!
