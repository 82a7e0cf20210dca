//! What the operations on numbers return: the nearest number there is.

use crate::binary32::{
    infinity, integer, lemma_nearest, lemma_with_sign, nearest, negation_of, precision, sum_of,
    unit_exponent, Binary32,
};
use crate::binary64::Binary64;
use crate::bounds::lemma_negation;
use crate::order::{lemma_nearest_of_units, lemma_rank_order, lemma_units_zero};
use crate::rounding::{
    decode, distance, encode, lemma_encode_at_exponent, lemma_encode_monotone, lemma_encode_nearest,
    lemma_encode_odd, lemma_encode_zero, lemma_quotient_bounds, lemma_quotient_unique,
    round_half_even,
};
use vstd::arithmetic::power2::{
    lemma2_to64, lemma2_to64_rest, lemma_pow2_adds, lemma_pow2_pos, lemma_pow2_unfold, pow2,
};
use vstd::prelude::*;

verus! {

/// The units of the largest finite number.
pub open spec fn largest_units() -> nat {
    Binary32 { bits: 0x7f7f_ffff }.units()
}

/// No finite number is nearer to `num / den` units than a result; and where
/// another one is as near, the result is the one with the even encoding.
pub open spec fn is_nearest(result: Binary32, num: int, den: nat) -> bool {
    forall|other: Binary32|
        other.finite() ==> {
            let off = distance(result.value() * den, num);
            let other_off = distance(#[trigger] other.value() * den, num);
            &&& off <= other_off
            &&& off == other_off && other.value() != result.value() ==> result.bits % 2 == 0
        }
}

/// A size of `num / den` units has no room: it is at least half a step past the
/// largest finite number, which has 24 bits.
pub open spec fn is_beyond(num: nat, den: nat) -> bool {
    2 * num >= den * ((pow2(25) - 1) * pow2(253))
}

proof fn lemma_beyond(num: nat, den: nat)
    requires
        den > 0,
    ensures
        is_beyond(num, den) <==> encode(precision(), num, den) >= infinity(),
{
    let unit = pow2(253);
    lemma_pow2_pos(253);
    lemma2_to64();
    lemma_pow2_adds(24, 253);
    lemma_pow2_adds(23, 253);
    let limit: nat = (0x1ff_ffff * unit) as nat;
    assert(2 * (0x80_0000 * unit) <= limit < 2 * (0x100_0000 * unit)) by (nonlinear_arith)
        requires
            limit == 0x1ff_ffff * unit,
            unit > 0,
    ;
    lemma_encode_at_exponent(24, limit, 2, 253);
    assert(limit == 0xff_ffff * (2 * unit) + unit) by (nonlinear_arith)
        requires
            limit == 0x1ff_ffff * unit,
    ;
    lemma_quotient_unique(limit, 2 * unit, 0xff_ffff, unit);
    assert(encode(24, limit, 2) == infinity());
    assert((0x1ff_ffff * unit) * den == limit * den);
    assert(den * (0x1ff_ffff * unit) == limit * den) by (nonlinear_arith)
        requires
            limit == 0x1ff_ffff * unit,
    ;
    if is_beyond(num, den) {
        assert(limit * den <= num * 2);
        lemma_encode_monotone(precision(), limit, 2, num, den);
    } else {
        lemma_below_limit(num, den, limit);
    }
}

proof fn lemma_below_limit(num: nat, den: nat, limit: nat)
    requires
        den > 0,
        limit == 0x1ff_ffff * pow2(253),
        2 * num < limit * den,
    ensures
        encode(precision(), num, den) < infinity(),
{
    let unit = pow2(253);
    lemma_pow2_pos(253);
    lemma2_to64();
    lemma_pow2_adds(24, 253);
    lemma_pow2_adds(23, 253);
    let step = den * unit;
    assert(step > 0) by (nonlinear_arith)
        requires
            den > 0,
            unit > 0,
            step == den * unit,
    ;
    assert(limit * den == 0x1ff_ffff * step && den * (0x100_0000 * unit) == 0x100_0000 * step && den
        * (0x80_0000 * unit) == 0x80_0000 * step) by (nonlinear_arith)
        requires
            limit == 0x1ff_ffff * unit,
            step == den * unit,
    ;
    if num >= 0x80_0000 * step {
        lemma_encode_at_exponent(24, num, den, 253);
        lemma_quotient_bounds(num, step);
        let quotient = num / step;
        assert(quotient <= 0xff_ffff) by (nonlinear_arith)
            requires
                2 * (quotient * step) <= 2 * num,
                2 * num < 0x1ff_ffff * step,
                step > 0,
        ;
        if quotient == 0xff_ffff {
            assert(num == 0xff_ffff * step + num % step);
        }
        assert(round_half_even(num, step) <= 0xff_ffff);
    } else {
        let low: nat = 0x80_0000 * unit;
        lemma_encode_at_exponent(24, low, 1, 253);
        lemma_quotient_unique(low, unit, 0x80_0000, 0);
        assert(1 * unit == unit && 1 * (0x80_0000 * unit) == low && 1 * (0x100_0000 * unit)
            == 0x100_0000 * unit);
        assert(low * den == 0x80_0000 * step) by (nonlinear_arith)
            requires
                low == 0x80_0000 * unit,
                step == den * unit,
        ;
        lemma_encode_monotone(precision(), num, den, low, 1);
    }
}

proof fn lemma_tie(negative: bool, num: nat, den: nat, other: Binary32)
    requires
        den > 0,
        nearest(negative, num, den).finite(),
        other.finite(),
    ensures
        ({
            let result = nearest(negative, num, den);
            let exact: int = if negative {
                -(num as int)
            } else {
                num as int
            };
            distance(result.value() * den, exact) == distance(other.value() * den, exact)
                && other.value() != result.value() ==> result.bits % 2 == 0
        }),
{
    let result = nearest(negative, num, den);
    lemma_nearest(negative, num, den);
    let (r, o) = (result.units() as int, other.units() as int);
    assert((-r) * den == -(r * den) && (-o) * den == -(o * den) && 0 * den == 0)
        by (nonlinear_arith);
    assert(r * den >= 0 && o * den >= 0) by (nonlinear_arith)
        requires
            r >= 0,
            o >= 0,
    ;
    assert(o * den == 0 ==> o == 0) by (nonlinear_arith)
        requires
            den > 0,
    ;
    assert(result.magnitude() == encode(precision(), num, den));
    lemma2_to64();
    assert(decode(precision(), 0) == 0);
    if result.bits % 2 == 1 {
        assert(encode(precision(), num, den) % 2 == 1);
        if o != r {
            lemma_encode_odd(precision(), num, den, other.magnitude());
        }
        if r != 0 {
            lemma_encode_odd(precision(), num, den, 0);
        }
    }
}

/// What is rounded is rounded to the nearest number, and stays finite up to the
/// largest one.
proof fn lemma_nearest_is(negative: bool, num: nat, den: nat)
    requires
        den > 0,
    ensures
        ({
            let result = nearest(negative, num, den);
            let exact: int = if negative {
                -(num as int)
            } else {
                num as int
            };
            &&& !result.nan()
            &&& result.negative() == negative
            &&& result.finite() ==> is_nearest(result, exact, den)
            &&& num <= largest_units() * den ==> result.finite()
            &&& is_beyond(num, den) <==> result.infinite()
        }),
{
    let result = nearest(negative, num, den);
    let exact: int = if negative {
        -(num as int)
    } else {
        num as int
    };
    lemma_nearest(negative, num, den);
    lemma_beyond(num, den);
    if num <= largest_units() * den {
        let top = Binary32 { bits: 0x7f7f_ffff };
        lemma_nearest_of_units(top);
        lemma_nearest(false, top.units(), 1);
        assert(num * 1 <= top.units() * den);
        lemma_encode_monotone(precision(), num, den, top.units(), 1);
    }
    if result.finite() {
        assert forall|other: Binary32| other.finite() implies distance(
            result.value() * den,
            exact,
        ) <= distance(#[trigger] other.value() * den, exact) && (distance(
            result.value() * den,
            exact,
        ) == distance(other.value() * den, exact) && other.value() != result.value() ==> result.bits
            % 2 == 0) by {
            lemma_encode_nearest(precision(), num, den, other.magnitude());
            lemma_tie(negative, num, den, other);
            let (r, o) = (result.units(), other.units());
            assert((-(r as int)) * den == -(r * den) && (-(o as int)) * den == -(o * den))
                by (nonlinear_arith);
            assert(r * den >= 0 && o * den >= 0) by (nonlinear_arith);
        }
    }
}

/// A sum of finite numbers is the nearest number to the exact sum.
pub proof fn lemma_sum_is_nearest(a: Binary32, b: Binary32, result: Binary32)
    requires
        call_ensures(Binary32::plus, (a, b), result),
        a.finite(),
        b.finite(),
    ensures
        !result.nan(),
        result.finite() ==> is_nearest(result, a.value() + b.value(), 1),
        distance(a.value() + b.value(), 0) <= largest_units() ==> result.finite(),
        result.infinite() <==> is_beyond(distance(a.value() + b.value(), 0) as nat, 1),
        result.negative() == if a.value() + b.value() == 0 {
            a.negative() && b.negative()
        } else {
            a.value() + b.value() < 0
        },
{
    lemma_sum_nearest(a, b);
}

proof fn lemma_sum_nearest(a: Binary32, b: Binary32)
    requires
        a.finite(),
        b.finite(),
    ensures
        ({
            let result = sum_of(a, b);
            &&& !result.nan()
            &&& result.finite() ==> is_nearest(result, a.value() + b.value(), 1)
            &&& distance(a.value() + b.value(), 0) <= largest_units() ==> result.finite()
            &&& result.infinite() <==> is_beyond(distance(a.value() + b.value(), 0) as nat, 1)
            &&& result.negative() == if a.value() + b.value() == 0 {
                a.negative() && b.negative()
            } else {
                a.value() + b.value() < 0
            }
        }),
{
    let total = a.value() + b.value();
    let result = sum_of(a, b);
    if total == 0 {
        lemma_with_sign(a.negative() && b.negative(), 0);
        lemma_units_zero(result);
        lemma_beyond(0, 1);
        lemma_encode_zero(precision(), 1);
        assert forall|other: Binary32| other.finite() implies distance(
            result.value() * 1,
            total,
        ) <= distance(#[trigger] other.value() * 1, total) by {}
    } else if total < 0 {
        lemma_nearest_is(true, (-total) as nat, 1);
    } else {
        lemma_nearest_is(false, total as nat, 1);
    }
}

/// A difference of finite numbers is the nearest number to the exact one.
pub proof fn lemma_difference_is_nearest(a: Binary32, b: Binary32, result: Binary32)
    requires
        call_ensures(Binary32::minus, (a, b), result),
        a.finite(),
        b.finite(),
    ensures
        !result.nan(),
        result.finite() ==> is_nearest(result, a.value() - b.value(), 1),
        distance(a.value() - b.value(), 0) <= largest_units() ==> result.finite(),
        result.infinite() <==> is_beyond(distance(a.value() - b.value(), 0) as nat, 1),
        result.negative() == if a.value() == b.value() {
            a.negative() && !b.negative()
        } else {
            a.value() < b.value()
        },
{
    lemma_negation(b);
    lemma_sum_nearest(a, negation_of(b));
}

/// A product of finite numbers is the nearest number to the exact one.
pub proof fn lemma_product_is_nearest(a: Binary32, b: Binary32, result: Binary32)
    requires
        call_ensures(Binary32::times, (a, b), result),
        a.finite(),
        b.finite(),
    ensures
        !result.nan(),
        result.finite() ==> is_nearest(
            result,
            a.value() * b.value(),
            pow2(unit_exponent()),
        ),
        distance(a.value() * b.value(), 0) <= largest_units() * pow2(unit_exponent())
            ==> result.finite(),
        result.infinite() <==> is_beyond(
            distance(a.value() * b.value(), 0) as nat,
            pow2(unit_exponent()),
        ),
        result.negative() == (a.negative() != b.negative()),
{
    let (x, y) = (a.units() as int, b.units() as int);
    lemma_pow2_pos(unit_exponent());
    lemma_nearest_is(
        a.negative() != b.negative(),
        a.units() * b.units(),
        pow2(unit_exponent()),
    );
    assert((-x) * y == -(x * y) && x * (-y) == -(x * y) && (-x) * (-y) == x * y && x * y >= 0)
        by (nonlinear_arith)
        requires
            x >= 0,
            y >= 0,
    ;
}

/// A quotient by a number other than 0 is the nearest number to the exact one.
pub proof fn lemma_quotient_is_nearest(a: Binary32, b: Binary32, result: Binary32)
    requires
        call_ensures(Binary32::over, (a, b), result),
        a.finite(),
        b.finite(),
        b.value() != 0,
    ensures
        ({
            let num = a.value() * pow2(unit_exponent());
            let den = distance(b.value(), 0) as nat;
            &&& !result.nan()
            &&& result.finite() && b.value() > 0 ==> is_nearest(result, num, den)
            &&& result.finite() && b.value() < 0 ==> is_nearest(result, -num, den)
            &&& distance(num, 0) <= largest_units() * den ==> result.finite()
            &&& result.infinite() <==> is_beyond(distance(num, 0) as nat, den)
            &&& result.negative() == (a.negative() != b.negative())
        }),
{
    let unit = pow2(unit_exponent());
    let x = a.units() as int;
    lemma_units_zero(b);
    lemma_nearest_is(a.negative() != b.negative(), a.units() * unit, b.units());
    assert((-x) * unit == -(x * unit) && x * unit >= 0) by (nonlinear_arith)
        requires
            x >= 0,
            unit >= 0,
    ;
}

/// What has no value gives none, and what is without end stays so; only where
/// two such ends are taken from one another, multiplied by 0 or divided, or 0 is
/// divided by 0, there is no result.
pub proof fn lemma_without_end(
    a: Binary32,
    b: Binary32,
    sum: Binary32,
    difference: Binary32,
    product: Binary32,
    quotient: Binary32,
)
    requires
        call_ensures(Binary32::plus, (a, b), sum),
        call_ensures(Binary32::minus, (a, b), difference),
        call_ensures(Binary32::times, (a, b), product),
        call_ensures(Binary32::over, (a, b), quotient),
    ensures
        a.nan() || b.nan() ==> sum.nan() && difference.nan() && product.nan() && quotient.nan(),
        a.infinite() && b.finite() ==> sum == a && difference == a,
        a.finite() && b.infinite() ==> sum == b && difference.infinite() && difference.negative()
            != b.negative(),
        a.infinite() && b.infinite() ==> {
            &&& quotient.nan()
            &&& a.negative() == b.negative() ==> sum == a && difference.nan()
            &&& a.negative() != b.negative() ==> sum.nan() && difference == a
        },
        !a.nan() && !b.nan() && (a.infinite() || b.infinite()) ==> {
            let zero = a.magnitude() == 0 || b.magnitude() == 0;
            &&& zero <==> product.nan()
            &&& !zero ==> product.infinite() && product.negative() == (a.negative()
                != b.negative())
        },
        a.infinite() && b.finite() ==> quotient.infinite() && quotient.negative() == (a.negative()
            != b.negative()),
        a.finite() && b.infinite() ==> quotient.magnitude() == 0 && quotient.negative() == (
        a.negative() != b.negative()),
        a.finite() && b.magnitude() == 0 ==> {
            &&& a.magnitude() == 0 <==> quotient.nan()
            &&& a.magnitude() != 0 ==> quotient.infinite() && quotient.negative() == (a.negative()
                != b.negative())
        },
{
    lemma_with_sign(true, infinity());
    lemma_with_sign(false, infinity());
    lemma_with_sign(true, 0);
    lemma_with_sign(false, 0);
    lemma_with_sign(!b.negative(), b.magnitude());
}

/// An integer becomes the nearest number.
pub proof fn lemma_integer_is_nearest(number: u64, result: Binary32)
    requires
        call_ensures(Binary32::from_u64, (number,), result),
    ensures
        !result.nan() && !result.negative(),
        result.finite() ==> is_nearest(result, number * pow2(unit_exponent()), 1),
        result.infinite() <==> is_beyond(
            (distance(number as int, 0) * pow2(unit_exponent())) as nat,
            1,
        ),
{
    lemma_nearest_is(false, number as nat * pow2(unit_exponent()), 1);
}

/// A signed integer becomes the nearest number.
pub proof fn lemma_signed_is_nearest(number: i32, result: Binary32)
    requires
        call_ensures(Binary32::from_i32, (number,), result),
    ensures
        !result.nan(),
        result.finite() ==> is_nearest(result, number * pow2(unit_exponent()), 1),
        result.infinite() <==> is_beyond(
            (distance(number as int, 0) * pow2(unit_exponent())) as nat,
            1,
        ),
{
    let unit = pow2(unit_exponent());
    if number < 0 {
        lemma_nearest_is(true, (-number) as nat * unit, 1);
        assert(-((-number) * unit) == number * unit) by (nonlinear_arith);
    } else {
        lemma_nearest_is(false, number as nat * unit, 1);
    }
}

/// A ratio becomes the nearest number.
pub proof fn lemma_ratio_is_nearest(num: u32, den: u32, result: Binary32)
    requires
        call_ensures(Binary32::from_ratio, (num, den), result),
        den > 0,
    ensures
        !result.nan() && !result.negative(),
        result.finite() ==> is_nearest(result, num * pow2(unit_exponent()), den as nat),
        result.infinite() <==> is_beyond(num as nat * pow2(unit_exponent()), den as nat),
{
    lemma_nearest_is(false, num as nat * pow2(unit_exponent()), den as nat);
}

/// Comparisons of finite numbers compare their values; with something that is
/// no number they do not hold.
pub proof fn lemma_comparisons(
    a: Binary32,
    b: Binary32,
    lt: bool,
    le: bool,
    gt: bool,
    ge: bool,
    equals: bool,
)
    requires
        call_ensures(Binary32::lt, (a, b), lt),
        call_ensures(Binary32::le, (a, b), le),
        call_ensures(Binary32::gt, (a, b), gt),
        call_ensures(Binary32::ge, (a, b), ge),
        call_ensures(Binary32::equals, (a, b), equals),
    ensures
        a.nan() || b.nan() ==> !lt && !le && !gt && !ge && !equals,
        a.finite() && b.finite() ==> {
            &&& lt <==> a.value() < b.value()
            &&& le <==> a.value() <= b.value()
            &&& gt <==> a.value() > b.value()
            &&& ge <==> a.value() >= b.value()
            &&& equals <==> a.value() == b.value()
        },
        a.infinite() && b.finite() ==> lt == a.negative() && le == a.negative() && gt
            == !a.negative() && ge == !a.negative() && !equals,
        a.finite() && b.infinite() ==> lt == !b.negative() && le == !b.negative() && gt
            == b.negative() && ge == b.negative() && !equals,
        a.infinite() && b.infinite() ==> {
            &&& lt == (a.negative() && !b.negative())
            &&& gt == (!a.negative() && b.negative())
            &&& le == (a.negative() || !b.negative())
            &&& ge == (!a.negative() || b.negative())
            &&& equals == (a.negative() == b.negative())
        },
{
    if a.finite() && b.finite() {
        lemma_rank_order(a, b);
        lemma_rank_order(b, a);
    }
}

/// Turning the sign round, and leaving it out.
pub proof fn lemma_signs(a: Binary32, negated: Binary32, absolute: Binary32)
    requires
        call_ensures(Binary32::negate, (a,), negated),
        call_ensures(Binary32::absolute, (a,), absolute),
    ensures
        negated.value() == -a.value(),
        negated.finite() == a.finite(),
        absolute.value() == distance(a.value(), 0),
        absolute.finite() == a.finite(),
        negated.nan() == a.nan(),
        absolute.nan() == a.nan(),
{
    lemma_with_sign(!a.negative(), a.magnitude());
    lemma_with_sign(false, a.magnitude());
}

/// What has no value is cut off to 0, and what is without end to the end of the
/// range.
pub proof fn lemma_cut_off_without_end(a: Binary32, result: i32)
    requires
        call_ensures(Binary32::truncate, (a,), result),
    ensures
        a.nan() ==> result == 0,
        a.infinite() && a.negative() ==> result == i32::MIN,
        a.infinite() && !a.negative() ==> result == i32::MAX,
{
}

/// A number is cut off to a whole one towards zero, and to the range of 32 bits.
pub proof fn lemma_cut_off(a: Binary32, result: i32)
    requires
        call_ensures(Binary32::truncate, (a,), result),
        a.finite(),
    ensures
        ({
            let unit = pow2(unit_exponent());
            let whole = distance(result as int, 0);
            &&& whole * unit <= distance(a.value(), 0)
            &&& i32::MIN < result < i32::MAX ==> distance(a.value(), 0) < (whole + 1) * unit
            &&& a.value() >= 0 ==> result >= 0
            &&& a.value() <= 0 ==> result <= 0
            &&& result == i32::MAX ==> a.value() >= i32::MAX * unit
        }),
{
    let unit = pow2(unit_exponent());
    lemma_pow2_pos(unit_exponent());
    lemma_quotient_bounds(a.units(), unit);
    let quotient = a.units() / unit;
    let whole = distance(result as int, 0);
    assert(whole <= quotient);
    assert(whole * unit <= quotient * unit) by (nonlinear_arith)
        requires
            0 <= whole <= quotient,
            unit > 0,
    ;
    assert((quotient + 1) * unit == quotient * unit + unit) by (nonlinear_arith);
    if a.units() == 0 {
        assert(quotient == 0) by (nonlinear_arith)
            requires
                quotient * unit <= 0,
                unit > 0,
                quotient >= 0,
        ;
    }
}

/// A double-precision number becomes the nearest one in single precision, of
/// which a unit is `2^925` of its own.
pub proof fn lemma_narrowed_is_nearest(number: Binary64, result: Binary32)
    requires
        call_ensures(Binary64::narrow, (number,), result),
    ensures
        number.nan() ==> result.nan(),
        number.infinite() ==> result.infinite() && result.negative() == number.negative(),
        !number.nan() && !number.infinite() ==> {
            &&& !result.nan()
            &&& result.negative() == number.negative()
            &&& result.finite() ==> is_nearest(
                result,
                if number.negative() {
                    -(number.units() as int)
                } else {
                    number.units() as int
                },
                pow2(925),
            )
            &&& number.units() <= largest_units() * pow2(925) ==> result.finite()
            &&& result.infinite() <==> is_beyond(number.units(), pow2(925))
        },
{
    lemma_pow2_pos(925);
    lemma_with_sign(number.negative(), 0x7f80_0000);
    if !number.nan() && !number.infinite() {
        lemma_nearest_is(number.negative(), number.units(), pow2(925));
    }
}

/// What a bit pattern stands for: a sign bit, eight bits of exponent, and 23
/// bits of fraction, which a leading one joins unless the exponent is 0. The
/// largest exponent is for what is without end, and for what is no number.
pub proof fn lemma_bits_stand_for(number: Binary32, is_nan: bool, bits: u32, same: Binary32)
    requires
        call_ensures(Binary32::is_nan, (number,), is_nan),
        call_ensures(Binary32::to_bits, (number,), bits),
        call_ensures(Binary32::from_bits, (bits,), same),
    ensures
        ({
            let fraction = (bits % 0x80_0000) as int;
            let exponent = ((bits / 0x80_0000) % 0x100) as int;
            let size: int = if exponent == 0 {
                fraction
            } else {
                (0x80_0000 + fraction) * pow2((exponent - 1) as nat)
            };
            &&& same == number
            &&& number.finite() <==> exponent < 255
            &&& number.infinite() <==> exponent == 255 && fraction == 0
            &&& is_nan <==> exponent == 255 && fraction != 0
            &&& number.nan() <==> is_nan
            &&& number.negative() <==> bits / 0x8000_0000 == 1
            &&& number.finite() ==> number.value() == if bits / 0x8000_0000 == 1 {
                -size
            } else {
                size
            }
        }),
{
    lemma2_to64();
}

/// A ratio becomes the nearest number of double precision; where another one is
/// as near, the one with the even encoding.
pub proof fn lemma_double_ratio_is_nearest(
    num: u32,
    den: u32,
    result: Binary64,
    bits: u64,
    same: Binary64,
    other: Binary64,
)
    requires
        call_ensures(Binary64::from_ratio, (num, den), result),
        call_ensures(Binary64::to_bits, (result,), bits),
        call_ensures(Binary64::from_bits, (bits,), same),
        den > 0,
    ensures
        !result.nan() && !result.infinite() && !result.negative(),
        bits == result.bits && same == result,
        ({
            let exact = num * pow2(1074);
            let off = distance(exact, (result.units() * den) as int);
            let other_off = distance(exact, (other.units() * den) as int);
            &&& off <= other_off
            &&& off == other_off && result.units() != other.units() ==> result.bits % 2 == 0
        }),
{
    let exact: nat = num as nat * pow2(1074);
    let top: nat = 0x10_0000_0000_0000 * pow2(1054);
    lemma2_to64();
    lemma2_to64_rest();
    lemma_pow2_pos(1054);
    lemma_pow2_pos(1074);
    lemma_pow2_adds(52, 1054);
    lemma_pow2_adds(53, 1054);
    lemma_pow2_adds(32, 1074);
    assert(1 * pow2(1054) == pow2(1054) && 1 * pow2(1106) == pow2(1106) && 1 * pow2(1107) == pow2(
        1107,
    ));
    assert(pow2(1106) < pow2(1107)) by {
        lemma_pow2_unfold(1107);
        lemma_pow2_pos(1106);
    }
    lemma_encode_at_exponent(53, top, 1, 1054);
    lemma_quotient_unique(top, pow2(1054), 0x10_0000_0000_0000, 0);
    assert(exact * 1 <= top * den) by (nonlinear_arith)
        requires
            exact == num * pow2(1074),
            num < 0x1_0000_0000,
            top == 0x1_0000_0000 * pow2(1074),
            den >= 1,
    ;
    lemma_encode_monotone(53, exact, den as nat, top, 1);
    let encoding = encode(53, exact, den as nat);
    assert(result.magnitude() == encoding);
    lemma_encode_nearest(53, exact, den as nat, other.magnitude());
    if result.bits % 2 == 1 && result.units() != other.units() {
        lemma_encode_odd(53, exact, den as nat, other.magnitude());
    }
}

} // verus!
