//! The numeric order of single-precision numbers, and what the operations keep of it.

use crate::binary32::{
    at_most, integer, lemma_nearest, nearest, precision, quotient_of, unit_exponent, Binary32,
};
use crate::rounding::{
    decode, encode, lemma_decode, lemma_encode_decode, lemma_encode_monotone, lemma_quotient_unique,
    lemma_representable,
};
use vstd::arithmetic::power2::{lemma2_to64, lemma_pow2_adds, lemma_pow2_pos, pow2};
use vstd::prelude::*;

verus! {

/// Encodings are ordered as the values that they stand for.
pub proof fn lemma_decode_order(precision: nat, a: nat, b: nat)
    requires
        precision > 0,
    ensures
        a <= b <==> decode(precision, a) <= decode(precision, b),
{
    let x = decode(precision, a);
    let y = decode(precision, b);
    lemma_encode_decode(precision, a);
    lemma_encode_decode(precision, b);
    if x <= y {
        assert(x * 1 <= y * 1);
        lemma_encode_monotone(precision, x, 1, y, 1);
    }
    if y <= x {
        assert(y * 1 <= x * 1);
        lemma_encode_monotone(precision, y, 1, x, 1);
    }
}

/// Zero has the value 0.
pub proof fn lemma_units_zero(a: Binary32)
    ensures
        a.magnitude() == 0 <==> a.units() == 0,
{
    lemma_pow2_pos(23);
    assert(decode(precision(), 0) == 0) by {
        lemma_quotient_unique(0, pow2(23), 0, 0);
    }
    lemma_decode_order(precision(), a.magnitude(), 0);
    lemma_decode_order(precision(), 0, a.magnitude());
}

/// The comparisons of finite numbers compare their values.
pub proof fn lemma_rank_order(a: Binary32, b: Binary32)
    requires
        a.finite(),
        b.finite(),
    ensures
        a.rank() <= b.rank() <==> a.value() <= b.value(),
        a.rank() < b.rank() <==> a.value() < b.value(),
{
    lemma_decode_order(precision(), a.magnitude(), b.magnitude());
    lemma_decode_order(precision(), b.magnitude(), a.magnitude());
    lemma_units_zero(a);
    lemma_units_zero(b);
}

/// The encoding of a power of two.
pub proof fn lemma_encode_power(exponent: nat)
    ensures
        encode(precision(), pow2(23 + exponent), 1) == (exponent + 1) * 0x80_0000,
{
    lemma2_to64();
    lemma_pow2_adds(23, exponent);
    lemma_decode(precision(), exponent, pow2(23));
    lemma_encode_decode(precision(), exponent * pow2(23) + pow2(23));
    assert(exponent * pow2(23) + pow2(23) == (exponent + 1) * 0x80_0000) by (nonlinear_arith)
        requires
            pow2(23) == 0x80_0000,
    ;
}

/// The encoding of 1.
pub proof fn lemma_encode_one()
    ensures
        encode(precision(), pow2(unit_exponent()), 1) == 0x3f80_0000,
        decode(precision(), 0x3f80_0000) == pow2(unit_exponent()),
{
    lemma_encode_power(126);
    lemma2_to64();
    lemma_pow2_adds(23, 126);
    lemma_decode(precision(), 126, pow2(23));
}

/// Integers of up to 24 bits are held exactly.
pub proof fn lemma_integer_exact(number: nat)
    requires
        number < 0x100_0000,
    ensures
        integer(number as int).finite(),
        !integer(number as int).negative(),
        integer(number as int).units() == number * pow2(unit_exponent()),
        integer(number as int).value() == number * pow2(unit_exponent()),
        integer(number as int).magnitude() < 0x4b80_0000,
{
    lemma2_to64();
    let value = number * pow2(149);
    lemma_representable(precision(), number, 149);
    lemma_encode_power(150);
    lemma_pow2_adds(24, 149);
    lemma_pow2_pos(149);
    assert(value <= pow2(173)) by (nonlinear_arith)
        requires
            value == number * pow2(149),
            number < pow2(24),
            pow2(173) == pow2(24) * pow2(149),
    ;
    assert(value * 1 <= pow2(173) * 1);
    lemma_encode_monotone(precision(), value, 1, pow2(173), 1);
    lemma_nearest(false, value, 1);
    assert(encode(precision(), value, 1) < 0x4b80_0000) by {
        assert(value < pow2(173)) by (nonlinear_arith)
            requires
                value == number * pow2(149),
                number < pow2(24),
                pow2(173) == pow2(24) * pow2(149),
                pow2(149) > 0,
        ;
        lemma_decode_order(precision(), 0x4b80_0000, encode(precision(), value, 1));
        lemma_decode(precision(), 150, pow2(23));
        lemma_pow2_adds(23, 150);
    }
}

/// A quotient of numbers in order is at most 1.
pub proof fn lemma_quotient_at_most_one(a: Binary32, b: Binary32)
    requires
        a.finite(),
        b.finite(),
        b.magnitude() > 0,
        a.magnitude() <= b.magnitude(),
    ensures
        quotient_of(a, b).magnitude() <= 0x3f80_0000,
{
    lemma_units_zero(b);
    lemma_decode_order(precision(), a.magnitude(), b.magnitude());
    let num = a.units() * pow2(unit_exponent());
    assert(num * 1 <= pow2(unit_exponent()) * b.units()) by (nonlinear_arith)
        requires
            num == a.units() * pow2(unit_exponent()),
            a.units() <= b.units(),
    ;
    lemma_encode_monotone(precision(), num, b.units(), pow2(unit_exponent()), 1);
    lemma_encode_one();
    lemma_nearest(a.negative() != b.negative(), num, b.units());
}

/// A finite number is what its sign and its value round to.
pub proof fn lemma_nearest_of_units(a: Binary32)
    requires
        a.finite(),
    ensures
        nearest(a.negative(), a.units(), 1) == a,
{
    lemma_encode_decode(precision(), a.magnitude());
}

/// A count is a finite number, and a zero only if there is nothing to count.
pub proof fn lemma_count_finite(total: nat)
    requires
        total <= u64::MAX,
    ensures
        integer(total as int).finite(),
        !integer(total as int).negative(),
        integer(total as int).magnitude() == encode(
            precision(),
            total * pow2(unit_exponent()),
            1,
        ),
        total > 0 ==> integer(total as int).magnitude() > 0,
{
    let unit = pow2(unit_exponent());
    lemma_pow2_pos(unit_exponent());
    lemma2_to64();
    assert(total * unit <= pow2(64) * unit && (total > 0 ==> unit <= total * unit))
        by (nonlinear_arith)
        requires
            total <= pow2(64),
            unit > 0,
    ;
    lemma_encode_one();
    if total > 0 {
        lemma_encode_monotone(precision(), unit, 1, total * unit, 1);
    }
    lemma_pow2_adds(64, unit_exponent());
    lemma_encode_power(190);
    lemma_encode_monotone(precision(), total * unit, 1, pow2(213), 1);
    lemma_nearest(false, total * unit, 1);
}

/// A count out of a total is between 0 and 1.
pub proof fn lemma_count_share(count: nat, total: nat)
    requires
        count <= total,
        0 < total <= u64::MAX,
    ensures
        at_most(integer(0), quotient_of(integer(count as int), integer(total as int))),
        at_most(quotient_of(integer(count as int), integer(total as int)), integer(1)),
{
    let a = integer(count as int);
    let b = integer(total as int);
    let unit = pow2(unit_exponent());
    lemma_integer_exact(0);
    lemma_integer_exact(1);
    assert(0 * unit == 0 && 1 * unit == unit);
    assert(count * unit <= total * unit) by (nonlinear_arith)
        requires
            count <= total,
    ;
    lemma_encode_one();
    lemma_encode_monotone(precision(), count * unit, 1, total * unit, 1);
    lemma_count_finite(count);
    lemma_count_finite(total);
    lemma_units_zero(integer(0));
    lemma_quotient_at_most_one(a, b);
    lemma_nearest(false, a.units() * unit, b.units());
}

} // verus!
