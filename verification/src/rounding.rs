//! Rounding of exact ratios to binary floating-point encodings.
//!
//! A binary format with `precision` significant bits stores a non-negative
//! value as an integer *encoding*: the significand in the low bits, the
//! exponent field above it. Counted in units of the smallest subnormal, the
//! value `num / den` is stored exactly while it is below `2^precision`; every
//! further doubling costs one bit of the significand and adds one to the
//! exponent field.

use vstd::arithmetic::div_mod::{
    lemma_div_denominator, lemma_fundamental_div_mod, lemma_fundamental_div_mod_converse,
};
use vstd::arithmetic::power2::{
    lemma2_to64, lemma2_to64_rest, lemma_pow2_adds, lemma_pow2_pos, lemma_pow2_strictly_increases,
    lemma_pow2_unfold, pow2,
};
use vstd::bits::lemma_u128_shr_is_div;
use vstd::prelude::*;

verus! {

/// `num / den` rounded to the nearest integer, a tie going to the even one.
pub open spec fn round_half_even(num: nat, den: nat) -> nat {
    let quotient = num / den;
    let twice_rest = 2 * (num % den);
    if twice_rest < den || (twice_rest == den && quotient % 2 == 0) {
        quotient
    } else {
        quotient + 1
    }
}

/// The encoding of `num / den` units, rounded to `precision` significant bits.
///
/// The exponent range is not bounded here: a format with a largest finite
/// value cuts the encoding off at its infinity.
pub open spec fn encode(precision: nat, num: nat, den: nat) -> nat
    decreases (if num >= den { num - den } else { 0 }),
{
    if den == 0 || precision == 0 {
        0
    } else if num < den * pow2(precision) {
        round_half_even(num, den)
    } else {
        proof {
            lemma_pow2_unfold(precision);
            lemma_pow2_pos((precision - 1) as nat);
            assert(den * pow2(precision) >= 2 * den) by (nonlinear_arith)
                requires
                    pow2(precision) >= 2,
            ;
        }
        pow2((precision - 1) as nat) + encode(precision, num, 2 * den)
    }
}

/// The value that an encoding stands for, in units of the smallest subnormal.
pub open spec fn decode(precision: nat, encoding: nat) -> nat {
    let hidden = pow2((precision - 1) as nat);
    let field = encoding / hidden;
    if field == 0 {
        encoding
    } else {
        (hidden + encoding % hidden) * pow2((field - 1) as nat)
    }
}

/// `quotient` is the integer part of `num / den`, and `inexact` says whether
/// anything is left over.
pub open spec fn is_quotient(num: nat, den: nat, quotient: nat, inexact: bool) -> bool {
    &&& quotient == num / den
    &&& inexact == (num % den != 0)
}

/// The span of exponents that `round_to_encoding` works with, on both sides of zero.
pub open spec fn exponent_span() -> nat {
    3000
}

/// `num / den` lies in `[mantissa, mantissa + 1) * 2^exponent`, at the lower
/// end exactly if it is not `inexact`.
pub open spec fn approximates(
    num: nat,
    den: nat,
    mantissa: nat,
    exponent: int,
    inexact: bool,
) -> bool {
    is_quotient(
        num * pow2(exponent_span()),
        den * pow2((exponent_span() + exponent) as nat),
        mantissa,
        inexact,
    )
}

pub(crate) proof fn lemma_quotient_unique(num: nat, den: nat, quotient: nat, rest: nat)
    requires
        num == quotient * den + rest,
        rest < den,
    ensures
        num / den == quotient,
        num % den == rest,
{
    lemma_fundamental_div_mod_converse(num as int, den as int, quotient as int, rest as int);
}

pub(crate) proof fn lemma_quotient_bounds(num: nat, den: nat)
    requires
        den > 0,
    ensures
        num == (num / den) * den + num % den,
        num % den < den,
{
    lemma_fundamental_div_mod(num as int, den as int);
    assert((num / den) * den == den * (num / den)) by (nonlinear_arith);
}

/// Zero encodes as zero.
pub proof fn lemma_encode_zero(precision: nat, den: nat)
    requires
        den > 0,
    ensures
        encode(precision, 0, den) == 0,
{
    lemma_pow2_pos(precision);
    assert(0 < den * pow2(precision)) by (nonlinear_arith)
        requires
            den > 0,
            pow2(precision) > 0,
    ;
    lemma_quotient_unique(0, den, 0, 0);
}

/// A common factor does not change the rounding to an integer.
pub proof fn lemma_round_half_even_scales(num: nat, den: nat, factor: nat)
    requires
        den > 0,
        factor > 0,
    ensures
        round_half_even(factor * num, factor * den) == round_half_even(num, den),
{
    lemma_quotient_bounds(num, den);
    let quotient = num / den;
    let rest = num % den;
    assert(factor * num == quotient * (factor * den) + factor * rest) by (nonlinear_arith)
        requires
            num == quotient * den + rest,
    ;
    assert(factor * rest < factor * den) by (nonlinear_arith)
        requires
            rest < den,
            factor > 0,
    ;
    lemma_quotient_unique(factor * num, factor * den, quotient, factor * rest);
    assert((2 * (factor * rest) < factor * den) == (2 * rest < den)) by (nonlinear_arith)
        requires
            factor > 0,
    ;
    assert((2 * (factor * rest) == factor * den) == (2 * rest == den)) by (nonlinear_arith)
        requires
            factor > 0,
    ;
}

/// A common factor does not change the encoding of a ratio.
pub proof fn lemma_encode_scales(precision: nat, num: nat, den: nat, factor: nat)
    requires
        den > 0,
        factor > 0,
        precision > 0,
    ensures
        encode(precision, factor * num, factor * den) == encode(precision, num, den),
    decreases (if num >= den { num - den } else { 0 }),
{
    let limit = pow2(precision);
    assert(factor * den > 0) by (nonlinear_arith)
        requires
            den > 0,
            factor > 0,
    ;
    assert((factor * num < (factor * den) * limit) == (num < den * limit)) by (nonlinear_arith)
        requires
            factor > 0,
    ;
    if num < den * limit {
        lemma_round_half_even_scales(num, den, factor);
    } else {
        lemma_pow2_unfold(precision);
        lemma_pow2_pos((precision - 1) as nat);
        assert(den * limit >= 2 * den) by (nonlinear_arith)
            requires
                limit >= 2,
        ;
        lemma_encode_scales(precision, num, 2 * den, factor);
        assert(factor * (2 * den) == 2 * (factor * den)) by (nonlinear_arith);
    }
}

/// The encoding of a value whose exponent field is `exponent`.
pub proof fn lemma_encode_at_exponent(precision: nat, num: nat, den: nat, exponent: nat)
    requires
        den > 0,
        precision > 0,
        exponent > 0 ==> num >= den * pow2((precision + exponent - 1) as nat),
        num < den * pow2(precision + exponent),
    ensures
        encode(precision, num, den) == exponent * pow2((precision - 1) as nat) + round_half_even(
            num,
            den * pow2(exponent),
        ),
    decreases exponent,
{
    if exponent == 0 {
        lemma2_to64();
        assert(den * 1 == den);
        assert(0 * pow2((precision - 1) as nat) == 0);
    } else {
        let below = (exponent - 1) as nat;
        lemma_pow2_unfold(precision + exponent);
        lemma_pow2_unfold(exponent);
        assert((precision + exponent - 1) as nat == precision + below);
        if below > 0 {
            lemma_pow2_unfold(precision + below);
            lemma_pow2_strictly_increases(precision, precision + below);
            assert((precision + below - 1) as nat == (precision + exponent - 2) as nat);
        }
        assert(num >= den * pow2(precision)) by (nonlinear_arith)
            requires
                num >= den * pow2(precision + below),
                pow2(precision) <= pow2(precision + below),
        ;
        assert((2 * den) * pow2(precision + below) == den * pow2(precision + exponent))
            by (nonlinear_arith)
            requires
                pow2(precision + exponent) == 2 * pow2(precision + below),
        ;
        if below > 0 {
            let under = (precision + below - 1) as nat;
            assert((2 * den) * pow2(under) == den * pow2(precision + below)) by (nonlinear_arith)
                requires
                    pow2(precision + below) == 2 * pow2(under),
            ;
        }
        lemma_encode_at_exponent(precision, num, 2 * den, below);
        assert((2 * den) * pow2(below) == den * pow2(exponent)) by (nonlinear_arith)
            requires
                pow2(exponent) == 2 * pow2(below),
        ;
        let step = pow2((precision - 1) as nat);
        assert(step + below * step == exponent * step) by (nonlinear_arith)
            requires
                exponent == below + 1,
        ;
    }
}

/// Rounding to an integer, read off the integer part of twice the value.
proof fn lemma_round_from_guard(num: nat, den: nat, quotient: nat, inexact: bool)
    requires
        den > 0,
        is_quotient(num, den, quotient, inexact),
    ensures
        round_half_even(num, 2 * den) == quotient / 2 + (if quotient % 2 == 0 {
            0nat
        } else if inexact {
            1nat
        } else {
            (quotient / 2) % 2
        }),
{
    lemma_quotient_bounds(num, den);
    let half = quotient / 2;
    let rest = num % den;
    if quotient % 2 == 0 {
        assert(num == half * (2 * den) + rest) by (nonlinear_arith)
            requires
                num == quotient * den + rest,
                quotient == 2 * half,
        ;
        lemma_quotient_unique(num, 2 * den, half, rest);
    } else {
        assert(num == half * (2 * den) + (den + rest)) by (nonlinear_arith)
            requires
                num == quotient * den + rest,
                quotient == 2 * half + 1,
        ;
        lemma_quotient_unique(num, 2 * den, half, den + rest);
    }
}


/// Equal ratios have the same integer part, and are both exact or both not.
pub(crate) proof fn lemma_quotient_of_equal_ratios(num: nat, den: nat, num2: nat, den2: nat)
    requires
        den > 0,
        den2 > 0,
        num * den2 == num2 * den,
    ensures
        num / den == num2 / den2,
        (num % den == 0) == (num2 % den2 == 0),
{
    lemma_quotient_bounds(num2, den2);
    let quotient = num2 / den2;
    let rest = num2 % den2;
    let left = (num - quotient * den) as int;
    assert(left * den2 == rest * den) by (nonlinear_arith)
        requires
            left == num - quotient * den,
            num * den2 == num2 * den,
            num2 == quotient * den2 + rest,
    ;
    assert(0 <= left < den) by (nonlinear_arith)
        requires
            left * den2 == rest * den,
            0 <= rest < den2,
            den > 0,
    ;
    assert((left == 0) == (rest == 0)) by (nonlinear_arith)
        requires
            left * den2 == rest * den,
            den > 0,
            den2 > 0,
    ;
    assert(num == quotient * den + left);
    lemma_quotient_unique(num, den, quotient, left as nat);
}

/// A quotient of other numbers approximates `num / den` where the two ratios
/// differ by the power of two `2^(up - down)`.
pub(crate) proof fn lemma_approximates(
    num: nat,
    den: nat,
    other_num: nat,
    other_den: nat,
    mantissa: nat,
    inexact: bool,
    up: nat,
    down: nat,
)
    requires
        den > 0,
        other_den > 0,
        down <= exponent_span() + up,
        is_quotient(other_num, other_den, mantissa, inexact),
        (num * pow2(down)) * other_den == (other_num * pow2(up)) * den,
    ensures
        approximates(num, den, mantissa, up - down, inexact),
{
    let span = exponent_span();
    let place = (span + up - down) as nat;
    lemma_pow2_pos(down);
    lemma_pow2_pos(place);
    lemma_pow2_pos(span);
    lemma_pow2_adds(span, up);
    lemma_pow2_adds(place, down);
    assert(span + up == place + down);
    let a = pow2(span);
    let b = pow2(up);
    let c = pow2(place);
    let d = pow2(down);
    assert(((num * a) * other_den) * d == (other_num * (den * c)) * d) by {
        assert(((num * a) * other_den) * d == ((num * d) * other_den) * a) by (nonlinear_arith);
        assert(((other_num * b) * den) * a == (other_num * den) * (a * b)) by (nonlinear_arith);
        assert((other_num * den) * (c * d) == (other_num * (den * c)) * d) by (nonlinear_arith);
    }
    assert((num * a) * other_den == other_num * (den * c)) by (nonlinear_arith)
        requires
            ((num * a) * other_den) * d == (other_num * (den * c)) * d,
            d > 0,
    ;
    assert(den * c > 0) by (nonlinear_arith)
        requires
            den > 0,
            c > 0,
    ;
    lemma_quotient_of_equal_ratios(num * a, den * c, other_num, other_den);
}

/// Dropping low bits of the integer part: what they held goes into `inexact`.
proof fn lemma_quotient_coarser(num: nat, den: nat, quotient: nat, inexact: bool, factor: nat)
    requires
        den > 0,
        factor > 0,
        is_quotient(num, den, quotient, inexact),
    ensures
        is_quotient(num, den * factor, quotient / factor, inexact || quotient % factor != 0),
{
    lemma_quotient_bounds(num, den);
    lemma_quotient_bounds(quotient, factor);
    let rest = num % den;
    let high = quotient / factor;
    let low = quotient % factor;
    assert(num == high * (den * factor) + (low * den + rest)) by (nonlinear_arith)
        requires
            num == quotient * den + rest,
            quotient == high * factor + low,
    ;
    assert(low * den + rest < den * factor) by (nonlinear_arith)
        requires
            low + 1 <= factor,
            rest < den,
    ;
    assert((low * den + rest == 0) == (low == 0 && rest == 0)) by (nonlinear_arith)
        requires
            den > 0,
    ;
    lemma_quotient_unique(num, den * factor, high, low * den + rest);
}

proof fn lemma_approximates_coarser(
    num: nat,
    den: nat,
    mantissa: nat,
    exponent: int,
    inexact: bool,
    shift: nat,
)
    requires
        den > 0,
        exponent_span() + exponent >= 0,
        approximates(num, den, mantissa, exponent, inexact),
    ensures
        approximates(
            num,
            den,
            mantissa / pow2(shift),
            exponent + shift,
            inexact || mantissa % pow2(shift) != 0,
        ),
{
    let place = (exponent_span() + exponent) as nat;
    lemma_pow2_pos(shift);
    lemma_pow2_pos(place);
    lemma_pow2_adds(place, shift);
    assert(den * pow2(place) > 0) by (nonlinear_arith)
        requires
            den > 0,
            pow2(place) > 0,
    ;
    lemma_quotient_coarser(
        num * pow2(exponent_span()),
        den * pow2(place),
        mantissa,
        inexact,
        pow2(shift),
    );
    assert(den * pow2(place) * pow2(shift) == den * pow2(place + shift)) by (nonlinear_arith)
        requires
            pow2(place + shift) == pow2(place) * pow2(shift),
    ;
    assert((exponent_span() + (exponent + shift)) as nat == place + shift);
}

proof fn lemma_approximates_finer(num: nat, den: nat, mantissa: nat, exponent: int, shift: nat)
    requires
        den > 0,
        exponent_span() + exponent - shift >= 0,
        approximates(num, den, mantissa, exponent, false),
    ensures
        approximates(num, den, mantissa * pow2(shift), exponent - shift, false),
{
    let place = (exponent_span() + exponent - shift) as nat;
    lemma_pow2_pos(shift);
    lemma_pow2_pos(place);
    lemma_pow2_adds(place, shift);
    assert((exponent_span() + exponent) as nat == place + shift);
    let scaled = num * pow2(exponent_span());
    assert(den * pow2(place + shift) > 0 && den * pow2(place) > 0) by (nonlinear_arith)
        requires
            den > 0,
            pow2(place + shift) == pow2(place) * pow2(shift),
            pow2(place) > 0,
            pow2(shift) > 0,
    ;
    lemma_quotient_bounds(scaled, den * pow2(place + shift));
    assert(mantissa * (den * pow2(place + shift)) == (mantissa * pow2(shift)) * (den * pow2(place)))
        by (nonlinear_arith)
        requires
            pow2(place + shift) == pow2(place) * pow2(shift),
    ;
    lemma_quotient_unique(scaled, den * pow2(place), mantissa * pow2(shift), 0);
}

/// What `round_to_encoding` computes, from the mantissa with one guard bit.
proof fn lemma_encode_from_guard(
    precision: nat,
    num: nat,
    den: nat,
    exponent: nat,
    guarded: nat,
    inexact: bool,
)
    requires
        den > 0,
        precision > 0,
        approximates(num, den, guarded, exponent - 1, inexact),
        guarded < pow2(precision + 1),
        exponent > 0 ==> guarded >= pow2(precision),
    ensures
        encode(precision, num, den) == exponent * pow2((precision - 1) as nat) + guarded / 2 + (
        if guarded % 2 == 0 {
            0nat
        } else if inexact {
            1nat
        } else {
            (guarded / 2) % 2
        }),
{
    let span = exponent_span();
    let place = (span + exponent - 1) as nat;
    let big_num = num * pow2(span);
    let big_den = den * pow2(span);
    lemma_pow2_pos(span);
    lemma_pow2_pos(place);
    assert(big_den > 0) by (nonlinear_arith)
        requires
            den > 0,
            pow2(span) > 0,
            big_den == den * pow2(span),
    ;
    assert(den * pow2(place) > 0) by (nonlinear_arith)
        requires
            den > 0,
            pow2(place) > 0,
    ;
    lemma_quotient_bounds(big_num, den * pow2(place));
    // The value is below 2^(precision + exponent) units ...
    assert(big_num < big_den * pow2(precision + exponent)) by {
        lemma_pow2_adds(span, precision + exponent);
        lemma_pow2_adds(place, precision + 1);
        assert(place + (precision + 1) == span + (precision + exponent));
        let unit = den * pow2(place);
        let rest = big_num % unit;
        assert(big_num < pow2(precision + 1) * unit) by (nonlinear_arith)
            requires
                guarded + 1 <= pow2(precision + 1),
                big_num == guarded * unit + rest,
                rest < unit,
        ;
        assert(pow2(precision + 1) * (den * pow2(place)) == big_den * pow2(precision + exponent))
            by (nonlinear_arith)
            requires
                pow2(place) * pow2(precision + 1) == pow2(span) * pow2(precision + exponent),
                big_den == den * pow2(span),
        ;
    }
    // ... and, above the subnormals, at least half of that.
    if exponent > 0 {
        let top = (precision + exponent - 1) as nat;
        lemma_pow2_adds(span, top);
        lemma_pow2_adds(place, precision);
        assert(place + precision == span + top);
        assert(big_num >= pow2(precision) * (den * pow2(place))) by (nonlinear_arith)
            requires
                guarded >= pow2(precision),
                big_num == guarded * (den * pow2(place)) + big_num % (den * pow2(place)),
        ;
        assert(pow2(precision) * (den * pow2(place)) == big_den * pow2(top)) by (nonlinear_arith)
            requires
                pow2(place) * pow2(precision) == pow2(span) * pow2(top),
                big_den == den * pow2(span),
        ;
    }
    lemma_encode_at_exponent(precision, big_num, big_den, exponent);
    lemma_encode_scales(precision, num, den, pow2(span));
    assert(pow2(span) * num == big_num && pow2(span) * den == big_den) by (nonlinear_arith)
        requires
            big_num == num * pow2(span),
            big_den == den * pow2(span),
    ;
    lemma_round_from_guard(big_num, den * pow2(place), guarded, inexact);
    lemma_pow2_adds(span, exponent);
    lemma_pow2_unfold(span + exponent);
    assert((span + exponent - 1) as nat == place);
    assert(2 * (den * pow2(place)) == big_den * pow2(exponent)) by (nonlinear_arith)
        requires
            2 * pow2(place) == pow2(span) * pow2(exponent),
            big_den == den * pow2(span),
    ;
}

proof fn lemma_shifted_one(shift: u128)
    requires
        shift < 128,
    ensures
        1u128 << shift == pow2(shift as nat),
    decreases shift,
{
    if shift == 0 {
        lemma2_to64();
        assert(1u128 << 0u128 == 1) by (bit_vector);
    } else {
        let less = (shift - 1) as u128;
        lemma_shifted_one(less);
        lemma_pow2_unfold(shift as nat);
        assert(1u128 << shift == 2 * (1u128 << less)) by (bit_vector)
            requires
                0 < shift < 128,
                less == shift - 1,
        ;
    }
}

/// `2^exponent`.
pub fn power_of_two(exponent: u32) -> (power: u128)
    requires
        exponent < 128,
    ensures
        power == pow2(exponent as nat),
{
    proof {
        lemma_shifted_one(exponent as u128);
    }
    1u128 << (exponent as u128)
}

/// The number of bits that `value` takes.
fn bit_length(value: u128) -> (length: u32)
    requires
        value > 0,
    ensures
        0 < length <= 128,
        pow2((length - 1) as nat) <= value,
        length < 128 ==> value < pow2(length as nat),
{
    let mut high: u128 = value;
    let mut dropped: u32 = 0;
    let mut step: u32 = 64;
    proof {
        lemma2_to64();
        assert(value / 1 == value);
    }
    while step > 0
        invariant
            step == 64 || step == 32 || step == 16 || step == 8 || step == 4 || step == 2 || step
                == 1 || step == 0,
            dropped + 2 * step <= 128 || step == 0,
            step == 0 ==> dropped <= 127,
            0 < high,
            step > 0 && step < 64 ==> high < pow2((2 * step) as nat),
            step == 0 ==> high < 2,
            high as nat == value as nat / pow2(dropped as nat),
        decreases step,
    {
        let ghost before = high;
        let ghost dropped_before = dropped;
        let limit: u128 = power_of_two(step);
        proof {
            lemma2_to64();
            lemma_pow2_pos(step as nat);
            lemma_pow2_pos(dropped as nat);
            lemma_pow2_adds(step as nat, step as nat);
            lemma_u128_shr_is_div(high, step as u128);
            lemma_pow2_adds(dropped as nat, step as nat);
            lemma_div_denominator(value as int, pow2(dropped as nat) as int, pow2(step as nat) as int);
            lemma_quotient_bounds(before as nat, limit as nat);
        }
        if high >= limit {
            high = high >> (step as u128);
            dropped = dropped + step;
            assert(high >= 1) by (nonlinear_arith)
                requires
                    before == high * limit + before as nat % limit as nat,
                    before as nat % (limit as nat) < limit,
                    before >= limit,
            ;
            assert(before < limit * limit) by {
                if step == 64 {
                    assert(limit == 0x10000000000000000u128);
                    assert(limit * limit == 0x100000000000000000000000000000000) by (nonlinear_arith)
                        requires
                            limit == 0x10000000000000000u128,
                    ;
                }
            }
            assert(high < limit) by (nonlinear_arith)
                requires
                    before == high * limit + before as nat % limit as nat,
                    before < limit * limit,
            ;
        }
        step = step / 2;
    }
    proof {
        lemma_pow2_pos(dropped as nat);
        lemma_pow2_unfold((dropped + 1) as nat);
        lemma_quotient_bounds(value as nat, pow2(dropped as nat));
        assert(high == 1);
    }
    dropped + 1
}

/// A right shift leaves the bits above it.
proof fn lemma_shift_down(mantissa: nat, length: nat, shift: nat, kept: nat)
    requires
        length > 0,
        pow2((length - 1) as nat) <= mantissa < pow2(length),
    ensures
        length <= shift + kept ==> mantissa / pow2(shift) < pow2(kept),
        length > shift + kept ==> mantissa / pow2(shift) >= pow2(kept),
{
    lemma_pow2_pos(shift);
    lemma_quotient_bounds(mantissa, pow2(shift));
    lemma_pow2_adds(shift, kept);
    let quotient = mantissa / pow2(shift);
    let rest = mantissa % pow2(shift);
    let unit = pow2(shift);
    let limit = pow2(kept);
    if length <= shift + kept {
        if length < shift + kept {
            lemma_pow2_strictly_increases(length, shift + kept);
        }
        assert(quotient < limit) by (nonlinear_arith)
            requires
                mantissa == quotient * unit + rest,
                mantissa < unit * limit,
        ;
    } else {
        if length - 1 > shift + kept {
            lemma_pow2_strictly_increases(shift + kept, (length - 1) as nat);
        }
        assert(quotient >= limit) by (nonlinear_arith)
            requires
                mantissa == quotient * unit + rest,
                rest < unit,
                mantissa >= unit * limit,
        ;
    }
}

/// A left shift raises the number of bits by as much.
proof fn lemma_shift_up(mantissa: nat, length: nat, shift: nat)
    requires
        length > 0,
        pow2((length - 1) as nat) <= mantissa < pow2(length),
    ensures
        pow2((length + shift - 1) as nat) <= mantissa * pow2(shift) < pow2(length + shift),
{
    lemma_pow2_pos(shift);
    lemma_pow2_adds(length, shift);
    lemma_pow2_adds((length - 1) as nat, shift);
    assert((length - 1) as nat + shift == (length + shift - 1) as nat);
    let power = pow2(shift);
    let low = pow2((length - 1) as nat);
    let high = pow2(length);
    assert(low * power <= mantissa * power && mantissa * power < high * power) by (nonlinear_arith)
        requires
            low <= mantissa,
            mantissa < high,
            power > 0,
    ;
}

/// The encoding of the value that `mantissa`, `exponent` and `inexact` stand for.
///
/// A mantissa that is not exact needs two bits more than the precision: the
/// rounding is then decided by what it holds.
pub(crate) fn round_to_encoding(
    precision: u32,
    mantissa: u128,
    exponent: i32,
    inexact: bool,
    Ghost(num): Ghost<nat>,
    Ghost(den): Ghost<nat>,
) -> (encoding: u64)
    requires
        precision == 24 || precision == 53,
        mantissa > 0,
        mantissa < pow2(127),
        -2000 <= exponent <= 2000,
        den > 0,
        approximates(num, den, mantissa as nat, exponent as int, inexact),
        inexact ==> mantissa >= pow2((precision + 1) as nat),
    ensures
        encoding == encode(precision as nat, num, den),
{
    let length: u32 = bit_length(mantissa);
    assert(length < 128) by {
        if length == 128 {
            assert((length - 1) as nat == 127);
        }
    }
    proof {
        lemma2_to64();
        lemma2_to64_rest();
        if inexact && length < precision + 2 {
            let wide = (precision + 1) as nat;
            if length < wide {
                lemma_pow2_strictly_increases(length as nat, wide);
            }
        }
    }
    let scale: i32 = length as i32 + exponent - precision as i32;
    let field: i32 = if scale > 0 { scale } else { 0 };
    // The guarded mantissa counts units of 2^(field - 1).
    let shift: i32 = field - 1 - exponent;
    let guarded: u64;
    let rest: bool;
    if shift >= 0 {
        proof {
            lemma_approximates_coarser(
                num,
                den,
                mantissa as nat,
                exponent as int,
                inexact,
                shift as nat,
            );
            lemma_pow2_pos(shift as nat);
            lemma_quotient_bounds(mantissa as nat, pow2(shift as nat));
            lemma_shift_down(
                mantissa as nat,
                length as nat,
                shift as nat,
                (precision + 1) as nat,
            );
            lemma_shift_down(mantissa as nat, length as nat, shift as nat, precision as nat);
        }
        if shift < 128 {
            let kept: u128 = mantissa >> (shift as u128);
            let power: u128 = power_of_two(shift as u32);
            proof {
                lemma_u128_shr_is_div(mantissa, shift as u128);
            }
            guarded = kept as u64;
            rest = inexact || kept * power != mantissa;
        } else {
            proof {
                lemma_pow2_strictly_increases(length as nat, shift as nat);
                lemma_quotient_unique(mantissa as nat, pow2(shift as nat), 0, mantissa as nat);
            }
            guarded = 0;
            rest = true;
        }
    } else {
        assert(!inexact);
        let up: u32 = (-shift) as u32;
        let power: u128 = power_of_two(up);
        proof {
            lemma_shift_up(mantissa as nat, length as nat, up as nat);
            let total = (length + up) as nat;
            let wide = (precision + 1) as nat;
            if total < wide {
                lemma_pow2_strictly_increases(total, wide);
            }
            lemma_approximates_finer(num, den, mantissa as nat, exponent as int, up as nat);
        }
        guarded = (mantissa * power) as u64;
        rest = false;
    }
    proof {
        lemma_encode_from_guard(
            precision as nat,
            num,
            den,
            field as nat,
            guarded as nat,
            rest,
        );
    }
    let half: u64 = guarded / 2;
    let increment: u64 = if guarded % 2 == 0 {
        0
    } else if rest {
        1
    } else {
        half % 2
    };
    let unit: u64 = power_of_two(precision - 1) as u64;
    assert(field * unit <= 2128 * 0x10000000000000) by (nonlinear_arith)
        requires
            0 <= field <= 2128,
            0 <= unit <= 0x10000000000000,
    ;
    (field as u64) * unit + half + increment
}

proof fn lemma_round_half_even_monotone(small: nat, large: nat, den: nat)
    requires
        den > 0,
        small <= large,
    ensures
        round_half_even(small, den) <= round_half_even(large, den),
{
    lemma_quotient_bounds(small, den);
    lemma_quotient_bounds(large, den);
    let a = small / den;
    let b = large / den;
    assert(a <= b) by (nonlinear_arith)
        requires
            a * den + small % den <= b * den + large % den,
            large % den < den,
            den > 0,
            0 <= small % den,
    ;
    if a == b {
        assert(small % den <= large % den);
    }
}

proof fn lemma_round_half_even_of_multiple(factor: nat, den: nat)
    requires
        den > 0,
    ensures
        round_half_even(factor * den, den) == factor,
{
    lemma_quotient_unique(factor * den, den, factor, 0);
}

/// At and above the smallest normal number, so is its encoding.
proof fn lemma_encode_normal(precision: nat, num: nat, den: nat)
    requires
        den > 0,
        precision > 0,
        num >= den * pow2((precision - 1) as nat),
    ensures
        encode(precision, num, den) >= pow2((precision - 1) as nat),
{
    if num < den * pow2(precision) {
        let hidden = pow2((precision - 1) as nat);
        assert(hidden * den == den * hidden) by (nonlinear_arith);
        lemma_round_half_even_monotone(hidden * den, num, den);
        lemma_round_half_even_of_multiple(hidden, den);
    }
}

proof fn lemma_encode_monotone_numerator(precision: nat, small: nat, large: nat, den: nat)
    requires
        den > 0,
        precision > 0,
        small <= large,
    ensures
        encode(precision, small, den) <= encode(precision, large, den),
    decreases (if large >= den { large - den } else { 0 }),
{
    let limit = pow2(precision);
    let hidden = pow2((precision - 1) as nat);
    lemma_pow2_unfold(precision);
    lemma_pow2_pos((precision - 1) as nat);
    if large < den * limit {
        lemma_round_half_even_monotone(small, large, den);
    } else {
        assert((2 * den) * hidden == den * limit) by (nonlinear_arith)
            requires
                limit == 2 * hidden,
        ;
        lemma_encode_normal(precision, large, 2 * den);
        if small < den * limit {
            assert(den * limit == limit * den) by (nonlinear_arith);
            lemma_round_half_even_monotone(small, limit * den, den);
            lemma_round_half_even_of_multiple(limit, den);
        } else {
            assert(den * limit >= 2 * den) by (nonlinear_arith)
                requires
                    limit >= 2,
            ;
            lemma_encode_monotone_numerator(precision, small, large, 2 * den);
        }
    }
}

/// Rounding keeps the order: a smaller ratio never gets the larger encoding.
pub proof fn lemma_encode_monotone(precision: nat, num: nat, den: nat, num2: nat, den2: nat)
    requires
        precision > 0,
        den > 0,
        den2 > 0,
        num * den2 <= num2 * den,
    ensures
        encode(precision, num, den) <= encode(precision, num2, den2),
{
    lemma_encode_scales(precision, num, den, den2);
    lemma_encode_scales(precision, num2, den2, den);
    assert(den2 * num == num * den2 && den * num2 == num2 * den && den2 * den == den * den2)
        by (nonlinear_arith);
    assert(den * den2 > 0) by (nonlinear_arith)
        requires
            den > 0,
            den2 > 0,
    ;
    lemma_encode_monotone_numerator(precision, den2 * num, den * num2, den * den2);
}

/// The exponent at which a positive ratio is rounded.
proof fn lemma_exponent_exists(precision: nat, num: nat, den: nat) -> (exponent: nat)
    requires
        den > 0,
        precision > 0,
    ensures
        exponent > 0 ==> num >= den * pow2((precision + exponent - 1) as nat),
        num < den * pow2(precision + exponent),
    decreases (if num >= den { num - den } else { 0 }),
{
    if num < den * pow2(precision) {
        0
    } else {
        lemma_pow2_unfold(precision);
        lemma_pow2_pos((precision - 1) as nat);
        assert(den * pow2(precision) >= 2 * den) by (nonlinear_arith)
            requires
                pow2(precision) >= 2,
        ;
        let below = lemma_exponent_exists(precision, num, 2 * den);
        let exponent = below + 1;
        lemma_pow2_unfold(precision + exponent);
        let high = pow2(precision + below);
        assert((precision + exponent - 1) as nat == precision + below);
        assert((2 * den) * high == den * pow2(precision + exponent)) by (nonlinear_arith)
            requires
                pow2(precision + exponent) == 2 * high,
        ;
        if below > 0 {
            let low = pow2((precision + below - 1) as nat);
            lemma_pow2_unfold(precision + below);
            assert((2 * den) * low == den * high) by (nonlinear_arith)
                requires
                    high == 2 * low,
            ;
        }
        exponent
    }
}

/// The value of an encoding, from its exponent and its significand.
pub proof fn lemma_decode(precision: nat, exponent: nat, significand: nat)
    requires
        precision > 0,
        significand <= pow2(precision),
        exponent > 0 ==> significand >= pow2((precision - 1) as nat),
    ensures
        decode(precision, exponent * pow2((precision - 1) as nat) + significand) == significand
            * pow2(exponent),
{
    let hidden = pow2((precision - 1) as nat);
    lemma_pow2_unfold(precision);
    lemma_pow2_pos((precision - 1) as nat);
    lemma2_to64();
    let encoding = exponent * hidden + significand;
    if significand < hidden {
        assert(exponent * hidden == 0) by (nonlinear_arith)
            requires
                exponent == 0,
        ;
        lemma_quotient_unique(encoding, hidden, 0, significand);
        assert(significand * 1 == significand);
    } else if significand < 2 * hidden {
        assert(encoding == (exponent + 1) * hidden + (significand - hidden)) by (nonlinear_arith)
            requires
                encoding == exponent * hidden + significand,
        ;
        lemma_quotient_unique(encoding, hidden, exponent + 1, (significand - hidden) as nat);
    } else {
        assert(encoding == (exponent + 2) * hidden + 0) by (nonlinear_arith)
            requires
                encoding == exponent * hidden + significand,
                significand == 2 * hidden,
        ;
        lemma_quotient_unique(encoding, hidden, exponent + 2, 0);
        lemma_pow2_unfold(exponent + 1);
        assert(hidden * pow2(exponent + 1) == significand * pow2(exponent)) by (nonlinear_arith)
            requires
                significand == 2 * hidden,
                pow2(exponent + 1) == 2 * pow2(exponent),
        ;
    }
}

/// Every encoding has an exponent and a significand.
pub(crate) proof fn lemma_fields(precision: nat, encoding: nat) -> (fields: (nat, nat))
    requires
        precision > 0,
    ensures
        encoding == fields.0 * pow2((precision - 1) as nat) + fields.1,
        fields.1 < pow2(precision),
        fields.0 > 0 ==> fields.1 >= pow2((precision - 1) as nat),
        decode(precision, encoding) == fields.1 * pow2(fields.0),
{
    let hidden = pow2((precision - 1) as nat);
    lemma_pow2_unfold(precision);
    lemma_pow2_pos((precision - 1) as nat);
    lemma_quotient_bounds(encoding, hidden);
    let field = encoding / hidden;
    let fields: (nat, nat) = if field == 0 {
        (0nat, encoding)
    } else {
        ((field - 1) as nat, hidden + encoding % hidden)
    };
    assert(encoding == fields.0 * hidden + fields.1) by (nonlinear_arith)
        requires
            encoding == field * hidden + encoding % hidden,
            field == 0 ==> fields.0 == 0 && fields.1 == encoding,
            field > 0 ==> fields.0 == field - 1 && fields.1 == hidden + encoding % hidden,
    ;
    if field == 0 {
        assert(field * hidden == 0) by (nonlinear_arith)
            requires
                field == 0,
        ;
    }
    lemma_decode(precision, fields.0, fields.1);
    fields
}

/// A number that the format holds is not changed by rounding.
pub proof fn lemma_encode_decode(precision: nat, encoding: nat)
    requires
        precision > 0,
    ensures
        encode(precision, decode(precision, encoding), 1) == encoding,
{
    let (exponent, significand) = lemma_fields(precision, encoding);
    let value = significand * pow2(exponent);
    lemma_pow2_pos(exponent);
    lemma_pow2_adds(precision, exponent);
    assert(value < 1 * pow2(precision + exponent)) by (nonlinear_arith)
        requires
            value == significand * pow2(exponent),
            significand < pow2(precision),
            pow2(exponent) > 0,
            pow2(precision + exponent) == pow2(precision) * pow2(exponent),
    ;
    if exponent > 0 {
        lemma_pow2_adds((precision - 1) as nat, exponent);
        let hidden = pow2((precision - 1) as nat);
        assert((precision - 1) as nat + exponent == (precision + exponent - 1) as nat);
        assert(value >= 1 * (hidden * pow2(exponent))) by (nonlinear_arith)
            requires
                value == significand * pow2(exponent),
                significand >= hidden,
        ;
    }
    lemma_encode_at_exponent(precision, value, 1, exponent);
    assert(1 * pow2(exponent) == pow2(exponent));
    lemma_round_half_even_of_multiple(significand, pow2(exponent));
}

/// Few significant bits followed by zeros: the format holds such a value.
pub proof fn lemma_representable(precision: nat, significand: nat, shift: nat)
    requires
        precision > 0,
        significand < pow2(precision),
    ensures
        decode(precision, encode(precision, significand * pow2(shift), 1)) == significand * pow2(
            shift,
        ),
    decreases shift,
{
    let hidden = pow2((precision - 1) as nat);
    lemma_pow2_unfold(precision);
    if shift == 0 || significand >= hidden {
        lemma_decode(precision, shift, significand);
        lemma_encode_decode(precision, shift * hidden + significand);
    } else {
        let less_shift = (shift - 1) as nat;
        lemma_pow2_unfold(shift);
        assert((2 * significand) * pow2(less_shift) == significand * pow2(shift))
            by (nonlinear_arith)
            requires
                pow2(shift) == 2 * pow2(less_shift),
        ;
        lemma_representable(precision, 2 * significand, less_shift);
    }
}

/// How far apart two integers are.
pub open spec fn distance(a: int, b: int) -> int {
    if a < b {
        b - a
    } else {
        a - b
    }
}

/// No integer is nearer to a ratio than the rounded one.
proof fn lemma_round_half_even_nearest(num: nat, den: nat, other: nat)
    requires
        den > 0,
    ensures
        distance(num as int, (round_half_even(num, den) * den) as int) <= distance(
            num as int,
            (other * den) as int,
        ),
{
    lemma_quotient_bounds(num, den);
    let quotient = num / den;
    let rest = num % den;
    let rounded = round_half_even(num, den);
    let low = quotient * den;
    let high = (quotient + 1) * den;
    assert(high == low + den) by (nonlinear_arith)
        requires
            low == quotient * den,
            high == (quotient + 1) * den,
    ;
    if other <= quotient {
        assert(other * den <= low) by (nonlinear_arith)
            requires
                other <= quotient,
                low == quotient * den,
        ;
    } else {
        assert(other * den >= high) by (nonlinear_arith)
            requires
                other >= quotient + 1,
                high == (quotient + 1) * den,
        ;
    }
}

/// What a rounded ratio stands for: the nearest multiple of the unit at its
/// exponent (times `den`).
proof fn lemma_encode_value(precision: nat, num: nat, den: nat) -> (exponent: nat)
    requires
        precision > 0,
        den > 0,
    ensures
        exponent > 0 ==> num >= pow2((precision - 1) as nat) * (den * pow2(exponent)),
        den * pow2(exponent) > 0,
        encode(precision, num, den) == exponent * pow2((precision - 1) as nat) + round_half_even(
            num,
            den * pow2(exponent),
        ),
        decode(precision, encode(precision, num, den)) * den == round_half_even(
            num,
            den * pow2(exponent),
        ) * (den * pow2(exponent)),
{
    let exponent = lemma_exponent_exists(precision, num, den);
    let unit = pow2(exponent);
    let hidden = pow2((precision - 1) as nat);
    lemma_encode_at_exponent(precision, num, den, exponent);
    lemma_pow2_pos(exponent);
    lemma_pow2_pos((precision - 1) as nat);
    lemma_pow2_unfold(precision);
    let step = den * unit;
    assert(step > 0) by (nonlinear_arith)
        requires
            den > 0,
            unit > 0,
            step == den * unit,
    ;
    let rounded = round_half_even(num, step);
    // The rounded significand is within the range of its exponent.
    lemma_pow2_adds(precision, exponent);
    let limit = pow2(precision);
    assert(num <= limit * step) by (nonlinear_arith)
        requires
            num < den * pow2(precision + exponent),
            pow2(precision + exponent) == limit * unit,
            step == den * unit,
    ;
    lemma_round_half_even_monotone(num, limit * step, step);
    lemma_round_half_even_of_multiple(limit, step);
    if exponent > 0 {
        lemma_pow2_adds((precision - 1) as nat, exponent);
        assert((precision - 1) as nat + exponent == (precision + exponent - 1) as nat);
        assert(hidden * step <= num) by (nonlinear_arith)
            requires
                num >= den * (hidden * unit),
                step == den * unit,
        ;
        lemma_round_half_even_monotone(hidden * step, num, step);
        lemma_round_half_even_of_multiple(hidden, step);
    }
    lemma_decode(precision, exponent, rounded);
    assert((rounded * unit) * den == rounded * step) by (nonlinear_arith)
        requires
            step == den * unit,
    ;
    exponent
}

/// Rounding to an integer is off by half at most, and not at all for an integer.
proof fn lemma_round_half_even_error(num: nat, den: nat)
    requires
        den > 0,
    ensures
        2 * distance(num as int, (round_half_even(num, den) * den) as int) <= den,
        num % den == 0 ==> num == round_half_even(num, den) * den,
{
    lemma_quotient_bounds(num, den);
    let quotient = num / den;
    assert((quotient + 1) * den == quotient * den + den) by (nonlinear_arith);
}

/// Rounding is off by at most one part in `2^precision`, and by half a unit
/// more for a ratio that is neither a normal number nor whole.
pub proof fn lemma_encode_error(precision: nat, num: nat, den: nat)
    requires
        precision > 0,
        den > 0,
    ensures
        ({
            let off = distance(
                num as int,
                (decode(precision, encode(precision, num, den)) * den) as int,
            );
            let hidden = pow2((precision - 1) as nat);
            &&& pow2(precision) * off <= num + hidden * den
            &&& num % den == 0 || num >= hidden * den ==> pow2(precision) * off <= num
        }),
{
    let exponent = lemma_encode_value(precision, num, den);
    let step = den * pow2(exponent);
    let hidden = pow2((precision - 1) as nat);
    let off = distance(num as int, (round_half_even(num, step) * step) as int);
    lemma_pow2_unfold(precision);
    lemma_pow2_pos((precision - 1) as nat);
    lemma_round_half_even_error(num, step);
    assert(pow2(precision) * off <= hidden * step) by (nonlinear_arith)
        requires
            pow2(precision) == 2 * hidden,
            2 * off <= step,
    ;
    assert(hidden * den >= 0) by (nonlinear_arith);
    if exponent == 0 {
        lemma2_to64();
        assert(step == den * 1);
        if num % den == 0 {
            assert(pow2(precision) * 0 == 0) by (nonlinear_arith);
        }
    }
}

/// Rounding goes to the nearest number: no encoding stands for a value that is
/// closer to `num / den` (distances are taken times `den`).
pub proof fn lemma_encode_nearest(precision: nat, num: nat, den: nat, other: nat)
    requires
        precision > 0,
        den > 0,
    ensures
        distance(
            num as int,
            (decode(precision, encode(precision, num, den)) * den) as int,
        ) <= distance(num as int, (decode(precision, other) * den) as int),
{
    let exponent = lemma_encode_value(precision, num, den);
    let unit = pow2(exponent);
    let hidden = pow2((precision - 1) as nat);
    lemma_pow2_unfold(precision);
    let step = den * unit;
    let (other_exponent, other_significand) = lemma_fields(precision, other);
    if other_exponent >= exponent {
        // `other` is a multiple of the unit at this exponent.
        let more = (other_exponent - exponent) as nat;
        lemma_pow2_adds(exponent, more);
        let multiple = other_significand * pow2(more);
        assert((other_significand * pow2(other_exponent)) * den == multiple * step)
            by (nonlinear_arith)
            requires
                pow2(other_exponent) == unit * pow2(more),
                multiple == other_significand * pow2(more),
                step == den * unit,
        ;
        lemma_round_half_even_nearest(num, step, multiple);
    } else {
        // `other` is below the smallest number with this exponent.
        let less_unit = pow2(other_exponent);
        lemma_pow2_strictly_increases(other_exponent, exponent);
        lemma_pow2_adds(1, other_exponent);
        lemma2_to64();
        if other_exponent + 1 < exponent {
            lemma_pow2_strictly_increases(1 + other_exponent, exponent);
        }
        assert((other_significand * less_unit) * den <= hidden * step) by (nonlinear_arith)
            requires
                other_significand < 2 * hidden,
                2 * less_unit <= unit,
                step == den * unit,
        ;
        lemma_round_half_even_nearest(num, step, hidden);
    }
}

/// A ratio that is rounded to an odd integer is nearer to that than to any other.
proof fn lemma_round_odd(num: nat, den: nat, other: nat)
    requires
        den > 0,
        round_half_even(num, den) % 2 == 1,
        other != round_half_even(num, den),
    ensures
        distance(num as int, (round_half_even(num, den) * den) as int) < distance(
            num as int,
            (other * den) as int,
        ),
{
    lemma_quotient_bounds(num, den);
    let quotient = num / den;
    let rest = num % den;
    assert(2 * rest != den);
    assert((quotient + 1) * den == quotient * den + den) by (nonlinear_arith);
    if other < quotient {
        assert(other * den <= quotient * den - den) by (nonlinear_arith)
            requires
                other + 1 <= quotient,
        ;
    } else if other > quotient + 1 {
        assert(other * den >= quotient * den + 2 * den) by (nonlinear_arith)
            requires
                other >= quotient + 2,
        ;
    }
}

/// A tie goes to the even encoding: an odd one stands for a value that is nearer
/// to `num / den` than every other value (distances are taken times `den`).
pub proof fn lemma_encode_odd(precision: nat, num: nat, den: nat, other: nat)
    requires
        precision > 1,
        den > 0,
        encode(precision, num, den) % 2 == 1,
        decode(precision, other) != decode(precision, encode(precision, num, den)),
    ensures
        distance(
            num as int,
            (decode(precision, encode(precision, num, den)) * den) as int,
        ) < distance(num as int, (decode(precision, other) * den) as int),
{
    let exponent = lemma_encode_value(precision, num, den);
    let unit = pow2(exponent);
    let hidden = pow2((precision - 1) as nat);
    let quarter = pow2((precision - 2) as nat);
    lemma_pow2_unfold(precision);
    lemma_pow2_unfold((precision - 1) as nat);
    let step = den * unit;
    let rounded = round_half_even(num, step);
    let value = decode(precision, encode(precision, num, den));
    assert(exponent * hidden == 2 * (exponent * quarter)) by (nonlinear_arith)
        requires
            hidden == 2 * quarter,
    ;
    assert(rounded % 2 == 1);
    let (other_exponent, other_significand) = lemma_fields(precision, other);
    if other_exponent >= exponent {
        let more = (other_exponent - exponent) as nat;
        lemma_pow2_adds(exponent, more);
        let multiple = other_significand * pow2(more);
        assert((other_significand * pow2(other_exponent)) * den == multiple * step)
            by (nonlinear_arith)
            requires
                pow2(other_exponent) == unit * pow2(more),
                multiple == other_significand * pow2(more),
                step == den * unit,
        ;
        if multiple == rounded {
            assert(decode(precision, other) == value) by (nonlinear_arith)
                requires
                    decode(precision, other) * den == value * den,
                    den > 0,
            ;
        }
        lemma_round_odd(num, step, multiple);
    } else {
        let less_unit = pow2(other_exponent);
        lemma_pow2_pos(other_exponent);
        lemma_pow2_strictly_increases(other_exponent, exponent);
        lemma_pow2_adds(1, other_exponent);
        lemma2_to64();
        if other_exponent + 1 < exponent {
            lemma_pow2_strictly_increases(1 + other_exponent, exponent);
        }
        assert((other_significand * less_unit) * den < hidden * step) by (nonlinear_arith)
            requires
                other_significand < 2 * hidden,
                2 * less_unit <= unit,
                less_unit > 0,
                step == den * unit,
                den > 0,
        {
            assert(other_significand * less_unit < (2 * hidden) * less_unit);
            assert((2 * hidden) * less_unit <= hidden * unit);
            assert((hidden * unit) * den == hidden * (den * unit));
        }
        lemma_round_half_even_nearest(num, step, hidden);
    }
}

} // verus!
