//! Colors.

use crate::binary32::{
    at_most, difference_of, integer, lemma_nearest, lemma_with_sign, less, negation_of, precision,
    product_of, quotient_of, same, sum_of, unit_exponent, Binary32,
};
use crate::bounds::{lemma_negation, lemma_product_between, lemma_sum_between};
use crate::color::{
    bgr_to_hsv, brightest, channel, chroma_of, darkest, hue_of, is_red_color, is_white_color,
    lemma_channel, lemma_chroma, lemma_difference_finite, lemma_offset_within_one,
    lemma_red_sextant, lower_of, red, saturation_of, upper_of, value_of, white,
};
use crate::order::{
    lemma_decode_order, lemma_encode_one, lemma_integer_exact, lemma_quotient_at_most_one,
    lemma_rank_order, lemma_units_zero,
};
use crate::params::SkillCheckParams;
use crate::pixels::Pixel;
use crate::rounding::{
    decode, distance, encode, lemma_encode_monotone, lemma_encode_nearest, lemma_encode_zero,
    lemma_representable,
};
use crate::scan::{dark_at, grey_at, white_at};
use vstd::arithmetic::power2::{
    lemma2_to64, lemma_pow2_adds, lemma_pow2_pos, lemma_pow2_unfold, pow2,
};
use vstd::prelude::*;

verus! {

/// The strongest of three bytes.
pub open spec fn largest(b: u8, g: u8, r: u8) -> u8 {
    if b >= g && b >= r {
        b
    } else if g >= r {
        g
    } else {
        r
    }
}

/// The weakest of three bytes.
pub open spec fn smallest(b: u8, g: u8, r: u8) -> u8 {
    if b <= g && b <= r {
        b
    } else if g <= r {
        g
    } else {
        r
    }
}

/// A stronger byte is no weaker channel.
pub proof fn lemma_channel_monotone(low: u8, high: u8)
    requires
        low <= high,
    ensures
        at_most(channel(low), channel(high)),
{
    let unit = pow2(unit_exponent());
    let a = integer(low as int);
    let b = integer(high as int);
    let full = integer(255);
    lemma_pow2_pos(unit_exponent());
    lemma_integer_exact(low as nat);
    lemma_integer_exact(high as nat);
    lemma_integer_exact(255);
    lemma_units_zero(full);
    lemma_channel(low);
    lemma_channel(high);
    assert(255 * unit > 0);
    assert(a.units() * unit * full.units() <= b.units() * unit * full.units()) by (nonlinear_arith)
        requires
            a.units() == low * unit,
            b.units() == high * unit,
            low <= high,
    ;
    lemma_encode_monotone(
        precision(),
        a.units() * unit,
        full.units(),
        b.units() * unit,
        full.units(),
    );
    lemma_nearest(false, a.units() * unit, full.units());
    lemma_nearest(false, b.units() * unit, full.units());
}

/// The strongest of three numbers is the one that none is above, and the
/// weakest the one that none is below.
proof fn lemma_ends_of(b: Binary32, g: Binary32, r: Binary32, top: Binary32, bottom: Binary32)
    requires
        b.finite() && !b.negative(),
        g.finite() && !g.negative(),
        r.finite() && !r.negative(),
        top == b || top == g || top == r,
        bottom == b || bottom == g || bottom == r,
        bottom.rank() <= b.rank() <= top.rank(),
        bottom.rank() <= g.rank() <= top.rank(),
        bottom.rank() <= r.rank() <= top.rank(),
    ensures
        upper_of(r, upper_of(g, b)) == top,
        lower_of(r, lower_of(g, b)) == bottom,
{
}

/// The strongest and the weakest channel are those of the strongest and the
/// weakest byte.
proof fn lemma_ends(b: u8, g: u8, r: u8)
    ensures
        brightest(b, g, r) == channel(largest(b, g, r)),
        darkest(b, g, r) == channel(smallest(b, g, r)),
{
    let top = largest(b, g, r);
    let bottom = smallest(b, g, r);
    lemma_channel(b);
    lemma_channel(g);
    lemma_channel(r);
    lemma_channel_monotone(b, top);
    lemma_channel_monotone(g, top);
    lemma_channel_monotone(r, top);
    lemma_channel_monotone(bottom, b);
    lemma_channel_monotone(bottom, g);
    lemma_channel_monotone(bottom, r);
    lemma_ends_of(channel(b), channel(g), channel(r), channel(top), channel(bottom));
}

/// The value of a color is its strongest byte on the scale from 0 to 1.
pub proof fn lemma_value_is_largest(b: u8, g: u8, r: u8)
    ensures
        value_of(b, g, r) == channel(largest(b, g, r)),
        at_most(integer(0), value_of(b, g, r)),
        at_most(value_of(b, g, r), integer(1)),
{
    lemma_ends(b, g, r);
    lemma_channel(largest(b, g, r));
    lemma_one_and_zero();
}

/// Saturation and value do not depend on which byte is which channel.
pub proof fn lemma_bytes_permuted(x: u8, y: u8, z: u8)
    ensures
        value_of(y, x, z) == value_of(x, y, z),
        value_of(x, z, y) == value_of(x, y, z),
        value_of(z, y, x) == value_of(x, y, z),
        value_of(y, z, x) == value_of(x, y, z),
        value_of(z, x, y) == value_of(x, y, z),
        saturation_of(y, x, z) == saturation_of(x, y, z),
        saturation_of(x, z, y) == saturation_of(x, y, z),
        saturation_of(z, y, x) == saturation_of(x, y, z),
        saturation_of(y, z, x) == saturation_of(x, y, z),
        saturation_of(z, x, y) == saturation_of(x, y, z),
{
    lemma_ends(x, y, z);
    lemma_ends(y, x, z);
    lemma_ends(x, z, y);
    lemma_ends(z, y, x);
    lemma_ends(y, z, x);
    lemma_ends(z, x, y);
}

/// Where 0 and 1 are in the numeric order.
proof fn lemma_one_and_zero()
    ensures
        integer(0).rank() == 0,
        !integer(0).nan(),
        integer(1).rank() == 0x3f80_0000,
        !integer(1).nan(),
{
    let unit = pow2(unit_exponent());
    assert(0 * unit == 0 && 1 * unit == unit);
    lemma_integer_exact(0);
    lemma_units_zero(integer(0));
    lemma_encode_one();
    lemma_nearest(false, unit, 1);
}

/// A grey has no hue and no saturation.
pub proof fn lemma_grey_is_pale(byte: u8)
    ensures
        hue_of(byte, byte, byte) == integer(0),
        same(saturation_of(byte, byte, byte), integer(0)),
        value_of(byte, byte, byte) == channel(byte),
{
    let a = channel(byte);
    lemma_channel(byte);
    lemma_negation(a);
    lemma_one_and_zero();
    assert(chroma_of(byte, byte, byte) == sum_of(a, negation_of(a)));
    if !same(a, integer(0)) {
        let chroma = chroma_of(byte, byte, byte);
        lemma_units_zero(chroma);
        lemma_units_zero(a);
        assert(chroma.units() * pow2(unit_exponent()) == 0) by (nonlinear_arith)
            requires
                chroma.units() == 0,
        ;
        lemma_encode_zero(precision(), a.units());
        lemma_nearest(false, 0, a.units());
    }
}

/// The saturation of a color is between 0 and 1.
pub proof fn lemma_saturation_within_one(b: u8, g: u8, r: u8)
    ensures
        at_most(integer(0), saturation_of(b, g, r)),
        at_most(saturation_of(b, g, r), integer(1)),
{
    lemma_one_and_zero();
    lemma_channel(b);
    lemma_channel(g);
    lemma_channel(r);
    let high = brightest(b, g, r);
    if !same(high, integer(0)) {
        lemma_chroma(b, g, r);
        let chroma = chroma_of(b, g, r);
        lemma_quotient_at_most_one(chroma, high);
        lemma_nearest(false, chroma.units() * pow2(unit_exponent()), high.units());
    }
}

/// A channel is within one part in `2^24` of its byte's share.
proof fn lemma_channel_close(byte: u8)
    ensures
        distance((255 * channel(byte).units()) as int, (byte * pow2(unit_exponent())) as int)
            <= 128 * pow2(125),
{
    let unit = pow2(unit_exponent());
    let a = integer(byte as int);
    let full = integer(255);
    lemma_pow2_pos(unit_exponent());
    lemma_pow2_pos(125);
    lemma2_to64();
    lemma_integer_exact(byte as nat);
    lemma_integer_exact(255);
    lemma_units_zero(full);
    lemma_channel(byte);
    assert(255 * unit > 0);
    let num = a.units() * unit;
    let den = full.units();
    // The nearest multiple of `2^-24` is a number.
    let near = ((2 * byte * 0x100_0000 + 255) / 510) as nat;
    assert(near <= 0x100_0000 && distance((255 * near) as int, byte * 0x100_0000) <= 128);
    if near < 0x100_0000 {
        lemma_representable(precision(), near, 125);
    } else {
        lemma_representable(precision(), pow2(23), 126);
        lemma_pow2_unfold(126);
        assert(pow2(23) * pow2(126) == near * pow2(125)) by (nonlinear_arith)
            requires
                near == 0x100_0000,
                pow2(23) == 0x80_0000,
                pow2(126) == 2 * pow2(125),
        ;
    }
    let offered = encode(precision(), near * pow2(125), 1);
    lemma_encode_nearest(precision(), num, den, offered);
    lemma_nearest(false, num, den);
    lemma_pow2_adds(24, 125);
    let chosen = channel(byte).units();
    lemma_scaled_distance(byte as nat, chosen, unit);
    lemma_scaled_distance(byte as nat, near * pow2(125), unit);
    assert(distance((byte * unit) as int, (255 * chosen) as int) <= distance(
        (byte * unit) as int,
        (255 * (near * pow2(125))) as int,
    )) by (nonlinear_arith)
        requires
            unit * distance((byte * unit) as int, (255 * chosen) as int) <= unit * distance(
                (byte * unit) as int,
                (255 * (near * pow2(125))) as int,
            ),
            unit > 0,
    ;
    assert(distance((byte * unit) as int, (255 * (near * pow2(125))) as int) <= 128 * pow2(125))
        by (nonlinear_arith)
        requires
            unit == 0x100_0000 * pow2(125),
            distance((255 * near) as int, byte * 0x100_0000) <= 128,
            pow2(125) > 0,
    ;
}

/// Distances of multiples are multiples of distances.
proof fn lemma_scaled_distance(byte: nat, value: nat, unit: nat)
    ensures
        distance((byte * unit * unit) as int, (value * (255 * unit)) as int) == unit * distance(
            (byte * unit) as int,
            (255 * value) as int,
        ),
{
    assert(byte * unit * unit - value * (255 * unit) == unit * (byte * unit - 255 * value))
        by (nonlinear_arith);
    assert(value * (255 * unit) - byte * unit * unit == unit * (255 * value - byte * unit))
        by (nonlinear_arith);
    let gap = byte * unit - 255 * value;
    assert(gap >= 0 ==> unit * gap >= 0) by (nonlinear_arith);
    assert(gap <= 0 ==> unit * -gap >= 0) by (nonlinear_arith);
}

/// Where rounding goes up from a number, it does not come below it.
proof fn lemma_at_least(num: nat, den: nat, exponent: nat)
    requires
        den > 0,
        pow2(exponent) * den <= num,
    ensures
        decode(precision(), encode(precision(), num, den)) >= pow2(exponent),
{
    lemma2_to64();
    assert(1 * pow2(exponent) == pow2(exponent));
    lemma_representable(precision(), 1, exponent);
    lemma_encode_monotone(precision(), pow2(exponent), 1, num, den);
    lemma_decode_order(
        precision(),
        encode(precision(), pow2(exponent), 1),
        encode(precision(), num, den),
    );
}

/// A hue that is turned forward into the circle stays short of its end: bytes
/// that differ make it more than a rounding.
proof fn lemma_hue_short_of_turn(b: u8, g: u8, r: u8)
    requires
        !same(chroma_of(b, g, r), integer(0)),
        g < b,
    ensures
        ({
            let offset = quotient_of(
                difference_of(channel(g), channel(b)),
                chroma_of(b, g, r),
            );
            let hue = product_of(integer(60), offset);
            hue.finite() ==> hue.units() >= pow2(140)
        }),
{
    let unit = pow2(unit_exponent());
    let delta = chroma_of(b, g, r);
    let difference = difference_of(channel(g), channel(b));
    let offset = quotient_of(difference, delta);
    lemma2_to64();
    lemma_one_and_zero();
    lemma_pow2_pos(unit_exponent());
    lemma_pow2_pos(125);
    lemma_pow2_adds(24, 125);
    lemma_pow2_adds(15, 125);
    lemma_channel(g);
    lemma_channel(b);
    lemma_channel_close(g);
    lemma_channel_close(b);
    let low = channel(g).units();
    let high = channel(b).units();
    assert(high - low >= pow2(140)) by (nonlinear_arith)
        requires
            distance((255 * low) as int, (g * unit) as int) <= 128 * pow2(125),
            distance((255 * high) as int, (b * unit) as int) <= 128 * pow2(125),
            g + 1 <= b,
            unit == 0x100_0000 * pow2(125),
            pow2(140) == 0x8000 * pow2(125),
            pow2(125) > 0,
    ;
    lemma_negation(channel(b));
    lemma_at_least((high - low) as nat, 1, 140);
    lemma_nearest(true, (high - low) as nat, 1);
    lemma_offset_within_one(b, g, r, g, b);
    lemma_chroma(b, g, r);
    lemma_value_is_largest(b, g, r);
    lemma_units_zero(delta);
    lemma_encode_one();
    lemma_decode_order(precision(), delta.magnitude(), 0x3f80_0000);
    lemma_difference_finite(b, g, r, g, b);
    assert(pow2(140) * delta.units() <= difference.units() * unit) by (nonlinear_arith)
        requires
            pow2(140) <= difference.units(),
            delta.units() <= unit,
    ;
    lemma_at_least(difference.units() * unit, delta.units(), 140);
    lemma_nearest(true, difference.units() * unit, delta.units());
    lemma_integer_exact(60);
    assert(pow2(140) * unit <= integer(60).units() * offset.units()) by (nonlinear_arith)
        requires
            pow2(140) <= offset.units(),
            integer(60).units() == 60 * unit,
            unit > 0,
    ;
    lemma_at_least(integer(60).units() * offset.units(), unit, 140);
    lemma_nearest(offset.negative(), integer(60).units() * offset.units(), unit);
}

/// A turn less `2^-9` degrees or more does not round to a turn.
proof fn lemma_short_of_turn(hue: Binary32)
    requires
        hue.finite(),
        hue.negative(),
        pow2(140) <= hue.units() <= 60 * pow2(unit_exponent()),
    ensures
        sum_of(hue, integer(360)).finite(),
        sum_of(hue, integer(360)).value() < 360 * pow2(unit_exponent()),
{
    let unit = pow2(unit_exponent());
    lemma2_to64();
    lemma_pow2_pos(140);
    lemma_pow2_adds(9, 140);
    lemma_integer_exact(360);
    let total = (360 * unit - hue.units()) as nat;
    // The next number below a turn that is a multiple of `2^-9`.
    let below = 184_319 * pow2(140);
    assert(total <= below) by (nonlinear_arith)
        requires
            total <= 360 * unit - pow2(140),
            unit == 512 * pow2(140),
            below == 184_319 * pow2(140),
    ;
    lemma_representable(precision(), 184_319, 140);
    lemma_encode_monotone(precision(), total, 1, below, 1);
    lemma_encode_monotone(precision(), below, 1, 360 * unit, 1);
    lemma_nearest(false, total, 1);
    lemma_nearest(false, 360 * unit, 1);
    lemma_decode_order(
        precision(),
        encode(precision(), total, 1),
        encode(precision(), below, 1),
    );
}

/// Where green is no weaker than blue the red sextant does not turn backwards.
proof fn lemma_offset_not_negative(b: u8, g: u8, r: u8)
    requires
        b <= g,
        !same(chroma_of(b, g, r), integer(0)),
    ensures
        ({
            let offset = quotient_of(
                difference_of(channel(g), channel(b)),
                chroma_of(b, g, r),
            );
            let hue = product_of(integer(60), offset);
            !less(hue, integer(0))
        }),
{
    let delta = chroma_of(b, g, r);
    let difference = difference_of(channel(g), channel(b));
    lemma_one_and_zero();
    lemma_channel(g);
    lemma_channel(b);
    lemma_channel_monotone(b, g);
    lemma_rank_order(channel(b), channel(g));
    lemma_negation(channel(b));
    lemma_chroma(b, g, r);
    lemma_difference_finite(b, g, r, g, b);
    let width = (channel(g).value() - channel(b).value()) as nat;
    lemma_nearest(false, width, 1);
    lemma_with_sign(false, 0);
    assert(!difference.negative());
    lemma_nearest(false, difference.units() * pow2(unit_exponent()), delta.units());
    let offset = quotient_of(difference, delta);
    lemma_integer_exact(60);
    lemma_offset_within_one(b, g, r, g, b);
    lemma_nearest(false, integer(60).units() * offset.units(), pow2(unit_exponent()));
}

/// The hue of a color is an angle from 0 to below 360 degrees.
pub proof fn lemma_hue_within_circle(b: u8, g: u8, r: u8)
    ensures
        at_most(integer(0), hue_of(b, g, r)),
        less(hue_of(b, g, r), integer(360)),
{
    let delta = chroma_of(b, g, r);
    let unit = pow2(unit_exponent());
    lemma_one_and_zero();
    lemma_integer_exact(0);
    lemma_integer_exact(2);
    lemma_integer_exact(4);
    lemma_integer_exact(360);
    lemma_pow2_pos(unit_exponent());
    assert(0 * unit == 0);
    if same(delta, integer(0)) {
        lemma_rank_order(integer(0), integer(360));
    } else if same(brightest(b, g, r), channel(r)) {
        let offset = quotient_of(difference_of(channel(g), channel(b)), delta);
        lemma_red_sextant(b, g, r);
        lemma_offset_within_one(b, g, r, g, b);
        lemma_product_between(60, offset, -1, 1);
        let hue = product_of(integer(60), offset);
        lemma_rank_order(hue, integer(0));
        if less(hue, integer(0)) {
            if g >= b {
                lemma_channel_monotone(b, g);
                lemma_offset_not_negative(b, g, r);
                assert(false);
            }
            lemma_hue_short_of_turn(b, g, r);
            lemma_sum_between(hue, integer(360), 300, 360);
            lemma_short_of_turn(hue);
            lemma_rank_order(sum_of(hue, integer(360)), integer(360));
            lemma_rank_order(integer(0), sum_of(hue, integer(360)));
        } else {
            lemma_rank_order(integer(0), hue);
            lemma_rank_order(hue, integer(360));
        }
    } else if same(brightest(b, g, r), channel(g)) {
        let offset = quotient_of(difference_of(channel(b), channel(r)), delta);
        lemma_offset_within_one(b, g, r, b, r);
        lemma_sum_between(offset, integer(2), 1, 3);
        let shifted = sum_of(offset, integer(2));
        lemma_product_between(60, shifted, 1, 3);
        lemma_rank_order(integer(0), product_of(integer(60), shifted));
        lemma_rank_order(product_of(integer(60), shifted), integer(360));
    } else {
        let offset = quotient_of(difference_of(channel(r), channel(g)), delta);
        lemma_offset_within_one(b, g, r, r, g);
        lemma_sum_between(offset, integer(4), 3, 5);
        let shifted = sum_of(offset, integer(4));
        lemma_product_between(60, shifted, 3, 5);
        lemma_rank_order(integer(0), product_of(integer(60), shifted));
        lemma_rank_order(product_of(integer(60), shifted), integer(360));
    }
}

/// A pixel is not of the needle and of the success zone at once, given that
/// the zone is paler than the needle.
pub proof fn lemma_red_is_not_white(
    h: Binary32,
    s: Binary32,
    v: Binary32,
    params: SkillCheckParams,
)
    requires
        at_most(params.white_sat_max, params.red_sat_min),
    ensures
        !(red(h, s, v, params) && white(s, v, params)),
{
}

/// A pixel is not dark and grey at once, and not grey and white, given that the
/// settings leave dark, grey and white apart in brightness.
pub proof fn lemma_shades_apart(image: Seq<u8>, stride: nat, pixel: Pixel, params: SkillCheckParams)
    requires
        at_most(params.dark_value_threshold, params.grey_v_min),
        at_most(params.grey_v_max, params.white_val_min),
    ensures
        ({
            let dark = dark_at(image, stride, pixel, params.dark_value_threshold);
            let grey = grey_at(
                image,
                stride,
                pixel,
                params.grey_v_min,
                params.grey_v_max,
                params.grey_s_max,
            );
            !(dark && grey) && !(grey && white_at(image, stride, pixel, params))
        }),
{
}

/// A byte as a share of 255.
pub open spec fn share(byte: u8) -> Binary32 {
    quotient_of(integer(byte as int), integer(255))
}

/// Different bytes are different shares.
proof fn lemma_shares_differ(low: u8, high: u8)
    requires
        low < high,
    ensures
        less(share(low), share(high)),
        !same(share(low), share(high)),
{
    let unit = pow2(unit_exponent());
    lemma_channel(low);
    lemma_channel(high);
    lemma_channel_close(low);
    lemma_channel_close(high);
    lemma2_to64();
    lemma_pow2_adds(24, 125);
    lemma_pow2_pos(125);
    assert(low * unit + unit <= high * unit) by (nonlinear_arith)
        requires
            low + 1 <= high,
    ;
    lemma_rank_order(channel(low), channel(high));
}

/// The difference of two shares is nothing only where the bytes are the same.
proof fn lemma_share_difference(low: u8, high: u8)
    requires
        low <= high,
    ensures
        same(difference_of(share(high), share(low)), integer(0)) <==> low == high,
{
    let (a, b) = (share(high), share(low));
    lemma_one_and_zero();
    lemma_channel(low);
    lemma_channel(high);
    lemma_negation(b);
    lemma_integer_exact(0);
    assert(0 * pow2(unit_exponent()) == 0);
    if low == high {
        lemma_with_sign(false, 0);
    } else {
        lemma_shares_differ(low, high);
        lemma_rank_order(b, a);
        let width = (a.value() - b.value()) as nat;
        lemma_nearest(false, width, 1);
        lemma2_to64();
        lemma_encode_monotone(precision(), 1, 1, width, 1);
        lemma_representable(precision(), 1, 0);
        assert(encode(precision(), 1, 1) > 0) by {
            lemma2_to64();
            assert(1 * pow2(0) == 1);
            assert(decode(precision(), encode(precision(), 1, 1)) == 1);
            assert(decode(precision(), 0) == 0) by {
                lemma_units_zero(Binary32 { bits: 0 });
            }
        }
    }
}

/// Only a byte of 0 has no share.
proof fn lemma_share_of_nothing(byte: u8)
    ensures
        same(share(byte), integer(0)) <==> byte == 0,
{
    lemma_one_and_zero();
    lemma_channel(byte);
    if byte > 0 {
        lemma_shares_differ(0, byte);
        lemma_channel(0);
    } else {
        lemma_integer_exact(0);
        lemma_integer_exact(255);
        lemma_pow2_pos(unit_exponent());
        assert(0 * pow2(unit_exponent()) == 0);
        lemma_encode_zero(precision(), integer(255).units());
        lemma_nearest(false, 0, integer(255).units());
    }
}

/// How colorful bytes are: the span from the weakest to the strongest one,
/// relative to the strongest; nothing for black.
pub open spec fn colorfulness(b: u8, g: u8, r: u8) -> Binary32 {
    if b == 0 && g == 0 && r == 0 {
        integer(0)
    } else {
        quotient_of(
            difference_of(share(largest(b, g, r)), share(smallest(b, g, r))),
            share(largest(b, g, r)),
        )
    }
}

/// The value of a color is the share of its strongest byte; its saturation is
/// the span from the weakest to the strongest one, relative to the strongest,
/// and nothing for black.
pub proof fn lemma_shade_from_bytes(b: u8, g: u8, r: u8, hsv: (Binary32, Binary32, Binary32))
    requires
        call_ensures(bgr_to_hsv, (b, g, r), hsv),
    ensures
        hsv.2 == share(largest(b, g, r)),
        hsv.1 == colorfulness(b, g, r),
{
    lemma_shade(b, g, r);
}

pub(crate) proof fn lemma_shade(b: u8, g: u8, r: u8)
    ensures
        value_of(b, g, r) == share(largest(b, g, r)),
        saturation_of(b, g, r) == colorfulness(b, g, r),
{
    lemma_ends(b, g, r);
    lemma_share_of_nothing(largest(b, g, r));
}

/// The hue of a color is 0 where all bytes are the same; around 0 where red is
/// strongest, around 120 where green is and red is weaker, and around 240
/// where blue alone is. How far it is from there, in sixties of degrees, is the
/// difference of the other two shares, relative to the span of all.
pub proof fn lemma_hue_from_bytes(b: u8, g: u8, r: u8, hsv: (Binary32, Binary32, Binary32))
    requires
        call_ensures(bgr_to_hsv, (b, g, r), hsv),
    ensures
        ({
            let top = largest(b, g, r);
            let span = difference_of(share(top), share(smallest(b, g, r)));
            &&& b == g && g == r ==> hsv.0 == integer(0)
            &&& !(b == g && g == r) && r == top && g >= b ==> hsv.0 == product_of(
                integer(60),
                quotient_of(difference_of(share(g), share(b)), span),
            )
            &&& r == top && g < b ==> hsv.0 == sum_of(
                product_of(
                    integer(60),
                    quotient_of(difference_of(share(g), share(b)), span),
                ),
                integer(360),
            )
            &&& g == top && r < top ==> hsv.0 == product_of(
                integer(60),
                sum_of(quotient_of(difference_of(share(b), share(r)), span), integer(2)),
            )
            &&& b == top && g < top && r < top ==> hsv.0 == product_of(
                integer(60),
                sum_of(quotient_of(difference_of(share(r), share(g)), span), integer(4)),
            )
        }),
{
    let top = largest(b, g, r);
    let bottom = smallest(b, g, r);
    lemma_ends(b, g, r);
    lemma_share_difference(bottom, top);
    lemma_channel(top);
    if bottom < top {
        if r < top {
            lemma_shares_differ(r, top);
        }
        if g < top {
            lemma_shares_differ(g, top);
        }
        if r == top {
            lemma_red_sextant(b, g, r);
            if g >= b {
                lemma_offset_not_negative(b, g, r);
            } else {
                lemma_hue_below_zero(b, g, r);
            }
        }
    }
}

/// With red strongest and green weaker than blue the hue is short of 0.
proof fn lemma_hue_below_zero(b: u8, g: u8, r: u8)
    requires
        r == largest(b, g, r),
        g < b,
    ensures
        less(
            product_of(
                integer(60),
                quotient_of(difference_of(channel(g), channel(b)), chroma_of(b, g, r)),
            ),
            integer(0),
        ),
{
    let unit = pow2(unit_exponent());
    let delta = chroma_of(b, g, r);
    let difference = difference_of(channel(g), channel(b));
    lemma_pow2_pos(unit_exponent());
    lemma_one_and_zero();
    lemma_ends(b, g, r);
    lemma_share_difference(smallest(b, g, r), r);
    lemma_share_difference(g, b);
    lemma_channel(g);
    lemma_channel(b);
    lemma_shares_differ(g, b);
    lemma_rank_order(channel(g), channel(b));
    lemma_negation(channel(b));
    lemma_negation(channel(g));
    lemma_chroma(b, g, r);
    lemma_difference_finite(b, g, r, g, b);
    lemma_offset_within_one(b, g, r, g, b);
    lemma_hue_short_of_turn(b, g, r);
    let offset = quotient_of(difference, delta);
    let hue = product_of(integer(60), offset);
    lemma_nearest(true, (channel(b).value() - channel(g).value()) as nat, 1);
    lemma_nearest(true, difference.units() * unit, delta.units());
    lemma_integer_exact(60);
    lemma_nearest(true, integer(60).units() * offset.units(), unit);
    lemma_product_between(60, offset, -1, 1);
    lemma_pow2_pos(140);
    lemma_units_zero(hue);
    lemma_units_zero(delta);
    assert(difference.negative() && !delta.negative());
    assert(offset.negative());
    assert(hue.negative());
}

/// A color is the needle's exactly if its hue is not from the lower to the
/// upper bound, and it is stronger in color and brighter than the settings ask.
pub proof fn lemma_needle_color(
    h: Binary32,
    s: Binary32,
    v: Binary32,
    params: &SkillCheckParams,
    result: bool,
)
    requires
        call_ensures(is_red_color, (h, s, v, params), result),
    ensures
        result ==> less(params.red_sat_min, s) && less(params.red_val_min, v) && (!at_most(
            params.red_hue_min,
            h,
        ) || !at_most(h, params.red_hue_max)),
        less(params.red_sat_min, s) && less(params.red_val_min, v) && !at_most(
            params.red_hue_min,
            h,
        ) ==> result,
        less(params.red_sat_min, s) && less(params.red_val_min, v) && !at_most(
            h,
            params.red_hue_max,
        ) ==> result,
{
}

/// A color is the success zone's exactly if it is paler and brighter than the
/// settings ask; the hue does not matter.
pub proof fn lemma_zone_color(
    h: Binary32,
    s: Binary32,
    v: Binary32,
    params: &SkillCheckParams,
    result: bool,
)
    requires
        call_ensures(is_white_color, (h, s, v, params), result),
    ensures
        result <==> less(s, params.white_sat_max) && less(params.white_val_min, v),
{
}

} // verus!
