//! Colors: from bytes to hue, saturation and value, and what counts as dark,
//! grey, red or white.

use crate::binary32::{
    at_most, difference_of, integer, lemma_nearest, less, nearest, negation_of, not_a_number,
    precision, product_of, quotient_of, same, sum_of, unit_exponent, Binary32,
};
use crate::order::{
    lemma_decode_order, lemma_encode_one, lemma_integer_exact, lemma_nearest_of_units,
    lemma_quotient_at_most_one, lemma_rank_order, lemma_units_zero,
};
use crate::params::SkillCheckParams;
use crate::rounding::{encode, lemma_encode_monotone, lemma_encode_zero, lemma_quotient_unique};
use vstd::arithmetic::power2::{lemma_pow2_pos, pow2};
use vstd::prelude::*;

verus! {

/// A color byte on the scale from 0 to 1.
pub open spec fn channel(byte: u8) -> Binary32 {
    quotient_of(integer(byte as int), integer(255))
}

/// The smaller of two numbers.
pub open spec fn lower_of(a: Binary32, b: Binary32) -> Binary32 {
    if less(b, a) {
        b
    } else {
        a
    }
}

/// The larger of two numbers.
pub open spec fn upper_of(a: Binary32, b: Binary32) -> Binary32 {
    if less(a, b) {
        b
    } else {
        a
    }
}

/// The remainder of a division that is cut off towards zero; it has the sign of `a`.
pub open spec fn remainder_of(a: Binary32, b: Binary32) -> Binary32 {
    if a.nan() || b.nan() || a.infinite() || b.magnitude() == 0 {
        not_a_number()
    } else if b.infinite() {
        a
    } else {
        nearest(a.negative(), a.units() % b.units(), 1)
    }
}

pub open spec fn brightest(b: u8, g: u8, r: u8) -> Binary32 {
    upper_of(channel(r), upper_of(channel(g), channel(b)))
}

pub open spec fn darkest(b: u8, g: u8, r: u8) -> Binary32 {
    lower_of(channel(r), lower_of(channel(g), channel(b)))
}

/// Value: the strongest channel.
pub open spec fn value_of(b: u8, g: u8, r: u8) -> Binary32 {
    brightest(b, g, r)
}

/// How far the channels are apart.
pub open spec fn chroma_of(b: u8, g: u8, r: u8) -> Binary32 {
    difference_of(brightest(b, g, r), darkest(b, g, r))
}

/// Saturation: the chroma relative to the value; 0 for black.
pub open spec fn saturation_of(b: u8, g: u8, r: u8) -> Binary32 {
    if same(value_of(b, g, r), integer(0)) {
        integer(0)
    } else {
        quotient_of(chroma_of(b, g, r), value_of(b, g, r))
    }
}

/// Hue in degrees: 0 for red, 120 for green, 240 for blue; 0 for a grey.
pub open spec fn hue_of(b: u8, g: u8, r: u8) -> Binary32 {
    let delta = chroma_of(b, g, r);
    if same(delta, integer(0)) {
        integer(0)
    } else if same(brightest(b, g, r), channel(r)) {
        let hue = product_of(
            integer(60),
            remainder_of(
                quotient_of(difference_of(channel(g), channel(b)), delta),
                integer(6),
            ),
        );
        if less(hue, integer(0)) {
            sum_of(hue, integer(360))
        } else {
            hue
        }
    } else if same(brightest(b, g, r), channel(g)) {
        product_of(
            integer(60),
            sum_of(quotient_of(difference_of(channel(b), channel(r)), delta), integer(2)),
        )
    } else {
        product_of(
            integer(60),
            sum_of(quotient_of(difference_of(channel(r), channel(g)), delta), integer(4)),
        )
    }
}

/// A channel lies between 0 and 1.
pub proof fn lemma_channel(byte: u8)
    ensures
        channel(byte).finite(),
        !channel(byte).negative(),
        channel(byte).magnitude() <= 0x3f80_0000,
{
    lemma_integer_exact(byte as nat);
    lemma_integer_exact(255);
    lemma_pow2_pos(unit_exponent());
    let a = integer(byte as int);
    let b = integer(255);
    assert(byte * pow2(unit_exponent()) <= 255 * pow2(unit_exponent())) by (nonlinear_arith)
        requires
            byte <= 255,
            pow2(unit_exponent()) > 0,
    ;
    assert(255 * pow2(unit_exponent()) > 0) by (nonlinear_arith)
        requires
            pow2(unit_exponent()) > 0,
    ;
    lemma_units_zero(b);
    lemma_decode_order(precision(), a.magnitude(), b.magnitude());
    lemma_quotient_at_most_one(a, b);
    lemma_nearest(false, a.units() * pow2(unit_exponent()), b.units());
}

/// A difference within the span from `low` to `high` is no larger than that span.
proof fn lemma_difference_within(low: Binary32, high: Binary32, p: Binary32, q: Binary32)
    requires
        0 <= low.rank() <= p.rank() <= high.rank() <= 0x3f80_0000,
        low.rank() <= q.rank() <= high.rank(),
        !low.negative() && !high.negative() && !p.negative() && !q.negative(),
    ensures
        difference_of(p, q).finite(),
        difference_of(high, low).finite(),
        difference_of(p, q).magnitude() <= difference_of(high, low).magnitude(),
{
    lemma_rank_order(p, high);
    lemma_rank_order(q, high);
    lemma_rank_order(low, p);
    lemma_rank_order(low, q);
    let width = high.value() - low.value();
    let total = p.value() - q.value();
    let size = (if total < 0 {
        -total
    } else {
        total
    }) as nat;
    assert(negation_of(q).units() == q.units() && negation_of(q).negative());
    assert(negation_of(low).units() == low.units() && negation_of(low).negative());
    lemma_encode_one();
    lemma_decode_order(precision(), high.magnitude(), 0x3f80_0000);
    assert(width * 1 <= pow2(unit_exponent()) * 1);
    lemma_encode_monotone(precision(), width as nat, 1, pow2(unit_exponent()), 1);
    assert(size * 1 <= width * 1);
    lemma_encode_monotone(precision(), size, 1, width as nat, 1);
    lemma_encode_zero(precision(), 1);
    lemma_nearest(false, width as nat, 1);
    lemma_nearest(total < 0, size, 1);
    assert(difference_of(high, low).magnitude() == encode(precision(), width as nat, 1));
    assert(difference_of(p, q).magnitude() == encode(precision(), size, 1));
}

/// Every channel is between the darkest and the brightest one.
proof fn lemma_extremes(b: u8, g: u8, r: u8, x: u8)
    requires
        x == b || x == g || x == r,
    ensures
        !darkest(b, g, r).negative(),
        !brightest(b, g, r).negative(),
        !channel(x).negative(),
        0 <= darkest(b, g, r).rank() <= channel(x).rank() <= brightest(b, g, r).rank()
            <= 0x3f80_0000,
{
    lemma_channel(b);
    lemma_channel(g);
    lemma_channel(r);
    lemma_extremes_of(channel(b), channel(g), channel(r), channel(x));
}

proof fn lemma_extremes_of(b: Binary32, g: Binary32, r: Binary32, x: Binary32)
    requires
        b.magnitude() <= 0x3f80_0000 && !b.negative(),
        g.magnitude() <= 0x3f80_0000 && !g.negative(),
        r.magnitude() <= 0x3f80_0000 && !r.negative(),
        x == b || x == g || x == r,
    ensures
        ({
            let low = lower_of(r, lower_of(g, b));
            let high = upper_of(r, upper_of(g, b));
            &&& !low.negative() && !high.negative()
            &&& 0 <= low.rank() <= x.rank() <= high.rank() <= 0x3f80_0000
        }),
{
}

/// The chroma is no larger than the value, and not negative.
pub(crate) proof fn lemma_chroma(b: u8, g: u8, r: u8)
    ensures
        chroma_of(b, g, r).finite(),
        !chroma_of(b, g, r).negative(),
        chroma_of(b, g, r).magnitude() <= brightest(b, g, r).magnitude(),
{
    lemma_extremes(b, g, r, b);
    lemma_span(darkest(b, g, r), brightest(b, g, r));
}

/// The span between two numbers from 0 on is no larger than the upper one.
proof fn lemma_span(low: Binary32, high: Binary32)
    requires
        !low.negative() && !high.negative(),
        0 <= low.rank() <= high.rank() <= 0x3f80_0000,
    ensures
        difference_of(high, low).finite(),
        !difference_of(high, low).negative(),
        difference_of(high, low).magnitude() <= high.magnitude(),
{
    lemma_rank_order(low, high);
    assert(negation_of(low).units() == low.units() && negation_of(low).negative());
    let width = (high.value() - low.value()) as nat;
    lemma_encode_monotone(precision(), width, 1, high.units(), 1);
    lemma_nearest_of_units(high);
    lemma_nearest(false, width, 1);
    lemma_nearest(false, high.units(), 1);
}

/// The difference of two channels is a number.
pub(crate) proof fn lemma_difference_finite(b: u8, g: u8, r: u8, p: u8, q: u8)
    requires
        p == b || p == g || p == r,
        q == b || q == g || q == r,
    ensures
        difference_of(channel(p), channel(q)).finite(),
{
    lemma_extremes(b, g, r, p);
    lemma_extremes(b, g, r, q);
    lemma_difference_within(darkest(b, g, r), brightest(b, g, r), channel(p), channel(q));
}

/// The distance of two channels, relative to the chroma, is at most 1.
pub(crate) proof fn lemma_offset_within_one(b: u8, g: u8, r: u8, p: u8, q: u8)
    requires
        !same(chroma_of(b, g, r), integer(0)),
        p == b || p == g || p == r,
        q == b || q == g || q == r,
    ensures
        ({
            let offset = quotient_of(difference_of(channel(p), channel(q)), chroma_of(b, g, r));
            &&& offset.finite()
            &&& -pow2(unit_exponent()) <= offset.value() <= pow2(unit_exponent())
        }),
{
    let delta = chroma_of(b, g, r);
    let difference = difference_of(channel(p), channel(q));
    lemma_extremes(b, g, r, p);
    lemma_extremes(b, g, r, q);
    lemma_difference_within(darkest(b, g, r), brightest(b, g, r), channel(p), channel(q));
    lemma_integer_exact(0);
    lemma_units_zero(integer(0));
    assert(0 * pow2(unit_exponent()) == 0);
    assert(delta.magnitude() > 0);
    lemma_quotient_at_most_one(difference, delta);
    let offset = quotient_of(difference, delta);
    lemma_encode_one();
    lemma_decode_order(precision(), offset.magnitude(), 0x3f80_0000);
}

/// The red sextant's offset is small enough for a remainder by 6 to keep it.
pub(crate) proof fn lemma_red_sextant(b: u8, g: u8, r: u8)
    requires
        !same(chroma_of(b, g, r), integer(0)),
    ensures
        ({
            let offset = quotient_of(
                difference_of(channel(g), channel(b)),
                chroma_of(b, g, r),
            );
            remainder_of(offset, integer(6)) == offset
        }),
{
    let delta = chroma_of(b, g, r);
    let difference = difference_of(channel(g), channel(b));
    lemma_extremes(b, g, r, g);
    lemma_extremes(b, g, r, b);
    lemma_difference_within(darkest(b, g, r), brightest(b, g, r), channel(g), channel(b));
    lemma_integer_exact(0);
    lemma_integer_exact(6);
    lemma_units_zero(integer(0));
    assert(0 * pow2(unit_exponent()) == 0);
    assert(delta.magnitude() > 0);
    lemma_quotient_at_most_one(difference, delta);
    let offset = quotient_of(difference, delta);
    lemma_encode_one();
    lemma_decode_order(precision(), offset.magnitude(), 0x3f80_0000);
    lemma_pow2_pos(unit_exponent());
    lemma_units_zero(integer(6));
    assert(offset.units() < integer(6).units());
    lemma_quotient_unique(offset.units(), integer(6).units(), 0, offset.units());
    lemma_nearest_of_units(offset);
}

/// Hue in degrees, saturation and value of a color.
pub fn bgr_to_hsv(b: u8, g: u8, r: u8) -> (hsv: (Binary32, Binary32, Binary32))
    ensures
        hsv.0 == hue_of(b, g, r),
        hsv.1 == saturation_of(b, g, r),
        hsv.2 == value_of(b, g, r),
{
    let zero: Binary32 = Binary32::from_u64(0);
    let full: Binary32 = Binary32::from_u64(255);
    let red: Binary32 = Binary32::from_u64(r as u64).over(full);
    let green: Binary32 = Binary32::from_u64(g as u64).over(full);
    let blue: Binary32 = Binary32::from_u64(b as u64).over(full);
    let min: Binary32 = lower(red, lower(green, blue));
    let max: Binary32 = upper(red, upper(green, blue));
    let delta: Binary32 = max.minus(min);
    let s: Binary32 = if max.equals(zero) { zero } else { delta.over(max) };
    let h: Binary32 = if delta.equals(zero) {
        zero
    } else if max.equals(red) {
        // The offset is at most 1, which a remainder by 6 leaves as it is.
        proof {
            lemma_red_sextant(b, g, r);
        }
        let hue: Binary32 = Binary32::from_u64(60).times(green.minus(blue).over(delta));
        if hue.lt(zero) {
            hue.plus(Binary32::from_u64(360))
        } else {
            hue
        }
    } else if max.equals(green) {
        Binary32::from_u64(60).times(blue.minus(red).over(delta).plus(Binary32::from_u64(2)))
    } else {
        Binary32::from_u64(60).times(red.minus(green).over(delta).plus(Binary32::from_u64(4)))
    };
    (h, s, max)
}

fn lower(a: Binary32, b: Binary32) -> (result: Binary32)
    ensures
        result == lower_of(a, b),
{
    if b.lt(a) {
        b
    } else {
        a
    }
}

fn upper(a: Binary32, b: Binary32) -> (result: Binary32)
    ensures
        result == upper_of(a, b),
{
    if a.lt(b) {
        b
    } else {
        a
    }
}

/// Red: a hue outside the band, strong and bright enough.
pub open spec fn red(h: Binary32, s: Binary32, v: Binary32, params: SkillCheckParams) -> bool {
    &&& !(at_most(params.red_hue_min, h) && at_most(h, params.red_hue_max))
    &&& less(params.red_sat_min, s)
    &&& less(params.red_val_min, v)
}

/// White: pale and bright enough.
pub open spec fn white(s: Binary32, v: Binary32, params: SkillCheckParams) -> bool {
    less(s, params.white_sat_max) && less(params.white_val_min, v)
}

/// Whether a color belongs to the needle.
pub fn is_red_color(h: Binary32, s: Binary32, v: Binary32, params: &SkillCheckParams) -> (result:
    bool)
    ensures
        result == red(h, s, v, *params),
{
    !(params.red_hue_min.le(h) && h.le(params.red_hue_max)) && s.gt(params.red_sat_min) && v.gt(
        params.red_val_min,
    )
}

/// Whether a color belongs to the success zone.
pub fn is_white_color(
    _h: Binary32,
    s: Binary32,
    v: Binary32,
    params: &SkillCheckParams,
) -> (result: bool)
    ensures
        result == white(s, v, *params),
{
    s.lt(params.white_sat_max) && v.gt(params.white_val_min)
}

} // verus!
