//! The settings of a fresh installation.

use crate::binary32::{at_most, lemma_nearest};
use crate::binary64::{narrowed, precision, ratio, unit_exponent};
use crate::capture::geometry_fits;
use crate::config::{
    ColorConfig, Config, DetectionConfig, GeometryConfig, HUE_MAX, InputConfig, LATENCY_MS_MAX,
    LATENCY_MS_MIN, SHARE_MAX, TimingConfig,
};
use crate::laws::patterns::lemma_circle_fits;
use crate::order::{lemma_decode_order, lemma_encode_one};
use crate::params::SkillCheckParams;
use crate::pixels::{coordinates_fit, is_circle, Circle, Direction};
use crate::rounding::{decode, encode, lemma_decode, lemma_encode_decode, lemma_encode_monotone};
use vstd::arithmetic::power2::{lemma2_to64_rest, lemma_pow2_adds, lemma_pow2_pos, pow2};
use vstd::prelude::*;
use vstd::std_specs::convert::FromSpec;

verus! {

/// The double-precision encoding of 1.
proof fn lemma_wide_one()
    ensures
        encode(precision(), pow2(unit_exponent()), 1) == 0x3ff0_0000_0000_0000,
        decode(precision(), 0x3ff0_0000_0000_0000) == pow2(unit_exponent()),
{
    lemma2_to64_rest();
    lemma_pow2_adds(52, 1022);
    lemma_decode(precision(), 1022, pow2(52));
    lemma_encode_decode(precision(), 0x3ff0_0000_0000_0000);
}

/// A share of at most 1, kept in double and used in single precision, is a
/// number of at most 1.
proof fn lemma_share_narrowed(num: nat, den: nat)
    requires
        num <= den,
        den > 0,
    ensures
        ratio(num, den).magnitude() == encode(precision(), num * pow2(unit_exponent()), den),
        ratio(num, den).magnitude() <= 0x3ff0_0000_0000_0000,
        !ratio(num, den).negative(),
        narrowed(ratio(num, den)).magnitude() == encode(
            24,
            ratio(num, den).units(),
            pow2(925),
        ),
        narrowed(ratio(num, den)).finite(),
        !narrowed(ratio(num, den)).negative(),
{
    let unit = pow2(unit_exponent());
    assert(num * unit * 1 <= unit * den) by (nonlinear_arith)
        requires
            num <= den,
    ;
    lemma_wide_one();
    lemma_encode_monotone(precision(), num * unit, den, unit, 1);
    let units = ratio(num, den).units();
    lemma_decode_order(precision(), ratio(num, den).magnitude(), 0x3ff0_0000_0000_0000);
    lemma_pow2_adds(149, 925);
    lemma_pow2_pos(925);
    lemma_encode_monotone(24, units, pow2(925), pow2(149), 1);
    lemma_encode_one();
    lemma_nearest(false, units, pow2(925));
}

/// Shares keep their order.
proof fn lemma_shares_ordered(num: nat, den: nat, num2: nat, den2: nat)
    requires
        0 < den,
        0 < den2,
        num <= den,
        num2 <= den2,
        num * den2 <= num2 * den,
    ensures
        at_most(narrowed(ratio(num, den)), narrowed(ratio(num2, den2))),
{
    let unit = pow2(unit_exponent());
    lemma_share_narrowed(num, den);
    lemma_share_narrowed(num2, den2);
    assert(num * unit * den2 <= num2 * unit * den) by (nonlinear_arith)
        requires
            num * den2 <= num2 * den,
    ;
    lemma_encode_monotone(precision(), num * unit, den, num2 * unit, den2);
    let low = ratio(num, den).units();
    let high = ratio(num2, den2).units();
    lemma_decode_order(
        precision(),
        ratio(num, den).magnitude(),
        ratio(num2, den2).magnitude(),
    );
    lemma_pow2_pos(925);
    assert(low * pow2(925) <= high * pow2(925)) by (nonlinear_arith)
        requires
            low <= high,
    ;
    lemma_encode_monotone(24, low, pow2(925), high, pow2(925));
}

/// The settings of a fresh installation fit together: it takes no more to keep
/// a widget than to find one, the success zone is paler than the needle, and
/// dark, grey and white are apart in brightness.
pub proof fn lemma_defaults_fit_together(config: Config)
    requires
        config.is_default(),
    ensures
        ({
            let params = SkillCheckParams::from_spec(&config);
            &&& params.inner_enter.finite()
            &&& params.inner_exit.finite()
            &&& params.ring_discount.finite()
            &&& at_most(params.inner_exit, params.inner_enter)
            &&& at_most(params.white_sat_max, params.red_sat_min)
            &&& at_most(params.dark_value_threshold, params.grey_v_min)
            &&& at_most(params.grey_v_max, params.white_val_min)
        }),
{
    lemma_share_narrowed(75, 100);
    lemma_share_narrowed(55, 100);
    lemma_share_narrowed(25, 100);
    lemma_shares_ordered(55, 100, 75, 100);
    lemma_shares_ordered(15, 100, 6, 10);
    lemma_shares_ordered(15, 100, 15, 100);
    lemma_shares_ordered(85, 100, 85, 100);
}

/// A fresh installation has values that the window offers.
pub proof fn lemma_defaults_in_range(config: Config)
    requires
        config.is_default(),
    ensures
        config.geometry.in_range(),
        config.timing.counts_in_range(),
{
}

/// With every geometry that the window offers there is a crop, and its circle
/// has patterns.
pub proof fn lemma_offered_geometry_fits(
    geometry: GeometryConfig,
    circle: Circle,
    directions: Seq<Direction>,
)
    requires
        geometry.in_range(),
        is_circle(directions),
        circle.center.x == geometry.crop_size / 2,
        circle.center.y == geometry.crop_size / 2,
        circle.radius == geometry.circle_radius,
    ensures
        geometry_fits(geometry),
        circle.has_room(),
        coordinates_fit(circle, directions),
{
    let crop = geometry.crop_size;
    assert(crop * crop * 4 <= u32::MAX) by (nonlinear_arith)
        requires
            crop <= 2000,
    ;
    lemma_circle_fits(circle, directions);
}

/// The settings of a fresh installation, one by one.
pub proof fn lemma_default_settings(config: Config)
    requires
        config.is_default(),
    ensures
        config.geometry.circle_radius == 65,
        config.geometry.circle_center_x == 960,
        config.geometry.circle_center_y == 530,
        config.geometry.crop_size == 300,
        config.detection.inner_enter == ratio(75, 100),
        config.detection.inner_exit == ratio(55, 100),
        config.detection.ring_threshold == ratio(70, 100),
        config.detection.ring_discount == ratio(25, 100),
        config.colors.dark_val == ratio(15, 100),
        config.colors.red_hue_min == ratio(15, 1),
        config.colors.red_hue_max == ratio(345, 1),
        config.colors.red_sat_min == ratio(6, 10),
        config.colors.red_val_min == ratio(5, 10),
        config.colors.white_sat_max == ratio(15, 100),
        config.colors.white_val_min == ratio(85, 100),
        config.colors.grey_val_min == ratio(15, 100),
        config.colors.grey_val_max == ratio(85, 100),
        config.colors.grey_sat_max == ratio(30, 100),
        config.timing.speed_history_min == 8,
        config.timing.latency_ms == ratio(20, 1),
        config.timing.calibrating_samples == 3,
        config.timing.active_miss == 3,
        config.timing.calibrating_miss == 2,
        config.input.device_name@ == "Logitech USB Keyboard"@,
        config.input.vendor_id == 1133,
        config.input.product_id == 50475,
{
}

/// The default settings are those of a fresh installation, whole or by section.
pub proof fn lemma_defaults(
    config: Config,
    geometry: GeometryConfig,
    detection: DetectionConfig,
    colors: ColorConfig,
    timing: TimingConfig,
    input: InputConfig,
)
    requires
        call_ensures(Config::default, (), config),
        call_ensures(GeometryConfig::default, (), geometry),
        call_ensures(DetectionConfig::default, (), detection),
        call_ensures(ColorConfig::default, (), colors),
        call_ensures(TimingConfig::default, (), timing),
        call_ensures(InputConfig::default, (), input),
    ensures
        config.is_default(),
        geometry == config.geometry,
        detection == config.detection,
        colors == config.colors,
        timing == config.timing,
        input.device_name@ == config.input.device_name@,
        input.vendor_id == config.input.vendor_id,
        input.product_id == config.input.product_id,
{
}

/// Every parameter of the frame analysis comes from the setting of its name.
pub proof fn lemma_parameters_from_settings(config: &Config)
    ensures
        ({
            let params = SkillCheckParams::from_spec(config);
            &&& params.dark_value_threshold == narrowed(config.colors.dark_val)
            &&& params.inner_enter == narrowed(config.detection.inner_enter)
            &&& params.inner_exit == narrowed(config.detection.inner_exit)
            &&& params.ring_boost == narrowed(config.detection.ring_threshold)
            &&& params.ring_discount == narrowed(config.detection.ring_discount)
            &&& params.grey_v_min == narrowed(config.colors.grey_val_min)
            &&& params.grey_v_max == narrowed(config.colors.grey_val_max)
            &&& params.grey_s_max == narrowed(config.colors.grey_sat_max)
            &&& params.red_hue_min == narrowed(config.colors.red_hue_min)
            &&& params.red_hue_max == narrowed(config.colors.red_hue_max)
            &&& params.red_sat_min == narrowed(config.colors.red_sat_min)
            &&& params.red_val_min == narrowed(config.colors.red_val_min)
            &&& params.white_sat_max == narrowed(config.colors.white_sat_max)
            &&& params.white_val_min == narrowed(config.colors.white_val_min)
            &&& params.speed_history_min == config.timing.speed_history_min
            &&& params.latency_ms == narrowed(config.timing.latency_ms)
            &&& params.calibrating_samples == config.timing.calibrating_samples
            &&& params.active_miss == config.timing.active_miss
            &&& params.calibrating_miss == config.timing.calibrating_miss
        }),
{
}

/// The values that the window offers, one by one.
pub proof fn lemma_offered_values(geometry: GeometryConfig, timing: TimingConfig)
    ensures
        geometry.in_range() <==> {
            &&& 10 <= geometry.circle_radius <= 500
            &&& 0 <= geometry.circle_center_x <= 7680
            &&& 0 <= geometry.circle_center_y <= 4320
            &&& 50 <= geometry.crop_size <= 2000
        },
        timing.counts_in_range() <==> {
            &&& 1 <= timing.speed_history_min <= 100
            &&& 1 <= timing.calibrating_samples <= 100
            &&& 1 <= timing.active_miss <= 100
            &&& 1 <= timing.calibrating_miss <= 100
        },
        LATENCY_MS_MIN == -100 && LATENCY_MS_MAX == 500,
        SHARE_MAX == 1 && HUE_MAX == 360,
{
}

} // verus!
