//! The settings, and the file that they are first written as.

use crate::binary64::{ratio, Binary64};
use vstd::prelude::*;

verus! {

/// The latency that the window offers, in milliseconds.
pub const LATENCY_MS_MIN: i32 = -100;

pub const LATENCY_MS_MAX: i32 = 500;

/// The radius that the window offers.
pub const CIRCLE_RADIUS_MIN: u32 = 10;

pub const CIRCLE_RADIUS_MAX: u32 = 500;

/// The farthest center that the window offers.
pub const CENTER_X_MAX: u32 = 7680;

pub const CENTER_Y_MAX: u32 = 4320;

/// The size of the crop that the window offers.
pub const CROP_SIZE_MIN: u32 = 50;

pub const CROP_SIZE_MAX: u32 = 2000;

/// The numbers of frames and samples that the window offers.
pub const COUNT_MIN: usize = 1;

pub const COUNT_MAX: usize = 100;

/// The largest ratio, saturation or brightness that the window offers, from 0 on.
pub const SHARE_MAX: u32 = 1;

/// The largest hue that the window offers, in degrees from 0 on.
pub const HUE_MAX: u32 = 360;

/// All settings. A section that the file leaves out has its default.
#[derive(Debug, Clone)]
pub struct Config {
    pub geometry: GeometryConfig,
    pub detection: DetectionConfig,
    pub colors: ColorConfig,
    pub timing: TimingConfig,
    pub input: InputConfig,
}

/// Where the widget is on the screen.
#[derive(Debug, Clone, Copy)]
pub struct GeometryConfig {
    pub circle_radius: u32,
    pub circle_center_x: u32,
    pub circle_center_y: u32,
    pub crop_size: u32,
}

/// When the widget counts as visible.
#[derive(Debug, Clone, Copy)]
pub struct DetectionConfig {
    pub inner_enter: Binary64,
    pub inner_exit: Binary64,
    pub ring_threshold: Binary64,
    pub ring_discount: Binary64,
}

/// Which colors count as dark, red, white and grey.
#[derive(Debug, Clone, Copy)]
pub struct ColorConfig {
    pub dark_val: Binary64,
    pub red_hue_min: Binary64,
    pub red_hue_max: Binary64,
    pub red_sat_min: Binary64,
    pub red_val_min: Binary64,
    pub white_sat_max: Binary64,
    pub white_val_min: Binary64,
    pub grey_val_min: Binary64,
    pub grey_val_max: Binary64,
    pub grey_sat_max: Binary64,
}

/// How many frames a decision takes, and how early to click.
#[derive(Debug, Clone, Copy)]
pub struct TimingConfig {
    pub speed_history_min: usize,
    pub latency_ms: Binary64,
    pub calibrating_samples: usize,
    pub active_miss: usize,
    pub calibrating_miss: usize,
}

/// What the virtual keyboard presents itself as.
#[derive(Debug, Clone)]
pub struct InputConfig {
    pub device_name: String,
    pub vendor_id: u16,
    pub product_id: u16,
}

impl GeometryConfig {
    /// The values that a fresh installation has.
    pub open spec fn is_default(self) -> bool {
        &&& self.circle_radius == 65
        &&& self.circle_center_x == 960
        &&& self.circle_center_y == 530
        &&& self.crop_size == 300
    }
}

impl GeometryConfig {
    /// Values that the window offers.
    pub open spec fn in_range(self) -> bool {
        &&& CIRCLE_RADIUS_MIN <= self.circle_radius <= CIRCLE_RADIUS_MAX
        &&& self.circle_center_x <= CENTER_X_MAX
        &&& self.circle_center_y <= CENTER_Y_MAX
        &&& CROP_SIZE_MIN <= self.crop_size <= CROP_SIZE_MAX
    }
}

impl TimingConfig {
    /// Numbers of frames and samples that the window offers.
    pub open spec fn counts_in_range(self) -> bool {
        &&& COUNT_MIN <= self.speed_history_min <= COUNT_MAX
        &&& COUNT_MIN <= self.calibrating_samples <= COUNT_MAX
        &&& COUNT_MIN <= self.active_miss <= COUNT_MAX
        &&& COUNT_MIN <= self.calibrating_miss <= COUNT_MAX
    }
}

impl DetectionConfig {
    /// The values that a fresh installation has.
    pub open spec fn is_default(self) -> bool {
        &&& self.inner_enter == ratio(75, 100)
        &&& self.inner_exit == ratio(55, 100)
        &&& self.ring_threshold == ratio(70, 100)
        &&& self.ring_discount == ratio(25, 100)
    }
}

impl ColorConfig {
    /// The values that a fresh installation has.
    pub open spec fn is_default(self) -> bool {
        &&& self.dark_val == ratio(15, 100)
        &&& self.red_hue_min == ratio(15, 1)
        &&& self.red_hue_max == ratio(345, 1)
        &&& self.red_sat_min == ratio(6, 10)
        &&& self.red_val_min == ratio(5, 10)
        &&& self.white_sat_max == ratio(15, 100)
        &&& self.white_val_min == ratio(85, 100)
        &&& self.grey_val_min == ratio(15, 100)
        &&& self.grey_val_max == ratio(85, 100)
        &&& self.grey_sat_max == ratio(30, 100)
    }
}

impl TimingConfig {
    /// The values that a fresh installation has.
    pub open spec fn is_default(self) -> bool {
        &&& self.speed_history_min == 8
        &&& self.latency_ms == ratio(20, 1)
        &&& self.calibrating_samples == 3
        &&& self.active_miss == 3
        &&& self.calibrating_miss == 2
    }
}

impl InputConfig {
    /// The values that a fresh installation has.
    pub open spec fn is_default(self) -> bool {
        &&& self.device_name@ == "Logitech USB Keyboard"@
        &&& self.vendor_id == 0x046d
        &&& self.product_id == 0xC52B
    }
}

impl Config {
    /// Every section has the values of a fresh installation.
    pub open spec fn is_default(self) -> bool {
        &&& self.geometry.is_default()
        &&& self.detection.is_default()
        &&& self.colors.is_default()
        &&& self.timing.is_default()
        &&& self.input.is_default()
    }
}

impl Default for GeometryConfig {
    fn default() -> (config: Self)
        ensures
            config.is_default(),
    {
        GeometryConfig {
            circle_radius: 65,
            circle_center_x: 960,
            circle_center_y: 530,
            crop_size: 300,
        }
    }
}

impl Default for DetectionConfig {
    fn default() -> (config: Self)
        ensures
            config.is_default(),
    {
        DetectionConfig {
            inner_enter: Binary64::from_ratio(75, 100),
            inner_exit: Binary64::from_ratio(55, 100),
            ring_threshold: Binary64::from_ratio(70, 100),
            ring_discount: Binary64::from_ratio(25, 100),
        }
    }
}

impl Default for ColorConfig {
    fn default() -> (config: Self)
        ensures
            config.is_default(),
    {
        ColorConfig {
            dark_val: Binary64::from_ratio(15, 100),
            red_hue_min: Binary64::from_ratio(15, 1),
            red_hue_max: Binary64::from_ratio(345, 1),
            red_sat_min: Binary64::from_ratio(6, 10),
            red_val_min: Binary64::from_ratio(5, 10),
            white_sat_max: Binary64::from_ratio(15, 100),
            white_val_min: Binary64::from_ratio(85, 100),
            grey_val_min: Binary64::from_ratio(15, 100),
            grey_val_max: Binary64::from_ratio(85, 100),
            grey_sat_max: Binary64::from_ratio(30, 100),
        }
    }
}

impl Default for TimingConfig {
    fn default() -> (config: Self)
        ensures
            config.is_default(),
    {
        TimingConfig {
            speed_history_min: 8,
            latency_ms: Binary64::from_ratio(20, 1),
            calibrating_samples: 3,
            active_miss: 3,
            calibrating_miss: 2,
        }
    }
}

impl Default for InputConfig {
    fn default() -> (config: Self)
        ensures
            config.is_default(),
    {
        InputConfig {
            device_name: "Logitech USB Keyboard".to_owned(),
            vendor_id: 0x046d,
            product_id: 0xC52B,
        }
    }
}

impl Default for Config {
    fn default() -> (config: Self)
        ensures
            config.is_default(),
    {
        Config {
            geometry: GeometryConfig::default(),
            detection: DetectionConfig::default(),
            colors: ColorConfig::default(),
            timing: TimingConfig::default(),
            input: InputConfig::default(),
        }
    }
}

/// The settings file that is written where there is none.
pub const DEFAULT_CONFIG_TOML: &'static str = r##"# Skillcheck circle detection geometry (resolution-dependent).
[geometry]
circle_center_x = 960
circle_center_y = 530
circle_radius = 65
# [probably you don't want to change this]
crop_size = 300

[colors]
# Minimum luminance value below which a pixel is considered "dark" (inner circle).
dark_val = 0.15
# Red pointer: hue range (hue outside this band = red), min saturation, min brightness.
red_hue_min = 15.0
red_hue_max = 345.0
red_sat_min = 0.6
red_val_min = 0.5
# White (Great) zone: max saturation, min brightness.
white_sat_max = 0.15
white_val_min = 0.85
# Grey background ring: value (brightness) min/max, max saturation.
grey_val_min = 0.15
grey_val_max = 0.85
grey_sat_max = 0.3

[timing]
# Click trigger offset (ms). Increase if late, decrease if early.
latency_ms = 20.0
# [probably you don't want to change this]
speed_history_min = 8
calibrating_samples = 3
active_miss = 3
calibrating_miss = 2

	[input]
device_name = "Logitech USB Keyboard"
vendor_id = 1133
product_id = 50475

# [probably you don't want to change this]
[detection]
inner_enter = 0.75
inner_exit = 0.55
ring_threshold = 0.7
ring_discount = 0.25
"##;

} // verus!
