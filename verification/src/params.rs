//! The settings in the form that the frame analysis uses.

use crate::binary32::Binary32;
use crate::binary64::narrowed;
use crate::config::Config;
use vstd::prelude::*;

verus! {

/// All tunable parameters of the frame analysis.
#[derive(Clone, Copy, Debug)]
pub struct SkillCheckParams {
    pub dark_value_threshold: Binary32,
    pub inner_enter: Binary32,
    pub inner_exit: Binary32,
    pub ring_boost: Binary32,
    pub ring_discount: Binary32,
    pub grey_v_min: Binary32,
    pub grey_v_max: Binary32,
    pub grey_s_max: Binary32,
    pub red_hue_min: Binary32,
    pub red_hue_max: Binary32,
    pub red_sat_min: Binary32,
    pub red_val_min: Binary32,
    pub white_sat_max: Binary32,
    pub white_val_min: Binary32,
    pub speed_history_min: usize,
    pub latency_ms: Binary32,
    pub calibrating_samples: usize,
    pub active_miss: usize,
    pub calibrating_miss: usize,
}

impl vstd::std_specs::convert::FromSpecImpl<&Config> for SkillCheckParams {
    open spec fn obeys_from_spec() -> bool {
        true
    }

    open spec fn from_spec(config: &Config) -> Self {
        SkillCheckParams {
            dark_value_threshold: narrowed(config.colors.dark_val),
            inner_enter: narrowed(config.detection.inner_enter),
            inner_exit: narrowed(config.detection.inner_exit),
            ring_boost: narrowed(config.detection.ring_threshold),
            ring_discount: narrowed(config.detection.ring_discount),
            grey_v_min: narrowed(config.colors.grey_val_min),
            grey_v_max: narrowed(config.colors.grey_val_max),
            grey_s_max: narrowed(config.colors.grey_sat_max),
            red_hue_min: narrowed(config.colors.red_hue_min),
            red_hue_max: narrowed(config.colors.red_hue_max),
            red_sat_min: narrowed(config.colors.red_sat_min),
            red_val_min: narrowed(config.colors.red_val_min),
            white_sat_max: narrowed(config.colors.white_sat_max),
            white_val_min: narrowed(config.colors.white_val_min),
            speed_history_min: config.timing.speed_history_min,
            latency_ms: narrowed(config.timing.latency_ms),
            calibrating_samples: config.timing.calibrating_samples,
            active_miss: config.timing.active_miss,
            calibrating_miss: config.timing.calibrating_miss,
        }
    }
}

impl From<&Config> for SkillCheckParams {
    /// Settings are kept in double precision and used in single precision.
    fn from(config: &Config) -> (params: Self) {
        SkillCheckParams {
            dark_value_threshold: config.colors.dark_val.narrow(),
            inner_enter: config.detection.inner_enter.narrow(),
            inner_exit: config.detection.inner_exit.narrow(),
            ring_boost: config.detection.ring_threshold.narrow(),
            ring_discount: config.detection.ring_discount.narrow(),
            grey_v_min: config.colors.grey_val_min.narrow(),
            grey_v_max: config.colors.grey_val_max.narrow(),
            grey_s_max: config.colors.grey_sat_max.narrow(),
            red_hue_min: config.colors.red_hue_min.narrow(),
            red_hue_max: config.colors.red_hue_max.narrow(),
            red_sat_min: config.colors.red_sat_min.narrow(),
            red_val_min: config.colors.red_val_min.narrow(),
            white_sat_max: config.colors.white_sat_max.narrow(),
            white_val_min: config.colors.white_val_min.narrow(),
            speed_history_min: config.timing.speed_history_min,
            latency_ms: config.timing.latency_ms.narrow(),
            calibrating_samples: config.timing.calibrating_samples,
            active_miss: config.timing.active_miss,
            calibrating_miss: config.timing.calibrating_miss,
        }
    }
}

} // verus!
