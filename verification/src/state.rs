//! The state between frames, and what a frame can bring about.

use crate::angles::{is_angle, is_unwrapped, turnable_from};
use crate::binary32::Binary32;
use crate::motion::History;
use vstd::prelude::*;

verus! {

/// Tracking the needle of a wiggle, which runs back and forth.
#[derive(Debug)]
pub struct WiggleContext {
    pub last_angle: Binary32,
    pub unwrapped_angle: Binary32,
    pub history: History,
    pub angular_speed: Binary32,
    pub consecutive_misses: u32,
    pub last_click_time: Option<u64>,
}

/// Tracking the needle of a skill check towards its target.
#[derive(Debug)]
pub struct BasicContext {
    pub target_angle: Binary32,
    pub last_angle: Binary32,
    pub unwrapped_angle: Binary32,
    pub history: History,
    pub angular_speed: Binary32,
    pub has_clicked: bool,
    pub consecutive_misses: u32,
    pub click_time: Option<u64>,
}

#[derive(Debug)]
pub enum SkillCheckState {
    /// No skill check is in sight.
    InSearch,
    /// A skill check is found; its target is averaged over some frames.
    Calibrating { target_samples: Vec<Binary32>, pointer: Binary32, misses: u32 },
    Basic(BasicContext),
    Wiggle(WiggleContext),
}

/// A [`WiggleContext`] with its history as a sequence.
pub struct WiggleModel {
    pub last_angle: Binary32,
    pub unwrapped_angle: Binary32,
    pub history: Seq<(u64, Binary32)>,
    pub angular_speed: Binary32,
    pub consecutive_misses: u32,
    pub last_click_time: Option<u64>,
}

/// A [`BasicContext`] with its history as a sequence.
pub struct BasicModel {
    pub target_angle: Binary32,
    pub last_angle: Binary32,
    pub unwrapped_angle: Binary32,
    pub history: Seq<(u64, Binary32)>,
    pub angular_speed: Binary32,
    pub has_clicked: bool,
    pub consecutive_misses: u32,
    pub click_time: Option<u64>,
}

/// A [`SkillCheckState`] with sequences in place of collections.
pub enum StateModel {
    InSearch,
    Calibrating { target_samples: Seq<Binary32>, pointer: Binary32, misses: u32 },
    Basic(BasicModel),
    Wiggle(WiggleModel),
}

impl View for WiggleContext {
    type V = WiggleModel;

    open spec fn view(&self) -> WiggleModel {
        WiggleModel {
            last_angle: self.last_angle,
            unwrapped_angle: self.unwrapped_angle,
            history: self.history@,
            angular_speed: self.angular_speed,
            consecutive_misses: self.consecutive_misses,
            last_click_time: self.last_click_time,
        }
    }
}

impl View for BasicContext {
    type V = BasicModel;

    open spec fn view(&self) -> BasicModel {
        BasicModel {
            target_angle: self.target_angle,
            last_angle: self.last_angle,
            unwrapped_angle: self.unwrapped_angle,
            history: self.history@,
            angular_speed: self.angular_speed,
            has_clicked: self.has_clicked,
            consecutive_misses: self.consecutive_misses,
            click_time: self.click_time,
        }
    }
}

impl View for SkillCheckState {
    type V = StateModel;

    open spec fn view(&self) -> StateModel {
        match self {
            SkillCheckState::InSearch => StateModel::InSearch,
            SkillCheckState::Calibrating { target_samples, pointer, misses } =>
                StateModel::Calibrating {
                target_samples: target_samples@,
                pointer: *pointer,
                misses: *misses,
            },
            SkillCheckState::Basic(context) => StateModel::Basic(context@),
            SkillCheckState::Wiggle(context) => StateModel::Wiggle(context@),
        }
    }
}

/// Every sample can be turned forward.
pub open spec fn all_turnable(samples: Seq<Binary32>) -> bool {
    forall|i: int| 0 <= i < samples.len() ==> turnable_from(#[trigger] samples[i])
}

impl StateModel {
    /// The invariant: angles are in the range that frames can bring them to.
    pub open spec fn wf(self) -> bool {
        match self {
            StateModel::InSearch => true,
            StateModel::Calibrating { target_samples, .. } => all_turnable(target_samples),
            StateModel::Basic(context) => {
                &&& turnable_from(context.target_angle)
                &&& is_angle(context.last_angle)
                &&& is_unwrapped(context.unwrapped_angle)
            },
            StateModel::Wiggle(_) => true,
        }
    }

    /// How many frames in a row the widget, or its needle, was not seen.
    pub open spec fn misses(self) -> nat {
        match self {
            StateModel::InSearch => 0,
            StateModel::Calibrating { misses, .. } => misses as nat,
            StateModel::Basic(context) => context.consecutive_misses as nat,
            StateModel::Wiggle(context) => context.consecutive_misses as nat,
        }
    }

    /// A frame can be counted as one more miss: the widget is not visible, or
    /// its needle is still looked for.
    pub open spec fn may_miss(self, visible: bool) -> bool {
        !visible || self is Calibrating
    }

    /// A skill check is being followed.
    pub open spec fn active(self) -> bool {
        !(self is InSearch)
    }

    /// The needle matters: there is no click to wait for the end of.
    pub open spec fn wants_scan(self) -> bool {
        self matches StateModel::Basic(context) ==> !context.has_clicked
    }
}

impl SkillCheckState {
    /// How many frames in a row the widget, or its needle, was not seen.
    pub fn misses(&self) -> (misses: u32)
        ensures
            misses == self@.misses(),
    {
        match self {
            SkillCheckState::InSearch => 0,
            SkillCheckState::Calibrating { misses, .. } => *misses,
            SkillCheckState::Basic(context) => context.consecutive_misses,
            SkillCheckState::Wiggle(context) => context.consecutive_misses,
        }
    }
}

impl Default for SkillCheckState {
    fn default() -> (state: Self)
        ensures
            state@ == StateModel::InSearch,
    {
        SkillCheckState::InSearch
    }
}

/// Something that a frame brought about.
#[derive(Clone, Copy, PartialEq, Eq, Structural, Debug)]
pub enum FrameEvent {
    /// The skill check was not seen for too long.
    SkillcheckInactive { misses: u32 },
    /// The wiggle was not seen for too long.
    WiggleInactive { misses: u32 },
    /// The skill check was not seen for too long while calibrating.
    CalibrationLost { misses: u32 },
    /// The needle was not seen for too long while calibrating.
    CalibrationAborted {
        inner_ratio: Binary32,
        inner_threshold: Binary32,
        ring_ratio: Binary32,
        target_found: bool,
    },
    WiggleDetected { target: Binary32, pointer: Binary32 },
    SkillcheckDetected { target: Binary32, pointer: Binary32, start: Binary32, end: Binary32 },
    /// The target is settled, from so many samples.
    TargetCalibrated { target: Binary32, samples: usize },
    /// Time to press the key.
    Click { target: Binary32, pointer: Binary32, speed: Binary32 },
    /// Time to press the key, at the left or at the right end of a wiggle.
    WiggleClick { left: bool, target: Binary32, pointer: Binary32, speed: Binary32 },
}

impl FrameEvent {
    /// The key is to be pressed.
    pub open spec fn clicks(self) -> bool {
        self is Click || self is WiggleClick
    }

    /// Whether the key is to be pressed.
    pub fn is_click(&self) -> (result: bool)
        ensures
            result == self.clicks(),
    {
        match self {
            FrameEvent::Click { .. } => true,
            FrameEvent::WiggleClick { .. } => true,
            _ => false,
        }
    }
}

} // verus!
