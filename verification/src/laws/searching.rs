//! What a frame brings about while a widget is searched for, calibrated or
//! missed, in numbers.

use crate::binary32::{integer, less, quotient_of, sum_of, Binary32};
use crate::params::SkillCheckParams;
use crate::reading::Reading;
use crate::scan::{is_wiggle, set_between, wiggle};
use crate::skillcheck_logic::{frame_step, pointer_of, sample_sum, step};
use crate::state::{BasicModel, FrameEvent, StateModel, WiggleModel};
use vstd::prelude::*;
use vstd::set_lib::lemma_set_disjoint_lens;

verus! {

/// The degrees from `low` to before `high` that are set.
pub open spec fn set_degrees(mask: Seq<bool>, low: int, high: int) -> Set<int> {
    Set::new(|degree: int| low <= degree < high && mask[degree])
}

/// Counting set degrees counts each of them once.
pub proof fn lemma_set_counted(mask: Seq<bool>, low: int, high: int)
    ensures
        set_degrees(mask, low, high).finite(),
        set_degrees(mask, low, high).len() == set_between(mask, low, high),
    decreases high - low,
{
    let all = set_degrees(mask, low, high);
    if high <= low {
        assert(all =~= Set::empty());
    } else {
        lemma_set_counted(mask, low, high - 1);
        let before = set_degrees(mask, low, high - 1);
        if mask[high - 1] {
            assert(all =~= before.insert(high - 1));
        } else {
            assert(all =~= before);
        }
    }
}

/// A wiggle shows in white at both ends: more than five degrees on the left,
/// from 160 to 200, and more than five on the right, from 340 over 0 to 20.
pub open spec fn white_at_both_ends(mask: Seq<bool>) -> bool {
    &&& set_degrees(mask, 160, 200).len() >= 6
    &&& set_degrees(mask, 340, 360).union(set_degrees(mask, 0, 20)).len() >= 6
}

proof fn lemma_white_at_both_ends(mask: Seq<bool>)
    ensures
        white_at_both_ends(mask) <==> wiggle(mask),
{
    lemma_set_counted(mask, 160, 200);
    lemma_set_counted(mask, 340, 360);
    lemma_set_counted(mask, 0, 20);
    lemma_set_disjoint_lens(
        set_degrees(mask, 340, 360),
        set_degrees(mask, 0, 20),
    );
}

/// A pattern of white degrees is taken for a wiggle's exactly if there is
/// enough white at both ends.
pub proof fn lemma_wiggle_pattern(is_white: &[bool; 360], result: bool)
    requires
        call_ensures(is_wiggle, (is_white,), result),
    ensures
        result <==> white_at_both_ends(is_white@),
{
    lemma_white_at_both_ends(is_white@);
}

/// Nothing is taken up without a zone and a needle.
pub proof fn lemma_nothing_taken_up(
    reading: Reading,
    pointer: Option<Binary32>,
    now: u64,
    params: SkillCheckParams,
)
    requires
        reading.visible,
        reading.scan is Some,
        reading.scan->0.target_angle is None || pointer is None,
    ensures
        step(StateModel::InSearch, reading, pointer, now, params) == (
            StateModel::InSearch,
            None::<FrameEvent>,
        ),
{
    reveal(step);
}

/// White at both ends begins a wiggle, wherever its needle is: with the needle
/// as its first position, no speed yet and no click.
pub proof fn lemma_wiggle_begins(
    reading: Reading,
    pointer: Binary32,
    now: u64,
    params: SkillCheckParams,
)
    requires
        reading.visible,
        reading.scan is Some,
        reading.scan->0.target_angle is Some,
        white_at_both_ends(reading.scan->0.is_white),
    ensures
        step(StateModel::InSearch, reading, Some(pointer), now, params) == (
            StateModel::Wiggle(
                WiggleModel {
                    last_angle: pointer,
                    unwrapped_angle: pointer,
                    history: seq![(now, pointer)],
                    angular_speed: integer(0),
                    consecutive_misses: 0,
                    last_click_time: None,
                },
            ),
            Some(
                FrameEvent::WiggleDetected {
                    target: reading.scan->0.target_angle->0,
                    pointer,
                },
            ),
        ),
{
    reveal(step);
    lemma_white_at_both_ends(reading.scan->0.is_white);
}

/// Otherwise a needle below 25 or above 345 degrees begins a skill check, with
/// its zone as the first sample; a needle anywhere else begins nothing.
pub proof fn lemma_skill_check_begins(
    reading: Reading,
    pointer: Binary32,
    now: u64,
    params: SkillCheckParams,
)
    requires
        reading.visible,
        reading.scan is Some,
        reading.scan->0.target_angle is Some,
        !white_at_both_ends(reading.scan->0.is_white),
    ensures
        ({
            let (next, event) = step(StateModel::InSearch, reading, Some(pointer), now, params);
            let scan = reading.scan->0;
            let edges = scan.edges->0;
            &&& less(pointer, integer(25)) || less(integer(345), pointer) ==> {
                &&& next == StateModel::Calibrating {
                    target_samples: seq![scan.target_angle->0],
                    pointer,
                    misses: 0,
                }
                &&& scan.edges is Some ==> event == Some(
                    FrameEvent::SkillcheckDetected {
                        target: scan.target_angle->0,
                        pointer,
                        start: edges.0,
                        end: edges.1,
                    },
                )
                &&& scan.edges is None ==> event is None
            }
            &&& !less(pointer, integer(25)) && !less(integer(345), pointer) ==> next is InSearch
                && event is None
        }),
{
    reveal(step);
    lemma_white_at_both_ends(reading.scan->0.is_white);
}

/// Sums of more and more samples, from none to all.
pub open spec fn are_sums(sums: Seq<Binary32>, samples: Seq<Binary32>) -> bool {
    &&& sums.len() == samples.len() + 1
    &&& sums[0] == integer(0)
    &&& forall|i: int|
        0 <= i < samples.len() ==> #[trigger] sums[i + 1] == sum_of(sums[i], samples[i])
}

proof fn lemma_sums(sums: Seq<Binary32>, samples: Seq<Binary32>, end: int)
    requires
        are_sums(sums, samples),
        0 <= end <= samples.len(),
    ensures
        sums[end] == sample_sum(samples, end),
    decreases end,
{
    if end > 0 {
        lemma_sums(sums, samples, end - 1);
        assert(sums[end - 1 + 1] == sum_of(sums[end - 1], samples[end - 1]));
    }
}

/// The samples so far, and the zone of this frame where one was found.
pub open spec fn is_extended(
    samples: Seq<Binary32>,
    before: Seq<Binary32>,
    reading: Reading,
) -> bool {
    let found = reading.scan is Some && reading.scan->0.target_angle is Some;
    &&& found ==> samples == before.push(reading.scan->0.target_angle->0)
    &&& !found ==> samples == before
}

/// With enough samples calibrating is over: the target is their sum divided by
/// their number, and the needle is tracked from where it is.
pub proof fn lemma_calibration_settles(
    state: StateModel,
    reading: Reading,
    pointer: Binary32,
    now: u64,
    params: SkillCheckParams,
    samples: Seq<Binary32>,
    sums: Seq<Binary32>,
)
    requires
        reading.visible,
        state is Calibrating,
        is_extended(samples, state->target_samples, reading),
        samples.len() >= params.calibrating_samples,
        are_sums(sums, samples),
    ensures
        step(state, reading, Some(pointer), now, params) == (
            StateModel::Basic(
                BasicModel {
                    target_angle: quotient_of(sums.last(), integer(samples.len() as int)),
                    last_angle: pointer,
                    unwrapped_angle: pointer,
                    history: seq![(now, pointer)],
                    angular_speed: integer(0),
                    has_clicked: false,
                    consecutive_misses: 0,
                    click_time: None,
                },
            ),
            Some(
                FrameEvent::TargetCalibrated {
                    target: quotient_of(sums.last(), integer(samples.len() as int)),
                    samples: samples.len() as usize,
                },
            ),
        ),
{
    reveal(step);
    lemma_sums(sums, samples, samples.len() as int);
}

/// With too few samples calibrating goes on, with this frame's sample kept, the
/// needle where it is, and no miss.
pub proof fn lemma_calibration_goes_on(
    state: StateModel,
    reading: Reading,
    pointer: Binary32,
    now: u64,
    params: SkillCheckParams,
    samples: Seq<Binary32>,
)
    requires
        reading.visible,
        state is Calibrating,
        is_extended(samples, state->target_samples, reading),
        samples.len() < params.calibrating_samples,
    ensures
        step(state, reading, Some(pointer), now, params) == (
            StateModel::Calibrating { target_samples: samples, pointer, misses: 0 },
            None::<FrameEvent>,
        ),
{
    reveal(step);
}

/// A frame without a needle is a miss of calibrating; too many of them in a row
/// end it.
pub proof fn lemma_calibration_misses_needle(
    state: StateModel,
    reading: Reading,
    now: u64,
    params: SkillCheckParams,
)
    requires
        reading.visible,
        state is Calibrating,
        state->misses < u32::MAX,
    ensures
        ({
            let (next, event) = step(state, reading, None, now, params);
            &&& state->misses + 1 >= params.calibrating_miss ==> next is InSearch && event == Some(
                FrameEvent::CalibrationAborted {
                    inner_ratio: reading.inner_ratio,
                    inner_threshold: reading.inner_threshold,
                    ring_ratio: reading.ring_ratio,
                    target_found: reading.scan is Some && reading.scan->0.target_angle is Some,
                },
            )
            &&& state->misses + 1 < params.calibrating_miss ==> event is None && next
                == StateModel::Calibrating {
                target_samples: state->target_samples,
                pointer: state->pointer,
                misses: (state->misses + 1) as u32,
            }
        }),
{
    reveal(step);
}

/// A frame in which the widget is not visible is a miss, and nothing else; too
/// many of them in a row end what was going on.
pub proof fn lemma_widget_missed(
    state: StateModel,
    reading: Reading,
    pointer: Option<Binary32>,
    now: u64,
    params: SkillCheckParams,
)
    requires
        !reading.visible,
    ensures
        ({
            let (next, event) = step(state, reading, pointer, now, params);
            &&& state is InSearch ==> next is InSearch && event is None
            &&& state is Calibrating && state->misses < u32::MAX ==> {
                let misses = state->misses + 1;
                if misses >= params.calibrating_miss {
                    next is InSearch && event == Some(
                        FrameEvent::CalibrationLost { misses: misses as u32 },
                    )
                } else {
                    event is None && next == StateModel::Calibrating {
                        target_samples: state->target_samples,
                        pointer: state->pointer,
                        misses: misses as u32,
                    }
                }
            }
            &&& state is Basic && state->Basic_0.consecutive_misses < u32::MAX ==> {
                let misses = state->Basic_0.consecutive_misses + 1;
                if misses >= params.active_miss {
                    next is InSearch && event == Some(
                        FrameEvent::SkillcheckInactive { misses: misses as u32 },
                    )
                } else {
                    event is None && next == StateModel::Basic(
                        BasicModel { consecutive_misses: misses as u32, ..state->Basic_0 },
                    )
                }
            }
            &&& state is Wiggle && state->Wiggle_0.consecutive_misses < u32::MAX ==> {
                let misses = state->Wiggle_0.consecutive_misses + 1;
                if misses >= params.active_miss {
                    next is InSearch && event == Some(
                        FrameEvent::WiggleInactive { misses: misses as u32 },
                    )
                } else {
                    event is None && next == StateModel::Wiggle(
                        WiggleModel { consecutive_misses: misses as u32, ..state->Wiggle_0 },
                    )
                }
            }
        }),
{
    reveal(step);
}

/// A click is dated with the time after it, and that is all that a whole frame
/// adds to what its reading brings about.
pub proof fn lemma_click_is_dated(
    state: StateModel,
    reading: Reading,
    radians: Option<Binary32>,
    now: u64,
    after: u64,
    params: SkillCheckParams,
)
    ensures
        ({
            let (plain, event) = step(state, reading, pointer_of(radians), now, params);
            let (next, reported) = frame_step(state, reading, radians, now, after, params);
            let clicked = event is Some && (event->0 is Click || event->0 is WiggleClick);
            &&& reported == event
            &&& !clicked ==> next == plain
            &&& clicked && plain is Basic ==> next == StateModel::Basic(
                BasicModel { click_time: Some(after), ..plain->Basic_0 },
            )
            &&& clicked && plain is Wiggle ==> next == StateModel::Wiggle(
                WiggleModel { last_click_time: Some(after), ..plain->Wiggle_0 },
            )
            &&& clicked ==> plain is Basic || plain is Wiggle
        }),
{
    reveal(step);
}

} // verus!
