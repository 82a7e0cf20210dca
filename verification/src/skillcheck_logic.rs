//! Deciding when to click.
//!
//! The reading of a frame moves the state on: from searching over calibrating
//! to tracking the needle, and to the click.

use crate::angles::{
    at_most_full, is_angle, lemma_angle_unwrapped, lemma_degrees_in_range, lemma_forward_step,
    lemma_reaches, lemma_share_turnable, lemma_sums_bounded, lemma_turnable_added,
    lemma_unwrapped_turnable, not_below, turnable_from,
};
use crate::binary32::{
    absolute_of, at_most, difference_of, integer, less, quotient_of, ratio, sum_of, Binary32,
};
use crate::bounds::lemma_zero;
use crate::input::{press_key, read_clock, Clock, InputEmulatorBackend};
use crate::motion::{
    ahead_of, angle_between, compute_speed_least_squares, degrees_of, elapsed, is_arc,
    least_squares_slope, nanos_between, needle_degrees, reaches, shorter_way, unwrap_target,
    History,
};
use crate::params::SkillCheckParams;
use crate::pixels::{is_circle, Direction, Pixel};
use crate::reading::{
    lemma_reading_suits, read_frame, reading_of, takes_sweep, FrameReading, Reading,
};
use crate::scan::{is_wiggle, offsets_fit, red_mask, wiggle, AngleScan, Sweep};
use crate::state::{
    all_turnable, BasicContext, BasicModel, FrameEvent, SkillCheckState, StateModel, WiggleContext,
    WiggleModel,
};
use std::collections::VecDeque;
use vstd::prelude::*;

verus! {

/// One more miss in a row.
pub open spec fn one_more(misses: u32) -> u32 {
    (misses + 1) as u32
}

/// A frame in which the widget is not visible: a few of them are let pass.
pub open spec fn after_miss(state: StateModel, params: SkillCheckParams) -> (
    StateModel,
    Option<FrameEvent>,
) {
    match state {
        StateModel::InSearch => (state, None),
        StateModel::Calibrating { target_samples, pointer, misses } => {
            let misses = one_more(misses);
            if misses >= params.calibrating_miss {
                (StateModel::InSearch, Some(FrameEvent::CalibrationLost { misses }))
            } else {
                (StateModel::Calibrating { target_samples, pointer, misses }, None)
            }
        },
        StateModel::Basic(context) => {
            let misses = one_more(context.consecutive_misses);
            if misses >= params.active_miss {
                (StateModel::InSearch, Some(FrameEvent::SkillcheckInactive { misses }))
            } else {
                (StateModel::Basic(BasicModel { consecutive_misses: misses, ..context }), None)
            }
        },
        StateModel::Wiggle(context) => {
            let misses = one_more(context.consecutive_misses);
            if misses >= params.active_miss {
                (StateModel::InSearch, Some(FrameEvent::WiggleInactive { misses }))
            } else {
                (StateModel::Wiggle(WiggleModel { consecutive_misses: misses, ..context }), None)
            }
        },
    }
}

/// A needle near the top, where a skill check begins.
pub open spec fn at_start(pointer: Binary32) -> bool {
    less(pointer, integer(25)) || less(integer(345), pointer)
}

/// Searching: a zone and a needle begin a wiggle, or a skill check with its
/// needle at the start.
pub open spec fn after_search(scan: Sweep, pointer: Option<Binary32>, now: u64) -> (
    StateModel,
    Option<FrameEvent>,
) {
    match (scan.target_angle, pointer) {
        (Some(target), Some(pointer)) => if wiggle(scan.is_white) {
            (
                StateModel::Wiggle(
                    WiggleModel {
                        last_angle: pointer,
                        unwrapped_angle: pointer,
                        history: seq![(now, pointer)],
                        angular_speed: integer(0),
                        consecutive_misses: 0,
                        last_click_time: None,
                    },
                ),
                Some(FrameEvent::WiggleDetected { target, pointer }),
            )
        } else if !at_start(pointer) {
            (StateModel::InSearch, None)
        } else {
            (
                StateModel::Calibrating { target_samples: seq![target], pointer, misses: 0 },
                match scan.edges {
                    Some((start, end)) => Some(
                        FrameEvent::SkillcheckDetected { target, pointer, start, end },
                    ),
                    None => None,
                },
            )
        },
        _ => (StateModel::InSearch, None),
    }
}

/// The samples below `end`, added up.
pub open spec fn sample_sum(samples: Seq<Binary32>, end: int) -> Binary32
    decreases end,
{
    if end <= 0 {
        integer(0)
    } else {
        sum_of(sample_sum(samples, end - 1), samples[end - 1])
    }
}

/// The mean of all samples.
pub open spec fn sample_mean(samples: Seq<Binary32>) -> Binary32 {
    quotient_of(sample_sum(samples, samples.len() as int), integer(samples.len() as int))
}

/// The samples with one more, where there is one.
pub open spec fn with_sample(samples: Seq<Binary32>, target: Option<Binary32>) -> Seq<Binary32> {
    match target {
        Some(target) => samples.push(target),
        None => samples,
    }
}

/// Calibrating: targets are collected until there are enough to settle on their mean.
pub open spec fn after_calibration(
    samples: Seq<Binary32>,
    init_pointer: Binary32,
    misses: u32,
    reading: Reading,
    pointer: Option<Binary32>,
    now: u64,
    params: SkillCheckParams,
) -> (StateModel, Option<FrameEvent>) {
    match pointer {
        Some(pointer) => {
            let samples = with_sample(samples, reading.target());
            if samples.len() >= params.calibrating_samples {
                let mean = sample_mean(samples);
                (
                    StateModel::Basic(
                        BasicModel {
                            target_angle: mean,
                            last_angle: pointer,
                            unwrapped_angle: pointer,
                            history: seq![(now, pointer)],
                            angular_speed: integer(0),
                            has_clicked: false,
                            consecutive_misses: 0,
                            click_time: None,
                        },
                    ),
                    Some(
                        FrameEvent::TargetCalibrated {
                            target: mean,
                            samples: samples.len() as usize,
                        },
                    ),
                )
            } else {
                (StateModel::Calibrating { target_samples: samples, pointer, misses: 0 }, None)
            }
        },
        None => {
            let misses = one_more(misses);
            if misses >= params.calibrating_miss {
                (
                    StateModel::InSearch,
                    Some(
                        FrameEvent::CalibrationAborted {
                            inner_ratio: reading.inner_ratio,
                            inner_threshold: reading.inner_threshold,
                            ring_ratio: reading.ring_ratio,
                            target_found: reading.target() is Some,
                        },
                    ),
                )
            } else {
                (
                    StateModel::Calibrating {
                        target_samples: samples,
                        pointer: init_pointer,
                        misses,
                    },
                    None,
                )
            }
        },
    }
}

/// At least so many whole milliseconds lie between two clock readings.
pub open spec fn has_passed(from: u64, to: u64, milliseconds: nat) -> bool {
    elapsed(from, to) as nat / 1_000_000 >= milliseconds
}

/// A measured speed is taken over if it is positive and below a limit;
/// otherwise the last one stays.
pub open spec fn updated_speed(
    speed: Binary32,
    history: Seq<(u64, Binary32)>,
    needed: nat,
    limit: nat,
) -> Binary32 {
    if history.len() >= needed {
        match least_squares_slope(history) {
            Some(measured) => if less(integer(0), measured) && less(measured, integer(limit as int)) {
                measured
            } else {
                speed
            },
            None => speed,
        }
    } else {
        speed
    }
}

/// A skill check's context after the needle moved forward.
pub open spec fn advanced(
    context: BasicModel,
    pointer: Binary32,
    now: u64,
    params: SkillCheckParams,
) -> BasicModel {
    let angle = sum_of(context.unwrapped_angle, shorter_way(context.last_angle, pointer));
    let history = context.history.push((now, angle));
    BasicModel {
        last_angle: pointer,
        unwrapped_angle: angle,
        history,
        angular_speed: updated_speed(
            context.angular_speed,
            history,
            params.speed_history_min as nat,
            2,
        ),
        ..context
    }
}

/// The degrees from the needle to its target.
pub open spec fn way_to_go(context: BasicModel) -> Binary32 {
    difference_of(
        ahead_of(context.target_angle, context.unwrapped_angle),
        context.unwrapped_angle,
    )
}

/// The needle moves, is short of its target, and reaches it within the latency.
pub open spec fn is_due(context: BasicModel, params: SkillCheckParams) -> bool {
    &&& less(integer(0), context.angular_speed)
    &&& less(integer(0), way_to_go(context))
    &&& at_most(quotient_of(way_to_go(context), context.angular_speed), params.latency_ms)
}

/// Tracking a skill check: the needle is followed forward, and the click comes
/// when its target is due. After the click the widget is waited out.
pub open spec fn after_tracking(
    context: BasicModel,
    pointer: Option<Binary32>,
    now: u64,
    params: SkillCheckParams,
) -> (StateModel, Option<FrameEvent>) {
    if context.has_clicked {
        match context.click_time {
            Some(time) if has_passed(time, now, 200) => (StateModel::InSearch, None),
            _ => (StateModel::Basic(context), None),
        }
    } else {
        match pointer {
            None => (StateModel::Basic(context), None),
            Some(pointer) => if at_most(shorter_way(context.last_angle, pointer), integer(0)) {
                (StateModel::Basic(BasicModel { last_angle: pointer, ..context }), None)
            } else {
                let next = advanced(context, pointer, now, params);
                if is_due(next, params) {
                    (
                        StateModel::Basic(BasicModel { has_clicked: true, ..next }),
                        Some(
                            FrameEvent::Click {
                                target: next.target_angle,
                                pointer,
                                speed: next.angular_speed,
                            },
                        ),
                    )
                } else {
                    (StateModel::Basic(next), None)
                }
            },
        }
    }
}

/// A wiggle's context after the needle moved, either way.
pub open spec fn swung(context: WiggleModel, pointer: Binary32, now: u64) -> WiggleModel {
    let angle = sum_of(
        context.unwrapped_angle,
        absolute_of(shorter_way(context.last_angle, pointer)),
    );
    let history = context.history.push((now, angle));
    let kept = if history.len() > 15 {
        history.skip(1)
    } else {
        history
    };
    WiggleModel {
        last_angle: pointer,
        unwrapped_angle: angle,
        history: kept,
        angular_speed: updated_speed(context.angular_speed, kept, 3, 3),
        ..context
    }
}

/// The end that the needle of a wiggle runs towards: right at 0, left at 180 degrees.
pub open spec fn wiggle_target(way: Binary32) -> Binary32 {
    if less(integer(0), way) {
        integer(0)
    } else {
        integer(180)
    }
}

/// The needle of a wiggle runs towards its end, reaches it within the latency,
/// and the last click is long enough ago.
pub open spec fn wiggle_is_due(
    context: WiggleModel,
    way: Binary32,
    now: u64,
    params: SkillCheckParams,
) -> bool {
    let to_go = shorter_way(context.last_angle, wiggle_target(way));
    &&& (less(integer(0), way) && less(integer(0), to_go)) || (less(way, integer(0)) && less(
        to_go,
        integer(0),
    ))
    &&& less(integer(0), context.angular_speed)
    &&& context.last_click_time matches Some(time) ==> has_passed(time, now, 250)
    &&& at_most(quotient_of(absolute_of(to_go), context.angular_speed), params.latency_ms)
}

/// Tracking a wiggle: the needle is followed both ways, and every arrival at an
/// end is clicked.
pub open spec fn after_swing(
    context: WiggleModel,
    pointer: Option<Binary32>,
    now: u64,
    params: SkillCheckParams,
) -> (StateModel, Option<FrameEvent>) {
    match pointer {
        None => (StateModel::Wiggle(context), None),
        Some(pointer) => {
            let way = shorter_way(context.last_angle, pointer);
            if less(absolute_of(way), ratio(1, 1000)) {
                (StateModel::Wiggle(context), None)
            } else {
                let next = swung(context, pointer, now);
                (
                    StateModel::Wiggle(next),
                    if wiggle_is_due(next, way, now, params) {
                        Some(
                            FrameEvent::WiggleClick {
                                left: !less(integer(0), way),
                                target: wiggle_target(way),
                                pointer,
                                speed: next.angular_speed,
                            },
                        )
                    } else {
                        None
                    },
                )
            }
        },
    }
}

/// What a frame makes of a state, and what it brings about.
#[verifier::opaque]
pub open spec fn step(
    state: StateModel,
    reading: Reading,
    pointer: Option<Binary32>,
    now: u64,
    params: SkillCheckParams,
) -> (StateModel, Option<FrameEvent>) {
    if !reading.visible {
        after_miss(state, params)
    } else {
        match state {
            StateModel::InSearch => after_search(reading.scan->0, pointer, now),
            StateModel::Calibrating { target_samples, pointer: init_pointer, misses } =>
                after_calibration(
                target_samples,
                init_pointer,
                misses,
                reading,
                pointer,
                now,
                params,
            ),
            StateModel::Basic(context) => after_tracking(
                BasicModel { consecutive_misses: 0, ..context },
                pointer,
                now,
                params,
            ),
            StateModel::Wiggle(context) => after_swing(
                WiggleModel { consecutive_misses: 0, ..context },
                pointer,
                now,
                params,
            ),
        }
    }
}

/// Lets a frame pass in which the widget is not visible.
fn miss(state: SkillCheckState, params: &SkillCheckParams) -> (result: (
    SkillCheckState,
    Option<FrameEvent>,
))
    requires
        state@.wf(),
        state@.misses() < u32::MAX,
    ensures
        (result.0@, result.1) == after_miss(state@, *params),
        result.0@.wf(),
{
    match state {
        SkillCheckState::InSearch => (SkillCheckState::InSearch, None),
        SkillCheckState::Calibrating { target_samples, pointer, misses } => {
            let misses: u32 = misses + 1;
            if misses as usize >= params.calibrating_miss {
                (SkillCheckState::InSearch, Some(FrameEvent::CalibrationLost { misses }))
            } else {
                (SkillCheckState::Calibrating { target_samples, pointer, misses }, None)
            }
        },
        SkillCheckState::Basic(mut context) => {
            context.consecutive_misses = context.consecutive_misses + 1;
            let misses: u32 = context.consecutive_misses;
            if misses as usize >= params.active_miss {
                (SkillCheckState::InSearch, Some(FrameEvent::SkillcheckInactive { misses }))
            } else {
                (SkillCheckState::Basic(context), None)
            }
        },
        SkillCheckState::Wiggle(mut context) => {
            context.consecutive_misses = context.consecutive_misses + 1;
            let misses: u32 = context.consecutive_misses;
            if misses as usize >= params.active_miss {
                (SkillCheckState::InSearch, Some(FrameEvent::WiggleInactive { misses }))
            } else {
                (SkillCheckState::Wiggle(context), None)
            }
        },
    }
}

/// A history that begins with one position.
fn begin_history(now: u64, pointer: Binary32) -> (history: History)
    ensures
        history@ == seq![(now, pointer)],
{
    let mut history: History = VecDeque::new();
    history.push_back((now, pointer));
    history
}

/// Looks for a skill check or a wiggle in a sweep.
fn search(scan: &AngleScan, pointer: Option<Binary32>, now: u64) -> (result: (
    SkillCheckState,
    Option<FrameEvent>,
))
    requires
        scan@.target_angle matches Some(target) ==> turnable_from(target),
    ensures
        (result.0@, result.1) == after_search(scan@, pointer, now),
        result.0@.wf(),
{
    let (target, pointer): (Binary32, Binary32) = match (scan.target_angle, pointer) {
        (Some(target), Some(pointer)) => (target, pointer),
        _ => {
            return (SkillCheckState::InSearch, None);
        },
    };
    if is_wiggle(&scan.is_white) {
        let context = WiggleContext {
            last_angle: pointer,
            unwrapped_angle: pointer,
            history: begin_history(now, pointer),
            angular_speed: Binary32::from_u64(0),
            consecutive_misses: 0,
            last_click_time: None,
        };
        return (
            SkillCheckState::Wiggle(context),
            Some(FrameEvent::WiggleDetected { target, pointer }),
        );
    }
    if !(pointer.lt(Binary32::from_u64(25)) || pointer.gt(Binary32::from_u64(345))) {
        return (SkillCheckState::InSearch, None);
    }
    let event: Option<FrameEvent> = match scan.edges {
        Some((start, end)) => Some(FrameEvent::SkillcheckDetected { target, pointer, start, end }),
        None => None,
    };
    let mut target_samples: Vec<Binary32> = Vec::new();
    target_samples.push(target);
    assert(target_samples@ == seq![target]);
    (SkillCheckState::Calibrating { target_samples, pointer, misses: 0 }, event)
}

/// The mean of all samples.
fn mean_of(samples: &Vec<Binary32>) -> (mean: Binary32)
    requires
        all_turnable(samples@),
    ensures
        mean == sample_mean(samples@),
        turnable_from(mean),
{
    let mut total: Binary32 = Binary32::from_u64(0);
    let mut i: usize = 0;
    proof {
        lemma_zero();
    }
    while i < samples.len()
        invariant
            i <= samples@.len(),
            total == sample_sum(samples@, i as int),
            not_below(total, at_most_full(i as nat)),
            all_turnable(samples@),
        decreases samples@.len() - i,
    {
        proof {
            lemma_turnable_added(total, i as nat, samples@[i as int]);
        }
        total = total.plus(samples[i]);
        i = i + 1;
    }
    proof {
        lemma_share_turnable(total, samples@.len());
    }
    total.over(Binary32::from_u64(samples.len() as u64))
}

/// Collects one more target, and settles on their mean when there are enough.
fn calibrate(
    samples: Vec<Binary32>,
    init_pointer: Binary32,
    misses: u32,
    reading: &FrameReading,
    pointer: Option<Binary32>,
    now: u64,
    params: &SkillCheckParams,
) -> (result: (SkillCheckState, Option<FrameEvent>))
    requires
        misses < u32::MAX,
        all_turnable(samples@),
        reading@.target() matches Some(target) ==> turnable_from(target),
        pointer matches Some(pointer) ==> is_angle(pointer),
    ensures
        (result.0@, result.1) == after_calibration(
            samples@,
            init_pointer,
            misses,
            reading@,
            pointer,
            now,
            *params,
        ),
        result.0@.wf(),
{
    let target: Option<Binary32> = reading.target();
    let pointer: Binary32 = match pointer {
        Some(pointer) => pointer,
        None => {
            let misses: u32 = misses + 1;
            if misses as usize >= params.calibrating_miss {
                return (
                    SkillCheckState::InSearch,
                    Some(
                        FrameEvent::CalibrationAborted {
                            inner_ratio: reading.inner_ratio,
                            inner_threshold: reading.inner_threshold,
                            ring_ratio: reading.ring_ratio,
                            target_found: target.is_some(),
                        },
                    ),
                );
            }
            return (
                SkillCheckState::Calibrating {
                    target_samples: samples,
                    pointer: init_pointer,
                    misses,
                },
                None,
            );
        },
    };
    let mut samples = samples;
    if let Some(target) = target {
        samples.push(target);
    }
    let count: usize = samples.len();
    if count < params.calibrating_samples {
        return (SkillCheckState::Calibrating { target_samples: samples, pointer, misses: 0 }, None);
    }
    let mean: Binary32 = mean_of(&samples);
    proof {
        lemma_angle_unwrapped(pointer);
    }
    let context = BasicContext {
        target_angle: mean,
        last_angle: pointer,
        unwrapped_angle: pointer,
        history: begin_history(now, pointer),
        angular_speed: Binary32::from_u64(0),
        has_clicked: false,
        consecutive_misses: 0,
        click_time: None,
    };
    (
        SkillCheckState::Basic(context),
        Some(FrameEvent::TargetCalibrated { target: mean, samples: count }),
    )
}

/// Measures the speed anew, and keeps the last one where that gives nothing usable.
fn measure_speed(speed: Binary32, history: &History, needed: usize, limit: u64) -> (result: Binary32)
    ensures
        result == updated_speed(speed, history@, needed as nat, limit as nat),
{
    if history.len() >= needed {
        if let Some(measured) = compute_speed_least_squares(history) {
            if measured.gt(Binary32::from_u64(0)) && measured.lt(Binary32::from_u64(limit)) {
                return measured;
            }
        }
    }
    speed
}

/// Whether so many whole milliseconds have passed.
fn passed(from: u64, to: u64, milliseconds: u64) -> (result: bool)
    ensures
        result == has_passed(from, to, milliseconds as nat),
{
    nanos_between(from, to) / 1_000_000 >= milliseconds
}

/// Follows the needle of a skill check, and decides on the click.
fn track(
    context: BasicContext,
    pointer: Option<Binary32>,
    now: u64,
    params: &SkillCheckParams,
) -> (result: (SkillCheckState, Option<FrameEvent>))
    requires
        StateModel::Basic(context@).wf(),
        pointer matches Some(pointer) ==> is_angle(pointer),
    ensures
        (result.0@, result.1) == after_tracking(context@, pointer, now, *params),
        result.0@.wf(),
{
    let mut context = context;
    if context.has_clicked {
        if let Some(time) = context.click_time {
            if passed(time, now, 200) {
                return (SkillCheckState::InSearch, None);
            }
        }
        return (SkillCheckState::Basic(context), None);
    }
    let pointer: Binary32 = match pointer {
        Some(pointer) => pointer,
        None => {
            return (SkillCheckState::Basic(context), None);
        },
    };
    let ghost last = context.last_angle;
    let way: Binary32 = angle_between(context.last_angle, pointer);
    context.last_angle = pointer;
    if way.le(Binary32::from_u64(0)) {
        return (SkillCheckState::Basic(context), None);
    }
    let ghost before = context.unwrapped_angle;
    context.unwrapped_angle = context.unwrapped_angle.plus(way);
    context.history.push_back((now, context.unwrapped_angle));
    context.angular_speed = measure_speed(
        context.angular_speed,
        &context.history,
        params.speed_history_min,
        2,
    );
    proof {
        lemma_forward_step(before, last, pointer);
        lemma_unwrapped_turnable(context.unwrapped_angle);
        lemma_reaches(context.target_angle, context.unwrapped_angle);
    }
    if context.angular_speed.gt(Binary32::from_u64(0)) {
        let to_go: Binary32 = unwrap_target(context.target_angle, context.unwrapped_angle).minus(
            context.unwrapped_angle,
        );
        if to_go.gt(Binary32::from_u64(0)) && to_go.over(context.angular_speed).le(
            params.latency_ms,
        ) {
            let event = FrameEvent::Click {
                target: context.target_angle,
                pointer,
                speed: context.angular_speed,
            };
            context.has_clicked = true;
            return (SkillCheckState::Basic(context), Some(event));
        }
    }
    (SkillCheckState::Basic(context), None)
}

/// Follows the needle of a wiggle, and decides on the click.
fn swing(
    context: WiggleContext,
    pointer: Option<Binary32>,
    now: u64,
    params: &SkillCheckParams,
) -> (result: (SkillCheckState, Option<FrameEvent>))
    ensures
        (result.0@, result.1) == after_swing(context@, pointer, now, *params),
        result.0@.wf(),
{
    let mut context = context;
    let pointer: Binary32 = match pointer {
        Some(pointer) => pointer,
        None => {
            return (SkillCheckState::Wiggle(context), None);
        },
    };
    let zero: Binary32 = Binary32::from_u64(0);
    let way: Binary32 = angle_between(context.last_angle, pointer);
    if way.absolute().lt(Binary32::from_ratio(1, 1000)) {
        return (SkillCheckState::Wiggle(context), None);
    }
    context.unwrapped_angle = context.unwrapped_angle.plus(way.absolute());
    context.last_angle = pointer;
    context.history.push_back((now, context.unwrapped_angle));
    if context.history.len() > 15 {
        let ghost all = context.history@;
        context.history.pop_front();
        assert(context.history@ == all.skip(1));
    }
    context.angular_speed = measure_speed(context.angular_speed, &context.history, 3, 3);
    let right: bool = way.gt(zero);
    let target: Binary32 = if right { zero } else { Binary32::from_u64(180) };
    let to_go: Binary32 = angle_between(pointer, target);
    // The needle may just have turned at an end: then the way to go points backwards.
    let correct_direction: bool = (right && to_go.gt(zero)) || (way.lt(zero) && to_go.lt(zero));
    let can_click: bool = match context.last_click_time {
        Some(time) => passed(time, now, 250),
        None => true,
    };
    if correct_direction && context.angular_speed.gt(zero) && can_click
        && to_go.absolute().over(context.angular_speed).le(params.latency_ms) {
        let event = FrameEvent::WiggleClick {
            left: !right,
            target,
            pointer,
            speed: context.angular_speed,
        };
        return (SkillCheckState::Wiggle(context), Some(event));
    }
    (SkillCheckState::Wiggle(context), None)
}

/// The angle of the needle, where an arc of it is known.
pub open spec fn pointer_of(radians: Option<Binary32>) -> Option<Binary32> {
    match radians {
        Some(radians) => Some(degrees_of(radians)),
        None => None,
    }
}

/// Moves the state on by the reading of a frame.
///
/// `radians` is the arc tangent of the needle's direction, where it was found.
pub fn advance(
    reading: &FrameReading,
    radians: Option<Binary32>,
    now: u64,
    state: &mut SkillCheckState,
    params: &SkillCheckParams,
) -> (event: Option<FrameEvent>)
    requires
        old(state)@.wf(),
        old(state)@.may_miss(reading@.visible) ==> old(state)@.misses() < u32::MAX,
        reading@.suits(old(state)@),
        radians matches Some(radians) ==> is_arc(radians),
    ensures
        (final(state)@, event) == step(old(state)@, reading@, pointer_of(radians), now, *params),
        final(state)@.wf(),
{
    let pointer: Option<Binary32> = match radians {
        Some(radians) => {
            proof {
                lemma_degrees_in_range(radians);
            }
            Some(needle_degrees(radians))
        },
        None => None,
    };
    proof {
        reveal(step);
    }
    let mut current: SkillCheckState = SkillCheckState::InSearch;
    std::mem::swap(&mut current, state);
    let (next, event): (SkillCheckState, Option<FrameEvent>) = if !reading.visible {
        miss(current, params)
    } else {
        match current {
            SkillCheckState::InSearch => match &reading.scan {
                Some(scan) => search(scan, pointer, now),
                None => (SkillCheckState::InSearch, None),
            },
            SkillCheckState::Calibrating { target_samples, pointer: init_pointer, misses } =>
                calibrate(target_samples, init_pointer, misses, reading, pointer, now, params),
            SkillCheckState::Basic(mut context) => {
                context.consecutive_misses = 0;
                track(context, pointer, now, params)
            },
            SkillCheckState::Wiggle(mut context) => {
                context.consecutive_misses = 0;
                swing(context, pointer, now, params)
            },
        }
    };
    *state = next;
    event
}

/// A state that knows when the key was pressed.
pub open spec fn clicked_at(state: StateModel, at: u64) -> StateModel {
    match state {
        StateModel::Basic(context) => StateModel::Basic(
            BasicModel { click_time: Some(at), ..context },
        ),
        StateModel::Wiggle(context) => StateModel::Wiggle(
            WiggleModel { last_click_time: Some(at), ..context },
        ),
        _ => state,
    }
}

/// Notes when the key was pressed.
pub fn record_click(state: &mut SkillCheckState, at: u64)
    requires
        old(state)@.wf(),
    ensures
        final(state)@ == clicked_at(old(state)@, at),
        final(state)@.wf(),
{
    match state {
        SkillCheckState::Basic(context) => {
            context.click_time = Some(at);
        },
        SkillCheckState::Wiggle(context) => {
            context.last_click_time = Some(at);
        },
        _ => {},
    }
}

/// A whole frame: the state moves on by what the frame shows, and a click is
/// noted with the time after it.
pub open spec fn frame_step(
    state: StateModel,
    reading: Reading,
    radians: Option<Binary32>,
    now: u64,
    after: u64,
    params: SkillCheckParams,
) -> (StateModel, Option<FrameEvent>) {
    let (next, event) = step(state, reading, pointer_of(radians), now, params);
    match event {
        Some(event) if event.clicks() => (clicked_at(next, after), Some(event)),
        _ => (next, event),
    }
}

/// An event that asks for the key to be pressed.
pub open spec fn is_press(event: Option<FrameEvent>) -> bool {
    event matches Some(event) && event.clicks()
}

/// The arc tangent of the needle's direction is one that `arc_tangent` returns.
pub open spec fn is_needle_arc<A: Fn(Binary32, Binary32) -> Binary32>(
    arc_tangent: A,
    needle: Option<Direction>,
    radians: Option<Binary32>,
) -> bool {
    match (needle, radians) {
        (Some(needle), Some(radians)) => call_ensures(
            arc_tangent,
            (needle.sin, needle.cos),
            radians,
        ),
        (None, None) => true,
        _ => false,
    }
}

/// Answers the reading of a frame: moves the state on, and presses the key, once,
/// when it is time and only then. Returns what the frame brought about.
///
/// `device` is the keyboard and the clock. The clock is read, the key pressed,
/// and the clock read again: a click is noted with the time after the press.
pub fn respond<A: Fn(Binary32, Binary32) -> Binary32, E: InputEmulatorBackend + Clock>(
    reading: &FrameReading,
    arc_tangent: A,
    state: &mut SkillCheckState,
    params: &SkillCheckParams,
    device: &mut E,
) -> (event: Option<FrameEvent>)
    requires
        old(state)@.wf(),
        old(state)@.may_miss(reading@.visible) ==> old(state)@.misses() < u32::MAX,
        reading@.suits(old(state)@),
        reading@.needle() matches Some(needle) ==> {
            &&& call_requires(arc_tangent, (needle.sin, needle.cos))
            &&& forall|radians: Binary32|
                call_ensures(arc_tangent, (needle.sin, needle.cos), radians) ==> is_arc(radians)
        },
    ensures
        is_press(event) ==> exists|
            radians: Option<Binary32>,
            now: u64,
            result: Result<(), std::io::Error>,
            after: u64,
            timed: &mut E,
            pressed: &mut E,
            noted: &mut E,
        |
            #![trigger is_needle_arc(arc_tangent, reading@.needle(), radians),
                call_ensures(E::nanos, (timed,), now),
                call_ensures(E::press_space, (pressed,), result),
                call_ensures(E::nanos, (noted,), after)]
            {
                &&& is_needle_arc(arc_tangent, reading@.needle(), radians)
                &&& call_ensures(E::nanos, (timed,), now)
                &&& call_ensures(E::press_space, (pressed,), result)
                &&& call_ensures(E::nanos, (noted,), after)
                &&& *timed == *old(device)
                &&& *pressed == *final(timed)
                &&& *noted == *final(pressed)
                &&& *final(device) == *final(noted)
                &&& (final(state)@, event) == frame_step(
                    old(state)@,
                    reading@,
                    radians,
                    now,
                    after,
                    *params,
                )
            },
        !is_press(event) ==> exists|radians: Option<Binary32>, now: u64, timed: &mut E|
            #![trigger is_needle_arc(arc_tangent, reading@.needle(), radians),
                call_ensures(E::nanos, (timed,), now)]
            {
                &&& is_needle_arc(arc_tangent, reading@.needle(), radians)
                &&& call_ensures(E::nanos, (timed,), now)
                &&& *timed == *old(device)
                &&& *final(device) == *final(timed)
                &&& (final(state)@, event) == step(
                    old(state)@,
                    reading@,
                    pointer_of(radians),
                    now,
                    *params,
                )
            },
        final(state)@.wf(),
{
    let radians: Option<Binary32> = match reading.needle() {
        Some(needle) => Some(arc_tangent(needle.sin, needle.cos)),
        None => None,
    };
    assert(is_needle_arc(arc_tangent, reading@.needle(), radians));
    let now: u64 = read_clock(device);
    let event: Option<FrameEvent> = advance(reading, radians, now, state, params);
    if let Some(event) = event {
        if event.is_click() {
            // A key that could not be pressed is not pressed again: the moment has passed.
            let _ = press_key(device);
            let after: u64 = read_clock(device);
            record_click(state, after);
        }
    }
    event
}

/// Processes one frame: reads it, moves the state on, and presses the key, once,
/// when it is time and only then. Returns what the frame brought about.
///
/// `directions` holds the cosine and the sine of every whole degree,
/// `arc_tangent` is the arc tangent of a quotient in all four quadrants, and
/// `device` is the keyboard and the clock. The clock is read, the key pressed,
/// and the clock read again: a click is noted with the time after the press.
pub fn process_skillcheck_frame<
    A: Fn(Binary32, Binary32) -> Binary32,
    E: InputEmulatorBackend + Clock,
>(
    pixels: &[u8],
    stride: usize,
    patterns: &(Vec<Pixel>, Vec<Pixel>, Vec<Pixel>),
    directions: &[Direction],
    arc_tangent: A,
    state: &mut SkillCheckState,
    params: &SkillCheckParams,
    device: &mut E,
) -> (event: Option<FrameEvent>)
    requires
        is_circle(directions@),
        offsets_fit(patterns.0@, stride as nat),
        offsets_fit(patterns.1@, stride as nat),
        takes_sweep(
            pixels@,
            stride as nat,
            patterns.0@,
            patterns.1@,
            old(state)@,
            *params,
        ) ==> patterns.0@.len() >= 1800,
        old(state)@.wf(),
        old(state)@.may_miss(
            reading_of(
                pixels@,
                stride as nat,
                patterns.0@,
                patterns.1@,
                directions@,
                old(state)@,
                *params,
            ).visible,
        ) ==> old(state)@.misses() < u32::MAX,
        forall|y: Binary32, x: Binary32| call_requires(arc_tangent, (y, x)),
        forall|y: Binary32, x: Binary32, radians: Binary32|
            y.finite() && x.finite() && call_ensures(arc_tangent, (y, x), radians) ==> is_arc(
                radians,
            ),
    ensures
        ({
            let reading = reading_of(
                pixels@,
                stride as nat,
                patterns.0@,
                patterns.1@,
                directions@,
                old(state)@,
                *params,
            );
            &&& is_press(event) ==> exists|
                radians: Option<Binary32>,
                now: u64,
                result: Result<(), std::io::Error>,
                after: u64,
                timed: &mut E,
                pressed: &mut E,
                noted: &mut E,
            |
                #![trigger is_needle_arc(arc_tangent, reading.needle(), radians),
                    call_ensures(E::nanos, (timed,), now),
                    call_ensures(E::press_space, (pressed,), result),
                    call_ensures(E::nanos, (noted,), after)]
                {
                    &&& is_needle_arc(arc_tangent, reading.needle(), radians)
                    &&& call_ensures(E::nanos, (timed,), now)
                    &&& call_ensures(E::press_space, (pressed,), result)
                    &&& call_ensures(E::nanos, (noted,), after)
                    &&& *timed == *old(device)
                    &&& *pressed == *final(timed)
                    &&& *noted == *final(pressed)
                    &&& *final(device) == *final(noted)
                    &&& (final(state)@, event) == frame_step(
                        old(state)@,
                        reading,
                        radians,
                        now,
                        after,
                        *params,
                    )
                }
            &&& !is_press(event) ==> exists|
                radians: Option<Binary32>,
                now: u64,
                timed: &mut E,
            |
                #![trigger is_needle_arc(arc_tangent, reading.needle(), radians),
                    call_ensures(E::nanos, (timed,), now)]
                {
                    &&& is_needle_arc(arc_tangent, reading.needle(), radians)
                    &&& call_ensures(E::nanos, (timed,), now)
                    &&& *timed == *old(device)
                    &&& *final(device) == *final(timed)
                    &&& (final(state)@, event) == step(
                        old(state)@,
                        reading,
                        pointer_of(radians),
                        now,
                        *params,
                    )
                }
        }),
        final(state)@.wf(),
{
    let reading: FrameReading = read_frame(pixels, stride, patterns, directions, state, params);
    proof {
        lemma_reading_suits(
            pixels@,
            stride as nat,
            patterns.0@,
            patterns.1@,
            directions@,
            state@,
            *params,
        );
        lemma_sums_bounded(
            red_mask(pixels@, stride as nat, patterns.0@, *params),
            directions@,
            360,
        );
    }
    respond(&reading, arc_tangent, state, params, device)
}

} // verus!
