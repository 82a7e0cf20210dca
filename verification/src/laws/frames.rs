//! What holds over frames, whatever they show.

use crate::angles::{
    is_angle, lemma_reaches, lemma_shorter_way_bounded, lemma_stays_behind, lemma_turnable_finite,
    lemma_turned_on_the_way, lemma_unwrapped_finite, turnable_from, turnable_to,
};
use crate::binary32::{
    absolute_of, at_most, integer, less, quotient_of, ratio, sum_of, unit_exponent, Binary32,
};
use crate::bounds::{lemma_sum_grows, lemma_sum_monotone};
use crate::motion::{ahead_of, catches_up, reaches, shorter_way, turned};
use crate::order::{lemma_integer_exact, lemma_rank_order};
use crate::params::SkillCheckParams;
use crate::reading::Reading;
use crate::skillcheck_logic::{
    advanced, after_miss, at_start, frame_step, has_passed, is_due, is_press, step, swung,
    way_to_go, wiggle_is_due, wiggle_target,
};
use crate::state::{BasicModel, FrameEvent, StateModel, WiggleModel};
use vstd::arithmetic::power2::pow2;
use vstd::prelude::*;

verus! {

/// From searching a frame leads to calibrating or to a wiggle, from calibrating
/// to tracking, and from everywhere back to searching. Nothing is tracked that
/// was not calibrated.
pub proof fn lemma_transitions(
    state: StateModel,
    reading: Reading,
    pointer: Option<Binary32>,
    now: u64,
    params: SkillCheckParams,
)
    ensures
        ({
            let next = step(state, reading, pointer, now, params).0;
            match state {
                StateModel::InSearch => !(next is Basic),
                StateModel::Calibrating { .. } => !(next is Wiggle),
                StateModel::Basic(_) => next is Basic || next is InSearch,
                StateModel::Wiggle(_) => next is Wiggle || next is InSearch,
            }
        }),
{
    reveal(step);
}

/// A skill check is taken up only with its needle at the start, and with a
/// target.
pub proof fn lemma_begins_at_start(
    reading: Reading,
    pointer: Option<Binary32>,
    now: u64,
    params: SkillCheckParams,
)
    ensures
        step(StateModel::InSearch, reading, pointer, now, params).0 matches StateModel::Calibrating {
            target_samples,
            pointer: found,
            misses,
        } ==> {
            &&& reading.visible
            &&& pointer == Some(found)
            &&& at_start(found)
            &&& target_samples.len() == 1
            &&& reading.scan->0.target_angle == Some(target_samples[0])
            &&& misses == 0
        },
{
    reveal(step);
}

/// A skill check is clicked exactly when it is tracked and not clicked yet, its
/// needle moved forward, and the target is due within the latency.
pub proof fn lemma_click_when_due(
    state: StateModel,
    reading: Reading,
    pointer: Option<Binary32>,
    now: u64,
    params: SkillCheckParams,
)
    ensures
        step(state, reading, pointer, now, params).1 is Some && step(
            state,
            reading,
            pointer,
            now,
            params,
        ).1->0 is Click <==> {
            &&& reading.visible
            &&& state matches StateModel::Basic(context)
            &&& !context.has_clicked
            &&& pointer matches Some(pointer)
            &&& !at_most(shorter_way(context.last_angle, pointer), integer(0))
            &&& is_due(advanced(context, pointer, now, params), params)
        },
{
    reveal(step);
    if let (StateModel::Basic(context), Some(pointer)) = (state, pointer) {
        let reset = BasicModel { consecutive_misses: 0, ..context };
        let a = advanced(context, pointer, now, params);
        let b = advanced(reset, pointer, now, params);
        assert(a.angular_speed == b.angular_speed);
        assert(way_to_go(a) == way_to_go(b));
    }
}

/// A click comes while the needle moves and is short of its target, at a time
/// that the latency covers.
pub proof fn lemma_click_in_time(
    state: StateModel,
    reading: Reading,
    pointer: Option<Binary32>,
    now: u64,
    params: SkillCheckParams,
)
    requires
        step(state, reading, pointer, now, params).1 is Some,
        step(state, reading, pointer, now, params).1->0 is Click,
    ensures
        ({
            let (next, event) = step(state, reading, pointer, now, params);
            &&& next matches StateModel::Basic(context)
            &&& context.has_clicked
            &&& less(integer(0), context.angular_speed)
            &&& less(integer(0), way_to_go(context))
            &&& at_most(quotient_of(way_to_go(context), context.angular_speed), params.latency_ms)
            &&& event == Some(
                FrameEvent::Click {
                    target: context.target_angle,
                    pointer: pointer->0,
                    speed: context.angular_speed,
                },
            )
        }),
{
    reveal(step);
}

/// The settings with another latency.
pub open spec fn with_latency(params: SkillCheckParams, latency_ms: Binary32) -> SkillCheckParams {
    SkillCheckParams { latency_ms, ..params }
}

/// A larger latency never loses a click: what is clicked with the smaller one
/// is clicked on the same frame with the larger one.
pub proof fn lemma_latency_clicks_earlier(
    state: StateModel,
    reading: Reading,
    pointer: Option<Binary32>,
    now: u64,
    params: SkillCheckParams,
    latency_ms: Binary32,
)
    requires
        at_most(params.latency_ms, latency_ms),
        is_press(step(state, reading, pointer, now, params).1),
    ensures
        step(state, reading, pointer, now, with_latency(params, latency_ms)) == step(
            state,
            reading,
            pointer,
            now,
            params,
        ),
{
    reveal(step);
}

/// The latency decides on clicks alone: where neither of two latencies clicks,
/// the frame brings about the same.
pub proof fn lemma_latency_only_clicks(
    state: StateModel,
    reading: Reading,
    pointer: Option<Binary32>,
    now: u64,
    params: SkillCheckParams,
    latency_ms: Binary32,
)
    requires
        !is_press(step(state, reading, pointer, now, params).1),
        !is_press(step(state, reading, pointer, now, with_latency(params, latency_ms)).1),
    ensures
        step(state, reading, pointer, now, with_latency(params, latency_ms)) == step(
            state,
            reading,
            pointer,
            now,
            params,
        ),
{
    reveal(step);
}

/// A skill check is clicked once: after the click it is waited out, for at
/// least 200 milliseconds while the widget stays in sight.
pub proof fn lemma_clicked_once(
    state: StateModel,
    reading: Reading,
    pointer: Option<Binary32>,
    now: u64,
    params: SkillCheckParams,
)
    requires
        state is Basic,
        state->Basic_0.has_clicked,
    ensures
        ({
            let (next, event) = step(state, reading, pointer, now, params);
            &&& !is_press(event)
            &&& next matches StateModel::Basic(context) ==> context.has_clicked
                && context.click_time == state->Basic_0.click_time
            &&& reading.visible ==> (next is InSearch <==> (state->Basic_0.click_time matches Some(
                time,
            ) && has_passed(time, now, 200)))
        }),
{
    reveal(step);
}

/// Two clicks of a wiggle are at least 250 milliseconds apart: the next one
/// waits for the last, and the time of the last stays known until then.
pub proof fn lemma_wiggle_clicks_apart(
    state: StateModel,
    reading: Reading,
    radians: Option<Binary32>,
    now: u64,
    after: u64,
    params: SkillCheckParams,
)
    requires
        state is Wiggle,
    ensures
        ({
            let last = state->Wiggle_0.last_click_time;
            let (next, event) = frame_step(state, reading, radians, now, after, params);
            &&& is_press(event) ==> (last matches Some(time) ==> has_passed(time, now, 250))
            &&& next matches StateModel::Wiggle(context) ==> context.last_click_time == if is_press(
                event,
            ) {
                Some(after)
            } else {
                last
            }
        }),
{
    reveal(step);
}

/// A wiggle is clicked exactly when its needle moved, runs towards an end that
/// is due within the latency, and the last click is long enough ago.
pub proof fn lemma_wiggle_click_when_due(
    state: StateModel,
    reading: Reading,
    pointer: Option<Binary32>,
    now: u64,
    params: SkillCheckParams,
)
    ensures
        step(state, reading, pointer, now, params).1 is Some && step(
            state,
            reading,
            pointer,
            now,
            params,
        ).1->0 is WiggleClick <==> {
            &&& reading.visible
            &&& state matches StateModel::Wiggle(context)
            &&& pointer matches Some(pointer)
            &&& !less(absolute_of(shorter_way(context.last_angle, pointer)), ratio(1, 1000))
            &&& wiggle_is_due(
                swung(context, pointer, now),
                shorter_way(context.last_angle, pointer),
                now,
                params,
            )
        },
{
    reveal(step);
    if let (StateModel::Wiggle(context), Some(pointer)) = (state, pointer) {
        let reset = WiggleModel { consecutive_misses: 0, ..context };
        let a = swung(context, pointer, now);
        let b = swung(reset, pointer, now);
        assert(a.angular_speed == b.angular_speed);
        assert(a.last_angle == b.last_angle);
    }
}

/// A click of a wiggle tells which end it is for, and with what speed.
pub proof fn lemma_wiggle_click_in_time(
    state: StateModel,
    reading: Reading,
    pointer: Option<Binary32>,
    now: u64,
    params: SkillCheckParams,
)
    requires
        step(state, reading, pointer, now, params).1 is Some,
        step(state, reading, pointer, now, params).1->0 is WiggleClick,
    ensures
        ({
            let (next, event) = step(state, reading, pointer, now, params);
            let way = shorter_way(state->Wiggle_0.last_angle, pointer->0);
            &&& next matches StateModel::Wiggle(context)
            &&& less(integer(0), context.angular_speed)
            &&& wiggle_is_due(context, way, now, params)
            &&& event == Some(
                FrameEvent::WiggleClick {
                    left: less(way, integer(0)),
                    target: wiggle_target(way),
                    pointer: pointer->0,
                    speed: context.angular_speed,
                },
            )
        }),
{
    reveal(step);
}

/// A target that is behind is caught up with exactly if single precision can
/// tell a turn all the way; otherwise it stays behind for ever.
pub proof fn lemma_reaches_exactly(target: Binary32, current: Binary32)
    ensures
        reaches(target, current) <==> !less(target, current) || (turnable_from(target)
            && turnable_to(current)),
{
    if !less(target, current) {
        assert(turned(target, 0) == target);
        assert(catches_up(target, current, 0));
    } else if turnable_from(target) && turnable_to(current) {
        lemma_reaches(target, current);
    } else {
        assert forall|turns: nat| !#[trigger] catches_up(target, current, turns) by {
            lemma_stays_behind(target, current, turns);
        }
    }
}

/// The history of a wiggle holds at most 15 positions.
pub open spec fn history_bounded(state: StateModel) -> bool {
    state matches StateModel::Wiggle(context) ==> context.history.len() <= 15
}

/// No frame makes the history of a wiggle longer than 15 positions.
pub proof fn lemma_wiggle_history_bounded(
    state: StateModel,
    reading: Reading,
    radians: Option<Binary32>,
    now: u64,
    after: u64,
    params: SkillCheckParams,
)
    requires
        history_bounded(state),
    ensures
        history_bounded(frame_step(state, reading, radians, now, after, params).0),
{
    reveal(step);
}

/// How many misses in a row end a state.
pub open spec fn miss_limit(state: StateModel, params: SkillCheckParams) -> nat {
    if state is Calibrating {
        params.calibrating_miss as nat
    } else {
        params.active_miss as nat
    }
}

/// The misses are below what ends the state; a state that no miss is allowed
/// in has none.
pub open spec fn misses_allowed(state: StateModel, params: SkillCheckParams) -> bool {
    state.misses() == 0 || state.misses() < miss_limit(state, params)
}

/// A state never outlives its limit of misses.
pub proof fn lemma_misses_allowed(
    state: StateModel,
    reading: Reading,
    radians: Option<Binary32>,
    now: u64,
    after: u64,
    params: SkillCheckParams,
)
    requires
        misses_allowed(state, params),
    ensures
        misses_allowed(frame_step(state, reading, radians, now, after, params).0, params),
{
    reveal(step);
}

/// A skill check or a wiggle in sight has no misses.
pub proof fn lemma_sight_resets(
    state: StateModel,
    reading: Reading,
    pointer: Option<Binary32>,
    now: u64,
    params: SkillCheckParams,
)
    requires
        reading.visible,
        state is Basic || state is Wiggle,
    ensures
        step(state, reading, pointer, now, params).0.misses() == 0,
{
    reveal(step);
}

/// The state after so many frames in a row without the widget.
pub open spec fn after_misses(state: StateModel, params: SkillCheckParams, frames: nat) -> StateModel
    decreases frames,
{
    if frames == 0 {
        state
    } else {
        after_miss(after_misses(state, params, (frames - 1) as nat), params).0
    }
}

/// A state outlives as many misses in a row as its limit allows, and ends with
/// the one that reaches the limit.
pub proof fn lemma_lost_after_limit(state: StateModel, params: SkillCheckParams, frames: nat)
    requires
        state.active(),
        frames > 0,
        state.misses() + frames <= u32::MAX,
        state.misses() < miss_limit(state, params),
    ensures
        state.misses() + frames < miss_limit(state, params) ==> {
            let next = after_misses(state, params, frames);
            &&& next.active()
            &&& next.misses() == state.misses() + frames
            &&& miss_limit(next, params) == miss_limit(state, params)
        },
        state.misses() + frames >= miss_limit(state, params) ==> after_misses(state, params, frames)
            == StateModel::InSearch,
    decreases frames,
{
    let before = (frames - 1) as nat;
    if before > 0 {
        lemma_lost_after_limit(state, params, before);
    } else {
        assert(after_misses(state, params, 0) == state);
    }
}

/// While a skill check is tracked its target stays, and the needle is only
/// followed forward.
pub proof fn lemma_tracked_forward(
    state: StateModel,
    reading: Reading,
    pointer: Option<Binary32>,
    now: u64,
    params: SkillCheckParams,
)
    requires
        state.wf(),
        pointer matches Some(pointer) ==> is_angle(pointer),
        state is Basic,
        step(state, reading, pointer, now, params).0 is Basic,
    ensures
        ({
            let context = state->Basic_0;
            let next = step(state, reading, pointer, now, params).0->Basic_0;
            &&& next.target_angle == context.target_angle
            &&& at_most(context.unwrapped_angle, next.unwrapped_angle)
        }),
{
    reveal(step);
    let context = state->Basic_0;
    lemma_unwrapped_finite(context.unwrapped_angle);
    if let Some(pointer) = pointer {
        let way = shorter_way(context.last_angle, pointer);
        lemma_shorter_way_bounded(context.last_angle, pointer);
        lemma_integer_exact(0);
        lemma_rank_order(way, integer(0));
        assert(0 * pow2(unit_exponent()) == 0);
        if way.value() >= 0 {
            lemma_sum_grows(context.unwrapped_angle, way);
        }
    }
}

/// The target is turned forward just as far as needed: it is not behind the
/// needle, stays where it is if it was not behind, and otherwise ends up at
/// most one turn ahead.
pub proof fn lemma_target_ahead(target: Binary32, current: Binary32)
    requires
        turnable_from(target),
        turnable_to(current),
    ensures
        !less(ahead_of(target, current), current),
        !less(target, current) ==> ahead_of(target, current) == target,
        less(target, current) ==> at_most(
            ahead_of(target, current),
            sum_of(current, integer(360)),
        ),
{
    lemma_reaches(target, current);
    let turns = choose|turns: nat| #[trigger] catches_up(target, current, turns);
    assert(turned(target, 0) == target);
    if !less(target, current) && turns > 0 {
        assert(less(turned(target, 0), current));
    }
    if less(target, current) {
        let before = turned(target, (turns - 1) as nat);
        assert(less(before, current));
        lemma_integer_exact(360);
        lemma_turned_on_the_way(target, current, turns, (turns - 1) as nat);
        lemma_turnable_finite(before, current);
        lemma_rank_order(before, current);
        lemma_sum_monotone(before, current, integer(360));
    }
}

} // verus!
