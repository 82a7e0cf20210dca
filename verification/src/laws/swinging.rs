//! What a frame brings about while a wiggle is tracked, in numbers.

use crate::binary32::{absolute_of, at_most, integer, less, quotient_of, ratio, sum_of, Binary32};
use crate::laws::tracking::{is_speed, is_way, lemma_way};
use crate::params::SkillCheckParams;
use crate::reading::Reading;
use crate::skillcheck_logic::{step, swung};
use crate::state::{FrameEvent, StateModel, WiggleModel};
use vstd::prelude::*;

verus! {

/// The newest positions of a history and one more, 15 in all at most.
pub open spec fn is_newest(
    kept: Seq<(u64, Binary32)>,
    history: Seq<(u64, Binary32)>,
    newest: (u64, Binary32),
) -> bool {
    &&& kept.len() > 0
    &&& kept.last() == newest
    &&& history.len() < 15 ==> kept.drop_last() == history
    &&& history.len() >= 15 ==> kept.drop_last() == history.skip(1)
}

/// A wiggle's context after its needle moved: both ways count up.
pub open spec fn is_swung(
    before: WiggleModel,
    after: WiggleModel,
    pointer: Binary32,
    way: Binary32,
    now: u64,
) -> bool {
    &&& after.last_angle == pointer
    &&& after.unwrapped_angle == sum_of(before.unwrapped_angle, absolute_of(way))
    &&& is_newest(after.history, before.history, (now, after.unwrapped_angle))
    &&& is_speed(after.angular_speed, before.angular_speed, after.history, 3, 3)
    &&& after.consecutive_misses == 0
    &&& after.last_click_time == before.last_click_time
}

/// The needle of a wiggle is followed whenever it moved a thousandth of a
/// degree or more, either way, whether that is clicked or not.
pub proof fn lemma_wiggle_followed(
    state: StateModel,
    reading: Reading,
    pointer: Binary32,
    now: u64,
    params: SkillCheckParams,
    way: Binary32,
)
    requires
        reading.visible,
        state is Wiggle,
        is_way(state->Wiggle_0.last_angle, pointer, way),
        !less(absolute_of(way), ratio(1, 1000)),
    ensures
        ({
            let (next, event) = step(state, reading, Some(pointer), now, params);
            &&& next is Wiggle
            &&& is_swung(state->Wiggle_0, next->Wiggle_0, pointer, way, now)
            &&& event matches Some(event) ==> event is WiggleClick
        }),
{
    reveal(step);
    lemma_way(state->Wiggle_0.last_angle, pointer, way);
    let context = WiggleModel { consecutive_misses: 0, ..state->Wiggle_0 };
    let next = swung(context, pointer, now);
    let all = context.history.push((now, next.unwrapped_angle));
    if context.history.len() >= 15 {
        assert(all.skip(1).drop_last() =~= context.history.skip(1));
    } else {
        assert(all.drop_last() =~= context.history);
    }
}

/// A needle that rests, or that is not seen, leaves a wiggle as it is.
pub proof fn lemma_wiggle_rests(
    state: StateModel,
    reading: Reading,
    pointer: Option<Binary32>,
    now: u64,
    params: SkillCheckParams,
    way: Binary32,
)
    requires
        reading.visible,
        state is Wiggle,
        pointer matches Some(at) ==> is_way(state->Wiggle_0.last_angle, at, way) && less(
            absolute_of(way),
            ratio(1, 1000),
        ),
    ensures
        step(state, reading, pointer, now, params) == (
            StateModel::Wiggle(WiggleModel { consecutive_misses: 0, ..state->Wiggle_0 }),
            None::<FrameEvent>,
        ),
{
    reveal(step);
    if let Some(at) = pointer {
        lemma_way(state->Wiggle_0.last_angle, at, way);
    }
}

/// A wiggle whose needle moves on towards the right end, at 0 degrees, or back
/// towards the left end, at 180 degrees, is clicked if it has a speed, gets
/// there within the latency, and was last clicked 250 milliseconds ago or
/// more, or never.
pub proof fn lemma_arrival_is_clicked(
    state: StateModel,
    reading: Reading,
    pointer: Binary32,
    now: u64,
    params: SkillCheckParams,
    way: Binary32,
    right: bool,
    to_go: Binary32,
)
    requires
        reading.visible,
        state is Wiggle,
        is_way(state->Wiggle_0.last_angle, pointer, way),
        !less(absolute_of(way), ratio(1, 1000)),
        right ==> less(integer(0), way) && is_way(pointer, integer(0), to_go) && less(
            integer(0),
            to_go,
        ),
        !right ==> less(way, integer(0)) && is_way(pointer, integer(180), to_go) && less(
            to_go,
            integer(0),
        ),
        ({
            let speed = step(state, reading, Some(pointer), now, params).0->Wiggle_0.angular_speed;
            less(integer(0), speed) && at_most(
                quotient_of(absolute_of(to_go), speed),
                params.latency_ms,
            )
        }),
        state->Wiggle_0.last_click_time matches Some(last) ==> now >= last + 250_000_000,
    ensures
        ({
            let (next, event) = step(state, reading, Some(pointer), now, params);
            event == Some(
                FrameEvent::WiggleClick {
                    left: !right,
                    target: if right {
                        integer(0)
                    } else {
                        integer(180)
                    },
                    pointer,
                    speed: next->Wiggle_0.angular_speed,
                },
            )
        }),
{
    reveal(step);
    lemma_way(state->Wiggle_0.last_angle, pointer, way);
    lemma_way(pointer, integer(0), to_go);
    lemma_way(pointer, integer(180), to_go);
}

/// A wiggle is not clicked if the last click is less than 250 milliseconds
/// ago, if its needle has no speed or runs away from the end ahead of it, or
/// if it takes longer than the latency to get there.
pub proof fn lemma_no_arrival_is_not_clicked(
    state: StateModel,
    reading: Reading,
    pointer: Binary32,
    now: u64,
    params: SkillCheckParams,
    way: Binary32,
    to_right: Binary32,
    to_left: Binary32,
)
    requires
        reading.visible,
        state is Wiggle,
        is_way(state->Wiggle_0.last_angle, pointer, way),
        is_way(pointer, integer(0), to_right),
        is_way(pointer, integer(180), to_left),
        ({
            let speed = step(state, reading, Some(pointer), now, params).0->Wiggle_0.angular_speed;
            let last = state->Wiggle_0.last_click_time;
            ||| last is Some && now < last->0 + 250_000_000
            ||| !less(integer(0), speed)
            ||| less(integer(0), way) && !(less(integer(0), to_right) && at_most(
                quotient_of(absolute_of(to_right), speed),
                params.latency_ms,
            ))
            ||| !less(integer(0), way) && !(less(way, integer(0)) && less(to_left, integer(0))
                && at_most(quotient_of(absolute_of(to_left), speed), params.latency_ms))
        }),
    ensures
        step(state, reading, Some(pointer), now, params).1 is None,
{
    reveal(step);
    lemma_way(state->Wiggle_0.last_angle, pointer, way);
    lemma_way(pointer, integer(0), to_right);
    lemma_way(pointer, integer(180), to_left);
}

} // verus!
