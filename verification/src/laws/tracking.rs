//! What a frame brings about while a skill check is tracked, in numbers.

use crate::angles::{lemma_reaches, turnable_from, turnable_to};
use crate::binary32::{at_most, difference_of, integer, less, quotient_of, sum_of, Binary32};
use crate::bounds::lemma_small_integer;
use crate::motion::{ahead_of, catches_up, least_squares_slope, reaches, shorter_way, turned};
use crate::order::lemma_rank_order;
use crate::params::SkillCheckParams;
use crate::reading::Reading;
use crate::skillcheck_logic::step;
use crate::state::{BasicModel, FrameEvent, StateModel};
use vstd::arithmetic::power2::lemma_pow2_pos;
use vstd::prelude::*;

verus! {

/// From one angle to another without passing more than half a turn: the plain
/// difference, a turn added to it or taken from it where it is beyond 180
/// degrees one way or the other.
pub open spec fn is_way(from: Binary32, to: Binary32, way: Binary32) -> bool {
    let plain = difference_of(to, from);
    &&& less(plain, integer(-180)) ==> way == sum_of(plain, integer(360))
    &&& less(integer(180), plain) ==> way == difference_of(plain, integer(360))
    &&& !less(plain, integer(-180)) && !less(integer(180), plain) ==> way == plain
}

/// Full turns that take a target forward, one after another, until it is no
/// longer behind the needle, and no further.
pub open spec fn is_turned_past(turns: Seq<Binary32>, target: Binary32, needle: Binary32) -> bool {
    &&& turns.len() > 0
    &&& turns[0] == target
    &&& forall|i: int| 0 <= i < turns.len() - 1 ==> less(#[trigger] turns[i], needle)
    &&& forall|i: int|
        0 < i < turns.len() ==> #[trigger] turns[i] == sum_of(turns[i - 1], integer(360))
    &&& !less(turns.last(), needle)
}

/// A speed: the slope of a history that is long enough, where that is positive
/// and below a limit; otherwise the speed from before.
pub open spec fn is_speed(
    speed: Binary32,
    before: Binary32,
    history: Seq<(u64, Binary32)>,
    needed: int,
    limit: int,
) -> bool {
    let usable = history.len() >= needed && least_squares_slope(history) is Some && less(
        integer(0),
        least_squares_slope(history)->0,
    ) && less(least_squares_slope(history)->0, integer(limit));
    &&& usable ==> speed == least_squares_slope(history)->0
    &&& !usable ==> speed == before
}

/// The way between two angles is the shorter one.
pub proof fn lemma_way(from: Binary32, to: Binary32, way: Binary32)
    ensures
        is_way(from, to, way) <==> way == shorter_way(from, to),
{
    let plain = difference_of(to, from);
    lemma_small_integer(-180);
    lemma_small_integer(180);
    lemma_rank_order(integer(-180), integer(180));
    lemma_pow2_pos(149);
    if less(plain, integer(-180)) {
        assert(!less(integer(180), plain));
    }
}

/// Turning forward gives one result.
pub proof fn lemma_turned_past(turns: Seq<Binary32>, target: Binary32, needle: Binary32)
    requires
        is_turned_past(turns, target, needle),
    ensures
        ahead_of(target, needle) == turns.last(),
        reaches(target, needle),
{
    let last = (turns.len() - 1) as nat;
    assert forall|i: nat| i <= last implies #[trigger] turned(target, i) == turns[i as int] by {
        lemma_turns_are(turns, target, needle, i);
    }
    assert(catches_up(target, needle, last)) by {
        assert forall|fewer: nat| fewer < last implies less(
            #[trigger] turned(target, fewer),
            needle,
        ) by {
            assert(turned(target, fewer) == turns[fewer as int]);
        }
    }
    let chosen = choose|n: nat| #[trigger] catches_up(target, needle, n);
    assert(catches_up(target, needle, chosen));
    if chosen < last {
        assert(less(turned(target, chosen), needle));
    } else if last < chosen {
        assert(less(turned(target, last), needle));
    }
}

proof fn lemma_turns_are(turns: Seq<Binary32>, target: Binary32, needle: Binary32, i: nat)
    requires
        is_turned_past(turns, target, needle),
        i < turns.len(),
    ensures
        turned(target, i) == turns[i as int],
    decreases i,
{
    if i > 0 {
        lemma_turns_are(turns, target, needle, (i - 1) as nat);
        assert(turns[i as int] == sum_of(turns[i - 1], integer(360)));
    }
}

/// Every target that a state can hold can be turned past the needle.
pub proof fn lemma_can_be_turned_past(target: Binary32, needle: Binary32) -> (turns: Seq<Binary32>)
    requires
        turnable_from(target),
        turnable_to(needle),
    ensures
        is_turned_past(turns, target, needle),
{
    lemma_reaches(target, needle);
    let count = choose|n: nat| #[trigger] catches_up(target, needle, n);
    let turns = Seq::new(count + 1, |i: int| turned(target, i as nat));
    assert(turned(target, 0) == target);
    assert forall|i: int| 0 <= i < turns.len() - 1 implies less(#[trigger] turns[i], needle) by {
        assert(less(turned(target, i as nat), needle));
    }
    assert forall|i: int| 0 < i < turns.len() implies #[trigger] turns[i] == sum_of(
        turns[i - 1],
        integer(360),
    ) by {
        assert((i - 1) as nat == (i as nat - 1) as nat);
    }
    turns
}

/// A skill check whose needle moved forward is clicked if the target, turned
/// past the needle, is ahead of it by a way that the speed takes no longer for
/// than the latency; wherever on the ring the target is.
pub proof fn lemma_due_target_is_clicked(
    state: StateModel,
    reading: Reading,
    pointer: Binary32,
    now: u64,
    params: SkillCheckParams,
    way: Binary32,
    needle: Binary32,
    speed: Binary32,
    turns: Seq<Binary32>,
)
    requires
        reading.visible,
        state is Basic,
        !state->Basic_0.has_clicked,
        is_way(state->Basic_0.last_angle, pointer, way),
        less(integer(0), way),
        needle == sum_of(state->Basic_0.unwrapped_angle, way),
        is_speed(
            speed,
            state->Basic_0.angular_speed,
            state->Basic_0.history.push((now, needle)),
            params.speed_history_min as int,
            2,
        ),
        is_turned_past(turns, state->Basic_0.target_angle, needle),
        less(integer(0), speed),
        less(integer(0), difference_of(turns.last(), needle)),
        at_most(quotient_of(difference_of(turns.last(), needle), speed), params.latency_ms),
    ensures
        step(state, reading, Some(pointer), now, params).1 == Some(
            FrameEvent::Click { target: state->Basic_0.target_angle, pointer, speed },
        ),
        step(state, reading, Some(pointer), now, params).0 == StateModel::Basic(
            BasicModel {
                target_angle: state->Basic_0.target_angle,
                last_angle: pointer,
                unwrapped_angle: needle,
                history: state->Basic_0.history.push((now, needle)),
                angular_speed: speed,
                has_clicked: true,
                consecutive_misses: 0,
                click_time: state->Basic_0.click_time,
            },
        ),
{
    reveal(step);
    lemma_way(state->Basic_0.last_angle, pointer, way);
    lemma_turned_past(turns, state->Basic_0.target_angle, needle);
}

/// A skill check whose needle moved forward is not clicked if it has no speed,
/// if its target is not ahead, or if it takes longer than the latency to get
/// there; the needle is followed all the same.
pub proof fn lemma_target_not_due_is_waited_for(
    state: StateModel,
    reading: Reading,
    pointer: Binary32,
    now: u64,
    params: SkillCheckParams,
    way: Binary32,
    needle: Binary32,
    speed: Binary32,
    turns: Seq<Binary32>,
)
    requires
        reading.visible,
        state is Basic,
        !state->Basic_0.has_clicked,
        is_way(state->Basic_0.last_angle, pointer, way),
        !at_most(way, integer(0)),
        needle == sum_of(state->Basic_0.unwrapped_angle, way),
        is_speed(
            speed,
            state->Basic_0.angular_speed,
            state->Basic_0.history.push((now, needle)),
            params.speed_history_min as int,
            2,
        ),
        is_turned_past(turns, state->Basic_0.target_angle, needle),
        !less(integer(0), speed) || !less(integer(0), difference_of(turns.last(), needle))
            || !at_most(
            quotient_of(difference_of(turns.last(), needle), speed),
            params.latency_ms,
        ),
    ensures
        step(state, reading, Some(pointer), now, params) == (
            StateModel::Basic(
                BasicModel {
                    target_angle: state->Basic_0.target_angle,
                    last_angle: pointer,
                    unwrapped_angle: needle,
                    history: state->Basic_0.history.push((now, needle)),
                    angular_speed: speed,
                    has_clicked: false,
                    consecutive_misses: 0,
                    click_time: state->Basic_0.click_time,
                },
            ),
            None::<FrameEvent>,
        ),
{
    reveal(step);
    lemma_way(state->Basic_0.last_angle, pointer, way);
    lemma_turned_past(turns, state->Basic_0.target_angle, needle);
}

/// A needle that did not move forward, or that is not seen, changes nothing but
/// where it was last.
pub proof fn lemma_needle_not_moved_forward(
    state: StateModel,
    reading: Reading,
    pointer: Option<Binary32>,
    now: u64,
    params: SkillCheckParams,
    way: Binary32,
)
    requires
        reading.visible,
        state is Basic,
        !state->Basic_0.has_clicked,
        pointer matches Some(at) ==> is_way(state->Basic_0.last_angle, at, way) && at_most(
            way,
            integer(0),
        ),
    ensures
        step(state, reading, pointer, now, params) == (
            StateModel::Basic(
                BasicModel {
                    last_angle: if pointer is Some {
                        pointer->0
                    } else {
                        state->Basic_0.last_angle
                    },
                    consecutive_misses: 0,
                    ..state->Basic_0
                },
            ),
            None::<FrameEvent>,
        ),
{
    reveal(step);
    if let Some(at) = pointer {
        lemma_way(state->Basic_0.last_angle, at, way);
    }
}

/// After a click nothing happens until 200 milliseconds have passed; then the
/// search begins again.
pub proof fn lemma_click_waited_out(
    state: StateModel,
    reading: Reading,
    pointer: Option<Binary32>,
    now: u64,
    params: SkillCheckParams,
)
    requires
        reading.visible,
        state is Basic,
        state->Basic_0.has_clicked,
    ensures
        state->Basic_0.click_time is Some && now >= state->Basic_0.click_time->0 + 200_000_000
            ==> step(state, reading, pointer, now, params) == (
            StateModel::InSearch,
            None::<FrameEvent>,
        ),
        state->Basic_0.click_time is None || now < state->Basic_0.click_time->0 + 200_000_000
            ==> step(state, reading, pointer, now, params) == (
            StateModel::Basic(BasicModel { consecutive_misses: 0, ..state->Basic_0 }),
            None::<FrameEvent>,
        ),
{
    reveal(step);
}

} // verus!
