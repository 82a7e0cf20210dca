//! What holds over any number of frames.

use crate::binary32::Binary32;
use crate::laws::frames::{
    history_bounded, lemma_click_in_time, lemma_clicked_once, lemma_misses_allowed,
    lemma_transitions, lemma_wiggle_click_in_time, lemma_wiggle_clicks_apart,
    lemma_wiggle_history_bounded, misses_allowed,
};
use crate::params::SkillCheckParams;
use crate::reading::Reading;
use crate::skillcheck_logic::{frame_step, has_passed, is_press, pointer_of, step};
use crate::state::{FrameEvent, StateModel};
use vstd::prelude::*;

verus! {

/// What a frame shows, the arc of its needle, and the clock before and after it.
pub struct Frame {
    pub reading: Reading,
    pub radians: Option<Binary32>,
    pub now: u64,
    pub after: u64,
}

/// A state and an event after one frame.
#[verifier::opaque]
pub open spec fn frame_outcome(state: StateModel, frame: Frame, params: SkillCheckParams) -> (
    StateModel,
    Option<FrameEvent>,
) {
    frame_step(state, frame.reading, frame.radians, frame.now, frame.after, params)
}

/// The state after the first `end` frames, from searching on.
pub open spec fn state_after(frames: Seq<Frame>, params: SkillCheckParams, end: int) -> StateModel
    decreases end,
{
    if end <= 0 {
        StateModel::InSearch
    } else {
        frame_outcome(state_after(frames, params, end - 1), frames[end - 1], params).0
    }
}

/// What a frame of a run brings about.
pub open spec fn event_at(
    frames: Seq<Frame>,
    params: SkillCheckParams,
    index: int,
) -> Option<FrameEvent> {
    frame_outcome(state_after(frames, params, index), frames[index], params).1
}

/// After the frame `first`, and up to the state after the first `end` frames,
/// the bot did not go back to searching.
pub open spec fn never_searching(
    frames: Seq<Frame>,
    params: SkillCheckParams,
    first: int,
    end: int,
) -> bool {
    forall|k: int| first < k <= end ==> !(#[trigger] state_after(frames, params, k) is InSearch)
}

/// A click marks the skill check, or dates the wiggle.
proof fn lemma_click_noted(state: StateModel, frame: Frame, params: SkillCheckParams)
    ensures
        ({
            let (next, event) = frame_outcome(state, frame, params);
            &&& event matches Some(FrameEvent::Click { .. }) ==> next is Basic
                && next->Basic_0.has_clicked
            &&& event matches Some(FrameEvent::WiggleClick { .. }) ==> next is Wiggle
                && next->Wiggle_0.last_click_time == Some(frame.after)
        }),
{
    reveal(frame_outcome);
    let pointer = pointer_of(frame.radians);
    let (next, event) = step(state, frame.reading, pointer, frame.now, params);
    assert(event matches Some(FrameEvent::Click { .. }) ==> next is Basic
        && next->Basic_0.has_clicked) by {
        if event matches Some(FrameEvent::Click { .. }) {
            lemma_click_in_time(state, frame.reading, pointer, frame.now, params);
        }
    }
    assert(event matches Some(FrameEvent::WiggleClick { .. }) ==> next is Wiggle) by {
        if event matches Some(FrameEvent::WiggleClick { .. }) {
            lemma_wiggle_click_in_time(state, frame.reading, pointer, frame.now, params);
        }
    }
}

/// A clicked skill check stays clicked while it lasts, and is not clicked again.
proof fn lemma_clicked_frame(state: StateModel, frame: Frame, params: SkillCheckParams)
    requires
        state is Basic,
        state->Basic_0.has_clicked,
    ensures
        ({
            let (next, event) = frame_outcome(state, frame, params);
            &&& !is_press(event)
            &&& next is InSearch || (next is Basic && next->Basic_0.has_clicked)
        }),
{
    reveal(frame_outcome);
    let pointer = pointer_of(frame.radians);
    lemma_clicked_once(state, frame.reading, pointer, frame.now, params);
    lemma_transitions(state, frame.reading, pointer, frame.now, params);
}

/// A wiggle keeps the time of its last click while it lasts, and waits for it.
proof fn lemma_wiggle_frame(state: StateModel, frame: Frame, params: SkillCheckParams)
    requires
        state is Wiggle,
    ensures
        ({
            let last = state->Wiggle_0.last_click_time;
            let (next, event) = frame_outcome(state, frame, params);
            &&& is_press(event) ==> (last matches Some(time) ==> has_passed(time, frame.now, 250))
            &&& next is InSearch || next is Wiggle
            &&& next is Wiggle && !is_press(event) ==> next->Wiggle_0.last_click_time == last
        }),
{
    reveal(frame_outcome);
    lemma_wiggle_clicks_apart(
        state,
        frame.reading,
        frame.radians,
        frame.now,
        frame.after,
        params,
    );
    lemma_transitions(state, frame.reading, pointer_of(frame.radians), frame.now, params);
}

proof fn lemma_stays_clicked(
    frames: Seq<Frame>,
    params: SkillCheckParams,
    first: int,
    end: int,
)
    requires
        0 <= first < end,
        event_at(frames, params, first) is Some,
        event_at(frames, params, first)->0 is Click,
        never_searching(frames, params, first, end),
    ensures
        state_after(frames, params, end) is Basic,
        state_after(frames, params, end)->Basic_0.has_clicked,
    decreases end - first,
{
    assert(!(state_after(frames, params, end) is InSearch));
    let before = state_after(frames, params, end - 1);
    if end > first + 1 {
        lemma_stays_clicked(frames, params, first, end - 1);
        lemma_clicked_frame(before, frames[end - 1], params);
    } else {
        lemma_click_noted(before, frames[end - 1], params);
    }
}

/// In any run of frames a skill check is clicked once: after the click nothing
/// is pressed until the bot has gone back to searching.
pub proof fn lemma_one_click_per_check(
    frames: Seq<Frame>,
    params: SkillCheckParams,
    first: int,
    second: int,
)
    requires
        0 <= first < second < frames.len(),
        event_at(frames, params, first) is Some,
        event_at(frames, params, first)->0 is Click,
        is_press(event_at(frames, params, second)),
    ensures
        exists|k: int| first < k <= second && #[trigger] state_after(frames, params, k) is InSearch,
{
    if never_searching(frames, params, first, second) {
        lemma_stays_clicked(frames, params, first, second);
        lemma_clicked_frame(state_after(frames, params, second), frames[second], params);
    }
}

proof fn lemma_remembers_click(
    frames: Seq<Frame>,
    params: SkillCheckParams,
    first: int,
    end: int,
)
    requires
        0 <= first < end,
        event_at(frames, params, first) is Some,
        event_at(frames, params, first)->0 is WiggleClick,
        forall|k: int| first < k < end ==> !is_press(#[trigger] event_at(frames, params, k)),
        never_searching(frames, params, first, end),
    ensures
        state_after(frames, params, end) is Wiggle,
        state_after(frames, params, end)->Wiggle_0.last_click_time == Some(frames[first].after),
    decreases end - first,
{
    assert(!(state_after(frames, params, end) is InSearch));
    let before = state_after(frames, params, end - 1);
    if end > first + 1 {
        lemma_remembers_click(frames, params, first, end - 1);
        assert(!is_press(event_at(frames, params, end - 1)));
        lemma_wiggle_frame(before, frames[end - 1], params);
    } else {
        lemma_click_noted(before, frames[end - 1], params);
    }
}

/// In any run of frames the next press after the click of a wiggle comes at
/// least 250 milliseconds later, unless the bot has gone back to searching.
pub proof fn lemma_wiggle_presses_apart(
    frames: Seq<Frame>,
    params: SkillCheckParams,
    first: int,
    second: int,
)
    requires
        0 <= first < second < frames.len(),
        event_at(frames, params, first) is Some,
        event_at(frames, params, first)->0 is WiggleClick,
        is_press(event_at(frames, params, second)),
        forall|k: int| first < k < second ==> !is_press(#[trigger] event_at(frames, params, k)),
        never_searching(frames, params, first, second),
    ensures
        has_passed(frames[first].after, frames[second].now, 250),
{
    lemma_remembers_click(frames, params, first, second);
    lemma_wiggle_frame(state_after(frames, params, second), frames[second], params);
}

/// In any run of frames no state outlives its limit of misses, and the history
/// of a wiggle stays short.
pub proof fn lemma_run_bounded(frames: Seq<Frame>, params: SkillCheckParams, end: int)
    requires
        0 <= end <= frames.len(),
    ensures
        misses_allowed(state_after(frames, params, end), params),
        history_bounded(state_after(frames, params, end)),
    decreases end,
{
    if end > 0 {
        reveal(frame_outcome);
        lemma_run_bounded(frames, params, end - 1);
        let state = state_after(frames, params, end - 1);
        let frame = frames[end - 1];
        lemma_misses_allowed(
            state,
            frame.reading,
            frame.radians,
            frame.now,
            frame.after,
            params,
        );
        lemma_wiggle_history_bounded(
            state,
            frame.reading,
            frame.radians,
            frame.now,
            frame.after,
            params,
        );
    }
}

} // verus!
