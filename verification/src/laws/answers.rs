//! What a frame is answered with: the state, the keyboard and the clock.

use crate::binary32::Binary32;
use crate::input::{Clock, InputEmulatorBackend};
use crate::params::SkillCheckParams;
use crate::pixels::{Direction, Pixel};
use crate::reading::{read_frame, FrameReading};
use crate::scan::{offset_of, pattern_fits};
use crate::skillcheck_logic::{
    advance, pointer_of, process_skillcheck_frame, record_click, respond, step,
};
use crate::state::{BasicModel, FrameEvent, SkillCheckState, StateModel, WiggleModel};
use vstd::prelude::*;

verus! {

/// The reading of a frame moves the state on by one step.
pub proof fn lemma_advanced_by_a_step(
    reading: &FrameReading,
    radians: Option<Binary32>,
    now: u64,
    state: &mut SkillCheckState,
    params: &SkillCheckParams,
    event: Option<FrameEvent>,
)
    requires
        call_ensures(advance, (reading, radians, now, state, params), event),
    ensures
        final(state)@ == step(old(state)@, reading@, pointer_of(radians), now, *params).0,
        event == step(old(state)@, reading@, pointer_of(radians), now, *params).1,
{
}

/// Noting a click dates it, and changes nothing else.
pub proof fn lemma_click_noted(state: &mut SkillCheckState, at: u64)
    requires
        call_ensures(record_click, (state, at), ()),
    ensures
        old(state)@ is Basic ==> final(state)@ == StateModel::Basic(
            BasicModel { click_time: Some(at), ..old(state)@->Basic_0 },
        ),
        old(state)@ is Wiggle ==> final(state)@ == StateModel::Wiggle(
            WiggleModel { last_click_time: Some(at), ..old(state)@->Wiggle_0 },
        ),
        old(state)@ is InSearch || old(state)@ is Calibrating ==> final(state)@ == old(state)@,
{
}

/// The key is pressed exactly when the answer is a click: the clock is read, the
/// key pressed once, and the clock read again, with nothing in between; the
/// click is dated with the last reading. Otherwise the clock is read, and
/// nothing else is done.
pub proof fn lemma_pressed_for_a_click<
    A: Fn(Binary32, Binary32) -> Binary32,
    E: InputEmulatorBackend + Clock,
>(
    reading: &FrameReading,
    arc_tangent: A,
    state: &mut SkillCheckState,
    params: &SkillCheckParams,
    device: &mut E,
    event: Option<FrameEvent>,
)
    requires
        call_ensures(respond::<A, E>, (reading, arc_tangent, state, params, device), event),
    ensures
        exists|radians: Option<Binary32>, timed: &mut E, now: u64|
            #![trigger call_ensures(E::nanos, (timed,), now), pointer_of(radians)]
            {
                let needle = if reading.scan is Some {
                    reading.scan->0.needle
                } else {
                    None
                };
                let (next, reported) = step(
                    old(state)@,
                    reading@,
                    pointer_of(radians),
                    now,
                    *params,
                );
                &&& call_ensures(E::nanos, (timed,), now)
                &&& *timed == *old(device)
                &&& needle is Some <==> radians is Some
                &&& needle is Some ==> call_ensures(
                    arc_tangent,
                    (needle->0.sin, needle->0.cos),
                    radians->0,
                )
                &&& event == reported
                &&& !(event is Some && (event->0 is Click || event->0 is WiggleClick))
                    ==> final(state)@ == next
                &&& event is Some && (event->0 is Click || event->0 is WiggleClick)
                    && next is Basic ==> final(state)@ == StateModel::Basic(
                    BasicModel {
                        click_time: final(state)@->Basic_0.click_time,
                        ..next->Basic_0
                    },
                )
                &&& event is Some && (event->0 is Click || event->0 is WiggleClick)
                    && next is Wiggle ==> final(state)@ == StateModel::Wiggle(
                    WiggleModel {
                        last_click_time: final(state)@->Wiggle_0.last_click_time,
                        ..next->Wiggle_0
                    },
                )
            },
        event is Some && (event->0 is Click || event->0 is WiggleClick) ==> exists|
            timed: &mut E,
            now: u64,
            pressed: &mut E,
            result: Result<(), std::io::Error>,
            noted: &mut E,
            after: u64,
        |
            #![trigger call_ensures(E::nanos, (timed,), now),
                call_ensures(E::press_space, (pressed,), result),
                call_ensures(E::nanos, (noted,), after)]
            {
                &&& call_ensures(E::nanos, (timed,), now)
                &&& call_ensures(E::press_space, (pressed,), result)
                &&& call_ensures(E::nanos, (noted,), after)
                &&& *timed == *old(device)
                &&& *pressed == *final(timed)
                &&& *noted == *final(pressed)
                &&& *final(device) == *final(noted)
                &&& final(state)@ is Basic ==> final(state)@->Basic_0.click_time == Some(after)
                &&& final(state)@ is Wiggle ==> final(state)@->Wiggle_0.last_click_time == Some(
                    after,
                )
            },
        !(event is Some && (event->0 is Click || event->0 is WiggleClick)) ==> exists|
            timed: &mut E,
            now: u64,
        |
            #![trigger call_ensures(E::nanos, (timed,), now)]
            call_ensures(E::nanos, (timed,), now) && *timed == *old(device) && *final(device)
                == *final(timed),
{
}

/// A whole frame is answered as its reading is, with the arc tangent of the
/// needle's sine and cosine where a needle was found: the state moves on by one
/// step at the time that the clock shows first, and the key is pressed exactly
/// for a click.
pub proof fn lemma_frame_answered<
    A: Fn(Binary32, Binary32) -> Binary32,
    E: InputEmulatorBackend + Clock,
>(
    pixels: &[u8],
    stride: usize,
    patterns: &(Vec<Pixel>, Vec<Pixel>, Vec<Pixel>),
    directions: &[Direction],
    arc_tangent: A,
    state: &mut SkillCheckState,
    params: &SkillCheckParams,
    device: &mut E,
    event: Option<FrameEvent>,
    reading: FrameReading,
)
    requires
        call_ensures(
            process_skillcheck_frame::<A, E>,
            (pixels, stride, patterns, directions, arc_tangent, state, params, device),
            event,
        ),
        call_ensures(read_frame, (pixels, stride, patterns, directions, &*state, params), reading),
    ensures
        exists|radians: Option<Binary32>, timed: &mut E, now: u64|
            #![trigger call_ensures(E::nanos, (timed,), now), pointer_of(radians)]
            {
                let needle = if reading.scan is Some {
                    reading.scan->0.needle
                } else {
                    None
                };
                let (next, reported) = step(
                    old(state)@,
                    reading@,
                    pointer_of(radians),
                    now,
                    *params,
                );
                let click = event is Some && (event->0 is Click || event->0 is WiggleClick);
                &&& call_ensures(E::nanos, (timed,), now)
                &&& *timed == *old(device)
                &&& needle is Some <==> radians is Some
                &&& needle is Some ==> call_ensures(
                    arc_tangent,
                    (needle->0.sin, needle->0.cos),
                    radians->0,
                )
                &&& event == reported
                &&& !click ==> final(state)@ == next && *final(device) == *final(timed)
                &&& click ==> exists|
                    pressed: &mut E,
                    result: Result<(), std::io::Error>,
                    noted: &mut E,
                    after: u64,
                |
                    #![trigger call_ensures(E::press_space, (pressed,), result),
                        call_ensures(E::nanos, (noted,), after)]
                    {
                        &&& call_ensures(E::press_space, (pressed,), result)
                        &&& call_ensures(E::nanos, (noted,), after)
                        &&& *pressed == *final(timed)
                        &&& *noted == *final(pressed)
                        &&& *final(device) == *final(noted)
                        &&& next is Basic ==> final(state)@ == StateModel::Basic(
                            BasicModel { click_time: Some(after), ..next->Basic_0 },
                        )
                        &&& next is Wiggle ==> final(state)@ == StateModel::Wiggle(
                            WiggleModel { last_click_time: Some(after), ..next->Wiggle_0 },
                        )
                    }
            },
{
}

/// A reading hands out what its sweep found, and nothing without a sweep.
pub proof fn lemma_reading_handed_out(
    reading: &FrameReading,
    needle: Option<Direction>,
    target: Option<Binary32>,
)
    requires
        call_ensures(FrameReading::needle, (reading,), needle),
        call_ensures(FrameReading::target, (reading,), target),
    ensures
        reading.scan matches Some(scan) ==> needle == scan.needle && target == scan.target_angle,
        reading.scan is None ==> needle is None && target is None,
{
}

/// The misses in a row are those that the state has counted; a search has none.
pub proof fn lemma_misses_reported(state: &SkillCheckState, count: u32)
    requires
        call_ensures(SkillCheckState::misses, (state,), count),
    ensures
        *state matches SkillCheckState::InSearch ==> count == 0,
        *state matches SkillCheckState::Calibrating { misses, .. } ==> count == misses,
        *state matches SkillCheckState::Basic(context) ==> count == context.consecutive_misses,
        *state matches SkillCheckState::Wiggle(context) ==> count == context.consecutive_misses,
{
}

/// A click is a click of a skill check or of a wiggle, and nothing else is.
pub proof fn lemma_click_told(event: &FrameEvent, result: bool)
    requires
        call_ensures(FrameEvent::is_click, (event,), result),
    ensures
        result <==> (*event is Click || *event is WiggleClick),
{
}

/// Everything begins with a search.
pub proof fn lemma_begins_with_search(state: SkillCheckState)
    requires
        call_ensures(SkillCheckState::default, (), state),
    ensures
        state is InSearch,
{
}

/// A pattern fits exactly if the last byte of each of its pixels has an index
/// that can be counted to.
pub proof fn lemma_pattern_fits(pattern: &[Pixel], stride: usize, fits: bool)
    requires
        call_ensures(pattern_fits, (pattern, stride), fits),
    ensures
        fits <==> forall|i: int|
            0 <= i < pattern@.len() ==> (#[trigger] pattern@[i]).y * stride + 4 * pattern@[i].x + 3
                <= usize::MAX,
{
    if fits {
        assert forall|i: int| 0 <= i < pattern@.len() implies (#[trigger] pattern@[i]).y * stride
            + 4 * pattern@[i].x + 3 <= usize::MAX by {
            assert(offset_of(pattern@[i], stride as nat) + 3 <= usize::MAX);
        }
    }
}

/// A state stands for what its fields hold, each for its own.
pub proof fn lemma_state_as_held(state: SkillCheckState)
    ensures
        state is InSearch <==> state@ is InSearch,
        state is Calibrating ==> state@ == (StateModel::Calibrating {
            target_samples: state->target_samples@,
            pointer: state->pointer,
            misses: state->misses,
        }),
        state is Basic ==> state@ == StateModel::Basic(
            BasicModel {
                target_angle: state->Basic_0.target_angle,
                last_angle: state->Basic_0.last_angle,
                unwrapped_angle: state->Basic_0.unwrapped_angle,
                history: state->Basic_0.history@,
                angular_speed: state->Basic_0.angular_speed,
                has_clicked: state->Basic_0.has_clicked,
                consecutive_misses: state->Basic_0.consecutive_misses,
                click_time: state->Basic_0.click_time,
            },
        ),
        state is Wiggle ==> state@ == StateModel::Wiggle(
            WiggleModel {
                last_angle: state->Wiggle_0.last_angle,
                unwrapped_angle: state->Wiggle_0.unwrapped_angle,
                history: state->Wiggle_0.history@,
                angular_speed: state->Wiggle_0.angular_speed,
                consecutive_misses: state->Wiggle_0.consecutive_misses,
                last_click_time: state->Wiggle_0.last_click_time,
            },
        ),
{
}

/// A reading stands for what its fields hold, and so does its sweep.
pub proof fn lemma_reading_as_held(reading: FrameReading)
    ensures
        reading@.inner_ratio == reading.inner_ratio,
        reading@.inner_threshold == reading.inner_threshold,
        reading@.ring_ratio == reading.ring_ratio,
        reading@.visible == reading.visible,
        reading@.scan is Some <==> reading.scan is Some,
        reading.scan is Some ==> {
            let (held, model) = (reading.scan->0, reading@.scan->0);
            &&& model.target_angle == held.target_angle
            &&& model.needle == held.needle
            &&& model.edges == held.edges
            &&& model.is_white == held.is_white@
        },
{
}

} // verus!
