use dbd_auto_skillcheck::binary32::Binary32;
use dbd_auto_skillcheck::binary64::Binary64;
use dbd_auto_skillcheck::config::Config;
use dbd_auto_skillcheck::input::{Clock, InputEmulatorBackend};
use dbd_auto_skillcheck::motion::History;
use dbd_auto_skillcheck::params::SkillCheckParams;
use dbd_auto_skillcheck::pixels::{Direction, Pixel};
use dbd_auto_skillcheck::reading::read_frame;
use dbd_auto_skillcheck::skillcheck_logic::{advance, process_skillcheck_frame, record_click};
use dbd_auto_skillcheck::state::{BasicContext, FrameEvent, SkillCheckState};

const STRIDE: usize = 24;
const MS: u64 = 1_000_000;

fn soft(x: f32) -> Binary32 {
    Binary32::from_bits(x.to_bits())
}

fn hard(x: Binary32) -> f32 {
    f32::from_bits(x.to_bits())
}

fn directions() -> Vec<Direction> {
    (0..360)
        .map(|angle| {
            let rad = (angle as f32).to_radians();
            Direction { cos: soft(rad.cos()), sin: soft(rad.sin()) }
        })
        .collect()
}

/// Five ring pixels for every row of the frame, one inner pixel for every row below 20.
fn patterns() -> (Vec<Pixel>, Vec<Pixel>, Vec<Pixel>) {
    let ring = (0..1800).map(|i| Pixel { x: i % 5, y: i / 5 }).collect();
    let inner = (0..20).map(|y| Pixel { x: 5, y }).collect();
    (ring, inner, Vec::new())
}

/// What a frame is drawn from.
#[derive(Clone)]
struct Scene {
    /// White degrees.
    white: Vec<usize>,
    /// The needle, in degrees.
    needle: Option<i32>,
    /// How many of the 20 inner pixels are dark.
    dark: usize,
    /// Whether the rest of the ring is grey.
    ring: bool,
}

fn scene(zone: std::ops::Range<usize>, needle: i32) -> Scene {
    Scene { white: zone.collect(), needle: Some(needle), dark: 20, ring: true }
}

fn draw(scene: &Scene) -> Vec<u8> {
    let mut image = vec![0u8; 360 * STRIDE];
    let mut paint = |degree: usize, color: [u8; 4]| {
        for k in 0..5 {
            let at = degree * STRIDE + k * 4;
            image[at..at + 4].copy_from_slice(&color);
        }
    };
    let plain = if scene.ring { [100, 100, 100, 255] } else { [200, 100, 0, 255] };
    for degree in 0..360 {
        paint(degree, plain);
    }
    for &degree in &scene.white {
        paint(degree, [255, 255, 255, 255]);
    }
    if let Some(needle) = scene.needle {
        for degree in needle - 1..=needle + 1 {
            paint(degree.rem_euclid(360) as usize, [0, 0, 255, 255]);
        }
    }
    for y in 0..20 {
        let v = if y < scene.dark { 0 } else { 200 };
        let at = y * STRIDE + 20;
        image[at..at + 4].copy_from_slice(&[v, v, v, 255]);
    }
    image
}

/// A keyboard and a clock. The clock goes on by 3 milliseconds with every reading, and by 20 with
/// every press.
#[derive(Default)]
struct Keyboard {
    presses: u32,
    broken: bool,
    time: u64,
}

impl Clock for Keyboard {
    fn nanos(&mut self) -> u64 {
        let reading = self.time;
        self.time += 3 * MS;
        reading
    }
}

impl InputEmulatorBackend for Keyboard {
    fn press_space(&mut self) -> Result<(), std::io::Error> {
        self.presses += 1;
        self.time += 20 * MS;
        if self.broken {
            Err(std::io::Error::other("no keyboard"))
        } else {
            Ok(())
        }
    }
}

struct Bot {
    state: SkillCheckState,
    params: SkillCheckParams,
    keyboard: Keyboard,
    patterns: (Vec<Pixel>, Vec<Pixel>, Vec<Pixel>),
    directions: Vec<Direction>,
}

impl Bot {
    fn new() -> Bot {
        Bot::with(&Config::default())
    }

    fn with(config: &Config) -> Bot {
        Bot {
            state: SkillCheckState::default(),
            params: SkillCheckParams::from(config),
            keyboard: Keyboard::default(),
            patterns: patterns(),
            directions: directions(),
        }
    }

    fn see(&mut self, scene: &Scene, now: u64) -> Option<FrameEvent> {
        let image = draw(scene);
        self.keyboard.time = now;
        process_skillcheck_frame(
            &image,
            STRIDE,
            &self.patterns,
            &self.directions,
            |y, x| soft(hard(y).atan2(hard(x))),
            &mut self.state,
            &self.params,
            &mut self.keyboard,
        )
    }

    fn is_searching(&self) -> bool {
        matches!(self.state, SkillCheckState::InSearch)
    }
}

fn blank() -> Scene {
    Scene { white: Vec::new(), needle: None, dark: 0, ring: false }
}

#[test]
fn a_skill_check_is_calibrated_tracked_and_clicked_in_time() {
    let mut bot = Bot::new();
    let zone = 100..120;
    let mut clicks = Vec::new();
    for frame in 0..60 {
        let now = frame as u64 * 10 * MS;
        // 3 degrees every 10 milliseconds.
        let event = bot.see(&scene(zone.clone(), frame * 3), now);
        match frame {
            0 => match event {
                Some(FrameEvent::SkillcheckDetected { target, pointer, start, end }) => {
                    assert_eq!(hard(target), 110.0);
                    assert_eq!((hard(start), hard(end)), (100.0, 120.0));
                    assert!(hard(pointer) < 0.1 || hard(pointer) > 359.9);
                }
                other => panic!("{other:?}"),
            },
            1 => assert_eq!(event, None),
            2 => match event {
                Some(FrameEvent::TargetCalibrated { target, samples }) => {
                    assert_eq!(hard(target), 110.0);
                    assert_eq!(samples, 3);
                }
                other => panic!("{other:?}"),
            },
            _ => {}
        }
        if let Some(FrameEvent::Click { target, pointer, speed }) = event {
            clicks.push((frame, hard(target), hard(pointer), hard(speed)));
        }
    }
    // 20 milliseconds before the target are 6 degrees: the needle is at 104 to 106.9 degrees.
    assert_eq!(clicks.len(), 1);
    let (frame, target, pointer, speed) = clicks[0];
    assert_eq!(frame, 35);
    assert_eq!(target, 110.0);
    assert!((pointer - 105.0).abs() < 0.01);
    assert!((speed - 0.3).abs() < 0.001);
    assert_eq!(bot.keyboard.presses, 1);
}

/// The frame on which a needle of steady speed is clicked.
fn click_frame(latency_ms: f64) -> Option<i32> {
    let mut config = Config::default();
    config.timing.latency_ms = Binary64::from_bits(latency_ms.to_bits());
    let mut bot = Bot::with(&config);
    for frame in 0..40 {
        let event = bot.see(&scene(100..120, frame * 3), frame as u64 * 10 * MS);
        if matches!(event, Some(FrameEvent::Click { .. })) {
            return Some(frame);
        }
    }
    None
}

#[test]
fn a_larger_latency_clicks_earlier() {
    assert_eq!(click_frame(20.0), Some(35));
    assert_eq!(click_frame(50.0), Some(32));
    assert_eq!(click_frame(7.0), Some(36));
    // The needle is never that close before the target.
    assert_eq!(click_frame(1.0), None);
    assert_eq!(click_frame(-10.0), None);
}

#[test]
fn a_clicked_skill_check_is_waited_out() {
    let mut bot = Bot::new();
    for frame in 0..36 {
        bot.see(&scene(100..120, frame * 3), frame as u64 * 10 * MS);
    }
    assert_eq!(bot.keyboard.presses, 1);
    // The clock was read at 350 ms, and again after a press of 20 ms.
    match &bot.state {
        SkillCheckState::Basic(context) => {
            assert!(context.has_clicked);
            assert_eq!(context.click_time, Some(373 * MS));
        }
        other => panic!("{other:?}"),
    }
    assert_eq!(bot.see(&scene(100..120, 106), 572 * MS), None);
    assert!(!bot.is_searching());
    assert_eq!(bot.see(&scene(100..120, 106), 573 * MS), None);
    assert!(bot.is_searching());
    assert_eq!(bot.keyboard.presses, 1);
}

#[test]
fn a_broken_keyboard_does_not_make_the_bot_click_again() {
    let mut bot = Bot::new();
    bot.keyboard.broken = true;
    for frame in 0..40 {
        bot.see(&scene(100..120, frame * 3), frame as u64 * 10 * MS);
    }
    assert_eq!(bot.keyboard.presses, 1);
}

#[test]
fn a_needle_past_the_start_is_not_taken_up() {
    for (needle, taken) in [(0, true), (24, true), (26, false), (180, false), (344, false), (347, true)] {
        let mut bot = Bot::new();
        let event = bot.see(&scene(100..120, needle), 0);
        assert_eq!(matches!(event, Some(FrameEvent::SkillcheckDetected { .. })), taken, "{needle}");
        assert_eq!(bot.is_searching(), !taken);
    }
}

#[test]
fn nothing_is_taken_up_without_zone_or_needle() {
    let mut bot = Bot::new();
    assert_eq!(bot.see(&scene(100..104, 0), 0), None);
    assert!(bot.is_searching());
    assert_eq!(bot.see(&Scene { needle: None, ..scene(100..120, 0) }, 0), None);
    assert!(bot.is_searching());
    assert_eq!(bot.see(&blank(), 0), None);
    assert!(bot.is_searching());
}

#[test]
fn a_lost_skill_check_is_given_up_after_three_misses() {
    let mut bot = Bot::new();
    for frame in 0..5 {
        bot.see(&scene(100..120, frame * 3), frame as u64 * 10 * MS);
    }
    assert!(matches!(bot.state, SkillCheckState::Basic(_)));
    assert_eq!(bot.see(&blank(), 50 * MS), None);
    assert_eq!(bot.see(&blank(), 60 * MS), None);
    assert_eq!(bot.state.misses(), 2);
    // Sight of the widget forgives the misses.
    assert_eq!(bot.see(&scene(100..120, 21), 70 * MS), None);
    assert_eq!(bot.state.misses(), 0);
    assert_eq!(bot.see(&blank(), 80 * MS), None);
    assert_eq!(bot.see(&blank(), 90 * MS), None);
    assert_eq!(
        bot.see(&blank(), 100 * MS),
        Some(FrameEvent::SkillcheckInactive { misses: 3 })
    );
    assert!(bot.is_searching());
}

#[test]
fn calibration_is_given_up_after_two_misses() {
    let mut bot = Bot::new();
    bot.see(&scene(100..120, 0), 0);
    assert!(matches!(bot.state, SkillCheckState::Calibrating { .. }));
    assert_eq!(bot.see(&blank(), 10 * MS), None);
    assert_eq!(bot.see(&blank(), 20 * MS), Some(FrameEvent::CalibrationLost { misses: 2 }));
    assert!(bot.is_searching());
}

#[test]
fn calibration_is_aborted_without_a_needle() {
    let mut bot = Bot::new();
    bot.see(&scene(100..120, 0), 0);
    let unseen = Scene { needle: None, ..scene(100..120, 0) };
    assert_eq!(bot.see(&unseen, 10 * MS), None);
    match bot.see(&unseen, 20 * MS) {
        Some(FrameEvent::CalibrationAborted {
            inner_ratio,
            inner_threshold,
            ring_ratio,
            target_found,
        }) => {
            assert_eq!(hard(inner_ratio), 1.0);
            assert_eq!(hard(inner_threshold), 0.55 - 0.25);
            assert_eq!(hard(ring_ratio), 1700.0 / 1800.0);
            assert!(target_found);
        }
        other => panic!("{other:?}"),
    }
    assert!(bot.is_searching());
}

#[test]
fn a_needle_seen_again_forgives_the_misses_of_calibration() {
    let mut bot = Bot::new();
    bot.see(&scene(100..120, 0), 0);
    bot.see(&Scene { needle: None, ..scene(100..120, 0) }, 10 * MS);
    assert_eq!(bot.state.misses(), 1);
    bot.see(&scene(100..104, 6), 20 * MS);
    match &bot.state {
        SkillCheckState::Calibrating { target_samples, pointer, misses } => {
            // The zone was not seen, so there is no second sample.
            assert_eq!(target_samples.len(), 1);
            assert!((hard(*pointer) - 6.0).abs() < 0.01);
            assert_eq!(*misses, 0);
        }
        other => panic!("{other:?}"),
    }
}

#[test]
fn the_target_is_the_mean_of_its_samples() {
    let mut bot = Bot::new();
    bot.see(&scene(100..120, 0), 0);
    bot.see(&scene(101..121, 3), 10 * MS);
    match bot.see(&scene(105..125, 6), 20 * MS) {
        Some(FrameEvent::TargetCalibrated { target, samples }) => {
            assert_eq!(hard(target), (110.0 + 111.0 + 115.0) / 3.0);
            assert_eq!(samples, 3);
        }
        other => panic!("{other:?}"),
    }
}

#[test]
fn a_needle_that_runs_back_is_not_followed() {
    let mut bot = Bot::new();
    for frame in 0..5 {
        bot.see(&scene(100..120, frame * 3), frame as u64 * 10 * MS);
    }
    let unwrapped = |bot: &Bot| match &bot.state {
        SkillCheckState::Basic(context) => {
            (hard(context.last_angle), hard(context.unwrapped_angle), context.history.len())
        }
        other => panic!("{other:?}"),
    };
    let before = unwrapped(&bot);
    bot.see(&scene(100..120, 9), 50 * MS);
    let after = unwrapped(&bot);
    assert!((after.0 - 9.0).abs() < 0.01);
    assert_eq!((after.1, after.2), (before.1, before.2));
    bot.see(&Scene { needle: None, ..scene(100..120, 0) }, 60 * MS);
    assert_eq!(unwrapped(&bot), after);
    bot.see(&scene(100..120, 11), 70 * MS);
    let (last, angle, length) = unwrapped(&bot);
    assert!((last - 11.0).abs() < 0.01);
    assert!((angle - before.1 - 2.0).abs() < 0.01);
    assert_eq!(length, before.2 + 1);
}

#[test]
fn a_needle_across_the_start_is_counted_on() {
    let mut bot = Bot::new();
    for frame in 0..8 {
        bot.see(&scene(100..120, 350 + frame * 3), frame as u64 * 10 * MS);
    }
    match &bot.state {
        SkillCheckState::Basic(context) => {
            assert!((hard(context.last_angle) - 11.0).abs() < 0.01);
            assert!((hard(context.unwrapped_angle) - 371.0).abs() < 0.01);
        }
        other => panic!("{other:?}"),
    }
}

fn wiggle(needle: i32) -> Scene {
    let white = (170..190).chain(350..360).chain(0..10).collect();
    Scene { white, needle: Some(needle), dark: 20, ring: true }
}

#[test]
fn a_wiggle_is_clicked_at_both_ends_and_not_too_often() {
    let mut bot = Bot::new();
    let mut clicks = Vec::new();
    // The needle runs between 354 and 186 degrees, 6 degrees every 10 milliseconds.
    let mut needle = 270;
    let mut step = 6;
    for frame in 0..120u64 {
        let event = bot.see(&wiggle(needle), frame * 10 * MS);
        if frame == 0 {
            match event {
                Some(FrameEvent::WiggleDetected { pointer, .. }) => {
                    assert!((hard(pointer) - 270.0).abs() < 0.01);
                }
                other => panic!("{other:?}"),
            }
        }
        if let Some(FrameEvent::WiggleClick { left, target, pointer, speed }) = event {
            clicks.push((frame, left, hard(target), hard(pointer), hard(speed)));
        }
        if let SkillCheckState::Wiggle(context) = &bot.state {
            assert!(context.history.len() <= 15);
        }
        if needle + step > 354 || needle + step < 186 {
            step = -step;
        }
        needle += step;
    }
    assert_eq!(bot.keyboard.presses as usize, clicks.len());
    assert!(clicks.len() >= 2);
    assert!(clicks.iter().any(|c| c.1) && clicks.iter().any(|c| !c.1));
    for (_, left, target, pointer, speed) in &clicks {
        assert_eq!(*target, if *left { 180.0 } else { 0.0 });
        let to_go = if *left { pointer - 180.0 } else { 360.0 - pointer };
        assert!(to_go > 0.0 && to_go / speed <= 20.0 + 0.01, "{pointer} {speed}");
    }
    for pair in clicks.windows(2) {
        // The last click was noted 23 milliseconds after its frame.
        assert!((pair[1].0 - pair[0].0) * 10 >= 273);
    }
}

#[test]
fn a_lost_wiggle_is_given_up_after_three_misses() {
    let mut bot = Bot::new();
    assert!(matches!(bot.see(&wiggle(90), 0), Some(FrameEvent::WiggleDetected { .. })));
    assert_eq!(bot.see(&blank(), 10 * MS), None);
    assert_eq!(bot.see(&blank(), 20 * MS), None);
    assert_eq!(bot.see(&blank(), 30 * MS), Some(FrameEvent::WiggleInactive { misses: 3 }));
    assert!(bot.is_searching());
}

#[test]
fn a_wiggle_whose_needle_rests_is_left_as_it_is() {
    let mut bot = Bot::new();
    bot.see(&wiggle(90), 0);
    for frame in 1..20 {
        assert_eq!(bot.see(&wiggle(90), frame * 10 * MS), None);
    }
    match &bot.state {
        SkillCheckState::Wiggle(context) => assert_eq!(context.history.len(), 1),
        other => panic!("{other:?}"),
    }
}

#[test]
fn the_ring_lowers_what_has_to_be_dark() {
    let bot = Bot::new();
    let reading = |scene: &Scene, state: &SkillCheckState| {
        read_frame(
            &draw(scene),
            STRIDE,
            &bot.patterns,
            &bot.directions,
            state,
            &bot.params,
        )
    };
    let search = SkillCheckState::InSearch;
    let active = SkillCheckState::Calibrating {
        target_samples: Vec::new(),
        pointer: soft(0.0),
        misses: 0,
    };
    let visible = |dark: usize, ring: bool, state: &SkillCheckState| {
        reading(&Scene { white: Vec::new(), needle: None, dark, ring }, state).visible
    };
    // Without the ring: 0.75 of 20 to find, 0.55 to keep.
    assert!(visible(15, false, &search) && !visible(14, false, &search));
    assert!(visible(11, false, &active) && !visible(10, false, &active));
    // With the ring: a quarter less.
    assert!(visible(10, true, &search) && !visible(9, true, &search));
    assert!(visible(7, true, &active) && !visible(5, true, &active));
    // The ring alone shows nothing.
    assert!(!visible(0, true, &search) && !visible(0, true, &active));
    // In doubt a sweep that finds zone and needle decides, above 0.35.
    let found = |dark: usize, needle: Option<i32>| {
        let scene = Scene { white: (100..120).collect(), needle, dark, ring: true };
        reading(&scene, &search).visible
    };
    assert!(found(8, Some(10)));
    assert!(!found(8, None));
    assert!(!found(7, Some(10)));
}

#[test]
fn what_is_found_is_kept() {
    let bot = Bot::new();
    let active = SkillCheckState::Calibrating {
        target_samples: Vec::new(),
        pointer: soft(0.0),
        misses: 0,
    };
    for dark in 0..=20 {
        for ring in [false, true] {
            for needle in [None, Some(10)] {
                let image = draw(&Scene { white: (100..120).collect(), needle, dark, ring });
                let read = |state: &SkillCheckState| {
                    read_frame(&image, STRIDE, &bot.patterns, &bot.directions, state, &bot.params)
                        .visible
                };
                assert!(!read(&SkillCheckState::InSearch) || read(&active));
            }
        }
    }
}

#[test]
fn empty_patterns_show_nothing() {
    let mut bot = Bot::new();
    bot.patterns = (Vec::new(), Vec::new(), Vec::new());
    assert_eq!(bot.see(&scene(100..120, 0), 0), None);
    assert!(bot.is_searching());
    let reading = read_frame(
        &draw(&scene(100..120, 0)),
        STRIDE,
        &bot.patterns,
        &bot.directions,
        &bot.state,
        &bot.params,
    );
    assert!(reading.inner_ratio.is_nan() && reading.ring_ratio.is_nan());
    assert!(!reading.visible && reading.scan.is_none());
}

#[test]
fn a_reading_can_be_taken_apart_from_its_frame() {
    let bot = Bot::new();
    let mut state = SkillCheckState::default();
    let reading = read_frame(
        &draw(&scene(100..120, 3)),
        STRIDE,
        &bot.patterns,
        &bot.directions,
        &state,
        &bot.params,
    );
    let needle = reading.needle().unwrap();
    assert_eq!(hard(reading.target().unwrap()), 110.0);
    let radians = soft(hard(needle.sin).atan2(hard(needle.cos)));
    let event = advance(&reading, Some(radians), 0, &mut state, &bot.params);
    assert!(matches!(event, Some(FrameEvent::SkillcheckDetected { .. })));
    assert!(!event.unwrap().is_click());
    // Nothing is clicked yet, so there is nothing to note.
    record_click(&mut state, 9);
    assert!(matches!(state, SkillCheckState::Calibrating { .. }));
}

fn tracking(target: f32, angle: f32, misses: u32) -> SkillCheckState {
    let mut history = History::new();
    history.push_back((0, soft(angle)));
    SkillCheckState::Basic(BasicContext {
        target_angle: soft(target),
        last_angle: soft(angle),
        unwrapped_angle: soft(angle),
        history,
        angular_speed: soft(0.0),
        has_clicked: false,
        consecutive_misses: misses,
        click_time: None,
    })
}

#[test]
fn a_target_below_zero_is_clicked_a_turn_later() {
    let mut bot = Bot::new();
    bot.state = tracking(-30.0, 290.0, 0);
    let mut clicked = None;
    for frame in 1..20 {
        let needle = 290 + 3 * frame;
        if let Some(FrameEvent::Click { target, pointer, .. }) =
            bot.see(&scene(100..120, needle), frame as u64 * 10 * MS)
        {
            assert_eq!(hard(target), -30.0);
            clicked = Some(hard(pointer));
            break;
        }
    }
    let pointer = clicked.unwrap();
    assert!(pointer < 330.0 && pointer > 310.0, "{pointer}");
    assert_eq!(bot.keyboard.presses, 1);
}

#[test]
fn samples_below_zero_are_averaged() {
    let mut bot = Bot::new();
    bot.state = SkillCheckState::Calibrating {
        target_samples: vec![soft(-8_589_934_592.0), soft(-8_589_934_592.0)],
        pointer: soft(0.0),
        misses: 0,
    };
    match bot.see(&scene(100..120, 6), 20 * MS) {
        Some(FrameEvent::TargetCalibrated { target, samples }) => {
            assert_eq!(hard(target), (-8_589_934_592f32 * 2.0 + 110.0) / 3.0);
            assert_eq!(samples, 3);
        }
        other => panic!("{other:?}"),
    }
}

#[test]
fn a_widget_in_sight_forgives_any_number_of_misses() {
    let mut bot = Bot::new();
    bot.state = tracking(110.0, 10.0, u32::MAX);
    assert_eq!(bot.see(&scene(100..120, 12), 10 * MS), None);
    assert_eq!(bot.state.misses(), 0);
}
