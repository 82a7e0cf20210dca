use dbd_auto_skillcheck::binary32::Binary32;
use dbd_auto_skillcheck::motion::{
    angle_between, compute_speed_least_squares, nanos_between, needle_degrees, to_milliseconds,
    unwrap_target, History,
};
use std::time::Duration;

fn soft(x: f32) -> Binary32 {
    Binary32::from_bits(x.to_bits())
}

fn hard(x: Binary32) -> f32 {
    f32::from_bits(x.to_bits())
}

#[test]
fn degrees_match_the_machine() {
    for i in -3141..=3141 {
        let radians = i as f32 / 1000.0;
        let mut expected = radians;
        if expected < 0.0 {
            expected += 2.0 * std::f32::consts::PI;
        }
        assert_eq!(
            needle_degrees(soft(radians)).to_bits(),
            expected.to_degrees().to_bits(),
            "{radians}"
        );
    }
    assert_eq!(hard(needle_degrees(soft(std::f32::consts::PI))), 180.0);
    assert_eq!(hard(needle_degrees(soft(-0.0))), 0.0);
    // Just below 0 the angle rounds up to a full turn.
    assert_eq!(hard(needle_degrees(soft(-1e-10))), 360.0);
}

#[test]
fn the_shorter_way_is_taken() {
    let way = |from: f32, to: f32| hard(angle_between(soft(from), soft(to)));
    assert_eq!(way(10.0, 20.0), 10.0);
    assert_eq!(way(20.0, 10.0), -10.0);
    assert_eq!(way(350.0, 10.0), 20.0);
    assert_eq!(way(10.0, 350.0), -20.0);
    assert_eq!(way(0.0, 180.0), 180.0);
    assert_eq!(way(180.0, 0.0), -180.0);
    for from in (0..=360).step_by(7) {
        for to in (0..=360).step_by(11) {
            assert!(way(from as f32, to as f32).abs() <= 180.0);
        }
    }
}

#[test]
fn time_does_not_run_backwards() {
    assert_eq!(nanos_between(5, 12), 7);
    assert_eq!(nanos_between(12, 5), 0);
    assert_eq!(nanos_between(0, u64::MAX), u64::MAX);
}

#[test]
fn milliseconds_match_the_machine() {
    let mut nanos = 1u64;
    while nanos < 1 << 60 {
        for extra in [0, 1, 999, 123_456_789] {
            let n = nanos + extra;
            let expected = Duration::from_nanos(n).as_secs_f32() * 1000.0;
            assert_eq!(to_milliseconds(n).to_bits(), expected.to_bits(), "{n}");
        }
        nanos *= 3;
    }
    assert_eq!(hard(to_milliseconds(0)), 0.0);
    assert_eq!(hard(to_milliseconds(16_000_000)), 16.0);
}

/// The slope in machine arithmetic.
fn machine_slope(history: &[(u64, f32)]) -> Option<f32> {
    if history.len() < 2 {
        return None;
    }
    let t0 = history[0].0;
    let n = history.len() as f32;
    let (mut sum_t, mut sum_a, mut sum_tt, mut sum_ta) = (0.0f32, 0.0f32, 0.0f32, 0.0f32);
    for &(t, a) in history {
        let tms = Duration::from_nanos(t.saturating_sub(t0)).as_secs_f32() * 1000.0;
        sum_t += tms;
        sum_a += a;
        sum_tt += tms * tms;
        sum_ta += tms * a;
    }
    let denom = n * sum_tt - sum_t * sum_t;
    if denom <= 0.0 {
        return None;
    }
    Some((n * sum_ta - sum_t * sum_a) / denom)
}

fn slope(history: &[(u64, f32)]) -> Option<f32> {
    let mut queue = History::new();
    for &(time, angle) in history {
        queue.push_back((time, soft(angle)));
    }
    compute_speed_least_squares(&queue).map(hard)
}

#[test]
fn the_slope_matches_the_machine() {
    let mut time = 1_000_000_000u64;
    let mut angle = 3.25f32;
    let mut history = Vec::new();
    for i in 0..200u64 {
        history.push((time, angle));
        time += 6_000_000 + (i * i * 7919) % 5_000_000;
        angle += 1.0 + (i % 5) as f32 * 0.37;
        let expected = machine_slope(&history);
        assert_eq!(slope(&history).map(f32::to_bits), expected.map(f32::to_bits));
    }
}

#[test]
fn the_slope_of_a_steady_needle_is_its_speed() {
    let history: Vec<(u64, f32)> = (0..8).map(|i| (i * 10_000_000, i as f32 * 3.0)).collect();
    assert_eq!(slope(&history), Some(0.3));
    let history: Vec<(u64, f32)> = (0..4).map(|i| (i * 1_000_000, 100.0 - i as f32)).collect();
    assert_eq!(slope(&history), Some(-1.0));
}

#[test]
fn no_slope_without_a_span_of_time() {
    assert_eq!(slope(&[]), None);
    assert_eq!(slope(&[(5, 1.0)]), None);
    assert_eq!(slope(&[(5, 1.0), (5, 2.0), (5, 3.0)]), None);
}

#[test]
fn a_target_behind_is_turned_forward() {
    let ahead = |target: f32, current: f32| hard(unwrap_target(soft(target), soft(current)));
    assert_eq!(ahead(100.0, 50.0), 100.0);
    assert_eq!(ahead(100.0, 100.0), 100.0);
    assert_eq!(ahead(100.0, 100.5), 460.0);
    assert_eq!(ahead(100.0, 1000.0), 1180.0);
    assert_eq!(ahead(0.0, 0.0), 0.0);
    for current in (0..2000).step_by(13) {
        let result = ahead(77.0, current as f32);
        assert!(result >= current as f32 && result <= (current as f32).max(77.0) + 360.0);
    }
}

#[test]
fn the_slope_does_not_depend_on_when_the_clock_began() {
    let history: Vec<(u64, f32)> =
        (0..12u64).map(|i| (i * 7_654_321, (i * i) as f32 * 0.77)).collect();
    let later: Vec<(u64, f32)> =
        history.iter().map(|&(t, a)| (t + 987_654_321_012, a)).collect();
    assert!(slope(&history).is_some());
    assert_eq!(slope(&history).map(f32::to_bits), slope(&later).map(f32::to_bits));
    // Readings before the first one count as no time.
    assert_eq!(slope(&[(9, 1.0), (5, 2.0), (9, 3.0)]), None);
}

#[test]
fn needle_angles_are_at_most_a_turn() {
    for bits in (0..0x4049_0fdbu32).step_by(40_009).chain([0x4049_0fdb]) {
        for radians in [f32::from_bits(bits), -f32::from_bits(bits)] {
            assert!((0.0..=360.0).contains(&hard(needle_degrees(soft(radians)))), "{radians:e}");
        }
    }
}

#[test]
fn a_target_far_behind_is_turned_forward() {
    let ahead = |target: f32, current: f32| hard(unwrap_target(soft(target), soft(current)));
    assert_eq!(ahead(-100.0, 0.0), 260.0);
    assert_eq!(ahead(-720.0, -1.0), 0.0);
    assert_eq!(ahead(-100_000.0, 50.0), 80.0);
    // Behind, but not behind the current angle.
    assert_eq!(ahead(-1e30, -2e30), -1e30);
    assert_eq!(ahead(f32::INFINITY, 5.0), f32::INFINITY);
    assert!(hard(unwrap_target(soft(f32::NAN), soft(5.0))).is_nan());
    // At the end of the range a turn still counts.
    assert!(ahead(8_589_930_000.0, 8_589_934_592.0) >= 8_589_934_592.0);
}

#[test]
fn whole_readings_give_the_exact_slope_rounded_once() {
    let histories: [&[(u64, u64)]; 4] = [
        &[(0, 3), (10, 6), (20, 9), (30, 12)],
        &[(0, 0), (16, 5), (33, 11), (50, 15), (66, 22)],
        &[(0, 90), (7, 80), (16, 71), (24, 65)],
        &[(0, 5), (1, 5), (2, 6)],
    ];
    for history in histories {
        let n = history.len() as f64;
        let sum = |f: &dyn Fn(f64, f64) -> f64| -> f64 {
            history.iter().map(|&(t, a)| f(t as f64, a as f64)).sum()
        };
        let (t, a) = (sum(&|t, _| t), sum(&|_, a| a));
        let (tt, ta) = (sum(&|t, _| t * t), sum(&|t, a| t * a));
        let expected = ((n * ta - t * a) / (n * tt - t * t)) as f32;
        let readings: Vec<(u64, f32)> =
            history.iter().map(|&(t, a)| (t * 1_000_000, a as f32)).collect();
        assert_eq!(slope(&readings), Some(expected));
    }
}

#[test]
fn the_fitted_line_misses_least() {
    let readings = [(0u64, 0.0f32), (16, 5.0), (33, 11.0), (50, 15.0), (66, 22.0)];
    let history: Vec<(u64, f32)> = readings.iter().map(|&(t, a)| (t * 1_000_000, a)).collect();
    let best = slope(&history).unwrap() as f64;
    let n = readings.len() as f64;
    let mean_t = readings.iter().map(|r| r.0 as f64).sum::<f64>() / n;
    let mean_a = readings.iter().map(|r| r.1 as f64).sum::<f64>() / n;
    let error = |slope: f64, shift: f64| -> f64 {
        readings
            .iter()
            .map(|&(t, a)| (a as f64 - mean_a - shift - slope * (t as f64 - mean_t)).powi(2))
            .sum()
    };
    for (tilt, shift) in [(0.001, 0.0), (-0.001, 0.0), (0.0, 0.01), (0.0, -0.01), (0.1, 1.0)] {
        assert!(error(best, 0.0) < error(best + tilt, shift));
    }
}

/// Times in nanoseconds from the first one on, and angles, without rounding to speak of.
fn exact(history: &[(u64, f32)]) -> Vec<(f64, f64)> {
    history.iter().map(|&(time, angle)| ((time - history[0].0) as f64, angle as f64)).collect()
}

#[test]
fn fractional_readings_give_the_exact_slope_but_for_roundings() {
    let mut time = 77_000_123u64;
    let mut angle = -41.7f32;
    let mut history = Vec::new();
    for i in 0..60u64 {
        history.push((time, angle));
        time += 16_666_667 + (i * 104_729) % 1_500_001;
        angle += 1.1 + (i % 7) as f32 * 0.313;
        if history.len() < 2 {
            continue;
        }
        let readings = exact(&history);
        let n = readings.len() as f64;
        let t: f64 = readings.iter().map(|r| r.0).sum();
        let a: f64 = readings.iter().map(|r| r.1).sum();
        let a_size: f64 = readings.iter().map(|r| r.1.abs()).sum();
        let tt: f64 = readings.iter().map(|r| r.0 * r.0).sum();
        let ta: f64 = readings.iter().map(|r| r.0 * r.1).sum();
        let ta_size: f64 = readings.iter().map(|r| r.0 * r.1.abs()).sum();
        let (run, rise) = (n * tt - t * t, n * ta - t * a);
        let more = (1.0 + 2f64.powi(-24)).powi(2 * history.len() as i32 + 11) - 1.0;
        let speed = slope(&history).unwrap() as f64;
        let margin = speed.abs() * more * (n * tt + t * t) + 1e6 * more * (n * ta_size + t * a_size);
        let off = (speed * run - 1e6 * rise).abs();
        assert!(off > 0.0 && off <= margin, "{off} {margin}");
        // The line through the middle with this speed fits about as well as the best one.
        let error = |slope: f64| -> f64 {
            let miss = |r: &(f64, f64)| r.1 - a / n - slope * (r.0 - t / n);
            readings.iter().map(|r| miss(r) * miss(r)).sum()
        };
        let (measured, best) = (error(speed / 1e6), error(rise / run));
        assert!(n * run * measured <= n * run * best + (margin / 1e6).powi(2) + 1e-3 * n * run);
        assert!(best <= measured + 1e-9);
    }
}

#[test]
fn a_steady_needle_at_odd_times_has_its_speed() {
    let times = [0u64, 16_683_000, 33_341_000, 49_999_000, 66_701_000, 83_350_000];
    let history: Vec<(u64, f32)> =
        times.iter().map(|&time| (time, 5.0 + 0.375 * (time as f32 / 1e6))).collect();
    let speed = slope(&history).unwrap();
    assert!((speed - 0.375).abs() < 1e-5, "{speed}");
}
