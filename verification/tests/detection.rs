use dbd_auto_skillcheck::binary32::Binary32;
use dbd_auto_skillcheck::color::{bgr_to_hsv, is_red_color, is_white_color};
use dbd_auto_skillcheck::config::Config;
use dbd_auto_skillcheck::params::SkillCheckParams;
use dbd_auto_skillcheck::pixels::{covers_circle, generate_patterns, Circle, Direction, Pixel};
use dbd_auto_skillcheck::scan::{
    count_dark_inner, count_grey_ring, find_cluster_center, find_white_edges, is_wiggle,
    pattern_fits, scan_angles,
};

fn soft(x: f32) -> Binary32 {
    Binary32::from_bits(x.to_bits())
}

fn hard(x: Binary32) -> f32 {
    f32::from_bits(x.to_bits())
}

fn directions() -> Vec<Direction> {
    (0..360)
        .map(|angle| {
            let rad = (angle as f32).to_radians();
            Direction { cos: soft(rad.cos()), sin: soft(rad.sin()) }
        })
        .collect()
}

fn default_params() -> SkillCheckParams {
    SkillCheckParams::from(&Config::default())
}

fn circle(x: u32, y: u32, radius: u32) -> Circle {
    Circle { center: Pixel { x, y }, radius, diameter: radius.wrapping_mul(2) }
}

/// Hue, saturation and value in machine arithmetic.
fn machine_hsv(b: u8, g: u8, r: u8) -> (f32, f32, f32) {
    let r = r as f32 / 255.0;
    let g = g as f32 / 255.0;
    let b = b as f32 / 255.0;
    let min = r.min(g.min(b));
    let max = r.max(g.max(b));
    let delta = max - min;
    let s = if max == 0.0 { 0.0 } else { delta / max };
    let h = if delta == 0.0 {
        0.0
    } else if max == r {
        let mut h = 60.0 * (((g - b) / delta) % 6.0);
        if h < 0.0 {
            h += 360.0;
        }
        h
    } else if max == g {
        60.0 * (((b - r) / delta) + 2.0)
    } else {
        60.0 * (((r - g) / delta) + 4.0)
    };
    (h, s, max)
}

#[test]
fn hsv_matches_the_machine() {
    for b in (0..=255u32).step_by(5) {
        for g in (0..=255u32).step_by(3) {
            for r in (0..=255u32).step_by(5) {
                let (b, g, r) = (b as u8, g as u8, r as u8);
                let (h, s, v) = bgr_to_hsv(b, g, r);
                let expected = machine_hsv(b, g, r);
                assert_eq!(h.to_bits(), expected.0.to_bits(), "hue of {b} {g} {r}");
                assert_eq!(s.to_bits(), expected.1.to_bits(), "saturation of {b} {g} {r}");
                assert_eq!(v.to_bits(), expected.2.to_bits(), "value of {b} {g} {r}");
            }
        }
    }
}

#[test]
fn hsv_of_plain_colors() {
    let hsv = |b, g, r| {
        let (h, s, v) = bgr_to_hsv(b, g, r);
        (hard(h), hard(s), hard(v))
    };
    assert_eq!(hsv(0, 0, 255), (0.0, 1.0, 1.0));
    assert_eq!(hsv(0, 255, 0), (120.0, 1.0, 1.0));
    assert_eq!(hsv(255, 0, 0), (240.0, 1.0, 1.0));
    assert_eq!(hsv(255, 0, 255), (300.0, 1.0, 1.0));
    assert_eq!(hsv(0, 0, 0), (0.0, 0.0, 0.0));
    assert_eq!(hsv(255, 255, 255), (0.0, 0.0, 1.0));
    assert_eq!(hsv(102, 102, 102), (0.0, 0.0, 0.4));
}

#[test]
fn greys_have_neither_hue_nor_saturation() {
    for byte in 0..=255u8 {
        let (h, s, v) = bgr_to_hsv(byte, byte, byte);
        assert_eq!((hard(h), hard(s), hard(v)), (0.0, 0.0, byte as f32 / 255.0));
    }
}

#[test]
fn hue_saturation_and_value_stay_in_range() {
    for i in 0..20_000u32 {
        let bits = i.wrapping_mul(2_654_435_761);
        let (h, s, v) = bgr_to_hsv(bits as u8, (bits >> 8) as u8, (bits >> 16) as u8);
        assert!((0.0..360.0).contains(&hard(h)));
        assert!((0.0..=1.0).contains(&hard(s)));
        assert!((0.0..=1.0).contains(&hard(v)));
    }
}

#[test]
fn red_is_outside_the_hue_band() {
    let params = default_params();
    let red = |h: f32, s: f32, v: f32| is_red_color(soft(h), soft(s), soft(v), &params);
    assert!(red(0.0, 1.0, 1.0));
    assert!(red(14.9, 0.7, 0.6));
    assert!(red(346.0, 0.7, 0.6));
    assert!(!red(15.0, 1.0, 1.0));
    assert!(!red(345.0, 1.0, 1.0));
    assert!(!red(180.0, 1.0, 1.0));
    assert!(!red(0.0, 0.6, 1.0));
    assert!(!red(0.0, 1.0, 0.5));
    // A hue that is no number is outside every band.
    assert!(red(f32::NAN, 1.0, 1.0));
}

#[test]
fn white_is_pale_and_bright() {
    let params = default_params();
    let white = |s: f32, v: f32| is_white_color(soft(0.0), soft(s), soft(v), &params);
    assert!(white(0.0, 1.0));
    assert!(white(0.14, 0.86));
    assert!(!white(0.15, 1.0));
    assert!(!white(0.0, 0.85));
}

#[test]
fn no_color_is_red_and_white() {
    let params = default_params();
    for i in 0..50_000u32 {
        let bits = i.wrapping_mul(2_654_435_761);
        let (h, s, v) = bgr_to_hsv(bits as u8, (bits >> 8) as u8, (bits >> 16) as u8);
        assert!(!(is_red_color(h, s, v, &params) && is_white_color(h, s, v, &params)));
    }
}

/// The three patterns in machine arithmetic.
fn machine_patterns(circle: &Circle) -> (Vec<(u32, u32)>, Vec<(u32, u32)>, Vec<(u32, u32)>) {
    let cx = circle.center.x as i32;
    let cy = circle.center.y as i32;
    let radius = circle.radius as f32;
    let mut ring = Vec::new();
    for angle in 0..360 {
        let rad = (angle as f32).to_radians();
        for dr in -2..=2 {
            let r = radius + dr as f32;
            ring.push(((cx + (r * rad.cos()) as i32) as u32, (cy + (r * rad.sin()) as i32) as u32));
        }
    }
    let half_width = (radius * 0.46) as i32;
    let near = (radius * 0.30) as i32;
    let far = (radius * 0.70) as i32;
    let step_x = (half_width / 5).max(1) as usize;
    let step_y = ((far - near) / 6).max(1) as usize;
    let mut inner = Vec::new();
    for (low, high) in [(cy - far, cy - near), (cy + near, cy + far)] {
        for y in (low..=high).step_by(step_y) {
            for x in (cx - half_width..=cx + half_width).step_by(step_x) {
                inner.push((x as u32, y as u32));
            }
        }
    }
    let margin = (radius * 0.11) as i32;
    let top = cy - radius as i32;
    let mut pointer = Vec::new();
    for y in top - (radius * 0.23) as i32..=top + margin {
        for x in cx - margin..=cx + margin {
            pointer.push((x as u32, y as u32));
        }
    }
    (ring, inner, pointer)
}

fn places(pattern: &[Pixel]) -> Vec<(u32, u32)> {
    pattern.iter().map(|p| (p.x, p.y)).collect()
}

#[test]
fn patterns_match_the_machine() {
    let directions = directions();
    for (x, y, radius) in
        [(150, 150, 65), (960, 530, 65), (25, 25, 10), (0, 0, 0), (500, 500, 500), (3, 4, 33), (1000, 1, 87)]
    {
        let circle = circle(x, y, radius);
        let (ring, inner, pointer) = generate_patterns(&circle, &directions);
        let expected = machine_patterns(&circle);
        assert_eq!(places(&ring), expected.0);
        assert_eq!(places(&inner), expected.1);
        assert_eq!(places(&pointer), expected.2);
    }
}

#[test]
fn coordinates_left_of_the_frame_wrap_round() {
    let (ring, _, _) = generate_patterns(&circle(0, 0, 65), &directions());
    // At 180 degrees the ring is 63 to 67 pixels to the left.
    assert_eq!(ring[180 * 5].x, (-63i32) as u32);
    assert_eq!(ring[180 * 5 + 4].x, (-67i32) as u32);
}

#[test]
fn the_ring_has_five_pixels_for_every_degree() {
    let (ring, inner, pointer) = generate_patterns(&circle(150, 150, 65), &directions());
    assert_eq!(ring.len(), 1800);
    assert_eq!(ring[0], Pixel { x: 150 + 63, y: 150 });
    assert_eq!(ring[2], Pixel { x: 150 + 65, y: 150 });
    assert_eq!(ring[4], Pixel { x: 150 + 67, y: 150 });
    assert_eq!(ring[90 * 5 + 2], Pixel { x: 150, y: 150 + 65 });
    // 12 columns of 5 pixels each, in 7 rows of 4 pixels each, above and below.
    assert_eq!(inner.len(), 2 * 12 * 7);
    assert_eq!(pointer.len(), 15 * 22);
}

#[test]
fn patterns_of_the_default_geometry_are_in_the_crop() {
    let config = Config::default();
    let crop = config.geometry.crop_size;
    let circle = circle(crop / 2, crop / 2, config.geometry.circle_radius);
    let (ring, inner, _) = generate_patterns(&circle, &directions());
    for p in ring.iter().chain(&inner) {
        assert!(p.x < crop && p.y < crop);
    }
}

#[test]
fn a_table_of_directions_is_checked() {
    let mut table = directions();
    assert!(covers_circle(&table));
    assert!(!covers_circle(&table[..359]));
    table[7].cos = soft(1.5);
    assert!(!covers_circle(&table));
    table[7].cos = soft(f32::NAN);
    assert!(!covers_circle(&table));
}

#[test]
fn offsets_are_checked_for_overflow() {
    let far = [Pixel { x: 0, y: u32::MAX }];
    assert!(pattern_fits(&far, 4));
    assert!(!pattern_fits(&far, usize::MAX));
    assert!(pattern_fits(&[], usize::MAX));
}

#[test]
fn dark_and_grey_pixels_are_counted_in_the_frame_only() {
    let pattern: Vec<Pixel> = (0..6).map(|x| Pixel { x, y: 0 }).collect();
    let mut image = Vec::new();
    for v in [0u8, 10, 38, 39, 128] {
        image.extend_from_slice(&[v, v, v, 255]);
    }
    // 38 / 255 is just below 0.15, 39 / 255 just above; the sixth pixel is beyond the frame.
    assert_eq!(count_dark_inner(&image, 20, &pattern, soft(0.15)), 3);
    assert_eq!(count_grey_ring(&image, 20, &pattern, soft(0.15), soft(0.85), soft(0.3)), 2);
    // A pixel without its fourth byte is not in the frame.
    assert_eq!(count_dark_inner(&image[..3], 20, &pattern, soft(0.15)), 0);
    assert_eq!(count_dark_inner(&[], 20, &pattern, soft(0.15)), 0);
}

fn mask(degrees: impl Iterator<Item = usize>) -> [bool; 360] {
    let mut mask = [false; 360];
    for degree in degrees {
        mask[degree % 360] = true;
    }
    mask
}

fn edges(mask: &[bool; 360]) -> Option<(f32, f32)> {
    find_white_edges(mask).map(|(start, end)| (hard(start), hard(end)))
}

#[test]
fn the_longest_white_run_is_the_zone() {
    assert_eq!(edges(&mask(100..120)), Some((100.0, 120.0)));
    assert_eq!(edges(&mask((100..120).chain(200..230))), Some((200.0, 230.0)));
    assert_eq!(edges(&mask((100..120).chain(200..220))), Some((100.0, 120.0)));
    assert_eq!(edges(&mask(100..105)), Some((100.0, 105.0)));
    assert_eq!(edges(&mask(100..104)), None);
    assert_eq!(edges(&mask(0..0)), None);
    assert_eq!(edges(&mask((0..360).step_by(2))), None);
}

#[test]
fn a_zone_may_cross_the_start_of_the_circle() {
    assert_eq!(edges(&mask(350..370)), Some((350.0, 370.0)));
    assert_eq!(edges(&mask(340..360)), Some((340.0, 360.0)));
    assert_eq!(edges(&mask(0..20)), Some((0.0, 20.0)));
    assert_eq!(edges(&mask(0..360)), Some((0.0, 360.0)));
    assert_eq!(edges(&mask(1..360)), Some((1.0, 360.0)));
}

#[test]
fn the_middle_of_red_degrees_is_their_direction() {
    let directions = directions();
    let center = |mask: &[bool; 360]| {
        find_cluster_center(mask, &directions).map(|d| {
            let mut rad = hard(d.sin).atan2(hard(d.cos));
            if rad < 0.0 {
                rad += 2.0 * std::f32::consts::PI;
            }
            rad.to_degrees()
        })
    };
    assert!(center(&mask(88..90)).is_none());
    assert!((center(&mask(89..92)).unwrap() - 90.0).abs() < 0.01);
    let crossing = center(&mask(359..362)).unwrap();
    assert!(crossing < 0.01 || crossing > 359.99);
    assert!((center(&mask(200..211)).unwrap() - 205.0).abs() < 0.01);
}

#[test]
fn directions_are_added_as_the_machine_adds_them() {
    let mask = mask((10..30).chain(300..310));
    let (mut cos, mut sin) = (0.0f32, 0.0f32);
    for angle in 0..360 {
        if mask[angle] {
            let rad = (angle as f32).to_radians();
            cos += rad.cos();
            sin += rad.sin();
        }
    }
    let center = find_cluster_center(&mask, &directions()).unwrap();
    assert_eq!(center.cos.to_bits(), cos.to_bits());
    assert_eq!(center.sin.to_bits(), sin.to_bits());
}

#[test]
fn a_wiggle_is_white_on_both_sides() {
    assert!(is_wiggle(&mask((175..181).chain(0..6))));
    assert!(is_wiggle(&mask((160..166).chain(340..346))));
    assert!(is_wiggle(&mask((194..200).chain(357..363))));
    assert!(!is_wiggle(&mask((175..180).chain(0..6))));
    assert!(!is_wiggle(&mask((175..181).chain(0..5))));
    assert!(!is_wiggle(&mask(175..190)));
    assert!(!is_wiggle(&mask((200..220).chain(20..40))));
}

#[test]
fn a_sweep_finds_zone_and_needle() {
    // Five pixels side by side for every degree.
    let ring: Vec<Pixel> =
        (0..1800).map(|i| Pixel { x: (i % 5) as u32, y: (i / 5) as u32 }).collect();
    let mut image = vec![100u8; 360 * 20];
    for degree in 40..61 {
        let at = degree * 20 + 4 * (degree % 5);
        image[at..at + 4].copy_from_slice(&[255, 255, 255, 255]);
    }
    for degree in [9, 10, 11] {
        let at = degree * 20 + 8;
        image[at..at + 4].copy_from_slice(&[0, 0, 255, 255]);
    }
    let params = default_params();
    let scan = scan_angles(&image, 20, &ring, &directions(), &params);
    let (start, end) = scan.edges.unwrap();
    assert_eq!((hard(start), hard(end)), (40.0, 61.0));
    assert_eq!(hard(scan.target_angle.unwrap()), 50.5);
    let needle = scan.needle.unwrap();
    let angle = hard(needle.sin).atan2(hard(needle.cos)).to_degrees();
    assert!((angle - 10.0).abs() < 0.01);
    for degree in 0..360 {
        assert_eq!(scan.is_white[degree], (40..61).contains(&degree));
    }
    let scan = scan_angles(&[], 20, &ring, &directions(), &params);
    assert!(scan.edges.is_none() && scan.target_angle.is_none() && scan.needle.is_none());
}

#[test]
fn a_circle_needs_room_around_it() {
    assert!(circle(960, 530, 65).leaves_room());
    assert!(circle(0, u32::MAX, 65).leaves_room());
    assert!(circle(960, 530, 16_777_213).leaves_room());
    assert!(!circle(960, 530, 16_777_214).leaves_room());
    assert!(circle(0x7fff_ffff - 67, 530, 65).leaves_room());
    assert!(!circle(0x7fff_ffff - 66, 530, 65).leaves_room());
    assert!(!circle(0x8000_0000, 530, 65).leaves_room());
}

#[test]
fn hues_just_before_red_stay_below_a_turn() {
    for blue in 1..=255u8 {
        let (h, _, _) = bgr_to_hsv(blue, blue - 1, 255);
        assert!(hard(h) < 360.0 && hard(h) >= 300.0, "{blue}");
    }
    assert!(hard(bgr_to_hsv(1, 0, 255).0) < 359.8);
}

#[test]
fn saturation_and_value_do_not_depend_on_the_channel() {
    for i in 0..5_000u32 {
        let bits = i.wrapping_mul(2_654_435_761);
        let (x, y, z) = (bits as u8, (bits >> 8) as u8, (bits >> 16) as u8);
        let (_, s, v) = bgr_to_hsv(x, y, z);
        for (b, g, r) in [(y, x, z), (x, z, y), (z, y, x), (y, z, x), (z, x, y)] {
            let (_, other_s, other_v) = bgr_to_hsv(b, g, r);
            assert_eq!((other_s, other_v), (s, v));
        }
    }
}

#[test]
fn patterns_move_with_the_center() {
    let directions = directions();
    let here = generate_patterns(&circle(150, 160, 65), &directions);
    let there = generate_patterns(&circle(150 + 37, 160 - 140, 65), &directions);
    for (from, to) in [(&here.0, &there.0), (&here.1, &there.1), (&here.2, &there.2)] {
        assert_eq!(from.len(), to.len());
        for (p, q) in from.iter().zip(to) {
            assert_eq!(q.x as i32, p.x as i32 + 37);
            assert_eq!(q.y as i32, p.y as i32 - 140);
        }
    }
}
