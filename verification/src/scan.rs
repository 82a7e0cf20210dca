//! Sweeping the ring: the white success zone and the red needle.

use crate::binary32::{integer, less, quotient_of, sum_of, Binary32};
use crate::color::{
    bgr_to_hsv, hue_of, is_red_color, is_white_color, red, saturation_of, value_of, white,
};
use crate::params::SkillCheckParams;
use crate::pixels::{Direction, Pixel};
use vstd::prelude::*;

verus! {

/// Where a pixel's four bytes begin in a frame.
pub open spec fn offset_of(pixel: Pixel, stride: nat) -> nat {
    pixel.y as nat * stride + pixel.x as nat * 4
}

/// The frame holds all four bytes of a pixel.
pub open spec fn in_frame(image: Seq<u8>, stride: nat, pixel: Pixel) -> bool {
    offset_of(pixel, stride) + 3 < image.len()
}

/// The offsets of all pixels can be computed as `usize`.
pub open spec fn offsets_fit(pattern: Seq<Pixel>, stride: nat) -> bool {
    forall|i: int|
        0 <= i < pattern.len() ==> offset_of(#[trigger] pattern[i], stride) + 3 <= usize::MAX
}

pub open spec fn value_at(image: Seq<u8>, stride: nat, pixel: Pixel) -> Binary32 {
    let at = offset_of(pixel, stride) as int;
    value_of(image[at], image[at + 1], image[at + 2])
}

pub open spec fn saturation_at(image: Seq<u8>, stride: nat, pixel: Pixel) -> Binary32 {
    let at = offset_of(pixel, stride) as int;
    saturation_of(image[at], image[at + 1], image[at + 2])
}

pub open spec fn hue_at(image: Seq<u8>, stride: nat, pixel: Pixel) -> Binary32 {
    let at = offset_of(pixel, stride) as int;
    hue_of(image[at], image[at + 1], image[at + 2])
}

pub open spec fn dark_at(image: Seq<u8>, stride: nat, pixel: Pixel, threshold: Binary32) -> bool {
    in_frame(image, stride, pixel) && less(value_at(image, stride, pixel), threshold)
}

pub open spec fn grey_at(
    image: Seq<u8>,
    stride: nat,
    pixel: Pixel,
    vmin: Binary32,
    vmax: Binary32,
    smax: Binary32,
) -> bool {
    &&& in_frame(image, stride, pixel)
    &&& less(vmin, value_at(image, stride, pixel))
    &&& less(value_at(image, stride, pixel), vmax)
    &&& less(saturation_at(image, stride, pixel), smax)
}

pub open spec fn red_at(
    image: Seq<u8>,
    stride: nat,
    pixel: Pixel,
    params: SkillCheckParams,
) -> bool {
    in_frame(image, stride, pixel) && red(
        hue_at(image, stride, pixel),
        saturation_at(image, stride, pixel),
        value_at(image, stride, pixel),
        params,
    )
}

pub open spec fn white_at(
    image: Seq<u8>,
    stride: nat,
    pixel: Pixel,
    params: SkillCheckParams,
) -> bool {
    in_frame(image, stride, pixel) && white(
        saturation_at(image, stride, pixel),
        value_at(image, stride, pixel),
        params,
    )
}

/// How many pixels of a pattern pass a test.
pub open spec fn count(pattern: Seq<Pixel>, test: spec_fn(Pixel) -> bool) -> nat {
    pattern.filter(test).len()
}

proof fn lemma_count_step(pattern: Seq<Pixel>, test: spec_fn(Pixel) -> bool, i: int)
    requires
        0 <= i < pattern.len(),
    ensures
        count(pattern.take(i + 1), test) == count(pattern.take(i), test) + (if test(pattern[i]) {
            1nat
        } else {
            0nat
        }),
{
    reveal(Seq::filter);
    assert(pattern.take(i + 1).drop_last() =~= pattern.take(i));
}

/// Whether every offset of a pattern can be computed as `usize`.
pub fn pattern_fits(pattern: &[Pixel], stride: usize) -> (fits: bool)
    ensures
        fits == offsets_fit(pattern@, stride as nat),
{
    let mut i: usize = 0;
    while i < pattern.len()
        invariant
            i <= pattern.len(),
            forall|j: int|
                0 <= j < i ==> offset_of(#[trigger] pattern@[j], stride as nat) + 3 <= usize::MAX,
        decreases pattern.len() - i,
    {
        let pixel: Pixel = pattern[i];
        assert(pixel.y * stride <= 0xffff_ffff * 0xffff_ffff_ffff_ffff) by (nonlinear_arith)
            requires
                0 <= pixel.y <= 0xffff_ffff,
                0 <= stride <= 0xffff_ffff_ffff_ffff,
        ;
        let last: u128 = pixel.y as u128 * stride as u128 + pixel.x as u128 * 4 + 3;
        if last > usize::MAX as u128 {
            assert(offset_of(pattern@[i as int], stride as nat) + 3 > usize::MAX);
            return false;
        }
        i = i + 1;
    }
    true
}

/// Counts the dark pixels of the progress area.
pub fn count_dark_inner(
    image: &[u8],
    stride: usize,
    inner: &[Pixel],
    threshold: Binary32,
) -> (dark: usize)
    requires
        offsets_fit(inner@, stride as nat),
    ensures
        dark == count(inner@, |p: Pixel| dark_at(image@, stride as nat, p, threshold)),
{
    let ghost test = |p: Pixel| dark_at(image@, stride as nat, p, threshold);
    let mut dark: usize = 0;
    let mut i: usize = 0;
    proof {
        reveal(Seq::filter);
        assert(inner@.take(0) =~= Seq::<Pixel>::empty());
    }
    while i < inner.len()
        invariant
            i <= inner.len(),
            dark <= i,
            offsets_fit(inner@, stride as nat),
            test == (|p: Pixel| dark_at(image@, stride as nat, p, threshold)),
            dark == count(inner@.take(i as int), test),
        decreases inner.len() - i,
    {
        let pixel: Pixel = inner[i];
        assert(offset_of(inner@[i as int], stride as nat) + 3 <= usize::MAX);
        proof {
            lemma_count_step(inner@, test, i as int);
        }
        let at: usize = pixel_offset(pixel, stride);
        if at + 3 < image.len() {
            let (_, _, v) = bgr_to_hsv(image[at], image[at + 1], image[at + 2]);
            if v.lt(threshold) {
                dark = dark + 1;
            }
        }
        i = i + 1;
    }
    assert(inner@.take(inner@.len() as int) =~= inner@);
    dark
}

fn pixel_offset(pixel: Pixel, stride: usize) -> (offset: usize)
    requires
        offset_of(pixel, stride as nat) + 3 <= usize::MAX,
    ensures
        offset == offset_of(pixel, stride as nat),
{
    assert(pixel.y * stride >= 0) by (nonlinear_arith)
        requires
            pixel.y >= 0,
            stride >= 0,
    ;
    pixel.y as usize * stride + pixel.x as usize * 4
}

/// Counts the grey pixels of the ring.
pub fn count_grey_ring(
    image: &[u8],
    stride: usize,
    circle: &[Pixel],
    vmin: Binary32,
    vmax: Binary32,
    smax: Binary32,
) -> (grey: usize)
    requires
        offsets_fit(circle@, stride as nat),
    ensures
        grey == count(
            circle@,
            |p: Pixel| grey_at(image@, stride as nat, p, vmin, vmax, smax),
        ),
{
    let ghost test = |p: Pixel| grey_at(image@, stride as nat, p, vmin, vmax, smax);
    let mut grey: usize = 0;
    let mut i: usize = 0;
    proof {
        reveal(Seq::filter);
        assert(circle@.take(0) =~= Seq::<Pixel>::empty());
    }
    while i < circle.len()
        invariant
            i <= circle.len(),
            grey <= i,
            offsets_fit(circle@, stride as nat),
            test == (|p: Pixel| grey_at(image@, stride as nat, p, vmin, vmax, smax)),
            grey == count(circle@.take(i as int), test),
        decreases circle.len() - i,
    {
        let pixel: Pixel = circle[i];
        assert(offset_of(circle@[i as int], stride as nat) + 3 <= usize::MAX);
        proof {
            lemma_count_step(circle@, test, i as int);
        }
        let at: usize = pixel_offset(pixel, stride);
        if at + 3 < image.len() {
            let (_, s, v) = bgr_to_hsv(image[at], image[at + 1], image[at + 2]);
            if v.gt(vmin) && v.lt(vmax) && s.lt(smax) {
                grey = grey + 1;
            }
        }
        i = i + 1;
    }
    assert(circle@.take(circle@.len() as int) =~= circle@);
    grey
}

/// The degrees from `start` on, `length` of them, are all set; the circle may
/// be walked round once more, so that a run can cross 0.
pub open spec fn is_run(mask: Seq<bool>, start: int, length: int) -> bool {
    &&& 0 <= start
    &&& 0 <= length
    &&& start + length <= 720
    &&& forall|i: int| start <= i < start + length ==> mask[#[trigger] (i % 360)]
}

/// No run is longer, and none that is as long begins earlier.
pub open spec fn is_first_longest_run(mask: Seq<bool>, start: int, length: int) -> bool {
    &&& is_run(mask, start, length)
    &&& forall|s: int, n: int| #[trigger]
        is_run(mask, s, n) ==> n < length || (n == length && start <= s)
}

/// The start and the length of the first longest run.
pub open spec fn longest_run(mask: Seq<bool>) -> (int, int) {
    choose|run: (int, int)| is_first_longest_run(mask, run.0, run.1)
}

/// The degrees at which the success zone begins and ends; the end is past 360
/// where the zone crosses 0. A run of less than five degrees is no zone.
pub open spec fn white_edges(mask: Seq<bool>) -> Option<(Binary32, Binary32)> {
    let (run_start, length) = longest_run(mask);
    let start = run_start % 360;
    let end = (start + length) % 360;
    if length >= 5 {
        Some((integer(start), integer(if end <= start { end + 360 } else { end })))
    } else {
        None
    }
}

proof fn lemma_longest_run(mask: Seq<bool>, start: int, length: int)
    requires
        is_first_longest_run(mask, start, length),
    ensures
        longest_run(mask) == (start, length),
{
    let run = (start, length);
    assert(is_first_longest_run(mask, run.0, run.1));
    let chosen = longest_run(mask);
    assert(is_run(mask, chosen.0, chosen.1));
    assert(is_run(mask, start, length));
}

/// The edges of the success zone.
pub fn find_white_edges(angles_mask: &[bool; 360]) -> (edges: Option<(Binary32, Binary32)>)
    ensures
        edges == white_edges(angles_mask@),
{
    let ghost mask = angles_mask@;
    let mut best_start: usize = 0;
    let mut best_len: usize = 0;
    let mut cur_start: usize = 0;
    let mut cur_len: usize = 0;
    let ghost mut best: int = 0;
    let mut i: usize = 0;
    while i < 720
        invariant
            mask == angles_mask@,
            mask.len() == 360,
            i <= 720,
            cur_len <= i,
            cur_len > 0 ==> cur_start == (i - cur_len) % 360,
            best_start == best % 360,
            is_run(mask, i - cur_len, cur_len as int),
            i - cur_len > 0 ==> !mask[(i - cur_len - 1) % 360],
            is_run(mask, best, best_len as int),
            best + best_len <= i - cur_len,
            best_len == 0 ==> best == 0,
            forall|s: int, n: int|
                #![trigger is_run(mask, s, n)]
                is_run(mask, s, n) && s + n <= i - cur_len ==> n < best_len || (n == best_len
                    && best <= s),
        decreases 720 - i,
    {
        let index: usize = i % 360;
        if angles_mask[index] {
            if cur_len == 0 {
                cur_start = index;
            }
            cur_len = cur_len + 1;
        } else {
            proof {
                lemma_run_ends(mask, i as int, cur_len as int);
            }
            let ghost old_best = best;
            let ghost old_len = best_len;
            if cur_len > best_len {
                best_len = cur_len;
                best_start = cur_start;
                proof {
                    best = i - cur_len;
                }
            }
            proof {
                assert forall|s: int, n: int|
                    #![trigger is_run(mask, s, n)]
                    is_run(mask, s, n) && s + n <= i + 1 implies n < best_len || (n == best_len
                    && best <= s) by {
                    if n > 0 && s + n == i + 1 {
                        assert(mask[(s + n - 1) % 360]);
                    }
                }
            }
            cur_len = 0;
        }
        i = i + 1;
    }
    proof {
        lemma_run_ends(mask, 720, cur_len as int);
    }
    if cur_len > best_len {
        best_len = cur_len;
        best_start = cur_start;
        proof {
            best = 720 - cur_len;
        }
    }
    proof {
        assert(is_first_longest_run(mask, best, best_len as int)) by {
            assert forall|s: int, n: int| #[trigger] is_run(mask, s, n) implies n < best_len || (n
                == best_len && best <= s) by {}
        }
        lemma_longest_run(mask, best, best_len as int);
    }
    if best_len >= 5 {
        let end: usize = (best_start + best_len) % 360;
        let last: usize = if end <= best_start { end + 360 } else { end };
        Some((Binary32::from_u64(best_start as u64), Binary32::from_u64(last as u64)))
    } else {
        None
    }
}

/// A run that ends by `end` lies within the last one, or ends before it begins.
proof fn lemma_run_ends(mask: Seq<bool>, end: int, last: int)
    requires
        0 <= last <= end <= 720,
        end - last > 0 ==> !mask[(end - last - 1) % 360],
    ensures
        forall|s: int, n: int|
            #![trigger is_run(mask, s, n)]
            is_run(mask, s, n) && s + n <= end ==> s + n <= end - last || n == 0 || (s >= end - last
                && n <= last),
{
    assert forall|s: int, n: int|
        #![trigger is_run(mask, s, n)]
        is_run(mask, s, n) && s + n <= end implies s + n <= end - last || n == 0 || (s >= end - last
        && n <= last) by {
        if n > 0 && s + n > end - last && s < end - last {
            assert(mask[(end - last - 1) % 360]);
        }
    }
}

/// The number of set degrees from `low` up to, not including, `high`.
pub open spec fn set_between(mask: Seq<bool>, low: int, high: int) -> nat
    decreases high - low,
{
    if high <= low {
        0
    } else {
        set_between(mask, low, high - 1) + (if mask[high - 1] {
            1nat
        } else {
            0nat
        })
    }
}

/// The cosines of the set degrees below `end`, added up from 0 on.
pub open spec fn cosine_sum(mask: Seq<bool>, directions: Seq<Direction>, end: int) -> Binary32
    decreases end,
{
    if end <= 0 {
        integer(0)
    } else {
        let before = cosine_sum(mask, directions, end - 1);
        if mask[end - 1] {
            sum_of(before, directions[end - 1].cos)
        } else {
            before
        }
    }
}

/// The sines of the set degrees below `end`, added up from 0 on.
pub open spec fn sine_sum(mask: Seq<bool>, directions: Seq<Direction>, end: int) -> Binary32
    decreases end,
{
    if end <= 0 {
        integer(0)
    } else {
        let before = sine_sum(mask, directions, end - 1);
        if mask[end - 1] {
            sum_of(before, directions[end - 1].sin)
        } else {
            before
        }
    }
}

/// The direction in which the set degrees point together; fewer than three
/// point nowhere.
pub open spec fn cluster_direction(mask: Seq<bool>, directions: Seq<Direction>) -> Option<
    Direction,
> {
    if set_between(mask, 0, 360) < 3 {
        None
    } else {
        Some(
            Direction {
                cos: cosine_sum(mask, directions, 360),
                sin: sine_sum(mask, directions, 360),
            },
        )
    }
}

/// The circular mean of a mask over the circle, as a direction: its angle is
/// the arc tangent of `sin` and `cos`.
pub fn find_cluster_center(angles_mask: &[bool; 360], directions: &[Direction]) -> (center: Option<
    Direction,
>)
    requires
        directions@.len() == 360,
    ensures
        center == cluster_direction(angles_mask@, directions@),
{
    let mut sum_cos: Binary32 = Binary32::from_u64(0);
    let mut sum_sin: Binary32 = Binary32::from_u64(0);
    let mut count: usize = 0;
    let mut angle: usize = 0;
    while angle < 360
        invariant
            angle <= 360,
            directions@.len() == 360,
            count <= angle,
            count == set_between(angles_mask@, 0, angle as int),
            sum_cos == cosine_sum(angles_mask@, directions@, angle as int),
            sum_sin == sine_sum(angles_mask@, directions@, angle as int),
        decreases 360 - angle,
    {
        if angles_mask[angle] {
            sum_cos = sum_cos.plus(directions[angle].cos);
            sum_sin = sum_sin.plus(directions[angle].sin);
            count = count + 1;
        }
        angle = angle + 1;
    }
    if count < 3 {
        None
    } else {
        Some(Direction { cos: sum_cos, sin: sum_sin })
    }
}

/// White on the left and on the right: more than five degrees of each zone.
pub open spec fn wiggle(mask: Seq<bool>) -> bool {
    &&& set_between(mask, 160, 200) > 5
    &&& set_between(mask, 0, 20) + set_between(mask, 340, 360) > 5
}

fn count_between(mask: &[bool; 360], low: usize, high: usize) -> (count: usize)
    requires
        low <= high <= 360,
    ensures
        count == set_between(mask@, low as int, high as int),
        count <= 360,
{
    let mut count: usize = 0;
    let mut angle: usize = low;
    while angle < high
        invariant
            low <= angle <= high <= 360,
            count <= angle - low,
            count == set_between(mask@, low as int, angle as int),
        decreases high - angle,
    {
        if mask[angle] {
            count = count + 1;
        }
        angle = angle + 1;
    }
    count
}

/// Whether the white pattern is that of a wiggle.
pub fn is_wiggle(is_white: &[bool; 360]) -> (result: bool)
    ensures
        result == wiggle(is_white@),
{
    let left_count: usize = count_between(is_white, 160, 200);
    let right_count: usize = count_between(is_white, 0, 20) + count_between(is_white, 340, 360);
    left_count > 5 && right_count > 5
}

/// What a sweep of the ring found.
#[derive(Clone, Copy, Debug)]
pub struct AngleScan {
    /// The middle of the success zone, in degrees.
    pub target_angle: Option<Binary32>,
    /// The direction of the needle, as sums of cosines and sines.
    pub needle: Option<Direction>,
    /// The edges of the success zone, in degrees.
    pub edges: Option<(Binary32, Binary32)>,
    /// Which degrees are white.
    pub is_white: [bool; 360],
}

/// The degrees at which one of the five ring pixels is red.
pub open spec fn red_mask(
    image: Seq<u8>,
    stride: nat,
    ring: Seq<Pixel>,
    params: SkillCheckParams,
) -> Seq<bool> {
    Seq::new(
        360,
        |angle: int|
            exists|k: int| 0 <= k < 5 && red_at(image, stride, #[trigger] ring[angle * 5 + k], params),
    )
}

/// The degrees at which one of the five ring pixels is white.
pub open spec fn white_mask(
    image: Seq<u8>,
    stride: nat,
    ring: Seq<Pixel>,
    params: SkillCheckParams,
) -> Seq<bool> {
    Seq::new(
        360,
        |angle: int|
            exists|k: int|
                0 <= k < 5 && white_at(image, stride, #[trigger] ring[angle * 5 + k], params),
    )
}

/// The middle between two edges.
pub open spec fn middle_of(edges: Option<(Binary32, Binary32)>) -> Option<Binary32> {
    match edges {
        Some((start, end)) => Some(quotient_of(sum_of(start, end), integer(2))),
        None => None,
    }
}

/// What a sweep of the ring found, with the white degrees as a sequence.
#[verifier::ext_equal]
pub struct Sweep {
    pub target_angle: Option<Binary32>,
    pub needle: Option<Direction>,
    pub edges: Option<(Binary32, Binary32)>,
    pub is_white: Seq<bool>,
}

impl View for AngleScan {
    type V = Sweep;

    open spec fn view(&self) -> Sweep {
        Sweep {
            target_angle: self.target_angle,
            needle: self.needle,
            edges: self.edges,
            is_white: self.is_white@,
        }
    }
}

/// What a sweep of the ring finds in a frame.
pub open spec fn sweep(
    image: Seq<u8>,
    stride: nat,
    ring: Seq<Pixel>,
    directions: Seq<Direction>,
    params: SkillCheckParams,
) -> Sweep {
    let whites = white_mask(image, stride, ring, params);
    Sweep {
        target_angle: middle_of(white_edges(whites)),
        needle: cluster_direction(red_mask(image, stride, ring, params), directions),
        edges: white_edges(whites),
        is_white: whites,
    }
}

/// Sweeps the circle for the success zone and the needle.
pub fn scan_angles(
    image: &[u8],
    stride: usize,
    circle_pattern: &[Pixel],
    directions: &[Direction],
    params: &SkillCheckParams,
) -> (scan: AngleScan)
    requires
        circle_pattern@.len() >= 1800,
        directions@.len() == 360,
        offsets_fit(circle_pattern@, stride as nat),
    ensures
        scan@ == sweep(image@, stride as nat, circle_pattern@, directions@, *params),
{
    let ghost reds = red_mask(image@, stride as nat, circle_pattern@, *params);
    let ghost whites = white_mask(image@, stride as nat, circle_pattern@, *params);
    let mut is_red: [bool; 360] = [false;360];
    let mut is_white: [bool; 360] = [false;360];
    let mut angle: usize = 0;
    while angle < 360
        invariant
            angle <= 360,
            circle_pattern@.len() >= 1800,
            offsets_fit(circle_pattern@, stride as nat),
            reds == red_mask(image@, stride as nat, circle_pattern@, *params),
            whites == white_mask(image@, stride as nat, circle_pattern@, *params),
            forall|a: int| 0 <= a < angle ==> is_red@[a] == reds[a] && is_white@[a] == whites[a],
            forall|a: int| angle <= a < 360 ==> !is_red@[a] && !is_white@[a],
        decreases 360 - angle,
    {
        let mut k: usize = 0;
        let mut found_red: bool = false;
        let mut found_white: bool = false;
        while k < 5
            invariant
                k <= 5,
                angle < 360,
                circle_pattern@.len() >= 1800,
                offsets_fit(circle_pattern@, stride as nat),
                found_red <==> exists|j: int|
                    0 <= j < k && red_at(
                        image@,
                        stride as nat,
                        #[trigger] circle_pattern@[angle * 5 + j],
                        *params,
                    ),
                found_white <==> exists|j: int|
                    0 <= j < k && white_at(
                        image@,
                        stride as nat,
                        #[trigger] circle_pattern@[angle * 5 + j],
                        *params,
                    ),
            decreases 5 - k,
        {
            let pixel: Pixel = circle_pattern[angle * 5 + k];
            assert(offset_of(circle_pattern@[angle * 5 + k], stride as nat) + 3 <= usize::MAX);
            let at: usize = pixel_offset(pixel, stride);
            if at + 3 < image.len() {
                let (h, s, v) = bgr_to_hsv(image[at], image[at + 1], image[at + 2]);
                if is_red_color(h, s, v, params) {
                    found_red = true;
                }
                if is_white_color(h, s, v, params) {
                    found_white = true;
                }
            }
            k = k + 1;
        }
        is_red[angle] = found_red;
        is_white[angle] = found_white;
        angle = angle + 1;
    }
    assert(is_red@ =~= reds);
    assert(is_white@ =~= whites);
    let edges: Option<(Binary32, Binary32)> = find_white_edges(&is_white);
    let target_angle: Option<Binary32> = match edges {
        Some((start, end)) => Some(start.plus(end).over(Binary32::from_u64(2))),
        None => None,
    };
    let needle: Option<Direction> = find_cluster_center(&is_red, directions);
    AngleScan { target_angle, needle, edges, is_white }
}

} // verus!
