//! What is counted and found in a frame, from its bytes.

use crate::binary32::{
    at_most, integer, lemma_nearest, less, precision, quotient_of, sum_of, unit_exponent, Binary32,
};
use crate::bounds::lemma_sum_exact;
use crate::color::hue_of;
use crate::laws::colors::{colorfulness, largest, lemma_shade, share};
use crate::laws::edges::{lemma_longest, lemma_run_is_zone};
use crate::laws::searching::{lemma_set_counted, set_degrees};
use crate::order::{lemma_encode_power, lemma_integer_exact, lemma_units_zero};
use crate::params::SkillCheckParams;
use crate::pixels::{Direction, Pixel};
use crate::rounding::{lemma_encode_monotone, lemma_encode_scales, lemma_representable};
use crate::scan::{
    cosine_sum, count, count_dark_inner, count_grey_ring, dark_at, find_cluster_center,
    find_white_edges, grey_at, is_run, longest_run, red_at, red_mask, scan_angles, sine_sum,
    white_at, white_edges, white_mask, AngleScan,
};
use vstd::arithmetic::power2::{
    lemma2_to64, lemma_pow2_adds, lemma_pow2_pos, lemma_pow2_unfold, pow2,
};
use vstd::prelude::*;
use vstd::set_lib::{lemma_int_range, set_int_range};

verus! {

/// Where the bytes of a pixel begin, in rows of `stride` bytes.
pub open spec fn first_byte(stride: nat, pixel: Pixel) -> int {
    pixel.y * stride + 4 * pixel.x
}

/// A pixel of the frame, all four bytes of it, that is dimmer than a threshold.
pub open spec fn looks_dark(image: Seq<u8>, stride: nat, pixel: Pixel, threshold: Binary32) -> bool {
    let at = first_byte(stride, pixel);
    at + 3 < image.len() && less(
        share(largest(image[at], image[at + 1], image[at + 2])),
        threshold,
    )
}

/// A pixel of the frame that is between two bounds in brightness and pale.
pub open spec fn looks_grey(
    image: Seq<u8>,
    stride: nat,
    pixel: Pixel,
    dimmest: Binary32,
    brightest: Binary32,
    palest: Binary32,
) -> bool {
    let at = first_byte(stride, pixel);
    let strength = share(largest(image[at], image[at + 1], image[at + 2]));
    &&& at + 3 < image.len()
    &&& less(dimmest, strength)
    &&& less(strength, brightest)
    &&& less(colorfulness(image[at], image[at + 1], image[at + 2]), palest)
}

/// A pixel of the frame that is pale and bright.
pub open spec fn looks_white(
    image: Seq<u8>,
    stride: nat,
    pixel: Pixel,
    params: SkillCheckParams,
) -> bool {
    let at = first_byte(stride, pixel);
    &&& at + 3 < image.len()
    &&& less(colorfulness(image[at], image[at + 1], image[at + 2]), params.white_sat_max)
    &&& less(params.white_val_min, share(largest(image[at], image[at + 1], image[at + 2])))
}

/// A pixel of the frame with a hue outside a band, colorful and bright.
pub open spec fn looks_red(
    image: Seq<u8>,
    stride: nat,
    pixel: Pixel,
    params: SkillCheckParams,
) -> bool {
    let at = first_byte(stride, pixel);
    let hue = hue_of(image[at], image[at + 1], image[at + 2]);
    &&& at + 3 < image.len()
    &&& !at_most(params.red_hue_min, hue) || !at_most(hue, params.red_hue_max)
    &&& less(params.red_sat_min, colorfulness(image[at], image[at + 1], image[at + 2]))
    &&& less(params.red_val_min, share(largest(image[at], image[at + 1], image[at + 2])))
}

/// The places of a pattern at which a test holds.
pub open spec fn places(pattern: Seq<Pixel>, test: spec_fn(Pixel) -> bool) -> Set<int> {
    Set::new(|i: int| 0 <= i < pattern.len() && test(pattern[i]))
}

/// Counting pixels counts each place of the pattern once.
pub(crate) proof fn lemma_places_counted(pattern: Seq<Pixel>, test: spec_fn(Pixel) -> bool)
    ensures
        places(pattern, test).finite(),
        places(pattern, test).len() == count(pattern, test),
    decreases pattern.len(),
{
    reveal(Seq::filter);
    let all = places(pattern, test);
    if pattern.len() == 0 {
        assert(all =~= Set::empty());
    } else {
        let before = pattern.drop_last();
        lemma_places_counted(before, test);
        let last = pattern.len() - 1;
        if test(pattern.last()) {
            assert(all =~= places(before, test).insert(last));
        } else {
            assert(all =~= places(before, test));
        }
    }
}

/// A pixel's looks are those of its bytes.
pub(crate) proof fn lemma_looks(image: Seq<u8>, stride: nat, pixel: Pixel)
    ensures
        forall|threshold: Binary32|
            looks_dark(image, stride, pixel, threshold) == #[trigger] dark_at(
                image,
                stride,
                pixel,
                threshold,
            ),
        forall|a: Binary32, b: Binary32, c: Binary32|
            looks_grey(image, stride, pixel, a, b, c) == #[trigger] grey_at(
                image,
                stride,
                pixel,
                a,
                b,
                c,
            ),
        forall|params: SkillCheckParams|
            looks_white(image, stride, pixel, params) == #[trigger] white_at(
                image,
                stride,
                pixel,
                params,
            ),
        forall|params: SkillCheckParams|
            looks_red(image, stride, pixel, params) == #[trigger] red_at(
                image,
                stride,
                pixel,
                params,
            ),
{
    let at = first_byte(stride, pixel);
    lemma_shade(image[at], image[at + 1], image[at + 2]);
}

/// The dark pixels are those of the progress area that are in the frame and
/// dimmer than the threshold.
pub proof fn lemma_dark_counted(
    image: &[u8],
    stride: usize,
    inner: &[Pixel],
    threshold: Binary32,
    dark: usize,
)
    requires
        call_ensures(count_dark_inner, (image, stride, inner, threshold), dark),
    ensures
        dark == places(
            inner@,
            |p: Pixel| looks_dark(image@, stride as nat, p, threshold),
        ).len(),
{
    let test = |p: Pixel| dark_at(image@, stride as nat, p, threshold);
    lemma_places_counted(inner@, test);
    let seen = |p: Pixel| looks_dark(image@, stride as nat, p, threshold);
    assert forall|p: Pixel| seen(p) == #[trigger] test(p) by {
        lemma_looks(image@, stride as nat, p);
    }
    assert(places(inner@, seen) =~= places(inner@, test));
}

/// The grey pixels are those of the ring that are in the frame, brighter than
/// the lower bound, dimmer than the upper one, and less colorful than the
/// settings allow.
pub proof fn lemma_grey_counted(
    image: &[u8],
    stride: usize,
    circle: &[Pixel],
    vmin: Binary32,
    vmax: Binary32,
    smax: Binary32,
    grey: usize,
)
    requires
        call_ensures(count_grey_ring, (image, stride, circle, vmin, vmax, smax), grey),
    ensures
        grey == places(
            circle@,
            |p: Pixel| looks_grey(image@, stride as nat, p, vmin, vmax, smax),
        ).len(),
{
    let test = |p: Pixel| grey_at(image@, stride as nat, p, vmin, vmax, smax);
    lemma_places_counted(circle@, test);
    let seen = |p: Pixel| looks_grey(image@, stride as nat, p, vmin, vmax, smax);
    assert forall|p: Pixel| seen(p) == #[trigger] test(p) by {
        lemma_looks(image@, stride as nat, p);
    }
    assert(places(circle@, seen) =~= places(circle@, test));
}

/// A ring of which no pixel is pale enough, or none bright or dim enough,
/// counts as not grey at all; one of which every pixel is both counts in full.
pub proof fn lemma_grey_all_or_none(
    image: &[u8],
    stride: usize,
    circle: &[Pixel],
    vmin: Binary32,
    vmax: Binary32,
    smax: Binary32,
    grey: usize,
)
    requires
        call_ensures(count_grey_ring, (image, stride, circle, vmin, vmax, smax), grey),
    ensures
        (forall|i: int|
            0 <= i < circle@.len() ==> !looks_grey(
                image@,
                stride as nat,
                #[trigger] circle@[i],
                vmin,
                vmax,
                smax,
            )) ==> grey == 0,
        (forall|i: int|
            0 <= i < circle@.len() ==> looks_grey(
                image@,
                stride as nat,
                #[trigger] circle@[i],
                vmin,
                vmax,
                smax,
            )) ==> grey == circle@.len(),
{
    lemma_grey_counted(image, stride, circle, vmin, vmax, smax, grey);
    let seen = |p: Pixel| looks_grey(image@, stride as nat, p, vmin, vmax, smax);
    let all = places(circle@, seen);
    if forall|i: int| 0 <= i < circle@.len() ==> !seen(#[trigger] circle@[i]) {
        assert(all =~= Set::empty());
    }
    if forall|i: int| 0 <= i < circle@.len() ==> seen(#[trigger] circle@[i]) {
        assert(all =~= set_int_range(0, circle@.len() as int));
        lemma_int_range(0, circle@.len() as int);
    }
}

/// A degree is white exactly if one of its five ring pixels looks white.
pub proof fn lemma_white_degrees(
    image: &[u8],
    stride: usize,
    ring: &[Pixel],
    directions: &[Direction],
    params: &SkillCheckParams,
    scan: AngleScan,
    degree: int,
)
    requires
        call_ensures(scan_angles, (image, stride, ring, directions, params), scan),
        0 <= degree < 360,
    ensures
        scan.is_white@[degree] <==> exists|k: int|
            5 * degree <= k < 5 * degree + 5 && looks_white(
                image@,
                stride as nat,
                #[trigger] ring@[k],
                *params,
            ),
{
    let whites = white_mask(image@, stride as nat, ring@, *params);
    assert(scan.is_white@ == whites);
    if whites[degree] {
        let k = choose|k: int|
            0 <= k < 5 && white_at(
                image@,
                stride as nat,
                #[trigger] ring@[degree * 5 + k],
                *params,
            );
        lemma_looks(image@, stride as nat, ring@[degree * 5 + k]);
        assert(looks_white(image@, stride as nat, ring@[degree * 5 + k], *params));
    }
    if exists|k: int|
        5 * degree <= k < 5 * degree + 5 && looks_white(
            image@,
            stride as nat,
            #[trigger] ring@[k],
            *params,
        ) {
        let k = choose|k: int|
            5 * degree <= k < 5 * degree + 5 && looks_white(
                image@,
                stride as nat,
                #[trigger] ring@[k],
                *params,
            );
        lemma_looks(image@, stride as nat, ring@[k]);
        let j = k - 5 * degree;
        assert(ring@[degree * 5 + j] == ring@[k]);
        assert(white_at(image@, stride as nat, ring@[degree * 5 + j], *params));
    }
}

/// A degree at which one of the five ring pixels looks red.
pub open spec fn is_red_degree(
    image: Seq<u8>,
    stride: nat,
    ring: Seq<Pixel>,
    params: SkillCheckParams,
    degree: int,
) -> bool {
    exists|k: int|
        5 * degree <= k < 5 * degree + 5 && looks_red(image, stride, #[trigger] ring[k], params)
}

/// Cosines or sines of the set degrees, added up one degree after the other.
pub open spec fn adds_up(
    sums: Seq<Binary32>,
    parts: Seq<Binary32>,
    is_set: spec_fn(int) -> bool,
) -> bool {
    &&& sums.len() == 361
    &&& sums[0] == integer(0)
    &&& forall|d: int|
        0 <= d < 360 ==> #[trigger] sums[d + 1] == if is_set(d) {
            sum_of(sums[d], parts[d])
        } else {
            sums[d]
        }
}

/// The cosines of all directions.
pub open spec fn cosines(directions: Seq<Direction>) -> Seq<Binary32> {
    Seq::new(directions.len(), |i: int| directions[i].cos)
}

/// The sines of all directions.
pub open spec fn sines(directions: Seq<Direction>) -> Seq<Binary32> {
    Seq::new(directions.len(), |i: int| directions[i].sin)
}

proof fn lemma_added_up(
    mask: Seq<bool>,
    directions: Seq<Direction>,
    cosine_sums: Seq<Binary32>,
    sine_sums: Seq<Binary32>,
    end: int,
)
    requires
        directions.len() == 360,
        adds_up(cosine_sums, cosines(directions), |d: int| mask[d]),
        adds_up(sine_sums, sines(directions), |d: int| mask[d]),
        0 <= end <= 360,
    ensures
        cosine_sum(mask, directions, end) == cosine_sums[end],
        sine_sum(mask, directions, end) == sine_sums[end],
    decreases end,
{
    if end > 0 {
        lemma_added_up(mask, directions, cosine_sums, sine_sums, end - 1);
        assert(cosine_sums[end - 1 + 1] == if mask[end - 1] {
            sum_of(cosine_sums[end - 1], cosines(directions)[end - 1])
        } else {
            cosine_sums[end - 1]
        });
        assert(sine_sums[end - 1 + 1] == if mask[end - 1] {
            sum_of(sine_sums[end - 1], sines(directions)[end - 1])
        } else {
            sine_sums[end - 1]
        });
    }
}

/// Set degrees have a center exactly if there are at least three of them: their
/// cosines and their sines, added up.
pub proof fn lemma_cluster_center(
    mask: &[bool; 360],
    directions: &[Direction],
    center: Option<Direction>,
    cosine_sums: Seq<Binary32>,
    sine_sums: Seq<Binary32>,
)
    requires
        call_ensures(find_cluster_center, (mask, directions), center),
        directions@.len() == 360,
        adds_up(cosine_sums, cosines(directions@), |d: int| mask@[d]),
        adds_up(sine_sums, sines(directions@), |d: int| mask@[d]),
    ensures
        set_degrees(mask@, 0, 360).len() < 3 ==> center is None,
        set_degrees(mask@, 0, 360).len() >= 3 ==> center == Some(
            Direction { cos: cosine_sums.last(), sin: sine_sums.last() },
        ),
{
    lemma_set_counted(mask@, 0, 360);
    lemma_added_up(mask@, directions@, cosine_sums, sine_sums, 360);
}

/// A needle is found exactly if at least three degrees are red: its direction is
/// made of the cosines and the sines of all of them.
pub proof fn lemma_needle_direction(
    image: &[u8],
    stride: usize,
    ring: &[Pixel],
    directions: &[Direction],
    params: &SkillCheckParams,
    scan: AngleScan,
    cosine_sums: Seq<Binary32>,
    sine_sums: Seq<Binary32>,
)
    requires
        call_ensures(scan_angles, (image, stride, ring, directions, params), scan),
        directions@.len() == 360,
        adds_up(
            cosine_sums,
            cosines(directions@),
            |d: int| is_red_degree(image@, stride as nat, ring@, *params, d),
        ),
        adds_up(
            sine_sums,
            sines(directions@),
            |d: int| is_red_degree(image@, stride as nat, ring@, *params, d),
        ),
    ensures
        ({
            let reds = Set::new(
                |d: int|
                    0 <= d < 360 && is_red_degree(image@, stride as nat, ring@, *params, d),
            );
            &&& reds.len() < 3 ==> scan.needle is None
            &&& reds.len() >= 3 ==> scan.needle == Some(
                Direction { cos: cosine_sums.last(), sin: sine_sums.last() },
            )
        }),
{
    let mask = red_mask(image@, stride as nat, ring@, *params);
    let test = |d: int| is_red_degree(image@, stride as nat, ring@, *params, d);
    assert forall|d: int| 0 <= d < 360 implies test(d) == #[trigger] mask[d] by {
        lemma_red_degree(image@, stride as nat, ring@, *params, d);
    }
    let reds = Set::new(
        |d: int| 0 <= d < 360 && is_red_degree(image@, stride as nat, ring@, *params, d),
    );
    assert(reds =~= set_degrees(mask, 0, 360)) by {
        assert forall|d: int| reds.contains(d) == set_degrees(mask, 0, 360).contains(d) by {
            if 0 <= d < 360 {
                assert(test(d) == mask[d]);
            }
        }
    }
    lemma_set_counted(mask, 0, 360);
    assert forall|d: int| 0 <= d < 360 implies #[trigger] cosine_sums[d + 1] == if mask[d] {
        sum_of(cosine_sums[d], cosines(directions@)[d])
    } else {
        cosine_sums[d]
    } by {
        assert(test(d) == mask[d]);
    }
    assert forall|d: int| 0 <= d < 360 implies #[trigger] sine_sums[d + 1] == if mask[d] {
        sum_of(sine_sums[d], sines(directions@)[d])
    } else {
        sine_sums[d]
    } by {
        assert(test(d) == mask[d]);
    }
    assert(adds_up(cosine_sums, cosines(directions@), |d: int| mask[d]));
    assert(adds_up(sine_sums, sines(directions@), |d: int| mask[d]));
    lemma_added_up(mask, directions@, cosine_sums, sine_sums, 360);
}

proof fn lemma_looks_red(image: Seq<u8>, stride: nat, pixel: Pixel, params: SkillCheckParams)
    ensures
        looks_red(image, stride, pixel, params) == red_at(image, stride, pixel, params),
{
    lemma_looks(image, stride, pixel);
}

proof fn lemma_red_degree(
    image: Seq<u8>,
    stride: nat,
    ring: Seq<Pixel>,
    params: SkillCheckParams,
    degree: int,
)
    requires
        0 <= degree < 360,
    ensures
        is_red_degree(image, stride, ring, params, degree) == red_mask(
            image,
            stride,
            ring,
            params,
        )[degree],
{
    if red_mask(image, stride, ring, params)[degree] {
        let k = choose|k: int|
            0 <= k < 5 && red_at(image, stride, #[trigger] ring[degree * 5 + k], params);
        lemma_looks_red(image, stride, ring[degree * 5 + k], params);
        assert(looks_red(image, stride, ring[degree * 5 + k], params));
    }
    if is_red_degree(image, stride, ring, params, degree) {
        let k = choose|k: int|
            5 * degree <= k < 5 * degree + 5 && looks_red(
                image,
                stride,
                #[trigger] ring[k],
                params,
            );
        lemma_looks_red(image, stride, ring[k], params);
        let j = k - 5 * degree;
        assert(ring[degree * 5 + j] == ring[k]);
        assert(red_at(image, stride, ring[degree * 5 + j], params));
    }
}

/// So many degrees from a degree on are all set, going round at 360.
pub open spec fn all_set(mask: Seq<bool>, start: int, length: int) -> bool {
    forall|i: int| start <= i < start + length ==> mask[#[trigger] (i % 360)]
}

/// The zone from degree `start` to `end` is the longest of a mask: at least five
/// degrees, no more degrees in a row are set anywhere, and as many nowhere that
/// begins at a smaller degree.
pub open spec fn is_longest_zone(mask: Seq<bool>, start: int, end: int) -> bool {
    &&& 0 <= start < 360
    &&& start + 5 <= end <= start + 360
    &&& all_set(mask, start, end - start)
    &&& forall|other: int, length: int|
        0 <= other < 360 && 0 <= length <= 360 && #[trigger] all_set(mask, other, length) ==> length
            <= end - start && (length == end - start ==> start <= other)
}

proof fn lemma_longest_zone(mask: Seq<bool>)
    ensures
        white_edges(mask) matches Some((start, end)) ==> exists|s: int, e: int| #[trigger]
            is_longest_zone(mask, s, e) && start == integer(s) && end == integer(e),
        white_edges(mask) is None ==> forall|s: int| 0 <= s < 360 ==> !#[trigger] all_set(mask, s, 5),
{
    lemma_longest(mask);
    let (start, length) = longest_run(mask);
    if length >= 5 {
        lemma_run_is_zone(mask, start, length);
        let end = start + if length < 360 {
            length
        } else {
            360
        };
        assert(all_set(mask, start, end - start)) by {
            assert(is_run(mask, start, length));
        }
        assert forall|other: int, n: int|
            0 <= other < 360 && 0 <= n <= 360 && #[trigger] all_set(mask, other, n) implies n <= end
            - start && (n == end - start ==> start <= other) by {
            assert(is_run(mask, other, n));
            if length >= 360 {
                assert(start == 0);
            }
        }
        assert(is_longest_zone(mask, start, end));
    } else {
        assert forall|s: int| 0 <= s < 360 implies !#[trigger] all_set(mask, s, 5) by {
            if all_set(mask, s, 5) {
                assert(is_run(mask, s, 5));
            }
        }
    }
}

/// The edges are those of the longest zone of set degrees; there are none
/// exactly where no five degrees in a row are set.
pub proof fn lemma_edges_of_longest_zone(
    mask: &[bool; 360],
    edges: Option<(Binary32, Binary32)>,
)
    requires
        call_ensures(find_white_edges, (mask,), edges),
    ensures
        edges matches Some((start, end)) ==> exists|s: int, e: int| #[trigger]
            is_longest_zone(mask@, s, e) && start == integer(s) && end == integer(e),
        edges is None <==> forall|s: int| 0 <= s < 360 ==> !#[trigger] all_set(mask@, s, 5),
{
    lemma_longest_zone(mask@);
    if let Some((start, end)) = edges {
        let (s, e) = choose|s: int, e: int| #[trigger]
            is_longest_zone(mask@, s, e) && start == integer(s) && end == integer(e);
        assert(all_set(mask@, s, 5)) by {
            assert(all_set(mask@, s, e - s));
        }
    }
}

/// Half of a whole number of degrees is held exactly.
proof fn lemma_half_exact(sum: nat)
    requires
        sum < 0x100_0000,
    ensures
        quotient_of(integer(sum as int), integer(2)).finite(),
        2 * quotient_of(integer(sum as int), integer(2)).value() == sum * pow2(unit_exponent()),
{
    let unit = pow2(unit_exponent());
    let half = pow2(148);
    lemma_pow2_pos(148);
    lemma_pow2_unfold(149);
    lemma2_to64();
    lemma_integer_exact(sum);
    lemma_integer_exact(2);
    lemma_units_zero(integer(2));
    let num = integer(sum as int).units() * unit;
    let den = integer(2).units();
    assert(num == den * (sum * half) && den == den * 1) by (nonlinear_arith)
        requires
            num == (sum * unit) * unit,
            den == 2 * unit,
            unit == 2 * half,
    ;
    lemma_encode_scales(precision(), sum * half, 1, den);
    lemma_representable(precision(), sum, 148);
    lemma_nearest(false, num, den);
    lemma_encode_power(149);
    lemma_pow2_adds(24, 148);
    assert((sum * half) * 1 <= pow2(172) * 1) by (nonlinear_arith)
        requires
            sum <= 0x100_0000,
            pow2(172) == 0x100_0000 * half,
    ;
    lemma_encode_monotone(precision(), sum * half, 1, pow2(172), 1);
    assert(2 * (sum * half) == sum * unit) by (nonlinear_arith)
        requires
            unit == 2 * half,
    ;
}

/// The success zone of a sweep is the longest one of its white degrees, and the
/// target is exactly in its middle: as far from the one edge as from the other.
/// Without five white degrees in a row there is neither.
pub proof fn lemma_target_in_the_middle(
    image: &[u8],
    stride: usize,
    ring: &[Pixel],
    directions: &[Direction],
    params: &SkillCheckParams,
    scan: AngleScan,
)
    requires
        call_ensures(scan_angles, (image, stride, ring, directions, params), scan),
    ensures
        scan.edges is None <==> forall|s: int|
            0 <= s < 360 ==> !#[trigger] all_set(scan.is_white@, s, 5),
        scan.edges is None <==> scan.target_angle is None,
        scan.edges matches Some((start, end)) ==> {
            let target = scan.target_angle->0;
            &&& exists|s: int, e: int| #[trigger]
                is_longest_zone(scan.is_white@, s, e) && start == integer(s) && end == integer(e)
                    && target.finite() && 2 * target.value() == (s + e) * pow2(unit_exponent())
            &&& target.finite()
            &&& target.value() - start.value() == end.value() - target.value()
        },
{
    let mask = scan.is_white@;
    lemma_longest_zone(mask);
    if let Some((start, end)) = scan.edges {
        let (s, e) = choose|s: int, e: int| #[trigger]
            is_longest_zone(mask, s, e) && start == integer(s) && end == integer(e);
        assert(all_set(mask, s, 5)) by {
            assert(all_set(mask, s, e - s));
        }
        let unit = pow2(unit_exponent());
        lemma_integer_exact(s as nat);
        lemma_integer_exact(e as nat);
        lemma_sum_exact(s as nat, e as nat);
        lemma_half_exact((s + e) as nat);
        assert((s + e) * unit == s * unit + e * unit) by (nonlinear_arith);
        assert(is_longest_zone(mask, s, e));
    }
}

} // verus!
