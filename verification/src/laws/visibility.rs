//! When the widget counts as visible.

use crate::binary32::{
    at_most, difference_of, integer, less, negation_of, quotient_of, ratio, Binary32,
};
use crate::bounds::{lemma_negation, lemma_sum_monotone, lemma_zero_over_zero};
use crate::laws::frames::with_latency;
use crate::laws::sweeps::{lemma_looks, lemma_places_counted, looks_dark, looks_grey, places};
use crate::order::{lemma_count_share, lemma_rank_order};
use crate::params::SkillCheckParams;
use crate::pixels::{Direction, Pixel};
use crate::reading::{
    inner_ratio_of, is_visible, read_frame, reading_of, ring_ok, ring_ratio_of, takes_sweep,
    FrameReading,
};
use crate::scan::{
    count, dark_at, grey_at, red_at, red_mask, scan_angles, white_at, white_mask, AngleScan, Sweep,
};
use crate::state::{SkillCheckState, StateModel};
use vstd::prelude::*;

verus! {

/// The ring by itself shows no widget. Out of sight it changes nothing: enough
/// has to be dark. In sight it lowers what is enough, and where even that is
/// missed, more than 35 of 100 have to be dark and a sweep has to find zone
/// and needle.
pub proof fn lemma_ring_is_no_detector(
    active: bool,
    inner_ratio: Binary32,
    ring_ratio: Binary32,
    found: Sweep,
    params: SkillCheckParams,
)
    ensures
        ({
            let base = if active {
                params.inner_exit
            } else {
                params.inner_enter
            };
            let visible = is_visible(active, inner_ratio, ring_ratio, found, params);
            &&& !ring_ok(ring_ratio, params) ==> (visible <==> at_most(base, inner_ratio))
            &&& ring_ok(ring_ratio, params) ==> (visible <==> {
                ||| at_most(difference_of(base, params.ring_discount), inner_ratio)
                ||| {
                    &&& less(ratio(35, 100), inner_ratio)
                    &&& found.target_angle is Some
                    &&& found.needle is Some
                    &&& found.edges is Some
                }
            })
        }),
{
}

/// What is visible enough to be found is visible enough to be kept, given that
/// the settings ask for no more of the latter.
pub proof fn lemma_found_is_kept(
    inner_ratio: Binary32,
    ring_ratio: Binary32,
    found: Sweep,
    params: SkillCheckParams,
)
    requires
        params.inner_enter.finite(),
        params.inner_exit.finite(),
        params.ring_discount.finite(),
        at_most(params.inner_exit, params.inner_enter),
        is_visible(false, inner_ratio, ring_ratio, found, params),
    ensures
        is_visible(true, inner_ratio, ring_ratio, found, params),
{
    lemma_negation(params.ring_discount);
    lemma_rank_order(params.inner_exit, params.inner_enter);
    lemma_sum_monotone(params.inner_exit, params.inner_enter, negation_of(params.ring_discount));
}

/// Without a progress area there is nothing to see: the widget is not visible,
/// whatever the frame, and no sweep is taken.
pub proof fn lemma_nothing_to_see(
    image: Seq<u8>,
    stride: nat,
    ring: Seq<Pixel>,
    directions: Seq<Direction>,
    state: StateModel,
    params: SkillCheckParams,
)
    ensures
        ({
            let inner = Seq::<Pixel>::empty();
            &&& inner_ratio_of(image, stride, inner, params).nan()
            &&& !reading_of(image, stride, ring, inner, directions, state, params).visible
            &&& !takes_sweep(image, stride, ring, inner, state, params)
        }),
{
    let inner = Seq::<Pixel>::empty();
    let test = |p: Pixel| dark_at(image, stride, p, params.dark_value_threshold);
    assert(inner.filter(test) =~= Seq::<Pixel>::empty()) by {
        reveal(Seq::filter);
    }
    assert(count(inner, test) == 0);
    lemma_zero_over_zero();
}

/// The dark part of the progress area and the grey part of the ring are
/// between 0 and 1.
pub proof fn lemma_ratios_within_one(
    image: Seq<u8>,
    stride: nat,
    pattern: Seq<Pixel>,
    params: SkillCheckParams,
)
    requires
        0 < pattern.len() <= u64::MAX,
    ensures
        at_most(integer(0), inner_ratio_of(image, stride, pattern, params)),
        at_most(inner_ratio_of(image, stride, pattern, params), integer(1)),
        at_most(integer(0), ring_ratio_of(image, stride, pattern, params)),
        at_most(ring_ratio_of(image, stride, pattern, params), integer(1)),
{
    let dark = |p: Pixel| dark_at(image, stride, p, params.dark_value_threshold);
    let grey = |p: Pixel|
        grey_at(image, stride, p, params.grey_v_min, params.grey_v_max, params.grey_s_max);
    lemma_count_bounded(pattern, dark);
    lemma_count_bounded(pattern, grey);
    lemma_count_share(count(pattern, dark), pattern.len());
    lemma_count_share(count(pattern, grey), pattern.len());
}

proof fn lemma_count_bounded(pattern: Seq<Pixel>, test: spec_fn(Pixel) -> bool)
    ensures
        count(pattern, test) <= pattern.len(),
{
    pattern.lemma_filter_len(test);
}

/// The latency has no part in reading a frame.
pub proof fn lemma_latency_not_read(
    image: Seq<u8>,
    stride: nat,
    ring: Seq<Pixel>,
    inner: Seq<Pixel>,
    directions: Seq<Direction>,
    state: StateModel,
    params: SkillCheckParams,
    latency_ms: Binary32,
)
    ensures
        reading_of(
            image,
            stride,
            ring,
            inner,
            directions,
            state,
            with_latency(params, latency_ms),
        ) == reading_of(image, stride, ring, inner, directions, state, params),
{
    let other = with_latency(params, latency_ms);
    assert forall|p: Pixel|
        red_at(image, stride, p, other) == #[trigger] red_at(image, stride, p, params) by {}
    assert forall|p: Pixel|
        white_at(image, stride, p, other) == #[trigger] white_at(image, stride, p, params) by {}
    let reds = red_mask(image, stride, ring, params);
    let whites = white_mask(image, stride, ring, params);
    let other_reds = red_mask(image, stride, ring, other);
    let other_whites = white_mask(image, stride, ring, other);
    assert forall|angle: int| 0 <= angle < 360 implies other_reds[angle] == reds[angle] by {
        if other_reds[angle] {
            let k = choose|k: int|
                0 <= k < 5 && red_at(image, stride, #[trigger] ring[angle * 5 + k], other);
            assert(red_at(image, stride, ring[angle * 5 + k], params));
        }
    }
    assert forall|angle: int| 0 <= angle < 360 implies other_whites[angle] == whites[angle] by {
        if other_whites[angle] {
            let k = choose|k: int|
                0 <= k < 5 && white_at(image, stride, #[trigger] ring[angle * 5 + k], other);
            assert(white_at(image, stride, ring[angle * 5 + k], params));
        }
    }
    assert(other_reds =~= reds);
    assert(other_whites =~= whites);
}

/// What a frame is read as, from its bytes.
///
/// The dark part of the progress area and the grey part of the ring are counts
/// divided by counts. The widget is visible if the dark part is no less than a
/// threshold: one for finding it and one for keeping it, lowered where enough
/// of the ring is grey. With enough of the ring it is also visible if more than
/// 35 of 100 are dark and a sweep finds zone and needle. A sweep is kept of a
/// visible widget, unless its click is being waited out.
pub proof fn lemma_frame_read(
    pixels: &[u8],
    stride: usize,
    patterns: &(Vec<Pixel>, Vec<Pixel>, Vec<Pixel>),
    directions: &[Direction],
    state: &SkillCheckState,
    params: &SkillCheckParams,
    reading: FrameReading,
    ring: &[Pixel],
    found: AngleScan,
)
    requires
        call_ensures(read_frame, (pixels, stride, patterns, directions, state, params), reading),
        ring@ == patterns.0@,
        call_ensures(scan_angles, (pixels, stride, ring, directions, params), found),
    ensures
        ({
            let dark = places(
                patterns.1@,
                |p: Pixel| looks_dark(pixels@, stride as nat, p, params.dark_value_threshold),
            ).len();
            let grey = places(
                patterns.0@,
                |p: Pixel|
                    looks_grey(
                        pixels@,
                        stride as nat,
                        p,
                        params.grey_v_min,
                        params.grey_v_max,
                        params.grey_s_max,
                    ),
            ).len();
            let sees_ring = at_most(params.ring_boost, reading.ring_ratio);
            let base = if state is InSearch {
                params.inner_enter
            } else {
                params.inner_exit
            };
            &&& reading.inner_ratio == quotient_of(
                integer(dark as int),
                integer(patterns.1@.len() as int),
            )
            &&& reading.ring_ratio == quotient_of(
                integer(grey as int),
                integer(patterns.0@.len() as int),
            )
            &&& sees_ring ==> reading.inner_threshold == difference_of(base, params.ring_discount)
            &&& !sees_ring ==> reading.inner_threshold == base
            &&& reading.visible <==> {
                ||| at_most(reading.inner_threshold, reading.inner_ratio)
                ||| {
                    &&& sees_ring
                    &&& less(ratio(35, 100), reading.inner_ratio)
                    &&& found.target_angle is Some
                    &&& found.needle is Some
                    &&& found.edges is Some
                }
            }
            &&& reading.scan is Some <==> reading.visible && !(state is Basic
                && state->Basic_0.has_clicked)
            &&& reading.scan matches Some(scan) ==> {
                &&& scan.target_angle == found.target_angle
                &&& scan.needle == found.needle
                &&& scan.edges == found.edges
                &&& scan.is_white@ == found.is_white@
            }
        }),
{
    let dark = |p: Pixel| dark_at(pixels@, stride as nat, p, params.dark_value_threshold);
    let looks = |p: Pixel| looks_dark(pixels@, stride as nat, p, params.dark_value_threshold);
    let grey = |p: Pixel|
        grey_at(
            pixels@,
            stride as nat,
            p,
            params.grey_v_min,
            params.grey_v_max,
            params.grey_s_max,
        );
    let looks_so = |p: Pixel|
        looks_grey(
            pixels@,
            stride as nat,
            p,
            params.grey_v_min,
            params.grey_v_max,
            params.grey_s_max,
        );
    lemma_places_counted(patterns.1@, dark);
    lemma_places_counted(patterns.0@, grey);
    assert forall|p: Pixel| looks(p) == #[trigger] dark(p) by {
        lemma_looks(pixels@, stride as nat, p);
    }
    assert forall|p: Pixel| looks_so(p) == #[trigger] grey(p) by {
        lemma_looks(pixels@, stride as nat, p);
    }
    assert(places(patterns.1@, looks) =~= places(patterns.1@, dark));
    assert(places(patterns.0@, looks_so) =~= places(patterns.0@, grey));
    if let Some(scan) = reading.scan {
        assert(scan@ == found@);
    }
}

} // verus!
