//! Reading a frame: is the widget visible, where are the success zone and the needle.

use crate::angles::{lemma_not_negative_turnable, turnable_from};
use crate::binary32::{at_most, difference_of, integer, less, quotient_of, ratio, sum_of, Binary32};
use crate::bounds::{lemma_count_not_negative, lemma_share_not_negative, lemma_sum_not_negative};
use crate::params::SkillCheckParams;
use crate::pixels::{Direction, Pixel};
use crate::scan::{
    count, count_dark_inner, count_grey_ring, dark_at, grey_at, longest_run, offsets_fit,
    scan_angles, sweep, white_edges, white_mask, AngleScan, Sweep,
};
use crate::state::{SkillCheckState, StateModel};
use vstd::prelude::*;

verus! {

/// What a frame shows.
#[derive(Clone, Copy, Debug)]
pub struct FrameReading {
    /// The dark part of the progress area.
    pub inner_ratio: Binary32,
    /// The part that has to be dark for the widget to count as visible.
    pub inner_threshold: Binary32,
    /// The grey part of the ring.
    pub ring_ratio: Binary32,
    /// Whether the widget is visible.
    pub visible: bool,
    /// The sweep of a visible widget, as far as it matters in this state.
    pub scan: Option<AngleScan>,
}

/// A [`FrameReading`] with its sweep as a model.
pub struct Reading {
    pub inner_ratio: Binary32,
    pub inner_threshold: Binary32,
    pub ring_ratio: Binary32,
    pub visible: bool,
    pub scan: Option<Sweep>,
}

impl View for FrameReading {
    type V = Reading;

    open spec fn view(&self) -> Reading {
        Reading {
            inner_ratio: self.inner_ratio,
            inner_threshold: self.inner_threshold,
            ring_ratio: self.ring_ratio,
            visible: self.visible,
            scan: match self.scan {
                Some(scan) => Some(scan@),
                None => None,
            },
        }
    }
}

impl Reading {
    /// The direction of the needle, where it was looked for and found.
    pub open spec fn needle(self) -> Option<Direction> {
        match self.scan {
            Some(scan) => scan.needle,
            None => None,
        }
    }

    /// The middle of the success zone, where it was looked for and found.
    pub open spec fn target(self) -> Option<Binary32> {
        match self.scan {
            Some(scan) => scan.target_angle,
            None => None,
        }
    }

    /// The reading has what a state needs: a sweep where the widget is visible
    /// and the needle matters, with a target that can be turned forward.
    pub open spec fn suits(self, state: StateModel) -> bool {
        &&& self.scan is Some <==> self.visible && state.wants_scan()
        &&& self.target() matches Some(target) ==> turnable_from(target)
    }
}

impl FrameReading {
    /// The direction of the needle: its angle is the arc tangent of `sin` and `cos`.
    pub fn needle(&self) -> (needle: Option<Direction>)
        ensures
            needle == self@.needle(),
    {
        match self.scan {
            Some(scan) => scan.needle,
            None => None,
        }
    }

    /// The middle of the success zone.
    pub fn target(&self) -> (target: Option<Binary32>)
        ensures
            target == self@.target(),
    {
        match self.scan {
            Some(scan) => scan.target_angle,
            None => None,
        }
    }
}

/// The part of the progress area that is dark.
pub open spec fn inner_ratio_of(
    image: Seq<u8>,
    stride: nat,
    inner: Seq<Pixel>,
    params: SkillCheckParams,
) -> Binary32 {
    quotient_of(
        integer(
            count(
                inner,
                |p: Pixel| dark_at(image, stride, p, params.dark_value_threshold),
            ) as int,
        ),
        integer(inner.len() as int),
    )
}

/// The part of the ring that is grey.
pub open spec fn ring_ratio_of(
    image: Seq<u8>,
    stride: nat,
    ring: Seq<Pixel>,
    params: SkillCheckParams,
) -> Binary32 {
    quotient_of(
        integer(
            count(
                ring,
                |p: Pixel|
                    grey_at(
                        image,
                        stride,
                        p,
                        params.grey_v_min,
                        params.grey_v_max,
                        params.grey_s_max,
                    ),
            ) as int,
        ),
        integer(ring.len() as int),
    )
}

/// Enough of the ring is grey.
pub open spec fn ring_ok(ring_ratio: Binary32, params: SkillCheckParams) -> bool {
    at_most(params.ring_boost, ring_ratio)
}

/// The part of the progress area that has to be dark. It takes more to find a
/// widget than to keep one, and less where the ring is in sight.
pub open spec fn inner_threshold_of(
    active: bool,
    ring_ratio: Binary32,
    params: SkillCheckParams,
) -> Binary32 {
    let base = if active {
        params.inner_exit
    } else {
        params.inner_enter
    };
    if ring_ok(ring_ratio, params) {
        difference_of(base, params.ring_discount)
    } else {
        base
    }
}

/// Too little is dark, but with the ring in sight a sweep can still show the widget.
pub open spec fn in_doubt(
    active: bool,
    inner_ratio: Binary32,
    ring_ratio: Binary32,
    params: SkillCheckParams,
) -> bool {
    &&& !at_most(inner_threshold_of(active, ring_ratio, params), inner_ratio)
    &&& ring_ok(ring_ratio, params)
    &&& less(ratio(35, 100), inner_ratio)
}

/// The widget counts as visible: enough is dark, or a sweep dispels the doubt.
pub open spec fn is_visible(
    active: bool,
    inner_ratio: Binary32,
    ring_ratio: Binary32,
    found: Sweep,
    params: SkillCheckParams,
) -> bool {
    ||| at_most(inner_threshold_of(active, ring_ratio, params), inner_ratio)
    ||| in_doubt(active, inner_ratio, ring_ratio, params) && found.target_angle is Some
        && found.needle is Some && found.edges is Some
}

/// Reading a frame in this state takes a sweep of the ring.
pub open spec fn takes_sweep(
    image: Seq<u8>,
    stride: nat,
    ring: Seq<Pixel>,
    inner: Seq<Pixel>,
    state: StateModel,
    params: SkillCheckParams,
) -> bool {
    let inner_ratio = inner_ratio_of(image, stride, inner, params);
    let ring_ratio = ring_ratio_of(image, stride, ring, params);
    ||| in_doubt(state.active(), inner_ratio, ring_ratio, params)
    ||| state.wants_scan() && at_most(
        inner_threshold_of(state.active(), ring_ratio, params),
        inner_ratio,
    )
}

/// What a frame shows in this state.
pub open spec fn reading_of(
    image: Seq<u8>,
    stride: nat,
    ring: Seq<Pixel>,
    inner: Seq<Pixel>,
    directions: Seq<Direction>,
    state: StateModel,
    params: SkillCheckParams,
) -> Reading {
    let inner_ratio = inner_ratio_of(image, stride, inner, params);
    let ring_ratio = ring_ratio_of(image, stride, ring, params);
    let found = sweep(image, stride, ring, directions, params);
    let visible = is_visible(state.active(), inner_ratio, ring_ratio, found, params);
    Reading {
        inner_ratio,
        inner_threshold: inner_threshold_of(state.active(), ring_ratio, params),
        ring_ratio,
        visible,
        scan: if visible && state.wants_scan() {
            Some(found)
        } else {
            None
        },
    }
}

/// Reads a frame: is the widget visible, and where are its zone and its needle.
///
/// `patterns` holds the ring, the progress area and the needle's resting place.
pub fn read_frame(
    pixels: &[u8],
    stride: usize,
    patterns: &(Vec<Pixel>, Vec<Pixel>, Vec<Pixel>),
    directions: &[Direction],
    state: &SkillCheckState,
    params: &SkillCheckParams,
) -> (reading: FrameReading)
    requires
        directions@.len() == 360,
        offsets_fit(patterns.0@, stride as nat),
        offsets_fit(patterns.1@, stride as nat),
        takes_sweep(
            pixels@,
            stride as nat,
            patterns.0@,
            patterns.1@,
            state@,
            *params,
        ) ==> patterns.0@.len() >= 1800,
    ensures
        reading@ == reading_of(
            pixels@,
            stride as nat,
            patterns.0@,
            patterns.1@,
            directions@,
            state@,
            *params,
        ),
{
    let circle_pattern: &[Pixel] = patterns.0.as_slice();
    let inner_pattern: &[Pixel] = patterns.1.as_slice();
    let dark: usize = count_dark_inner(pixels, stride, inner_pattern, params.dark_value_threshold);
    let inner_ratio: Binary32 = Binary32::from_u64(dark as u64).over(
        Binary32::from_u64(inner_pattern.len() as u64),
    );
    let grey: usize = count_grey_ring(
        pixels,
        stride,
        circle_pattern,
        params.grey_v_min,
        params.grey_v_max,
        params.grey_s_max,
    );
    let ring_ratio: Binary32 = Binary32::from_u64(grey as u64).over(
        Binary32::from_u64(circle_pattern.len() as u64),
    );
    let active: bool = match state {
        SkillCheckState::InSearch => false,
        _ => true,
    };
    let wants_scan: bool = match state {
        SkillCheckState::Basic(context) => !context.has_clicked,
        _ => true,
    };
    // The ring only lowers the threshold: it does not show a widget by itself.
    let ring_in_sight: bool = ring_ratio.ge(params.ring_boost);
    let base: Binary32 = if active { params.inner_exit } else { params.inner_enter };
    let inner_threshold: Binary32 = if ring_in_sight {
        base.minus(params.ring_discount)
    } else {
        base
    };
    let mut visible: bool = inner_ratio.ge(inner_threshold);
    let mut scan: Option<AngleScan> = None;
    if visible {
        if wants_scan {
            scan = Some(scan_angles(pixels, stride, circle_pattern, directions, params));
        }
    } else if ring_in_sight && inner_ratio.gt(Binary32::from_ratio(35, 100)) {
        let found: AngleScan = scan_angles(pixels, stride, circle_pattern, directions, params);
        if found.target_angle.is_some() && found.needle.is_some() && found.edges.is_some() {
            visible = true;
            if wants_scan {
                scan = Some(found);
            }
        }
    }
    FrameReading { inner_ratio, inner_threshold, ring_ratio, visible, scan }
}

/// A sweep finds no target below 0 degrees.
pub proof fn lemma_target_not_negative(
    image: Seq<u8>,
    stride: nat,
    ring: Seq<Pixel>,
    directions: Seq<Direction>,
    params: SkillCheckParams,
)
    ensures
        sweep(image, stride, ring, directions, params).target_angle matches Some(target) ==> !less(
            target,
            integer(0),
        ),
{
    let mask = white_mask(image, stride, ring, params);
    if let Some((start, end)) = white_edges(mask) {
        let (run_start, length) = longest_run(mask);
        let first = run_start % 360;
        let last = (first + length) % 360;
        lemma_count_not_negative(first as nat);
        lemma_count_not_negative(last as nat);
        lemma_count_not_negative((last + 360) as nat);
        lemma_sum_not_negative(start, end);
        lemma_share_not_negative(sum_of(start, end), 2);
    }
}

/// What a frame shows in a state is what that state needs.
pub proof fn lemma_reading_suits(
    image: Seq<u8>,
    stride: nat,
    ring: Seq<Pixel>,
    inner: Seq<Pixel>,
    directions: Seq<Direction>,
    state: StateModel,
    params: SkillCheckParams,
)
    ensures
        reading_of(image, stride, ring, inner, directions, state, params).suits(state),
{
    lemma_target_not_negative(image, stride, ring, directions, params);
    if let Some(target) = sweep(image, stride, ring, directions, params).target_angle {
        lemma_not_negative_turnable(target);
    }
}

} // verus!
