//! Where the patterns lie.

use crate::binary32::{
    absolute_of, at_most, integer, lemma_nearest, precision, product_of, ratio, sum_of, truncated,
    unit_exponent, Binary32,
};
use crate::bounds::{
    lemma_product_order, lemma_product_within, lemma_ratio_order, lemma_ratio_within_one,
    lemma_small_integer, lemma_sum_between,
};
use crate::laws::crops::as_signed;
use crate::order::lemma_integer_exact;
use crate::pixels::{
    at_least_one, coordinate, coordinates_fit, covers_circle, generate_patterns, grid, in_i32,
    inner_pattern, is_circle, part_of_radius, pointer_pattern, reach, ring_pattern, signed, steps,
    Circle, Direction, Pixel,
};
use crate::rounding::{lemma_encode_zero, lemma_quotient_bounds, lemma_quotient_unique};
use crate::scan::in_frame;
use vstd::arithmetic::power2::{lemma_pow2_pos, pow2};
use vstd::prelude::*;

verus! {

/// Along each axis the ring reaches at most two pixels beyond the radius.
pub proof fn lemma_ring_reach(circle: Circle, offset: int, along: Binary32)
    requires
        circle.radius + 2 < 0x100_0000,
        -2 <= offset <= 2,
        at_most(absolute_of(along), integer(1)),
    ensures
        -(circle.radius + 2) <= reach(circle, offset, along) <= circle.radius + 2,
{
    let unit = pow2(unit_exponent());
    let radius = circle.radius as nat;
    lemma_pow2_pos(unit_exponent());
    lemma_integer_exact(radius);
    lemma_small_integer(offset);
    let at = sum_of(integer(radius as int), integer(offset));
    assert(radius * unit + offset * unit == (radius + offset) * unit) by (nonlinear_arith);
    assert(-2 * unit <= (radius + offset) * unit && (radius + offset) * unit <= (radius + 2) * unit)
        by (nonlinear_arith)
        requires
            -2 <= offset <= 2,
            unit > 0,
    ;
    lemma_sum_between(integer(radius as int), integer(offset), -2, (radius + 2) as int);
    assert(-((radius + 2) * unit) <= -2 * unit) by (nonlinear_arith)
        requires
            unit > 0,
    ;
    lemma_product_within(at, along, radius + 2);
}

/// A part of the radius is between 0 and the radius.
pub proof fn lemma_part_of_radius(circle: Circle, hundredths: nat)
    requires
        circle.radius + 2 < 0x100_0000,
        hundredths <= 100,
    ensures
        0 <= part_of_radius(circle, hundredths) <= circle.radius,
{
    let radius = circle.radius as nat;
    lemma_integer_exact(radius);
    lemma_ratio_within_one(hundredths, 100);
    lemma_product_within(integer(radius as int), ratio(hundredths, 100), radius);
}

/// A larger part of the radius is no shorter.
pub proof fn lemma_parts_ordered(circle: Circle, small: nat, large: nat)
    requires
        small <= large <= 100,
        circle.radius + 2 < 0x100_0000,
    ensures
        part_of_radius(circle, small) <= part_of_radius(circle, large),
{
    lemma_integer_exact(circle.radius as nat);
    lemma_ratio_within_one(small, 100);
    lemma_ratio_within_one(large, 100);
    lemma_ratio_order(small, large, 100);
    lemma_product_within(
        integer(circle.radius as int),
        ratio(large, 100),
        circle.radius as nat,
    );
    lemma_product_order(
        integer(circle.radius as int),
        ratio(small, 100),
        ratio(large, 100),
    );
}

/// Every circle with room around it has patterns.
pub proof fn lemma_circle_fits(circle: Circle, directions: Seq<Direction>)
    requires
        is_circle(directions),
        circle.has_room(),
    ensures
        coordinates_fit(circle, directions),
{
    assert forall|angle: int, offset: int| 0 <= angle < 360 && -2 <= offset <= 2 implies -(
    circle.radius + 2) <= #[trigger] reach(circle, offset, directions[angle].cos) <= circle.radius
        + 2 by {
        assert(directions[angle].within_one());
        lemma_ring_reach(circle, offset, directions[angle].cos);
    }
    assert forall|angle: int, offset: int| 0 <= angle < 360 && -2 <= offset <= 2 implies -(
    circle.radius + 2) <= #[trigger] reach(circle, offset, directions[angle].sin) <= circle.radius
        + 2 by {
        assert(directions[angle].within_one());
        lemma_ring_reach(circle, offset, directions[angle].sin);
    }
    lemma_part_of_radius(circle, 46);
    lemma_part_of_radius(circle, 30);
    lemma_part_of_radius(circle, 70);
    lemma_part_of_radius(circle, 11);
    lemma_part_of_radius(circle, 23);
    lemma_radius_in_pixels(circle);
}

/// The radius in whole pixels is the radius.
pub proof fn lemma_radius_in_pixels(circle: Circle)
    requires
        circle.radius + 2 < 0x100_0000,
    ensures
        truncated(integer(circle.radius as int)) == circle.radius,
{
    lemma_integer_exact(circle.radius as nat);
    lemma_pow2_pos(unit_exponent());
    lemma_quotient_unique(
        circle.radius as nat * pow2(unit_exponent()),
        pow2(unit_exponent()),
        circle.radius as nat,
        0,
    );
}

/// The pixel is within `distance` of a center along both axes.
pub open spec fn is_near(pixel: Pixel, center: Pixel, distance: int) -> bool {
    &&& center.x - distance <= pixel.x <= center.x + distance
    &&& center.y - distance <= pixel.y <= center.y + distance
}

/// The ring has five pixels for every degree, all of them near the circle.
pub proof fn lemma_ring_near_circle(circle: Circle, directions: Seq<Direction>)
    requires
        is_circle(directions),
        circle.has_room(),
        circle.radius + 2 <= circle.center.x <= i32::MAX,
        circle.radius + 2 <= circle.center.y <= i32::MAX,
    ensures
        ring_pattern(circle, directions).len() == 1800,
        forall|i: int|
            0 <= i < 1800 ==> is_near(
                #[trigger] ring_pattern(circle, directions)[i],
                circle.center,
                circle.radius + 2,
            ),
{
    assert forall|i: int| 0 <= i < 1800 implies is_near(
        #[trigger] ring_pattern(circle, directions)[i],
        circle.center,
        circle.radius + 2,
    ) by {
        let direction = directions[i / 5];
        assert(direction.within_one());
        lemma_ring_reach(circle, i % 5 - 2, direction.cos);
        lemma_ring_reach(circle, i % 5 - 2, direction.sin);
    }
}

/// A grid has pixels, all of them within its bounds.
proof fn lemma_grid_bounds(
    x_low: int,
    x_high: int,
    x_step: int,
    y_low: int,
    y_high: int,
    y_step: int,
    i: int,
)
    requires
        0 <= x_low <= x_high <= 0x7fff_ffff,
        0 <= y_low <= y_high <= 0x7fff_ffff,
        x_step >= 1,
        y_step >= 1,
        0 <= i < grid(x_low, x_high, x_step, y_low, y_high, y_step).len(),
    ensures
        ({
            let pixel = grid(x_low, x_high, x_step, y_low, y_high, y_step)[i];
            x_low <= pixel.x <= x_high && y_low <= pixel.y <= y_high
        }),
{
    let columns = steps(x_low, x_high, x_step) as int;
    let rows = steps(y_low, y_high, y_step) as int;
    lemma_steps_positive(x_low, x_high, x_step);
    lemma_steps_positive(y_low, y_high, y_step);
    lemma_quotient_bounds(i as nat, columns as nat);
    let column = i % columns;
    let row = i / columns;
    assert(0 <= row < rows) by (nonlinear_arith)
        requires
            i == row * columns + column,
            0 <= column < columns,
            0 <= i < rows * columns,
    ;
    lemma_steps_within(x_low, x_high, x_step, column);
    lemma_steps_within(y_low, y_high, y_step, row);
}

proof fn lemma_steps_positive(low: int, high: int, step: int)
    requires
        low <= high,
        step >= 1,
    ensures
        steps(low, high, step) >= 1,
{
    lemma_quotient_bounds((high - low) as nat, step as nat);
}

proof fn lemma_steps_within(low: int, high: int, step: int, taken: int)
    requires
        low <= high,
        step >= 1,
        0 <= taken < steps(low, high, step),
    ensures
        low <= low + taken * step <= high,
{
    let span = (high - low) as nat;
    lemma_quotient_bounds(span, step as nat);
    let whole = span / (step as nat);
    assert(0 <= taken * step <= span) by (nonlinear_arith)
        requires
            0 <= taken <= whole,
            span == whole * step + span % (step as nat),
            span % (step as nat) >= 0,
            step >= 1,
    ;
}

/// The progress area has pixels, all of them inside the circle's square.
pub proof fn lemma_inner_near_circle(circle: Circle)
    requires
        circle.has_room(),
        circle.radius <= circle.center.x <= i32::MAX,
        circle.radius <= circle.center.y <= i32::MAX,
    ensures
        inner_pattern(circle).len() > 0,
        forall|i: int|
            0 <= i < inner_pattern(circle).len() ==> is_near(
                #[trigger] inner_pattern(circle)[i],
                circle.center,
                circle.radius as int,
            ),
{
    let cx = circle.center.x as int;
    let cy = circle.center.y as int;
    let half_width = part_of_radius(circle, 46);
    let near = part_of_radius(circle, 30);
    let far = part_of_radius(circle, 70);
    lemma_part_of_radius(circle, 46);
    lemma_part_of_radius(circle, 30);
    lemma_part_of_radius(circle, 70);
    lemma_parts_ordered(circle, 30, 70);
    let x_step = at_least_one(half_width / 5);
    let y_step = at_least_one((far - near) / 6);
    let above = grid(cx - half_width, cx + half_width, x_step, cy - far, cy - near, y_step);
    let below = grid(cx - half_width, cx + half_width, x_step, cy + near, cy + far, y_step);
    lemma_steps_positive(cx - half_width, cx + half_width, x_step);
    lemma_steps_positive(cy - far, cy - near, y_step);
    let columns = steps(cx - half_width, cx + half_width, x_step);
    let rows = steps(cy - far, cy - near, y_step);
    assert(rows * columns >= 1) by (nonlinear_arith)
        requires
            rows >= 1,
            columns >= 1,
    ;
    assert forall|i: int| 0 <= i < inner_pattern(circle).len() implies is_near(
        #[trigger] inner_pattern(circle)[i],
        circle.center,
        circle.radius as int,
    ) by {
        if i < above.len() {
            lemma_grid_bounds(
                cx - half_width,
                cx + half_width,
                x_step,
                cy - far,
                cy - near,
                y_step,
                i,
            );
        } else {
            lemma_grid_bounds(
                cx - half_width,
                cx + half_width,
                x_step,
                cy + near,
                cy + far,
                y_step,
                i - above.len(),
            );
        }
    }
}

/// Where the circle lies in the middle of a square crop with two pixels to
/// spare, every pixel of the ring and of the progress area is in the crop.
pub proof fn lemma_patterns_in_crop(
    image: Seq<u8>,
    crop_size: u32,
    radius: u32,
    directions: Seq<Direction>,
)
    requires
        is_circle(directions),
        radius + 2 < crop_size / 2,
        radius + 2 < 0x100_0000,
        crop_size <= i32::MAX,
        image.len() == crop_size * crop_size * 4,
    ensures
        ({
            let center = Pixel { x: crop_size / 2, y: crop_size / 2 };
            let circle = Circle { center, radius, diameter: (radius * 2) as u32 };
            &&& forall|i: int|
                0 <= i < 1800 ==> in_frame(
                    image,
                    (crop_size * 4) as nat,
                    #[trigger] ring_pattern(circle, directions)[i],
                )
            &&& forall|i: int|
                0 <= i < inner_pattern(circle).len() ==> in_frame(
                    image,
                    (crop_size * 4) as nat,
                    #[trigger] inner_pattern(circle)[i],
                )
        }),
{
    let center = Pixel { x: crop_size / 2, y: crop_size / 2 };
    let circle = Circle { center, radius, diameter: (radius * 2) as u32 };
    lemma_ring_near_circle(circle, directions);
    lemma_inner_near_circle(circle);
    assert forall|i: int| 0 <= i < 1800 implies in_frame(
        image,
        (crop_size * 4) as nat,
        #[trigger] ring_pattern(circle, directions)[i],
    ) by {
        lemma_in_crop(image, crop_size, ring_pattern(circle, directions)[i]);
    }
    assert forall|i: int| 0 <= i < inner_pattern(circle).len() implies in_frame(
        image,
        (crop_size * 4) as nat,
        #[trigger] inner_pattern(circle)[i],
    ) by {
        lemma_in_crop(image, crop_size, inner_pattern(circle)[i]);
    }
}

proof fn lemma_in_crop(image: Seq<u8>, crop_size: u32, pixel: Pixel)
    requires
        pixel.x < crop_size,
        pixel.y < crop_size,
        image.len() == crop_size * crop_size * 4,
    ensures
        in_frame(image, (crop_size * 4) as nat, pixel),
{
    assert(pixel.y * (crop_size * 4) + pixel.x * 4 + 3 < crop_size * crop_size * 4)
        by (nonlinear_arith)
        requires
            pixel.x < crop_size,
            pixel.y < crop_size,
    ;
}

/// One pattern is another one, moved.
pub open spec fn is_moved(from: Seq<Pixel>, to: Seq<Pixel>, dx: int, dy: int) -> bool {
    &&& from.len() == to.len()
    &&& forall|i: int|
        #![trigger from[i]]
        #![trigger to[i]]
        0 <= i < from.len() ==> signed(to[i].x) == signed(from[i].x) + dx && signed(to[i].y)
            == signed(from[i].y) + dy
}

proof fn lemma_grid_moved(
    x_low: int,
    x_high: int,
    x_step: int,
    y_low: int,
    y_high: int,
    y_step: int,
    dx: int,
    dy: int,
)
    requires
        in_i32(x_low) && in_i32(x_high) && in_i32(y_low) && in_i32(y_high),
        in_i32(x_low + dx) && in_i32(x_high + dx) && in_i32(y_low + dy) && in_i32(y_high + dy),
        x_step >= 1,
        y_step >= 1,
    ensures
        is_moved(
            grid(x_low, x_high, x_step, y_low, y_high, y_step),
            grid(x_low + dx, x_high + dx, x_step, y_low + dy, y_high + dy, y_step),
            dx,
            dy,
        ),
{
    let from = grid(x_low, x_high, x_step, y_low, y_high, y_step);
    let to = grid(x_low + dx, x_high + dx, x_step, y_low + dy, y_high + dy, y_step);
    let columns = steps(x_low, x_high, x_step) as int;
    let rows = steps(y_low, y_high, y_step) as int;
    assert forall|i: int| 0 <= i < from.len() implies signed(#[trigger] to[i].x) == signed(
        from[i].x,
    ) + dx && signed(to[i].y) == signed(from[i].y) + dy by {
        assert(rows > 0 && columns > 0) by (nonlinear_arith)
            requires
                0 <= i < rows * columns,
                rows >= 0,
                columns >= 0,
        ;
        lemma_quotient_bounds(i as nat, columns as nat);
        let column = i % columns;
        let row = i / columns;
        assert(0 <= row < rows) by (nonlinear_arith)
            requires
                i == row * columns + column,
                0 <= column < columns,
                0 <= i < rows * columns,
        ;
        lemma_steps_within(x_low, x_high, x_step, column);
        lemma_steps_within(y_low, y_high, y_step, row);
    }
}

/// The same circle, elsewhere.
pub open spec fn is_elsewhere(circle: Circle, moved: Circle, dx: int, dy: int) -> bool {
    &&& moved.radius == circle.radius
    &&& signed(moved.center.x) == signed(circle.center.x) + dx
    &&& signed(moved.center.y) == signed(circle.center.y) + dy
}

proof fn lemma_ring_moved(
    circle: Circle,
    moved: Circle,
    dx: int,
    dy: int,
    directions: Seq<Direction>,
)
    requires
        coordinates_fit(circle, directions),
        coordinates_fit(moved, directions),
        is_elsewhere(circle, moved, dx, dy),
    ensures
        is_moved(ring_pattern(circle, directions), ring_pattern(moved, directions), dx, dy),
{
    let ring = ring_pattern(circle, directions);
    let moved_ring = ring_pattern(moved, directions);
    assert forall|i: int| 0 <= i < 1800 implies signed(#[trigger] moved_ring[i].x) == signed(
        ring[i].x,
    ) + dx && signed(moved_ring[i].y) == signed(ring[i].y) + dy by {
        let direction = directions[i / 5];
        let offset = i % 5 - 2;
        assert(reach(circle, offset, direction.cos) == reach(moved, offset, direction.cos));
        assert(reach(circle, offset, direction.sin) == reach(moved, offset, direction.sin));
    }
}

/// Patterns that are moved piece by piece are moved.
proof fn lemma_both_moved(
    first: Seq<Pixel>,
    second: Seq<Pixel>,
    moved_first: Seq<Pixel>,
    moved_second: Seq<Pixel>,
    dx: int,
    dy: int,
)
    requires
        is_moved(first, moved_first, dx, dy),
        is_moved(second, moved_second, dx, dy),
    ensures
        is_moved(first + second, moved_first + moved_second, dx, dy),
{
    let from = first + second;
    let to = moved_first + moved_second;
    assert forall|i: int| 0 <= i < from.len() implies signed(#[trigger] to[i].x) == signed(
        from[i].x,
    ) + dx && signed(to[i].y) == signed(from[i].y) + dy by {
        if i < first.len() {
            assert(from[i] == first[i] && to[i] == moved_first[i]);
        } else {
            let k = i - first.len();
            assert(from[i] == second[k] && to[i] == moved_second[k]);
        }
    }
}

#[verifier::spinoff_prover]
proof fn lemma_inner_moved(
    circle: Circle,
    moved: Circle,
    dx: int,
    dy: int,
    directions: Seq<Direction>,
)
    requires
        coordinates_fit(circle, directions),
        coordinates_fit(moved, directions),
        is_elsewhere(circle, moved, dx, dy),
    ensures
        is_moved(inner_pattern(circle), inner_pattern(moved), dx, dy),
{
    let cx = signed(circle.center.x);
    let cy = signed(circle.center.y);
    let width = part_of_radius(circle, 46);
    let near = part_of_radius(circle, 30);
    let far = part_of_radius(circle, 70);
    let x_step = at_least_one(width / 5);
    let y_step = at_least_one((far - near) / 6);
    assert(part_of_radius(moved, 46) == width);
    assert(part_of_radius(moved, 30) == near && part_of_radius(moved, 70) == far);
    lemma_grid_moved(cx - width, cx + width, x_step, cy - far, cy - near, y_step, dx, dy);
    lemma_grid_moved(cx - width, cx + width, x_step, cy + near, cy + far, y_step, dx, dy);
    let mx = cx + dx;
    let my = cy + dy;
    assert(cx - width + dx == mx - width && cx + width + dx == mx + width);
    assert(cy - far + dy == my - far && cy - near + dy == my - near);
    assert(cy + near + dy == my + near && cy + far + dy == my + far);
    lemma_both_moved(
        grid(cx - width, cx + width, x_step, cy - far, cy - near, y_step),
        grid(cx - width, cx + width, x_step, cy + near, cy + far, y_step),
        grid(mx - width, mx + width, x_step, my - far, my - near, y_step),
        grid(mx - width, mx + width, x_step, my + near, my + far, y_step),
        dx,
        dy,
    );
}

#[verifier::spinoff_prover]
proof fn lemma_pointer_moved(
    circle: Circle,
    moved: Circle,
    dx: int,
    dy: int,
    directions: Seq<Direction>,
)
    requires
        coordinates_fit(circle, directions),
        coordinates_fit(moved, directions),
        is_elsewhere(circle, moved, dx, dy),
    ensures
        is_moved(pointer_pattern(circle), pointer_pattern(moved), dx, dy),
{
    let cx = signed(circle.center.x);
    let top = signed(circle.center.y) - truncated(integer(circle.radius as int));
    let margin = part_of_radius(circle, 11);
    let above = part_of_radius(circle, 23);
    assert(part_of_radius(moved, 11) == margin && part_of_radius(moved, 23) == above);
    lemma_grid_moved(cx - margin, cx + margin, 1, top - above, top + margin, 1, dx, dy);
    assert(cx - margin + dx == (cx + dx) - margin && cx + margin + dx == (cx + dx) + margin);
    assert(top - above + dy == (top + dy) - above && top + margin + dy == (top + dy) + margin);
}

/// Moving the center moves all three patterns with it.
pub proof fn lemma_patterns_move(
    circle: Circle,
    moved: Circle,
    dx: int,
    dy: int,
    directions: Seq<Direction>,
)
    requires
        coordinates_fit(circle, directions),
        coordinates_fit(moved, directions),
        is_elsewhere(circle, moved, dx, dy),
    ensures
        is_moved(ring_pattern(circle, directions), ring_pattern(moved, directions), dx, dy),
        is_moved(inner_pattern(circle), inner_pattern(moved), dx, dy),
        is_moved(pointer_pattern(circle), pointer_pattern(moved), dx, dy),
{
    lemma_ring_moved(circle, moved, dx, dy, directions);
    lemma_inner_moved(circle, moved, dx, dy, directions);
    lemma_pointer_moved(circle, moved, dx, dy, directions);
}

/// A coordinate, with a sign or without, that is not near the ends of the
/// signed range.
pub open spec fn is_away_from_ends(coordinate: u32) -> bool {
    coordinate <= 0x7000_0000 || coordinate >= 0x9000_0000
}

/// A circle within these bounds has room around it.
pub open spec fn is_ordinary(circle: Circle) -> bool {
    &&& circle.radius + 2 < 0x100_0000
    &&& is_away_from_ends(circle.center.x)
    &&& is_away_from_ends(circle.center.y)
}

/// Two numbers are the same as 32-bit coordinates.
pub open spec fn same_coordinate(a: int, b: int) -> bool {
    (a - b) % 0x1_0000_0000 == 0
}

/// The ring has five pixels for every degree, from the inside out: the radius,
/// from two less to two more, times the cosine and the sine of the degree, cut
/// off to whole pixels and counted from the center.
pub proof fn lemma_ring_pixels(
    circle: &Circle,
    directions: &[Direction],
    patterns: (Vec<Pixel>, Vec<Pixel>, Vec<Pixel>),
    degree: int,
    k: int,
)
    requires
        call_ensures(generate_patterns, (circle, directions), patterns),
        is_ordinary(*circle),
        is_circle(directions@),
        0 <= degree < 360,
        0 <= k < 5,
    ensures
        patterns.0@.len() == 1800,
        ({
            let pixel = patterns.0@[5 * degree + k];
            let direction = directions@[degree];
            let distance = integer(circle.radius + k - 2);
            &&& same_coordinate(
                pixel.x as int,
                circle.center.x + truncated(product_of(distance, direction.cos)),
            )
            &&& same_coordinate(
                pixel.y as int,
                circle.center.y + truncated(product_of(distance, direction.sin)),
            )
        }),
{
    let reach_x = reach(*circle, k - 2, directions@[degree].cos);
    let reach_y = reach(*circle, k - 2, directions@[degree].sin);
    assert(patterns.0@ == ring_pattern(*circle, directions@));
    lemma_ring_at(*circle, directions@, degree, k);
    assert(directions@[degree].within_one());
    lemma_ring_reach(*circle, k - 2, directions@[degree].cos);
    lemma_ring_reach(*circle, k - 2, directions@[degree].sin);
    lemma_distance_exact(circle.radius, k - 2);
    lemma_coordinate_of(circle.center.x, reach_x);
    lemma_coordinate_of(circle.center.y, reach_y);
}

/// A pixel of the ring by its degree and its place among the five.
proof fn lemma_ring_at(circle: Circle, directions: Seq<Direction>, degree: int, k: int)
    requires
        0 <= degree < 360,
        0 <= k < 5,
    ensures
        ring_pattern(circle, directions)[5 * degree + k] == (Pixel {
            x: coordinate(
                signed(circle.center.x) + reach(circle, k - 2, directions[degree].cos),
            ),
            y: coordinate(
                signed(circle.center.y) + reach(circle, k - 2, directions[degree].sin),
            ),
        }),
{
    let index = 5 * degree + k;
    assert(index / 5 == degree && index % 5 == k);
}

/// A coordinate a few pixels from a center.
proof fn lemma_coordinate_of(center: u32, offset: int)
    requires
        is_away_from_ends(center),
        -0x400_0000 <= offset <= 0x400_0000,
    ensures
        same_coordinate(coordinate(signed(center) + offset) as int, center + offset),
{
}

/// The radius and a few pixels more or less add up exactly.
proof fn lemma_distance_exact(radius: u32, offset: int)
    requires
        radius + 2 < 0x100_0000,
        -2 <= offset <= 2,
    ensures
        sum_of(integer(radius as int), integer(offset)) == integer(radius + offset),
{
    let unit = pow2(unit_exponent());
    let total = (radius + offset) * unit;
    lemma_pow2_pos(unit_exponent());
    lemma_small_integer(radius as int);
    lemma_small_integer(offset);
    assert(radius * unit + offset * unit == total) by (nonlinear_arith)
        requires
            total == (radius + offset) * unit,
    ;
    assert((radius + offset < 0) == (total < 0) && (radius + offset == 0) == (total == 0))
        by (nonlinear_arith)
        requires
            unit > 0,
            total == (radius + offset) * unit,
    ;
    assert(-total == (-(radius + offset)) * unit) by (nonlinear_arith)
        requires
            total == (radius + offset) * unit,
    ;
    lemma_nearest(false, radius as nat * unit, 1);
    lemma_encode_zero(precision(), 1);
    assert(0 * unit == 0);
}

/// So many whole pixels are so many hundredths of the radius.
pub open spec fn hundredths_of(circle: Circle, hundredths: nat) -> int {
    truncated(product_of(integer(circle.radius as int), ratio(hundredths, 100)))
}

/// The progress area is two bands, above and below the center, each as wide as
/// 46 hundredths of the radius to both sides and reaching from 30 to 70
/// hundredths away. They are sampled row by row, in steps of a fifth of the half
/// width and a sixth of the height, of a pixel at least.
pub proof fn lemma_inner_pixels(
    circle: &Circle,
    directions: &[Direction],
    patterns: (Vec<Pixel>, Vec<Pixel>, Vec<Pixel>),
    row: int,
    column: int,
)
    requires
        call_ensures(generate_patterns, (circle, directions), patterns),
        is_ordinary(*circle),
        is_circle(directions@),
    ensures
        ({
            let half_width = hundredths_of(*circle, 46);
            let near = hundredths_of(*circle, 30);
            let far = hundredths_of(*circle, 70);
            let x_step = if half_width < 5 {
                1
            } else {
                half_width / 5
            };
            let y_step = if far - near < 6 {
                1
            } else {
                (far - near) / 6
            };
            let columns = 2 * half_width / x_step + 1;
            let rows = (far - near) / y_step + 1;
            &&& 0 <= half_width && 0 <= near <= far
            &&& patterns.1@.len() == 2 * (rows * columns)
            &&& 0 <= row < rows && 0 <= column < columns ==> {
                let above = patterns.1@[row * columns + column];
                let below = patterns.1@[rows * columns + row * columns + column];
                let x = circle.center.x - half_width + column * x_step;
                &&& same_coordinate(above.x as int, x)
                &&& same_coordinate(below.x as int, x)
                &&& same_coordinate(above.y as int, circle.center.y - far + row * y_step)
                &&& same_coordinate(below.y as int, circle.center.y + near + row * y_step)
            }
        }),
{
    let half_width = hundredths_of(*circle, 46);
    let near = hundredths_of(*circle, 30);
    let far = hundredths_of(*circle, 70);
    assert(patterns.1@ == inner_pattern(*circle));
    lemma_part_of_radius(*circle, 46);
    lemma_part_of_radius(*circle, 30);
    lemma_part_of_radius(*circle, 70);
    lemma_parts_ordered(*circle, 30, 70);
    lemma_bands(circle.center, half_width, near, far, row, column);
}

/// How far apart samples are, a pixel at least.
spec fn sample_step(span: int, parts: int) -> int {
    if span < parts {
        1
    } else {
        span / parts
    }
}

/// Two bands above and below a center.
proof fn lemma_bands(
    center: Pixel,
    half_width: int,
    near: int,
    far: int,
    row: int,
    column: int,
)
    requires
        is_away_from_ends(center.x),
        is_away_from_ends(center.y),
        0 <= half_width <= 0x100_0000,
        0 <= near <= far <= 0x100_0000,
    ensures
        ({
            let (cx, cy) = (signed(center.x), signed(center.y));
            let x_step = sample_step(half_width, 5);
            let y_step = sample_step(far - near, 6);
            let columns = 2 * half_width / x_step + 1;
            let rows = (far - near) / y_step + 1;
            let all = grid(
                cx - half_width,
                cx + half_width,
                at_least_one(half_width / 5),
                cy - far,
                cy - near,
                at_least_one((far - near) / 6),
            ) + grid(
                cx - half_width,
                cx + half_width,
                at_least_one(half_width / 5),
                cy + near,
                cy + far,
                at_least_one((far - near) / 6),
            );
            &&& all.len() == 2 * (rows * columns)
            &&& 0 <= row < rows && 0 <= column < columns ==> {
                let above = all[row * columns + column];
                let below = all[rows * columns + row * columns + column];
                let x = center.x - half_width + column * x_step;
                &&& same_coordinate(above.x as int, x)
                &&& same_coordinate(below.x as int, x)
                &&& same_coordinate(above.y as int, center.y - far + row * y_step)
                &&& same_coordinate(below.y as int, center.y + near + row * y_step)
            }
        }),
{
    let (cx, cy) = (signed(center.x), signed(center.y));
    let x_step = sample_step(half_width, 5);
    let y_step = sample_step(far - near, 6);
    assert(x_step == at_least_one(half_width / 5) && y_step == at_least_one((far - near) / 6));
    let columns = 2 * half_width / x_step + 1;
    let rows = (far - near) / y_step + 1;
    let upper = grid(cx - half_width, cx + half_width, x_step, cy - far, cy - near, y_step);
    let lower = grid(cx - half_width, cx + half_width, x_step, cy + near, cy + far, y_step);
    lemma_quotient_bounds((2 * half_width) as nat, x_step as nat);
    lemma_quotient_bounds((far - near) as nat, y_step as nat);
    assert((cx + half_width) - (cx - half_width) == 2 * half_width);
    assert((cy - near) - (cy - far) == far - near && (cy + far) - (cy + near) == far - near);
    assert(upper.len() == rows * columns && lower.len() == rows * columns);
    if 0 <= row < rows && 0 <= column < columns {
        lemma_grid_pixel(cx - half_width, x_step, cy - far, y_step, upper, rows, columns, row, column);
        lemma_grid_pixel(cx - half_width, x_step, cy + near, y_step, lower, rows, columns, row, column);
        lemma_step_within(2 * half_width, x_step, column);
        lemma_step_within(far - near, y_step, row);
        lemma_coordinate_of(center.x, column * x_step - half_width);
        lemma_coordinate_of(center.y, row * y_step - far);
        lemma_coordinate_of(center.y, row * y_step + near);
        let index = row * columns + column;
        assert((upper + lower)[index] == upper[index]);
        assert((upper + lower)[rows * columns + index] == lower[index]);
    }
}

/// A step that is counted does not pass the end.
proof fn lemma_step_within(span: int, step: int, taken: int)
    requires
        span >= 0,
        step >= 1,
        0 <= taken < span / step + 1,
    ensures
        0 <= taken * step <= span,
{
    lemma_quotient_bounds(span as nat, step as nat);
    let quotient = span / step;
    assert(0 <= taken * step && taken * step <= span) by (nonlinear_arith)
        requires
            span >= quotient * step,
            0 <= taken <= quotient,
            step >= 1,
    ;
}

/// A pixel of a grid by its row and column.
proof fn lemma_grid_pixel(
    x_low: int,
    x_step: int,
    y_low: int,
    y_step: int,
    pixels: Seq<Pixel>,
    rows: int,
    columns: int,
    row: int,
    column: int,
)
    requires
        0 <= row < rows,
        0 <= column < columns,
        pixels == Seq::new(
            (rows * columns) as nat,
            |i: int|
                Pixel {
                    x: coordinate(x_low + (i % columns) * x_step),
                    y: coordinate(y_low + (i / columns) * y_step),
                },
        ),
    ensures
        0 <= row * columns + column < rows * columns,
        pixels[row * columns + column] == (Pixel {
            x: coordinate(x_low + column * x_step),
            y: coordinate(y_low + row * y_step),
        }),
{
    let index = row * columns + column;
    assert(0 <= index < rows * columns) by (nonlinear_arith)
        requires
            index == row * columns + column,
            0 <= row < rows,
            0 <= column < columns,
    ;
    lemma_quotient_unique(index as nat, columns as nat, row as nat, column as nat);
}

/// The needle's resting place is every pixel of a box across the top of the
/// ring: 11 hundredths of the radius to both sides and below the top, and 23
/// above it.
pub proof fn lemma_pointer_pixels(
    circle: &Circle,
    directions: &[Direction],
    patterns: (Vec<Pixel>, Vec<Pixel>, Vec<Pixel>),
    row: int,
    column: int,
)
    requires
        call_ensures(generate_patterns, (circle, directions), patterns),
        is_ordinary(*circle),
        is_circle(directions@),
    ensures
        ({
            let margin = hundredths_of(*circle, 11);
            let above = hundredths_of(*circle, 23);
            let columns = 2 * margin + 1;
            let rows = above + margin + 1;
            &&& 0 <= margin && 0 <= above
            &&& patterns.2@.len() == rows * columns
            &&& 0 <= row < rows && 0 <= column < columns ==> {
                let pixel = patterns.2@[row * columns + column];
                &&& same_coordinate(pixel.x as int, circle.center.x - margin + column)
                &&& same_coordinate(
                    pixel.y as int,
                    circle.center.y - circle.radius - above + row,
                )
            }
        }),
{
    let margin = hundredths_of(*circle, 11);
    let above = hundredths_of(*circle, 23);
    assert(patterns.2@ == pointer_pattern(*circle));
    lemma_part_of_radius(*circle, 11);
    lemma_part_of_radius(*circle, 23);
    lemma_radius_in_pixels(*circle);
    lemma_box(circle.center, circle.radius as int, margin, above, row, column);
}

/// A box across the top of a circle.
proof fn lemma_box(center: Pixel, radius: int, margin: int, above: int, row: int, column: int)
    requires
        is_away_from_ends(center.x),
        is_away_from_ends(center.y),
        0 <= radius <= 0x100_0000,
        0 <= margin <= 0x100_0000,
        0 <= above <= 0x100_0000,
    ensures
        ({
            let (cx, top) = (signed(center.x), signed(center.y) - radius);
            let columns = 2 * margin + 1;
            let rows = above + margin + 1;
            let all = grid(cx - margin, cx + margin, 1, top - above, top + margin, 1);
            &&& all.len() == rows * columns
            &&& 0 <= row < rows && 0 <= column < columns ==> {
                let pixel = all[row * columns + column];
                &&& same_coordinate(pixel.x as int, center.x - margin + column)
                &&& same_coordinate(pixel.y as int, center.y - radius - above + row)
            }
        }),
{
    let (cx, top) = (signed(center.x), signed(center.y) - radius);
    let columns = 2 * margin + 1;
    let rows = above + margin + 1;
    let all = grid(cx - margin, cx + margin, 1, top - above, top + margin, 1);
    assert((cx + margin) - (cx - margin) == 2 * margin && (2 * margin) / 1 == 2 * margin);
    assert((top + margin) - (top - above) == above + margin && (above + margin) / 1 == above
        + margin);
    assert(all.len() == rows * columns);
    if 0 <= row < rows && 0 <= column < columns {
        lemma_grid_pixel(cx - margin, 1, top - above, 1, all, rows, columns, row, column);
        assert(column * 1 == column && row * 1 == row);
        lemma_coordinate_of(center.x, column - margin);
        lemma_coordinate_of(center.y, row - radius - above);
    }
}

/// A circle has room exactly if single precision holds its radius and two more,
/// and the signed range holds everything around it.
pub proof fn lemma_room(circle: &Circle, result: bool)
    requires
        call_ensures(Circle::leaves_room, (circle,), result),
    ensures
        ({
            let (x, y) = (as_signed(circle.center.x), as_signed(circle.center.y));
            let radius = circle.radius as int;
            result <==> {
                &&& radius + 2 < 0x100_0000
                &&& x + radius + 2 <= i32::MAX
                &&& y + radius + 2 <= i32::MAX
                &&& x - radius - 2 >= i32::MIN && x - 2 * radius >= i32::MIN
                &&& y - radius - 2 >= i32::MIN && y - 2 * radius >= i32::MIN
            }
        }),
{
}

/// Directions cover the circle exactly if there are 360 of them and no cosine
/// and no sine is beyond one.
pub proof fn lemma_circle_covered(directions: &[Direction], result: bool)
    requires
        call_ensures(covers_circle, (directions,), result),
    ensures
        result <==> directions@.len() == 360 && forall|i: int|
            0 <= i < 360 ==> at_most(absolute_of((#[trigger] directions@[i]).cos), integer(1))
                && at_most(absolute_of(directions@[i].sin), integer(1)),
{
    if result {
        assert forall|i: int| 0 <= i < 360 implies at_most(
            absolute_of((#[trigger] directions@[i]).cos),
            integer(1),
        ) && at_most(absolute_of(directions@[i].sin), integer(1)) by {
            assert(directions@[i].within_one());
        }
    }
}

} // verus!
