//! Where to look in a frame: the pixels of the ring, of the progress area
//! inside it, and of the needle's resting place above it.

use crate::binary32::{
    absolute_of, at_most, integer, lemma_nearest, product_of, ratio, sum_of, truncated,
    unit_exponent, Binary32,
};
use crate::rounding::{lemma_quotient_bounds, lemma_quotient_unique};
use vstd::arithmetic::power2::{lemma_pow2_pos, pow2};
use vstd::prelude::*;

verus! {

/// A pixel position on the screen.
#[derive(Clone, Copy, PartialEq, Eq, Structural, Debug)]
pub struct Pixel {
    pub x: u32,
    pub y: u32,
}

#[derive(Clone, Copy, Debug)]
pub struct Circle {
    pub center: Pixel,
    pub radius: u32,
    pub diameter: u32,
}

impl Circle {
    /// The radius is held exactly in single precision, and the range of
    /// coordinates has room around the circle.
    pub open spec fn has_room(self) -> bool {
        let x = signed(self.center.x);
        let y = signed(self.center.y);
        &&& self.radius + 2 < 0x100_0000
        &&& in_i32(x - 2 * self.radius) && in_i32(x + self.radius + 2)
        &&& in_i32(y - 2 * self.radius) && in_i32(y + self.radius + 2)
        &&& in_i32(x - self.radius - 2) && in_i32(y - self.radius - 2)
    }

    /// Whether the circle is small enough and has room around it.
    pub fn leaves_room(&self) -> (result: bool)
        ensures
            result == self.has_room(),
    {
        let x: i64 = to_signed(self.center.x) as i64;
        let y: i64 = to_signed(self.center.y) as i64;
        let radius: i64 = self.radius as i64;
        let least: i64 = i32::MIN as i64;
        let most: i64 = i32::MAX as i64;
        radius + 2 < 0x100_0000 && x - 2 * radius >= least && x + radius + 2 <= most && y - 2
            * radius >= least && y + radius + 2 <= most && x - radius - 2 >= least && y - radius - 2
            >= least
    }
}

/// The cosine and the sine of an angle.
#[derive(Clone, Copy, PartialEq, Eq, Structural, Debug)]
pub struct Direction {
    pub cos: Binary32,
    pub sin: Binary32,
}

impl Direction {
    /// Neither the cosine nor the sine of an angle is beyond one.
    pub open spec fn within_one(self) -> bool {
        at_most(absolute_of(self.cos), integer(1)) && at_most(absolute_of(self.sin), integer(1))
    }
}

/// There is a direction for every whole degree of the circle.
pub open spec fn is_circle(directions: Seq<Direction>) -> bool {
    &&& directions.len() == 360
    &&& forall|i: int| 0 <= i < 360 ==> (#[trigger] directions[i]).within_one()
}

/// Whether there is a direction for every whole degree of the circle.
pub fn covers_circle(directions: &[Direction]) -> (result: bool)
    ensures
        result == is_circle(directions@),
{
    if directions.len() != 360 {
        return false;
    }
    let one: Binary32 = Binary32::from_u64(1);
    let mut i: usize = 0;
    while i < 360
        invariant
            i <= 360,
            one == integer(1),
            directions@.len() == 360,
            forall|j: int| 0 <= j < i ==> (#[trigger] directions@[j]).within_one(),
        decreases 360 - i,
    {
        let direction: Direction = directions[i];
        if !(direction.cos.absolute().le(one) && direction.sin.absolute().le(one)) {
            assert(!directions@[i as int].within_one());
            return false;
        }
        i = i + 1;
    }
    true
}

pub open spec fn in_i32(number: int) -> bool {
    i32::MIN <= number <= i32::MAX
}

/// A coordinate read as a signed number: the upper half of the range is negative.
pub open spec fn signed(coordinate: u32) -> int {
    if coordinate >= 0x8000_0000 {
        coordinate - 0x1_0000_0000
    } else {
        coordinate as int
    }
}

/// A signed number as a coordinate: the negative ones come out in the upper half.
pub open spec fn coordinate(number: int) -> u32 {
    (if number < 0 {
        number + 0x1_0000_0000
    } else {
        number
    }) as u32
}

/// A coordinate as a signed number.
pub(crate) fn to_signed(coordinate: u32) -> (number: i32)
    ensures
        number == signed(coordinate),
{
    if coordinate >= 0x8000_0000 {
        (coordinate as i64 - 0x1_0000_0000) as i32
    } else {
        coordinate as i32
    }
}

fn to_coordinate(number: i64) -> (result: u32)
    requires
        in_i32(number as int),
    ensures
        result == coordinate(number as int),
{
    if number < 0 {
        (number + 0x1_0000_0000) as u32
    } else {
        number as u32
    }
}

/// How many steps of `step` go from `low` up to `high`, both ends counted.
pub open spec fn steps(low: int, high: int, step: int) -> nat {
    if high < low {
        0
    } else {
        ((high - low) / step + 1) as nat
    }
}

/// A rectangle sampled with the given steps, row by row.
pub open spec fn grid(
    x_low: int,
    x_high: int,
    x_step: int,
    y_low: int,
    y_high: int,
    y_step: int,
) -> Seq<Pixel> {
    let columns = steps(x_low, x_high, x_step);
    let rows = steps(y_low, y_high, y_step);
    Seq::new(
        rows * columns,
        |i: int|
            Pixel {
                x: coordinate(x_low + (i % columns as int) * x_step),
                y: coordinate(y_low + (i / columns as int) * y_step),
            },
    )
}

/// `fraction` of the radius, in whole pixels.
pub open spec fn part_of_radius(circle: Circle, hundredths: nat) -> int {
    truncated(product_of(integer(circle.radius as int), ratio(hundredths, 100)))
}

/// The part of the radius, plus an offset of a few pixels, that lies along one axis.
pub open spec fn reach(circle: Circle, offset: int, along: Binary32) -> int {
    truncated(product_of(sum_of(integer(circle.radius as int), integer(offset)), along))
}

pub open spec fn at_least_one(number: int) -> int {
    if number < 1 {
        1
    } else {
        number
    }
}

/// The ring: five pixels, from two inside to two outside, at every degree.
pub open spec fn ring_pattern(circle: Circle, directions: Seq<Direction>) -> Seq<Pixel> {
    Seq::new(
        1800,
        |i: int|
            Pixel {
                x: coordinate(
                    signed(circle.center.x) + reach(circle, i % 5 - 2, directions[i / 5].cos),
                ),
                y: coordinate(
                    signed(circle.center.y) + reach(circle, i % 5 - 2, directions[i / 5].sin),
                ),
            },
    )
}

/// The progress area: a sampled band above the center and one below it.
pub open spec fn inner_pattern(circle: Circle) -> Seq<Pixel> {
    let cx = signed(circle.center.x);
    let cy = signed(circle.center.y);
    let half_width = part_of_radius(circle, 46);
    let near = part_of_radius(circle, 30);
    let far = part_of_radius(circle, 70);
    let x_step = at_least_one(half_width / 5);
    let y_step = at_least_one((far - near) / 6);
    grid(cx - half_width, cx + half_width, x_step, cy - far, cy - near, y_step) + grid(
        cx - half_width,
        cx + half_width,
        x_step,
        cy + near,
        cy + far,
        y_step,
    )
}

/// The needle's resting place: every pixel of a box across the top of the ring.
pub open spec fn pointer_pattern(circle: Circle) -> Seq<Pixel> {
    let cx = signed(circle.center.x);
    let top = signed(circle.center.y) - truncated(integer(circle.radius as int));
    let margin = part_of_radius(circle, 11);
    grid(cx - margin, cx + margin, 1, top - part_of_radius(circle, 23), top + margin, 1)
}

/// Every coordinate that the patterns are computed from is an `i32`.
pub open spec fn coordinates_fit(circle: Circle, directions: Seq<Direction>) -> bool {
    let cx = signed(circle.center.x);
    let cy = signed(circle.center.y);
    let half_width = part_of_radius(circle, 46);
    let near = part_of_radius(circle, 30);
    let far = part_of_radius(circle, 70);
    let margin = part_of_radius(circle, 11);
    let above = part_of_radius(circle, 23);
    let top = cy - truncated(integer(circle.radius as int));
    &&& forall|angle: int, offset: int|
        0 <= angle < 360 && -2 <= offset <= 2 ==> in_i32(
            cx + #[trigger] reach(circle, offset, directions[angle].cos),
        )
    &&& forall|angle: int, offset: int|
        0 <= angle < 360 && -2 <= offset <= 2 ==> in_i32(
            cy + #[trigger] reach(circle, offset, directions[angle].sin),
        )
    &&& in_i32(cx - half_width) && in_i32(cx + half_width)
    &&& in_i32(cy - far) && in_i32(cy - near) && in_i32(cy + near) && in_i32(cy + far)
    &&& in_i32(cx - margin) && in_i32(cx + margin)
    &&& in_i32(top) && in_i32(top - above) && in_i32(top + margin)
}

/// A step is taken as long as it does not pass the upper end.
proof fn lemma_steps(low: int, high: int, step: int, taken: nat)
    requires
        step >= 1,
    ensures
        low + taken * step <= high <==> taken < steps(low, high, step),
{
    if high < low {
        assert(taken * step >= 0) by (nonlinear_arith)
            requires
                step >= 1,
        ;
    } else {
        let span = (high - low) as nat;
        lemma_quotient_bounds(span, step as nat);
        let quotient = span / step as nat;
        assert((taken * step <= span) == (taken <= quotient)) by (nonlinear_arith)
            requires
                span == quotient * step + span % (step as nat),
                span % (step as nat) < step,
                step >= 1,
        ;
    }
}

/// Appends a sampled rectangle, row by row.
fn push_grid(
    pattern: &mut Vec<Pixel>,
    x_low: i64,
    x_high: i64,
    x_step: i64,
    y_low: i64,
    y_high: i64,
    y_step: i64,
)
    requires
        in_i32(x_low as int),
        in_i32(x_high as int),
        in_i32(y_low as int),
        in_i32(y_high as int),
        1 <= x_step <= i32::MAX,
        1 <= y_step <= i32::MAX,
    ensures
        final(pattern)@ == old(pattern)@ + grid(
            x_low as int,
            x_high as int,
            x_step as int,
            y_low as int,
            y_high as int,
            y_step as int,
        ),
{
    let ghost all = grid(
        x_low as int,
        x_high as int,
        x_step as int,
        y_low as int,
        y_high as int,
        y_step as int,
    );
    let ghost columns = steps(x_low as int, x_high as int, x_step as int);
    let ghost rows = steps(y_low as int, y_high as int, y_step as int);
    let ghost start = pattern@;
    let ghost mut row: nat = 0;
    let mut y: i64 = y_low;
    proof {
        lemma_steps(y_low as int, y_high as int, y_step as int, 0);
        assert(0 * columns == 0);
        assert(0 * y_step == 0);
        assert(start + all.take(0) =~= start);
    }
    while y <= y_high
        invariant
            in_i32(x_low as int),
            in_i32(x_high as int),
            in_i32(y_low as int),
            in_i32(y_high as int),
            1 <= x_step <= i32::MAX,
            1 <= y_step <= i32::MAX,
            columns == steps(x_low as int, x_high as int, x_step as int),
            rows == steps(y_low as int, y_high as int, y_step as int),
            all == grid(
                x_low as int,
                x_high as int,
                x_step as int,
                y_low as int,
                y_high as int,
                y_step as int,
            ),
            y == y_low + row * y_step,
            y_low <= y,
            y <= y_high <==> row < rows,
            row <= rows,
            pattern@ == start + all.take((row * columns) as int),
        decreases rows - row,
    {
        let ghost mut column: nat = 0;
        let mut x: i64 = x_low;
        proof {
            lemma_steps(x_low as int, x_high as int, x_step as int, 0);
            assert(0 * x_step == 0);
            assert((row + 1) * columns <= rows * columns) by (nonlinear_arith)
                requires
                    row + 1 <= rows,
            ;
            assert((row + 1) * columns == row * columns + columns) by (nonlinear_arith);
        }
        while x <= x_high
            invariant
                in_i32(x_low as int),
                in_i32(x_high as int),
                in_i32(y as int),
                1 <= x_step <= i32::MAX,
                columns == steps(x_low as int, x_high as int, x_step as int),
                rows == steps(y_low as int, y_high as int, y_step as int),
                x == x_low + column * x_step,
                x_low <= x,
                x <= x_high <==> column < columns,
                column <= columns,
                row * columns + columns <= rows * columns,
                y == y_low + row * y_step,
                all == grid(
                    x_low as int,
                    x_high as int,
                    x_step as int,
                    y_low as int,
                    y_high as int,
                    y_step as int,
                ),
                pattern@ == start + all.take((row * columns + column) as int),
            decreases columns - column,
        {
            pattern.push(Pixel { x: to_coordinate(x), y: to_coordinate(y) });
            proof {
                let index = row * columns + column;
                lemma_quotient_unique(index, columns, row, column);
                assert(all.take((index + 1) as int) =~= all.take(index as int).push(
                    all[index as int],
                ));
                assert(start + all.take((index + 1) as int) =~= (start + all.take(
                    index as int,
                )).push(all[index as int]));
                assert((column + 1) * x_step == column * x_step + x_step) by (nonlinear_arith);
                column = column + 1;
                lemma_steps(x_low as int, x_high as int, x_step as int, column);
            }
            x = x + x_step;
        }
        proof {
            assert((row + 1) * y_step == row * y_step + y_step) by (nonlinear_arith);
            row = row + 1;
            lemma_steps(y_low as int, y_high as int, y_step as int, row);
        }
        y = y + y_step;
    }
    assert(all.take((rows * columns) as int) =~= all);
}

/// A positive part of the radius is not negative.
proof fn lemma_part_of_radius(circle: Circle, hundredths: nat)
    ensures
        0 <= part_of_radius(circle, hundredths) <= i32::MAX,
        0 <= truncated(integer(circle.radius as int)) <= i32::MAX,
{
    let radius = integer(circle.radius as int);
    let factor = ratio(hundredths, 100);
    let product = product_of(radius, factor);
    lemma_pow2_pos(unit_exponent());
    lemma_quotient_bounds(radius.units(), pow2(unit_exponent()));
    lemma_quotient_bounds(product.units(), pow2(unit_exponent()));
    lemma_nearest(false, circle.radius as nat * pow2(unit_exponent()), 1);
    lemma_nearest(false, hundredths * pow2(unit_exponent()), 100);
    lemma_nearest(false, radius.units() * factor.units(), pow2(unit_exponent()));
}

/// The pixels to look at: the ring, the progress area, the needle's resting place.
///
/// `directions` holds the cosine and the sine of every whole degree, from 0 up.
pub fn generate_patterns(circle: &Circle, directions: &[Direction]) -> (patterns: (
    Vec<Pixel>,
    Vec<Pixel>,
    Vec<Pixel>,
))
    requires
        directions@.len() == 360,
        coordinates_fit(*circle, directions@),
    ensures
        patterns.0@ == ring_pattern(*circle, directions@),
        patterns.1@ == inner_pattern(*circle),
        patterns.2@ == pointer_pattern(*circle),
{
    let cx: i64 = to_signed(circle.center.x) as i64;
    let cy: i64 = to_signed(circle.center.y) as i64;
    let radius: Binary32 = Binary32::from_u64(circle.radius as u64);
    let ghost ring = ring_pattern(*circle, directions@);

    let mut circle_pattern: Vec<Pixel> = Vec::with_capacity(1800);
    let mut angle: usize = 0;
    while angle < 360
        invariant
            angle <= 360,
            directions@.len() == 360,
            coordinates_fit(*circle, directions@),
            cx == signed(circle.center.x),
            cy == signed(circle.center.y),
            radius == integer(circle.radius as int),
            ring == ring_pattern(*circle, directions@),
            circle_pattern@ == ring.take(5 * angle),
        decreases 360 - angle,
    {
        let direction: Direction = directions[angle];
        let mut offset: i32 = -2;
        while offset <= 2
            invariant
                angle < 360,
                -2 <= offset <= 3,
                directions@.len() == 360,
                direction == directions@[angle as int],
                coordinates_fit(*circle, directions@),
                cx == signed(circle.center.x),
                cy == signed(circle.center.y),
                radius == integer(circle.radius as int),
                ring == ring_pattern(*circle, directions@),
                circle_pattern@ == ring.take(5 * angle + offset + 2),
            decreases 3 - offset,
        {
            let distance: Binary32 = radius.plus(Binary32::from_i32(offset));
            let x: i64 = cx + distance.times(direction.cos).truncate() as i64;
            let y: i64 = cy + distance.times(direction.sin).truncate() as i64;
            assert(x == cx + reach(*circle, offset as int, directions@[angle as int].cos));
            assert(y == cy + reach(*circle, offset as int, directions@[angle as int].sin));
            circle_pattern.push(Pixel { x: to_coordinate(x), y: to_coordinate(y) });
            proof {
                let index = 5 * angle + offset + 2;
                assert(index / 5 == angle && index % 5 == offset + 2);
                assert(ring.take(index + 1) =~= ring.take(index).push(ring[index]));
            }
            offset = offset + 1;
        }
        angle = angle + 1;
    }
    assert(ring.take(1800) =~= ring);

    let half_width: i64 = radius.times(Binary32::from_ratio(46, 100)).truncate() as i64;
    let near: i64 = radius.times(Binary32::from_ratio(30, 100)).truncate() as i64;
    let far: i64 = radius.times(Binary32::from_ratio(70, 100)).truncate() as i64;
    proof {
        lemma_part_of_radius(*circle, 46);
        lemma_part_of_radius(*circle, 30);
        lemma_part_of_radius(*circle, 70);
    }
    let x_step: i64 = if half_width / 5 < 1 { 1 } else { half_width / 5 };
    let y_step: i64 = if (far - near) / 6 < 1 { 1 } else { (far - near) / 6 };
    let mut inner: Vec<Pixel> = Vec::new();
    push_grid(
        &mut inner,
        cx - half_width,
        cx + half_width,
        x_step,
        cy - far,
        cy - near,
        y_step,
    );
    push_grid(
        &mut inner,
        cx - half_width,
        cx + half_width,
        x_step,
        cy + near,
        cy + far,
        y_step,
    );
    assert(inner@ =~= inner_pattern(*circle));

    let margin: i64 = radius.times(Binary32::from_ratio(11, 100)).truncate() as i64;
    let above: i64 = radius.times(Binary32::from_ratio(23, 100)).truncate() as i64;
    let top: i64 = cy - radius.truncate() as i64;
    let mut pointer: Vec<Pixel> = Vec::new();
    push_grid(&mut pointer, cx - margin, cx + margin, 1, top - above, top + margin, 1);
    assert(pointer@ =~= pointer_pattern(*circle));
    (circle_pattern, inner, pointer)
}

} // verus!
