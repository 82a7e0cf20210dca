//! Cutting the part around the widget out of a frame.

use crate::config::GeometryConfig;
use crate::pixels::{in_i32, signed, to_signed, Circle, Pixel};
use crate::rounding::lemma_quotient_unique;
use vstd::prelude::*;

verus! {

/// Half of a size, as a signed number, cut off towards zero.
pub open spec fn signed_half(size: u32) -> int {
    if signed(size) < 0 {
        -((-signed(size)) / 2)
    } else {
        signed(size) / 2
    }
}

/// Where a crop begins along an axis so that its middle is at the center.
pub open spec fn crop_start(center: u32, crop_size: u32) -> int {
    signed(center) - signed_half(crop_size)
}

/// Where a crop begins along an axis.
pub fn crop_offset(center: u32, crop_size: u32) -> (offset: i32)
    requires
        in_i32(crop_start(center, crop_size)),
    ensures
        offset == crop_start(center, crop_size),
{
    let size: i64 = to_signed(crop_size) as i64;
    let half: i64 = if size < 0 { -((-size) / 2) } else { size / 2 };
    (to_signed(center) as i64 - half) as i32
}

/// What capturing needs to know of the geometry.
#[derive(Clone, Copy, Debug)]
pub struct CaptureGeometry {
    /// Where the crop begins in the frame.
    pub offset_x: i32,
    pub offset_y: i32,
    /// The width and the height of the crop.
    pub crop_size: u32,
    /// The bytes of a row of the crop.
    pub stride: usize,
    /// The bytes of the crop.
    pub byte_count: usize,
    /// The circle of the widget, in the crop.
    pub circle: Circle,
}

/// The sizes and offsets of a geometry can be computed.
pub open spec fn geometry_fits(geometry: GeometryConfig) -> bool {
    &&& geometry.crop_size * geometry.crop_size * 4 <= u32::MAX
    &&& geometry.crop_size * 4 <= u32::MAX
    &&& geometry.circle_radius * 2 <= u32::MAX
    &&& in_i32(crop_start(geometry.circle_center_x, geometry.crop_size))
    &&& in_i32(crop_start(geometry.circle_center_y, geometry.crop_size))
}

impl CaptureGeometry {
    /// The crop around the widget, whose circle is in the middle of it. `None`
    /// where a size or an offset is out of range.
    pub fn new(geometry: &GeometryConfig) -> (result: Option<CaptureGeometry>)
        ensures
            result is Some <==> geometry_fits(*geometry),
            result matches Some(capture) ==> {
                &&& capture.offset_x == crop_start(geometry.circle_center_x, geometry.crop_size)
                &&& capture.offset_y == crop_start(geometry.circle_center_y, geometry.crop_size)
                &&& capture.crop_size == geometry.crop_size
                &&& capture.stride == geometry.crop_size * 4
                &&& capture.byte_count == geometry.crop_size * geometry.crop_size * 4
                &&& capture.circle.center.x == geometry.crop_size / 2
                &&& capture.circle.center.y == geometry.crop_size / 2
                &&& capture.circle.radius == geometry.circle_radius
                &&& capture.circle.diameter == geometry.circle_radius * 2
            },
    {
        let crop: u32 = geometry.crop_size;
        let radius: u32 = geometry.circle_radius;
        // A larger crop has more bytes than a 32-bit size can count.
        if crop > 32767 {
            assert(crop * crop * 4 > u32::MAX) by (nonlinear_arith)
                requires
                    crop > 32767,
            ;
            return None;
        }
        assert(crop * crop * 4 <= u32::MAX && crop * crop <= u32::MAX) by (nonlinear_arith)
            requires
                crop <= 32767,
        ;
        if radius > 0x7fff_ffff {
            return None;
        }
        let half: i64 = (crop / 2) as i64;
        let lowest: i64 = i32::MIN as i64 + half;
        let center_x: i64 = to_signed(geometry.circle_center_x) as i64;
        let center_y: i64 = to_signed(geometry.circle_center_y) as i64;
        if center_x < lowest || center_y < lowest {
            return None;
        }
        Some(
            CaptureGeometry {
                offset_x: crop_offset(geometry.circle_center_x, crop),
                offset_y: crop_offset(geometry.circle_center_y, crop),
                crop_size: crop,
                stride: (crop * 4) as usize,
                byte_count: (crop * crop * 4) as usize,
                circle: Circle {
                    center: Pixel { x: crop / 2, y: crop / 2 },
                    radius,
                    diameter: radius * 2,
                },
            },
        )
    }
}

/// The frame has a pixel at a place.
pub open spec fn frame_has(
    buffer: Seq<u8>,
    width: u32,
    height: u32,
    x: int,
    y: int,
) -> bool {
    &&& 0 <= x < signed(width)
    &&& 0 <= y < signed(height)
    &&& (y * width + x) * 4 + 3 < buffer.len()
}

/// A byte of the pixel at a place; 0 where the frame has no such pixel.
pub open spec fn frame_byte(
    buffer: Seq<u8>,
    width: u32,
    height: u32,
    x: int,
    y: int,
    byte: int,
) -> u8 {
    if frame_has(buffer, width, height, x, y) {
        buffer[(y * width + x) * 4 + byte]
    } else {
        0
    }
}

/// The crop of a frame, row by row, black where it is beyond the frame.
pub open spec fn crop_of(
    buffer: Seq<u8>,
    width: u32,
    height: u32,
    start_x: int,
    start_y: int,
    crop_size: u32,
) -> Seq<u8> {
    Seq::new(
        (crop_size * crop_size * 4) as nat,
        |i: int|
            frame_byte(
                buffer,
                width,
                height,
                start_x + (i / 4) % (crop_size as int),
                start_y + (i / 4) / (crop_size as int),
                i % 4,
            ),
    )
}

/// Cuts a square out of a frame of four bytes per pixel.
pub fn crop_frame(
    buffer: &[u8],
    width: u32,
    height: u32,
    start_x: i32,
    start_y: i32,
    crop_size: u32,
) -> (cropped: Vec<u8>)
    requires
        crop_size * crop_size * 4 <= u32::MAX,
        width * height * 4 <= usize::MAX,
    ensures
        cropped@ == crop_of(
            buffer@,
            width,
            height,
            start_x as int,
            start_y as int,
            crop_size,
        ),
{
    let mut cropped: Vec<u8> = Vec::new();
    let ghost whole = crop_of(
        buffer@,
        width,
        height,
        start_x as int,
        start_y as int,
        crop_size,
    );
    let right: i64 = to_signed(width) as i64;
    let bottom: i64 = to_signed(height) as i64;
    let mut y: u32 = 0;
    while y < crop_size
        invariant
            y <= crop_size,
            crop_size * crop_size * 4 <= u32::MAX,
            width * height * 4 <= usize::MAX,
            right == signed(width),
            bottom == signed(height),
            whole == crop_of(
                buffer@,
                width,
                height,
                start_x as int,
                start_y as int,
                crop_size,
            ),
            cropped@.len() == y * crop_size * 4,
            cropped@ == whole.take(y * crop_size * 4),
        decreases crop_size - y,
    {
        let from_y: i64 = start_y as i64 + y as i64;
        let mut x: u32 = 0;
        while x < crop_size
            invariant
                x <= crop_size,
                y < crop_size,
                crop_size * crop_size * 4 <= u32::MAX,
                width * height * 4 <= usize::MAX,
                right == signed(width),
                bottom == signed(height),
                from_y == start_y + y,
                whole == crop_of(
                    buffer@,
                    width,
                    height,
                    start_x as int,
                    start_y as int,
                    crop_size,
                ),
                cropped@.len() == (y * crop_size + x) * 4,
                cropped@ == whole.take((y * crop_size + x) * 4),
            decreases crop_size - x,
        {
            let from_x: i64 = start_x as i64 + x as i64;
            let ghost at = (y * crop_size + x) * 4;
            let mut pixel: [u8; 4] = [0;4];
            if 0 <= from_x && from_x < right && 0 <= from_y && from_y < bottom {
                assert((from_y * width + from_x) * 4 + 3 < width * height * 4) by (nonlinear_arith)
                    requires
                        0 <= from_x < width,
                        0 <= from_y < height,
                ;
                assert(0 <= from_y * width && from_y * width + from_x <= usize::MAX)
                    by (nonlinear_arith)
                    requires
                        (from_y * width + from_x) * 4 + 3 < width * height * 4,
                        width * height * 4 <= usize::MAX,
                        0 <= from_x,
                        0 <= from_y,
                        0 <= width,
                ;
                let index: usize = (from_y as usize * width as usize + from_x as usize) * 4;
                if index + 3 < buffer.len() {
                    pixel = [buffer[index], buffer[index + 1], buffer[index + 2], buffer[index + 3]];
                }
            }
            proof {
                lemma_crop_place(crop_size, x, y);
            }
            cropped.push(pixel[0]);
            cropped.push(pixel[1]);
            cropped.push(pixel[2]);
            cropped.push(pixel[3]);
            assert(cropped@ =~= whole.take(at + 4));
            x = x + 1;
        }
        assert((y * crop_size + crop_size) * 4 == (y + 1) * crop_size * 4) by (nonlinear_arith);
        y = y + 1;
    }
    assert(whole.take(crop_size * crop_size * 4) =~= whole);
    cropped
}

/// The bytes of the crop's pixel at a place are those of that pixel.
proof fn lemma_crop_place(crop_size: u32, x: u32, y: u32)
    requires
        x < crop_size,
        y < crop_size,
    ensures
        ({
            let at = (y * crop_size + x) * 4;
            &&& 0 <= at
            &&& at + 4 <= crop_size * crop_size * 4
            &&& forall|k: int|
                0 <= k < 4 ==> (#[trigger] (at + k)) % 4 == k && ((at + k) / 4) % (crop_size as int)
                    == x && ((at + k) / 4) / (crop_size as int) == y
        }),
{
    let place = y * crop_size + x;
    assert(0 <= place && place + 1 <= crop_size * crop_size) by (nonlinear_arith)
        requires
            place == y * crop_size + x,
            0 <= x < crop_size,
            0 <= y < crop_size,
    ;
    lemma_quotient_unique(
        place as nat,
        crop_size as nat,
        y as nat,
        x as nat,
    );
}

} // verus!
