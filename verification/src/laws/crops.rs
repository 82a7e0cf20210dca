//! What a crop shows.

use crate::capture::{crop_frame, crop_of, crop_offset, crop_start, frame_byte, CaptureGeometry};
use crate::config::GeometryConfig;
use crate::pixels::signed;
use crate::rounding::lemma_quotient_unique;
use vstd::prelude::*;

verus! {

/// A pixel of the crop is the pixel of the frame at the same distance from
/// where the crop begins.
pub proof fn lemma_crop_pixel(
    buffer: Seq<u8>,
    width: u32,
    height: u32,
    start_x: int,
    start_y: int,
    crop_size: u32,
    x: u32,
    y: u32,
    byte: int,
)
    requires
        x < crop_size,
        y < crop_size,
        0 <= byte < 4,
    ensures
        ({
            let at = (y * crop_size + x) * 4 + byte;
            &&& 0 <= at < crop_of(buffer, width, height, start_x, start_y, crop_size).len()
            &&& crop_of(buffer, width, height, start_x, start_y, crop_size)[at] == frame_byte(
                buffer,
                width,
                height,
                start_x + x,
                start_y + y,
                byte,
            )
        }),
{
    let place = y * crop_size + x;
    let at = place * 4 + byte;
    assert(0 <= place && place + 1 <= crop_size * crop_size) by (nonlinear_arith)
        requires
            place == y * crop_size + x,
            0 <= x < crop_size,
            0 <= y < crop_size,
    ;
    lemma_quotient_unique(place as nat, crop_size as nat, y as nat, x as nat);
    assert(at / 4 == place && at % 4 == byte);
}

/// The middle of the crop is the center that it was cut out around.
pub proof fn lemma_crop_centered(
    buffer: Seq<u8>,
    width: u32,
    height: u32,
    center_x: u32,
    center_y: u32,
    crop_size: u32,
    byte: int,
)
    requires
        0 < crop_size < 0x8000_0000,
        0 <= byte < 4,
    ensures
        ({
            let middle = (crop_size / 2) as int;
            let crop = crop_of(
                buffer,
                width,
                height,
                crop_start(center_x, crop_size),
                crop_start(center_y, crop_size),
                crop_size,
            );
            crop[(middle * crop_size + middle) * 4 + byte] == frame_byte(
                buffer,
                width,
                height,
                signed(center_x),
                signed(center_y),
                byte,
            )
        }),
{
    lemma_crop_pixel(
        buffer,
        width,
        height,
        crop_start(center_x, crop_size),
        crop_start(center_y, crop_size),
        crop_size,
        crop_size / 2,
        crop_size / 2,
        byte,
    );
}

/// A crop holds the bytes of the frame: a pixel of the frame that lies in the
/// square is in the crop with all four bytes, as far from the crop's corner as
/// it is from the square's.
pub proof fn lemma_crop_copies(
    buffer: &[u8],
    width: u32,
    height: u32,
    start_x: i32,
    start_y: i32,
    crop_size: u32,
    cropped: Vec<u8>,
    x: int,
    y: int,
    byte: int,
)
    requires
        call_ensures(crop_frame, (buffer, width, height, start_x, start_y, crop_size), cropped),
        0 <= x < width <= i32::MAX,
        0 <= y < height <= i32::MAX,
        (y * width + x) * 4 + 3 < buffer@.len(),
        start_x <= x < start_x + crop_size,
        start_y <= y < start_y + crop_size,
        0 <= byte < 4,
    ensures
        cropped@.len() == crop_size * crop_size * 4,
        0 <= ((y - start_y) * crop_size + (x - start_x)) * 4 + byte < cropped@.len(),
        cropped@[((y - start_y) * crop_size + (x - start_x)) * 4 + byte] == buffer@[(y * width + x)
            * 4 + byte],
{
    lemma_crop_pixel(
        buffer@,
        width,
        height,
        start_x as int,
        start_y as int,
        crop_size,
        (x - start_x) as u32,
        (y - start_y) as u32,
        byte,
    );
}

/// What lies beyond the frame, or beyond the bytes that there are, is black.
pub proof fn lemma_crop_black_beyond(
    buffer: &[u8],
    width: u32,
    height: u32,
    start_x: i32,
    start_y: i32,
    crop_size: u32,
    cropped: Vec<u8>,
    x: int,
    y: int,
    byte: int,
)
    requires
        call_ensures(crop_frame, (buffer, width, height, start_x, start_y, crop_size), cropped),
        start_x <= x < start_x + crop_size,
        start_y <= y < start_y + crop_size,
        0 <= byte < 4,
        x < 0 || x >= width || y < 0 || y >= height || (y * width + x) * 4 + 3 >= buffer@.len()
            || width > i32::MAX || height > i32::MAX,
    ensures
        cropped@.len() == crop_size * crop_size * 4,
        0 <= ((y - start_y) * crop_size + (x - start_x)) * 4 + byte < cropped@.len(),
        cropped@[((y - start_y) * crop_size + (x - start_x)) * 4 + byte] == 0,
{
    lemma_crop_pixel(
        buffer@,
        width,
        height,
        start_x as int,
        start_y as int,
        crop_size,
        (x - start_x) as u32,
        (y - start_y) as u32,
        byte,
    );
}

/// A crop begins half its size before its center, the half cut off to whole pixels.
pub proof fn lemma_crop_begins_half_before(center: u32, crop_size: u32, offset: i32)
    requires
        call_ensures(crop_offset, (center, crop_size), offset),
        crop_size <= i32::MAX,
    ensures
        center <= i32::MAX ==> {
            ||| 2 * (center - offset) == crop_size
            ||| 2 * (center - offset) == crop_size - 1
        },
        center > i32::MAX ==> {
            ||| 2 * (center - 0x1_0000_0000 - offset) == crop_size
            ||| 2 * (center - 0x1_0000_0000 - offset) == crop_size - 1
        },
{
}

/// A size past the signed range counts as negative, and its half is cut off
/// towards zero.
pub proof fn lemma_crop_of_wrapped_size(center: u32, crop_size: u32, offset: i32)
    requires
        call_ensures(crop_offset, (center, crop_size), offset),
        crop_size > i32::MAX,
    ensures
        ({
            let middle = as_signed(center);
            2 * (offset - middle) == 0x1_0000_0000 - crop_size || 2 * (offset - middle)
                == 0x1_0000_0000 - crop_size - 1
        }),
{
}

/// A crop has four bytes for each of its pixels, whatever the frame is like.
pub proof fn lemma_crop_length(
    buffer: &[u8],
    width: u32,
    height: u32,
    start_x: i32,
    start_y: i32,
    crop_size: u32,
    cropped: Vec<u8>,
)
    requires
        call_ensures(crop_frame, (buffer, width, height, start_x, start_y, crop_size), cropped),
    ensures
        cropped@.len() == 4 * (crop_size * crop_size),
{
}

/// A number of 32 bits with a sign: the upper half is below 0.
pub open spec fn as_signed(number: u32) -> int {
    if number > i32::MAX {
        number - 0x1_0000_0000
    } else {
        number as int
    }
}

/// Capturing takes a square with the widget's center in its middle: four bytes
/// a pixel, and the circle where the center came to lie. It is refused exactly
/// where a size or an offset has no room in 32 bits.
pub proof fn lemma_capture_around_center(
    geometry: &GeometryConfig,
    result: Option<CaptureGeometry>,
)
    requires
        call_ensures(CaptureGeometry::new, (geometry,), result),
    ensures
        result is Some <==> geometry.crop_size * geometry.crop_size * 4 <= u32::MAX
            && geometry.circle_radius * 2 <= u32::MAX && as_signed(geometry.circle_center_x)
            - geometry.crop_size / 2 >= i32::MIN && as_signed(geometry.circle_center_y)
            - geometry.crop_size / 2 >= i32::MIN,
        result matches Some(capture) ==> {
            &&& capture.crop_size == geometry.crop_size
            &&& capture.stride == 4 * capture.crop_size
            &&& capture.byte_count == capture.stride * capture.crop_size
            &&& capture.circle.radius == geometry.circle_radius
            &&& capture.circle.diameter == 2 * geometry.circle_radius
            &&& 2 * capture.circle.center.x == capture.crop_size || 2 * capture.circle.center.x + 1
                == capture.crop_size
            &&& capture.circle.center.y == capture.circle.center.x
            &&& capture.offset_x + capture.circle.center.x == as_signed(geometry.circle_center_x)
            &&& capture.offset_y + capture.circle.center.y == as_signed(geometry.circle_center_y)
        },
{
    let crop = geometry.crop_size;
    if crop * crop * 4 <= u32::MAX {
        assert(crop <= 0x7fff) by (nonlinear_arith)
            requires
                crop * crop * 4 <= 0xffff_ffff,
        ;
        assert((crop * 4) * crop == crop * crop * 4) by (nonlinear_arith);
    }
}

} // verus!
