//! What is chosen of a graphics device, kept of its images, and pressed.

use crate::input::{
    next_space_press, press_key, read_clock, space_press, Clock, InputEmulatorBackend, KeyPress,
};
use crate::vulkan::{
    find_device, find_memory_type_in, find_queue_family, has_flags, is_suitable, plane_size,
    Cleanup, ImageCache, ImportEvent, ImportProgress, ImportStep, ImportedFrame,
};
use vstd::prelude::*;

verus! {

/// The memory type found is the first one whose bit the filter has and that has
/// every wanted property; none is found only where there is none.
pub proof fn lemma_memory_type_found(
    property_flags: &[u32],
    type_filter: u32,
    properties: u32,
    found: Option<u32>,
)
    requires
        call_ensures(find_memory_type_in, (property_flags, type_filter, properties), found),
    ensures
        ({
            let fits = |i: int|
                0 <= i < property_flags@.len() && type_filter & (1u32 << i as u32) != 0
                    && property_flags@[i] & properties == properties;
            &&& found matches Some(index) ==> fits(index as int) && forall|i: int|
                0 <= i < index ==> !#[trigger] fits(i)
            &&& found is None ==> forall|i: int| !#[trigger] fits(i)
        }),
{
    let fits = |i: int|
        0 <= i < property_flags@.len() && type_filter & (1u32 << i as u32) != 0
            && property_flags@[i] & properties == properties;
    if let Some(index) = found {
        assert forall|i: int| 0 <= i < index implies !#[trigger] fits(i) by {
            assert(!is_suitable(property_flags@, type_filter, properties, i));
        }
    } else {
        assert forall|i: int| !#[trigger] fits(i) by {
            if fits(i) {
                assert(is_suitable(property_flags@, type_filter, properties, i));
            }
        }
    }
}

/// The queue family found is the first one with all wanted flags; none is found
/// only where there is none.
pub proof fn lemma_queue_family_found(queue_flags: &[u32], wanted: u32, found: Option<u32>)
    requires
        call_ensures(find_queue_family, (queue_flags, wanted), found),
    ensures
        found matches Some(index) ==> {
            &&& index < queue_flags@.len()
            &&& queue_flags@[index as int] & wanted == wanted
            &&& forall|i: int| 0 <= i < index ==> #[trigger] queue_flags@[i] & wanted != wanted
        },
        found is None ==> forall|i: int|
            0 <= i < queue_flags@.len() ==> #[trigger] queue_flags@[i] & wanted != wanted,
{
    if found is None {
        assert forall|i: int| 0 <= i < queue_flags@.len() implies #[trigger] queue_flags@[i]
            & wanted != wanted by {
            if queue_flags@[i] & wanted == wanted {
                assert(has_flags(queue_flags@[i], wanted));
            }
        }
    }
}

/// The device found is the first one of the wanted type; none is found only
/// where there is none.
pub proof fn lemma_device_found(device_types: &[i32], wanted: i32, found: Option<usize>)
    requires
        call_ensures(find_device, (device_types, wanted), found),
    ensures
        found matches Some(index) ==> {
            &&& index < device_types@.len()
            &&& device_types@[index as int] == wanted
            &&& forall|i: int| 0 <= i < index ==> #[trigger] device_types@[i] != wanted
        },
        found is None ==> forall|i: int|
            0 <= i < device_types@.len() ==> #[trigger] device_types@[i] != wanted,
{
}

/// A plane has as many bytes as its rows have together.
pub proof fn lemma_plane_size(stride: u32, height: u32, size: u64)
    requires
        call_ensures(plane_size, (stride, height), size),
    ensures
        size == stride * height,
{
}

/// An image of the same descriptor and size is used again and the cache stays
/// as it is; otherwise it is to be imported, the one of another size is handed
/// out, and the cache has none for the descriptor any more. Images of other
/// descriptors stay.
pub proof fn lemma_begin_import(
    cache: &mut ImageCache,
    fd: i32,
    width: u32,
    height: u32,
    step: ImportStep,
)
    requires
        call_ensures(ImageCache::begin_import, (cache, fd, width, height), step),
    ensures
        ({
            let (before, after) = (old(cache)@, final(cache)@);
            let known = before.contains_key(fd);
            let fits = known && before[fd].width == width && before[fd].height == height;
            &&& fits ==> step is Cached && after == before
            &&& known && !fits ==> step == ImportStep::Import { stale: Some(before[fd]) }
            &&& !known ==> step == ImportStep::Import { stale: None }
            &&& !fits ==> !after.contains_key(fd)
            &&& forall|other: i32|
                other != fd ==> (#[trigger] after.contains_key(other) <==> before.contains_key(
                    other,
                )) && (before.contains_key(other) ==> after[other] == before[other])
        }),
{
}

/// An image that was imported is found again under its descriptor, and the
/// others stay.
pub proof fn lemma_finish_import(cache: &mut ImageCache, fd: i32, frame: ImportedFrame)
    requires
        call_ensures(ImageCache::finish_import, (cache, fd, frame), ()),
    ensures
        final(cache)@.contains_key(fd),
        final(cache)@[fd] == frame,
        forall|other: i32|
            other != fd ==> (#[trigger] final(cache)@.contains_key(other) <==> old(
                cache,
            )@.contains_key(other)) && (old(cache)@.contains_key(other) ==> final(cache)@[other]
                == old(cache)@[other]),
{
}

/// Looking up an image finds what is kept under its descriptor.
pub proof fn lemma_look_up(cache: &ImageCache, fd: i32, frame: Option<ImportedFrame>)
    requires
        call_ensures(ImageCache::get, (cache, fd), frame),
    ensures
        frame is Some <==> cache@.contains_key(fd),
        frame matches Some(frame) ==> frame == cache@[fd],
{
}

/// An import takes three successes: an image, memory for it, and both bound.
/// The frame is made of the first two handles and the size.
pub proof fn lemma_import_proceeds(
    progress: &mut ImportProgress,
    handle: u64,
    width: u32,
    height: u32,
    cleanup: Option<Cleanup>,
)
    requires
        call_ensures(
            ImportProgress::proceed,
            (progress, ImportEvent::Success { handle }, width, height),
            cleanup,
        ),
    ensures
        cleanup is None,
        *old(progress) is Begun ==> *final(progress) == (ImportProgress::ImageCreated {
            image: handle,
        }),
        *old(progress) matches ImportProgress::ImageCreated { image } ==> *final(progress) == (
        ImportProgress::MemoryAllocated { image, memory: handle }),
        *old(progress) matches ImportProgress::MemoryAllocated { image, memory }
            ==> *final(progress) == (ImportProgress::Done {
            frame: ImportedFrame { image, memory, width, height },
        }),
{
}

/// A failed import gives up what there is: the image, the memory, and the
/// descriptor as long as no memory has taken it over.
pub proof fn lemma_import_fails(
    progress: &mut ImportProgress,
    width: u32,
    height: u32,
    cleanup: Option<Cleanup>,
)
    requires
        call_ensures(
            ImportProgress::proceed,
            (progress, ImportEvent::Failure, width, height),
            cleanup,
        ),
    ensures
        *final(progress) is Failed,
        cleanup is Some,
        *old(progress) is Begun ==> cleanup->0 == (Cleanup {
            destroy_image: None,
            free_memory: None,
            close_descriptor: true,
        }),
        *old(progress) matches ImportProgress::ImageCreated { image } ==> cleanup->0 == (Cleanup {
            destroy_image: Some(image),
            free_memory: None,
            close_descriptor: true,
        }),
        *old(progress) matches ImportProgress::MemoryAllocated { image, memory } ==> cleanup->0 == (
        Cleanup {
            destroy_image: Some(image),
            free_memory: Some(memory),
            close_descriptor: false,
        }),
{
}

/// A press of the space bar is key 0x39 down and then up, held for 10
/// milliseconds and as many more as the random number leaves over 41.
pub proof fn lemma_press_from_number(random: u64, press: KeyPress)
    requires
        call_ensures(space_press, (random,), press),
    ensures
        press.down.scan_code == 0x39,
        press.up.scan_code == 0x39,
        !press.down.release,
        press.up.release,
        10 <= press.hold_ms <= 50,
        (press.hold_ms - 10 - random) % 41 == 0,
{
}

/// The next press is one of the space bar, held for 10 to 50 milliseconds.
pub proof fn lemma_next_press(press: KeyPress)
    requires
        call_ensures(next_space_press, (), press),
    ensures
        press.down.scan_code == 0x39,
        press.up.scan_code == 0x39,
        !press.down.release,
        press.up.release,
        10 <= press.hold_ms <= 50,
{
}

/// A new cache holds nothing.
pub proof fn lemma_new_cache(cache: ImageCache, fd: i32, frame: Option<ImportedFrame>)
    requires
        call_ensures(ImageCache::new, (), cache),
        call_ensures(ImageCache::get, (&cache, fd), frame),
    ensures
        frame is None,
{
}

/// The key is pressed by one call, with nothing done to the keyboard before or
/// after, and what the call reports is reported.
pub proof fn lemma_pressed_once<E: InputEmulatorBackend>(
    backend: &mut E,
    result: Result<(), std::io::Error>,
)
    requires
        call_ensures(press_key::<E>, (backend,), result),
    ensures
        exists|called: &mut E| #[trigger]
            call_ensures(E::press_space, (called,), result) && *called == *old(backend)
                && *final(called) == *final(backend),
{
}

/// The clock is read by one call, and what it shows is handed on.
pub proof fn lemma_clock_read_once<E: Clock>(clock: &mut E, nanos: u64)
    requires
        call_ensures(read_clock::<E>, (clock,), nanos),
    ensures
        exists|called: &mut E| #[trigger]
            call_ensures(E::nanos, (called,), nanos) && *called == *old(clock) && *final(called)
                == *final(clock),
{
}

} // verus!
