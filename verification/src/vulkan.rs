//! Choosing what to use of a graphics device, and which imported images to keep.

use std::collections::HashMap;
use vstd::prelude::*;

verus! {

broadcast use vstd::std_specs::hash::group_hash_axioms;

/// All wanted flags are among the given ones.
pub open spec fn has_flags(flags: u32, wanted: u32) -> bool {
    flags & wanted == wanted
}

/// A memory type that a filter admits and that has the wanted properties.
pub open spec fn is_suitable(
    property_flags: Seq<u32>,
    type_filter: u32,
    properties: u32,
    index: int,
) -> bool {
    type_filter & (1u32 << index as u32) != 0 && has_flags(property_flags[index], properties)
}

/// Some memory type is suitable.
pub open spec fn some_suitable(
    property_flags: Seq<u32>,
    type_filter: u32,
    properties: u32,
) -> bool {
    exists|i: int|
        0 <= i < property_flags.len() && #[trigger] is_suitable(
            property_flags,
            type_filter,
            properties,
            i,
        )
}

/// Some queue family has all wanted flags.
pub open spec fn some_family(queue_flags: Seq<u32>, wanted: u32) -> bool {
    exists|i: int| 0 <= i < queue_flags.len() && has_flags(#[trigger] queue_flags[i], wanted)
}

/// The first memory type that a filter admits and that has the wanted
/// properties. A filter has a bit for each of at most 32 types.
pub fn find_memory_type_in(property_flags: &[u32], type_filter: u32, properties: u32) -> (found:
    Option<u32>)
    requires
        property_flags@.len() <= 32,
    ensures
        found is Some <==> some_suitable(property_flags@, type_filter, properties),
        match found {
            Some(index) => {
                &&& index < property_flags@.len()
                &&& is_suitable(property_flags@, type_filter, properties, index as int)
                &&& forall|i: int|
                    0 <= i < index ==> !#[trigger] is_suitable(
                        property_flags@,
                        type_filter,
                        properties,
                        i,
                    )
            },
            None => forall|i: int|
                0 <= i < property_flags@.len() ==> !#[trigger] is_suitable(
                    property_flags@,
                    type_filter,
                    properties,
                    i,
                ),
        },
{
    let mut index: u32 = 0;
    while (index as usize) < property_flags.len()
        invariant
            index <= property_flags@.len() <= 32,
            forall|i: int|
                0 <= i < index ==> !#[trigger] is_suitable(
                    property_flags@,
                    type_filter,
                    properties,
                    i,
                ),
        decreases property_flags@.len() - index,
    {
        if type_filter & (1u32 << index) != 0 && property_flags[index as usize] & properties
            == properties {
            assert(is_suitable(property_flags@, type_filter, properties, index as int));
            return Some(index);
        }
        assert(!is_suitable(property_flags@, type_filter, properties, index as int));
        index = index + 1;
    }
    None
}

/// The first queue family with all wanted flags.
pub fn find_queue_family(queue_flags: &[u32], wanted: u32) -> (found: Option<u32>)
    requires
        queue_flags@.len() <= u32::MAX,
    ensures
        found is Some <==> some_family(queue_flags@, wanted),
        match found {
            Some(index) => {
                &&& index < queue_flags@.len()
                &&& has_flags(queue_flags@[index as int], wanted)
                &&& forall|i: int|
                    0 <= i < index ==> !has_flags(#[trigger] queue_flags@[i], wanted)
            },
            None => forall|i: int|
                0 <= i < queue_flags@.len() ==> !has_flags(#[trigger] queue_flags@[i], wanted),
        },
{
    let mut index: u32 = 0;
    while (index as usize) < queue_flags.len()
        invariant
            index <= queue_flags@.len() <= u32::MAX,
            forall|i: int| 0 <= i < index ==> !has_flags(#[trigger] queue_flags@[i], wanted),
        decreases queue_flags@.len() - index,
    {
        if queue_flags[index as usize] & wanted == wanted {
            return Some(index);
        }
        index = index + 1;
    }
    None
}

/// The first device of a type.
pub fn find_device(device_types: &[i32], wanted: i32) -> (found: Option<usize>)
    ensures
        found is Some <==> device_types@.contains(wanted),
        match found {
            Some(index) => {
                &&& index < device_types@.len()
                &&& device_types@[index as int] == wanted
                &&& forall|i: int| 0 <= i < index ==> #[trigger] device_types@[i] != wanted
            },
            None => forall|i: int|
                0 <= i < device_types@.len() ==> #[trigger] device_types@[i] != wanted,
        },
{
    let mut index: usize = 0;
    while index < device_types.len()
        invariant
            index <= device_types@.len(),
            forall|i: int| 0 <= i < index ==> #[trigger] device_types@[i] != wanted,
        decreases device_types@.len() - index,
    {
        if device_types[index] == wanted {
            return Some(index);
        }
        index = index + 1;
    }
    None
}

/// The bytes of an image plane.
pub fn plane_size(stride: u32, height: u32) -> (size: u64)
    requires
        stride * height <= u32::MAX,
    ensures
        size == stride * height,
{
    (stride * height) as u64
}

/// An image that was imported from a frame of the compositor, by its handles.
#[derive(Clone, Copy, PartialEq, Eq, Structural, Debug)]
pub struct ImportedFrame {
    pub image: u64,
    pub memory: u64,
    pub width: u32,
    pub height: u32,
}

/// What is to be done before a frame can be read.
#[derive(Clone, Copy, PartialEq, Eq, Structural, Debug)]
pub enum ImportStep {
    /// The image is there.
    Cached,
    /// The image is to be imported, once the stale one, if any, is destroyed.
    Import { stale: Option<ImportedFrame> },
}

/// The imported images, by the file descriptors that the compositor's buffers
/// keep from frame to frame.
#[derive(Debug)]
pub struct ImageCache {
    pub frames: HashMap<i32, ImportedFrame>,
}

impl View for ImageCache {
    type V = Map<i32, ImportedFrame>;

    open spec fn view(&self) -> Map<i32, ImportedFrame> {
        self.frames@
    }
}

/// The cache holds an image of that size for a file descriptor.
pub open spec fn is_cached(
    frames: Map<i32, ImportedFrame>,
    fd: i32,
    width: u32,
    height: u32,
) -> bool {
    frames.contains_key(fd) && frames[fd].width == width && frames[fd].height == height
}

impl ImageCache {
    pub fn new() -> (cache: ImageCache)
        ensures
            cache@ == Map::<i32, ImportedFrame>::empty(),
    {
        ImageCache { frames: HashMap::new() }
    }

    /// The image of a file descriptor.
    pub fn get(&self, fd: i32) -> (frame: Option<ImportedFrame>)
        ensures
            frame == if self@.contains_key(fd) {
                Some(self@[fd])
            } else {
                None
            },
    {
        match self.frames.get(&fd) {
            Some(frame) => Some(*frame),
            None => None,
        }
    }

    /// Looks for the image of a frame. One of another size leaves the cache and
    /// is handed out, to be destroyed before the frame is imported anew.
    pub fn begin_import(&mut self, fd: i32, width: u32, height: u32) -> (step: ImportStep)
        ensures
            is_cached(old(self)@, fd, width, height) ==> step == ImportStep::Cached && final(self)@
                == old(self)@,
            !is_cached(old(self)@, fd, width, height) ==> step == (ImportStep::Import {
                stale: if old(self)@.contains_key(fd) {
                    Some(old(self)@[fd])
                } else {
                    None
                },
            }) && final(self)@ == old(self)@.remove(fd),
    {
        if let Some(frame) = self.get(fd) {
            if frame.width == width && frame.height == height {
                return ImportStep::Cached;
            }
        }
        let stale: Option<ImportedFrame> = self.frames.remove(&fd);
        ImportStep::Import { stale }
    }

    /// Keeps an image that was imported.
    pub fn finish_import(&mut self, fd: i32, frame: ImportedFrame)
        ensures
            final(self)@ == old(self)@.insert(fd, frame),
    {
        self.frames.insert(fd, frame);
    }
}

/// The cache after a frame: what `begin_import` leaves of it and, if the import
/// that is then needed succeeds, the image.
pub open spec fn after_import(
    frames: Map<i32, ImportedFrame>,
    fd: i32,
    width: u32,
    height: u32,
    imported: Option<ImportedFrame>,
) -> Map<i32, ImportedFrame> {
    if is_cached(frames, fd, width, height) {
        frames
    } else {
        match imported {
            Some(frame) => frames.remove(fd).insert(fd, frame),
            None => frames.remove(fd),
        }
    }
}

/// A frame whose import succeeds is in the cache with its size, so that the
/// next frame of that descriptor and size is found there; one whose import
/// fails is not. The images of other descriptors stay.
pub proof fn lemma_import(
    frames: Map<i32, ImportedFrame>,
    fd: i32,
    width: u32,
    height: u32,
    imported: Option<ImportedFrame>,
)
    requires
        imported matches Some(frame) ==> frame.width == width && frame.height == height,
    ensures
        ({
            let after = after_import(frames, fd, width, height, imported);
            &&& is_cached(after, fd, width, height) <==> is_cached(frames, fd, width, height)
                || imported is Some
            &&& is_cached(after, fd, width, height) ==> after_import(
                after,
                fd,
                width,
                height,
                None,
            ) == after
            &&& !is_cached(after, fd, width, height) ==> !after.contains_key(fd)
            &&& forall|other: i32|
                other != fd ==> (#[trigger] after.contains_key(other) <==> frames.contains_key(
                    other,
                )) && after[other] == frames[other]
        }),
{
}

/// How far the import of a frame has come, and what it holds so far.
#[derive(Clone, Copy, PartialEq, Eq, Structural, Debug)]
pub enum ImportProgress {
    /// Only the descriptor of the frame's memory is held.
    Begun,
    /// There is an image without memory.
    ImageCreated { image: u64 },
    /// There is memory too. The driver has the descriptor now, and closes it
    /// when the memory is freed.
    MemoryAllocated { image: u64, memory: u64 },
    /// The image has its memory.
    Done { frame: ImportedFrame },
    /// Nothing is held any more.
    Failed,
}

/// What came of the last thing that was asked of the driver.
#[derive(Clone, Copy, PartialEq, Eq, Structural, Debug)]
pub enum ImportEvent {
    /// The image, the memory, or nothing but success, as it was asked for.
    Success { handle: u64 },
    Failure,
}

/// What is to be done about a failed import.
#[derive(Clone, Copy, PartialEq, Eq, Structural, Debug)]
pub struct Cleanup {
    pub destroy_image: Option<u64>,
    pub free_memory: Option<u64>,
    pub close_descriptor: bool,
}

impl ImportProgress {
    /// The image that is held.
    pub open spec fn image(self) -> Option<u64> {
        match self {
            ImportProgress::ImageCreated { image } => Some(image),
            ImportProgress::MemoryAllocated { image, .. } => Some(image),
            ImportProgress::Done { frame } => Some(frame.image),
            _ => None,
        }
    }

    /// The memory that is held.
    pub open spec fn memory(self) -> Option<u64> {
        match self {
            ImportProgress::MemoryAllocated { memory, .. } => Some(memory),
            ImportProgress::Done { frame } => Some(frame.memory),
            _ => None,
        }
    }

    /// The descriptor is held here and not by the driver.
    pub open spec fn has_descriptor(self) -> bool {
        self is Begun || self is ImageCreated
    }

    /// The import goes on.
    pub open spec fn ongoing(self) -> bool {
        self is Begun || self is ImageCreated || self is MemoryAllocated
    }

    /// What the import becomes when something succeeds.
    pub open spec fn after_success(self, handle: u64, width: u32, height: u32) -> ImportProgress {
        match self {
            ImportProgress::Begun => ImportProgress::ImageCreated { image: handle },
            ImportProgress::ImageCreated { image } => ImportProgress::MemoryAllocated {
                image,
                memory: handle,
            },
            ImportProgress::MemoryAllocated { image, memory } => ImportProgress::Done {
                frame: ImportedFrame { image, memory, width, height },
            },
            _ => self,
        }
    }

    /// Takes in what came of the last thing that was asked of the driver: the
    /// image is created, then memory allocated for it, then both are bound.
    /// Where one of them fails, everything that is held is given up.
    pub fn proceed(&mut self, event: ImportEvent, width: u32, height: u32) -> (cleanup: Option<
        Cleanup,
    >)
        requires
            old(self).ongoing(),
        ensures
            event matches ImportEvent::Success { handle } ==> cleanup is None && *final(self)
                == old(self).after_success(handle, width, height),
            event is Failure ==> *final(self) == ImportProgress::Failed && cleanup == Some(
                (Cleanup {
                    destroy_image: old(self).image(),
                    free_memory: old(self).memory(),
                    close_descriptor: old(self).has_descriptor(),
                }),
            ),
    {
        match event {
            ImportEvent::Success { handle } => {
                *self = match *self {
                    ImportProgress::Begun => ImportProgress::ImageCreated { image: handle },
                    ImportProgress::ImageCreated { image } => ImportProgress::MemoryAllocated {
                        image,
                        memory: handle,
                    },
                    ImportProgress::MemoryAllocated { image, memory } => ImportProgress::Done {
                        frame: ImportedFrame { image, memory, width, height },
                    },
                    other => other,
                };
                None
            },
            ImportEvent::Failure => {
                let cleanup = match *self {
                    ImportProgress::ImageCreated { image } => Cleanup {
                        destroy_image: Some(image),
                        free_memory: None,
                        close_descriptor: true,
                    },
                    ImportProgress::MemoryAllocated { image, memory } => Cleanup {
                        destroy_image: Some(image),
                        free_memory: Some(memory),
                        close_descriptor: false,
                    },
                    _ => Cleanup {
                        destroy_image: None,
                        free_memory: None,
                        close_descriptor: true,
                    },
                };
                *self = ImportProgress::Failed;
                Some(cleanup)
            },
        }
    }
}

/// The descriptor has exactly one owner all through an import: it is held here
/// until there is memory, and from then on the memory holds it. So giving up
/// what is held closes it once.
pub proof fn lemma_descriptor_closed_once(progress: ImportProgress)
    requires
        progress.ongoing(),
    ensures
        progress.has_descriptor() <==> progress.memory() is None,
{
}

/// Three successes in a row make a frame of the image and the memory that were
/// created, with the size that was asked for.
pub proof fn lemma_import_succeeds(image: u64, memory: u64, bound: u64, width: u32, height: u32)
    ensures
        ImportProgress::Begun.after_success(image, width, height).after_success(
            memory,
            width,
            height,
        ).after_success(bound, width, height) == (ImportProgress::Done {
            frame: ImportedFrame { image, memory, width, height },
        }),
{
}

} // verus!
