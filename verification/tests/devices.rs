use dbd_auto_skillcheck::capture::{crop_frame, crop_offset, CaptureGeometry};
use dbd_auto_skillcheck::config::{Config, GeometryConfig};
use dbd_auto_skillcheck::input::{
    next_space_press, space_press, KeyInput, WindowsKeyboardEmulator,
};
use dbd_auto_skillcheck::vulkan::{
    find_device, find_memory_type_in, find_queue_family, plane_size, ImageCache, ImportEvent,
    ImportProgress, ImportStep, ImportedFrame,
};

#[test]
fn the_default_crop_is_centered_on_the_widget() {
    let capture = CaptureGeometry::new(&Config::default().geometry).unwrap();
    assert_eq!((capture.offset_x, capture.offset_y), (960 - 150, 530 - 150));
    assert_eq!(capture.crop_size, 300);
    assert_eq!(capture.stride, 1200);
    assert_eq!(capture.byte_count, 360_000);
    assert_eq!((capture.circle.center.x, capture.circle.center.y), (150, 150));
    assert_eq!(capture.circle.radius, 65);
    assert_eq!(capture.circle.diameter, 130);
}

fn geometry(radius: u32, x: u32, y: u32, crop: u32) -> GeometryConfig {
    GeometryConfig { circle_radius: radius, circle_center_x: x, circle_center_y: y, crop_size: crop }
}

#[test]
fn a_crop_may_begin_left_of_the_frame() {
    assert_eq!(crop_offset(10, 300), -140);
    assert_eq!(crop_offset(0, 3), -1);
    assert_eq!(crop_offset(1_000, 0), 1_000);
    let capture = CaptureGeometry::new(&geometry(65, 10, 2000, 301)).unwrap();
    assert_eq!((capture.offset_x, capture.offset_y), (-140, 1850));
}

#[test]
fn sizes_out_of_range_are_refused() {
    assert!(CaptureGeometry::new(&geometry(65, 960, 530, 32_767)).is_some());
    assert!(CaptureGeometry::new(&geometry(65, 960, 530, 32_768)).is_none());
    assert!(CaptureGeometry::new(&geometry(0x7fff_ffff, 960, 530, 300)).is_some());
    assert!(CaptureGeometry::new(&geometry(0x8000_0000, 960, 530, 300)).is_none());
    // A center in the upper half of the range is a negative one.
    assert!(CaptureGeometry::new(&geometry(65, 0x8000_0000, 530, 300)).is_none());
    assert!(CaptureGeometry::new(&geometry(65, 960, 0x8000_0095, 300)).is_none());
    assert!(CaptureGeometry::new(&geometry(65, 960, 0x8000_0096, 300)).is_some());
}

/// A frame whose bytes tell where they are from.
fn numbered_frame(width: u32, height: u32) -> Vec<u8> {
    let mut frame = Vec::new();
    for y in 0..height {
        for x in 0..width {
            frame.extend_from_slice(&[x as u8 + 1, y as u8 + 1, (x * y) as u8, 255]);
        }
    }
    frame
}

#[test]
fn a_crop_inside_the_frame_copies_its_pixels() {
    let frame = numbered_frame(6, 5);
    let cropped = crop_frame(&frame, 6, 5, 2, 1, 3);
    assert_eq!(cropped.len(), 36);
    for y in 0..3usize {
        for x in 0..3usize {
            let at = (y * 3 + x) * 4;
            let from = ((y + 1) * 6 + x + 2) * 4;
            assert_eq!(cropped[at..at + 4], frame[from..from + 4]);
        }
    }
}

#[test]
fn a_crop_is_black_beyond_the_frame() {
    let frame = numbered_frame(2, 2);
    let cropped = crop_frame(&frame, 2, 2, -1, -1, 4);
    for y in 0..4usize {
        for x in 0..4usize {
            let pixel = &cropped[(y * 4 + x) * 4..][..4];
            if (1..3).contains(&x) && (1..3).contains(&y) {
                let from = ((y - 1) * 2 + x - 1) * 4;
                assert_eq!(pixel, &frame[from..from + 4]);
            } else {
                assert_eq!(pixel, [0, 0, 0, 0]);
            }
        }
    }
    // A frame with fewer bytes than its size says: the missing pixels are black.
    let cropped = crop_frame(&frame[..7], 2, 2, 0, 0, 2);
    assert_eq!(cropped[..4], frame[..4]);
    assert_eq!(cropped[4..], [0; 12]);
    assert!(crop_frame(&frame, 2, 2, 0, 0, 0).is_empty());
}

#[test]
fn the_first_suitable_memory_type_is_taken() {
    let flags = [0b0001, 0b0110, 0b0111, 0b1110];
    assert_eq!(find_memory_type_in(&flags, 0b1111, 0b0110), Some(1));
    assert_eq!(find_memory_type_in(&flags, 0b1101, 0b0110), Some(2));
    assert_eq!(find_memory_type_in(&flags, 0b1000, 0b0110), Some(3));
    assert_eq!(find_memory_type_in(&flags, 0b0001, 0b0110), None);
    assert_eq!(find_memory_type_in(&flags, 0b1111, 0), Some(0));
    assert_eq!(find_memory_type_in(&flags, 0b1_0000, 0), None);
    assert_eq!(find_memory_type_in(&[], u32::MAX, 0), None);
    let many = [1u32; 32];
    assert_eq!(find_memory_type_in(&many, 0x8000_0000, 1), Some(31));
}

#[test]
fn the_first_suitable_queue_and_device_are_taken() {
    assert_eq!(find_queue_family(&[0b100, 0b001, 0b101, 0b111], 0b101), Some(2));
    assert_eq!(find_queue_family(&[0b100, 0b001], 0b101), None);
    assert_eq!(find_device(&[1, 4, 2, 2], 2), Some(2));
    assert_eq!(find_device(&[1, 4], 2), None);
    assert_eq!(plane_size(1200, 300), 360_000);
}

fn imported(image: u64, width: u32, height: u32) -> ImportedFrame {
    ImportedFrame { image, memory: image + 100, width, height }
}

#[test]
fn an_imported_image_is_kept_for_its_descriptor_and_size() {
    let mut cache = ImageCache::new();
    assert_eq!(cache.get(7), None);
    assert_eq!(cache.begin_import(7, 1920, 1080), ImportStep::Import { stale: None });
    cache.finish_import(7, imported(1, 1920, 1080));
    assert_eq!(cache.begin_import(7, 1920, 1080), ImportStep::Cached);
    assert_eq!(cache.get(7), Some(imported(1, 1920, 1080)));
    assert_eq!(cache.begin_import(8, 1920, 1080), ImportStep::Import { stale: None });
    cache.finish_import(8, imported(2, 1920, 1080));
    assert_eq!(cache.begin_import(7, 1920, 1080), ImportStep::Cached);
    assert_eq!(cache.frames.len(), 2);
}

#[test]
fn an_image_of_another_size_is_given_up() {
    let mut cache = ImageCache::new();
    cache.finish_import(7, imported(1, 1920, 1080));
    cache.finish_import(8, imported(2, 1920, 1080));
    let stale = Some(imported(1, 1920, 1080));
    assert_eq!(cache.begin_import(7, 1920, 1200), ImportStep::Import { stale });
    // The import failed: the descriptor has no image, and the next frame tries again.
    assert_eq!(cache.get(7), None);
    assert_eq!(cache.begin_import(7, 1920, 1080), ImportStep::Import { stale: None });
    assert_eq!(cache.get(8), Some(imported(2, 1920, 1080)));
}

#[test]
fn the_space_bar_is_held_for_ten_to_fifty_milliseconds() {
    assert_eq!(space_press(0).hold_ms, 10);
    assert_eq!(space_press(40).hold_ms, 50);
    assert_eq!(space_press(41).hold_ms, 10);
    assert_eq!(space_press(u64::MAX).hold_ms, 10 + u64::MAX % 41);
    let press = space_press(5);
    assert_eq!(press.down, KeyInput { scan_code: 0x39, release: false });
    assert_eq!(press.up, KeyInput { scan_code: 0x39, release: true });
}

#[test]
fn the_windows_keyboard_is_always_there() {
    assert!(WindowsKeyboardEmulator::new("Logitech USB Keyboard", 0x046d, 0xC52B).is_ok());
    assert!(WindowsKeyboardEmulator::new("", 0, 0).is_ok());
}

#[test]
fn hold_times_vary() {
    let times: Vec<u64> = (0..200).map(|_| next_space_press().hold_ms).collect();
    assert!(times.iter().all(|t| (10..=50).contains(t)));
    assert!(times.iter().any(|&t| t != times[0]));
}

#[test]
fn an_import_goes_through_image_memory_and_binding() {
    let mut progress = ImportProgress::Begun;
    assert_eq!(progress.proceed(ImportEvent::Success { handle: 11 }, 640, 480), None);
    assert_eq!(progress, ImportProgress::ImageCreated { image: 11 });
    assert_eq!(progress.proceed(ImportEvent::Success { handle: 22 }, 640, 480), None);
    assert_eq!(progress, ImportProgress::MemoryAllocated { image: 11, memory: 22 });
    assert_eq!(progress.proceed(ImportEvent::Success { handle: 0 }, 640, 480), None);
    let frame = ImportedFrame { image: 11, memory: 22, width: 640, height: 480 };
    assert_eq!(progress, ImportProgress::Done { frame });
}

#[test]
fn a_failed_import_gives_up_what_it_holds() {
    let cleanup = |progress: ImportProgress| {
        let mut progress = progress;
        let cleanup = progress.proceed(ImportEvent::Failure, 640, 480).unwrap();
        assert_eq!(progress, ImportProgress::Failed);
        (cleanup.destroy_image, cleanup.free_memory, cleanup.close_descriptor)
    };
    assert_eq!(cleanup(ImportProgress::Begun), (None, None, true));
    assert_eq!(cleanup(ImportProgress::ImageCreated { image: 11 }), (Some(11), None, true));
    // The descriptor is closed with the memory.
    assert_eq!(
        cleanup(ImportProgress::MemoryAllocated { image: 11, memory: 22 }),
        (Some(11), Some(22), false)
    );
}

#[test]
fn the_middle_of_a_crop_is_its_center() {
    let frame = numbered_frame(20, 10);
    for (x, y, size) in [(9u32, 5u32, 6u32), (9, 5, 7), (0, 0, 4), (19, 9, 11), (3, 8, 1)] {
        let cropped =
            crop_frame(&frame, 20, 10, crop_offset(x, size), crop_offset(y, size), size);
        let middle = (size / 2) as usize;
        let at = (middle * size as usize + middle) * 4;
        let from = (y as usize * 20 + x as usize) * 4;
        assert_eq!(cropped[at..at + 4], frame[from..from + 4]);
    }
}
