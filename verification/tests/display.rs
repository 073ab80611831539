use rust_raytracer::display::{
    encode_image, encode_image_from_rgb, frame_due, pack_pixels, FrameClock, pack_rgb, pixels_from_rgb, EncodeError,
    FrameAccumulator, Letterbox,
};
use rust_raytracer::RGB;

#[test]
fn pixels_from_rgb_flattens_channels() {
    let rgb = vec![RGB { r: 1, g: 2, b: 3 }, RGB { r: 4, g: 5, b: 6 }];
    assert_eq!(pixels_from_rgb(&rgb), vec![1, 2, 3, 4, 5, 6]);
}

#[test]
fn pixels_from_rgb_empty() {
    assert_eq!(pixels_from_rgb(&vec![]), Vec::<u8>::new());
}

#[test]
fn encode_image_makes_png() {
    let pixels: Vec<u8> = vec![255, 0, 0, 0, 255, 0, 0, 0, 255, 10, 20, 30];
    let png = encode_image(2, 2, &pixels).unwrap();
    assert_eq!(&png[0..8], &[0x89, b'P', b'N', b'G', 0x0D, 0x0A, 0x1A, 0x0A]);
    assert_ne!(png, pixels);
    // the IHDR chunk records the size
    assert_eq!(&png[12..16], b"IHDR");
    assert_eq!(&png[16..20], &[0, 0, 0, 2]);
    assert_eq!(&png[20..24], &[0, 0, 0, 2]);
}

#[test]
fn encode_image_from_rgb_matches_bytes() {
    let rgb = vec![RGB { r: 1, g: 2, b: 3 }, RGB { r: 4, g: 5, b: 6 }, RGB { r: 7, g: 8, b: 9 }];
    let a = encode_image_from_rgb(3, 1, &rgb).unwrap();
    let b = encode_image(3, 1, &[1, 2, 3, 4, 5, 6, 7, 8, 9]).unwrap();
    assert_eq!(a, b);
}

#[test]
fn encode_error_variant() {
    let e = EncodeError::Png;
    assert_eq!(e, EncodeError::Png);
}

#[test]
fn pack_rgb_layout() {
    assert_eq!(pack_rgb(0x10, 0x20, 0x30), 0xFF10_2030);
    assert_eq!(pack_rgb(0, 0, 0), 0xFF00_0000);
    assert_eq!(pack_rgb(255, 255, 255), 0xFFFF_FFFF);
}

#[test]
fn pack_pixels_drops_partial_pixel() {
    let bytes = vec![1, 2, 3, 4, 5, 6, 7];
    assert_eq!(pack_pixels(&bytes), vec![0xFF01_0203, 0xFF04_0506]);
}

#[test]
fn accumulator_starts_empty() {
    let acc = FrameAccumulator::new(2, 1, 3);
    assert_eq!(acc.frame_buffer(), &vec![0u32; 6]);
    assert_eq!(acc.frame_count(), 0);
    assert_eq!(acc.max_frame_count(), 3);
    assert_eq!(acc.width(), 2);
    assert_eq!(acc.height(), 1);
    assert!(!acc.is_done());
    assert!(acc.wants_frame());
}

#[test]
fn accumulator_averages_frames() {
    let mut acc = FrameAccumulator::new(1, 1, 2);
    acc.add_frame(&vec![10, 255, 3]);
    acc.add_frame(&vec![20, 254, 0]);
    assert_eq!(acc.frame_buffer(), &vec![30, 509, 3]);
    assert_eq!(acc.frame_count(), 2);
    assert!(!acc.wants_frame());
    assert_eq!(acc.averaged_pixels(), vec![15, 254, 1]);
}

#[test]
fn accumulator_finishes_once() {
    let mut acc = FrameAccumulator::new(1, 1, 1);
    assert!(!acc.finish_rendering());
    acc.add_frame(&vec![1, 2, 3]);
    assert!(acc.finish_rendering());
    assert!(acc.is_done());
    assert!(!acc.finish_rendering());
    assert!(acc.is_done());
}

#[test]
fn accumulator_with_no_frames_to_render() {
    let mut acc = FrameAccumulator::new(4, 4, 0);
    assert!(!acc.wants_frame());
    assert!(acc.finish_rendering());
}

#[test]
fn letterbox_blit_scales_and_offsets() {
    // a 2x2 source drawn at 4x2 into a 6-wide window, one pixel in from the left
    let source = vec![1, 2, 3, 4];
    let lb = Letterbox {
        src_width: 2,
        src_height: 2,
        scaled_width: 4,
        scaled_height: 2,
        offset_x: 1,
        offset_y: 0,
        window_width: 6,
    };
    let black = 0xFF00_0000u32;
    let out = rust_raytracer::display::letterbox_blit(&source, lb, 12);
    assert_eq!(
        out,
        vec![black, 1, 1, 2, 2, black, black, 3, 3, 4, 4, black]
    );
}

#[test]
fn letterbox_blit_skips_outside_buffer() {
    let source = vec![7];
    let lb = Letterbox {
        src_width: 1,
        src_height: 1,
        scaled_width: 2,
        scaled_height: 2,
        offset_x: 0,
        offset_y: 1,
        window_width: 2,
    };
    let black = 0xFF00_0000u32;
    let out = rust_raytracer::display::letterbox_blit(&source, lb, 3);
    assert_eq!(out, vec![black, black, 7]);
}

#[test]
fn letterbox_blit_empty_window() {
    let lb = Letterbox {
        src_width: 1,
        src_height: 1,
        scaled_width: 1,
        scaled_height: 1,
        offset_x: 0,
        offset_y: 0,
        window_width: 1,
    };
    assert_eq!(rust_raytracer::display::letterbox_blit(&vec![5], lb, 0), Vec::<u32>::new());
}

#[test]
fn letterbox_fits_check_accepts_ordinary_window() {
    let lb = Letterbox {
        src_width: 820,
        src_height: 470,
        scaled_width: 1000,
        scaled_height: 573,
        offset_x: 10,
        offset_y: 0,
        window_width: 1020,
    };
    assert!(lb.fits_check());
}

#[test]
fn letterbox_fits_check_rejects_overflowing_index() {
    let lb = Letterbox {
        src_width: 1,
        src_height: 1,
        scaled_width: 1,
        scaled_height: 2,
        offset_x: 0,
        offset_y: 1,
        window_width: u32::MAX,
    };
    assert!(!lb.fits_check());
}

#[test]
fn letterbox_fits_check_empty_frame() {
    let lb = Letterbox {
        src_width: u32::MAX,
        src_height: u32::MAX,
        scaled_width: 0,
        scaled_height: 5,
        offset_x: u32::MAX,
        offset_y: u32::MAX,
        window_width: u32::MAX,
    };
    assert!(lb.fits_check());
}

#[test]
fn encode_image_rejects_empty_image() {
    assert_eq!(encode_image(0, 3, &[]), Err(EncodeError::Png));
    assert_eq!(encode_image(3, 0, &[]), Err(EncodeError::Png));
    assert_eq!(encode_image_from_rgb(0, 0, &vec![]), Err(EncodeError::Png));
}

#[test]
fn averaged_pixels_of_empty_frame_without_frames() {
    let acc = FrameAccumulator::new(0, 5, 2);
    assert_eq!(acc.frame_count(), 0);
    assert_eq!(acc.averaged_pixels(), Vec::<u8>::new());
}

#[test]
fn frame_due_every_fifty_milliseconds() {
    assert!(frame_due(None));
    assert!(!frame_due(Some(0)));
    assert!(!frame_due(Some(49_999_999)));
    assert!(frame_due(Some(50_000_000)));
    assert!(frame_due(Some(u64::MAX)));
}

#[test]
fn frame_clock_shows_at_most_twenty_frames_a_second() {
    let mut clock = FrameClock::new();
    assert!(clock.tick(1_000));
    assert_eq!(clock.last_shown_ns, Some(1_000));
    assert!(!clock.tick(30_000_000));
    assert_eq!(clock.last_shown_ns, Some(1_000));
    assert!(!clock.tick(50_000_999));
    assert!(clock.tick(50_001_000));
    assert_eq!(clock.last_shown_ns, Some(50_001_000));
    // a time before the last frame counts as no time passed
    assert!(!clock.tick(0));
    assert_eq!(clock.last_shown_ns, Some(50_001_000));
}
