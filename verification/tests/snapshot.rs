use extender_protocol::snapshot::{bgra_to_rgb, capture_primary_jpeg, cursor_icon_origin, region_buffer_len};

#[test]
fn bgra_pixels_become_rgb() {
    let bgra = vec![1, 2, 3, 255, 10, 20, 30, 0];
    assert_eq!(bgra_to_rgb(2, 1, &bgra), vec![3, 2, 1, 30, 20, 10]);
    assert_eq!(bgra_to_rgb(0, 5, &[]), Vec::<u8>::new());
}

#[test]
fn extra_bgra_bytes_are_ignored() {
    let bgra = vec![1, 2, 3, 4, 5, 6, 7, 8, 9];
    assert_eq!(bgra_to_rgb(1, 1, &bgra), vec![3, 2, 1]);
}

#[test]
fn failed_capture_gives_none() {
    assert_eq!(capture_primary_jpeg(None, 640, 70), None);
}

#[test]
fn small_capture_is_encoded_at_its_size() {
    let bgra = vec![0u8; 4 * 3 * 4];
    let (w, h, jpeg) = capture_primary_jpeg(Some((4, 3, bgra)), 640, 70).unwrap();
    assert_eq!((w, h), (4, 3));
    assert_eq!(&jpeg[0..2], &[0xff, 0xd8]);
    assert_eq!(&jpeg[jpeg.len() - 2..], &[0xff, 0xd9]);
}

#[test]
fn large_capture_is_downscaled_to_fit() {
    let bgra = vec![128u8; 200 * 100 * 4];
    let (w, h, jpeg) = capture_primary_jpeg(Some((200, 100, bgra)), 50, 80).unwrap();
    assert_eq!((w, h), (50, 25));
    assert_eq!(&jpeg[0..2], &[0xff, 0xd8]);
}

#[test]
fn capture_exactly_at_the_limit_is_not_scaled() {
    let bgra = vec![7u8; 50 * 20 * 4];
    let (w, h, _) = capture_primary_jpeg(Some((50, 20, bgra)), 50, 80).unwrap();
    assert_eq!((w, h), (50, 20));
}

#[test]
fn empty_capture_cannot_be_encoded() {
    assert_eq!(capture_primary_jpeg(Some((0, 0, vec![])), 640, 70), None);
}

#[test]
fn region_buffer_holds_four_bytes_per_pixel() {
    assert_eq!(region_buffer_len(1920, 1080), Some(1920 * 1080 * 4));
    assert_eq!(region_buffer_len(0, 1080), None);
    assert_eq!(region_buffer_len(1920, -1), None);
}

#[test]
fn cursor_icon_is_placed_by_its_hotspot() {
    assert_eq!(cursor_icon_origin(100, 50, 0, 0, 0, 0), (100, 50));
    assert_eq!(cursor_icon_origin(2000, 300, 1920, 0, 5, 7), (75, 293));
    assert_eq!(cursor_icon_origin(-100, 10, -1920, 0, 1, 1), (1819, 9));
}

#[test]
fn larger_limit_gives_no_smaller_preview() {
    let grab = || Some((300u32, 100u32, vec![90u8; 300 * 100 * 4]));
    let (w1, h1, _) = capture_primary_jpeg(grab(), 60, 50).unwrap();
    let (w2, h2, _) = capture_primary_jpeg(grab(), 120, 90).unwrap();
    let (w3, h3, _) = capture_primary_jpeg(grab(), 400, 90).unwrap();
    assert_eq!((w1, h1), (60, 20));
    assert_eq!((w2, h2), (120, 40));
    assert_eq!((w3, h3), (300, 100));
    assert!(w1 <= w2 && h1 <= h2 && w2 <= w3 && h2 <= h3);
}

#[test]
fn scaled_preview_fits_and_does_not_grow() {
    let (w, h, jpeg) = capture_primary_jpeg(Some((7, 301, vec![1u8; 7 * 301 * 4])), 100, 75).unwrap();
    assert!(w >= 1 && w <= 7 && h >= 1 && h <= 100);
    assert_eq!(h, 100);
    assert_eq!(&jpeg[jpeg.len() - 2..], &[0xff, 0xd9]);
}

#[test]
fn scaled_preview_keeps_the_aspect_ratio() {
    let (w, h, _) = capture_primary_jpeg(Some((1920, 1080, vec![3u8; 1920 * 1080 * 4])), 640, 70).unwrap();
    assert_eq!((w, h), (640, 360));
    let (w, h, _) = capture_primary_jpeg(Some((1000, 3, vec![3u8; 1000 * 3 * 4])), 100, 70).unwrap();
    assert_eq!(w, 100);
    assert!((w as i64 * 3 - h as i64 * 1000).abs() <= 1000);
}
