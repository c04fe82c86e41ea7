use extender_protocol::qr::{decode_square_rgba, logo_layout, qr_module_image, render_modules, whiten_centre_square, MODULE_SCALE, QUIET_ZONE};

fn pixel(px: &[u8], dim: u32, x: u32, y: u32) -> [u8; 4] {
    let o = ((y * dim + x) * 4) as usize;
    [px[o], px[o + 1], px[o + 2], px[o + 3]]
}

#[test]
fn single_module_symbol_is_drawn_inside_the_quiet_zone() {
    assert_eq!(QUIET_ZONE, 4);
    assert_eq!(MODULE_SCALE, 8);
    let (dim, px) = render_modules(1, &vec![true]);
    assert_eq!(dim, 72);
    assert_eq!(px.len(), 72 * 72 * 4);
    assert_eq!(pixel(&px, dim, 32, 32), [0, 0, 0, 255]);
    assert_eq!(pixel(&px, dim, 39, 39), [0, 0, 0, 255]);
    assert_eq!(pixel(&px, dim, 31, 32), [255, 255, 255, 255]);
    assert_eq!(pixel(&px, dim, 40, 32), [255, 255, 255, 255]);
    assert_eq!(pixel(&px, dim, 0, 0), [255, 255, 255, 255]);
}

#[test]
fn modules_are_laid_out_row_by_row() {
    // 2 x 2 symbol: only the top-right module is dark.
    let (dim, px) = render_modules(2, &vec![false, true, false, false]);
    assert_eq!(dim, 80);
    assert_eq!(pixel(&px, dim, 40, 32), [0, 0, 0, 255]);
    assert_eq!(pixel(&px, dim, 32, 40), [255, 255, 255, 255]);
    assert_eq!(pixel(&px, dim, 32, 32), [255, 255, 255, 255]);
}

#[test]
fn qr_image_of_a_url() {
    let (dim, px) = qr_module_image("https://opensource.unisim.co.uk/screens").unwrap();
    let modules = dim / 8 - 8;
    assert!(modules >= 21 && modules % 4 == 1);
    assert!(dim >= 232 && dim <= 1480 && dim % 8 == 0);
    assert_eq!(px.len(), (dim * dim * 4) as usize);
    // quiet zone is white, the top-left finder pattern starts dark
    assert_eq!(pixel(&px, dim, 0, 0), [255, 255, 255, 255]);
    assert_eq!(pixel(&px, dim, 31, 31), [255, 255, 255, 255]);
    assert_eq!(pixel(&px, dim, 32, 32), [0, 0, 0, 255]);
    // the finder pattern's white ring
    assert_eq!(pixel(&px, dim, 40, 40), [255, 255, 255, 255]);
}

#[test]
fn qr_image_of_too_long_text_is_none() {
    let text = "x".repeat(4000);
    assert!(qr_module_image(&text).is_none());
}

fn tiny_png() -> Vec<u8> {
    let img = image::RgbaImage::from_pixel(2, 2, image::Rgba([10, 20, 30, 255]));
    let mut out = std::io::Cursor::new(Vec::new());
    img.write_to(&mut out, image::ImageFormat::Png).unwrap();
    out.into_inner()
}

#[test]
fn icon_is_decoded_to_the_requested_square() {
    let rgba = decode_square_rgba(&tiny_png(), 4).unwrap();
    assert_eq!(rgba.len(), 4 * 4 * 4);
    assert_eq!(&rgba[0..4], &[10, 20, 30, 255]);
}

#[test]
fn icon_that_does_not_decode_is_none() {
    assert!(decode_square_rgba(&[1, 2, 3, 4], 4).is_none());
}

#[test]
fn logo_squares_are_centred() {
    // a 29-module symbol: 296 px; pad 94 px, logo 76 px
    assert_eq!(logo_layout(296, 94, 76), (101, 110));
    assert_eq!(logo_layout(10, 10, 0), (0, 5));
}

#[test]
fn centre_pad_is_white_and_the_rest_untouched() {
    let mut px = vec![7u8; 5 * 5 * 4];
    whiten_centre_square(&mut px, 5, 3);
    let at = |x: usize, y: usize| &px[(y * 5 + x) * 4..(y * 5 + x) * 4 + 4];
    assert_eq!(at(1, 1), &[255, 255, 255, 255]);
    assert_eq!(at(3, 3), &[255, 255, 255, 255]);
    assert_eq!(at(0, 2), &[7, 7, 7, 7]);
    assert_eq!(at(4, 4), &[7, 7, 7, 7]);
    assert_eq!(px.iter().filter(|&&b| b == 255).count(), 9 * 4);
}
