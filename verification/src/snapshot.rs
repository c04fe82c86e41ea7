//! Primary-screen capture -> JPEG for the clicker's slide preview. The host
//! grabs the screen as top-down BGRA rows; this module repacks the pixels,
//! downscales the image so its longest side fits, and JPEG-encodes it.

use vstd::prelude::*;

verus! {

/// `image`'s `DynamicImage::resize(max_dim, max_dim, FilterType::Triangle)`
/// applied to the `width` x `height` RGB8 image `rgb`: the width, height and
/// RGB8 bytes of the result.
pub uninterp spec fn triangle_resized_rgb(width: u32, height: u32, rgb: Seq<u8>, max_dim: u32) -> (
    u32,
    u32,
    Seq<u8>,
);

/// The bytes that `image`'s `JpegEncoder::new_with_quality(_, quality)` writes
/// for the `width` x `height` RGB8 image `rgb`.
pub uninterp spec fn jpeg_rgb8(rgb: Seq<u8>, width: u32, height: u32, quality: u8) -> Seq<u8>;

/// Calls `image::DynamicImage::resize` with `FilterType::Triangle` on an RGB8
/// image. Trusted to return the image that `triangle_resized_rgb` names, as an
/// RGB8 buffer of three bytes per pixel of its new size. Of the new size, which
/// `image` computes as the largest aspect-keeping fit into `max_dim` x
/// `max_dim` (`resize_dimensions`: each side is the rounded product of the old
/// side with `min(max_dim / width, max_dim / height)`, and at least 1), it
/// states, for an image that does not already fit and a limit of at least 1,
/// that a larger limit that still scales gives no smaller side (every step of
/// that computation is monotone in the limit); and when neither side is empty:
/// both new sides are between 1 and `max_dim`, neither grows, and the aspect
/// ratio moves by at most one rounding step, `|new_w * h - new_h * w| <= max(w, h)`
/// (the longer side becomes `max_dim` exactly, the other is rounded to the
/// nearest integer and raised to 1 if it rounds to 0).
#[verifier::external_body]
fn resize_rgb_triangle(width: u32, height: u32, rgb: Vec<u8>, max_dim: u32) -> (r: (
    u32,
    u32,
    Vec<u8>,
))
    requires
        rgb@.len() == width * height * 3,
    ensures
        (r.0, r.1, r.2@) == triangle_resized_rgb(width, height, rgb@, max_dim),
        r.2@.len() == r.0 * r.1 * 3,
        1 <= max_dim && (width > max_dim || height > max_dim) ==> forall|m2: u32|
            max_dim <= m2 && (width > m2 || height > m2) ==> r.0 <= (
            #[trigger] triangle_resized_rgb(width, height, rgb@, m2)).0 && r.1
                <= triangle_resized_rgb(width, height, rgb@, m2).1,
        1 <= width && 1 <= height && 1 <= max_dim && (width > max_dim || height > max_dim) ==> {
            &&& 1 <= r.0 <= max_dim
            &&& 1 <= r.1 <= max_dim
            &&& r.0 <= width
            &&& r.1 <= height
            &&& aspect_kept(width, height, r.0, r.1)
        },
{
    let img = image::DynamicImage::ImageRgb8(image::RgbImage::from_raw(width, height, rgb).unwrap());
    let out = img.resize(max_dim, max_dim, image::imageops::FilterType::Triangle).into_rgb8();
    (out.width(), out.height(), out.into_raw())
}

/// Calls `image::codecs::jpeg::JpegEncoder::new_with_quality(..).encode(..)`
/// with `ExtendedColorType::Rgb8` into a fresh `Vec`. Trusted to succeed
/// exactly when both sides are between 1 and 65535 pixels (the encoder's size
/// check; writing into a `Vec` cannot fail), to return the bytes that
/// `jpeg_rgb8` names, and that these start with the SOI marker `FF D8` and
/// end with the EOI marker `FF D9`.
#[verifier::external_body]
fn encode_jpeg(rgb: &[u8], width: u32, height: u32, quality: u8) -> (r: Option<Vec<u8>>)
    requires
        rgb@.len() == width * height * 3,
    ensures
        r is Some <==> (1 <= width <= 65535 && 1 <= height <= 65535),
        r matches Some(bytes) ==> {
            &&& bytes@ == jpeg_rgb8(rgb@, width, height, quality)
            &&& bytes@.len() >= 4
            &&& bytes@[0] == 0xff && bytes@[1] == 0xd8
            &&& bytes@[bytes@.len() - 2] == 0xff && bytes@[bytes@.len() - 1] == 0xd9
        },
{
    let mut out = Vec::new();
    match image::codecs::jpeg::JpegEncoder::new_with_quality(&mut out, quality).encode(
        rgb,
        width,
        height,
        image::ExtendedColorType::Rgb8,
    ) {
        Ok(()) => Some(out),
        Err(_) => None,
    }
}

/// A `new_w` x `new_h` image keeps the aspect ratio of a `w` x `h` one up to
/// one rounding step of its shorter side: `|new_w * h - new_h * w| <= max(w, h)`.
pub open spec fn aspect_kept(w: u32, h: u32, new_w: u32, new_h: u32) -> bool {
    let d = new_w * h - new_h * w;
    let bound = if w >= h { w as int } else { h as int };
    -bound <= d <= bound
}

/// The RGB8 bytes of the first `pixels` BGRA pixels of `bgra`: each pixel's
/// blue, green, red (and alpha) become red, green, blue.
pub open spec fn spec_rgb_from_bgra(bgra: Seq<u8>, pixels: nat) -> Seq<u8> {
    Seq::new(3 * pixels, |k: int| bgra[4 * (k / 3) + 2 - k % 3])
}

/// The preview of a `width` x `height` BGRA capture: repacked to RGB, scaled
/// down when a side exceeds `max_dim`, and JPEG-encoded at `quality`; the
/// (possibly scaled) width and height with the JPEG bytes, or `None` when the
/// encoder refuses the size.
pub open spec fn spec_preview_jpeg(
    width: u32,
    height: u32,
    bgra: Seq<u8>,
    max_dim: u32,
    quality: u8,
) -> Option<(u32, u32, Seq<u8>)> {
    let rgb = spec_rgb_from_bgra(bgra, (width * height) as nat);
    let scaled = if width > max_dim || height > max_dim {
        triangle_resized_rgb(width, height, rgb, max_dim)
    } else {
        (width, height, rgb)
    };
    if 1 <= scaled.0 <= 65535 && 1 <= scaled.1 <= 65535 {
        Some((scaled.0, scaled.1, jpeg_rgb8(scaled.2, scaled.0, scaled.1, quality)))
    } else {
        None
    }
}

/// Repacks the first `width * height` pixels of a BGRA buffer (Windows DIB
/// rows) into RGB8 bytes.
pub fn bgra_to_rgb(width: u32, height: u32, bgra: &[u8]) -> (rgb: Vec<u8>)
    requires
        bgra@.len() >= width * height * 4,
    ensures
        rgb@ == spec_rgb_from_bgra(bgra@, (width * height) as nat),
{
    let blen = bgra.len();
    proof {
        assert(width * height <= bgra@.len()) by (nonlinear_arith)
            requires
                bgra@.len() >= width * height * 4,
        ;
    }
    let pixels = width as usize * height as usize;
    let mut rgb: Vec<u8> = Vec::new();
    let mut i: usize = 0;
    while i < pixels
        invariant
            i <= pixels,
            pixels == width * height,
            bgra@.len() >= pixels * 4,
            blen == bgra@.len(),
            rgb@ == spec_rgb_from_bgra(bgra@, i as nat),
        decreases pixels - i,
    {
        assert(i * 4 < pixels * 4) by (nonlinear_arith)
            requires
                i < pixels,
        ;
        let o = i * 4;
        rgb.push(bgra[o + 2]);
        rgb.push(bgra[o + 1]);
        rgb.push(bgra[o]);
        proof {
            let k = 3 * i as int;
            assert(k / 3 == i && k % 3 == 0);
            assert((k + 1) / 3 == i && (k + 1) % 3 == 1);
            assert((k + 2) / 3 == i && (k + 2) % 3 == 2);
            assert(rgb@ =~= spec_rgb_from_bgra(bgra@, (i + 1) as nat));
        }
        i = i + 1;
    }
    rgb
}

/// Encodes the captured primary display as a preview JPEG: `grabbed` is the
/// capture (width, height and top-down BGRA bytes), or `None` when it failed.
/// The image is downscaled so that its longest side is at most `max_dim` px
/// and encoded at `quality`. Returns `(width, height, jpeg_bytes)` of the
/// (possibly downscaled) image, or `None` if the capture or the encoding failed.
/// A capture that fits keeps its size; a scaled one fits `max_dim`, does not
/// grow, keeps its aspect ratio up to one rounding step, and is no larger than
/// the preview that any larger limit gives.
pub fn capture_primary_jpeg(grabbed: Option<(u32, u32, Vec<u8>)>, max_dim: u32, quality: u8) -> (res:
    Option<(u32, u32, Vec<u8>)>)
    requires
        grabbed matches Some((w, h, bgra)) ==> bgra@.len() >= w * h * 4,
    ensures
        match grabbed {
            None => res is None,
            Some((w, h, bgra)) => match (res, spec_preview_jpeg(w, h, bgra@, max_dim, quality)) {
                (None, None) => true,
                (Some((sw, sh, jpeg)), Some((ew, eh, ejpeg))) => sw == ew && sh == eh && jpeg@
                    == ejpeg,
                _ => false,
            },
        },
        res matches Some((sw, sh, jpeg)) ==> {
            &&& jpeg@.len() >= 4
            &&& jpeg@[0] == 0xff && jpeg@[1] == 0xd8
            &&& jpeg@[jpeg@.len() - 2] == 0xff && jpeg@[jpeg@.len() - 1] == 0xd9
        },
        grabbed matches Some((w, h, bgra)) ==> (res matches Some((sw, sh, jpeg)) ==> {
            &&& w <= max_dim && h <= max_dim ==> sw == w && sh == h
            &&& 1 <= w && 1 <= h && 1 <= max_dim ==> {
                &&& 1 <= sw <= max_dim
                &&& 1 <= sh <= max_dim
                &&& sw <= w
                &&& sh <= h
                &&& aspect_kept(w, h, sw, sh)
            }
            &&& 1 <= max_dim ==> forall|m2: u32, q2: u8|
                max_dim <= m2 ==> (#[trigger] spec_preview_jpeg(w, h, bgra@, m2, q2) matches Some(
                    (w2, h2, _),
                ) ==> sw <= w2 && sh <= h2)
        }),
{
    let (w, h, bgra) = match grabbed {
        None => return None,
        Some(g) => g,
    };
    let rgb = bgra_to_rgb(w, h, &bgra);
    let (sw, sh, data) = if w > max_dim || h > max_dim {
        resize_rgb_triangle(w, h, rgb, max_dim)
    } else {
        (w, h, rgb)
    };
    let ghost spec_rgb = spec_rgb_from_bgra(bgra@, (w * h) as nat);
    match encode_jpeg(&data, sw, sh, quality) {
        Some(out) => {
            proof {
                if w <= max_dim && h <= max_dim {
                    assert(sw * h - sh * w == 0) by (nonlinear_arith)
                        requires
                            sw == w,
                            sh == h,
                    ;
                }
                if 1 <= max_dim {
                    assert forall|m2: u32, q2: u8|
                        max_dim <= m2 implies (#[trigger] spec_preview_jpeg(
                        w,
                        h,
                        bgra@,
                        m2,
                        q2,
                    ) matches Some((w2, h2, _)) ==> sw <= w2 && sh <= h2) by {
                        if w > m2 || h > m2 {
                            assert(triangle_resized_rgb(w, h, spec_rgb, m2).0 >= sw);
                        }
                    }
                }
            }
            Some((sw, sh, out))
        },
        None => None,
    }
}

/// Size in bytes of the top-down BGRA buffer that a screen region of
/// `width` x `height` pixels fills, or `None` for an empty region (a side that
/// is zero or negative), which is not captured.
pub fn region_buffer_len(width: i32, height: i32) -> (len: Option<usize>)
    requires
        width > 0 && height > 0 ==> width * height * 4 <= usize::MAX,
    ensures
        match len {
            None => width <= 0 || height <= 0,
            Some(n) => width > 0 && height > 0 && n == width * height * 4,
        },
{
    if width <= 0 || height <= 0 {
        return None;
    }
    let w = width as usize;
    let h = height as usize;
    proof {
        assert(w * h <= w * h * 4) by (nonlinear_arith);
    }
    Some(w * h * 4)
}

/// Where the cursor's icon is drawn inside a captured region whose top-left
/// corner is at (`left`, `top`) on the virtual screen: the cursor position
/// made relative to the region, moved back by the icon's hotspot (the arrow
/// tip sits at the cursor position).
pub fn cursor_icon_origin(
    cursor_x: i32,
    cursor_y: i32,
    left: i32,
    top: i32,
    hotspot_x: i32,
    hotspot_y: i32,
) -> (origin: (i32, i32))
    requires
        i32::MIN <= cursor_x - left <= i32::MAX,
        i32::MIN <= cursor_x - left - hotspot_x <= i32::MAX,
        i32::MIN <= cursor_y - top <= i32::MAX,
        i32::MIN <= cursor_y - top - hotspot_y <= i32::MAX,
    ensures
        origin.0 == cursor_x - left - hotspot_x,
        origin.1 == cursor_y - top - hotspot_y,
{
    (cursor_x - left - hotspot_x, cursor_y - top - hotspot_y)
}

/// Each BGRA pixel becomes three RGB bytes in the same position: red from
/// byte 2, green from byte 1, blue from byte 0 of the pixel.
pub proof fn lemma_rgb_pixel(bgra: Seq<u8>, pixels: nat, p: int)
    requires
        0 <= p < pixels,
        bgra.len() >= 4 * pixels,
    ensures
        spec_rgb_from_bgra(bgra, pixels).len() == 3 * pixels,
        spec_rgb_from_bgra(bgra, pixels)[3 * p] == bgra[4 * p + 2],
        spec_rgb_from_bgra(bgra, pixels)[3 * p + 1] == bgra[4 * p + 1],
        spec_rgb_from_bgra(bgra, pixels)[3 * p + 2] == bgra[4 * p],
{
    let k = 3 * p;
    assert(k / 3 == p && k % 3 == 0);
    assert((k + 1) / 3 == p && (k + 1) % 3 == 1);
    assert((k + 2) / 3 == p && (k + 2) % 3 == 2);
}

/// A capture whose sides are both within `max_dim` is not scaled: its preview
/// keeps the capture's size and encodes its pixels as they are.
pub proof fn lemma_preview_keeps_a_small_capture(
    width: u32,
    height: u32,
    bgra: Seq<u8>,
    max_dim: u32,
    quality: u8,
)
    requires
        1 <= width <= max_dim,
        1 <= height <= max_dim,
        width <= 65535,
        height <= 65535,
    ensures
        spec_preview_jpeg(width, height, bgra, max_dim, quality) == Some(
            (
                width,
                height,
                jpeg_rgb8(
                    spec_rgb_from_bgra(bgra, (width * height) as nat),
                    width,
                    height,
                    quality,
                ),
            ),
        ),
{
}

} // verus!
