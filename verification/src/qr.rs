//! Branded QR codes for the host window: the QR symbol of a text, drawn as an
//! RGBA image with a white quiet zone, and the square icons drawn on top.

use vstd::arithmetic::div_mod::lemma_fundamental_div_mod_converse;
use vstd::prelude::*;

verus! {

/// Width of the white border around the symbol, in modules.
pub const QUIET_ZONE: usize = 4;

/// Side of one module, in pixels.
pub const MODULE_SCALE: usize = 8;

/// The symbol that `qrcode`'s `QrCode::with_error_correction_level` builds for
/// the UTF-8 bytes of `text` at error-correction level H: the number of modules
/// per side and, row by row, whether each module is dark. `None` when the text
/// does not fit in any QR code.
pub uninterp spec fn qr_modules_high_ec(text: Seq<char>) -> Option<(nat, Seq<bool>)>;

/// Whether `image::load_from_memory` decodes the bytes `png` (their format is
/// guessed from the leading bytes and decoded under the default limits).
pub uninterp spec fn image_decodes(png: Seq<u8>) -> bool;

/// Calls `qrcode::QrCode::with_error_correction_level(text.as_bytes(), EcLevel::H)`
/// and reads its width and colors (`true` for `Color::Dark`). Trusted to return
/// the symbol that `qr_modules_high_ec` names, and what the crate's source
/// shows of it: it is a normal QR code of version 1 to 40, so it is
/// `4 * version + 17` modules wide, and it has one color per module.
/// When the text is too long the crate fails; which lengths fit is not stated.
#[verifier::external_body]
fn encode_qr_high(text: &str) -> (r: Option<(usize, Vec<bool>)>)
    ensures
        match r {
            None => qr_modules_high_ec(text@) is None,
            Some((w, dark)) => {
                &&& qr_modules_high_ec(text@) == Some((w as nat, dark@))
                &&& 21 <= w <= 177
                &&& w % 4 == 1
                &&& dark@.len() == w * w
            },
        },
{
    match qrcode::QrCode::with_error_correction_level(text.as_bytes(), qrcode::EcLevel::H) {
        Ok(code) => {
            let w = code.width();
            let dark: Vec<bool> = code.into_colors().into_iter().map(|c| match c {
                qrcode::Color::Dark => true,
                qrcode::Color::Light => false,
            }).collect();
            Some((w, dark))
        },
        Err(_) => None,
    }
}

/// Calls `image::load_from_memory`, `DynamicImage::resize_exact` with
/// `FilterType::Lanczos3` and `to_rgba8`. Trusted to succeed exactly when the
/// bytes decode (`image_decodes`) and then to return four bytes per pixel of
/// the `size` x `size` result. The pixel values are left unsaid: the Lanczos3
/// kernel calls `f32::sin`, whose precision std leaves to the platform, so
/// they are not a function of the arguments alone.
#[verifier::external_body]
fn load_resized_rgba(png: &[u8], size: u32) -> (r: Option<Vec<u8>>)
    requires
        size * size * 4 <= usize::MAX,
    ensures
        r is Some <==> image_decodes(png@),
        r matches Some(px) ==> px@.len() == size * size * 4,
{
    match image::load_from_memory(png) {
        Ok(img) => Some(
            img.resize_exact(size, size, image::imageops::FilterType::Lanczos3).to_rgba8().into_raw(),
        ),
        Err(_) => None,
    }
}

/// Side in pixels of the image of a symbol `modules` wide, quiet zone included.
pub open spec fn qr_dim(modules: nat) -> nat {
    (modules + 2 * 4) * 8
}

/// Whether the pixel in column `px` and row `py` lies on a dark module.
pub open spec fn qr_pixel_dark(modules: nat, dark: Seq<bool>, px: int, py: int) -> bool {
    let x = px / 8 - 4;
    let y = py / 8 - 4;
    0 <= x < modules && 0 <= y < modules && dark[y * modules + x]
}

/// The RGBA bytes, row by row, of the symbol image: opaque black on dark
/// modules, opaque white elsewhere (the quiet zone included).
pub open spec fn spec_qr_rgba(modules: nat, dark: Seq<bool>) -> Seq<u8> {
    let dim = qr_dim(modules) as int;
    Seq::new(
        (dim * dim * 4) as nat,
        |k: int|
            if k % 4 == 3 || !qr_pixel_dark(modules, dark, (k / 4) % dim, (k / 4) / dim) {
                255u8
            } else {
                0u8
            },
    )
}

/// Draws a symbol `modules` wide (`dark` holds its modules row by row) as an
/// RGBA image: every module becomes an 8 x 8 pixel block, inside a white quiet
/// zone four modules wide. Returns the image's side in pixels and its bytes.
pub fn render_modules(modules: usize, dark: &Vec<bool>) -> (r: (u32, Vec<u8>))
    requires
        dark@.len() == modules * modules,
        qr_dim(modules as nat) <= u32::MAX,
        qr_dim(modules as nat) * qr_dim(modules as nat) * 4 <= usize::MAX,
    ensures
        r.0 == qr_dim(modules as nat),
        r.1@ == spec_qr_rgba(modules as nat, dark@),
{
    let dim: usize = (modules + 2 * QUIET_ZONE) * MODULE_SCALE;
    proof {
        assert(dim * dim <= dim * dim * 4) by (nonlinear_arith);
    }
    let total = dim * dim;
    let dlen = dark.len();
    let ghost spec = spec_qr_rgba(modules as nat, dark@);
    let mut out: Vec<u8> = Vec::new();
    let mut p: usize = 0;
    while p < total
        invariant
            p <= total,
            total == dim * dim,
            dim == qr_dim(modules as nat),
            dim * dim * 4 <= usize::MAX,
            dark@.len() == modules * modules,
            dlen == dark@.len(),
            spec == spec_qr_rgba(modules as nat, dark@),
            spec.len() == total * 4,
            out@ == spec.take(4 * p as int),
        decreases total - p,
    {
        let px = p % dim;
        let py = p / dim;
        let mut is_dark = false;
        if px / MODULE_SCALE >= QUIET_ZONE && py / MODULE_SCALE >= QUIET_ZONE {
            let x = px / MODULE_SCALE - QUIET_ZONE;
            let y = py / MODULE_SCALE - QUIET_ZONE;
            if x < modules && y < modules {
                proof {
                    assert(y * modules + x < modules * modules && y * modules <= y * modules + x)
                        by (nonlinear_arith)
                        requires
                            x < modules,
                            y < modules,
                    ;
                }
                is_dark = dark[y * modules + x];
            }
        }
        assert(is_dark == qr_pixel_dark(modules as nat, dark@, px as int, py as int));
        let v: u8 = if is_dark { 0 } else { 255 };
        out.push(v);
        out.push(v);
        out.push(v);
        out.push(255);
        proof {
            let k = 4 * p as int;
            assert(k / 4 == p && k % 4 == 0);
            assert((k + 1) / 4 == p && (k + 1) % 4 == 1);
            assert((k + 2) / 4 == p && (k + 2) % 4 == 2);
            assert((k + 3) / 4 == p && (k + 3) % 4 == 3);
            assert(p < total);
            assert(4 * p + 4 <= total * 4);
            assert(out@ =~= spec.take(4 * (p + 1)));
        }
        p = p + 1;
    }
    assert(spec.take(4 * total as int) =~= spec);
    (dim as u32, out)
}

/// The QR symbol of `text` at error-correction level H, drawn as an RGBA
/// image with 8 x 8 pixel modules inside a four-module white quiet zone:
/// the image's side in pixels and its bytes. `None` when the text does not
/// fit in a QR code.
pub fn qr_module_image(text: &str) -> (r: Option<(u32, Vec<u8>)>)
    ensures
        match (r, qr_modules_high_ec(text@)) {
            (None, None) => true,
            (Some((dim, px)), Some((m, dark))) => {
                &&& dim == qr_dim(m)
                &&& px@ == spec_qr_rgba(m, dark)
                &&& 232 <= dim <= 1480
                &&& dim % 8 == 0
                &&& m % 4 == 1
            },
            _ => false,
        },
{
    match encode_qr_high(text) {
        None => None,
        Some((modules, dark)) => {
            proof {
                assert(qr_dim(modules as nat) <= 1480);
                assert(qr_dim(modules as nat) * qr_dim(modules as nat) <= 1480 * 1480)
                    by (nonlinear_arith)
                    requires
                        qr_dim(modules as nat) <= 1480,
                ;
            }
            Some(render_modules(modules, &dark))
        },
    }
}

/// Decodes an icon (PNG or another format that `image` reads) and resizes it
/// to `size` x `size` pixels with a Lanczos3 filter: its RGBA bytes, four per
/// pixel, or `None` when the bytes do not decode.
pub fn decode_square_rgba(png: &[u8], size: u32) -> (r: Option<Vec<u8>>)
    requires
        size * size * 4 <= usize::MAX,
    ensures
        r is Some <==> image_decodes(png@),
        r matches Some(px) ==> px@.len() == size * size * 4,
{
    load_resized_rgba(png, size)
}

/// The top-left corner, on both axes, of a square of side `side` centred in a
/// `dim`-pixel square image (rounded towards the top left).
pub open spec fn centred_origin(dim: nat, side: nat) -> int {
    (dim - side) / 2
}

/// Whether the pixel in column `x` and row `y` lies in the square of side
/// `side` centred in a `dim`-pixel square image.
pub open spec fn in_centred_square(dim: nat, side: nat, x: int, y: int) -> bool {
    let o = centred_origin(dim, side);
    o <= x < o + side && o <= y < o + side
}

/// Where the branding goes on a `dim`-pixel QR image: the top-left corner
/// (the same on both axes) of the centred white pad of side `pad`, and that of
/// the centred logo of side `logo_size`. Both squares lie inside the image.
pub fn logo_layout(dim: u32, pad: u32, logo_size: u32) -> (r: (u32, u32))
    requires
        pad <= dim,
        logo_size <= dim,
    ensures
        r.0 == centred_origin(dim as nat, pad as nat),
        r.1 == centred_origin(dim as nat, logo_size as nat),
        r.0 + pad <= dim,
        r.1 + logo_size <= dim,
{
    ((dim - pad) / 2, (dim - logo_size) / 2)
}

/// Paints the centred square of side `pad` of a `dim`-pixel RGBA image opaque
/// white (the pad that keeps the modules clear of the logo) and leaves every
/// other byte as it was.
pub fn whiten_centre_square(rgba: &mut Vec<u8>, dim: u32, pad: u32)
    requires
        old(rgba)@.len() == dim * dim * 4,
        pad <= dim,
    ensures
        final(rgba)@.len() == old(rgba)@.len(),
        forall|k: int|
            0 <= k < old(rgba)@.len() ==> #[trigger] final(rgba)@[k] == if in_centred_square(
                dim as nat,
                pad as nat,
                (k / 4) % (dim as int),
                (k / 4) / (dim as int),
            ) {
                255u8
            } else {
                old(rgba)@[k]
            },
{
    let ghost orig = rgba@;
    let d = dim as usize;
    let len = rgba.len();
    proof {
        assert(d * d <= d * d * 4) by (nonlinear_arith);
    }
    let total = d * d;
    let o = ((dim - pad) / 2) as usize;
    let side = pad as usize;
    let mut p: usize = 0;
    while p < total
        invariant
            p <= total,
            total == d * d,
            d == dim,
            len == total * 4,
            o == centred_origin(dim as nat, pad as nat),
            side == pad,
            o + side <= d,
            rgba@.len() == len,
            orig.len() == len,
            forall|k: int|
                0 <= k < 4 * p ==> #[trigger] rgba@[k] == if in_centred_square(
                    dim as nat,
                    pad as nat,
                    (k / 4) % (dim as int),
                    (k / 4) / (dim as int),
                ) {
                    255u8
                } else {
                    orig[k]
                },
            forall|k: int| 4 * p <= k < len ==> #[trigger] rgba@[k] == orig[k],
        decreases total - p,
    {
        let x = p % d;
        let y = p / d;
        let inside = o <= x && x < o + side && o <= y && y < o + side;
        assert(4 * p + 4 <= len);
        if inside {
            rgba.set(4 * p, 255);
            rgba.set(4 * p + 1, 255);
            rgba.set(4 * p + 2, 255);
            rgba.set(4 * p + 3, 255);
        }
        proof {
            let k0 = 4 * p as int;
            assert(k0 / 4 == p && (k0 + 1) / 4 == p && (k0 + 2) / 4 == p && (k0 + 3) / 4 == p);
            assert(inside == in_centred_square(dim as nat, pad as nat, x as int, y as int));
            assert forall|k: int| 0 <= k < 4 * (p + 1) implies #[trigger] rgba@[k] == if in_centred_square(
                dim as nat,
                pad as nat,
                (k / 4) % (dim as int),
                (k / 4) / (dim as int),
            ) {
                255u8
            } else {
                orig[k]
            } by {
                if k >= 4 * p {
                    assert(k / 4 == p);
                }
            }
        }
        p = p + 1;
    }
}

/// Where each pixel of the symbol image stands: the four bytes of the pixel
/// in column `px` and row `py` are its red, green, blue and alpha, black and
/// opaque on a dark module, white and opaque elsewhere.
pub proof fn lemma_qr_pixel_bytes(modules: nat, dark: Seq<bool>, px: nat, py: nat, c: nat)
    requires
        px < qr_dim(modules),
        py < qr_dim(modules),
        c < 4,
    ensures
        ({
            let k = (4 * (py * qr_dim(modules) + px) + c) as int;
            &&& 0 <= k < spec_qr_rgba(modules, dark).len()
            &&& spec_qr_rgba(modules, dark)[k] == if c == 3 || !qr_pixel_dark(
                modules,
                dark,
                px as int,
                py as int,
            ) {
                255u8
            } else {
                0u8
            }
        }),
{
    let dim = qr_dim(modules);
    let p = py * dim + px;
    let k = 4 * p + c;
    assert(p < dim * dim) by (nonlinear_arith)
        requires
            px < dim,
            py < dim,
            p == py * dim + px,
    ;
    lemma_fundamental_div_mod_converse(k as int, 4, p as int, c as int);
    lemma_fundamental_div_mod_converse(p as int, dim as int, py as int, px as int);
}

/// The quiet zone, four modules wide on every side of the symbol, is white.
pub proof fn lemma_quiet_zone_is_white(modules: nat, dark: Seq<bool>, px: int, py: int)
    requires
        0 <= px < qr_dim(modules),
        0 <= py < qr_dim(modules),
        px < 32 || py < 32 || px >= qr_dim(modules) - 32 || py >= qr_dim(modules) - 32,
    ensures
        !qr_pixel_dark(modules, dark, px, py),
{
}

/// Every module is drawn at its own place: the 8 x 8 pixel block whose top-left
/// pixel is column `8 * (x + 4)`, row `8 * (y + 4)` shows module `x` of row `y`
/// of the row-major module list, opaque black when it is dark and opaque white
/// when it is light.
pub proof fn lemma_module_drawn_in_place(
    modules: nat,
    dark: Seq<bool>,
    x: nat,
    y: nat,
    dx: nat,
    dy: nat,
    c: nat,
)
    requires
        x < modules,
        y < modules,
        dx < 8,
        dy < 8,
        c < 4,
    ensures
        qr_pixel_dark(modules, dark, (8 * (x + 4) + dx) as int, (8 * (y + 4) + dy) as int) == dark[(y * modules + x) as int],
        ({
            let px = 8 * (x + 4) + dx;
            let py = 8 * (y + 4) + dy;
            spec_qr_rgba(modules, dark)[(4 * (py * qr_dim(modules) + px) + c) as int] == if c == 3
                || !dark[(y * modules + x) as int] {
                255u8
            } else {
                0u8
            }
        }),
{
    let px: nat = 8 * (x + 4) + dx;
    let py: nat = 8 * (y + 4) + dy;
    lemma_fundamental_div_mod_converse(px as int, 8, (x + 4) as int, dx as int);
    lemma_fundamental_div_mod_converse(py as int, 8, (y + 4) as int, dy as int);
    assert(px < qr_dim(modules));
    assert(py < qr_dim(modules));
    lemma_qr_pixel_bytes(modules, dark, px, py, c);
}

} // verus!
