//! The codes that a watermark's colours have in an image.

use vstd::prelude::*;

use crate::blend::{marks_fit, straight, straight_code, Mask, Overlay};
use crate::png_file::{PngPrimaries, PngTransfer};
use crate::samples::max_code;

verus! {

/// The brightest mask colour.
pub const WHITE: [u8; 3] = [255, 255, 255];

/// `codes` are the codes of the colour `px`: the straight codes for SDR; else what `curve` gives
/// for the colour, cut off at the largest code.
pub open spec fn are_codes<F: Fn([u8; 3], PngTransfer, PngPrimaries, bool) -> [u32; 3]>(
    curve: F,
    px: [u8; 3],
    transfer: PngTransfer,
    primaries: PngPrimaries,
    sixteen: bool,
    codes: [u32; 3],
) -> bool {
    if transfer == PngTransfer::Sdr {
        forall|c: int| 0 <= c < 3 ==> #[trigger] codes@[c] == straight(px@[c], sixteen)
    } else {
        exists|v: [u32; 3]| #[trigger]
            call_ensures(curve, (px, transfer, primaries, sixteen), v) && are_cut_off(
                v,
                sixteen,
                codes,
            )
    }
}

/// `codes` are the codes `v`, cut off at the largest code.
pub open spec fn are_cut_off(v: [u32; 3], sixteen: bool, codes: [u32; 3]) -> bool {
    forall|c: int|
        0 <= c < 3 ==> #[trigger] codes@[c] == (if v@[c] > max_code(sixteen) {
            max_code(sixteen)
        } else {
            v@[c] as int
        })
}

fn cut_off(code: u32, max: u32) -> (r: u32)
    ensures
        r == (if code > max {
            max
        } else {
            code
        }),
{
    if code > max {
        max
    } else {
        code
    }
}

/// The codes of a mask colour in an image with the given transfer function, primaries and sample
/// size. `curve` converts colours for HDR images.
pub fn watermark_codes<F: Fn([u8; 3], PngTransfer, PngPrimaries, bool) -> [u32; 3]>(
    mask_px: [u8; 3],
    transfer: PngTransfer,
    primaries: PngPrimaries,
    sixteen: bool,
    curve: &F,
) -> (r: [u32; 3])
    requires
        call_requires(*curve, (mask_px, transfer, primaries, sixteen)),
    ensures
        are_codes(*curve, mask_px, transfer, primaries, sixteen, r),
        forall|c: int| 0 <= c < 3 ==> (#[trigger] r@[c]) <= max_code(sixteen),
{
    if transfer == PngTransfer::Sdr {
        return [
            straight_code(mask_px[0], sixteen),
            straight_code(mask_px[1], sixteen),
            straight_code(mask_px[2], sixteen),
        ];
    }
    let max: u32 = if sixteen {
        65535
    } else {
        255
    };
    let v: [u32; 3] = curve(mask_px, transfer, primaries, sixteen);
    let r: [u32; 3] = [cut_off(v[0], max), cut_off(v[1], max), cut_off(v[2], max)];
    assert(are_cut_off(v, sixteen, r));
    r
}

/// The colour of mask pixel `k`: its own, or for an image without colour its luma three times.
pub open spec fn mask_color(mask: Overlay, k: int, color: bool) -> Seq<u8> {
    let r = mask.pixels[4 * k];
    let g = mask.pixels[4 * k + 1];
    let b = mask.pixels[4 * k + 2];
    if color {
        seq![r, g, b]
    } else {
        let luma = ((r * 77 + g * 150 + b * 29) / 256) as u8;
        seq![luma, luma, luma]
    }
}

/// The colour of mask pixel `k`.
pub fn pixel_color(mask: &Mask, k: usize, color: bool) -> (r: [u8; 3])
    requires
        4 * k + 3 < mask.pixels@.len(),
    ensures
        r@ == mask_color(mask@, k as int, color),
{
    assert(mask.pixels.len() == mask.pixels@.len());
    let r: u8 = mask.pixels[4 * k];
    let g: u8 = mask.pixels[4 * k + 1];
    let b: u8 = mask.pixels[4 * k + 2];
    let px: [u8; 3] = if color {
        [r, g, b]
    } else {
        let luma: u8 = ((r as u32 * 77 + g as u32 * 150 + b as u32 * 29) / 256) as u8;
        [luma, luma, luma]
    };
    assert(px@ =~= mask_color(mask@, k as int, color));
    px
}

/// `codes` are the codes of mask pixel `k`.
pub open spec fn are_pixel_codes<F: Fn([u8; 3], PngTransfer, PngPrimaries, bool) -> [u32; 3]>(
    curve: F,
    mask: Overlay,
    k: int,
    color: bool,
    transfer: PngTransfer,
    primaries: PngPrimaries,
    sixteen: bool,
    codes: [u32; 3],
) -> bool {
    exists|px: [u8; 3]|
        px@ == mask_color(mask, k, color) && #[trigger] are_codes(
            curve,
            px,
            transfer,
            primaries,
            sixteen,
            codes,
        )
}

/// `marks` are the codes of the mask's visible pixels.
pub open spec fn are_marks<F: Fn([u8; 3], PngTransfer, PngPrimaries, bool) -> [u32; 3]>(
    curve: F,
    mask: Overlay,
    color: bool,
    transfer: PngTransfer,
    primaries: PngPrimaries,
    sixteen: bool,
    marks: Seq<[u32; 3]>,
) -> bool {
    &&& marks_fit(mask, marks, sixteen)
    &&& forall|k: int|
        0 <= k < marks.len() && mask.alpha(k) > 0 ==> are_pixel_codes(
            curve,
            mask,
            k,
            color,
            transfer,
            primaries,
            sixteen,
            #[trigger] marks[k],
        )
}

/// The codes of the mask's pixels; a pixel that cannot be seen gets zeros.
pub fn mask_marks<F: Fn([u8; 3], PngTransfer, PngPrimaries, bool) -> [u32; 3]>(
    mask: &Mask,
    color: bool,
    transfer: PngTransfer,
    primaries: PngPrimaries,
    sixteen: bool,
    curve: &F,
) -> (marks: Vec<[u32; 3]>)
    requires
        mask@.is_complete(),
        forall|px: [u8; 3]| #[trigger]
            call_requires(*curve, (px, transfer, primaries, sixteen)),
    ensures
        are_marks(*curve, mask@, color, transfer, primaries, sixteen, marks@),
{
    assert(mask.pixels.len() == mask.pixels@.len());
    let n: usize = mask.width * mask.height;
    let mut marks: Vec<[u32; 3]> = Vec::new();
    let mut k: usize = 0;
    while k < n
        invariant
            k <= n,
            n == mask.width * mask.height,
            4 * n <= mask.pixels@.len(),
            4 * n <= usize::MAX,
            marks@.len() == k,
            forall|px: [u8; 3]| #[trigger]
                call_requires(*curve, (px, transfer, primaries, sixteen)),
            forall|j: int, c: int|
                0 <= j < marks@.len() && 0 <= c < 3 ==> (#[trigger] marks@[j]@[c]) <= max_code(
                    sixteen,
                ),
            forall|j: int|
                0 <= j < marks@.len() && mask@.alpha(j) > 0 ==> are_pixel_codes(
                    *curve,
                    mask@,
                    j,
                    color,
                    transfer,
                    primaries,
                    sixteen,
                    #[trigger] marks@[j],
                ),
        decreases n - k,
    {
        let codes: [u32; 3] = if mask.pixels[4 * k + 3] == 0 {
            [0, 0, 0]
        } else {
            let px: [u8; 3] = pixel_color(mask, k, color);
            let codes: [u32; 3] = watermark_codes(px, transfer, primaries, sixteen, curve);
            assert(are_codes(*curve, px, transfer, primaries, sixteen, codes));
            codes
        };
        marks.push(codes);
        k += 1;
    }
    marks
}

} // verus!
