//! What a watermark does to the samples of a picture, sample by sample.

use vstd::prelude::*;

use crate::apple::{
    are_composed_codes, are_gains, are_lights, are_pixel_lights, composed_canvas, composed_file,
    encoded_canvas, gains_from, is_composed, lemma_pixel_index, mapped_gains, place_within, Picture,
};
use crate::blend::{
    blended, lemma_blended, lemma_code_at, lemma_mask_index, lemma_sample_index, mark_code,
    sample_number, Overlay,
};
use crate::codec::png_encoded;
use crate::composite::{
    are_blended, are_image_codes, canvas_of, decoded, fits_image, is_composite,
    lemma_photo_is_complete, Decoded, ENCODE,
};
use crate::png_file::{primaries_of, transfer_of, PngPrimaries, PngTransfer};
use crate::samples::{code_bytes, image_codes, lemma_code_reads_back, max_code};
use crate::watermark::{are_codes, are_cut_off, are_pixel_codes, mask_color, WHITE};

verus! {

/// `code` is as near to the mean of `under` and `mark` as a whole number can be, where `mark`
/// counts `alpha` parts in 255.
pub open spec fn is_nearest_mean(code: int, under: int, mark: int, alpha: int) -> bool {
    -127 <= 255 * code - (under * (255 - alpha) + mark * alpha) <= 127
}

/// Blending gives the weighted mean, rounded to the nearest code, for every opacity.
pub proof fn law_blending_gives_the_nearest_mean(under: int, mark: int, alpha: int)
    ensures
        is_nearest_mean(blended(under, mark, alpha), under, mark, alpha),
{
}

/// A more opaque mark never moves a code away from the mark's.
pub proof fn law_more_opaque_is_nearer(under: int, mark: int, a: int, b: int)
    requires
        0 <= a <= b <= 255,
    ensures
        under <= mark ==> blended(under, mark, a) <= blended(under, mark, b),
        under >= mark ==> blended(under, mark, a) >= blended(under, mark, b),
{
    let (x, y) = (
        under * (255 - a) + mark * a + 127,
        under * (255 - b) + mark * b + 127,
    );
    assert(y - x == (mark - under) * (b - a)) by (nonlinear_arith)
        requires
            x == under * (255 - a) + mark * a + 127,
            y == under * (255 - b) + mark * b + 127,
    ;
    if under <= mark {
        assert((mark - under) * (b - a) >= 0) by (nonlinear_arith)
            requires
                mark - under >= 0,
                b - a >= 0,
        ;
    }
    if under >= mark {
        assert((mark - under) * (b - a) <= 0) by (nonlinear_arith)
            requires
                mark - under <= 0,
                b - a >= 0,
        ;
    }
}

/// Sample number `s` of stored samples.
pub open spec fn stored_sample(data: Seq<u8>, depth: u8, s: int) -> int {
    if depth == 16 {
        data[2 * s] * 256 + data[2 * s + 1]
    } else {
        data[s] as int
    }
}

/// The largest sample of a depth.
pub open spec fn full_sample(depth: u8) -> int {
    if depth == 16 {
        65535
    } else {
        255
    }
}

/// Channels of gray, RGB, gray with alpha, and RGB with alpha.
pub open spec fn channels_of(color: u8) -> int {
    if color == 0 {
        1
    } else if color == 2 {
        3
    } else if color == 4 {
        2
    } else {
        4
    }
}

/// Channel `c` is the alpha channel of a pixel with `n` channels.
pub open spec fn is_alpha_channel(c: int, n: int) -> bool {
    (n == 2 && c == 1) || (n == 4 && c == 3)
}

/// `code` is the sample in channel `c` that an 8-bit colour gets: scaled to the depth in an SDR
/// image, else what `curve` gives, at most the full sample.
pub open spec fn is_color_sample<F: Fn([u8; 3], PngTransfer, PngPrimaries, bool) -> [u32; 3]>(
    curve: F,
    transfer: PngTransfer,
    primaries: PngPrimaries,
    depth: u8,
    px: [u8; 3],
    c: int,
    code: int,
) -> bool {
    let sixteen = depth == 16;
    if transfer == PngTransfer::Sdr {
        255 * code == px@[c] * full_sample(depth)
    } else {
        exists|v: [u32; 3]| #[trigger]
            call_ensures(curve, (px, transfer, primaries, sixteen), v) && code == (if v@[c]
                < full_sample(depth) {
                v@[c] as int
            } else {
                full_sample(depth)
            })
    }
}

/// `px` is the colour of the mask pixel in row `my` and column `mx`, or its luma for gray images.
pub open spec fn is_mask_pixel(mask: Overlay, mx: int, my: int, gray: bool, px: [u8; 3]) -> bool {
    let at = 4 * (my * mask.width + mx);
    let (r, g, b) = (mask.pixels[at] as int, mask.pixels[at + 1] as int, mask.pixels[at + 2] as int);
    if gray {
        let luma = (77 * r + 150 * g + 29 * b) / 256;
        px@[0] == luma && px@[1] == luma && px@[2] == luma
    } else {
        px@[0] == r && px@[1] == g && px@[2] == b
    }
}

/// `under` is the sample below the mask: that of the photo, and behind its last row opaque white.
pub open spec fn is_ground<F: Fn([u8; 3], PngTransfer, PngPrimaries, bool) -> [u32; 3]>(
    curve: F,
    d: Decoded,
    x: int,
    y: int,
    c: int,
    under: int,
) -> bool {
    let n = channels_of(d.header.color);
    if y < d.header.height {
        under == stored_sample(d.samples, d.header.depth, (y * d.header.width + x) * n + c)
    } else if is_alpha_channel(c, n) {
        under == full_sample(d.header.depth)
    } else {
        is_color_sample(
            curve,
            transfer_of(d.chunks),
            primaries_of(d.chunks),
            d.header.depth,
            WHITE,
            c,
            under,
        )
    }
}

/// `mark` is the sample that the mask pixel over column `x` of row `y` stands for; it is opaque
/// itself.
pub open spec fn is_mark<F: Fn([u8; 3], PngTransfer, PngPrimaries, bool) -> [u32; 3]>(
    curve: F,
    d: Decoded,
    mask: Overlay,
    x: int,
    y: int,
    c: int,
    mark: int,
) -> bool {
    let n = channels_of(d.header.color);
    if is_alpha_channel(c, n) {
        mark == full_sample(d.header.depth)
    } else {
        exists|px: [u8; 3]|
            is_mask_pixel(mask, x - mask.left, y - mask.top, n < 3, px)
                && #[trigger] is_color_sample(
                curve,
                transfer_of(d.chunks),
                primaries_of(d.chunks),
                d.header.depth,
                px,
                c,
                mark,
            )
    }
}

/// Alpha of the mask over column `x` of row `y`; 0 where it does not reach.
pub open spec fn alpha_over(mask: Overlay, x: int, y: int) -> int {
    let (mx, my) = (x - mask.left, y - mask.top);
    if 0 <= mx < mask.width && 0 <= my < mask.height {
        mask.pixels[4 * (my * mask.width + mx) + 3] as int
    } else {
        0
    }
}

/// The sample of `data` in channel `c` of column `x` of row `y` is the one below the mask where the
/// mask is transparent, and else the nearest mean of that and of the mask's.
pub open spec fn is_composited_sample<F: Fn([u8; 3], PngTransfer, PngPrimaries, bool) -> [u32; 3]>(
    curve: F,
    d: Decoded,
    mask: Overlay,
    data: Seq<u8>,
    x: int,
    y: int,
    c: int,
) -> bool {
    let s = (y * d.header.width + x) * channels_of(d.header.color) + c;
    let code = stored_sample(data, d.header.depth, s);
    let alpha = alpha_over(mask, x, y);
    if alpha == 0 {
        is_ground(curve, d, x, y, c, code)
    } else {
        exists|under: int, mark: int| #[trigger]
            is_ground(curve, d, x, y, c, under) && #[trigger] is_mark(
                curve,
                d,
                mask,
                x,
                y,
                c,
                mark,
            ) && is_nearest_mean(code, under, mark, alpha)
    }
}

/// Rows of a picture of `height` rows with the mask.
pub open spec fn rows_of(mask: Overlay, height: int) -> int {
    if height < mask.top + mask.height {
        mask.top + mask.height
    } else {
        height
    }
}

/// `data` are all the samples of the composited picture.
pub open spec fn is_composited_picture<F: Fn([u8; 3], PngTransfer, PngPrimaries, bool) -> [u32; 3]>(
    curve: F,
    d: Decoded,
    mask: Overlay,
    data: Seq<u8>,
) -> bool {
    let rows = rows_of(mask, d.header.height as int);
    let n = channels_of(d.header.color);
    &&& data.len() == rows * d.header.width * n * (if d.header.depth == 16 {
        2int
    } else {
        1int
    })
    &&& forall|x: int, y: int, c: int|
        0 <= x < d.header.width && 0 <= y < rows && 0 <= c < n ==> #[trigger] is_composited_sample(
            curve,
            d,
            mask,
            data,
            x,
            y,
            c,
        )
}

/// A code as it is stored.
proof fn lemma_stored(data: Seq<u8>, depth: u8, s: int)
    requires
        depth == 8 || depth == 16,
        0 <= s < image_codes(data, depth == 16).len(),
    ensures
        stored_sample(data, depth, s) == image_codes(data, depth == 16)[s],
{
}

/// Codes of a colour are its samples.
proof fn lemma_color_sample<F: Fn([u8; 3], PngTransfer, PngPrimaries, bool) -> [u32; 3]>(
    curve: F,
    transfer: PngTransfer,
    primaries: PngPrimaries,
    depth: u8,
    px: [u8; 3],
    codes: [u32; 3],
    c: int,
)
    requires
        depth == 8 || depth == 16,
        0 <= c < 3,
        are_codes(curve, px, transfer, primaries, depth == 16, codes),
    ensures
        is_color_sample(curve, transfer, primaries, depth, px, c, codes@[c] as int),
{
    if transfer == PngTransfer::Sdr {
        assert(codes@[c] == crate::blend::straight(px@[c], depth == 16));
    } else {
        let sixteen = depth == 16;
        let v = choose|v: [u32; 3]| #[trigger]
            call_ensures(curve, (px, transfer, primaries, sixteen), v) && are_cut_off(
                v,
                sixteen,
                codes,
            );
        assert(codes@[c] == (if v@[c] > max_code(depth == 16) {
            max_code(depth == 16)
        } else {
            v@[c] as int
        }));
        assert(call_ensures(curve, (px, transfer, primaries, sixteen), v));
    }
}

/// The samples of a composited image, one by one.
proof fn lemma_composited_sample<F: Fn([u8; 3], PngTransfer, PngPrimaries, bool) -> [u32; 3]>(
    curve: F,
    d: Decoded,
    mask: Overlay,
    white: [u32; 3],
    marks: Seq<[u32; 3]>,
    x: int,
    y: int,
    c: int,
)
    requires
        fits_image(d.header, d.samples, mask),
        are_image_codes(curve, d, mask, white, marks),
        0 <= x < d.header.width,
        0 <= y < rows_of(mask, d.header.height as int),
        0 <= c < channels_of(d.header.color),
    ensures
        is_composited_sample(
            curve,
            d,
            mask,
            code_bytes(canvas_of(d, white).codes(mask, marks), d.header.depth == 16),
            x,
            y,
            c,
        ),
{
    let sixteen = d.header.depth == 16;
    let canvas = canvas_of(d, white);
    let codes = canvas.codes(mask, marks);
    let data = code_bytes(codes, sixteen);
    let s = sample_number(canvas, x, y, c);
    let (transfer, primaries) = (transfer_of(d.chunks), primaries_of(d.chunks));
    lemma_photo_is_complete(d, mask, white);
    lemma_code_at(canvas, mask, marks, x, y, c);
    let i = if c < 2 {
        c
    } else {
        2
    };
    let under = if y < d.header.height {
        canvas.photo[s] as int
    } else {
        canvas.fill(c)
    };
    if y < d.header.height {
        assert(canvas.photo[s] <= max_code(sixteen));
        lemma_stored(d.samples, d.header.depth, s);
    } else {
        assert(white@[i] <= max_code(sixteen));
        if !is_alpha_channel(c, canvas.samples) {
            lemma_color_sample(curve, transfer, primaries, d.header.depth, WHITE, white, c);
        }
    }
    assert(is_ground(curve, d, x, y, c, under));
    let k = mask.pixel_over(x, y);
    if mask.covers(x, y) {
        lemma_mask_index(mask, x, y);
        assert(alpha_over(mask, x, y) == mask.alpha(k));
    } else {
        assert(alpha_over(mask, x, y) == 0);
    }
    if mask.covers(x, y) && mask.alpha(k) > 0 {
        let mark = mark_code(marks, k, c, canvas.samples, canvas.sixteen);
        let alpha = mask.alpha(k);
        if !is_alpha_channel(c, canvas.samples) {
            assert(are_pixel_codes(
                curve,
                mask,
                k,
                canvas.samples >= 3,
                transfer,
                primaries,
                sixteen,
                marks[k],
            ));
            let px = choose|px: [u8; 3]|
                px@ == mask_color(mask, k, canvas.samples >= 3) && #[trigger] are_codes(
                    curve,
                    px,
                    transfer,
                    primaries,
                    sixteen,
                    marks[k],
                );
            lemma_color_sample(curve, transfer, primaries, d.header.depth, px, marks[k], c);
            assert(marks[k]@[i] <= max_code(sixteen));
            lemma_mask_pixel(mask, x - mask.left, y - mask.top, canvas.samples >= 3, px);
        }
        assert(is_mark(curve, d, mask, x, y, c, mark));
        lemma_blended(under, mark, alpha, max_code(sixteen));
        law_blending_gives_the_nearest_mean(under, mark, alpha);
    }
    assert(codes[s] <= max_code(sixteen));
    lemma_code_reads_back(codes, sixteen, s);
    lemma_stored(data, d.header.depth, s);
}

/// The colour of a mask pixel, byte by byte.
proof fn lemma_mask_pixel(mask: Overlay, mx: int, my: int, color: bool, px: [u8; 3])
    requires
        px@ == mask_color(mask, my * mask.width + mx, color),
    ensures
        is_mask_pixel(mask, mx, my, !color, px),
{
    let k = my * mask.width + mx;
    let (r, g, b) = (mask.pixels[4 * k], mask.pixels[4 * k + 1], mask.pixels[4 * k + 2]);
    assert(0 <= (r * 77 + g * 150 + b * 29) / 256 <= 255);
    assert(px@[0] == mask_color(mask, k, color)[0]);
    assert(px@[1] == mask_color(mask, k, color)[1]);
    assert(px@[2] == mask_color(mask, k, color)[2]);
}

/// Compositing a decoded image hands the encoder a picture of the image's own width, colour type
/// and depth, with the rows of the image or as many as the mask needs, whose samples are those of
/// the image under the mask. What comes out is a file where the encoder succeeds, else its error.
pub proof fn law_composite_shows_image_under_mask<
    F: Fn([u8; 3], PngTransfer, PngPrimaries, bool) -> [u32; 3],
>(curve: F, original: Seq<u8>, d: Decoded, mask: Overlay, r: Result<Seq<u8>, Seq<char>>)
    requires
        decoded(original, mask) == Ok::<Decoded, Seq<char>>(d),
        fits_image(d.header, d.samples, mask),
        is_composite(curve, original, mask, r),
        mask.width >= 0,
        mask.height >= 0,
        mask.top >= 0,
    ensures
        exists|data: Seq<u8>| #[trigger]
            is_composited_picture(curve, d, mask, data) && match png_encoded(
                d.header.width,
                (rows_of(mask, d.header.height as int) % 0x1_0000_0000) as u32,
                d.header.color,
                d.header.depth,
                data,
            ) {
                Ok(_) => r is Ok,
                Err(e) => r == Err::<Seq<u8>, Seq<char>>(ENCODE@ + e),
            },
{
    let data = choose|data: Seq<u8>| #[trigger]
        are_blended(curve, d, mask, data) && r == crate::composite::composed(d, mask, data) && (
        crate::composite::encoded_samples(d, mask, data) is Ok <==> r is Ok);
    let (white, marks) = choose|white: [u32; 3], marks: Seq<[u32; 3]>| #[trigger]
        are_image_codes(curve, d, mask, white, marks) && data == code_bytes(
            canvas_of(d, white).codes(mask, marks),
            d.header.depth == 16,
        );
    let rows = rows_of(mask, d.header.height as int);
    assert forall|x: int, y: int, c: int|
        0 <= x < d.header.width && 0 <= y < rows && 0 <= c < channels_of(
            d.header.color,
        ) implies #[trigger] is_composited_sample(curve, d, mask, data, x, y, c) by {
        lemma_composited_sample(curve, d, mask, white, marks, x, y, c);
    }
    let (w, n) = (d.header.width as int, channels_of(d.header.color));
    assert(0 <= rows * w * n) by (nonlinear_arith)
        requires
            0 <= rows,
            0 <= w,
            0 <= n,
    ;
    assert(is_composited_picture(curve, d, mask, data));
}

/// The four gains that count for a place of a gain map: at column `gx` of row `gy`, right of it,
/// below it, and below right of it. What lies outside counts as the last column or row.
pub open spec fn are_four_gains(gm: Picture, gx: int, gy: int, gains: [u8; 4]) -> bool {
    let (last_x, last_y) = (gm.width - 1, gm.height - 1);
    let x0 = if gx < last_x {
        gx
    } else {
        last_x
    };
    let y0 = if gy < last_y {
        gy
    } else {
        last_y
    };
    let x1 = if x0 < last_x {
        x0 + 1
    } else {
        last_x
    };
    let y1 = if y0 < last_y {
        y0 + 1
    } else {
        last_y
    };
    &&& gains@[0] == gm.pixels[4 * (y0 * gm.width + x0)]
    &&& gains@[1] == gm.pixels[4 * (y0 * gm.width + x1)]
    &&& gains@[2] == gm.pixels[4 * (y1 * gm.width + x0)]
    &&& gains@[3] == gm.pixels[4 * (y1 * gm.width + x1)]
}

/// `code` is what `light` gives in channel `c` for the base pixel in column `x` of row `y`, with
/// the four gains from the place on that `place` gives for the column and for the row.
pub open spec fn is_lit_sample<
    G: Fn([u8; 3], [u8; 4], usize, usize) -> [u16; 3],
    H: Fn(usize, usize, usize) -> usize,
>(light: G, place: H, base: Picture, gm: Picture, x: int, y: int, c: int, code: int) -> bool {
    let at = 4 * (y * base.width + x);
    exists|px: [u8; 3], gains: [u8; 4], v: [u16; 3], gx: usize, gy: usize| #[trigger]
        call_ensures(light, (px, gains, x as usize, y as usize), v) && #[trigger] call_ensures(
            place,
            (x as usize, gm.width as usize, base.width as usize),
            gx,
        ) && #[trigger] call_ensures(
            place,
            (y as usize, gm.height as usize, base.height as usize),
            gy,
        ) && px@[0] == base.pixels[at] && px@[1] == base.pixels[at + 1] && px@[2]
            == base.pixels[at + 2] && are_four_gains(gm, gx as int, gy as int, gains) && code
            == v@[c]
}

/// The sample below the mask in a composed picture: of the lit photo, and behind its last row
/// white.
pub open spec fn is_composed_ground<
    F: Fn([u8; 3], PngTransfer, PngPrimaries, bool) -> [u32; 3],
    G: Fn([u8; 3], [u8; 4], usize, usize) -> [u16; 3],
    H: Fn(usize, usize, usize) -> usize,
>(
    curve: F,
    light: G,
    place: H,
    base: Picture,
    gm: Picture,
    x: int,
    y: int,
    c: int,
    under: int,
) -> bool {
    if y < base.height {
        is_lit_sample(light, place, base, gm, x, y, c, under)
    } else {
        is_color_sample(curve, PngTransfer::Pq, PngPrimaries::Bt2020, 16, WHITE, c, under)
    }
}

/// The sample that the mask pixel over column `x` of row `y` stands for in a composed picture.
pub open spec fn is_composed_mark<F: Fn([u8; 3], PngTransfer, PngPrimaries, bool) -> [u32; 3]>(
    curve: F,
    mask: Overlay,
    x: int,
    y: int,
    c: int,
    mark: int,
) -> bool {
    exists|px: [u8; 3]|
        is_mask_pixel(mask, x - mask.left, y - mask.top, false, px) && #[trigger] is_color_sample(
            curve,
            PngTransfer::Pq,
            PngPrimaries::Bt2020,
            16,
            px,
            c,
            mark,
        )
}

/// A sample of a composed picture, as `is_composited_sample` has it.
pub open spec fn is_composed_sample<
    F: Fn([u8; 3], PngTransfer, PngPrimaries, bool) -> [u32; 3],
    G: Fn([u8; 3], [u8; 4], usize, usize) -> [u16; 3],
    H: Fn(usize, usize, usize) -> usize,
>(
    curve: F,
    light: G,
    place: H,
    base: Picture,
    gm: Picture,
    mask: Overlay,
    data: Seq<u8>,
    x: int,
    y: int,
    c: int,
) -> bool {
    let code = stored_sample(data, 16, (y * base.width + x) * 3 + c);
    let alpha = alpha_over(mask, x, y);
    if alpha == 0 {
        is_composed_ground(curve, light, place, base, gm, x, y, c, code)
    } else {
        exists|under: int, mark: int| #[trigger]
            is_composed_ground(curve, light, place, base, gm, x, y, c, under)
                && #[trigger] is_composed_mark(curve, mask, x, y, c, mark) && is_nearest_mean(
                code,
                under,
                mark,
                alpha,
            )
    }
}

/// `data` are all the samples of the composed picture.
pub open spec fn is_composed_picture<
    F: Fn([u8; 3], PngTransfer, PngPrimaries, bool) -> [u32; 3],
    G: Fn([u8; 3], [u8; 4], usize, usize) -> [u16; 3],
    H: Fn(usize, usize, usize) -> usize,
>(
    curve: F,
    light: G,
    place: H,
    base: Picture,
    gm: Picture,
    mask: Overlay,
    data: Seq<u8>,
) -> bool {
    let rows = rows_of(mask, base.height);
    &&& data.len() == rows * base.width * 6
    &&& forall|x: int, y: int, c: int|
        0 <= x < base.width && 0 <= y < rows && 0 <= c < 3 ==> #[trigger] is_composed_sample(
            curve,
            light,
            place,
            base,
            gm,
            mask,
            data,
            x,
            y,
            c,
        )
}

/// The codes of a lit photo are lit samples.
proof fn lemma_lit_sample<
    G: Fn([u8; 3], [u8; 4], usize, usize) -> [u16; 3],
    H: Fn(usize, usize, usize) -> usize,
>(light: G, place: H, base: Picture, gm: Picture, photo: Seq<u16>, x: int, y: int, c: int)
    requires
        base.is_complete(),
        gm.is_complete(),
        are_lights(light, place, base, gm, base.width * base.height, photo),
        0 <= x < base.width,
        0 <= y < base.height,
        0 <= c < 3,
    ensures
        0 <= 3 * (y * base.width + x) + c < photo.len(),
        is_lit_sample(
            light,
            place,
            base,
            gm,
            x,
            y,
            c,
            photo[3 * (y * base.width + x) + c] as int,
        ),
{
    let i = y * base.width + x;
    lemma_pixel_index(base, x, y);
    lemma_sample_index(base.width, 1, x, y, 0);
    assert(i * 1 + 0 == i && i / 1 == i);
    let codes = photo.subrange(3 * i, 3 * i + 3);
    assert(are_pixel_lights(light, place, base, gm, i, codes));
    assert(i % base.width == x && i / base.width == y);
    let (px, gains, v) = choose|px: [u8; 3], gains: [u8; 4], v: [u16; 3]| #[trigger]
        call_ensures(light, (px, gains, x as usize, y as usize), v) && px@ == base.pixels.subrange(
            4 * i,
            4 * i + 3,
        ) && are_gains(place, base, gm, x, y, gains@) && v@ == codes;
    let (gx, gy) = choose|gx: usize, gy: usize| #[trigger]
        call_ensures(place, (x as usize, gm.width as usize, base.width as usize), gx)
            && #[trigger] call_ensures(
            place,
            (y as usize, gm.height as usize, base.height as usize),
            gy,
        ) && gains@ == gains_from(
            gm,
            place_within(gx as int, gm.width),
            place_within(gy as int, gm.height),
        );
    let all = gains_from(
        gm,
        place_within(gx as int, gm.width),
        place_within(gy as int, gm.height),
    );
    assert(gains@[0] == all[0] && gains@[1] == all[1] && gains@[2] == all[2] && gains@[3]
        == all[3]);
    assert(are_four_gains(gm, gx as int, gy as int, gains));
    let three = base.pixels.subrange(4 * i, 4 * i + 3);
    assert(px@[0] == three[0] && px@[1] == three[1] && px@[2] == three[2]);
    assert(codes[c] == photo[3 * i + c]);
    assert(call_ensures(light, (px, gains, x as usize, y as usize), v));
    assert(call_ensures(place, (x as usize, gm.width as usize, base.width as usize), gx));
    assert(call_ensures(place, (y as usize, gm.height as usize, base.height as usize), gy));
}

/// The samples of a composed picture, one by one.
proof fn lemma_composed_sample<
    F: Fn([u8; 3], PngTransfer, PngPrimaries, bool) -> [u32; 3],
    G: Fn([u8; 3], [u8; 4], usize, usize) -> [u16; 3],
    H: Fn(usize, usize, usize) -> usize,
>(
    curve: F,
    light: G,
    place: H,
    base: Picture,
    gm: Picture,
    mask: Overlay,
    photo: Seq<u16>,
    white: [u32; 3],
    marks: Seq<[u32; 3]>,
    x: int,
    y: int,
    c: int,
)
    requires
        base.is_complete(),
        gm.is_complete(),
        mask.is_complete(),
        are_composed_codes(curve, light, place, base, gm, mask, photo, white, marks),
        0 <= x < base.width,
        0 <= y < rows_of(mask, base.height),
        0 <= c < 3,
    ensures
        is_composed_sample(
            curve,
            light,
            place,
            base,
            gm,
            mask,
            code_bytes(
                composed_canvas(photo, base.width, base.height, white).codes(mask, marks),
                true,
            ),
            x,
            y,
            c,
        ),
{
    let canvas = composed_canvas(photo, base.width, base.height, white);
    let codes = canvas.codes(mask, marks);
    let s = sample_number(canvas, x, y, c);
    let (pq, wide) = (PngTransfer::Pq, PngPrimaries::Bt2020);
    assert(base.width * base.height * 3 == 3 * (base.width * base.height));
    assert(canvas.is_complete());
    lemma_code_at(canvas, mask, marks, x, y, c);
    let i = if c < 2 {
        c
    } else {
        2
    };
    let under = if y < base.height {
        photo[s] as int
    } else {
        canvas.fill(c)
    };
    if y < base.height {
        lemma_lit_sample(light, place, base, gm, photo, x, y, c);
    } else {
        assert(white@[i] <= max_code(true));
        lemma_color_sample(curve, pq, wide, 16, WHITE, white, c);
    }
    assert(is_composed_ground(curve, light, place, base, gm, x, y, c, under));
    let k = mask.pixel_over(x, y);
    if mask.covers(x, y) {
        lemma_mask_index(mask, x, y);
        assert(alpha_over(mask, x, y) == mask.alpha(k));
    } else {
        assert(alpha_over(mask, x, y) == 0);
    }
    if mask.covers(x, y) && mask.alpha(k) > 0 {
        let mark = mark_code(marks, k, c, 3, true);
        assert(are_pixel_codes(curve, mask, k, true, pq, wide, true, marks[k]));
        let px = choose|px: [u8; 3]|
            px@ == mask_color(mask, k, true) && #[trigger] are_codes(
                curve,
                px,
                pq,
                wide,
                true,
                marks[k],
            );
        lemma_color_sample(curve, pq, wide, 16, px, marks[k], c);
        assert(marks[k]@[i] <= max_code(true));
        lemma_mask_pixel(mask, x - mask.left, y - mask.top, true, px);
        assert(is_composed_mark(curve, mask, x, y, c, mark));
        lemma_blended(under, mark, mask.alpha(k), max_code(true));
        law_blending_gives_the_nearest_mean(under, mark, mask.alpha(k));
    }
    lemma_code_reads_back(codes, true, s);
    lemma_stored(code_bytes(codes, true), 16, s);
}

/// Composing hands the encoder a 16-bit RGB picture of the base's width, with the rows of the base
/// or as many as the mask needs, whose samples are those of the lit base under the mask. What comes
/// out is a file where the encoder succeeds, else its error.
pub proof fn law_composed_picture_shows_lit_base_under_mask<
    F: Fn([u8; 3], PngTransfer, PngPrimaries, bool) -> [u32; 3],
    G: Fn([u8; 3], [u8; 4], usize, usize) -> [u16; 3],
    H: Fn(usize, usize, usize) -> usize,
>(
    curve: F,
    light: G,
    place: H,
    base: Picture,
    gm: Picture,
    mask: Overlay,
    r: Result<Seq<u8>, Seq<char>>,
)
    requires
        base.is_complete(),
        gm.is_complete(),
        mask.is_complete(),
        mask.width >= 0,
        mask.height >= 0,
        mask.top >= 0,
        is_composed(curve, light, place, base, gm, mask, r),
    ensures
        exists|data: Seq<u8>| #[trigger]
            is_composed_picture(curve, light, place, base, gm, mask, data) && match png_encoded(
                (base.width % 0x1_0000_0000) as u32,
                (rows_of(mask, base.height) % 0x1_0000_0000) as u32,
                2,
                16,
                data,
            ) {
                Ok(_) => r is Ok,
                Err(e) => r == Err::<Seq<u8>, Seq<char>>(ENCODE@ + e),
            },
{
    let (photo, white, marks) = choose|photo: Seq<u16>, white: [u32; 3], marks: Seq<[u32; 3]>|
        #[trigger]
        are_composed_codes(curve, light, place, base, gm, mask, photo, white, marks) && r
            == composed_file(photo, base.width, base.height, mask, white, marks) && (
        encoded_canvas(photo, base.width, base.height, mask, white, marks) is Ok <==> r is Ok);
    let canvas = composed_canvas(photo, base.width, base.height, white);
    let data = code_bytes(canvas.codes(mask, marks), true);
    let rows = rows_of(mask, base.height);
    assert forall|x: int, y: int, c: int|
        0 <= x < base.width && 0 <= y < rows && 0 <= c < 3 implies #[trigger] is_composed_sample(
        curve,
        light,
        place,
        base,
        gm,
        mask,
        data,
        x,
        y,
        c,
    ) by {
        lemma_composed_sample(
            curve,
            light,
            place,
            base,
            gm,
            mask,
            photo,
            white,
            marks,
            x,
            y,
            c,
        );
    }
    assert(0 <= rows * base.width * 3) by (nonlinear_arith)
        requires
            0 <= rows,
            0 <= base.width,
    ;
    assert(is_composed_picture(curve, light, place, base, gm, mask, data));
}

/// The gain map for ISO 21496-1 has one sample per pixel: what `curve` gives for the pixel's first
/// channel.
pub proof fn law_gains_are_mapped_one_by_one(gainmap: Seq<u8>, n: int, curve: Seq<u8>, i: int)
    requires
        0 <= i < n,
    ensures
        mapped_gains(gainmap, n, curve).len() == n,
        mapped_gains(gainmap, n, curve)[i] == curve[gainmap[4 * i] as int],
{
}

} // verus!
