//! Bytes of the images that what is composed does not depend on, and that it depends on nothing
//! else.

use vstd::prelude::*;

use crate::apple::{
    are_composed_codes, are_gains, are_lights, are_pixel_lights, compose_error, composed_canvas,
    composed_file, encoded_canvas, gains_from, is_composed, next_place, place_within, Picture,
};
use crate::blend::{lemma_mask_index, Canvas, Overlay};
use crate::codec::samples_of;
use crate::composite::{
    are_blended, are_image_codes, canvas_of, composed, decoded, encoded_samples, is_composite,
};
use crate::png_file::{primaries_of, transfer_of, PngPrimaries, PngTransfer};
use crate::samples::code_bytes;
use crate::watermark::{are_codes, are_cut_off, are_marks, are_pixel_codes, mask_color, WHITE};

verus! {

/// Two complete images of one size whose pixels have the same colours; the opacities may differ,
/// and so may what stands behind the pixels.
pub open spec fn same_colors(a: Picture, b: Picture) -> bool {
    &&& a.is_complete() && b.is_complete()
    &&& a.width == b.width && a.height == b.height
    &&& forall|i: int|
        0 <= i < a.width * a.height ==> #[trigger] a.pixels.subrange(4 * i, 4 * i + 3)
            == b.pixels.subrange(4 * i, 4 * i + 3)
}

/// Two complete images of one size whose pixels have the same first channel; all else may differ.
pub open spec fn same_gains(a: Picture, b: Picture) -> bool {
    &&& a.is_complete() && b.is_complete()
    &&& a.width == b.width && a.height == b.height
    &&& forall|x: int, y: int|
        0 <= x < a.width && 0 <= y < a.height ==> #[trigger] a.gain(x, y) == b.gain(x, y)
}

/// Two complete masks of one size at one place whose pixels have the same opacities, and the same
/// colours where they can be seen; the others' colours may differ, and so may what stands behind
/// the pixels.
pub open spec fn same_marks(a: Overlay, b: Overlay) -> bool {
    &&& a.is_complete() && b.is_complete()
    &&& a.width >= 0 && a.height >= 0
    &&& a.width == b.width && a.height == b.height && a.left == b.left && a.top == b.top
    &&& forall|k: int|
        0 <= k < a.width * a.height ==> {
            &&& #[trigger] a.alpha(k) == b.alpha(k)
            &&& a.alpha(k) > 0 ==> a.pixels.subrange(4 * k, 4 * k + 3) == b.pixels.subrange(
                4 * k,
                4 * k + 3,
            )
        }
}

/// Two lists of code triples for the pixels of the mask agree on the pixels that can be seen.
pub open spec fn agree_on_marks(mask: Overlay, a: Seq<[u32; 3]>, b: Seq<[u32; 3]>) -> bool {
    forall|k: int|
        0 <= k < mask.width * mask.height && mask.alpha(k) > 0 ==> #[trigger] a[k]@ == b[k]@
}

/// Canvases of one photo have the same codes under masks whose visible pixels have the same codes.
proof fn lemma_same_canvas_codes(
    a: Canvas,
    b: Canvas,
    over_a: Overlay,
    over_b: Overlay,
    marks_a: Seq<[u32; 3]>,
    marks_b: Seq<[u32; 3]>,
)
    requires
        same_marks(over_a, over_b),
        a.photo == b.photo,
        a.width == b.width,
        a.height == b.height,
        a.samples == b.samples,
        a.sixteen == b.sixteen,
        a.white@ == b.white@,
        agree_on_marks(over_a, marks_a, marks_b),
    ensures
        a.codes(over_a, marks_a) == b.codes(over_b, marks_b),
{
    assert forall|s: int| #[trigger] a.over(over_a, marks_a, s) == b.over(over_b, marks_b, s) by {
        let x = (s / a.samples) % a.width;
        let y = (s / a.samples) / a.width;
        let k = over_a.pixel_over(x, y);
        if over_a.covers(x, y) {
            lemma_mask_index(over_a, x, y);
            assert(over_a.alpha(k) == over_b.alpha(k));
            if over_a.alpha(k) > 0 {
                assert(marks_a[k]@ == marks_b[k]@);
            }
        }
    }
    assert(a.codes(over_a, marks_a) =~= b.codes(over_b, marks_b));
}

/// A visible pixel has the same colour in both masks.
proof fn lemma_same_mask_color(a: Overlay, b: Overlay, k: int, color: bool)
    requires
        same_marks(a, b),
        0 <= k < a.width * a.height,
        a.alpha(k) > 0,
    ensures
        mask_color(a, k, color) == mask_color(b, k, color),
{
    let (p, q) = (a.pixels.subrange(4 * k, 4 * k + 3), b.pixels.subrange(4 * k, 4 * k + 3));
    assert(p == q);
    assert(p[0] == a.pixels[4 * k] && p[1] == a.pixels[4 * k + 1] && p[2] == a.pixels[4 * k + 2]);
    assert(q[0] == b.pixels[4 * k] && q[1] == b.pixels[4 * k + 1] && q[2] == b.pixels[4 * k + 2]);
}

/// Codes of one mask's pixels are codes of the other's.
proof fn lemma_same_marks<F: Fn([u8; 3], PngTransfer, PngPrimaries, bool) -> [u32; 3]>(
    curve: F,
    a: Overlay,
    b: Overlay,
    color: bool,
    transfer: PngTransfer,
    primaries: PngPrimaries,
    sixteen: bool,
    marks: Seq<[u32; 3]>,
)
    requires
        same_marks(a, b),
        are_marks(curve, a, color, transfer, primaries, sixteen, marks),
    ensures
        are_marks(curve, b, color, transfer, primaries, sixteen, marks),
{
    assert forall|k: int| 0 <= k < marks.len() && b.alpha(k) > 0 implies are_pixel_codes(
        curve,
        b,
        k,
        color,
        transfer,
        primaries,
        sixteen,
        #[trigger] marks[k],
    ) by {
        assert(a.alpha(k) == b.alpha(k));
        lemma_same_mask_color(a, b, k, color);
        assert(are_pixel_codes(curve, a, k, color, transfer, primaries, sixteen, marks[k]));
    }
}

/// Gains of one gain map are gains of the other.
proof fn lemma_same_gains(a: Picture, b: Picture, x: int, y: int)
    requires
        same_gains(a, b),
        0 <= x < a.width,
        0 <= y < a.height,
    ensures
        gains_from(a, x, y) == gains_from(b, x, y),
{
    let (right, below) = (next_place(x, a.width), next_place(y, a.height));
    assert(a.gain(x, y) == b.gain(x, y));
    assert(a.gain(right, y) == b.gain(right, y));
    assert(a.gain(x, below) == b.gain(x, below));
    assert(a.gain(right, below) == b.gain(right, below));
}

/// What the codes of a photo can be does not depend on the opacities of the base, nor on the other
/// channels of the gain map.
proof fn lemma_same_lights<
    G: Fn([u8; 3], [u8; 4], usize, usize) -> [u16; 3],
    H: Fn(usize, usize, usize) -> usize,
>(
    light: G,
    place: H,
    base_a: Picture,
    base_b: Picture,
    gains_a: Picture,
    gains_b: Picture,
    photo: Seq<u16>,
)
    requires
        same_colors(base_a, base_b),
        same_gains(gains_a, gains_b),
        are_lights(light, place, base_a, gains_a, base_a.width * base_a.height, photo),
    ensures
        are_lights(light, place, base_b, gains_b, base_b.width * base_b.height, photo),
{
    assert forall|i: int| 0 <= i < base_b.width * base_b.height implies are_pixel_lights(
        light,
        place,
        base_b,
        gains_b,
        i,
        #[trigger] photo.subrange(3 * i, 3 * i + 3),
    ) by {
        let (x, y) = (i % base_a.width, i / base_a.width);
        let codes = photo.subrange(3 * i, 3 * i + 3);
        assert(are_pixel_lights(light, place, base_a, gains_a, i, codes));
        let (px, gains, v) = choose|px: [u8; 3], gains: [u8; 4], v: [u16; 3]| #[trigger]
            call_ensures(light, (px, gains, x as usize, y as usize), v) && px@
                == base_a.pixels.subrange(4 * i, 4 * i + 3) && are_gains(
                place,
                base_a,
                gains_a,
                x,
                y,
                gains@,
            ) && v@ == codes;
        let (gx, gy) = choose|gx: usize, gy: usize| #[trigger]
            call_ensures(place, (x as usize, gains_a.width as usize, base_a.width as usize), gx)
                && #[trigger] call_ensures(
                place,
                (y as usize, gains_a.height as usize, base_a.height as usize),
                gy,
            ) && gains@ == gains_from(
                gains_a,
                place_within(gx as int, gains_a.width),
                place_within(gy as int, gains_a.height),
            );
        lemma_same_gains(
            gains_a,
            gains_b,
            place_within(gx as int, gains_a.width),
            place_within(gy as int, gains_a.height),
        );
        assert(call_ensures(
            place,
            (x as usize, gains_b.width as usize, base_b.width as usize),
            gx,
        ));
        assert(call_ensures(
            place,
            (y as usize, gains_b.height as usize, base_b.height as usize),
            gy,
        ));
        assert(are_gains(place, base_b, gains_b, x, y, gains@));
        assert(px@ == base_b.pixels.subrange(4 * i, 4 * i + 3));
        assert(call_ensures(light, (px, gains, x as usize, y as usize), v));
    }
}

/// What is composed from one set of images is composed from another that differs in unused bytes.
proof fn lemma_composed_from_same<
    F: Fn([u8; 3], PngTransfer, PngPrimaries, bool) -> [u32; 3],
    G: Fn([u8; 3], [u8; 4], usize, usize) -> [u16; 3],
    H: Fn(usize, usize, usize) -> usize,
>(
    curve: F,
    light: G,
    place: H,
    base_a: Picture,
    base_b: Picture,
    gains_a: Picture,
    gains_b: Picture,
    mask_a: Overlay,
    mask_b: Overlay,
    r: Result<Seq<u8>, Seq<char>>,
)
    requires
        same_colors(base_a, base_b),
        same_gains(gains_a, gains_b),
        same_marks(mask_a, mask_b),
        is_composed(curve, light, place, base_a, gains_a, mask_a, r),
    ensures
        is_composed(curve, light, place, base_b, gains_b, mask_b, r),
{
    let (photo, white, marks) = choose|photo: Seq<u16>, white: [u32; 3], marks: Seq<[u32; 3]>|
        #[trigger]
        are_composed_codes(curve, light, place, base_a, gains_a, mask_a, photo, white, marks) && r
            == composed_file(photo, base_a.width, base_a.height, mask_a, white, marks) && (
        encoded_canvas(photo, base_a.width, base_a.height, mask_a, white, marks) is Ok
            <==> r is Ok);
    lemma_same_lights(light, place, base_a, base_b, gains_a, gains_b, photo);
    lemma_same_marks(
        curve,
        mask_a,
        mask_b,
        true,
        PngTransfer::Pq,
        PngPrimaries::Bt2020,
        true,
        marks,
    );
    let canvas = composed_canvas(photo, base_a.width, base_a.height, white);
    lemma_same_canvas_codes(canvas, canvas, mask_a, mask_b, marks, marks);
    assert(are_composed_codes(
        curve,
        light,
        place,
        base_b,
        gains_b,
        mask_b,
        photo,
        white,
        marks,
    ));
}

/// What is composed does not depend on the opacities of the base, on the gain map's second to
/// fourth channel, on the colours of mask pixels that cannot be seen, nor on what stands behind the
/// pixels of an image.
pub proof fn law_unused_bytes_do_not_matter<
    F: Fn([u8; 3], PngTransfer, PngPrimaries, bool) -> [u32; 3],
    G: Fn([u8; 3], [u8; 4], usize, usize) -> [u16; 3],
    H: Fn(usize, usize, usize) -> usize,
>(
    curve: F,
    light: G,
    place: H,
    base_a: Picture,
    base_b: Picture,
    gains_a: Picture,
    gains_b: Picture,
    mask_a: Overlay,
    mask_b: Overlay,
    headroom_ok: bool,
    r: Result<Seq<u8>, Seq<char>>,
)
    requires
        same_colors(base_a, base_b),
        same_gains(gains_a, gains_b),
        same_marks(mask_a, mask_b),
    ensures
        compose_error(base_a, gains_a, headroom_ok, mask_a) == compose_error(
            base_b,
            gains_b,
            headroom_ok,
            mask_b,
        ),
        is_composed(curve, light, place, base_a, gains_a, mask_a, r) <==> is_composed(
            curve,
            light,
            place,
            base_b,
            gains_b,
            mask_b,
            r,
        ),
{
    if is_composed(curve, light, place, base_a, gains_a, mask_a, r) {
        lemma_composed_from_same(
            curve,
            light,
            place,
            base_a,
            base_b,
            gains_a,
            gains_b,
            mask_a,
            mask_b,
            r,
        );
    }
    if is_composed(curve, light, place, base_b, gains_b, mask_b, r) {
        assert forall|i: int| 0 <= i < base_b.width * base_b.height implies (
        #[trigger] base_b.pixels.subrange(4 * i, 4 * i + 3)) == base_a.pixels.subrange(
            4 * i,
            4 * i + 3,
        ) by {
            assert(base_a.pixels.subrange(4 * i, 4 * i + 3) == base_b.pixels.subrange(
                4 * i,
                4 * i + 3,
            ));
        }
        assert forall|x: int, y: int| 0 <= x < gains_b.width && 0 <= y < gains_b.height implies (
        #[trigger] gains_b.gain(x, y)) == gains_a.gain(x, y) by {
            assert(gains_a.gain(x, y) == gains_b.gain(x, y));
        }
        lemma_same_marks_flip(mask_a, mask_b);
        lemma_composed_from_same(
            curve,
            light,
            place,
            base_b,
            base_a,
            gains_b,
            gains_a,
            mask_b,
            mask_a,
            r,
        );
    }
}

/// Masks agree whichever comes first.
proof fn lemma_same_marks_flip(a: Overlay, b: Overlay)
    requires
        same_marks(a, b),
    ensures
        same_marks(b, a),
{
    assert forall|k: int| 0 <= k < b.width * b.height implies {
        &&& #[trigger] b.alpha(k) == a.alpha(k)
        &&& b.alpha(k) > 0 ==> b.pixels.subrange(4 * k, 4 * k + 3) == a.pixels.subrange(
            4 * k,
            4 * k + 3,
        )
    } by {
        assert(a.alpha(k) == b.alpha(k));
    }
}

/// What a composite can be for one mask, it can be for the other.
proof fn lemma_composite_for_same<F: Fn([u8; 3], PngTransfer, PngPrimaries, bool) -> [u32; 3]>(
    curve: F,
    original: Seq<u8>,
    a: Overlay,
    b: Overlay,
    r: Result<Seq<u8>, Seq<char>>,
)
    requires
        same_marks(a, b),
        is_composite(curve, original, a, r),
    ensures
        is_composite(curve, original, b, r),
{
    assert(decoded(original, a) == decoded(original, b));
    if let Ok(d) = decoded(original, a) {
        let data = choose|data: Seq<u8>| #[trigger]
            are_blended(curve, d, a, data) && r == composed(d, a, data) && (encoded_samples(
                d,
                a,
                data,
            ) is Ok <==> r is Ok);
        let (white, marks) = choose|white: [u32; 3], marks: Seq<[u32; 3]>| #[trigger]
            are_image_codes(curve, d, a, white, marks) && data == code_bytes(
                canvas_of(d, white).codes(a, marks),
                d.header.depth == 16,
            );
        lemma_same_marks(
            curve,
            a,
            b,
            samples_of(d.header.color) >= 3,
            transfer_of(d.chunks),
            primaries_of(d.chunks),
            d.header.depth == 16,
            marks,
        );
        lemma_same_canvas_codes(canvas_of(d, white), canvas_of(d, white), a, b, marks, marks);
        assert(are_image_codes(curve, d, b, white, marks));
        assert(are_blended(curve, d, b, data));
    }
}

/// The composite of a PNG file does not depend on the colours of mask pixels that cannot be seen,
/// nor on what stands behind the mask's pixels.
pub proof fn law_invisible_colors_do_not_matter<
    F: Fn([u8; 3], PngTransfer, PngPrimaries, bool) -> [u32; 3],
>(curve: F, original: Seq<u8>, a: Overlay, b: Overlay, r: Result<Seq<u8>, Seq<char>>)
    requires
        same_marks(a, b),
    ensures
        is_composite(curve, original, a, r) <==> is_composite(curve, original, b, r),
{
    lemma_same_marks_flip(a, b);
    if is_composite(curve, original, a, r) {
        lemma_composite_for_same(curve, original, a, b, r);
    }
    if is_composite(curve, original, b, r) {
        lemma_composite_for_same(curve, original, b, a, r);
    }
}

/// Mask colours have one conversion each.
pub open spec fn has_one_curve<F: Fn([u8; 3], PngTransfer, PngPrimaries, bool) -> [u32; 3]>(
    curve: F,
) -> bool {
    forall|px: [u8; 3], t: PngTransfer, p: PngPrimaries, s: bool, v: [u32; 3], w: [u32; 3]|
        #[trigger] call_ensures(curve, (px, t, p, s), v) && #[trigger] call_ensures(
            curve,
            (px, t, p, s),
            w,
        ) ==> v == w
}

/// Base pixels have one conversion each.
pub open spec fn has_one_light<G: Fn([u8; 3], [u8; 4], usize, usize) -> [u16; 3]>(
    light: G,
) -> bool {
    forall|px: [u8; 3], g: [u8; 4], x: usize, y: usize, v: [u16; 3], w: [u16; 3]| #[trigger]
        call_ensures(light, (px, g, x, y), v) && #[trigger] call_ensures(
            light,
            (px, g, x, y),
            w,
        ) ==> v == w
}

/// Columns and rows of the base have one place in the gain map each.
pub open spec fn has_one_place<H: Fn(usize, usize, usize) -> usize>(place: H) -> bool {
    forall|at: usize, size: usize, photo: usize, v: usize, w: usize| #[trigger]
        call_ensures(place, (at, size, photo), v) && #[trigger] call_ensures(
            place,
            (at, size, photo),
            w,
        ) ==> v == w
}

/// A colour has one triple of codes.
proof fn lemma_one_code<F: Fn([u8; 3], PngTransfer, PngPrimaries, bool) -> [u32; 3]>(
    curve: F,
    px: [u8; 3],
    transfer: PngTransfer,
    primaries: PngPrimaries,
    sixteen: bool,
    a: [u32; 3],
    b: [u32; 3],
)
    requires
        has_one_curve(curve),
        are_codes(curve, px, transfer, primaries, sixteen, a),
        are_codes(curve, px, transfer, primaries, sixteen, b),
    ensures
        a@ == b@,
{
    if transfer != PngTransfer::Sdr {
        let v = choose|v: [u32; 3]| #[trigger]
            call_ensures(curve, (px, transfer, primaries, sixteen), v) && are_cut_off(
                v,
                sixteen,
                a,
            );
        let w = choose|v: [u32; 3]| #[trigger]
            call_ensures(curve, (px, transfer, primaries, sixteen), v) && are_cut_off(
                v,
                sixteen,
                b,
            );
        assert(v == w);
        assert(are_cut_off(v, sixteen, a) && are_cut_off(v, sixteen, b));
    }
    assert(a@[0] == b@[0] && a@[1] == b@[1] && a@[2] == b@[2]);
    assert(a@ =~= b@);
}

/// The visible pixels of a mask have one triple of codes each.
proof fn lemma_one_list_of_marks<F: Fn([u8; 3], PngTransfer, PngPrimaries, bool) -> [u32; 3]>(
    curve: F,
    mask: Overlay,
    color: bool,
    transfer: PngTransfer,
    primaries: PngPrimaries,
    sixteen: bool,
    a: Seq<[u32; 3]>,
    b: Seq<[u32; 3]>,
)
    requires
        has_one_curve(curve),
        are_marks(curve, mask, color, transfer, primaries, sixteen, a),
        are_marks(curve, mask, color, transfer, primaries, sixteen, b),
    ensures
        agree_on_marks(mask, a, b),
{
    assert forall|k: int| 0 <= k < mask.width * mask.height && mask.alpha(k) > 0 implies
        #[trigger] a[k]@ == b[k]@ by {
        assert(are_pixel_codes(curve, mask, k, color, transfer, primaries, sixteen, a[k]));
        assert(are_pixel_codes(curve, mask, k, color, transfer, primaries, sixteen, b[k]));
        let p = choose|px: [u8; 3]|
            px@ == mask_color(mask, k, color) && #[trigger] are_codes(
                curve,
                px,
                transfer,
                primaries,
                sixteen,
                a[k],
            );
        let q = choose|px: [u8; 3]|
            px@ == mask_color(mask, k, color) && #[trigger] are_codes(
                curve,
                px,
                transfer,
                primaries,
                sixteen,
                b[k],
            );
        assert(p =~= q);
        lemma_one_code(curve, p, transfer, primaries, sixteen, a[k], b[k]);
    }
}

/// A pixel of the base has one triple of codes.
proof fn lemma_one_pixel_light<
    G: Fn([u8; 3], [u8; 4], usize, usize) -> [u16; 3],
    H: Fn(usize, usize, usize) -> usize,
>(light: G, place: H, base: Picture, gainmap: Picture, i: int, a: Seq<u16>, b: Seq<u16>)
    requires
        has_one_light(light),
        has_one_place(place),
        are_pixel_lights(light, place, base, gainmap, i, a),
        are_pixel_lights(light, place, base, gainmap, i, b),
    ensures
        a == b,
{
    let (x, y) = (i % base.width, i / base.width);
    let (p, g, v) = choose|px: [u8; 3], gains: [u8; 4], v: [u16; 3]| #[trigger]
        call_ensures(light, (px, gains, x as usize, y as usize), v) && px@ == base.pixels.subrange(
            4 * i,
            4 * i + 3,
        ) && are_gains(place, base, gainmap, x, y, gains@) && v@ == a;
    let (q, h, w) = choose|px: [u8; 3], gains: [u8; 4], v: [u16; 3]| #[trigger]
        call_ensures(light, (px, gains, x as usize, y as usize), v) && px@ == base.pixels.subrange(
            4 * i,
            4 * i + 3,
        ) && are_gains(place, base, gainmap, x, y, gains@) && v@ == b;
    assert(p =~= q);
    assert(g@ == h@);
    assert(g =~= h);
    assert(v == w);
}

/// A base and its gain map have one list of codes.
proof fn lemma_one_photo<
    G: Fn([u8; 3], [u8; 4], usize, usize) -> [u16; 3],
    H: Fn(usize, usize, usize) -> usize,
>(light: G, place: H, base: Picture, gainmap: Picture, n: int, a: Seq<u16>, b: Seq<u16>)
    requires
        has_one_light(light),
        has_one_place(place),
        are_lights(light, place, base, gainmap, n, a),
        are_lights(light, place, base, gainmap, n, b),
    ensures
        a == b,
{
    assert forall|s: int| 0 <= s < a.len() implies a[s] == b[s] by {
        let i = s / 3;
        let (p, q) = (a.subrange(3 * i, 3 * i + 3), b.subrange(3 * i, 3 * i + 3));
        lemma_one_pixel_light(light, place, base, gainmap, i, p, q);
        assert(p[s - 3 * i] == a[s] && q[s - 3 * i] == b[s]);
    }
    assert(a =~= b);
}

/// What is composed depends on nothing but the sizes and the bytes that are used: where the
/// conversions give one result each, images that agree there are composed into the same file.
pub proof fn law_used_bytes_decide<
    F: Fn([u8; 3], PngTransfer, PngPrimaries, bool) -> [u32; 3],
    G: Fn([u8; 3], [u8; 4], usize, usize) -> [u16; 3],
    H: Fn(usize, usize, usize) -> usize,
>(
    curve: F,
    light: G,
    place: H,
    base_a: Picture,
    base_b: Picture,
    gains_a: Picture,
    gains_b: Picture,
    mask_a: Overlay,
    mask_b: Overlay,
    r_a: Result<Seq<u8>, Seq<char>>,
    r_b: Result<Seq<u8>, Seq<char>>,
)
    requires
        has_one_curve(curve),
        has_one_light(light),
        has_one_place(place),
        same_colors(base_a, base_b),
        same_gains(gains_a, gains_b),
        same_marks(mask_a, mask_b),
        is_composed(curve, light, place, base_a, gains_a, mask_a, r_a),
        is_composed(curve, light, place, base_b, gains_b, mask_b, r_b),
    ensures
        r_a == r_b,
{
    law_unused_bytes_do_not_matter(
        curve,
        light,
        place,
        base_a,
        base_b,
        gains_a,
        gains_b,
        mask_a,
        mask_b,
        true,
        r_b,
    );
    let (photo_a, white_a, marks_a) = choose|
        photo: Seq<u16>,
        white: [u32; 3],
        marks: Seq<[u32; 3]>,
    | #[trigger]
        are_composed_codes(curve, light, place, base_a, gains_a, mask_a, photo, white, marks) && r_a
            == composed_file(photo, base_a.width, base_a.height, mask_a, white, marks);
    let (photo_b, white_b, marks_b) = choose|
        photo: Seq<u16>,
        white: [u32; 3],
        marks: Seq<[u32; 3]>,
    | #[trigger]
        are_composed_codes(curve, light, place, base_a, gains_a, mask_a, photo, white, marks) && r_b
            == composed_file(photo, base_a.width, base_a.height, mask_a, white, marks);
    let (w, h) = (base_a.width, base_a.height);
    lemma_one_photo(light, place, base_a, gains_a, w * h, photo_a, photo_b);
    lemma_one_code(curve, WHITE, PngTransfer::Pq, PngPrimaries::Bt2020, true, white_a, white_b);
    lemma_one_list_of_marks(
        curve,
        mask_a,
        true,
        PngTransfer::Pq,
        PngPrimaries::Bt2020,
        true,
        marks_a,
        marks_b,
    );
    lemma_same_canvas_codes(
        composed_canvas(photo_a, w, h, white_a),
        composed_canvas(photo_b, w, h, white_b),
        mask_a,
        mask_a,
        marks_a,
        marks_b,
    );
}

/// The composite of a PNG file depends on nothing but the file, the mask's size and place, and the
/// bytes of the mask that are used: where colours have one conversion each, masks that agree there
/// give the same file.
pub proof fn law_used_mask_bytes_decide<
    F: Fn([u8; 3], PngTransfer, PngPrimaries, bool) -> [u32; 3],
>(
    curve: F,
    original: Seq<u8>,
    a: Overlay,
    b: Overlay,
    r_a: Result<Seq<u8>, Seq<char>>,
    r_b: Result<Seq<u8>, Seq<char>>,
)
    requires
        has_one_curve(curve),
        same_marks(a, b),
        is_composite(curve, original, a, r_a),
        is_composite(curve, original, b, r_b),
    ensures
        r_a == r_b,
{
    law_invisible_colors_do_not_matter(curve, original, a, b, r_b);
    if let Ok(d) = decoded(original, a) {
        let data_a = choose|data: Seq<u8>| #[trigger]
            are_blended(curve, d, a, data) && r_a == composed(d, a, data);
        let data_b = choose|data: Seq<u8>| #[trigger]
            are_blended(curve, d, a, data) && r_b == composed(d, a, data);
        let sixteen = d.header.depth == 16;
        let (white_a, marks_a) = choose|white: [u32; 3], marks: Seq<[u32; 3]>| #[trigger]
            are_image_codes(curve, d, a, white, marks) && data_a == code_bytes(
                canvas_of(d, white).codes(a, marks),
                sixteen,
            );
        let (white_b, marks_b) = choose|white: [u32; 3], marks: Seq<[u32; 3]>| #[trigger]
            are_image_codes(curve, d, a, white, marks) && data_b == code_bytes(
                canvas_of(d, white).codes(a, marks),
                sixteen,
            );
        let (transfer, primaries) = (transfer_of(d.chunks), primaries_of(d.chunks));
        lemma_one_code(curve, WHITE, transfer, primaries, sixteen, white_a, white_b);
        lemma_one_list_of_marks(
            curve,
            a,
            samples_of(d.header.color) >= 3,
            transfer,
            primaries,
            sixteen,
            marks_a,
            marks_b,
        );
        lemma_same_canvas_codes(
            canvas_of(d, white_a),
            canvas_of(d, white_b),
            a,
            a,
            marks_a,
            marks_b,
        );
    }
}

} // verus!
