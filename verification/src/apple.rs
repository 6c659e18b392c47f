//! Composing photos with Apple gain maps.

use vstd::prelude::*;

use crate::blend::{blend_mask, canvas_rows, lemma_sample_index, Canvas, Mask, Overlay, Photo};
use crate::bmff::least;
use crate::codec::{bytes_result, encode_png, header_chunk, image_size, png_encoded, trailer_chunk};
use crate::composite::{
    are_idat, assemble_file, assembled_file, lemma_assembled_file, mask_is_complete, overlay,
    passed_on, prefixed, ENCODE, MASK_TOO_SMALL, MASK_TOO_WIDE,
};
use crate::png_file::{
    chunk_views, png_chunks, without_matrix, Chunk, PngChunk, PngPrimaries, PngTransfer,
};
use crate::samples::{code_bytes, codes_fit, max_code, write_codes};
use crate::tags::{ACTL, CICP, FCTL, FDAT, IDAT, IEND, IHDR, PLTE};
use crate::watermark::{are_codes, are_marks, mask_marks, watermark_codes, WHITE};

verus! {

/// A photo without pixels, or with fewer than it should have.
pub const BAD_BASE: &'static str = "bad base image";

/// A gain map without pixels, or with fewer than it should have.
pub const BAD_GAIN_MAP: &'static str = "bad gain map";

/// A headroom that is no number in range.
pub const INVALID_HEADROOM: &'static str = "invalid headroom";

/// cICP data of what is composed: BT.2020 primaries, PQ transfer, RGB, full range.
pub const CICP_PQ: [u8; 4] = [9, 16, 0, 1];

/// A buffer holds an RGBA image of this size, and the image is not empty.
pub open spec fn holds_image(data: Seq<u8>, width: int, height: int) -> bool {
    width > 0 && height > 0 && width * height * 4 <= data.len()
}

/// Whether a buffer holds an RGBA image of this size.
pub fn buffer_holds(data: &[u8], width: usize, height: usize) -> (r: bool)
    ensures
        r == holds_image(data@, width as int, height as int),
{
    if width == 0 || height == 0 {
        return false;
    }
    let pixels: usize = match width.checked_mul(height) {
        Some(n) => n,
        None => {
            assert(data.len() == data@.len());
            return false;
        },
    };
    pixels <= data.len() / 4
}

/// The first channel of each pixel, mapped through `curve`.
pub open spec fn mapped_gains(gainmap: Seq<u8>, n: int, curve: Seq<u8>) -> Seq<u8> {
    Seq::new(n as nat, |i: int| curve[gainmap[4 * i] as int])
}

/// Converts an RGBA gain map into one sample per pixel. `curve` says what each of the 256 gain
/// values becomes; there is none where the headroom is no finite number over 1.
pub fn apple_hdr_iso_gainmap_inner(
    gainmap: &[u8],
    gm_w: usize,
    gm_h: usize,
    curve: Option<&[u8; 256]>,
) -> (r: Result<Vec<u8>, String>)
    ensures
        bytes_result(r) == (if !holds_image(gainmap@, gm_w as int, gm_h as int) {
            Err(BAD_GAIN_MAP@)
        } else {
            match curve {
                Some(curve) => Ok(mapped_gains(gainmap@, gm_w * gm_h, curve@)),
                None => Err(INVALID_HEADROOM@),
            }
        }),
{
    if !buffer_holds(gainmap, gm_w, gm_h) {
        return Err(BAD_GAIN_MAP.to_string());
    }
    let curve: &[u8; 256] = match curve {
        Some(curve) => curve,
        None => return Err(INVALID_HEADROOM.to_string()),
    };
    assert(gainmap.len() == gainmap@.len());
    let n: usize = gm_w * gm_h;
    let mut out: Vec<u8> = Vec::new();
    let mut i: usize = 0;
    while i < n
        invariant
            i <= n,
            4 * n <= gainmap@.len(),
            4 * n <= usize::MAX,
            out@ == mapped_gains(gainmap@, i as int, curve@),
        decreases n - i,
    {
        out.push(curve[gainmap[4 * i] as usize]);
        i += 1;
        assert(out@ =~= mapped_gains(gainmap@, i as int, curve@));
    }
    Ok(out)
}

/// `apple_hdr_iso_gainmap_inner` for callers that own the data.
pub fn apple_hdr_iso_gainmap(
    gainmap: Vec<u8>,
    gm_w: usize,
    gm_h: usize,
    curve: Option<&[u8; 256]>,
) -> (r: Result<Vec<u8>, String>)
    ensures
        bytes_result(r) == (if !holds_image(gainmap@, gm_w as int, gm_h as int) {
            Err(BAD_GAIN_MAP@)
        } else {
            match curve {
                Some(curve) => Ok(mapped_gains(gainmap@, gm_w * gm_h, curve@)),
                None => Err(INVALID_HEADROOM@),
            }
        }),
{
    apple_hdr_iso_gainmap_inner(gainmap.as_slice(), gm_w, gm_h, curve)
}

/// An RGBA image.
pub struct Picture {
    /// Pixels, row by row.
    pub pixels: Seq<u8>,
    /// Pixels per row.
    pub width: int,
    /// Rows.
    pub height: int,
}

/// The image of `width` by `height` pixels.
pub open spec fn picture(pixels: Seq<u8>, width: usize, height: usize) -> Picture {
    Picture { pixels, width: width as int, height: height as int }
}

impl Picture {
    /// The image is not empty, and its pixels are all there.
    pub open spec fn is_complete(self) -> bool {
        holds_image(self.pixels, self.width, self.height)
    }

    /// The first channel at column `x` of row `y`.
    pub open spec fn gain(self, x: int, y: int) -> u8 {
        self.pixels[4 * (y * self.width + x)]
    }
}

/// The place behind `first`, or `first` itself where it is the last of `size` places.
pub open spec fn next_place(first: int, size: int) -> int {
    least(first + 1, size - 1)
}

/// The gains at column `x` of row `y`, right of it, below it, and below right of it.
pub open spec fn gains_from(gainmap: Picture, x: int, y: int) -> Seq<u8> {
    let (right, below) = (next_place(x, gainmap.width), next_place(y, gainmap.height));
    seq![
        gainmap.gain(x, y),
        gainmap.gain(right, y),
        gainmap.gain(x, below),
        gainmap.gain(right, below),
    ]
}

/// The last of `size` places, or `at` where it comes before that.
pub open spec fn place_within(at: int, size: int) -> int {
    least(at, size - 1)
}

/// `gains` are those from the place in the gain map on that `place` gives for column `x` of row `y`
/// of the base; a place behind the last one counts as the last one.
pub open spec fn are_gains<H: Fn(usize, usize, usize) -> usize>(
    place: H,
    base: Picture,
    gainmap: Picture,
    x: int,
    y: int,
    gains: Seq<u8>,
) -> bool {
    exists|gx: usize, gy: usize| #[trigger]
        call_ensures(place, (x as usize, gainmap.width as usize, base.width as usize), gx)
            && #[trigger] call_ensures(
            place,
            (y as usize, gainmap.height as usize, base.height as usize),
            gy,
        ) && gains == gains_from(
            gainmap,
            place_within(gx as int, gainmap.width),
            place_within(gy as int, gainmap.height),
        )
}

/// The three codes `codes` are what `light` gives for pixel `i` of the base with the gains there.
pub open spec fn are_pixel_lights<
    G: Fn([u8; 3], [u8; 4], usize, usize) -> [u16; 3],
    H: Fn(usize, usize, usize) -> usize,
>(light: G, place: H, base: Picture, gainmap: Picture, i: int, codes: Seq<u16>) -> bool {
    let (x, y) = (i % base.width, i / base.width);
    exists|px: [u8; 3], gains: [u8; 4], v: [u16; 3]| #[trigger]
        call_ensures(light, (px, gains, x as usize, y as usize), v) && px@ == base.pixels.subrange(
            4 * i,
            4 * i + 3,
        ) && are_gains(place, base, gainmap, x, y, gains@) && v@ == codes
}

/// `photo` has the codes that `light` gives for the first `n` pixels of the base.
pub open spec fn are_lights<
    G: Fn([u8; 3], [u8; 4], usize, usize) -> [u16; 3],
    H: Fn(usize, usize, usize) -> usize,
>(light: G, place: H, base: Picture, gainmap: Picture, n: int, photo: Seq<u16>) -> bool {
    &&& photo.len() == 3 * n
    &&& forall|i: int|
        0 <= i < n ==> are_pixel_lights(
            light,
            place,
            base,
            gainmap,
            i,
            #[trigger] photo.subrange(3 * i, 3 * i + 3),
        )
}

/// A place in an image has a pixel.
pub(crate) proof fn lemma_pixel_index(p: Picture, x: int, y: int)
    requires
        p.is_complete(),
        0 <= x < p.width,
        0 <= y < p.height,
    ensures
        0 <= y * p.width <= y * p.width + x < p.width * p.height,
        4 * (y * p.width + x) + 3 < p.pixels.len(),
{
    let (w, h) = (p.width, p.height);
    assert(0 <= y * w && y * w + w <= w * h) by (nonlinear_arith)
        requires
            0 <= y < h,
            0 < w,
    ;
}

/// The first channel at column `x` of row `y`.
fn gain_at(gainmap: &[u8], width: usize, height: usize, x: usize, y: usize) -> (r: u8)
    requires
        picture(gainmap@, width, height).is_complete(),
        x < width,
        y < height,
    ensures
        r == picture(gainmap@, width, height).gain(x as int, y as int),
{
    assert(gainmap.len() == gainmap@.len());
    proof {
        lemma_pixel_index(picture(gainmap@, width, height), x as int, y as int);
    }
    gainmap[4 * (y * width + x)]
}

/// The last of `size` places, or `at` where it comes before that.
fn cut_place(at: usize, size: usize) -> (r: usize)
    requires
        0 < size,
    ensures
        r == place_within(at as int, size as int),
        r < size,
{
    if at < size {
        at
    } else {
        size - 1
    }
}

/// The place behind `first`, or `first` itself where it is the last one.
fn place_behind(first: usize, size: usize) -> (r: usize)
    requires
        first < size,
    ensures
        r == next_place(first as int, size as int),
        r < size,
{
    if first + 1 < size {
        first + 1
    } else {
        size - 1
    }
}

/// The gains at column `x` of row `y`, right of it, below it, and below right of it.
pub fn four_gains(gainmap: &[u8], gm_w: usize, gm_h: usize, x: usize, y: usize) -> (r: [u8; 4])
    requires
        picture(gainmap@, gm_w, gm_h).is_complete(),
        x < gm_w,
        y < gm_h,
    ensures
        r@ == gains_from(picture(gainmap@, gm_w, gm_h), x as int, y as int),
{
    let right: usize = place_behind(x, gm_w);
    let below: usize = place_behind(y, gm_h);
    let r: [u8; 4] = [
        gain_at(gainmap, gm_w, gm_h, x, y),
        gain_at(gainmap, gm_w, gm_h, right, y),
        gain_at(gainmap, gm_w, gm_h, x, below),
        gain_at(gainmap, gm_w, gm_h, right, below),
    ];
    assert(r@ =~= gains_from(picture(gainmap@, gm_w, gm_h), x as int, y as int));
    r
}

/// The three codes that `light` gives for a pixel of the base.
fn pixel_codes<
    G: Fn([u8; 3], [u8; 4], usize, usize) -> [u16; 3],
    H: Fn(usize, usize, usize) -> usize,
>(
    base: &[u8],
    base_w: usize,
    base_h: usize,
    gainmap: &[u8],
    gm_w: usize,
    gm_h: usize,
    light: &G,
    place: &H,
    x: usize,
    y: usize,
) -> (v: [u16; 3])
    requires
        picture(base@, base_w, base_h).is_complete(),
        picture(gainmap@, gm_w, gm_h).is_complete(),
        x < base_w,
        y < base_h,
        forall|px: [u8; 3], g: [u8; 4], x: usize, y: usize| #[trigger]
            call_requires(*light, (px, g, x, y)),
        forall|at: usize, size: usize, photo: usize| #[trigger]
            call_requires(*place, (at, size, photo)),
    ensures
        are_pixel_lights(
            *light,
            *place,
            picture(base@, base_w, base_h),
            picture(gainmap@, gm_w, gm_h),
            y * base_w + x,
            v@,
        ),
{
    let ghost whole = picture(base@, base_w, base_h);
    assert(base.len() == base@.len());
    proof {
        lemma_pixel_index(whole, x as int, y as int);
        lemma_sample_index(base_w as int, 1, x as int, y as int, 0);
    }
    let i: usize = y * base_w + x;
    assert(i * 1 + 0 == i && i / 1 == i);
    let px: [u8; 3] = [base[4 * i], base[4 * i + 1], base[4 * i + 2]];
    assert(px@ =~= base@.subrange(4 * i, 4 * i + 3));
    let gx: usize = place(x, gm_w, base_w);
    let gy: usize = place(y, gm_h, base_h);
    let gains: [u8; 4] = four_gains(
        gainmap,
        gm_w,
        gm_h,
        cut_place(gx, gm_w),
        cut_place(gy, gm_h),
    );
    let ghost map = picture(gainmap@, gm_w, gm_h);
    assert(call_ensures(*place, (x, map.width as usize, whole.width as usize), gx));
    assert(call_ensures(*place, (y, map.height as usize, whole.height as usize), gy));
    assert(are_gains(*place, whole, map, x as int, y as int, gains@));
    let v: [u16; 3] = light(px, gains, x, y);
    let ghost (column, row) = (i as int % whole.width, i as int / whole.width);
    assert(column == x && row == y);
    assert(call_ensures(*light, (px, gains, column as usize, row as usize), v));
    assert(are_gains(*place, whole, map, column, row, gains@));
    assert(are_pixel_lights(*light, *place, whole, map, i as int, v@));
    v
}

/// The codes of the composed photo. `place` gives the first column of the gain map that counts for
/// a column of the base, and the first row for a row; `light` converts a base pixel at a column and
/// a row with the four gains from there on.
pub fn photo_codes<
    G: Fn([u8; 3], [u8; 4], usize, usize) -> [u16; 3],
    H: Fn(usize, usize, usize) -> usize,
>(
    base: &[u8],
    base_w: usize,
    base_h: usize,
    gainmap: &[u8],
    gm_w: usize,
    gm_h: usize,
    light: &G,
    place: &H,
) -> (photo: Vec<u16>)
    requires
        picture(base@, base_w, base_h).is_complete(),
        picture(gainmap@, gm_w, gm_h).is_complete(),
        forall|px: [u8; 3], g: [u8; 4], x: usize, y: usize| #[trigger]
            call_requires(*light, (px, g, x, y)),
        forall|at: usize, size: usize, photo: usize| #[trigger]
            call_requires(*place, (at, size, photo)),
    ensures
        are_lights(
            *light,
            *place,
            picture(base@, base_w, base_h),
            picture(gainmap@, gm_w, gm_h),
            base_w * base_h,
            photo@,
        ),
{
    let ghost whole = picture(base@, base_w, base_h);
    let ghost map = picture(gainmap@, gm_w, gm_h);
    let mut photo: Vec<u16> = Vec::new();
    let mut y: usize = 0;
    assert(0 * base_w == 0);
    while y < base_h
        invariant
            y <= base_h,
            whole == picture(base@, base_w, base_h),
            map == picture(gainmap@, gm_w, gm_h),
            whole.is_complete(),
            map.is_complete(),
            forall|px: [u8; 3], g: [u8; 4], x: usize, y: usize| #[trigger]
                call_requires(*light, (px, g, x, y)),
            forall|at: usize, size: usize, photo: usize| #[trigger]
                call_requires(*place, (at, size, photo)),
            are_lights(*light, *place, whole, map, y * base_w, photo@),
        decreases base_h - y,
    {
        let mut x: usize = 0;
        while x < base_w
            invariant
                x <= base_w,
                y < base_h,
                whole == picture(base@, base_w, base_h),
                map == picture(gainmap@, gm_w, gm_h),
                whole.is_complete(),
                map.is_complete(),
                forall|px: [u8; 3], g: [u8; 4], x: usize, y: usize| #[trigger]
                    call_requires(*light, (px, g, x, y)),
                forall|at: usize, size: usize, photo: usize| #[trigger]
                    call_requires(*place, (at, size, photo)),
                are_lights(*light, *place, whole, map, y * base_w + x, photo@),
            decreases base_w - x,
        {
            let v: [u16; 3] = pixel_codes(
                base,
                base_w,
                base_h,
                gainmap,
                gm_w,
                gm_h,
                light,
                place,
                x,
                y,
            );
            let ghost before = photo@;
            let ghost i = y * base_w + x;
            photo.push(v[0]);
            photo.push(v[1]);
            photo.push(v[2]);
            proof {
                assert(photo@.subrange(3 * i, 3 * i + 3) =~= v@);
                assert forall|j: int| 0 <= j < i + 1 implies are_pixel_lights(
                    *light,
                    *place,
                    whole,
                    map,
                    j,
                    #[trigger] photo@.subrange(3 * j, 3 * j + 3),
                ) by {
                    if j < i {
                        assert(photo@.subrange(3 * j, 3 * j + 3) =~= before.subrange(
                            3 * j,
                            3 * j + 3,
                        ));
                    }
                }
            }
            x += 1;
        }
        assert(y * base_w + base_w == (y + 1) * base_w) by (nonlinear_arith);
        y += 1;
    }
    assert(base_h * base_w == base_w * base_h) by (nonlinear_arith);
    photo
}

/// Why nothing can be composed, if so.
pub open spec fn compose_error(
    base: Picture,
    gainmap: Picture,
    headroom_ok: bool,
    mask: Overlay,
) -> Option<Seq<char>> {
    if !base.is_complete() {
        Some(BAD_BASE@)
    } else if !gainmap.is_complete() {
        Some(BAD_GAIN_MAP@)
    } else if !mask.is_complete() {
        Some(MASK_TOO_SMALL@)
    } else if mask.left + mask.width > base.width {
        Some(MASK_TOO_WIDE@)
    } else if !headroom_ok {
        Some(INVALID_HEADROOM@)
    } else {
        None
    }
}

/// `photo`, `white` and `marks` are the codes of the photo, of the reference white and of the
/// mask's pixels in a 16-bit BT.2020 PQ image.
pub open spec fn are_composed_codes<
    F: Fn([u8; 3], PngTransfer, PngPrimaries, bool) -> [u32; 3],
    G: Fn([u8; 3], [u8; 4], usize, usize) -> [u16; 3],
    H: Fn(usize, usize, usize) -> usize,
>(
    curve: F,
    light: G,
    place: H,
    base: Picture,
    gainmap: Picture,
    mask: Overlay,
    photo: Seq<u16>,
    white: [u32; 3],
    marks: Seq<[u32; 3]>,
) -> bool {
    &&& are_lights(light, place, base, gainmap, base.width * base.height, photo)
    &&& are_codes(curve, WHITE, PngTransfer::Pq, PngPrimaries::Bt2020, true, white)
    &&& forall|c: int| 0 <= c < 3 ==> (#[trigger] white@[c]) <= max_code(true)
    &&& are_marks(curve, mask, true, PngTransfer::Pq, PngPrimaries::Bt2020, true, marks)
}

/// The canvas of a composed photo.
pub open spec fn composed_canvas(photo: Seq<u16>, base_w: int, base_h: int, white: [u32; 3]) -> Canvas {
    Canvas { photo, width: base_w, height: base_h, samples: 3, sixteen: true, white }
}

/// The colour code points of what is composed.
pub open spec fn cicp_chunk() -> Chunk {
    Chunk { typ: CICP@, data: CICP_PQ@ }
}

/// The chunks of the composed file but for its image data and trailer: a header for `rows` rows
/// and the colour code points. Sizes that their fields cannot hold are taken modulo 2^32.
pub open spec fn composed_head(base_w: int, rows: int) -> Seq<Chunk> {
    seq![
        header_chunk(
            (base_w % 0x1_0000_0000) as u32,
            (rows % 0x1_0000_0000) as u32,
            2,
            16,
        ),
        cicp_chunk(),
    ]
}

/// What the encoder gives for the canvas, as 16-bit RGB.
pub open spec fn encoded_canvas(
    photo: Seq<u16>,
    base_w: int,
    base_h: int,
    mask: Overlay,
    white: [u32; 3],
    marks: Seq<[u32; 3]>,
) -> Result<Seq<u8>, Seq<char>> {
    let canvas = composed_canvas(photo, base_w, base_h, white);
    png_encoded(
        (base_w % 0x1_0000_0000) as u32,
        (canvas.rows(mask) % 0x1_0000_0000) as u32,
        2,
        16,
        code_bytes(canvas.codes(mask, marks), true),
    )
}

/// The composed file: the encoded canvas, with the colour code points.
pub open spec fn composed_file(
    photo: Seq<u16>,
    base_w: int,
    base_h: int,
    mask: Overlay,
    white: [u32; 3],
    marks: Seq<[u32; 3]>,
) -> Result<Seq<u8>, Seq<char>> {
    match encoded_canvas(photo, base_w, base_h, mask, white, marks) {
        Err(e) => Err(ENCODE@ + e),
        Ok(encoded) => assembled_file(seq![cicp_chunk()], encoded),
    }
}

/// `r` is what composing complete images gives: the file for codes that `light` and `curve` give. A
/// file comes out whenever the encoder succeeds.
pub open spec fn is_composed<
    F: Fn([u8; 3], PngTransfer, PngPrimaries, bool) -> [u32; 3],
    G: Fn([u8; 3], [u8; 4], usize, usize) -> [u16; 3],
    H: Fn(usize, usize, usize) -> usize,
>(
    curve: F,
    light: G,
    place: H,
    base: Picture,
    gainmap: Picture,
    mask: Overlay,
    r: Result<Seq<u8>, Seq<char>>,
) -> bool {
    exists|photo: Seq<u16>, white: [u32; 3], marks: Seq<[u32; 3]>| #[trigger]
        are_composed_codes(curve, light, place, base, gainmap, mask, photo, white, marks) && r
            == composed_file(photo, base.width, base.height, mask, white, marks) && (encoded_canvas(
            photo,
            base.width,
            base.height,
            mask,
            white,
            marks,
        ) is Ok <==> r is Ok)
}

/// `file` can be read, and its chunks are a header for the canvas, the colour code points, image
/// data, and a trailer.
pub open spec fn is_composed_file(file: Seq<u8>, base_w: int, base_h: int, mask: Overlay) -> bool {
    exists|data: Seq<Chunk>| #[trigger]
        are_idat(data) && png_chunks(file) == Ok::<Seq<Chunk>, Seq<char>>(
            composed_head(base_w, mask.rows_with(base_h)) + data + seq![trailer_chunk()],
        )
}

/// The bytes of a composed canvas suffice for an image of its size.
proof fn lemma_composed_size(canvas: Canvas, mask: Overlay, marks: Seq<[u32; 3]>)
    requires
        canvas.is_complete(),
        canvas.samples == 3,
    ensures
        image_size(canvas.width % 0x1_0000_0000, canvas.rows(mask) % 0x1_0000_0000, 2, 16)
            <= code_bytes(canvas.codes(mask, marks), true).len(),
{
    let (w, rows) = (canvas.width, canvas.rows(mask));
    let (low_w, low) = (w % 0x1_0000_0000, rows % 0x1_0000_0000);
    assert(0 <= rows * w * 3) by (nonlinear_arith)
        requires
            0 <= w,
            0 <= rows,
    ;
    assert(low_w * low <= rows * w) by (nonlinear_arith)
        requires
            0 <= low <= rows,
            0 <= low_w <= w,
    ;
    assert(low_w * low * (3 * 2) <= rows * w * 3 * 2) by (nonlinear_arith)
        requires
            low_w * low <= rows * w,
    ;
}

/// Composes a photo (RGBA, Display P3) and its gain map (RGBA) into a 16-bit PQ PNG file with
/// BT.2020 primaries, and blends the watermark into it. A mask that reaches below the photo extends
/// it with the reference white. `place` gives the first column of the gain map that counts for a
/// column of the base, and the first row for a row. `light` converts a base pixel at a column and a
/// row with the four gains from there on; there is none where the headroom is no finite number of
/// at least 1. `curve` converts mask colours.
pub fn apple_hdr_compose_inner<
    F: Fn([u8; 3], PngTransfer, PngPrimaries, bool) -> [u32; 3],
    G: Fn([u8; 3], [u8; 4], usize, usize) -> [u16; 3],
    H: Fn(usize, usize, usize) -> usize,
>(
    base: &[u8],
    base_w: usize,
    base_h: usize,
    gainmap: &[u8],
    gm_w: usize,
    gm_h: usize,
    light: Option<&G>,
    place: &H,
    mask: &[u8],
    mask_w: usize,
    mask_h: usize,
    off_x: usize,
    off_y: usize,
    curve: &F,
) -> (r: Result<Vec<u8>, String>)
    requires
        forall|px: [u8; 3], t: PngTransfer, p: PngPrimaries, s: bool| #[trigger]
            call_requires(*curve, (px, t, p, s)),
        light matches Some(l) ==> forall|px: [u8; 3], g: [u8; 4], x: usize, y: usize| #[trigger]
            call_requires(*l, (px, g, x, y)),
        forall|at: usize, size: usize, photo: usize| #[trigger]
            call_requires(*place, (at, size, photo)),
    ensures
        match compose_error(
            picture(base@, base_w, base_h),
            picture(gainmap@, gm_w, gm_h),
            light is Some,
            overlay(mask@, mask_w, mask_h, off_x, off_y),
        ) {
            Some(e) => bytes_result(r) == Err::<Seq<u8>, Seq<char>>(e),
            None => is_composed(
                *curve,
                *(light->0),
                *place,
                picture(base@, base_w, base_h),
                picture(gainmap@, gm_w, gm_h),
                overlay(mask@, mask_w, mask_h, off_x, off_y),
                bytes_result(r),
            ),
        },
        r matches Ok(file) ==> is_composed_file(
            file@,
            base_w as int,
            base_h as int,
            overlay(mask@, mask_w, mask_h, off_x, off_y),
        ),
{
    let mask: Mask = Mask {
        pixels: mask,
        width: mask_w,
        height: mask_h,
        left: off_x,
        top: off_y,
    };
    if !buffer_holds(base, base_w, base_h) {
        return Err(BAD_BASE.to_string());
    }
    if !buffer_holds(gainmap, gm_w, gm_h) {
        return Err(BAD_GAIN_MAP.to_string());
    }
    if !mask_is_complete(&mask) {
        return Err(MASK_TOO_SMALL.to_string());
    }
    if off_x as u128 + mask_w as u128 > base_w as u128 {
        return Err(MASK_TOO_WIDE.to_string());
    }
    let light: &G = match light {
        Some(light) => light,
        None => return Err(INVALID_HEADROOM.to_string()),
    };
    let codes: Vec<u16> = photo_codes(
        base,
        base_w,
        base_h,
        gainmap,
        gm_w,
        gm_h,
        light,
        place,
    );
    let white: [u32; 3] = watermark_codes(
        WHITE,
        PngTransfer::Pq,
        PngPrimaries::Bt2020,
        true,
        curve,
    );
    let marks: Vec<[u32; 3]> = mask_marks(
        &mask,
        true,
        PngTransfer::Pq,
        PngPrimaries::Bt2020,
        true,
        curve,
    );
    assert(are_composed_codes(
        *curve,
        *light,
        *place,
        picture(base@, base_w, base_h),
        picture(gainmap@, gm_w, gm_h),
        mask@,
        codes@,
        white,
        marks@,
    ));
    let photo: Photo = Photo {
        codes: codes.as_slice(),
        width: base_w,
        height: base_h,
        samples: 3,
        sixteen: true,
        white,
    };
    let ghost canvas = composed_canvas(codes@, base_w as int, base_h as int, white);
    assert(photo@ == canvas);
    assert(codes_fit(codes@, true));
    assert(canvas.photo.len() == canvas.width * canvas.height * canvas.samples) by {
        assert(base_w * base_h * 3 == 3 * (base_w * base_h));
    }
    let blended: Vec<u16> = blend_mask(&photo, &mask, marks.as_slice());
    let data: Vec<u8> = write_codes(blended.as_slice(), true);
    let rows: u128 = canvas_rows(base_h, &mask);
    let width: u32 = (base_w as u64 % 0x1_0000_0000) as u32;
    let height: u32 = (rows % 0x1_0000_0000) as u32;
    proof {
        lemma_composed_size(canvas, mask@, marks@);
    }
    let encoded: Vec<u8> = match encode_png(width, height, 2, 16, data.as_slice()) {
        Ok(encoded) => encoded,
        Err(e) => return Err(prefixed(ENCODE, e)),
    };
    let cicp: PngChunk = PngChunk { typ: CICP, data: &CICP_PQ };
    let extra: [PngChunk; 1] = [cicp];
    proof {
        let header = header_chunk(width, height, 2, 16);
        assert(chunk_views(extra@) =~= seq![cicp_chunk()]);
        lemma_assembled_file(seq![cicp_chunk()], encoded@, width, height, 2, 16);
        lemma_cicp_is_passed_on();
        assert(seq![header] + seq![cicp_chunk()] =~= composed_head(base_w as int, rows as int));
    }
    assemble_file(&extra, encoded.as_slice())
}

/// The colour code points are passed on as they are.
proof fn lemma_cicp_is_passed_on()
    ensures
        passed_on(seq![cicp_chunk()], false) == seq![cicp_chunk()],
{
    let chunks = seq![cicp_chunk()];
    reveal_with_fuel(passed_on, 2);
    assert(CICP@[0] == 0x63);
    assert(IHDR@[0] == 0x49 && PLTE@[0] == 0x50 && IDAT@[0] == 0x49 && IEND@[0] == 0x49);
    assert(ACTL@[0] == 0x61 && FCTL@[0] == 0x66 && FDAT@[0] == 0x66);
    assert(chunks.last() == cicp_chunk());
    assert(without_matrix(cicp_chunk()) == cicp_chunk());
    assert(passed_on(chunks, false) =~= chunks);
}

/// `apple_hdr_compose_inner` for callers that own the data and have 32-bit sizes.
pub fn apple_hdr_compose_png<
    F: Fn([u8; 3], PngTransfer, PngPrimaries, bool) -> [u32; 3],
    G: Fn([u8; 3], [u8; 4], usize, usize) -> [u16; 3],
    H: Fn(usize, usize, usize) -> usize,
>(
    base: Vec<u8>,
    base_w: u32,
    base_h: u32,
    gainmap: Vec<u8>,
    gm_w: u32,
    gm_h: u32,
    light: Option<&G>,
    place: &H,
    mask: Vec<u8>,
    mask_w: u32,
    mask_h: u32,
    off_x: u32,
    off_y: u32,
    curve: &F,
) -> (r: Result<Vec<u8>, String>)
    requires
        forall|px: [u8; 3], t: PngTransfer, p: PngPrimaries, s: bool| #[trigger]
            call_requires(*curve, (px, t, p, s)),
        light matches Some(l) ==> forall|px: [u8; 3], g: [u8; 4], x: usize, y: usize| #[trigger]
            call_requires(*l, (px, g, x, y)),
        forall|at: usize, size: usize, photo: usize| #[trigger]
            call_requires(*place, (at, size, photo)),
    ensures
        match compose_error(
            picture(base@, base_w as usize, base_h as usize),
            picture(gainmap@, gm_w as usize, gm_h as usize),
            light is Some,
            overlay(mask@, mask_w as usize, mask_h as usize, off_x as usize, off_y as usize),
        ) {
            Some(e) => bytes_result(r) == Err::<Seq<u8>, Seq<char>>(e),
            None => is_composed(
                *curve,
                *(light->0),
                *place,
                picture(base@, base_w as usize, base_h as usize),
                picture(gainmap@, gm_w as usize, gm_h as usize),
                overlay(mask@, mask_w as usize, mask_h as usize, off_x as usize, off_y as usize),
                bytes_result(r),
            ),
        },
        r matches Ok(file) ==> is_composed_file(
            file@,
            base_w as int,
            base_h as int,
            overlay(mask@, mask_w as usize, mask_h as usize, off_x as usize, off_y as usize),
        ),
{
    apple_hdr_compose_inner(
        base.as_slice(),
        base_w as usize,
        base_h as usize,
        gainmap.as_slice(),
        gm_w as usize,
        gm_h as usize,
        light,
        place,
        mask.as_slice(),
        mask_w as usize,
        mask_h as usize,
        off_x as usize,
        off_y as usize,
        curve,
    )
}

} // verus!
