//! Blending a watermark into an image, sample by sample.

use vstd::prelude::*;

use crate::samples::max_code;

verus! {

/// A watermark: straight RGBA pixels, 8 bits each, and where they go.
pub struct Mask<'a> {
    /// Pixels, row by row.
    pub pixels: &'a [u8],
    /// Pixels per row.
    pub width: usize,
    /// Rows.
    pub height: usize,
    /// Column of the image that the first column covers.
    pub left: usize,
    /// Row of the image that the first row covers.
    pub top: usize,
}

/// What a `Mask` stands for.
pub struct Overlay {
    pub pixels: Seq<u8>,
    pub width: int,
    pub height: int,
    pub left: int,
    pub top: int,
}

impl<'a> View for Mask<'a> {
    type V = Overlay;

    open spec fn view(&self) -> Overlay {
        Overlay {
            pixels: self.pixels@,
            width: self.width as int,
            height: self.height as int,
            left: self.left as int,
            top: self.top as int,
        }
    }
}

impl Overlay {
    /// The pixels are all there.
    pub open spec fn is_complete(self) -> bool {
        self.width * self.height * 4 <= self.pixels.len()
    }

    /// Opacity of pixel `k`.
    pub open spec fn alpha(self, k: int) -> int {
        self.pixels[4 * k + 3] as int
    }

    /// Rows of a canvas for a photo of `height` rows: those of the photo, or more where the
    /// overlay reaches below it.
    pub open spec fn rows_with(self, height: int) -> int {
        if self.top + self.height > height {
            self.top + self.height
        } else {
            height
        }
    }

    /// The overlay covers column `x` of row `y`.
    pub open spec fn covers(self, x: int, y: int) -> bool {
        self.left <= x < self.left + self.width && self.top <= y < self.top + self.height
    }

    /// The pixel that covers column `x` of row `y`.
    pub open spec fn pixel_over(self, x: int, y: int) -> int {
        (y - self.top) * self.width + (x - self.left)
    }
}

/// The code of an 8-bit mask value.
pub open spec fn straight(v: u8, sixteen: bool) -> int {
    if sixteen {
        v * 257
    } else {
        v as int
    }
}

/// The code of an 8-bit mask value.
pub fn straight_code(mask8: u8, sixteen: bool) -> (r: u32)
    ensures
        r == straight(mask8, sixteen),
        r <= max_code(sixteen),
{
    if sixteen {
        mask8 as u32 * 257
    } else {
        mask8 as u32
    }
}

/// A code under a watermark code of opacity `alpha`, rounded to the nearest code.
pub open spec fn blended(under: int, mark: int, alpha: int) -> int {
    (under * (255 - alpha) + mark * alpha + 127) / 255
}

/// Sample `c` of a pixel is its opacity: the last one of two or four.
pub open spec fn is_opacity(c: int, samples: int) -> bool {
    (samples == 2 || samples == 4) && c == samples - 1
}

/// What a canvas is made of.
pub struct Canvas {
    /// Codes of the photo, row by row.
    pub photo: Seq<u16>,
    /// Columns.
    pub width: int,
    /// Rows of the photo.
    pub height: int,
    /// Samples per pixel.
    pub samples: int,
    /// 16-bit samples.
    pub sixteen: bool,
    /// Codes of the reference white.
    pub white: [u32; 3],
}

impl Canvas {
    /// The code below the photo: the reference white, opaque.
    pub open spec fn fill(self, c: int) -> int {
        if is_opacity(c, self.samples) {
            max_code(self.sixteen)
        } else {
            self.white@[if c < 2 {
                c
            } else {
                2
            }] as int
        }
    }

    /// The photo has as many codes as it has samples.
    pub open spec fn is_complete(self) -> bool {
        &&& self.photo.len() == self.width * self.height * self.samples
        &&& self.width > 0 && self.height >= 0 && 1 <= self.samples <= 4
        &&& crate::samples::codes_fit(self.photo, self.sixteen)
        &&& forall|c: int| 0 <= c < 3 ==> (#[trigger] self.white@[c]) <= max_code(self.sixteen)
    }

    /// Rows of the canvas.
    pub open spec fn rows(self, mask: Overlay) -> int {
        mask.rows_with(self.height)
    }

    /// Code number `s` before the watermark.
    pub open spec fn under(self, s: int) -> int {
        if s < self.photo.len() {
            self.photo[s] as int
        } else {
            self.fill(s % self.samples)
        }
    }

    /// Code number `s` under the watermark, whose pixels have the codes `marks`.
    pub open spec fn over(self, mask: Overlay, marks: Seq<[u32; 3]>, s: int) -> int {
        let c = s % self.samples;
        let x = (s / self.samples) % self.width;
        let y = (s / self.samples) / self.width;
        let k = mask.pixel_over(x, y);
        if mask.covers(x, y) && mask.alpha(k) > 0 {
            blended(
                self.under(s),
                mark_code(marks, k, c, self.samples, self.sixteen),
                mask.alpha(k),
            )
        } else {
            self.under(s)
        }
    }

    /// The codes of the whole canvas.
    pub open spec fn codes(self, mask: Overlay, marks: Seq<[u32; 3]>) -> Seq<u16> {
        Seq::new(
            (self.rows(mask) * self.width * self.samples) as nat,
            |s: int| self.over(mask, marks, s) as u16,
        )
    }
}

/// The code of sample `c` of mask pixel `k`: the pixel's own code for a colour, and full opacity
/// for the opacity, which blending weighs by the pixel's alpha.
pub open spec fn mark_code(
    marks: Seq<[u32; 3]>,
    k: int,
    c: int,
    samples: int,
    sixteen: bool,
) -> int {
    if is_opacity(c, samples) {
        max_code(sixteen)
    } else {
        marks[k]@[if c < 2 {
            c
        } else {
            2
        }] as int
    }
}

/// There is a code triple for each mask pixel, and it fits the sample size.
pub open spec fn marks_fit(mask: Overlay, marks: Seq<[u32; 3]>, sixteen: bool) -> bool {
    &&& marks.len() == mask.width * mask.height
    &&& forall|k: int, c: int|
        0 <= k < marks.len() && 0 <= c < 3 ==> (#[trigger] marks[k]@[c]) <= max_code(sixteen)
}

/// A blended code lies between the two that it is made of.
pub proof fn lemma_blended(under: int, mark: int, alpha: int, max: int)
    requires
        0 <= under <= max,
        0 <= mark <= max,
        0 <= alpha <= 255,
    ensures
        0 <= blended(under, mark, alpha) <= max,
        alpha == 0 ==> blended(under, mark, alpha) == under,
        alpha == 255 ==> blended(under, mark, alpha) == mark,
{
    assert(0 <= under * (255 - alpha) <= max * (255 - alpha)) by (nonlinear_arith)
        requires
            0 <= under <= max,
            0 <= alpha <= 255,
    ;
    assert(0 <= mark * alpha <= max * alpha) by (nonlinear_arith)
        requires
            0 <= mark <= max,
            0 <= alpha <= 255,
    ;
    assert(max * (255 - alpha) + max * alpha == max * 255) by (nonlinear_arith);
    if alpha == 0 {
        assert(under * (255 - alpha) == under * 255 && mark * alpha == 0) by (nonlinear_arith)
            requires
                alpha == 0,
        ;
    }
    if alpha == 255 {
        assert(under * (255 - alpha) == 0 && mark * alpha == mark * 255) by (nonlinear_arith)
            requires
                alpha == 255,
        ;
    }
}

/// Column, row and channel of sample number `s`.
pub proof fn lemma_sample_index(width: int, samples: int, x: int, y: int, c: int)
    requires
        0 <= x < width,
        0 <= y,
        0 <= c < samples,
    ensures
        ({
            let s = (y * width + x) * samples + c;
            &&& s % samples == c
            &&& (s / samples) % width == x
            &&& (s / samples) / width == y
        }),
{
    let p = y * width + x;
    let s = p * samples + c;
    vstd::arithmetic::div_mod::lemma_fundamental_div_mod_converse(s, samples, p, c);
    vstd::arithmetic::div_mod::lemma_fundamental_div_mod_converse(p, width, y, x);
}

/// A row of the photo lies in the photo, and a row below it does not.
proof fn lemma_photo_end(width: int, height: int, samples: int, x: int, y: int, c: int)
    requires
        0 <= x < width,
        0 <= y,
        0 <= height,
        0 <= c < samples,
    ensures
        y < height <==> (y * width + x) * samples + c < width * height * samples,
{
    if y < height {
        assert((y * width + x) * samples + c < width * height * samples) by (nonlinear_arith)
            requires
                0 <= x < width,
                0 <= y < height,
                0 <= c < samples,
        ;
    } else {
        assert((y * width + x) * samples + c >= width * height * samples) by (nonlinear_arith)
            requires
                0 <= x < width,
                0 <= height <= y,
                0 <= c < samples,
        ;
    }
}

/// The mask pixel over a covered place is one of the mask's pixels.
pub(crate) proof fn lemma_mask_index(mask: Overlay, x: int, y: int)
    requires
        mask.covers(x, y),
    ensures
        0 <= mask.pixel_over(x, y) < mask.width * mask.height,
        0 <= (y - mask.top) * mask.width <= mask.pixel_over(x, y),
{
    assert(0 <= (y - mask.top) * mask.width <= (mask.height - 1) * mask.width) by (nonlinear_arith)
        requires
            mask.top <= y < mask.top + mask.height,
            0 < mask.width,
    ;
    assert((mask.height - 1) * mask.width == mask.width * mask.height - mask.width)
        by (nonlinear_arith);
}

/// A photo to blend a watermark into.
pub struct Photo<'a> {
    /// Codes, row by row.
    pub codes: &'a [u16],
    /// Columns.
    pub width: usize,
    /// Rows.
    pub height: usize,
    /// Samples per pixel.
    pub samples: usize,
    /// 16-bit samples.
    pub sixteen: bool,
    /// Codes of the reference white.
    pub white: [u32; 3],
}

impl<'a> View for Photo<'a> {
    type V = Canvas;

    open spec fn view(&self) -> Canvas {
        Canvas {
            photo: self.codes@,
            width: self.width as int,
            height: self.height as int,
            samples: self.samples as int,
            sixteen: self.sixteen,
            white: self.white,
        }
    }
}

/// Rows of the canvas.
pub fn canvas_rows(height: usize, mask: &Mask) -> (r: u128)
    ensures
        r == mask@.rows_with(height as int),
{
    let bottom: u128 = mask.top as u128 + mask.height as u128;
    if bottom > height as u128 {
        bottom
    } else {
        height as u128
    }
}

/// The code of one sample: column `x`, row `y`, channel `c`, number `s`.
fn code_over(
    photo: &Photo,
    mask: &Mask,
    marks: &[[u32; 3]],
    x: usize,
    y: u128,
    c: usize,
    s: usize,
) -> (r: u16)
    requires
        photo@.is_complete(),
        mask@.is_complete(),
        marks_fit(mask@, marks@, photo.sixteen),
        x < photo.width,
        c < photo.samples,
        s == (y * photo.width + x) * photo.samples + c,
    ensures
        r == photo@.over(mask@, marks@, s as int),
        r <= max_code(photo.sixteen),
{
    proof {
        lemma_sample_index(photo.width as int, photo.samples as int, x as int, y as int, c as int);
    }
    let i: usize = if c < 2 {
        c
    } else {
        2
    };
    let opacity: bool = (photo.samples == 2 || photo.samples == 4) && c == photo.samples - 1;
    let full: u32 = if photo.sixteen {
        65535
    } else {
        255
    };
    let under: u32 = if s < photo.codes.len() {
        assert(photo@.photo[s as int] <= max_code(photo.sixteen));
        photo.codes[s] as u32
    } else if opacity {
        full
    } else {
        assert(photo@.white@[i as int] <= max_code(photo.sixteen));
        photo.white[i]
    };
    if x < mask.left || x - mask.left >= mask.width || y < mask.top as u128 || y - mask.top as u128
        >= mask.height as u128 {
        return under as u16;
    }
    proof {
        lemma_mask_index(mask@, x as int, y as int);
        assert(mask.pixels.len() == mask.pixels@.len());
    }
    let k: usize = (y - mask.top as u128) as usize * mask.width + (x - mask.left);
    let alpha: u32 = mask.pixels[4 * k + 3] as u32;
    if alpha == 0 {
        return under as u16;
    }
    let mark: u32 = if opacity {
        full
    } else {
        assert(marks@[k as int]@[i as int] <= max_code(photo.sixteen));
        marks[k][i]
    };
    proof {
        lemma_blended(under as int, mark as int, alpha as int, max_code(photo.sixteen));
        assert(under * (255 - alpha) <= 65535 * 255) by (nonlinear_arith)
            requires
                0 <= under <= 65535,
                0 <= alpha <= 255,
        ;
        assert(mark * alpha <= 65535 * 255) by (nonlinear_arith)
            requires
                0 <= mark <= 65535,
                0 <= alpha <= 255,
        ;
    }
    ((under * (255 - alpha) + mark * alpha + 127) / 255) as u16
}

/// The codes of the canvas: the photo, below it the reference white as far as the mask reaches, and
/// the watermark over both.
pub fn blend_mask(photo: &Photo, mask: &Mask, marks: &[[u32; 3]]) -> (out: Vec<u16>)
    requires
        photo@.is_complete(),
        mask@.is_complete(),
        marks_fit(mask@, marks@, photo.sixteen),
    ensures
        out@ == photo@.codes(mask@, marks@),
        crate::samples::codes_fit(out@, photo.sixteen),
{
    let ghost canvas = photo@;
    let rows: u128 = canvas_rows(photo.height, mask);
    let mut out: Vec<u16> = Vec::new();
    let mut y: u128 = 0;
    assert(y * photo.width * photo.samples == 0) by (nonlinear_arith)
        requires
            y == 0,
    ;
    while y < rows
        invariant
            canvas == photo@,
            canvas.is_complete(),
            mask@.is_complete(),
            marks_fit(mask@, marks@, photo.sixteen),
            y <= rows,
            out@.len() == y * photo.width * photo.samples,
            forall|s: int|
                0 <= s < out@.len() ==> #[trigger] out@[s] == canvas.over(mask@, marks@, s)
                    && out@[s] <= max_code(photo.sixteen),
        decreases rows - y,
    {
        let mut x: usize = 0;
        assert((y * photo.width + 0) * photo.samples == y * photo.width * photo.samples);
        while x < photo.width
            invariant
                canvas == photo@,
                canvas.is_complete(),
                mask@.is_complete(),
                marks_fit(mask@, marks@, photo.sixteen),
                x <= photo.width,
                out@.len() == (y * photo.width + x) * photo.samples,
                forall|s: int|
                    0 <= s < out@.len() ==> #[trigger] out@[s] == canvas.over(mask@, marks@, s)
                        && out@[s] <= max_code(photo.sixteen),
            decreases photo.width - x,
        {
            let mut c: usize = 0;
            while c < photo.samples
                invariant
                    canvas == photo@,
                    canvas.is_complete(),
                    mask@.is_complete(),
                    marks_fit(mask@, marks@, photo.sixteen),
                    x < photo.width,
                    c <= photo.samples,
                    out@.len() == (y * photo.width + x) * photo.samples + c,
                    forall|s: int|
                        0 <= s < out@.len() ==> #[trigger] out@[s] == canvas.over(mask@, marks@, s)
                            && out@[s] <= max_code(photo.sixteen),
                decreases photo.samples - c,
            {
                let code: u16 = code_over(photo, mask, marks, x, y, c, out.len());
                out.push(code);
                c += 1;
            }
            assert((y * photo.width + x + 1) * photo.samples == (y * photo.width + x)
                * photo.samples + photo.samples) by (nonlinear_arith);
            x += 1;
        }
        assert((y * photo.width + photo.width) * photo.samples == (y + 1) * photo.width
            * photo.samples) by (nonlinear_arith);
        y += 1;
    }
    assert(out@ =~= canvas.codes(mask@, marks@));
    out
}

/// The number of the sample in channel `c` of column `x` of row `y`.
pub open spec fn sample_number(canvas: Canvas, x: int, y: int, c: int) -> int {
    (y * canvas.width + x) * canvas.samples + c
}

/// The place is on the canvas.
pub open spec fn on_canvas(canvas: Canvas, mask: Overlay, x: int, y: int, c: int) -> bool {
    0 <= x < canvas.width && 0 <= y < canvas.rows(mask) && 0 <= c < canvas.samples
}

/// What `Canvas::over` says of a place, without divisions.
pub(crate) proof fn lemma_code_at(canvas: Canvas, mask: Overlay, marks: Seq<[u32; 3]>, x: int, y: int, c: int)
    requires
        canvas.is_complete(),
        mask.is_complete(),
        marks_fit(mask, marks, canvas.sixteen),
        on_canvas(canvas, mask, x, y, c),
    ensures
        ({
            let s = sample_number(canvas, x, y, c);
            let under = if y < canvas.height {
                canvas.photo[s] as int
            } else {
                canvas.fill(c)
            };
            let k = mask.pixel_over(x, y);
            &&& 0 <= s < canvas.codes(mask, marks).len()
            &&& y < canvas.height ==> s < canvas.photo.len()
            &&& canvas.codes(mask, marks)[s] == (if mask.covers(x, y) && mask.alpha(k) > 0 {
                blended(under, mark_code(marks, k, c, canvas.samples, canvas.sixteen), mask.alpha(k))
            } else {
                under
            })
        }),
{
    let s = sample_number(canvas, x, y, c);
    lemma_sample_index(canvas.width, canvas.samples, x, y, c);
    lemma_photo_end(canvas.width, canvas.height, canvas.samples, x, y, c);
    lemma_photo_end(canvas.width, canvas.rows(mask), canvas.samples, x, y, c);
    assert(canvas.width * canvas.rows(mask) * canvas.samples == canvas.rows(mask) * canvas.width
        * canvas.samples) by (nonlinear_arith);
    assert(0 <= s) by (nonlinear_arith)
        requires
            s == (y * canvas.width + x) * canvas.samples + c,
            0 <= x,
            0 <= y,
            0 <= c,
            0 < canvas.width,
            0 < canvas.samples,
    ;
    if y < canvas.height {
        assert(canvas.photo[s] <= max_code(canvas.sixteen));
    } else {
        assert(c < 3 ==> canvas.white@[if c < 2 {
            c
        } else {
            2
        }] <= max_code(canvas.sixteen));
    }
    if mask.covers(x, y) {
        let k = mask.pixel_over(x, y);
        lemma_mask_index(mask, x, y);
        assert(c != 3 ==> marks[k]@[if c < 2 {
            c
        } else {
            2
        }] <= max_code(canvas.sixteen));
        lemma_blended(
            canvas.under(s),
            mark_code(marks, k, c, canvas.samples, canvas.sixteen),
            mask.alpha(k),
            max_code(canvas.sixteen),
        );
    }
}

/// A sample of the photo that no visible mask pixel covers keeps its code.
pub proof fn law_uncovered_photo_is_kept(
    canvas: Canvas,
    mask: Overlay,
    marks: Seq<[u32; 3]>,
    x: int,
    y: int,
    c: int,
)
    requires
        canvas.is_complete(),
        mask.is_complete(),
        marks_fit(mask, marks, canvas.sixteen),
        on_canvas(canvas, mask, x, y, c),
        y < canvas.height,
        !mask.covers(x, y) || mask.alpha(mask.pixel_over(x, y)) == 0,
    ensures
        0 <= sample_number(canvas, x, y, c) < canvas.photo.len(),
        sample_number(canvas, x, y, c) < canvas.codes(mask, marks).len(),
        canvas.codes(mask, marks)[sample_number(canvas, x, y, c)]
            == canvas.photo[sample_number(canvas, x, y, c)],
{
    lemma_code_at(canvas, mask, marks, x, y, c);
}

/// Below the photo, where no visible mask pixel covers it, the canvas has the reference white.
pub proof fn law_uncovered_extension_is_white(
    canvas: Canvas,
    mask: Overlay,
    marks: Seq<[u32; 3]>,
    x: int,
    y: int,
    c: int,
)
    requires
        canvas.is_complete(),
        mask.is_complete(),
        marks_fit(mask, marks, canvas.sixteen),
        on_canvas(canvas, mask, x, y, c),
        y >= canvas.height,
        !mask.covers(x, y) || mask.alpha(mask.pixel_over(x, y)) == 0,
    ensures
        canvas.codes(mask, marks)[sample_number(canvas, x, y, c)] == canvas.fill(c),
{
    lemma_code_at(canvas, mask, marks, x, y, c);
}

/// Under an opaque mask pixel the canvas has the pixel's code, whatever was there.
pub proof fn law_opaque_mark_replaces(
    canvas: Canvas,
    mask: Overlay,
    marks: Seq<[u32; 3]>,
    x: int,
    y: int,
    c: int,
)
    requires
        canvas.is_complete(),
        mask.is_complete(),
        marks_fit(mask, marks, canvas.sixteen),
        on_canvas(canvas, mask, x, y, c),
        mask.covers(x, y),
        mask.alpha(mask.pixel_over(x, y)) == 255,
    ensures
        canvas.codes(mask, marks)[sample_number(canvas, x, y, c)] == mark_code(
            marks,
            mask.pixel_over(x, y),
            c,
            canvas.samples,
            canvas.sixteen,
        ),
{
    lemma_code_at(canvas, mask, marks, x, y, c);
    let k = mask.pixel_over(x, y);
    let s = sample_number(canvas, x, y, c);
    lemma_mask_index(mask, x, y);
    assert(c != 3 ==> marks[k]@[if c < 2 {
        c
    } else {
        2
    }] <= max_code(canvas.sixteen));
    let under = if y < canvas.height {
        canvas.photo[s] as int
    } else {
        canvas.fill(c)
    };
    assert(0 <= under <= max_code(canvas.sixteen)) by {
        if y < canvas.height {
            assert(canvas.photo[s] <= max_code(canvas.sixteen));
        } else {
            assert(c < 3 ==> canvas.white@[if c < 2 {
                c
            } else {
                2
            }] <= max_code(canvas.sixteen));
        }
    }
    lemma_blended(
        under,
        mark_code(marks, k, c, canvas.samples, canvas.sixteen),
        255,
        max_code(canvas.sixteen),
    );
}

} // verus!
