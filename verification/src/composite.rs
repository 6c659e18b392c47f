//! Compositing a watermark into a PNG file at its own sample depth.

use vstd::prelude::*;
use vstd::string::StringExecFns;

use crate::blend::{
    blend_mask, canvas_rows, law_uncovered_photo_is_kept, sample_number, Canvas, Mask, Overlay,
    Photo,
};
use crate::bytes::{append, same_bytes};
use crate::codec::{
    are_image_data, bytes_result, decode_png_frame, encode_png, header_chunk, image_size,
    is_file_of, is_plain_format, png_encoded, png_frame, png_header, read_png_header, samples_of,
    trailer_chunk, PngHeader,
};
use crate::png_file::{
    are_writable, chunk_bytes, chunk_list_bytes, chunk_views, find_chunk, first_of, has_type,
    law_chunks_read_back, lemma_first_of, lemma_list_bytes_add, lemma_list_bytes_one,
    lemma_read_chunks_are_writable, parse_png_chunks, png_bytes, png_chunks, png_primaries,
    png_transfer, primaries_of, sanitized, sanitized_for_decode, transfer_of, without_matrix,
    write_chunk, write_without_matrix, Chunk, PngChunk, PngPrimaries, PngTransfer,
};
use crate::samples::{code_bytes, image_codes, lemma_code_reads_back, read_codes, write_codes};
use crate::tags::{ACTL, FCTL, FDAT, IDAT, IEND, IHDR, PLTE, PNG_SIG, TRNS};
use crate::watermark::{are_codes, are_marks, mask_marks, watermark_codes, WHITE};

verus! {

/// No header chunk.
pub const MISSING_IHDR: &'static str = "missing IHDR";

/// A header chunk that is too short.
pub const BAD_IHDR: &'static str = "bad IHDR";

/// An image with a palette.
pub const PALETTE: &'static str = "palette PNG not supported";

/// An animated image.
pub const APNG: &'static str = "APNG not supported";

/// An image that memory cannot hold.
pub const BAD_GEOMETRY: &'static str = "bad PNG geometry";

/// A mask buffer with fewer pixels than it should have.
pub const MASK_TOO_SMALL: &'static str = "mask buffer too small";

/// A mask that reaches beyond the right edge.
pub const MASK_TOO_WIDE: &'static str = "mask wider than image";

/// What stands before the text of a decoder's error.
pub const DECODE: &'static str = "decode: ";

/// What stands before the text of an encoder's error.
pub const ENCODE: &'static str = "encode: ";

/// An encoder that wrote no header chunk.
pub const NO_IHDR_ENCODED: &'static str = "encoder produced no IHDR";

/// The overlay of a mask of `width` by `height` pixels at column `left` and row `top`.
pub open spec fn overlay(
    pixels: Seq<u8>,
    width: usize,
    height: usize,
    left: usize,
    top: usize,
) -> Overlay {
    Overlay {
        pixels,
        width: width as int,
        height: height as int,
        left: left as int,
        top: top as int,
    }
}

/// What is known of an image once it is decoded.
pub struct Decoded {
    pub chunks: Seq<Chunk>,
    pub header: PngHeader,
    pub samples: Seq<u8>,
}

/// The file that is decoded: the original, or the copy with the matrix coefficients of RGB.
pub open spec fn decode_source(original: Seq<u8>, chunks: Seq<Chunk>) -> Seq<u8> {
    match sanitized(chunks) {
        Some(copy) => copy,
        None => original,
    }
}

/// What decoding `original` for the mask gives: the image, or the reason why there is none.
pub open spec fn decoded(original: Seq<u8>, mask: Overlay) -> Result<Decoded, Seq<char>> {
    match png_chunks(original) {
        Err(e) => Err(e),
        Ok(chunks) => match first_of(chunks, IHDR@, 0) {
            None => Err(MISSING_IHDR@),
            Some(ihdr) => if ihdr.data.len() < 13 {
                Err(BAD_IHDR@)
            } else if ihdr.data[9] == 3 {
                Err(PALETTE@)
            } else if has_type(chunks, ACTL@) {
                Err(APNG@)
            } else {
                decoded_chunks(decode_source(original, chunks), chunks, mask)
            },
        },
    }
}

/// How many bytes of samples the decoder is asked for; an error where memory cannot hold the image,
/// or the mask does not fit it.
pub open spec fn frame_request(header: PngHeader, mask: Overlay) -> Result<int, Seq<char>> {
    match header.size {
        None => Err(BAD_GEOMETRY@),
        Some(size) => if !mask.is_complete() {
            Err(MASK_TOO_SMALL@)
        } else if mask.left + mask.width > header.width {
            Err(MASK_TOO_WIDE@)
        } else {
            Ok(size as int)
        },
    }
}

/// What decoding the file `source` for the mask gives.
pub open spec fn decoded_chunks(source: Seq<u8>, chunks: Seq<Chunk>, mask: Overlay) -> Result<
    Decoded,
    Seq<char>,
> {
    match png_header(source, usize::MAX as int) {
        Err(e) => Err(DECODE@ + e),
        Ok(header) => match frame_request(header, mask) {
            Err(e) => Err(e),
            Ok(size) => match png_frame(source, size, usize::MAX as int) {
                Err(e) => Err(DECODE@ + e),
                Ok(samples) => Ok(Decoded { chunks, header, samples }),
            },
        },
    }
}

/// The canvas of a decoded image.
pub open spec fn canvas_of(d: Decoded, white: [u32; 3]) -> Canvas {
    Canvas {
        photo: image_codes(d.samples, d.header.depth == 16),
        width: d.header.width as int,
        height: d.header.height as int,
        samples: samples_of(d.header.color),
        sixteen: d.header.depth == 16,
        white,
    }
}

/// The chunk belongs to the image data that are written anew.
pub open spec fn is_rewritten(c: Chunk) -> bool {
    ||| c.typ == IHDR@
    ||| c.typ == PLTE@
    ||| c.typ == IDAT@
    ||| c.typ == IEND@
    ||| c.typ == ACTL@
    ||| c.typ == FCTL@
    ||| c.typ == FDAT@
}

/// The chunk goes from the original into the new file; with an alpha channel, transparency chunks
/// do not.
pub open spec fn is_passed_on(c: Chunk, alpha: bool) -> bool {
    !is_rewritten(c) && !(alpha && c.typ == TRNS@)
}

/// The chunks of the original that the new file has.
pub open spec fn passed_on(chunks: Seq<Chunk>, alpha: bool) -> Seq<Chunk>
    decreases chunks.len(),
{
    if chunks.len() == 0 {
        Seq::empty()
    } else if is_passed_on(chunks.last(), alpha) {
        passed_on(chunks.drop_last(), alpha).push(without_matrix(chunks.last()))
    } else {
        passed_on(chunks.drop_last(), alpha)
    }
}

/// The image data chunks among `chunks`.
pub open spec fn image_data(chunks: Seq<Chunk>) -> Seq<Chunk>
    decreases chunks.len(),
{
    if chunks.len() == 0 {
        Seq::empty()
    } else if chunks.last().typ == IDAT@ {
        image_data(chunks.drop_last()).push(chunks.last())
    } else {
        image_data(chunks.drop_last())
    }
}

/// A header chunk of an image with an alpha channel.
pub open spec fn has_alpha(ihdr: Chunk) -> bool {
    ihdr.data[9] == 4 || ihdr.data[9] == 6
}

/// The chunks of the new file: the header, what is passed on, the image data and the trailer.
pub open spec fn new_chunks(chunks: Seq<Chunk>, header: Chunk, data: Seq<Chunk>) -> Seq<Chunk> {
    seq![header] + passed_on(chunks, has_alpha(header)) + data + seq![trailer_chunk()]
}

/// The new file, of the header and the image data of an encoder's file and of the chunks that are
/// passed on; an error where the encoder's file cannot be read.
pub open spec fn assembled_file(chunks: Seq<Chunk>, encoded: Seq<u8>) -> Result<Seq<u8>, Seq<char>> {
    match png_chunks(encoded) {
        Err(e) => Err(e),
        Ok(enc) => match first_of(enc, IHDR@, 0) {
            None => Err(NO_IHDR_ENCODED@),
            Some(header) => Ok(png_bytes(new_chunks(chunks, header, image_data(enc)))),
        },
    }
}

/// What the encoder gives for the samples `data` in the image's own colour type and depth. A height
/// that its field cannot hold is taken modulo 2^32.
pub open spec fn encoded_samples(d: Decoded, mask: Overlay, data: Seq<u8>) -> Result<
    Seq<u8>,
    Seq<char>,
> {
    let height = (mask.rows_with(d.header.height as int) % 0x1_0000_0000) as u32;
    png_encoded(d.header.width, height, d.header.color, d.header.depth, data)
}

/// The new file: the encoded samples, with the chunks that are passed on.
pub open spec fn composed(d: Decoded, mask: Overlay, data: Seq<u8>) -> Result<Seq<u8>, Seq<char>> {
    match encoded_samples(d, mask, data) {
        Err(e) => Err(ENCODE@ + e),
        Ok(encoded) => assembled_file(d.chunks, encoded),
    }
}

/// Chunks of image data.
pub open spec fn are_idat(chunks: Seq<Chunk>) -> bool {
    forall|i: int| 0 <= i < chunks.len() ==> (#[trigger] chunks[i]).typ == IDAT@
}

/// `file` can be read, and its chunks are a header for the canvas, the chunks that are passed on,
/// image data, and a trailer.
pub open spec fn is_new_file(file: Seq<u8>, d: Decoded, mask: Overlay) -> bool {
    let height = (mask.rows_with(d.header.height as int) % 0x1_0000_0000) as u32;
    let header = header_chunk(d.header.width, height, d.header.color, d.header.depth);
    exists|data: Seq<Chunk>| #[trigger]
        are_idat(data) && png_chunks(file) == Ok::<Seq<Chunk>, Seq<char>>(
            new_chunks(d.chunks, header, data),
        )
}

/// `white` and `marks` are the codes of the reference white and of the mask's pixels in the image.
pub open spec fn are_image_codes<F: Fn([u8; 3], PngTransfer, PngPrimaries, bool) -> [u32; 3]>(
    curve: F,
    d: Decoded,
    mask: Overlay,
    white: [u32; 3],
    marks: Seq<[u32; 3]>,
) -> bool {
    let transfer = transfer_of(d.chunks);
    let primaries = primaries_of(d.chunks);
    let sixteen = d.header.depth == 16;
    &&& are_codes(curve, WHITE, transfer, primaries, sixteen, white)
    &&& forall|c: int| 0 <= c < 3 ==> (#[trigger] white@[c]) <= crate::samples::max_code(sixteen)
    &&& are_marks(curve, mask, samples_of(d.header.color) >= 3, transfer, primaries, sixteen, marks)
}

/// `data` are the samples of the image with the mask blended into it, for codes that `curve` gives.
pub open spec fn are_blended<F: Fn([u8; 3], PngTransfer, PngPrimaries, bool) -> [u32; 3]>(
    curve: F,
    d: Decoded,
    mask: Overlay,
    data: Seq<u8>,
) -> bool {
    exists|white: [u32; 3], marks: Seq<[u32; 3]>| #[trigger]
        are_image_codes(curve, d, mask, white, marks) && data == code_bytes(
            canvas_of(d, white).codes(mask, marks),
            d.header.depth == 16,
        )
}

/// `r` is what compositing gives: the reason why the image cannot be decoded; else the new file of
/// the blended samples. Of a decoded image, a file comes out whenever the encoder succeeds.
pub open spec fn is_composite<F: Fn([u8; 3], PngTransfer, PngPrimaries, bool) -> [u32; 3]>(
    curve: F,
    original: Seq<u8>,
    mask: Overlay,
    r: Result<Seq<u8>, Seq<char>>,
) -> bool {
    match decoded(original, mask) {
        Err(e) => r == Err::<Seq<u8>, Seq<char>>(e),
        Ok(d) => exists|data: Seq<u8>| #[trigger]
            are_blended(curve, d, mask, data) && r == composed(d, mask, data) && (encoded_samples(
                d,
                mask,
                data,
            ) is Ok <==> r is Ok),
    }
}

/// Whether the buffer holds all the pixels of the mask.
pub fn mask_is_complete(mask: &Mask) -> (r: bool)
    ensures
        r == mask@.is_complete(),
{
    let pixels: usize = match mask.width.checked_mul(mask.height) {
        Some(n) => n,
        None => {
            assert(!mask@.is_complete()) by {
                assert(mask.pixels.len() == mask.pixels@.len());
            }
            return false;
        },
    };
    pixels <= mask.pixels.len() / 4
}

fn samples_per_pixel(color: u8) -> (r: usize)
    ensures
        r == samples_of(color),
{
    if color == 6 {
        4
    } else if color == 2 {
        3
    } else if color == 4 {
        2
    } else {
        1
    }
}

/// The text of an error with a prefix.
pub fn prefixed(prefix: &str, e: String) -> (r: String)
    ensures
        r@ == prefix@ + e@,
{
    prefix.to_string().concat(e.as_str())
}

/// An encoded file has a header chunk first, and can be read.
proof fn lemma_encoded_file(file: Seq<u8>, width: u32, height: u32, color: u8, depth: u8)
    requires
        is_file_of(file, width, height, color, depth),
    ensures
        png_chunks(file) is Ok,
        first_of(png_chunks(file)->Ok_0, IHDR@, 0) == Some(
            header_chunk(width, height, color, depth),
        ),
        are_writable(png_chunks(file)->Ok_0),
{
    let header = header_chunk(width, height, color, depth);
    let body = choose|body: Seq<Chunk>| #[trigger]
        are_image_data(body) && file == png_bytes(seq![header] + body + seq![trailer_chunk()]);
    let chunks = seq![header] + body + seq![trailer_chunk()];
    assert(chunks[0] == header);
    assert(IHDR@[1] != IEND@[1] && IDAT@[1] != IEND@[1] && FDAT@[0] != IEND@[0]);
    assert(chunks.last() == trailer_chunk());
    assert forall|i: int| 0 <= i < chunks.len() - 1 implies (#[trigger] chunks[i]).typ
        != IEND@ by {
        if i > 0 {
            assert(chunks[i] == body[i - 1]);
        }
    }
    assert forall|i: int| 0 <= i < chunks.len() implies (#[trigger] chunks[i]).typ.len() == 4
        && chunks[i].data.len() < 0x1_0000_0000 by {
        if 0 < i < chunks.len() - 1 {
            assert(chunks[i] == body[i - 1]);
        }
    }
    law_chunks_read_back(chunks, Seq::empty());
    assert(png_bytes(chunks) + Seq::<u8>::empty() =~= png_bytes(chunks));
}

/// Looks at the chunks of the file: an image without palette or animation can be composited.
pub fn check_chunks(chunks: &[PngChunk]) -> (r: Result<(), String>)
    ensures
        match r {
            Ok(_) => first_of(chunk_views(chunks@), IHDR@, 0) matches Some(ihdr) && ihdr.data.len()
                >= 13 && ihdr.data[9] != 3 && !has_type(chunk_views(chunks@), ACTL@),
            Err(e) => match first_of(chunk_views(chunks@), IHDR@, 0) {
                None => e@ == MISSING_IHDR@,
                Some(ihdr) => if ihdr.data.len() < 13 {
                    e@ == BAD_IHDR@
                } else if ihdr.data[9] == 3 {
                    e@ == PALETTE@
                } else {
                    has_type(chunk_views(chunks@), ACTL@) && e@ == APNG@
                },
            },
        },
{
    let ihdr: &[u8] = match find_chunk(chunks, &IHDR) {
        Some(data) => data,
        None => return Err(MISSING_IHDR.to_string()),
    };
    if ihdr.len() < 13 {
        return Err(BAD_IHDR.to_string());
    }
    if ihdr[9] == 3 {
        return Err(PALETTE.to_string());
    }
    proof {
        lemma_first_of(chunk_views(chunks@), ACTL@, 0);
    }
    if find_chunk(chunks, &ACTL).is_some() {
        return Err(APNG.to_string());
    }
    Ok(())
}

/// How many bytes of samples to ask the decoder for.
pub fn frame_size(header: &PngHeader, mask: &Mask) -> (r: Result<usize, String>)
    ensures
        match r {
            Ok(size) => frame_request(*header, mask@) == Ok::<int, Seq<char>>(size as int)
                && header.size == Some(size) && mask@.is_complete() && mask.left + mask.width
                <= header.width,
            Err(e) => frame_request(*header, mask@) == Err::<int, Seq<char>>(e@),
        },
{
    let size: usize = match header.size {
        Some(size) => size,
        None => return Err(BAD_GEOMETRY.to_string()),
    };
    if !mask_is_complete(mask) {
        return Err(MASK_TOO_SMALL.to_string());
    }
    if mask.left as u128 + mask.width as u128 > header.width as u128 {
        return Err(MASK_TOO_WIDE.to_string());
    }
    Ok(size)
}

/// The header and the samples are those of an image that the mask fits.
pub open spec fn fits_image(header: PngHeader, samples: Seq<u8>, mask: Overlay) -> bool {
    &&& is_plain_format(header.color, header.depth)
    &&& header.width > 0
    &&& samples.len() == image_size(
        header.width as int,
        header.height as int,
        header.color,
        header.depth,
    )
    &&& mask.is_complete()
    &&& mask.left + mask.width <= header.width
}

/// Decodes the image, where the mask fits it.
fn decode_for_mask(source: &[u8], Ghost(chunks): Ghost<Seq<Chunk>>, mask: &Mask) -> (r: Result<
    (PngHeader, Vec<u8>),
    String,
>)
    ensures
        match r {
            Ok((header, samples)) => decoded_chunks(source@, chunks, mask@) == Ok::<
                Decoded,
                Seq<char>,
            >(Decoded { chunks, header, samples: samples@ }) && fits_image(
                header,
                samples@,
                mask@,
            ),
            Err(e) => decoded_chunks(source@, chunks, mask@) == Err::<Decoded, Seq<char>>(e@),
        },
{
    let header: PngHeader = match read_png_header(source) {
        Ok(header) => header,
        Err(e) => return Err(prefixed(DECODE, e)),
    };
    let size: usize = match frame_size(&header, mask) {
        Ok(size) => size,
        Err(e) => return Err(e),
    };
    match decode_png_frame(source, size) {
        Ok(samples) => Ok((header, samples)),
        Err(e) => Err(prefixed(DECODE, e)),
    }
}

/// Whether the chunk belongs to the image data that are written anew.
fn belongs_to_image(c: &PngChunk) -> (r: bool)
    ensures
        r == is_rewritten(c@),
{
    let typ: &[u8] = c.typ.as_slice();
    same_bytes(typ, &IHDR) || same_bytes(typ, &PLTE) || same_bytes(typ, &IDAT) || same_bytes(
        typ,
        &IEND,
    ) || same_bytes(typ, &ACTL) || same_bytes(typ, &FCTL) || same_bytes(typ, &FDAT)
}

/// Appends the chunks of the original that the new file has.
fn write_passed_on(out: &mut Vec<u8>, chunks: &[PngChunk], alpha: bool)
    ensures
        final(out)@ == old(out)@ + chunk_list_bytes(passed_on(chunk_views(chunks@), alpha)),
{
    let ghost views = chunk_views(chunks@);
    let ghost start = out@;
    let mut i: usize = 0;
    assert(views.take(0) =~= Seq::empty());
    assert(start + Seq::<u8>::empty() =~= start);
    while i < chunks.len()
        invariant
            i <= chunks@.len(),
            views == chunk_views(chunks@),
            out@ == start + chunk_list_bytes(passed_on(views.take(i as int), alpha)),
        decreases chunks@.len() - i,
    {
        let ghost before = passed_on(views.take(i as int), alpha);
        proof {
            assert(views.take(i + 1).drop_last() =~= views.take(i as int));
            assert(views.take(i + 1).last() == views[i as int]);
            assert(views[i as int] == chunks@[i as int]@);
        }
        let skipped: bool = belongs_to_image(&chunks[i]) || (alpha && same_bytes(
            chunks[i].typ.as_slice(),
            &TRNS,
        ));
        if !skipped {
            write_without_matrix(out, &chunks[i]);
            proof {
                let after = before.push(without_matrix(views[i as int]));
                assert(after.drop_last() =~= before);
                assert(start + chunk_list_bytes(before) + chunk_bytes(after.last()) =~= start + (
                chunk_list_bytes(before) + chunk_bytes(after.last())));
            }
        }
        i += 1;
    }
    assert(views.take(i as int) =~= views);
}

/// Appends the image data chunks among `chunks`.
pub(crate) fn write_image_data(out: &mut Vec<u8>, chunks: &[PngChunk])
    ensures
        final(out)@ == old(out)@ + chunk_list_bytes(image_data(chunk_views(chunks@))),
{
    let ghost views = chunk_views(chunks@);
    let ghost start = out@;
    let mut i: usize = 0;
    assert(views.take(0) =~= Seq::empty());
    assert(start + Seq::<u8>::empty() =~= start);
    while i < chunks.len()
        invariant
            i <= chunks@.len(),
            views == chunk_views(chunks@),
            out@ == start + chunk_list_bytes(image_data(views.take(i as int))),
        decreases chunks@.len() - i,
    {
        let ghost before = image_data(views.take(i as int));
        proof {
            assert(views.take(i + 1).drop_last() =~= views.take(i as int));
            assert(views.take(i + 1).last() == views[i as int]);
            assert(views[i as int] == chunks@[i as int]@);
        }
        if same_bytes(chunks[i].typ.as_slice(), &IDAT) {
            write_chunk(out, &IDAT, chunks[i].data);
            proof {
                let after = before.push(views[i as int]);
                assert(after.drop_last() =~= before);
                assert(views[i as int] == Chunk { typ: IDAT@, data: chunks@[i as int].data@ });
                assert(start + chunk_list_bytes(before) + chunk_bytes(after.last()) =~= start + (
                chunk_list_bytes(before) + chunk_bytes(after.last())));
            }
        }
        i += 1;
    }
    assert(views.take(i as int) =~= views);
}

/// Chunks that are passed on can be written, and no trailer is among them.
proof fn lemma_passed_on(chunks: Seq<Chunk>, alpha: bool)
    requires
        forall|i: int|
            0 <= i < chunks.len() ==> (#[trigger] chunks[i]).typ.len() == 4 && chunks[i].data.len()
                < 0x1_0000_0000,
    ensures
        forall|i: int|
            0 <= i < passed_on(chunks, alpha).len() ==> (#[trigger] passed_on(
                chunks,
                alpha,
            )[i]).typ.len() == 4 && passed_on(chunks, alpha)[i].data.len() < 0x1_0000_0000
                && passed_on(chunks, alpha)[i].typ != IEND@,
    decreases chunks.len(),
{
    if chunks.len() > 0 {
        let rest = passed_on(chunks.drop_last(), alpha);
        let all = passed_on(chunks, alpha);
        let last = chunks[chunks.len() - 1];
        lemma_passed_on(chunks.drop_last(), alpha);
        assert forall|i: int| 0 <= i < all.len() implies (#[trigger] all[i]).typ.len() == 4
            && all[i].data.len() < 0x1_0000_0000 && all[i].typ != IEND@ by {
            if i < rest.len() {
                assert(all[i] == rest[i]);
            } else {
                assert(all[i] == without_matrix(last));
                assert(last.typ.len() == 4);
            }
        }
    }
}

/// Image data chunks are what they are called, and can be written.
proof fn lemma_image_data(chunks: Seq<Chunk>)
    requires
        forall|i: int|
            0 <= i < chunks.len() ==> (#[trigger] chunks[i]).typ.len() == 4 && chunks[i].data.len()
                < 0x1_0000_0000,
    ensures
        are_idat(image_data(chunks)),
        forall|i: int|
            0 <= i < image_data(chunks).len() ==> (#[trigger] image_data(chunks)[i]).data.len()
                < 0x1_0000_0000,
    decreases chunks.len(),
{
    if chunks.len() > 0 {
        lemma_image_data(chunks.drop_last());
        assert(chunks.last() == chunks[chunks.len() - 1]);
    }
}

/// A chunk of the original that is not part of the image data is in the new file, byte for byte
/// but for the matrix coefficients of a cICP chunk; with an alpha channel, transparency chunks are
/// not.
pub proof fn law_other_chunks_are_passed_on(chunks: Seq<Chunk>, alpha: bool, i: int)
    requires
        0 <= i < chunks.len(),
        is_passed_on(chunks[i], alpha),
    ensures
        passed_on(chunks, alpha).contains(without_matrix(chunks[i])),
    decreases chunks.len(),
{
    let rest = passed_on(chunks.drop_last(), alpha);
    if i == chunks.len() - 1 {
        assert(passed_on(chunks, alpha).last() == without_matrix(chunks[i]));
    } else {
        law_other_chunks_are_passed_on(chunks.drop_last(), alpha, i);
        let j = choose|j: int| 0 <= j < rest.len() && rest[j] == without_matrix(chunks[i]);
        assert(passed_on(chunks, alpha)[j] == rest[j]);
    }
}

/// The new file: the encoder's header, the chunks that are passed on, the encoder's image data, and
/// a trailer.
pub fn assemble_file(chunks: &[PngChunk], encoded: &[u8]) -> (r: Result<Vec<u8>, String>)
    requires
        png_chunks(encoded@) matches Ok(enc) ==> first_of(enc, IHDR@, 0) matches Some(header)
            ==> header.data.len() >= 10,
    ensures
        bytes_result(r) == assembled_file(chunk_views(chunks@), encoded@),
{
    let enc_chunks: Vec<PngChunk> = match parse_png_chunks(encoded) {
        Ok(chunks) => chunks,
        Err(e) => return Err(e),
    };
    let enc_ihdr: &[u8] = match find_chunk(enc_chunks.as_slice(), &IHDR) {
        Some(data) => data,
        None => return Err(NO_IHDR_ENCODED.to_string()),
    };
    let alpha: bool = enc_ihdr[9] == 4 || enc_ihdr[9] == 6;
    let mut out: Vec<u8> = Vec::new();
    append(&mut out, &PNG_SIG);
    write_chunk(&mut out, &IHDR, enc_ihdr);
    write_passed_on(&mut out, chunks, alpha);
    write_image_data(&mut out, enc_chunks.as_slice());
    let none: [u8; 0] = [];
    write_chunk(&mut out, &IEND, &none);
    proof {
        let header = Chunk { typ: IHDR@, data: enc_ihdr@ };
        let passed = passed_on(chunk_views(chunks@), alpha);
        let data = image_data(png_chunks(encoded@)->Ok_0);
        assert(none@ =~= Seq::empty());
        lemma_list_bytes_one(header);
        lemma_list_bytes_one(trailer_chunk());
        lemma_list_bytes_add(seq![header], passed);
        lemma_list_bytes_add(seq![header] + passed, data);
        lemma_list_bytes_add(seq![header] + passed + data, seq![trailer_chunk()]);
        assert(out@ =~= png_bytes(seq![header] + passed + data + seq![trailer_chunk()]));
    }
    Ok(out)
}

/// An encoder's file gives a new file that can be read, with the header and the image data of the
/// encoder.
pub(crate) proof fn lemma_assembled_file(
    chunks: Seq<Chunk>,
    encoded: Seq<u8>,
    width: u32,
    height: u32,
    color: u8,
    depth: u8,
)
    requires
        is_file_of(encoded, width, height, color, depth),
        forall|i: int|
            0 <= i < chunks.len() ==> (#[trigger] chunks[i]).typ.len() == 4 && chunks[i].data.len()
                < 0x1_0000_0000,
    ensures
        ({
            let header = header_chunk(width, height, color, depth);
            let data = image_data(png_chunks(encoded)->Ok_0);
            let all = new_chunks(chunks, header, data);
            &&& png_chunks(encoded) is Ok
            &&& first_of(png_chunks(encoded)->Ok_0, IHDR@, 0) == Some(header)
            &&& header.data.len() == 13
            &&& assembled_file(chunks, encoded) == Ok::<Seq<u8>, Seq<char>>(png_bytes(all))
            &&& are_idat(data)
            &&& png_chunks(png_bytes(all)) == Ok::<Seq<Chunk>, Seq<char>>(all)
        }),
{
    let header = header_chunk(width, height, color, depth);
    lemma_encoded_file(encoded, width, height, color, depth);
    let data = image_data(png_chunks(encoded)->Ok_0);
    let passed = passed_on(chunks, has_alpha(header));
    let all = new_chunks(chunks, header, data);
    lemma_passed_on(chunks, has_alpha(header));
    lemma_image_data(png_chunks(encoded)->Ok_0);
    assert(IHDR@[1] != IEND@[1] && IDAT@[1] != IEND@[1]);
    assert(all.last() == trailer_chunk());
    assert forall|i: int| 0 <= i < all.len() - 1 implies (#[trigger] all[i]).typ != IEND@
        && all[i].typ.len() == 4 && all[i].data.len() < 0x1_0000_0000 by {
        if 1 <= i < 1 + passed.len() {
            assert(all[i] == passed[i - 1]);
        } else if i > passed.len() {
            assert(all[i] == data[i - 1 - passed.len()]);
        }
    }
    law_chunks_read_back(all, Seq::empty());
    assert(png_bytes(all) + Seq::<u8>::empty() =~= png_bytes(all));
}

/// Blends the mask into a decoded image: the samples of the new image. `chunks` are those of the
/// original file; `curve` converts mask colours for HDR images.
pub fn blended_samples<F: Fn([u8; 3], PngTransfer, PngPrimaries, bool) -> [u32; 3]>(
    chunks: &[PngChunk],
    header: &PngHeader,
    samples: &[u8],
    mask: &Mask,
    curve: &F,
) -> (data: Vec<u8>)
    requires
        fits_image(*header, samples@, mask@),
        forall|px: [u8; 3], t: PngTransfer, p: PngPrimaries, s: bool| #[trigger]
            call_requires(*curve, (px, t, p, s)),
    ensures
        are_blended(
            *curve,
            (Decoded { chunks: chunk_views(chunks@), header: *header, samples: samples@ }),
            mask@,
            data@,
        ),
        image_size(
            header.width as int,
            mask@.rows_with(header.height as int) % 0x1_0000_0000,
            header.color,
            header.depth,
        ) <= data@.len(),
{
    let ghost d = Decoded { chunks: chunk_views(chunks@), header: *header, samples: samples@ };
    let transfer: PngTransfer = png_transfer(chunks);
    let primaries: PngPrimaries = png_primaries(chunks);
    let sixteen: bool = header.depth == 16;
    let per_pixel: usize = samples_per_pixel(header.color);
    let white: [u32; 3] = watermark_codes(WHITE, transfer, primaries, sixteen, curve);
    let marks: Vec<[u32; 3]> = mask_marks(
        mask,
        per_pixel >= 3,
        transfer,
        primaries,
        sixteen,
        curve,
    );
    assert(are_image_codes(*curve, d, mask@, white, marks@));
    let codes: Vec<u16> = read_codes(samples, sixteen);
    let photo: Photo = Photo {
        codes: codes.as_slice(),
        width: header.width as usize,
        height: header.height as usize,
        samples: per_pixel,
        sixteen,
        white,
    };
    proof {
        lemma_photo_is_complete(d, mask@, white);
        assert(photo@ == canvas_of(d, white));
        lemma_data_is_complete(canvas_of(d, white), mask@, marks@, header.color, header.depth);
    }
    let blended: Vec<u16> = blend_mask(&photo, mask, marks.as_slice());
    write_codes(blended.as_slice(), sixteen)
}

/// Composites a watermark into a PNG file: decodes it at its own depth, blends the mask into it,
/// encodes it in the same colour type and depth, and passes the other chunks on. A mask that
/// reaches below the image extends it with the reference white. `curve` converts mask colours for
/// HDR images.
pub fn png_composite<F: Fn([u8; 3], PngTransfer, PngPrimaries, bool) -> [u32; 3]>(
    original: &[u8],
    mask: &[u8],
    mask_w: usize,
    mask_h: usize,
    off_x: usize,
    off_y: usize,
    curve: &F,
) -> (r: Result<Vec<u8>, String>)
    requires
        forall|px: [u8; 3], t: PngTransfer, p: PngPrimaries, s: bool| #[trigger]
            call_requires(*curve, (px, t, p, s)),
    ensures
        is_composite(
            *curve,
            original@,
            overlay(mask@, mask_w, mask_h, off_x, off_y),
            bytes_result(r),
        ),
        r matches Ok(file) ==> is_new_file(
            file@,
            decoded(
                original@,
                overlay(mask@, mask_w, mask_h, off_x, off_y),
            )->Ok_0,
            overlay(mask@, mask_w, mask_h, off_x, off_y),
        ),
        decoded(original@, overlay(mask@, mask_w, mask_h, off_x, off_y)) matches Ok(d)
            ==> fits_image(d.header, d.samples, overlay(mask@, mask_w, mask_h, off_x, off_y)),
{
    let mask: Mask = Mask {
        pixels: mask,
        width: mask_w,
        height: mask_h,
        left: off_x,
        top: off_y,
    };
    let chunks: Vec<PngChunk> = match parse_png_chunks(original) {
        Ok(chunks) => chunks,
        Err(e) => return Err(e),
    };
    let ghost views = chunk_views(chunks@);
    proof {
        lemma_read_chunks_are_writable(original@, 8);
    }
    match check_chunks(chunks.as_slice()) {
        Ok(_) => {},
        Err(e) => return Err(e),
    }
    let copy: Option<Vec<u8>> = sanitized_for_decode(chunks.as_slice());
    let outcome: Result<(PngHeader, Vec<u8>), String> = match &copy {
        Some(copy) => decode_for_mask(copy.as_slice(), Ghost(views), &mask),
        None => decode_for_mask(original, Ghost(views), &mask),
    };
    let (header, samples): (PngHeader, Vec<u8>) = match outcome {
        Ok(v) => v,
        Err(e) => return Err(e),
    };
    let ghost d = Decoded { chunks: views, header, samples: samples@ };
    assert(decoded(original@, mask@) == Ok::<Decoded, Seq<char>>(d));
    let data: Vec<u8> = blended_samples(
        chunks.as_slice(),
        &header,
        samples.as_slice(),
        &mask,
        curve,
    );
    let rows: u128 = canvas_rows(header.height as usize, &mask);
    let height: u32 = (rows % 0x1_0000_0000) as u32;
    match encode_png(header.width, height, header.color, header.depth, data.as_slice()) {
        Ok(encoded) => {
            proof {
                lemma_assembled_file(
                    views,
                    encoded@,
                    header.width,
                    height,
                    header.color,
                    header.depth,
                );
            }
            assemble_file(chunks.as_slice(), encoded.as_slice())
        },
        Err(e) => Err(prefixed(ENCODE, e)),
    }
}

/// The canvas of an image that a mask fits has all the codes of its photo.
pub proof fn lemma_photo_is_complete(d: Decoded, mask: Overlay, white: [u32; 3])
    requires
        fits_image(d.header, d.samples, mask),
        forall|c: int|
            0 <= c < 3 ==> (#[trigger] white@[c]) <= crate::samples::max_code(
                d.header.depth == 16,
            ),
    ensures
        canvas_of(d, white).is_complete(),
{
    let (w, h, n) = (
        d.header.width as int,
        d.header.height as int,
        samples_of(d.header.color),
    );
    assert(w * h * (n * 2) == 2 * (w * h * n)) by (nonlinear_arith);
    assert(0 <= w * h * n) by (nonlinear_arith)
        requires
            0 <= w,
            0 <= h,
            0 <= n,
    ;
}

/// Samples of the decoded image that no visible mask pixel covers are in the new image as they are.
pub proof fn law_uncovered_samples_are_kept<
    F: Fn([u8; 3], PngTransfer, PngPrimaries, bool) -> [u32; 3],
>(curve: F, d: Decoded, mask: Overlay, data: Seq<u8>, x: int, y: int, c: int)
    requires
        fits_image(d.header, d.samples, mask),
        are_blended(curve, d, mask, data),
        0 <= x < d.header.width,
        0 <= y < d.header.height,
        0 <= c < samples_of(d.header.color),
        !mask.covers(x, y) || mask.alpha(mask.pixel_over(x, y)) == 0,
    ensures
        ({
            let sixteen = d.header.depth == 16;
            let s = (y * d.header.width + x) * samples_of(d.header.color) + c;
            &&& 0 <= s < image_codes(d.samples, sixteen).len()
            &&& s < image_codes(data, sixteen).len()
            &&& image_codes(data, sixteen)[s] == image_codes(d.samples, sixteen)[s]
        }),
{
    let sixteen = d.header.depth == 16;
    let (white, marks) = choose|white: [u32; 3], marks: Seq<[u32; 3]>| #[trigger]
        are_image_codes(curve, d, mask, white, marks) && data == code_bytes(
            canvas_of(d, white).codes(mask, marks),
            sixteen,
        );
    let canvas = canvas_of(d, white);
    let s = sample_number(canvas, x, y, c);
    lemma_photo_is_complete(d, mask, white);
    law_uncovered_photo_is_kept(canvas, mask, marks, x, y, c);
    assert(canvas.photo[s] <= crate::samples::max_code(sixteen));
    lemma_code_reads_back(canvas.codes(mask, marks), sixteen, s);
}

/// The bytes of a canvas suffice for an image of as many rows.
proof fn lemma_data_is_complete(
    canvas: Canvas,
    mask: Overlay,
    marks: Seq<[u32; 3]>,
    color: u8,
    depth: u8,
)
    requires
        canvas.is_complete(),
        is_plain_format(color, depth),
        canvas.samples == samples_of(color),
        canvas.sixteen == (depth == 16),
    ensures
        image_size(canvas.width, canvas.rows(mask) % 0x1_0000_0000, color, depth) <= code_bytes(
            canvas.codes(mask, marks),
            canvas.sixteen,
        ).len(),
{
    let (w, n, rows) = (canvas.width, canvas.samples, canvas.rows(mask));
    let low = rows % 0x1_0000_0000;
    assert(0 <= rows * w * n) by (nonlinear_arith)
        requires
            0 <= w,
            0 <= n,
            0 <= rows,
    ;
    assert(w * low * n <= rows * w * n) by (nonlinear_arith)
        requires
            0 <= low <= rows,
            0 <= w,
            0 <= n,
    ;
    assert(w * low * (n * 2) == 2 * (w * low * n)) by (nonlinear_arith);
    assert(w * low * (n * 1) == w * low * n) by (nonlinear_arith);
}

/// `png_composite` for callers that own the data and have 32-bit sizes.
pub fn composite_png<F: Fn([u8; 3], PngTransfer, PngPrimaries, bool) -> [u32; 3]>(
    original: Vec<u8>,
    mask: Vec<u8>,
    mask_w: u32,
    mask_h: u32,
    off_x: u32,
    off_y: u32,
    curve: &F,
) -> (r: Result<Vec<u8>, String>)
    requires
        forall|px: [u8; 3], t: PngTransfer, p: PngPrimaries, s: bool| #[trigger]
            call_requires(*curve, (px, t, p, s)),
    ensures
        is_composite(
            *curve,
            original@,
            overlay(
                mask@,
                mask_w as usize,
                mask_h as usize,
                off_x as usize,
                off_y as usize,
            ),
            bytes_result(r),
        ),
        r matches Ok(file) ==> is_new_file(
            file@,
            decoded(
                original@,
                overlay(mask@, mask_w as usize, mask_h as usize, off_x as usize, off_y as usize),
            )->Ok_0,
            overlay(mask@, mask_w as usize, mask_h as usize, off_x as usize, off_y as usize),
        ),
        decoded(
            original@,
            overlay(mask@, mask_w as usize, mask_h as usize, off_x as usize, off_y as usize),
        ) matches Ok(d) ==> fits_image(
            d.header,
            d.samples,
            overlay(mask@, mask_w as usize, mask_h as usize, off_x as usize, off_y as usize),
        ),
{
    png_composite(
        original.as_slice(),
        mask.as_slice(),
        mask_w as usize,
        mask_h as usize,
        off_x as usize,
        off_y as usize,
        curve,
    )
}

} // verus!
