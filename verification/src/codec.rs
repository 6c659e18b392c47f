//! Decoding and encoding PNG image data.

use vstd::prelude::*;

use crate::bytes::be32_bytes;
use crate::png_file::{png_bytes, Chunk};
use crate::tags::{FDAT, IDAT, IEND, IHDR};

verus! {

/// What a decoder says of an image before it decodes it.
pub struct PngHeader {
    /// Width in pixels.
    pub width: u32,
    /// Height in pixels.
    pub height: u32,
    /// Colour type of the decoded samples: 0 gray, 2 RGB, 4 gray with alpha, 6 RGB with alpha.
    pub color: u8,
    /// Bits per decoded sample: 8 or 16.
    pub depth: u8,
    /// Bytes of the decoded image; `None` where memory cannot hold that many.
    pub size: Option<usize>,
}

/// Samples per pixel of a colour type without palette.
pub open spec fn samples_of(color: u8) -> int {
    if color == 6 {
        4
    } else if color == 2 {
        3
    } else if color == 4 {
        2
    } else {
        1
    }
}

/// Bytes of an image.
pub open spec fn image_size(width: int, height: int, color: u8, depth: u8) -> int {
    width * height * (samples_of(color) * (depth as int / 8))
}

/// A colour type and depth that decoding gives.
pub open spec fn is_plain_format(color: u8, depth: u8) -> bool {
    (color == 0 || color == 2 || color == 4 || color == 6) && (depth == 8 || depth == 16)
}

/// What decoding gives, as values that contracts speak of.
pub open spec fn bytes_result(r: Result<Vec<u8>, String>) -> Result<Seq<u8>, Seq<char>> {
    match r {
        Ok(v) => Ok(v@),
        Err(e) => Err(e@),
    }
}

/// What reading the header gives, as values that contracts speak of.
pub open spec fn header_result(r: Result<PngHeader, String>) -> Result<PngHeader, Seq<char>> {
    match r {
        Ok(h) => Ok(h),
        Err(e) => Err(e@),
    }
}

/// What `png` reads of the PNG file `data` before the image data, with the EXPAND transformation
/// and on a machine whose largest size is `largest`; an error is given by its text.
pub uninterp spec fn png_header(data: Seq<u8>, largest: int) -> Result<PngHeader, Seq<char>>;

/// The samples that `png` decodes of the PNG file `data` into a buffer of `size` bytes, with the
/// EXPAND transformation and on a machine whose largest size is `largest`; an error is given by
/// its text.
pub uninterp spec fn png_frame(data: Seq<u8>, size: int, largest: int) -> Result<
    Seq<u8>,
    Seq<char>,
>;

/// The PNG file that `png` writes of the samples `data`, with fast compression; an error is given
/// by its text.
pub uninterp spec fn png_encoded(
    width: u32,
    height: u32,
    color: u8,
    depth: u8,
    data: Seq<u8>,
) -> Result<Seq<u8>, Seq<char>>;

/// Calls `png::Decoder::read_info` with the EXPAND transformation, and reads the image's width and
/// height and the reader's `output_color_type` and `output_buffer_size`. It is trusted that the
/// outcome depends on the file and the machine's size type alone; that a width or height of 0 and
/// a palette never come out, nor samples of less than 8 bits; and that the buffer size is the size
/// of the image, `None` only where that is over `isize::MAX`. Which files are read, and what is
/// read of them, stays unsaid.
#[verifier::external_body]
pub(crate) fn read_png_header(data: &[u8]) -> (r: Result<PngHeader, String>)
    ensures
        header_result(r) == png_header(data@, usize::MAX as int),
        r matches Ok(h) ==> h.width > 0 && h.height > 0,
        r matches Ok(h) ==> is_plain_format(h.color, h.depth),
        r matches Ok(h) ==> match h.size {
            Some(n) => n == image_size(h.width as int, h.height as int, h.color, h.depth) && n
                <= isize::MAX,
            None => image_size(h.width as int, h.height as int, h.color, h.depth) > isize::MAX,
        },
{
    let mut decoder = png::Decoder::new(std::io::Cursor::new(data));
    decoder.set_transformations(png::Transformations::EXPAND);
    let reader = decoder.read_info().map_err(|e| e.to_string())?;
    let (color, depth) = reader.output_color_type();
    let (width, height) = reader.info().size();
    let size = reader.output_buffer_size();
    Ok(PngHeader { width, height, color: color as u8, depth: depth as u8, size })
}

/// Calls `png::Reader::next_frame` with a buffer of `size` bytes, on a decoder with the EXPAND
/// transformation. It is trusted that the outcome depends on the file, the buffer size and the
/// machine's size type alone, and that a decoded image leaves the buffer's length as it is. What
/// the samples are stays unsaid.
#[verifier::external_body]
pub(crate) fn decode_png_frame(data: &[u8], size: usize) -> (r: Result<Vec<u8>, String>)
    requires
        size <= isize::MAX,
    ensures
        bytes_result(r) == png_frame(data@, size as int, usize::MAX as int),
        r matches Ok(v) ==> v@.len() == size,
{
    let mut decoder = png::Decoder::new(std::io::Cursor::new(data));
    decoder.set_transformations(png::Transformations::EXPAND);
    let mut reader = decoder.read_info().map_err(|e| e.to_string())?;
    let mut samples = vec![0u8; size];
    reader.next_frame(&mut samples).map_err(|e| e.to_string())?;
    Ok(samples)
}

/// The header chunk of a file that is not interlaced.
pub open spec fn header_chunk(width: u32, height: u32, color: u8, depth: u8) -> Chunk {
    Chunk {
        typ: IHDR@,
        data: be32_bytes(width as int) + be32_bytes(height as int) + seq![depth, color, 0, 0, 0],
    }
}

/// A trailer chunk.
pub open spec fn trailer_chunk() -> Chunk {
    Chunk { typ: IEND@, data: Seq::empty() }
}

/// Chunks of image data of at most 4096 bytes each.
pub open spec fn are_image_data(chunks: Seq<Chunk>) -> bool {
    forall|i: int|
        0 <= i < chunks.len() ==> ((#[trigger] chunks[i]).typ == IDAT@ || chunks[i].typ == FDAT@)
            && chunks[i].data.len() <= 4096
}

/// `file` is made of a header chunk with these values, of image data and of a trailer.
pub open spec fn is_file_of(file: Seq<u8>, width: u32, height: u32, color: u8, depth: u8) -> bool {
    exists|body: Seq<Chunk>| #[trigger]
        are_image_data(body) && file == png_bytes(
            seq![header_chunk(width, height, color, depth)] + body + seq![trailer_chunk()],
        )
}

/// Calls `png::Encoder` with fast compression: `write_header`, `stream_writer`, one `write_all` of
/// `data`, and `finish`. It is trusted that the outcome depends on the arguments alone; and that a
/// file that comes out is made of a header chunk that holds the given values, of image data in
/// chunks of at most 4096 bytes, and of a trailer. What the image data hold stays unsaid.
#[verifier::external_body]
pub(crate) fn encode_png(width: u32, height: u32, color: u8, depth: u8, data: &[u8]) -> (r: Result<
    Vec<u8>,
    String,
>)
    requires
        is_plain_format(color, depth),
        image_size(width as int, height as int, color, depth) <= data@.len(),
    ensures
        bytes_result(r) == png_encoded(width, height, color, depth, data@),
        r matches Ok(v) ==> is_file_of(v@, width, height, color, depth),
{
    let mut encoded = Vec::new();
    let mut encoder = png::Encoder::new(&mut encoded, width, height);
    encoder.set_color(png::ColorType::from_u8(color).unwrap());
    encoder.set_depth(png::BitDepth::from_u8(depth).unwrap());
    encoder.set_compression(png::Compression::Fast);
    let mut writer = encoder.write_header().map_err(|e| e.to_string())?;
    let mut stream = writer.stream_writer().map_err(|e| e.to_string())?;
    std::io::Write::write_all(&mut stream, data).map_err(|e| e.to_string())?;
    stream.finish().map_err(|e| e.to_string())?;
    drop(writer);
    Ok(encoded)
}

} // verus!
