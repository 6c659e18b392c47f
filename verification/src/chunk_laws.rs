//! What compositing reads from the chunks of a PNG file, and which chunks the new file has.

use vstd::prelude::*;

use crate::blend::Overlay;
use crate::bytes::{be32_bytes, begins_with};
use crate::checksum::crc32_ieee;
use crate::codec::{header_chunk, png_frame, png_header, trailer_chunk};
use crate::composite::{
    are_blended, are_idat, assembled_file, composed, decode_source, decoded, encoded_samples,
    has_alpha, image_data, is_composite, is_new_file, is_passed_on, new_chunks, passed_on, Decoded,
    APNG, BAD_GEOMETRY, BAD_IHDR, MASK_TOO_SMALL, MASK_TOO_WIDE, MISSING_IHDR, PALETTE,
};
use crate::png_file::{
    all_without_matrix, chunk_bytes, first_of, has_matrix, has_type, law_chunks_read_back,
    lemma_first_of, lemma_read_chunks_are_writable, png_bytes, png_chunks, primaries_of,
    transfer_of, without_matrix, Chunk, PngPrimaries, PngTransfer, NOT_A_PNG,
};
use crate::tags::{
    ACTL, CICP, CLLI, FCTL, FDAT, IDAT, IEND, IHDR, MDCV, PLTE, PNG_SIG, TRNS,
};

verus! {

/// A written chunk is its length, its type, its data and the checksum of the two.
pub proof fn law_chunk_layout(c: Chunk)
    requires
        c.typ.len() == 4,
        c.data.len() < 0x1_0000_0000,
    ensures
        ({
            let b = chunk_bytes(c);
            let n = c.data.len() as int;
            &&& b.len() == n + 12
            &&& 0x100_0000 * b[0] + 0x1_0000 * b[1] + 0x100 * b[2] + b[3] == n
            &&& b.subrange(4, 8) == c.typ
            &&& b.subrange(8, 8 + n) == c.data
            &&& b.subrange(8 + n, 12 + n) == be32_bytes(crc32_ieee(c.typ + c.data) as int)
        }),
{
    let b = chunk_bytes(c);
    let n = c.data.len() as int;
    crate::bytes::lemma_be32_round_trip(n);
    assert(b.subrange(4, 8) =~= c.typ);
    assert(b.subrange(8, 8 + n) =~= c.data);
    assert(b.subrange(8 + n, 12 + n) =~= be32_bytes(crc32_ieee(c.typ + c.data) as int));
}

/// Chunk `i` is the first one of type `typ`.
pub open spec fn is_first(chunks: Seq<Chunk>, typ: Seq<u8>, i: int) -> bool {
    &&& 0 <= i < chunks.len()
    &&& chunks[i].typ == typ
    &&& forall|j: int| 0 <= j < i ==> (#[trigger] chunks[j]).typ != typ
}

/// No chunk has type `typ`.
pub open spec fn is_missing(chunks: Seq<Chunk>, typ: Seq<u8>) -> bool {
    forall|j: int| 0 <= j < chunks.len() ==> (#[trigger] chunks[j]).typ != typ
}

proof fn lemma_first(chunks: Seq<Chunk>, typ: Seq<u8>, i: int, from: int)
    requires
        0 <= from <= i,
        is_first(chunks, typ, i),
    ensures
        first_of(chunks, typ, from) == Some(chunks[i]),
    decreases i - from,
{
    if from < i {
        assert(chunks[from].typ != typ);
        lemma_first(chunks, typ, i, from + 1);
    }
}

proof fn lemma_missing(chunks: Seq<Chunk>, typ: Seq<u8>)
    requires
        is_missing(chunks, typ),
    ensures
        first_of(chunks, typ, 0) is None,
        !has_type(chunks, typ),
{
    lemma_first_of(chunks, typ, 0);
}

/// The first cICP chunk decides which transfer function and primaries an image has: its second byte
/// is 16 for PQ and 18 for HLG, and its first byte is 1 for BT.709 and 12 for P3.
pub proof fn law_first_cicp_chunk_decides(chunks: Seq<Chunk>, i: int)
    requires
        is_first(chunks, CICP@, i),
        chunks[i].data.len() >= 2,
    ensures
        transfer_of(chunks) == PngTransfer::Pq <==> chunks[i].data[1] == 16,
        transfer_of(chunks) == PngTransfer::Hlg <==> chunks[i].data[1] == 18,
        primaries_of(chunks) == PngPrimaries::Bt709 <==> chunks[i].data[0] == 1,
        primaries_of(chunks) == PngPrimaries::P3 <==> chunks[i].data[0] == 12,
{
    lemma_first(chunks, CICP@, i, 0);
}

/// Without a cICP chunk, static HDR metadata mean PQ; without those, an image is SDR.
pub proof fn law_images_without_cicp_chunk(chunks: Seq<Chunk>)
    requires
        is_missing(chunks, CICP@),
    ensures
        primaries_of(chunks) == PngPrimaries::Bt2020,
        transfer_of(chunks) == PngTransfer::Sdr <==> is_missing(chunks, MDCV@) && is_missing(
            chunks,
            CLLI@,
        ),
        transfer_of(chunks) != PngTransfer::Hlg,
{
    lemma_missing(chunks, CICP@);
    if is_missing(chunks, MDCV@) && is_missing(chunks, CLLI@) {
        lemma_missing(chunks, MDCV@);
        lemma_missing(chunks, CLLI@);
    } else if !is_missing(chunks, MDCV@) {
        let j = choose|j: int| 0 <= j < chunks.len() && (#[trigger] chunks[j]).typ == MDCV@;
        assert(chunks[j].typ == MDCV@);
    } else {
        let j = choose|j: int| 0 <= j < chunks.len() && (#[trigger] chunks[j]).typ == CLLI@;
        assert(chunks[j].typ == CLLI@);
    }
}

/// What a chunk becomes for a decoder that takes only RGB: a cICP chunk of three bytes or more has
/// a third byte of 0, and nothing else changes.
pub open spec fn is_rgb_copy(copy: Chunk, c: Chunk) -> bool {
    &&& copy.typ == c.typ
    &&& copy.data.len() == c.data.len()
    &&& forall|k: int|
        0 <= k < c.data.len() ==> (#[trigger] copy.data[k]) == (if c.typ == CICP@ && k == 2 {
            0
        } else {
            c.data[k]
        })
}

/// The list is the other one, chunk by chunk, for a decoder that takes only RGB.
pub open spec fn are_rgb_copies(copies: Seq<Chunk>, chunks: Seq<Chunk>) -> bool {
    &&& copies.len() == chunks.len()
    &&& forall|i: int| 0 <= i < chunks.len() ==> is_rgb_copy(#[trigger] copies[i], chunks[i])
}

proof fn lemma_rgb_copy(c: Chunk)
    ensures
        is_rgb_copy(without_matrix(c), c),
{
}

/// The file that the decoder gets has the chunks of the original, in order, with the matrix
/// coefficients of RGB; where they are those already, it is the original itself.
pub proof fn law_decoder_gets_rgb(original: Seq<u8>, chunks: Seq<Chunk>)
    requires
        png_chunks(original) == Ok::<Seq<Chunk>, Seq<char>>(chunks),
    ensures
        ({
            let source = decode_source(original, chunks);
            &&& png_chunks(source) matches Ok(copies) && are_rgb_copies(copies, chunks)
            &&& (forall|i: int|
                0 <= i < chunks.len() && (#[trigger] chunks[i]).typ == CICP@
                    && chunks[i].data.len() >= 3 ==> chunks[i].data[2] == 0) ==> source == original
        }),
{
    let source = decode_source(original, chunks);
    let copies = all_without_matrix(chunks);
    lemma_read_chunks_are_writable(original, 8);
    assert forall|i: int| 0 <= i < chunks.len() implies is_rgb_copy(
        #[trigger] copies[i],
        chunks[i],
    ) by {
        lemma_rgb_copy(chunks[i]);
    }
    if exists|i: int| 0 <= i < chunks.len() && has_matrix(#[trigger] chunks[i]) {
        assert(copies.last() == without_matrix(chunks.last()));
        assert forall|i: int| 0 <= i < copies.len() implies (#[trigger] copies[i]).typ.len() == 4
            && copies[i].data.len() < 0x1_0000_0000 by {
            assert(chunks[i].typ.len() == 4);
        }
        assert forall|i: int| 0 <= i < copies.len() - 1 implies (#[trigger] copies[i]).typ
            != IEND@ by {
            assert(chunks[i].typ != IEND@);
        }
        law_chunks_read_back(copies, Seq::empty());
        assert(png_bytes(copies) + Seq::<u8>::empty() =~= png_bytes(copies));
    } else {
        assert forall|i: int| 0 <= i < chunks.len() implies is_rgb_copy(
            #[trigger] chunks[i],
            chunks[i],
        ) by {
            assert(!has_matrix(chunks[i]));
        }
    }
}

/// A composite comes only of a file that begins with the PNG signature, has a header chunk of
/// thirteen bytes or more, no palette and no animation, and a mask that fits. Each of these has its
/// own error, in this order.
pub proof fn law_composite_tells_what_is_wrong<
    F: Fn([u8; 3], PngTransfer, PngPrimaries, bool) -> [u32; 3],
>(curve: F, original: Seq<u8>, mask: Overlay, r: Result<Seq<u8>, Seq<char>>)
    requires
        is_composite(curve, original, mask, r),
    ensures
        !begins_with(original, PNG_SIG@) ==> r == Err::<Seq<u8>, Seq<char>>(NOT_A_PNG@),
        begins_with(original, PNG_SIG@) && png_chunks(original) is Err ==> r == Err::<
            Seq<u8>,
            Seq<char>,
        >(png_chunks(original)->Err_0),
        png_chunks(original) matches Ok(chunks) ==> {
            &&& is_missing(chunks, IHDR@) ==> r == Err::<Seq<u8>, Seq<char>>(MISSING_IHDR@)
            &&& forall|i: int| #[trigger]
                is_first(chunks, IHDR@, i) ==> {
                    let short = chunks[i].data.len() < 13;
                    let palette = chunks[i].data[9] == 3;
                    let animated = !is_missing(chunks, ACTL@);
                    &&& short ==> r == Err::<Seq<u8>, Seq<char>>(BAD_IHDR@)
                    &&& !short && palette ==> r == Err::<Seq<u8>, Seq<char>>(PALETTE@)
                    &&& !short && !palette && animated ==> r == Err::<Seq<u8>, Seq<char>>(APNG@)
                    &&& !short && !palette && !animated ==> match png_header(
                        decode_source(original, chunks),
                        usize::MAX as int,
                    ) {
                        Ok(header) => {
                            let small = mask.pixels.len() < 4 * (mask.width * mask.height);
                            let wide = mask.left + mask.width > header.width;
                            &&& header.size is None ==> r == Err::<Seq<u8>, Seq<char>>(
                                BAD_GEOMETRY@,
                            )
                            &&& header.size is Some && small ==> r == Err::<Seq<u8>, Seq<char>>(
                                MASK_TOO_SMALL@,
                            )
                            &&& header.size is Some && !small && wide ==> r == Err::<
                                Seq<u8>,
                                Seq<char>,
                            >(MASK_TOO_WIDE@)
                            &&& header.size is Some && !small && !wide ==> {
                                let frame = png_frame(
                                    decode_source(original, chunks),
                                    header.size->0 as int,
                                    usize::MAX as int,
                                );
                                frame is Err ==> r == Err::<Seq<u8>, Seq<char>>(
                                    "decode: "@ + frame->Err_0,
                                )
                            }
                        },
                        Err(e) => r == Err::<Seq<u8>, Seq<char>>("decode: "@ + e),
                    }
                }
        },
{
    if let Ok(chunks) = png_chunks(original) {
        if is_missing(chunks, IHDR@) {
            lemma_missing(chunks, IHDR@);
        }
        assert(mask.width * mask.height * 4 == 4 * (mask.width * mask.height));
        assert forall|i: int| #[trigger] is_first(chunks, IHDR@, i) implies first_of(
            chunks,
            IHDR@,
            0,
        ) == Some(chunks[i]) by {
            lemma_first(chunks, IHDR@, i, 0);
        }
        if is_missing(chunks, ACTL@) {
            lemma_missing(chunks, ACTL@);
        } else {
            let j = choose|j: int| 0 <= j < chunks.len() && (#[trigger] chunks[j]).typ == ACTL@;
            assert(chunks[j].typ == ACTL@);
            assert(has_type(chunks, ACTL@));
        }
    }
}

/// A chunk that the new file has anew: header, palette, image data, trailer, and those of an
/// animation.
pub open spec fn is_image_chunk(typ: Seq<u8>) -> bool {
    ||| typ == seq![0x49u8, 0x48, 0x44, 0x52]
    ||| typ == seq![0x50u8, 0x4C, 0x54, 0x45]
    ||| typ == seq![0x49u8, 0x44, 0x41, 0x54]
    ||| typ == seq![0x49u8, 0x45, 0x4E, 0x44]
    ||| typ == seq![0x61u8, 0x63, 0x54, 0x4C]
    ||| typ == seq![0x66u8, 0x63, 0x54, 0x4C]
    ||| typ == seq![0x66u8, 0x64, 0x41, 0x54]
}

/// A chunk of the original stays: it is no part of the image, and no transparency chunk beside an
/// alpha channel.
pub open spec fn stays(c: Chunk, alpha: bool) -> bool {
    !is_image_chunk(c.typ) && !(alpha && c.typ == seq![0x74u8, 0x52, 0x4E, 0x53])
}

/// `kept` are the chunks of the original that stay, in order: chunk `i` of `kept` is the one that
/// stands at `places[i]`, and every chunk that stays has its place.
pub open spec fn are_kept(
    kept: Seq<Chunk>,
    chunks: Seq<Chunk>,
    alpha: bool,
    places: Seq<int>,
) -> bool {
    &&& places.len() == kept.len()
    &&& forall|i: int|
        0 <= i < kept.len() ==> 0 <= #[trigger] places[i] < chunks.len() && stays(
            chunks[places[i]],
            alpha,
        ) && is_rgb_copy(kept[i], chunks[places[i]])
    &&& forall|i: int, j: int|
        0 <= i < j < places.len() ==> #[trigger] places[i] < #[trigger] places[j]
    &&& forall|k: int|
        0 <= k < chunks.len() && stays(#[trigger] chunks[k], alpha) ==> places.contains(k)
}

proof fn lemma_stays(c: Chunk, alpha: bool)
    ensures
        stays(c, alpha) == is_passed_on(c, alpha),
{
    assert(IHDR@ =~= seq![0x49u8, 0x48, 0x44, 0x52]);
    assert(PLTE@ =~= seq![0x50u8, 0x4C, 0x54, 0x45]);
    assert(IDAT@ =~= seq![0x49u8, 0x44, 0x41, 0x54]);
    assert(IEND@ =~= seq![0x49u8, 0x45, 0x4E, 0x44]);
    assert(ACTL@ =~= seq![0x61u8, 0x63, 0x54, 0x4C]);
    assert(FCTL@ =~= seq![0x66u8, 0x63, 0x54, 0x4C]);
    assert(FDAT@ =~= seq![0x66u8, 0x64, 0x41, 0x54]);
    assert(TRNS@ =~= seq![0x74u8, 0x52, 0x4E, 0x53]);
}

proof fn lemma_kept(chunks: Seq<Chunk>, alpha: bool) -> (places: Seq<int>)
    ensures
        are_kept(passed_on(chunks, alpha), chunks, alpha, places),
    decreases chunks.len(),
{
    let kept = passed_on(chunks, alpha);
    if chunks.len() == 0 {
        Seq::empty()
    } else {
        let rest = chunks.drop_last();
        let before = lemma_kept(rest, alpha);
        let n = chunks.len() - 1;
        lemma_stays(chunks[n], alpha);
        assert forall|i: int| 0 <= i < before.len() implies 0 <= #[trigger] before[i] < n
            && chunks[before[i]] == rest[before[i]] by {}
        if stays(chunks[n], alpha) {
            let places = before.push(n);
            lemma_rgb_copy(chunks[n]);
            assert forall|k: int| 0 <= k < chunks.len() && stays(
                #[trigger] chunks[k],
                alpha,
            ) implies places.contains(k) by {
                if k < n {
                    assert(rest[k] == chunks[k]);
                    assert(before.contains(k));
                    let i = choose|i: int| 0 <= i < before.len() && before[i] == k;
                    assert(places[i] == k);
                } else {
                    assert(places[before.len() as int] == n);
                }
            }
            assert forall|i: int| 0 <= i < kept.len() implies 0 <= #[trigger] places[i]
                < chunks.len() && stays(chunks[places[i]], alpha) && is_rgb_copy(
                kept[i],
                chunks[places[i]],
            ) by {
                if i < before.len() {
                    assert(places[i] == before[i]);
                }
            }
            places
        } else {
            assert forall|k: int| 0 <= k < chunks.len() && stays(
                #[trigger] chunks[k],
                alpha,
            ) implies before.contains(k) by {
                assert(rest[k] == chunks[k]);
            }
            assert forall|i: int| 0 <= i < kept.len() implies 0 <= #[trigger] before[i]
                < chunks.len() && stays(chunks[before[i]], alpha) && is_rgb_copy(
                kept[i],
                chunks[before[i]],
            ) by {}
            before
        }
    }
}

/// The header chunk of an image: its size, its depth and its colour type, and three zeros.
pub open spec fn is_header_of(c: Chunk, width: int, rows: int, depth: u8, color: u8) -> bool {
    let d = c.data;
    &&& c.typ == IHDR@
    &&& d.len() == 13
    &&& 0x100_0000 * d[0] + 0x1_0000 * d[1] + 0x100 * d[2] + d[3] == width
    &&& 0x100_0000 * d[4] + 0x1_0000 * d[5] + 0x100 * d[6] + d[7] == rows % 0x1_0000_0000
    &&& d[8] == depth
    &&& d[9] == color
    &&& d[10] == 0 && d[11] == 0 && d[12] == 0
}

/// The chunks `all` are a header for the composited image, the chunks of the original that stay, in
/// order, image data, and an empty trailer.
pub open spec fn are_composite_chunks(
    all: Seq<Chunk>,
    d: Decoded,
    mask: Overlay,
    n: int,
    places: Seq<int>,
) -> bool {
    let bottom = mask.top + mask.height;
    let rows = if bottom > d.header.height {
        bottom
    } else {
        d.header.height as int
    };
    let alpha = d.header.color == 4 || d.header.color == 6;
    &&& 0 <= n
    &&& n + 2 <= all.len()
    &&& is_header_of(all[0], d.header.width as int, rows, d.header.depth, d.header.color)
    &&& are_kept(all.subrange(1, n + 1), d.chunks, alpha, places)
    &&& forall|i: int| n + 1 <= i < all.len() - 1 ==> (#[trigger] all[i]).typ == IDAT@
    &&& all.last().typ == IEND@
    &&& all.last().data.len() == 0
}

pub(crate) proof fn lemma_header(width: u32, height: u32, color: u8, depth: u8, rows: int)
    requires
        height == rows % 0x1_0000_0000,
    ensures
        is_header_of(
            header_chunk(width, height, color, depth),
            width as int,
            rows,
            depth,
            color,
        ),
{
    crate::bytes::lemma_be32_round_trip(width as int);
    crate::bytes::lemma_be32_round_trip(height as int);
    let d = header_chunk(width, height, color, depth).data;
    let (w, h) = (be32_bytes(width as int), be32_bytes(height as int));
    assert(d[0] == w[0] && d[1] == w[1] && d[2] == w[2] && d[3] == w[3]);
    assert(d[4] == h[0] && d[5] == h[1] && d[6] == h[2] && d[7] == h[3]);
}

proof fn lemma_composite_chunks(d: Decoded, mask: Overlay, data: Seq<Chunk>)
    requires
        are_idat(data),
    ensures
        ({
            let height = (mask.rows_with(d.header.height as int) % 0x1_0000_0000) as u32;
            let header = header_chunk(d.header.width, height, d.header.color, d.header.depth);
            exists|n: int, places: Seq<int>| #[trigger]
                are_composite_chunks(new_chunks(d.chunks, header, data), d, mask, n, places)
        }),
{
    let rows = mask.rows_with(d.header.height as int);
    let height = (rows % 0x1_0000_0000) as u32;
    let header = header_chunk(d.header.width, height, d.header.color, d.header.depth);
    let all = new_chunks(d.chunks, header, data);
    let alpha = d.header.color == 4 || d.header.color == 6;
    lemma_header(d.header.width, height, d.header.color, d.header.depth, rows);
    assert(has_alpha(header) == alpha);
    let kept = passed_on(d.chunks, alpha);
    let n = kept.len() as int;
    let places = lemma_kept(d.chunks, alpha);
    assert(all =~= seq![header] + kept + data + seq![trailer_chunk()]);
    assert(all[0] == header);
    assert(all.subrange(1, n + 1) =~= kept);
    assert forall|i: int| n + 1 <= i < all.len() - 1 implies (#[trigger] all[i]).typ == IDAT@ by {
        assert(all[i] == data[i - n - 1]);
    }
    assert(all.last() == trailer_chunk());
    assert(are_composite_chunks(all, d, mask, n, places));
}

/// A composited file has a header of the new size in the image's own depth and colour type, then
/// the other chunks of the original in their order, byte for byte but for the matrix coefficients
/// of cICP chunks, and then the image data.
pub proof fn law_new_file_has_the_other_chunks(file: Seq<u8>, d: Decoded, mask: Overlay)
    requires
        is_new_file(file, d, mask),
    ensures
        png_chunks(file) is Ok,
        exists|n: int, places: Seq<int>| #[trigger]
            are_composite_chunks(png_chunks(file)->Ok_0, d, mask, n, places),
{
    let rows = mask.rows_with(d.header.height as int);
    let height = (rows % 0x1_0000_0000) as u32;
    let header = header_chunk(d.header.width, height, d.header.color, d.header.depth);
    let data = choose|data: Seq<Chunk>| #[trigger]
        are_idat(data) && png_chunks(file) == Ok::<Seq<Chunk>, Seq<char>>(
            new_chunks(d.chunks, header, data),
        );
    let all = new_chunks(d.chunks, header, data);
    lemma_composite_chunks(d, mask, data);
    let (n, places) = choose|n: int, places: Seq<int>| #[trigger]
        are_composite_chunks(all, d, mask, n, places);
    assert(are_composite_chunks(png_chunks(file)->Ok_0, d, mask, n, places));
}

/// The image data chunks of a list, in order.
pub open spec fn idats(chunks: Seq<Chunk>) -> Seq<Chunk>
    decreases chunks.len(),
{
    if chunks.len() == 0 {
        Seq::empty()
    } else if chunks[0].typ == seq![0x49u8, 0x44, 0x41, 0x54] {
        seq![chunks[0]] + idats(chunks.skip(1))
    } else {
        idats(chunks.skip(1))
    }
}

proof fn lemma_idats_push(chunks: Seq<Chunk>, c: Chunk)
    ensures
        idats(chunks.push(c)) == (if c.typ == IDAT@ {
            idats(chunks).push(c)
        } else {
            idats(chunks)
        }),
    decreases chunks.len(),
{
    assert(IDAT@ =~= seq![0x49u8, 0x44, 0x41, 0x54]);
    if chunks.len() == 0 {
        assert(chunks.push(c).skip(1) =~= Seq::<Chunk>::empty());
        reveal_with_fuel(idats, 2);
        assert(seq![c] + Seq::<Chunk>::empty() =~= Seq::<Chunk>::empty().push(c));
    } else {
        assert(chunks.push(c).skip(1) =~= chunks.skip(1).push(c));
        assert(chunks.push(c)[0] == chunks[0]);
        lemma_idats_push(chunks.skip(1), c);
        let rest = idats(chunks.skip(1));
        assert(seq![chunks[0]] + rest.push(c) =~= (seq![chunks[0]] + rest).push(c));
    }
}

proof fn lemma_image_data_are_idats(chunks: Seq<Chunk>)
    ensures
        image_data(chunks) == idats(chunks),
    decreases chunks.len(),
{
    if chunks.len() > 0 {
        lemma_image_data_are_idats(chunks.drop_last());
        lemma_idats_push(chunks.drop_last(), chunks.last());
        assert(chunks.drop_last().push(chunks.last()) =~= chunks);
    }
}

/// The new file has the header and all the image data of the encoder's file, in order, and between
/// them the chunks of the original that stay.
pub proof fn law_encoded_image_goes_into_the_new_file(
    chunks: Seq<Chunk>,
    encoded: Seq<u8>,
    enc: Seq<Chunk>,
    i: int,
) -> (places: Seq<int>)
    requires
        png_chunks(encoded) == Ok::<Seq<Chunk>, Seq<char>>(enc),
        is_first(enc, IHDR@, i),
    ensures
        ({
            let alpha = enc[i].data[9] == 4 || enc[i].data[9] == 6;
            let kept = passed_on(chunks, alpha);
            let last = Chunk { typ: IEND@, data: Seq::empty() };
            &&& assembled_file(chunks, encoded) == Ok::<Seq<u8>, Seq<char>>(
                png_bytes(seq![enc[i]] + kept + idats(enc) + seq![last]),
            )
            &&& are_kept(kept, chunks, alpha, places)
        }),
{
    lemma_first(enc, IHDR@, i, 0);
    lemma_image_data_are_idats(enc);
    lemma_kept(chunks, has_alpha(enc[i]))
}

/// Where the image was decoded and the mask fits, only the encoder can fail, and its error is told.
pub proof fn law_encoder_errors_are_told<
    F: Fn([u8; 3], PngTransfer, PngPrimaries, bool) -> [u32; 3],
>(curve: F, original: Seq<u8>, mask: Overlay, r: Result<Seq<u8>, Seq<char>>)
    requires
        is_composite(curve, original, mask, r),
        decoded(original, mask) is Ok,
        r is Err,
    ensures
        exists|e: Seq<char>| r == Err::<Seq<u8>, Seq<char>>(#[trigger] ("encode: "@ + e)),
{
    let d = decoded(original, mask)->Ok_0;
    let data = choose|data: Seq<u8>| #[trigger]
        are_blended(curve, d, mask, data) && r == composed(d, mask, data) && (encoded_samples(
            d,
            mask,
            data,
        ) is Ok <==> r is Ok);
    let e = encoded_samples(d, mask, data)->Err_0;
    assert(r == Err::<Seq<u8>, Seq<char>>("encode: "@ + e));
}

} // verus!
