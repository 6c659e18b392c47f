//! What composing an Apple HDR photo asks for, and which chunks the file has that comes out.

use vstd::prelude::*;

use crate::apple::{
    cicp_chunk, compose_error, composed_head, is_composed_file, Picture, BAD_BASE, BAD_GAIN_MAP,
    INVALID_HEADROOM,
};
use crate::blend::Overlay;
use crate::chunk_laws::{is_header_of, lemma_header};
use crate::codec::trailer_chunk;
use crate::composite::{are_idat, MASK_TOO_SMALL, MASK_TOO_WIDE};
use crate::detect::HdrKind;
use crate::heic::{is_heic_info, photo_gainmap, photo_maker_note, AppleHeicInfo, GainmapSource};
use crate::makernote::MakerNote;
use crate::png_file::{png_chunks, Chunk};
use crate::tags::{CICP, IDAT, IEND};

verus! {

/// The picture has pixels, four bytes for each of them.
pub open spec fn has_all_pixels(p: Picture) -> bool {
    p.width > 0 && p.height > 0 && p.pixels.len() >= 4 * (p.width * p.height)
}

/// Composing asks for a base and a gain map with all their pixels, a mask with all its pixels that
/// ends before the right edge of the base, and a headroom; the first of these that is missing is
/// told.
pub proof fn law_composing_tells_what_is_missing(
    base: Picture,
    gainmap: Picture,
    headroom_ok: bool,
    mask: Overlay,
)
    requires
        base.width >= 0,
        base.height >= 0,
        gainmap.width >= 0,
        gainmap.height >= 0,
    ensures
        ({
            let mask_full = mask.pixels.len() >= 4 * (mask.width * mask.height);
            let mask_fits = mask.left + mask.width <= base.width;
            let (base_full, gainmap_full) = (has_all_pixels(base), has_all_pixels(gainmap));
            let told = compose_error(base, gainmap, headroom_ok, mask);
            &&& told is None <==> base_full && gainmap_full && mask_full && mask_fits && headroom_ok
            &&& !base_full ==> told == Some(BAD_BASE@)
            &&& base_full && !gainmap_full ==> told == Some(BAD_GAIN_MAP@)
            &&& base_full && gainmap_full && !mask_full ==> told == Some(MASK_TOO_SMALL@)
            &&& base_full && gainmap_full && mask_full && !mask_fits ==> told == Some(
                MASK_TOO_WIDE@,
            )
            &&& base_full && gainmap_full && mask_full && mask_fits && !headroom_ok ==> told == Some(
                INVALID_HEADROOM@,
            )
        }),
{
    assert(mask.width * mask.height * 4 == 4 * (mask.width * mask.height));
}

/// The chunks are a header for a 16-bit RGB image, code points for BT.2020 primaries, PQ and full
/// range, image data, and an empty trailer.
pub open spec fn are_composed_chunks(all: Seq<Chunk>, width: int, rows: int) -> bool {
    &&& all.len() >= 3
    &&& is_header_of(all[0], width % 0x1_0000_0000, rows, 16, 2)
    &&& all[1].typ == CICP@
    &&& all[1].data == seq![9u8, 16, 0, 1]
    &&& forall|i: int| 2 <= i < all.len() - 1 ==> (#[trigger] all[i]).typ == IDAT@
    &&& all.last().typ == IEND@
    &&& all.last().data.len() == 0
}

/// A composed file is a 16-bit RGB image of the canvas, which reaches down to the end of the base
/// or of the mask, whichever is lower, and declares BT.2020 primaries and PQ.
pub proof fn law_composed_file_is_a_pq_image(
    file: Seq<u8>,
    base_w: int,
    base_h: int,
    mask: Overlay,
)
    requires
        is_composed_file(file, base_w, base_h, mask),
        base_w >= 0,
    ensures
        png_chunks(file) is Ok,
        are_composed_chunks(
            png_chunks(file)->Ok_0,
            base_w,
            if mask.top + mask.height > base_h {
                mask.top + mask.height
            } else {
                base_h
            },
        ),
{
    let rows = mask.rows_with(base_h);
    let head = composed_head(base_w, rows);
    let data = choose|data: Seq<Chunk>| #[trigger]
        are_idat(data) && png_chunks(file) == Ok::<Seq<Chunk>, Seq<char>>(
            head + data + seq![trailer_chunk()],
        );
    let all = head + data + seq![trailer_chunk()];
    lemma_header(
        (base_w % 0x1_0000_0000) as u32,
        (rows % 0x1_0000_0000) as u32,
        2,
        16,
        rows,
    );
    assert(all[0] == head[0] && all[1] == cicp_chunk());
    assert(all[1].data =~= seq![9u8, 16, 0, 1]);
    assert forall|i: int| 2 <= i < all.len() - 1 implies (#[trigger] all[i]).typ == IDAT@ by {
        assert(all[i] == data[i - 2]);
    }
    assert(all.last() == trailer_chunk());
}

/// What is told of a HEIC photo: the kind and number of its gain map item, and that it can be used
/// where it has one and its maker note gives a headroom over 1.
pub proof fn law_usable_photos_have_gainmap_and_headroom<F: Fn(MakerNote) -> bool>(
    boosts: F,
    raw: Seq<u8>,
    info: AppleHeicInfo,
    answer: bool,
)
    requires
        is_heic_info(boosts, raw, info),
        forall|note: MakerNote, b: bool| #[trigger]
            call_ensures(boosts, (note,), b) && photo_maker_note(raw) == Some(note) ==> b == answer,
    ensures
        info.ok <==> photo_gainmap(raw).1 != 0 && photo_maker_note(raw) is Some && answer,
        info.gainmap_item_id == photo_gainmap(raw).1,
        photo_gainmap(raw).0 == GainmapSource::AppleAux ==> info.kind@ == "apple-aux"@,
        photo_gainmap(raw).0 == GainmapSource::IsoTmap ==> info.kind@ == "iso-tmap"@,
        photo_gainmap(raw).0 == GainmapSource::NotFound ==> info.kind@.len() == 0,
{
}

/// The names that callers know the kinds of HDR by.
pub proof fn law_names_of_the_kinds()
    ensures
        HdrKind::PngPq.name() == "png-pq"@,
        HdrKind::PngHlg.name() == "png-hlg"@,
        HdrKind::PngStaticHdr.name() == "png-static-hdr"@,
        HdrKind::PngGainmap.name() == "png-gainmap"@,
        HdrKind::JpegGainmap.name() == "jpeg-gainmap"@,
        HdrKind::AppleGainmap.name() == "apple-gainmap"@,
        HdrKind::Iso21496.name() == "iso-21496-1"@,
        HdrKind::BmffPq.name() == "bmff-pq"@,
{
}

} // verus!
