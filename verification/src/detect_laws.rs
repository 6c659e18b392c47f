//! When a photo is told to be HDR, and as what, stated of the bytes of its file.

use vstd::prelude::*;

use crate::bmff::{hdr_nclx_at, least};
use crate::bytes::{matches_at, occurs, u16_be, u32_be};
use crate::detect::{
    bmff_kind, chunk_kind, hdr_kind, is_gainmap_metadata, jpeg_kind_from, jpeg_segment_kind,
    second_image_kind, tone_map_brand, HdrKind,
};
use crate::heic_laws::{are_boxes, box_bytes, boxes_bytes, holds_at, FileBox};
use crate::jpeg::is_standalone;
use crate::mpf::mpf_second;
use crate::photo_laws::lemma_meta_behind;
use crate::png_file::{png_chunks, Chunk};
use crate::png_laws::{law_kind_is_that_of_the_chunks, list_kind};
use crate::tags::{
    AUX_GAINMAP, AUX_GAINMAP_NS, CICP, CLLI, FTYP, HDRGM, HDR_GAIN_MAP, IDAT, IEND, ISO_URN, MDCV,
    META, NCLX, PNG_SIG, TMAP,
};
use crate::tiff_laws::short_at;

verus! {

/// The text stands somewhere in the bytes.
pub open spec fn has_text(s: Seq<u8>, text: Seq<u8>) -> bool {
    exists|i: int| #[trigger] holds_at(s, i, text)
}

pub(crate) proof fn lemma_has_text(s: Seq<u8>, text: Seq<u8>)
    ensures
        has_text(s, text) == occurs(s, text),
{
    if has_text(s, text) {
        let i = choose|i: int| #[trigger] holds_at(s, i, text);
        assert(matches_at(s, text, i));
    }
    if occurs(s, text) {
        let i = choose|i: int| matches_at(s, text, i);
        assert(holds_at(s, i, text));
    }
}

/// A cICP chunk that declares the transfer characteristics `code`.
pub open spec fn declares_transfer(c: Chunk, code: u8) -> bool {
    c.typ == CICP@ && c.data.len() >= 2 && c.data[1] == code
}

/// A chunk of static HDR metadata.
pub open spec fn is_static_metadata(c: Chunk) -> bool {
    c.typ == MDCV@ || c.typ == CLLI@
}

/// A chunk that names a gain map.
pub open spec fn names_png_gainmap(c: Chunk) -> bool {
    has_text(c.data, HDRGM@) || has_text(c.data, HDR_GAIN_MAP@)
}

/// A chunk that says nothing of HDR.
pub open spec fn says_nothing(c: Chunk) -> bool {
    &&& !declares_transfer(c, 16)
    &&& !declares_transfer(c, 18)
    &&& !is_static_metadata(c)
    &&& !names_png_gainmap(c)
}

proof fn lemma_chunk_kind(c: Chunk)
    ensures
        declares_transfer(c, 16) ==> chunk_kind(c) == Some(HdrKind::PngPq),
        declares_transfer(c, 18) ==> chunk_kind(c) == Some(HdrKind::PngHlg),
        is_static_metadata(c) ==> chunk_kind(c) == Some(HdrKind::PngStaticHdr),
        !declares_transfer(c, 16) && !declares_transfer(c, 18) && !is_static_metadata(c)
            && names_png_gainmap(c) ==> chunk_kind(c) == Some(HdrKind::PngGainmap),
        says_nothing(c) ==> chunk_kind(c) is None,
{
    lemma_has_text(c.data, HDRGM@);
    lemma_has_text(c.data, HDR_GAIN_MAP@);
    assert(CICP@[0] == 0x63 && MDCV@[0] == 0x6D && CLLI@[1] == 0x4C && CICP@[1] == 0x49);
}

proof fn lemma_list_kind_skips(chunks: Seq<Chunk>, i: int, j: int)
    requires
        0 <= j <= i <= chunks.len(),
        forall|k: int|
            j <= k < i ==> says_nothing(#[trigger] chunks[k]) && chunks[k].typ != IDAT@
                && chunks[k].typ != IEND@,
    ensures
        list_kind(chunks, j) == list_kind(chunks, i),
    decreases i - j,
{
    if j < i {
        assert(says_nothing(chunks[j]));
        lemma_chunk_kind(chunks[j]);
        lemma_list_kind_skips(chunks, i, j + 1);
    }
}

/// The first chunk of a PNG file that says something of HDR decides: a cICP chunk with transfer
/// characteristics 16 means PQ and 18 HLG, an mDCv or cLLi chunk static HDR metadata, and the name
/// of a gain map a gain map. Only what stands before the image data counts.
pub proof fn law_first_telling_chunk_decides(file: Seq<u8>, chunks: Seq<Chunk>, i: int)
    requires
        png_chunks(file) == Ok::<Seq<Chunk>, Seq<char>>(chunks),
        0 <= i < chunks.len(),
        forall|j: int|
            0 <= j < i ==> says_nothing(#[trigger] chunks[j]) && chunks[j].typ != IDAT@
                && chunks[j].typ != IEND@,
    ensures
        chunks[i].typ == IDAT@ ==> hdr_kind(file) is None,
        chunks[i].typ == IEND@ && says_nothing(chunks[i]) ==> hdr_kind(file) is None,
        declares_transfer(chunks[i], 16) ==> hdr_kind(file) == Some(HdrKind::PngPq),
        declares_transfer(chunks[i], 18) ==> hdr_kind(file) == Some(HdrKind::PngHlg),
        is_static_metadata(chunks[i]) ==> hdr_kind(file) == Some(HdrKind::PngStaticHdr),
        chunks[i].typ != IDAT@ && !declares_transfer(chunks[i], 16) && !declares_transfer(
            chunks[i],
            18,
        ) && !is_static_metadata(chunks[i]) && names_png_gainmap(chunks[i]) ==> hdr_kind(file)
            == Some(HdrKind::PngGainmap),
{
    law_kind_is_that_of_the_chunks(file);
    lemma_list_kind_skips(chunks, i, 0);
    lemma_chunk_kind(chunks[i]);
    assert(IDAT@[0] == 0x49 && CICP@[0] == 0x63 && MDCV@[0] == 0x6D && CLLI@[0] == 0x63);
}

/// Bytes that name a gain map.
pub open spec fn names_jpeg_gainmap(s: Seq<u8>) -> bool {
    has_text(s, HDRGM@) || has_text(s, HDR_GAIN_MAP@) || has_text(s, ISO_URN@)
}

/// Bytes that name an Apple gain map.
pub open spec fn names_apple_gainmap(s: Seq<u8>) -> bool {
    has_text(s, AUX_GAINMAP@) || has_text(s, AUX_GAINMAP_NS@)
}

proof fn lemma_names(s: Seq<u8>)
    ensures
        names_jpeg_gainmap(s) == is_gainmap_metadata(s),
        names_apple_gainmap(s) == (occurs(s, AUX_GAINMAP@) || occurs(s, AUX_GAINMAP_NS@)),
{
    lemma_has_text(s, HDRGM@);
    lemma_has_text(s, HDR_GAIN_MAP@);
    lemma_has_text(s, ISO_URN@);
    lemma_has_text(s, AUX_GAINMAP@);
    lemma_has_text(s, AUX_GAINMAP_NS@);
}

/// How far a JPEG file is searched: one mebibyte.
pub open spec fn search_end(file: Seq<u8>) -> int {
    if file.len() < 1048576 {
        file.len() as int
    } else {
        1048576
    }
}

/// Where the segment at `off` ends: its length counts the two bytes that hold it.
pub open spec fn segment_end(file: Seq<u8>, off: int) -> int {
    off + 2 + short_at(file, off + 2, false)
}

/// A segment with a length stands at `off`.
pub open spec fn is_segment_at(file: Seq<u8>, off: int) -> bool {
    &&& off + 4 <= search_end(file)
    &&& file[off] == 0xFF
    &&& file[off + 1] != 0xDA
    &&& file[off + 1] != 0xD9
    &&& file[off + 1] != 0x01
    &&& !(0xD0 <= file[off + 1] <= 0xD7)
    &&& segment_end(file, off) >= off + 4
}

/// What of the segment at `off` is searched.
pub open spec fn searched(file: Seq<u8>, off: int) -> Seq<u8> {
    file.subrange(
        off + 4,
        if segment_end(file, off) < search_end(file) {
            segment_end(file, off)
        } else {
            search_end(file)
        },
    )
}

/// The segment at `off` is application data.
pub open spec fn is_application(file: Seq<u8>, off: int) -> bool {
    0xE0 <= file[off + 1] <= 0xEF
}

/// The second image that the segment at `off` lists begins at `at` in the file, and its first `n`
/// bytes are searched: as many as are listed, or all to the end of the file where no size is
/// listed, but at most four mebibytes.
pub open spec fn lists_second(file: Seq<u8>, off: int, at: int, n: int) -> bool {
    &&& file[off + 1] == 0xE2
    &&& mpf_second(searched(file, off)) matches Some((img_off, img_size)) && at == off + 8 + img_off
        && 0 < n && at + n <= file.len() && n <= 4194304 && (img_size != 0 ==> n <= img_size) && (n
        == 4194304 || n == img_size || at + n == file.len())
}

/// The segment at `off` says nothing of HDR.
pub open spec fn segment_says_nothing(file: Seq<u8>, off: int) -> bool {
    is_application(file, off) ==> !names_jpeg_gainmap(searched(file, off)) && (file[off + 1]
        == 0xE2 ==> match mpf_second(searched(file, off)) {
        Some((img_off, _)) => off + 8 + img_off >= file.len() || exists|n: int| #[trigger]
            lists_second(file, off, off + 8 + img_off, n) && !names_jpeg_gainmap(
                file.subrange(off + 8 + img_off, off + 8 + img_off + n),
            ) && !names_apple_gainmap(
                file.subrange(off + 8 + img_off, off + 8 + img_off + n),
            ),
        None => true,
    })
}

/// A marker without a length stands at `off`: `TEM` or a restart marker.
pub open spec fn is_bare_marker_at(file: Seq<u8>, off: int) -> bool {
    &&& off + 4 <= search_end(file)
    &&& file[off] == 0xFF
    &&& file[off + 1] == 0x01 || 0xD0 <= file[off + 1] <= 0xD7
}

/// Segments and bare markers stand in a row from the start of the file on, and say nothing of HDR.
pub open spec fn are_silent_segments(file: Seq<u8>, offs: Seq<int>) -> bool {
    &&& offs.len() > 0
    &&& offs[0] == 2
    &&& forall|i: int| 0 <= i < offs.len() - 1 ==> is_silent_step(file, #[trigger] offs[i], offs, i)
}

/// What stands at `off` says nothing, and the next offset is that of what follows.
pub open spec fn is_silent_step(file: Seq<u8>, off: int, offs: Seq<int>, i: int) -> bool {
    ||| is_segment_at(file, off) && segment_says_nothing(file, off) && follows(
        offs,
        i,
        segment_end(file, off),
    )
    ||| is_bare_marker_at(file, off) && follows(offs, i, off + 2)
}

/// The offset behind number `i` is `end`.
pub open spec fn follows(offs: Seq<int>, i: int, end: int) -> bool {
    offs[i + 1] == end
}

proof fn lemma_second_kind(file: Seq<u8>, off: int, at: int, n: int)
    requires
        is_segment_at(file, off),
        0 <= off,
        lists_second(file, off, at, n),
    ensures
        names_apple_gainmap(file.subrange(at, at + n)) ==> second_image_kind(
            file,
            off,
            searched(file, off),
        ) == Some(HdrKind::AppleGainmap),
        !names_apple_gainmap(file.subrange(at, at + n)) && names_jpeg_gainmap(
            file.subrange(at, at + n),
        ) ==> second_image_kind(file, off, searched(file, off)) == Some(HdrKind::JpegGainmap),
        !names_apple_gainmap(file.subrange(at, at + n)) && !names_jpeg_gainmap(
            file.subrange(at, at + n),
        ) ==> second_image_kind(file, off, searched(file, off)) is None,
{
    lemma_names(file.subrange(at, at + n));
}

proof fn lemma_segment(file: Seq<u8>, off: int)
    requires
        0 <= off,
        is_segment_at(file, off),
    ensures
        searched(file, off) == file.subrange(
            off + 4,
            least(off + 2 + u16_be(file, off + 2), search_end(file)),
        ),
        segment_says_nothing(file, off) ==> jpeg_segment_kind(
            file,
            off,
            least(off + 2 + u16_be(file, off + 2), search_end(file)),
        ) is None,
{
    let seg = searched(file, off);
    lemma_names(seg);
    if segment_says_nothing(file, off) && file[off + 1] == 0xE2 {
        if let Some((img_off, img_size)) = mpf_second(seg) {
            let at = off + 8 + img_off;
            if at < file.len() {
                let n = choose|n: int| #[trigger]
                    lists_second(file, off, at, n) && !names_jpeg_gainmap(
                        file.subrange(at, at + n),
                    ) && !names_apple_gainmap(file.subrange(at, at + n));
                lemma_second_kind(file, off, at, n);
            }
        }
    }
}

proof fn lemma_silent(file: Seq<u8>, offs: Seq<int>, i: int)
    requires
        file.len() >= 16,
        are_silent_segments(file, offs),
        0 <= i < offs.len(),
    ensures
        offs[i] >= 2,
        jpeg_kind_from(file, 2, search_end(file)) == jpeg_kind_from(
            file,
            offs[i],
            search_end(file),
        ),
    decreases i,
{
    if i > 0 {
        lemma_silent(file, offs, i - 1);
        let off = offs[i - 1];
        assert(is_silent_step(file, off, offs, i - 1));
        if is_bare_marker_at(file, off) {
            assert(follows(offs, i - 1, off + 2));
            assert(is_standalone(file[off + 1]));
        } else {
            assert(follows(offs, i - 1, segment_end(file, off)));
            lemma_segment(file, off);
            assert(!is_standalone(file[off + 1]));
        }
    }
}

/// The first segment of a JPEG file that says something of HDR decides: one that names a gain map
/// itself, or one that lists a second image that does. An Apple gain map is told from others by
/// what the second image names. Where the segments end and none said something, the file is no HDR
/// photo.
pub proof fn law_first_telling_segment_decides(file: Seq<u8>, offs: Seq<int>)
    requires
        file.len() >= 16,
        file[0] == 0xFF,
        file[1] == 0xD8,
        are_silent_segments(file, offs),
    ensures
        ({
            let off = offs.last();
            &&& is_segment_at(file, off) && is_application(file, off) && names_jpeg_gainmap(
                searched(file, off),
            ) ==> hdr_kind(file) == Some(HdrKind::JpegGainmap)
            &&& forall|at: int, n: int|
                is_segment_at(file, off) && !names_jpeg_gainmap(searched(file, off))
                    && #[trigger] lists_second(file, off, at, n) ==> {
                    let second = file.subrange(at, at + n);
                    &&& names_apple_gainmap(second) ==> hdr_kind(file) == Some(
                        HdrKind::AppleGainmap,
                    )
                    &&& !names_apple_gainmap(second) && names_jpeg_gainmap(second) ==> hdr_kind(
                        file,
                    ) == Some(HdrKind::JpegGainmap)
                }
            &&& off + 4 > search_end(file) || file[off] != 0xFF || file[off + 1] == 0xDA
                || file[off + 1] == 0xD9 ==> hdr_kind(file) is None
        }),
{
    let off = offs.last();
    lemma_silent(file, offs, offs.len() - 1);
    if is_segment_at(file, off) {
        lemma_segment(file, off);
        lemma_names(searched(file, off));
        assert(!is_standalone(file[off + 1]));
        assert forall|at: int, n: int|
            !names_jpeg_gainmap(searched(file, off)) && #[trigger] lists_second(
                file,
                off,
                at,
                n,
            ) implies {
            let second = file.subrange(at, at + n);
            &&& names_apple_gainmap(second) ==> hdr_kind(file) == Some(HdrKind::AppleGainmap)
            &&& !names_apple_gainmap(second) && names_jpeg_gainmap(second) ==> hdr_kind(file)
                == Some(HdrKind::JpegGainmap)
        } by {
            lemma_second_kind(file, off, at, n);
        }
    }
}

/// A file type box stands at the start of the file, and nothing that a JPEG file begins with.
pub open spec fn is_media_file(file: Seq<u8>) -> bool {
    &&& file.len() >= 16
    &&& holds_at(file, 4, FTYP@)
    &&& !(file[0] == 0xFF && file[1] == 0xD8)
}

/// Brand number `k` of the file type box is a tone map's. The
/// brands follow the major brand and the minor version.
pub open spec fn has_tone_map_brand(file: Seq<u8>, k: int) -> bool {
    &&& 0 <= k
    &&& 20 + 4 * k <= file.len()
    &&& 20 + 4 * k <= u32_be(file, 0)
    &&& file.subrange(16 + 4 * k, 20 + 4 * k) == TMAP@
}

/// A file whose file type box lists the tone map brand carries ISO 21496-1 metadata, whichever of
/// the brands it is.
pub proof fn law_tone_map_brand_decides(file: Seq<u8>, k: int)
    requires
        is_media_file(file),
        has_tone_map_brand(file, k),
    ensures
        hdr_kind(file) == Some(HdrKind::Iso21496),
{
    lemma_is_bmff(file);
    assert(tone_map_brand(file, k));
}

proof fn lemma_is_bmff(file: Seq<u8>)
    requires
        is_media_file(file),
    ensures
        hdr_kind(file) == bmff_kind(file),
{
    let s = file.subrange(4, 8);
    assert(s == FTYP@);
    assert(s[0] == 0x66 && file[4] == s[0]);
    let sig = PNG_SIG@;
    if matches_at(file, sig, 0) {
        assert(file.subrange(0, 8)[4] == sig[4]);
        assert(sig[4] == 0x0D);
    }
    assert(matches_at(file, FTYP@, 4));
}

/// A colour box at `i` declares the transfer characteristics `code`: its type, the colour type, the
/// primaries and the transfer characteristics stand in a row.
pub open spec fn declares_nclx(meta: Seq<u8>, i: int, code: int) -> bool {
    &&& 0 <= i
    &&& i + 10 <= meta.len()
    &&& meta.subrange(i, i + 4) == NCLX@
    &&& 256 * meta[i + 6] + meta[i + 7] == code
}

/// Some colour box declares PQ or HLG transfer characteristics.
pub open spec fn declares_hdr(meta: Seq<u8>) -> bool {
    exists|i: int| #[trigger] declares_nclx(meta, i, 16) || declares_nclx(meta, i, 18)
}

proof fn lemma_declares_hdr(meta: Seq<u8>)
    ensures
        declares_hdr(meta) == exists|i: int| hdr_nclx_at(meta, i),
{
    if declares_hdr(meta) {
        let i = choose|i: int| #[trigger]
            declares_nclx(meta, i, 16) || declares_nclx(meta, i, 18);
        assert(hdr_nclx_at(meta, i));
    }
    if exists|i: int| hdr_nclx_at(meta, i) {
        let i = choose|i: int| hdr_nclx_at(meta, i);
        assert(declares_nclx(meta, i, 16) || declares_nclx(meta, i, 18));
    }
}

/// Without a tone map brand, the first metadata box decides: the name of Apple's gain map, then an
/// ISO 21496-1 name or a tone map item, then PQ or HLG transfer characteristics.
pub proof fn law_meta_box_decides(file: Seq<u8>, front: Seq<FileBox>, body: Seq<u8>)
    requires
        is_media_file(file),
        forall|k: int| !#[trigger] has_tone_map_brand(file, k),
        are_boxes(front),
        forall|i: int| 0 <= i < front.len() ==> (#[trigger] front[i]).typ != META@,
        4 <= body.len() < 0xffff_fff8,
        holds_at(file, 0, boxes_bytes(front) + box_bytes(FileBox { typ: META@, body })),
    ensures
        ({
            let meta = body.subrange(4, body.len() as int);
            let apple = has_text(meta, AUX_GAINMAP@);
            let iso = has_text(meta, ISO_URN@) || has_text(meta, TMAP@);
            &&& apple ==> hdr_kind(file) == Some(HdrKind::AppleGainmap)
            &&& !apple && iso ==> hdr_kind(file) == Some(HdrKind::Iso21496)
            &&& !apple && !iso && declares_hdr(meta) ==> hdr_kind(file) == Some(HdrKind::BmffPq)
            &&& !apple && !iso && !declares_hdr(meta) ==> hdr_kind(file) is None
        }),
{
    let meta = body.subrange(4, body.len() as int);
    lemma_is_bmff(file);
    assert forall|k: int| !tone_map_brand(file, k) by {
        assert(!has_tone_map_brand(file, k));
    }
    lemma_meta_behind(file, 0, front, body);
    lemma_has_text(meta, AUX_GAINMAP@);
    lemma_has_text(meta, ISO_URN@);
    lemma_has_text(meta, TMAP@);
    lemma_declares_hdr(meta);
}

/// A file that is neither a PNG file nor a JPEG file nor an ISO base media file is no HDR photo.
pub proof fn law_other_files_are_not_hdr(file: Seq<u8>)
    requires
        !holds_at(file, 0, seq![0x89u8, 0x50, 0x4E, 0x47, 0x0D, 0x0A, 0x1A, 0x0A]),
        !holds_at(file, 0, seq![0xFFu8, 0xD8]),
        !holds_at(file, 4, seq![0x66u8, 0x74, 0x79, 0x70]),
    ensures
        hdr_kind(file) is None,
{
    let sig = PNG_SIG@;
    assert(sig =~= seq![0x89u8, 0x50, 0x4E, 0x47, 0x0D, 0x0A, 0x1A, 0x0A]);
    assert(FTYP@ =~= seq![0x66u8, 0x74, 0x79, 0x70]);
    if file.len() >= 16 && file[0] == 0xFF && file[1] == 0xD8 {
        assert(file.subrange(0, 2) =~= seq![0xFFu8, 0xD8]);
    }
}

} // verus!
