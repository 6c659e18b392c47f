//! Telling HDR photos from others by their container metadata.

use vstd::prelude::*;
use vstd::slice::slice_subrange;

use crate::bmff::{bmff_meta_range, bytes_left, hdr_nclx_at, least, meta_from, nclx_is_hdr};
use crate::bytes::{
    begins_with, contains, matches_at, occurs, read_be16, read_be32, stands_at, starts_with, u16_be,
    u32_be,
};
use crate::jpeg::is_standalone;
use crate::mpf::{mpf_second, mpf_second_image};
use crate::png_file::{chunk_at, chunk_end, Chunk};
use crate::tags::{
    AUX_GAINMAP, AUX_GAINMAP_NS, CICP, CLLI, FTYP, HDRGM, HDR_GAIN_MAP, IDAT, IEND, ISO_URN, MDCV,
    PNG_SIG, TMAP,
};

verus! {

/// How a photo carries HDR.
pub enum HdrKind {
    /// PNG with PQ transfer.
    PngPq,
    /// PNG with HLG transfer.
    PngHlg,
    /// PNG with static HDR metadata.
    PngStaticHdr,
    /// PNG with gain map metadata.
    PngGainmap,
    /// JPEG with gain map metadata.
    JpegGainmap,
    /// JPEG or HEIC with an Apple gain map.
    AppleGainmap,
    /// HEIC or AVIF with ISO 21496-1 metadata.
    Iso21496,
    /// HEIC or AVIF with PQ or HLG transfer.
    BmffPq,
}

/// Name of `HdrKind::PngPq`.
pub const PNG_PQ: &'static str = "png-pq";

/// Name of `HdrKind::PngHlg`.
pub const PNG_HLG: &'static str = "png-hlg";

/// Name of `HdrKind::PngStaticHdr`.
pub const PNG_STATIC_HDR: &'static str = "png-static-hdr";

/// Name of `HdrKind::PngGainmap`.
pub const PNG_GAINMAP: &'static str = "png-gainmap";

/// Name of `HdrKind::JpegGainmap`.
pub const JPEG_GAINMAP: &'static str = "jpeg-gainmap";

/// Name of `HdrKind::AppleGainmap`.
pub const APPLE_GAINMAP: &'static str = "apple-gainmap";

/// Name of `HdrKind::Iso21496`.
pub const ISO_21496: &'static str = "iso-21496-1";

/// Name of `HdrKind::BmffPq`.
pub const BMFF_PQ: &'static str = "bmff-pq";

impl HdrKind {
    /// The name that callers know the kind by.
    pub open spec fn name(self) -> Seq<char> {
        match self {
            HdrKind::PngPq => PNG_PQ@,
            HdrKind::PngHlg => PNG_HLG@,
            HdrKind::PngStaticHdr => PNG_STATIC_HDR@,
            HdrKind::PngGainmap => PNG_GAINMAP@,
            HdrKind::JpegGainmap => JPEG_GAINMAP@,
            HdrKind::AppleGainmap => APPLE_GAINMAP@,
            HdrKind::Iso21496 => ISO_21496@,
            HdrKind::BmffPq => BMFF_PQ@,
        }
    }

    /// The name that callers know the kind by.
    pub fn label(&self) -> (r: String)
        ensures
            r@ == self.name(),
    {
        match self {
            HdrKind::PngPq => PNG_PQ.to_string(),
            HdrKind::PngHlg => PNG_HLG.to_string(),
            HdrKind::PngStaticHdr => PNG_STATIC_HDR.to_string(),
            HdrKind::PngGainmap => PNG_GAINMAP.to_string(),
            HdrKind::JpegGainmap => JPEG_GAINMAP.to_string(),
            HdrKind::AppleGainmap => APPLE_GAINMAP.to_string(),
            HdrKind::Iso21496 => ISO_21496.to_string(),
            HdrKind::BmffPq => BMFF_PQ.to_string(),
        }
    }
}

/// How much of a JPEG file is searched for metadata.
pub const JPEG_SEARCH_LIMIT: usize = 0x10_0000;

/// How much of a listed second image is searched for metadata.
pub const SECOND_IMAGE_LIMIT: usize = 0x40_0000;

/// Metadata of an Ultra HDR or ISO 21496-1 gain map.
pub open spec fn is_gainmap_metadata(s: Seq<u8>) -> bool {
    occurs(s, HDRGM@) || occurs(s, HDR_GAIN_MAP@) || occurs(s, ISO_URN@)
}

/// What a PNG chunk tells.
pub open spec fn chunk_kind(c: Chunk) -> Option<HdrKind> {
    if c.typ == CICP@ && c.data.len() >= 2 && c.data[1] == 16 {
        Some(HdrKind::PngPq)
    } else if c.typ == CICP@ && c.data.len() >= 2 && c.data[1] == 18 {
        Some(HdrKind::PngHlg)
    } else if c.typ == MDCV@ || c.typ == CLLI@ {
        Some(HdrKind::PngStaticHdr)
    } else if occurs(c.data, HDRGM@) || occurs(c.data, HDR_GAIN_MAP@) {
        Some(HdrKind::PngGainmap)
    } else {
        None
    }
}

/// What the PNG chunks from `off` on tell, up to the image data or the trailer. The data of the
/// image are not looked into.
pub open spec fn png_kind_from(raw: Seq<u8>, off: int) -> Option<HdrKind>
    decreases bytes_left(raw.len() as int, off),
{
    if off + 12 > raw.len() || chunk_end(raw, off) > raw.len() {
        None
    } else if chunk_at(raw, off).typ == IDAT@ {
        None
    } else if chunk_kind(chunk_at(raw, off)) is Some {
        chunk_kind(chunk_at(raw, off))
    } else if chunk_at(raw, off).typ == IEND@ {
        None
    } else {
        png_kind_from(raw, chunk_end(raw, off))
    }
}

/// What the second image tells that the directory in the segment `seg`, at `off`, lists.
pub open spec fn second_image_kind(raw: Seq<u8>, off: int, seg: Seq<u8>) -> Option<HdrKind> {
    match mpf_second(seg) {
        Some((img_off, img_size)) => {
            let abs = off + 8 + img_off;
            let end = if img_size == 0 {
                raw.len() as int
            } else {
                least(abs + img_size, raw.len() as int)
            };
            let second = raw.subrange(abs, least(end, abs + SECOND_IMAGE_LIMIT));
            if abs >= raw.len() {
                None
            } else if occurs(second, AUX_GAINMAP@) || occurs(second, AUX_GAINMAP_NS@) {
                Some(HdrKind::AppleGainmap)
            } else if is_gainmap_metadata(second) {
                Some(HdrKind::JpegGainmap)
            } else {
                None
            }
        },
        None => None,
    }
}

/// What the JPEG segment at `off` tells, of which the bytes before `end` are looked at.
pub open spec fn jpeg_segment_kind(raw: Seq<u8>, off: int, end: int) -> Option<HdrKind> {
    let marker = raw[off + 1];
    let seg = raw.subrange(off + 4, end);
    if !(0xE0 <= marker <= 0xEF) {
        None
    } else if is_gainmap_metadata(seg) {
        Some(HdrKind::JpegGainmap)
    } else if marker == 0xE2 {
        second_image_kind(raw, off, seg)
    } else {
        None
    }
}

/// What the JPEG segments from `off` on tell, as far as they lie before `limit`.
pub open spec fn jpeg_kind_from(raw: Seq<u8>, off: int, limit: int) -> Option<HdrKind>
    decreases bytes_left(limit, off),
{
    if off + 4 > limit || raw[off] != 0xFF || raw[off + 1] == 0xDA || raw[off + 1] == 0xD9 {
        None
    } else if is_standalone(raw[off + 1]) {
        jpeg_kind_from(raw, off + 2, limit)
    } else if u16_be(raw, off + 2) < 2 {
        None
    } else {
        let next = off + 2 + u16_be(raw, off + 2);
        match jpeg_segment_kind(raw, off, least(next, limit)) {
            Some(kind) => Some(kind),
            None => jpeg_kind_from(raw, next, limit),
        }
    }
}

/// A compatible brand of the file type box, number `k`, says that there is a tone map.
pub open spec fn tone_map_brand(raw: Seq<u8>, k: int) -> bool {
    let size = least(u32_be(raw, 0), raw.len() as int);
    0 <= k && 16 + 4 * k + 4 <= size && matches_at(raw, TMAP@, 16 + 4 * k)
}

/// What the brands and the metadata box of an ISO base media file tell.
pub open spec fn bmff_kind(raw: Seq<u8>) -> Option<HdrKind> {
    if exists|k: int| tone_map_brand(raw, k) {
        Some(HdrKind::Iso21496)
    } else {
        match meta_from(raw, 0) {
            Some((start, end)) => {
                let meta = raw.subrange(start, end);
                if occurs(meta, AUX_GAINMAP@) {
                    Some(HdrKind::AppleGainmap)
                } else if occurs(meta, ISO_URN@) || occurs(meta, TMAP@) {
                    Some(HdrKind::Iso21496)
                } else if exists|i: int| hdr_nclx_at(meta, i) {
                    Some(HdrKind::BmffPq)
                } else {
                    None
                }
            },
            None => None,
        }
    }
}

/// How the photo carries HDR, if it does.
pub open spec fn hdr_kind(raw: Seq<u8>) -> Option<HdrKind> {
    if raw.len() < 16 {
        None
    } else if begins_with(raw, PNG_SIG@) {
        png_kind_from(raw, 8)
    } else if raw[0] == 0xFF && raw[1] == 0xD8 {
        jpeg_kind_from(raw, 2, least(raw.len() as int, JPEG_SEARCH_LIMIT as int))
    } else if matches_at(raw, FTYP@, 4) {
        bmff_kind(raw)
    } else {
        None
    }
}

fn has_gainmap_metadata(s: &[u8]) -> (r: bool)
    ensures
        r == is_gainmap_metadata(s@),
{
    contains(s, &HDRGM) || contains(s, &HDR_GAIN_MAP) || contains(s, &ISO_URN)
}

/// What the chunks of a PNG file tell.
fn detect_png(raw: &[u8]) -> (r: Option<HdrKind>)
    requires
        raw@.len() >= 16,
    ensures
        r == png_kind_from(raw@, 8),
{
    let mut off: usize = 8;
    while raw.len() - off >= 12
        invariant
            off <= raw@.len(),
            png_kind_from(raw@, 8) == png_kind_from(raw@, off as int),
        decreases raw@.len() - off,
    {
        let len: u64 = read_be32(raw, off) as u64;
        if len > (raw.len() - off - 12) as u64 {
            return None;
        }
        let end: usize = off + 12 + len as usize;
        let typ: &[u8] = slice_subrange(raw, off + 4, off + 8);
        let body: &[u8] = slice_subrange(raw, off + 8, end - 4);
        let cicp: bool = starts_with(typ, &CICP);
        proof {
            lemma_is_type(typ@);
        }
        if starts_with(typ, &IDAT) {
            return None;
        }
        if cicp && body.len() >= 2 && body[1] == 16 {
            return Some(HdrKind::PngPq);
        }
        if cicp && body.len() >= 2 && body[1] == 18 {
            return Some(HdrKind::PngHlg);
        }
        if starts_with(typ, &MDCV) || starts_with(typ, &CLLI) {
            return Some(HdrKind::PngStaticHdr);
        }
        if contains(body, &HDRGM) || contains(body, &HDR_GAIN_MAP) {
            return Some(HdrKind::PngGainmap);
        }
        if starts_with(typ, &IEND) {
            return None;
        }
        off = end;
    }
    None
}

/// Four bytes begin with a chunk type where they are that type.
proof fn lemma_is_type(typ: Seq<u8>)
    requires
        typ.len() == 4,
    ensures
        forall|pat: Seq<u8>| pat.len() == 4 ==> (#[trigger] begins_with(typ, pat) <==> typ == pat),
{
    assert(typ.subrange(0, 4) =~= typ);
}

/// What a second image tells that the directory in `seg` lists.
fn detect_second_image(raw: &[u8], off: usize, seg: &[u8]) -> (r: Option<HdrKind>)
    ensures
        r == second_image_kind(raw@, off as int, seg@),
{
    if let Some((img_off, img_size)) = mpf_second_image(seg) {
        let abs: u128 = off as u128 + 8 + img_off as u128;
        if abs >= raw.len() as u128 {
            return None;
        }
        let start: usize = abs as usize;
        let left: usize = raw.len() - start;
        let mut len: usize = if img_size == 0 || img_size > left {
            left
        } else {
            img_size
        };
        if len > SECOND_IMAGE_LIMIT {
            len = SECOND_IMAGE_LIMIT;
        }
        let second: &[u8] = slice_subrange(raw, start, start + len);
        if contains(second, &AUX_GAINMAP) || contains(second, &AUX_GAINMAP_NS) {
            return Some(HdrKind::AppleGainmap);
        }
        if has_gainmap_metadata(second) {
            return Some(HdrKind::JpegGainmap);
        }
    }
    None
}

/// What the segments of a JPEG file tell.
fn detect_jpeg(raw: &[u8]) -> (r: Option<HdrKind>)
    requires
        raw@.len() >= 16,
    ensures
        r == jpeg_kind_from(raw@, 2, least(raw@.len() as int, JPEG_SEARCH_LIMIT as int)),
{
    let limit: usize = if raw.len() < JPEG_SEARCH_LIMIT {
        raw.len()
    } else {
        JPEG_SEARCH_LIMIT
    };
    let mut off: usize = 2;
    while off <= limit - 4
        invariant
            16 <= limit <= raw@.len(),
            off <= limit + 0x1_0001,
            limit == least(raw@.len() as int, JPEG_SEARCH_LIMIT as int),
            jpeg_kind_from(raw@, 2, limit as int) == jpeg_kind_from(raw@, off as int, limit as int),
        decreases limit + 0x1_0001 - off,
    {
        if raw[off] != 0xFF {
            return None;
        }
        let marker: u8 = raw[off + 1];
        if marker == 0xDA || marker == 0xD9 {
            return None;
        }
        if marker == 0x01 || (marker >= 0xD0 && marker <= 0xD7) {
            off += 2;
            continue;
        }
        let seg_len: usize = read_be16(raw, off + 2) as usize;
        if seg_len < 2 {
            return None;
        }
        let next: usize = off + 2 + seg_len;
        let end: usize = if next < limit {
            next
        } else {
            limit
        };
        if marker >= 0xE0 && marker <= 0xEF {
            let seg: &[u8] = slice_subrange(raw, off + 4, end);
            if has_gainmap_metadata(seg) {
                return Some(HdrKind::JpegGainmap);
            }
            if marker == 0xE2 {
                let kind: Option<HdrKind> = detect_second_image(raw, off, seg);
                if kind.is_some() {
                    return kind;
                }
            }
        }
        off = next;
    }
    None
}

/// What the brands and the metadata box of an ISO base media file tell.
fn detect_bmff(raw: &[u8]) -> (r: Option<HdrKind>)
    requires
        raw@.len() >= 16,
    ensures
        r == bmff_kind(raw@),
{
    let size: u64 = read_be32(raw, 0) as u64;
    let end: usize = if size < raw.len() as u64 {
        size as usize
    } else {
        raw.len()
    };
    let mut b: usize = 16;
    let ghost mut k: int = 0;
    while b <= end && end - b >= 4
        invariant
            end <= raw@.len(),
            end == least(u32_be(raw@, 0), raw@.len() as int),
            b == 16 + 4 * k,
            0 <= k,
            b <= end || b == 16,
            forall|j: int| j < k ==> !#[trigger] tone_map_brand(raw@, j),
        decreases raw@.len() - b,
    {
        if stands_at(raw, &TMAP, b) {
            assert(tone_map_brand(raw@, k));
            return Some(HdrKind::Iso21496);
        }
        b += 4;
        proof {
            k = k + 1;
        }
    }
    assert(forall|j: int| !#[trigger] tone_map_brand(raw@, j));
    if let Some((start, end)) = bmff_meta_range(raw) {
        let meta: &[u8] = slice_subrange(raw, start, end);
        if contains(meta, &AUX_GAINMAP) {
            return Some(HdrKind::AppleGainmap);
        }
        if contains(meta, &ISO_URN) || contains(meta, &TMAP) {
            return Some(HdrKind::Iso21496);
        }
        if nclx_is_hdr(meta) {
            return Some(HdrKind::BmffPq);
        }
    }
    None
}

/// Whether a photo is HDR, and how.
pub struct HdrInfo {
    /// The photo is HDR.
    pub is_hdr: bool,
    /// Name of the kind; empty where the photo is not HDR.
    pub kind: String,
}

/// `info` says how the photo carries HDR.
pub open spec fn is_info_of(info: HdrInfo, raw: Seq<u8>) -> bool {
    match hdr_kind(raw) {
        Some(kind) => info.is_hdr && info.kind@ == kind.name(),
        None => !info.is_hdr && info.kind@ == Seq::<char>::empty(),
    }
}

/// Whether a photo is HDR, and how.
pub fn detect_hdr_inner(raw: &[u8]) -> (info: HdrInfo)
    ensures
        is_info_of(info, raw@),
{
    let kind: Option<HdrKind> = if raw.len() < 16 {
        None
    } else if starts_with(raw, &PNG_SIG) {
        detect_png(raw)
    } else if raw[0] == 0xFF && raw[1] == 0xD8 {
        detect_jpeg(raw)
    } else if stands_at(raw, &FTYP, 4) {
        detect_bmff(raw)
    } else {
        None
    };
    match kind {
        Some(kind) => HdrInfo { is_hdr: true, kind: kind.label() },
        None => {
            proof {
                reveal_strlit("");
            }
            let kind: String = "".to_string();
            assert(kind@ =~= Seq::<char>::empty());
            HdrInfo { is_hdr: false, kind }
        },
    }
}

/// `detect_hdr_inner` for callers that own the data.
pub fn detect_hdr(raw: Vec<u8>) -> (info: HdrInfo)
    ensures
        is_info_of(info, raw@),
{
    detect_hdr_inner(raw.as_slice())
}

} // verus!
