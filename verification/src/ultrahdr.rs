//! Assembling and taking apart Ultra HDR files: a JPEG photo with a JPEG gain map behind it.

use vstd::prelude::*;
use vstd::slice::{slice_subrange, slice_to_vec};

use crate::bytes::{
    append, append_be32, be32_bytes, begins_with, contains, occurs, same_bytes, splice, starts_with,
};
use crate::codec::bytes_result;
use crate::jpeg::{
    app_run_end, gainmap_at, gainmap_range, has_part, has_segment, insert_segments, is_app2_with,
    is_hdr_metadata, is_jpeg, jpeg_app_insert_pos, jpeg_segments, looks_like_jpeg, part_views,
    segment_views, segments, strip_hdr_metadata, strip_icc, strip_mpf, stripped, written_segments,
    JpegSegment, Segment,
};
use crate::mpf::{build_mpf_segment, mpf_segment, MPF_MARKER_LEN};
use crate::tags::{HDRGM, HDR_GAIN_MAP, ICC_SIG, ISO21496_URN, MPF_SIG, XMP_SIG};
use crate::xmp::{
    build_primary_xmp, build_secondary_xmp, patch_xmp_in_jpeg, primary_xmp, secondary_xmp,
    with_patched_xmp_from,
};

verus! {

/// A photo that is no JPEG file.
pub const BASE_NOT_JPEG: &'static str = "base is not a JPEG";

/// A gain map that is no JPEG file.
pub const GAIN_MAP_NOT_JPEG: &'static str = "gain map is not a JPEG";

/// An original without a gain map.
pub const ORIGINAL_WITHOUT_GAIN_MAP: &'static str = "original has no MPF gain map";

/// A file without a gain map.
pub const NO_GAIN_MAP: &'static str = "no MPF gain map found";

/// Denominator of the numbers in ISO 21496-1 metadata that are written.
pub const ISO21496_DENOM: u32 = 1_000_000;

/// The largest gain of a gain map that is written, log2.
pub struct GainRange {
    /// In millionths.
    pub micro: u32,
    /// In decimal notation.
    pub text: Vec<u8>,
}

/// The segment holds gain map metadata that a new file takes over: XMP with gain map attributes,
/// ISO 21496-1, and with `icc` a colour profile.
pub open spec fn is_carried(s: Segment, icc: bool) -> bool {
    ||| s.marker == 0xE1 && begins_with(s.payload, XMP_SIG@) && (occurs(s.payload, HDRGM@)
        || occurs(s.payload, HDR_GAIN_MAP@))
    ||| s.marker == 0xE2 && begins_with(s.payload, ISO21496_URN@)
    ||| icc && s.marker == 0xE2 && begins_with(s.payload, ICC_SIG@)
}

/// What a new file takes over of the first `n` segments, nothing twice.
pub open spec fn carried(segs: Seq<Segment>, icc: bool, n: int) -> Seq<(u8, Seq<u8>)>
    decreases n,
{
    if n <= 0 {
        Seq::empty()
    } else {
        let before = carried(segs, icc, n - 1);
        let part = (segs[n - 1].marker, segs[n - 1].payload);
        if is_carried(segs[n - 1], icc) && part.1.len() + 2 <= 0xFFFF && !before.contains(part) {
            before.push(part)
        } else {
            before
        }
    }
}

/// What a new file takes over of `raw`.
pub open spec fn carried_parts(raw: Seq<u8>, icc: bool) -> Seq<(u8, Seq<u8>)> {
    carried(segments(raw), icc, segments(raw).len() as int)
}

/// Whether the list holds the part.
fn has_carried(parts: &[(u8, Vec<u8>)], marker: u8, payload: &[u8]) -> (r: bool)
    ensures
        r == part_views(parts@).contains((marker, payload@)),
{
    let ghost views = part_views(parts@);
    let mut i: usize = 0;
    while i < parts.len()
        invariant
            i <= parts@.len(),
            views == part_views(parts@),
            forall|j: int| 0 <= j < i ==> views[j] != (marker, payload@),
        decreases parts@.len() - i,
    {
        assert(views[i as int] == (parts@[i as int].0, parts@[i as int].1@));
        if parts[i].0 == marker && same_bytes(parts[i].1.as_slice(), payload) {
            return true;
        }
        i += 1;
    }
    false
}

/// The gain map metadata segments of `raw`, nothing twice.
pub fn hdr_carry_segments(raw: &[u8], include_icc: bool) -> (out: Vec<(u8, Vec<u8>)>)
    ensures
        part_views(out@) == carried_parts(raw@, include_icc),
{
    let segs: Vec<JpegSegment> = jpeg_segments(raw);
    let ghost views = segment_views(segs@);
    let mut out: Vec<(u8, Vec<u8>)> = Vec::new();
    let mut i: usize = 0;
    assert(part_views(out@) =~= Seq::empty());
    while i < segs.len()
        invariant
            i <= segs@.len(),
            views == segment_views(segs@),
            views == segments(raw@),
            part_views(out@) == carried(views, include_icc, i as int),
        decreases segs@.len() - i,
    {
        let ghost before = part_views(out@);
        assert(views[i as int] == segs@[i as int]@);
        let marker: u8 = segs[i].marker;
        let payload: &[u8] = segs[i].payload;
        let is_hdr_meta: bool = (marker == 0xE1 && starts_with(payload, &XMP_SIG) && (contains(
            payload,
            &HDRGM,
        ) || contains(payload, &HDR_GAIN_MAP))) || (marker == 0xE2 && starts_with(
            payload,
            &ISO21496_URN,
        )) || (include_icc && marker == 0xE2 && starts_with(payload, &ICC_SIG));
        if is_hdr_meta && payload.len() <= 0xFFFD && !has_carried(out.as_slice(), marker, payload) {
            out.push((marker, slice_to_vec(payload)));
            assert(part_views(out@) =~= before.push((marker, payload@)));
        }
        i += 1;
    }
    assert(views.len() == segs@.len());
    out
}

/// `file` with `parts` behind its run of application segments.
pub open spec fn with_parts(file: Seq<u8>, parts: Seq<(u8, Seq<u8>)>) -> Seq<u8> {
    let at = app_run_end(file, 2);
    file.subrange(0, at) + written_segments(parts) + file.subrange(at, file.len() as int)
}

/// The parts that `file` does not have, in order, of the first `n`.
pub open spec fn missing_of(file: Seq<u8>, parts: Seq<(u8, Seq<u8>)>, n: int) -> Seq<(u8, Seq<u8>)>
    decreases n,
{
    if n <= 0 {
        Seq::empty()
    } else if has_part(file, parts[n - 1].0, parts[n - 1].1) {
        missing_of(file, parts, n - 1)
    } else {
        missing_of(file, parts, n - 1).push(parts[n - 1])
    }
}

/// The parts that `file` does not have, in order.
pub open spec fn missing(file: Seq<u8>, parts: Seq<(u8, Seq<u8>)>) -> Seq<(u8, Seq<u8>)> {
    missing_of(file, parts, parts.len() as int)
}

/// The parts that `file` does not have.
fn missing_parts(file: &[u8], parts: &[(u8, Vec<u8>)]) -> (out: Vec<(u8, Vec<u8>)>)
    ensures
        part_views(out@) == missing(file@, part_views(parts@)),
{
    let ghost views = part_views(parts@);
    let mut out: Vec<(u8, Vec<u8>)> = Vec::new();
    let mut i: usize = 0;
    assert(part_views(out@) =~= Seq::empty());
    while i < parts.len()
        invariant
            i <= parts@.len(),
            views == part_views(parts@),
            part_views(out@) == missing_of(file@, views, i as int),
        decreases parts@.len() - i,
    {
        let ghost before = part_views(out@);
        assert(views[i as int] == (parts@[i as int].0, parts@[i as int].1@));
        if !has_segment(file, parts[i].0, parts[i].1.as_slice()) {
            out.push((parts[i].0, slice_to_vec(parts[i].1.as_slice())));
            assert(part_views(out@) =~= before.push(views[i as int]));
        }
        i += 1;
    }
    assert(views.len() == parts@.len());
    out
}

/// Inserts `parts` behind the run of application segments.
fn insert_parts(file: &mut Vec<u8>, parts: &[(u8, Vec<u8>)])
    requires
        old(file)@.len() >= 2,
    ensures
        final(file)@ == with_parts(old(file)@, part_views(parts@)),
        final(file)@.len() >= 2,
{
    let at: usize = jpeg_app_insert_pos(file.as_slice());
    insert_segments(file, at, parts);
}

/// `base` with a multi-picture directory behind its run of application segments, and `gm` behind
/// the whole, where the directory lists it.
pub open spec fn with_gainmap(base: Seq<u8>, gm: Seq<u8>) -> Seq<u8> {
    let at = app_run_end(base, 2);
    let base_len = base.len() + MPF_MARKER_LEN;
    base.subrange(0, at) + mpf_segment(base_len, gm.len() as int, base_len - (at + 8))
        + base.subrange(at, base.len() as int) + gm
}

/// Adds a multi-picture directory and the gain map to the base.
fn attach_gainmap(out: &mut Vec<u8>, gm: &[u8])
    requires
        old(out)@.len() >= 2,
    ensures
        final(out)@ == with_gainmap(old(out)@, gm@),
{
    let at: usize = jpeg_app_insert_pos(out.as_slice());
    let base_total_len: u128 = out.len() as u128 + MPF_MARKER_LEN as u128;
    let gm_offset: u128 = base_total_len - (at as u128 + 8);
    let mpf: Vec<u8> = build_mpf_segment(base_total_len, gm.len() as u128, gm_offset);
    splice(out, at, at, mpf.as_slice());
    append(out, gm);
}

/// The first colour profile among the parts.
pub open spec fn first_icc(parts: Seq<(u8, Seq<u8>)>, i: int) -> Option<Seq<u8>>
    decreases parts.len() - i,
{
    if i >= parts.len() {
        None
    } else if parts[i].0 == 0xE2 && begins_with(parts[i].1, ICC_SIG@) {
        Some(parts[i].1)
    } else {
        first_icc(parts, i + 1)
    }
}

/// Some segment of the file holds a colour profile.
pub open spec fn has_icc(file: Seq<u8>) -> bool {
    exists|i: int|
        0 <= i < segments(file).len() && (#[trigger] segments(file)[i]).marker == 0xE2
            && begins_with(segments(file)[i].payload, ICC_SIG@)
}

/// The gain map without colour profiles, where it has some but not the one among `parts`; else as
/// it is.
pub open spec fn without_other_icc(gainmap: Seq<u8>, parts: Seq<(u8, Seq<u8>)>) -> Seq<u8> {
    match first_icc(parts, 0) {
        Some(icc) => if has_icc(gainmap) && !has_part(gainmap, 0xE2, icc) {
            stripped(gainmap, is_app2_with(ICC_SIG@), false)
        } else {
            gainmap
        },
        None => gainmap,
    }
}

/// The gain map with the metadata of the original's gain map, of which `parts` are what is taken
/// over.
pub open spec fn attached_gainmap(gainmap: Seq<u8>, parts: Seq<(u8, Seq<u8>)>) -> Seq<u8> {
    let gm = without_other_icc(gainmap, parts);
    with_parts(gm, missing(gm, parts))
}

/// The base with the gain map metadata of the original, and without its directories. The container
/// directory declares a gain map of `gm_len` bytes.
pub open spec fn carrying_base(base: Seq<u8>, original: Seq<u8>, gm_len: nat) -> Seq<u8> {
    let out = stripped(base, is_app2_with(MPF_SIG@), false);
    let parts = missing(out, carried_parts(original, false));
    with_patched_xmp_from(with_parts(out, parts), 2, gm_len)
}

/// The gain map of the original.
pub open spec fn original_gainmap(original: Seq<u8>) -> Seq<u8> {
    let (abs, size) = gainmap_at(original)->Some_0;
    original.subrange(abs, abs + size)
}

/// The gain map that an assembled file has.
pub open spec fn assembled_gainmap(original: Seq<u8>, gainmap: Seq<u8>) -> Seq<u8> {
    attached_gainmap(gainmap, carried_parts(original_gainmap(original), true))
}

/// What assembling gives: the base and the gain map, both with the metadata of the original.
pub open spec fn assembled(original: Seq<u8>, base: Seq<u8>, gainmap: Seq<u8>) -> Result<
    Seq<u8>,
    Seq<char>,
> {
    if !is_jpeg(base) {
        Err(BASE_NOT_JPEG@)
    } else if !is_jpeg(gainmap) {
        Err(GAIN_MAP_NOT_JPEG@)
    } else if gainmap_at(original) is None {
        Err(ORIGINAL_WITHOUT_GAIN_MAP@)
    } else {
        let gm = assembled_gainmap(original, gainmap);
        Ok(with_gainmap(carrying_base(base, original, gm.len()), gm))
    }
}

/// The first colour profile among the parts.
fn find_icc(parts: &[(u8, Vec<u8>)]) -> (r: Option<Vec<u8>>)
    ensures
        match r {
            Some(icc) => first_icc(part_views(parts@), 0) == Some(icc@),
            None => first_icc(part_views(parts@), 0) is None,
        },
{
    let ghost views = part_views(parts@);
    let mut i: usize = 0;
    while i < parts.len()
        invariant
            i <= parts@.len(),
            views == part_views(parts@),
            first_icc(views, 0) == first_icc(views, i as int),
        decreases parts@.len() - i,
    {
        assert(views[i as int] == (parts@[i as int].0, parts@[i as int].1@));
        if parts[i].0 == 0xE2 && starts_with(parts[i].1.as_slice(), &ICC_SIG) {
            return Some(slice_to_vec(parts[i].1.as_slice()));
        }
        i += 1;
    }
    None
}

/// Whether some segment of the file holds a colour profile.
fn holds_icc(file: &[u8]) -> (r: bool)
    ensures
        r == has_icc(file@),
{
    let segs: Vec<JpegSegment> = jpeg_segments(file);
    let mut i: usize = 0;
    while i < segs.len()
        invariant
            i <= segs@.len(),
            segment_views(segs@) == segments(file@),
            forall|j: int|
                0 <= j < i ==> !((#[trigger] segments(file@)[j]).marker == 0xE2 && begins_with(
                    segments(file@)[j].payload,
                    ICC_SIG@,
                )),
        decreases segs@.len() - i,
    {
        assert(segments(file@)[i as int] == segs@[i as int]@);
        if segs[i].marker == 0xE2 && starts_with(segs[i].payload, &ICC_SIG) {
            return true;
        }
        i += 1;
    }
    false
}

/// The gain map with the metadata of the original's gain map.
fn prepare_gainmap(gainmap: &[u8], carry: &[(u8, Vec<u8>)]) -> (gm: Vec<u8>)
    requires
        gainmap@.len() >= 2,
    ensures
        gm@ == attached_gainmap(gainmap@, part_views(carry@)),
{
    let mut gm: Vec<u8> = slice_to_vec(gainmap);
    if let Some(icc) = find_icc(carry) {
        if holds_icc(gainmap) && !has_segment(gainmap, 0xE2, icc.as_slice()) {
            gm = strip_icc(gainmap);
        }
    }
    let ins: Vec<(u8, Vec<u8>)> = missing_parts(gm.as_slice(), carry);
    insert_parts(&mut gm, ins.as_slice());
    gm
}

/// Assembles an Ultra HDR file of a re-encoded base and gain map, with the metadata of the original.
pub fn ultrahdr_assemble_inner(original: &[u8], base: &[u8], gainmap: &[u8]) -> (r: Result<
    Vec<u8>,
    String,
>)
    ensures
        bytes_result(r) == assembled(original@, base@, gainmap@),
{
    if !looks_like_jpeg(base) {
        return Err(BASE_NOT_JPEG.to_string());
    }
    if !looks_like_jpeg(gainmap) {
        return Err(GAIN_MAP_NOT_JPEG.to_string());
    }
    let (abs, size): (usize, usize) = match gainmap_range(original) {
        Some(range) => range,
        None => return Err(ORIGINAL_WITHOUT_GAIN_MAP.to_string()),
    };
    assert(original.len() == original@.len());
    let orig_gm: &[u8] = slice_subrange(original, abs, abs + size);
    let carry: Vec<(u8, Vec<u8>)> = hdr_carry_segments(orig_gm, true);
    let gm: Vec<u8> = prepare_gainmap(gainmap, carry.as_slice());

    let mut out: Vec<u8> = strip_mpf(base);
    let base_carry: Vec<(u8, Vec<u8>)> = hdr_carry_segments(original, false);
    let base_ins: Vec<(u8, Vec<u8>)> = missing_parts(out.as_slice(), base_carry.as_slice());
    insert_parts(&mut out, base_ins.as_slice());
    proof {
        crate::xmp::lemma_patched_keeps_head(out@, 2, gm@.len());
    }
    patch_xmp_in_jpeg(&mut out, gm.len());
    attach_gainmap(&mut out, gm.as_slice());
    Ok(out)
}

/// `ultrahdr_assemble_inner` for callers that own the data.
pub fn ultrahdr_assemble(original: Vec<u8>, base: Vec<u8>, gainmap: Vec<u8>) -> (r: Result<
    Vec<u8>,
    String,
>)
    ensures
        bytes_result(r) == assembled(original@, base@, gainmap@),
{
    ultrahdr_assemble_inner(original.as_slice(), base.as_slice(), gainmap.as_slice())
}

/// The gain map image of an Ultra HDR file.
pub fn ultrahdr_gainmap_inner(raw: &[u8]) -> (r: Option<Vec<u8>>)
    ensures
        match r {
            Some(gm) => gainmap_at(raw@) is Some && gm@ == original_gainmap(raw@),
            None => gainmap_at(raw@) is None,
        },
{
    match gainmap_range(raw) {
        Some((abs, size)) => {
            assert(raw.len() == raw@.len());
            Some(slice_to_vec(slice_subrange(raw, abs, abs + size)))
        },
        None => None,
    }
}

/// `ultrahdr_gainmap_inner` for callers that own the data.
pub fn ultrahdr_gainmap(raw: Vec<u8>) -> (r: Result<Vec<u8>, String>)
    ensures
        bytes_result(r) == (if gainmap_at(raw@) is Some {
            Ok(original_gainmap(raw@))
        } else {
            Err(NO_GAIN_MAP@)
        }),
{
    match ultrahdr_gainmap_inner(raw.as_slice()) {
        Some(gm) => Ok(gm),
        None => Err(NO_GAIN_MAP.to_string()),
    }
}

/// The ISO 21496-1 payload of a gain map with one channel, a common denominator, a base without
/// headroom, gains from 1 up to `micro` millionths (log2), and gamma 1.
pub open spec fn iso_payload(micro: u32) -> Seq<u8> {
    ISO21496_URN@ + seq![0u8, 0, 0, 0, 8] + be32_bytes(ISO21496_DENOM as int) + be32_bytes(
        0,
    ) + be32_bytes(micro as int) + be32_bytes(0) + be32_bytes(micro as int) + be32_bytes(
        ISO21496_DENOM as int,
    ) + be32_bytes(0) + be32_bytes(0)
}

/// The ISO 21496-1 payload of a gain map whose largest gain is `micro` millionths, log2.
pub fn build_iso21496_1_payload(micro: u32) -> (out: Vec<u8>)
    ensures
        out@ == iso_payload(micro),
{
    let mut out: Vec<u8> = Vec::new();
    append(&mut out, &ISO21496_URN);
    let head: [u8; 5] = [0, 0, 0, 0, 8];
    append(&mut out, &head);
    assert(head@ =~= seq![0u8, 0, 0, 0, 8]);
    append_be32(&mut out, ISO21496_DENOM);
    append_be32(&mut out, 0);
    append_be32(&mut out, micro);
    append_be32(&mut out, 0);
    append_be32(&mut out, micro);
    append_be32(&mut out, ISO21496_DENOM);
    append_be32(&mut out, 0);
    append_be32(&mut out, 0);
    out
}

/// The metadata that a new gain map gets.
pub open spec fn gainmap_parts(micro: u32, text: Seq<u8>) -> Seq<(u8, Seq<u8>)> {
    seq![(0xE1u8, secondary_xmp(text)), (0xE2u8, iso_payload(micro))]
}

/// The metadata that a new base gets: a container directory for a gain map of `gm_len` bytes.
pub open spec fn base_parts(micro: u32, gm_len: nat) -> Seq<(u8, Seq<u8>)> {
    seq![(0xE1u8, primary_xmp(gm_len)), (0xE2u8, iso_payload(micro))]
}

/// The gain map of a new file: stale metadata replaced by new.
pub open spec fn created_gainmap(gainmap: Seq<u8>, micro: u32, text: Seq<u8>) -> Seq<u8> {
    with_parts(stripped(gainmap, is_hdr_metadata(), true), gainmap_parts(micro, text))
}

/// The base of a new file: stale metadata replaced by new.
pub open spec fn created_base(base: Seq<u8>, micro: u32, gm_len: nat) -> Seq<u8> {
    with_parts(stripped(base, is_hdr_metadata(), true), base_parts(micro, gm_len))
}

/// What creating a file from a base and a gain map gives.
pub open spec fn created(base: Seq<u8>, gainmap: Seq<u8>, gain: Option<(u32, Seq<u8>)>) -> Result<
    Seq<u8>,
    Seq<char>,
> {
    if !is_jpeg(base) {
        Err(BASE_NOT_JPEG@)
    } else if !is_jpeg(gainmap) {
        Err(GAIN_MAP_NOT_JPEG@)
    } else {
        match gain {
            Some((micro, text)) => {
                let gm = created_gainmap(gainmap, micro, text);
                Ok(with_gainmap(created_base(base, micro, gm.len()), gm))
            },
            None => Err(crate::apple::INVALID_HEADROOM@),
        }
    }
}

/// The values of a gain range.
pub open spec fn range_view(gain: Option<&GainRange>) -> Option<(u32, Seq<u8>)> {
    match gain {
        Some(gain) => Some((gain.micro, gain.text@)),
        None => None,
    }
}

/// Creates an Ultra HDR file from a base and a gain map. There is no gain range where the headroom
/// is no finite number over 1.
pub fn ultrahdr_create_inner(base: &[u8], gainmap: &[u8], gain: Option<&GainRange>) -> (r: Result<
    Vec<u8>,
    String,
>)
    ensures
        bytes_result(r) == created(base@, gainmap@, range_view(gain)),
{
    if !looks_like_jpeg(base) {
        return Err(BASE_NOT_JPEG.to_string());
    }
    if !looks_like_jpeg(gainmap) {
        return Err(GAIN_MAP_NOT_JPEG.to_string());
    }
    let gain: &GainRange = match gain {
        Some(gain) => gain,
        None => return Err(crate::apple::INVALID_HEADROOM.to_string()),
    };
    let mut gm: Vec<u8> = strip_hdr_metadata(gainmap);
    let gm_ins: [(u8, Vec<u8>); 2] = [
        (0xE1, build_secondary_xmp(gain.text.as_slice())),
        (0xE2, build_iso21496_1_payload(gain.micro)),
    ];
    assert(part_views(gm_ins@) =~= gainmap_parts(gain.micro, gain.text@));
    insert_parts(&mut gm, &gm_ins);

    let mut out: Vec<u8> = strip_hdr_metadata(base);
    let base_ins: [(u8, Vec<u8>); 2] = [
        (0xE1, build_primary_xmp(gm.len())),
        (0xE2, build_iso21496_1_payload(gain.micro)),
    ];
    assert(part_views(base_ins@) =~= base_parts(gain.micro, gm@.len()));
    insert_parts(&mut out, &base_ins);
    attach_gainmap(&mut out, gm.as_slice());
    Ok(out)
}

/// `ultrahdr_create_inner` for callers that own the data.
pub fn ultrahdr_create(base: Vec<u8>, gainmap: Vec<u8>, gain: Option<&GainRange>) -> (r: Result<
    Vec<u8>,
    String,
>)
    ensures
        bytes_result(r) == created(base@, gainmap@, range_view(gain)),
{
    ultrahdr_create_inner(base.as_slice(), gainmap.as_slice(), gain)
}

} // verus!
