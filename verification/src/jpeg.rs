//! JPEG marker segments: walking them, writing them, and dropping some of them.

use vstd::prelude::*;
use vstd::slice::{slice_subrange, slice_to_vec};

use crate::bytes::{
    append, append_be16, be16_bytes, begins_with, contains, occurs, read_be16, same_bytes, splice,
    starts_with, u16_be,
};
use crate::mpf::{mpf_second, mpf_second_image};
use crate::tags::{HDRGM, ICC_SIG, ISO21496_URN, MPF_SIG, XMP_SIG};

verus! {

/// A marker segment of a JPEG file.
pub struct JpegSegment<'a> {
    /// Marker code, the byte after `0xFF`.
    pub marker: u8,
    /// What follows the length field.
    pub payload: &'a [u8],
    /// Position of the `0xFF` in the file.
    pub start: usize,
}

/// What a `JpegSegment` stands for.
pub struct Segment {
    pub marker: u8,
    pub payload: Seq<u8>,
    pub start: int,
}

impl<'a> View for JpegSegment<'a> {
    type V = Segment;

    open spec fn view(&self) -> Segment {
        Segment { marker: self.marker, payload: self.payload@, start: self.start as int }
    }
}

/// The segments that a list of `JpegSegment` stands for.
pub open spec fn segment_views(v: Seq<JpegSegment>) -> Seq<Segment> {
    v.map_values(|s: JpegSegment| s@)
}

/// What stands at a position where a marker is due.
pub enum Scan {
    /// No marker, the start of scan data, the end of the image, or a segment that is cut off.
    Stop,
    /// A marker without a payload.
    Standalone,
    /// A segment that ends before `end`.
    Segment { marker: u8, end: int },
}

/// `TEM` and the restart markers, which have no length field.
pub open spec fn is_standalone(marker: u8) -> bool {
    marker == 0x01 || 0xD0 <= marker <= 0xD7
}

/// Application data and comments.
pub open spec fn is_app_or_comment(marker: u8) -> bool {
    0xE0 <= marker <= 0xEF || marker == 0xFE
}

/// What stands in `raw` at `off`.
pub open spec fn scan_at(raw: Seq<u8>, off: int) -> Scan {
    if off + 4 > raw.len() || raw[off] != 0xFF || raw[off + 1] == 0xDA || raw[off + 1] == 0xD9 {
        Scan::Stop
    } else if is_standalone(raw[off + 1]) {
        Scan::Standalone
    } else if u16_be(raw, off + 2) < 2 || off + 2 + u16_be(raw, off + 2) > raw.len() {
        Scan::Stop
    } else {
        Scan::Segment { marker: raw[off + 1], end: off + 2 + u16_be(raw, off + 2) }
    }
}

/// The bytes begin with a start-of-image marker and hold a little more.
pub open spec fn is_jpeg(raw: Seq<u8>) -> bool {
    raw.len() >= 4 && raw[0] == 0xFF && raw[1] == 0xD8
}

/// The segments from `off` up to the first place where the walk stops.
pub open spec fn segments_from(raw: Seq<u8>, off: int) -> Seq<Segment>
    decreases raw.len() - off,
{
    match scan_at(raw, off) {
        Scan::Stop => Seq::empty(),
        Scan::Standalone => segments_from(raw, off + 2),
        Scan::Segment { marker, end } => seq![
            Segment { marker, payload: raw.subrange(off + 4, end), start: off },
        ] + segments_from(raw, end),
    }
}

/// The segments of a JPEG file before its image data; none in anything else.
pub open spec fn segments(raw: Seq<u8>) -> Seq<Segment> {
    if is_jpeg(raw) {
        segments_from(raw, 2)
    } else {
        Seq::empty()
    }
}

/// The end of the run of application and comment segments that begins at `off`.
pub open spec fn app_run_end(raw: Seq<u8>, off: int) -> int
    decreases raw.len() - off,
{
    match scan_at(raw, off) {
        Scan::Segment { marker, end } => if is_app_or_comment(marker) {
            app_run_end(raw, end)
        } else {
            off
        },
        _ => off,
    }
}

/// The bytes of one segment.
pub open spec fn segment_bytes(marker: u8, payload: Seq<u8>) -> Seq<u8> {
    seq![0xFF, marker] + be16_bytes(payload.len() as int + 2) + payload
}

/// What writing a segment adds: nothing where the length field cannot hold its length.
pub open spec fn written_segment(marker: u8, payload: Seq<u8>) -> Seq<u8> {
    if payload.len() + 2 > 0xFFFF {
        Seq::empty()
    } else {
        segment_bytes(marker, payload)
    }
}

/// Markers and payloads of segments to write.
pub open spec fn part_views(parts: Seq<(u8, Vec<u8>)>) -> Seq<(u8, Seq<u8>)> {
    parts.map_values(|p: (u8, Vec<u8>)| (p.0, p.1@))
}

/// The bytes of several segments in a row.
pub open spec fn written_segments(parts: Seq<(u8, Seq<u8>)>) -> Seq<u8>
    decreases parts.len(),
{
    if parts.len() == 0 {
        Seq::empty()
    } else {
        written_segments(parts.drop_last()) + written_segment(parts.last().0, parts.last().1)
    }
}

/// Some segment of `raw` has this marker and payload.
pub open spec fn has_part(raw: Seq<u8>, marker: u8, payload: Seq<u8>) -> bool {
    exists|i: int|
        0 <= i < segments(raw).len() && (#[trigger] segments(raw)[i]).marker == marker
            && segments(raw)[i].payload == payload
}

/// The outcome of `scan_at`, as the walks use it.
pub enum Mark {
    Stop,
    Standalone,
    Segment { marker: u8, end: usize },
}

impl View for Mark {
    type V = Scan;

    open spec fn view(&self) -> Scan {
        match *self {
            Mark::Stop => Scan::Stop,
            Mark::Standalone => Scan::Standalone,
            Mark::Segment { marker, end } => Scan::Segment { marker, end: end as int },
        }
    }
}

/// What stands in `raw` at `off`.
pub fn scan(raw: &[u8], off: usize) -> (r: Mark)
    ensures
        r@ == scan_at(raw@, off as int),
        r matches Mark::Segment { marker: _, end } ==> off + 4 <= end <= raw@.len(),
        r is Standalone ==> off + 4 <= raw@.len() <= usize::MAX,
{
    if raw.len() < 4 || off > raw.len() - 4 || raw[off] != 0xFF {
        return Mark::Stop;
    }
    let marker: u8 = raw[off + 1];
    if marker == 0xDA || marker == 0xD9 {
        return Mark::Stop;
    }
    if marker == 0x01 || (marker >= 0xD0 && marker <= 0xD7) {
        return Mark::Standalone;
    }
    let len: usize = read_be16(raw, off + 2) as usize;
    if len < 2 || len > raw.len() - off - 2 {
        return Mark::Stop;
    }
    Mark::Segment { marker, end: off + 2 + len }
}

/// Whether the bytes begin with a start-of-image marker and hold a little more.
pub fn looks_like_jpeg(raw: &[u8]) -> (r: bool)
    ensures
        r == is_jpeg(raw@),
{
    raw.len() >= 4 && raw[0] == 0xFF && raw[1] == 0xD8
}

/// The segments of a JPEG file before its image data.
pub fn jpeg_segments<'a>(raw: &'a [u8]) -> (out: Vec<JpegSegment<'a>>)
    ensures
        segment_views(out@) == segments(raw@),
{
    let mut out: Vec<JpegSegment<'a>> = Vec::new();
    assert(segment_views(out@) =~= Seq::<Segment>::empty());
    if !looks_like_jpeg(raw) {
        return out;
    }
    let mut off: usize = 2;
    loop
        invariant
            off <= raw@.len(),
            segments_from(raw@, 2) == segment_views(out@) + segments_from(raw@, off as int),
        ensures
            segments_from(raw@, 2) == segment_views(out@),
        decreases raw@.len() - off,
    {
        match scan(raw, off) {
            Mark::Stop => {
                assert(segment_views(out@) + Seq::<Segment>::empty() =~= segment_views(out@));
                break;
            },
            Mark::Standalone => {
                off += 2;
            },
            Mark::Segment { marker, end } => {
                let ghost before = out@;
                let s: JpegSegment<'a> = JpegSegment {
                    marker,
                    payload: slice_subrange(raw, off + 4, end),
                    start: off,
                };
                out.push(s);
                proof {
                    assert(segment_views(out@) =~= segment_views(before) + seq![s@]);
                    assert(segment_views(before) + (seq![s@] + segments_from(raw@, end as int))
                        =~= segment_views(out@) + segments_from(raw@, end as int));
                }
                off = end;
            },
        }
    }
    out
}

/// Where new application segments go: behind those that follow the start of the image.
pub fn jpeg_app_insert_pos(raw: &[u8]) -> (r: usize)
    ensures
        r == app_run_end(raw@, 2),
        raw@.len() >= 2 ==> 2 <= r <= raw@.len(),
{
    let mut off: usize = 2;
    loop
        invariant
            2 <= off,
            off <= raw@.len() || off == 2,
            app_run_end(raw@, 2) == app_run_end(raw@, off as int),
        ensures
            2 <= off,
            off <= raw@.len() || off == 2,
            off == app_run_end(raw@, 2),
        decreases raw@.len() - off,
    {
        match scan(raw, off) {
            Mark::Segment { marker, end } => {
                if (marker >= 0xE0 && marker <= 0xEF) || marker == 0xFE {
                    off = end;
                } else {
                    break;
                }
            },
            _ => {
                break;
            },
        }
    }
    off
}

/// Appends a segment; one that is too long for its length field is left out.
pub fn write_jpeg_segment(out: &mut Vec<u8>, marker: u8, payload: &[u8])
    ensures
        final(out)@ == old(out)@ + written_segment(marker, payload@),
{
    if payload.len() > 0xFFFD {
        assert(out@ =~= old(out)@ + written_segment(marker, payload@));
        return;
    }
    out.push(0xFF);
    out.push(marker);
    append_be16(out, (payload.len() + 2) as u16);
    append(out, payload);
    assert(out@ =~= old(out)@ + written_segment(marker, payload@));
}

/// Whether some segment of `raw` has this marker and payload.
pub fn has_segment(raw: &[u8], marker: u8, payload: &[u8]) -> (r: bool)
    ensures
        r == has_part(raw@, marker, payload@),
{
    let segs: Vec<JpegSegment> = jpeg_segments(raw);
    let mut i: usize = 0;
    while i < segs.len()
        invariant
            i <= segs@.len(),
            segment_views(segs@) == segments(raw@),
            forall|j: int|
                0 <= j < i ==> !((#[trigger] segments(raw@)[j]).marker == marker && segments(
                    raw@,
                )[j].payload == payload@),
        decreases segs@.len() - i,
    {
        assert(segments(raw@)[i as int] == segs@[i as int]@);
        if segs[i].marker == marker && same_bytes(segs[i].payload, payload) {
            return true;
        }
        i += 1;
    }
    false
}

/// Inserts segments at `at`.
pub fn insert_segments(raw: &mut Vec<u8>, at: usize, segs: &[(u8, Vec<u8>)])
    requires
        at <= old(raw)@.len(),
    ensures
        final(raw)@ == old(raw)@.subrange(0, at as int) + written_segments(part_views(segs@))
            + old(raw)@.subrange(at as int, old(raw)@.len() as int),
{
    let mut buf: Vec<u8> = Vec::new();
    let mut i: usize = 0;
    assert(part_views(segs@).take(0) =~= Seq::empty());
    while i < segs.len()
        invariant
            i <= segs@.len(),
            buf@ == written_segments(part_views(segs@).take(i as int)),
        decreases segs@.len() - i,
    {
        write_jpeg_segment(&mut buf, segs[i].0, segs[i].1.as_slice());
        i += 1;
        proof {
            let parts = part_views(segs@);
            assert(parts.take(i as int).drop_last() =~= parts.take(i - 1));
            assert(parts.take(i as int).last() == (segs@[i - 1].0, segs@[i - 1].1@));
        }
    }
    assert(part_views(segs@).take(i as int) =~= part_views(segs@));
    splice(raw, at, at, buf.as_slice());
}

/// What is left of `raw` from `off` on where segments that `drop` names are dropped. With
/// `through` the walk goes on behind standalone markers, which stay.
pub open spec fn stripped_from(
    raw: Seq<u8>,
    off: int,
    drop: spec_fn(u8, Seq<u8>) -> bool,
    through: bool,
) -> Seq<u8>
    decreases raw.len() - off,
{
    match scan_at(raw, off) {
        Scan::Segment { marker, end } => (if drop(marker, raw.subrange(off + 4, end)) {
            Seq::empty()
        } else {
            raw.subrange(off, end)
        }) + stripped_from(raw, end, drop, through),
        Scan::Standalone => if through {
            raw.subrange(off, off + 2) + stripped_from(raw, off + 2, drop, through)
        } else {
            raw.subrange(off, raw.len() as int)
        },
        Scan::Stop => raw.subrange(off, raw.len() as int),
    }
}

/// `raw` without the segments that `drop` names; the first two bytes stay in any case.
pub open spec fn stripped(
    raw: Seq<u8>,
    drop: spec_fn(u8, Seq<u8>) -> bool,
    through: bool,
) -> Seq<u8> {
    if raw.len() < 2 {
        raw
    } else {
        raw.subrange(0, 2) + stripped_from(raw, 2, drop, through)
    }
}

/// An APP2 segment whose payload begins with `prefix`.
pub open spec fn is_app2_with(prefix: Seq<u8>) -> spec_fn(u8, Seq<u8>) -> bool {
    |marker: u8, payload: Seq<u8>| marker == 0xE2 && begins_with(payload, prefix)
}

/// Gain map metadata: XMP with gain map attributes, ISO 21496-1, or a multi-picture directory.
pub open spec fn is_hdr_metadata() -> spec_fn(u8, Seq<u8>) -> bool {
    |marker: u8, payload: Seq<u8>|
        {
            ||| marker == 0xE1 && begins_with(payload, XMP_SIG@) && occurs(payload, HDRGM@)
            ||| marker == 0xE2 && (begins_with(payload, ISO21496_URN@) || begins_with(
                payload,
                MPF_SIG@,
            ))
        }
}

/// `raw` without the APP2 segments whose payload begins with `prefix`.
pub fn strip_app2(raw: &[u8], prefix: &[u8]) -> (out: Vec<u8>)
    ensures
        out@ == stripped(raw@, is_app2_with(prefix@), false),
{
    if raw.len() < 2 {
        return slice_to_vec(raw);
    }
    let mut out: Vec<u8> = Vec::with_capacity(raw.len());
    append(&mut out, slice_subrange(raw, 0, 2));
    let ghost drop = is_app2_with(prefix@);
    assert(raw@.subrange(0, 2) =~= out@);
    let mut off: usize = 2;
    loop
        invariant
            off <= raw@.len(),
            2 <= raw@.len(),
            drop == is_app2_with(prefix@),
            stripped(raw@, drop, false) == out@ + stripped_from(raw@, off as int, drop, false),
        ensures
            off <= raw@.len(),
            stripped(raw@, drop, false) == out@ + raw@.subrange(off as int, raw@.len() as int),
        decreases raw@.len() - off,
    {
        match scan(raw, off) {
            Mark::Segment { marker, end } => {
                let ghost before = out@;
                let ghost rest = stripped_from(raw@, end as int, drop, false);
                if !(marker == 0xE2 && starts_with(slice_subrange(raw, off + 4, end), prefix)) {
                    append(&mut out, slice_subrange(raw, off, end));
                    assert(before + (raw@.subrange(off as int, end as int) + rest) =~= out@ + rest);
                } else {
                    assert(before + (Seq::<u8>::empty() + rest) =~= out@ + rest);
                }
                off = end;
            },
            _ => {
                break;
            },
        }
    }
    append(&mut out, slice_subrange(raw, off, raw.len()));
    out
}

/// `raw` without its multi-picture directories.
pub fn strip_mpf(raw: &[u8]) -> (out: Vec<u8>)
    ensures
        out@ == stripped(raw@, is_app2_with(MPF_SIG@), false),
{
    strip_app2(raw, &MPF_SIG)
}

/// `raw` without its ICC profile segments.
pub fn strip_icc(raw: &[u8]) -> (out: Vec<u8>)
    ensures
        out@ == stripped(raw@, is_app2_with(ICC_SIG@), false),
{
    strip_app2(raw, &ICC_SIG)
}

/// `raw` without gain map metadata, so that newly written metadata meets no stale copy.
pub fn strip_hdr_metadata(raw: &[u8]) -> (out: Vec<u8>)
    ensures
        out@ == stripped(raw@, is_hdr_metadata(), true),
{
    if raw.len() < 2 {
        return slice_to_vec(raw);
    }
    let mut out: Vec<u8> = Vec::with_capacity(raw.len());
    append(&mut out, slice_subrange(raw, 0, 2));
    let ghost drop = is_hdr_metadata();
    assert(raw@.subrange(0, 2) =~= out@);
    let mut off: usize = 2;
    loop
        invariant
            off <= raw@.len(),
            2 <= raw@.len(),
            drop == is_hdr_metadata(),
            stripped(raw@, drop, true) == out@ + stripped_from(raw@, off as int, drop, true),
        ensures
            off <= raw@.len(),
            stripped(raw@, drop, true) == out@ + raw@.subrange(off as int, raw@.len() as int),
        decreases raw@.len() - off,
    {
        match scan(raw, off) {
            Mark::Stop => {
                break;
            },
            Mark::Standalone => {
                let ghost before = out@;
                let ghost rest = stripped_from(raw@, off + 2, drop, true);
                append(&mut out, slice_subrange(raw, off, off + 2));
                assert(before + (raw@.subrange(off as int, off + 2) + rest) =~= out@ + rest);
                off += 2;
            },
            Mark::Segment { marker, end } => {
                let ghost before = out@;
                let ghost rest = stripped_from(raw@, end as int, drop, true);
                let payload: &[u8] = slice_subrange(raw, off + 4, end);
                let stale: bool = (marker == 0xE1 && starts_with(payload, &XMP_SIG) && contains(
                    payload,
                    &HDRGM,
                )) || (marker == 0xE2 && (starts_with(payload, &ISO21496_URN) || starts_with(
                    payload,
                    &MPF_SIG,
                )));
                if !stale {
                    append(&mut out, slice_subrange(raw, off, end));
                    assert(before + (raw@.subrange(off as int, end as int) + rest) =~= out@ + rest);
                } else {
                    assert(before + (Seq::<u8>::empty() + rest) =~= out@ + rest);
                }
                off = end;
            },
        }
    }
    append(&mut out, slice_subrange(raw, off, raw.len()));
    out
}

/// Walks a JPEG image from `off`, inside or behind its header, to its end marker: the position
/// behind that marker. Bytes outside a segment are passed over one by one.
pub open spec fn image_end_from(raw: Seq<u8>, off: int) -> Option<int>
    decreases raw.len() - off,
{
    if off + 1 >= raw.len() {
        None
    } else if raw[off] != 0xFF {
        image_end_from(raw, off + 1)
    } else if raw[off + 1] == 0x00 || is_standalone(raw[off + 1]) {
        image_end_from(raw, off + 2)
    } else if raw[off + 1] == 0xD9 {
        Some(off + 2)
    } else if off + 4 > raw.len() || u16_be(raw, off + 2) < 2 || off + 2 + u16_be(raw, off + 2)
        > raw.len() {
        None
    } else {
        image_end_from(raw, off + 2 + u16_be(raw, off + 2))
    }
}

/// The position behind the end marker of the JPEG image that begins at `start`.
pub open spec fn image_end(raw: Seq<u8>, start: int) -> Option<int> {
    if start + 2 > raw.len() || raw[start] != 0xFF || raw[start + 1] != 0xD8 {
        None
    } else {
        image_end_from(raw, start + 2)
    }
}

/// The position behind the end marker of the JPEG image that begins at `start`.
pub fn jpeg_image_end(raw: &[u8], start: usize) -> (r: Option<usize>)
    ensures
        match r {
            Some(end) => image_end(raw@, start as int) == Some(end as int) && start + 4 <= end
                <= raw@.len(),
            None => image_end(raw@, start as int) is None,
        },
{
    if raw.len() < 2 || start > raw.len() - 2 || raw[start] != 0xFF || raw[start + 1] != 0xD8 {
        return None;
    }
    let mut off: usize = start + 2;
    while off < raw.len() - 1
        invariant
            start + 2 <= off,
            off <= raw@.len(),
            2 <= raw@.len(),
            image_end(raw@, start as int) == image_end_from(raw@, off as int),
        decreases raw@.len() - off,
    {
        if raw[off] != 0xFF {
            off += 1;
            continue;
        }
        let m: u8 = raw[off + 1];
        if m == 0x00 || m == 0x01 || (m >= 0xD0 && m <= 0xD7) {
            off += 2;
            continue;
        }
        if m == 0xD9 {
            return Some(off + 2);
        }
        if raw.len() - off < 4 {
            return None;
        }
        let len: usize = read_be16(raw, off + 2) as usize;
        if len < 2 || len > raw.len() - off - 2 {
            return None;
        }
        off += 2 + len;
    }
    None
}

/// An image begins at `p`: a start-of-image marker and a further marker.
pub open spec fn image_starts_at(raw: Seq<u8>, p: int) -> bool {
    &&& p + 3 < raw.len()
    &&& raw[p] == 0xFF && raw[p + 1] == 0xD8 && raw[p + 2] == 0xFF && raw[p + 3] != 0x00
}

/// Position and length of the first image that begins at or after `p`; one without an end marker
/// reaches to the end of the file.
pub open spec fn next_image_from(raw: Seq<u8>, p: int) -> Option<(int, int)>
    decreases raw.len() - p,
{
    if p + 3 >= raw.len() {
        None
    } else if image_starts_at(raw, p) {
        match image_end(raw, p) {
            Some(end) => Some((p, end - p)),
            None => Some((p, raw.len() - p)),
        }
    } else {
        next_image_from(raw, p + 1)
    }
}

/// Position and length of the image that follows the first one.
pub open spec fn sequential_range(raw: Seq<u8>) -> Option<(int, int)> {
    match image_end(raw, 0) {
        Some(end) => next_image_from(raw, end),
        None => None,
    }
}

/// Position and length of the second image that a segment's directory lists, where an image does
/// begin there. A listed length of 0 means up to the end of the file.
pub open spec fn listed_range(raw: Seq<u8>, s: Segment) -> Option<(int, int)> {
    if s.marker != 0xE2 {
        None
    } else {
        match mpf_second(s.payload) {
            Some((off, size)) => {
                let abs = s.start + 8 + off;
                if abs + 4 <= raw.len() && raw[abs] == 0xFF && raw[abs + 1] == 0xD8 {
                    Some(
                        (
                            abs,
                            if size == 0 || size > raw.len() - abs {
                                raw.len() - abs
                            } else {
                                size
                            },
                        ),
                    )
                } else {
                    None
                }
            },
            None => None,
        }
    }
}

/// The first range that a segment of `segs` at or after `i` lists.
pub open spec fn first_listed(raw: Seq<u8>, segs: Seq<Segment>, i: int) -> Option<(int, int)>
    decreases segs.len() - i,
{
    if i >= segs.len() {
        None
    } else {
        match listed_range(raw, segs[i]) {
            Some(range) => Some(range),
            None => first_listed(raw, segs, i + 1),
        }
    }
}

/// Position and length of the gain map: what a directory lists, else the second image in the file.
pub open spec fn gainmap_at(raw: Seq<u8>) -> Option<(int, int)> {
    match first_listed(raw, segments(raw), 0) {
        Some(range) => Some(range),
        None => sequential_range(raw),
    }
}

/// Position and length of the image that follows the first one.
pub fn sequential_gainmap_range(raw: &[u8]) -> (r: Option<(usize, usize)>)
    ensures
        match r {
            Some((abs, size)) => sequential_range(raw@) == Some((abs as int, size as int)) && abs
                + size <= raw@.len(),
            None => sequential_range(raw@) is None,
        },
{
    let mut p: usize = match jpeg_image_end(raw, 0) {
        Some(end) => end,
        None => return None,
    };
    while raw.len() - p > 3
        invariant
            p <= raw@.len(),
            sequential_range(raw@) == next_image_from(raw@, p as int),
        decreases raw@.len() - p,
    {
        if raw[p] == 0xFF && raw[p + 1] == 0xD8 && raw[p + 2] == 0xFF && raw[p + 3] != 0x00 {
            let end: usize = match jpeg_image_end(raw, p) {
                Some(end) => end,
                None => raw.len(),
            };
            return Some((p, end - p));
        }
        p += 1;
    }
    None
}

/// Position and length of the gain map in an Ultra HDR file. A directory whose offset points at no
/// image is passed over; without a usable one the second image in the file is taken.
pub fn gainmap_range(raw: &[u8]) -> (r: Option<(usize, usize)>)
    ensures
        match r {
            Some((abs, size)) => gainmap_at(raw@) == Some((abs as int, size as int)) && abs + size
                <= raw@.len(),
            None => gainmap_at(raw@) is None,
        },
{
    let segs: Vec<JpegSegment> = jpeg_segments(raw);
    let mut i: usize = 0;
    while i < segs.len()
        invariant
            i <= segs@.len(),
            segment_views(segs@) == segments(raw@),
            first_listed(raw@, segments(raw@), 0) == first_listed(raw@, segments(raw@), i as int),
        decreases segs@.len() - i,
    {
        assert(segments(raw@)[i as int] == segs@[i as int]@);
        if segs[i].marker == 0xE2 {
            if let Some((img_off, img_size)) = mpf_second_image(segs[i].payload) {
                let abs: u128 = segs[i].start as u128 + 8 + img_off as u128;
                if abs + 4 <= raw.len() as u128 {
                    let at: usize = abs as usize;
                    if raw[at] == 0xFF && raw[at + 1] == 0xD8 {
                        let left: usize = raw.len() - at;
                        let size: usize = if img_size == 0 || img_size > left {
                            left
                        } else {
                            img_size
                        };
                        return Some((at, size));
                    }
                }
            }
        }
        i += 1;
    }
    sequential_gainmap_range(raw)
}

} // verus!
