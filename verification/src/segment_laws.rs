//! What is read from, stripped from and taken over of JPEG files, stated of the segments that are
//! written into them.

use vstd::prelude::*;

use crate::bytes::{begins_with, u16_be};
use crate::detect_laws::{has_text, lemma_has_text};
use crate::heic_laws::{holds_at, lemma_holds_piece};
use crate::jpeg::{
    is_app2_with, is_hdr_metadata, scan_at, segments, segments_from, stripped, stripped_from, Scan,
    Segment,
};
use crate::run::Part;
use crate::tags::{HDRGM, HDR_GAIN_MAP, ICC_SIG, ISO21496_URN, MPF_SIG, XMP_SIG};
use crate::ultrahdr::{carried, carried_parts, is_carried};

verus! {

/// The bytes of a segment: its marker, the length of what follows the marker, and its payload.
pub open spec fn part_bytes(p: Part) -> Seq<u8> {
    seq![0xFFu8, p.0, ((p.1.len() + 2) / 256) as u8, ((p.1.len() + 2) % 256) as u8] + p.1
}

/// The bytes of segments in a row.
pub open spec fn parts_bytes(list: Seq<Part>) -> Seq<u8>
    decreases list.len(),
{
    if list.len() == 0 {
        Seq::empty()
    } else {
        part_bytes(list[0]) + parts_bytes(list.skip(1))
    }
}

/// Segments that can be written: no scan, no end of image and no standalone marker, and payloads
/// that a length field can count.
pub open spec fn are_parts(list: Seq<Part>) -> bool {
    forall|i: int| 0 <= i < list.len() ==> is_part(#[trigger] list[i])
}

/// A segment that can be written.
pub open spec fn is_part(p: Part) -> bool {
    &&& p.0 != 0xDA && p.0 != 0xD9 && p.0 != 0x01 && !(0xD0 <= p.0 <= 0xD7)
    &&& p.1.len() + 2 <= 0xFFFF
}

/// No segment begins the bytes: they are the scan, the end of the image, or nothing of a JPEG file.
pub open spec fn is_image_rest(rest: Seq<u8>) -> bool {
    rest.len() < 4 || rest[0] != 0xFF || rest[1] == 0xDA || rest[1] == 0xD9
}

/// A JPEG file: the start marker, segments, and the rest of the image.
pub open spec fn jpeg_file(list: Seq<Part>, rest: Seq<u8>) -> Seq<u8> {
    seq![0xFFu8, 0xD8] + parts_bytes(list) + rest
}

pub(crate) proof fn lemma_part_at(raw: Seq<u8>, off: int, p: Part)
    requires
        is_part(p),
        holds_at(raw, off, part_bytes(p)),
    ensures
        scan_at(raw, off) == (Scan::Segment { marker: p.0, end: off + 4 + p.1.len() }),
        raw.subrange(off + 4, off + 4 + p.1.len()) == p.1,
        raw.subrange(off, off + 4 + p.1.len()) == part_bytes(p),
{
    let n = p.1.len() as int;
    let b = part_bytes(p);
    let s = raw.subrange(off, off + 4 + n);
    assert(s == b);
    assert(s[0] == raw[off] && s[1] == raw[off + 1] && s[2] == raw[off + 2] && s[3] == raw[off
        + 3]);
    assert(u16_be(raw, off + 2) == n + 2) by {
        assert((n + 2) / 256 * 256 + (n + 2) % 256 == n + 2) by (nonlinear_arith);
    }
    assert(raw.subrange(off + 4, off + 4 + n) =~= b.subrange(4, 4 + n));
    assert(b.subrange(4, 4 + n) =~= p.1);
}

pub(crate) proof fn lemma_rest_stops(raw: Seq<u8>, off: int, rest: Seq<u8>)
    requires
        0 <= off <= raw.len(),
        raw.subrange(off, raw.len() as int) == rest,
        is_image_rest(rest),
    ensures
        scan_at(raw, off) == Scan::Stop,
{
    if rest.len() >= 4 {
        assert(rest[0] == raw[off] && rest[1] == raw[off + 1]);
    }
}

proof fn lemma_segments_at(raw: Seq<u8>, off: int, list: Seq<Part>, rest: Seq<u8>)
    requires
        0 <= off <= raw.len(),
        are_parts(list),
        is_image_rest(rest),
        raw.subrange(off, raw.len() as int) == parts_bytes(list) + rest,
    ensures
        segments_from(raw, off).len() == list.len(),
        forall|i: int|
            0 <= i < list.len() ==> (#[trigger] segments_from(raw, off)[i]).marker == list[i].0
                && segments_from(raw, off)[i].payload == list[i].1,
    decreases list.len(),
{
    let tail = raw.subrange(off, raw.len() as int);
    if list.len() == 0 {
        assert(parts_bytes(list) + rest =~= rest);
        lemma_rest_stops(raw, off, rest);
    } else {
        let (p, others) = (list[0], list.skip(1));
        let next = off + 4 + p.1.len();
        assert(is_part(p));
        assert(parts_bytes(list) + rest =~= part_bytes(p) + (parts_bytes(others) + rest));
        assert(holds_at(raw, off, part_bytes(p) + (parts_bytes(others) + rest)));
        lemma_holds_piece(raw, off, part_bytes(p), parts_bytes(others) + rest);
        lemma_part_at(raw, off, p);
        assert forall|i: int| 0 <= i < others.len() implies is_part(#[trigger] others[i]) by {
            assert(others[i] == list[i + 1]);
        }
        lemma_segments_at(raw, next, others, rest);
        let found = segments_from(raw, off);
        let behind = segments_from(raw, next);
        assert(found == seq![Segment { marker: p.0, payload: p.1, start: off }] + behind);
        assert forall|i: int| 0 <= i < list.len() implies (#[trigger] found[i]).marker
            == list[i].0 && found[i].payload == list[i].1 by {
            if i > 0 {
                assert(found[i] == behind[i - 1]);
                assert(others[i - 1] == list[i]);
            }
        }
    }
}

/// The segments of a JPEG file are those that were written, in order, with their markers and
/// payloads.
pub proof fn law_segments_read_back(list: Seq<Part>, rest: Seq<u8>)
    requires
        are_parts(list),
        is_image_rest(rest),
        jpeg_file(list, rest).len() >= 4,
    ensures
        segments(jpeg_file(list, rest)).len() == list.len(),
        forall|i: int|
            0 <= i < list.len() ==> (#[trigger] segments(jpeg_file(list, rest))[i]).marker
                == list[i].0 && segments(jpeg_file(list, rest))[i].payload == list[i].1,
{
    let raw = jpeg_file(list, rest);
    assert(raw.subrange(2, raw.len() as int) =~= parts_bytes(list) + rest);
    lemma_segments_at(raw, 2, list, rest);
}

/// The segments of a list that `drop` does not name, in order.
pub open spec fn left_over(list: Seq<Part>, drop: spec_fn(Part) -> bool) -> Seq<Part>
    decreases list.len(),
{
    if list.len() == 0 {
        Seq::empty()
    } else if drop(list[0]) {
        left_over(list.skip(1), drop)
    } else {
        seq![list[0]] + left_over(list.skip(1), drop)
    }
}

proof fn lemma_stripped_at(
    raw: Seq<u8>,
    off: int,
    list: Seq<Part>,
    rest: Seq<u8>,
    kind: spec_fn(u8, Seq<u8>) -> bool,
    drop: spec_fn(Part) -> bool,
    through: bool,
)
    requires
        0 <= off <= raw.len(),
        are_parts(list),
        is_image_rest(rest),
        raw.subrange(off, raw.len() as int) == parts_bytes(list) + rest,
        forall|p: Part| #[trigger] drop(p) == kind(p.0, p.1),
    ensures
        stripped_from(raw, off, kind, through) == parts_bytes(left_over(list, drop)) + rest,
    decreases list.len(),
{
    if list.len() == 0 {
        assert(parts_bytes(list) + rest =~= rest);
        assert(parts_bytes(left_over(list, drop)) + rest =~= rest);
        lemma_rest_stops(raw, off, rest);
    } else {
        let (p, others) = (list[0], list.skip(1));
        let next = off + 4 + p.1.len();
        assert(is_part(p));
        assert(parts_bytes(list) + rest =~= part_bytes(p) + (parts_bytes(others) + rest));
        assert(holds_at(raw, off, part_bytes(p) + (parts_bytes(others) + rest)));
        lemma_holds_piece(raw, off, part_bytes(p), parts_bytes(others) + rest);
        lemma_part_at(raw, off, p);
        assert forall|i: int| 0 <= i < others.len() implies is_part(#[trigger] others[i]) by {
            assert(others[i] == list[i + 1]);
        }
        lemma_stripped_at(raw, next, others, rest, kind, drop, through);
        let left = left_over(others, drop);
        assert(drop(p) == kind(p.0, p.1));
        if drop(p) {
            assert(Seq::<u8>::empty() + (parts_bytes(left) + rest) =~= parts_bytes(left) + rest);
        } else {
            let all = seq![p] + left;
            assert(all[0] == p);
            assert(all.skip(1) =~= left);
            assert(part_bytes(p) + (parts_bytes(left) + rest) =~= parts_bytes(all) + rest);
        }
    }
}

proof fn lemma_stripped_file_is(
    list: Seq<Part>,
    rest: Seq<u8>,
    kind: spec_fn(u8, Seq<u8>) -> bool,
    drop: spec_fn(Part) -> bool,
    through: bool,
)
    requires
        are_parts(list),
        is_image_rest(rest),
        forall|p: Part| #[trigger] drop(p) == kind(p.0, p.1),
    ensures
        stripped(jpeg_file(list, rest), kind, through) == jpeg_file(left_over(list, drop), rest),
{
    let raw = jpeg_file(list, rest);
    assert(raw.subrange(2, raw.len() as int) =~= parts_bytes(list) + rest);
    assert(raw.subrange(0, 2) =~= seq![0xFFu8, 0xD8]);
    lemma_stripped_at(raw, 2, list, rest, kind, drop, through);
    assert(seq![0xFFu8, 0xD8] + (parts_bytes(left_over(list, drop)) + rest) =~= jpeg_file(
        left_over(list, drop),
        rest,
    ));
}

/// The payload begins with the text.
pub open spec fn opens_with(p: Part, text: Seq<u8>) -> bool {
    holds_at(p.1, 0, text)
}

/// Gain map metadata that a new file must not inherit: an XMP packet with gain map attributes, an
/// ISO 21496-1 segment, or a multi-picture directory.
pub open spec fn is_stale(p: Part) -> bool {
    ||| p.0 == 0xE1 && opens_with(p, XMP_SIG@) && has_text(p.1, HDRGM@)
    ||| p.0 == 0xE2 && opens_with(p, ISO21496_URN@)
    ||| p.0 == 0xE2 && opens_with(p, MPF_SIG@)
}

/// Stripping a file of gain map metadata drops the stale segments and keeps all other bytes: the
/// other segments in their order, and the image.
pub proof fn law_stripping_drops_stale_metadata(list: Seq<Part>, rest: Seq<u8>)
    requires
        are_parts(list),
        is_image_rest(rest),
    ensures
        stripped(jpeg_file(list, rest), is_hdr_metadata(), true) == jpeg_file(
            left_over(list, |p: Part| is_stale(p)),
            rest,
        ),
{
    let drop = |p: Part| is_stale(p);
    assert forall|p: Part| #[trigger] drop(p) == is_hdr_metadata()(p.0, p.1) by {
        lemma_has_text(p.1, HDRGM@);
        assert(begins_with(p.1, XMP_SIG@) == opens_with(p, XMP_SIG@));
        assert(begins_with(p.1, ISO21496_URN@) == opens_with(p, ISO21496_URN@));
        assert(begins_with(p.1, MPF_SIG@) == opens_with(p, MPF_SIG@));
    }
    lemma_stripped_file_is(list, rest, is_hdr_metadata(), drop, true);
}

/// Stripping a file of APP2 segments with a prefix drops those and keeps all other bytes.
pub proof fn law_stripping_drops_app2_with_prefix(
    list: Seq<Part>,
    rest: Seq<u8>,
    prefix: Seq<u8>,
)
    requires
        are_parts(list),
        is_image_rest(rest),
    ensures
        stripped(jpeg_file(list, rest), is_app2_with(prefix), false) == jpeg_file(
            left_over(list, |p: Part| p.0 == 0xE2 && opens_with(p, prefix)),
            rest,
        ),
{
    let drop = |p: Part| p.0 == 0xE2 && opens_with(p, prefix);
    assert forall|p: Part| #[trigger] drop(p) == is_app2_with(prefix)(p.0, p.1) by {
        assert(begins_with(p.1, prefix) == opens_with(p, prefix));
    }
    lemma_stripped_file_is(list, rest, is_app2_with(prefix), drop, false);
}

/// A segment that a new file takes over: an XMP packet that names a gain map, an ISO 21496-1
/// segment, and with `icc` a colour profile.
pub open spec fn is_taken_over(p: Part, icc: bool) -> bool {
    ||| p.0 == 0xE1 && opens_with(p, XMP_SIG@) && (has_text(p.1, HDRGM@) || has_text(
        p.1,
        HDR_GAIN_MAP@,
    ))
    ||| p.0 == 0xE2 && opens_with(p, ISO21496_URN@)
    ||| icc && p.0 == 0xE2 && opens_with(p, ICC_SIG@)
}

/// Segment `i` is the first one in the list with its marker and payload.
pub open spec fn is_new(list: Seq<Part>, i: int) -> bool {
    forall|j: int| 0 <= j < i ==> #[trigger] list[j] != list[i]
}

/// `taken` are the segments of the list that are taken over, in order and each once.
pub open spec fn are_taken_over(
    taken: Seq<Part>,
    list: Seq<Part>,
    icc: bool,
    places: Seq<int>,
) -> bool {
    &&& places.len() == taken.len()
    &&& forall|i: int|
        0 <= i < taken.len() ==> 0 <= #[trigger] places[i] < list.len() && list[places[i]]
            == taken[i] && is_taken_over(taken[i], icc) && is_new(list, places[i])
    &&& forall|i: int, j: int|
        0 <= i < j < places.len() ==> #[trigger] places[i] < #[trigger] places[j]
    &&& forall|k: int|
        0 <= k < list.len() && is_taken_over(#[trigger] list[k], icc) ==> taken.contains(list[k])
}

proof fn lemma_is_carried(s: Segment, p: Part, icc: bool)
    requires
        s.marker == p.0,
        s.payload == p.1,
    ensures
        is_carried(s, icc) == is_taken_over(p, icc),
{
    lemma_has_text(p.1, HDRGM@);
    lemma_has_text(p.1, HDR_GAIN_MAP@);
    assert(begins_with(p.1, XMP_SIG@) == opens_with(p, XMP_SIG@));
    assert(begins_with(p.1, ISO21496_URN@) == opens_with(p, ISO21496_URN@));
    assert(begins_with(p.1, ICC_SIG@) == opens_with(p, ICC_SIG@));
}

proof fn lemma_taken_over(
    segs: Seq<Segment>,
    list: Seq<Part>,
    icc: bool,
    n: int,
) -> (places: Seq<int>)
    requires
        0 <= n <= list.len(),
        are_parts(list),
        segs.len() == list.len(),
        forall|i: int|
            0 <= i < list.len() ==> (#[trigger] segs[i]).marker == list[i].0 && segs[i].payload
                == list[i].1,
    ensures
        are_taken_over(carried(segs, icc, n), list.take(n), icc, places),
    decreases n,
{
    let taken = carried(segs, icc, n);
    if n == 0 {
        Seq::empty()
    } else {
        let before = lemma_taken_over(segs, list, icc, n - 1);
        let old = carried(segs, icc, n - 1);
        let (shorter, longer) = (list.take(n - 1), list.take(n));
        let p = list[n - 1];
        assert(segs[n - 1].marker == p.0 && segs[n - 1].payload == p.1);
        assert(is_part(p));
        lemma_is_carried(segs[n - 1], p, icc);
        assert forall|i: int| 0 <= i < before.len() implies 0 <= #[trigger] before[i] < n - 1
            && longer[before[i]] == old[i] && is_taken_over(old[i], icc) && is_new(
            longer,
            before[i],
        ) by {
            let q = before[i];
            assert(shorter[q] == longer[q]);
            assert(is_new(shorter, q));
            assert forall|j: int| 0 <= j < q implies #[trigger] longer[j] != longer[q] by {
                assert(shorter[j] == longer[j]);
            }
        }
        if is_taken_over(p, icc) && !old.contains(p) {
            let places = before.push(n - 1);
            assert(taken == old.push(p));
            assert(is_new(longer, n - 1)) by {
                assert forall|j: int| 0 <= j < n - 1 implies #[trigger] longer[j]
                    != longer[n - 1] by {
                    assert(shorter[j] == longer[j]);
                }
            }
            assert forall|k: int| 0 <= k < longer.len() && is_taken_over(
                #[trigger] longer[k],
                icc,
            ) implies taken.contains(longer[k]) by {
                if k < n - 1 {
                    assert(shorter[k] == longer[k]);
                    let i = choose|i: int| 0 <= i < old.len() && old[i] == longer[k];
                    assert(taken[i] == longer[k]);
                } else {
                    assert(taken[old.len() as int] == p);
                }
            }
            assert forall|i: int| 0 <= i < taken.len() implies 0 <= #[trigger] places[i]
                < longer.len() && longer[places[i]] == taken[i] && is_taken_over(taken[i], icc)
                && is_new(longer, places[i]) by {
                if i < before.len() {
                    assert(places[i] == before[i]);
                    assert(taken[i] == old[i]);
                }
            }
            places
        } else {
            assert(taken == old);
            assert forall|k: int| 0 <= k < longer.len() && is_taken_over(
                #[trigger] longer[k],
                icc,
            ) implies taken.contains(longer[k]) by {
                if k < n - 1 {
                    assert(shorter[k] == longer[k]);
                }
            }
            before
        }
    }
}

/// What is taken over of a JPEG file are the segments with gain map metadata that were written into
/// it, all of them, in order and each once.
pub proof fn law_gainmap_segments_are_taken_over(
    list: Seq<Part>,
    rest: Seq<u8>,
    icc: bool,
) -> (places: Seq<int>)
    requires
        are_parts(list),
        is_image_rest(rest),
        jpeg_file(list, rest).len() >= 4,
    ensures
        are_taken_over(carried_parts(jpeg_file(list, rest), icc), list, icc, places),
{
    law_segments_read_back(list, rest);
    let segs = segments(jpeg_file(list, rest));
    let places = lemma_taken_over(segs, list, icc, list.len() as int);
    assert(list.take(list.len() as int) =~= list);
    places
}

/// A marker without a length: `TEM` or a restart marker.
pub open spec fn is_bare_marker(m: u8) -> bool {
    m == 0x01 || 0xD0 <= m <= 0xD7
}

/// The bytes behind some segments: a bare marker, further segments, and the rest of the image.
pub open spec fn marked_rest(m: u8, list: Seq<Part>, rest: Seq<u8>) -> Seq<u8> {
    seq![0xFFu8, m] + parts_bytes(list) + rest
}

proof fn lemma_behind_parts(
    raw: Seq<u8>,
    off: int,
    list: Seq<Part>,
    tail: Seq<u8>,
    kind: spec_fn(u8, Seq<u8>) -> bool,
    drop: spec_fn(Part) -> bool,
    through: bool,
)
    requires
        0 <= off <= raw.len(),
        are_parts(list),
        raw.subrange(off, raw.len() as int) == parts_bytes(list) + tail,
        forall|p: Part| #[trigger] drop(p) == kind(p.0, p.1),
    ensures
        ({
            let at = off + parts_bytes(list).len();
            let (all, behind) = (segments_from(raw, off), segments_from(raw, at));
            &&& at <= raw.len()
            &&& raw.subrange(at, raw.len() as int) == tail
            &&& all.len() == list.len() + behind.len()
            &&& forall|i: int|
                0 <= i < list.len() ==> (#[trigger] all[i]).marker == list[i].0 && all[i].payload
                    == list[i].1
            &&& all.skip(list.len() as int) == behind
            &&& stripped_from(raw, off, kind, through) == parts_bytes(left_over(list, drop))
                + stripped_from(raw, at, kind, through)
        }),
    decreases list.len(),
{
    let at = off + parts_bytes(list).len();
    let behind = segments_from(raw, at);
    assert(raw.subrange(off, raw.len() as int).len() == (parts_bytes(list) + tail).len());
    if list.len() == 0 {
        assert(parts_bytes(list) + tail =~= tail);
        assert(behind.skip(0) =~= behind);
        assert(parts_bytes(left_over(list, drop)) + stripped_from(raw, at, kind, through)
            =~= stripped_from(raw, at, kind, through));
    } else {
        let (p, others) = (list[0], list.skip(1));
        let next = off + 4 + p.1.len();
        assert(is_part(p));
        assert(parts_bytes(list) + tail =~= part_bytes(p) + (parts_bytes(others) + tail));
        assert(holds_at(raw, off, part_bytes(p) + (parts_bytes(others) + tail)));
        lemma_holds_piece(raw, off, part_bytes(p), parts_bytes(others) + tail);
        lemma_part_at(raw, off, p);
        assert forall|i: int| 0 <= i < others.len() implies is_part(#[trigger] others[i]) by {
            assert(others[i] == list[i + 1]);
        }
        lemma_behind_parts(raw, next, others, tail, kind, drop, through);
        let inner = segments_from(raw, next);
        let all = segments_from(raw, off);
        assert(all == seq![Segment { marker: p.0, payload: p.1, start: off }] + inner);
        assert(all.skip(list.len() as int) =~= inner.skip(others.len() as int));
        assert forall|i: int| 0 <= i < list.len() implies (#[trigger] all[i]).marker == list[i].0
            && all[i].payload == list[i].1 by {
            if i > 0 {
                assert(all[i] == inner[i - 1]);
                assert(others[i - 1] == list[i]);
            }
        }
        let left = left_over(others, drop);
        let s = stripped_from(raw, at, kind, through);
        assert(drop(p) == kind(p.0, p.1));
        if drop(p) {
            assert(Seq::<u8>::empty() + (parts_bytes(left) + s) =~= parts_bytes(left) + s);
        } else {
            let kept = seq![p] + left;
            assert(kept[0] == p);
            assert(kept.skip(1) =~= left);
            assert(part_bytes(p) + (parts_bytes(left) + s) =~= parts_bytes(kept) + s);
        }
    }
}

/// Bare markers between segments are passed over: the segments are those before and those behind.
pub proof fn law_bare_markers_are_passed_over(
    list: Seq<Part>,
    m: u8,
    more: Seq<Part>,
    rest: Seq<u8>,
)
    requires
        are_parts(list),
        is_bare_marker(m),
        are_parts(more),
        is_image_rest(rest),
        parts_bytes(more).len() + rest.len() >= 2,
    ensures
        ({
            let segs = segments(jpeg_file(list, marked_rest(m, more, rest)));
            let all = list + more;
            &&& segs.len() == all.len()
            &&& forall|i: int|
                0 <= i < all.len() ==> (#[trigger] segs[i]).marker == all[i].0 && segs[i].payload
                    == all[i].1
        }),
{
    let tail = marked_rest(m, more, rest);
    let raw = jpeg_file(list, tail);
    let at = 2 + parts_bytes(list).len() as int;
    let drop = |p: Part| false;
    let kind = |marker: u8, payload: Seq<u8>| false;
    lemma_bare_marker_at(list, m, more, rest);
    lemma_behind_parts(raw, 2, list, tail, kind, drop, true);
    lemma_segments_at(raw, at + 2, more, rest);
    let segs = segments(raw);
    let behind = segments_from(raw, at + 2);
    let n = list.len() as int;
    assert(segs.skip(n) == behind);
    assert forall|i: int| 0 <= i < n + more.len() implies (#[trigger] segs[i]).marker == (list
        + more)[i].0 && segs[i].payload == (list + more)[i].1 by {
        if i >= n {
            assert(segs[i] == segs.skip(n)[i - n]);
            assert(segs[i] == behind[i - n]);
        }
    }
}

proof fn lemma_bare_marker_at(list: Seq<Part>, m: u8, more: Seq<Part>, rest: Seq<u8>)
    requires
        is_bare_marker(m),
        parts_bytes(more).len() + rest.len() >= 2,
    ensures
        ({
            let tail = marked_rest(m, more, rest);
            let raw = jpeg_file(list, tail);
            let at = 2 + parts_bytes(list).len() as int;
            &&& raw.subrange(0, 2) == seq![0xFFu8, 0xD8]
            &&& raw.subrange(2, raw.len() as int) == parts_bytes(list) + tail
            &&& raw.subrange(at, raw.len() as int) == tail
            &&& raw.subrange(at, at + 2) == seq![0xFFu8, m]
            &&& raw.subrange(at + 2, raw.len() as int) == parts_bytes(more) + rest
            &&& at + 2 <= raw.len()
            &&& scan_at(raw, at) == Scan::Standalone
        }),
{
    let tail = marked_rest(m, more, rest);
    let raw = jpeg_file(list, tail);
    let at = 2 + parts_bytes(list).len() as int;
    assert(raw.subrange(0, 2) =~= seq![0xFFu8, 0xD8]);
    assert(raw.subrange(2, raw.len() as int) =~= parts_bytes(list) + tail);
    assert(raw.subrange(at, raw.len() as int) =~= tail);
    assert(tail[0] == raw[at] && tail[1] == raw[at + 1]);
    assert(raw.subrange(at, at + 2) =~= seq![0xFFu8, m]);
    assert(raw.subrange(at + 2, raw.len() as int) =~= parts_bytes(more) + rest);
}

/// Stripping gain map metadata goes on behind bare markers, which stay where they are.
pub proof fn law_stripping_goes_on_behind_bare_markers(
    list: Seq<Part>,
    m: u8,
    more: Seq<Part>,
    rest: Seq<u8>,
)
    requires
        are_parts(list),
        is_bare_marker(m),
        are_parts(more),
        is_image_rest(rest),
        parts_bytes(more).len() + rest.len() >= 2,
    ensures
        stripped(jpeg_file(list, marked_rest(m, more, rest)), is_hdr_metadata(), true)
            == jpeg_file(
            left_over(list, |p: Part| is_stale(p)),
            marked_rest(m, left_over(more, |p: Part| is_stale(p)), rest),
        ),
{
    let tail = marked_rest(m, more, rest);
    let raw = jpeg_file(list, tail);
    let at = 2 + parts_bytes(list).len() as int;
    let stale = |p: Part| is_stale(p);
    let kind = is_hdr_metadata();
    assert forall|p: Part| #[trigger] stale(p) == kind(p.0, p.1) by {
        lemma_has_text(p.1, HDRGM@);
        assert(begins_with(p.1, XMP_SIG@) == opens_with(p, XMP_SIG@));
        assert(begins_with(p.1, ISO21496_URN@) == opens_with(p, ISO21496_URN@));
        assert(begins_with(p.1, MPF_SIG@) == opens_with(p, MPF_SIG@));
    }
    lemma_bare_marker_at(list, m, more, rest);
    lemma_behind_parts(raw, 2, list, tail, kind, stale, true);
    lemma_stripped_at(raw, at + 2, more, rest, kind, stale, true);
    let before = parts_bytes(left_over(list, stale));
    let behind = parts_bytes(left_over(more, stale)) + rest;
    assert(stripped_from(raw, at, kind, true) == seq![0xFFu8, m] + behind);
    assert(seq![0xFFu8, 0xD8] + (before + (seq![0xFFu8, m] + behind)) =~= jpeg_file(
        left_over(list, stale),
        marked_rest(m, left_over(more, stale), rest),
    ));
}

/// Stripping APP2 segments with a prefix ends at the first bare marker: what follows stays as it
/// is.
pub proof fn law_stripping_app2_ends_at_bare_markers(
    list: Seq<Part>,
    m: u8,
    more: Seq<Part>,
    rest: Seq<u8>,
    prefix: Seq<u8>,
)
    requires
        are_parts(list),
        is_bare_marker(m),
        are_parts(more),
        is_image_rest(rest),
        parts_bytes(more).len() + rest.len() >= 2,
    ensures
        stripped(jpeg_file(list, marked_rest(m, more, rest)), is_app2_with(prefix), false)
            == jpeg_file(
            left_over(list, |p: Part| p.0 == 0xE2 && opens_with(p, prefix)),
            marked_rest(m, more, rest),
        ),
{
    let tail = marked_rest(m, more, rest);
    let raw = jpeg_file(list, tail);
    let at = 2 + parts_bytes(list).len() as int;
    let named = |p: Part| p.0 == 0xE2 && opens_with(p, prefix);
    let kind = is_app2_with(prefix);
    assert forall|p: Part| #[trigger] named(p) == kind(p.0, p.1) by {
        assert(begins_with(p.1, prefix) == opens_with(p, prefix));
    }
    lemma_bare_marker_at(list, m, more, rest);
    lemma_behind_parts(raw, 2, list, tail, kind, named, false);
    let before = parts_bytes(left_over(list, named));
    assert(stripped_from(raw, at, kind, false) == tail);
    assert(seq![0xFFu8, 0xD8] + (before + tail) =~= jpeg_file(left_over(list, named), tail));
}

} // verus!
