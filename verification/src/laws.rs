//! What holds of assembled and created Ultra HDR files as a whole.

use vstd::prelude::*;

use crate::bmff::least;
use crate::bytes::{
    be16_bytes, be32_bytes, begins_with, lemma_be16_round_trip, matches_at, occurs, u32_be,
};
use crate::detect::{
    hdr_kind, is_gainmap_metadata, jpeg_kind_from, jpeg_segment_kind, second_image_kind, HdrKind,
    JPEG_SEARCH_LIMIT, SECOND_IMAGE_LIMIT,
};
use crate::jpeg::{
    app_run_end, first_listed, gainmap_at, has_part, is_app2_with, is_app_or_comment,
    is_hdr_metadata, is_jpeg, listed_range, scan_at, segments, segments_from, stripped,
    stripped_from, written_segments, Scan, Segment,
};
use crate::mpf::{
    law_mpf_reads_back, lemma_mpf_head, lemma_mpf_needs_signature, mpf_second, mpf_segment,
    MPF_MARKER_LEN,
};
use crate::neutral::{
    common_channel, gives, gives_none, gives_values, has_bit, iso_metadata, sample_from_zero,
    Channel, Encoding, Metadata, Value,
};
use crate::run::{
    are_run_parts, is_run_part, lemma_run_end, lemma_run_prefix, lemma_run_tail, lemma_same_scan,
    lemma_scan_tail, lemma_written_run, run_parts, same_tail, Part,
};
use crate::tags::{ICC_SIG, ISO21496_URN, ISO_URN, MPF_SIG, XMP_SIG};
use crate::ultrahdr::{
    assembled, assembled_gainmap, attached_gainmap, carried, carried_parts, carrying_base, created,
    created_base, created_gainmap, first_icc, iso_payload, missing, missing_of, original_gainmap,
    with_gainmap, with_parts, without_other_icc,
};
use crate::xmp::{
    declared_length, lemma_patched_keeps_head, with_declared_length, with_patched_packet,
    with_patched_xmp_from,
};

verus! {

/// None of the parts is of the kind.
pub open spec fn lacks(parts: Seq<Part>, kind: spec_fn(u8, Seq<u8>) -> bool) -> bool {
    forall|i: int| 0 <= i < parts.len() ==> !kind((#[trigger] parts[i]).0, parts[i].1)
}

/// What is stripped of a kind of segment has none of the kind in its run.
pub proof fn lemma_stripped_run(
    raw: Seq<u8>,
    off: int,
    drop: spec_fn(u8, Seq<u8>) -> bool,
    through: bool,
    kind: spec_fn(u8, Seq<u8>) -> bool,
)
    requires
        0 <= off <= raw.len(),
        forall|m: u8, p: Seq<u8>| #[trigger] kind(m, p) ==> drop(m, p),
    ensures
        lacks(run_parts(stripped_from(raw, off, drop, through), 0), kind),
    decreases raw.len() - off,
{
    let t = stripped_from(raw, off, drop, through);
    match scan_at(raw, off) {
        Scan::Segment { marker, end } => {
            let payload = raw.subrange(off + 4, end);
            let rest = stripped_from(raw, end, drop, through);
            lemma_stripped_run(raw, end, drop, through, kind);
            if drop(marker, payload) {
                assert(t =~= rest);
            } else {
                lemma_kept_segment(raw, off, rest);
                assert(t == raw.subrange(off, end) + rest);
                if is_app_or_comment(marker) {
                    lemma_run_tail(t, end - off, rest, 0);
                    let parts = run_parts(t, 0);
                    assert(parts =~= seq![(marker, payload)] + run_parts(rest, 0));
                    assert(!kind(marker, payload));
                    assert forall|i: int| 0 <= i < parts.len() implies !kind(
                        (#[trigger] parts[i]).0,
                        parts[i].1,
                    ) by {
                        if i > 0 {
                            assert(parts[i] == run_parts(rest, 0)[i - 1]);
                        }
                    }
                }
            }
        },
        Scan::Standalone => if through {
            assert(t[0] == raw[off] && t[1] == raw[off + 1]);
            assert(!(scan_at(t, 0) is Segment));
        } else {
            assert(t.subrange(0, t.len() as int) =~= raw.subrange(off, raw.len() as int));
            lemma_scan_tail(raw, off, t, 0);
        },
        Scan::Stop => {
            assert(t.subrange(0, t.len() as int) =~= raw.subrange(off, raw.len() as int));
            lemma_scan_tail(raw, off, t, 0);
        },
    }
}

/// A segment with something else behind it is read as before.
pub proof fn lemma_kept_segment(raw: Seq<u8>, off: int, rest: Seq<u8>)
    requires
        0 <= off,
        scan_at(raw, off) is Segment,
    ensures
        scan_at(raw, off) matches Scan::Segment { marker, end } && {
            let t = raw.subrange(off, end) + rest;
            &&& off + 4 <= end <= raw.len()
            &&& scan_at(t, 0) == (Scan::Segment { marker, end: end - off })
            &&& t.subrange(4, end - off) == raw.subrange(off + 4, end)
            &&& same_tail(t, end - off, rest, 0)
        },
{
    if let Scan::Segment { marker, end } = scan_at(raw, off) {
        let t = raw.subrange(off, end) + rest;
        assert(t[0] == raw[off] && t[1] == raw[off + 1] && t[2] == raw[off + 2] && t[3] == raw[off
            + 3]);
        assert(t.subrange(4, end - off) =~= raw.subrange(off + 4, end));
        assert(t.subrange(end - off, t.len() as int) =~= rest.subrange(0, rest.len() as int));
    }
}

/// What is left of a file has none of the dropped segments in its run.
pub proof fn lemma_stripped_file_run(
    raw: Seq<u8>,
    drop: spec_fn(u8, Seq<u8>) -> bool,
    through: bool,
    kind: spec_fn(u8, Seq<u8>) -> bool,
)
    requires
        raw.len() >= 2,
        forall|m: u8, p: Seq<u8>| #[trigger] kind(m, p) ==> drop(m, p),
    ensures
        lacks(run_parts(stripped(raw, drop, through), 2), kind),
        stripped(raw, drop, through).len() >= 2,
        stripped(raw, drop, through)[0] == raw[0],
        stripped(raw, drop, through)[1] == raw[1],
{
    let t = stripped_from(raw, 2, drop, through);
    let s = stripped(raw, drop, through);
    lemma_stripped_run(raw, 2, drop, through, kind);
    assert(s.subrange(2, s.len() as int) =~= t.subrange(0, t.len() as int));
    lemma_run_tail(s, 2, t, 0);
}

/// Parts that are inserted behind the run of a file are read back at its end.
pub proof fn law_inserted_parts_are_read_back(file: Seq<u8>, parts: Seq<Part>)
    requires
        file.len() >= 2,
        are_run_parts(parts),
    ensures
        run_parts(with_parts(file, parts), 2) == run_parts(file, 2) + parts,
        app_run_end(with_parts(file, parts), 2) == app_run_end(file, 2) + written_segments(
            parts,
        ).len(),
        with_parts(file, parts).len() == file.len() + written_segments(parts).len(),
        with_parts(file, parts)[0] == file[0],
        with_parts(file, parts)[1] == file[1],
{
    let at = app_run_end(file, 2);
    let w = written_segments(parts);
    let out = with_parts(file, parts);
    lemma_run_end(file, 2);
    assert(out.subrange(0, at) =~= file.subrange(0, at));
    lemma_run_prefix(file, out, 2);
    assert(out.subrange(at, at + w.len()) =~= w);
    lemma_written_run(out, at, parts);
    assert(out.subrange(at + w.len(), out.len() as int) =~= file.subrange(at, file.len() as int));
    lemma_run_tail(out, at + w.len(), file, at);
    lemma_end_of_run(file, 2);
    lemma_scan_tail(file, at, out, at + w.len());
    assert(run_parts(out, at + w.len()) =~= Seq::empty());
    assert(app_run_end(out, at + w.len()) == at + w.len());
    assert(run_parts(out, 2) =~= run_parts(file, 2) + parts);
}

/// Where a run ends, no segment of a run stands.
pub proof fn lemma_end_of_run(raw: Seq<u8>, off: int)
    requires
        0 <= off <= raw.len(),
    ensures
        !(scan_at(raw, app_run_end(raw, off)) matches Scan::Segment { marker, end: _ }
            && is_app_or_comment(marker)),
        run_parts(raw, app_run_end(raw, off)) == Seq::<Part>::empty(),
    decreases raw.len() - off,
{
    if let Scan::Segment { marker, end } = scan_at(raw, off) {
        if is_app_or_comment(marker) {
            lemma_end_of_run(raw, end);
        }
    }
}

/// The first listed range of a list with one more segment in front.
pub(crate) proof fn lemma_first_listed_step(raw: Seq<u8>, s: Segment, rest: Seq<Segment>)
    ensures
        first_listed(raw, seq![s] + rest, 0) == (match listed_range(raw, s) {
            Some(range) => Some(range),
            None => first_listed(raw, rest, 0),
        }),
{
    assert((seq![s] + rest)[0] == s);
    lemma_first_listed_shift(raw, s, rest, 0);
}

proof fn lemma_first_listed_shift(raw: Seq<u8>, s: Segment, rest: Seq<Segment>, i: int)
    requires
        0 <= i,
    ensures
        first_listed(raw, seq![s] + rest, i + 1) == first_listed(raw, rest, i),
    decreases rest.len() - i,
{
    if i < rest.len() {
        assert((seq![s] + rest)[i + 1] == rest[i]);
        lemma_first_listed_shift(raw, s, rest, i + 1);
    }
}

/// A run without directories lists nothing.
pub(crate) proof fn lemma_run_lists_nothing(x: Seq<u8>, y: Seq<u8>, off: int)
    requires
        0 <= off <= x.len(),
        app_run_end(x, off) <= y.len(),
        x.subrange(0, app_run_end(x, off)) == y.subrange(0, app_run_end(x, off)),
        lacks(run_parts(x, off), is_app2_with(MPF_SIG@)),
    ensures
        first_listed(y, segments_from(y, off), 0) == first_listed(
            y,
            segments_from(y, app_run_end(x, off)),
            0,
        ),
    decreases x.len() - off,
{
    if let Scan::Segment { marker, end } = scan_at(x, off) {
        if is_app_or_comment(marker) {
            let at = app_run_end(x, off);
            lemma_run_end(x, end);
            lemma_same_scan(x, y, off, at);
            let payload = x.subrange(off + 4, end);
            let first = Segment { marker, payload, start: off };
            let parts = run_parts(x, off);
            assert(parts[0] == (marker, payload));
            assert(!is_app2_with(MPF_SIG@)(parts[0].0, parts[0].1));
            if marker == 0xE2 {
                lemma_mpf_needs_signature(payload);
            }
            assert(listed_range(y, first) is None);
            assert(segments_from(y, off) == seq![first] + segments_from(y, end));
            lemma_first_listed_step(y, first, segments_from(y, end));
            assert forall|i: int| 0 <= i < run_parts(x, end).len() implies !is_app2_with(
                MPF_SIG@,
            )((#[trigger] run_parts(x, end)[i]).0, run_parts(x, end)[i].1) by {
                assert(parts[i + 1] == run_parts(x, end)[i]);
            }
            lemma_run_lists_nothing(x, y, end);
        }
    }
}

/// Where the directory and the gain map stand that were added to a file.
pub(crate) proof fn lemma_gainmap_layout(base: Seq<u8>, gm: Seq<u8>)
    requires
        base.len() >= 2,
    ensures
        ({
            let file = with_gainmap(base, gm);
            let at = app_run_end(base, 2);
            let base_len = base.len() + MPF_MARKER_LEN;
            let dir = mpf_segment(base_len, gm.len() as int, base_len - (at + 8));
            &&& 2 <= at <= base.len()
            &&& dir.len() == 90
            &&& file.len() == base_len + gm.len()
            &&& file.subrange(0, at) == base.subrange(0, at)
            &&& file.subrange(at, at + 90) == dir
            &&& file.subrange(base_len, file.len() as int) == gm
        }),
{
    let file = with_gainmap(base, gm);
    let at = app_run_end(base, 2);
    let base_len = base.len() + MPF_MARKER_LEN;
    let dir = mpf_segment(base_len, gm.len() as int, base_len - (at + 8));
    lemma_run_end(base, 2);
    lemma_mpf_head(base_len, gm.len() as int, base_len - (at + 8));
    let (head, tail) = (base.subrange(0, at), base.subrange(at, base.len() as int));
    assert(file == head + dir + tail + gm);
    lemma_four_parts(head, dir, tail, gm);
}

/// The pieces of four sequences in a row.
proof fn lemma_four_parts(a: Seq<u8>, b: Seq<u8>, c: Seq<u8>, d: Seq<u8>)
    ensures
        ({
            let all = a + b + c + d;
            &&& all.subrange(0, a.len() as int) == a
            &&& all.subrange(a.len() as int, (a.len() + b.len()) as int) == b
            &&& all.subrange((a.len() + b.len() + c.len()) as int, all.len() as int) == d
        }),
{
    let all = a + b + c + d;
    assert(all.subrange(0, a.len() as int) =~= a);
    assert(all.subrange(a.len() as int, (a.len() + b.len()) as int) =~= b);
    assert(all.subrange((a.len() + b.len() + c.len()) as int, all.len() as int) =~= d);
}

/// A directory segment is read where it stands.
pub(crate) proof fn lemma_directory_scan(file: Seq<u8>, at: int, base_len: int, gm_len: int, offset: int)
    requires
        0 <= at,
        at + 90 <= file.len(),
        0 <= gm_len < 0x1_0000_0000,
        0 <= offset < 0x1_0000_0000,
        file.subrange(at, at + 90) == mpf_segment(base_len, gm_len, offset),
    ensures
        scan_at(file, at) == (Scan::Segment { marker: 0xE2, end: at + 90 }),
        mpf_second(file.subrange(at + 4, at + 90)) == Some((offset, gm_len)),
{
    let s = file.subrange(at, at + 90);
    lemma_mpf_head(base_len, gm_len, offset);
    assert(file[at] == s[0] && file[at + 1] == s[1] && file[at + 2] == s[2] && file[at + 3]
        == s[3]);
    law_mpf_reads_back(base_len, gm_len, offset);
    assert(file.subrange(at + 4, at + 90) =~= s.subrange(4, 90));
}

/// The gain map of a file to which one was added is the one that was added, as long as the
/// directory's 32-bit fields can hold its numbers.
pub proof fn law_added_gainmap_is_found(base: Seq<u8>, gm: Seq<u8>)
    requires
        base.len() >= 2,
        base[0] == 0xFF,
        base[1] == 0xD8,
        is_jpeg(gm),
        lacks(run_parts(base, 2), is_app2_with(MPF_SIG@)),
        base.len() + MPF_MARKER_LEN < 0x1_0000_0000,
        gm.len() < 0x1_0000_0000,
    ensures
        gainmap_at(with_gainmap(base, gm)) == Some(
            (base.len() + MPF_MARKER_LEN, gm.len() as int),
        ),
        original_gainmap(with_gainmap(base, gm)) == gm,
{
    let file = with_gainmap(base, gm);
    let at = app_run_end(base, 2);
    let base_len = base.len() + MPF_MARKER_LEN;
    let offset = base_len - (at + 8);
    lemma_gainmap_layout(base, gm);
    lemma_run_lists_nothing(base, file, 2);
    assert(file.subrange(0, at)[0] == base.subrange(0, at)[0]);
    assert(file.subrange(0, at)[1] == base.subrange(0, at)[1]);
    lemma_directory_scan(file, at, base_len, gm.len() as int, offset);
    let payload = file.subrange(at + 4, at + 90);
    let s = Segment { marker: 0xE2, payload, start: at };
    assert(segments_from(file, at) == seq![s] + segments_from(file, at + 90));
    lemma_first_listed_step(file, s, segments_from(file, at + 90));
    let tail = file.subrange(base_len, file.len() as int);
    assert(file[base_len] == tail[0] && file[base_len + 1] == tail[1]);
}

/// The first XMP packet at or after `off`, rewritten for a gain map of `n` bytes, is one that its
/// length field can count.
pub open spec fn patch_fits_from(raw: Seq<u8>, off: int, n: nat) -> bool
    decreases raw.len() - off,
{
    match scan_at(raw, off) {
        Scan::Stop => true,
        Scan::Standalone => patch_fits_from(raw, off + 2, n),
        Scan::Segment { marker: _, end } => if matches_at(raw, XMP_SIG@, off + 4) {
            with_declared_length(raw.subrange(off + 4, end), n).len() + 2 <= 0xFFFF
        } else {
            patch_fits_from(raw, end, n)
        },
    }
}

/// Rewriting a container directory keeps its first byte.
proof fn lemma_declared_first_byte(xmp: Seq<u8>, n: nat)
    requires
        xmp.len() > 0,
    ensures
        with_declared_length(xmp, n).len() > 0,
        with_declared_length(xmp, n)[0] == xmp[0],
{
    if let Some((start, end)) = declared_length(xmp) {
        lemma_declared_range(xmp);
    }
}

/// A declared length stands behind its attribute, inside the packet.
pub(crate) proof fn lemma_declared_range(xmp: Seq<u8>)
    requires
        declared_length(xmp) is Some,
    ensures
        declared_length(xmp) matches Some((start, end)) && 8 <= start <= end < xmp.len(),
{
    crate::bytes::lemma_find_from(xmp, crate::tags::SEMANTIC_GAINMAP@, 0);
    let sem = crate::bytes::find_from(xmp, crate::tags::SEMANTIC_GAINMAP@, 0)->Some_0;
    crate::bytes::lemma_find_from(xmp, crate::tags::LENGTH_ATTR@, sem);
    let attr = crate::bytes::find_from(xmp, crate::tags::LENGTH_ATTR@, sem)->Some_0;
    crate::bytes::lemma_find_from(xmp, crate::xmp::QUOTE@, attr + 8);
}

/// A patched packet is read where it stood, and the same segments follow it.
pub(crate) proof fn lemma_patched_packet(raw: Seq<u8>, off: int, n: nat)
    requires
        0 <= off,
        scan_at(raw, off) is Segment,
        matches_at(raw, XMP_SIG@, off + 4),
        patch_fits_from(raw, off, n),
    ensures
        scan_at(raw, off) matches Scan::Segment { marker, end } && {
            let out = with_patched_packet(raw, off, end, n);
            let packet = with_declared_length(raw.subrange(off + 4, end), n);
            &&& scan_at(out, off) == (Scan::Segment { marker, end: off + 4 + packet.len() })
            &&& out.subrange(off + 4, off + 4 + packet.len()) == packet
            &&& same_tail(out, off + 4 + packet.len(), raw, end)
            &&& !begins_with(packet, MPF_SIG@)
        },
{
    if let Scan::Segment { marker, end } = scan_at(raw, off) {
        let payload = raw.subrange(off + 4, end);
        let packet = with_declared_length(payload, n);
        let out = with_patched_packet(raw, off, end, n);
        let len = be16_bytes(packet.len() as int + 2);
        let next = off + 4 + packet.len();
        assert(out[off] == raw[off] && out[off + 1] == raw[off + 1] && out[off + 2] == len[0]
            && out[off + 3] == len[1]);
        lemma_be16_round_trip(packet.len() as int + 2);
        assert(out.len() == next + (raw.len() - end));
        assert(out.subrange(off + 4, next) =~= packet);
        assert(out.subrange(next, out.len() as int) =~= raw.subrange(end, raw.len() as int));
        if begins_with(packet, MPF_SIG@) {
            assert(packet[0] == packet.subrange(0, 4)[0]);
            assert(MPF_SIG@[0] == 0x4D && XMP_SIG@[0] == 0x68);
            let sig = raw.subrange(off + 4, off + 4 + XMP_SIG@.len());
            assert(sig[0] == raw[off + 4]);
            if payload.len() > 0 {
                lemma_declared_first_byte(payload, n);
                assert(payload[0] == raw[off + 4]);
            } else {
                lemma_declared_empty(payload, n);
            }
        }
    }
}

/// An empty packet declares nothing.
proof fn lemma_declared_empty(xmp: Seq<u8>, n: nat)
    requires
        xmp.len() == 0,
    ensures
        with_declared_length(xmp, n) == xmp,
{
}

/// Patching the container directory brings no directory of another kind into the run.
proof fn lemma_patched_run(raw: Seq<u8>, off: int, n: nat)
    requires
        0 <= off <= raw.len(),
        lacks(run_parts(raw, off), is_app2_with(MPF_SIG@)),
        patch_fits_from(raw, off, n),
    ensures
        lacks(run_parts(with_patched_xmp_from(raw, off, n), off), is_app2_with(MPF_SIG@)),
    decreases raw.len() - off,
{
    let out = with_patched_xmp_from(raw, off, n);
    let kind = is_app2_with(MPF_SIG@);
    match scan_at(raw, off) {
        Scan::Stop => {},
        Scan::Standalone => {
            lemma_patched_keeps_head(raw, off + 2, n);
            assert(out.subrange(0, off + 2)[off] == raw.subrange(0, off + 2)[off]);
            assert(out.subrange(0, off + 2)[off + 1] == raw.subrange(0, off + 2)[off + 1]);
            assert(!(scan_at(out, off) is Segment));
        },
        Scan::Segment { marker, end } => {
            let payload = raw.subrange(off + 4, end);
            let parts = run_parts(out, off);
            if is_app_or_comment(marker) {
                assert(run_parts(raw, off)[0] == (marker, payload));
                assert(!kind(run_parts(raw, off)[0].0, run_parts(raw, off)[0].1));
                assert forall|i: int| 0 <= i < run_parts(raw, end).len() implies !kind(
                    (#[trigger] run_parts(raw, end)[i]).0,
                    run_parts(raw, end)[i].1,
                ) by {
                    assert(run_parts(raw, off)[i + 1] == run_parts(raw, end)[i]);
                }
            }
            if matches_at(raw, XMP_SIG@, off + 4) {
                lemma_patched_packet(raw, off, n);
                let packet = with_declared_length(payload, n);
                let next = off + 4 + packet.len();
                if is_app_or_comment(marker) {
                    lemma_run_tail(out, next, raw, end);
                    assert(parts =~= seq![(marker, packet)] + run_parts(raw, end));
                    assert forall|i: int| 0 <= i < parts.len() implies !kind(
                        (#[trigger] parts[i]).0,
                        parts[i].1,
                    ) by {
                        if i > 0 {
                            assert(parts[i] == run_parts(raw, end)[i - 1]);
                        }
                    }
                }
            } else {
                lemma_patched_keeps_head(raw, end, n);
                lemma_same_scan(raw, out, off, end);
                if is_app_or_comment(marker) {
                    lemma_patched_run(raw, end, n);
                    assert(parts =~= seq![(marker, payload)] + run_parts(out, end));
                    assert forall|i: int| 0 <= i < parts.len() implies !kind(
                        (#[trigger] parts[i]).0,
                        parts[i].1,
                    ) by {
                        if i > 0 {
                            assert(parts[i] == run_parts(out, end)[i - 1]);
                        }
                    }
                }
            }
        },
    }
}

/// Parts that are taken over can be written, and none is a directory.
pub(crate) proof fn lemma_carried(segs: Seq<Segment>, icc: bool, n: int)
    ensures
        are_run_parts(carried(segs, icc, n)),
        lacks(carried(segs, icc, n), is_app2_with(MPF_SIG@)),
    decreases n,
{
    if n > 0 {
        lemma_carried(segs, icc, n - 1);
        let before = carried(segs, icc, n - 1);
        let all = carried(segs, icc, n);
        let part = (segs[n - 1].marker, segs[n - 1].payload);
        if all != before {
            assert(all == before.push(part));
            lemma_signatures_differ(part.1);
            assert forall|i: int| 0 <= i < all.len() implies is_run_part(#[trigger] all[i])
                && !is_app2_with(MPF_SIG@)(all[i].0, all[i].1) by {
                if i < before.len() {
                    assert(all[i] == before[i]);
                    assert(is_run_part(before[i]));
                } else {
                    assert(all[i] == part);
                }
            }
        }
    }
}

/// A payload has one signature only.
proof fn lemma_signatures_differ(payload: Seq<u8>)
    ensures
        begins_with(payload, ISO21496_URN@) ==> !begins_with(payload, MPF_SIG@) && !begins_with(
            payload,
            ICC_SIG@,
        ),
        begins_with(payload, ICC_SIG@) ==> !begins_with(payload, MPF_SIG@),
{
    assert(ISO21496_URN@[0] == 0x75 && MPF_SIG@[0] == 0x4D && ICC_SIG@[0] == 0x49);
    if begins_with(payload, ISO21496_URN@) {
        assert(payload.subrange(0, 28)[0] == payload[0]);
    }
    if begins_with(payload, MPF_SIG@) {
        assert(payload.subrange(0, 4)[0] == payload[0]);
    }
    if begins_with(payload, ICC_SIG@) {
        assert(payload.subrange(0, 12)[0] == payload[0]);
    }
}

/// What a file lacks of a list comes from that list.
proof fn lemma_missing(file: Seq<u8>, parts: Seq<Part>, n: int)
    requires
        n <= parts.len(),
        are_run_parts(parts),
        lacks(parts, is_app2_with(MPF_SIG@)),
    ensures
        are_run_parts(missing_of(file, parts, n)),
        lacks(missing_of(file, parts, n), is_app2_with(MPF_SIG@)),
        (forall|i: int|
            0 <= i < n ==> !has_part(file, (#[trigger] parts[i]).0, parts[i].1)) && n >= 0
            ==> missing_of(file, parts, n).len() == n,
    decreases n,
{
    if n > 0 {
        lemma_missing(file, parts, n - 1);
        let before = missing_of(file, parts, n - 1);
        let all = missing_of(file, parts, n);
        assert(is_run_part(parts[n - 1]));
        assert(!is_app2_with(MPF_SIG@)(parts[n - 1].0, parts[n - 1].1));
        assert forall|i: int| 0 <= i < all.len() implies is_run_part(#[trigger] all[i])
            && !is_app2_with(MPF_SIG@)(all[i].0, all[i].1) by {
            if i < before.len() {
                assert(all[i] == before[i]);
                assert(is_run_part(before[i]));
            } else {
                assert(all[i] == parts[n - 1]);
            }
        }
    }
}

/// Two runs without directories make one without.
pub(crate) proof fn lemma_lacks_add(a: Seq<Part>, b: Seq<Part>, kind: spec_fn(u8, Seq<u8>) -> bool)
    requires
        lacks(a, kind),
        lacks(b, kind),
    ensures
        lacks(a + b, kind),
{
    assert forall|i: int| 0 <= i < (a + b).len() implies !kind(
        (#[trigger] (a + b)[i]).0,
        (a + b)[i].1,
    ) by {
        if i < a.len() {
            assert((a + b)[i] == a[i]);
        } else {
            assert((a + b)[i] == b[i - a.len()]);
        }
    }
}

/// The base of an assembled file begins as the photo did, and has no directory in its run.
pub(crate) proof fn lemma_carrying_base(base: Seq<u8>, original: Seq<u8>, gm_len: nat)
    requires
        is_jpeg(base),
        base_patch_fits(base, original, gm_len),
    ensures
        carrying_base(base, original, gm_len).len() >= 2,
        carrying_base(base, original, gm_len)[0] == 0xFF,
        carrying_base(base, original, gm_len)[1] == 0xD8,
        lacks(run_parts(carrying_base(base, original, gm_len), 2), is_app2_with(MPF_SIG@)),
{
    let kind = is_app2_with(MPF_SIG@);
    let out = stripped(base, kind, false);
    let carry = carried_parts(original, false);
    let parts = missing(out, carry);
    lemma_stripped_file_run(base, kind, false, kind);
    lemma_carried(segments(original), false, segments(original).len() as int);
    lemma_missing(out, carry, carry.len() as int);
    law_inserted_parts_are_read_back(out, parts);
    lemma_lacks_add(run_parts(out, 2), parts, kind);
    let with = with_parts(out, parts);
    lemma_patched_run(with, 2, gm_len);
    lemma_patched_keeps_head(with, 2, gm_len);
    let patched = carrying_base(base, original, gm_len);
    assert(patched.subrange(0, 2)[0] == with.subrange(0, 2)[0]);
    assert(patched.subrange(0, 2)[1] == with.subrange(0, 2)[1]);
}

/// The container directory of an assembled file's base, rewritten for a gain map of `gm_len` bytes,
/// is one that its length field can count.
pub open spec fn base_patch_fits(base: Seq<u8>, original: Seq<u8>, gm_len: nat) -> bool {
    let out = stripped(base, is_app2_with(MPF_SIG@), false);
    patch_fits_from(with_parts(out, missing(out, carried_parts(original, false))), 2, gm_len)
}

/// A part that the first profile comes from is in the list.
proof fn lemma_first_icc(parts: Seq<Part>, i: int)
    requires
        0 <= i,
        first_icc(parts, i) is Some,
    ensures
        parts.len() > 0,
    decreases parts.len() - i,
{
    if !(parts[i].0 == 0xE2 && begins_with(parts[i].1, ICC_SIG@)) {
        lemma_first_icc(parts, i + 1);
    }
}

/// Written parts have bytes.
pub(crate) proof fn lemma_written_len(parts: Seq<Part>)
    requires
        parts.len() > 0,
        are_run_parts(parts),
    ensures
        written_segments(parts).len() >= 4,
{
    assert(is_run_part(parts[parts.len() - 1]));
    assert(parts.last() == parts[parts.len() - 1]);
}

/// The gain map of an assembled file is a JPEG file.
proof fn lemma_attached_gainmap(gainmap: Seq<u8>, parts: Seq<Part>)
    requires
        is_jpeg(gainmap),
        are_run_parts(parts),
        lacks(parts, is_app2_with(MPF_SIG@)),
    ensures
        is_jpeg(attached_gainmap(gainmap, parts)),
{
    let kind = is_app2_with(ICC_SIG@);
    let gm = without_other_icc(gainmap, parts);
    if gm != gainmap {
        lemma_stripped_file_run(gainmap, kind, false, kind);
        lemma_first_icc(parts, 0);
    }
    lemma_missing(gm, parts, parts.len() as int);
    law_inserted_parts_are_read_back(gm, missing(gm, parts));
    if gm.len() < 4 {
        assert(segments(gm) =~= Seq::empty());
        assert(missing(gm, parts).len() == parts.len());
        lemma_written_len(missing(gm, parts));
    }
}

/// The gain map of an assembled file is found in it again, as long as the directory's 32-bit fields
/// can hold its numbers, and the container directory's length field can count the rewritten packet.
pub proof fn law_assembled_gainmap_is_found(original: Seq<u8>, base: Seq<u8>, gainmap: Seq<u8>)
    requires
        is_jpeg(base),
        is_jpeg(gainmap),
        gainmap_at(original) is Some,
        assembled(original, base, gainmap)->Ok_0.len() < 0x1_0000_0000,
        base_patch_fits(base, original, assembled_gainmap(original, gainmap).len()),
    ensures
        assembled(original, base, gainmap) matches Ok(file) && gainmap_at(file) is Some
            && original_gainmap(file) == assembled_gainmap(original, gainmap),
{
    let orig_gm = original_gainmap(original);
    let carry = carried_parts(orig_gm, true);
    let gm = assembled_gainmap(original, gainmap);
    let b = carrying_base(base, original, gm.len());
    lemma_carried(segments(orig_gm), true, segments(orig_gm).len() as int);
    lemma_attached_gainmap(gainmap, carry);
    lemma_carrying_base(base, original, gm.len());
    lemma_gainmap_layout(b, gm);
    law_added_gainmap_is_found(b, gm);
}

/// The parts that a length field can count.
pub open spec fn countable(parts: Seq<Part>) -> Seq<Part>
    decreases parts.len(),
{
    if parts.len() == 0 {
        Seq::empty()
    } else if parts.last().1.len() + 2 <= 0xFFFF {
        countable(parts.drop_last()).push(parts.last())
    } else {
        countable(parts.drop_last())
    }
}

/// Only parts that a length field can count are written.
proof fn lemma_countable(parts: Seq<Part>)
    requires
        forall|i: int| 0 <= i < parts.len() ==> is_app_or_comment((#[trigger] parts[i]).0),
    ensures
        written_segments(countable(parts)) == written_segments(parts),
        are_run_parts(countable(parts)),
        countable(parts).len() <= parts.len(),
    decreases parts.len(),
{
    if parts.len() > 0 {
        let last = parts[parts.len() - 1];
        let rest = countable(parts.drop_last());
        lemma_countable(parts.drop_last());
        assert(parts.last() == last);
        if last.1.len() + 2 <= 0xFFFF {
            let all = countable(parts);
            assert(all == rest.push(last));
            assert(all.drop_last() =~= rest);
            assert forall|i: int| 0 <= i < all.len() implies is_run_part(#[trigger] all[i]) by {
                if i < rest.len() {
                    assert(all[i] == rest[i]);
                    assert(is_run_part(rest[i]));
                }
            }
        } else {
            assert(written_segments(parts.drop_last()) + Seq::<u8>::empty() =~= written_segments(
                parts.drop_last(),
            ));
        }
    }
}

/// Inserting two parts of new metadata, of which the second is ISO 21496-1: they end the run, and
/// the second is there in any case.
proof fn lemma_two_parts(file: Seq<u8>, xmp: Seq<u8>, micro: u32)
    requires
        file.len() >= 2,
        lacks(run_parts(file, 2), is_app2_with(MPF_SIG@)),
    ensures
        ({
            let parts: Seq<Part> = seq![(0xE1u8, xmp), (0xE2u8, iso_payload(micro))];
            let out = with_parts(file, parts);
            &&& out.len() >= file.len() + 4
            &&& out[0] == file[0]
            &&& out[1] == file[1]
            &&& lacks(run_parts(out, 2), is_app2_with(MPF_SIG@))
            &&& run_parts(out, 2).len() > 0
            &&& run_parts(out, 2).last() == (0xE2u8, iso_payload(micro))
        }),
{
    let kind = is_app2_with(MPF_SIG@);
    let iso = iso_payload(micro);
    let parts: Seq<Part> = seq![(0xE1u8, xmp), (0xE2u8, iso)];
    let fit = countable(parts);
    assert(iso.len() == 65);
    assert(parts.drop_last() =~= seq![(0xE1u8, xmp)]);
    assert(seq![(0xE1u8, xmp)].drop_last() =~= Seq::<Part>::empty());
    reveal_with_fuel(countable, 3);
    assert(fit.last() == (0xE2u8, iso));
    lemma_countable(parts);
    assert(with_parts(file, fit) == with_parts(file, parts));
    law_inserted_parts_are_read_back(file, fit);
    lemma_written_len(fit);
    lemma_iso_signature(micro);
    lemma_signatures_differ(iso);
    assert(lacks(fit, kind)) by {
        assert forall|i: int| 0 <= i < fit.len() implies !kind((#[trigger] fit[i]).0, fit[i].1) by {
            assert(fit[i] == (0xE1u8, xmp) || fit[i] == (0xE2u8, iso));
        }
    }
    lemma_lacks_add(run_parts(file, 2), fit, kind);
    assert((run_parts(file, 2) + fit).last() == fit.last());
}

/// ISO 21496-1 payloads begin with their URN.
pub(crate) proof fn lemma_iso_signature(micro: u32)
    ensures
        begins_with(iso_payload(micro), ISO21496_URN@),
        occurs(iso_payload(micro), ISO_URN@),
{
    let iso = iso_payload(micro);
    assert(iso.subrange(0, 28) =~= ISO21496_URN@);
    assert(iso.subrange(0, 27) =~= ISO_URN@);
    assert(matches_at(iso, ISO_URN@, 0));
}

/// The base and the gain map of a created file.
pub(crate) proof fn lemma_created_parts(base: Seq<u8>, gainmap: Seq<u8>, micro: u32, text: Seq<u8>)
    requires
        is_jpeg(base),
        is_jpeg(gainmap),
    ensures
        ({
            let gm = created_gainmap(gainmap, micro, text);
            let b = created_base(base, micro, gm.len());
            &&& is_jpeg(gm)
            &&& is_jpeg(b)
            &&& lacks(run_parts(b, 2), is_app2_with(MPF_SIG@))
            &&& run_parts(b, 2).len() > 0
            &&& run_parts(b, 2).last() == (0xE2u8, iso_payload(micro))
        }),
{
    let kind = is_app2_with(MPF_SIG@);
    let gm = created_gainmap(gainmap, micro, text);
    lemma_stripped_file_run(gainmap, is_hdr_metadata(), true, kind);
    lemma_two_parts(
        stripped(gainmap, is_hdr_metadata(), true),
        crate::xmp::secondary_xmp(text),
        micro,
    );
    lemma_stripped_file_run(base, is_hdr_metadata(), true, kind);
    lemma_two_parts(
        stripped(base, is_hdr_metadata(), true),
        crate::xmp::primary_xmp(gm.len()),
        micro,
    );
}

/// The gain map of a created file is found in it again, as long as the directory's 32-bit fields can
/// hold its numbers.
pub proof fn law_created_gainmap_is_found(
    base: Seq<u8>,
    gainmap: Seq<u8>,
    micro: u32,
    text: Seq<u8>,
)
    requires
        is_jpeg(base),
        is_jpeg(gainmap),
        created(base, gainmap, Some((micro, text)))->Ok_0.len() < 0x1_0000_0000,
    ensures
        created(base, gainmap, Some((micro, text))) matches Ok(file) && gainmap_at(file) is Some
            && original_gainmap(file) == created_gainmap(gainmap, micro, text),
{
    let gm = created_gainmap(gainmap, micro, text);
    let b = created_base(base, micro, gm.len());
    lemma_created_parts(base, gainmap, micro, text);
    lemma_gainmap_layout(b, gm);
    law_added_gainmap_is_found(b, gm);
}

/// What detection says of a segment of the run that is no directory: nothing, or that it holds gain
/// map metadata.
proof fn lemma_run_segment_kind(raw: Seq<u8>, off: int, limit: int)
    requires
        0 <= off,
        limit <= raw.len(),
        scan_at(raw, off) matches Scan::Segment { marker, end } && is_app_or_comment(marker) && end
            <= limit && !is_app2_with(MPF_SIG@)(marker, raw.subrange(off + 4, end)),
    ensures
        scan_at(raw, off) matches Scan::Segment { marker, end } && {
            ||| jpeg_kind_from(raw, off, limit) == Some(HdrKind::JpegGainmap)
            ||| jpeg_kind_from(raw, off, limit) == jpeg_kind_from(raw, end, limit) && !(0xE0
                <= marker <= 0xEF && is_gainmap_metadata(raw.subrange(off + 4, end)))
        },
{
    if let Scan::Segment { marker, end } = scan_at(raw, off) {
        let seg = raw.subrange(off + 4, end);
        assert(least(end, limit) == end);
        if marker == 0xE2 {
            lemma_mpf_needs_signature(seg);
        }
        assert(second_image_kind(raw, off, seg) is None || marker != 0xE2);
    }
}

/// What detection says of a run without directories: nothing, or that it holds gain map metadata,
/// and the latter where a segment does.
pub(crate) proof fn lemma_run_kind(x: Seq<u8>, y: Seq<u8>, off: int, limit: int)
    requires
        0 <= off <= x.len(),
        app_run_end(x, off) <= limit <= y.len(),
        x.subrange(0, app_run_end(x, off)) == y.subrange(0, app_run_end(x, off)),
        lacks(run_parts(x, off), is_app2_with(MPF_SIG@)),
    ensures
        jpeg_kind_from(y, off, limit) == Some(HdrKind::JpegGainmap) || jpeg_kind_from(y, off, limit)
            == jpeg_kind_from(y, app_run_end(x, off), limit),
        (exists|i: int|
            0 <= i < run_parts(x, off).len() && 0xE0 <= (#[trigger] run_parts(x, off)[i]).0 <= 0xEF
                && is_gainmap_metadata(run_parts(x, off)[i].1)) ==> jpeg_kind_from(y, off, limit)
            == Some(HdrKind::JpegGainmap),
    decreases x.len() - off,
{
    let parts = run_parts(x, off);
    if let Scan::Segment { marker, end } = scan_at(x, off) {
        if is_app_or_comment(marker) {
            let at = app_run_end(x, off);
            lemma_run_end(x, end);
            lemma_same_scan(x, y, off, at);
            let payload = x.subrange(off + 4, end);
            let rest = run_parts(x, end);
            assert(parts[0] == (marker, payload));
            assert(!is_app2_with(MPF_SIG@)(parts[0].0, parts[0].1));
            lemma_run_segment_kind(y, off, limit);
            assert forall|i: int| 0 <= i < rest.len() implies !is_app2_with(MPF_SIG@)(
                (#[trigger] rest[i]).0,
                rest[i].1,
            ) by {
                assert(parts[i + 1] == rest[i]);
            }
            lemma_run_kind(x, y, end, limit);
            if exists|i: int|
                0 <= i < parts.len() && 0xE0 <= (#[trigger] parts[i]).0 <= 0xEF
                    && is_gainmap_metadata(parts[i].1) {
                let i = choose|i: int|
                    0 <= i < parts.len() && 0xE0 <= (#[trigger] parts[i]).0 <= 0xEF
                        && is_gainmap_metadata(parts[i].1);
                if i > 0 {
                    assert(rest[i - 1] == parts[i]);
                }
            }
        }
    }
}

/// A created file is detected as an Ultra HDR file, as long as its application segments lie in the
/// part of the file that is searched.
pub proof fn law_created_file_is_detected(
    base: Seq<u8>,
    gainmap: Seq<u8>,
    micro: u32,
    text: Seq<u8>,
)
    requires
        is_jpeg(base),
        is_jpeg(gainmap),
        app_run_end(
            created_base(base, micro, created_gainmap(gainmap, micro, text).len()),
            2,
        ) <= JPEG_SEARCH_LIMIT,
    ensures
        created(base, gainmap, Some((micro, text))) matches Ok(file) && hdr_kind(file) == Some(
            HdrKind::JpegGainmap,
        ),
{
    let gm = created_gainmap(gainmap, micro, text);
    let b = created_base(base, micro, gm.len());
    let file = with_gainmap(b, gm);
    let at = app_run_end(b, 2);
    let parts = run_parts(b, 2);
    lemma_created_parts(base, gainmap, micro, text);
    lemma_gainmap_layout(b, gm);
    lemma_not_png(file, b, at);
    lemma_iso_signature(micro);
    let limit = least(file.len() as int, JPEG_SEARCH_LIMIT as int);
    assert(parts[parts.len() - 1] == parts.last());
    assert(is_gainmap_metadata(parts[parts.len() - 1].1));
    lemma_run_kind(b, file, 2, limit);
}

/// A file that begins as a JPEG file does is none of another kind.
pub(crate) proof fn lemma_not_png(file: Seq<u8>, base: Seq<u8>, at: int)
    requires
        2 <= at <= base.len(),
        at <= file.len(),
        base[0] == 0xFF,
        base[1] == 0xD8,
        file.subrange(0, at) == base.subrange(0, at),
    ensures
        file[0] == 0xFF,
        file[1] == 0xD8,
        !begins_with(file, crate::tags::PNG_SIG@),
{
    let (f, b) = (file.subrange(0, at), base.subrange(0, at));
    assert(f[0] == file[0] && f[1] == file[1] && b[0] == base[0] && b[1] == base[1]);
    if begins_with(file, crate::tags::PNG_SIG@) {
        assert(file.subrange(0, 8)[0] == file[0]);
        assert(crate::tags::PNG_SIG@[0] == 0x89);
    }
}

/// A file to which a gain map with metadata was added is detected as HDR, as long as the directory
/// lies in the part of the file that is searched, and the metadata in the part of the gain map that
/// is.
pub proof fn law_added_gainmap_is_detected(base: Seq<u8>, gm: Seq<u8>)
    requires
        base.len() >= 2,
        base[0] == 0xFF,
        base[1] == 0xD8,
        gm.len() > 0,
        lacks(run_parts(base, 2), is_app2_with(MPF_SIG@)),
        app_run_end(base, 2) + MPF_MARKER_LEN <= JPEG_SEARCH_LIMIT,
        base.len() + MPF_MARKER_LEN < 0x1_0000_0000,
        gm.len() < 0x1_0000_0000,
        is_gainmap_metadata(gm.subrange(0, least(gm.len() as int, SECOND_IMAGE_LIMIT as int))),
    ensures
        hdr_kind(with_gainmap(base, gm)) is Some,
{
    let file = with_gainmap(base, gm);
    let at = app_run_end(base, 2);
    let base_len = base.len() + MPF_MARKER_LEN;
    let offset = base_len - (at + 8);
    let limit = least(file.len() as int, JPEG_SEARCH_LIMIT as int);
    lemma_gainmap_layout(base, gm);
    lemma_not_png(file, base, at);
    lemma_run_kind(base, file, 2, limit);
    lemma_directory_scan(file, at, base_len, gm.len() as int, offset);
    let seg = file.subrange(at + 4, at + 90);
    let tail = file.subrange(base_len, file.len() as int);
    let second = file.subrange(base_len, least(file.len() as int, base_len + SECOND_IMAGE_LIMIT));
    assert(second =~= tail.subrange(0, least(gm.len() as int, SECOND_IMAGE_LIMIT as int)));
    assert(second_image_kind(file, at, seg) is Some);
    assert(jpeg_segment_kind(file, at, at + 90) is Some);
    assert(jpeg_kind_from(file, at, limit) is Some);
}

/// ISO 21496-1 metadata that are written read back: one channel, gains from 1 up to the given one,
/// and gamma 1.
pub proof fn law_iso_payload_reads_back(micro: u32)
    requires
        micro < 0x8000_0000,
    ensures
        iso_metadata(iso_payload(micro)) matches Some(m) && !m.multi_channel && m.channels == seq![
            Encoding {
                min: Value::Fraction { num: 0, den: 1_000_000 },
                max: Value::Fraction { num: micro as int, den: 1_000_000 },
                gamma: Value::Fraction { num: 1_000_000, den: 1_000_000 },
            },
        ],
{
    lemma_iso_signature(micro);
    lemma_iso_numbers(micro);
    lemma_one_common_channel(iso_payload(micro));
}

/// ISO 21496-1 metadata that are written read back as one channel, whose neutral sample is 0: a
/// gain map sample of 0 leaves a pixel as it is, whatever `neutral` gives for other channels.
pub proof fn law_iso_payload_is_neutral_at_zero<F: Fn(Channel) -> Option<u8>>(
    neutral: F,
    micro: u32,
)
    requires
        0 < micro < 0x8000_0000,
    ensures
        iso_metadata(iso_payload(micro)) matches Some(m) && !m.multi_channel && !gives_none(
            neutral,
            m.channels,
        ) && forall|values: Seq<u8>| #[trigger]
            gives_values(neutral, m.channels, values) <==> values == seq![0u8, 0, 0],
{
    law_iso_payload_reads_back(micro);
    let channels = iso_metadata(iso_payload(micro))->Some_0.channels;
    let e = channels[0];
    assert(channels.len() == 1);
    assert(sample_from_zero(e) == Some(Some(0u8)));
    assert forall|values: Seq<u8>| #[trigger]
        gives_values(neutral, channels, values) <==> values == seq![0u8, 0, 0] by {
        if gives_values(neutral, channels, values) {
            assert(gives(neutral, channels[0], Some(values[0])));
            assert(values =~= seq![0u8, 0, 0]);
        }
        if values == seq![0u8, 0, 0] {
            assert(gives(neutral, e, Some(values[0])));
        }
    }
}

/// What a payload with one channel and a common denominator gives.
proof fn lemma_one_common_channel(p: Seq<u8>)
    requires
        p.len() == 65,
        begins_with(p, ISO21496_URN@),
        p[28] == 0,
        p[29] == 0,
        p[32] == 8,
        u32_be(p, 33) != 0,
    ensures
        iso_metadata(p) == Some(
            Metadata { multi_channel: false, channels: seq![common_channel(p, 45)] },
        ),
{
    let m = iso_metadata(p)->Some_0;
    assert(!has_bit(8, 4) && has_bit(8, 8) && !has_bit(8, 0x80));
    assert(m.channels =~= seq![common_channel(p, 45)]);
}

/// The numbers of an ISO 21496-1 payload, where they stand.
proof fn lemma_iso_numbers(micro: u32)
    ensures
        ({
            let p = iso_payload(micro);
            &&& p.len() == 65
            &&& p[28] == 0 && p[29] == 0 && p[32] == 8
            &&& u32_be(p, 33) == 1_000_000
            &&& u32_be(p, 45) == 0
            &&& u32_be(p, 49) == micro
            &&& u32_be(p, 53) == 1_000_000
        }),
{
    let p = iso_payload(micro);
    let den = be32_bytes(1_000_000);
    let top = be32_bytes(micro as int);
    let zero = be32_bytes(0);
    crate::bytes::lemma_be32_round_trip(1_000_000);
    crate::bytes::lemma_be32_round_trip(micro as int);
    crate::bytes::lemma_be32_round_trip(0);
    assert(p[33] == den[0] && p[34] == den[1] && p[35] == den[2] && p[36] == den[3]);
    assert(p[45] == zero[0] && p[46] == zero[1] && p[47] == zero[2] && p[48] == zero[3]);
    assert(p[49] == top[0] && p[50] == top[1] && p[51] == top[2] && p[52] == top[3]);
    assert(p[53] == den[0] && p[54] == den[1] && p[55] == den[2] && p[56] == den[3]);
}

} // verus!
