//! Which gain map metadata a created Ultra HDR file has.

use vstd::prelude::*;
use vstd::utf8::encode_utf8;

use crate::bytes::{be16_bytes, begins_with, matches_at, occurs, u16_be};
use crate::jpeg::{
    app_run_end, gainmap_at, is_app_or_comment, is_hdr_metadata, is_jpeg, is_standalone, scan_at,
    segment_bytes, segments, segments_from, stripped, stripped_from, written_segments, Scan,
};
use crate::kept_metadata::{
    lemma_behind_standalone, lemma_kind_with_parts, lemma_stripped_file, of_kind, segment_parts,
};
use crate::laws::{
    law_added_gainmap_is_found, law_inserted_parts_are_read_back, lemma_created_parts,
    lemma_gainmap_layout, lemma_iso_signature, lemma_kept_segment, lemma_stripped_file_run,
};
use crate::mpf::{
    law_mpf_reads_back, lemma_mpf_head, lemma_mpf_needs_signature, mpf_segment, MPF_MARKER_LEN,
};
use crate::run::{
    all_parts, are_run_parts, is_run_part, lemma_all_parts_step, lemma_run_end, lemma_same_tail,
    lemma_written_add, lemma_written_first, lemma_written_one, same_tail, Part,
};
use crate::tags::{HDRGM, MPF_SIG, XMP_SIG};
use crate::ultrahdr::{
    base_parts, created, created_base, created_gainmap, gainmap_parts, iso_payload,
    original_gainmap, with_gainmap, with_parts,
};
use crate::xmp::{lemma_primary_fits, primary_xmp, secondary_xmp, PRIMARY_HEAD, SECONDARY_HEAD};

verus! {

/// New metadata are gain map metadata.
proof fn lemma_new_metadata(xmp: Seq<u8>, micro: u32)
    requires
        begins_with(xmp, XMP_SIG@),
        occurs(xmp, HDRGM@),
    ensures
        ({
            let parts: Seq<Part> = seq![(0xE1u8, xmp), (0xE2u8, iso_payload(micro))];
            of_kind(parts, is_hdr_metadata()) == parts
        }),
{
    let kind = is_hdr_metadata();
    let iso = iso_payload(micro);
    let parts: Seq<Part> = seq![(0xE1u8, xmp), (0xE2u8, iso)];
    lemma_iso_signature(micro);
    assert(kind(0xE1u8, xmp) && kind(0xE2u8, iso));
    assert(parts.drop_last() =~= seq![(0xE1u8, xmp)]);
    assert(seq![(0xE1u8, xmp)].drop_last() =~= Seq::<Part>::empty());
    reveal_with_fuel(of_kind, 3);
    assert(of_kind(parts, kind) =~= parts);
}

/// The new XMP packets have the signature and the gain map prefix.
proof fn lemma_new_packets(n: nat, text: Seq<u8>)
    ensures
        begins_with(primary_xmp(n), XMP_SIG@),
        occurs(primary_xmp(n), HDRGM@),
        begins_with(secondary_xmp(text), XMP_SIG@),
        occurs(secondary_xmp(text), HDRGM@),
{
    let (p, s) = (primary_xmp(n), secondary_xmp(text));
    let i = 29 + encode_utf8(PRIMARY_HEAD@).len() as int;
    let j = 29 + encode_utf8(SECONDARY_HEAD@).len() as int;
    assert(p.subrange(0, 28) =~= XMP_SIG@);
    assert(s.subrange(0, 28) =~= XMP_SIG@);
    assert(p.subrange(i, i + 6) =~= HDRGM@);
    assert(s.subrange(j, j + 6) =~= HDRGM@);
    assert(matches_at(p, HDRGM@, i));
    assert(matches_at(s, HDRGM@, j));
}

/// Parts that are inserted behind others that were inserted are inserted with them.
proof fn lemma_with_more_parts(file: Seq<u8>, a: Seq<Part>, b: Seq<Part>)
    requires
        file.len() >= 2,
        are_run_parts(a),
    ensures
        with_parts(with_parts(file, a), b) == with_parts(file, a + b),
{
    let out = with_parts(file, a);
    let at = app_run_end(file, 2);
    let (wa, wb) = (written_segments(a), written_segments(b));
    lemma_run_end(file, 2);
    law_inserted_parts_are_read_back(file, a);
    lemma_written_add(a, b);
    let next = at + wa.len();
    assert(app_run_end(out, 2) == next);
    assert(out.subrange(0, next) =~= file.subrange(0, at) + wa);
    assert(out.subrange(next, out.len() as int) =~= file.subrange(at, file.len() as int));
    assert(with_parts(out, b) =~= with_parts(file, a + b));
}

/// The directory that `with_gainmap` adds to `base`, as a segment.
pub open spec fn directory_part(base: Seq<u8>, gm_len: int) -> Part {
    let base_len = base.len() + MPF_MARKER_LEN;
    let offset = base_len - (app_run_end(base, 2) + 8);
    (0xE2, mpf_segment(base_len, gm_len, offset).subrange(4, 90))
}

/// The directory can be written as a segment, and is gain map metadata.
proof fn lemma_directory_part(base: Seq<u8>, gm_len: int)
    requires
        base.len() >= 2,
        base.len() + MPF_MARKER_LEN < 0x1_0000_0000,
        0 <= gm_len < 0x1_0000_0000,
    ensures
        ({
            let part = directory_part(base, gm_len);
            let base_len = base.len() + MPF_MARKER_LEN;
            &&& are_run_parts(seq![part])
            &&& part.1.len() == 86
            &&& is_hdr_metadata()(part.0, part.1)
            &&& written_segments(seq![part]) == mpf_segment(
                base_len,
                gm_len,
                base_len - (app_run_end(base, 2) + 8),
            )
        }),
{
    let part = directory_part(base, gm_len);
    let base_len = base.len() + MPF_MARKER_LEN;
    let offset = base_len - (app_run_end(base, 2) + 8);
    let dir = mpf_segment(base_len, gm_len, offset);
    lemma_run_end(base, 2);
    lemma_mpf_head(base_len, gm_len, offset);
    law_mpf_reads_back(base_len, gm_len, offset);
    if !begins_with(part.1, MPF_SIG@) {
        lemma_mpf_needs_signature(part.1);
    }
    lemma_written_one(part);
    assert(be16_bytes(88) =~= seq![0u8, 0x58]);
    assert(segment_bytes(0xE2, part.1) =~= dir);
}

/// A file to which a gain map was added is the file with the directory inserted behind its run, and
/// then the gain map.
proof fn lemma_primary_with_directory(base: Seq<u8>, gm: Seq<u8>)
    requires
        base.len() >= 2,
        base.len() + MPF_MARKER_LEN < 0x1_0000_0000,
        gm.len() < 0x1_0000_0000,
    ensures
        ({
            let primary = with_parts(base, seq![directory_part(base, gm.len() as int)]);
            &&& with_gainmap(base, gm) == primary + gm
            &&& primary.len() == base.len() + MPF_MARKER_LEN
        }),
{
    let base_len = base.len() + MPF_MARKER_LEN;
    lemma_run_end(base, 2);
    lemma_mpf_head(base_len, gm.len() as int, base_len - (app_run_end(base, 2) + 8));
    lemma_directory_part(base, gm.len() as int);
    assert(with_gainmap(base, gm) =~= with_parts(
        base,
        seq![directory_part(base, gm.len() as int)],
    ) + gm);
}

/// The image before the gain map of a photo.
pub open spec fn primary_image(file: Seq<u8>) -> Seq<u8> {
    file.subrange(0, (gainmap_at(file)->Some_0).0)
}

/// Walking the segments from `off` on ends at something that is no segment, whatever follows `raw`.
pub open spec fn header_ends(raw: Seq<u8>, off: int) -> bool
    decreases raw.len() - off,
{
    if off >= raw.len() {
        false
    } else if raw[off] != 0xFF {
        true
    } else if off + 2 > raw.len() {
        false
    } else if raw[off + 1] == 0xDA || raw[off + 1] == 0xD9 {
        true
    } else if is_standalone(raw[off + 1]) {
        header_ends(raw, off + 2)
    } else if off + 4 > raw.len() {
        false
    } else if u16_be(raw, off + 2) < 2 {
        true
    } else if off + 2 + u16_be(raw, off + 2) > raw.len() {
        false
    } else {
        header_ends(raw, off + 2 + u16_be(raw, off + 2))
    }
}

/// Whether the header ends depends on the tail alone.
proof fn lemma_header_ends_tail(a: Seq<u8>, p: int, b: Seq<u8>, q: int)
    requires
        same_tail(a, p, b, q),
    ensures
        header_ends(a, p) == header_ends(b, q),
    decreases a.len() - p,
{
    lemma_same_tail(a, p, b, q, 0);
    if p < a.len() {
        assert(a[p + 0] == b[q + 0]);
    }
    if p + 2 <= a.len() {
        assert(a[p + 1] == b[q + 1]);
        if is_standalone(a[p + 1]) {
            lemma_same_tail(a, p, b, q, 2);
            lemma_header_ends_tail(a, p + 2, b, q + 2);
        }
    }
    if p + 4 <= a.len() {
        assert(a[p + 2] == b[q + 2] && a[p + 3] == b[q + 3]);
        let len = u16_be(a, p + 2);
        if 2 <= len && p + 2 + len <= a.len() {
            lemma_same_tail(a, p, b, q, 2 + len);
            lemma_header_ends_tail(a, p + 2 + len, b, q + 2 + len);
        }
    }
}

/// A header ends where it ends behind its run.
proof fn lemma_header_ends_behind_run(raw: Seq<u8>, off: int)
    requires
        0 <= off <= raw.len(),
    ensures
        header_ends(raw, off) == header_ends(raw, app_run_end(raw, off)),
    decreases raw.len() - off,
{
    if let Scan::Segment { marker, end } = scan_at(raw, off) {
        if is_app_or_comment(marker) {
            lemma_header_ends_behind_run(raw, end);
        }
    }
}

/// The header of a stripped file ends where that of the file does.
proof fn lemma_stripped_header_ends(raw: Seq<u8>, off: int, drop: spec_fn(u8, Seq<u8>) -> bool)
    requires
        0 <= off <= raw.len(),
        header_ends(raw, off),
    ensures
        header_ends(stripped_from(raw, off, drop, true), 0),
        stripped_from(raw, off, drop, true).len() > 0,
    decreases raw.len() - off,
{
    let t = stripped_from(raw, off, drop, true);
    match scan_at(raw, off) {
        Scan::Segment { marker, end } => {
            let payload = raw.subrange(off + 4, end);
            let rest = stripped_from(raw, end, drop, true);
            lemma_stripped_header_ends(raw, end, drop);
            if drop(marker, payload) {
                assert(t =~= rest);
            } else {
                lemma_kept_segment(raw, off, rest);
                lemma_header_ends_tail(t, end - off, rest, 0);
            }
        },
        Scan::Standalone => {
            let rest = stripped_from(raw, off + 2, drop, true);
            lemma_stripped_header_ends(raw, off + 2, drop);
            lemma_behind_standalone(raw, off, rest);
            assert(t[0] == raw[off] && t[1] == raw[off + 1]);
            lemma_header_ends_tail(t, 2, rest, 0);
        },
        Scan::Stop => {
            assert(t.subrange(0, t.len() as int) =~= raw.subrange(off, raw.len() as int));
            lemma_header_ends_tail(raw, off, t, 0);
        },
    }
}

/// The header of a file with inserted parts ends where that of the file does.
proof fn lemma_header_ends_with_parts(file: Seq<u8>, parts: Seq<Part>)
    requires
        file.len() >= 2,
        are_run_parts(parts),
    ensures
        header_ends(with_parts(file, parts), 2) == header_ends(file, 2),
{
    let out = with_parts(file, parts);
    let at = app_run_end(file, 2);
    let next = at + written_segments(parts).len();
    lemma_run_end(file, 2);
    law_inserted_parts_are_read_back(file, parts);
    lemma_header_ends_behind_run(file, 2);
    lemma_header_ends_behind_run(out, 2);
    assert(out.subrange(next, out.len() as int) =~= file.subrange(at, file.len() as int));
    lemma_header_ends_tail(out, next, file, at);
}

/// What stands behind a file whose header ends adds no segments to it.
proof fn lemma_nothing_behind_header(file: Seq<u8>, off: int, more: Seq<u8>)
    requires
        0 <= off <= file.len(),
        header_ends(file, off),
    ensures
        all_parts(file + more, off) == all_parts(file, off),
    decreases file.len() - off,
{
    let all = file + more;
    let none = Seq::<Part>::empty();
    if off + 2 <= file.len() && file[off] == 0xFF && is_standalone(file[off + 1]) {
        lemma_nothing_behind_header(file, off + 2, more);
        if off + 4 <= file.len() {
            assert(all_parts(file, off) == all_parts(file, off + 2));
        } else {
            assert(all_parts(file, off) =~= none);
            assert(all_parts(file, off + 2) =~= none);
        }
        if off + 4 <= all.len() {
            assert(all_parts(all, off) == all_parts(all, off + 2));
        } else {
            assert(all_parts(all, off) =~= none);
            assert(all_parts(all, off + 2) =~= none);
        }
    } else if let Scan::Segment { marker: _, end } = scan_at(file, off) {
        assert(scan_at(all, off) == scan_at(file, off));
        assert(all.subrange(off + 4, end) =~= file.subrange(off + 4, end));
        lemma_nothing_behind_header(file, end, more);
        lemma_all_parts_step(file, off);
        lemma_all_parts_step(all, off);
    } else {
        assert(all_parts(file, off) =~= none);
        assert(scan_at(all, off) is Stop);
        assert(all_parts(all, off) =~= none);
    }
}

/// The segments of a JPEG file are those from its third byte on.
proof fn lemma_segment_parts(file: Seq<u8>)
    requires
        is_jpeg(file),
    ensures
        segment_parts(file) == all_parts(file, 2),
{
    assert(segments(file) == segments_from(file, 2));
}

/// The image before the gain map of a created file, and the gain map, each have exactly one set of
/// gain map metadata, the new one; the directory comes behind it. It is also the only one among the
/// segments that a walk through the whole file finds, where the header of the base ends before the
/// base does. All this as long as the directory's 32-bit fields and the packets' length fields can
/// hold their numbers.
pub proof fn law_one_set_of_metadata(base: Seq<u8>, gainmap: Seq<u8>, micro: u32, text: Seq<u8>)
    requires
        is_jpeg(base),
        is_jpeg(gainmap),
        secondary_xmp(text).len() + 2 <= 0xFFFF,
        created(base, gainmap, Some((micro, text)))->Ok_0.len() < 0x1_0000_0000,
    ensures
        created(base, gainmap, Some((micro, text))) matches Ok(file) && {
            let gm = original_gainmap(file);
            let set = base_parts(micro, gm.len()).push(
                directory_part(created_base(base, micro, gm.len()), gm.len() as int),
            );
            &&& gainmap_at(file) is Some
            &&& of_kind(segment_parts(primary_image(file)), is_hdr_metadata()) == set
            &&& of_kind(segment_parts(gm), is_hdr_metadata()) == gainmap_parts(micro, text)
            &&& header_ends(base, 2) ==> of_kind(segment_parts(file), is_hdr_metadata()) == set
        },
{
    let gm = created_gainmap(gainmap, micro, text);
    let b = created_base(base, micro, gm.len());
    let file = with_gainmap(b, gm);
    lemma_gainmap_parts(gainmap, micro, text);
    lemma_created_parts(base, gainmap, micro, text);
    lemma_gainmap_layout(b, gm);
    law_added_gainmap_is_found(b, gm);
    lemma_primary_with_directory(b, gm);
    lemma_primary_parts(base, micro, gm.len());
    let primary = with_parts(b, seq![directory_part(b, gm.len() as int)]);
    assert(file == primary + gm);
    assert(primary_image(file) =~= primary);
    if header_ends(base, 2) {
        lemma_nothing_behind_header(primary, 2, gm);
        lemma_segment_parts(primary);
        lemma_segment_parts(file);
    }
}

/// The base of a created file with its directory has the new metadata, the directory and no other
/// metadata, and its header ends where that of the base does.
proof fn lemma_primary_parts(base: Seq<u8>, micro: u32, n: nat)
    requires
        is_jpeg(base),
        n < 0x1_0000_0000,
        created_base(base, micro, n).len() + MPF_MARKER_LEN < 0x1_0000_0000,
    ensures
        ({
            let b = created_base(base, micro, n);
            let dir = directory_part(b, n as int);
            let primary = with_parts(b, seq![dir]);
            &&& is_jpeg(primary)
            &&& of_kind(segment_parts(primary), is_hdr_metadata()) == base_parts(micro, n).push(dir)
            &&& header_ends(base, 2) ==> header_ends(primary, 2)
        }),
{
    let kind = is_hdr_metadata();
    let b = created_base(base, micro, n);
    let dir = directory_part(b, n as int);
    let (out, parts) = (stripped(base, kind, true), base_parts(micro, n));
    let set = parts.push(dir);
    lemma_stripped_file_run(base, kind, true, kind);
    lemma_stripped_file(base, kind);
    lemma_base_parts(micro, n);
    law_inserted_parts_are_read_back(out, parts);
    lemma_directory_part(b, n as int);
    lemma_with_more_parts(out, parts, seq![dir]);
    assert(parts + seq![dir] =~= set);
    lemma_one_more_of_kind(parts, dir, kind);
    lemma_kind_with_parts(out, set, kind);
    law_inserted_parts_are_read_back(out, set);
    lemma_segment_parts(with_parts(out, set));
    if header_ends(base, 2) {
        let t = stripped_from(base, 2, kind, true);
        lemma_stripped_header_ends(base, 2, kind);
        assert(out.subrange(2, out.len() as int) =~= t.subrange(0, t.len() as int));
        lemma_header_ends_tail(out, 2, t, 0);
        lemma_header_ends_with_parts(out, set);
    }
}

/// The new metadata of a base can be written, and are gain map metadata.
proof fn lemma_base_parts(micro: u32, n: nat)
    requires
        n < 0x1_0000_0000,
    ensures
        are_run_parts(base_parts(micro, n)),
        of_kind(base_parts(micro, n), is_hdr_metadata()) == base_parts(micro, n),
{
    lemma_new_packets(n, Seq::empty());
    lemma_primary_fits(n);
    assert(iso_payload(micro).len() == 65);
    lemma_new_metadata(primary_xmp(n), micro);
}

/// One more part of a kind, behind others of the kind.
proof fn lemma_one_more_of_kind(parts: Seq<Part>, p: Part, kind: spec_fn(u8, Seq<u8>) -> bool)
    requires
        are_run_parts(parts),
        of_kind(parts, kind) == parts,
        are_run_parts(seq![p]),
        kind(p.0, p.1),
    ensures
        are_run_parts(parts.push(p)),
        of_kind(parts.push(p), kind) == parts.push(p),
{
    let all = parts.push(p);
    assert(all.drop_last() =~= parts);
    assert(is_run_part(seq![p][0]));
    assert forall|i: int| 0 <= i < all.len() implies is_run_part(#[trigger] all[i]) by {
        if i < parts.len() {
            assert(all[i] == parts[i]);
        }
    }
}

/// The gain map of a created file has the new metadata and no other.
proof fn lemma_gainmap_parts(gainmap: Seq<u8>, micro: u32, text: Seq<u8>)
    requires
        is_jpeg(gainmap),
        secondary_xmp(text).len() + 2 <= 0xFFFF,
    ensures
        is_jpeg(created_gainmap(gainmap, micro, text)),
        of_kind(segment_parts(created_gainmap(gainmap, micro, text)), is_hdr_metadata())
            == gainmap_parts(micro, text),
{
    let kind = is_hdr_metadata();
    let parts = gainmap_parts(micro, text);
    let out = stripped(gainmap, kind, true);
    lemma_new_packets(0, text);
    assert(iso_payload(micro).len() == 65);
    lemma_new_metadata(secondary_xmp(text), micro);
    lemma_stripped_file_run(gainmap, kind, true, kind);
    lemma_stripped_file(gainmap, kind);
    assert(are_run_parts(parts));
    lemma_kind_with_parts(out, parts, kind);
    law_inserted_parts_are_read_back(out, parts);
    lemma_written_first(parts);
    lemma_segment_parts(created_gainmap(gainmap, micro, text));
}

} // verus!
