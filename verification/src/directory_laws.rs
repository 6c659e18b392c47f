//! What the container directories of assembled and created files declare, and that assembled files
//! are detected.

use vstd::prelude::*;

use crate::bmff::least;
use crate::bytes::{begins_with, find_from, lemma_find_from, matches_at};
use crate::detect::{hdr_kind, is_gainmap_metadata, HdrKind, JPEG_SEARCH_LIMIT};
use crate::jpeg::{
    app_run_end, gainmap_at, has_part, is_app2_with, is_hdr_metadata, is_jpeg, scan_at, segments,
    stripped, Scan, Segment,
};
use crate::kept_metadata::{
    law_taken_over_parts_are_present, lemma_all_splits, lemma_has_part, lemma_missing_are_run_parts,
    lemma_missing_contains,
};
use crate::laws::{
    base_patch_fits, law_assembled_gainmap_is_found, law_created_gainmap_is_found,
    law_inserted_parts_are_read_back, law_iso_payload_is_neutral_at_zero,
    law_iso_payload_reads_back, lemma_carried,
    lemma_carrying_base, lemma_created_parts, lemma_directory_scan, lemma_gainmap_layout,
    lemma_iso_signature, lemma_not_png, lemma_patched_packet, lemma_run_kind,
    lemma_stripped_file_run, patch_fits_from,
};
use crate::mpf::{lemma_mpf_needs_signature, MPF_MARKER_LEN};
use crate::neutral::{
    both_metadata, is_neutral_from, iso_metadata, metadata_of, photo_metadata, segment_metadata,
    Channel, Metadata, NeutralInfo,
};
use crate::run::{
    all_parts, are_run_parts, lemma_all_parts_step, lemma_all_prefix, lemma_all_tail,
    lemma_run_tail, lemma_same_scan, run_parts, Part,
};
use crate::tags::{ISO21496_URN, ISO_URN, LENGTH_ATTR, MPF_SIG, SEMANTIC_GAINMAP, XMP_SIG};
use crate::ultrahdr::{
    assembled, assembled_gainmap, base_parts, carried, carried_parts, carrying_base, created,
    created_base, created_gainmap, iso_payload, missing, original_gainmap, with_gainmap, with_parts,
};
use crate::xmp::{
    decimal, declared_length, law_declared_length_reads_back, lemma_patched_keeps_head,
    lemma_primary_fits, primary_xmp, with_declared_length, with_patched_xmp_from,
};

verus! {

/// The first XMP packet among the parts.
pub open spec fn first_packet(parts: Seq<Part>) -> Option<Seq<u8>>
    decreases parts.len(),
{
    if parts.len() == 0 {
        None
    } else if begins_with(parts[0].1, XMP_SIG@) {
        Some(parts[0].1)
    } else {
        first_packet(parts.skip(1))
    }
}

/// If the packet declares the length of a gain map, it declares `n` bytes.
pub open spec fn declares(packet: Seq<u8>, n: nat) -> bool {
    declared_length(packet) matches Some((start, end)) ==> packet.subrange(start, end) == decimal(n)
}

proof fn lemma_first_packet_step(p: Part, rest: Seq<Part>)
    ensures
        first_packet(seq![p] + rest) == (if begins_with(p.1, XMP_SIG@) {
            Some(p.1)
        } else {
            first_packet(rest)
        }),
{
    assert((seq![p] + rest)[0] == p);
    assert((seq![p] + rest).skip(1) =~= rest);
}

/// The first packet of two lists in a row.
proof fn lemma_first_packet_add(a: Seq<Part>, b: Seq<Part>)
    ensures
        first_packet(a + b) == (match first_packet(a) {
            Some(p) => Some(p),
            None => first_packet(b),
        }),
    decreases a.len(),
{
    if a.len() == 0 {
        assert(a + b =~= b);
    } else {
        assert((a + b)[0] == a[0]);
        assert((a + b).skip(1) =~= a.skip(1) + b);
        lemma_first_packet_add(a.skip(1), b);
    }
}

/// A list with a packet has a first one.
proof fn lemma_some_packet(parts: Seq<Part>, i: int)
    requires
        0 <= i < parts.len(),
        begins_with(parts[i].1, XMP_SIG@),
    ensures
        first_packet(parts) is Some,
    decreases i,
{
    if i > 0 {
        assert(parts.skip(1)[i - 1] == parts[i]);
        lemma_some_packet(parts.skip(1), i - 1);
    }
}

/// A rewritten packet keeps its signature.
proof fn lemma_declared_keeps_signature(payload: Seq<u8>, n: nat)
    requires
        begins_with(payload, XMP_SIG@),
    ensures
        begins_with(with_declared_length(payload, n), XMP_SIG@),
{
    if let Some((start, end)) = declared_length(payload) {
        let sem = find_from(payload, SEMANTIC_GAINMAP@, 0)->Some_0;
        lemma_find_from(payload, SEMANTIC_GAINMAP@, 0);
        lemma_find_from(payload, LENGTH_ATTR@, sem);
        lemma_find_from(payload, crate::xmp::QUOTE@, start);
        let sig = payload.subrange(0, 28);
        if sem < 28 {
            assert(payload.subrange(sem, sem + 18)[0] == payload[sem]);
            assert(sig[sem] == payload[sem]);
            assert(SEMANTIC_GAINMAP@[0] == 0x53);
            assert(XMP_SIG@[sem] != 0x53);
        }
        assert(with_declared_length(payload, n).subrange(0, 28) =~= sig);
    }
}

/// A rewritten packet declares what it was rewritten for.
proof fn lemma_rewritten_declares(payload: Seq<u8>, n: nat)
    ensures
        declares(with_declared_length(payload, n), n),
{
    if declared_length(payload) is Some {
        law_declared_length_reads_back(payload, n);
    }
}

/// A signature that is not at the start of a segment is not at the start of its payload.
proof fn lemma_no_signature(raw: Seq<u8>, off: int, end: int)
    requires
        0 <= off,
        off + 4 <= end <= raw.len(),
    ensures
        begins_with(raw.subrange(off + 4, end), XMP_SIG@) <==> end - off - 4 >= 28 && matches_at(
            raw,
            XMP_SIG@,
            off + 4,
        ),
{
    let payload = raw.subrange(off + 4, end);
    if payload.len() >= 28 {
        assert(payload.subrange(0, 28) =~= raw.subrange(off + 4, off + 32));
    }
}

/// Behind a segment that ends inside a signature no segment stands.
proof fn lemma_cut_signature(raw: Seq<u8>, off: int, end: int)
    requires
        0 <= off,
        off + 4 <= end < off + 32,
        matches_at(raw, XMP_SIG@, off + 4),
    ensures
        all_parts(raw, end) == Seq::<Part>::empty(),
{
    let sig = raw.subrange(off + 4, off + 32);
    assert(sig[end - off - 4] == raw[end]);
    assert(XMP_SIG@[end - off - 4] != 0xFF);
    assert(scan_at(raw, end) is Stop);
    assert(all_parts(raw, end) =~= Seq::<Part>::empty());
}

/// The first packet of a file whose first packet was rewritten declares what it was rewritten for.
proof fn lemma_patched_first_packet(raw: Seq<u8>, off: int, n: nat)
    requires
        0 <= off <= raw.len(),
        patch_fits_from(raw, off, n),
    ensures
        ({
            let first = first_packet(all_parts(with_patched_xmp_from(raw, off, n), off));
            &&& first matches Some(p) ==> declares(p, n)
            &&& first_packet(all_parts(raw, off)) is Some ==> first is Some
        }),
    decreases raw.len() - off,
{
    let out = with_patched_xmp_from(raw, off, n);
    match scan_at(raw, off) {
        Scan::Stop => {
            assert(all_parts(raw, off) =~= Seq::<Part>::empty());
        },
        Scan::Standalone => {
            lemma_patched_first_packet(raw, off + 2, n);
            lemma_patched_keeps_head(raw, off + 2, n);
            assert(out.subrange(0, off + 2)[off] == raw.subrange(0, off + 2)[off]);
            assert(out.subrange(0, off + 2)[off + 1] == raw.subrange(0, off + 2)[off + 1]);
            assert(all_parts(raw, off) == all_parts(raw, off + 2));
            if scan_at(out, off) is Stop {
                assert(all_parts(out, off) =~= Seq::<Part>::empty());
                if first_packet(all_parts(out, off + 2)) is Some {
                    assert(!(scan_at(out, off + 2) is Stop));
                }
            } else {
                assert(all_parts(out, off) == all_parts(out, off + 2));
            }
        },
        Scan::Segment { marker, end } => {
            let payload = raw.subrange(off + 4, end);
            lemma_all_parts_step(raw, off);
            lemma_no_signature(raw, off, end);
            lemma_first_packet_step((marker, payload), all_parts(raw, end));
            if matches_at(raw, XMP_SIG@, off + 4) {
                let packet = with_declared_length(payload, n);
                let next = off + 4 + packet.len();
                lemma_patched_packet(raw, off, n);
                lemma_all_parts_step(out, off);
                lemma_all_tail(out, next, raw, end);
                lemma_first_packet_step((marker, packet), all_parts(raw, end));
                lemma_rewritten_declares(payload, n);
                if payload.len() >= 28 {
                    lemma_declared_keeps_signature(payload, n);
                } else {
                    lemma_cut_signature(raw, off, end);
                }
            } else {
                lemma_patched_keeps_head(raw, end, n);
                lemma_same_scan(raw, out, off, end);
                lemma_all_parts_step(out, off);
                lemma_first_packet_step((marker, payload), all_parts(out, end));
                lemma_patched_first_packet(raw, end, n);
            }
        },
    }
}

/// The first packet stays the first one where more bytes follow.
proof fn lemma_first_packet_extends(a: Seq<u8>, p: int, b: Seq<u8>, q: int)
    requires
        0 <= p <= a.len(),
        0 <= q,
        q + (a.len() - p) <= b.len(),
        forall|i: int| 0 <= i < a.len() - p ==> #[trigger] a[p + i] == b[q + i],
        first_packet(all_parts(a, p)) is Some,
    ensures
        first_packet(all_parts(b, q)) == first_packet(all_parts(a, p)),
    decreases a.len() - p,
{
    match scan_at(a, p) {
        Scan::Stop => {
            assert(all_parts(a, p) =~= Seq::<Part>::empty());
        },
        Scan::Standalone => {
            assert(a[p + 0] == b[q + 0] && a[p + 1] == b[q + 1]);
            assert(all_parts(a, p) == all_parts(a, p + 2));
            assert(all_parts(b, q) == all_parts(b, q + 2));
            assert forall|i: int| 0 <= i < a.len() - (p + 2) implies #[trigger] a[p + 2 + i] == b[q
                + 2 + i] by {
                assert(a[p + (2 + i)] == b[q + (2 + i)]);
            }
            lemma_first_packet_extends(a, p + 2, b, q + 2);
        },
        Scan::Segment { marker, end } => {
            let len = end - p;
            assert(a[p + 0] == b[q + 0] && a[p + 1] == b[q + 1] && a[p + 2] == b[q + 2] && a[p + 3]
                == b[q + 3]);
            assert(scan_at(b, q) == (Scan::Segment { marker, end: q + len }));
            assert forall|i: int| 0 <= i < len - 4 implies #[trigger] a.subrange(p + 4, end)[i]
                == b.subrange(q + 4, q + len)[i] by {
                assert(a[p + (4 + i)] == b[q + (4 + i)]);
            }
            assert(a.subrange(p + 4, end) =~= b.subrange(q + 4, q + len));
            lemma_all_parts_step(a, p);
            lemma_all_parts_step(b, q);
            let first = (marker, a.subrange(p + 4, end));
            lemma_first_packet_step(first, all_parts(a, end));
            lemma_first_packet_step(first, all_parts(b, q + len));
            if !begins_with(first.1, XMP_SIG@) {
                assert forall|i: int| 0 <= i < a.len() - end implies #[trigger] a[end + i] == b[q
                    + len + i] by {
                    assert(a[p + (len + i)] == b[q + (len + i)]);
                }
                lemma_first_packet_extends(a, end, b, q + len);
            }
        },
    }
}

/// The segments of a file to which a gain map was added: the run of the base, the directory, and
/// what follows.
proof fn lemma_file_parts(base: Seq<u8>, gm: Seq<u8>)
    requires
        base.len() >= 2,
        base.len() + MPF_MARKER_LEN < 0x1_0000_0000,
        gm.len() < 0x1_0000_0000,
    ensures
        ({
            let file = with_gainmap(base, gm);
            let at = app_run_end(base, 2);
            let dir = file.subrange(at + 4, at + 90);
            &&& all_parts(file, 2) == run_parts(base, 2) + (seq![(0xE2u8, dir)] + all_parts(
                file,
                at + 90,
            ))
            &&& begins_with(dir, MPF_SIG@)
        }),
{
    let file = with_gainmap(base, gm);
    let at = app_run_end(base, 2);
    let base_len = base.len() + MPF_MARKER_LEN;
    lemma_gainmap_layout(base, gm);
    lemma_directory_scan(file, at, base_len, gm.len() as int, base_len - (at + 8));
    let dir = file.subrange(at + 4, at + 90);
    if !begins_with(dir, MPF_SIG@) {
        lemma_mpf_needs_signature(dir);
    }
    lemma_all_prefix(base, file, 2);
    lemma_all_parts_step(file, at);
}

/// The first packet of a base is the first one of a file to which a gain map was added.
proof fn lemma_file_first_packet(base: Seq<u8>, gm: Seq<u8>)
    requires
        base.len() >= 2,
        base.len() + MPF_MARKER_LEN < 0x1_0000_0000,
        gm.len() < 0x1_0000_0000,
        first_packet(all_parts(base, 2)) is Some,
    ensures
        first_packet(all_parts(with_gainmap(base, gm), 2)) == first_packet(all_parts(base, 2)),
{
    let file = with_gainmap(base, gm);
    let at = app_run_end(base, 2);
    let dir = file.subrange(at + 4, at + 90);
    let run = run_parts(base, 2);
    let rest = all_parts(file, at + 90);
    lemma_gainmap_layout(base, gm);
    lemma_file_parts(base, gm);
    lemma_all_splits(base, 2);
    lemma_first_packet_add(run, all_parts(base, at));
    lemma_first_packet_add(run, seq![(0xE2u8, dir)] + rest);
    lemma_first_packet_step((0xE2u8, dir), rest);
    if begins_with(dir, XMP_SIG@) {
        assert(dir.subrange(0, 28)[0] == dir[0] && dir.subrange(0, 4)[0] == dir[0]);
        assert(XMP_SIG@[0] == 0x68 && MPF_SIG@[0] == 0x4D);
    }
    if first_packet(run) is None {
        let n = base.len() - at;
        assert forall|i: int| 0 <= i < n implies #[trigger] base[at + i] == file[at + 90 + i] by {
            assert(base.subrange(at, base.len() as int)[i] == base[at + i]);
        }
        lemma_first_packet_extends(base, at, file, at + 90);
    }
}

/// What is taken over without colour profiles: XMP packets and ISO 21496-1, both gain map metadata.
proof fn lemma_carried_kind(segs: Seq<Segment>, n: int, i: int)
    requires
        0 <= n <= segs.len(),
        0 <= i < carried(segs, false, n).len(),
    ensures
        ({
            let part = carried(segs, false, n)[i];
            &&& is_gainmap_metadata(part.1)
            &&& part.0 == 0xE1 && begins_with(part.1, XMP_SIG@) || part.0 == 0xE2 && begins_with(
                part.1,
                ISO21496_URN@,
            )
        }),
    decreases n,
{
    let before = carried(segs, false, n - 1);
    if i < before.len() {
        lemma_carried_kind(segs, n - 1, i);
    } else {
        let payload = segs[n - 1].payload;
        if begins_with(payload, ISO21496_URN@) {
            assert(payload.subrange(0, 27) =~= payload.subrange(0, 28).subrange(0, 27));
            assert(ISO21496_URN@.subrange(0, 27) =~= ISO_URN@);
            assert(matches_at(payload, ISO_URN@, 0));
        }
    }
}

/// Where the original has XMP metadata of a gain map, the assembled file has an XMP packet, and if
/// its first one declares the length of a gain map, then the length of the gain map that the file
/// has; as long as the directory's 32-bit fields can hold its numbers, and the container
/// directory's length field can count the rewritten packet.
pub proof fn law_assembled_directory_declares_gainmap(
    original: Seq<u8>,
    base: Seq<u8>,
    gainmap: Seq<u8>,
)
    requires
        is_jpeg(base),
        is_jpeg(gainmap),
        gainmap_at(original) is Some,
        assembled(original, base, gainmap)->Ok_0.len() < 0x1_0000_0000,
        base_patch_fits(base, original, assembled_gainmap(original, gainmap).len()),
        exists|i: int|
            0 <= i < carried_parts(original, false).len() && (#[trigger] carried_parts(
                original,
                false,
            )[i]).0 == 0xE1,
    ensures
        assembled(original, base, gainmap) matches Ok(file) && first_packet(
            all_parts(file, 2),
        ) matches Some(packet) && declares(packet, original_gainmap(file).len()),
{
    let kind = is_app2_with(MPF_SIG@);
    let carry = carried_parts(original, false);
    let i = choose|i: int| 0 <= i < carry.len() && (#[trigger] carry[i]).0 == 0xE1;
    let gm = assembled_gainmap(original, gainmap);
    let out = stripped(base, kind, false);
    let with = with_parts(out, missing(out, carry));
    let b = carrying_base(base, original, gm.len());
    law_assembled_gainmap_is_found(original, base, gainmap);
    lemma_stripped_file_run(base, kind, false, kind);
    lemma_carried(segments(original), false, segments(original).len() as int);
    lemma_carried_kind(segments(original), segments(original).len() as int, i);
    law_taken_over_parts_are_present(out, carry, i);
    lemma_has_part(with, carry[i]);
    let all = all_parts(with, 2);
    let j = choose|j: int| 0 <= j < all.len() && all[j] == carry[i];
    lemma_some_packet(all, j);
    lemma_patched_first_packet(with, 2, gm.len());
    lemma_carrying_base(base, original, gm.len());
    lemma_gainmap_layout(b, gm);
    lemma_file_first_packet(b, gm);
}

/// The segments of a created file: `n` that are no gain map metadata, the new metadata, and others.
proof fn lemma_created_segments(base: Seq<u8>, gainmap: Seq<u8>, micro: u32, text: Seq<u8>) -> (n:
    int)
    requires
        is_jpeg(base),
        is_jpeg(gainmap),
        created(base, gainmap, Some((micro, text)))->Ok_0.len() < 0x1_0000_0000,
    ensures
        ({
            let gm = created_gainmap(gainmap, micro, text);
            let file = with_gainmap(created_base(base, micro, gm.len()), gm);
            let all = all_parts(file, 2);
            let parts = base_parts(micro, gm.len());
            &&& is_jpeg(file)
            &&& 0 <= n
            &&& n + 2 <= all.len()
            &&& forall|i: int|
                0 <= i < n ==> !is_hdr_metadata()((#[trigger] all[i]).0, all[i].1)
            &&& all[n] == parts[0]
            &&& all[n + 1] == parts[1]
        }),
{
    let drop = is_hdr_metadata();
    let gm = created_gainmap(gainmap, micro, text);
    let b = created_base(base, micro, gm.len());
    let file = with_gainmap(b, gm);
    let parts = base_parts(micro, gm.len());
    let out = stripped(base, drop, true);
    lemma_created_parts(base, gainmap, micro, text);
    lemma_gainmap_layout(b, gm);
    lemma_primary_fits(gm.len());
    assert(iso_payload(micro).len() == 65);
    lemma_stripped_file_run(base, drop, true, drop);
    assert(are_run_parts(parts));
    law_inserted_parts_are_read_back(out, parts);
    lemma_file_parts(b, gm);
    lemma_not_png(file, b, app_run_end(b, 2));
    let old_run = run_parts(out, 2);
    let (run, all) = (run_parts(b, 2), all_parts(file, 2));
    let n = old_run.len() as int;
    assert(run[n] == parts[0] && run[n + 1] == parts[1]);
    assert(all[n] == run[n] && all[n + 1] == run[n + 1]);
    assert forall|i: int| 0 <= i < n implies !drop((#[trigger] all[i]).0, all[i].1) by {
        assert(all[i] == run[i]);
        assert(run[i] == old_run[i]);
        assert(!drop(old_run[i].0, old_run[i].1));
    }
    n
}

/// The container directory of a created file declares the length of the gain map that the file has,
/// as long as the directory's 32-bit fields can hold its numbers.
pub proof fn law_created_directory_declares_gainmap(
    base: Seq<u8>,
    gainmap: Seq<u8>,
    micro: u32,
    text: Seq<u8>,
)
    requires
        is_jpeg(base),
        is_jpeg(gainmap),
        created(base, gainmap, Some((micro, text)))->Ok_0.len() < 0x1_0000_0000,
    ensures
        created(base, gainmap, Some((micro, text))) matches Ok(file) && has_part(
            file,
            0xE1,
            primary_xmp(original_gainmap(file).len()),
        ) && has_part(file, 0xE2, iso_payload(micro)),
{
    let gm = created_gainmap(gainmap, micro, text);
    let file = with_gainmap(created_base(base, micro, gm.len()), gm);
    let parts = base_parts(micro, gm.len());
    law_created_gainmap_is_found(base, gainmap, micro, text);
    let _ = lemma_created_segments(base, gainmap, micro, text);
    lemma_has_part(file, parts[0]);
    lemma_has_part(file, parts[1]);
}

/// A part of the run that is gain map metadata leaves such a part in a file whose first packet was
/// rewritten.
proof fn lemma_patched_run_keeps(raw: Seq<u8>, off: int, n: nat, i: int) -> (k: int)
    requires
        0 <= off <= raw.len(),
        patch_fits_from(raw, off, n),
        0 <= i < run_parts(raw, off).len(),
        0xE0 <= run_parts(raw, off)[i].0 <= 0xEF,
        is_gainmap_metadata(run_parts(raw, off)[i].1),
        is_gainmap_metadata(with_declared_length(run_parts(raw, off)[i].1, n)) || run_parts(
            raw,
            off,
        )[i].1[0] != XMP_SIG@[0],
    ensures
        ({
            let parts = run_parts(with_patched_xmp_from(raw, off, n), off);
            &&& 0 <= k < parts.len()
            &&& 0xE0 <= parts[k].0 <= 0xEF
            &&& is_gainmap_metadata(parts[k].1)
        }),
    decreases raw.len() - off,
{
    let out = with_patched_xmp_from(raw, off, n);
    if let Scan::Segment { marker, end } = scan_at(raw, off) {
        let payload = raw.subrange(off + 4, end);
        let rest = run_parts(raw, end);
        assert(run_parts(raw, off) == seq![(marker, payload)] + rest);
        if matches_at(raw, XMP_SIG@, off + 4) {
            let packet = with_declared_length(payload, n);
            let next = off + 4 + packet.len();
            lemma_patched_packet(raw, off, n);
            lemma_run_tail(out, next, raw, end);
            let parts = run_parts(out, off);
            assert(parts =~= seq![(marker, packet)] + rest);
            if i == 0 {
                assert(raw.subrange(off + 4, off + 32)[0] == raw[off + 4]);
                if payload.len() > 0 {
                    assert(payload[0] == raw[off + 4]);
                } else {
                    assert(!is_gainmap_metadata(payload));
                }
            } else {
                assert(parts[i] == rest[i - 1]);
            }
            i
        } else {
            lemma_patched_keeps_head(raw, end, n);
            lemma_same_scan(raw, out, off, end);
            let parts = run_parts(out, off);
            assert(parts =~= seq![(marker, payload)] + run_parts(out, end));
            if i == 0 {
                0
            } else {
                assert(rest[i - 1] == run_parts(raw, off)[i]);
                let k = lemma_patched_run_keeps(raw, end, n, i - 1);
                assert(parts[k + 1] == run_parts(out, end)[k]);
                k + 1
            }
        }
    } else {
        0
    }
}

/// An assembled file is detected as an Ultra HDR file where the base does not have piece `i` of the
/// original's gain map metadata yet; as long as the application segments lie in the part of the
/// file that is searched, and an XMP packet stays gain map metadata when it is rewritten.
pub proof fn law_assembled_file_is_detected(
    original: Seq<u8>,
    base: Seq<u8>,
    gainmap: Seq<u8>,
    i: int,
)
    requires
        is_jpeg(base),
        is_jpeg(gainmap),
        gainmap_at(original) is Some,
        base_patch_fits(base, original, assembled_gainmap(original, gainmap).len()),
        app_run_end(
            carrying_base(base, original, assembled_gainmap(original, gainmap).len()),
            2,
        ) <= JPEG_SEARCH_LIMIT,
        0 <= i < carried_parts(original, false).len(),
        ({
            let part = carried_parts(original, false)[i];
            let n = assembled_gainmap(original, gainmap).len();
            &&& !has_part(stripped(base, is_app2_with(MPF_SIG@), false), part.0, part.1)
            &&& part.0 == 0xE2 || is_gainmap_metadata(with_declared_length(part.1, n))
        }),
    ensures
        assembled(original, base, gainmap) matches Ok(file) && hdr_kind(file) == Some(
            HdrKind::JpegGainmap,
        ),
{
    let kind = is_app2_with(MPF_SIG@);
    let carry = carried_parts(original, false);
    let gm = assembled_gainmap(original, gainmap);
    let out = stripped(base, kind, false);
    let ins = missing(out, carry);
    let with = with_parts(out, ins);
    let b = carrying_base(base, original, gm.len());
    let file = with_gainmap(b, gm);
    let at = app_run_end(b, 2);
    lemma_stripped_file_run(base, kind, false, kind);
    lemma_carried(segments(original), false, segments(original).len() as int);
    lemma_carried_kind(segments(original), segments(original).len() as int, i);
    lemma_missing_are_run_parts(out, carry, carry.len() as int);
    lemma_missing_contains(out, carry, carry.len() as int, i);
    law_inserted_parts_are_read_back(out, ins);
    let j = choose|j: int| 0 <= j < ins.len() && ins[j] == carry[i];
    let run = run_parts(out, 2);
    assert((run + ins)[run.len() + j] == carry[i]);
    if carry[i].0 == 0xE2 {
        assert(carry[i].1.subrange(0, 28)[0] == carry[i].1[0]);
        assert(ISO21496_URN@[0] == 0x75 && XMP_SIG@[0] == 0x68);
    }
    let _ = lemma_patched_run_keeps(with, 2, gm.len(), run.len() + j);
    lemma_carrying_base(base, original, gm.len());
    lemma_gainmap_layout(b, gm);
    lemma_not_png(file, b, at);
    let limit = least(file.len() as int, JPEG_SEARCH_LIMIT as int);
    lemma_run_kind(b, file, 2, limit);
}

/// Segments without ISO 21496-1 give no such metadata.
proof fn lemma_no_iso_metadata(segs: Seq<Segment>, n: int)
    requires
        n <= segs.len(),
        forall|i: int| 0 <= i < n ==> segment_metadata(#[trigger] segs[i], true) is None,
    ensures
        metadata_of(segs, true, n) == Seq::<Metadata>::empty(),
    decreases n,
{
    if n > 0 {
        lemma_no_iso_metadata(segs, n - 1);
        assert(segment_metadata(segs[n - 1], true) is None);
    }
}

/// The first metadata of some segments are the first ones of more.
proof fn lemma_first_metadata(segs: Seq<Segment>, k: int, n: int)
    requires
        0 <= k <= n <= segs.len(),
        metadata_of(segs, true, k).len() > 0,
    ensures
        metadata_of(segs, true, n).len() > 0,
        metadata_of(segs, true, n)[0] == metadata_of(segs, true, k)[0],
    decreases n - k,
{
    if k < n {
        lemma_first_metadata(segs, k, n - 1);
    }
}

/// The metadata of the first segment with ISO 21496-1 count first.
pub(crate) proof fn lemma_first_iso_counts(file: Seq<u8>, k: int, m: Metadata)
    requires
        0 <= k < segments(file).len(),
        forall|i: int| 0 <= i < k ==> segment_metadata(#[trigger] segments(file)[i], true) is None,
        segment_metadata(segments(file)[k], true) == Some(m),
    ensures
        photo_metadata(file).len() > 0,
        photo_metadata(file)[0] == m,
{
    let segs = segments(file);
    lemma_no_iso_metadata(segs, k);
    assert(metadata_of(segs, true, k + 1) =~= seq![m]);
    lemma_first_metadata(segs, k + 1, segs.len() as int);
    assert(both_metadata(file, true)[0] == m);
}

/// A segment that is no gain map metadata gives no ISO 21496-1 metadata; a written one does.
proof fn lemma_iso_segments(s: Segment, micro: u32)
    ensures
        !is_hdr_metadata()(s.marker, s.payload) || s.marker == 0xE1 ==> segment_metadata(
            s,
            true,
        ) is None,
        s.marker == 0xE2 && s.payload == iso_payload(micro) ==> segment_metadata(s, true)
            == iso_metadata(s.payload),
{
    lemma_iso_signature(micro);
    assert(iso_payload(micro).len() == 65);
}

/// The metadata that count first in a created file are those that were written: one channel, gains
/// from 1 up to the given one, and gamma 1.
pub proof fn law_created_metadata_count_first(
    base: Seq<u8>,
    gainmap: Seq<u8>,
    micro: u32,
    text: Seq<u8>,
)
    requires
        is_jpeg(base),
        is_jpeg(gainmap),
        micro < 0x8000_0000,
        created(base, gainmap, Some((micro, text)))->Ok_0.len() < 0x1_0000_0000,
    ensures
        created(base, gainmap, Some((micro, text))) matches Ok(file) && photo_metadata(file).len()
            > 0 && Some(photo_metadata(file)[0]) == iso_metadata(iso_payload(micro)),
{
    let gm = created_gainmap(gainmap, micro, text);
    let file = with_gainmap(created_base(base, micro, gm.len()), gm);
    let n = lemma_created_segments(base, gainmap, micro, text);
    let (all, segs) = (all_parts(file, 2), segments(file));
    law_iso_payload_reads_back(micro);
    let m = iso_metadata(iso_payload(micro))->Some_0;
    assert forall|i: int| 0 <= i < n + 1 implies segment_metadata(
        #[trigger] segs[i],
        true,
    ) is None by {
        assert(all[i] == (segs[i].marker, segs[i].payload));
        lemma_iso_segments(segs[i], micro);
    }
    assert(all[n + 1] == (segs[n + 1].marker, segs[n + 1].payload));
    lemma_iso_segments(segs[n + 1], micro);
    lemma_first_iso_counts(file, n + 1, m);
}

/// The neutral sample of a created file is 0 in all channels.
pub proof fn law_created_file_is_neutral_at_zero<F: Fn(Channel) -> Option<u8>>(
    neutral: F,
    base: Seq<u8>,
    gainmap: Seq<u8>,
    micro: u32,
    text: Seq<u8>,
    info: NeutralInfo,
)
    requires
        is_jpeg(base),
        is_jpeg(gainmap),
        0 < micro < 0x8000_0000,
        created(base, gainmap, Some((micro, text)))->Ok_0.len() < 0x1_0000_0000,
        is_neutral_from(
            neutral,
            photo_metadata(created(base, gainmap, Some((micro, text)))->Ok_0),
            0,
            info,
        ),
    ensures
        info.ok,
        !info.multi_channel,
        info.values@ == seq![0u8, 0, 0],
{
    law_created_metadata_count_first(base, gainmap, micro, text);
    law_iso_payload_is_neutral_at_zero(neutral, micro);
}

} // verus!
