//! The gain map of a photo comes back out of a file that was assembled with it.

use vstd::prelude::*;

use crate::bytes::{begins_with, matches_at, u16_be};
use crate::jpeg::{
    app_run_end, first_listed, gainmap_at, image_end, image_end_from, image_starts_at,
    is_app2_with, is_jpeg, is_standalone, listed_range, next_image_from, scan_at, segments,
    segments_from, stripped, stripped_from, Scan, Segment,
};
use crate::kept_metadata::{
    law_own_gainmap_is_kept, lemma_all_splits, lemma_all_with_parts, lemma_carried_is_present,
    lemma_lacks_pieces, lemma_missing_are_run_parts,
};
use crate::laws::{
    base_patch_fits, lacks, law_assembled_gainmap_is_found, law_inserted_parts_are_read_back,
    lemma_carried, lemma_declared_range, lemma_kept_segment, lemma_lacks_add,
    lemma_stripped_file_run, patch_fits_from,
};
use crate::mpf::mpf_second;
use crate::run::{all_parts, lemma_all_parts_step, lemma_all_tail, lemma_run_end, run_parts, Part};
use crate::tags::{MPF_SIG, XMP_SIG};
use crate::ultrahdr::{
    assembled, carried_parts, carrying_base, missing, missing_of, original_gainmap, with_gainmap,
    with_parts,
};
use crate::xmp::{declared_length, lemma_decimal_len, with_declared_length};

verus! {

/// The longest XMP packet whose segment has room for ten more bytes.
pub const ROOMY_PACKET: usize = 65523;

/// An XMP packet whose segment might not have room for a longer number.
pub open spec fn is_crowded() -> spec_fn(u8, Seq<u8>) -> bool {
    |marker: u8, payload: Seq<u8>| begins_with(payload, XMP_SIG@) && payload.len() > ROOMY_PACKET
}

/// The XMP packets of the file have room for ten more bytes each.
pub open spec fn packets_have_room(raw: Seq<u8>) -> bool {
    forall|i: int|
        0 <= i < segments(raw).len() && begins_with(
            (#[trigger] segments(raw)[i]).payload,
            XMP_SIG@,
        ) ==> segments(raw)[i].payload.len() <= ROOMY_PACKET
}

proof fn lemma_no_crowded_parts(raw: Seq<u8>)
    requires
        is_jpeg(raw),
        packets_have_room(raw),
    ensures
        lacks(all_parts(raw, 2), is_crowded()),
{
    let (parts, segs) = (all_parts(raw, 2), segments_from(raw, 2));
    assert forall|i: int| 0 <= i < parts.len() implies !is_crowded()(
        (#[trigger] parts[i]).0,
        parts[i].1,
    ) by {
        assert(parts[i] == (segs[i].marker, segs[i].payload));
        assert(segments(raw)[i] == segs[i]);
    }
}

/// Stripping brings no segments of a new kind.
proof fn lemma_stripped_lacks(
    raw: Seq<u8>,
    off: int,
    drop: spec_fn(u8, Seq<u8>) -> bool,
    kind: spec_fn(u8, Seq<u8>) -> bool,
)
    requires
        0 <= off <= raw.len(),
        lacks(all_parts(raw, off), kind),
    ensures
        lacks(all_parts(stripped_from(raw, off, drop, false), 0), kind),
    decreases raw.len() - off,
{
    let t = stripped_from(raw, off, drop, false);
    if let Scan::Segment { marker, end } = scan_at(raw, off) {
        let payload = raw.subrange(off + 4, end);
        let rest = stripped_from(raw, end, drop, false);
        let first = seq![(marker, payload)];
        lemma_all_parts_step(raw, off);
        lemma_lacks_pieces(first, all_parts(raw, end), kind);
        lemma_stripped_lacks(raw, end, drop, kind);
        if drop(marker, payload) {
            assert(t =~= rest);
        } else {
            lemma_kept_segment(raw, off, rest);
            lemma_all_parts_step(t, 0);
            lemma_all_tail(t, end - off, rest, 0);
            lemma_lacks_add(first, all_parts(rest, 0), kind);
        }
    } else {
        assert(t.subrange(0, t.len() as int) =~= raw.subrange(off, raw.len() as int));
        lemma_all_tail(raw, off, t, 0);
    }
}

/// What a file lacks of parts without a kind is without the kind.
proof fn lemma_missing_lacks(
    file: Seq<u8>,
    parts: Seq<Part>,
    kind: spec_fn(u8, Seq<u8>) -> bool,
    n: int,
)
    requires
        n <= parts.len(),
        lacks(parts, kind),
    ensures
        lacks(missing_of(file, parts, n), kind),
    decreases n,
{
    if n > 0 {
        lemma_missing_lacks(file, parts, kind, n - 1);
        let before = missing_of(file, parts, n - 1);
        let all = missing_of(file, parts, n);
        assert(!kind(parts[n - 1].0, parts[n - 1].1));
        assert forall|i: int| 0 <= i < all.len() implies !kind((#[trigger] all[i]).0, all[i].1) by {
            if i < before.len() {
                assert(all[i] == before[i]);
            }
        }
    }
}

/// A rewritten packet is at most ten bytes longer.
proof fn lemma_declared_len(xmp: Seq<u8>, n: nat)
    requires
        n < 0x1_0000_0000,
    ensures
        with_declared_length(xmp, n).len() <= xmp.len() + 10,
{
    if let Some((start, end)) = declared_length(xmp) {
        lemma_declared_range(xmp);
        lemma_decimal_len(n);
    }
}

/// A file whose XMP packets have room can be rewritten.
proof fn lemma_patch_fits(raw: Seq<u8>, off: int, n: nat)
    requires
        0 <= off <= raw.len(),
        n < 0x1_0000_0000,
        lacks(all_parts(raw, off), is_crowded()),
    ensures
        patch_fits_from(raw, off, n),
    decreases raw.len() - off,
{
    match scan_at(raw, off) {
        Scan::Stop => {},
        Scan::Standalone => {
            assert(all_parts(raw, off) == all_parts(raw, off + 2));
            lemma_patch_fits(raw, off + 2, n);
        },
        Scan::Segment { marker, end } => {
            let payload = raw.subrange(off + 4, end);
            let first: Seq<Part> = seq![(marker, payload)];
            lemma_all_parts_step(raw, off);
            lemma_lacks_pieces(first, all_parts(raw, end), is_crowded());
            if matches_at(raw, XMP_SIG@, off + 4) {
                if payload.len() >= 28 {
                    assert(payload.subrange(0, 28) =~= raw.subrange(off + 4, off + 32));
                    assert(!is_crowded()(first[0].0, first[0].1));
                }
                lemma_declared_len(payload, n);
            } else {
                lemma_patch_fits(raw, end, n);
            }
        },
    }
}

/// Where the XMP packets of the base and of the original have room for ten more bytes each, the
/// container directory of the assembled file can be rewritten for any gain map of a 32-bit length.
pub proof fn law_packets_with_room_fit(base: Seq<u8>, original: Seq<u8>, gm_len: nat)
    requires
        is_jpeg(base),
        packets_have_room(base),
        packets_have_room(original),
        gm_len < 0x1_0000_0000,
    ensures
        base_patch_fits(base, original, gm_len),
{
    let drop = is_app2_with(MPF_SIG@);
    let out = stripped(base, drop, false);
    let t = stripped_from(base, 2, drop, false);
    let carry = carried_parts(original, false);
    let ins = missing(out, carry);
    lemma_no_crowded_parts(base);
    lemma_stripped_file_run(base, drop, false, drop);
    lemma_stripped_lacks(base, 2, drop, is_crowded());
    assert(out.subrange(2, out.len() as int) =~= t.subrange(0, t.len() as int));
    lemma_all_tail(out, 2, t, 0);
    assert forall|i: int| 0 <= i < carry.len() implies !is_crowded()(
        (#[trigger] carry[i]).0,
        carry[i].1,
    ) by {
        lemma_carried_is_present(original, false, segments(original).len() as int, i);
        let j = choose|j: int|
            0 <= j < segments(original).len() && (#[trigger] segments(original)[j]).marker
                == carry[i].0 && segments(original)[j].payload == carry[i].1;
        assert(begins_with(segments(original)[j].payload, XMP_SIG@) ==> carry[i].1.len()
            <= ROOMY_PACKET);
    }
    lemma_missing_lacks(out, carry, is_crowded(), carry.len() as int);
    lemma_carried(segments(original), false, segments(original).len() as int);
    lemma_missing_are_run_parts(out, carry, carry.len() as int);
    lemma_all_with_parts(out, ins);
    lemma_all_splits(out, 2);
    let (run, tail) = (run_parts(out, 2), all_parts(out, app_run_end(out, 2)));
    lemma_lacks_pieces(run, tail, is_crowded());
    lemma_lacks_add(run, ins, is_crowded());
    lemma_lacks_add(run + ins, tail, is_crowded());
    lemma_run_end(out, 2);
    law_inserted_parts_are_read_back(out, ins);
    lemma_patch_fits(with_parts(out, ins), 2, gm_len);
}

/// Segments begin inside the file.
proof fn lemma_segment_starts(raw: Seq<u8>, off: int, i: int)
    requires
        0 <= off,
        0 <= i < segments_from(raw, off).len(),
    ensures
        0 <= segments_from(raw, off)[i].start,
    decreases raw.len() - off,
{
    match scan_at(raw, off) {
        Scan::Stop => {},
        Scan::Standalone => {
            lemma_segment_starts(raw, off + 2, i);
        },
        Scan::Segment { marker: _, end } => {
            if i > 0 {
                assert(segments_from(raw, off)[i] == segments_from(raw, end)[i - 1]);
                lemma_segment_starts(raw, end, i - 1);
            }
        },
    }
}

/// A range in the file at which an image begins.
spec fn is_image_range(raw: Seq<u8>, range: (int, int)) -> bool {
    &&& 0 <= range.0
    &&& 0 <= range.1
    &&& range.0 + range.1 <= raw.len()
    &&& range.0 + 2 <= raw.len()
    &&& raw[range.0] == 0xFF
    &&& raw[range.0 + 1] == 0xD8
}

proof fn lemma_first_listed_range(raw: Seq<u8>, i: int)
    requires
        0 <= i,
        first_listed(raw, segments(raw), i) is Some,
    ensures
        is_image_range(raw, first_listed(raw, segments(raw), i)->Some_0),
    decreases segments(raw).len() - i,
{
    let s = segments(raw)[i];
    if listed_range(raw, s) is Some {
        lemma_segment_starts(raw, 2, i);
        reveal(mpf_second);
    } else {
        lemma_first_listed_range(raw, i + 1);
    }
}

/// An image ends inside the file, behind its beginning.
proof fn lemma_image_end(raw: Seq<u8>, off: int)
    requires
        0 <= off,
    ensures
        image_end_from(raw, off) matches Some(end) ==> off <= end <= raw.len(),
    decreases raw.len() - off,
{
    if off + 1 >= raw.len() {
    } else if raw[off] != 0xFF {
        lemma_image_end(raw, off + 1);
    } else if raw[off + 1] == 0x00 || is_standalone(raw[off + 1]) {
        lemma_image_end(raw, off + 2);
    } else if raw[off + 1] != 0xD9 && off + 4 <= raw.len() {
        let next = off + 2 + u16_be(raw, off + 2);
        if off + 4 <= next <= raw.len() {
            lemma_image_end(raw, next);
        }
    }
}

proof fn lemma_next_image_range(raw: Seq<u8>, p: int)
    requires
        0 <= p,
        next_image_from(raw, p) is Some,
    ensures
        is_image_range(raw, next_image_from(raw, p)->Some_0),
    decreases raw.len() - p,
{
    if image_starts_at(raw, p) {
        lemma_image_end(raw, p + 2);
    } else {
        lemma_next_image_range(raw, p + 1);
    }
}

/// A gain map that is found lies in the file and begins as a JPEG image does.
pub proof fn law_found_gainmap_is_an_image(raw: Seq<u8>)
    requires
        gainmap_at(raw) is Some,
    ensures
        gainmap_at(raw) matches Some((abs, size)) && 0 <= abs && 0 <= size && abs + size
            <= raw.len(),
        original_gainmap(raw).len() >= 4 ==> is_jpeg(original_gainmap(raw)),
{
    if first_listed(raw, segments(raw), 0) is Some {
        lemma_first_listed_range(raw, 0);
    } else {
        lemma_image_end(raw, 2);
        lemma_next_image_range(raw, image_end(raw, 0)->Some_0);
    }
    let (abs, size) = gainmap_at(raw)->Some_0;
    let gm = original_gainmap(raw);
    if gm.len() >= 4 {
        assert(gm[0] == raw[abs] && gm[1] == raw[abs + 1]);
    }
}

/// The gain map of a photo, attached to a new base, comes back out of the assembled file byte for
/// byte, where the XMP packets of both have room for ten more bytes each, and as long as the
/// directory's 32-bit fields can hold its numbers.
pub proof fn law_own_gainmap_comes_back(original: Seq<u8>, base: Seq<u8>)
    requires
        is_jpeg(base),
        gainmap_at(original) is Some,
        original_gainmap(original).len() >= 4,
        packets_have_room(base),
        packets_have_room(original),
        assembled(original, base, original_gainmap(original))->Ok_0.len() < 0x1_0000_0000,
    ensures
        assembled(original, base, original_gainmap(original)) matches Ok(file) && gainmap_at(
            file,
        ) is Some && original_gainmap(file) == original_gainmap(original),
{
    let gm = original_gainmap(original);
    law_found_gainmap_is_an_image(original);
    law_own_gainmap_is_kept(original);
    assert(assembled(original, base, gm) == Ok::<Seq<u8>, Seq<char>>(
        with_gainmap(carrying_base(base, original, gm.len()), gm),
    ));
    assert(gm.len() < 0x1_0000_0000);
    law_packets_with_room_fit(base, original, gm.len());
    law_assembled_gainmap_is_found(original, base, gm);
}

} // verus!
