//! Which bytes an assembled Ultra HDR file is made of, stated of the segments of the original, the
//! base and the gain map.

use vstd::prelude::*;

use crate::assembly_laws::{
    is_app, is_directory_for, is_run, law_gainmap_goes_behind_the_base,
    law_new_segments_go_behind_the_run, lemma_are_parts_add, lemma_left_over, lemma_left_over_are,
    lemma_longer_run, lemma_nothing_dropped, lemma_still_run, none_of,
};
use crate::bytes::{be16_bytes, begins_with, matches_at};
use crate::heic_laws::{holds_at, lemma_holds_piece};
use crate::jpeg::{gainmap_at, has_part, scan_at, segments, Scan};
use crate::laws::lemma_carried;
use crate::run::Part;
use crate::segment_laws::{
    are_parts, is_image_rest, is_part, jpeg_file, law_segments_read_back,
    law_stripping_drops_app2_with_prefix, left_over, lemma_part_at, lemma_rest_stops, opens_with,
    part_bytes, parts_bytes,
};
use crate::tags::{ICC_SIG, MPF_SIG, XMP_SIG};
use crate::ultrahdr::{
    assembled, attached_gainmap, carried_parts, carrying_base, first_icc, has_icc, missing,
    missing_of, original_gainmap, with_parts, without_other_icc,
};
use crate::xmp::{with_declared_length, with_patched_packet, with_patched_xmp_from};

verus! {

/// The segment holds an XMP packet.
pub open spec fn is_packet(p: Part) -> bool {
    opens_with(p, XMP_SIG@)
}

/// Segment `k` of the list, with the gain map length in its packet rewritten.
pub open spec fn rewritten(list: Seq<Part>, k: int, n: nat) -> Seq<Part> {
    list.update(k, (list[k].0, with_declared_length(list[k].1, n)))
}

/// Where no packet reaches beyond its segment: a signature that stands at the start of a payload
/// lies in it.
proof fn lemma_packet_at(raw: Seq<u8>, off: int, p: Part)
    requires
        is_part(p),
        holds_at(raw, off, part_bytes(p)),
        p.1.len() >= XMP_SIG@.len(),
    ensures
        matches_at(raw, XMP_SIG@, off + 4) == is_packet(p),
{
    lemma_part_at(raw, off, p);
    let n = p.1.len() as int;
    let m = XMP_SIG@.len() as int;
    let body = raw.subrange(off + 4, off + 4 + n);
    assert(body.subrange(0, m) =~= raw.subrange(off + 4, off + 4 + m));
}

/// Payloads of XMP packets are at least as long as the signature, and no other payload is so short
/// that a signature could begin in it and end behind it.
pub open spec fn are_roomy(list: Seq<Part>, k: int) -> bool {
    forall|i: int| 0 <= i <= k && i < list.len() ==> (#[trigger] list[i]).1.len() >= XMP_SIG@.len()
        || list[i].1.len() == 0 || list[i].1[0] != XMP_SIG@[0]
}

proof fn lemma_no_packet_at(raw: Seq<u8>, off: int, p: Part, next: Seq<u8>)
    requires
        is_part(p),
        holds_at(raw, off, part_bytes(p)),
        raw.subrange(off, raw.len() as int) == part_bytes(p) + next,
        !is_packet(p),
        next.len() == 0 || next[0] == 0xFF,
        p.1.len() >= XMP_SIG@.len() || p.1.len() == 0 || p.1[0] != XMP_SIG@[0],
    ensures
        !matches_at(raw, XMP_SIG@, off + 4),
{
    let n = p.1.len() as int;
    let tail = raw.subrange(off, raw.len() as int);
    if p.1.len() >= XMP_SIG@.len() {
        lemma_packet_at(raw, off, p);
    } else if matches_at(raw, XMP_SIG@, off + 4) {
        assert(raw.subrange(off + 4, off + 4 + XMP_SIG@.len())[0] == raw[off + 4]);
        assert(tail[4] == raw[off + 4]);
        assert(XMP_SIG@[0] == 0x68);
        if n == 0 {
            assert(tail[4] == next[0]);
        } else {
            assert(tail[4] == p.1[0]);
        }
    }
}

proof fn lemma_parts_begin(list: Seq<Part>, rest: Seq<u8>)
    requires
        rest.len() == 0 || rest[0] == 0xFF,
    ensures
        ({
            let b = parts_bytes(list) + rest;
            b.len() == 0 || b[0] == 0xFF
        }),
{
    if list.len() > 0 {
        assert((parts_bytes(list) + rest)[0] == part_bytes(list[0])[0]);
    } else {
        assert(parts_bytes(list) + rest =~= rest);
    }
}

proof fn lemma_packet_rewritten(raw: Seq<u8>, off: int, p: Part, behind: Seq<u8>, n: nat)
    requires
        0 <= off <= raw.len(),
        is_part(p),
        raw.subrange(off, raw.len() as int) == part_bytes(p) + behind,
        with_declared_length(p.1, n).len() + 2 <= 0xFFFF,
    ensures
        with_patched_packet(raw, off, off + 4 + p.1.len(), n) == raw.subrange(0, off) + (
        part_bytes((p.0, with_declared_length(p.1, n))) + behind),
{
    let tail = raw.subrange(off, raw.len() as int);
    let next = off + 4 + p.1.len();
    let q: Part = (p.0, with_declared_length(p.1, n));
    assert(raw =~= raw.subrange(0, off) + tail);
    assert(raw.subrange(off + 4, next) =~= p.1);
    assert(raw.subrange(next, raw.len() as int) =~= behind);
    assert(tail[0] == raw[off] && tail[1] == raw[off + 1]);
    assert(raw.subrange(0, off + 2) =~= raw.subrange(0, off) + seq![0xFFu8, p.0]);
    assert(be16_bytes(q.1.len() as int + 2) =~= part_bytes(q).subrange(2, 4));
    assert(with_patched_packet(raw, off, next, n) =~= raw.subrange(0, off) + (part_bytes(q)
        + behind));
}

proof fn lemma_one_replaced(head: Seq<u8>, list: Seq<Part>, rest: Seq<u8>, q: Part)
    requires
        list.len() > 0,
    ensures
        head + (part_bytes(q) + (parts_bytes(list.skip(1)) + rest)) == head + parts_bytes(
            list.update(0, q),
        ) + rest,
{
    let all = list.update(0, q);
    assert(all.skip(1) =~= list.skip(1));
    assert(all[0] == q);
    assert(head + (part_bytes(q) + (parts_bytes(list.skip(1)) + rest)) =~= head + (part_bytes(q)
        + parts_bytes(list.skip(1))) + rest);
}

proof fn lemma_others(list: Seq<Part>, k: int)
    requires
        0 < k <= list.len(),
        are_parts(list),
        are_roomy(list, k),
        forall|i: int| 0 <= i < k ==> !is_packet(#[trigger] list[i]),
    ensures
        are_parts(list.skip(1)),
        are_roomy(list.skip(1), k - 1),
        forall|i: int| 0 <= i < k - 1 ==> !is_packet(#[trigger] list.skip(1)[i]),
{
    let others = list.skip(1);
    assert forall|i: int| 0 <= i < others.len() implies is_part(#[trigger] others[i]) by {
        assert(others[i] == list[i + 1]);
    }
    assert forall|i: int| 0 <= i <= k - 1 && i < others.len() implies (
    #[trigger] others[i]).1.len() >= XMP_SIG@.len() || others[i].1.len() == 0 || others[i].1[0]
        != XMP_SIG@[0] by {
        assert(others[i] == list[i + 1]);
    }
    assert forall|i: int| 0 <= i < k - 1 implies !is_packet(#[trigger] others[i]) by {
        assert(others[i] == list[i + 1]);
    }
}

/// The list with segment `k` rewritten, where there is one.
pub open spec fn rewritten_list(list: Seq<Part>, k: int, n: nat) -> Seq<Part> {
    if k < list.len() {
        rewritten(list, k, n)
    } else {
        list
    }
}

proof fn lemma_one_before(
    raw: Seq<u8>,
    off: int,
    list: Seq<Part>,
    rest: Seq<u8>,
    k: int,
    n: nat,
)
    requires
        0 < k <= list.len(),
        holds_at(raw, off, part_bytes(list[0])),
    ensures
        raw.subrange(0, off + 4 + list[0].1.len()) + parts_bytes(
            rewritten_list(list.skip(1), k - 1, n),
        ) + rest == raw.subrange(0, off) + parts_bytes(rewritten_list(list, k, n)) + rest,
{
    let p = list[0];
    let next = off + 4 + p.1.len();
    let inner = rewritten_list(list.skip(1), k - 1, n);
    let all = rewritten_list(list, k, n);
    assert(all[0] == p);
    assert(all.skip(1) =~= inner);
    assert(raw.subrange(off, next) == part_bytes(p));
    assert(raw.subrange(0, next) =~= raw.subrange(0, off) + part_bytes(p));
    assert(raw.subrange(0, off) + part_bytes(p) + parts_bytes(inner) =~= raw.subrange(0, off) + (
    part_bytes(p) + parts_bytes(inner)));
}

proof fn lemma_first_part(raw: Seq<u8>, off: int, list: Seq<Part>, rest: Seq<u8>)
    requires
        0 <= off <= raw.len(),
        list.len() > 0,
        is_part(list[0]),
        raw.subrange(off, raw.len() as int) == parts_bytes(list) + rest,
    ensures
        ({
            let p = list[0];
            let behind = parts_bytes(list.skip(1)) + rest;
            let next = off + 4 + p.1.len();
            &&& raw.subrange(off, raw.len() as int) == part_bytes(p) + behind
            &&& holds_at(raw, off, part_bytes(p))
            &&& scan_at(raw, off) == (Scan::Segment { marker: p.0, end: next })
            &&& next <= raw.len()
            &&& raw.subrange(next, raw.len() as int) == behind
        }),
{
    let p = list[0];
    let behind = parts_bytes(list.skip(1)) + rest;
    assert(parts_bytes(list) + rest =~= part_bytes(p) + behind);
    assert(holds_at(raw, off, part_bytes(p) + behind));
    lemma_holds_piece(raw, off, part_bytes(p), behind);
    lemma_part_at(raw, off, p);
}

proof fn lemma_rewritten_at(
    raw: Seq<u8>,
    off: int,
    list: Seq<Part>,
    rest: Seq<u8>,
    k: int,
    n: nat,
)
    requires
        0 <= off <= raw.len(),
        are_parts(list),
        is_image_rest(rest),
        rest.len() == 0 || rest[0] == 0xFF,
        raw.subrange(off, raw.len() as int) == parts_bytes(list) + rest,
        are_roomy(list, k),
        0 <= k <= list.len(),
        forall|i: int| 0 <= i < k ==> !is_packet(#[trigger] list[i]),
        k < list.len() ==> is_packet(list[k]) && with_declared_length(list[k].1, n).len() + 2
            <= 0xFFFF,
    ensures
        with_patched_xmp_from(raw, off, n) == raw.subrange(0, off) + parts_bytes(
            rewritten_list(list, k, n),
        ) + rest,
    decreases list.len(),
{
    if list.len() == 0 {
        assert(parts_bytes(list) + rest =~= rest);
        lemma_rest_stops(raw, off, rest);
        assert(raw.subrange(0, off) + parts_bytes(list) + rest =~= raw);
    } else {
        let (p, others) = (list[0], list.skip(1));
        let behind = parts_bytes(others) + rest;
        let next = off + 4 + p.1.len();
        assert(is_part(p));
        lemma_first_part(raw, off, list, rest);
        if k == 0 {
            lemma_packet_at(raw, off, p);
            let q: Part = (p.0, with_declared_length(p.1, n));
            lemma_packet_rewritten(raw, off, p, behind, n);
            lemma_one_replaced(raw.subrange(0, off), list, rest, q);
        } else {
            assert(!is_packet(p));
            lemma_parts_begin(others, rest);
            lemma_no_packet_at(raw, off, p, behind);
            lemma_others(list, k);
            lemma_rewritten_at(raw, next, others, rest, k - 1, n);
            lemma_one_before(raw, off, list, rest, k, n);
        }
    }
}

/// Rewriting the gain map length in a JPEG file rewrites the first XMP packet, and nothing else:
/// the other segments and the image stay as they are. Without a packet the file stays as it is.
pub proof fn law_first_packet_is_rewritten(list: Seq<Part>, rest: Seq<u8>, k: int, n: nat)
    requires
        are_parts(list),
        is_image_rest(rest),
        rest.len() == 0 || rest[0] == 0xFF,
        are_roomy(list, k),
        0 <= k <= list.len(),
        forall|i: int| 0 <= i < k ==> !is_packet(#[trigger] list[i]),
        k < list.len() ==> is_packet(list[k]) && with_declared_length(list[k].1, n).len() + 2
            <= 0xFFFF,
    ensures
        with_patched_xmp_from(jpeg_file(list, rest), 2, n) == jpeg_file(
            rewritten_list(list, k, n),
            rest,
        ),
{
    let raw = jpeg_file(list, rest);
    assert(raw.subrange(2, raw.len() as int) =~= parts_bytes(list) + rest);
    assert(raw.subrange(0, 2) =~= seq![0xFFu8, 0xD8]);
    lemma_rewritten_at(raw, 2, list, rest, k, n);
}

proof fn lemma_has_part_of(list: Seq<Part>, rest: Seq<u8>, p: Part)
    requires
        are_parts(list),
        is_image_rest(rest),
        jpeg_file(list, rest).len() >= 4,
    ensures
        has_part(jpeg_file(list, rest), p.0, p.1) == list.contains(p),
{
    let file = jpeg_file(list, rest);
    law_segments_read_back(list, rest);
    if has_part(file, p.0, p.1) {
        let i = choose|i: int|
            0 <= i < segments(file).len() && (#[trigger] segments(file)[i]).marker == p.0
                && segments(file)[i].payload == p.1;
        assert(list[i] == p);
    }
    if list.contains(p) {
        let i = choose|i: int| 0 <= i < list.len() && list[i] == p;
        assert(segments(file)[i].marker == p.0);
    }
}

proof fn lemma_missing_of(list: Seq<Part>, rest: Seq<u8>, parts: Seq<Part>, n: int)
    requires
        are_parts(list),
        is_image_rest(rest),
        jpeg_file(list, rest).len() >= 4,
        0 <= n <= parts.len(),
    ensures
        missing_of(jpeg_file(list, rest), parts, n) == left_over(
            parts.take(n),
            |p: Part| list.contains(p),
        ),
    decreases n,
{
    let drop = |p: Part| list.contains(p);
    if n == 0 {
        assert(left_over(parts.take(0), drop) =~= Seq::empty());
    } else {
        let last = parts[n - 1];
        let before = left_over(parts.take(n - 1), drop);
        lemma_missing_of(list, rest, parts, n - 1);
        lemma_has_part_of(list, rest, last);
        assert(parts.take(n) =~= parts.take(n - 1) + seq![last]);
        lemma_left_over(parts.take(n - 1), seq![last], drop);
        assert(seq![last].skip(1) =~= Seq::<Part>::empty());
        reveal_with_fuel(left_over, 2);
        if drop(last) {
            assert(before + Seq::<Part>::empty() =~= before);
        } else {
            assert(before + (seq![last] + Seq::<Part>::empty()) =~= before.push(last));
        }
    }
}

/// The parts that are not in the list.
pub open spec fn not_in(parts: Seq<Part>, list: Seq<Part>) -> Seq<Part> {
    left_over(parts, |p: Part| list.contains(p))
}

/// Of the segments that a file should take over, those are inserted that it does not have, behind
/// the application segments that it begins with.
pub proof fn law_only_missing_segments_are_inserted(
    run: Seq<Part>,
    others: Seq<Part>,
    rest: Seq<u8>,
    parts: Seq<Part>,
)
    requires
        is_run(run, others),
        is_image_rest(rest),
        jpeg_file(run + others, rest).len() >= 4,
        are_parts(parts),
    ensures
        ({
            let file = jpeg_file(run + others, rest);
            with_parts(file, missing(file, parts)) == jpeg_file(
                run + not_in(parts, run + others) + others,
                rest,
            )
        }),
{
    let file = jpeg_file(run + others, rest);
    let ins = not_in(parts, run + others);
    lemma_are_parts_add(run, others);
    lemma_missing_of(run + others, rest, parts, parts.len() as int);
    assert(parts.take(parts.len() as int) =~= parts);
    assert(missing(file, parts) == ins);
    lemma_picked_are_parts(parts, run + others);
    law_new_segments_go_behind_the_run(run, others, rest, ins);
}

proof fn lemma_picked_are_parts(parts: Seq<Part>, list: Seq<Part>)
    requires
        are_parts(parts),
    ensures
        are_parts(not_in(parts, list)),
        (forall|i: int| 0 <= i < parts.len() ==> is_app(#[trigger] parts[i])) ==> forall|i: int|
            0 <= i < not_in(parts, list).len() ==> is_app(#[trigger] not_in(parts, list)[i]),
{
    let drop = |p: Part| list.contains(p);
    let picked = not_in(parts, list);
    assert forall|i: int| 0 <= i < picked.len() implies is_part(#[trigger] picked[i]) && ((forall|
        j: int,
    | 0 <= j < parts.len() ==> is_app(#[trigger] parts[j])) ==> is_app(picked[i])) by {
        lemma_left_over_are(parts, drop, i);
        let j = choose|j: int| 0 <= j < parts.len() && parts[j] == picked[i];
        assert(is_part(parts[j]));
    }
}

proof fn lemma_carried_are_parts(raw: Seq<u8>, icc: bool)
    ensures
        are_parts(carried_parts(raw, icc)),
        forall|i: int|
            0 <= i < carried_parts(raw, icc).len() ==> is_app(
                #[trigger] carried_parts(raw, icc)[i],
            ),
{
    let parts = carried_parts(raw, icc);
    lemma_carried(segments(raw), icc, segments(raw).len() as int);
    assert forall|i: int| 0 <= i < parts.len() implies is_part(#[trigger] parts[i]) && is_app(
        parts[i],
    ) by {}
}

/// A multi-picture directory.
pub open spec fn is_directory(p: Part) -> bool {
    p.0 == 0xE2 && opens_with(p, MPF_SIG@)
}

/// The application segments of an assembled base before its gain map length is rewritten: its own
/// without multi-picture directories, and those of the original that are not among its segments.
pub open spec fn base_head(run: Seq<Part>, others: Seq<Part>, original: Seq<u8>) -> Seq<Part> {
    let own = left_over(run, |p: Part| is_directory(p));
    own + not_in(carried_parts(original, false), own + others)
}

/// Segment `k` is the first packet of the file; there is none where `k` counts all of `head`.
pub open spec fn is_first_packet(head: Seq<Part>, others: Seq<Part>, k: int, n: nat) -> bool {
    &&& 0 <= k <= head.len()
    &&& are_roomy(head + others, k)
    &&& forall|i: int| 0 <= i < k ==> !is_packet(#[trigger] head[i])
    &&& k < head.len() ==> is_packet(head[k]) && with_declared_length(head[k].1, n).len() + 2
        <= 0xFFFF
    &&& k == head.len() ==> none_of(others, |p: Part| is_packet(p)) && are_roomy(
        head + others,
        head.len() + others.len() as int,
    )
}

/// An assembled base is the base without multi-picture directories, with the gain map metadata of
/// the original that it does not have, and with the gain map length in its first packet rewritten.
/// The other segments and the image data stay as they are.
pub proof fn law_assembled_base_is_made_of(
    run: Seq<Part>,
    others: Seq<Part>,
    rest: Seq<u8>,
    original: Seq<u8>,
    k: int,
    n: nat,
)
    requires
        is_run(run, others),
        is_image_rest(rest),
        rest.len() >= 2,
        rest[0] == 0xFF,
        none_of(others, |p: Part| is_directory(p)),
        is_first_packet(base_head(run, others, original), others, k, n),
    ensures
        carrying_base(jpeg_file(run + others, rest), original, n) == jpeg_file(
            rewritten_list(base_head(run, others, original), k, n) + others,
            rest,
        ),
{
    let drop = |p: Part| is_directory(p);
    let own = left_over(run, drop);
    let parts = carried_parts(original, false);
    let head = base_head(run, others, original);
    lemma_are_parts_add(run, others);
    law_stripping_drops_app2_with_prefix(run + others, rest, MPF_SIG@);
    assert(drop =~= |p: Part| p.0 == 0xE2 && opens_with(p, MPF_SIG@));
    lemma_left_over(run, others, drop);
    lemma_nothing_dropped(others, drop);
    lemma_still_run(run, others, drop);
    lemma_carried_are_parts(original, false);
    law_only_missing_segments_are_inserted(own, others, rest, parts);
    lemma_picked_are_parts(parts, own + others);
    lemma_are_parts_add(own, not_in(parts, own + others));
    lemma_are_parts_add(head, others);
    let all = head + others;
    if k < head.len() {
        assert forall|i: int| 0 <= i < k implies !is_packet(#[trigger] all[i]) by {
            assert(all[i] == head[i]);
        }
        assert(all[k] == head[k]);
        law_first_packet_is_rewritten(all, rest, k, n);
        assert(rewritten(all, k, n) =~= rewritten(head, k, n) + others);
    } else {
        let packet = |p: Part| is_packet(p);
        assert forall|i: int| 0 <= i < all.len() implies !is_packet(#[trigger] all[i]) by {
            if i < head.len() {
                assert(all[i] == head[i]);
            } else {
                assert(!packet(others[i - head.len()]));
            }
        }
        law_first_packet_is_rewritten(all, rest, all.len() as int, n);
    }
}

/// A colour profile.
pub open spec fn is_profile(p: Part) -> bool {
    p.0 == 0xE2 && opens_with(p, ICC_SIG@)
}

/// Part `f` is the first colour profile among the parts.
pub open spec fn is_first_profile(parts: Seq<Part>, f: int) -> bool {
    &&& 0 <= f < parts.len()
    &&& is_profile(parts[f])
    &&& forall|j: int| 0 <= j < f ==> !is_profile(#[trigger] parts[j])
}

/// The list has colour profiles, but not the first one of `parts`.
pub open spec fn has_other_profiles(list: Seq<Part>, parts: Seq<Part>) -> bool {
    &&& !none_of(list, |p: Part| is_profile(p))
    &&& exists|f: int| #[trigger] is_first_profile(parts, f) && !list.contains(parts[f])
}

proof fn lemma_first_profile(parts: Seq<Part>, f: int, i: int)
    requires
        0 <= i <= f,
        is_first_profile(parts, f),
    ensures
        first_icc(parts, i) == Some(parts[f].1),
    decreases f - i,
{
    assert(begins_with(parts[i].1, ICC_SIG@) == opens_with(parts[i], ICC_SIG@));
    if i < f {
        assert(!is_profile(parts[i]));
        lemma_first_profile(parts, f, i + 1);
    }
}

proof fn lemma_some_profile(parts: Seq<Part>, i: int)
    requires
        0 <= i,
        forall|j: int| 0 <= j < i && j < parts.len() ==> !is_profile(#[trigger] parts[j]),
        first_icc(parts, i) is Some,
    ensures
        exists|f: int| #[trigger] is_first_profile(parts, f),
    decreases parts.len() - i,
{
    assert(begins_with(parts[i].1, ICC_SIG@) == opens_with(parts[i], ICC_SIG@));
    if is_profile(parts[i]) {
        assert(is_first_profile(parts, i));
    } else {
        lemma_some_profile(parts, i + 1);
    }
}

proof fn lemma_has_icc(list: Seq<Part>, rest: Seq<u8>)
    requires
        are_parts(list),
        is_image_rest(rest),
        jpeg_file(list, rest).len() >= 4,
    ensures
        has_icc(jpeg_file(list, rest)) == !none_of(list, |p: Part| is_profile(p)),
{
    let file = jpeg_file(list, rest);
    let kind = |p: Part| is_profile(p);
    law_segments_read_back(list, rest);
    if has_icc(file) {
        let i = choose|i: int|
            0 <= i < segments(file).len() && (#[trigger] segments(file)[i]).marker == 0xE2
                && begins_with(segments(file)[i].payload, ICC_SIG@);
        assert(begins_with(list[i].1, ICC_SIG@) == opens_with(list[i], ICC_SIG@));
        assert(kind(list[i]));
    }
    if !none_of(list, kind) {
        let i = choose|i: int| 0 <= i < list.len() && kind(#[trigger] list[i]);
        assert(begins_with(list[i].1, ICC_SIG@) == opens_with(list[i], ICC_SIG@));
        assert(segments(file)[i].marker == 0xE2);
    }
}

/// The application segments of an assembled gain map: its own, without colour profiles where they
/// are other ones than the original's, and those of the original's gain map that it does not have.
pub open spec fn gainmap_head(run: Seq<Part>, others: Seq<Part>, parts: Seq<Part>) -> Seq<Part> {
    let own = if has_other_profiles(run + others, parts) {
        left_over(run, |p: Part| is_profile(p))
    } else {
        run
    };
    own + not_in(parts, own + others)
}

proof fn lemma_profiles(run: Seq<Part>, others: Seq<Part>, rest: Seq<u8>, parts: Seq<Part>)
    requires
        is_run(run, others),
        is_image_rest(rest),
        rest.len() >= 2,
        none_of(others, |p: Part| is_profile(p)),
    ensures
        without_other_icc(jpeg_file(run + others, rest), parts) == jpeg_file(
            (if has_other_profiles(run + others, parts) {
                left_over(run, |p: Part| is_profile(p))
            } else {
                run
            }) + others,
            rest,
        ),
{
    let list = run + others;
    let drop = |p: Part| is_profile(p);
    lemma_are_parts_add(run, others);
    lemma_has_icc(list, rest);
    if exists|f: int| #[trigger] is_first_profile(parts, f) {
        let f = choose|f: int| #[trigger] is_first_profile(parts, f);
        lemma_first_profile(parts, f, 0);
        lemma_has_part_of(list, rest, (0xE2u8, parts[f].1));
        assert(parts[f] == (0xE2u8, parts[f].1));
        if has_other_profiles(list, parts) {
            let g = choose|g: int| #[trigger] is_first_profile(parts, g) && !list.contains(parts[g]);
            lemma_first_profile(parts, g, 0);
            assert(parts[g] == (0xE2u8, parts[g].1));
            law_stripping_drops_app2_with_prefix(list, rest, ICC_SIG@);
            assert(drop =~= |p: Part| p.0 == 0xE2 && opens_with(p, ICC_SIG@));
            lemma_left_over(run, others, drop);
            lemma_nothing_dropped(others, drop);
        }
    } else if first_icc(parts, 0) is Some {
        lemma_some_profile(parts, 0);
    }
}

/// An assembled gain map is the new gain map with the metadata of the original's gain map that it
/// does not have; a colour profile of the original replaces other ones. The other segments and the
/// image data stay as they are.
pub proof fn law_assembled_gainmap_is_made_of(
    run: Seq<Part>,
    others: Seq<Part>,
    rest: Seq<u8>,
    parts: Seq<Part>,
)
    requires
        is_run(run, others),
        is_image_rest(rest),
        rest.len() >= 2,
        none_of(others, |p: Part| is_profile(p)),
        are_parts(parts),
    ensures
        attached_gainmap(jpeg_file(run + others, rest), parts) == jpeg_file(
            gainmap_head(run, others, parts) + others,
            rest,
        ),
{
    lemma_profiles(run, others, rest, parts);
    let drop = |p: Part| is_profile(p);
    if has_other_profiles(run + others, parts) {
        let own = left_over(run, drop);
        lemma_still_run(run, others, drop);
        law_only_missing_segments_are_inserted(own, others, rest, parts);
    } else {
        law_only_missing_segments_are_inserted(run, others, rest, parts);
    }
}

/// An assembled file is the base and the gain map, both with the gain map metadata of the original,
/// one behind the other; the base lists the gain map in a multi-picture directory.
pub proof fn law_assembled_file_is_made_of(
    original: Seq<u8>,
    run: Seq<Part>,
    others: Seq<Part>,
    rest: Seq<u8>,
    gm_run: Seq<Part>,
    gm_others: Seq<Part>,
    gm_rest: Seq<u8>,
    k: int,
) -> (directory: Part)
    requires
        gainmap_at(original) is Some,
        is_run(run, others),
        is_image_rest(rest),
        rest.len() >= 2,
        rest[0] == 0xFF,
        none_of(others, |p: Part| is_directory(p)),
        is_run(gm_run, gm_others),
        is_image_rest(gm_rest),
        gm_rest.len() >= 2,
        none_of(gm_others, |p: Part| is_profile(p)),
        ({
            let parts = carried_parts(original_gainmap(original), true);
            let gm = jpeg_file(gainmap_head(gm_run, gm_others, parts) + gm_others, gm_rest);
            let head = base_head(run, others, original);
            &&& is_first_packet(head, others, k, gm.len())
            &&& jpeg_file(rewritten_list(head, k, gm.len()) + others, rest).len() + 90 + gm.len()
                < 0x1_0000_0000
        }),
    ensures
        ({
            let parts = carried_parts(original_gainmap(original), true);
            let gm = jpeg_file(gainmap_head(gm_run, gm_others, parts) + gm_others, gm_rest);
            let head = rewritten_list(base_head(run, others, original), k, gm.len());
            let base = jpeg_file(head + seq![directory] + others, rest);
            &&& assembled(
                original,
                jpeg_file(run + others, rest),
                jpeg_file(gm_run + gm_others, gm_rest),
            ) == Ok::<Seq<u8>, Seq<char>>(base + gm)
            &&& is_directory_for(
                directory,
                2 + parts_bytes(head).len() as int,
                base.len() as int,
                gm.len() as int,
            )
        }),
{
    let parts = carried_parts(original_gainmap(original), true);
    let gm = jpeg_file(gainmap_head(gm_run, gm_others, parts) + gm_others, gm_rest);
    let head = rewritten_list(base_head(run, others, original), k, gm.len());
    lemma_carried_are_parts(original_gainmap(original), true);
    law_assembled_gainmap_is_made_of(gm_run, gm_others, gm_rest, parts);
    law_assembled_base_is_made_of(run, others, rest, original, k, gm.len());
    lemma_base_run(run, others, original, k, gm.len());
    law_gainmap_goes_behind_the_base(head, others, rest, gm)
}

proof fn lemma_base_run(
    run: Seq<Part>,
    others: Seq<Part>,
    original: Seq<u8>,
    k: int,
    n: nat,
)
    requires
        is_run(run, others),
        is_first_packet(base_head(run, others, original), others, k, n),
    ensures
        is_run(rewritten_list(base_head(run, others, original), k, n), others),
{
    let drop = |p: Part| is_directory(p);
    let own = left_over(run, drop);
    let parts = carried_parts(original, false);
    let head = base_head(run, others, original);
    let all = rewritten_list(head, k, n);
    lemma_still_run(run, others, drop);
    lemma_carried_are_parts(original, false);
    lemma_picked_are_parts(parts, own + others);
    lemma_longer_run(own, not_in(parts, own + others), others);
    assert forall|i: int| 0 <= i < all.len() implies is_part(#[trigger] all[i]) && is_app(
        all[i],
    ) by {
        assert(is_part(head[i]) && is_app(head[i]));
        if i == k {
            assert(all[i] == (head[k].0, with_declared_length(head[k].1, n)));
        } else {
            assert(all[i] == head[i]);
        }
    }
}

} // verus!
