//! Which metadata stripped and assembled files have.

use vstd::prelude::*;

use crate::bytes::begins_with;
use crate::jpeg::{
    app_run_end, has_part, is_app2_with, is_app_or_comment, is_hdr_metadata, is_jpeg, scan_at,
    segments, segments_from, stripped, stripped_from, written_segments, Scan, Segment,
};
use crate::laws::{
    lacks, law_inserted_parts_are_read_back, lemma_carried, lemma_kept_segment,
    lemma_stripped_file_run, lemma_written_len,
};
use crate::run::{
    all_parts, are_run_parts, is_run_part, lemma_all_parts_step, lemma_all_tail, lemma_run_end,
    lemma_same_tail, lemma_scan_tail, run_parts, same_tail, Part,
};
use crate::tags::ICC_SIG;
use crate::ultrahdr::{
    assembled_gainmap, carried, carried_parts, first_icc, has_icc, missing, missing_of,
    original_gainmap, with_parts, without_other_icc,
};

verus! {

/// The segments from a position on are those of the run and those behind it.
pub(crate) proof fn lemma_all_splits(raw: Seq<u8>, off: int)
    requires
        0 <= off <= raw.len(),
    ensures
        all_parts(raw, off) == run_parts(raw, off) + all_parts(raw, app_run_end(raw, off)),
    decreases raw.len() - off,
{
    let none = Seq::<Part>::empty();
    match scan_at(raw, off) {
        Scan::Segment { marker, end } => if is_app_or_comment(marker) {
            lemma_all_splits(raw, end);
            lemma_all_parts_step(raw, off);
            assert(all_parts(raw, off) =~= run_parts(raw, off) + all_parts(
                raw,
                app_run_end(raw, off),
            ));
        } else {
            assert(none + all_parts(raw, off) =~= all_parts(raw, off));
        },
        _ => {
            assert(none + all_parts(raw, off) =~= all_parts(raw, off));
        },
    }
}

/// The segments of a file into which parts were inserted behind its run.
pub(crate) proof fn lemma_all_with_parts(file: Seq<u8>, parts: Seq<Part>)
    requires
        file.len() >= 2,
        are_run_parts(parts),
    ensures
        all_parts(with_parts(file, parts), 2) == run_parts(file, 2) + parts + all_parts(
            file,
            app_run_end(file, 2),
        ),
{
    let out = with_parts(file, parts);
    let at = app_run_end(file, 2);
    let w = written_segments(parts);
    law_inserted_parts_are_read_back(file, parts);
    lemma_run_end(file, 2);
    assert(out.subrange(at + w.len(), out.len() as int) =~= file.subrange(at, file.len() as int));
    lemma_all_tail(out, at + w.len(), file, at);
    lemma_all_splits(out, 2);
}

/// A file has a part where it is among its segments.
pub(crate) proof fn lemma_has_part(raw: Seq<u8>, p: Part)
    ensures
        has_part(raw, p.0, p.1) == (is_jpeg(raw) && all_parts(raw, 2).contains(p)),
{
    let segs = segments_from(raw, 2);
    let parts = all_parts(raw, 2);
    assert(parts.len() == segs.len());
    assert(forall|i: int|
        0 <= i < segs.len() ==> #[trigger] parts[i] == (segs[i].marker, segs[i].payload));
    if is_jpeg(raw) {
        if has_part(raw, p.0, p.1) {
            let i = choose|i: int|
                0 <= i < segments(raw).len() && (#[trigger] segments(raw)[i]).marker == p.0
                    && segments(raw)[i].payload == p.1;
            assert(parts[i] == p);
        }
        if parts.contains(p) {
            let i = choose|i: int| 0 <= i < parts.len() && parts[i] == p;
            assert(segments(raw)[i].marker == p.0 && segments(raw)[i].payload == p.1);
        }
    }
}

/// Each part that a file should take over is among its segments once the missing ones are inserted.
pub proof fn law_taken_over_parts_are_present(file: Seq<u8>, parts: Seq<Part>, i: int)
    requires
        file.len() >= 2,
        file[0] == 0xFF,
        file[1] == 0xD8,
        are_run_parts(parts),
        0 <= i < parts.len(),
    ensures
        has_part(with_parts(file, missing(file, parts)), parts[i].0, parts[i].1),
{
    let ins = missing(file, parts);
    let out = with_parts(file, ins);
    let at = app_run_end(file, 2);
    lemma_missing_are_run_parts(file, parts, parts.len() as int);
    law_inserted_parts_are_read_back(file, ins);
    lemma_all_with_parts(file, ins);
    lemma_all_splits(file, 2);
    let (run, tail) = (run_parts(file, 2), all_parts(file, at));
    if file.len() < 4 {
        lemma_missing_contains(file, parts, parts.len() as int, i);
        lemma_written_len(ins);
    }
    lemma_has_part(file, parts[i]);
    lemma_has_part(out, parts[i]);
    if has_part(file, parts[i].0, parts[i].1) {
        let j = choose|j: int| 0 <= j < (run + tail).len() && (run + tail)[j] == parts[i];
        if j < run.len() {
            assert((run + ins + tail)[j] == parts[i]);
        } else {
            assert((run + ins + tail)[j + ins.len()] == parts[i]);
        }
    } else {
        lemma_missing_contains(file, parts, parts.len() as int, i);
        let j = choose|j: int| 0 <= j < ins.len() && ins[j] == parts[i];
        assert((run + ins + tail)[run.len() + j] == parts[i]);
    }
}

/// What a file lacks of parts that can be written can be written.
pub(crate) proof fn lemma_missing_are_run_parts(file: Seq<u8>, parts: Seq<Part>, n: int)
    requires
        n <= parts.len(),
        are_run_parts(parts),
    ensures
        are_run_parts(missing_of(file, parts, n)),
    decreases n,
{
    if n > 0 {
        lemma_missing_are_run_parts(file, parts, n - 1);
        let before = missing_of(file, parts, n - 1);
        let all = missing_of(file, parts, n);
        assert(is_run_part(parts[n - 1]));
        assert forall|i: int| 0 <= i < all.len() implies is_run_part(#[trigger] all[i]) by {
            if i < before.len() {
                assert(all[i] == before[i]);
                assert(is_run_part(before[i]));
            }
        }
    }
}

/// A part that a file does not have is among those that it lacks.
pub(crate) proof fn lemma_missing_contains(file: Seq<u8>, parts: Seq<Part>, n: int, i: int)
    requires
        0 <= i < n <= parts.len(),
        !has_part(file, parts[i].0, parts[i].1),
    ensures
        missing_of(file, parts, n).contains(parts[i]),
    decreases n,
{
    let before = missing_of(file, parts, n - 1);
    let all = missing_of(file, parts, n);
    if i == n - 1 {
        assert(all.last() == parts[i]);
    } else {
        lemma_missing_contains(file, parts, n - 1, i);
        let j = choose|j: int| 0 <= j < before.len() && before[j] == parts[i];
        assert(all[j] == parts[i]);
    }
}

/// The parts of a kind, in order.
pub open spec fn of_kind(parts: Seq<Part>, kind: spec_fn(u8, Seq<u8>) -> bool) -> Seq<Part>
    decreases parts.len(),
{
    if parts.len() == 0 {
        Seq::empty()
    } else if kind(parts.last().0, parts.last().1) {
        of_kind(parts.drop_last(), kind).push(parts.last())
    } else {
        of_kind(parts.drop_last(), kind)
    }
}

proof fn lemma_of_kind_add(a: Seq<Part>, b: Seq<Part>, kind: spec_fn(u8, Seq<u8>) -> bool)
    ensures
        of_kind(a + b, kind) == of_kind(a, kind) + of_kind(b, kind),
    decreases b.len(),
{
    if b.len() == 0 {
        assert(a + b =~= a);
        assert(of_kind(a, kind) + Seq::<Part>::empty() =~= of_kind(a, kind));
    } else {
        assert((a + b).drop_last() =~= a + b.drop_last());
        assert((a + b).last() == b.last());
        lemma_of_kind_add(a, b.drop_last(), kind);
        assert(of_kind(a + b, kind) =~= of_kind(a, kind) + of_kind(b, kind));
    }
}

/// Parts without any of a kind.
proof fn lemma_none_of_kind(parts: Seq<Part>, kind: spec_fn(u8, Seq<u8>) -> bool)
    requires
        lacks(parts, kind),
    ensures
        of_kind(parts, kind) == Seq::<Part>::empty(),
    decreases parts.len(),
{
    if parts.len() > 0 {
        let rest = parts.drop_last();
        assert(parts.last() == parts[parts.len() - 1]);
        assert forall|i: int| 0 <= i < rest.len() implies !kind(
            (#[trigger] rest[i]).0,
            rest[i].1,
        ) by {
            assert(rest[i] == parts[i]);
        }
        lemma_none_of_kind(rest, kind);
    }
}

/// A list without a kind, of which a part is taken.
pub(crate) proof fn lemma_lacks_pieces(
    a: Seq<Part>,
    b: Seq<Part>,
    kind: spec_fn(u8, Seq<u8>) -> bool,
)
    requires
        lacks(a + b, kind),
    ensures
        lacks(a, kind),
        lacks(b, kind),
{
    assert forall|i: int| 0 <= i < a.len() implies !kind((#[trigger] a[i]).0, a[i].1) by {
        assert((a + b)[i] == a[i]);
    }
    assert forall|i: int| 0 <= i < b.len() implies !kind((#[trigger] b[i]).0, b[i].1) by {
        assert((a + b)[a.len() + i] == b[i]);
    }
}

/// A file without a kind of segment, into which parts were inserted, has those of the kind that are
/// among the parts.
pub(crate) proof fn lemma_kind_with_parts(
    file: Seq<u8>,
    parts: Seq<Part>,
    kind: spec_fn(u8, Seq<u8>) -> bool,
)
    requires
        file.len() >= 2,
        are_run_parts(parts),
        lacks(all_parts(file, 2), kind),
    ensures
        of_kind(all_parts(with_parts(file, parts), 2), kind) == of_kind(parts, kind),
{
    let (run, tail) = (run_parts(file, 2), all_parts(file, app_run_end(file, 2)));
    let none = Seq::<Part>::empty();
    lemma_run_end(file, 2);
    lemma_all_with_parts(file, parts);
    lemma_all_splits(file, 2);
    lemma_lacks_pieces(run, tail, kind);
    lemma_none_of_kind(run, kind);
    lemma_none_of_kind(tail, kind);
    lemma_of_kind_add(run + parts, tail, kind);
    lemma_of_kind_add(run, parts, kind);
    assert(none + of_kind(parts, kind) + none =~= of_kind(parts, kind));
}

/// Everything but a kind.
pub open spec fn other_than(drop: spec_fn(u8, Seq<u8>) -> bool) -> spec_fn(u8, Seq<u8>) -> bool {
    |marker: u8, payload: Seq<u8>| !drop(marker, payload)
}

/// Markers and payloads of the segments of a file.
pub open spec fn segment_parts(raw: Seq<u8>) -> Seq<Part> {
    segments(raw).map_values(|s: Segment| (s.marker, s.payload))
}

/// The parts of a kind, of a list with one more part in front.
proof fn lemma_of_kind_first(p: Part, rest: Seq<Part>, kind: spec_fn(u8, Seq<u8>) -> bool)
    ensures
        of_kind(seq![p] + rest, kind) == (if kind(p.0, p.1) {
            seq![p] + of_kind(rest, kind)
        } else {
            of_kind(rest, kind)
        }),
{
    let one = seq![p];
    assert(one.drop_last() =~= Seq::<Part>::empty());
    assert(one.last() == p);
    reveal_with_fuel(of_kind, 2);
    lemma_of_kind_add(one, rest, kind);
    assert(Seq::<Part>::empty().push(p) =~= one);
    assert(Seq::<Part>::empty() + of_kind(rest, kind) =~= of_kind(rest, kind));
}

/// What is picked by a kind is of that kind.
proof fn lemma_picked(parts: Seq<Part>, kind: spec_fn(u8, Seq<u8>) -> bool)
    ensures
        forall|i: int|
            0 <= i < of_kind(parts, kind).len() ==> kind(
                (#[trigger] of_kind(parts, kind)[i]).0,
                of_kind(parts, kind)[i].1,
            ),
    decreases parts.len(),
{
    if parts.len() > 0 {
        lemma_picked(parts.drop_last(), kind);
        let before = of_kind(parts.drop_last(), kind);
        let all = of_kind(parts, kind);
        assert forall|i: int| 0 <= i < all.len() implies kind((#[trigger] all[i]).0, all[i].1) by {
            if i < before.len() {
                assert(all[i] == before[i]);
            }
        }
    }
}

/// A standalone marker with other bytes behind it: the segments are those behind it.
pub(crate) proof fn lemma_behind_standalone(raw: Seq<u8>, off: int, rest: Seq<u8>)
    requires
        0 <= off,
        scan_at(raw, off) is Standalone,
    ensures
        ({
            let t = raw.subrange(off, off + 2) + rest;
            &&& all_parts(t, 0) == all_parts(rest, 0)
            &&& same_tail(t, 2, rest, 0)
            &&& t.len() >= 4 ==> scan_at(t, 0) is Standalone
            &&& t.len() < 4 ==> scan_at(t, 0) is Stop
        }),
{
    let t = raw.subrange(off, off + 2) + rest;
    assert(t[0] == raw[off] && t[1] == raw[off + 1]);
    assert(t.subrange(2, t.len() as int) =~= rest.subrange(0, rest.len() as int));
    lemma_all_tail(t, 2, rest, 0);
    if t.len() < 4 {
        assert(all_parts(t, 0) =~= Seq::<Part>::empty());
        assert(all_parts(rest, 0) =~= Seq::<Part>::empty());
    }
}

/// Stripping a kind of segment, behind standalone markers too, leaves the others in order.
proof fn lemma_stripped_parts(raw: Seq<u8>, off: int, drop: spec_fn(u8, Seq<u8>) -> bool)
    requires
        0 <= off <= raw.len(),
    ensures
        all_parts(stripped_from(raw, off, drop, true), 0) == of_kind(
            all_parts(raw, off),
            other_than(drop),
        ),
    decreases raw.len() - off,
{
    let t = stripped_from(raw, off, drop, true);
    match scan_at(raw, off) {
        Scan::Segment { marker, end } => {
            let payload = raw.subrange(off + 4, end);
            let rest = stripped_from(raw, end, drop, true);
            lemma_stripped_parts(raw, end, drop);
            lemma_all_parts_step(raw, off);
            lemma_of_kind_first((marker, payload), all_parts(raw, end), other_than(drop));
            if drop(marker, payload) {
                assert(t =~= rest);
            } else {
                lemma_kept_segment(raw, off, rest);
                lemma_all_parts_step(t, 0);
                lemma_all_tail(t, end - off, rest, 0);
            }
        },
        Scan::Standalone => {
            lemma_stripped_parts(raw, off + 2, drop);
            lemma_behind_standalone(raw, off, stripped_from(raw, off + 2, drop, true));
            assert(all_parts(raw, off) == all_parts(raw, off + 2));
        },
        Scan::Stop => {
            assert(t.subrange(0, t.len() as int) =~= raw.subrange(off, raw.len() as int));
            lemma_scan_tail(raw, off, t, 0);
            assert(all_parts(t, 0) =~= Seq::<Part>::empty());
            assert(all_parts(raw, off) =~= Seq::<Part>::empty());
        },
    }
}

/// The segments of a stripped file are those of the file but for the dropped ones.
proof fn lemma_stripped_file_parts(raw: Seq<u8>, drop: spec_fn(u8, Seq<u8>) -> bool)
    requires
        raw.len() >= 2,
    ensures
        all_parts(stripped(raw, drop, true), 2) == of_kind(all_parts(raw, 2), other_than(drop)),
{
    let s = stripped(raw, drop, true);
    let t = stripped_from(raw, 2, drop, true);
    lemma_stripped_parts(raw, 2, drop);
    assert(s.subrange(2, s.len() as int) =~= t.subrange(0, t.len() as int));
    lemma_all_tail(s, 2, t, 0);
}

/// A stripped file has none of the dropped segments left.
pub(crate) proof fn lemma_stripped_file(raw: Seq<u8>, drop: spec_fn(u8, Seq<u8>) -> bool)
    requires
        raw.len() >= 2,
    ensures
        lacks(all_parts(stripped(raw, drop, true), 2), drop),
{
    let parts = all_parts(stripped(raw, drop, true), 2);
    lemma_stripped_file_parts(raw, drop);
    lemma_picked(all_parts(raw, 2), other_than(drop));
    assert forall|i: int| 0 <= i < parts.len() implies !drop(
        (#[trigger] parts[i]).0,
        parts[i].1,
    ) by {
        assert(other_than(drop)(parts[i].0, parts[i].1));
    }
}

/// Stripping a kind of segment, behind standalone markers too, leaves the other segments of a file
/// as they are: the same ones, in the same order, with the same markers and payloads.
pub proof fn law_other_segments_stay(raw: Seq<u8>, drop: spec_fn(u8, Seq<u8>) -> bool)
    ensures
        segment_parts(stripped(raw, drop, true)) == of_kind(segment_parts(raw), other_than(drop)),
{
    let s = stripped(raw, drop, true);
    let none = Seq::<Part>::empty();
    assert(of_kind(none, other_than(drop)) == none);
    if raw.len() < 2 {
        assert(segment_parts(raw) =~= none);
    } else {
        lemma_stripped_file_run(raw, drop, true, drop);
        lemma_stripped_file_parts(raw, drop);
        if is_jpeg(raw) {
            assert(segment_parts(raw) == all_parts(raw, 2));
            if is_jpeg(s) {
                assert(segment_parts(s) == all_parts(s, 2));
            } else {
                assert(segment_parts(s) =~= none);
                assert(all_parts(s, 2) =~= none);
            }
        } else {
            assert(segment_parts(raw) =~= none);
            if is_jpeg(s) {
                assert(scan_at(raw, 2) is Stop);
                assert(s =~= raw);
            }
            assert(segment_parts(s) =~= none);
        }
    }
}

/// What is left from a position on depends on the tail alone.
proof fn lemma_stripped_tail(
    a: Seq<u8>,
    p: int,
    b: Seq<u8>,
    q: int,
    drop: spec_fn(u8, Seq<u8>) -> bool,
    through: bool,
)
    requires
        same_tail(a, p, b, q),
    ensures
        stripped_from(a, p, drop, through) == stripped_from(b, q, drop, through),
    decreases a.len() - p,
{
    lemma_scan_tail(a, p, b, q);
    lemma_same_tail(a, p, b, q, 0);
    match scan_at(a, p) {
        Scan::Segment { marker: _, end } => {
            lemma_stripped_tail(a, end, b, q + (end - p), drop, through);
            let whole = a.subrange(p, a.len() as int);
            assert(a.subrange(p, end) =~= whole.subrange(0, end - p));
            assert(b.subrange(q, q + (end - p)) =~= whole.subrange(0, end - p));
        },
        Scan::Standalone => if through {
            lemma_same_tail(a, p, b, q, 2);
            lemma_stripped_tail(a, p + 2, b, q + 2, drop, through);
            let whole = a.subrange(p, a.len() as int);
            assert(a.subrange(p, p + 2) =~= whole.subrange(0, 2));
            assert(b.subrange(q, q + 2) =~= whole.subrange(0, 2));
        },
        Scan::Stop => {},
    }
}

proof fn lemma_stripped_twice(
    raw: Seq<u8>,
    off: int,
    drop: spec_fn(u8, Seq<u8>) -> bool,
    through: bool,
)
    requires
        0 <= off <= raw.len(),
    ensures
        ({
            let t = stripped_from(raw, off, drop, through);
            stripped_from(t, 0, drop, through) == t
        }),
    decreases raw.len() - off,
{
    let t = stripped_from(raw, off, drop, through);
    match scan_at(raw, off) {
        Scan::Segment { marker, end } => {
            let payload = raw.subrange(off + 4, end);
            let rest = stripped_from(raw, end, drop, through);
            lemma_stripped_twice(raw, end, drop, through);
            if drop(marker, payload) {
                assert(t =~= rest);
            } else {
                lemma_kept_segment(raw, off, rest);
                lemma_stripped_tail(t, end - off, rest, 0, drop, through);
                assert(t.subrange(0, end - off) + rest =~= t);
            }
        },
        Scan::Standalone => if through {
            let rest = stripped_from(raw, off + 2, drop, through);
            lemma_stripped_twice(raw, off + 2, drop, through);
            lemma_behind_standalone(raw, off, rest);
            if t.len() < 4 {
                assert(t.subrange(0, t.len() as int) =~= t);
            } else {
                lemma_stripped_tail(t, 2, rest, 0, drop, through);
                assert(t.subrange(0, 2) + rest =~= t);
            }
        } else {
            assert(t.subrange(0, t.len() as int) =~= t);
            lemma_scan_tail(raw, off, t, 0);
        },
        Scan::Stop => {
            assert(t.subrange(0, t.len() as int) =~= t);
            lemma_scan_tail(raw, off, t, 0);
        },
    }
}

/// Stripping again changes nothing.
pub proof fn law_stripping_again_changes_nothing(
    raw: Seq<u8>,
    drop: spec_fn(u8, Seq<u8>) -> bool,
    through: bool,
)
    ensures
        stripped(stripped(raw, drop, through), drop, through) == stripped(raw, drop, through),
{
    let s = stripped(raw, drop, through);
    if raw.len() >= 2 {
        let t = stripped_from(raw, 2, drop, through);
        lemma_stripped_twice(raw, 2, drop, through);
        assert(s.subrange(2, s.len() as int) =~= t.subrange(0, t.len() as int));
        lemma_stripped_tail(s, 2, t, 0, drop, through);
        assert(s.subrange(0, 2) + t =~= s);
    }
}

/// A file that is stripped of gain map metadata has no such segment left.
pub proof fn law_no_stale_metadata_is_left(raw: Seq<u8>)
    requires
        raw.len() >= 2,
    ensures
        lacks(all_parts(stripped(raw, is_hdr_metadata(), true), 2), is_hdr_metadata()),
{
    lemma_stripped_file(raw, is_hdr_metadata());
}

/// The segments from `off` on have no standalone markers between them.
pub open spec fn is_unbroken(raw: Seq<u8>, off: int) -> bool
    decreases raw.len() - off,
{
    match scan_at(raw, off) {
        Scan::Stop => true,
        Scan::Standalone => false,
        Scan::Segment { marker: _, end } => is_unbroken(raw, end),
    }
}

/// Where no standalone marker stands, it does not matter whether stripping goes on behind one.
proof fn lemma_unbroken(raw: Seq<u8>, off: int, drop: spec_fn(u8, Seq<u8>) -> bool)
    requires
        0 <= off <= raw.len(),
        is_unbroken(raw, off),
    ensures
        stripped_from(raw, off, drop, false) == stripped_from(raw, off, drop, true),
    decreases raw.len() - off,
{
    if let Scan::Segment { marker: _, end } = scan_at(raw, off) {
        lemma_unbroken(raw, end, drop);
    }
}

/// A file without profiles has none among its segments.
proof fn lemma_without_icc(raw: Seq<u8>)
    requires
        is_jpeg(raw),
        !has_icc(raw),
    ensures
        lacks(all_parts(raw, 2), is_app2_with(ICC_SIG@)),
{
    let parts = all_parts(raw, 2);
    let segs = segments_from(raw, 2);
    assert forall|i: int| 0 <= i < parts.len() implies !is_app2_with(ICC_SIG@)(
        (#[trigger] parts[i]).0,
        parts[i].1,
    ) by {
        assert(parts[i] == (segs[i].marker, segs[i].payload));
        assert(segments(raw)[i] == segs[i]);
    }
}

/// A file without a kind of segment lacks all parts of the kind.
proof fn lemma_kind_is_missing(
    file: Seq<u8>,
    parts: Seq<Part>,
    kind: spec_fn(u8, Seq<u8>) -> bool,
    n: int,
)
    requires
        0 <= n <= parts.len(),
        lacks(all_parts(file, 2), kind),
    ensures
        of_kind(missing_of(file, parts, n), kind) == of_kind(parts.take(n), kind),
    decreases n,
{
    if n == 0 {
        assert(parts.take(0) =~= Seq::empty());
    } else {
        let last = parts[n - 1];
        lemma_kind_is_missing(file, parts, kind, n - 1);
        assert(parts.take(n).drop_last() =~= parts.take(n - 1));
        assert(parts.take(n).last() == last);
        if kind(last.0, last.1) && has_part(file, last.0, last.1) {
            lemma_has_part(file, last);
            let all = all_parts(file, 2);
            let j = choose|j: int| 0 <= j < all.len() && all[j] == last;
            assert(!kind(all[j].0, all[j].1));
        }
        let before = missing_of(file, parts, n - 1);
        assert(before.push(last).drop_last() =~= before);
    }
}

/// Where the new gain map does not have the colour profile of the original's gain map, the profile
/// replaces those that an encoder added: the gain map of the assembled file has the original's
/// profile segments and no other, unless standalone markers hide some.
pub proof fn law_original_profile_survives(original: Seq<u8>, gainmap: Seq<u8>)
    requires
        is_jpeg(gainmap),
        has_icc(gainmap) ==> is_unbroken(gainmap, 2),
        first_icc(carried_parts(original_gainmap(original), true), 0) matches Some(icc)
            && !has_part(gainmap, 0xE2, icc),
    ensures
        of_kind(
            all_parts(assembled_gainmap(original, gainmap), 2),
            is_app2_with(ICC_SIG@),
        ) == of_kind(
            carried_parts(original_gainmap(original), true),
            is_app2_with(ICC_SIG@),
        ),
{
    let kind = is_app2_with(ICC_SIG@);
    let orig_gm = original_gainmap(original);
    let parts = carried_parts(orig_gm, true);
    let gm = without_other_icc(gainmap, parts);
    let ins = missing(gm, parts);
    lemma_carried(segments(orig_gm), true, segments(orig_gm).len() as int);
    if has_icc(gainmap) {
        lemma_stripped_file_run(gainmap, kind, false, kind);
        lemma_unbroken(gainmap, 2, kind);
        lemma_stripped_file(gainmap, kind);
    } else {
        lemma_without_icc(gainmap);
    }
    lemma_missing_are_run_parts(gm, parts, parts.len() as int);
    lemma_kind_with_parts(gm, ins, kind);
    lemma_kind_is_missing(gm, parts, kind, parts.len() as int);
    assert(parts.take(parts.len() as int) =~= parts);
}

/// Each piece of metadata that the original's gain map has is in the gain map of the assembled file.
pub proof fn law_gainmap_metadata_are_taken_over(original: Seq<u8>, gainmap: Seq<u8>, i: int)
    requires
        is_jpeg(gainmap),
        0 <= i < carried_parts(original_gainmap(original), true).len(),
    ensures
        ({
            let part = carried_parts(original_gainmap(original), true)[i];
            has_part(assembled_gainmap(original, gainmap), part.0, part.1)
        }),
{
    let orig_gm = original_gainmap(original);
    let parts = carried_parts(orig_gm, true);
    let gm = without_other_icc(gainmap, parts);
    lemma_carried(segments(orig_gm), true, segments(orig_gm).len() as int);
    if gm != gainmap {
        lemma_stripped_file_run(
            gainmap,
            is_app2_with(ICC_SIG@),
            false,
            is_app2_with(ICC_SIG@),
        );
    }
    law_taken_over_parts_are_present(gm, parts, i);
}

/// What is taken over of a file is in the file.
pub(crate) proof fn lemma_carried_is_present(raw: Seq<u8>, icc: bool, n: int, i: int)
    requires
        0 <= n <= segments(raw).len(),
        0 <= i < carried(segments(raw), icc, n).len(),
    ensures
        has_part(raw, carried(segments(raw), icc, n)[i].0, carried(segments(raw), icc, n)[i].1),
    decreases n,
{
    let segs = segments(raw);
    let before = carried(segs, icc, n - 1);
    if i < before.len() {
        lemma_carried_is_present(raw, icc, n - 1, i);
    } else {
        assert(segs[n - 1].marker == carried(segs, icc, n)[i].0);
    }
}

/// The first profile is one of the parts.
proof fn lemma_first_icc_at(parts: Seq<Part>, i: int) -> (k: int)
    requires
        0 <= i,
        first_icc(parts, i) is Some,
    ensures
        i <= k < parts.len(),
        parts[k].0 == 0xE2,
        first_icc(parts, i) == Some(parts[k].1),
    decreases parts.len() - i,
{
    if parts[i].0 == 0xE2 && begins_with(parts[i].1, ICC_SIG@) {
        i
    } else {
        lemma_first_icc_at(parts, i + 1)
    }
}

/// A file that has all the parts lacks none.
proof fn lemma_nothing_missing(file: Seq<u8>, parts: Seq<Part>, n: int)
    requires
        n <= parts.len(),
        forall|i: int| 0 <= i < parts.len() ==> has_part(file, (#[trigger] parts[i]).0, parts[i].1),
    ensures
        missing_of(file, parts, n) == Seq::<Part>::empty(),
    decreases n,
{
    if n > 0 {
        lemma_nothing_missing(file, parts, n - 1);
        assert(has_part(file, parts[n - 1].0, parts[n - 1].1));
    }
}

/// The original's own gain map is attached as it is.
pub proof fn law_own_gainmap_is_kept(original: Seq<u8>)
    requires
        is_jpeg(original_gainmap(original)),
    ensures
        assembled_gainmap(original, original_gainmap(original)) == original_gainmap(original),
{
    let gm = original_gainmap(original);
    let parts = carried_parts(gm, true);
    assert forall|i: int| 0 <= i < parts.len() implies has_part(
        gm,
        (#[trigger] parts[i]).0,
        parts[i].1,
    ) by {
        lemma_carried_is_present(gm, true, segments(gm).len() as int, i);
    }
    if first_icc(parts, 0) is Some {
        let k = lemma_first_icc_at(parts, 0);
        assert(has_part(gm, parts[k].0, parts[k].1));
    }
    lemma_nothing_missing(gm, parts, parts.len() as int);
    lemma_run_end(gm, 2);
    assert(with_parts(gm, Seq::empty()) =~= gm);
}

} // verus!
