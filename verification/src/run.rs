//! How edits of a JPEG file change the run of application segments at its start.

use vstd::prelude::*;

use crate::bytes::{be16_bytes, lemma_be16_round_trip};
use crate::jpeg::{
    app_run_end, is_app_or_comment, scan_at, segment_bytes, segments_from, written_segment,
    written_segments, Scan, Segment,
};

verus! {

/// Marker and payload of a segment.
pub type Part = (u8, Seq<u8>);

/// The segments of the run that begins at `off`.
pub open spec fn run_parts(raw: Seq<u8>, off: int) -> Seq<Part>
    decreases raw.len() - off,
{
    match scan_at(raw, off) {
        Scan::Segment { marker, end } => if is_app_or_comment(marker) {
            seq![(marker, raw.subrange(off + 4, end))] + run_parts(raw, end)
        } else {
            Seq::empty()
        },
        _ => Seq::empty(),
    }
}

/// All the segments from `off` on.
pub open spec fn all_parts(raw: Seq<u8>, off: int) -> Seq<Part> {
    segments_from(raw, off).map_values(|s: Segment| (s.marker, s.payload))
}

/// The same bytes follow `p` in `a` and `q` in `b`.
pub open spec fn same_tail(a: Seq<u8>, p: int, b: Seq<u8>, q: int) -> bool {
    &&& 0 <= p <= a.len()
    &&& 0 <= q <= b.len()
    &&& a.subrange(p, a.len() as int) == b.subrange(q, b.len() as int)
}

/// Equal tails stay equal further on.
pub proof fn lemma_same_tail(a: Seq<u8>, p: int, b: Seq<u8>, q: int, n: int)
    requires
        same_tail(a, p, b, q),
        0 <= n <= a.len() - p,
    ensures
        a.len() - p == b.len() - q,
        forall|i: int| 0 <= i < a.len() - p ==> #[trigger] a[p + i] == b[q + i],
        same_tail(a, p + n, b, q + n),
{
    let ta = a.subrange(p, a.len() as int);
    let tb = b.subrange(q, b.len() as int);
    assert(ta.len() == tb.len());
    assert forall|i: int| 0 <= i < a.len() - p implies #[trigger] a[p + i] == b[q + i] by {
        assert(ta[i] == tb[i]);
    }
    assert(a.subrange(p + n, a.len() as int) =~= ta.subrange(n, ta.len() as int));
    assert(b.subrange(q + n, b.len() as int) =~= tb.subrange(n, tb.len() as int));
}

/// What stands at a position depends on the tail alone.
pub proof fn lemma_scan_tail(a: Seq<u8>, p: int, b: Seq<u8>, q: int)
    requires
        same_tail(a, p, b, q),
    ensures
        match scan_at(a, p) {
            Scan::Stop => scan_at(b, q) is Stop,
            Scan::Standalone => scan_at(b, q) is Standalone && p + 4 <= a.len(),
            Scan::Segment { marker, end } => {
                &&& scan_at(b, q) == (Scan::Segment { marker, end: q + (end - p) })
                &&& p + 4 <= end <= a.len()
                &&& same_tail(a, end, b, q + (end - p))
                &&& a.subrange(p + 4, end) == b.subrange(q + 4, q + (end - p))
            },
        },
{
    lemma_same_tail(a, p, b, q, 0);
    if p + 4 <= a.len() {
        assert(a[p + 0] == b[q + 0] && a[p + 1] == b[q + 1] && a[p + 2] == b[q + 2] && a[p + 3]
            == b[q + 3]);
        if let Scan::Segment { marker, end } = scan_at(a, p) {
            lemma_same_tail(a, p, b, q, end - p);
            assert forall|i: int| 0 <= i < end - p - 4 implies #[trigger] a.subrange(p + 4, end)[i]
                == b.subrange(q + 4, q + (end - p))[i] by {
                assert(a[p + (4 + i)] == b[q + (4 + i)]);
            }
            assert(a.subrange(p + 4, end) =~= b.subrange(q + 4, q + (end - p)));
        }
    }
}

/// The run from a position on depends on the tail alone.
pub proof fn lemma_run_tail(a: Seq<u8>, p: int, b: Seq<u8>, q: int)
    requires
        same_tail(a, p, b, q),
    ensures
        run_parts(a, p) == run_parts(b, q),
    decreases a.len() - p,
{
    lemma_scan_tail(a, p, b, q);
    if let Scan::Segment { marker, end } = scan_at(a, p) {
        lemma_run_tail(a, end, b, q + (end - p));
    }
}

/// The segments from a position on depend on the tail alone.
pub proof fn lemma_all_tail(a: Seq<u8>, p: int, b: Seq<u8>, q: int)
    requires
        same_tail(a, p, b, q),
    ensures
        all_parts(a, p) == all_parts(b, q),
    decreases a.len() - p,
{
    lemma_scan_tail(a, p, b, q);
    match scan_at(a, p) {
        Scan::Stop => {
            assert(all_parts(a, p) =~= all_parts(b, q));
        },
        Scan::Standalone => {
            lemma_same_tail(a, p, b, q, 2);
            lemma_all_tail(a, p + 2, b, q + 2);
        },
        Scan::Segment { marker, end } => {
            lemma_all_tail(a, end, b, q + (end - p));
            lemma_all_parts_step(a, p);
            lemma_all_parts_step(b, q);
        },
    }
}

/// The first of the segments from a position on, and the others.
pub proof fn lemma_all_parts_step(raw: Seq<u8>, off: int)
    requires
        scan_at(raw, off) is Segment,
    ensures
        scan_at(raw, off) matches Scan::Segment { marker, end } && all_parts(raw, off) == seq![
            (marker, raw.subrange(off + 4, end)),
        ] + all_parts(raw, end),
{
    if let Scan::Segment { marker, end } = scan_at(raw, off) {
        let first = Segment { marker, payload: raw.subrange(off + 4, end), start: off };
        assert(segments_from(raw, off) == seq![first] + segments_from(raw, end));
        assert(all_parts(raw, off) =~= seq![(marker, raw.subrange(off + 4, end))] + all_parts(
            raw,
            end,
        ));
    }
}

/// A run ends where it begins or later, inside the file.
pub proof fn lemma_run_end(raw: Seq<u8>, off: int)
    requires
        0 <= off <= raw.len(),
    ensures
        off <= app_run_end(raw, off) <= raw.len(),
    decreases raw.len() - off,
{
    if let Scan::Segment { marker, end } = scan_at(raw, off) {
        if is_app_or_comment(marker) {
            lemma_run_end(raw, end);
        }
    }
}

/// Files with a common beginning, which a run of one of them fills, have that run in common.
pub proof fn lemma_run_prefix(x: Seq<u8>, y: Seq<u8>, off: int)
    requires
        0 <= off <= x.len(),
        app_run_end(x, off) <= y.len(),
        x.subrange(0, app_run_end(x, off)) == y.subrange(0, app_run_end(x, off)),
    ensures
        run_parts(y, off) == run_parts(x, off) + run_parts(y, app_run_end(x, off)),
        app_run_end(y, off) == app_run_end(y, app_run_end(x, off)),
    decreases x.len() - off,
{
    let at = app_run_end(x, off);
    match scan_at(x, off) {
        Scan::Segment { marker, end } => if is_app_or_comment(marker) {
            lemma_run_end(x, end);
            lemma_same_scan(x, y, off, at);
            lemma_run_prefix(x, y, end);
            let first = seq![(marker, x.subrange(off + 4, end))];
            assert(first + run_parts(x, end) + run_parts(y, at) =~= first + (run_parts(x, end)
                + run_parts(y, at)));
        } else {
            assert(Seq::<Part>::empty() + run_parts(y, at) =~= run_parts(y, at));
        },
        _ => {
            assert(Seq::<Part>::empty() + run_parts(y, at) =~= run_parts(y, at));
        },
    }
}

/// Files with a common beginning, which a run of one of them fills: all the segments of the other.
pub proof fn lemma_all_prefix(x: Seq<u8>, y: Seq<u8>, off: int)
    requires
        0 <= off <= x.len(),
        app_run_end(x, off) <= y.len(),
        x.subrange(0, app_run_end(x, off)) == y.subrange(0, app_run_end(x, off)),
    ensures
        all_parts(y, off) == run_parts(x, off) + all_parts(y, app_run_end(x, off)),
    decreases x.len() - off,
{
    let at = app_run_end(x, off);
    match scan_at(x, off) {
        Scan::Segment { marker, end } => if is_app_or_comment(marker) {
            lemma_run_end(x, end);
            lemma_same_scan(x, y, off, at);
            lemma_all_prefix(x, y, end);
            lemma_all_parts_step(y, off);
            let first = seq![(marker, x.subrange(off + 4, end))];
            assert(first + run_parts(x, end) + all_parts(y, at) =~= first + (run_parts(x, end)
                + all_parts(y, at)));
        } else {
            assert(Seq::<Part>::empty() + all_parts(y, at) =~= all_parts(y, at));
        },
        _ => {
            assert(Seq::<Part>::empty() + all_parts(y, at) =~= all_parts(y, at));
        },
    }
}

/// A segment that lies in the common beginning of two files stands in both.
pub proof fn lemma_same_scan(x: Seq<u8>, y: Seq<u8>, off: int, at: int)
    requires
        0 <= off,
        at <= x.len(),
        at <= y.len(),
        x.subrange(0, at) == y.subrange(0, at),
        scan_at(x, off) matches Scan::Segment { marker: _, end } && end <= at,
    ensures
        scan_at(y, off) == scan_at(x, off),
        scan_at(x, off) matches Scan::Segment { marker: _, end } && x.subrange(off + 4, end)
            == y.subrange(off + 4, end),
{
    if let Scan::Segment { marker: _, end } = scan_at(x, off) {
        let (px, py) = (x.subrange(0, at), y.subrange(0, at));
        assert(off + 4 <= end);
        assert forall|i: int| 0 <= i < at implies x[i] == y[i] by {
            assert(px[i] == py[i]);
        }
        assert(x.subrange(off + 4, end) =~= y.subrange(off + 4, end));
    }
}

/// A part that can be written as a segment of the run.
pub open spec fn is_run_part(p: Part) -> bool {
    is_app_or_comment(p.0) && p.1.len() + 2 <= 0xFFFF
}

/// Parts that can be written as segments of the run.
pub open spec fn are_run_parts(parts: Seq<Part>) -> bool {
    forall|i: int| 0 <= i < parts.len() ==> is_run_part(#[trigger] parts[i])
}

/// The bytes of two lists in a row are those of the joined list.
pub proof fn lemma_written_add(a: Seq<Part>, b: Seq<Part>)
    ensures
        written_segments(a + b) == written_segments(a) + written_segments(b),
    decreases b.len(),
{
    if b.len() == 0 {
        assert(a + b =~= a);
        assert(written_segments(a) + Seq::<u8>::empty() =~= written_segments(a));
    } else {
        assert((a + b).drop_last() =~= a + b.drop_last());
        lemma_written_add(a, b.drop_last());
        let last = written_segment(b.last().0, b.last().1);
        assert(written_segments(a) + written_segments(b.drop_last()) + last =~= written_segments(a)
            + (written_segments(b.drop_last()) + last));
    }
}

/// The bytes of a one-part list.
pub proof fn lemma_written_one(p: Part)
    ensures
        written_segments(seq![p]) == written_segment(p.0, p.1),
{
    assert(seq![p].drop_last() =~= Seq::<Part>::empty());
    reveal_with_fuel(written_segments, 2);
    assert(Seq::<u8>::empty() + written_segment(p.0, p.1) =~= written_segment(p.0, p.1));
}

/// The bytes of a list are those of its first part and then those of the others.
pub proof fn lemma_written_first(parts: Seq<Part>)
    requires
        parts.len() > 0,
    ensures
        written_segments(parts) == written_segment(parts[0].0, parts[0].1) + written_segments(
            parts.skip(1),
        ),
{
    assert(parts =~= seq![parts[0]] + parts.skip(1));
    lemma_written_add(seq![parts[0]], parts.skip(1));
    lemma_written_one(parts[0]);
}

/// A written segment is read where it stands.
pub proof fn lemma_written_scan(raw: Seq<u8>, off: int, p: Part)
    requires
        0 <= off,
        is_run_part(p),
        off + p.1.len() + 4 <= raw.len(),
        raw.subrange(off, off + p.1.len() + 4) == segment_bytes(p.0, p.1),
    ensures
        scan_at(raw, off) == (Scan::Segment { marker: p.0, end: off + p.1.len() + 4 }),
        raw.subrange(off + 4, off + p.1.len() + 4) == p.1,
{
    let s = raw.subrange(off, off + p.1.len() + 4);
    let len = be16_bytes(p.1.len() as int + 2);
    assert(s.len() == p.1.len() + 4);
    assert(s[0] == 0xFF && s[1] == p.0 && s[2] == len[0] && s[3] == len[1]);
    assert(raw[off] == s[0] && raw[off + 1] == s[1] && raw[off + 2] == s[2] && raw[off + 3]
        == s[3]);
    lemma_be16_round_trip(p.1.len() as int + 2);
    assert forall|i: int| 0 <= i < p.1.len() implies #[trigger] raw.subrange(
        off + 4,
        off + p.1.len() + 4,
    )[i] == p.1[i] by {
        assert(raw[off + (4 + i)] == s[4 + i]);
        assert(s[4 + i] == p.1[i]);
    }
    assert(raw.subrange(off + 4, off + p.1.len() + 4) =~= p.1);
}

/// Written parts are read back as the run where they stand.
pub proof fn lemma_written_run(raw: Seq<u8>, off: int, parts: Seq<Part>)
    requires
        0 <= off,
        are_run_parts(parts),
        off + written_segments(parts).len() <= raw.len(),
        raw.subrange(off, off + written_segments(parts).len()) == written_segments(parts),
    ensures
        run_parts(raw, off) == parts + run_parts(raw, off + written_segments(parts).len()),
        app_run_end(raw, off) == app_run_end(raw, off + written_segments(parts).len()),
    decreases parts.len(),
{
    let w = written_segments(parts);
    if parts.len() == 0 {
        assert(parts + run_parts(raw, off) =~= run_parts(raw, off));
    } else {
        lemma_written_step(raw, off, parts);
        let end = off + parts[0].1.len() + 4;
        lemma_written_run(raw, end, parts.skip(1));
        let rest = run_parts(raw, off + w.len());
        assert(seq![parts[0]] + (parts.skip(1) + rest) =~= parts + rest);
    }
}

/// The first of several written parts is read where they stand, and the others follow it.
pub proof fn lemma_written_step(raw: Seq<u8>, off: int, parts: Seq<Part>)
    requires
        0 <= off,
        parts.len() > 0,
        are_run_parts(parts),
        off + written_segments(parts).len() <= raw.len(),
        raw.subrange(off, off + written_segments(parts).len()) == written_segments(parts),
    ensures
        ({
            let end = off + parts[0].1.len() + 4;
            &&& scan_at(raw, off) == (Scan::Segment { marker: parts[0].0, end })
            &&& raw.subrange(off + 4, end) == parts[0].1
            &&& are_run_parts(parts.skip(1))
            &&& end + written_segments(parts.skip(1)).len() == off + written_segments(parts).len()
            &&& raw.subrange(end, end + written_segments(parts.skip(1)).len()) == written_segments(
                parts.skip(1),
            )
        }),
{
    let w = written_segments(parts);
    let first = parts[0];
    let rest = written_segments(parts.skip(1));
    lemma_written_first(parts);
    assert(is_run_part(first));
    let head = segment_bytes(first.0, first.1);
    assert(head.len() == first.1.len() + 4);
    let end = off + first.1.len() + 4;
    let stand = raw.subrange(off, off + w.len());
    assert(raw.subrange(off, end) =~= stand.subrange(0, head.len() as int));
    assert(w.subrange(0, head.len() as int) =~= head);
    lemma_written_scan(raw, off, first);
    assert(raw.subrange(end, end + rest.len()) =~= stand.subrange(
        head.len() as int,
        w.len() as int,
    ));
    assert(w.subrange(head.len() as int, w.len() as int) =~= rest);
    assert forall|i: int| 0 <= i < parts.skip(1).len() implies is_run_part(
        #[trigger] parts.skip(1)[i],
    ) by {
        assert(parts.skip(1)[i] == parts[i + 1]);
    }
}

} // verus!
