//! Which bytes assembled and created Ultra HDR files are made of, stated of the segments of the
//! files that they are made from.

use vstd::prelude::*;

use crate::bytes::{lemma_find_from_is, matches_at};
use crate::heic_laws::{holds_at, lemma_holds_piece};
use crate::jpeg::{
    app_run_end, is_hdr_metadata, is_jpeg, segment_bytes, segments, stripped, written_segments,
};
use crate::mpf::{law_mpf_reads_back, lemma_mpf_head, mpf_second, mpf_segment};
use crate::run::Part;
use crate::segment_laws::{
    are_parts, is_image_rest, is_part, is_stale, jpeg_file, law_stripping_drops_stale_metadata,
    left_over, lemma_part_at, lemma_rest_stops, part_bytes, parts_bytes,
};
use crate::tags::{LENGTH_ATTR, SEMANTIC_GAINMAP};
use crate::ultrahdr::{base_parts, created, gainmap_parts, iso_payload, with_gainmap, with_parts};
use crate::xmp::{
    decimal, declared_length, lemma_decimal_digits, primary_xmp, secondary_xmp,
    with_declared_length, QUOTE,
};

verus! {

/// The number that decimal digits stand for.
pub open spec fn digits_value(digits: Seq<u8>) -> int
    decreases digits.len(),
{
    if digits.len() == 0 {
        0
    } else {
        10 * digits_value(digits.drop_last()) + (digits.last() - 0x30)
    }
}

/// Decimal notation stands for its number, has digits only, and no needless zero in front.
pub proof fn law_decimal_notation(n: nat)
    ensures
        digits_value(decimal(n)) == n,
        forall|i: int| 0 <= i < decimal(n).len() ==> 0x30 <= #[trigger] decimal(n)[i] <= 0x39,
        decimal(n).len() >= 1,
        decimal(n).len() > 1 ==> decimal(n)[0] != 0x30,
        n > 0 ==> decimal(n)[0] != 0x30,
    decreases n,
{
    lemma_decimal_digits(n);
    if n < 10 {
        assert(decimal(n).drop_last() =~= Seq::<u8>::empty());
        assert(decimal(n).last() == 0x30 + n);
        reveal_with_fuel(digits_value, 2);
    } else {
        law_decimal_notation(n / 10);
        assert(decimal(n).drop_last() =~= decimal(n / 10));
        assert(decimal(n).last() == 0x30 + n % 10);
        assert(decimal(n)[0] == decimal(n / 10)[0]);
    }
}

/// A container directory with a gain map item, its length in it.
pub open spec fn directory_text(
    before: Seq<u8>,
    between: Seq<u8>,
    length: Seq<u8>,
    after: Seq<u8>,
) -> Seq<u8> {
    before + SEMANTIC_GAINMAP@ + between + LENGTH_ATTR@ + length + seq![0x22u8] + after
}

/// The first gain map item stands behind `before`, and the first length behind it behind `between`.
pub open spec fn is_first_item(
    before: Seq<u8>,
    between: Seq<u8>,
    length: Seq<u8>,
    after: Seq<u8>,
) -> bool {
    let xmp = directory_text(before, between, length, after);
    let at = before.len() as int;
    &&& forall|j: int| 0 <= j < at ==> !#[trigger] holds_at(xmp, j, SEMANTIC_GAINMAP@)
    &&& forall|j: int|
        at <= j < at + 18 + between.len() ==> !#[trigger] holds_at(xmp, j, LENGTH_ATTR@)
    &&& !length.contains(0x22)
}

proof fn lemma_declared_at(before: Seq<u8>, between: Seq<u8>, length: Seq<u8>, after: Seq<u8>)
    requires
        is_first_item(before, between, length, after),
    ensures
        ({
            let start = before.len() as int + 26 + between.len();
            declared_length(directory_text(before, between, length, after)) == Some(
                (start, start + length.len()),
            )
        }),
{
    let xmp = directory_text(before, between, length, after);
    let sem = before.len() as int;
    let attr = sem + 18 + between.len();
    let start = attr + 8;
    let end = start + length.len();
    assert(xmp.subrange(sem, sem + 18) =~= SEMANTIC_GAINMAP@);
    assert(xmp.subrange(attr, attr + 8) =~= LENGTH_ATTR@);
    assert(xmp.subrange(end, end + 1) =~= QUOTE@);
    assert forall|j: int| 0 <= j < sem implies !#[trigger] matches_at(
        xmp,
        SEMANTIC_GAINMAP@,
        j,
    ) by {
        assert(!holds_at(xmp, j, SEMANTIC_GAINMAP@));
    }
    lemma_find_from_is(xmp, SEMANTIC_GAINMAP@, 0, sem);
    assert forall|j: int| sem <= j < attr implies !#[trigger] matches_at(xmp, LENGTH_ATTR@, j) by {
        assert(!holds_at(xmp, j, LENGTH_ATTR@));
    }
    lemma_find_from_is(xmp, LENGTH_ATTR@, sem, attr);
    assert forall|j: int| start <= j < end implies !#[trigger] matches_at(xmp, QUOTE@, j) by {
        assert(xmp[j] == length[j - start]);
        assert(length.contains(length[j - start]));
        if matches_at(xmp, QUOTE@, j) {
            assert(xmp.subrange(j, j + 1)[0] == xmp[j]);
            assert(QUOTE@[0] == 0x22);
        }
    }
    lemma_find_from_is(xmp, QUOTE@, start, end);
}

/// Rewriting the gain map length of a container directory replaces the digits of the first length
/// behind the first gain map item, and nothing else.
pub proof fn law_only_the_length_is_rewritten(
    before: Seq<u8>,
    between: Seq<u8>,
    length: Seq<u8>,
    after: Seq<u8>,
    n: nat,
)
    requires
        is_first_item(before, between, length, after),
    ensures
        with_declared_length(directory_text(before, between, length, after), n) == directory_text(
            before,
            between,
            decimal(n),
            after,
        ),
{
    lemma_declared_at(before, between, length, after);
    let xmp = directory_text(before, between, length, after);
    assert(with_declared_length(xmp, n) =~= directory_text(before, between, decimal(n), after));
}

pub(crate) proof fn lemma_parts_add(a: Seq<Part>, b: Seq<Part>)
    ensures
        parts_bytes(a + b) == parts_bytes(a) + parts_bytes(b),
    decreases a.len(),
{
    if a.len() == 0 {
        assert(a + b =~= b);
        assert(parts_bytes(a) + parts_bytes(b) =~= parts_bytes(b));
    } else {
        assert((a + b).skip(1) =~= a.skip(1) + b);
        lemma_parts_add(a.skip(1), b);
        assert(part_bytes(a[0]) + (parts_bytes(a.skip(1)) + parts_bytes(b)) =~= parts_bytes(a)
            + parts_bytes(b));
    }
}

pub(crate) proof fn lemma_one_part(p: Part)
    ensures
        parts_bytes(seq![p]) == part_bytes(p),
{
    assert(seq![p].skip(1) =~= Seq::<Part>::empty());
    reveal_with_fuel(parts_bytes, 2);
    assert(part_bytes(p) + Seq::<u8>::empty() =~= part_bytes(p));
}

proof fn lemma_written(parts: Seq<Part>)
    requires
        are_parts(parts),
    ensures
        written_segments(parts) == parts_bytes(parts),
    decreases parts.len(),
{
    if parts.len() > 0 {
        let (head, p) = (parts.drop_last(), parts.last());
        assert(is_part(parts[parts.len() - 1]));
        assert forall|i: int| 0 <= i < head.len() implies is_part(#[trigger] head[i]) by {
            assert(head[i] == parts[i]);
        }
        lemma_written(head);
        lemma_parts_add(head, seq![p]);
        lemma_one_part(p);
        assert(parts =~= head + seq![p]);
        assert(segment_bytes(p.0, p.1) =~= part_bytes(p));
    }
}

/// Application data and comments.
pub open spec fn is_app(p: Part) -> bool {
    0xE0 <= p.0 <= 0xEF || p.0 == 0xFE
}

/// `run` are the application segments and comments that a file begins with, and `others` the
/// segments behind them.
pub open spec fn is_run(run: Seq<Part>, others: Seq<Part>) -> bool {
    &&& are_parts(run)
    &&& are_parts(others)
    &&& forall|i: int| 0 <= i < run.len() ==> is_app(#[trigger] run[i])
    &&& others.len() > 0 ==> !is_app(others[0])
}

proof fn lemma_run_at(raw: Seq<u8>, off: int, run: Seq<Part>, others: Seq<Part>, rest: Seq<u8>)
    requires
        0 <= off <= raw.len(),
        is_run(run, others),
        is_image_rest(rest),
        raw.subrange(off, raw.len() as int) == parts_bytes(run) + (parts_bytes(others) + rest),
    ensures
        app_run_end(raw, off) == off + parts_bytes(run).len(),
    decreases run.len(),
{
    if run.len() == 0 {
        assert(parts_bytes(run) + (parts_bytes(others) + rest) =~= parts_bytes(others) + rest);
        if others.len() == 0 {
            assert(parts_bytes(others) + rest =~= rest);
            lemma_rest_stops(raw, off, rest);
        } else {
            let p = others[0];
            let behind = parts_bytes(others.skip(1)) + rest;
            assert(is_part(p));
            assert(parts_bytes(others) + rest =~= part_bytes(p) + behind);
            assert(holds_at(raw, off, part_bytes(p) + behind));
            lemma_holds_piece(raw, off, part_bytes(p), behind);
            lemma_part_at(raw, off, p);
        }
    } else {
        let p = run[0];
        let more = run.skip(1);
        let behind = parts_bytes(more) + (parts_bytes(others) + rest);
        assert(is_part(p) && is_app(p));
        assert(parts_bytes(run) + (parts_bytes(others) + rest) =~= part_bytes(p) + behind);
        assert(holds_at(raw, off, part_bytes(p) + behind));
        lemma_holds_piece(raw, off, part_bytes(p), behind);
        lemma_part_at(raw, off, p);
        assert forall|i: int| 0 <= i < more.len() implies is_part(#[trigger] more[i]) && is_app(
            more[i],
        ) by {
            assert(more[i] == run[i + 1]);
        }
        lemma_run_at(raw, off + part_bytes(p).len(), more, others, rest);
    }
}

proof fn lemma_run_end_of(run: Seq<Part>, others: Seq<Part>, rest: Seq<u8>)
    requires
        is_run(run, others),
        is_image_rest(rest),
    ensures
        ({
            let file = jpeg_file(run + others, rest);
            let at = 2 + parts_bytes(run).len();
            &&& app_run_end(file, 2) == at
            &&& file.subrange(0, at as int) == seq![0xFFu8, 0xD8] + parts_bytes(run)
            &&& file.subrange(at as int, file.len() as int) == parts_bytes(others) + rest
        }),
{
    let file = jpeg_file(run + others, rest);
    let at = 2 + parts_bytes(run).len() as int;
    lemma_parts_add(run, others);
    let head = seq![0xFFu8, 0xD8] + parts_bytes(run);
    assert(file =~= head + (parts_bytes(others) + rest));
    assert(file.subrange(2, file.len() as int) =~= parts_bytes(run) + (parts_bytes(others) + rest));
    lemma_run_at(file, 2, run, others, rest);
    assert(file.subrange(0, at) =~= head);
    assert(file.subrange(at, file.len() as int) =~= parts_bytes(others) + rest);
}

/// New segments go behind the application segments and comments that a file begins with, and
/// nothing else changes.
pub proof fn law_new_segments_go_behind_the_run(
    run: Seq<Part>,
    others: Seq<Part>,
    rest: Seq<u8>,
    parts: Seq<Part>,
)
    requires
        is_run(run, others),
        is_image_rest(rest),
        are_parts(parts),
    ensures
        with_parts(jpeg_file(run + others, rest), parts) == jpeg_file(
            run + parts + others,
            rest,
        ),
{
    lemma_run_end_of(run, others, rest);
    lemma_written(parts);
    lemma_parts_add(run, parts);
    lemma_parts_add(run + parts, others);
    assert(seq![0xFFu8, 0xD8] + parts_bytes(run) + parts_bytes(parts) + (parts_bytes(others)
        + rest) =~= jpeg_file(run + parts + others, rest));
}

/// A segment is a multi-picture directory that lists the `n` bytes from `at` on as the second image
/// of the file, where the segment itself stands at `off`.
pub open spec fn is_directory_for(p: Part, off: int, at: int, n: int) -> bool {
    &&& p.0 == 0xE2
    &&& is_part(p)
    &&& mpf_second(p.1) == Some((at - (off + 8), n))
}

/// A gain map goes behind its base, and the base gets a multi-picture directory behind its run of
/// application segments, which lists the gain map with its place and size.
pub proof fn law_gainmap_goes_behind_the_base(
    run: Seq<Part>,
    others: Seq<Part>,
    rest: Seq<u8>,
    gm: Seq<u8>,
) -> (directory: Part)
    requires
        is_run(run, others),
        is_image_rest(rest),
        jpeg_file(run + others, rest).len() + 90 + gm.len() < 0x1_0000_0000,
    ensures
        ({
            let base = jpeg_file(run + seq![directory] + others, rest);
            &&& with_gainmap(jpeg_file(run + others, rest), gm) == base + gm
            &&& is_directory_for(
                directory,
                2 + parts_bytes(run).len() as int,
                base.len() as int,
                gm.len() as int,
            )
        }),
{
    let file = jpeg_file(run + others, rest);
    let at = 2 + parts_bytes(run).len() as int;
    let base_len = file.len() as int + 90;
    let seg = mpf_segment(base_len, gm.len() as int, base_len - (at + 8));
    let payload = seg.subrange(4, 90);
    let directory: Part = (0xE2u8, payload);
    lemma_run_end_of(run, others, rest);
    lemma_mpf_head(base_len, gm.len() as int, base_len - (at + 8));
    lemma_parts_add(run, others);
    assert(base_len - (at + 8) >= 0);
    law_mpf_reads_back(base_len, gm.len() as int, base_len - (at + 8));
    assert(part_bytes(directory) =~= seg);
    lemma_one_part(directory);
    lemma_parts_add(run, seq![directory]);
    lemma_parts_add(run + seq![directory], others);
    let base = jpeg_file(run + seq![directory] + others, rest);
    assert(base =~= seq![0xFFu8, 0xD8] + parts_bytes(run) + seg + (parts_bytes(others) + rest));
    assert(with_gainmap(file, gm) =~= base + gm);
    directory
}

pub(crate) proof fn lemma_left_over(a: Seq<Part>, b: Seq<Part>, drop: spec_fn(Part) -> bool)
    ensures
        left_over(a + b, drop) == left_over(a, drop) + left_over(b, drop),
    decreases a.len(),
{
    if a.len() == 0 {
        assert(a + b =~= b);
        assert(left_over(a, drop) + left_over(b, drop) =~= left_over(b, drop));
    } else {
        assert((a + b).skip(1) =~= a.skip(1) + b);
        lemma_left_over(a.skip(1), b, drop);
        assert(seq![a[0]] + (left_over(a.skip(1), drop) + left_over(b, drop)) =~= seq![a[0]]
            + left_over(a.skip(1), drop) + left_over(b, drop));
    }
}

/// None of the segments is one that `drop` names.
pub open spec fn none_of(list: Seq<Part>, drop: spec_fn(Part) -> bool) -> bool {
    forall|i: int| 0 <= i < list.len() ==> !drop(#[trigger] list[i])
}

pub(crate) proof fn lemma_nothing_dropped(list: Seq<Part>, drop: spec_fn(Part) -> bool)
    requires
        none_of(list, drop),
    ensures
        left_over(list, drop) == list,
    decreases list.len(),
{
    if list.len() > 0 {
        let others = list.skip(1);
        assert(!drop(list[0]));
        assert forall|i: int| 0 <= i < others.len() implies !drop(#[trigger] others[i]) by {
            assert(others[i] == list[i + 1]);
        }
        lemma_nothing_dropped(others, drop);
        assert(seq![list[0]] + others =~= list);
    }
}

pub(crate) proof fn lemma_left_over_are(list: Seq<Part>, drop: spec_fn(Part) -> bool, i: int)
    requires
        0 <= i < left_over(list, drop).len(),
    ensures
        list.contains(left_over(list, drop)[i]),
    decreases list.len(),
{
    let others = left_over(list.skip(1), drop);
    let found = left_over(list, drop)[i];
    if drop(list[0]) {
        lemma_left_over_are(list.skip(1), drop, i);
        let j = choose|j: int| 0 <= j < list.skip(1).len() && list.skip(1)[j] == found;
        assert(list[j + 1] == found);
    } else if i == 0 {
        assert(list[0] == found);
    } else {
        assert(found == others[i - 1]);
        lemma_left_over_are(list.skip(1), drop, i - 1);
        let j = choose|j: int| 0 <= j < list.skip(1).len() && list.skip(1)[j] == found;
        assert(list[j + 1] == found);
    }
}

pub(crate) proof fn lemma_still_run(run: Seq<Part>, others: Seq<Part>, drop: spec_fn(Part) -> bool)
    requires
        is_run(run, others),
    ensures
        is_run(left_over(run, drop), others),
{
    let left = left_over(run, drop);
    assert forall|i: int| 0 <= i < left.len() implies is_part(#[trigger] left[i]) && is_app(
        left[i],
    ) by {
        lemma_left_over_are(run, drop, i);
        let j = choose|j: int| 0 <= j < run.len() && run[j] == left[i];
        assert(is_part(run[j]) && is_app(run[j]));
    }
}

pub(crate) proof fn lemma_are_parts_add(a: Seq<Part>, b: Seq<Part>)
    requires
        are_parts(a),
        are_parts(b),
    ensures
        are_parts(a + b),
{
    assert forall|i: int| 0 <= i < (a + b).len() implies is_part(#[trigger] (a + b)[i]) by {
        if i < a.len() {
            assert(is_part(a[i]));
        } else {
            assert(is_part(b[i - a.len()]));
        }
    }
}

/// A run with further application segments behind it.
pub(crate) proof fn lemma_longer_run(run: Seq<Part>, more: Seq<Part>, others: Seq<Part>)
    requires
        is_run(run, others),
        are_parts(more),
        forall|i: int| 0 <= i < more.len() ==> is_app(#[trigger] more[i]),
    ensures
        is_run(run + more, others),
{
    lemma_are_parts_add(run, more);
    assert forall|i: int| 0 <= i < (run + more).len() implies is_app(#[trigger] (run + more)[i]) by {
        if i < run.len() {
            assert(is_app(run[i]));
        } else {
            assert(is_app(more[i - run.len()]));
        }
    }
}

proof fn lemma_stale_replaced(
    run: Seq<Part>,
    others: Seq<Part>,
    rest: Seq<u8>,
    parts: Seq<Part>,
)
    requires
        is_run(run, others),
        is_image_rest(rest),
        none_of(others, |p: Part| is_stale(p)),
        are_parts(parts),
    ensures
        with_parts(stripped(jpeg_file(run + others, rest), is_hdr_metadata(), true), parts)
            == jpeg_file(left_over(run, |p: Part| is_stale(p)) + parts + others, rest),
{
    let drop = |p: Part| is_stale(p);
    lemma_are_parts_add(run, others);
    law_stripping_drops_stale_metadata(run + others, rest);
    lemma_left_over(run, others, drop);
    lemma_nothing_dropped(others, drop);
    lemma_still_run(run, others, drop);
    law_new_segments_go_behind_the_run(left_over(run, drop), others, rest, parts);
}

/// The segments that a new gain map gets: its attributes, and the ISO 21496-1 metadata.
pub open spec fn new_gainmap_parts(micro: u32, text: Seq<u8>) -> Seq<Part> {
    seq![(0xE1u8, secondary_xmp(text)), (0xE2u8, iso_payload(micro))]
}

/// The segments that a new base gets: a container directory, and the ISO 21496-1 metadata.
pub open spec fn new_base_parts(micro: u32, n: nat) -> Seq<Part> {
    seq![(0xE1u8, primary_xmp(n)), (0xE2u8, iso_payload(micro))]
}

/// A created file is the base without stale metadata, with a container directory for the gain map,
/// the ISO 21496-1 metadata and a multi-picture directory behind its application segments, and
/// behind it the gain map without stale metadata and with its own. The other segments and the image
/// data of both stay as they are.
pub proof fn law_created_file_is_made_of(
    run: Seq<Part>,
    others: Seq<Part>,
    rest: Seq<u8>,
    gm_run: Seq<Part>,
    gm_others: Seq<Part>,
    gm_rest: Seq<u8>,
    micro: u32,
    text: Seq<u8>,
) -> (directory: Part)
    requires
        is_run(run, others),
        is_image_rest(rest),
        none_of(others, |p: Part| is_stale(p)),
        is_jpeg(jpeg_file(run + others, rest)),
        is_run(gm_run, gm_others),
        is_image_rest(gm_rest),
        none_of(gm_others, |p: Part| is_stale(p)),
        is_jpeg(jpeg_file(gm_run + gm_others, gm_rest)),
        are_parts(new_gainmap_parts(micro, text)),
        ({
            let gm = jpeg_file(
                left_over(gm_run, |p: Part| is_stale(p)) + new_gainmap_parts(micro, text)
                    + gm_others,
                gm_rest,
            );
            let base = jpeg_file(
                left_over(run, |p: Part| is_stale(p)) + new_base_parts(micro, gm.len()) + others,
                rest,
            );
            &&& are_parts(new_base_parts(micro, gm.len()))
            &&& base.len() + 90 + gm.len() < 0x1_0000_0000
        }),
    ensures
        ({
            let gm = jpeg_file(
                left_over(gm_run, |p: Part| is_stale(p)) + new_gainmap_parts(micro, text)
                    + gm_others,
                gm_rest,
            );
            let head = left_over(run, |p: Part| is_stale(p)) + new_base_parts(micro, gm.len());
            let base = jpeg_file(head + seq![directory] + others, rest);
            &&& created(
                jpeg_file(run + others, rest),
                jpeg_file(gm_run + gm_others, gm_rest),
                Some((micro, text)),
            ) == Ok::<Seq<u8>, Seq<char>>(base + gm)
            &&& is_directory_for(
                directory,
                2 + parts_bytes(head).len() as int,
                base.len() as int,
                gm.len() as int,
            )
        }),
{
    let drop = |p: Part| is_stale(p);
    let gm_parts = new_gainmap_parts(micro, text);
    let gm = jpeg_file(left_over(gm_run, drop) + gm_parts + gm_others, gm_rest);
    let parts = new_base_parts(micro, gm.len());
    let head = left_over(run, drop) + parts;
    lemma_stale_replaced(gm_run, gm_others, gm_rest, gm_parts);
    assert(gainmap_parts(micro, text) =~= gm_parts);
    lemma_stale_replaced(run, others, rest, parts);
    assert(base_parts(micro, gm.len()) =~= parts);
    lemma_still_run(run, others, drop);
    lemma_longer_run(left_over(run, drop), parts, others);
    law_gainmap_goes_behind_the_base(head, others, rest, gm)
}

} // verus!
