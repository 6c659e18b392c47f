//! Boxes with long sizes, without sizes, and that are cut off.

use vstd::prelude::*;

use crate::bmff::{boxes_from, boxes_in, meta_from, BoxRange};
use crate::bytes::{
    be16_bytes, be32_bytes, matches_at, u16_be, u16_le, u32_be, u32_le, u64_be,
};
use crate::heic::{associations_from, entry_items, Association};
use crate::heic_laws::{
    entries_bytes, entry_bytes, holds_at, is_entry, lemma_be16_at, lemma_be32_at, lemma_entry_at,
    lemma_holds_piece, AssociationEntry,
};
use crate::tags::{INFE, META};

verus! {

/// Numbers stand in a file with their highest byte first, or with their lowest byte first.
pub proof fn law_order_of_bytes(s: Seq<u8>, i: int)
    ensures
        u16_be(s, i) == 256 * s[i] + s[i + 1],
        u32_be(s, i) == 65536 * u16_be(s, i) + u16_be(s, i + 2),
        u64_be(s, i) == 0x1_0000_0000 * u32_be(s, i) + u32_be(s, i + 4),
        u16_le(s, i) == s[i] + 256 * s[i + 1],
        u32_le(s, i) == u16_le(s, i) + 65536 * u16_le(s, i + 2),
{
}

/// The bytes of a number that is written, highest one first.
pub proof fn law_order_of_written_bytes(n: int)
    requires
        0 <= n < 0x1_0000_0000,
    ensures
        be32_bytes(n).len() == 4,
        0x100_0000 * be32_bytes(n)[0] + 0x1_0000 * be32_bytes(n)[1] + 0x100 * be32_bytes(n)[2]
            + be32_bytes(n)[3] == n,
        n < 0x1_0000 ==> be16_bytes(n).len() == 2 && 0x100 * be16_bytes(n)[0] + be16_bytes(n)[1] == n,
{
}

/// The bytes before the body of a box with a long size.
pub open spec fn long_head(typ: Seq<u8>, high: int, low: int) -> Seq<u8> {
    be32_bytes(1) + typ + be32_bytes(high) + be32_bytes(low)
}

proof fn lemma_long_head(data: Seq<u8>, at: int, typ: Seq<u8>, high: int, low: int)
    requires
        typ.len() == 4,
        0 <= high < 0x1_0000_0000,
        0 <= low < 0x1_0000_0000,
        holds_at(data, at, long_head(typ, high, low)),
    ensures
        at + 16 <= data.len(),
        u32_be(data, at) == 1,
        data.subrange(at + 4, at + 8) == typ,
        u64_be(data, at + 8) == 0x1_0000_0000 * high + low,
{
    let (one, h, l) = (be32_bytes(1), be32_bytes(high), be32_bytes(low));
    lemma_holds_piece(data, at, one + typ + h, l);
    lemma_holds_piece(data, at, one + typ, h);
    lemma_holds_piece(data, at, one, typ);
    lemma_be32_at(data, at, 1);
    lemma_be32_at(data, at + 8, high);
    lemma_be32_at(data, at + 12, low);
}

/// A box whose size stands behind its type, in 64 bits, reads back; the next box follows where it
/// ends.
pub proof fn law_long_box_reads_back(
    data: Seq<u8>,
    at: int,
    end: int,
    typ: Seq<u8>,
    high: int,
    low: int,
)
    requires
        typ.len() == 4,
        0 <= high < 0x1_0000_0000,
        0 <= low < 0x1_0000_0000,
        holds_at(data, at, long_head(typ, high, low)),
        end <= data.len(),
        16 <= 0x1_0000_0000 * high + low <= end - at,
    ensures
        ({
            let size = 0x1_0000_0000 * high + low;
            boxes_in(data, at, end) == seq![BoxRange { typ, body: at + 16, end: at + size }]
                + boxes_in(data, at + size, end)
        }),
{
    lemma_long_head(data, at, typ, high, low);
}

/// A box with a declared size of 0 is the last one, and reaches to the end.
pub proof fn law_box_without_size_is_the_last(data: Seq<u8>, at: int, end: int, typ: Seq<u8>)
    requires
        typ.len() == 4,
        holds_at(data, at, be32_bytes(0) + typ),
        at + 8 <= end <= data.len(),
    ensures
        boxes_in(data, at, end) == seq![BoxRange { typ, body: at + 8, end }],
{
    lemma_holds_piece(data, at, be32_bytes(0), typ);
    lemma_be32_at(data, at, 0);
    let last = BoxRange { typ, body: at + 8, end };
    assert(boxes_from(data, end, end) =~= Seq::<BoxRange>::empty());
    assert(seq![last] + Seq::<BoxRange>::empty() =~= seq![last]);
}

/// A box that declares more than there is is the last one, and cut off at the end; one that
/// declares less than its header ends the list.
pub proof fn law_boxes_with_wrong_sizes(
    data: Seq<u8>,
    at: int,
    end: int,
    typ: Seq<u8>,
    size: int,
)
    requires
        typ.len() == 4,
        2 <= size < 0x1_0000_0000,
        holds_at(data, at, be32_bytes(size) + typ),
        at + 8 <= end <= data.len(),
    ensures
        size < 8 ==> boxes_in(data, at, end) == Seq::<BoxRange>::empty(),
        size >= end - at ==> boxes_in(data, at, end) == (if size >= 8 {
            seq![BoxRange { typ, body: at + 8, end }]
        } else {
            Seq::empty()
        }),
{
    lemma_holds_piece(data, at, be32_bytes(size), typ);
    lemma_be32_at(data, at, size);
    let last = BoxRange { typ, body: at + 8, end };
    if size >= end - at && size >= 8 {
        assert(boxes_from(data, at + size, end) =~= Seq::<BoxRange>::empty());
        assert(seq![last] + Seq::<BoxRange>::empty() =~= seq![last]);
    }
}

/// A metadata box with a long size is found, behind its version and flags.
pub proof fn law_long_meta_box_is_found(raw: Seq<u8>, at: int, high: int, low: int)
    requires
        0 <= high < 0x1_0000_0000,
        0 <= low < 0x1_0000_0000,
        holds_at(raw, at, long_head(META@, high, low)),
        20 <= 0x1_0000_0000 * high + low <= raw.len() - at,
    ensures
        meta_from(raw, at) == Some((at + 20, at + (0x1_0000_0000 * high + low))),
{
    lemma_long_head(raw, at, META@, high, low);
}

/// A metadata box with a declared size of 0 reaches to the end of the file.
pub proof fn law_meta_box_without_size_is_found(raw: Seq<u8>, at: int)
    requires
        holds_at(raw, at, be32_bytes(0) + META@),
        at + 12 <= raw.len(),
    ensures
        meta_from(raw, at) == Some((at + 12, raw.len() as int)),
{
    lemma_holds_piece(raw, at, be32_bytes(0), META@);
    lemma_be32_at(raw, at, 0);
    assert(matches_at(raw, META@, at + 4));
}

/// A box of another type with a long size is passed over in search of the metadata box.
pub proof fn law_long_box_is_passed_over(
    raw: Seq<u8>,
    at: int,
    typ: Seq<u8>,
    high: int,
    low: int,
)
    requires
        typ.len() == 4,
        typ != META@,
        0 <= high < 0x1_0000_0000,
        0 <= low < 0x1_0000_0000,
        holds_at(raw, at, long_head(typ, high, low)),
        16 <= 0x1_0000_0000 * high + low,
    ensures
        meta_from(raw, at) == meta_from(raw, at + (0x1_0000_0000 * high + low)),
{
    lemma_long_head(raw, at, typ, high, low);
    if matches_at(raw, META@, at + 4) {
        assert(raw.subrange(at + 4, at + 8) =~= META@);
    }
}

/// Association entries that are announced but cut off do not count; those before them do.
pub proof fn law_cut_off_entries_do_not_count(
    meta: Seq<u8>,
    p: int,
    list: Seq<AssociationEntry>,
    n: int,
    wide_id: bool,
    wide_index: bool,
)
    requires
        forall|i: int| 0 <= i < list.len() ==> is_entry(#[trigger] list[i], wide_id, wide_index),
        holds_at(meta, p, entries_bytes(list, wide_id, wide_index)),
        n >= list.len(),
        meta.len() < p + entries_bytes(list, wide_id, wide_index).len() + 3,
    ensures
        associations_from(meta, p, n, wide_id, wide_index) == associations_from(
            meta,
            p,
            list.len() as int,
            wide_id,
            wide_index,
        ),
    decreases list.len(),
{
    if list.len() == 0 {
        assert(associations_from(meta, p, n, wide_id, wide_index) =~= Seq::empty());
        assert(associations_from(meta, p, 0, wide_id, wide_index) =~= Seq::empty());
    } else {
        let rest = list.skip(1);
        let first = entry_bytes(list[0], wide_id, wide_index);
        assert(is_entry(list[0], wide_id, wide_index));
        lemma_holds_piece(meta, p, first, entries_bytes(rest, wide_id, wide_index));
        lemma_entry_at(meta, p, list[0], wide_id, wide_index);
        assert forall|i: int| 0 <= i < rest.len() implies is_entry(
            #[trigger] rest[i],
            wide_id,
            wide_index,
        ) by {
            assert(rest[i] == list[i + 1]);
        }
        law_cut_off_entries_do_not_count(
            meta,
            p + first.len(),
            rest,
            n - 1,
            wide_id,
            wide_index,
        );
    }
}

/// An item entry of a version below 2 gives the item's number, and four zeros as its type.
pub proof fn law_old_entries_have_no_type(meta: Seq<u8>, range: BoxRange, version: u8, id: u16)
    requires
        range.typ == INFE@,
        version < 2,
        range.body + 6 <= range.end,
        holds_at(meta, range.body, seq![version, 0u8, 0, 0] + be16_bytes(id as int)),
    ensures
        entry_items(meta, seq![range], 0).len() == 1,
        entry_items(meta, seq![range], 0)[0].id == id,
        entry_items(meta, seq![range], 0)[0].typ == seq![0u8, 0, 0, 0],
{
    let b = range.body;
    lemma_holds_piece(meta, b, seq![version, 0u8, 0, 0], be16_bytes(id as int));
    lemma_be16_at(meta, b + 4, id as int);
    assert(meta.subrange(b, b + 4)[0] == meta[b]);
    reveal_with_fuel(entry_items, 2);
}

} // verus!
