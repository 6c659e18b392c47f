//! Metadata boxes of HEIC files that are written read back, and lead to the gain map item.

use vstd::prelude::*;

use crate::bmff::{boxes_in, least, BoxRange};
use crate::bytes::{
    be16_bytes, be32_bytes, lemma_be16_round_trip, lemma_be32_round_trip, u16_be, u32_be,
};
use crate::heic::{
    association_at, association_end, associations_from, box_associations, box_properties,
    box_reference, box_references, entry_item, entry_items, inner_properties, items_of, joined,
    listed_items, listed_properties, listed_references, no_properties, primary_from, primary_of,
    properties_of, references_of, Association, Item, ItemProperties, Reference,
};
use crate::tags::{IINF, INFE, IPCO, IPMA, IPRP, IREF, PITM};

verus! {

/// A box: its type and its body.
pub struct FileBox {
    pub typ: Seq<u8>,
    pub body: Seq<u8>,
}

/// The bytes of a box: its size, its type and its body.
pub open spec fn box_bytes(b: FileBox) -> Seq<u8> {
    be32_bytes(b.body.len() as int + 8) + b.typ + b.body
}

/// The bytes of boxes in a row.
pub open spec fn boxes_bytes(list: Seq<FileBox>) -> Seq<u8>
    decreases list.len(),
{
    if list.len() == 0 {
        Seq::empty()
    } else {
        box_bytes(list[0]) + boxes_bytes(list.skip(1))
    }
}

/// Boxes whose types and sizes can be written.
pub open spec fn are_boxes(list: Seq<FileBox>) -> bool {
    forall|i: int|
        0 <= i < list.len() ==> (#[trigger] list[i]).typ.len() == 4 && list[i].body.len() + 8
            < 0x1_0000_0000
}

/// Where box `i` begins, counted from the first one.
pub open spec fn box_start(list: Seq<FileBox>, i: int) -> int
    decreases i,
{
    if i <= 0 {
        0
    } else {
        box_start(list, i - 1) + 8 + list[i - 1].body.len()
    }
}

/// `data` holds `part` at `at`.
pub open spec fn holds_at(data: Seq<u8>, at: int, part: Seq<u8>) -> bool {
    &&& 0 <= at
    &&& at + part.len() <= data.len()
    &&& data.subrange(at, at + part.len()) == part
}

/// `range` is where `b` stands in `data`.
pub open spec fn is_range_of(data: Seq<u8>, range: BoxRange, b: FileBox) -> bool {
    &&& range.typ == b.typ
    &&& range.end == range.body + b.body.len()
    &&& holds_at(data, range.body, b.body)
}

pub(crate) proof fn lemma_holds_piece(data: Seq<u8>, at: int, a: Seq<u8>, b: Seq<u8>)
    requires
        holds_at(data, at, a + b),
    ensures
        holds_at(data, at, a),
        holds_at(data, at + a.len(), b),
{
    let whole = data.subrange(at, at + (a + b).len());
    assert(whole.subrange(0, a.len() as int) =~= a);
    assert(whole.subrange(a.len() as int, whole.len() as int) =~= b);
    assert(data.subrange(at, at + a.len()) =~= whole.subrange(0, a.len() as int));
    assert(data.subrange(at + a.len(), at + a.len() + b.len()) =~= whole.subrange(
        a.len() as int,
        whole.len() as int,
    ));
}

proof fn lemma_start_shift(list: Seq<FileBox>, i: int)
    requires
        0 <= i < list.len(),
    ensures
        box_start(list, i + 1) == 8 + list[0].body.len() + box_start(list.skip(1), i),
    decreases i,
{
    reveal_with_fuel(box_start, 2);
    if i > 0 {
        lemma_start_shift(list, i - 1);
        assert(list.skip(1)[i - 1] == list[i]);
    }
}

pub(crate) proof fn lemma_be32_at(data: Seq<u8>, at: int, n: int)
    requires
        0 <= n < 0x1_0000_0000,
        holds_at(data, at, be32_bytes(n)),
    ensures
        u32_be(data, at) == n,
        at + 4 <= data.len(),
{
    let b = be32_bytes(n);
    let s = data.subrange(at, at + 4);
    lemma_be32_round_trip(n);
    assert(s[0] == b[0] && s[1] == b[1] && s[2] == b[2] && s[3] == b[3]);
    assert(s[0] == data[at] && s[1] == data[at + 1] && s[2] == data[at + 2] && s[3] == data[at
        + 3]);
}

pub(crate) proof fn lemma_be16_at(data: Seq<u8>, at: int, n: int)
    requires
        0 <= n < 0x1_0000,
        holds_at(data, at, be16_bytes(n)),
    ensures
        u16_be(data, at) == n,
        at + 2 <= data.len(),
{
    let b = be16_bytes(n);
    let s = data.subrange(at, at + 2);
    lemma_be16_round_trip(n);
    assert(s[0] == b[0] && s[1] == b[1]);
    assert(s[0] == data[at] && s[1] == data[at + 1]);
}

/// Boxes that are written in a row read back, wherever they stand: all of them, in order, with
/// their types and bodies.
pub proof fn law_boxes_read_back(data: Seq<u8>, at: int, list: Seq<FileBox>)
    requires
        are_boxes(list),
        holds_at(data, at, boxes_bytes(list)),
    ensures
        ({
            let ranges = boxes_in(data, at, at + boxes_bytes(list).len());
            &&& ranges.len() == list.len()
            &&& forall|i: int|
                0 <= i < list.len() ==> is_range_of(data, #[trigger] ranges[i], list[i])
                    && ranges[i].body == at + box_start(list, i) + 8
        }),
    decreases list.len(),
{
    let end = at + boxes_bytes(list).len();
    let ranges = boxes_in(data, at, end);
    assert(least(end, data.len() as int) == end);
    if list.len() > 0 {
        let (b, rest) = (list[0], list.skip(1));
        let size = b.body.len() as int + 8;
        assert(b.typ.len() == 4);
        lemma_holds_piece(data, at, box_bytes(b), boxes_bytes(rest));
        lemma_holds_piece(data, at, be32_bytes(size) + b.typ, b.body);
        lemma_holds_piece(data, at, be32_bytes(size), b.typ);
        lemma_be32_at(data, at, size);
        assert forall|i: int| 0 <= i < rest.len() implies (#[trigger] rest[i]).typ.len() == 4
            && rest[i].body.len() + 8 < 0x1_0000_0000 by {
            assert(rest[i] == list[i + 1]);
        }
        law_boxes_read_back(data, at + size, rest);
        let others = boxes_in(data, at + size, end);
        let first = BoxRange { typ: data.subrange(at + 4, at + 8), body: at + 8, end: at + size };
        assert(ranges == seq![first] + others);
        assert forall|i: int| 0 <= i < list.len() implies is_range_of(
            data,
            #[trigger] ranges[i],
            list[i],
        ) && ranges[i].body == at + box_start(list, i) + 8 by {
            if i > 0 {
                lemma_start_shift(list, i - 1);
                assert(ranges[i] == others[i - 1]);
                assert(rest[i - 1] == list[i]);
            }
        }
    } else {
        assert(ranges =~= Seq::empty());
    }
}

/// Box `i` is the only one of type `typ`.
pub open spec fn is_only(list: Seq<FileBox>, typ: Seq<u8>, i: int) -> bool {
    &&& 0 <= i < list.len()
    &&& list[i].typ == typ
    &&& forall|j: int| 0 <= j < list.len() && j != i ==> (#[trigger] list[j]).typ != typ
}

/// Where the only box of its type stands in a metadata box.
proof fn lemma_only(meta: Seq<u8>, list: Seq<FileBox>, typ: Seq<u8>, k: int)
    requires
        are_boxes(list),
        meta == boxes_bytes(list),
        is_only(list, typ, k),
    ensures
        ({
            let ranges = boxes_in(meta, 0, meta.len() as int);
            &&& ranges.len() == list.len()
            &&& is_range_of(meta, ranges[k], list[k])
            &&& forall|j: int|
                0 <= j < ranges.len() && j != k ==> (#[trigger] ranges[j]).typ != typ
        }),
{
    assert(meta.subrange(0, meta.len() as int) =~= meta);
    law_boxes_read_back(meta, 0, list);
    let ranges = boxes_in(meta, 0, meta.len() as int);
    assert forall|j: int| 0 <= j < ranges.len() && j != k implies (#[trigger] ranges[j]).typ
        != typ by {
        assert(is_range_of(meta, ranges[j], list[j]));
        assert(list[j].typ != typ);
    }
    assert(is_range_of(meta, ranges[k], list[k]));
}

/// An item entry of version 2: the item's number and type, and a name.
pub open spec fn entry_box(item: Item, name: Seq<u8>) -> FileBox {
    FileBox {
        typ: INFE@,
        body: seq![2u8, 0, 0, 0] + be16_bytes(item.id as int) + seq![0u8, 0] + item.typ + name,
    }
}

/// The entries of items, with a name each.
pub open spec fn entry_boxes(items: Seq<Item>, names: Seq<Seq<u8>>) -> Seq<FileBox> {
    Seq::new(items.len(), |i: int| entry_box(items[i], names[i]))
}

proof fn lemma_entry(meta: Seq<u8>, range: BoxRange, item: Item, name: Seq<u8>)
    requires
        item.typ.len() == 4,
        is_range_of(meta, range, entry_box(item, name)),
    ensures
        range.typ == INFE@,
        range.body + 12 <= range.end,
        entry_item(meta, range) == item,
{
    let b = range.body;
    let id = be16_bytes(item.id as int);
    lemma_holds_piece(meta, b, seq![2u8, 0, 0, 0] + id + seq![0u8, 0] + item.typ, name);
    lemma_holds_piece(meta, b, seq![2u8, 0, 0, 0] + id + seq![0u8, 0], item.typ);
    lemma_holds_piece(meta, b, seq![2u8, 0, 0, 0] + id, seq![0u8, 0]);
    lemma_holds_piece(meta, b, seq![2u8, 0, 0, 0], id);
    lemma_be16_at(meta, b + 4, item.id as int);
    assert(meta[b] == meta.subrange(b, b + 4)[0]);
    assert(entry_item(meta, range).typ == item.typ);
}

proof fn lemma_entries(
    meta: Seq<u8>,
    ranges: Seq<BoxRange>,
    items: Seq<Item>,
    names: Seq<Seq<u8>>,
    i: int,
)
    requires
        0 <= i <= items.len(),
        ranges.len() == items.len(),
        forall|j: int| 0 <= j < items.len() ==> (#[trigger] items[j]).typ.len() == 4,
        forall|j: int|
            0 <= j < items.len() ==> is_range_of(
                meta,
                #[trigger] ranges[j],
                entry_box(items[j], names[j]),
            ),
    ensures
        entry_items(meta, ranges, i) == items.skip(i),
    decreases items.len() - i,
{
    if i < items.len() {
        assert(items[i].typ.len() == 4);
        lemma_entry(meta, ranges[i], items[i], names[i]);
        lemma_entries(meta, ranges, items, names, i + 1);
        assert(seq![items[i]] + items.skip(i + 1) =~= items.skip(i));
    } else {
        assert(entry_items(meta, ranges, i) =~= items.skip(i));
    }
}

proof fn lemma_entries_at(meta: Seq<u8>, at: int, items: Seq<Item>, names: Seq<Seq<u8>>)
    requires
        forall|j: int| 0 <= j < items.len() ==> (#[trigger] items[j]).typ.len() == 4,
        are_boxes(entry_boxes(items, names)),
        holds_at(meta, at, boxes_bytes(entry_boxes(items, names))),
    ensures
        entry_items(
            meta,
            boxes_in(meta, at, at + boxes_bytes(entry_boxes(items, names)).len()),
            0,
        ) == items,
{
    let entries = entry_boxes(items, names);
    law_boxes_read_back(meta, at, entries);
    let inner = boxes_in(meta, at, at + boxes_bytes(entries).len());
    assert forall|j: int| 0 <= j < items.len() implies is_range_of(
        meta,
        #[trigger] inner[j],
        entry_box(items[j], names[j]),
    ) by {
        assert(entries[j] == entry_box(items[j], names[j]));
    }
    lemma_entries(meta, inner, items, names, 0);
    assert(items.skip(0) =~= items);
}

/// The head of an item information box: version, flags, and a count, which is short in version 0.
pub open spec fn items_head(version: u8, count: int) -> Seq<u8> {
    if version == 0 {
        seq![0u8, 0, 0, 0] + be16_bytes(count)
    } else {
        seq![version, 0u8, 0, 0] + be32_bytes(count)
    }
}

proof fn lemma_one_listed_items(
    meta: Seq<u8>,
    ranges: Seq<BoxRange>,
    version: u8,
    count: int,
    k: int,
    i: int,
)
    requires
        0 <= k < ranges.len(),
        0 <= i,
        ranges[k].typ == IINF@,
        ranges[k].body + items_head(version, count).len() <= ranges[k].end <= meta.len(),
        0 <= ranges[k].body,
        meta[ranges[k].body] == version,
        forall|j: int| 0 <= j < ranges.len() && j != k ==> (#[trigger] ranges[j]).typ != IINF@,
    ensures
        i > k ==> listed_items(meta, ranges, i) == Seq::<Item>::empty(),
        i <= k ==> listed_items(meta, ranges, i) == entry_items(
            meta,
            boxes_in(
                meta,
                ranges[k].body + items_head(version, count).len(),
                ranges[k].end,
            ),
            0,
        ),
    decreases ranges.len() - i,
{
    if i < ranges.len() {
        lemma_one_listed_items(meta, ranges, version, count, k, i + 1);
        if i == k {
            let entries = entry_items(
                meta,
                boxes_in(
                    meta,
                    ranges[k].body + items_head(version, count).len(),
                    ranges[k].end,
                ),
                0,
            );
            assert(entries + Seq::<Item>::empty() =~= entries);
        } else {
            assert(ranges[i].typ != IINF@);
        }
    }
}

pub(crate) proof fn lemma_items_in(
    meta: Seq<u8>,
    range: BoxRange,
    b: FileBox,
    version: u8,
    count: int,
    items: Seq<Item>,
    names: Seq<Seq<u8>>,
)
    requires
        is_range_of(meta, range, b),
        forall|j: int| 0 <= j < items.len() ==> (#[trigger] items[j]).typ.len() == 4,
        are_boxes(entry_boxes(items, names)),
        b.body == items_head(version, count) + boxes_bytes(entry_boxes(items, names)),
    ensures
        0 <= range.body,
        range.body + items_head(version, count).len() <= range.end <= meta.len(),
        meta[range.body] == version,
        entry_items(
            meta,
            boxes_in(meta, range.body + items_head(version, count).len(), range.end),
            0,
        ) == items,
{
    let head = items_head(version, count);
    let inner = boxes_bytes(entry_boxes(items, names));
    lemma_holds_piece(meta, range.body, head, inner);
    assert(meta.subrange(range.body, range.body + head.len())[0] == meta[range.body]);
    lemma_entries_at(meta, range.body + head.len(), items, names);
    assert(range.end == range.body + head.len() + inner.len());
}

/// The items of a metadata box with one item information box are those that were written, in order.
pub proof fn law_items_read_back(
    meta: Seq<u8>,
    list: Seq<FileBox>,
    k: int,
    version: u8,
    count: int,
    items: Seq<Item>,
    names: Seq<Seq<u8>>,
)
    requires
        are_boxes(list),
        meta == boxes_bytes(list),
        is_only(list, IINF@, k),
        forall|j: int| 0 <= j < items.len() ==> (#[trigger] items[j]).typ.len() == 4,
        are_boxes(entry_boxes(items, names)),
        list[k].body == items_head(version, count) + boxes_bytes(entry_boxes(items, names)),
    ensures
        items_of(meta) == items,
{
    let ranges = boxes_in(meta, 0, meta.len() as int);
    lemma_only(meta, list, IINF@, k);
    lemma_items_in(meta, ranges[k], list[k], version, count, items, names);
    lemma_one_listed_items(meta, ranges, version, count, k, 0);
}

/// Short numbers in a row.
pub open spec fn shorts_bytes(list: Seq<u16>) -> Seq<u8> {
    Seq::new(2 * list.len(), |i: int| be16_bytes(list[i / 2] as int)[i % 2])
}

proof fn lemma_short_at(data: Seq<u8>, at: int, list: Seq<u16>, i: int)
    requires
        holds_at(data, at, shorts_bytes(list)),
        0 <= i < list.len(),
    ensures
        u16_be(data, at + 2 * i) == list[i],
{
    let s = data.subrange(at, at + 2 * list.len());
    let b = be16_bytes(list[i] as int);
    assert(s[2 * i] == b[0] && s[2 * i + 1] == b[1]);
    assert(s[2 * i] == data[at + 2 * i] && s[2 * i + 1] == data[at + 2 * i + 1]);
    lemma_be16_round_trip(list[i] as int);
}

/// A reference box: the referring item, a count, and the items that it refers to.
pub open spec fn reference_box(r: Reference) -> FileBox {
    FileBox {
        typ: r.typ,
        body: be16_bytes(r.from as int) + be16_bytes(r.to.len() as int) + shorts_bytes(r.to),
    }
}

/// The boxes of references.
pub open spec fn reference_boxes(refs: Seq<Reference>) -> Seq<FileBox> {
    Seq::new(refs.len(), |i: int| reference_box(refs[i]))
}

proof fn lemma_reference(meta: Seq<u8>, range: BoxRange, r: Reference)
    requires
        r.to.len() < 0x1_0000,
        is_range_of(meta, range, reference_box(r)),
    ensures
        range.body + 4 <= range.end,
        box_reference(meta, range) == r,
{
    let b = range.body;
    let (from, n) = (be16_bytes(r.from as int), be16_bytes(r.to.len() as int));
    lemma_holds_piece(meta, b, from + n, shorts_bytes(r.to));
    lemma_holds_piece(meta, b, from, n);
    lemma_be16_at(meta, b, r.from as int);
    lemma_be16_at(meta, b + 2, r.to.len() as int);
    let found = box_reference(meta, range);
    assert forall|i: int| 0 <= i < r.to.len() implies found.to[i] == r.to[i] by {
        lemma_short_at(meta, b + 4, r.to, i);
    }
    assert(found.to =~= r.to);
}

proof fn lemma_references(meta: Seq<u8>, ranges: Seq<BoxRange>, refs: Seq<Reference>, i: int)
    requires
        0 <= i <= refs.len(),
        ranges.len() == refs.len(),
        forall|j: int| 0 <= j < refs.len() ==> (#[trigger] refs[j]).to.len() < 0x1_0000,
        forall|j: int|
            0 <= j < refs.len() ==> is_range_of(meta, #[trigger] ranges[j], reference_box(refs[j])),
    ensures
        box_references(meta, ranges, i) == refs.skip(i),
    decreases refs.len() - i,
{
    if i < refs.len() {
        assert(refs[i].to.len() < 0x1_0000);
        lemma_reference(meta, ranges[i], refs[i]);
        lemma_references(meta, ranges, refs, i + 1);
        assert(seq![refs[i]] + refs.skip(i + 1) =~= refs.skip(i));
    } else {
        assert(box_references(meta, ranges, i) =~= refs.skip(i));
    }
}

proof fn lemma_references_at(meta: Seq<u8>, at: int, refs: Seq<Reference>)
    requires
        forall|j: int| 0 <= j < refs.len() ==> (#[trigger] refs[j]).to.len() < 0x1_0000,
        are_boxes(reference_boxes(refs)),
        holds_at(meta, at, boxes_bytes(reference_boxes(refs))),
    ensures
        box_references(
            meta,
            boxes_in(meta, at, at + boxes_bytes(reference_boxes(refs)).len()),
            0,
        ) == refs,
{
    let boxes = reference_boxes(refs);
    law_boxes_read_back(meta, at, boxes);
    let inner = boxes_in(meta, at, at + boxes_bytes(boxes).len());
    assert forall|j: int| 0 <= j < refs.len() implies is_range_of(
        meta,
        #[trigger] inner[j],
        reference_box(refs[j]),
    ) by {
        assert(boxes[j] == reference_box(refs[j]));
    }
    lemma_references(meta, inner, refs, 0);
    assert(refs.skip(0) =~= refs);
}

pub(crate) proof fn lemma_references_in(meta: Seq<u8>, range: BoxRange, b: FileBox, refs: Seq<Reference>)
    requires
        is_range_of(meta, range, b),
        forall|j: int| 0 <= j < refs.len() ==> (#[trigger] refs[j]).to.len() < 0x1_0000,
        are_boxes(reference_boxes(refs)),
        b.body == seq![0u8, 0, 0, 0] + boxes_bytes(reference_boxes(refs)),
    ensures
        range.body + 4 <= range.end,
        box_references(meta, boxes_in(meta, range.body + 4, range.end), 0) == refs,
{
    let inner = boxes_bytes(reference_boxes(refs));
    lemma_holds_piece(meta, range.body, seq![0u8, 0, 0, 0], inner);
    lemma_references_at(meta, range.body + 4, refs);
    assert(range.end == range.body + 4 + inner.len());
}

proof fn lemma_one_listed_references(meta: Seq<u8>, ranges: Seq<BoxRange>, k: int, i: int)
    requires
        0 <= k < ranges.len(),
        0 <= i,
        ranges[k].typ == IREF@,
        ranges[k].body + 4 <= ranges[k].end,
        forall|j: int| 0 <= j < ranges.len() && j != k ==> (#[trigger] ranges[j]).typ != IREF@,
    ensures
        i > k ==> listed_references(meta, ranges, i) == Seq::<Reference>::empty(),
        i <= k ==> listed_references(meta, ranges, i) == box_references(
            meta,
            boxes_in(meta, ranges[k].body + 4, ranges[k].end),
            0,
        ),
    decreases ranges.len() - i,
{
    if i < ranges.len() {
        lemma_one_listed_references(meta, ranges, k, i + 1);
        if i == k {
            let refs = box_references(meta, boxes_in(meta, ranges[k].body + 4, ranges[k].end), 0);
            assert(refs + Seq::<Reference>::empty() =~= refs);
        } else {
            assert(ranges[i].typ != IREF@);
        }
    }
}

/// The references of a metadata box with one item reference box are those that were written, in
/// order.
pub proof fn law_references_read_back(
    meta: Seq<u8>,
    list: Seq<FileBox>,
    k: int,
    refs: Seq<Reference>,
)
    requires
        are_boxes(list),
        meta == boxes_bytes(list),
        is_only(list, IREF@, k),
        forall|j: int| 0 <= j < refs.len() ==> (#[trigger] refs[j]).to.len() < 0x1_0000,
        are_boxes(reference_boxes(refs)),
        list[k].body == seq![0u8, 0, 0, 0] + boxes_bytes(reference_boxes(refs)),
    ensures
        references_of(meta) == refs,
{
    let ranges = boxes_in(meta, 0, meta.len() as int);
    lemma_only(meta, list, IREF@, k);
    lemma_references_in(meta, ranges[k], list[k], refs);
    lemma_one_listed_references(meta, ranges, k, 0);
}

/// An association entry: an item number, and property numbers with their top bits.
pub struct AssociationEntry {
    pub id: int,
    pub numbers: Seq<u16>,
}

/// The entry can be written: its numbers fit their widths.
pub open spec fn is_entry(e: AssociationEntry, wide_id: bool, wide_index: bool) -> bool {
    &&& 0 <= e.id < 0x1_0000_0000
    &&& !wide_id ==> e.id < 0x1_0000
    &&& e.numbers.len() < 0x1_0000
    &&& !wide_index ==> e.numbers.len() < 0x100
    &&& !wide_index ==> forall|i: int| 0 <= i < e.numbers.len() ==> (#[trigger] e.numbers[i]) < 0x100
}

/// The bytes of an association entry.
pub open spec fn entry_bytes(e: AssociationEntry, wide_id: bool, wide_index: bool) -> Seq<u8> {
    let id = if wide_id {
        be32_bytes(e.id)
    } else {
        be16_bytes(e.id)
    };
    if wide_index {
        id + be16_bytes(e.numbers.len() as int) + shorts_bytes(e.numbers)
    } else {
        id + seq![e.numbers.len() as u8] + Seq::new(
            e.numbers.len(),
            |i: int| e.numbers[i] as u8,
        )
    }
}

/// The bytes of association entries in a row.
pub open spec fn entries_bytes(
    list: Seq<AssociationEntry>,
    wide_id: bool,
    wide_index: bool,
) -> Seq<u8>
    decreases list.len(),
{
    if list.len() == 0 {
        Seq::empty()
    } else {
        entry_bytes(list[0], wide_id, wide_index) + entries_bytes(
            list.skip(1),
            wide_id,
            wide_index,
        )
    }
}

/// What an association entry says: the low half of its item number, and its property numbers
/// without their top bit, which marks a property as essential.
pub open spec fn is_association_of(
    a: Association,
    e: AssociationEntry,
    wide_index: bool,
) -> bool {
    &&& a.id == e.id % 0x1_0000
    &&& a.properties.len() == e.numbers.len()
    &&& forall|i: int|
        0 <= i < e.numbers.len() ==> (#[trigger] a.properties[i]) as int == e.numbers[i] as int % (
        if wide_index {
            0x8000int
        } else {
            0x80int
        })
}

pub(crate) proof fn lemma_entry_at(
    meta: Seq<u8>,
    p: int,
    e: AssociationEntry,
    wide_id: bool,
    wide_index: bool,
)
    requires
        is_entry(e, wide_id, wide_index),
        holds_at(meta, p, entry_bytes(e, wide_id, wide_index)),
    ensures
        is_association_of(association_at(meta, p, wide_id, wide_index), e, wide_index),
        association_end(meta, p, wide_id, wide_index) == p + entry_bytes(
            e,
            wide_id,
            wide_index,
        ).len(),
{
    let id = if wide_id {
        be32_bytes(e.id)
    } else {
        be16_bytes(e.id)
    };
    let n = e.numbers.len() as int;
    let at = p + id.len();
    let a = association_at(meta, p, wide_id, wide_index);
    if wide_index {
        lemma_holds_piece(meta, p, id + be16_bytes(n), shorts_bytes(e.numbers));
        lemma_holds_piece(meta, p, id, be16_bytes(n));
        lemma_be16_at(meta, at, n);
        assert forall|i: int| 0 <= i < n implies (#[trigger] a.properties[i]) as int
            == e.numbers[i] as int % 0x8000 by {
            lemma_short_at(meta, at + 2, e.numbers, i);
        }
    } else {
        let bytes = Seq::new(e.numbers.len(), |i: int| e.numbers[i] as u8);
        lemma_holds_piece(meta, p, id + seq![n as u8], bytes);
        lemma_holds_piece(meta, p, id, seq![n as u8]);
        assert(meta[at] == meta.subrange(at, at + 1)[0]);
        assert forall|i: int| 0 <= i < n implies (#[trigger] a.properties[i]) as int
            == e.numbers[i] as int % 0x80 by {
            assert(e.numbers[i] < 0x100);
            assert(meta[at + 1 + i] == meta.subrange(at + 1, at + 1 + n)[i]);
        }
    }
    if wide_id {
        lemma_be32_at(meta, p, e.id);
    } else {
        lemma_be16_at(meta, p, e.id);
    }
}

/// Association entries that are written in a row read back: all of them, in order, for every
/// number of entries and every width of their numbers.
pub proof fn law_association_entries_read_back(
    meta: Seq<u8>,
    p: int,
    list: Seq<AssociationEntry>,
    wide_id: bool,
    wide_index: bool,
)
    requires
        forall|i: int| 0 <= i < list.len() ==> is_entry(#[trigger] list[i], wide_id, wide_index),
        holds_at(meta, p, entries_bytes(list, wide_id, wide_index)),
    ensures
        ({
            let found = associations_from(meta, p, list.len() as int, wide_id, wide_index);
            &&& found.len() == list.len()
            &&& forall|i: int|
                0 <= i < list.len() ==> is_association_of(
                    #[trigger] found[i],
                    list[i],
                    wide_index,
                )
        }),
    decreases list.len(),
{
    if list.len() > 0 {
        let rest = list.skip(1);
        let first = entry_bytes(list[0], wide_id, wide_index);
        assert(is_entry(list[0], wide_id, wide_index));
        lemma_holds_piece(meta, p, first, entries_bytes(rest, wide_id, wide_index));
        lemma_entry_at(meta, p, list[0], wide_id, wide_index);
        assert forall|i: int| 0 <= i < rest.len() implies is_entry(
            #[trigger] rest[i],
            wide_id,
            wide_index,
        ) by {
            assert(rest[i] == list[i + 1]);
        }
        law_association_entries_read_back(meta, p + first.len(), rest, wide_id, wide_index);
        let others = associations_from(
            meta,
            p + first.len(),
            rest.len() as int,
            wide_id,
            wide_index,
        );
        let found = associations_from(meta, p, list.len() as int, wide_id, wide_index);
        assert(found == seq![association_at(meta, p, wide_id, wide_index)] + others);
        assert forall|i: int| 0 <= i < list.len() implies is_association_of(
            #[trigger] found[i],
            list[i],
            wide_index,
        ) by {
            if i > 0 {
                assert(found[i] == others[i - 1]);
                assert(rest[i - 1] == list[i]);
            }
        }
    }
}

/// An item property association box: its version, its flags, the number of entries, and the
/// entries.
pub open spec fn association_body(
    version: u8,
    flags: (u8, u8, u8),
    list: Seq<AssociationEntry>,
) -> Seq<u8> {
    seq![version, flags.0, flags.1, flags.2] + be32_bytes(list.len() as int) + entries_bytes(
        list,
        version >= 1,
        flags.2 % 2 == 1,
    )
}

/// An item property association box reads back as all of its entries, in order, for every number
/// of entries: version 0 has short item numbers, and an odd flag byte means long property numbers.
pub proof fn law_association_box_reads_back(
    meta: Seq<u8>,
    range: BoxRange,
    version: u8,
    flags: (u8, u8, u8),
    list: Seq<AssociationEntry>,
)
    requires
        list.len() < 0x1_0000_0000,
        forall|i: int|
            0 <= i < list.len() ==> is_entry(
                #[trigger] list[i],
                version >= 1,
                flags.2 % 2 == 1,
            ),
        holds_at(meta, range.body, association_body(version, flags, list)),
    ensures
        ({
            let found = box_associations(meta, range);
            &&& found.len() == list.len()
            &&& forall|i: int|
                0 <= i < list.len() ==> is_association_of(
                    #[trigger] found[i],
                    list[i],
                    flags.2 % 2 == 1,
                )
        }),
{
    let head = seq![version, flags.0, flags.1, flags.2];
    let n = list.len() as int;
    let (wide_id, wide_index) = (version >= 1, flags.2 % 2 == 1);
    let at = range.body;
    lemma_holds_piece(
        meta,
        at,
        head + be32_bytes(n),
        entries_bytes(list, wide_id, wide_index),
    );
    lemma_holds_piece(meta, at, head, be32_bytes(n));
    lemma_be32_at(meta, at + 4, n);
    let s = meta.subrange(at, at + 4);
    assert(s[0] == meta[at] && s[3] == meta[at + 3]);
    law_association_entries_read_back(meta, at + 8, list, wide_id, wide_index);
}

/// The properties and associations that were found are those that were written, in order.
pub open spec fn are_properties_of(
    meta: Seq<u8>,
    found: ItemProperties,
    props: Seq<FileBox>,
    list: Seq<AssociationEntry>,
    wide_index: bool,
) -> bool {
    &&& found.properties.len() == props.len()
    &&& forall|i: int|
        0 <= i < props.len() ==> is_range_of(meta, #[trigger] found.properties[i], props[i])
    &&& found.associations.len() == list.len()
    &&& forall|i: int|
        0 <= i < list.len() ==> is_association_of(
            #[trigger] found.associations[i],
            list[i],
            wide_index,
        )
}

/// The boxes of an item properties box: the property container and the association box.
pub open spec fn property_boxes(
    props: Seq<FileBox>,
    version: u8,
    flags: (u8, u8, u8),
    list: Seq<AssociationEntry>,
) -> Seq<FileBox> {
    seq![
        FileBox { typ: IPCO@, body: boxes_bytes(props) },
        FileBox { typ: IPMA@, body: association_body(version, flags, list) },
    ]
}

/// Properties and associations that can be written.
pub open spec fn can_write_properties(
    props: Seq<FileBox>,
    version: u8,
    flags: (u8, u8, u8),
    list: Seq<AssociationEntry>,
) -> bool {
    &&& are_boxes(props)
    &&& are_boxes(property_boxes(props, version, flags, list))
    &&& list.len() < 0x1_0000_0000
    &&& forall|i: int|
        0 <= i < list.len() ==> is_entry(#[trigger] list[i], version >= 1, flags.2 % 2 == 1)
}

proof fn lemma_tags_differ()
    ensures
        IPCO@ != IPMA@,
{
    assert(IPCO@[2] != IPMA@[2]);
}

pub(crate) proof fn lemma_properties_in(
    meta: Seq<u8>,
    range: BoxRange,
    b: FileBox,
    props: Seq<FileBox>,
    version: u8,
    flags: (u8, u8, u8),
    list: Seq<AssociationEntry>,
)
    requires
        is_range_of(meta, range, b),
        can_write_properties(props, version, flags, list),
        b.body == boxes_bytes(property_boxes(props, version, flags, list)),
    ensures
        ({
            let inner = boxes_in(meta, range.body, range.end);
            are_properties_of(
                meta,
                inner_properties(meta, inner, inner.len() as int),
                props,
                list,
                flags.2 % 2 == 1,
            )
        }),
{
    let boxes = property_boxes(props, version, flags, list);
    let inner = boxes_in(meta, range.body, range.end);
    law_boxes_read_back(meta, range.body, boxes);
    assert(is_range_of(meta, inner[0], boxes[0]));
    assert(is_range_of(meta, inner[1], boxes[1]));
    lemma_tags_differ();
    law_boxes_read_back(meta, inner[0].body, props);
    law_association_box_reads_back(meta, inner[1], version, flags, list);
    let first = box_properties(meta, inner[0]);
    let second = box_properties(meta, inner[1]);
    assert(association_body(version, flags, list).len() >= 8);
    reveal_with_fuel(inner_properties, 3);
    let all = inner_properties(meta, inner, 2);
    assert(all == joined(joined(no_properties(), first), second));
    assert(all.properties =~= first.properties);
    assert(all.associations =~= second.associations);
}

proof fn lemma_one_listed_properties(meta: Seq<u8>, ranges: Seq<BoxRange>, k: int, n: int)
    requires
        0 <= k < ranges.len(),
        n <= ranges.len(),
        ranges[k].typ == IPRP@,
        forall|j: int| 0 <= j < ranges.len() && j != k ==> (#[trigger] ranges[j]).typ != IPRP@,
    ensures
        n <= k ==> listed_properties(meta, ranges, n) == no_properties(),
        n > k ==> listed_properties(meta, ranges, n) == ({
            let inner = boxes_in(meta, ranges[k].body, ranges[k].end);
            inner_properties(meta, inner, inner.len() as int)
        }),
    decreases n,
{
    if n > 0 {
        lemma_one_listed_properties(meta, ranges, k, n - 1);
        if n - 1 == k {
            let inner = boxes_in(meta, ranges[k].body, ranges[k].end);
            let found = inner_properties(meta, inner, inner.len() as int);
            let all = joined(no_properties(), found);
            assert(all.properties =~= found.properties);
            assert(all.associations =~= found.associations);
        } else {
            assert(ranges[n - 1].typ != IPRP@);
        }
    }
}

/// The properties and associations of a metadata box with one item properties box are those that
/// were written, in order.
pub proof fn law_properties_read_back(
    meta: Seq<u8>,
    list: Seq<FileBox>,
    k: int,
    props: Seq<FileBox>,
    version: u8,
    flags: (u8, u8, u8),
    entries: Seq<AssociationEntry>,
)
    requires
        are_boxes(list),
        meta == boxes_bytes(list),
        is_only(list, IPRP@, k),
        can_write_properties(props, version, flags, entries),
        list[k].body == boxes_bytes(property_boxes(props, version, flags, entries)),
    ensures
        are_properties_of(meta, properties_of(meta), props, entries, flags.2 % 2 == 1),
{
    let ranges = boxes_in(meta, 0, meta.len() as int);
    lemma_only(meta, list, IPRP@, k);
    lemma_properties_in(meta, ranges[k], list[k], props, version, flags, entries);
    lemma_one_listed_properties(meta, ranges, k, ranges.len() as int);
}

/// The body of a primary item box: a short number in version 0, else a long one.
pub open spec fn primary_body(version: u8, id: int) -> Seq<u8> {
    if version == 0 {
        seq![0u8, 0, 0, 0] + be16_bytes(id)
    } else {
        seq![version, 0u8, 0, 0] + be32_bytes(id)
    }
}

proof fn lemma_primary_in(meta: Seq<u8>, range: BoxRange, b: FileBox, version: u8, id: int)
    requires
        is_range_of(meta, range, b),
        0 <= id < 0x1_0000_0000,
        version == 0 ==> id < 0x1_0000,
        b.body == primary_body(version, id),
    ensures
        range.body >= 0,
        meta[range.body] == version,
        version == 0 ==> range.body + 6 <= meta.len() && u16_be(meta, range.body + 4) == id,
        version != 0 ==> range.body + 8 <= meta.len() && u32_be(meta, range.body + 4) == id,
{
    let at = range.body;
    if version == 0 {
        lemma_holds_piece(meta, at, seq![0u8, 0, 0, 0], be16_bytes(id));
        lemma_be16_at(meta, at + 4, id);
    } else {
        lemma_holds_piece(meta, at, seq![version, 0u8, 0, 0], be32_bytes(id));
        lemma_be32_at(meta, at + 4, id);
    }
    assert(meta[at] == meta.subrange(at, at + 4)[0]);
}

proof fn lemma_first_primary(
    meta: Seq<u8>,
    ranges: Seq<BoxRange>,
    k: int,
    version: u8,
    id: int,
    i: int,
)
    requires
        0 <= i <= k < ranges.len(),
        0 <= id < 0x1_0000_0000,
        ranges[k].typ == PITM@,
        ranges[k].body >= 0,
        meta[ranges[k].body] == version,
        version == 0 ==> ranges[k].body + 6 <= meta.len() && u16_be(meta, ranges[k].body + 4)
            == id,
        version != 0 ==> ranges[k].body + 8 <= meta.len() && u32_be(meta, ranges[k].body + 4)
            == id,
        forall|j: int| 0 <= j < ranges.len() && j != k ==> (#[trigger] ranges[j]).typ != PITM@,
    ensures
        primary_from(meta, ranges, i) matches Some(p) && (version == 0 && id < 0x1_0000 ==> p == id)
            && (version != 0 ==> p == id % 0x1_0000),
    decreases k - i,
{
    if i < k {
        assert(ranges[i].typ != PITM@);
        lemma_first_primary(meta, ranges, k, version, id, i + 1);
    }
}

proof fn lemma_primary_of(
    meta: Seq<u8>,
    ranges: Seq<BoxRange>,
    b: FileBox,
    k: int,
    version: u8,
    id: int,
)
    requires
        0 <= k < ranges.len(),
        is_range_of(meta, ranges[k], b),
        b.typ == PITM@,
        0 <= id < 0x1_0000_0000,
        version == 0 ==> id < 0x1_0000,
        b.body == primary_body(version, id),
        forall|j: int| 0 <= j < ranges.len() && j != k ==> (#[trigger] ranges[j]).typ != PITM@,
    ensures
        primary_from(meta, ranges, 0) matches Some(p) && p == id % 0x1_0000,
{
    lemma_primary_in(meta, ranges[k], b, version, id);
    lemma_first_primary(meta, ranges, k, version, id, 0);
}

/// The primary item of a metadata box with one primary item box is the one that was written; of a
/// long number the low half counts.
pub proof fn law_primary_reads_back(
    meta: Seq<u8>,
    list: Seq<FileBox>,
    k: int,
    version: u8,
    id: int,
)
    requires
        are_boxes(list),
        meta == boxes_bytes(list),
        is_only(list, PITM@, k),
        0 <= id < 0x1_0000_0000,
        version == 0 ==> id < 0x1_0000,
        list[k].body == primary_body(version, id),
    ensures
        primary_of(meta) matches Some(p) && p == id % 0x1_0000,
{
    let ranges = boxes_in(meta, 0, meta.len() as int);
    lemma_only(meta, list, PITM@, k);
    lemma_primary_of(meta, ranges, list[k], k, version, id);
}

} // verus!
