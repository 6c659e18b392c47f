//! Metadata boxes with two boxes of one type: what both hold counts, in order.

use vstd::prelude::*;

use crate::bmff::{boxes_in, BoxRange};
use crate::heic::{
    box_references, entry_items, inner_properties, items_of, joined, listed_items,
    listed_properties, listed_references, no_properties, properties_of, references_of, Item,
    ItemProperties, Reference,
};
use crate::heic_laws::{
    are_boxes, are_properties_of, boxes_bytes, can_write_properties, entry_boxes, is_association_of,
    is_range_of, items_head, law_boxes_read_back, lemma_items_in, lemma_properties_in,
    lemma_references_in, property_boxes, reference_boxes, AssociationEntry, FileBox,
};
use crate::tags::{IINF, IPRP, IREF};

verus! {

/// Boxes `k` and `l` are the ones of type `typ`.
pub open spec fn is_pair(list: Seq<FileBox>, typ: Seq<u8>, k: int, l: int) -> bool {
    &&& 0 <= k < l < list.len()
    &&& list[k].typ == typ
    &&& list[l].typ == typ
    &&& forall|j: int|
        0 <= j < list.len() && j != k && j != l ==> (#[trigger] list[j]).typ != typ
}

/// Ranges `k` and `l` are the ones of type `typ`.
spec fn is_range_pair(ranges: Seq<BoxRange>, typ: Seq<u8>, k: int, l: int) -> bool {
    &&& 0 <= k < l < ranges.len()
    &&& ranges[k].typ == typ
    &&& ranges[l].typ == typ
    &&& forall|j: int|
        0 <= j < ranges.len() && j != k && j != l ==> (#[trigger] ranges[j]).typ != typ
}

proof fn lemma_pair(meta: Seq<u8>, list: Seq<FileBox>, typ: Seq<u8>, k: int, l: int)
    requires
        are_boxes(list),
        meta == boxes_bytes(list),
        is_pair(list, typ, k, l),
    ensures
        ({
            let ranges = boxes_in(meta, 0, meta.len() as int);
            &&& is_range_pair(ranges, typ, k, l)
            &&& is_range_of(meta, ranges[k], list[k])
            &&& is_range_of(meta, ranges[l], list[l])
        }),
{
    assert(meta.subrange(0, meta.len() as int) =~= meta);
    law_boxes_read_back(meta, 0, list);
    let ranges = boxes_in(meta, 0, meta.len() as int);
    assert(is_range_of(meta, ranges[k], list[k]));
    assert(is_range_of(meta, ranges[l], list[l]));
    assert forall|j: int| 0 <= j < ranges.len() && j != k && j != l implies (
    #[trigger] ranges[j]).typ != typ by {
        assert(is_range_of(meta, ranges[j], list[j]));
        assert(list[j].typ != typ);
    }
}

proof fn lemma_skip_items(meta: Seq<u8>, ranges: Seq<BoxRange>, i: int, n: int)
    requires
        0 <= i <= n <= ranges.len(),
        forall|j: int| i <= j < n ==> (#[trigger] ranges[j]).typ != IINF@,
    ensures
        listed_items(meta, ranges, i) == listed_items(meta, ranges, n),
    decreases n - i,
{
    if i < n {
        assert(ranges[i].typ != IINF@);
        lemma_skip_items(meta, ranges, i + 1, n);
    }
}

/// What an item information box at `range` adds.
spec fn items_at(meta: Seq<u8>, range: BoxRange, version: u8, count: int) -> Seq<Item> {
    entry_items(
        meta,
        boxes_in(meta, range.body + items_head(version, count).len(), range.end),
        0,
    )
}

proof fn lemma_two_items(
    meta: Seq<u8>,
    ranges: Seq<BoxRange>,
    k: int,
    l: int,
    version: u8,
    count: int,
)
    requires
        is_range_pair(ranges, IINF@, k, l),
        forall|j: int|
            j == k || j == l ==> 0 <= (#[trigger] ranges[j]).body && ranges[j].body + items_head(
                version,
                count,
            ).len() <= ranges[j].end <= meta.len() && meta[ranges[j].body] == version,
    ensures
        listed_items(meta, ranges, 0) == items_at(meta, ranges[k], version, count) + items_at(
            meta,
            ranges[l],
            version,
            count,
        ),
{
    let n = ranges.len() as int;
    lemma_skip_items(meta, ranges, 0, k);
    lemma_skip_items(meta, ranges, k + 1, l);
    lemma_skip_items(meta, ranges, l + 1, n);
    assert(0 <= ranges[k].body && 0 <= ranges[l].body);
    let (a, b) = (
        items_at(meta, ranges[k], version, count),
        items_at(meta, ranges[l], version, count),
    );
    let none = Seq::<Item>::empty();
    assert(listed_items(meta, ranges, n) == none);
    assert(listed_items(meta, ranges, l) == b + none);
    assert(listed_items(meta, ranges, k) == a + (b + none));
    assert(a + (b + none) =~= a + b);
}

/// Two item information boxes give the items of the first and then those of the second.
pub proof fn law_items_of_two_boxes(
    meta: Seq<u8>,
    list: Seq<FileBox>,
    k: int,
    l: int,
    version: u8,
    count: int,
    items: Seq<Item>,
    names: Seq<Seq<u8>>,
    more: Seq<Item>,
    more_names: Seq<Seq<u8>>,
)
    requires
        are_boxes(list),
        meta == boxes_bytes(list),
        is_pair(list, IINF@, k, l),
        forall|j: int| 0 <= j < items.len() ==> (#[trigger] items[j]).typ.len() == 4,
        forall|j: int| 0 <= j < more.len() ==> (#[trigger] more[j]).typ.len() == 4,
        are_boxes(entry_boxes(items, names)),
        are_boxes(entry_boxes(more, more_names)),
        list[k].body == items_head(version, count) + boxes_bytes(entry_boxes(items, names)),
        list[l].body == items_head(version, count) + boxes_bytes(entry_boxes(more, more_names)),
    ensures
        items_of(meta) == items + more,
{
    let ranges = boxes_in(meta, 0, meta.len() as int);
    lemma_pair(meta, list, IINF@, k, l);
    lemma_items_in(meta, ranges[k], list[k], version, count, items, names);
    lemma_items_in(meta, ranges[l], list[l], version, count, more, more_names);
    lemma_two_items(meta, ranges, k, l, version, count);
}

proof fn lemma_skip_references(meta: Seq<u8>, ranges: Seq<BoxRange>, i: int, n: int)
    requires
        0 <= i <= n <= ranges.len(),
        forall|j: int| i <= j < n ==> (#[trigger] ranges[j]).typ != IREF@,
    ensures
        listed_references(meta, ranges, i) == listed_references(meta, ranges, n),
    decreases n - i,
{
    if i < n {
        assert(ranges[i].typ != IREF@);
        lemma_skip_references(meta, ranges, i + 1, n);
    }
}

proof fn lemma_two_references(meta: Seq<u8>, ranges: Seq<BoxRange>, k: int, l: int)
    requires
        is_range_pair(ranges, IREF@, k, l),
        ranges[k].body + 4 <= ranges[k].end,
        ranges[l].body + 4 <= ranges[l].end,
    ensures
        listed_references(meta, ranges, 0) == box_references(
            meta,
            boxes_in(meta, ranges[k].body + 4, ranges[k].end),
            0,
        ) + box_references(meta, boxes_in(meta, ranges[l].body + 4, ranges[l].end), 0),
{
    let n = ranges.len() as int;
    lemma_skip_references(meta, ranges, 0, k);
    lemma_skip_references(meta, ranges, k + 1, l);
    lemma_skip_references(meta, ranges, l + 1, n);
    let a = box_references(meta, boxes_in(meta, ranges[k].body + 4, ranges[k].end), 0);
    let b = box_references(meta, boxes_in(meta, ranges[l].body + 4, ranges[l].end), 0);
    let none = Seq::<Reference>::empty();
    assert(listed_references(meta, ranges, n) == none);
    assert(listed_references(meta, ranges, l) == b + none);
    assert(listed_references(meta, ranges, k) == a + (b + none));
    assert(a + (b + none) =~= a + b);
}

/// Two item reference boxes give the references of the first and then those of the second.
pub proof fn law_references_of_two_boxes(
    meta: Seq<u8>,
    list: Seq<FileBox>,
    k: int,
    l: int,
    refs: Seq<Reference>,
    more: Seq<Reference>,
)
    requires
        are_boxes(list),
        meta == boxes_bytes(list),
        is_pair(list, IREF@, k, l),
        forall|j: int| 0 <= j < refs.len() ==> (#[trigger] refs[j]).to.len() < 0x1_0000,
        forall|j: int| 0 <= j < more.len() ==> (#[trigger] more[j]).to.len() < 0x1_0000,
        are_boxes(reference_boxes(refs)),
        are_boxes(reference_boxes(more)),
        list[k].body == seq![0u8, 0, 0, 0] + boxes_bytes(reference_boxes(refs)),
        list[l].body == seq![0u8, 0, 0, 0] + boxes_bytes(reference_boxes(more)),
    ensures
        references_of(meta) == refs + more,
{
    let ranges = boxes_in(meta, 0, meta.len() as int);
    lemma_pair(meta, list, IREF@, k, l);
    lemma_references_in(meta, ranges[k], list[k], refs);
    lemma_references_in(meta, ranges[l], list[l], more);
    lemma_two_references(meta, ranges, k, l);
}

proof fn lemma_skip_properties(meta: Seq<u8>, ranges: Seq<BoxRange>, i: int, n: int)
    requires
        0 <= i <= n <= ranges.len(),
        forall|j: int| i <= j < n ==> (#[trigger] ranges[j]).typ != IPRP@,
    ensures
        listed_properties(meta, ranges, n) == listed_properties(meta, ranges, i),
    decreases n - i,
{
    if i < n {
        assert(ranges[n - 1].typ != IPRP@);
        lemma_skip_properties(meta, ranges, i, n - 1);
    }
}

/// What an item properties box at `range` adds.
spec fn properties_at(meta: Seq<u8>, range: BoxRange) -> ItemProperties {
    let inner = boxes_in(meta, range.body, range.end);
    inner_properties(meta, inner, inner.len() as int)
}

proof fn lemma_two_properties(meta: Seq<u8>, ranges: Seq<BoxRange>, k: int, l: int)
    requires
        is_range_pair(ranges, IPRP@, k, l),
    ensures
        ({
            let all = listed_properties(meta, ranges, ranges.len() as int);
            let (a, b) = (properties_at(meta, ranges[k]), properties_at(meta, ranges[l]));
            &&& all.properties == a.properties + b.properties
            &&& all.associations == a.associations + b.associations
        }),
{
    let n = ranges.len() as int;
    lemma_skip_properties(meta, ranges, 0, k);
    lemma_skip_properties(meta, ranges, k + 1, l);
    lemma_skip_properties(meta, ranges, l + 1, n);
    let (a, b) = (properties_at(meta, ranges[k]), properties_at(meta, ranges[l]));
    assert(listed_properties(meta, ranges, 0) == no_properties());
    assert(listed_properties(meta, ranges, k + 1) == joined(no_properties(), a));
    let all = joined(joined(no_properties(), a), b);
    assert(listed_properties(meta, ranges, l + 1) == all);
    assert(all.properties =~= a.properties + b.properties);
    assert(all.associations =~= a.associations + b.associations);
}

/// Two item properties boxes give the properties and associations of the first and then those of
/// the second; the numbers of properties count on.
pub proof fn law_properties_of_two_boxes(
    meta: Seq<u8>,
    list: Seq<FileBox>,
    k: int,
    l: int,
    version: u8,
    flags: (u8, u8, u8),
    props: Seq<FileBox>,
    entries: Seq<AssociationEntry>,
    more: Seq<FileBox>,
    more_entries: Seq<AssociationEntry>,
)
    requires
        are_boxes(list),
        meta == boxes_bytes(list),
        is_pair(list, IPRP@, k, l),
        can_write_properties(props, version, flags, entries),
        can_write_properties(more, version, flags, more_entries),
        list[k].body == boxes_bytes(property_boxes(props, version, flags, entries)),
        list[l].body == boxes_bytes(property_boxes(more, version, flags, more_entries)),
    ensures
        are_properties_of(
            meta,
            properties_of(meta),
            props + more,
            entries + more_entries,
            flags.2 % 2 == 1,
        ),
{
    let ranges = boxes_in(meta, 0, meta.len() as int);
    let wide_index = flags.2 % 2 == 1;
    lemma_pair(meta, list, IPRP@, k, l);
    lemma_properties_in(meta, ranges[k], list[k], props, version, flags, entries);
    lemma_properties_in(meta, ranges[l], list[l], more, version, flags, more_entries);
    lemma_two_properties(meta, ranges, k, l);
    let all = properties_of(meta);
    let (a, b) = (properties_at(meta, ranges[k]), properties_at(meta, ranges[l]));
    assert(all == listed_properties(meta, ranges, ranges.len() as int));
    assert forall|i: int| 0 <= i < (props + more).len() implies is_range_of(
        meta,
        #[trigger] all.properties[i],
        (props + more)[i],
    ) by {
        if i < props.len() {
            assert(all.properties[i] == a.properties[i]);
        } else {
            assert(all.properties[i] == b.properties[i - props.len()]);
        }
    }
    assert forall|i: int| 0 <= i < (entries + more_entries).len() implies is_association_of(
        #[trigger] all.associations[i],
        (entries + more_entries)[i],
        wide_index,
    ) by {
        if i < entries.len() {
            assert(all.associations[i] == a.associations[i]);
        } else {
            assert(all.associations[i] == b.associations[i - entries.len()]);
        }
    }
}

} // verus!
