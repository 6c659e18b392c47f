//! Finding the gain map item of a HEIC photo.

use vstd::prelude::*;
use vstd::slice::slice_subrange;

use crate::bmff::{
    bmff_boxes, bmff_meta_range, box_views, boxes_in, boxes_lie_in, least, meta_from, BmffBox,
    BoxRange,
};
use crate::bytes::{
    be_u16, contains, find_at, find_from, lemma_find_from, occurs, read_be16, read_be32, same_bytes,
    u16_be, u32_be,
};
use crate::makernote::{apple_makernote_values, maker_note_from, MakerNote};
use crate::tags::{
    AUXC, AUXL, AUX_GAINMAP, AV01, DIMG, GRID, HEVC, HVC1, IINF, INFE, IPCO, IPMA, IPRP, IREF, PITM,
    TMAP,
};

verus! {

/// An item of the file.
pub struct HeicItem {
    /// Item number.
    pub id: u16,
    /// Item type; zeros where the entry's version has none.
    pub typ: [u8; 4],
}

/// What a `HeicItem` stands for.
pub struct Item {
    pub id: u16,
    pub typ: Seq<u8>,
}

impl View for HeicItem {
    type V = Item;

    open spec fn view(&self) -> Item {
        Item { id: self.id, typ: self.typ@ }
    }
}

/// The items that a list of `HeicItem` stands for.
pub open spec fn item_views(v: Seq<HeicItem>) -> Seq<Item> {
    v.map_values(|i: HeicItem| i@)
}

/// The 16-bit number at `off`, or 0 where the data end before.
pub open spec fn u16_or_zero(meta: Seq<u8>, off: int) -> u16 {
    if off + 2 <= meta.len() {
        u16_be(meta, off) as u16
    } else {
        0
    }
}

/// The item that the entry box `b` describes; its type is given from version 2 on.
pub open spec fn entry_item(meta: Seq<u8>, b: BoxRange) -> Item {
    Item {
        id: u16_or_zero(meta, b.body + 4),
        typ: if meta[b.body] >= 2 && b.body + 12 <= b.end {
            meta.subrange(b.body + 8, b.body + 12)
        } else {
            seq![0u8, 0, 0, 0]
        },
    }
}

/// A box of type `typ` with room for version and flags.
pub open spec fn is_full_box(b: BoxRange, typ: Seq<u8>) -> bool {
    b.typ == typ && b.body + 4 <= b.end
}

/// The items that the entry boxes from number `i` on describe.
pub open spec fn entry_items(meta: Seq<u8>, boxes: Seq<BoxRange>, i: int) -> Seq<Item>
    decreases boxes.len() - i,
{
    if i >= boxes.len() {
        Seq::empty()
    } else if is_full_box(boxes[i], INFE@) {
        seq![entry_item(meta, boxes[i])] + entry_items(meta, boxes, i + 1)
    } else {
        entry_items(meta, boxes, i + 1)
    }
}

/// The items that the item information boxes from number `i` on list. One whose entry count is cut
/// off ends the list.
pub open spec fn listed_items(meta: Seq<u8>, boxes: Seq<BoxRange>, i: int) -> Seq<Item>
    decreases boxes.len() - i,
{
    if i >= boxes.len() {
        Seq::empty()
    } else if !is_full_box(boxes[i], IINF@) {
        listed_items(meta, boxes, i + 1)
    } else if meta[boxes[i].body] != 0 && boxes[i].body + 8 > meta.len() {
        Seq::empty()
    } else {
        let first = boxes[i].body + if meta[boxes[i].body] == 0 {
            6int
        } else {
            8int
        };
        entry_items(meta, boxes_in(meta, first, boxes[i].end), 0) + listed_items(meta, boxes, i + 1)
    }
}

/// The items of a metadata box.
pub open spec fn items_of(meta: Seq<u8>) -> Seq<Item> {
    listed_items(meta, boxes_in(meta, 0, meta.len() as int), 0)
}

/// Whether the box has type `typ` and room for version and flags.
fn full_box(b: &BmffBox, typ: &[u8; 4]) -> (r: bool)
    requires
        b.body <= b.end,
    ensures
        r == is_full_box(b@, typ@),
{
    same_bytes(b.typ.as_slice(), typ.as_slice()) && b.end - b.body >= 4
}

/// Appends the items that the entry boxes describe.
fn append_entries(items: &mut Vec<HeicItem>, meta: &[u8], boxes: &[BmffBox])
    requires
        boxes_lie_in(box_views(boxes@), meta@.len() as int),
    ensures
        item_views(final(items)@) == item_views(old(items)@) + entry_items(
            meta@,
            box_views(boxes@),
            0,
        ),
{
    let ghost views = box_views(boxes@);
    let ghost all = item_views(items@) + entry_items(meta@, views, 0);
    let mut i: usize = 0;
    while i < boxes.len()
        invariant
            i <= boxes@.len(),
            views == box_views(boxes@),
            boxes_lie_in(views, meta@.len() as int),
            all == item_views(items@) + entry_items(meta@, views, i as int),
        decreases boxes@.len() - i,
    {
        assert(views[i as int] == boxes@[i as int]@);
        if full_box(&boxes[i], &INFE) {
            let body: usize = boxes[i].body;
            let end: usize = boxes[i].end;
            let id: u16 = match be_u16(meta, body + 4) {
                Some(id) => id,
                None => 0,
            };
            let typ: [u8; 4] = if meta[body] >= 2 && end - body >= 12 {
                [meta[body + 8], meta[body + 9], meta[body + 10], meta[body + 11]]
            } else {
                [0, 0, 0, 0]
            };
            let item: HeicItem = HeicItem { id, typ };
            let ghost before = item_views(items@);
            let ghost rest = entry_items(meta@, views, i + 1);
            items.push(item);
            proof {
                assert(typ@ =~= entry_item(meta@, views[i as int]).typ);
                assert(item@ == entry_item(meta@, views[i as int]));
                assert(item_views(items@) =~= before + seq![item@]);
                assert(before + (seq![item@] + rest) =~= item_views(items@) + rest);
            }
        }
        i += 1;
    }
    assert(item_views(items@) + entry_items(meta@, views, i as int) =~= item_views(items@));
}

/// The items of a metadata box.
pub fn heic_items(meta: &[u8]) -> (items: Vec<HeicItem>)
    ensures
        item_views(items@) == items_of(meta@),
{
    let mut items: Vec<HeicItem> = Vec::new();
    let boxes: Vec<BmffBox> = bmff_boxes(meta, 0, meta.len());
    let ghost views = box_views(boxes@);
    let mut i: usize = 0;
    assert(item_views(items@) =~= Seq::empty());
    assert(Seq::<Item>::empty() + listed_items(meta@, views, 0) =~= listed_items(meta@, views, 0));
    while i < boxes.len()
        invariant
            i <= boxes@.len(),
            views == box_views(boxes@),
            views == boxes_in(meta@, 0, meta@.len() as int),
            boxes_lie_in(views, meta@.len() as int),
            items_of(meta@) == item_views(items@) + listed_items(meta@, views, i as int),
        decreases boxes@.len() - i,
    {
        assert(views[i as int] == boxes@[i as int]@);
        if full_box(&boxes[i], &IINF) {
            let body: usize = boxes[i].body;
            let version: u8 = meta[body];
            if version != 0 && meta.len() - body < 8 {
                assert(item_views(items@) + Seq::<Item>::empty() =~= item_views(items@));
                return items;
            }
            let first: usize = if version == 0 {
                if meta.len() - body < 6 {
                    meta.len()
                } else {
                    body + 6
                }
            } else {
                body + 8
            };
            let entries: Vec<BmffBox> = bmff_boxes(meta, first, boxes[i].end);
            proof {
                let at = body + if version == 0 {
                    6int
                } else {
                    8int
                };
                if at > meta@.len() {
                    assert(boxes_in(meta@, at, boxes@[i as int].end as int) =~= boxes_in(
                        meta@,
                        first as int,
                        boxes@[i as int].end as int,
                    ));
                }
            }
            let ghost before = item_views(items@);
            let ghost rest = listed_items(meta@, views, i + 1);
            append_entries(&mut items, meta, entries.as_slice());
            proof {
                let entry = entry_items(meta@, box_views(entries@), 0);
                assert(before + (entry + rest) =~= item_views(items@) + rest);
            }
        }
        i += 1;
    }
    assert(item_views(items@) + listed_items(meta@, views, i as int) =~= item_views(items@));
    items
}

/// A reference from an item to others.
pub struct HeicReference {
    /// Reference type.
    pub typ: [u8; 4],
    /// The item that refers.
    pub from: u16,
    /// The items that it refers to.
    pub to: Vec<u16>,
}

/// What a `HeicReference` stands for.
pub struct Reference {
    pub typ: Seq<u8>,
    pub from: u16,
    pub to: Seq<u16>,
}

impl View for HeicReference {
    type V = Reference;

    open spec fn view(&self) -> Reference {
        Reference { typ: self.typ@, from: self.from, to: self.to@ }
    }
}

/// The references that a list of `HeicReference` stands for.
pub open spec fn reference_views(v: Seq<HeicReference>) -> Seq<Reference> {
    v.map_values(|r: HeicReference| r@)
}

/// The reference that the box `b` describes: the referring item, a count, and as many items as the
/// count says and the data hold.
pub open spec fn box_reference(meta: Seq<u8>, b: BoxRange) -> Reference {
    let at = b.body + 4;
    Reference {
        typ: b.typ,
        from: u16_be(meta, b.body) as u16,
        to: Seq::new(
            least(u16_be(meta, b.body + 2), (meta.len() - at) / 2) as nat,
            |i: int| u16_be(meta, at + 2 * i) as u16,
        ),
    }
}

/// The references that the boxes from number `i` on describe; a box without room for the referring
/// item and the count describes none.
pub open spec fn box_references(meta: Seq<u8>, boxes: Seq<BoxRange>, i: int) -> Seq<Reference>
    decreases boxes.len() - i,
{
    if i >= boxes.len() {
        Seq::empty()
    } else if boxes[i].body + 4 <= boxes[i].end {
        seq![box_reference(meta, boxes[i])] + box_references(meta, boxes, i + 1)
    } else {
        box_references(meta, boxes, i + 1)
    }
}

/// The references that the item reference boxes from number `i` on hold.
pub open spec fn listed_references(meta: Seq<u8>, boxes: Seq<BoxRange>, i: int) -> Seq<Reference>
    decreases boxes.len() - i,
{
    if i >= boxes.len() {
        Seq::empty()
    } else if is_full_box(boxes[i], IREF@) {
        box_references(meta, boxes_in(meta, boxes[i].body + 4, boxes[i].end), 0)
            + listed_references(meta, boxes, i + 1)
    } else {
        listed_references(meta, boxes, i + 1)
    }
}

/// The references of a metadata box.
pub open spec fn references_of(meta: Seq<u8>) -> Seq<Reference> {
    listed_references(meta, boxes_in(meta, 0, meta.len() as int), 0)
}

/// The items that a reference box lists from `at` on.
fn referred_items(meta: &[u8], at: usize, n: u16) -> (to: Vec<u16>)
    requires
        at <= meta@.len(),
    ensures
        to@ == Seq::new(
            least(n as int, (meta@.len() - at) / 2) as nat,
            |i: int| u16_be(meta@, at + 2 * i) as u16,
        ),
{
    let mut to: Vec<u16> = Vec::new();
    let mut p: usize = at;
    while to.len() < n as usize && meta.len() - p >= 2
        invariant
            p == at + 2 * to@.len(),
            p <= meta@.len(),
            to@.len() <= n,
            forall|i: int|
                0 <= i < to@.len() ==> #[trigger] to@[i] == u16_be(meta@, at + 2 * i) as u16,
        decreases meta@.len() - p,
    {
        to.push(read_be16(meta, p));
        p += 2;
    }
    assert(to@ =~= Seq::new(
        least(n as int, (meta@.len() - at) / 2) as nat,
        |i: int| u16_be(meta@, at + 2 * i) as u16,
    ));
    to
}

/// Appends the references that the boxes describe.
fn append_references(refs: &mut Vec<HeicReference>, meta: &[u8], boxes: &[BmffBox])
    requires
        boxes_lie_in(box_views(boxes@), meta@.len() as int),
    ensures
        reference_views(final(refs)@) == reference_views(old(refs)@) + box_references(
            meta@,
            box_views(boxes@),
            0,
        ),
{
    let ghost views = box_views(boxes@);
    let ghost all = reference_views(refs@) + box_references(meta@, views, 0);
    let mut i: usize = 0;
    while i < boxes.len()
        invariant
            i <= boxes@.len(),
            views == box_views(boxes@),
            boxes_lie_in(views, meta@.len() as int),
            all == reference_views(refs@) + box_references(meta@, views, i as int),
        decreases boxes@.len() - i,
    {
        assert(views[i as int] == boxes@[i as int]@);
        let body: usize = boxes[i].body;
        if boxes[i].end - body >= 4 {
            assert(meta.len() == meta@.len());
            let found: HeicReference = HeicReference {
                typ: boxes[i].typ,
                from: read_be16(meta, body),
                to: referred_items(meta, body + 4, read_be16(meta, body + 2)),
            };
            let ghost before = reference_views(refs@);
            let ghost rest = box_references(meta@, views, i + 1);
            let ghost view = found@;
            refs.push(found);
            proof {
                assert(view == box_reference(meta@, views[i as int]));
                assert(reference_views(refs@) =~= before + seq![view]);
                assert(before + (seq![view] + rest) =~= reference_views(refs@) + rest);
            }
        }
        i += 1;
    }
    assert(reference_views(refs@) + box_references(meta@, views, i as int) =~= reference_views(
        refs@,
    ));
}

/// The references of a metadata box.
pub fn heic_references(meta: &[u8]) -> (refs: Vec<HeicReference>)
    ensures
        reference_views(refs@) == references_of(meta@),
{
    let mut refs: Vec<HeicReference> = Vec::new();
    let boxes: Vec<BmffBox> = bmff_boxes(meta, 0, meta.len());
    let ghost views = box_views(boxes@);
    let mut i: usize = 0;
    assert(reference_views(refs@) =~= Seq::empty());
    assert(Seq::<Reference>::empty() + listed_references(meta@, views, 0) =~= listed_references(
        meta@,
        views,
        0,
    ));
    while i < boxes.len()
        invariant
            i <= boxes@.len(),
            views == box_views(boxes@),
            views == boxes_in(meta@, 0, meta@.len() as int),
            boxes_lie_in(views, meta@.len() as int),
            references_of(meta@) == reference_views(refs@) + listed_references(
                meta@,
                views,
                i as int,
            ),
        decreases boxes@.len() - i,
    {
        assert(views[i as int] == boxes@[i as int]@);
        if full_box(&boxes[i], &IREF) {
            let inner: Vec<BmffBox> = bmff_boxes(meta, boxes[i].body + 4, boxes[i].end);
            let ghost before = reference_views(refs@);
            let ghost rest = listed_references(meta@, views, i + 1);
            append_references(&mut refs, meta, inner.as_slice());
            proof {
                let found = box_references(meta@, box_views(inner@), 0);
                assert(before + (found + rest) =~= reference_views(refs@) + rest);
            }
        }
        i += 1;
    }
    assert(reference_views(refs@) + listed_references(meta@, views, i as int) =~= reference_views(
        refs@,
    ));
    refs
}

/// The item that the first primary item box from number `i` on names: a 16-bit number in version 0,
/// else the low half of a 32-bit one. A box whose number is cut off names none.
pub open spec fn primary_from(meta: Seq<u8>, boxes: Seq<BoxRange>, i: int) -> Option<u16>
    decreases boxes.len() - i,
{
    if i >= boxes.len() {
        None
    } else if boxes[i].typ == PITM@ && boxes[i].body + 4 <= meta.len() {
        let at = boxes[i].body + 4;
        if meta[boxes[i].body] == 0 {
            if at + 2 <= meta.len() {
                Some(u16_be(meta, at) as u16)
            } else {
                None
            }
        } else if at + 4 <= meta.len() {
            Some((u32_be(meta, at) % 0x1_0000) as u16)
        } else {
            None
        }
    } else {
        primary_from(meta, boxes, i + 1)
    }
}

/// The primary item of a metadata box.
pub open spec fn primary_of(meta: Seq<u8>) -> Option<u16> {
    primary_from(meta, boxes_in(meta, 0, meta.len() as int), 0)
}

/// The primary item of a metadata box.
pub fn heic_primary_item(meta: &[u8]) -> (r: Option<u16>)
    ensures
        r == primary_of(meta@),
{
    let boxes: Vec<BmffBox> = bmff_boxes(meta, 0, meta.len());
    let ghost views = box_views(boxes@);
    let mut i: usize = 0;
    while i < boxes.len()
        invariant
            i <= boxes@.len(),
            views == box_views(boxes@),
            boxes_lie_in(views, meta@.len() as int),
            primary_of(meta@) == primary_from(meta@, views, i as int),
        decreases boxes@.len() - i,
    {
        assert(views[i as int] == boxes@[i as int]@);
        let body: usize = boxes[i].body;
        if same_bytes(boxes[i].typ.as_slice(), &PITM) && meta.len() - body >= 4 {
            let at: usize = body + 4;
            if meta[body] == 0 {
                return be_u16(meta, at);
            }
            if meta.len() - at >= 4 {
                return Some((read_be32(meta, at) % 0x1_0000) as u16);
            }
            return None;
        }
        i += 1;
    }
    None
}

/// The properties of an item, by their numbers.
pub struct HeicAssociation {
    /// Item number.
    pub id: u16,
    /// Numbers of its properties, counted from 1.
    pub properties: Vec<u16>,
}

/// What a `HeicAssociation` stands for.
pub struct Association {
    pub id: u16,
    pub properties: Seq<u16>,
}

impl View for HeicAssociation {
    type V = Association;

    open spec fn view(&self) -> Association {
        Association { id: self.id, properties: self.properties@ }
    }
}

/// The associations that a list of `HeicAssociation` stands for.
pub open spec fn association_views(v: Seq<HeicAssociation>) -> Seq<Association> {
    v.map_values(|a: HeicAssociation| a@)
}

/// Bytes of an item number.
pub open spec fn id_len(wide_id: bool) -> int {
    if wide_id {
        4
    } else {
        2
    }
}

/// Bytes of a property count or number.
pub open spec fn index_len(wide_index: bool) -> int {
    if wide_index {
        2
    } else {
        1
    }
}

/// The property count or number at `p`.
pub open spec fn index_at(meta: Seq<u8>, p: int, wide_index: bool) -> int {
    if wide_index {
        u16_be(meta, p)
    } else {
        meta[p] as int
    }
}

/// The association entry at `p`: an item number, of which the low 16 bits count, a property count,
/// and as many property numbers, without their top bit.
pub open spec fn association_at(
    meta: Seq<u8>,
    p: int,
    wide_id: bool,
    wide_index: bool,
) -> Association {
    let at = p + id_len(wide_id);
    let first = at + index_len(wide_index);
    Association {
        id: if wide_id {
            (u32_be(meta, p) % 0x1_0000) as u16
        } else {
            u16_be(meta, p) as u16
        },
        properties: Seq::new(
            index_at(meta, at, wide_index) as nat,
            |i: int|
                if wide_index {
                    (u16_be(meta, first + 2 * i) % 0x8000) as u16
                } else {
                    (meta[first + i] % 0x80) as u16
                },
        ),
    }
}

/// The end of the association entry at `p`.
pub open spec fn association_end(meta: Seq<u8>, p: int, wide_id: bool, wide_index: bool) -> int {
    let at = p + id_len(wide_id);
    at + index_len(wide_index) + index_at(meta, at, wide_index) * index_len(wide_index)
}

/// At most `n` association entries from `p` on, up to one that is cut off.
pub open spec fn associations_from(
    meta: Seq<u8>,
    p: int,
    n: int,
    wide_id: bool,
    wide_index: bool,
) -> Seq<Association>
    decreases n,
{
    if n <= 0 || p + id_len(wide_id) + index_len(wide_index) > meta.len() || association_end(
        meta,
        p,
        wide_id,
        wide_index,
    ) > meta.len() {
        Seq::empty()
    } else {
        seq![association_at(meta, p, wide_id, wide_index)] + associations_from(
            meta,
            association_end(meta, p, wide_id, wide_index),
            n - 1,
            wide_id,
            wide_index,
        )
    }
}

/// The entries of the association box `b`. Its version and the lowest bit of its flags say how wide
/// the numbers are.
pub open spec fn box_associations(meta: Seq<u8>, b: BoxRange) -> Seq<Association> {
    if b.body + 8 > meta.len() {
        Seq::empty()
    } else {
        associations_from(
            meta,
            b.body + 8,
            u32_be(meta, b.body + 4),
            meta[b.body] >= 1,
            meta[b.body + 3] % 2 == 1,
        )
    }
}

/// The properties of a metadata box and which items have them.
pub struct ItemProperties {
    pub properties: Seq<BoxRange>,
    pub associations: Seq<Association>,
}

/// Two lists of properties and associations in a row.
pub open spec fn joined(a: ItemProperties, b: ItemProperties) -> ItemProperties {
    ItemProperties {
        properties: a.properties + b.properties,
        associations: a.associations + b.associations,
    }
}

/// No properties and no associations.
pub open spec fn no_properties() -> ItemProperties {
    ItemProperties { properties: Seq::empty(), associations: Seq::empty() }
}

/// What the box `b` adds: its boxes where it is a property container, its entries where it is an
/// association box.
pub open spec fn box_properties(meta: Seq<u8>, b: BoxRange) -> ItemProperties {
    if b.typ == IPCO@ {
        ItemProperties { properties: boxes_in(meta, b.body, b.end), associations: Seq::empty() }
    } else if is_full_box(b, IPMA@) {
        ItemProperties { properties: Seq::empty(), associations: box_associations(meta, b) }
    } else {
        no_properties()
    }
}

/// What the first `n` boxes of an item properties box add.
pub open spec fn inner_properties(meta: Seq<u8>, boxes: Seq<BoxRange>, n: int) -> ItemProperties
    decreases n,
{
    if n <= 0 {
        no_properties()
    } else {
        joined(inner_properties(meta, boxes, n - 1), box_properties(meta, boxes[n - 1]))
    }
}

/// What the item properties boxes among the first `n` boxes hold.
pub open spec fn listed_properties(meta: Seq<u8>, boxes: Seq<BoxRange>, n: int) -> ItemProperties
    decreases n,
{
    if n <= 0 {
        no_properties()
    } else if boxes[n - 1].typ == IPRP@ {
        let inner = boxes_in(meta, boxes[n - 1].body, boxes[n - 1].end);
        joined(
            listed_properties(meta, boxes, n - 1),
            inner_properties(meta, inner, inner.len() as int),
        )
    } else {
        listed_properties(meta, boxes, n - 1)
    }
}

/// The properties of a metadata box and which items have them.
pub open spec fn properties_of(meta: Seq<u8>) -> ItemProperties {
    let boxes = boxes_in(meta, 0, meta.len() as int);
    listed_properties(meta, boxes, boxes.len() as int)
}

/// The properties of a metadata box and which items have them.
pub struct HeicProperties {
    /// Property boxes, in the order in which they are counted.
    pub properties: Vec<BmffBox>,
    /// Which items have which of them.
    pub associations: Vec<HeicAssociation>,
}

impl View for HeicProperties {
    type V = ItemProperties;

    open spec fn view(&self) -> ItemProperties {
        ItemProperties {
            properties: box_views(self.properties@),
            associations: association_views(self.associations@),
        }
    }
}

/// The property numbers of an entry.
fn entry_indices(meta: &[u8], first: usize, n: u16, wide_index: bool) -> (r: Vec<u16>)
    requires
        first + n * index_len(wide_index) <= meta@.len(),
    ensures
        r@ == Seq::new(
            n as nat,
            |i: int|
                if wide_index {
                    (u16_be(meta@, first + 2 * i) % 0x8000) as u16
                } else {
                    (meta@[first + i] % 0x80) as u16
                },
        ),
{
    assert(meta.len() == meta@.len());
    let mut r: Vec<u16> = Vec::new();
    let mut i: u16 = 0;
    while i < n
        invariant
            i <= n,
            r@.len() == i,
            first + n * index_len(wide_index) <= meta@.len() <= usize::MAX,
            forall|j: int|
                0 <= j < i ==> #[trigger] r@[j] == (if wide_index {
                    (u16_be(meta@, first + 2 * j) % 0x8000) as u16
                } else {
                    (meta@[first + j] % 0x80) as u16
                }),
        decreases n - i,
    {
        if wide_index {
            r.push(read_be16(meta, first + 2 * i as usize) % 0x8000);
        } else {
            r.push((meta[first + i as usize] % 0x80) as u16);
        }
        i += 1;
    }
    assert(r@ =~= Seq::new(
        n as nat,
        |i: int|
            if wide_index {
                (u16_be(meta@, first + 2 * i) % 0x8000) as u16
            } else {
                (meta@[first + i] % 0x80) as u16
            },
    ));
    r
}

/// Appends at most `count` association entries from `from` on, up to one that is cut off.
fn append_associations(
    out: &mut Vec<HeicAssociation>,
    meta: &[u8],
    from: usize,
    count: u32,
    wide_id: bool,
    wide_index: bool,
)
    requires
        from <= meta@.len(),
    ensures
        association_views(final(out)@) == association_views(old(out)@) + associations_from(
            meta@,
            from as int,
            count as int,
            wide_id,
            wide_index,
        ),
{
    let ghost all = association_views(out@) + associations_from(
        meta@,
        from as int,
        count as int,
        wide_id,
        wide_index,
    );
    let id_bytes: usize = if wide_id {
        4
    } else {
        2
    };
    let index_bytes: usize = if wide_index {
        2
    } else {
        1
    };
    let mut p: usize = from;
    let mut n: u32 = count;
    while n > 0
        invariant
            p <= meta@.len(),
            id_bytes == id_len(wide_id),
            index_bytes == index_len(wide_index),
            all == association_views(out@) + associations_from(
                meta@,
                p as int,
                n as int,
                wide_id,
                wide_index,
            ),
        ensures
            all == association_views(out@),
        decreases n,
    {
        if meta.len() - p < id_bytes + index_bytes {
            assert(association_views(out@) + Seq::<Association>::empty() =~= association_views(
                out@,
            ));
            break;
        }
        let id: u16 = if wide_id {
            (read_be32(meta, p) % 0x1_0000) as u16
        } else {
            read_be16(meta, p)
        };
        let at: usize = p + id_bytes;
        let entries: u16 = if wide_index {
            read_be16(meta, at)
        } else {
            meta[at] as u16
        };
        let first: usize = at + index_bytes;
        let len: usize = entries as usize * index_bytes;
        if meta.len() - first < len {
            assert(association_views(out@) + Seq::<Association>::empty() =~= association_views(
                out@,
            ));
            break;
        }
        let properties: Vec<u16> = entry_indices(meta, first, entries, wide_index);
        let found: HeicAssociation = HeicAssociation { id, properties };
        let ghost view = found@;
        let ghost before = association_views(out@);
        let ghost rest = associations_from(meta@, first + len, n - 1, wide_id, wide_index);
        out.push(found);
        proof {
            assert(view == association_at(meta@, p as int, wide_id, wide_index));
            assert(association_views(out@) =~= before + seq![view]);
            assert(before + (seq![view] + rest) =~= association_views(out@) + rest);
        }
        p = first + len;
        n -= 1;
    }
}

/// Appends the boxes of `more`.
fn append_boxes(out: &mut Vec<BmffBox>, more: Vec<BmffBox>)
    ensures
        box_views(final(out)@) == box_views(old(out)@) + box_views(more@),
{
    let ghost start = box_views(out@);
    let mut i: usize = 0;
    assert(start + box_views(more@).take(0) =~= start);
    while i < more.len()
        invariant
            i <= more@.len(),
            box_views(out@) == start + box_views(more@).take(i as int),
        decreases more@.len() - i,
    {
        let ghost before = box_views(out@);
        let b: BmffBox = BmffBox { typ: more[i].typ, body: more[i].body, end: more[i].end };
        out.push(b);
        i += 1;
        proof {
            assert(box_views(out@) =~= before.push(b@));
            assert(box_views(out@) =~= start + box_views(more@).take(i as int));
        }
    }
    assert(box_views(more@).take(i as int) =~= box_views(more@));
}

/// Appends what the box `b` adds.
fn append_properties(out: &mut HeicProperties, meta: &[u8], b: &BmffBox)
    requires
        b.body <= b.end <= meta@.len(),
        boxes_lie_in(old(out)@.properties, meta@.len() as int),
    ensures
        final(out)@ == joined(old(out)@, box_properties(meta@, b@)),
        boxes_lie_in(final(out)@.properties, meta@.len() as int),
{
    let ghost before = out@;
    proof {
        assert(before.properties + Seq::<BoxRange>::empty() =~= before.properties);
        assert(before.associations + Seq::<Association>::empty() =~= before.associations);
    }
    if same_bytes(b.typ.as_slice(), &IPCO) {
        let inner: Vec<BmffBox> = bmff_boxes(meta, b.body, b.end);
        append_boxes(&mut out.properties, inner);
    } else if full_box(b, &IPMA) {
        assert(meta.len() == meta@.len());
        if meta.len() - b.body >= 8 {
            append_associations(
                &mut out.associations,
                meta,
                b.body + 8,
                read_be32(meta, b.body + 4),
                meta[b.body] >= 1,
                meta[b.body + 3] % 2 == 1,
            );
        }
    }
}

/// The properties of a metadata box and which items have them.
pub fn heic_item_properties(meta: &[u8]) -> (out: HeicProperties)
    ensures
        out@ == properties_of(meta@),
        boxes_lie_in(out@.properties, meta@.len() as int),
{
    let mut out: HeicProperties = HeicProperties { properties: Vec::new(), associations: Vec::new() };
    let boxes: Vec<BmffBox> = bmff_boxes(meta, 0, meta.len());
    let ghost views = box_views(boxes@);
    let mut i: usize = 0;
    proof {
        assert(out@.properties =~= Seq::empty());
        assert(out@.associations =~= Seq::empty());
    }
    while i < boxes.len()
        invariant
            i <= boxes@.len(),
            views == box_views(boxes@),
            views == boxes_in(meta@, 0, meta@.len() as int),
            boxes_lie_in(views, meta@.len() as int),
            boxes_lie_in(out@.properties, meta@.len() as int),
            out@ == listed_properties(meta@, views, i as int),
        decreases boxes@.len() - i,
    {
        assert(views[i as int] == boxes@[i as int]@);
        if same_bytes(boxes[i].typ.as_slice(), &IPRP) {
            let inner: Vec<BmffBox> = bmff_boxes(meta, boxes[i].body, boxes[i].end);
            let ghost before = out@;
            let ghost inner_views = box_views(inner@);
            let mut j: usize = 0;
            proof {
                assert(before.properties + Seq::<BoxRange>::empty() =~= before.properties);
                assert(before.associations + Seq::<Association>::empty() =~= before.associations);
            }
            while j < inner.len()
                invariant
                    j <= inner@.len(),
                    inner_views == box_views(inner@),
                    boxes_lie_in(inner_views, meta@.len() as int),
                    boxes_lie_in(out@.properties, meta@.len() as int),
                    out@ == joined(before, inner_properties(meta@, inner_views, j as int)),
                decreases inner@.len() - j,
            {
                assert(inner_views[j as int] == inner@[j as int]@);
                let ghost so_far = inner_properties(meta@, inner_views, j as int);
                let ghost added = box_properties(meta@, inner_views[j as int]);
                append_properties(&mut out, meta, &inner[j]);
                proof {
                    assert(before.properties + so_far.properties + added.properties
                        =~= before.properties + (so_far.properties + added.properties));
                    assert(before.associations + so_far.associations + added.associations
                        =~= before.associations + (so_far.associations + added.associations));
                }
                j += 1;
            }
        }
        i += 1;
    }
    out
}

/// The first item at or after number `i` that is item `id`; four zeros as its type where there is
/// none.
pub open spec fn item_type_from(items: Seq<Item>, id: u16, i: int) -> Seq<u8>
    decreases items.len() - i,
{
    if i >= items.len() {
        seq![0u8, 0, 0, 0]
    } else if items[i].id == id {
        items[i].typ
    } else {
        item_type_from(items, id, i + 1)
    }
}

/// The property numbers of the first association of item `id` at or after number `i`.
pub open spec fn property_numbers_from(associations: Seq<Association>, id: u16, i: int) -> Option<
    Seq<u16>,
>
    decreases associations.len() - i,
{
    if i >= associations.len() {
        None
    } else if associations[i].id == id {
        Some(associations[i].properties)
    } else {
        property_numbers_from(associations, id, i + 1)
    }
}

/// The auxiliary type that the property box `b` declares: what follows version and flags, up to
/// the first zero.
pub open spec fn aux_type(meta: Seq<u8>, b: BoxRange) -> Seq<u8> {
    let text = meta.subrange(b.body + 4, b.end);
    match find_from(text, seq![0u8], 0) {
        Some(end) => text.subrange(0, end),
        None => text,
    }
}

/// The auxiliary type among the properties with the numbers `numbers`, from number `i` on. A number
/// that no property has ends the search.
pub open spec fn aux_type_from(
    meta: Seq<u8>,
    properties: Seq<BoxRange>,
    numbers: Seq<u16>,
    i: int,
) -> Option<Seq<u8>>
    decreases numbers.len() - i,
{
    if i >= numbers.len() || numbers[i] == 0 || numbers[i] > properties.len() {
        None
    } else if is_full_box(properties[numbers[i] - 1], AUXC@) {
        Some(aux_type(meta, properties[numbers[i] - 1]))
    } else {
        aux_type_from(meta, properties, numbers, i + 1)
    }
}

/// The auxiliary type of item `id`.
pub open spec fn aux_type_of(meta: Seq<u8>, props: ItemProperties, id: u16) -> Option<Seq<u8>> {
    match property_numbers_from(props.associations, id, 0) {
        Some(numbers) => aux_type_from(meta, props.properties, numbers, 0),
        None => None,
    }
}

/// The type of an image item.
pub open spec fn is_image_type(typ: Seq<u8>) -> bool {
    typ == HVC1@ || typ == GRID@ || typ == HEVC@ || typ == AV01@
}

/// The reference says that an image with Apple's gain map type is auxiliary to the primary item.
pub open spec fn is_apple_aux(
    meta: Seq<u8>,
    items: Seq<Item>,
    props: ItemProperties,
    primary: u16,
    r: Reference,
) -> bool {
    &&& r.typ == AUXL@
    &&& r.to.contains(primary)
    &&& is_image_type(item_type_from(items, r.from, 0))
    &&& aux_type_of(meta, props, r.from) matches Some(urn) && occurs(urn, AUX_GAINMAP@)
}

/// The referring item of the first such reference at or after number `i`.
pub open spec fn apple_aux_from(
    meta: Seq<u8>,
    items: Seq<Item>,
    props: ItemProperties,
    primary: u16,
    refs: Seq<Reference>,
    i: int,
) -> Option<u16>
    decreases refs.len() - i,
{
    if i >= refs.len() {
        None
    } else if is_apple_aux(meta, items, props, primary, refs[i]) {
        Some(refs[i].from)
    } else {
        apple_aux_from(meta, items, props, primary, refs, i + 1)
    }
}

/// The first tone map item at or after number `i`.
pub open spec fn tone_map_from(items: Seq<Item>, i: int) -> Option<u16>
    decreases items.len() - i,
{
    if i >= items.len() {
        None
    } else if items[i].typ == TMAP@ {
        Some(items[i].id)
    } else {
        tone_map_from(items, i + 1)
    }
}

/// The second item that item `id` is derived from, by the last of the first `n` references that say
/// so.
pub open spec fn derived_from(refs: Seq<Reference>, id: u16, n: int) -> Option<u16>
    decreases n,
{
    if n <= 0 {
        None
    } else if refs[n - 1].typ == DIMG@ && refs[n - 1].from == id && refs[n - 1].to.len() >= 2 {
        Some(refs[n - 1].to[1])
    } else {
        derived_from(refs, id, n - 1)
    }
}

/// The item with Apple's gain map.
pub open spec fn apple_aux_of(meta: Seq<u8>) -> Option<u16> {
    match primary_of(meta) {
        Some(primary) => apple_aux_from(
            meta,
            items_of(meta),
            properties_of(meta),
            primary,
            references_of(meta),
            0,
        ),
        None => None,
    }
}

/// The gain map item of an ISO 21496-1 tone map.
pub open spec fn iso_gainmap_of(meta: Seq<u8>) -> Option<u16> {
    match tone_map_from(items_of(meta), 0) {
        Some(id) => derived_from(references_of(meta), id, references_of(meta).len() as int),
        None => None,
    }
}

/// How a gain map item was found.
pub enum GainmapSource {
    /// It was not.
    NotFound,
    /// By its auxiliary type.
    AppleAux,
    /// Through a tone map item.
    IsoTmap,
}

/// Name of `GainmapSource::AppleAux`.
pub const APPLE_AUX: &'static str = "apple-aux";

/// Name of `GainmapSource::IsoTmap`.
pub const ISO_TMAP: &'static str = "iso-tmap";

impl GainmapSource {
    /// The name that callers know it by; empty where nothing was found.
    pub open spec fn name(self) -> Seq<char> {
        match self {
            GainmapSource::NotFound => Seq::empty(),
            GainmapSource::AppleAux => APPLE_AUX@,
            GainmapSource::IsoTmap => ISO_TMAP@,
        }
    }
}

/// How the gain map item was found, and its number, 0 for none. A tone map is looked for where the
/// auxiliary type gives no number.
pub open spec fn gainmap_item(meta: Seq<u8>) -> (GainmapSource, u16) {
    let aux = match apple_aux_of(meta) {
        Some(id) => id,
        None => 0,
    };
    if aux == 0 && iso_gainmap_of(meta) is Some {
        (GainmapSource::IsoTmap, iso_gainmap_of(meta).unwrap())
    } else if apple_aux_of(meta) is Some {
        (GainmapSource::AppleAux, aux)
    } else {
        (GainmapSource::NotFound, 0)
    }
}

/// The type of item `id`; zeros where there is no such item.
fn item_type<'a>(items: &'a [HeicItem], id: u16) -> (r: [u8; 4])
    ensures
        r@ == item_type_from(item_views(items@), id, 0),
{
    let ghost views = item_views(items@);
    let mut i: usize = 0;
    while i < items.len()
        invariant
            i <= items@.len(),
            views == item_views(items@),
            item_type_from(views, id, 0) == item_type_from(views, id, i as int),
        decreases items@.len() - i,
    {
        assert(views[i as int] == items@[i as int]@);
        if items[i].id == id {
            return items[i].typ;
        }
        i += 1;
    }
    let none: [u8; 4] = [0, 0, 0, 0];
    assert(none@ =~= seq![0u8, 0, 0, 0]);
    none
}

/// Whether the auxiliary type of item `id` is Apple's gain map type.
fn has_gainmap_type(meta: &[u8], props: &HeicProperties, id: u16) -> (r: bool)
    requires
        boxes_lie_in(props@.properties, meta@.len() as int),
    ensures
        r == (aux_type_of(meta@, props@, id) matches Some(urn) && occurs(urn, AUX_GAINMAP@)),
{
    let ghost assoc = props@.associations;
    let mut i: usize = 0;
    while i < props.associations.len()
        invariant
            i <= props.associations@.len(),
            assoc == association_views(props.associations@),
            boxes_lie_in(props@.properties, meta@.len() as int),
            aux_type_of(meta@, props@, id) == (match property_numbers_from(assoc, id, i as int) {
                Some(numbers) => aux_type_from(meta@, props@.properties, numbers, 0),
                None => None,
            }),
        decreases props.associations@.len() - i,
    {
        assert(assoc[i as int] == props.associations@[i as int]@);
        if props.associations[i].id == id {
            return has_gainmap_property(meta, props, props.associations[i].properties.as_slice());
        }
        i += 1;
    }
    false
}

/// Whether the auxiliary type among the properties with the numbers `numbers` is Apple's gain map
/// type.
fn has_gainmap_property(meta: &[u8], props: &HeicProperties, numbers: &[u16]) -> (r: bool)
    requires
        boxes_lie_in(props@.properties, meta@.len() as int),
    ensures
        r == (aux_type_from(meta@, props@.properties, numbers@, 0) matches Some(urn) && occurs(
            urn,
            AUX_GAINMAP@,
        )),
{
    let ghost boxes = props@.properties;
    let mut i: usize = 0;
    while i < numbers.len()
        invariant
            i <= numbers@.len(),
            boxes == props@.properties,
            boxes == box_views(props.properties@),
            boxes_lie_in(boxes, meta@.len() as int),
            aux_type_from(meta@, boxes, numbers@, 0) == aux_type_from(
                meta@,
                boxes,
                numbers@,
                i as int,
            ),
        decreases numbers@.len() - i,
    {
        let number: usize = numbers[i] as usize;
        if number == 0 || number > props.properties.len() {
            return false;
        }
        let b: &BmffBox = &props.properties[number - 1];
        assert(boxes[number - 1] == b@);
        if full_box(b, &AUXC) {
            let text: &[u8] = slice_subrange(meta, b.body + 4, b.end);
            let zero: [u8; 1] = [0];
            assert(zero@ =~= seq![0u8]);
            proof {
                lemma_find_from(text@, zero@, 0);
            }
            return match find_at(text, &zero, 0) {
                Some(end) => contains(slice_subrange(text, 0, end), &AUX_GAINMAP),
                None => contains(text, &AUX_GAINMAP),
            };
        }
        i += 1;
    }
    false
}

/// Whether the list holds the number.
fn holds(list: &[u16], n: u16) -> (r: bool)
    ensures
        r == list@.contains(n),
{
    let mut i: usize = 0;
    while i < list.len()
        invariant
            i <= list@.len(),
            forall|j: int| 0 <= j < i ==> list@[j] != n,
        decreases list@.len() - i,
    {
        if list[i] == n {
            return true;
        }
        i += 1;
    }
    false
}

/// The item with Apple's gain map.
fn find_apple_aux(
    meta: &[u8],
    items: &[HeicItem],
    props: &HeicProperties,
    primary: u16,
    refs: &[HeicReference],
) -> (r: Option<u16>)
    requires
        boxes_lie_in(props@.properties, meta@.len() as int),
    ensures
        r == apple_aux_from(
            meta@,
            item_views(items@),
            props@,
            primary,
            reference_views(refs@),
            0,
        ),
{
    let ghost views = reference_views(refs@);
    let ghost item_list = item_views(items@);
    let mut i: usize = 0;
    while i < refs.len()
        invariant
            i <= refs@.len(),
            views == reference_views(refs@),
            item_list == item_views(items@),
            boxes_lie_in(props@.properties, meta@.len() as int),
            apple_aux_from(meta@, item_list, props@, primary, views, 0) == apple_aux_from(
                meta@,
                item_list,
                props@,
                primary,
                views,
                i as int,
            ),
        decreases refs@.len() - i,
    {
        assert(views[i as int] == refs@[i as int]@);
        if same_bytes(refs[i].typ.as_slice(), &AUXL) && holds(refs[i].to.as_slice(), primary) {
            let typ: [u8; 4] = item_type(items, refs[i].from);
            let image: bool = same_bytes(&typ, &HVC1) || same_bytes(&typ, &GRID) || same_bytes(
                &typ,
                &HEVC,
            ) || same_bytes(&typ, &AV01);
            if image && has_gainmap_type(meta, props, refs[i].from) {
                return Some(refs[i].from);
            }
        }
        i += 1;
    }
    None
}

/// The gain map item of an ISO 21496-1 tone map.
fn find_iso_gainmap(items: &[HeicItem], refs: &[HeicReference]) -> (r: Option<u16>)
    ensures
        r == (match tone_map_from(item_views(items@), 0) {
            Some(id) => derived_from(reference_views(refs@), id, refs@.len() as int),
            None => None,
        }),
{
    let ghost item_list = item_views(items@);
    let ghost views = reference_views(refs@);
    let mut i: usize = 0;
    while i < items.len()
        invariant
            i <= items@.len(),
            item_list == item_views(items@),
            views == reference_views(refs@),
            tone_map_from(item_list, 0) == tone_map_from(item_list, i as int),
        decreases items@.len() - i,
    {
        assert(item_list[i as int] == items@[i as int]@);
        if same_bytes(items[i].typ.as_slice(), &TMAP) {
            let id: u16 = items[i].id;
            let mut found: Option<u16> = None;
            let mut j: usize = 0;
            while j < refs.len()
                invariant
                    j <= refs@.len(),
                    views == reference_views(refs@),
                    found == derived_from(views, id, j as int),
                decreases refs@.len() - j,
            {
                assert(views[j as int] == refs@[j as int]@);
                if same_bytes(refs[j].typ.as_slice(), &DIMG) && refs[j].from == id
                    && refs[j].to.len() >= 2 {
                    found = Some(refs[j].to[1]);
                }
                j += 1;
            }
            return found;
        }
        i += 1;
    }
    None
}

/// How the gain map item of a metadata box was found, and its number, 0 for none.
pub fn find_gainmap_item(meta: &[u8]) -> (r: (GainmapSource, u16))
    ensures
        r == gainmap_item(meta@),
{
    let items: Vec<HeicItem> = heic_items(meta);
    let refs: Vec<HeicReference> = heic_references(meta);
    let props: HeicProperties = heic_item_properties(meta);
    let aux: Option<u16> = match heic_primary_item(meta) {
        Some(primary) => find_apple_aux(
            meta,
            items.as_slice(),
            &props,
            primary,
            refs.as_slice(),
        ),
        None => None,
    };
    if let Some(id) = aux {
        if id != 0 {
            return (GainmapSource::AppleAux, id);
        }
    }
    assert(reference_views(refs@).len() == refs@.len());
    if let Some(id) = find_iso_gainmap(items.as_slice(), refs.as_slice()) {
        return (GainmapSource::IsoTmap, id);
    }
    match aux {
        Some(id) => (GainmapSource::AppleAux, id),
        None => (GainmapSource::NotFound, 0),
    }
}

/// What a HEIC photo says of its gain map.
pub struct AppleHeicInfo {
    /// There is a gain map, and the maker note gives it a headroom over 1.
    pub ok: bool,
    /// How the gain map item was found; empty where it was not.
    pub kind: String,
    /// Number of the gain map item, 0 for none.
    pub gainmap_item_id: u32,
    /// The maker note values that the headroom is computed from.
    pub maker_note: Option<MakerNote>,
}

/// The gain map item of a HEIC photo.
pub open spec fn photo_gainmap(raw: Seq<u8>) -> (GainmapSource, u16) {
    match meta_from(raw, 0) {
        Some((start, end)) => gainmap_item(raw.subrange(start, end)),
        None => (GainmapSource::NotFound, 0),
    }
}

/// The maker note values of a HEIC photo; none in a file without a metadata box.
pub open spec fn photo_maker_note(raw: Seq<u8>) -> Option<MakerNote> {
    match meta_from(raw, 0) {
        Some(_) => maker_note_from(raw, 0),
        None => None,
    }
}

/// `info` is what the photo says of its gain map, where `boosts` tells whether maker note values
/// give a headroom over 1.
pub open spec fn is_heic_info<F: Fn(MakerNote) -> bool>(
    boosts: F,
    raw: Seq<u8>,
    info: AppleHeicInfo,
) -> bool {
    &&& info.kind@ == photo_gainmap(raw).0.name()
    &&& info.gainmap_item_id == photo_gainmap(raw).1
    &&& info.maker_note == photo_maker_note(raw)
    &&& match photo_maker_note(raw) {
        Some(note) => exists|b: bool| #[trigger]
            call_ensures(boosts, (note,), b) && info.ok == (b && info.gainmap_item_id != 0),
        None => !info.ok,
    }
}

fn empty_text() -> (r: String)
    ensures
        r@ == Seq::<char>::empty(),
{
    proof {
        reveal_strlit("");
    }
    let r: String = "".to_string();
    assert(r@ =~= Seq::<char>::empty());
    r
}

/// What a HEIC photo says of its gain map. `boosts` tells whether maker note values give a headroom
/// over 1.
pub fn heic_apple_info_inner<F: Fn(MakerNote) -> bool>(raw: &[u8], boosts: &F) -> (info:
    AppleHeicInfo)
    requires
        forall|note: MakerNote| #[trigger] call_requires(*boosts, (note,)),
    ensures
        is_heic_info(*boosts, raw@, info),
{
    let (start, end): (usize, usize) = match bmff_meta_range(raw) {
        Some(range) => range,
        None => return AppleHeicInfo {
            ok: false,
            kind: empty_text(),
            gainmap_item_id: 0,
            maker_note: None,
        },
    };
    let (source, id): (GainmapSource, u16) = find_gainmap_item(slice_subrange(raw, start, end));
    let kind: String = match source {
        GainmapSource::NotFound => empty_text(),
        GainmapSource::AppleAux => APPLE_AUX.to_string(),
        GainmapSource::IsoTmap => ISO_TMAP.to_string(),
    };
    let maker_note: Option<MakerNote> = apple_makernote_values(raw);
    let ok: bool = match maker_note {
        Some(note) => boosts(note) && id != 0,
        None => false,
    };
    AppleHeicInfo { ok, kind, gainmap_item_id: id as u32, maker_note }
}

/// `heic_apple_info_inner` for callers that own the data.
pub fn heic_apple_info<F: Fn(MakerNote) -> bool>(raw: Vec<u8>, boosts: &F) -> (info: AppleHeicInfo)
    requires
        forall|note: MakerNote| #[trigger] call_requires(*boosts, (note,)),
    ensures
        is_heic_info(*boosts, raw@, info),
{
    heic_apple_info_inner(raw.as_slice(), boosts)
}

} // verus!
