//! The gain map item of a HEIC file, stated of the metadata that is written into it.

use vstd::prelude::*;

use crate::bmff::{meta_from, BoxRange};
use crate::bytes::{be32_bytes, lemma_find_from, lemma_find_from_is, matches_at, occurs};
use crate::heic::{
    apple_aux_from, apple_aux_of, aux_type, aux_type_from, aux_type_of, derived_from, gainmap_item,
    is_apple_aux, is_full_box, is_image_type, item_type_from, items_of, photo_gainmap,
    photo_maker_note, primary_of, properties_of, property_numbers_from, references_of,
    tone_map_from, Association, GainmapSource, Item, ItemProperties, Reference,
};
use crate::heic_laws::{
    are_boxes, are_properties_of, box_bytes, boxes_bytes, can_write_properties, entry_boxes,
    holds_at, is_association_of, is_only, is_range_of, items_head, law_items_read_back,
    law_primary_reads_back, law_properties_read_back, law_references_read_back, lemma_be32_at,
    lemma_holds_piece, primary_body, property_boxes, reference_boxes, AssociationEntry, FileBox,
};
use crate::makernote::maker_note_from;
use crate::tags::{
    AUXC, AUXL, AUX_GAINMAP, AV01, DIMG, GRID, HEVC, HVC1, IINF, IPRP, IREF, META, PITM, TMAP,
};

verus! {

/// What a photo's metadata box says of its items.
pub struct PhotoMeta {
    pub primary_version: u8,
    pub primary: int,
    pub items_version: u8,
    pub count: int,
    pub items: Seq<Item>,
    pub names: Seq<Seq<u8>>,
    pub refs: Seq<Reference>,
    pub props: Seq<FileBox>,
    pub version: u8,
    pub flags: (u8, u8, u8),
    pub entries: Seq<AssociationEntry>,
}

impl PhotoMeta {
    /// All of it can be written.
    pub open spec fn can_be_written(self) -> bool {
        &&& 0 <= self.primary < 0x1_0000_0000
        &&& self.primary_version == 0 ==> self.primary < 0x1_0000
        &&& forall|j: int| 0 <= j < self.items.len() ==> (#[trigger] self.items[j]).typ.len() == 4
        &&& are_boxes(entry_boxes(self.items, self.names))
        &&& forall|j: int| 0 <= j < self.refs.len() ==> (#[trigger] self.refs[j]).to.len() < 0x1_0000
        &&& are_boxes(reference_boxes(self.refs))
        &&& can_write_properties(self.props, self.version, self.flags, self.entries)
    }

    /// The item that the primary item box names.
    pub open spec fn primary_id(self) -> int {
        self.primary % 0x1_0000
    }

    /// The property number `q` of entry `a`, without its top bit.
    pub open spec fn property_number(self, a: int, q: int) -> int {
        self.entries[a].numbers[q] as int % (if self.flags.2 % 2 == 1 {
            0x8000int
        } else {
            0x80int
        })
    }

    /// Entry `a` is the first one for item `id`.
    pub open spec fn is_entry_of(self, a: int, id: u16) -> bool {
        &&& 0 <= a < self.entries.len()
        &&& self.entries[a].id % 0x1_0000 == id
        &&& forall|j: int| 0 <= j < a ==> (#[trigger] self.entries[j]).id % 0x1_0000 != id
    }

    /// The property with number `q` of entry `a` exists.
    pub open spec fn has_property(self, a: int, q: int) -> bool {
        1 <= self.property_number(a, q) <= self.props.len()
    }

    /// The property with number `q` of entry `a`.
    pub open spec fn property(self, a: int, q: int) -> FileBox {
        self.props[self.property_number(a, q) - 1]
    }

    /// Item `t` is the first one with number `id`.
    pub open spec fn is_item_of(self, t: int, id: u16) -> bool {
        &&& 0 <= t < self.items.len()
        &&& self.items[t].id == id
        &&& forall|j: int| 0 <= j < t ==> (#[trigger] self.items[j]).id != id
    }
}

/// Where the boxes stand in the metadata box.
pub struct MetaPlaces {
    pub pitm: int,
    pub iinf: int,
    pub iref: int,
    pub iprp: int,
}

/// The metadata box is made of the boxes `list`, in any order and among any others, and those at
/// `at` hold `m`.
pub open spec fn is_meta_of(
    meta: Seq<u8>,
    m: PhotoMeta,
    list: Seq<FileBox>,
    at: MetaPlaces,
) -> bool {
    &&& are_boxes(list)
    &&& meta == boxes_bytes(list)
    &&& m.can_be_written()
    &&& is_only(list, PITM@, at.pitm)
    &&& list[at.pitm].body == primary_body(m.primary_version, m.primary)
    &&& is_only(list, IINF@, at.iinf)
    &&& list[at.iinf].body == items_head(m.items_version, m.count) + boxes_bytes(
        entry_boxes(m.items, m.names),
    )
    &&& is_only(list, IREF@, at.iref)
    &&& list[at.iref].body == seq![0u8, 0, 0, 0] + boxes_bytes(reference_boxes(m.refs))
    &&& is_only(list, IPRP@, at.iprp)
    &&& list[at.iprp].body == boxes_bytes(property_boxes(m.props, m.version, m.flags, m.entries))
}

/// What is read from a metadata box is what `m` says.
pub open spec fn reads_as(meta: Seq<u8>, m: PhotoMeta) -> bool {
    &&& primary_of(meta) matches Some(p) && p == m.primary_id()
    &&& items_of(meta) == m.items
    &&& references_of(meta) == m.refs
    &&& are_properties_of(
        meta,
        properties_of(meta),
        m.props,
        m.entries,
        m.flags.2 % 2 == 1,
    )
}

/// A metadata box reads back as what was written into it.
pub proof fn law_meta_reads_back(
    meta: Seq<u8>,
    m: PhotoMeta,
    list: Seq<FileBox>,
    at: MetaPlaces,
)
    requires
        is_meta_of(meta, m, list, at),
    ensures
        reads_as(meta, m),
{
    assert(primary_of(meta) matches Some(p) && p == m.primary_id()) by {
        law_primary_reads_back(meta, list, at.pitm, m.primary_version, m.primary);
    }
    assert(items_of(meta) == m.items) by {
        law_items_read_back(
            meta,
            list,
            at.iinf,
            m.items_version,
            m.count,
            m.items,
            m.names,
        );
    }
    assert(references_of(meta) == m.refs) by {
        law_references_read_back(meta, list, at.iref, m.refs);
    }
    assert(are_properties_of(
        meta,
        properties_of(meta),
        m.props,
        m.entries,
        m.flags.2 % 2 == 1,
    )) by {
        law_properties_read_back(
            meta,
            list,
            at.iprp,
            m.props,
            m.version,
            m.flags,
            m.entries,
        );
    }
}

/// The body of an auxiliary type property: version and flags, and a text that ends with a zero or
/// where the body ends.
pub open spec fn is_aux_body(body: Seq<u8>, urn: Seq<u8>, rest: Seq<u8>) -> bool {
    &&& body.len() >= 4
    &&& !urn.contains(0)
    &&& body.subrange(4, body.len() as int) == urn + rest
    &&& rest.len() > 0 ==> rest[0] == 0
}

/// The gain map type of Apple's cameras occurs in a text.
pub open spec fn names_gainmap(urn: Seq<u8>) -> bool {
    exists|i: int| 0 <= i && #[trigger] holds_at(urn, i, AUX_GAINMAP@)
}

proof fn lemma_aux_type(meta: Seq<u8>, range: BoxRange, b: FileBox, urn: Seq<u8>, rest: Seq<u8>)
    requires
        is_range_of(meta, range, b),
        is_aux_body(b.body, urn, rest),
    ensures
        aux_type(meta, range) == urn,
{
    let n = urn.len() as int;
    let text = meta.subrange(range.body + 4, range.end);
    assert(text =~= b.body.subrange(4, b.body.len() as int)) by {
        let whole = meta.subrange(range.body, range.body + b.body.len());
        assert(whole == b.body);
        assert(whole.subrange(4, b.body.len() as int) =~= text);
    }
    assert(text == urn + rest);
    assert forall|j: int| 0 <= j < n implies !#[trigger] matches_at(text, seq![0u8], j) by {
        assert(text[j] == urn[j]);
        assert(urn.contains(urn[j]));
        if matches_at(text, seq![0u8], j) {
            assert(text.subrange(j, j + 1)[0] == text[j]);
        }
    }
    if rest.len() > 0 {
        assert(text[n] == 0);
        assert(text.subrange(n, n + 1) =~= seq![0u8]);
        lemma_find_from_is(text, seq![0u8], 0, n);
        assert(text.subrange(0, n) =~= urn);
    } else {
        lemma_find_from(text, seq![0u8], 0);
        assert(text =~= urn);
    }
}

proof fn lemma_numbers(associations: Seq<Association>, id: u16, a: int, i: int)
    requires
        0 <= i <= a < associations.len(),
        associations[a].id == id,
        forall|j: int| i <= j < a ==> (#[trigger] associations[j]).id != id,
    ensures
        property_numbers_from(associations, id, i) == Some(associations[a].properties),
    decreases a - i,
{
    if i < a {
        assert(associations[i].id != id);
        lemma_numbers(associations, id, a, i + 1);
    }
}

proof fn lemma_item_type(items: Seq<Item>, id: u16, t: int, i: int)
    requires
        0 <= i <= t < items.len(),
        items[t].id == id,
        forall|j: int| i <= j < t ==> (#[trigger] items[j]).id != id,
    ensures
        item_type_from(items, id, i) == items[t].typ,
    decreases t - i,
{
    if i < t {
        assert(items[i].id != id);
        lemma_item_type(items, id, t, i + 1);
    }
}

proof fn lemma_first_aux(
    meta: Seq<u8>,
    properties: Seq<BoxRange>,
    numbers: Seq<u16>,
    q: int,
    i: int,
)
    requires
        0 <= i <= q < numbers.len(),
        forall|j: int| i <= j <= q ==> 1 <= #[trigger] numbers[j] <= properties.len(),
        forall|j: int|
            i <= j < q ==> !is_full_box(properties[#[trigger] numbers[j] - 1], AUXC@),
        is_full_box(properties[numbers[q] - 1], AUXC@),
    ensures
        aux_type_from(meta, properties, numbers, i) == Some(
            aux_type(meta, properties[numbers[q] - 1]),
        ),
    decreases q - i,
{
    assert(1 <= numbers[i] <= properties.len());
    if i < q {
        assert(!is_full_box(properties[numbers[i] - 1], AUXC@));
        lemma_first_aux(meta, properties, numbers, q, i + 1);
    }
}

/// Item `id` of the metadata `m` has an auxiliary type that names a gain map: property `q` of its
/// entry `a` is the first auxiliary type property.
pub open spec fn has_gainmap_type(
    m: PhotoMeta,
    id: u16,
    a: int,
    q: int,
    urn: Seq<u8>,
    rest: Seq<u8>,
) -> bool {
    &&& m.is_entry_of(a, id)
    &&& 0 <= q < m.entries[a].numbers.len()
    &&& forall|j: int| 0 <= j <= q ==> #[trigger] m.has_property(a, j)
    &&& forall|j: int| 0 <= j < q ==> (#[trigger] m.property(a, j)).typ != AUXC@
    &&& m.property(a, q).typ == AUXC@
    &&& is_aux_body(m.property(a, q).body, urn, rest)
    &&& names_gainmap(urn)
}

proof fn lemma_gainmap_type(
    meta: Seq<u8>,
    m: PhotoMeta,
    id: u16,
    a: int,
    q: int,
    urn: Seq<u8>,
    rest: Seq<u8>,
)
    requires
        reads_as(meta, m),
        has_gainmap_type(m, id, a, q, urn, rest),
    ensures
        aux_type_of(meta, properties_of(meta), id) == Some(urn),
        occurs(urn, AUX_GAINMAP@),
{
    let found = properties_of(meta);
    let wide_index = m.flags.2 % 2 == 1;
    assert(is_association_of(found.associations[a], m.entries[a], wide_index));
    assert forall|j: int| 0 <= j < a implies (#[trigger] found.associations[j]).id != id by {
        assert(is_association_of(found.associations[j], m.entries[j], wide_index));
        assert(m.entries[j].id % 0x1_0000 != id);
    }
    lemma_numbers(found.associations, id, a, 0);
    let numbers = found.associations[a].properties;
    assert forall|j: int| 0 <= j <= q implies 1 <= #[trigger] numbers[j]
        <= found.properties.len() && numbers[j] == m.property_number(a, j) by {
        assert(m.has_property(a, j));
    }
    assert forall|j: int| 0 <= j < q implies !is_full_box(
        found.properties[#[trigger] numbers[j] - 1],
        AUXC@,
    ) by {
        assert(m.has_property(a, j));
        assert(m.property(a, j).typ != AUXC@);
        assert(is_range_of(meta, found.properties[numbers[j] - 1], m.props[numbers[j] - 1]));
    }
    assert(m.has_property(a, q));
    let range = found.properties[numbers[q] - 1];
    assert(is_range_of(meta, range, m.property(a, q)));
    lemma_first_aux(meta, found.properties, numbers, q, 0);
    lemma_aux_type(meta, range, m.property(a, q), urn, rest);
    let i = choose|i: int| 0 <= i && #[trigger] holds_at(urn, i, AUX_GAINMAP@);
    assert(matches_at(urn, AUX_GAINMAP@, i));
}

proof fn lemma_first_apple(
    meta: Seq<u8>,
    items: Seq<Item>,
    props: ItemProperties,
    primary: u16,
    refs: Seq<Reference>,
    r: int,
    i: int,
)
    requires
        0 <= i <= r < refs.len(),
        is_apple_aux(meta, items, props, primary, refs[r]),
        forall|j: int| i <= j < r ==> !is_apple_aux(meta, items, props, primary, #[trigger] refs[j]),
    ensures
        apple_aux_from(meta, items, props, primary, refs, i) == Some(refs[r].from),
    decreases r - i,
{
    if i < r {
        assert(!is_apple_aux(meta, items, props, primary, refs[i]));
        lemma_first_apple(meta, items, props, primary, refs, r, i + 1);
    }
}

/// A photo whose metadata box has an image that is auxiliary to the primary item, and whose
/// auxiliary type names a gain map, has that image as its gain map, at whatever position the
/// reference, the item, its association entry and its property stand.
pub proof fn law_gainmap_type_is_found(
    meta: Seq<u8>,
    m: PhotoMeta,
    list: Seq<FileBox>,
    at: MetaPlaces,
    r: int,
    t: int,
    a: int,
    q: int,
    urn: Seq<u8>,
    rest: Seq<u8>,
)
    requires
        is_meta_of(meta, m, list, at),
        0 <= r < m.refs.len(),
        m.refs[r].from != 0,
        m.refs[r].typ == AUXL@,
        m.refs[r].to.contains(m.primary_id() as u16),
        forall|j: int|
            0 <= j < r ==> (#[trigger] m.refs[j]).typ != AUXL@ || !m.refs[j].to.contains(
                m.primary_id() as u16,
            ),
        m.is_item_of(t, m.refs[r].from),
        m.items[t].typ == HVC1@ || m.items[t].typ == GRID@ || m.items[t].typ == HEVC@
            || m.items[t].typ == AV01@,
        has_gainmap_type(m, m.refs[r].from, a, q, urn, rest),
    ensures
        gainmap_item(meta) == (GainmapSource::AppleAux, m.refs[r].from),
{
    law_meta_reads_back(meta, m, list, at);
    let id = m.refs[r].from;
    let primary = m.primary_id() as u16;
    let props = properties_of(meta);
    lemma_gainmap_type(meta, m, id, a, q, urn, rest);
    lemma_item_type(m.items, id, t, 0);
    assert(is_apple_aux(meta, m.items, props, primary, m.refs[r]));
    assert forall|j: int| 0 <= j < r implies !is_apple_aux(
        meta,
        m.items,
        props,
        primary,
        #[trigger] m.refs[j],
    ) by {}
    lemma_first_apple(meta, m.items, props, primary, m.refs, r, 0);
    assert(apple_aux_of(meta) == Some(id));
}

proof fn lemma_apple_witness(
    meta: Seq<u8>,
    items: Seq<Item>,
    props: ItemProperties,
    primary: u16,
    refs: Seq<Reference>,
    i: int,
)
    requires
        0 <= i,
    ensures
        apple_aux_from(meta, items, props, primary, refs, i) matches Some(id) ==> exists|j: int|
            0 <= j < refs.len() && (#[trigger] refs[j]).from == id && is_apple_aux(
                meta,
                items,
                props,
                primary,
                refs[j],
            ),
    decreases refs.len() - i,
{
    if i < refs.len() {
        lemma_apple_witness(meta, items, props, primary, refs, i + 1);
        if is_apple_aux(meta, items, props, primary, refs[i]) {
            assert(refs[i].from == refs[i].from);
        }
    }
}

/// Reference `r` says that its item is auxiliary to the primary item.
pub open spec fn is_auxiliary(m: PhotoMeta, r: int) -> bool {
    &&& 0 <= r < m.refs.len()
    &&& m.refs[r].typ == AUXL@
    &&& m.refs[r].to.contains(m.primary_id() as u16)
}

/// An item has the type of an image.
pub open spec fn is_image(item: Item) -> bool {
    item.typ == HVC1@ || item.typ == GRID@ || item.typ == HEVC@ || item.typ == AV01@
}

proof fn lemma_typed_item(items: Seq<Item>, id: u16, i: int)
    requires
        0 <= i,
    ensures
        is_image_type(item_type_from(items, id, i)) ==> exists|t: int|
            i <= t < items.len() && (#[trigger] items[t]).id == id && is_image(items[t]),
    decreases items.len() - i,
{
    if i < items.len() {
        if items[i].id == id {
            assert(items[i].id == id);
        } else {
            lemma_typed_item(items, id, i + 1);
        }
    } else {
        let typ = item_type_from(items, id, i);
        assert(typ[0] == 0);
        assert(HVC1@[0] != 0 && GRID@[0] != 0 && HEVC@[0] != 0 && AV01@[0] != 0);
    }
}

proof fn lemma_some_numbers(associations: Seq<Association>, id: u16, i: int)
    requires
        0 <= i,
    ensures
        property_numbers_from(associations, id, i) matches Some(numbers) ==> exists|a: int|
            i <= a < associations.len() && (#[trigger] associations[a]).id == id
                && associations[a].properties == numbers,
    decreases associations.len() - i,
{
    if i < associations.len() {
        if associations[i].id == id {
            assert(associations[i].properties == associations[i].properties);
        } else {
            lemma_some_numbers(associations, id, i + 1);
        }
    }
}

/// An item is an image, is auxiliary to the primary item by one of the references, and one of the
/// properties of its association entry is an auxiliary type that names a gain map.
pub open spec fn is_auxiliary_image(m: PhotoMeta, id: u16) -> bool {
    &&& exists|r: int| #[trigger] is_auxiliary(m, r) && m.refs[r].from == id
    &&& exists|t: int| 0 <= t < m.items.len() && (#[trigger] m.items[t]).id == id && is_image(m.items[t])
    &&& exists|a: int, q: int| #[trigger] has_aux_property(m, id, a, q)
}

/// Property `q` of entry `a`, which is one for item `id`, is an auxiliary type that names a gain
/// map.
pub open spec fn has_aux_property(m: PhotoMeta, id: u16, a: int, q: int) -> bool {
    &&& 0 <= a < m.entries.len()
    &&& m.entries[a].id % 0x1_0000 == id
    &&& 0 <= q < m.entries[a].numbers.len()
    &&& m.has_property(a, q)
    &&& m.property(a, q).typ == AUXC@
    &&& names_gainmap(m.property(a, q).body)
}

proof fn lemma_some_aux(
    meta: Seq<u8>,
    properties: Seq<BoxRange>,
    numbers: Seq<u16>,
    i: int,
) -> (q: int)
    requires
        0 <= i,
        aux_type_from(meta, properties, numbers, i) is Some,
    ensures
        i <= q < numbers.len(),
        1 <= numbers[q] <= properties.len(),
        is_full_box(properties[numbers[q] - 1], AUXC@),
        aux_type_from(meta, properties, numbers, i) == Some(
            aux_type(meta, properties[numbers[q] - 1]),
        ),
    decreases numbers.len() - i,
{
    if is_full_box(properties[numbers[i] - 1], AUXC@) {
        i
    } else {
        lemma_some_aux(meta, properties, numbers, i + 1)
    }
}

/// What an auxiliary type names stands in the body of its property.
proof fn lemma_named_in_body(meta: Seq<u8>, range: BoxRange, b: FileBox)
    requires
        is_range_of(meta, range, b),
        range.body + 4 <= range.end,
        occurs(aux_type(meta, range), AUX_GAINMAP@),
    ensures
        names_gainmap(b.body),
{
    let text = meta.subrange(range.body + 4, range.end);
    let urn = aux_type(meta, range);
    let n = AUX_GAINMAP@.len() as int;
    lemma_find_from(text, seq![0u8], 0);
    let i = choose|i: int| matches_at(urn, AUX_GAINMAP@, i);
    let whole = meta.subrange(range.body, range.body + b.body.len());
    assert(urn.len() <= text.len());
    assert(forall|k: int| 0 <= k < urn.len() ==> #[trigger] urn[k] == text[k]);
    assert(b.body.subrange(i + 4, i + 4 + n) =~= urn.subrange(i, i + n)) by {
        assert forall|k: int| 0 <= k < n implies #[trigger] b.body.subrange(i + 4, i + 4 + n)[k]
            == urn.subrange(i, i + n)[k] by {
            assert(urn[i + k] == text[i + k]);
            assert(text[i + k] == meta[range.body + 4 + i + k]);
            assert(whole[i + 4 + k] == meta[range.body + 4 + i + k]);
        }
    }
    assert(holds_at(b.body, i + 4, AUX_GAINMAP@));
}

/// A gain map that is found by its auxiliary type is an image that is auxiliary to the primary
/// item, and a property that its association entry counts names a gain map.
pub proof fn law_typed_gainmap_is_auxiliary(
    meta: Seq<u8>,
    m: PhotoMeta,
    list: Seq<FileBox>,
    at: MetaPlaces,
)
    requires
        is_meta_of(meta, m, list, at),
        gainmap_item(meta).0 == GainmapSource::AppleAux,
    ensures
        is_auxiliary_image(m, gainmap_item(meta).1),
{
    law_meta_reads_back(meta, m, list, at);
    let primary = m.primary_id() as u16;
    let props = properties_of(meta);
    let id = gainmap_item(meta).1;
    lemma_apple_witness(meta, m.items, props, primary, m.refs, 0);
    let r = choose|j: int|
        0 <= j < m.refs.len() && (#[trigger] m.refs[j]).from == id && is_apple_aux(
            meta,
            m.items,
            props,
            primary,
            m.refs[j],
        );
    assert(is_auxiliary(m, r) && m.refs[r].from == id);
    lemma_typed_item(m.items, id, 0);
    lemma_some_numbers(props.associations, id, 0);
    let numbers = property_numbers_from(props.associations, id, 0).unwrap();
    let a = choose|a: int|
        0 <= a < props.associations.len() && (#[trigger] props.associations[a]).id == id
            && props.associations[a].properties == numbers;
    assert(is_association_of(props.associations[a], m.entries[a], m.flags.2 % 2 == 1));
    let q = lemma_some_aux(meta, props.properties, numbers, 0);
    let range = props.properties[numbers[q] - 1];
    assert(numbers[q] == props.associations[a].properties[q]);
    assert(numbers[q] == m.property_number(a, q));
    assert(is_range_of(meta, range, m.props[numbers[q] - 1]));
    lemma_named_in_body(meta, range, m.property(a, q));
    assert(has_aux_property(m, id, a, q));
}

/// Without an image that is auxiliary to the primary item, no gain map is found by its type.
proof fn lemma_no_apple(meta: Seq<u8>, m: PhotoMeta, list: Seq<FileBox>, at: MetaPlaces)
    requires
        is_meta_of(meta, m, list, at),
        forall|r: int| 0 <= r < m.refs.len() ==> !#[trigger] is_auxiliary(m, r),
    ensures
        apple_aux_of(meta) is None,
{
    law_meta_reads_back(meta, m, list, at);
    let primary = m.primary_id() as u16;
    lemma_apple_witness(meta, m.items, properties_of(meta), primary, m.refs, 0);
    if apple_aux_of(meta) is Some {
        let id = apple_aux_of(meta).unwrap();
        let r = choose|j: int|
            0 <= j < m.refs.len() && (#[trigger] m.refs[j]).from == id && is_apple_aux(
                meta,
                m.items,
                properties_of(meta),
                primary,
                m.refs[j],
            );
        assert(is_auxiliary(m, r));
    }
}

proof fn lemma_first_tone_map(items: Seq<Item>, t: int, i: int)
    requires
        0 <= i <= t < items.len(),
        items[t].typ == TMAP@,
        forall|j: int| i <= j < t ==> (#[trigger] items[j]).typ != TMAP@,
    ensures
        tone_map_from(items, i) == Some(items[t].id),
    decreases t - i,
{
    if i < t {
        assert(items[i].typ != TMAP@);
        lemma_first_tone_map(items, t, i + 1);
    }
}

/// Reference `r` says what item `id` is derived from: two items or more.
pub open spec fn is_derivation(refs: Seq<Reference>, r: int, id: u16) -> bool {
    refs[r].typ == DIMG@ && refs[r].from == id && refs[r].to.len() >= 2
}

proof fn lemma_last_derivation(refs: Seq<Reference>, id: u16, r: int, n: int)
    requires
        0 <= r < n <= refs.len(),
        is_derivation(refs, r, id),
        forall|j: int| r < j < n ==> !#[trigger] is_derivation(refs, j, id),
    ensures
        derived_from(refs, id, n) == Some(refs[r].to[1]),
    decreases n,
{
    if n - 1 > r {
        assert(!is_derivation(refs, n - 1, id));
        lemma_last_derivation(refs, id, r, n - 1);
    }
}

proof fn lemma_no_derivation(refs: Seq<Reference>, id: u16, n: int)
    requires
        n <= refs.len(),
        forall|j: int| 0 <= j < n ==> !#[trigger] is_derivation(refs, j, id),
    ensures
        derived_from(refs, id, n) is None,
    decreases n,
{
    if n > 0 {
        assert(!is_derivation(refs, n - 1, id));
        lemma_no_derivation(refs, id, n - 1);
    }
}

/// Where no item is auxiliary to the primary one, the gain map is the second of the items that the
/// first tone map item is derived from; the last reference that says so counts.
pub proof fn law_tone_map_gainmap_is_found(
    meta: Seq<u8>,
    m: PhotoMeta,
    list: Seq<FileBox>,
    at: MetaPlaces,
    t: int,
    r: int,
)
    requires
        is_meta_of(meta, m, list, at),
        forall|j: int| 0 <= j < m.refs.len() ==> !#[trigger] is_auxiliary(m, j),
        0 <= t < m.items.len(),
        m.items[t].typ == TMAP@,
        forall|j: int| 0 <= j < t ==> (#[trigger] m.items[j]).typ != TMAP@,
        0 <= r < m.refs.len(),
        is_derivation(m.refs, r, m.items[t].id),
        forall|j: int|
            r < j < m.refs.len() ==> !#[trigger] is_derivation(m.refs, j, m.items[t].id),
    ensures
        gainmap_item(meta) == (GainmapSource::IsoTmap, m.refs[r].to[1]),
{
    law_meta_reads_back(meta, m, list, at);
    lemma_no_apple(meta, m, list, at);
    lemma_first_tone_map(m.items, t, 0);
    lemma_last_derivation(m.refs, m.items[t].id, r, m.refs.len() as int);
}

proof fn lemma_no_tone_map(items: Seq<Item>, i: int)
    requires
        0 <= i,
        forall|j: int| i <= j < items.len() ==> (#[trigger] items[j]).typ != TMAP@,
    ensures
        tone_map_from(items, i) is None,
    decreases items.len() - i,
{
    if i < items.len() {
        assert(items[i].typ != TMAP@);
        lemma_no_tone_map(items, i + 1);
    }
}

/// Without an auxiliary image and without a tone map item there is no gain map.
pub proof fn law_no_gainmap_is_found(
    meta: Seq<u8>,
    m: PhotoMeta,
    list: Seq<FileBox>,
    at: MetaPlaces,
)
    requires
        is_meta_of(meta, m, list, at),
        forall|j: int| 0 <= j < m.refs.len() ==> !#[trigger] is_auxiliary(m, j),
        (forall|j: int| 0 <= j < m.items.len() ==> (#[trigger] m.items[j]).typ != TMAP@) || exists|
            t: int,
        |
            0 <= t < m.items.len() && (#[trigger] m.items[t]).typ == TMAP@ && (forall|j: int|
                0 <= j < t ==> (#[trigger] m.items[j]).typ != TMAP@) && (forall|j: int|
                0 <= j < m.refs.len() ==> !#[trigger] is_derivation(m.refs, j, m.items[t].id)),
    ensures
        gainmap_item(meta) == (GainmapSource::NotFound, 0u16),
{
    law_meta_reads_back(meta, m, list, at);
    lemma_no_apple(meta, m, list, at);
    if forall|j: int| 0 <= j < m.items.len() ==> (#[trigger] m.items[j]).typ != TMAP@ {
        lemma_no_tone_map(m.items, 0);
    } else {
        let t = choose|t: int|
            0 <= t < m.items.len() && (#[trigger] m.items[t]).typ == TMAP@ && (forall|j: int|
                0 <= j < t ==> (#[trigger] m.items[j]).typ != TMAP@) && (forall|j: int|
                0 <= j < m.refs.len() ==> !#[trigger] is_derivation(m.refs, j, m.items[t].id));
        lemma_first_tone_map(m.items, t, 0);
        lemma_no_derivation(m.refs, m.items[t].id, m.refs.len() as int);
    }
}

pub(crate) proof fn lemma_meta_behind(raw: Seq<u8>, off: int, front: Seq<FileBox>, body: Seq<u8>)
    requires
        are_boxes(front),
        forall|i: int| 0 <= i < front.len() ==> (#[trigger] front[i]).typ != META@,
        4 <= body.len() < 0xffff_fff8,
        holds_at(
            raw,
            off,
            boxes_bytes(front) + box_bytes(FileBox { typ: META@, body }),
        ),
    ensures
        meta_from(raw, off) matches Some((start, end)) && 0 <= start && start + body.len() - 4 == end
            && end <= raw.len() && raw.subrange(start, end) == body.subrange(4, body.len() as int),
    decreases front.len(),
{
    let last = FileBox { typ: META@, body };
    if front.len() == 0 {
        let size = body.len() as int + 8;
        assert(boxes_bytes(front) + box_bytes(last) =~= box_bytes(last));
        lemma_holds_piece(raw, off, be32_bytes(size) + META@, body);
        lemma_holds_piece(raw, off, be32_bytes(size), META@);
        lemma_be32_at(raw, off, size);
        assert(matches_at(raw, META@, off + 4));
        let whole = raw.subrange(off + 8, off + size);
        assert(whole == body);
        assert(raw.subrange(off + 12, off + size) =~= whole.subrange(4, body.len() as int));
    } else {
        let b = front[0];
        let rest = front.skip(1);
        let size = b.body.len() as int + 8;
        assert(b.typ.len() == 4 && b.typ != META@);
        assert(boxes_bytes(front) + box_bytes(last) =~= box_bytes(b) + (boxes_bytes(rest)
            + box_bytes(last)));
        lemma_holds_piece(raw, off, box_bytes(b), boxes_bytes(rest) + box_bytes(last));
        lemma_holds_piece(raw, off, be32_bytes(size) + b.typ, b.body);
        lemma_holds_piece(raw, off, be32_bytes(size), b.typ);
        lemma_be32_at(raw, off, size);
        assert(!matches_at(raw, META@, off + 4));
        assert forall|i: int| 0 <= i < rest.len() implies (#[trigger] rest[i]).typ != META@
            && rest[i].typ.len() == 4 && rest[i].body.len() + 8 < 0x1_0000_0000 by {
            assert(rest[i] == front[i + 1]);
        }
        lemma_meta_behind(raw, off + size, rest, body);
    }
}

/// The gain map of a photo is that of its first metadata box, whatever boxes stand before it and
/// whatever follows.
pub proof fn law_photo_has_the_gainmap_of_its_meta_box(
    raw: Seq<u8>,
    front: Seq<FileBox>,
    body: Seq<u8>,
)
    requires
        are_boxes(front),
        forall|i: int| 0 <= i < front.len() ==> (#[trigger] front[i]).typ != META@,
        4 <= body.len() < 0xffff_fff8,
        holds_at(
            raw,
            0,
            boxes_bytes(front) + box_bytes(FileBox { typ: META@, body }),
        ),
    ensures
        photo_gainmap(raw) == gainmap_item(body.subrange(4, body.len() as int)),
{
    lemma_meta_behind(raw, 0, front, body);
}

proof fn lemma_no_meta(raw: Seq<u8>, off: int, list: Seq<FileBox>)
    requires
        0 <= off <= raw.len(),
        are_boxes(list),
        forall|i: int| 0 <= i < list.len() ==> (#[trigger] list[i]).typ != META@,
        raw.subrange(off, raw.len() as int) == boxes_bytes(list),
    ensures
        meta_from(raw, off) is None,
    decreases list.len(),
{
    assert(raw.len() - off == boxes_bytes(list).len());
    if list.len() > 0 {
        let (b, rest) = (list[0], list.skip(1));
        let size = b.body.len() as int + 8;
        assert(b.typ.len() == 4 && b.typ != META@);
        assert(holds_at(raw, off, box_bytes(b) + boxes_bytes(rest)));
        lemma_holds_piece(raw, off, box_bytes(b), boxes_bytes(rest));
        lemma_holds_piece(raw, off, be32_bytes(size) + b.typ, b.body);
        lemma_holds_piece(raw, off, be32_bytes(size), b.typ);
        lemma_be32_at(raw, off, size);
        assert(!matches_at(raw, META@, off + 4));
        assert forall|i: int| 0 <= i < rest.len() implies (#[trigger] rest[i]).typ != META@
            && rest[i].typ.len() == 4 && rest[i].body.len() + 8 < 0x1_0000_0000 by {
            assert(rest[i] == list[i + 1]);
        }
        lemma_no_meta(raw, off + size, rest);
    }
}

/// A file without a metadata box has no gain map, and its maker note is not looked for.
pub proof fn law_files_without_meta_box_have_nothing(list: Seq<FileBox>)
    requires
        are_boxes(list),
        forall|i: int| 0 <= i < list.len() ==> (#[trigger] list[i]).typ != META@,
    ensures
        photo_gainmap(boxes_bytes(list)) == (GainmapSource::NotFound, 0u16),
        photo_maker_note(boxes_bytes(list)) is None,
{
    let raw = boxes_bytes(list);
    assert(raw.subrange(0, raw.len() as int) =~= raw);
    lemma_no_meta(raw, 0, list);
}

/// A file with a metadata box has the maker note that is found in the whole file.
pub proof fn law_files_with_meta_box_have_their_maker_note(
    raw: Seq<u8>,
    front: Seq<FileBox>,
    body: Seq<u8>,
)
    requires
        are_boxes(front),
        forall|i: int| 0 <= i < front.len() ==> (#[trigger] front[i]).typ != META@,
        4 <= body.len() < 0xffff_fff8,
        holds_at(raw, 0, boxes_bytes(front) + box_bytes(FileBox { typ: META@, body })),
    ensures
        photo_maker_note(raw) == maker_note_from(raw, 0),
{
    lemma_meta_behind(raw, 0, front, body);
}

} // verus!
