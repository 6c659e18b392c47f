//! Which metadata of a photo count, and in which order.

use vstd::prelude::*;

use crate::bytes::{begins_with, matches_at};
use crate::detect_laws::{has_text, lemma_has_text};
use crate::jpeg::{gainmap_at, segments, Segment};
use crate::neutral::{
    gives, gives_values, has_bit, is_neutral_from, iso_metadata, metadata_of, own_channel_is_sound,
    photo_metadata, sample_from_zero, segment_metadata, xmp_metadata, Channel, Encoding, Metadata,
    NeutralInfo, Value,
};
use crate::neutral_laws::{
    has_denominators, has_sample, law_samples_stand_in_the_order_of_the_channels, starts_at_no_gain,
};
use crate::run::Part;
use crate::segment_laws::{
    are_parts, is_image_rest, jpeg_file, law_segments_read_back, opens_with,
};
use crate::tags::{HDRGM, ISO21496_URN, XMP_SIG};
use crate::tiff_laws::{long_at, short_at};

verus! {

/// The channel has no neutral sample: where the smallest gain is none, gamma is not positive or the
/// largest gain is below a billionth; else `neutral` gives none.
pub open spec fn has_no_sample<F: Fn(Channel) -> Option<u8>>(neutral: F, e: Encoding) -> bool {
    if starts_at_no_gain(e) {
        ||| e.gamma matches Value::Fraction { num, den: _ } && num <= 0
        ||| e.max matches Value::Fraction { num, den } && -den < num * 1_000_000_000 < den
    } else {
        &&& e.min matches Value::Fraction { num, den } ==> num != 0 && den > 0
        &&& e.max matches Value::Fraction { num: _, den } ==> den > 0
        &&& e.gamma matches Value::Fraction { num: _, den } ==> den > 0
        &&& forall|c: Channel, r: Option<u8>|
            c@ == e && #[trigger] call_ensures(neutral, (c,), r) ==> r is None
    }
}

/// Some channel of the metadata has no neutral sample.
pub open spec fn is_passed_over<F: Fn(Channel) -> Option<u8>>(neutral: F, m: Metadata) -> bool {
    exists|i: int| 0 <= i < m.channels.len() && has_no_sample(neutral, #[trigger] m.channels[i])
}

proof fn lemma_no_sample<F: Fn(Channel) -> Option<u8>>(neutral: F, e: Encoding, r: Option<u8>)
    requires
        has_no_sample(neutral, e),
        gives(neutral, e, r),
    ensures
        r is None,
{
    if starts_at_no_gain(e) {
        assert(sample_from_zero(e) == Some(None::<u8>));
    } else {
        assert(sample_from_zero(e) is None);
    }
}

proof fn lemma_passed_over<F: Fn(Channel) -> Option<u8>>(
    neutral: F,
    list: Seq<Metadata>,
    i: int,
    info: NeutralInfo,
)
    requires
        0 <= i < list.len(),
        list[i].channels.len() <= 3,
        is_passed_over(neutral, list[i]),
        is_neutral_from(neutral, list, i, info),
    ensures
        is_neutral_from(neutral, list, i + 1, info),
{
    let channels = list[i].channels;
    if gives_values(neutral, channels, info.values@) {
        let j = choose|j: int|
            0 <= j < channels.len() && has_no_sample(neutral, #[trigger] channels[j]);
        assert(gives(neutral, channels[j], Some(info.values@[j])));
        lemma_no_sample(neutral, channels[j], Some(info.values@[j]));
    }
}

proof fn lemma_all_passed_over<F: Fn(Channel) -> Option<u8>>(
    neutral: F,
    list: Seq<Metadata>,
    i: int,
    k: int,
    info: NeutralInfo,
)
    requires
        0 <= i <= k <= list.len(),
        forall|j: int|
            0 <= j < k ==> (#[trigger] list[j]).channels.len() <= 3 && is_passed_over(
                neutral,
                list[j],
            ),
        is_neutral_from(neutral, list, i, info),
    ensures
        is_neutral_from(neutral, list, k, info),
    decreases k - i,
{
    if i < k {
        assert(list[i].channels.len() <= 3);
        lemma_passed_over(neutral, list, i, info);
        lemma_all_passed_over(neutral, list, i + 1, k, info);
    }
}

proof fn lemma_from_there<F: Fn(Channel) -> Option<u8>>(
    neutral: F,
    list: Seq<Metadata>,
    k: int,
    i: int,
    info: NeutralInfo,
)
    requires
        0 <= k,
        0 <= i,
        k <= list.len(),
    ensures
        is_neutral_from(neutral, list.skip(k), i, info) == is_neutral_from(
            neutral,
            list,
            k + i,
            info,
        ),
    decreases list.len() - k - i,
{
    if k + i < list.len() {
        assert(list.skip(k)[i] == list[k + i]);
        lemma_from_there(neutral, list, k, i + 1, info);
    }
}

/// The first metadata count whose channels all have a neutral sample: metadata with a channel
/// without one are passed over, and the samples stand in the order of the channels.
pub proof fn law_first_metadata_with_samples_count<F: Fn(Channel) -> Option<u8>>(
    neutral: F,
    list: Seq<Metadata>,
    k: int,
    samples: Seq<u8>,
    info: NeutralInfo,
)
    requires
        0 <= k < list.len(),
        forall|j: int|
            0 <= j < k ==> (#[trigger] list[j]).channels.len() <= 3 && is_passed_over(
                neutral,
                list[j],
            ),
        1 <= list[k].channels.len() <= 3,
        samples.len() == list[k].channels.len(),
        forall|i: int|
            0 <= i < samples.len() ==> has_sample(
                neutral,
                list[k].channels[i],
                #[trigger] samples[i],
            ),
        is_neutral_from(neutral, list, 0, info),
    ensures
        info.ok,
        info.multi_channel == list[k].multi_channel,
        samples.len() == 3 ==> info.values@ == samples,
        samples.len() == 2 ==> info.values@ == seq![samples[0], samples[1], 0u8],
        samples.len() == 1 ==> info.values@ == seq![samples[0], samples[0], samples[0]],
{
    lemma_all_passed_over(neutral, list, 0, k, info);
    lemma_from_there(neutral, list, k, 0, info);
    assert(list.skip(k)[0] == list[k]);
    law_samples_stand_in_the_order_of_the_channels(neutral, list.skip(k), samples, info);
}

/// Where all metadata are passed over, or there are none, no samples are given.
pub proof fn law_no_samples_without_metadata<F: Fn(Channel) -> Option<u8>>(
    neutral: F,
    list: Seq<Metadata>,
    info: NeutralInfo,
)
    requires
        forall|j: int|
            0 <= j < list.len() ==> (#[trigger] list[j]).channels.len() <= 3 && is_passed_over(
                neutral,
                list[j],
            ),
        is_neutral_from(neutral, list, 0, info),
    ensures
        !info.ok,
        !info.multi_channel,
        info.values@ == seq![0u8, 0, 0],
{
    lemma_all_passed_over(neutral, list, 0, list.len() as int, info);
}

/// ISO 21496-1 metadata of another version, of a gain map towards SDR, that are cut off, or with a
/// denominator of 0, give no channels.
pub proof fn law_unsound_iso_payload_is_refused(p: Seq<u8>)
    requires
        ({
            let multi = p[32] >= 0x80;
            let n = if multi {
                3int
            } else {
                1
            };
            let common = p[32] % 16 >= 8;
            ||| p.len() < 33
            ||| p.subrange(0, 28) != ISO21496_URN@
            ||| short_at(p, 28, false) != 0
            ||| p[32] % 8 >= 4
            ||| common && (p.len() < 45 + 20 * n || long_at(p, 33, false) == 0)
            ||| !common && (p.len() < 49 + 40 * n || long_at(p, 37, false) == 0 || long_at(
                p,
                45,
                false,
            ) == 0 || exists|i: int| 0 <= i < n && !#[trigger] has_denominators(p, i))
        }),
    ensures
        iso_metadata(p) is None,
{
    let flags = p[32];
    assert(has_bit(flags, 0x80) == (flags >= 0x80));
    assert(has_bit(flags, 8) == (flags % 16 >= 8));
    assert(has_bit(flags, 4) == (flags % 8 >= 4));
    let n = if flags >= 0x80 {
        3int
    } else {
        1
    };
    if exists|i: int| 0 <= i < n && !#[trigger] has_denominators(p, i) {
        let i = choose|i: int| 0 <= i < n && !#[trigger] has_denominators(p, i);
        assert(!own_channel_is_sound(p, 49 + 40 * i));
    }
    if p.len() >= 33 && matches_at(p, ISO21496_URN@, 0) {
        assert(p.subrange(0, 28) =~= ISO21496_URN@);
    }
}

/// What the ISO 21496-1 segments of a list give, in order. A segment that holds no more than a
/// version does not count.
pub open spec fn iso_of(list: Seq<Part>) -> Seq<Metadata>
    decreases list.len(),
{
    if list.len() == 0 {
        Seq::empty()
    } else if list[0].0 == 0xE2 && opens_with(list[0], ISO21496_URN@) && list[0].1.len() > 32
        && iso_metadata(list[0].1) is Some {
        seq![iso_metadata(list[0].1).unwrap()] + iso_of(list.skip(1))
    } else {
        iso_of(list.skip(1))
    }
}

/// What the XMP segments of a list give, in order.
pub open spec fn xmp_of(list: Seq<Part>) -> Seq<Metadata>
    decreases list.len(),
{
    if list.len() == 0 {
        Seq::empty()
    } else if list[0].0 == 0xE1 && opens_with(list[0], XMP_SIG@) && has_text(list[0].1, HDRGM@)
        && xmp_metadata(list[0].1) is Some {
        seq![xmp_metadata(list[0].1).unwrap()] + xmp_of(list.skip(1))
    } else {
        xmp_of(list.skip(1))
    }
}

/// What the segments of a list give of one kind.
pub open spec fn kind_of(list: Seq<Part>, iso: bool) -> Seq<Metadata> {
    if iso {
        iso_of(list)
    } else {
        xmp_of(list)
    }
}

proof fn lemma_kind_add(a: Seq<Part>, p: Part, iso: bool)
    ensures
        kind_of(a.push(p), iso) == kind_of(a, iso) + kind_of(seq![p], iso),
    decreases a.len(),
{
    if a.len() == 0 {
        assert(a.push(p) =~= seq![p]);
        assert(kind_of(a, iso) + kind_of(seq![p], iso) =~= kind_of(seq![p], iso));
    } else {
        assert(a.push(p).skip(1) =~= a.skip(1).push(p));
        assert(a.push(p)[0] == a[0]);
        lemma_kind_add(a.skip(1), p, iso);
        assert(kind_of(a.push(p), iso) =~= kind_of(a, iso) + kind_of(seq![p], iso));
    }
}

proof fn lemma_one_kind(s: Segment, p: Part, iso: bool)
    requires
        s.marker == p.0,
        s.payload == p.1,
    ensures
        kind_of(seq![p], iso) == (match segment_metadata(s, iso) {
            Some(m) => seq![m],
            None => Seq::empty(),
        }),
{
    lemma_has_text(p.1, HDRGM@);
    assert(begins_with(p.1, XMP_SIG@) == opens_with(p, XMP_SIG@));
    assert(begins_with(p.1, ISO21496_URN@) == opens_with(p, ISO21496_URN@));
    assert(seq![p].skip(1) =~= Seq::<Part>::empty());
    reveal_with_fuel(iso_of, 2);
    reveal_with_fuel(xmp_of, 2);
    let none = Seq::<Metadata>::empty();
    assert(forall|m: Metadata| #[trigger] seq![m] + none =~= seq![m]);
}

proof fn lemma_metadata_of(segs: Seq<Segment>, list: Seq<Part>, iso: bool, n: int)
    requires
        0 <= n <= list.len(),
        segs.len() == list.len(),
        forall|i: int|
            0 <= i < list.len() ==> (#[trigger] segs[i]).marker == list[i].0 && segs[i].payload
                == list[i].1,
    ensures
        metadata_of(segs, iso, n) == kind_of(list.take(n), iso),
    decreases n,
{
    if n == 0 {
        assert(list.take(0) =~= Seq::empty());
    } else {
        let p = list[n - 1];
        lemma_metadata_of(segs, list, iso, n - 1);
        assert(segs[n - 1].marker == p.0);
        assert(list.take(n) =~= list.take(n - 1).push(p));
        lemma_kind_add(list.take(n - 1), p, iso);
        lemma_one_kind(segs[n - 1], p, iso);
        let before = metadata_of(segs, iso, n - 1);
        match segment_metadata(segs[n - 1], iso) {
            Some(m) => {
                assert(before + seq![m] =~= before.push(m));
            },
            None => {
                assert(before + Seq::<Metadata>::empty() =~= before);
            },
        }
    }
}

proof fn lemma_file_metadata(list: Seq<Part>, rest: Seq<u8>, iso: bool)
    requires
        are_parts(list),
        is_image_rest(rest),
        jpeg_file(list, rest).len() >= 4,
    ensures
        ({
            let segs = segments(jpeg_file(list, rest));
            metadata_of(segs, iso, segs.len() as int) == kind_of(list, iso)
        }),
{
    law_segments_read_back(list, rest);
    lemma_metadata_of(segments(jpeg_file(list, rest)), list, iso, list.len() as int);
    assert(list.take(list.len() as int) =~= list);
}

/// The metadata of a photo count in this order: the ISO 21496-1 segments of the photo, those of its
/// gain map, the XMP packets of the photo, those of its gain map.
pub proof fn law_metadata_count_in_order(
    list: Seq<Part>,
    rest: Seq<u8>,
    abs: int,
    size: int,
    gm_list: Seq<Part>,
    gm_rest: Seq<u8>,
)
    requires
        are_parts(list),
        is_image_rest(rest),
        jpeg_file(list, rest).len() >= 4,
        gainmap_at(jpeg_file(list, rest)) == Some((abs, size)),
        are_parts(gm_list),
        is_image_rest(gm_rest),
        jpeg_file(gm_list, gm_rest).len() >= 4,
        jpeg_file(list, rest).subrange(abs, abs + size) == jpeg_file(gm_list, gm_rest),
    ensures
        photo_metadata(jpeg_file(list, rest)) == iso_of(list) + iso_of(gm_list) + (xmp_of(list)
            + xmp_of(gm_list)),
{
    lemma_file_metadata(list, rest, true);
    lemma_file_metadata(list, rest, false);
    lemma_file_metadata(gm_list, gm_rest, true);
    lemma_file_metadata(gm_list, gm_rest, false);
}

/// The metadata of a photo without a gain map are those of its own segments.
pub proof fn law_metadata_without_a_gainmap(list: Seq<Part>, rest: Seq<u8>)
    requires
        are_parts(list),
        is_image_rest(rest),
        jpeg_file(list, rest).len() >= 4,
        gainmap_at(jpeg_file(list, rest)) is None,
    ensures
        photo_metadata(jpeg_file(list, rest)) == iso_of(list) + xmp_of(list),
{
    lemma_file_metadata(list, rest, true);
    lemma_file_metadata(list, rest, false);
    let none = Seq::<Segment>::empty();
    assert(metadata_of(none, true, 0) =~= Seq::<Metadata>::empty());
    assert(metadata_of(none, false, 0) =~= Seq::<Metadata>::empty());
    assert(iso_of(list) + Seq::<Metadata>::empty() =~= iso_of(list));
    assert(xmp_of(list) + Seq::<Metadata>::empty() =~= xmp_of(list));
}

} // verus!
