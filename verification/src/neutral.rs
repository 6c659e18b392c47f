//! The gain map sample that leaves a pixel as it is.

use vstd::prelude::*;
use vstd::slice::{slice_subrange, slice_to_vec};

use crate::attributes::{attr_numbers_from, text_views, xmp_attr_numbers};
use crate::bytes::{
    begins_with, contains, occurs, read_be16, read_be32, signed32, starts_with, u16_be, u32_be,
};
use crate::jpeg::{
    gainmap_at, gainmap_range, jpeg_segments, segment_views, segments, JpegSegment, Segment,
};
use crate::tags::{GAIN_MAP_GAMMA, GAIN_MAP_MAX, GAIN_MAP_MIN, HDRGM, ISO21496_URN, XMP_SIG};

verus! {

/// A number as the metadata give it.
pub enum Number {
    /// A quotient; the denominator is not 0.
    Fraction { num: i64, den: u32 },
    /// Decimal notation.
    Text(Vec<u8>),
}

/// What a `Number` stands for.
pub enum Value {
    Fraction { num: int, den: int },
    Text(Seq<u8>),
}

impl View for Number {
    type V = Value;

    open spec fn view(&self) -> Value {
        match *self {
            Number::Fraction { num, den } => Value::Fraction { num: num as int, den: den as int },
            Number::Text(text) => Value::Text(text@),
        }
    }
}

/// How a gain map channel is encoded.
pub struct Channel {
    /// Log2 of the smallest gain.
    pub min: Number,
    /// Log2 of the largest gain.
    pub max: Number,
    /// Encoding gamma.
    pub gamma: Number,
}

/// What a `Channel` stands for.
pub struct Encoding {
    pub min: Value,
    pub max: Value,
    pub gamma: Value,
}

impl View for Channel {
    type V = Encoding;

    open spec fn view(&self) -> Encoding {
        Encoding { min: self.min@, max: self.max@, gamma: self.gamma@ }
    }
}

/// How a gain map is encoded, by one piece of metadata.
pub struct Candidate {
    /// Channels differ.
    pub multi_channel: bool,
    /// One channel for all, or up to three.
    pub channels: Vec<Channel>,
}

/// What a `Candidate` stands for.
pub struct Metadata {
    pub multi_channel: bool,
    pub channels: Seq<Encoding>,
}

/// The encodings that a list of `Channel` stands for.
pub open spec fn channel_views(v: Seq<Channel>) -> Seq<Encoding> {
    v.map_values(|c: Channel| c@)
}

impl View for Candidate {
    type V = Metadata;

    open spec fn view(&self) -> Metadata {
        Metadata {
            multi_channel: self.multi_channel,
            channels: channel_views(self.channels@),
        }
    }
}

/// The metadata that a list of `Candidate` stands for.
pub open spec fn candidate_views(v: Seq<Candidate>) -> Seq<Metadata> {
    v.map_values(|c: Candidate| c@)
}

/// Position of the flags in an ISO 21496-1 segment: behind the URN and two version numbers.
pub const FLAGS_AT: usize = 32;

/// Bit `bit` (a power of 2) is set in `flags`.
pub open spec fn has_bit(flags: u8, bit: int) -> bool {
    (flags as int / bit) % 2 == 1
}

/// The quotient of two numbers in the payload.
pub open spec fn signed_fraction(payload: Seq<u8>, num_at: int, den_at: int) -> Value {
    Value::Fraction { num: signed32(u32_be(payload, num_at)), den: u32_be(payload, den_at) }
}

/// The quotient of two unsigned numbers in the payload.
pub open spec fn plain_fraction(payload: Seq<u8>, num_at: int, den_at: int) -> Value {
    Value::Fraction { num: u32_be(payload, num_at), den: u32_be(payload, den_at) }
}

/// The channel at `at` of metadata with a common denominator, which stands behind the flags.
pub open spec fn common_channel(payload: Seq<u8>, at: int) -> Encoding {
    Encoding {
        min: signed_fraction(payload, at, FLAGS_AT + 1),
        max: signed_fraction(payload, at + 4, FLAGS_AT + 1),
        gamma: plain_fraction(payload, at + 8, FLAGS_AT + 1),
    }
}

/// The channel at `at` of metadata where each number has its own denominator.
pub open spec fn own_channel(payload: Seq<u8>, at: int) -> Encoding {
    Encoding {
        min: signed_fraction(payload, at, at + 4),
        max: signed_fraction(payload, at + 8, at + 12),
        gamma: plain_fraction(payload, at + 16, at + 20),
    }
}

/// The three denominators of the channel at `at` are not 0.
pub open spec fn own_channel_is_sound(payload: Seq<u8>, at: int) -> bool {
    u32_be(payload, at + 4) != 0 && u32_be(payload, at + 12) != 0 && u32_be(payload, at + 20) != 0
}

/// The encoding that an ISO 21496-1 payload gives: version 0, gain from SDR to HDR, one or three
/// channels. With a common denominator, 12 bytes and 20 per channel follow the flags; else 16 bytes,
/// whose second and fourth number are denominators, and 40 per channel.
pub open spec fn iso_metadata(payload: Seq<u8>) -> Option<Metadata> {
    let flags = payload[FLAGS_AT as int];
    let n = if has_bit(flags, 0x80) {
        3int
    } else {
        1int
    };
    let head = FLAGS_AT + 1;
    if !begins_with(payload, ISO21496_URN@) || payload.len() < head || u16_be(payload, 28) != 0
        || has_bit(flags, 4) {
        None
    } else if has_bit(flags, 8) {
        if payload.len() < head + 12 + 20 * n || u32_be(payload, head) == 0 {
            None
        } else {
            Some(
                Metadata {
                    multi_channel: has_bit(flags, 0x80),
                    channels: Seq::new(
                        n as nat,
                        |i: int| common_channel(payload, FLAGS_AT + 13 + 20 * i),
                    ),
                },
            )
        }
    } else if payload.len() < head + 16 + 40 * n || u32_be(payload, head + 4) == 0 || u32_be(
        payload,
        head + 12,
    ) == 0 || exists|i: int|
        0 <= i < n && !#[trigger] own_channel_is_sound(payload, FLAGS_AT + 17 + 40 * i) {
        None
    } else {
        Some(
            Metadata {
                multi_channel: has_bit(flags, 0x80),
                channels: Seq::new(
                    n as nat,
                    |i: int| own_channel(payload, FLAGS_AT + 17 + 40 * i),
                ),
            },
        )
    }
}

fn signed(n: u32) -> (r: i64)
    ensures
        r == signed32(n as int),
{
    if n >= 0x8000_0000 {
        n as i64 - 0x1_0000_0000
    } else {
        n as i64
    }
}

fn read_signed(payload: &[u8], num_at: usize, den_at: usize) -> (r: Number)
    requires
        num_at + 4 <= payload@.len(),
        den_at + 4 <= payload@.len(),
    ensures
        r@ == signed_fraction(payload@, num_at as int, den_at as int),
{
    Number::Fraction { num: signed(read_be32(payload, num_at)), den: read_be32(payload, den_at) }
}

fn read_plain(payload: &[u8], num_at: usize, den_at: usize) -> (r: Number)
    requires
        num_at + 4 <= payload@.len(),
        den_at + 4 <= payload@.len(),
    ensures
        r@ == plain_fraction(payload@, num_at as int, den_at as int),
{
    Number::Fraction { num: read_be32(payload, num_at) as i64, den: read_be32(payload, den_at) }
}

/// The channels of metadata with a common denominator.
fn read_common_channels(payload: &[u8], n: usize) -> (channels: Vec<Channel>)
    requires
        n <= 3,
        FLAGS_AT + 13 + 20 * n <= payload@.len(),
    ensures
        channel_views(channels@) == Seq::new(
            n as nat,
            |i: int| common_channel(payload@, FLAGS_AT + 13 + 20 * i),
        ),
{
    let mut channels: Vec<Channel> = Vec::new();
    let mut i: usize = 0;
    while i < n
        invariant
            i <= n <= 3,
            channels@.len() == i,
            FLAGS_AT + 13 + 20 * n <= payload@.len(),
            forall|j: int|
                0 <= j < i ==> (#[trigger] channels@[j])@ == common_channel(
                    payload@,
                    FLAGS_AT + 13 + 20 * j,
                ),
        decreases n - i,
    {
        let at: usize = FLAGS_AT + 13 + 20 * i;
        channels.push(
            Channel {
                min: read_signed(payload, at, FLAGS_AT + 1),
                max: read_signed(payload, at + 4, FLAGS_AT + 1),
                gamma: read_plain(payload, at + 8, FLAGS_AT + 1),
            },
        );
        i += 1;
    }
    assert(channel_views(channels@) =~= Seq::new(
        n as nat,
        |i: int| common_channel(payload@, FLAGS_AT + 13 + 20 * i),
    ));
    channels
}

/// The channels of metadata where each number has its own denominator; `None` where one is 0.
fn read_own_channels(payload: &[u8], n: usize) -> (r: Option<Vec<Channel>>)
    requires
        n <= 3,
        FLAGS_AT + 17 + 40 * n <= payload@.len(),
    ensures
        match r {
            Some(channels) => channel_views(channels@) == Seq::new(
                n as nat,
                |i: int| own_channel(payload@, FLAGS_AT + 17 + 40 * i),
            ) && !(exists|i: int|
                0 <= i < n && !#[trigger] own_channel_is_sound(payload@, FLAGS_AT + 17 + 40 * i)),
            None => exists|i: int|
                0 <= i < n && !#[trigger] own_channel_is_sound(payload@, FLAGS_AT + 17 + 40 * i),
        },
{
    let mut channels: Vec<Channel> = Vec::new();
    let mut i: usize = 0;
    while i < n
        invariant
            i <= n <= 3,
            channels@.len() == i,
            FLAGS_AT + 17 + 40 * n <= payload@.len(),
            forall|j: int|
                0 <= j < i ==> (#[trigger] channels@[j])@ == own_channel(
                    payload@,
                    FLAGS_AT + 17 + 40 * j,
                ),
            forall|j: int|
                0 <= j < i ==> #[trigger] own_channel_is_sound(payload@, FLAGS_AT + 17 + 40 * j),
        decreases n - i,
    {
        let at: usize = FLAGS_AT + 17 + 40 * i;
        if read_be32(payload, at + 4) == 0 || read_be32(payload, at + 12) == 0 || read_be32(
            payload,
            at + 20,
        ) == 0 {
            assert(!own_channel_is_sound(payload@, FLAGS_AT + 17 + 40 * i));
            return None;
        }
        channels.push(
            Channel {
                min: read_signed(payload, at, at + 4),
                max: read_signed(payload, at + 8, at + 12),
                gamma: read_plain(payload, at + 16, at + 20),
            },
        );
        i += 1;
    }
    assert(channel_views(channels@) =~= Seq::new(
        n as nat,
        |i: int| own_channel(payload@, FLAGS_AT + 17 + 40 * i),
    ));
    Some(channels)
}

/// The metadata, as contracts speak of it.
pub open spec fn option_view(r: Option<Candidate>) -> Option<Metadata> {
    match r {
        Some(c) => Some(c@),
        None => None,
    }
}

/// The encoding that an ISO 21496-1 payload gives.
pub fn iso_candidate(payload: &[u8]) -> (r: Option<Candidate>)
    ensures
        option_view(r) == iso_metadata(payload@),
{
    if !starts_with(payload, &ISO21496_URN) || payload.len() < FLAGS_AT + 1 || read_be16(
        payload,
        28,
    ) != 0 {
        return None;
    }
    let flags: u8 = payload[FLAGS_AT];
    if (flags / 4) % 2 == 1 {
        return None;
    }
    let multi_channel: bool = (flags / 0x80) % 2 == 1;
    let n: usize = if multi_channel {
        3
    } else {
        1
    };
    if (flags / 8) % 2 == 1 {
        if payload.len() < FLAGS_AT + 13 + 20 * n || read_be32(payload, FLAGS_AT + 1) == 0 {
            return None;
        }
        return Some(
            Candidate { multi_channel, channels: read_common_channels(payload, n) },
        );
    }
    if payload.len() < FLAGS_AT + 17 + 40 * n || read_be32(payload, FLAGS_AT + 5) == 0
        || read_be32(payload, FLAGS_AT + 13) == 0 {
        return None;
    }
    match read_own_channels(payload, n) {
        Some(channels) => Some(Candidate { multi_channel, channels }),
        None => None,
    }
}

/// Number `i` of a list; the first one where the list is shorter, and `default` where it is empty.
pub open spec fn number_or(list: Seq<Seq<u8>>, i: int, default: int) -> Value {
    if i < list.len() {
        Value::Text(list[i])
    } else if list.len() > 0 {
        Value::Text(list[0])
    } else {
        Value::Fraction { num: default, den: 1 }
    }
}

/// The encoding that an XMP packet's attributes give: one channel for each of the first three
/// largest gains. The smallest gain is 0 and gamma is 1 unless the packet says otherwise.
pub open spec fn xmp_metadata(payload: Seq<u8>) -> Option<Metadata> {
    let maxs = attr_numbers_from(payload, GAIN_MAP_MAX@, 0);
    let mins = attr_numbers_from(payload, GAIN_MAP_MIN@, 0);
    let gammas = attr_numbers_from(payload, GAIN_MAP_GAMMA@, 0);
    if maxs.len() == 0 {
        None
    } else {
        Some(
            Metadata {
                multi_channel: maxs.len() > 1,
                channels: Seq::new(
                    if maxs.len() < 3 {
                        maxs.len()
                    } else {
                        3
                    },
                    |i: int|
                        Encoding {
                            min: number_or(mins, i, 0),
                            max: Value::Text(maxs[i]),
                            gamma: number_or(gammas, i, 1),
                        },
                ),
            },
        )
    }
}

fn list_number(list: &[Vec<u8>], i: usize, default: i64) -> (r: Number)
    ensures
        r@ == number_or(text_views(list@), i as int, default as int),
{
    assert(text_views(list@).len() == list@.len());
    if i < list.len() {
        Number::Text(slice_to_vec(list[i].as_slice()))
    } else if list.len() > 0 {
        Number::Text(slice_to_vec(list[0].as_slice()))
    } else {
        Number::Fraction { num: default, den: 1 }
    }
}

/// The encoding that an XMP packet's attributes give.
pub fn xmp_candidate(payload: &[u8]) -> (r: Option<Candidate>)
    ensures
        option_view(r) == xmp_metadata(payload@),
{
    let maxs: Vec<Vec<u8>> = xmp_attr_numbers(payload, &GAIN_MAP_MAX);
    assert(text_views(maxs@).len() == maxs@.len());
    if maxs.len() == 0 {
        return None;
    }
    let mins: Vec<Vec<u8>> = xmp_attr_numbers(payload, &GAIN_MAP_MIN);
    let gammas: Vec<Vec<u8>> = xmp_attr_numbers(payload, &GAIN_MAP_GAMMA);
    let count: usize = if maxs.len() < 3 {
        maxs.len()
    } else {
        3
    };
    let mut channels: Vec<Channel> = Vec::new();
    let mut i: usize = 0;
    while i < count
        invariant
            i <= count <= maxs@.len(),
            channels@.len() == i,
            forall|j: int|
                0 <= j < i ==> (#[trigger] channels@[j])@ == (Encoding {
                    min: number_or(text_views(mins@), j, 0),
                    max: Value::Text(text_views(maxs@)[j]),
                    gamma: number_or(text_views(gammas@), j, 1),
                }),
        decreases count - i,
    {
        channels.push(
            Channel {
                min: list_number(mins.as_slice(), i, 0),
                max: Number::Text(slice_to_vec(maxs[i].as_slice())),
                gamma: list_number(gammas.as_slice(), i, 1),
            },
        );
        i += 1;
    }
    let multi_channel: bool = count > 1;
    let found: Candidate = Candidate { multi_channel, channels };
    assert(found@.channels =~= xmp_metadata(payload@)->Some_0.channels);
    Some(found)
}

/// A segment with ISO 21496-1 metadata; one that only names the version does not count.
pub open spec fn is_iso_segment(s: Segment) -> bool {
    s.marker == 0xE2 && begins_with(s.payload, ISO21496_URN@) && s.payload.len() > 32
}

/// A segment with gain map attributes in XMP.
pub open spec fn is_xmp_segment(s: Segment) -> bool {
    s.marker == 0xE1 && begins_with(s.payload, XMP_SIG@) && occurs(s.payload, HDRGM@)
}

/// What a segment gives: ISO 21496-1 metadata with `iso`, else XMP attributes.
pub open spec fn segment_metadata(s: Segment, iso: bool) -> Option<Metadata> {
    if iso && is_iso_segment(s) {
        iso_metadata(s.payload)
    } else if !iso && is_xmp_segment(s) {
        xmp_metadata(s.payload)
    } else {
        None
    }
}

/// What the first `n` segments give.
pub open spec fn metadata_of(segs: Seq<Segment>, iso: bool, n: int) -> Seq<Metadata>
    decreases n,
{
    if n <= 0 {
        Seq::empty()
    } else {
        match segment_metadata(segs[n - 1], iso) {
            Some(m) => metadata_of(segs, iso, n - 1).push(m),
            None => metadata_of(segs, iso, n - 1),
        }
    }
}

/// Metadata have one to three channels.
pub open spec fn channel_counts_fit(list: Seq<Metadata>) -> bool {
    forall|i: int| 0 <= i < list.len() ==> 1 <= (#[trigger] list[i]).channels.len() <= 3
}

proof fn lemma_channel_counts(segs: Seq<Segment>, iso: bool, n: int)
    ensures
        channel_counts_fit(metadata_of(segs, iso, n)),
    decreases n,
{
    if n > 0 {
        lemma_channel_counts(segs, iso, n - 1);
    }
}

/// The segments of the gain map image in a photo.
pub open spec fn gainmap_segments(raw: Seq<u8>) -> Seq<Segment> {
    match gainmap_at(raw) {
        Some((abs, size)) => segments(raw.subrange(abs, abs + size)),
        None => Seq::empty(),
    }
}

/// What the segments of the photo and of its gain map give, in this order.
pub open spec fn both_metadata(raw: Seq<u8>, iso: bool) -> Seq<Metadata> {
    let base = segments(raw);
    let gm = gainmap_segments(raw);
    metadata_of(base, iso, base.len() as int) + metadata_of(gm, iso, gm.len() as int)
}

/// The metadata of a photo in the order in which it counts: ISO 21496-1 before XMP.
pub open spec fn photo_metadata(raw: Seq<u8>) -> Seq<Metadata> {
    both_metadata(raw, true) + both_metadata(raw, false)
}

/// Appends what the segments give.
fn append_candidates(out: &mut Vec<Candidate>, segs: &[JpegSegment], iso: bool)
    ensures
        candidate_views(final(out)@) == candidate_views(old(out)@) + metadata_of(
            segment_views(segs@),
            iso,
            segs@.len() as int,
        ),
{
    let ghost views = segment_views(segs@);
    let ghost start = candidate_views(out@);
    let mut i: usize = 0;
    assert(start + Seq::<Metadata>::empty() =~= start);
    while i < segs.len()
        invariant
            i <= segs@.len(),
            views == segment_views(segs@),
            candidate_views(out@) == start + metadata_of(views, iso, i as int),
        decreases segs@.len() - i,
    {
        let ghost before = candidate_views(out@);
        let ghost so_far = metadata_of(views, iso, i as int);
        assert(views[i as int] == segs@[i as int]@);
        let payload: &[u8] = segs[i].payload;
        let found: Option<Candidate> = if iso && segs[i].marker == 0xE2 && starts_with(
            payload,
            &ISO21496_URN,
        ) && payload.len() > 32 {
            iso_candidate(payload)
        } else if !iso && segs[i].marker == 0xE1 && starts_with(payload, &XMP_SIG) && contains(
            payload,
            &HDRGM,
        ) {
            xmp_candidate(payload)
        } else {
            None
        };
        assert(option_view(found) == segment_metadata(views[i as int], iso));
        if let Some(c) = found {
            let ghost view = c@;
            out.push(c);
            proof {
                assert(candidate_views(out@) =~= before.push(view));
                assert((start + so_far).push(view) =~= start + so_far.push(view));
            }
        }
        i += 1;
    }
}

/// The metadata of a photo in the order in which it counts.
pub fn neutral_candidates(raw: &[u8]) -> (out: Vec<Candidate>)
    ensures
        candidate_views(out@) == photo_metadata(raw@),
        channel_counts_fit(candidate_views(out@)),
{
    let base: Vec<JpegSegment> = jpeg_segments(raw);
    assert(raw.len() == raw@.len());
    let gm: Vec<JpegSegment> = match gainmap_range(raw) {
        Some((abs, size)) => jpeg_segments(slice_subrange(raw, abs, abs + size)),
        None => {
            let none: Vec<JpegSegment> = Vec::new();
            assert(segment_views(none@) =~= Seq::empty());
            none
        },
    };
    assert(segment_views(base@).len() == base@.len());
    assert(segment_views(gm@) == gainmap_segments(raw@));
    assert(segment_views(gm@).len() == gm@.len());
    let mut out: Vec<Candidate> = Vec::new();
    assert(candidate_views(out@) =~= Seq::empty());
    append_candidates(&mut out, base.as_slice(), true);
    append_candidates(&mut out, gm.as_slice(), true);
    append_candidates(&mut out, base.as_slice(), false);
    append_candidates(&mut out, gm.as_slice(), false);
    assert(candidate_views(out@) =~= photo_metadata(raw@));
    proof {
        let (base_segs, gm_segs) = (segment_views(base@), segment_views(gm@));
        lemma_channel_counts(base_segs, true, base_segs.len() as int);
        lemma_channel_counts(gm_segs, true, gm_segs.len() as int);
        lemma_channel_counts(base_segs, false, base_segs.len() as int);
        lemma_channel_counts(gm_segs, false, gm_segs.len() as int);
    }
    out
}

/// The gain map samples that leave a pixel as it is.
pub struct NeutralInfo {
    /// They are known.
    pub ok: bool,
    /// Channels differ.
    pub multi_channel: bool,
    /// One sample per channel.
    pub values: [u8; 3],
}

/// Gains below one part in this many of a doubling do not count.
pub const PARTS_OF_A_STOP: i64 = 1_000_000_000;

/// The neutral sample of a channel whose numbers are quotients and whose smallest gain is none: 0.
/// There is none where the largest gain is too small to count, or gamma is not positive. `None` for
/// other channels.
pub open spec fn sample_from_zero(e: Encoding) -> Option<Option<u8>> {
    match (e.min, e.max, e.gamma) {
        (
            Value::Fraction { num: min, den: min_den },
            Value::Fraction { num: max, den },
            Value::Fraction { num: gamma, den: gamma_den },
        ) => if min != 0 || min_den == 0 || den == 0 || gamma_den == 0 {
            None
        } else if gamma <= 0 || -den < max * PARTS_OF_A_STOP < den {
            Some(None)
        } else {
            Some(Some(0))
        },
        _ => None,
    }
}

/// `sample` is the neutral sample of the channel: what follows from a smallest gain of none, else
/// what `neutral` gives.
pub open spec fn gives<F: Fn(Channel) -> Option<u8>>(
    neutral: F,
    e: Encoding,
    sample: Option<u8>,
) -> bool {
    match sample_from_zero(e) {
        Some(known) => sample == known,
        None => exists|c: Channel| c@ == e && #[trigger] call_ensures(neutral, (c,), sample),
    }
}

/// `values` are the neutral samples of the channels: one channel counts three times, a channel that
/// is missing among several gets 0.
pub open spec fn gives_values<F: Fn(Channel) -> Option<u8>>(
    neutral: F,
    channels: Seq<Encoding>,
    values: Seq<u8>,
) -> bool {
    &&& values.len() == 3
    &&& forall|i: int|
        0 <= i < channels.len() ==> gives(neutral, #[trigger] channels[i], Some(values[i]))
    &&& forall|i: int|
        channels.len() <= i < 3 ==> #[trigger] values[i] == (if channels.len() == 1 {
            values[0]
        } else {
            0
        })
}

/// Some channel has no neutral sample.
pub open spec fn gives_none<F: Fn(Channel) -> Option<u8>>(
    neutral: F,
    channels: Seq<Encoding>,
) -> bool {
    exists|i: int| 0 <= i < channels.len() && gives(neutral, #[trigger] channels[i], None)
}

/// `info` comes from the first metadata at or after number `i` whose channels all have a neutral
/// sample.
pub open spec fn is_neutral_from<F: Fn(Channel) -> Option<u8>>(
    neutral: F,
    list: Seq<Metadata>,
    i: int,
    info: NeutralInfo,
) -> bool
    decreases list.len() - i,
{
    if i >= list.len() {
        !info.ok && !info.multi_channel && info.values@ == seq![0u8, 0, 0]
    } else {
        ||| info.ok && info.multi_channel == list[i].multi_channel && gives_values(
            neutral,
            list[i].channels,
            info.values@,
        )
        ||| gives_none(neutral, list[i].channels) && is_neutral_from(neutral, list, i + 1, info)
    }
}

fn copy_number(n: &Number) -> (r: Number)
    ensures
        r@ == n@,
{
    match n {
        Number::Fraction { num, den } => Number::Fraction { num: *num, den: *den },
        Number::Text(text) => Number::Text(slice_to_vec(text.as_slice())),
    }
}

fn copy_channel(c: &Channel) -> (r: Channel)
    ensures
        r@ == c@,
{
    Channel {
        min: copy_number(&c.min),
        max: copy_number(&c.max),
        gamma: copy_number(&c.gamma),
    }
}

/// The neutral sample of a channel whose numbers are quotients and whose smallest gain is none.
pub fn zero_sample(c: &Channel) -> (r: Option<Option<u8>>)
    ensures
        r == sample_from_zero(c@),
{
    match (&c.min, &c.max, &c.gamma) {
        (
            Number::Fraction { num: min, den: min_den },
            Number::Fraction { num: max, den },
            Number::Fraction { num: gamma, den: gamma_den },
        ) => {
            let scaled: i128 = *max as i128 * PARTS_OF_A_STOP as i128;
            let den: i128 = *den as i128;
            if *min != 0 || *min_den == 0 || den == 0 || *gamma_den == 0 {
                None
            } else if *gamma <= 0 || (-den < scaled && scaled < den) {
                Some(None)
            } else {
                Some(Some(0))
            }
        },
        _ => None,
    }
}

/// The neutral samples of the channels; `None` where one of them has none. `neutral` is asked for
/// those that do not follow from a smallest gain of none.
pub fn combined_values<F: Fn(Channel) -> Option<u8>>(channels: &[Channel], neutral: &F) -> (r:
    Option<[u8; 3]>)
    requires
        1 <= channels@.len() <= 3,
        forall|c: Channel| #[trigger] call_requires(*neutral, (c,)),
    ensures
        match r {
            Some(values) => gives_values(*neutral, channel_views(channels@), values@),
            None => gives_none(*neutral, channel_views(channels@)),
        },
{
    let ghost views = channel_views(channels@);
    let mut values: [u8; 3] = [0, 0, 0];
    let mut i: usize = 0;
    while i < channels.len()
        invariant
            i <= channels@.len() <= 3,
            views == channel_views(channels@),
            forall|c: Channel| #[trigger] call_requires(*neutral, (c,)),
            forall|j: int|
                0 <= j < i ==> gives(*neutral, #[trigger] views[j], Some(values@[j])),
            forall|j: int| i <= j < 3 ==> #[trigger] values@[j] == 0,
        decreases channels@.len() - i,
    {
        assert(views[i as int] == channels@[i as int]@);
        let sample: Option<u8> = match zero_sample(&channels[i]) {
            Some(known) => known,
            None => neutral(copy_channel(&channels[i])),
        };
        assert(gives(*neutral, views[i as int], sample));
        match sample {
            Some(v) => {
                values[i] = v;
            },
            None => return None,
        }
        i += 1;
    }
    if channels.len() == 1 {
        values = [values[0], values[0], values[0]];
    }
    Some(values)
}

/// The gain map samples that leave a pixel as it is, by the first metadata whose channels all have
/// one.
pub fn ultrahdr_neutral_inner<F: Fn(Channel) -> Option<u8>>(raw: &[u8], neutral: &F) -> (info:
    NeutralInfo)
    requires
        forall|c: Channel| #[trigger] call_requires(*neutral, (c,)),
    ensures
        is_neutral_from(*neutral, photo_metadata(raw@), 0, info),
{
    let list: Vec<Candidate> = neutral_candidates(raw);
    neutral_of(list.as_slice(), neutral)
}

/// The gain map samples by the first candidate whose channels all have one.
pub fn neutral_of<F: Fn(Channel) -> Option<u8>>(list: &[Candidate], neutral: &F) -> (info:
    NeutralInfo)
    requires
        channel_counts_fit(candidate_views(list@)),
        forall|c: Channel| #[trigger] call_requires(*neutral, (c,)),
    ensures
        is_neutral_from(*neutral, candidate_views(list@), 0, info),
{
    let ghost views = candidate_views(list@);
    let mut i: usize = 0;
    while i < list.len()
        invariant
            i <= list@.len(),
            views == candidate_views(list@),
            channel_counts_fit(views),
            forall|c: Channel| #[trigger] call_requires(*neutral, (c,)),
            forall|info: NeutralInfo|
                is_neutral_from(*neutral, views, i as int, info) ==> is_neutral_from(
                    *neutral,
                    views,
                    0,
                    info,
                ),
        decreases list@.len() - i,
    {
        assert(views[i as int] == list@[i as int]@);
        let multi_channel: bool = list[i].multi_channel;
        match combined_values(list[i].channels.as_slice(), neutral) {
            Some(values) => {
                let info: NeutralInfo = NeutralInfo { ok: true, multi_channel, values };
                assert(is_neutral_from(*neutral, views, i as int, info));
                return info;
            },
            None => {},
        }
        i += 1;
    }
    let info: NeutralInfo = NeutralInfo { ok: false, multi_channel: false, values: [0, 0, 0] };
    assert(info.values@ =~= seq![0u8, 0, 0]);
    info
}

/// `ultrahdr_neutral_inner` for callers that own the data.
pub fn ultrahdr_neutral<F: Fn(Channel) -> Option<u8>>(raw: Vec<u8>, neutral: &F) -> (info:
    NeutralInfo)
    requires
        forall|c: Channel| #[trigger] call_requires(*neutral, (c,)),
    ensures
        is_neutral_from(*neutral, photo_metadata(raw@), 0, info),
{
    ultrahdr_neutral_inner(raw.as_slice(), neutral)
}

} // verus!
