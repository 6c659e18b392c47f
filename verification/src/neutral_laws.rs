//! Which samples leave a pixel as it is, told from the bytes of the metadata.

use vstd::prelude::*;

use crate::attributes::{
    attr_numbers_from, digits_end, is_decimal_at, is_exponent_at, is_number, is_sign_at,
    numbers_from, quoted_value, spaces_end, token_end, value_numbers,
};
use crate::bytes::{lemma_find_from_is, matches_at};
use crate::directory_laws::lemma_first_iso_counts;
use crate::jpeg::{segments, Segment};
use crate::neutral::{
    both_metadata, common_channel, gives, gives_none, gives_values, has_bit, is_neutral_from,
    iso_metadata, metadata_of, own_channel, own_channel_is_sound, photo_metadata, sample_from_zero,
    segment_metadata, xmp_metadata, Channel, Encoding, Metadata, NeutralInfo, Value,
};
use crate::tags::{
    GAIN_MAP_GAMMA, GAIN_MAP_MAX, GAIN_MAP_MIN, HDRGM, ISO21496_URN, XMP_SIG,
};
use crate::tiff_laws::long_at;

verus! {

/// The channel's numbers are quotients, and the smallest gain is none.
pub open spec fn starts_at_no_gain(e: Encoding) -> bool {
    &&& e.min matches Value::Fraction { num, den } && num == 0 && den > 0
    &&& e.max matches Value::Fraction { num: _, den } && den > 0
    &&& e.gamma matches Value::Fraction { num: _, den } && den > 0
}

/// `s` is the one neutral sample of the channel. It is 0 where the smallest gain is none, the
/// largest one at least a billionth, and gamma positive; else it is what `neutral` gives.
pub open spec fn has_sample<F: Fn(Channel) -> Option<u8>>(neutral: F, e: Encoding, s: u8) -> bool {
    if starts_at_no_gain(e) {
        &&& s == 0
        &&& e.max matches Value::Fraction { num, den } && (num * 1_000_000_000 >= den || num
            * 1_000_000_000 <= -den)
        &&& e.gamma matches Value::Fraction { num, den: _ } && num > 0
    } else {
        &&& e.min matches Value::Fraction { num, den } ==> num != 0 && den > 0
        &&& e.max matches Value::Fraction { num: _, den } ==> den > 0
        &&& e.gamma matches Value::Fraction { num: _, den } ==> den > 0
        &&& forall|c: Channel, r: Option<u8>|
            c@ == e && #[trigger] call_ensures(neutral, (c,), r) ==> r == Some(s)
    }
}

proof fn lemma_only_sample<F: Fn(Channel) -> Option<u8>>(
    neutral: F,
    e: Encoding,
    s: u8,
    r: Option<u8>,
)
    requires
        has_sample(neutral, e, s),
        gives(neutral, e, r),
    ensures
        r == Some(s),
{
    if let Value::Fraction { num, den } = e.max {
        assert(starts_at_no_gain(e) ==> sample_from_zero(e) == Some(Some(0u8)));
    }
}

/// The neutral samples stand in the order of the channels: the first for the first channel, the
/// second for the second, the third for the third. One channel counts for all three, and a third
/// one that is missing has sample 0.
pub proof fn law_samples_stand_in_the_order_of_the_channels<F: Fn(Channel) -> Option<u8>>(
    neutral: F,
    list: Seq<Metadata>,
    samples: Seq<u8>,
    info: NeutralInfo,
)
    requires
        list.len() > 0,
        1 <= list[0].channels.len() <= 3,
        samples.len() == list[0].channels.len(),
        forall|i: int|
            0 <= i < samples.len() ==> has_sample(neutral, list[0].channels[i], #[trigger] samples[i]),
        is_neutral_from(neutral, list, 0, info),
    ensures
        info.ok,
        info.multi_channel == list[0].multi_channel,
        samples.len() == 3 ==> info.values@ == samples,
        samples.len() == 2 ==> info.values@ == seq![samples[0], samples[1], 0u8],
        samples.len() == 1 ==> info.values@ == seq![samples[0], samples[0], samples[0]],
{
    let channels = list[0].channels;
    if gives_none(neutral, channels) {
        let i = choose|i: int|
            0 <= i < channels.len() && gives(neutral, #[trigger] channels[i], None);
        assert(has_sample(neutral, channels[i], samples[i]));
        lemma_only_sample(neutral, channels[i], samples[i], None);
    }
    assert(gives_values(neutral, channels, info.values@));
    let values = info.values@;
    assert forall|i: int| 0 <= i < samples.len() implies values[i] == #[trigger] samples[i] by {
        assert(has_sample(neutral, channels[i], samples[i]));
        assert(gives(neutral, channels[i], Some(values[i])));
        lemma_only_sample(neutral, channels[i], samples[i], Some(values[i]));
    }
    if samples.len() == 3 {
        assert(values =~= samples);
    } else if samples.len() == 2 {
        assert(values[0] == samples[0] && values[1] == samples[1] && values[2] == 0);
        assert(values =~= seq![samples[0], samples[1], 0u8]);
    } else {
        assert(values[0] == samples[0] && values[1] == values[0] && values[2] == values[0]);
        assert(values =~= seq![samples[0], samples[0], samples[0]]);
    }
}

/// The signed number that 32 bits stand for.
pub open spec fn signed_long(n: int) -> int {
    if n < 0x8000_0000 {
        n
    } else {
        n - 0x1_0000_0000
    }
}

/// ISO 21496-1 metadata of version 0, from SDR to HDR, with the given flags.
pub open spec fn is_iso_payload(p: Seq<u8>, common: bool, multi: bool) -> bool {
    &&& p.len() > 32
    &&& p.subrange(0, 28) == ISO21496_URN@
    &&& p[28] == 0 && p[29] == 0
    &&& p[32] == (if common {
        8int
    } else {
        0
    }) + (if multi {
        0x80int
    } else {
        0
    })
}

/// Channel `i` of metadata with a common denominator.
pub open spec fn common_numbers(p: Seq<u8>, i: int) -> Encoding {
    let (den, at) = (long_at(p, 33, false), 45 + 20 * i);
    Encoding {
        min: Value::Fraction { num: signed_long(long_at(p, at, false)), den },
        max: Value::Fraction { num: signed_long(long_at(p, at + 4, false)), den },
        gamma: Value::Fraction { num: long_at(p, at + 8, false), den },
    }
}

/// Channel `i` of metadata where each number has its own denominator.
pub open spec fn own_numbers(p: Seq<u8>, i: int) -> Encoding {
    let at = 49 + 40 * i;
    Encoding {
        min: Value::Fraction {
            num: signed_long(long_at(p, at, false)),
            den: long_at(p, at + 4, false),
        },
        max: Value::Fraction {
            num: signed_long(long_at(p, at + 8, false)),
            den: long_at(p, at + 12, false),
        },
        gamma: Value::Fraction {
            num: long_at(p, at + 16, false),
            den: long_at(p, at + 20, false),
        },
    }
}

/// The denominators of channel `i` are not 0 where each number has its own.
pub open spec fn has_denominators(p: Seq<u8>, i: int) -> bool {
    let at = 49 + 40 * i;
    long_at(p, at + 4, false) != 0 && long_at(p, at + 12, false) != 0 && long_at(p, at + 20, false)
        != 0
}

/// ISO 21496-1 metadata give one channel or three, with the numbers where the layout has them.
pub proof fn law_iso_payload_gives_its_channels(p: Seq<u8>, common: bool, multi: bool)
    requires
        is_iso_payload(p, common, multi),
        ({
            let n = if multi {
                3int
            } else {
                1
            };
            if common {
                p.len() >= 45 + 20 * n && long_at(p, 33, false) != 0
            } else {
                p.len() >= 49 + 40 * n && long_at(p, 37, false) != 0 && long_at(p, 45, false) != 0
                    && forall|i: int| 0 <= i < n ==> #[trigger] has_denominators(p, i)
            }
        }),
    ensures
        iso_metadata(p) matches Some(m) && m.multi_channel == multi && m.channels.len() == (if multi {
            3int
        } else {
            1
        }) && forall|i: int|
            0 <= i < m.channels.len() ==> #[trigger] m.channels[i] == (if common {
                common_numbers(p, i)
            } else {
                own_numbers(p, i)
            }),
{
    assert(matches_at(p, ISO21496_URN@, 0));
    assert(!has_bit(p[32], 4) && has_bit(p[32], 8) == common && has_bit(p[32], 0x80) == multi);
    if !common {
        assert forall|i: int|
            0 <= i < (if multi {
                3int
            } else {
                1
            }) implies #[trigger] own_channel_is_sound(p, 49 + 40 * i) by {
            assert(has_denominators(p, i));
        }
    }
    let m = iso_metadata(p)->Some_0;
    assert forall|i: int| 0 <= i < m.channels.len() implies #[trigger] m.channels[i] == (
    if common {
        common_numbers(p, i)
    } else {
        own_numbers(p, i)
    }) by {
        if common {
            assert(m.channels[i] == common_channel(p, 45 + 20 * i));
        } else {
            assert(m.channels[i] == own_channel(p, 49 + 40 * i));
        }
    }
}

/// Segment `k` is the first one that holds ISO 21496-1 metadata, beyond a version number.
pub open spec fn is_first_iso(raw: Seq<u8>, k: int) -> bool {
    let segs = segments(raw);
    &&& 0 <= k < segs.len()
    &&& segs[k].marker == 0xE2
    &&& segs[k].payload.len() > 32
    &&& segs[k].payload.subrange(0, 28) == ISO21496_URN@
    &&& forall|i: int|
        0 <= i < k ==> (#[trigger] segs[i]).marker != 0xE2 || segs[i].payload.len() <= 32
            || segs[i].payload.subrange(0, 28) != ISO21496_URN@
}

/// The neutral samples of a photo with three ISO 21496-1 channels are those of the first, second
/// and third channel that its first metadata segment holds, in this order.
pub proof fn law_iso_samples_stand_in_order<F: Fn(Channel) -> Option<u8>>(
    neutral: F,
    raw: Seq<u8>,
    k: int,
    common: bool,
    samples: Seq<u8>,
    info: NeutralInfo,
)
    requires
        is_first_iso(raw, k),
        samples.len() == 3,
        ({
            let p = segments(raw)[k].payload;
            &&& is_iso_payload(p, common, true)
            &&& common ==> p.len() >= 105 && long_at(p, 33, false) != 0
            &&& !common ==> p.len() >= 169 && long_at(p, 37, false) != 0 && long_at(p, 45, false)
                != 0
            &&& !common ==> forall|i: int| 0 <= i < 3 ==> #[trigger] has_denominators(p, i)
            &&& forall|i: int|
                0 <= i < 3 ==> has_sample(
                    neutral,
                    if common {
                        common_numbers(p, i)
                    } else {
                        own_numbers(p, i)
                    },
                    #[trigger] samples[i],
                )
        }),
        is_neutral_from(neutral, photo_metadata(raw), 0, info),
    ensures
        info.ok,
        info.multi_channel,
        info.values@ == samples,
{
    let segs = segments(raw);
    let p = segs[k].payload;
    law_iso_payload_gives_its_channels(p, common, true);
    let m = iso_metadata(p)->Some_0;
    assert forall|i: int| 0 <= i < k implies segment_metadata(
        #[trigger] segs[i],
        true,
    ) is None by {
        assert(segs[i].marker != 0xE2 || segs[i].payload.len() <= 32 || segs[i].payload.subrange(
            0,
            28,
        ) != ISO21496_URN@);
    }
    assert(matches_at(p, ISO21496_URN@, 0));
    lemma_first_iso_counts(raw, k, m);
    assert forall|i: int| 0 <= i < samples.len() implies has_sample(
        neutral,
        photo_metadata(raw)[0].channels[i],
        #[trigger] samples[i],
    ) by {
        assert(m.channels[i] == (if common {
            common_numbers(p, i)
        } else {
            own_numbers(p, i)
        }));
    }
    law_samples_stand_in_the_order_of_the_channels(neutral, photo_metadata(raw), samples, info);
}

/// The texts with commas between them.
pub open spec fn with_commas(tokens: Seq<Seq<u8>>) -> Seq<u8>
    decreases tokens.len(),
{
    if tokens.len() == 0 {
        Seq::empty()
    } else if tokens.len() == 1 {
        tokens[0]
    } else {
        tokens[0] + seq![0x2Cu8] + with_commas(tokens.skip(1))
    }
}

/// A text that can stand in a list of values between quotes `q`: a number, and neither a comma nor
/// a space nor the quote in it.
pub open spec fn is_list_number(token: Seq<u8>, q: u8) -> bool {
    &&& token.len() > 0
    &&& is_number(token)
    &&& forall|i: int|
        0 <= i < token.len() ==> #[trigger] token[i] != 0x2C && token[i] != 0x20 && token[i] != q
}

proof fn lemma_token_ends(s: Seq<u8>, i: int, end: int)
    requires
        0 <= i <= end <= s.len(),
        forall|j: int| i <= j < end ==> #[trigger] s[j] != 0x2C && s[j] != 0x20,
        end == s.len() || s[end] == 0x2C || s[end] == 0x20,
    ensures
        token_end(s, i) == end,
    decreases end - i,
{
    if i < end {
        assert(s[i] != 0x2C && s[i] != 0x20);
        lemma_token_ends(s, i + 1, end);
    }
}

/// The numbers of a list of values are read one by one.
pub(crate) proof fn lemma_listed_numbers(before: Seq<u8>, tokens: Seq<Seq<u8>>, q: u8)
    requires
        forall|i: int| 0 <= i < tokens.len() ==> is_list_number(#[trigger] tokens[i], q),
    ensures
        numbers_from(before + with_commas(tokens), before.len() as int) == tokens,
    decreases tokens.len(),
{
    let s = before + with_commas(tokens);
    let at = before.len() as int;
    if tokens.len() == 0 {
        assert(numbers_from(s, at) =~= tokens);
    } else {
        let t = tokens[0];
        assert(is_list_number(t, q));
        let end = at + t.len();
        assert forall|j: int| at <= j < end implies #[trigger] s[j] != 0x2C && s[j] != 0x20 by {
            assert(s[j] == t[j - at]);
        }
        lemma_token_ends(s, at, end);
        assert(s.subrange(at, end) =~= t);
        if tokens.len() == 1 {
            assert(numbers_from(s, end + 1) =~= Seq::<Seq<u8>>::empty());
            assert(seq![t] + Seq::<Seq<u8>>::empty() =~= tokens);
        } else {
            let rest = tokens.skip(1);
            let next = before + t + seq![0x2Cu8];
            assert(s =~= next + with_commas(rest));
            assert forall|i: int| 0 <= i < rest.len() implies is_list_number(
                #[trigger] rest[i],
                q,
            ) by {
                assert(rest[i] == tokens[i + 1]);
            }
            lemma_listed_numbers(next, rest, q);
            assert(seq![t] + rest =~= tokens);
        }
    }
}

pub(crate) proof fn lemma_no_comma_text(tokens: Seq<Seq<u8>>, q: u8)
    requires
        q == 0x22 || q == 0x27,
        forall|i: int| 0 <= i < tokens.len() ==> is_list_number(#[trigger] tokens[i], q),
    ensures
        forall|i: int| 0 <= i < with_commas(tokens).len() ==> #[trigger] with_commas(tokens)[i] != q,
    decreases tokens.len(),
{
    if tokens.len() > 0 {
        let rest = tokens.skip(1);
        assert forall|i: int| 0 <= i < rest.len() implies is_list_number(#[trigger] rest[i], q) by {
            assert(rest[i] == tokens[i + 1]);
        }
        lemma_no_comma_text(rest, q);
        assert(is_list_number(tokens[0], q));
        let (t, all) = (tokens[0], with_commas(tokens));
        assert forall|i: int| 0 <= i < all.len() implies #[trigger] all[i] != q by {
            if i < t.len() {
                assert(all[i] == t[i]);
            } else if i > t.len() {
                assert(all[i] == with_commas(rest)[i - t.len() - 1]);
            }
        }
    }
}

/// An attribute whose value is a list of numbers, in quotes of either kind: the numbers are read in
/// order, whatever stands before and behind it.
pub proof fn law_attribute_gives_its_numbers(
    before: Seq<u8>,
    name: Seq<u8>,
    q: u8,
    tokens: Seq<Seq<u8>>,
    behind: Seq<u8>,
)
    requires
        q == 0x22 || q == 0x27,
        name.len() > 0,
        tokens.len() > 0,
        forall|i: int| 0 <= i < tokens.len() ==> is_list_number(#[trigger] tokens[i], q),
        ({
            let s = before + name + seq![0x3Du8, q] + with_commas(tokens) + seq![q] + behind;
            forall|j: int| 0 <= j < before.len() ==> !#[trigger] matches_at(s, name, j)
        }),
    ensures
        attr_numbers_from(
            before + name + seq![0x3Du8, q] + with_commas(tokens) + seq![q] + behind,
            name,
            0,
        ) == tokens,
{
    let list = with_commas(tokens);
    let s = before + name + seq![0x3Du8, q] + list + seq![q] + behind;
    let at = before.len() as int;
    let i = at + name.len();
    assert(s.subrange(at, i) =~= name);
    lemma_find_from_is(s, name, 0, at);
    assert(s[i] == 0x3D && s[i + 1] == q);
    assert(spaces_end(s, i) == i && spaces_end(s, i + 1) == i + 1);
    let (start, end) = (i + 2, i + 2 + list.len());
    lemma_no_comma_text(tokens, q);
    assert forall|j: int| start <= j < end implies !#[trigger] matches_at(s, seq![q], j) by {
        assert(s[j] == list[j - start]);
        if matches_at(s, seq![q], j) {
            assert(s.subrange(j, j + 1)[0] == seq![q][0]);
        }
    }
    assert(s[end] == q);
    assert(s.subrange(end, end + 1) =~= seq![q]);
    lemma_find_from_is(s, seq![q], start, end);
    assert(quoted_value(s, i) == Some((start, end)));
    assert(s.subrange(start, end) =~= list);
    lemma_listed_numbers(Seq::empty(), tokens, q);
    assert(Seq::<u8>::empty() + list =~= list);
    assert(value_numbers(s, i) == tokens);
}

/// Number `i` of a list, the first one where the list is shorter, and `default` where it is empty.
pub open spec fn nth_or(list: Seq<Seq<u8>>, i: int, default: int) -> Value {
    if list.len() == 0 {
        Value::Fraction { num: default, den: 1 }
    } else if i < list.len() {
        Value::Text(list[i])
    } else {
        Value::Text(list[0])
    }
}

/// XMP attributes give one channel for each of the first three largest gains, with the smallest
/// gain and the gamma of the same number; both may be given once for all, or be left out.
pub proof fn law_xmp_packet_gives_its_channels(
    payload: Seq<u8>,
    maxs: Seq<Seq<u8>>,
    mins: Seq<Seq<u8>>,
    gammas: Seq<Seq<u8>>,
)
    requires
        attr_numbers_from(payload, GAIN_MAP_MAX@, 0) == maxs,
        attr_numbers_from(payload, GAIN_MAP_MIN@, 0) == mins,
        attr_numbers_from(payload, GAIN_MAP_GAMMA@, 0) == gammas,
    ensures
        maxs.len() == 0 ==> xmp_metadata(payload) is None,
        maxs.len() > 0 ==> (xmp_metadata(payload) matches Some(m) && m.multi_channel == (maxs.len()
            > 1) && m.channels.len() == (if maxs.len() > 3 {
            3
        } else {
            maxs.len()
        }) && forall|i: int|
            0 <= i < m.channels.len() ==> #[trigger] m.channels[i] == (Encoding {
                min: nth_or(mins, i, 0),
                max: Value::Text(maxs[i]),
                gamma: nth_or(gammas, i, 1),
            })),
{
}

/// Segment `k` is the first one that holds an XMP packet with gain map attributes.
pub open spec fn is_first_xmp(raw: Seq<u8>, k: int) -> bool {
    let segs = segments(raw);
    &&& 0 <= k < segs.len()
    &&& is_gain_packet(segs[k])
    &&& forall|i: int| 0 <= i < k ==> !is_gain_packet(#[trigger] segs[i])
}

/// The segment holds an XMP packet with gain map attributes.
pub open spec fn is_gain_packet(s: Segment) -> bool {
    &&& s.marker == 0xE1
    &&& s.payload.len() >= 28
    &&& s.payload.subrange(0, 28) == XMP_SIG@
    &&& exists|i: int|
        0 <= i && i + 6 <= s.payload.len() && #[trigger] s.payload.subrange(i, i + 6) == HDRGM@
}

proof fn lemma_gain_packet(s: Segment)
    ensures
        is_gain_packet(s) == crate::neutral::is_xmp_segment(s),
{
    if is_gain_packet(s) {
        let i = choose|i: int|
            0 <= i && i + 6 <= s.payload.len() && #[trigger] s.payload.subrange(i, i + 6) == HDRGM@;
        assert(matches_at(s.payload, HDRGM@, i));
        assert(matches_at(s.payload, XMP_SIG@, 0));
    }
    if crate::neutral::is_xmp_segment(s) {
        let i = choose|i: int| matches_at(s.payload, HDRGM@, i);
        assert(s.payload.subrange(i, i + 6) == HDRGM@);
    }
}

proof fn lemma_first_xmp(raw: Seq<u8>, k: int, m: Metadata, n: int)
    requires
        is_first_xmp(raw, k),
        xmp_metadata(segments(raw)[k].payload) == Some(m),
        0 <= n <= segments(raw).len(),
    ensures
        n <= k ==> metadata_of(segments(raw), false, n) == Seq::<Metadata>::empty(),
        n > k ==> metadata_of(segments(raw), false, n).len() > 0 && metadata_of(
            segments(raw),
            false,
            n,
        )[0] == m,
    decreases n,
{
    if n > 0 {
        lemma_first_xmp(raw, k, m, n - 1);
        lemma_gain_packet(segments(raw)[n - 1]);
        lemma_gain_packet(segments(raw)[k]);
    }
}

/// In a photo without ISO 21496-1 metadata, the neutral samples are those of the channels that its
/// first XMP packet with gain map attributes gives, in this order: with three largest gains, the
/// first, second and third sample.
pub proof fn law_xmp_samples_stand_in_order<F: Fn(Channel) -> Option<u8>>(
    neutral: F,
    raw: Seq<u8>,
    k: int,
    maxs: Seq<Seq<u8>>,
    mins: Seq<Seq<u8>>,
    gammas: Seq<Seq<u8>>,
    samples: Seq<u8>,
    info: NeutralInfo,
)
    requires
        both_metadata(raw, true).len() == 0,
        is_first_xmp(raw, k),
        attr_numbers_from(segments(raw)[k].payload, GAIN_MAP_MAX@, 0) == maxs,
        attr_numbers_from(segments(raw)[k].payload, GAIN_MAP_MIN@, 0) == mins,
        attr_numbers_from(segments(raw)[k].payload, GAIN_MAP_GAMMA@, 0) == gammas,
        maxs.len() == 3,
        samples.len() == 3,
        forall|i: int|
            0 <= i < 3 ==> has_sample(
                neutral,
                Encoding {
                    min: nth_or(mins, i, 0),
                    max: Value::Text(maxs[i]),
                    gamma: nth_or(gammas, i, 1),
                },
                #[trigger] samples[i],
            ),
        is_neutral_from(neutral, photo_metadata(raw), 0, info),
    ensures
        info.ok,
        info.multi_channel,
        info.values@ == samples,
{
    let segs = segments(raw);
    law_xmp_packet_gives_its_channels(segs[k].payload, maxs, mins, gammas);
    let m = xmp_metadata(segs[k].payload)->Some_0;
    lemma_first_xmp(raw, k, m, segs.len() as int);
    let list = photo_metadata(raw);
    assert(both_metadata(raw, false)[0] == m);
    assert(list[0] == both_metadata(raw, false)[0]);
    assert forall|i: int| 0 <= i < samples.len() implies has_sample(
        neutral,
        list[0].channels[i],
        #[trigger] samples[i],
    ) by {
        assert(m.channels[i] == (Encoding {
            min: nth_or(mins, i, 0),
            max: Value::Text(maxs[i]),
            gamma: nth_or(gammas, i, 1),
        }));
    }
    law_samples_stand_in_the_order_of_the_channels(neutral, list, samples, info);
}

/// Decimal digits.
pub open spec fn are_digits(s: Seq<u8>) -> bool {
    forall|i: int| 0 <= i < s.len() ==> 0x30 <= #[trigger] s[i] <= 0x39
}

/// A plus sign, a minus sign, or nothing.
pub open spec fn is_sign_or_nothing(s: Seq<u8>) -> bool {
    s.len() == 0 || (s.len() == 1 && (s[0] == 0x2B || s[0] == 0x2D))
}

/// Nothing, or `e` or `E`, a sign or nothing, and digits.
pub open spec fn is_exponent_or_nothing(s: Seq<u8>, sign: Seq<u8>, digits: Seq<u8>) -> bool {
    s.len() == 0 || (is_sign_or_nothing(sign) && are_digits(digits) && digits.len() > 0 && (s
        == seq![0x65u8] + sign + digits || s == seq![0x45u8] + sign + digits))
}

proof fn lemma_digits_end(s: Seq<u8>, i: int, end: int)
    requires
        0 <= i <= end <= s.len(),
        forall|j: int| i <= j < end ==> 0x30 <= #[trigger] s[j] <= 0x39,
        end == s.len() || !(0x30 <= s[end] <= 0x39),
    ensures
        digits_end(s, i) == end,
    decreases end - i,
{
    if i < end {
        assert(0x30 <= s[i] <= 0x39);
        lemma_digits_end(s, i + 1, end);
    }
}

/// Texts of decimal numbers are taken for numbers: a sign or none, digits, a point and digits or
/// none, and an exponent or none; digits may be missing before the point or behind it, not both.
pub proof fn law_decimal_texts_are_numbers(
    sign: Seq<u8>,
    whole: Seq<u8>,
    point: bool,
    fraction: Seq<u8>,
    exponent: Seq<u8>,
    exp_sign: Seq<u8>,
    exp_digits: Seq<u8>,
)
    requires
        is_sign_or_nothing(sign),
        are_digits(whole),
        are_digits(fraction),
        point || fraction.len() == 0,
        whole.len() + fraction.len() > 0,
        is_exponent_or_nothing(exponent, exp_sign, exp_digits),
    ensures
        is_number(
            sign + whole + (if point {
                seq![0x2Eu8]
            } else {
                Seq::empty()
            }) + fraction + exponent,
        ),
{
    let dot = if point {
        seq![0x2Eu8]
    } else {
        Seq::empty()
    };
    let s = sign + whole + dot + fraction + exponent;
    let i = sign.len() as int;
    let w = i + whole.len();
    let e = w + dot.len() + fraction.len();
    assert forall|j: int| i <= j < w implies 0x30 <= #[trigger] s[j] <= 0x39 by {
        assert(s[j] == whole[j - i]);
    }
    if exponent.len() > 0 {
        assert(s[e] == exponent[0]);
    }
    if point {
        assert(s[w] == 0x2E);
        assert forall|j: int| w + 1 <= j < e implies 0x30 <= #[trigger] s[j] <= 0x39 by {
            assert(s[j] == fraction[j - w - 1]);
        }
        lemma_digits_end(s, i, w);
        lemma_digits_end(s, w + 1, e);
    } else {
        lemma_digits_end(s, i, w);
    }
    if exponent.len() > 0 {
        let first = e + 1 + exp_sign.len();
        if exp_sign.len() > 0 {
            assert(s[e + 1] == exponent[1]);
            assert(exponent[1] == exp_sign[0]);
        } else {
            assert(s[e + 1] == exponent[1]);
            assert(exponent[1] == exp_digits[0]);
        }
        assert forall|j: int| first <= j < s.len() implies 0x30 <= #[trigger] s[j] <= 0x39 by {
            assert(s[j] == exponent[j - e]);
            assert(exponent[j - e] == exp_digits[j - first]);
        }
        lemma_digits_end(s, first, s.len() as int);
        assert(is_exponent_at(s, e));
    }
    assert(is_decimal_at(s, i));
    if sign.len() > 0 {
        assert(s[0] == sign[0]);
        assert(is_sign_at(s, 0));
    } else if whole.len() > 0 {
        assert(s[0] == whole[0]);
    } else {
        assert(s[0] == 0x2E);
    }
}

} // verus!
