//! What the directories of tagged entries give: multi-picture directories and maker notes.

use vstd::prelude::*;

use crate::bytes::{find_from, lemma_find_from, matches_at};
use crate::makernote::{
    maker_entries, maker_note, maker_note_from, MakerEntries, MakerNote, Ratio,
};
use crate::mpf::{mpf_entries, mpf_second, tiff_u16, tiff_u32, MpfEntries};
use crate::tags::{APPLE_IOS, BYTE_ORDER_BE, BYTE_ORDER_LE, MPF_SIG};

verus! {

/// The 16-bit number at `o`, lowest byte first with `le`.
pub open spec fn short_at(t: Seq<u8>, o: int, le: bool) -> int {
    if le {
        t[o] + 256 * t[o + 1]
    } else {
        256 * t[o] + t[o + 1]
    }
}

/// The 32-bit number at `o`, lowest byte first with `le`.
pub open spec fn long_at(t: Seq<u8>, o: int, le: bool) -> int {
    if le {
        short_at(t, o, le) + 65536 * short_at(t, o + 2, le)
    } else {
        65536 * short_at(t, o, le) + short_at(t, o + 2, le)
    }
}

/// `II` for the lowest byte first, `MM` for the highest, stands at `o`.
pub open spec fn has_byte_order(t: Seq<u8>, o: int, le: bool) -> bool {
    if le {
        t[o] == 0x49 && t[o + 1] == 0x49
    } else {
        t[o] == 0x4D && t[o + 1] == 0x4D
    }
}

/// Entry `i` of the directory at `ifd` is a list of images of an acceptable size.
pub open spec fn is_image_list(t: Seq<u8>, le: bool, ifd: int, i: int) -> bool {
    let e = ifd + 2 + 12 * i;
    short_at(t, e, le) == 0xB002 && 32 <= long_at(t, e + 4, le) <= 1024
}

/// Entry `i` of the directory at `ifd` counts images.
pub open spec fn is_image_count(t: Seq<u8>, le: bool, ifd: int, i: int) -> bool {
    short_at(t, ifd + 2 + 12 * i, le) == 0xB001
}

/// The count in entry `i`: a short number or a long one, as its type says.
pub open spec fn image_count(t: Seq<u8>, le: bool, ifd: int, i: int) -> int {
    let e = ifd + 2 + 12 * i;
    if short_at(t, e + 2, le) == 3 {
        short_at(t, e + 8, le)
    } else {
        long_at(t, e + 8, le)
    }
}

/// A multi-picture directory of `count` entries at `ifd`, all of which the payload holds.
pub open spec fn is_directory(seg: Seq<u8>, le: bool, ifd: int, count: int) -> bool {
    let t = seg.subrange(4, seg.len() as int);
    &&& seg.len() >= 14
    &&& seg[0] == 0x4D && seg[1] == 0x50 && seg[2] == 0x46 && seg[3] == 0
    &&& has_byte_order(t, 0, le)
    &&& short_at(t, 2, le) == 42
    &&& long_at(t, 4, le) == ifd
    &&& ifd + 2 + 12 * count <= t.len()
    &&& short_at(t, ifd, le) == count
    &&& 1 <= count <= 64
}

/// Entry `i` is the last one of `count` that `kind` holds of.
pub open spec fn is_last(kind: spec_fn(int) -> bool, i: int, count: int) -> bool {
    &&& 0 <= i < count
    &&& kind(i)
    &&& forall|j: int| i < j < count ==> !#[trigger] kind(j)
}

proof fn lemma_numbers(t: Seq<u8>, o: int, le: bool)
    requires
        0 <= o,
    ensures
        o + 2 <= t.len() ==> tiff_u16(t, o, le) == Some(short_at(t, o, le)),
        o + 4 <= t.len() ==> tiff_u32(t, o, le) == Some(long_at(t, o, le)),
{
}

proof fn lemma_directory_entries(t: Seq<u8>, le: bool, ifd: int, n: int, list: int)
    requires
        0 <= ifd,
        0 <= n,
        ifd + 2 + 12 * n <= t.len(),
    ensures
        mpf_entries(t, le, ifd, n) is Some,
        is_last(|i: int| is_image_list(t, le, ifd, i), list, n) ==> mpf_entries(
            t,
            le,
            ifd,
            n,
        )->Some_0.list == Some(long_at(t, ifd + 2 + 12 * list + 8, le)),
        (forall|i: int| 0 <= i < n ==> !#[trigger] is_image_list(t, le, ifd, i)) ==> mpf_entries(
            t,
            le,
            ifd,
            n,
        )->Some_0.list is None,
        (forall|i: int| 0 <= i < n ==> !#[trigger] is_image_count(t, le, ifd, i)) ==> mpf_entries(
            t,
            le,
            ifd,
            n,
        )->Some_0.images == 0,
    decreases n,
{
    if n > 0 {
        let e = ifd + 2 + (n - 1) * 12;
        lemma_directory_entries(t, le, ifd, n - 1, list);
        lemma_numbers(t, e, le);
        lemma_numbers(t, e + 2, le);
        lemma_numbers(t, e + 4, le);
        lemma_numbers(t, e + 8, le);
        let kind = |i: int| is_image_list(t, le, ifd, i);
        assert(e == ifd + 2 + 12 * (n - 1));
        assert(kind(n - 1) == is_image_list(t, le, ifd, n - 1));
        assert(is_image_count(t, le, ifd, n - 1) == (short_at(t, e, le) == 0xB001));
        if is_last(kind, list, n) {
            assert(is_image_list(t, le, ifd, list));
            if list < n - 1 {
                assert(!kind(n - 1));
                assert(is_last(kind, list, n - 1));
            }
        }
    }
}

proof fn lemma_directory_count(t: Seq<u8>, le: bool, ifd: int, n: int, count: int)
    requires
        0 <= ifd,
        0 <= n,
        ifd + 2 + 12 * n <= t.len(),
        is_last(|i: int| is_image_count(t, le, ifd, i), count, n),
    ensures
        mpf_entries(t, le, ifd, n) matches Some(m) && m.images == image_count(t, le, ifd, count),
    decreases n,
{
    let e = ifd + 2 + (n - 1) * 12;
    let kind = |i: int| is_image_count(t, le, ifd, i);
    lemma_directory_entries(t, le, ifd, n - 1, 0);
    lemma_numbers(t, e, le);
    lemma_numbers(t, e + 2, le);
    lemma_numbers(t, e + 4, le);
    lemma_numbers(t, e + 8, le);
    assert(e == ifd + 2 + 12 * (n - 1));
    assert(kind(count) && is_image_count(t, le, ifd, count));
    if count < n - 1 {
        assert(!kind(n - 1));
        assert(!is_image_count(t, le, ifd, n - 1));
        assert(is_last(kind, count, n - 1));
        lemma_directory_count(t, le, ifd, n - 1, count);
    }
}

proof fn lemma_directory_head(seg: Seq<u8>, le: bool, ifd: int, count: int)
    requires
        is_directory(seg, le, ifd, count),
    ensures
        ({
            let t = seg.subrange(4, seg.len() as int);
            mpf_second(seg) == (match mpf_entries(t, le, ifd, count) {
                Some(MpfEntries { images, list: Some(list) }) => if images != 1 && list + 32
                    <= t.len() {
                    Some(
                        (
                            tiff_u32(t, list + 24, le).unwrap(),
                            tiff_u32(t, list + 20, le).unwrap(),
                        ),
                    )
                } else {
                    None
                },
                _ => None,
            })
        }),
{
    reveal(mpf_second);
    let t = seg.subrange(4, seg.len() as int);
    assert(seg.subrange(0, 4) =~= MPF_SIG@);
    assert(matches_at(seg, MPF_SIG@, 0));
    let order = t.subrange(0, 2);
    assert(order[0] == t[0] && order[1] == t[1]);
    assert(BYTE_ORDER_LE@[0] == 0x49 && BYTE_ORDER_BE@[0] == 0x4D);
    if le {
        assert(order =~= BYTE_ORDER_LE@);
    } else {
        assert(order =~= BYTE_ORDER_BE@);
        assert(BYTE_ORDER_LE@ != order) by {
            assert(BYTE_ORDER_LE@[0] != order[0]);
        }
    }
    lemma_numbers(t, 2, le);
    lemma_numbers(t, 4, le);
    lemma_numbers(t, ifd, le);
}

/// A directory, in either byte order and with its entries in any order, lists the second image
/// where the second record of its last image list says: the size in the record's second number, the
/// offset in the third. It does so where it counts no images, or not just one.
pub proof fn law_directory_lists_its_second_record(
    seg: Seq<u8>,
    le: bool,
    ifd: int,
    count: int,
    list: int,
    images: Option<int>,
)
    requires
        is_directory(seg, le, ifd, count),
        ({
            let t = seg.subrange(4, seg.len() as int);
            let records = long_at(t, ifd + 2 + 12 * list + 8, le);
            &&& is_last(|i: int| is_image_list(t, le, ifd, i), list, count)
            &&& records + 32 <= t.len()
            &&& match images {
                Some(i) => is_last(|i: int| is_image_count(t, le, ifd, i), i, count),
                None => forall|i: int| 0 <= i < count ==> !#[trigger] is_image_count(t, le, ifd, i),
            }
        }),
    ensures
        ({
            let t = seg.subrange(4, seg.len() as int);
            let record = long_at(t, ifd + 2 + 12 * list + 8, le) + 16;
            let single = images matches Some(i) && image_count(t, le, ifd, i) == 1;
            mpf_second(seg) == (if single {
                None
            } else {
                Some((long_at(t, record + 8, le), long_at(t, record + 4, le)))
            })
        }),
{
    let t = seg.subrange(4, seg.len() as int);
    let records = long_at(t, ifd + 2 + 12 * list + 8, le);
    assert(0 <= ifd);
    lemma_directory_head(seg, le, ifd, count);
    lemma_directory_entries(t, le, ifd, count, list);
    if let Some(i) = images {
        lemma_directory_count(t, le, ifd, count, i);
    }
    lemma_numbers(t, records + 20, le);
    lemma_numbers(t, records + 24, le);
}

/// A directory without an image list lists nothing.
pub proof fn law_directory_without_a_list_lists_nothing(
    seg: Seq<u8>,
    le: bool,
    ifd: int,
    count: int,
)
    requires
        is_directory(seg, le, ifd, count),
        forall|i: int|
            0 <= i < count ==> !#[trigger] is_image_list(
                seg.subrange(4, seg.len() as int),
                le,
                ifd,
                i,
            ),
    ensures
        mpf_second(seg) is None,
{
    lemma_directory_head(seg, le, ifd, count);
    lemma_directory_entries(seg.subrange(4, seg.len() as int), le, ifd, count, 0);
}

/// Entry `i` of a maker note gives a quotient for `tag`: a single signed quotient that the note
/// holds, whose denominator is not 0.
pub open spec fn gives_ratio(mn: Seq<u8>, le: bool, tag: int, i: int) -> bool {
    let e = 16 + 12 * i;
    let at = long_at(mn, e + 8, le);
    &&& short_at(mn, e, le) == tag
    &&& short_at(mn, e + 2, le) == 10
    &&& long_at(mn, e + 4, le) == 1
    &&& at + 8 <= mn.len()
    &&& long_at(mn, at + 4, le) != 0
}

/// The quotient that entry `i` gives: its offset counts from the start of the note.
pub open spec fn is_ratio_of(mn: Seq<u8>, le: bool, i: int, r: Ratio) -> bool {
    let at = long_at(mn, 16 + 12 * i + 8, le);
    r.num == long_at(mn, at, le) && r.den == long_at(mn, at + 4, le)
}

proof fn lemma_maker_entries(mn: Seq<u8>, le: bool, n: int, h: int, g: int)
    requires
        0 <= n,
        16 + 12 * n <= mn.len(),
    ensures
        is_last(|i: int| gives_ratio(mn, le, 0x21, i), h, n) ==> (maker_entries(
            mn,
            le,
            n,
        ).headroom matches Some(r) && is_ratio_of(mn, le, h, r)),
        is_last(|i: int| gives_ratio(mn, le, 0x30, i), g, n) ==> (maker_entries(
            mn,
            le,
            n,
        ).gain matches Some(r) && is_ratio_of(mn, le, g, r)),
        (forall|i: int| 0 <= i < n ==> !#[trigger] gives_ratio(mn, le, 0x21, i)) ==> maker_entries(
            mn,
            le,
            n,
        ).headroom is None,
        (forall|i: int| 0 <= i < n ==> !#[trigger] gives_ratio(mn, le, 0x30, i)) ==> maker_entries(
            mn,
            le,
            n,
        ).gain is None,
    decreases n,
{
    if n > 0 {
        let e = 16 + (n - 1) * 12;
        let at = long_at(mn, e + 8, le);
        lemma_maker_entries(mn, le, n - 1, h, g);
        lemma_numbers(mn, e, le);
        lemma_numbers(mn, e + 2, le);
        lemma_numbers(mn, e + 4, le);
        lemma_numbers(mn, e + 8, le);
        lemma_numbers(mn, at, le);
        lemma_numbers(mn, at + 4, le);
        assert(e == 16 + 12 * (n - 1));
        let (room, gain) = (
            |i: int| gives_ratio(mn, le, 0x21, i),
            |i: int| gives_ratio(mn, le, 0x30, i),
        );
        assert(room(n - 1) == gives_ratio(mn, le, 0x21, n - 1));
        assert(gain(n - 1) == gives_ratio(mn, le, 0x30, n - 1));
        if is_last(room, h, n) {
            assert(gives_ratio(mn, le, 0x21, h));
            if h < n - 1 {
                assert(is_last(room, h, n - 1));
            }
        }
        if is_last(gain, g, n) {
            assert(gives_ratio(mn, le, 0x30, g));
            if g < n - 1 {
                assert(is_last(gain, g, n - 1));
            }
        }
    }
}

/// A maker note of `count` entries, all of which the bytes hold.
pub open spec fn is_maker_note(mn: Seq<u8>, le: bool, count: int) -> bool {
    &&& mn.len() >= 20
    &&& has_byte_order(mn, 12, le)
    &&& short_at(mn, 14, le) == count
    &&& 1 <= count <= 200
    &&& 16 + 12 * count <= mn.len()
}

proof fn lemma_maker_head(mn: Seq<u8>, le: bool, count: int)
    requires
        is_maker_note(mn, le, count),
    ensures
        maker_note(mn) == (match maker_entries(mn, le, count) {
            MakerEntries { headroom: Some(headroom), gain: Some(gain) } => Some(
                MakerNote { headroom, gain },
            ),
            _ => None,
        }),
{
    let order = mn.subrange(12, 14);
    assert(order[0] == mn[12] && order[1] == mn[13]);
    assert(BYTE_ORDER_LE@[0] == 0x49 && BYTE_ORDER_BE@[0] == 0x4D);
    if le {
        assert(order =~= BYTE_ORDER_LE@);
    } else {
        assert(order =~= BYTE_ORDER_BE@);
        assert(BYTE_ORDER_LE@ != order) by {
            assert(BYTE_ORDER_LE@[0] != order[0]);
        }
    }
    lemma_numbers(mn, 14, le);
}

/// A maker note, in either byte order and with its entries in any order, gives the quotients of its
/// last usable entries for the headroom and for the gain.
pub proof fn law_maker_note_gives_its_quotients(
    mn: Seq<u8>,
    le: bool,
    count: int,
    h: int,
    g: int,
)
    requires
        is_maker_note(mn, le, count),
        is_last(|i: int| gives_ratio(mn, le, 0x21, i), h, count),
        is_last(|i: int| gives_ratio(mn, le, 0x30, i), g, count),
    ensures
        maker_note(mn) matches Some(note) && is_ratio_of(mn, le, h, note.headroom) && is_ratio_of(
            mn,
            le,
            g,
            note.gain,
        ),
{
    lemma_maker_head(mn, le, count);
    lemma_maker_entries(mn, le, count, h, g);
}

/// A maker note without a usable headroom, or without a usable gain, gives nothing.
pub proof fn law_maker_note_needs_both_quotients(mn: Seq<u8>, le: bool, count: int)
    requires
        is_maker_note(mn, le, count),
        (forall|i: int| 0 <= i < count ==> !#[trigger] gives_ratio(mn, le, 0x21, i)) || (forall|
            i: int,
        |
            0 <= i < count ==> !#[trigger] gives_ratio(mn, le, 0x30, i)),
    ensures
        maker_note(mn) is None,
{
    lemma_maker_head(mn, le, count);
    lemma_maker_entries(mn, le, count, 0, 0);
}

/// A maker note begins at `i`: the bytes `Apple iOS` and a zero.
pub open spec fn note_begins(raw: Seq<u8>, i: int) -> bool {
    &&& 0 <= i && i + 10 <= raw.len()
    &&& raw.subrange(i, i + 10) == APPLE_IOS@
}

proof fn lemma_first_note(raw: Seq<u8>, at: int, i: int)
    requires
        0 <= at <= i,
        note_begins(raw, i),
        maker_note(raw.subrange(i, raw.len() as int)) is Some,
        forall|j: int|
            at <= j < i && #[trigger] note_begins(raw, j) ==> maker_note(
                raw.subrange(j, raw.len() as int),
            ) is None,
    ensures
        maker_note_from(raw, at) == maker_note(raw.subrange(i, raw.len() as int)),
    decreases i - at,
{
    lemma_find_from(raw, APPLE_IOS@, at);
    assert(matches_at(raw, APPLE_IOS@, i));
    match find_from(raw, APPLE_IOS@, at) {
        Some(k) => {
            assert(note_begins(raw, k));
            if k < i {
                if i < k + 10 {
                    let (a, b) = (raw.subrange(k, k + 10), raw.subrange(i, i + 10));
                    assert(a[i - k] == b[0]);
                    assert(APPLE_IOS@[0] == 0x41);
                    assert(forall|m: int| 0 < m < 10 ==> #[trigger] APPLE_IOS@[m] != 0x41);
                }
                lemma_first_note(raw, k + 10, i);
            }
        },
        None => {},
    }
}

/// The maker note of a file is the first one that gives its quotients.
pub proof fn law_first_readable_note_counts(raw: Seq<u8>, i: int)
    requires
        note_begins(raw, i),
        maker_note(raw.subrange(i, raw.len() as int)) is Some,
        forall|j: int|
            0 <= j < i && #[trigger] note_begins(raw, j) ==> maker_note(
                raw.subrange(j, raw.len() as int),
            ) is None,
    ensures
        maker_note_from(raw, 0) == maker_note(raw.subrange(i, raw.len() as int)),
{
    lemma_first_note(raw, 0, i);
}

proof fn lemma_order(t: Seq<u8>, o: int)
    requires
        0 <= o,
        o + 2 <= t.len(),
    ensures
        matches_at(t, BYTE_ORDER_LE@, o) == has_byte_order(t, o, true),
        matches_at(t, BYTE_ORDER_BE@, o) == has_byte_order(t, o, false),
{
    let order = t.subrange(o, o + 2);
    assert(order[0] == t[o] && order[1] == t[o + 1]);
    assert(BYTE_ORDER_LE@ =~= seq![0x49u8, 0x49]);
    assert(BYTE_ORDER_BE@ =~= seq![0x4Du8, 0x4D]);
    if has_byte_order(t, o, true) {
        assert(order =~= BYTE_ORDER_LE@);
    }
    if has_byte_order(t, o, false) {
        assert(order =~= BYTE_ORDER_BE@);
    }
    if matches_at(t, BYTE_ORDER_LE@, o) {
        assert(order[0] == BYTE_ORDER_LE@[0] && order[1] == BYTE_ORDER_LE@[1]);
    }
    if matches_at(t, BYTE_ORDER_BE@, o) {
        assert(order[0] == BYTE_ORDER_BE@[0] && order[1] == BYTE_ORDER_BE@[1]);
    }
}

/// A payload is no directory: it is too short, has another signature, no byte order or another
/// number than 42 behind it, or a directory whose entry count is cut off, 0, or more than 64.
pub open spec fn is_no_directory(seg: Seq<u8>, le: bool) -> bool {
    let t = seg.subrange(4, seg.len() as int);
    let ifd = long_at(t, 4, le);
    ||| seg.len() < 14
    ||| seg.subrange(0, 4) != MPF_SIG@
    ||| !has_byte_order(t, 0, true) && !has_byte_order(t, 0, false)
    ||| has_byte_order(t, 0, le) && (short_at(t, 2, le) != 42 || ifd + 2 > t.len() || short_at(
        t,
        ifd,
        le,
    ) == 0 || short_at(t, ifd, le) > 64)
}

/// A payload that is no directory lists nothing.
pub proof fn law_no_directory_lists_nothing(seg: Seq<u8>, le: bool)
    requires
        is_no_directory(seg, le),
    ensures
        mpf_second(seg) is None,
{
    reveal(mpf_second);
    if seg.len() >= 14 {
        let t = seg.subrange(4, seg.len() as int);
        lemma_order(t, 0);
        if matches_at(seg, MPF_SIG@, 0) {
            assert(seg.subrange(0, 4) =~= MPF_SIG@);
        }
        if has_byte_order(t, 0, le) {
            let ifd = long_at(t, 4, le);
            lemma_numbers(t, 2, le);
            lemma_numbers(t, 4, le);
            if ifd + 2 <= t.len() {
                lemma_numbers(t, ifd, le);
            }
        }
    }
}

/// A maker note gives nothing where it is too short, has no byte order behind its twelfth byte, or
/// has no entries, more than 200, or more than fit.
pub proof fn law_unsound_maker_note_gives_nothing(mn: Seq<u8>, le: bool)
    requires
        mn.len() < 20 || !has_byte_order(mn, 12, true) && !has_byte_order(mn, 12, false)
            || has_byte_order(mn, 12, le) && (short_at(mn, 14, le) == 0 || short_at(mn, 14, le)
            > 200 || 16 + 12 * short_at(mn, 14, le) > mn.len()),
    ensures
        maker_note(mn) is None,
{
    if mn.len() >= 20 {
        lemma_order(mn, 12);
        if has_byte_order(mn, 12, le) {
            lemma_numbers(mn, 14, le);
        }
    }
}

} // verus!
