//! Which bytes of a JPEG file its gain map is.

use vstd::prelude::*;

use crate::bytes::{be16_bytes, lemma_be16_round_trip, u16_be};
use crate::jpeg::{
    app_run_end, first_listed, gainmap_at, image_end, image_end_from, is_app2_with, is_jpeg,
    listed_range, next_image_from, scan_at, segment_bytes, segments, segments_from, written_segment,
    written_segments, Scan, Segment,
};
use crate::laws::{
    lacks, lemma_directory_scan, lemma_first_listed_step, lemma_gainmap_layout,
    lemma_run_lists_nothing,
};
use crate::mpf::{mpf_second, MPF_MARKER_LEN};
use crate::run::{lemma_written_first, run_parts, Part};
use crate::tags::MPF_SIG;
use crate::ultrahdr::{original_gainmap, with_gainmap};

verus! {

/// Segment `i` is the first one with a directory that lists a second image, `n` bytes at `abs` of
/// the file, and a JPEG image begins there.
pub open spec fn lists_gainmap(raw: Seq<u8>, i: int, abs: int, n: int) -> bool {
    let segs = segments(raw);
    &&& 0 <= i < segs.len()
    &&& segs[i].marker == 0xE2
    &&& mpf_second(segs[i].payload) == Some((abs - (segs[i].start + 8), n))
    &&& 0 <= abs && abs + 4 <= raw.len()
    &&& raw[abs] == 0xFF && raw[abs + 1] == 0xD8
    &&& forall|j: int|
        0 <= j < i ==> (#[trigger] segs[j]).marker != 0xE2 || mpf_second(segs[j].payload) is None
}

proof fn lemma_first_listed(raw: Seq<u8>, i: int, abs: int, n: int, j: int)
    requires
        lists_gainmap(raw, i, abs, n),
        0 <= j <= i,
    ensures
        first_listed(raw, segments(raw), j) == listed_range(raw, segments(raw)[i]),
    decreases i - j,
{
    if j < i {
        assert(segments(raw)[j].marker != 0xE2 || mpf_second(segments(raw)[j].payload) is None);
        lemma_first_listed(raw, i, abs, n, j + 1);
    } else {
        assert(listed_range(raw, segments(raw)[i]) is Some);
    }
}

/// The gain map that a directory lists has the listed bytes: exactly as many as are listed where
/// the file has them, and the rest of the file where it has fewer or the directory lists none.
pub proof fn law_listed_gainmap_has_the_listed_size(raw: Seq<u8>, i: int, abs: int, n: int)
    requires
        lists_gainmap(raw, i, abs, n),
        n >= 0,
    ensures
        gainmap_at(raw) is Some,
        0 < n <= raw.len() - abs ==> original_gainmap(raw) == raw.subrange(abs, abs + n),
        n == 0 || n > raw.len() - abs ==> original_gainmap(raw) == raw.subrange(
            abs,
            raw.len() as int,
        ),
{
    lemma_first_listed(raw, i, abs, n, 0);
}

/// The segments of a file are segments of the file with more bytes behind it.
proof fn lemma_segments_with_more(raw: Seq<u8>, more: Seq<u8>, off: int, i: int)
    requires
        0 <= off,
        0 <= i < segments_from(raw, off).len(),
    ensures
        i < segments_from(raw + more, off).len(),
        segments_from(raw + more, off)[i] == segments_from(raw, off)[i],
    decreases raw.len() - off,
{
    let all = raw + more;
    match scan_at(raw, off) {
        Scan::Stop => {},
        Scan::Standalone => {
            assert(scan_at(all, off) is Standalone);
            lemma_segments_with_more(raw, more, off + 2, i);
        },
        Scan::Segment { marker, end } => {
            assert(scan_at(all, off) == scan_at(raw, off));
            assert(all.subrange(off + 4, end) =~= raw.subrange(off + 4, end));
            let first = Segment { marker, payload: raw.subrange(off + 4, end), start: off };
            assert(segments_from(raw, off) == seq![first] + segments_from(raw, end));
            assert(segments_from(all, off) == seq![first] + segments_from(all, end));
            if i > 0 {
                lemma_segments_with_more(raw, more, end, i - 1);
            }
        },
    }
}

/// What stands behind a listed gain map does not matter: bytes that are appended to the file leave
/// the gain map as it is.
pub proof fn law_bytes_behind_a_listed_gainmap_do_not_matter(
    raw: Seq<u8>,
    more: Seq<u8>,
    i: int,
    abs: int,
    n: int,
)
    requires
        lists_gainmap(raw, i, abs, n),
        0 < n <= raw.len() - abs,
    ensures
        gainmap_at(raw + more) == gainmap_at(raw),
        original_gainmap(raw + more) == original_gainmap(raw),
{
    let all = raw + more;
    assert forall|j: int| 0 <= j <= i implies j < segments(all).len() && #[trigger] segments(all)[j]
        == segments(raw)[j] by {
        lemma_segments_with_more(raw, more, 2, j);
    }
    assert(segments(all)[i] == segments(raw)[i]);
    assert(lists_gainmap(all, i, abs, n));
    law_listed_gainmap_has_the_listed_size(raw, i, abs, n);
    law_listed_gainmap_has_the_listed_size(all, i, abs, n);
    lemma_first_listed(raw, i, abs, n, 0);
    lemma_first_listed(all, i, abs, n, 0);
    assert(all.subrange(abs, abs + n) =~= raw.subrange(abs, abs + n));
}

/// A gain map that was added to a file is extracted again, whatever bytes are appended: a video, or
/// further images.
pub proof fn law_added_gainmap_comes_back_from_a_longer_file(
    base: Seq<u8>,
    gm: Seq<u8>,
    more: Seq<u8>,
)
    requires
        is_jpeg(base),
        is_jpeg(gm),
        lacks(run_parts(base, 2), is_app2_with(MPF_SIG@)),
        base.len() + MPF_MARKER_LEN < 0x1_0000_0000,
        gm.len() < 0x1_0000_0000,
    ensures
        gainmap_at(with_gainmap(base, gm) + more) is Some,
        original_gainmap(with_gainmap(base, gm) + more) == gm,
{
    let file = with_gainmap(base, gm);
    let all = file + more;
    let at = app_run_end(base, 2);
    let base_len = base.len() + MPF_MARKER_LEN;
    let offset = base_len - (at + 8);
    lemma_gainmap_layout(base, gm);
    assert(all.subrange(0, at) =~= file.subrange(0, at));
    assert(all.subrange(at, at + 90) =~= file.subrange(at, at + 90));
    lemma_run_lists_nothing(base, all, 2);
    assert(all.subrange(0, at)[0] == base.subrange(0, at)[0]);
    assert(all.subrange(0, at)[1] == base.subrange(0, at)[1]);
    lemma_directory_scan(all, at, base_len, gm.len() as int, offset);
    let payload = all.subrange(at + 4, at + 90);
    let s = Segment { marker: 0xE2, payload, start: at };
    assert(segments_from(all, at) == seq![s] + segments_from(all, at + 90));
    lemma_first_listed_step(all, s, segments_from(all, at + 90));
    let tail = file.subrange(base_len, file.len() as int);
    assert(all[base_len] == tail[0] && all[base_len + 1] == tail[1]);
    assert(gainmap_at(all) == Some((base_len, gm.len() as int)));
    assert(all.subrange(base_len, base_len + gm.len()) =~= gm);
}

/// Marker segments that an image can have: with a length field, and no end marker.
pub open spec fn are_image_parts(parts: Seq<Part>) -> bool {
    forall|i: int|
        0 <= i < parts.len() ==> {
            let marker = (#[trigger] parts[i]).0;
            &&& marker != 0x00 && marker != 0x01 && !(0xD0 <= marker <= 0xD7) && marker != 0xD9
            &&& parts[i].1.len() <= 65533
        }
}

/// Entropy-coded data: a byte 0xFF is followed by a stuffed zero or is part of a restart marker.
pub open spec fn is_entropy_data(data: Seq<u8>) -> bool {
    forall|i: int|
        0 <= i < data.len() && #[trigger] data[i] == 0xFF ==> i + 1 < data.len() && (data[i + 1] == 0
            || 0xD0 <= data[i + 1] <= 0xD7)
}

/// A JPEG image: segments, the last of which may be the header of a scan, entropy-coded data, and
/// an end marker.
pub open spec fn image_bytes(parts: Seq<Part>, entropy: Seq<u8>) -> Seq<u8> {
    seq![0xFFu8, 0xD8] + written_segments(parts) + entropy + seq![0xFFu8, 0xD9]
}

/// The end of an image is looked for behind its segments.
proof fn lemma_end_behind_parts(raw: Seq<u8>, off: int, parts: Seq<Part>)
    requires
        0 <= off,
        are_image_parts(parts),
        off + written_segments(parts).len() <= raw.len(),
        raw.subrange(off, off + written_segments(parts).len()) == written_segments(parts),
    ensures
        image_end_from(raw, off) == image_end_from(raw, off + written_segments(parts).len()),
    decreases parts.len(),
{
    if parts.len() > 0 {
        let p = parts[0];
        let rest = parts.skip(1);
        lemma_written_first(parts);
        let all = written_segments(parts);
        let first = segment_bytes(p.0, p.1);
        let n = first.len() as int;
        assert(written_segment(p.0, p.1) == first);
        assert(p.1.len() <= 65533);
        let len = be16_bytes(p.1.len() as int + 2);
        lemma_be16_round_trip(p.1.len() as int + 2);
        let whole = raw.subrange(off, off + all.len());
        assert(whole[0] == first[0] && whole[1] == first[1] && whole[2] == first[2] && whole[3]
            == first[3]);
        assert(first[0] == 0xFF && first[1] == p.0 && first[2] == len[0] && first[3] == len[1]);
        assert(raw[off] == 0xFF && raw[off + 1] == p.0);
        assert(u16_be(raw, off + 2) == p.1.len() + 2);
        assert(image_end_from(raw, off) == image_end_from(raw, off + n));
        assert(raw.subrange(off + n, off + n + written_segments(rest).len()) =~= whole.subrange(
            n,
            whole.len() as int,
        ));
        assert(whole.subrange(n, whole.len() as int) =~= written_segments(rest));
        assert forall|i: int| 0 <= i < rest.len() implies {
            let marker = (#[trigger] rest[i]).0;
            &&& marker != 0x00 && marker != 0x01 && !(0xD0 <= marker <= 0xD7) && marker != 0xD9
            &&& rest[i].1.len() <= 65533
        } by {
            assert(rest[i] == parts[i + 1]);
        }
        lemma_end_behind_parts(raw, off + n, rest);
    }
}

/// The end of an image is looked for behind its entropy-coded data.
proof fn lemma_end_behind_entropy(raw: Seq<u8>, off: int, data: Seq<u8>, i: int)
    requires
        0 <= off,
        0 <= i <= data.len(),
        is_entropy_data(data),
        off + data.len() < raw.len(),
        raw.subrange(off, off + data.len()) == data,
    ensures
        image_end_from(raw, off + i) == image_end_from(raw, off + data.len()),
    decreases data.len() - i,
{
    if i < data.len() {
        let part = raw.subrange(off, off + data.len());
        assert(part[i] == raw[off + i]);
        if data[i] == 0xFF {
            assert(part[i + 1] == raw[off + i + 1]);
            lemma_end_behind_entropy(raw, off, data, i + 2);
        } else {
            lemma_end_behind_entropy(raw, off, data, i + 1);
        }
    }
}

/// An image ends behind its end marker, wherever it stands and whatever follows it. What its
/// segments hold does not matter, nor stuffed bytes and restart markers.
pub proof fn law_image_ends_behind_its_end_marker(
    before: Seq<u8>,
    parts: Seq<Part>,
    entropy: Seq<u8>,
    behind: Seq<u8>,
)
    requires
        are_image_parts(parts),
        is_entropy_data(entropy),
    ensures
        ({
            let image = image_bytes(parts, entropy);
            image_end(before + image + behind, before.len() as int) == Some(
                (before.len() + image.len()) as int,
            )
        }),
{
    let image = image_bytes(parts, entropy);
    let raw = before + image + behind;
    let (w, b) = (written_segments(parts), before.len() as int);
    let at = b + 2 + w.len();
    assert(raw[b] == image[0] && raw[b + 1] == image[1]);
    assert(image[0] == 0xFF && image[1] == 0xD8);
    assert(raw.subrange(b + 2, at) =~= w);
    lemma_end_behind_parts(raw, b + 2, parts);
    assert(raw.subrange(at, at + entropy.len()) =~= entropy);
    lemma_end_behind_entropy(raw, at, entropy, 0);
    let end = at + entropy.len();
    assert(raw[end] == image[end - b] && raw[end + 1] == image[end + 1 - b]);
    assert(image[end - b] == 0xFF && image[end + 1 - b] == 0xD9);
}

/// A start marker stands at `i`, and behind it another marker, which a stuffed zero is not.
pub open spec fn is_image_start(raw: Seq<u8>, i: int) -> bool {
    raw[i] == 0xFF && raw[i + 1] == 0xD8 && raw[i + 2] == 0xFF && raw[i + 3] != 0
}

proof fn lemma_next_image(raw: Seq<u8>, p: int, q: int)
    requires
        0 <= p <= q,
        q + 3 < raw.len(),
        forall|i: int| p <= i < q ==> !#[trigger] is_image_start(raw, i),
    ensures
        next_image_from(raw, p) == next_image_from(raw, q),
    decreases q - p,
{
    if p < q {
        assert(!is_image_start(raw, p));
        lemma_next_image(raw, p + 1, q);
    }
}

/// In a file without a directory, the gain map is the second image: it begins where the second
/// image does, behind whatever fills the gap, and ends where that ends, whatever follows.
pub proof fn law_second_image_is_the_gainmap(
    parts: Seq<Part>,
    entropy: Seq<u8>,
    gap: Seq<u8>,
    gm_parts: Seq<Part>,
    gm_entropy: Seq<u8>,
    behind: Seq<u8>,
)
    requires
        are_image_parts(parts),
        is_entropy_data(entropy),
        ({
            let (first, gm) = (image_bytes(parts, entropy), image_bytes(gm_parts, gm_entropy));
            let raw = first + gap + gm + behind;
            forall|i: int|
                first.len() <= i < first.len() + gap.len() ==> !#[trigger] is_image_start(raw, i)
        }),
        are_image_parts(gm_parts),
        is_entropy_data(gm_entropy),
        gm_parts.len() > 0,
        ({
            let raw = image_bytes(parts, entropy) + gap + image_bytes(gm_parts, gm_entropy) + behind;
            forall|j: int|
                0 <= j < segments(raw).len() ==> (#[trigger] segments(raw)[j]).marker != 0xE2
                    || mpf_second(segments(raw)[j].payload) is None
        }),
    ensures
        ({
            let gm = image_bytes(gm_parts, gm_entropy);
            let raw = image_bytes(parts, entropy) + gap + gm + behind;
            gainmap_at(raw) is Some && original_gainmap(raw) == gm
        }),
{
    let (first, gm) = (image_bytes(parts, entropy), image_bytes(gm_parts, gm_entropy));
    let raw = first + gap + gm + behind;
    let none = Seq::<u8>::empty();
    lemma_nothing_listed(raw, 0);
    assert(raw =~= none + first + (gap + gm + behind));
    law_image_ends_behind_its_end_marker(none, parts, entropy, gap + gm + behind);
    let (p, q) = (first.len() as int, (first.len() + gap.len()) as int);
    lemma_written_first(gm_parts);
    let seg = segment_bytes(gm_parts[0].0, gm_parts[0].1);
    assert(gm_parts[0].1.len() <= 65533);
    assert(gm[0] == 0xFF && gm[1] == 0xD8 && gm[2] == seg[0] && gm[3] == seg[1]);
    assert(raw[q] == gm[0] && raw[q + 1] == gm[1] && raw[q + 2] == gm[2] && raw[q + 3] == gm[3]);
    lemma_next_image(raw, p, q);
    assert(raw =~= (first + gap) + gm + behind);
    law_image_ends_behind_its_end_marker(first + gap, gm_parts, gm_entropy, behind);
    assert(gainmap_at(raw) == Some((q, gm.len() as int)));
    assert(raw.subrange(q, q + gm.len()) =~= gm);
}

proof fn lemma_nothing_listed(raw: Seq<u8>, i: int)
    requires
        0 <= i,
        forall|j: int|
            0 <= j < segments(raw).len() ==> (#[trigger] segments(raw)[j]).marker != 0xE2
                || mpf_second(segments(raw)[j].payload) is None,
    ensures
        first_listed(raw, segments(raw), i) is None,
    decreases segments(raw).len() - i,
{
    if i < segments(raw).len() {
        assert(segments(raw)[i].marker != 0xE2 || mpf_second(segments(raw)[i].payload) is None);
        lemma_nothing_listed(raw, i + 1);
    }
}

/// A second image without an end marker reaches to the end of the file.
pub proof fn law_unfinished_second_image_reaches_to_the_end(
    parts: Seq<Part>,
    entropy: Seq<u8>,
    gap: Seq<u8>,
    behind: Seq<u8>,
)
    requires
        are_image_parts(parts),
        is_entropy_data(entropy),
        behind.len() >= 4,
        is_image_start(behind, 0),
        ({
            let first = image_bytes(parts, entropy);
            let raw = first + gap + behind;
            &&& image_end(raw, (first.len() + gap.len()) as int) is None
            &&& forall|i: int|
                first.len() <= i < first.len() + gap.len() ==> !#[trigger] is_image_start(raw, i)
            &&& forall|j: int|
                0 <= j < segments(raw).len() ==> (#[trigger] segments(raw)[j]).marker != 0xE2
                    || mpf_second(segments(raw)[j].payload) is None
        }),
    ensures
        ({
            let raw = image_bytes(parts, entropy) + gap + behind;
            gainmap_at(raw) is Some && original_gainmap(raw) == behind
        }),
{
    let first = image_bytes(parts, entropy);
    let raw = first + gap + behind;
    let none = Seq::<u8>::empty();
    let (p, q) = (first.len() as int, (first.len() + gap.len()) as int);
    lemma_nothing_listed(raw, 0);
    assert(raw =~= none + first + (gap + behind));
    law_image_ends_behind_its_end_marker(none, parts, entropy, gap + behind);
    assert(raw[q] == behind[0] && raw[q + 1] == behind[1] && raw[q + 2] == behind[2] && raw[q + 3]
        == behind[3]);
    lemma_next_image(raw, p, q);
    assert(raw.subrange(q, raw.len() as int) =~= behind);
}

} // verus!
