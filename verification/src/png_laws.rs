//! What holds of composited and composed PNG files as a whole.

use vstd::prelude::*;

use crate::apple::{cicp_chunk, composed_head, is_composed_file};
use crate::blend::Overlay;
use crate::bytes::{matches_at, occurs};
use crate::codec::trailer_chunk;
use crate::composite::{are_idat, has_alpha, is_passed_on, new_chunks, passed_on};
use crate::detect::{chunk_kind, hdr_kind, png_kind_from, HdrKind};
use crate::png_file::{
    chunk_at, chunk_end, chunks_from, first_of, has_type, lemma_first_of, png_chunks, primaries_of,
    transfer_of, without_matrix, Chunk,
};
use crate::tags::{CICP, CLLI, HDRGM, HDR_GAIN_MAP, IDAT, IEND, IHDR, MDCV};

verus! {

/// What the chunks from number `i` on tell, up to the image data or the trailer.
pub open spec fn list_kind(chunks: Seq<Chunk>, i: int) -> Option<HdrKind>
    decreases chunks.len() - i,
{
    if i >= chunks.len() {
        None
    } else if chunks[i].typ == IDAT@ {
        None
    } else if chunk_kind(chunks[i]) is Some {
        chunk_kind(chunks[i])
    } else if chunks[i].typ == IEND@ {
        None
    } else {
        list_kind(chunks, i + 1)
    }
}

proof fn lemma_list_kind_shift(first: Chunk, rest: Seq<Chunk>, i: int)
    requires
        0 <= i,
    ensures
        list_kind(seq![first] + rest, i + 1) == list_kind(rest, i),
    decreases rest.len() - i,
{
    if i < rest.len() {
        assert((seq![first] + rest)[i + 1] == rest[i]);
        lemma_list_kind_shift(first, rest, i + 1);
    }
}

/// What a list with one more chunk in front tells.
proof fn lemma_list_kind_step(first: Chunk, rest: Seq<Chunk>)
    ensures
        list_kind(seq![first] + rest, 0) == (if first.typ == IDAT@ {
            None
        } else if chunk_kind(first) is Some {
            chunk_kind(first)
        } else if first.typ == IEND@ {
            None
        } else {
            list_kind(rest, 0)
        }),
{
    assert((seq![first] + rest)[0] == first);
    lemma_list_kind_shift(first, rest, 0);
}

proof fn lemma_kind_from(data: Seq<u8>, off: int)
    requires
        0 <= off,
        chunks_from(data, off) is Ok,
    ensures
        png_kind_from(data, off) == list_kind(chunks_from(data, off)->Ok_0, 0),
        off + 12 <= data.len(),
    decreases data.len() - off,
{
    let c = chunk_at(data, off);
    if c.typ == IEND@ {
        assert(seq![c] =~= seq![c] + Seq::<Chunk>::empty());
        lemma_list_kind_step(c, Seq::empty());
    } else {
        let next = chunk_end(data, off);
        lemma_kind_from(data, next);
        lemma_list_kind_step(c, chunks_from(data, next)->Ok_0);
    }
}

/// What a PNG file tells is what its chunks tell.
pub proof fn law_kind_is_that_of_the_chunks(file: Seq<u8>)
    requires
        png_chunks(file) is Ok,
    ensures
        hdr_kind(file) == list_kind(png_chunks(file)->Ok_0, 0),
{
    lemma_kind_from(file, 8);
}

/// A composed photo is detected as a PQ image, unless the numbers in its header happen to spell a
/// gain map prefix.
pub proof fn law_composed_photo_is_detected(
    file: Seq<u8>,
    base_w: int,
    base_h: int,
    mask: Overlay,
)
    requires
        is_composed_file(file, base_w, base_h, mask),
        !occurs(composed_head(base_w, mask.rows_with(base_h))[0].data, HDRGM@),
    ensures
        hdr_kind(file) == Some(HdrKind::PngPq),
{
    let head = composed_head(base_w, mask.rows_with(base_h));
    let data = choose|data: Seq<Chunk>| #[trigger]
        are_idat(data) && png_chunks(file) == Ok::<Seq<Chunk>, Seq<char>>(
            head + data + seq![trailer_chunk()],
        );
    let header = head[0];
    let rest = data + seq![trailer_chunk()];
    law_kind_is_that_of_the_chunks(file);
    assert(head + data + seq![trailer_chunk()] =~= seq![header] + (seq![cicp_chunk()] + rest));
    lemma_header_tells_nothing(header);
    lemma_list_kind_step(header, seq![cicp_chunk()] + rest);
    lemma_list_kind_step(cicp_chunk(), rest);
    assert(cicp_chunk().data[1] == 16);
}

/// A header chunk without a gain map prefix tells nothing.
proof fn lemma_header_tells_nothing(header: Chunk)
    requires
        header.typ == IHDR@,
        header.data.len() == 13,
        header.data[11] == 0,
        !occurs(header.data, HDRGM@),
    ensures
        chunk_kind(header) is None,
        header.typ != IDAT@,
        header.typ != IEND@,
{
    assert(IHDR@[0] == 0x49 && CICP@[0] == 0x63 && MDCV@[0] == 0x6D && CLLI@[0] == 0x63);
    assert(IHDR@[1] == 0x48 && IDAT@[1] == 0x44 && IEND@[1] == 0x45);
    if occurs(header.data, HDR_GAIN_MAP@) {
        let i = choose|i: int| matches_at(header.data, HDR_GAIN_MAP@, i);
        let s = header.data.subrange(i, i + 12);
        assert(s[11 - i] == header.data[11]);
        assert(HDR_GAIN_MAP@[11 - i] != 0);
    }
}

/// The first chunk of a type in a list with one more chunk at the end.
proof fn lemma_first_of_push(chunks: Seq<Chunk>, c: Chunk, typ: Seq<u8>, i: int)
    requires
        0 <= i <= chunks.len(),
    ensures
        first_of(chunks.push(c), typ, i) == (match first_of(chunks, typ, i) {
            Some(found) => Some(found),
            None => if c.typ == typ {
                Some(c)
            } else {
                None
            },
        }),
    decreases chunks.len() - i,
{
    if i < chunks.len() {
        assert(chunks.push(c)[i] == chunks[i]);
        lemma_first_of_push(chunks, c, typ, i + 1);
    } else {
        assert(chunks.push(c)[i] == c);
        assert(first_of(chunks.push(c), typ, i + 1) is None);
    }
}

/// Chunks of other types at the end of a list do not change what the first one of a type is.
proof fn lemma_first_of_others(chunks: Seq<Chunk>, others: Seq<Chunk>, typ: Seq<u8>)
    requires
        forall|i: int| 0 <= i < others.len() ==> (#[trigger] others[i]).typ != typ,
    ensures
        first_of(chunks + others, typ, 0) == first_of(chunks, typ, 0),
    decreases others.len(),
{
    if others.len() == 0 {
        assert(chunks + others =~= chunks);
    } else {
        let rest = others.drop_last();
        assert forall|i: int| 0 <= i < rest.len() implies (#[trigger] rest[i]).typ != typ by {
            assert(rest[i] == others[i]);
        }
        lemma_first_of_others(chunks, rest, typ);
        assert(chunks + others =~= (chunks + rest).push(others.last()));
        assert(others.last() == others[others.len() - 1]);
        lemma_first_of_push(chunks + rest, others.last(), typ, 0);
    }
}

/// The first chunk of a type in a list with a chunk of another type in front.
proof fn lemma_first_of_shift(first: Chunk, rest: Seq<Chunk>, typ: Seq<u8>, i: int)
    requires
        0 <= i,
    ensures
        first_of(seq![first] + rest, typ, i + 1) == first_of(rest, typ, i),
    decreases rest.len() - i,
{
    if i < rest.len() {
        assert((seq![first] + rest)[i + 1] == rest[i]);
        lemma_first_of_shift(first, rest, typ, i + 1);
    }
}

/// The first chunk of a type that is passed on is the first one of that type.
proof fn lemma_first_passed_on(chunks: Seq<Chunk>, alpha: bool, typ: Seq<u8>)
    requires
        forall|c: Chunk| c.typ == typ ==> #[trigger] is_passed_on(c, alpha),
    ensures
        first_of(passed_on(chunks, alpha), typ, 0) == (match first_of(chunks, typ, 0) {
            Some(c) => Some(without_matrix(c)),
            None => None,
        }),
    decreases chunks.len(),
{
    if chunks.len() > 0 {
        let before = chunks.drop_last();
        let last = chunks.last();
        lemma_first_passed_on(before, alpha, typ);
        assert(chunks =~= before.push(last));
        lemma_first_of_push(before, last, typ, 0);
        lemma_first_of_push(passed_on(before, alpha), without_matrix(last), typ, 0);
        assert(without_matrix(last).typ == last.typ);
        if last.typ == typ {
            assert(is_passed_on(last, alpha));
        }
    }
}

/// The first chunk of a type in the new file.
proof fn lemma_first_in_new_file(
    chunks: Seq<Chunk>,
    header: Chunk,
    data: Seq<Chunk>,
    typ: Seq<u8>,
)
    requires
        header.typ == IHDR@,
        are_idat(data),
        typ == CICP@ || typ == MDCV@ || typ == CLLI@,
    ensures
        first_of(new_chunks(chunks, header, data), typ, 0) == (match first_of(chunks, typ, 0) {
            Some(c) => Some(without_matrix(c)),
            None => None,
        }),
        has_type(new_chunks(chunks, header, data), typ) == has_type(chunks, typ),
{
    let passed = passed_on(chunks, has_alpha(header));
    let others = data + seq![trailer_chunk()];
    lemma_metadata_types(typ);
    lemma_first_passed_on(chunks, has_alpha(header), typ);
    assert(new_chunks(chunks, header, data) =~= seq![header] + passed + others);
    assert((seq![header] + passed)[0] == header);
    lemma_first_of_shift(header, passed, typ, 0);
    assert forall|i: int| 0 <= i < others.len() implies (#[trigger] others[i]).typ != typ by {
        if i < data.len() {
            assert(others[i] == data[i]);
        }
    }
    lemma_first_of_others(seq![header] + passed, others, typ);
    lemma_first_of(new_chunks(chunks, header, data), typ, 0);
    lemma_first_of(chunks, typ, 0);
}

/// Chunks that tell the transfer function are passed on, and are none of the image data.
proof fn lemma_metadata_types(typ: Seq<u8>)
    requires
        typ == CICP@ || typ == MDCV@ || typ == CLLI@,
    ensures
        typ != IHDR@,
        typ != IDAT@,
        typ != IEND@,
        forall|c: Chunk, alpha: bool| c.typ == typ ==> #[trigger] is_passed_on(c, alpha),
{
    assert(CICP@[0] == 0x63 && MDCV@[0] == 0x6D && CLLI@[0] == 0x63);
    assert(CICP@[1] == 0x49 && CLLI@[1] == 0x4C);
    assert(IHDR@[0] == 0x49 && IDAT@[0] == 0x49 && IEND@[0] == 0x49);
    assert(crate::tags::PLTE@[0] == 0x50 && crate::tags::ACTL@[0] == 0x61
        && crate::tags::FCTL@[0] == 0x66 && crate::tags::FDAT@[0] == 0x66
        && crate::tags::TRNS@[0] == 0x74);
}

/// The composited image declares the transfer function and the primaries of the original.
pub proof fn law_transfer_is_kept(chunks: Seq<Chunk>, header: Chunk, data: Seq<Chunk>)
    requires
        header.typ == IHDR@,
        are_idat(data),
    ensures
        transfer_of(new_chunks(chunks, header, data)) == transfer_of(chunks),
        primaries_of(new_chunks(chunks, header, data)) == primaries_of(chunks),
{
    lemma_first_in_new_file(chunks, header, data, CICP@);
    lemma_first_in_new_file(chunks, header, data, MDCV@);
    lemma_first_in_new_file(chunks, header, data, CLLI@);
}

/// The first chunk of a list is passed on in front of what is passed on of the others.
proof fn lemma_passed_on_first(first: Chunk, rest: Seq<Chunk>, alpha: bool)
    ensures
        passed_on(seq![first] + rest, alpha) == (if is_passed_on(first, alpha) {
            seq![without_matrix(first)] + passed_on(rest, alpha)
        } else {
            passed_on(rest, alpha)
        }),
    decreases rest.len(),
{
    let all = seq![first] + rest;
    if rest.len() == 0 {
        assert(all.drop_last() =~= Seq::<Chunk>::empty());
        assert(all.last() == first);
        reveal_with_fuel(passed_on, 2);
        assert(passed_on(all, alpha) =~= (if is_passed_on(first, alpha) {
            seq![without_matrix(first)] + passed_on(rest, alpha)
        } else {
            passed_on(rest, alpha)
        }));
    } else {
        lemma_passed_on_first(first, rest.drop_last(), alpha);
        assert(all.drop_last() =~= seq![first] + rest.drop_last());
        assert(all.last() == rest.last());
        assert(passed_on(all, alpha) =~= (if is_passed_on(first, alpha) {
            seq![without_matrix(first)] + passed_on(rest, alpha)
        } else {
            passed_on(rest, alpha)
        }));
    }
}

/// A pattern without zeros that occurs where a byte was set to zero occurred before.
proof fn lemma_zero_brings_nothing(s: Seq<u8>, i: int, pat: Seq<u8>)
    requires
        0 <= i < s.len(),
        forall|j: int| 0 <= j < pat.len() ==> #[trigger] pat[j] != 0,
        occurs(s.update(i, 0), pat),
    ensures
        occurs(s, pat),
{
    let t = s.update(i, 0);
    let k = choose|k: int| matches_at(t, pat, k);
    let w = t.subrange(k, k + pat.len());
    if k <= i < k + pat.len() {
        assert(w[i - k] == t[i]);
        assert(pat[i - k] != 0);
    }
    assert(s.subrange(k, k + pat.len()) =~= w);
    assert(matches_at(s, pat, k));
}

/// A chunk that tells nothing tells nothing with the matrix coefficients of RGB.
proof fn lemma_still_tells_nothing(c: Chunk)
    requires
        chunk_kind(c) is None,
    ensures
        chunk_kind(without_matrix(c)) is None,
{
    let w = without_matrix(c);
    if w != c {
        assert(forall|j: int| 0 <= j < 6 ==> #[trigger] HDRGM@[j] != 0);
        assert(forall|j: int| 0 <= j < 12 ==> #[trigger] HDR_GAIN_MAP@[j] != 0);
        if occurs(w.data, HDRGM@) {
            lemma_zero_brings_nothing(c.data, 2, HDRGM@);
        }
        if occurs(w.data, HDR_GAIN_MAP@) {
            lemma_zero_brings_nothing(c.data, 2, HDR_GAIN_MAP@);
        }
    }
}

/// Chunk `j` is the first one that tells something, before the image data, and it is passed on; a
/// cICP chunk tells the transfer function.
pub open spec fn tells_first(chunks: Seq<Chunk>, alpha: bool, j: int) -> bool {
    &&& 0 <= j < chunks.len()
    &&& chunk_kind(chunks[j]) is Some
    &&& is_passed_on(chunks[j], alpha)
    &&& chunks[j].typ == CICP@ ==> chunks[j].data.len() >= 2 && (chunks[j].data[1] == 16
        || chunks[j].data[1] == 18)
    &&& forall|i: int|
        0 <= i < j ==> chunk_kind(#[trigger] chunks[i]) is None && chunks[i].typ != IDAT@
            && chunks[i].typ != IEND@
}

proof fn lemma_kind_is_kept(chunks: Seq<Chunk>, alpha: bool, rest: Seq<Chunk>, j: int)
    requires
        tells_first(chunks, alpha, j),
    ensures
        list_kind(passed_on(chunks, alpha) + rest, 0) == chunk_kind(chunks[j]),
    decreases j,
{
    let (first, others) = (chunks[0], chunks.skip(1));
    let passed = passed_on(others, alpha);
    assert(chunks =~= seq![first] + others);
    lemma_passed_on_first(first, others, alpha);
    if is_passed_on(first, alpha) {
        assert(passed_on(chunks, alpha) + rest =~= seq![without_matrix(first)] + (passed + rest));
        lemma_list_kind_step(without_matrix(first), passed + rest);
    }
    if j > 0 {
        assert(chunk_kind(chunks[0]) is None);
        lemma_still_tells_nothing(first);
        assert forall|i: int| 0 <= i < j - 1 implies chunk_kind(#[trigger] others[i]) is None
            && others[i].typ != IDAT@ && others[i].typ != IEND@ by {
            assert(others[i] == chunks[i + 1]);
        }
        lemma_kind_is_kept(others, alpha, rest, j - 1);
    }
}

/// The composited image is HDR in the way the original is, where a chunk tells it that is passed
/// on, and unless the numbers in the new header happen to spell a gain map prefix.
pub proof fn law_hdr_kind_is_kept(chunks: Seq<Chunk>, header: Chunk, data: Seq<Chunk>, j: int)
    requires
        header.typ == IHDR@,
        header.data.len() == 13,
        header.data[11] == 0,
        !occurs(header.data, HDRGM@),
        tells_first(chunks, has_alpha(header), j),
    ensures
        list_kind(chunks, 0) == chunk_kind(chunks[j]),
        list_kind(new_chunks(chunks, header, data), 0) == chunk_kind(chunks[j]),
{
    let passed = passed_on(chunks, has_alpha(header));
    let rest = data + seq![trailer_chunk()];
    lemma_first_telling(chunks, has_alpha(header), j, 0);
    assert(new_chunks(chunks, header, data) =~= seq![header] + (passed + rest));
    lemma_header_tells_nothing(header);
    lemma_list_kind_step(header, passed + rest);
    lemma_kind_is_kept(chunks, has_alpha(header), rest, j);
}

/// What a list tells is what its first telling chunk tells.
proof fn lemma_first_telling(chunks: Seq<Chunk>, alpha: bool, j: int, i: int)
    requires
        tells_first(chunks, alpha, j),
        0 <= i <= j,
    ensures
        list_kind(chunks, i) == chunk_kind(chunks[j]),
    decreases j - i,
{
    if i < j {
        assert(chunk_kind(chunks[i]) is None);
        lemma_first_telling(chunks, alpha, j, i + 1);
    }
}

} // verus!
