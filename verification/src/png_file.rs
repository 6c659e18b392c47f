//! PNG files as lists of chunks.

use vstd::prelude::*;
use vstd::slice::{slice_subrange, slice_to_vec};

use crate::bytes::{
    append, append_be32, be32_bytes, begins_with, lemma_be32_low, read_be32, same_bytes,
    starts_with, u32_be,
};
use crate::checksum::{crc32, crc32_ieee};
use crate::tags::{CICP, CLLI, IEND, MDCV, PNG_SIG};

verus! {

/// A file that does not begin with the PNG signature.
pub const NOT_A_PNG: &'static str = "not a PNG";

/// A file that ends before its trailer chunk, between two chunks.
pub const TRUNCATED_PNG: &'static str = "truncated PNG";

/// A file that ends inside a chunk.
pub const TRUNCATED_CHUNK: &'static str = "truncated PNG chunk";

/// A chunk of a PNG file.
pub struct PngChunk<'a> {
    /// Chunk type.
    pub typ: [u8; 4],
    /// What stands between the type and the checksum.
    pub data: &'a [u8],
}

/// What a `PngChunk` stands for.
pub struct Chunk {
    pub typ: Seq<u8>,
    pub data: Seq<u8>,
}

impl<'a> View for PngChunk<'a> {
    type V = Chunk;

    open spec fn view(&self) -> Chunk {
        Chunk { typ: self.typ@, data: self.data@ }
    }
}

/// The chunks that a list of `PngChunk` stands for.
pub open spec fn chunk_views(v: Seq<PngChunk>) -> Seq<Chunk> {
    v.map_values(|c: PngChunk| c@)
}

/// The end of the chunk that begins at `off`.
pub open spec fn chunk_end(data: Seq<u8>, off: int) -> int {
    off + 12 + u32_be(data, off)
}

/// The chunk that begins at `off`.
pub open spec fn chunk_at(data: Seq<u8>, off: int) -> Chunk {
    Chunk {
        typ: data.subrange(off + 4, off + 8),
        data: data.subrange(off + 8, chunk_end(data, off) - 4),
    }
}

/// `head` in front of a list of chunks; an error stays as it is.
pub open spec fn prepended(
    head: Seq<Chunk>,
    rest: Result<Seq<Chunk>, Seq<char>>,
) -> Result<Seq<Chunk>, Seq<char>> {
    match rest {
        Ok(chunks) => Ok(head + chunks),
        Err(e) => Err(e),
    }
}

/// The chunks from `off` up to the trailer.
pub open spec fn chunks_from(data: Seq<u8>, off: int) -> Result<Seq<Chunk>, Seq<char>>
    decreases data.len() - off,
{
    if off + 12 > data.len() {
        Err(TRUNCATED_PNG@)
    } else if chunk_end(data, off) > data.len() {
        Err(TRUNCATED_CHUNK@)
    } else if chunk_at(data, off).typ == IEND@ {
        Ok(seq![chunk_at(data, off)])
    } else {
        prepended(seq![chunk_at(data, off)], chunks_from(data, chunk_end(data, off)))
    }
}

/// The chunks of a PNG file up to its trailer, checksums aside.
pub open spec fn png_chunks(data: Seq<u8>) -> Result<Seq<Chunk>, Seq<char>> {
    if begins_with(data, PNG_SIG@) {
        chunks_from(data, 8)
    } else {
        Err(NOT_A_PNG@)
    }
}

/// The chunks of a PNG file up to its trailer. Checksums are not looked at.
pub fn parse_png_chunks<'a>(data: &'a [u8]) -> (r: Result<Vec<PngChunk<'a>>, String>)
    ensures
        match r {
            Ok(chunks) => png_chunks(data@) == Ok::<Seq<Chunk>, Seq<char>>(chunk_views(chunks@)),
            Err(e) => png_chunks(data@) == Err::<Seq<Chunk>, Seq<char>>(e@),
        },
{
    if !starts_with(data, &PNG_SIG) {
        return Err(NOT_A_PNG.to_string());
    }
    let mut chunks: Vec<PngChunk<'a>> = Vec::new();
    let mut off: usize = 8;
    proof {
        assert(chunk_views(chunks@) =~= Seq::empty());
        match chunks_from(data@, 8) {
            Ok(rest) => assert(Seq::<Chunk>::empty() + rest =~= rest),
            Err(_) => {},
        }
    }
    loop
        invariant_except_break
            8 <= off <= data@.len(),
            begins_with(data@, PNG_SIG@),
            chunks_from(data@, 8) == prepended(chunk_views(chunks@), chunks_from(data@, off as int)),
        ensures
            begins_with(data@, PNG_SIG@),
            chunks_from(data@, 8) == Ok::<Seq<Chunk>, Seq<char>>(chunk_views(chunks@)),
        decreases data@.len() - off,
    {
        if data.len() - off < 12 {
            return Err(TRUNCATED_PNG.to_string());
        }
        let len: u64 = read_be32(data, off) as u64;
        if len > (data.len() - off - 12) as u64 {
            return Err(TRUNCATED_CHUNK.to_string());
        }
        let end: usize = off + 12 + len as usize;
        let typ: [u8; 4] = [data[off + 4], data[off + 5], data[off + 6], data[off + 7]];
        let chunk: PngChunk<'a> = PngChunk { typ, data: slice_subrange(data, off + 8, end - 4) };
        let ghost before = chunk_views(chunks@);
        chunks.push(chunk);
        proof {
            assert(typ@ =~= data@.subrange(off + 4, off + 8));
            assert(chunk@ == chunk_at(data@, off as int));
            assert(chunk_views(chunks@) =~= before + seq![chunk@]);
            match chunks_from(data@, end as int) {
                Ok(rest) => assert(before + (seq![chunk@] + rest) =~= chunk_views(chunks@) + rest),
                Err(_) => {},
            }
        }
        off = end;
        if same_bytes(&typ, &IEND) {
            break;
        }
    }
    Ok(chunks)
}

/// The bytes of one chunk: length modulo 2^32, type, data and checksum.
pub open spec fn chunk_bytes(c: Chunk) -> Seq<u8> {
    be32_bytes(c.data.len() as int) + c.typ + c.data + be32_bytes(crc32_ieee(c.typ + c.data) as int)
}

/// The bytes of several chunks in a row.
pub open spec fn chunk_list_bytes(chunks: Seq<Chunk>) -> Seq<u8>
    decreases chunks.len(),
{
    if chunks.len() == 0 {
        Seq::empty()
    } else {
        chunk_list_bytes(chunks.drop_last()) + chunk_bytes(chunks.last())
    }
}

/// A file made of these chunks.
pub open spec fn png_bytes(chunks: Seq<Chunk>) -> Seq<u8> {
    PNG_SIG@ + chunk_list_bytes(chunks)
}

/// Appends a chunk.
pub fn write_chunk(out: &mut Vec<u8>, typ: &[u8; 4], data: &[u8])
    ensures
        final(out)@ == old(out)@ + chunk_bytes(Chunk { typ: typ@, data: data@ }),
{
    let low: u32 = (data.len() as u64 % 0x1_0000_0000) as u32;
    proof {
        lemma_be32_low(data@.len() as int);
    }
    append_be32(out, low);
    append(out, typ.as_slice());
    append(out, data);
    append_be32(out, crc32(typ.as_slice(), data));
    assert(out@ =~= old(out)@ + chunk_bytes(Chunk { typ: typ@, data: data@ }));
}

/// The first chunk of type `typ` at or after position `i`.
pub open spec fn first_of(chunks: Seq<Chunk>, typ: Seq<u8>, i: int) -> Option<Chunk>
    decreases chunks.len() - i,
{
    if i >= chunks.len() {
        None
    } else if chunks[i].typ == typ {
        Some(chunks[i])
    } else {
        first_of(chunks, typ, i + 1)
    }
}

/// Some chunk has type `typ`.
pub open spec fn has_type(chunks: Seq<Chunk>, typ: Seq<u8>) -> bool {
    exists|i: int| 0 <= i < chunks.len() && (#[trigger] chunks[i]).typ == typ
}

/// A found chunk has the type that was looked for.
pub proof fn lemma_first_of(chunks: Seq<Chunk>, typ: Seq<u8>, i: int)
    requires
        0 <= i,
    ensures
        match first_of(chunks, typ, i) {
            Some(c) => c.typ == typ && has_type(chunks, typ),
            None => forall|j: int| i <= j < chunks.len() ==> (#[trigger] chunks[j]).typ != typ,
        },
    decreases chunks.len() - i,
{
    if i >= chunks.len() {
    } else if chunks[i].typ == typ {
    } else {
        lemma_first_of(chunks, typ, i + 1);
    }
}

/// The first chunk of type `typ`.
pub fn find_chunk<'a>(chunks: &[PngChunk<'a>], typ: &[u8; 4]) -> (r: Option<&'a [u8]>)
    ensures
        match r {
            Some(data) => first_of(chunk_views(chunks@), typ@, 0) == Some(
                Chunk { typ: typ@, data: data@ },
            ),
            None => first_of(chunk_views(chunks@), typ@, 0) is None,
        },
{
    let mut i: usize = 0;
    while i < chunks.len()
        invariant
            i <= chunks@.len(),
            first_of(chunk_views(chunks@), typ@, 0) == first_of(
                chunk_views(chunks@),
                typ@,
                i as int,
            ),
        decreases chunks@.len() - i,
    {
        assert(chunk_views(chunks@)[i as int] == chunks@[i as int]@);
        if same_bytes(chunks[i].typ.as_slice(), typ.as_slice()) {
            return Some(chunks[i].data);
        }
        i += 1;
    }
    None
}

/// Transfer function of a PNG's samples.
#[derive(Clone, Copy, PartialEq, Eq, Structural, Debug)]
pub enum PngTransfer {
    Sdr,
    Pq,
    Hlg,
}

/// Colour primaries of a PNG's samples.
#[derive(Clone, Copy, PartialEq, Eq, Structural, Debug)]
pub enum PngPrimaries {
    Bt709,
    P3,
    Bt2020,
}

/// The transfer function that a PNG declares: what the first cICP chunk says, else PQ where static
/// HDR metadata is present, else SDR.
pub open spec fn transfer_of(chunks: Seq<Chunk>) -> PngTransfer {
    match first_of(chunks, CICP@, 0) {
        Some(c) => if c.data.len() >= 2 && c.data[1] == 16 {
            PngTransfer::Pq
        } else if c.data.len() >= 2 && c.data[1] == 18 {
            PngTransfer::Hlg
        } else {
            PngTransfer::Sdr
        },
        None => if has_type(chunks, MDCV@) || has_type(chunks, CLLI@) {
            PngTransfer::Pq
        } else {
            PngTransfer::Sdr
        },
    }
}

/// The colour primaries that the first cICP chunk names; BT.2020 where it names none that is known.
pub open spec fn primaries_of(chunks: Seq<Chunk>) -> PngPrimaries {
    match first_of(chunks, CICP@, 0) {
        Some(c) => if c.data.len() >= 1 && c.data[0] == 1 {
            PngPrimaries::Bt709
        } else if c.data.len() >= 1 && c.data[0] == 12 {
            PngPrimaries::P3
        } else {
            PngPrimaries::Bt2020
        },
        None => PngPrimaries::Bt2020,
    }
}

/// The transfer function that a PNG declares.
pub fn png_transfer(chunks: &[PngChunk]) -> (r: PngTransfer)
    ensures
        r == transfer_of(chunk_views(chunks@)),
{
    if let Some(data) = find_chunk(chunks, &CICP) {
        if data.len() >= 2 && data[1] == 16 {
            return PngTransfer::Pq;
        }
        if data.len() >= 2 && data[1] == 18 {
            return PngTransfer::Hlg;
        }
        return PngTransfer::Sdr;
    }
    proof {
        lemma_first_of(chunk_views(chunks@), MDCV@, 0);
        lemma_first_of(chunk_views(chunks@), CLLI@, 0);
    }
    if find_chunk(chunks, &MDCV).is_some() || find_chunk(chunks, &CLLI).is_some() {
        return PngTransfer::Pq;
    }
    PngTransfer::Sdr
}

/// The colour primaries that a PNG declares.
pub fn png_primaries(chunks: &[PngChunk]) -> (r: PngPrimaries)
    ensures
        r == primaries_of(chunk_views(chunks@)),
{
    match find_chunk(chunks, &CICP) {
        Some(data) => {
            if data.len() >= 1 && data[0] == 1 {
                PngPrimaries::Bt709
            } else if data.len() >= 1 && data[0] == 12 {
                PngPrimaries::P3
            } else {
                PngPrimaries::Bt2020
            }
        },
        None => PngPrimaries::Bt2020,
    }
}

/// A cICP chunk whose matrix coefficients are not those of RGB.
pub open spec fn has_matrix(c: Chunk) -> bool {
    c.typ == CICP@ && c.data.len() >= 3 && c.data[2] != 0
}

/// The chunk with the matrix coefficients of RGB; a chunk of another kind stays as it is.
pub open spec fn without_matrix(c: Chunk) -> Chunk {
    if has_matrix(c) {
        Chunk { typ: c.typ, data: c.data.update(2, 0) }
    } else {
        c
    }
}

/// `without_matrix` of each chunk.
pub open spec fn all_without_matrix(chunks: Seq<Chunk>) -> Seq<Chunk> {
    chunks.map_values(|c: Chunk| without_matrix(c))
}

/// What a decoder gets that takes only RGB matrix coefficients: the file made of the chunks with
/// those coefficients set to 0; `None` where no chunk needs it.
pub open spec fn sanitized(chunks: Seq<Chunk>) -> Option<Seq<u8>> {
    if exists|i: int| 0 <= i < chunks.len() && has_matrix(#[trigger] chunks[i]) {
        Some(png_bytes(all_without_matrix(chunks)))
    } else {
        None
    }
}

/// Whether the chunk is a cICP chunk with matrix coefficients other than those of RGB.
pub fn needs_matrix_reset(c: &PngChunk) -> (r: bool)
    ensures
        r == has_matrix(c@),
{
    same_bytes(c.typ.as_slice(), &CICP) && c.data.len() >= 3 && c.data[2] != 0
}

/// Appends the chunk, with the matrix coefficients of RGB.
pub fn write_without_matrix(out: &mut Vec<u8>, c: &PngChunk)
    ensures
        final(out)@ == old(out)@ + chunk_bytes(without_matrix(c@)),
{
    if needs_matrix_reset(c) {
        let mut data: Vec<u8> = slice_to_vec(c.data);
        data.set(2, 0);
        write_chunk(out, &c.typ, data.as_slice());
    } else {
        write_chunk(out, &c.typ, c.data);
    }
}

/// A copy of the file for a decoder that takes only RGB matrix coefficients, where one is needed.
pub fn sanitized_for_decode(chunks: &[PngChunk]) -> (r: Option<Vec<u8>>)
    ensures
        match r {
            Some(out) => sanitized(chunk_views(chunks@)) == Some(out@),
            None => sanitized(chunk_views(chunks@)) is None,
        },
{
    let ghost views = chunk_views(chunks@);
    let mut needs: bool = false;
    let mut out: Vec<u8> = Vec::new();
    append(&mut out, &PNG_SIG);
    let mut i: usize = 0;
    proof {
        assert(all_without_matrix(views.take(0)) =~= Seq::empty());
        assert(out@ =~= png_bytes(all_without_matrix(views.take(0))));
    }
    while i < chunks.len()
        invariant
            i <= chunks@.len(),
            views == chunk_views(chunks@),
            needs == (exists|j: int| 0 <= j < i && has_matrix(#[trigger] views[j])),
            out@ == png_bytes(all_without_matrix(views.take(i as int))),
        decreases chunks@.len() - i,
    {
        assert(views[i as int] == chunks@[i as int]@);
        if needs_matrix_reset(&chunks[i]) {
            needs = true;
        }
        write_without_matrix(&mut out, &chunks[i]);
        proof {
            let list = all_without_matrix(views.take(i + 1));
            assert(list.drop_last() =~= all_without_matrix(views.take(i as int)));
            assert(list.last() == without_matrix(views[i as int]));
            assert(PNG_SIG@ + (chunk_list_bytes(list.drop_last()) + chunk_bytes(list.last()))
                =~= out@);
        }
        i += 1;
    }
    assert(views.take(i as int) =~= views);
    if needs {
        Some(out)
    } else {
        None
    }
}

/// The bytes of two lists in a row are those of the joined list.
pub proof fn lemma_list_bytes_add(a: Seq<Chunk>, b: Seq<Chunk>)
    ensures
        chunk_list_bytes(a + b) == chunk_list_bytes(a) + chunk_list_bytes(b),
    decreases b.len(),
{
    if b.len() == 0 {
        assert(a + b =~= a);
        assert(chunk_list_bytes(a) + Seq::<u8>::empty() =~= chunk_list_bytes(a));
    } else {
        assert((a + b).drop_last() =~= a + b.drop_last());
        lemma_list_bytes_add(a, b.drop_last());
        assert(chunk_list_bytes(a) + chunk_list_bytes(b.drop_last()) + chunk_bytes(b.last())
            =~= chunk_list_bytes(a) + (chunk_list_bytes(b.drop_last()) + chunk_bytes(b.last())));
    }
}

/// The bytes of a one-chunk list.
pub proof fn lemma_list_bytes_one(c: Chunk)
    ensures
        chunk_list_bytes(seq![c]) == chunk_bytes(c),
{
    assert(seq![c].drop_last() =~= Seq::<Chunk>::empty());
    reveal_with_fuel(chunk_list_bytes, 2);
    assert(Seq::<u8>::empty() + chunk_bytes(c) =~= chunk_bytes(c));
}

/// A chunk that stands at `off` is read there.
proof fn lemma_chunk_reads_back(pre: Seq<u8>, c: Chunk, post: Seq<u8>)
    requires
        c.typ.len() == 4,
        c.data.len() < 0x1_0000_0000,
    ensures
        chunk_bytes(c).len() == c.data.len() + 12,
        chunk_end(pre + chunk_bytes(c) + post, pre.len() as int) == pre.len() + chunk_bytes(c).len(),
        chunk_at(pre + chunk_bytes(c) + post, pre.len() as int) == c,
{
    let data = pre + chunk_bytes(c) + post;
    let off = pre.len() as int;
    let len = be32_bytes(c.data.len() as int);
    crate::bytes::lemma_be32_round_trip(c.data.len() as int);
    assert(data[off] == len[0] && data[off + 1] == len[1] && data[off + 2] == len[2] && data[off
        + 3] == len[3]);
    assert(data.subrange(off + 4, off + 8) =~= c.typ);
    assert(data.subrange(off + 8, chunk_end(data, off) - 4) =~= c.data);
}

/// Chunks that a file can be made of: types of four bytes, data that a length field can count, and
/// one trailer, at the end.
pub open spec fn are_writable(chunks: Seq<Chunk>) -> bool {
    &&& chunks.len() > 0
    &&& chunks.last().typ == IEND@
    &&& forall|i: int| 0 <= i < chunks.len() - 1 ==> (#[trigger] chunks[i]).typ != IEND@
    &&& forall|i: int|
        0 <= i < chunks.len() ==> (#[trigger] chunks[i]).typ.len() == 4 && chunks[i].data.len()
            < 0x1_0000_0000
}

proof fn lemma_written_from(chunks: Seq<Chunk>, tail: Seq<u8>, i: int)
    requires
        are_writable(chunks),
        0 <= i < chunks.len(),
    ensures
        chunks_from(
            png_bytes(chunks) + tail,
            8 + chunk_list_bytes(chunks.take(i)).len() as int,
        ) == Ok::<Seq<Chunk>, Seq<char>>(chunks.skip(i)),
    decreases chunks.len() - i,
{
    let data = png_bytes(chunks) + tail;
    let pre = PNG_SIG@ + chunk_list_bytes(chunks.take(i));
    let post = chunk_list_bytes(chunks.skip(i + 1)) + tail;
    let c = chunks[i];
    assert(chunks =~= chunks.take(i) + (seq![c] + chunks.skip(i + 1)));
    lemma_list_bytes_add(chunks.take(i), seq![c] + chunks.skip(i + 1));
    lemma_list_bytes_add(seq![c], chunks.skip(i + 1));
    lemma_list_bytes_one(c);
    assert(data =~= pre + chunk_bytes(c) + post);
    lemma_chunk_reads_back(pre, c, post);
    assert(chunks.take(i + 1) =~= chunks.take(i) + seq![c]);
    lemma_list_bytes_add(chunks.take(i), seq![c]);
    assert(chunks.skip(i) =~= seq![c] + chunks.skip(i + 1));
    if i == chunks.len() - 1 {
        assert(chunks.skip(i) =~= seq![c]);
    } else {
        lemma_written_from(chunks, tail, i + 1);
    }
}

/// Reading the chunks of a written file gives back the chunks that were written, whatever bytes
/// follow the trailer.
pub proof fn law_chunks_read_back(chunks: Seq<Chunk>, tail: Seq<u8>)
    requires
        are_writable(chunks),
    ensures
        png_chunks(png_bytes(chunks) + tail) == Ok::<Seq<Chunk>, Seq<char>>(chunks),
{
    assert(chunks.take(0) =~= Seq::empty());
    lemma_written_from(chunks, tail, 0);
    assert(chunks.skip(0) =~= chunks);
    assert(begins_with(png_bytes(chunks) + tail, PNG_SIG@));
}

/// Chunks that were read can be written.
pub proof fn lemma_read_chunks_are_writable(data: Seq<u8>, off: int)
    requires
        0 <= off,
        chunks_from(data, off) is Ok,
    ensures
        are_writable(chunks_from(data, off)->Ok_0),
    decreases data.len() - off,
{
    let c = chunk_at(data, off);
    let chunks = chunks_from(data, off)->Ok_0;
    if c.typ == IEND@ {
        assert(chunks =~= seq![c]);
    } else {
        lemma_read_chunks_are_writable(data, chunk_end(data, off));
        let rest = chunks_from(data, chunk_end(data, off))->Ok_0;
        assert(chunks =~= seq![c] + rest);
        assert(chunks.last() == rest.last());
        assert forall|i: int| 0 <= i < chunks.len() - 1 implies (#[trigger] chunks[i]).typ
            != IEND@ by {
            if i > 0 {
                assert(chunks[i] == rest[i - 1]);
            }
        }
        assert forall|i: int| 0 <= i < chunks.len() implies (#[trigger] chunks[i]).typ.len() == 4
            && chunks[i].data.len() < 0x1_0000_0000 by {
            if i > 0 {
                assert(chunks[i] == rest[i - 1]);
            }
        }
    }
}

} // verus!
