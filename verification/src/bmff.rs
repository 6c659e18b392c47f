//! Boxes of ISO base media files (HEIC, AVIF).

use vstd::prelude::*;

use crate::bytes::{matches_at, read_be16, read_be32, stands_at, u16_be, u32_be, u64_be};
use crate::tags::{META, NCLX};

verus! {

/// The least of two numbers.
pub open spec fn least(a: int, b: int) -> int {
    if a < b {
        a
    } else {
        b
    }
}

/// How many bytes lie between `off` and `end`.
pub open spec fn bytes_left(end: int, off: int) -> int {
    if off < end {
        end - off
    } else {
        0
    }
}

/// Length of the header of the box at `off`: longer where the size has 64 bits.
pub open spec fn box_header_len(raw: Seq<u8>, off: int) -> int {
    if u32_be(raw, off) == 1 {
        16
    } else {
        8
    }
}

/// The size that the box at `off` declares.
pub open spec fn box_size(raw: Seq<u8>, off: int) -> int {
    if u32_be(raw, off) == 1 {
        u64_be(raw, off + 8)
    } else {
        u32_be(raw, off)
    }
}

/// The header of the box at `off` ends before `end`.
pub open spec fn box_header_fits(raw: Seq<u8>, off: int, end: int) -> bool {
    off + 8 <= end && off + box_header_len(raw, off) <= end
}

/// The payload of the first `meta` box at or after `off`, without its version and flags. A box with
/// a declared size of 0 reaches to the end of the file; one that declares too much is cut off there.
pub open spec fn meta_from(raw: Seq<u8>, off: int) -> Option<(int, int)>
    decreases bytes_left(raw.len() as int, off),
{
    if !box_header_fits(raw, off, raw.len() as int) {
        None
    } else if matches_at(raw, META@, off + 4) {
        let end = if box_size(raw, off) == 0 {
            raw.len() as int
        } else {
            least(off + box_size(raw, off), raw.len() as int)
        };
        Some((least(off + box_header_len(raw, off) + 4, end), end))
    } else if box_size(raw, off) < 8 {
        None
    } else {
        meta_from(raw, off + box_size(raw, off))
    }
}

/// The declared size of the box at `off`.
fn declared_size(raw: &[u8], off: usize) -> (r: u64)
    requires
        box_header_fits(raw@, off as int, raw@.len() as int),
    ensures
        r == box_size(raw@, off as int),
{
    assert(raw.len() == raw@.len());
    if read_be32(raw, off) == 1 {
        read_be32(raw, off + 8) as u64 * 0x1_0000_0000 + read_be32(raw, off + 12) as u64
    } else {
        read_be32(raw, off) as u64
    }
}

/// The payload range of the first `meta` box, without its version and flags.
pub fn bmff_meta_range(raw: &[u8]) -> (r: Option<(usize, usize)>)
    ensures
        match r {
            Some((start, end)) => meta_from(raw@, 0) == Some((start as int, end as int)) && start
                <= end <= raw@.len(),
            None => meta_from(raw@, 0) is None,
        },
{
    let len: usize = raw.len();
    let mut off: usize = 0;
    while len - off >= 8
        invariant
            off <= len,
            len == raw@.len(),
            meta_from(raw@, 0) == meta_from(raw@, off as int),
        decreases len - off,
    {
        let large: bool = read_be32(raw, off) == 1;
        if large && len - off < 16 {
            return None;
        }
        let header: usize = if large {
            16
        } else {
            8
        };
        let size: u64 = declared_size(raw, off);
        let left: u64 = (len - off) as u64;
        if stands_at(raw, &META, off + 4) {
            let end: usize = if size == 0 || size >= left {
                len
            } else {
                off + size as usize
            };
            let start: usize = if end - off < header + 4 {
                end
            } else {
                off + header + 4
            };
            return Some((start, end));
        }
        if size < 8 {
            return None;
        }
        if size >= left {
            assert(meta_from(raw@, off + size) is None);
            return None;
        }
        off += size as usize;
    }
    None
}

/// A colour box stands at `i` that declares PQ or HLG transfer characteristics.
pub open spec fn hdr_nclx_at(data: Seq<u8>, i: int) -> bool {
    &&& i + 10 <= data.len()
    &&& matches_at(data, NCLX@, i)
    &&& u16_be(data, i + 6) == 16 || u16_be(data, i + 6) == 18
}

/// Whether some colour box declares PQ or HLG transfer characteristics.
pub fn nclx_is_hdr(data: &[u8]) -> (r: bool)
    ensures
        r == exists|i: int| hdr_nclx_at(data@, i),
{
    let mut i: usize = 0;
    while data.len() - i >= 10
        invariant
            i <= data@.len(),
            forall|j: int| j < i ==> !#[trigger] hdr_nclx_at(data@, j),
        decreases data@.len() - i,
    {
        if stands_at(data, &NCLX, i) {
            let transfer: u16 = read_be16(data, i + 6);
            if transfer == 16 || transfer == 18 {
                assert(hdr_nclx_at(data@, i as int));
                return true;
            }
        }
        i += 1;
    }
    false
}

/// A box: its type and where its body stands.
pub struct BmffBox {
    /// Box type.
    pub typ: [u8; 4],
    /// Position behind the header.
    pub body: usize,
    /// Position behind the box, cut off where its surroundings end.
    pub end: usize,
}

/// What a `BmffBox` stands for.
pub struct BoxRange {
    pub typ: Seq<u8>,
    pub body: int,
    pub end: int,
}

impl View for BmffBox {
    type V = BoxRange;

    open spec fn view(&self) -> BoxRange {
        BoxRange { typ: self.typ@, body: self.body as int, end: self.end as int }
    }
}

/// The boxes that a list of `BmffBox` stands for.
pub open spec fn box_views(v: Seq<BmffBox>) -> Seq<BoxRange> {
    v.map_values(|b: BmffBox| b@)
}

/// The size of the box at `pos`: one with a declared size of 0 reaches to `end`.
pub open spec fn box_extent(data: Seq<u8>, pos: int, end: int) -> int {
    if u32_be(data, pos) == 0 {
        end - pos
    } else {
        box_size(data, pos)
    }
}

/// The boxes from `pos` up to `end`, or up to one that is smaller than its header.
pub open spec fn boxes_from(data: Seq<u8>, pos: int, end: int) -> Seq<BoxRange>
    decreases bytes_left(end, pos),
{
    if !box_header_fits(data, pos, end) || box_extent(data, pos, end) < box_header_len(
        data,
        pos,
    ) {
        Seq::empty()
    } else {
        seq![
            BoxRange {
                typ: data.subrange(pos + 4, pos + 8),
                body: pos + box_header_len(data, pos),
                end: least(pos + box_extent(data, pos, end), end),
            },
        ] + boxes_from(data, pos + box_extent(data, pos, end), end)
    }
}

/// The boxes in `data[start..end]`; an end behind that of the data means the end of the data.
pub open spec fn boxes_in(data: Seq<u8>, start: int, end: int) -> Seq<BoxRange> {
    boxes_from(data, start, least(end, data.len() as int))
}

/// The boxes lie in the data.
pub open spec fn boxes_lie_in(boxes: Seq<BoxRange>, len: int) -> bool {
    forall|i: int|
        0 <= i < boxes.len() ==> 0 <= (#[trigger] boxes[i]).body <= boxes[i].end <= len
            && boxes[i].typ.len() == 4
}

/// The boxes in `data[start..end]`.
pub fn bmff_boxes(data: &[u8], start: usize, end: usize) -> (out: Vec<BmffBox>)
    ensures
        box_views(out@) == boxes_in(data@, start as int, end as int),
        boxes_lie_in(box_views(out@), data@.len() as int),
{
    let end: usize = if end < data.len() {
        end
    } else {
        data.len()
    };
    let mut out: Vec<BmffBox> = Vec::new();
    let mut pos: usize = start;
    assert(box_views(out@) =~= Seq::empty());
    assert(Seq::<BoxRange>::empty() + boxes_from(data@, start as int, end as int) =~= boxes_from(
        data@,
        start as int,
        end as int,
    ));
    while pos <= end && end - pos >= 8
        invariant_except_break
            end <= data@.len(),
            boxes_from(data@, start as int, end as int) == box_views(out@) + boxes_from(
                data@,
                pos as int,
                end as int,
            ),
            boxes_lie_in(box_views(out@), data@.len() as int),
        ensures
            boxes_from(data@, start as int, end as int) == box_views(out@),
            boxes_lie_in(box_views(out@), data@.len() as int),
        decreases bytes_left(end as int, pos as int),
    {
        let size32: u32 = read_be32(data, pos);
        let left: u64 = (end - pos) as u64;
        if size32 == 1 && left < 16 {
            assert(box_views(out@) + Seq::<BoxRange>::empty() =~= box_views(out@));
            break;
        }
        let header: usize = if size32 == 1 {
            16
        } else {
            8
        };
        let size: u64 = if size32 == 0 {
            left
        } else {
            declared_size(data, pos)
        };
        if size < header as u64 {
            assert(box_views(out@) + Seq::<BoxRange>::empty() =~= box_views(out@));
            break;
        }
        let last: bool = size >= left;
        let box_end: usize = if last {
            end
        } else {
            pos + size as usize
        };
        let typ: [u8; 4] = [data[pos + 4], data[pos + 5], data[pos + 6], data[pos + 7]];
        let found: BmffBox = BmffBox { typ, body: pos + header, end: box_end };
        let ghost before = box_views(out@);
        let ghost rest = boxes_from(data@, pos + size, end as int);
        out.push(found);
        proof {
            assert(typ@ =~= data@.subrange(pos + 4, pos + 8));
            assert(box_views(out@) =~= before + seq![found@]);
            assert(before + (seq![found@] + rest) =~= box_views(out@) + rest);
        }
        if last {
            assert(rest =~= Seq::empty());
            assert(box_views(out@) + rest =~= box_views(out@));
            break;
        }
        pos = box_end;
    }
    out
}

} // verus!
