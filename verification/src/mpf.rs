//! Multi-picture directories (CIPA DC-007) in JPEG APP2 segments.

use vstd::prelude::*;
use vstd::slice::slice_subrange;

use crate::bytes::{
    append, append_be32, be32_bytes, begins_with, lemma_be32_low, lemma_be32_round_trip, read_be16,
    read_be32, starts_with, u16_be, u16_le, u32_be, u32_le,
};
use crate::tags::{BYTE_ORDER_BE, BYTE_ORDER_LE, MPF_SIG};

verus! {

/// Length of the segment that `build_mpf_segment` writes, marker included.
pub const MPF_MARKER_LEN: usize = 90;

/// Everything of a two-image directory up to the length of the first image: the APP2 marker and
/// length, `MPF\0`, a big-endian TIFF header, the three entries (version `0100`, image count 2,
/// image list of 32 bytes at offset 50), the end of the directory and the first image's attributes.
pub const MPF_HEAD: [u8; 62] = [
    0xFF, 0xE2, 0x00, 0x58, 0x4D, 0x50, 0x46, 0x00, 0x4D, 0x4D, 0x00, 0x2A, 0x00, 0x00, 0x00, 0x08,
    0x00, 0x03, 0xB0, 0x00, 0x00, 0x07, 0x00, 0x00, 0x00, 0x04, 0x30, 0x31, 0x30, 0x30, 0xB0, 0x01,
    0x00, 0x04, 0x00, 0x00, 0x00, 0x01, 0x00, 0x00, 0x00, 0x02, 0xB0, 0x02, 0x00, 0x07, 0x00, 0x00,
    0x00, 0x20, 0x00, 0x00, 0x00, 0x32, 0x00, 0x00, 0x00, 0x00, 0x00, 0x03, 0x00, 0x00,
];

/// The 16-bit number at `o` in the given byte order, where the data reaches that far.
pub open spec fn tiff_u16(t: Seq<u8>, o: int, le: bool) -> Option<int> {
    if o + 2 > t.len() {
        None
    } else if le {
        Some(u16_le(t, o))
    } else {
        Some(u16_be(t, o))
    }
}

/// The 32-bit number at `o` in the given byte order, where the data reaches that far.
pub open spec fn tiff_u32(t: Seq<u8>, o: int, le: bool) -> Option<int> {
    if o + 4 > t.len() {
        None
    } else if le {
        Some(u32_le(t, o))
    } else {
        Some(u32_be(t, o))
    }
}

/// What a directory's entries say: the image count and where the list of images stands.
pub struct MpfEntries {
    /// Value of the last image count entry, 0 without one.
    pub images: int,
    /// Offset in the last image list entry of an acceptable size.
    pub list: Option<int>,
}

/// What the entry at `e` adds to what the entries before it say; `None` where it is cut off.
pub open spec fn mpf_entry(t: Seq<u8>, le: bool, e: int, before: MpfEntries) -> Option<MpfEntries> {
    match (tiff_u16(t, e, le), tiff_u16(t, e + 2, le), tiff_u32(t, e + 4, le)) {
        (Some(tag), Some(typ), Some(cnt)) => {
            if tag == 0xB001 {
                match if typ == 3 {
                    tiff_u16(t, e + 8, le)
                } else {
                    tiff_u32(t, e + 8, le)
                } {
                    Some(n) => Some(MpfEntries { images: n, list: before.list }),
                    None => None,
                }
            } else if tag == 0xB002 && 32 <= cnt <= 1024 {
                match tiff_u32(t, e + 8, le) {
                    Some(o) => Some(MpfEntries { images: before.images, list: Some(o) }),
                    None => None,
                }
            } else {
                Some(before)
            }
        },
        _ => None,
    }
}

/// What the first `n` entries of the directory at `ifd` say.
pub open spec fn mpf_entries(t: Seq<u8>, le: bool, ifd: int, n: int) -> Option<MpfEntries>
    decreases n,
{
    if n <= 0 {
        Some(MpfEntries { images: 0, list: None })
    } else {
        match mpf_entries(t, le, ifd, n - 1) {
            Some(before) => mpf_entry(t, le, ifd + 2 + (n - 1) * 12, before),
            None => None,
        }
    }
}

/// Offset (from the TIFF header) and size of the second image that an APP2 payload lists.
#[verifier::opaque]
pub open spec fn mpf_second(seg: Seq<u8>) -> Option<(int, int)> {
    let t = seg.subrange(4, seg.len() as int);
    let le = begins_with(t, BYTE_ORDER_LE@);
    if seg.len() < 14 || !begins_with(seg, MPF_SIG@) || !(le || begins_with(t, BYTE_ORDER_BE@)) {
        None
    } else if tiff_u16(t, 2, le) != Some(42int) {
        None
    } else {
        let ifd = tiff_u32(t, 4, le).unwrap();
        match tiff_u16(t, ifd, le) {
            Some(count) => if 1 <= count <= 64 {
                match mpf_entries(t, le, ifd, count) {
                    Some(MpfEntries { images, list: Some(list) }) => if images != 1 && list + 32
                        <= t.len() {
                        Some(
                            (
                                tiff_u32(t, list + 24, le).unwrap(),
                                tiff_u32(t, list + 20, le).unwrap(),
                            ),
                        )
                    } else {
                        None
                    },
                    _ => None,
                }
            } else {
                None
            },
            None => None,
        }
    }
}

/// The 16-bit number at `o` in the given byte order, where the data reaches that far.
pub(crate) fn read_u16(t: &[u8], o: u64, le: bool) -> (r: Option<u16>)
    requires
        o <= 0x2_0000_0000,
    ensures
        match r {
            Some(v) => tiff_u16(t@, o as int, le) == Some(v as int),
            None => tiff_u16(t@, o as int, le) is None,
        },
{
    if o + 2 > t.len() as u64 {
        return None;
    }
    let i: usize = o as usize;
    if le {
        Some(t[i + 1] as u16 * 0x100 + t[i] as u16)
    } else {
        Some(read_be16(t, i))
    }
}

/// The 32-bit number at `o` in the given byte order, where the data reaches that far.
pub(crate) fn read_u32(t: &[u8], o: u64, le: bool) -> (r: Option<u32>)
    requires
        o <= 0x2_0000_0000,
    ensures
        match r {
            Some(v) => tiff_u32(t@, o as int, le) == Some(v as int),
            None => tiff_u32(t@, o as int, le) is None,
        },
{
    if o + 4 > t.len() as u64 {
        return None;
    }
    let i: usize = o as usize;
    if le {
        Some(
            t[i + 3] as u32 * 0x100_0000 + t[i + 2] as u32 * 0x1_0000 + t[i + 1] as u32 * 0x100
                + t[i] as u32,
        )
    } else {
        Some(read_be32(t, i))
    }
}

/// An entry that is cut off makes the whole directory unreadable.
proof fn lemma_entries_cut(t: Seq<u8>, le: bool, ifd: int, i: int, n: int)
    requires
        0 <= i <= n,
        mpf_entries(t, le, ifd, i) is None,
    ensures
        mpf_entries(t, le, ifd, n) is None,
    decreases n - i,
{
    if i < n {
        lemma_entries_cut(t, le, ifd, i, n - 1);
    }
}

/// Reads the entries of the directory at `ifd`: the image count, and the offset of the image list.
fn read_entries(t: &[u8], le: bool, ifd: u32, count: u16) -> (r: Option<(u32, Option<u32>)>)
    requires
        count <= 64,
    ensures
        match r {
            Some((images, list)) => mpf_entries(t@, le, ifd as int, count as int) == Some(
                MpfEntries {
                    images: images as int,
                    list: match list {
                        Some(o) => Some(o as int),
                        None => None,
                    },
                },
            ),
            None => mpf_entries(t@, le, ifd as int, count as int) is None,
        },
{
    let mut images: u32 = 0;
    let mut list: Option<u32> = None;
    let mut i: u16 = 0;
    while i < count
        invariant
            i <= count <= 64,
            mpf_entries(t@, le, ifd as int, i as int) == Some(
                MpfEntries {
                    images: images as int,
                    list: match list {
                        Some(o) => Some(o as int),
                        None => None,
                    },
                },
            ),
        decreases count - i,
    {
        let e: u64 = ifd as u64 + 2 + i as u64 * 12;
        proof {
            if mpf_entries(t@, le, ifd as int, i + 1) is None {
                lemma_entries_cut(t@, le, ifd as int, i + 1, count as int);
            }
        }
        let tag: u16 = match read_u16(t, e, le) {
            Some(v) => v,
            None => return None,
        };
        let typ: u16 = match read_u16(t, e + 2, le) {
            Some(v) => v,
            None => return None,
        };
        let cnt: u32 = match read_u32(t, e + 4, le) {
            Some(v) => v,
            None => return None,
        };
        if tag == 0xB001 {
            if typ == 3 {
                match read_u16(t, e + 8, le) {
                    Some(v) => images = v as u32,
                    None => return None,
                }
            } else {
                match read_u32(t, e + 8, le) {
                    Some(v) => images = v,
                    None => return None,
                }
            }
        } else if tag == 0xB002 && cnt >= 32 && cnt <= 1024 {
            match read_u32(t, e + 8, le) {
                Some(v) => list = Some(v),
                None => return None,
            }
        }
        i += 1;
    }
    Some((images, list))
}

/// Offset (from the TIFF header) and size of the second image that an APP2 payload lists.
pub fn mpf_second_image(seg: &[u8]) -> (r: Option<(usize, usize)>)
    ensures
        match r {
            Some((off, size)) => mpf_second(seg@) == Some((off as int, size as int)),
            None => mpf_second(seg@) is None,
        },
{
    reveal(mpf_second);
    if seg.len() < 14 || !starts_with(seg, &MPF_SIG) {
        return None;
    }
    let t: &[u8] = slice_subrange(seg, 4, seg.len());
    let le: bool = starts_with(t, &BYTE_ORDER_LE);
    if !le && !starts_with(t, &BYTE_ORDER_BE) {
        return None;
    }
    match read_u16(t, 2, le) {
        Some(v) => if v != 42 {
            return None;
        },
        None => return None,
    }
    let ifd: u32 = match read_u32(t, 4, le) {
        Some(v) => v,
        None => return None,
    };
    let count: u16 = match read_u16(t, ifd as u64, le) {
        Some(v) => v,
        None => return None,
    };
    if count == 0 || count > 64 {
        return None;
    }
    match read_entries(t, le, ifd, count) {
        Some((images, Some(list))) => {
            if images == 1 || list as u64 + 32 > t.len() as u64 {
                return None;
            }
            match (read_u32(t, list as u64 + 24, le), read_u32(t, list as u64 + 20, le)) {
                (Some(off), Some(size)) => Some((off as usize, size as usize)),
                _ => None,
            }
        },
        _ => None,
    }
}

/// The APP2 segment of a directory with two images: a first one of `base_len` bytes, and a second
/// one of `gm_len` bytes at `gm_offset` from the TIFF header. Each number is kept modulo 2^32.
#[verifier::opaque]
pub open spec fn mpf_segment(base_len: int, gm_len: int, gm_offset: int) -> Seq<u8> {
    MPF_HEAD@ + be32_bytes(base_len) + be32_bytes(0) + be32_bytes(0) + be32_bytes(0) + be32_bytes(
        gm_len,
    ) + be32_bytes(gm_offset) + be32_bytes(0)
}

fn append_low32(out: &mut Vec<u8>, n: u128)
    ensures
        final(out)@ == old(out)@ + be32_bytes(n as int),
{
    let low: u32 = (n % 0x1_0000_0000) as u32;
    proof {
        lemma_be32_low(n as int);
    }
    append_be32(out, low);
}

/// The APP2 segment of a directory with a base image and a gain map.
pub fn build_mpf_segment(base_total_len: u128, gm_len: u128, gm_offset: u128) -> (r: Vec<u8>)
    ensures
        r@ == mpf_segment(base_total_len as int, gm_len as int, gm_offset as int),
        r@.len() == MPF_MARKER_LEN,
{
    reveal(mpf_segment);
    let mut out: Vec<u8> = Vec::with_capacity(MPF_MARKER_LEN);
    append(&mut out, &MPF_HEAD);
    append_low32(&mut out, base_total_len);
    append_be32(&mut out, 0);
    append_be32(&mut out, 0);
    append_be32(&mut out, 0);
    append_low32(&mut out, gm_len);
    append_low32(&mut out, gm_offset);
    append_be32(&mut out, 0);
    out
}

/// A written directory reads back: its payload lists the gain map where it was said to be.
pub proof fn law_mpf_reads_back(base_len: int, gm_len: int, gm_offset: int)
    requires
        0 <= gm_len < 0x1_0000_0000,
        0 <= gm_offset < 0x1_0000_0000,
    ensures
        mpf_second(mpf_segment(base_len, gm_len, gm_offset).subrange(4, 90)) == Some(
            (gm_offset, gm_len),
        ),
{
    reveal(mpf_segment);
    reveal(mpf_second);
    let s = mpf_segment(base_len, gm_len, gm_offset);
    let seg = s.subrange(4, 90);
    let t = seg.subrange(4, seg.len() as int);
    assert(seg.len() == 86);
    assert(forall|i: int| 0 <= i < 54 ==> t[i] == MPF_HEAD@[i + 8]);
    assert(begins_with(seg, MPF_SIG@));
    assert(!begins_with(t, BYTE_ORDER_LE@)) by {
        assert(t.subrange(0, 2)[0] == 0x4D);
    }
    assert(begins_with(t, BYTE_ORDER_BE@));
    assert(tiff_u16(t, 2, false) == Some(42int));
    assert(tiff_u32(t, 4, false) == Some(8int));
    assert(tiff_u16(t, 8, false) == Some(3int));
    reveal_with_fuel(mpf_entries, 4);
    assert(mpf_entries(t, false, 8, 1) == Some(MpfEntries { images: 0, list: None }));
    assert(mpf_entries(t, false, 8, 2) == Some(MpfEntries { images: 2, list: None }));
    assert(mpf_entries(t, false, 8, 3) == Some(MpfEntries { images: 2, list: Some(50int) }));
    assert(t[70] == be32_bytes(gm_len)[0] && t[71] == be32_bytes(gm_len)[1] && t[72] == be32_bytes(
        gm_len,
    )[2] && t[73] == be32_bytes(gm_len)[3]);
    assert(t[74] == be32_bytes(gm_offset)[0] && t[75] == be32_bytes(gm_offset)[1] && t[76]
        == be32_bytes(gm_offset)[2] && t[77] == be32_bytes(gm_offset)[3]);
    lemma_be32_round_trip(gm_len);
    lemma_be32_round_trip(gm_offset);
}

/// A payload without the signature lists nothing.
pub proof fn lemma_mpf_needs_signature(seg: Seq<u8>)
    requires
        !begins_with(seg, MPF_SIG@),
    ensures
        mpf_second(seg) is None,
{
    reveal(mpf_second);
}

/// A directory segment begins with its marker and length.
pub proof fn lemma_mpf_head(base_len: int, gm_len: int, gm_offset: int)
    ensures
        mpf_segment(base_len, gm_len, gm_offset).len() == 90,
        mpf_segment(base_len, gm_len, gm_offset)[0] == 0xFF,
        mpf_segment(base_len, gm_len, gm_offset)[1] == 0xE2,
        mpf_segment(base_len, gm_len, gm_offset)[2] == 0x00,
        mpf_segment(base_len, gm_len, gm_offset)[3] == 0x58,
{
    reveal(mpf_segment);
}

} // verus!
