//! Where the numbers stand in the metadata that new files get.

use vstd::prelude::*;
use vstd::utf8::encode_utf8;

use crate::bytes::{be32_bytes, u32_be};
use crate::heic_laws::{holds_at, lemma_holds_piece};
use crate::mpf::mpf_segment;
use crate::tags::{HDRGM, ISO21496_URN, MPF_SIG, XMP_SIG};
use crate::ultrahdr::iso_payload;
use crate::xmp::{secondary_xmp, SECONDARY_HEAD, SECONDARY_MIDDLE, SECONDARY_RANGE, SECONDARY_TAIL};

verus! {

/// A multi-picture directory is an APP2 segment of 90 bytes in big-endian order. It has a version,
/// an image count of 2 and a list of two images of 16 bytes each: the base with its size at the
/// start of the file, and the gain map with its size and offset.
pub proof fn law_directory_layout(base_len: int, gm_len: int, gm_offset: int)
    requires
        0 <= base_len < 0x1_0000_0000,
        0 <= gm_len < 0x1_0000_0000,
        0 <= gm_offset < 0x1_0000_0000,
    ensures
        ({
            let s = mpf_segment(base_len, gm_len, gm_offset);
            &&& s.len() == 90
            &&& s[0] == 0xFF && s[1] == 0xE2 && s[2] == 0 && s[3] == 88
            &&& s.subrange(4, 8) == MPF_SIG@
            &&& s[8] == 0x4D && s[9] == 0x4D && s[10] == 0 && s[11] == 42
            &&& u32_be(s, 12) == 8
            &&& u32_be(s, 62) == base_len
            &&& u32_be(s, 66) == 0
            &&& u32_be(s, 78) == gm_len
            &&& u32_be(s, 82) == gm_offset
            &&& u32_be(s, 86) == 0
        }),
{
    reveal(mpf_segment);
    let s = mpf_segment(base_len, gm_len, gm_offset);
    let (b, g, o) = (be32_bytes(base_len), be32_bytes(gm_len), be32_bytes(gm_offset));
    crate::bytes::lemma_be32_round_trip(base_len);
    crate::bytes::lemma_be32_round_trip(gm_len);
    crate::bytes::lemma_be32_round_trip(gm_offset);
    crate::bytes::lemma_be32_round_trip(0);
    assert(s.subrange(4, 8) =~= MPF_SIG@);
    assert(s[62] == b[0] && s[63] == b[1] && s[64] == b[2] && s[65] == b[3]);
    assert(s[78] == g[0] && s[79] == g[1] && s[80] == g[2] && s[81] == g[3]);
    assert(s[82] == o[0] && s[83] == o[1] && s[84] == o[2] && s[85] == o[3]);
}

/// New ISO 21496-1 metadata have version 0, one channel and a common denominator of a million. The
/// base has no headroom; the headroom of the other rendition and the largest gain are the given
/// number of millionths. The smallest gain and both offsets are 0, and gamma is 1.
pub proof fn law_iso_layout(micro: u32)
    ensures
        ({
            let p = iso_payload(micro);
            &&& p.len() == 65
            &&& p.subrange(0, 28) == ISO21496_URN@
            &&& p[28] == 0 && p[29] == 0 && p[30] == 0 && p[31] == 0
            &&& p[32] == 8
            &&& u32_be(p, 33) == 1_000_000
            &&& u32_be(p, 37) == 0
            &&& u32_be(p, 41) == micro
            &&& u32_be(p, 45) == 0
            &&& u32_be(p, 49) == micro
            &&& u32_be(p, 53) == 1_000_000
            &&& u32_be(p, 57) == 0
            &&& u32_be(p, 61) == 0
        }),
{
    let p = iso_payload(micro);
    let (z, d, m) = (be32_bytes(0), be32_bytes(1_000_000), be32_bytes(micro as int));
    crate::bytes::lemma_be32_round_trip(micro as int);
    crate::bytes::lemma_be32_round_trip(1_000_000);
    crate::bytes::lemma_be32_round_trip(0);
    assert(p.subrange(0, 28) =~= ISO21496_URN@);
    assert(p[33] == d[0] && p[34] == d[1] && p[35] == d[2] && p[36] == d[3]);
    assert(p[37] == z[0] && p[38] == z[1] && p[39] == z[2] && p[40] == z[3]);
    assert(p[41] == m[0] && p[42] == m[1] && p[43] == m[2] && p[44] == m[3]);
    assert(p[45] == z[0] && p[46] == z[1] && p[47] == z[2] && p[48] == z[3]);
    assert(p[49] == m[0] && p[50] == m[1] && p[51] == m[2] && p[52] == m[3]);
    assert(p[53] == d[0] && p[54] == d[1] && p[55] == d[2] && p[56] == d[3]);
    assert(p[57] == z[0] && p[58] == z[1] && p[59] == z[2] && p[60] == z[3]);
    assert(p[61] == z[0] && p[62] == z[1] && p[63] == z[2] && p[64] == z[3]);
}

/// The text of the largest gain stands twice in the attributes of a new gain map: as the largest
/// gain, and as the largest headroom. What stands around it does not depend on it.
pub proof fn law_gain_stands_twice(gain: Seq<u8>)
    ensures
        ({
            let x = secondary_xmp(gain);
            let head = XMP_SIG@.len() + 1 + encode_utf8(SECONDARY_HEAD@).len() + HDRGM@.len();
            let first = head + encode_utf8(SECONDARY_RANGE@).len();
            let middle = first + gain.len();
            let second = middle + encode_utf8(SECONDARY_MIDDLE@).len();
            let tail = second + gain.len();
            &&& holds_at(x, 0, XMP_SIG@ + seq![0u8])
            &&& holds_at(x, head as int, encode_utf8(SECONDARY_RANGE@))
            &&& holds_at(x, first as int, gain)
            &&& holds_at(x, middle as int, encode_utf8(SECONDARY_MIDDLE@))
            &&& holds_at(x, second as int, gain)
            &&& holds_at(x, tail as int, encode_utf8(SECONDARY_TAIL@))
            &&& x.len() == tail + encode_utf8(SECONDARY_TAIL@).len()
        }),
{
    let x = secondary_xmp(gain);
    let sig = XMP_SIG@ + seq![0u8];
    let head = encode_utf8(SECONDARY_HEAD@);
    let range = encode_utf8(SECONDARY_RANGE@);
    let middle = encode_utf8(SECONDARY_MIDDLE@);
    let tail = encode_utf8(SECONDARY_TAIL@);
    assert(x.subrange(0, x.len() as int) =~= x);
    lemma_holds_piece(x, 0, sig + head + HDRGM@ + range + gain + middle + gain, tail);
    lemma_holds_piece(x, 0, sig + head + HDRGM@ + range + gain + middle, gain);
    lemma_holds_piece(x, 0, sig + head + HDRGM@ + range + gain, middle);
    lemma_holds_piece(x, 0, sig + head + HDRGM@ + range, gain);
    lemma_holds_piece(x, 0, sig + head + HDRGM@, range);
    lemma_holds_piece(x, 0, sig + head, HDRGM@);
    lemma_holds_piece(x, 0, sig, head);
}

} // verus!
