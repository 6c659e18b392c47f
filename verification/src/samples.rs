//! Image samples as integer codes, and the bytes they are stored in.

use vstd::prelude::*;

use crate::bytes::{append_be16, be16_bytes, lemma_be16_round_trip, read_be16, u16_be};

verus! {

/// The largest code of a sample.
pub open spec fn max_code(sixteen: bool) -> int {
    if sixteen {
        65535
    } else {
        255
    }
}

/// The codes that a decoded image holds, in the order of its bytes.
pub open spec fn image_codes(data: Seq<u8>, sixteen: bool) -> Seq<u16> {
    if sixteen {
        Seq::new(data.len() / 2, |i: int| u16_be(data, 2 * i) as u16)
    } else {
        Seq::new(data.len(), |i: int| data[i] as u16)
    }
}

/// The bytes that codes are stored in: big-endian, or the low byte alone.
pub open spec fn code_bytes(codes: Seq<u16>, sixteen: bool) -> Seq<u8> {
    if sixteen {
        Seq::new(2 * codes.len(), |i: int| be16_bytes(codes[i / 2] as int)[i % 2])
    } else {
        Seq::new(codes.len(), |i: int| (codes[i] % 256) as u8)
    }
}

/// Every code fits the sample size.
pub open spec fn codes_fit(codes: Seq<u16>, sixteen: bool) -> bool {
    forall|i: int| 0 <= i < codes.len() ==> (#[trigger] codes[i]) <= max_code(sixteen)
}

/// The codes that a decoded image holds.
pub fn read_codes(data: &[u8], sixteen: bool) -> (r: Vec<u16>)
    ensures
        r@ == image_codes(data@, sixteen),
        codes_fit(r@, sixteen),
{
    let mut codes: Vec<u16> = Vec::new();
    let mut i: usize = 0;
    if sixteen {
        while data.len() - i >= 2
            invariant
                i <= data@.len(),
                i == 2 * codes@.len(),
                forall|k: int|
                    0 <= k < codes@.len() ==> #[trigger] codes@[k] == u16_be(data@, 2 * k) as u16,
            decreases data@.len() - i,
        {
            codes.push(read_be16(data, i));
            i += 2;
        }
    } else {
        while i < data.len()
            invariant
                i <= data@.len(),
                i == codes@.len(),
                forall|k: int| 0 <= k < codes@.len() ==> #[trigger] codes@[k] == data@[k] as u16,
            decreases data@.len() - i,
        {
            codes.push(data[i] as u16);
            i += 1;
        }
    }
    assert(codes@ =~= image_codes(data@, sixteen));
    codes
}

/// The bytes that codes are stored in.
pub fn write_codes(codes: &[u16], sixteen: bool) -> (r: Vec<u8>)
    ensures
        r@ == code_bytes(codes@, sixteen),
{
    let mut data: Vec<u8> = Vec::new();
    let mut i: usize = 0;
    if sixteen {
        while i < codes.len()
            invariant
                i <= codes@.len(),
                data@.len() == 2 * i,
                forall|k: int|
                    0 <= k < data@.len() ==> #[trigger] data@[k] == be16_bytes(
                        codes@[k / 2] as int,
                    )[k % 2],
            decreases codes@.len() - i,
        {
            append_be16(&mut data, codes[i]);
            i += 1;
        }
    } else {
        while i < codes.len()
            invariant
                i <= codes@.len(),
                data@.len() == i,
                forall|k: int|
                    0 <= k < data@.len() ==> #[trigger] data@[k] == (codes@[k] % 256) as u8,
            decreases codes@.len() - i,
        {
            data.push((codes[i] % 256) as u8);
            i += 1;
        }
    }
    assert(data@ =~= code_bytes(codes@, sixteen));
    data
}

/// A code that fits the sample size is read back.
pub(crate) proof fn lemma_code_reads_back(codes: Seq<u16>, sixteen: bool, i: int)
    requires
        0 <= i < codes.len(),
        codes[i] <= max_code(sixteen),
    ensures
        image_codes(code_bytes(codes, sixteen), sixteen).len() == codes.len(),
        image_codes(code_bytes(codes, sixteen), sixteen)[i] == codes[i],
{
    let data = code_bytes(codes, sixteen);
    if sixteen {
        assert(data[2 * i] == be16_bytes(codes[i] as int)[0]);
        assert(data[2 * i + 1] == be16_bytes(codes[i] as int)[1]);
        lemma_be16_round_trip(codes[i] as int);
    }
}

/// Codes that were stored are read back.
pub proof fn law_codes_read_back(codes: Seq<u16>, sixteen: bool)
    requires
        codes_fit(codes, sixteen),
    ensures
        image_codes(code_bytes(codes, sixteen), sixteen) == codes,
{
    let data = code_bytes(codes, sixteen);
    assert forall|i: int| 0 <= i < codes.len() implies #[trigger] image_codes(data, sixteen)[i]
        == codes[i] by {
        lemma_code_reads_back(codes, sixteen, i);
    }
    assert(image_codes(data, sixteen) =~= codes);
}

} // verus!
