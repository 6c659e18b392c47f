//! CRC-32 checksums.

use vstd::prelude::*;

verus! {

/// One bit of a division by the IEEE polynomial, lowest bit first.
pub open spec fn crc_bit(register: u32) -> u32 {
    if register & 1 == 1 {
        (register >> 1) ^ 0xEDB8_8320
    } else {
        register >> 1
    }
}

/// `n` bits of the division.
pub open spec fn crc_bits(register: u32, n: nat) -> u32
    decreases n,
{
    if n == 0 {
        register
    } else {
        crc_bits(crc_bit(register), (n - 1) as nat)
    }
}

/// The register behind `bytes`; it starts with all bits set.
pub open spec fn crc_register(bytes: Seq<u8>) -> u32
    decreases bytes.len(),
{
    if bytes.len() == 0 {
        0xFFFF_FFFF
    } else {
        crc_bits(crc_register(bytes.drop_last()) ^ (bytes.last() as u32), 8)
    }
}

/// The CRC-32 (IEEE) checksum of `bytes`: the register with all bits turned.
pub open spec fn crc32_ieee(bytes: Seq<u8>) -> u32 {
    crc_register(bytes) ^ 0xFFFF_FFFF
}

/// Calls `crc32fast::Hasher`: a new hasher, updated with `typ` and then with `data`, and
/// finalized. It is trusted that the result is the CRC-32 (IEEE) checksum of the two in a row.
#[verifier::external_body]
pub(crate) fn crc32(typ: &[u8], data: &[u8]) -> (r: u32)
    ensures
        r == crc32_ieee(typ@ + data@),
{
    let mut hasher = crc32fast::Hasher::new();
    hasher.update(typ);
    hasher.update(data);
    hasher.finalize()
}

} // verus!
