//! Integers in byte sequences, and searches over them.

use vstd::prelude::*;
use vstd::slice::{slice_subrange, slice_to_vec};

verus! {

/// The big-endian 16-bit number at `i`.
pub open spec fn u16_be(s: Seq<u8>, i: int) -> int {
    s[i] * 0x100 + s[i + 1]
}

/// The big-endian 32-bit number at `i`.
pub open spec fn u32_be(s: Seq<u8>, i: int) -> int {
    s[i] * 0x100_0000 + s[i + 1] * 0x1_0000 + s[i + 2] * 0x100 + s[i + 3]
}

/// The big-endian 64-bit number at `i`.
pub open spec fn u64_be(s: Seq<u8>, i: int) -> int {
    u32_be(s, i) * 0x1_0000_0000 + u32_be(s, i + 4)
}

/// The little-endian 16-bit number at `i`.
pub open spec fn u16_le(s: Seq<u8>, i: int) -> int {
    s[i + 1] * 0x100 + s[i]
}

/// The little-endian 32-bit number at `i`.
pub open spec fn u32_le(s: Seq<u8>, i: int) -> int {
    s[i + 3] * 0x100_0000 + s[i + 2] * 0x1_0000 + s[i + 1] * 0x100 + s[i]
}

/// The two's complement reading of a 32-bit number.
pub open spec fn signed32(n: int) -> int {
    if n >= 0x8000_0000 {
        n - 0x1_0000_0000
    } else {
        n
    }
}

/// The two big-endian bytes of `n` modulo 2^16.
pub open spec fn be16_bytes(n: int) -> Seq<u8> {
    seq![((n / 0x100) % 0x100) as u8, (n % 0x100) as u8]
}

/// The four big-endian bytes of `n` modulo 2^32.
pub open spec fn be32_bytes(n: int) -> Seq<u8> {
    seq![
        ((n / 0x100_0000) % 0x100) as u8,
        ((n / 0x1_0000) % 0x100) as u8,
        ((n / 0x100) % 0x100) as u8,
        (n % 0x100) as u8,
    ]
}

/// Reading four written bytes gives the number back.
pub proof fn lemma_be32_round_trip(n: int)
    requires
        0 <= n < 0x1_0000_0000,
    ensures
        u32_be(be32_bytes(n), 0) == n,
{
}

/// Only the low 32 bits of a number are written.
pub proof fn lemma_be32_low(n: int)
    requires
        0 <= n,
    ensures
        be32_bytes(n % 0x1_0000_0000) == be32_bytes(n),
{
    let q = n / 0x1_0000_0000;
    let low = n % 0x1_0000_0000;
    assert(n / 0x100_0000 == q * 0x100 + low / 0x100_0000);
    assert(n / 0x1_0000 == q * 0x1_0000 + low / 0x1_0000);
    assert(n / 0x100 == q * 0x100_0000 + low / 0x100);
    assert((q * 0x100 + low / 0x100_0000) % 0x100 == (low / 0x100_0000) % 0x100);
    assert((q * 0x1_0000 + low / 0x1_0000) % 0x100 == (low / 0x1_0000) % 0x100);
    assert((q * 0x100_0000 + low / 0x100) % 0x100 == (low / 0x100) % 0x100);
    assert(n % 0x100 == low % 0x100);
}

/// Only the low 16 bits of a number are written.
pub proof fn lemma_be16_low(n: int)
    requires
        0 <= n,
    ensures
        be16_bytes(n % 0x1_0000) == be16_bytes(n),
{
    let q = n / 0x1_0000;
    let low = n % 0x1_0000;
    assert(n / 0x100 == q * 0x100 + low / 0x100);
    assert((q * 0x100 + low / 0x100) % 0x100 == (low / 0x100) % 0x100);
    assert(n % 0x100 == low % 0x100);
}

/// Reading two written bytes gives the number back.
pub proof fn lemma_be16_round_trip(n: int)
    requires
        0 <= n < 0x1_0000,
    ensures
        u16_be(be16_bytes(n), 0) == n,
{
}

/// `pat` stands in `s` at position `i`.
pub open spec fn matches_at(s: Seq<u8>, pat: Seq<u8>, i: int) -> bool {
    &&& 0 <= i
    &&& i + pat.len() <= s.len()
    &&& s.subrange(i, i + pat.len()) =~= pat
}

/// `s` begins with `pat`.
pub open spec fn begins_with(s: Seq<u8>, pat: Seq<u8>) -> bool {
    matches_at(s, pat, 0)
}

/// `pat` stands somewhere in `s`.
pub open spec fn occurs(s: Seq<u8>, pat: Seq<u8>) -> bool {
    exists|i: int| matches_at(s, pat, i)
}

/// The first position at or after `from` where `pat` stands in `s`.
pub open spec fn find_from(s: Seq<u8>, pat: Seq<u8>, from: int) -> Option<int>
    decreases s.len() - from,
{
    if from + pat.len() > s.len() || from >= s.len() {
        None
    } else if matches_at(s, pat, from) {
        Some(from)
    } else {
        find_from(s, pat, from + 1)
    }
}

/// `find_from` gives the least matching position, and `None` only where there is none.
pub proof fn lemma_find_from(s: Seq<u8>, pat: Seq<u8>, from: int)
    requires
        0 <= from,
        pat.len() > 0,
    ensures
        match find_from(s, pat, from) {
            Some(i) => {
                &&& from <= i
                &&& matches_at(s, pat, i)
                &&& forall|j: int| from <= j < i ==> !#[trigger] matches_at(s, pat, j)
            },
            None => forall|j: int| from <= j ==> !#[trigger] matches_at(s, pat, j),
        },
    decreases s.len() - from,
{
    if from + pat.len() > s.len() || from >= s.len() {
    } else if matches_at(s, pat, from) {
    } else {
        lemma_find_from(s, pat, from + 1);
    }
}

/// A least matching position is what `find_from` gives.
pub proof fn lemma_find_from_is(s: Seq<u8>, pat: Seq<u8>, from: int, at: int)
    requires
        0 <= from <= at,
        pat.len() > 0,
        matches_at(s, pat, at),
        forall|j: int| from <= j < at ==> !#[trigger] matches_at(s, pat, j),
    ensures
        find_from(s, pat, from) == Some(at),
{
    lemma_find_from(s, pat, from);
}

/// Appends `s` to `out`.
pub fn append(out: &mut Vec<u8>, s: &[u8])
    ensures
        final(out)@ == old(out)@ + s@,
{
    out.extend_from_slice(s);
    assert(out@ =~= old(out)@ + s@);
}

/// Appends the two big-endian bytes of `n`.
pub fn append_be16(out: &mut Vec<u8>, n: u16)
    ensures
        final(out)@ == old(out)@ + be16_bytes(n as int),
{
    out.push((n / 0x100) as u8);
    out.push((n % 0x100) as u8);
    assert(out@ =~= old(out)@ + be16_bytes(n as int));
}

/// Appends the four big-endian bytes of `n`.
pub fn append_be32(out: &mut Vec<u8>, n: u32)
    ensures
        final(out)@ == old(out)@ + be32_bytes(n as int),
{
    out.push((n / 0x100_0000) as u8);
    out.push(((n / 0x1_0000) % 0x100) as u8);
    out.push(((n / 0x100) % 0x100) as u8);
    out.push((n % 0x100) as u8);
    assert(out@ =~= old(out)@ + be32_bytes(n as int));
}

/// Replaces `v[start..end]` by `with`.
pub fn splice(v: &mut Vec<u8>, start: usize, end: usize, with: &[u8])
    requires
        start <= end <= old(v)@.len(),
    ensures
        final(v)@ == old(v)@.subrange(0, start as int) + with@ + old(v)@.subrange(
            end as int,
            old(v)@.len() as int,
        ),
{
    let tail: Vec<u8> = slice_to_vec(slice_subrange(v.as_slice(), end, v.len()));
    v.truncate(start);
    append(v, with);
    append(v, tail.as_slice());
}

/// The big-endian 16-bit number at `off`.
pub fn read_be16(data: &[u8], off: usize) -> (r: u16)
    requires
        off + 2 <= data@.len(),
    ensures
        r == u16_be(data@, off as int),
{
    data[off] as u16 * 0x100 + data[off + 1] as u16
}

/// The big-endian 32-bit number at `off`.
pub fn read_be32(data: &[u8], off: usize) -> (r: u32)
    requires
        off + 4 <= data@.len(),
    ensures
        r == u32_be(data@, off as int),
{
    data[off] as u32 * 0x100_0000 + data[off + 1] as u32 * 0x1_0000 + data[off + 2] as u32 * 0x100
        + data[off + 3] as u32
}

/// The big-endian 32-bit number at `off`, where the data reaches that far.
pub fn u32be(data: &[u8], off: usize) -> (r: Option<usize>)
    ensures
        r == (if off + 4 <= data@.len() {
            Some(u32_be(data@, off as int) as usize)
        } else {
            None
        }),
{
    if data.len() >= 4 && off <= data.len() - 4 {
        Some(read_be32(data, off) as usize)
    } else {
        None
    }
}

/// The big-endian 16-bit number at `off`, where the data reaches that far.
pub fn be_u16(data: &[u8], off: usize) -> (r: Option<u16>)
    ensures
        r == (if off + 2 <= data@.len() {
            Some(u16_be(data@, off as int) as u16)
        } else {
            None
        }),
{
    if data.len() >= 2 && off <= data.len() - 2 {
        Some(read_be16(data, off))
    } else {
        None
    }
}

/// Whether the two slices hold the same bytes.
pub fn same_bytes(a: &[u8], b: &[u8]) -> (r: bool)
    ensures
        r == (a@ == b@),
{
    if a.len() != b.len() {
        return false;
    }
    let mut i: usize = 0;
    while i < a.len()
        invariant
            i <= a@.len(),
            a@.len() == b@.len(),
            forall|j: int| 0 <= j < i ==> a@[j] == b@[j],
        decreases a@.len() - i,
    {
        if a[i] != b[i] {
            return false;
        }
        i += 1;
    }
    assert(a@ =~= b@);
    true
}

/// Whether `pat` stands in `data` at `at`.
pub fn stands_at(data: &[u8], pat: &[u8], at: usize) -> (r: bool)
    ensures
        r == matches_at(data@, pat@, at as int),
{
    if at > data.len() || pat.len() > data.len() - at {
        return false;
    }
    same_bytes(slice_subrange(data, at, at + pat.len()), pat)
}

/// Whether `data` begins with `pat`.
pub fn starts_with(data: &[u8], pat: &[u8]) -> (r: bool)
    ensures
        r == begins_with(data@, pat@),
{
    stands_at(data, pat, 0)
}

/// The first position of `pat` in `data` at or after `from`.
pub fn find_at(data: &[u8], pat: &[u8], from: usize) -> (r: Option<usize>)
    requires
        pat@.len() > 0,
    ensures
        match r {
            Some(i) => find_from(data@, pat@, from as int) == Some(i as int) && i + pat@.len()
                <= data@.len() <= usize::MAX,
            None => find_from(data@, pat@, from as int) is None,
        },
{
    let mut at: usize = from;
    while at < data.len()
        invariant
            from <= at,
            pat@.len() > 0,
            find_from(data@, pat@, from as int) == find_from(data@, pat@, at as int),
        decreases data@.len() - at,
    {
        if pat.len() > data.len() - at {
            return None;
        }
        if stands_at(data, pat, at) {
            return Some(at);
        }
        at += 1;
    }
    None
}

/// The first position of `needle` in `data`; an empty needle is never found.
pub fn find_sub(data: &[u8], needle: &[u8]) -> (r: Option<usize>)
    ensures
        match r {
            Some(i) => {
                &&& needle@.len() > 0
                &&& find_from(data@, needle@, 0) == Some(i as int)
                &&& i + needle@.len() <= data@.len()
            },
            None => needle@.len() == 0 || find_from(data@, needle@, 0) is None,
        },
{
    if needle.is_empty() {
        return None;
    }
    find_at(data, needle, 0)
}

/// Whether `needle` stands somewhere in `data`.
pub fn contains(data: &[u8], needle: &[u8]) -> (r: bool)
    requires
        needle@.len() > 0,
    ensures
        r == occurs(data@, needle@),
{
    proof {
        lemma_find_from(data@, needle@, 0);
    }
    find_at(data, needle, 0).is_some()
}

} // verus!
