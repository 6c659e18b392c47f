//! Apple's EXIF maker note.

use vstd::prelude::*;
use vstd::slice::slice_subrange;

use crate::bytes::{find_at, find_from, lemma_find_from, matches_at, stands_at};
use crate::mpf::{read_u16, read_u32, tiff_u16, tiff_u32};
use crate::tags::{APPLE_IOS, BYTE_ORDER_BE, BYTE_ORDER_LE};

verus! {

/// A quotient of two numbers.
#[derive(Clone, Copy, PartialEq, Eq, Structural, Debug)]
pub struct Ratio {
    pub num: u32,
    pub den: u32,
}

/// The values of a maker note that determine the headroom of a photo.
#[derive(Clone, Copy, PartialEq, Eq, Structural, Debug)]
pub struct MakerNote {
    /// Value of tag 0x21.
    pub headroom: Ratio,
    /// Value of tag 0x30.
    pub gain: Ratio,
}

/// What a maker note's entries say.
pub struct MakerEntries {
    pub headroom: Option<Ratio>,
    pub gain: Option<Ratio>,
}

/// What the entry at `p` adds to what the entries before it say: a single rational number in one of
/// the two tags replaces an earlier one, unless its denominator is 0.
pub open spec fn maker_entry(mn: Seq<u8>, le: bool, p: int, before: MakerEntries) -> MakerEntries {
    let tag = tiff_u16(mn, p, le);
    let val = tiff_u32(mn, p + 8, le).unwrap();
    if (tag == Some(0x21int) || tag == Some(0x30int)) && tiff_u16(mn, p + 2, le) == Some(10int)
        && tiff_u32(mn, p + 4, le) == Some(1int) && val + 8 <= mn.len() && tiff_u32(
        mn,
        val + 4,
        le,
    ) != Some(0int) {
        let ratio = Ratio {
            num: tiff_u32(mn, val, le).unwrap() as u32,
            den: tiff_u32(mn, val + 4, le).unwrap() as u32,
        };
        if tag == Some(0x21int) {
            MakerEntries { headroom: Some(ratio), gain: before.gain }
        } else {
            MakerEntries { headroom: before.headroom, gain: Some(ratio) }
        }
    } else {
        before
    }
}

/// What the first `n` entries say.
pub open spec fn maker_entries(mn: Seq<u8>, le: bool, n: int) -> MakerEntries
    decreases n,
{
    if n <= 0 {
        MakerEntries { headroom: None, gain: None }
    } else {
        maker_entry(mn, le, 16 + (n - 1) * 12, maker_entries(mn, le, n - 1))
    }
}

/// The values of the maker note that `mn` begins with.
pub open spec fn maker_note(mn: Seq<u8>) -> Option<MakerNote> {
    let le = matches_at(mn, BYTE_ORDER_LE@, 12);
    let count = tiff_u16(mn, 14, le).unwrap();
    if mn.len() < 20 || !(le || matches_at(mn, BYTE_ORDER_BE@, 12)) || count == 0 || count > 200
        || 16 + count * 12 > mn.len() {
        None
    } else {
        match maker_entries(mn, le, count) {
            MakerEntries { headroom: Some(headroom), gain: Some(gain) } => Some(
                MakerNote { headroom, gain },
            ),
            _ => None,
        }
    }
}

/// The number at `o` of a maker note that reaches that far.
fn entry_u32(mn: &[u8], o: u64, le: bool) -> (r: u32)
    requires
        o + 4 <= mn@.len(),
        o <= 0x2_0000_0000,
    ensures
        tiff_u32(mn@, o as int, le) == Some(r as int),
{
    match read_u32(mn, o, le) {
        Some(v) => v,
        None => 0,
    }
}

/// The short number at `o` of a maker note that reaches that far.
fn entry_u16(mn: &[u8], o: u64, le: bool) -> (r: u16)
    requires
        o + 2 <= mn@.len(),
        o <= 0x2_0000_0000,
    ensures
        tiff_u16(mn@, o as int, le) == Some(r as int),
{
    match read_u16(mn, o, le) {
        Some(v) => v,
        None => 0,
    }
}

/// The values of the maker note that `mn` begins with.
pub fn parse_apple_makernote(mn: &[u8]) -> (r: Option<MakerNote>)
    ensures
        r == maker_note(mn@),
{
    if mn.len() < 20 {
        return None;
    }
    let le: bool = stands_at(mn, &BYTE_ORDER_LE, 12);
    if !le && !stands_at(mn, &BYTE_ORDER_BE, 12) {
        return None;
    }
    let count: u16 = entry_u16(mn, 14, le);
    if count == 0 || count > 200 || 16 + count as usize * 12 > mn.len() {
        return None;
    }
    let mut headroom: Option<Ratio> = None;
    let mut gain: Option<Ratio> = None;
    let mut k: u16 = 0;
    while k < count
        invariant
            k <= count <= 200,
            16 + count * 12 <= mn@.len(),
            maker_entries(mn@, le, k as int) == (MakerEntries { headroom, gain }),
        decreases count - k,
    {
        let p: u64 = 16 + k as u64 * 12;
        let tag: u16 = entry_u16(mn, p, le);
        let typ: u16 = entry_u16(mn, p + 2, le);
        let cnt: u32 = entry_u32(mn, p + 4, le);
        let val: u64 = entry_u32(mn, p + 8, le) as u64;
        if (tag == 0x21 || tag == 0x30) && typ == 10 && cnt == 1 && val + 8 <= mn.len() as u64 {
            let num: u32 = entry_u32(mn, val, le);
            let den: u32 = entry_u32(mn, val + 4, le);
            if den != 0 {
                if tag == 0x21 {
                    headroom = Some(Ratio { num, den });
                } else {
                    gain = Some(Ratio { num, den });
                }
            }
        }
        k += 1;
    }
    match (headroom, gain) {
        (Some(headroom), Some(gain)) => Some(MakerNote { headroom, gain }),
        _ => None,
    }
}

/// The values of the first readable maker note at or after `at`.
pub open spec fn maker_note_from(raw: Seq<u8>, at: int) -> Option<MakerNote>
    decreases raw.len() - at,
    when 0 <= at
    via maker_note_from_decreases
{
    match find_from(raw, APPLE_IOS@, at) {
        Some(i) => match maker_note(raw.subrange(i, raw.len() as int)) {
            Some(note) => Some(note),
            None => maker_note_from(raw, i + APPLE_IOS@.len()),
        },
        None => None,
    }
}

#[via_fn]
proof fn maker_note_from_decreases(raw: Seq<u8>, at: int) {
    lemma_find_from(raw, APPLE_IOS@, at);
}

/// The values of the first readable maker note in a file.
pub fn apple_makernote_values(raw: &[u8]) -> (r: Option<MakerNote>)
    ensures
        r == maker_note_from(raw@, 0),
{
    let mut at: usize = 0;
    loop
        invariant
            at <= raw@.len(),
            maker_note_from(raw@, 0) == maker_note_from(raw@, at as int),
        decreases raw@.len() - at,
    {
        proof {
            lemma_find_from(raw@, APPLE_IOS@, at as int);
        }
        match find_at(raw, &APPLE_IOS, at) {
            Some(i) => {
                let note: Option<MakerNote> = parse_apple_makernote(
                    slice_subrange(raw, i, raw.len()),
                );
                if note.is_some() {
                    return note;
                }
                at = i + APPLE_IOS.len();
            },
            None => return None,
        }
    }
}

} // verus!
