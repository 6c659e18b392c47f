use picseal::heic::{heic_apple_info, heic_apple_info_inner, AppleHeicInfo};
use picseal::makernote::{apple_makernote_values, parse_apple_makernote, MakerNote, Ratio};

fn quotient(r: Ratio) -> f64 {
    r.num as f64 / r.den as f64
}

fn apple_headroom(maker33: f64, maker48: f64) -> f64 {
    let stops = if maker33 < 1.0 {
        if maker48 <= 0.01 {
            -20.0 * maker48 + 1.8
        } else {
            -0.101 * maker48 + 1.601
        }
    } else if maker48 <= 0.01 {
        -70.0 * maker48 + 3.0
    } else {
        -0.303 * maker48 + 2.303
    };
    2f64.powf(stops.max(0.0))
}

fn boosts(note: MakerNote) -> bool {
    apple_headroom(quotient(note.headroom), quotient(note.gain)) > 1.0
}

#[test]
fn apple_makernote_synthetic() {
    let mut mn = Vec::new();
    mn.extend_from_slice(b"Apple iOS\0");
    mn.extend_from_slice(&[0, 1]);
    mn.extend_from_slice(b"MM");
    mn.extend_from_slice(&2u16.to_be_bytes()); // IFD count at 14
    // entry 0: tag 0x21 SRATIONAL count 1 value offset 40
    mn.extend_from_slice(&0x0021u16.to_be_bytes());
    mn.extend_from_slice(&10u16.to_be_bytes());
    mn.extend_from_slice(&1u32.to_be_bytes());
    mn.extend_from_slice(&40u32.to_be_bytes());
    // entry 1: tag 0x30 SRATIONAL count 1 value offset 48
    mn.extend_from_slice(&0x0030u16.to_be_bytes());
    mn.extend_from_slice(&10u16.to_be_bytes());
    mn.extend_from_slice(&1u32.to_be_bytes());
    mn.extend_from_slice(&48u32.to_be_bytes());
    mn.extend_from_slice(&29609u32.to_be_bytes());
    mn.extend_from_slice(&19218u32.to_be_bytes());
    mn.extend_from_slice(&4658u32.to_be_bytes());
    mn.extend_from_slice(&252879u32.to_be_bytes());
    let note = parse_apple_makernote(&mn).unwrap();
    let (hr, g) = (quotient(note.headroom), quotient(note.gain));
    assert!((hr - 1.540691019).abs() < 1e-9);
    assert!((g - 0.0184198767).abs() < 1e-9);
    assert!((apple_headroom(hr, g) - 4.915774637972608).abs() < 1e-9);
}

/// A maker note with the given values; `second` replaces the headroom again.
fn maker_note(headroom: (u32, u32), gain: (u32, u32), second: Option<(u32, u32)>) -> Vec<u8> {
    let mut entries = vec![(0x21u16, headroom), (0x30, gain)];
    if let Some(v) = second {
        entries.push((0x21, v));
    }
    let mut mn = b"Apple iOS\0\0\x01II".to_vec();
    mn.extend_from_slice(&(entries.len() as u16).to_le_bytes());
    let values = 16 + 12 * entries.len();
    for (i, (tag, _)) in entries.iter().enumerate() {
        mn.extend_from_slice(&tag.to_le_bytes());
        mn.extend_from_slice(&10u16.to_le_bytes());
        mn.extend_from_slice(&1u32.to_le_bytes());
        mn.extend_from_slice(&((values + 8 * i) as u32).to_le_bytes());
    }
    for (_, (num, den)) in entries {
        mn.extend_from_slice(&num.to_le_bytes());
        mn.extend_from_slice(&den.to_le_bytes());
    }
    mn
}

#[test]
fn little_endian_maker_note_is_read() {
    let note = parse_apple_makernote(&maker_note((3, 2), (1, 100), None)).unwrap();
    assert_eq!(note.headroom, Ratio { num: 3, den: 2 });
    assert_eq!(note.gain, Ratio { num: 1, den: 100 });
}

#[test]
fn last_readable_maker_note_value_counts() {
    let later = parse_apple_makernote(&maker_note((3, 2), (1, 100), Some((5, 4)))).unwrap();
    assert_eq!(later.headroom, Ratio { num: 5, den: 4 });
    let zero = parse_apple_makernote(&maker_note((3, 2), (1, 100), Some((5, 0)))).unwrap();
    assert_eq!(zero.headroom, Ratio { num: 3, den: 2 });
    assert_eq!(parse_apple_makernote(&maker_note((3, 0), (1, 100), None)), None);
}

#[test]
fn unreadable_maker_note_is_passed_over() {
    let mut raw = b"....Apple iOS\0 nothing of use here".to_vec();
    raw.extend_from_slice(&maker_note((3, 2), (1, 100), None));
    let note = apple_makernote_values(&raw).unwrap();
    assert_eq!(note.headroom, Ratio { num: 3, den: 2 });
    assert_eq!(apple_makernote_values(&raw[..34]), None);
}

fn bmff(typ: &[u8; 4], body: &[u8]) -> Vec<u8> {
    let mut v = ((body.len() + 8) as u32).to_be_bytes().to_vec();
    v.extend_from_slice(typ);
    v.extend_from_slice(body);
    v
}

fn full(typ: &[u8; 4], version: u8, flags: u8, body: &[u8]) -> Vec<u8> {
    bmff(typ, &[&[version, 0, 0, flags], body].concat())
}

fn infe(id: u16, typ: &[u8; 4]) -> Vec<u8> {
    full(b"infe", 2, 0, &[&id.to_be_bytes()[..], &[0, 0], typ].concat())
}

fn reference(typ: &[u8; 4], from: u16, to: &[u16]) -> Vec<u8> {
    let mut body = from.to_be_bytes().to_vec();
    body.extend_from_slice(&(to.len() as u16).to_be_bytes());
    for t in to {
        body.extend_from_slice(&t.to_be_bytes());
    }
    bmff(typ, &body)
}

/// A HEIC file with items 1 (primary), 2 (auxiliary) and 3 (tone map).
fn heic(urn: &[u8], aux_id: u16, wide: bool, tmap: bool) -> Vec<u8> {
    let mut entries = vec![infe(1, b"hvc1"), infe(aux_id, b"hvc1")];
    let mut refs = vec![reference(b"auxl", aux_id, &[1])];
    if tmap {
        entries.push(infe(3, b"tmap"));
        refs.push(reference(b"dimg", 3, &[1, 9]));
        refs.push(reference(b"dimg", 3, &[1, 8]));
        refs.push(reference(b"dimg", 3, &[1]));
    }
    let iinf = full(b"iinf", 0, 0, &[&[0, entries.len() as u8][..], &entries.concat()].concat());
    let iref = full(b"iref", 0, 0, &refs.concat());
    let pitm = full(b"pitm", 0, 0, &[0, 1]);
    let auxc = full(b"auxC", 0, 0, &[urn, b"\0tail"].concat());
    let ipco = bmff(b"ipco", &[bmff(b"ispe", &[0; 12]), auxc].concat());
    let id = aux_id.to_be_bytes();
    let ipma = if wide {
        full(b"ipma", 1, 1, &[&[0, 0, 0, 1, 0, 0][..], &id, &[0, 2, 0x80, 1, 0x80, 2]].concat())
    } else {
        full(b"ipma", 0, 0, &[&[0, 0, 0, 1][..], &id, &[2, 0x81, 0x82]].concat())
    };
    let iprp = bmff(b"iprp", &[ipco, ipma].concat());
    let mut raw = bmff(b"ftyp", b"heic\0\0\0\0heic");
    raw.extend_from_slice(&full(b"meta", 0, 0, &[pitm, iinf, iref, iprp].concat()));
    raw.extend_from_slice(&bmff(b"mdat", &maker_note((3, 2), (1, 100), None)));
    raw
}

const URN: &[u8] = b"urn:com:apple:photo:2020:aux:hdrgainmap";

fn info_of(raw: &[u8]) -> AppleHeicInfo {
    heic_apple_info_inner(raw, &boosts)
}

#[test]
fn apple_aux_item_is_found() {
    for wide in [false, true] {
        let info = heic_apple_info(heic(URN, 2, wide, true), &boosts);
        assert!(info.ok);
        assert_eq!(info.kind, "apple-aux");
        assert_eq!(info.gainmap_item_id, 2);
        assert_eq!(info.maker_note.unwrap().headroom, Ratio { num: 3, den: 2 });
    }
}

#[test]
fn tone_map_item_is_the_fallback() {
    let info = info_of(&heic(b"urn:other", 2, false, true));
    assert!(info.ok);
    assert_eq!(info.kind, "iso-tmap");
    assert_eq!(info.gainmap_item_id, 8, "the last derivation with two items counts");
    let none = info_of(&heic(b"urn:other", 2, false, false));
    assert!(!none.ok && none.kind.is_empty() && none.gainmap_item_id == 0);
}

#[test]
fn auxiliary_item_without_number_keeps_its_kind() {
    let info = info_of(&heic(URN, 0, false, false));
    assert!(!info.ok);
    assert_eq!(info.kind, "apple-aux");
    assert_eq!(info.gainmap_item_id, 0);
    assert_eq!(info_of(&heic(URN, 0, false, true)).kind, "iso-tmap");
}

#[test]
fn heic_without_headroom_is_not_ok() {
    let raw = heic(URN, 2, false, false);
    let dull = heic_apple_info_inner(&raw, &|_| false);
    assert!(!dull.ok && dull.gainmap_item_id == 2);
    let at = raw.windows(10).position(|w| w == b"Apple iOS\0").unwrap();
    let without = info_of(&raw[..at]);
    assert!(!without.ok && without.maker_note.is_none() && without.gainmap_item_id == 2);
}

#[test]
fn heic_truncation_is_safe() {
    let raw = heic(URN, 2, true, true);
    for cut in 0..raw.len() {
        let info = info_of(&raw[..cut]);
        assert!(!info.ok, "the maker note is at the end");
    }
    let no_meta = info_of(&raw[..16]);
    assert!(no_meta.kind.is_empty() && no_meta.maker_note.is_none());
}
