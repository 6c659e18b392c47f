use picseal::detect::detect_hdr_inner;
use picseal::jpeg::{
    gainmap_range, has_segment, insert_segments, jpeg_app_insert_pos, jpeg_segments, strip_icc,
    write_jpeg_segment,
};
use picseal::mpf::mpf_second_image;
use picseal::tags::{ISO21496_URN, XMP_SIG};
use picseal::ultrahdr::{
    hdr_carry_segments, ultrahdr_assemble, ultrahdr_assemble_inner, ultrahdr_create,
    ultrahdr_create_inner, ultrahdr_gainmap, ultrahdr_gainmap_inner, GainRange,
};

fn gain(headroom: f64) -> Option<GainRange> {
    if !headroom.is_finite() || headroom <= 1.0 {
        return None;
    }
    let log = headroom.log2();
    let micro = (log * 1_000_000.0).round() as u32;
    Some(GainRange { micro, text: format!("{log:.6}").into_bytes() })
}

fn create(base: &[u8], gainmap: &[u8], headroom: f64) -> Result<Vec<u8>, String> {
    ultrahdr_create_inner(base, gainmap, gain(headroom).as_ref())
}

fn jpeg_with_xmp(xmp: &str) -> Vec<u8> {
    let mut v = vec![0xFF, 0xD8, 0xFF, 0xE1];
    let payload_len = XMP_SIG.len() + 1 + xmp.len();
    v.extend_from_slice(&((payload_len + 2) as u16).to_be_bytes());
    v.extend_from_slice(&XMP_SIG);
    v.push(0);
    v.extend_from_slice(xmp.as_bytes());
    v.extend_from_slice(&[0xFF, 0xDA, 0x00, 0x02]);
    v
}

#[test]
fn ultrahdr_create_rejects_bad_input() {
    let jpeg = [0xFF, 0xD8, 0xFF, 0xD9];
    assert!(create(&jpeg, &jpeg, 1.0).is_err());
    assert!(create(&jpeg, &jpeg, 2.0).is_ok());
    assert!(create(&[0x00, 0x00], &jpeg, 2.0).is_err());
}

#[test]
fn ultrahdr_assemble_rejects_bad_input() {
    assert!(ultrahdr_assemble_inner(&[], &[], &[]).is_err());
    let jpeg = jpeg_with_xmp("<x/>");
    assert!(ultrahdr_assemble_inner(&jpeg, &jpeg, &jpeg).is_err());
}

fn plain_jpeg(segs: &[(u8, Vec<u8>)], scan: &[u8]) -> Vec<u8> {
    let mut v = vec![0xFF, 0xD8];
    for (marker, payload) in segs {
        write_jpeg_segment(&mut v, *marker, payload);
    }
    v.extend_from_slice(&[0xFF, 0xDA, 0x00, 0x02]);
    v.extend_from_slice(scan);
    v.extend_from_slice(&[0xFF, 0xD9]);
    v
}

fn jfif() -> (u8, Vec<u8>) {
    (0xE0, b"JFIF\0\x01\x01\0\0\x01\0\x01\0\0".to_vec())
}

fn icc(text: &[u8]) -> (u8, Vec<u8>) {
    (0xE2, [b"ICC_PROFILE\0\x01\x01".as_slice(), text].concat())
}

fn profiles(jpeg: &[u8]) -> Vec<Vec<u8>> {
    jpeg_segments(jpeg)
        .iter()
        .filter(|s| s.marker == 0xE2 && s.payload.starts_with(b"ICC_PROFILE\0"))
        .map(|s| s.payload.to_vec())
        .collect()
}

/// An Ultra HDR file whose gain map has a colour profile.
fn original() -> Vec<u8> {
    let base = plain_jpeg(&[jfif()], &[1, 2, 3]);
    let gm = plain_jpeg(&[jfif(), icc(b"hdr")], &[4, 5]);
    create(&base, &gm, 2.0).unwrap()
}

#[test]
fn created_gain_map_is_found_again() {
    let base = plain_jpeg(&[jfif()], &[1, 2, 3]);
    let gm = plain_jpeg(&[jfif()], &[4, 5]);
    let out = ultrahdr_create(base.clone(), gm.clone(), gain(2.0).as_ref()).unwrap();
    let (abs, size) = gainmap_range(&out).unwrap();
    assert_eq!(abs + size, out.len());
    let found = ultrahdr_gainmap(out.clone()).unwrap();
    assert_eq!(found, out[abs..]);
    assert_eq!(&found[..2], &[0xFF, 0xD8]);
    assert_eq!(&found[found.len() - 8..], &gm[gm.len() - 8..]);
    let info = detect_hdr_inner(&out);
    assert!(info.is_hdr && info.kind == "jpeg-gainmap");
    // the directory stands behind the new metadata and lists the gain map
    let segs = jpeg_segments(&out);
    let markers: Vec<u8> = segs.iter().map(|s| s.marker).collect();
    assert_eq!(markers, vec![0xE0, 0xE1, 0xE2, 0xE2]);
    let (off, listed) = mpf_second_image(segs[3].payload).unwrap();
    assert_eq!(listed, size);
    assert_eq!(segs[3].start + 8 + off, abs);
    let xmp = String::from_utf8_lossy(segs[1].payload);
    assert!(xmp.contains(&format!("Item:Length=\"{size}\"")));
    assert!(segs[2].payload.starts_with(&ISO21496_URN));
    let gm_xmp = jpeg_segments(&found)[1].payload.to_vec();
    assert!(String::from_utf8_lossy(&gm_xmp).contains("hdrgm:GainMapMax=\"1.000000\""));
}

#[test]
fn creation_replaces_stale_metadata() {
    let once = original();
    let (abs, _) = gainmap_range(&once).unwrap();
    let twice = create(&once[..abs], &once[abs..], 4.0).unwrap();
    let count = |jpeg: &[u8], prefix: &[u8]| {
        jpeg_segments(jpeg).iter().filter(|s| s.payload.starts_with(prefix)).count()
    };
    let gm = ultrahdr_gainmap_inner(&twice).unwrap();
    for prefix in [&XMP_SIG[..], &ISO21496_URN[..]] {
        assert_eq!(count(&twice, prefix), 1);
        assert_eq!(count(&gm, prefix), 1);
    }
    assert_eq!(count(&twice, b"MPF\0"), 1);
    assert_eq!(profiles(&gm), vec![icc(b"hdr").1]);
}

#[test]
fn error_texts_name_the_input() {
    let jpeg = plain_jpeg(&[jfif()], &[]);
    let bad = vec![0u8; 8];
    assert_eq!(create(&bad, &bad, 0.0), Err("base is not a JPEG".to_string()));
    assert_eq!(create(&jpeg, &bad, 0.0), Err("gain map is not a JPEG".to_string()));
    assert_eq!(create(&jpeg, &jpeg, f64::INFINITY), Err("invalid headroom".to_string()));
    let error = |o: &[u8], b: &[u8], g: &[u8]| {
        ultrahdr_assemble(o.to_vec(), b.to_vec(), g.to_vec()).unwrap_err()
    };
    assert_eq!(error(&bad, &bad, &bad), "base is not a JPEG");
    assert_eq!(error(&bad, &jpeg, &bad), "gain map is not a JPEG");
    assert_eq!(error(&bad, &jpeg, &jpeg), "original has no MPF gain map");
    assert_eq!(ultrahdr_gainmap(jpeg), Err("no MPF gain map found".to_string()));
    assert_eq!(ultrahdr_gainmap_inner(&bad), None);
}

#[test]
fn assembling_the_same_parts_gives_the_file_back() {
    let src = original();
    let (abs, size) = gainmap_range(&src).unwrap();
    let out = ultrahdr_assemble_inner(&src, &src[..abs], &src[abs..]).unwrap();
    assert_eq!(out, src);
    assert_eq!(ultrahdr_gainmap_inner(&out).unwrap().len(), size);
    assert_eq!(detect_hdr_inner(&out).kind, "jpeg-gainmap");
}

#[test]
fn assembled_gain_map_is_found_again() {
    let src = original();
    let base = plain_jpeg(&[jfif(), (0xFE, b"watermarked".to_vec())], &[9; 40]);
    let gm = plain_jpeg(&[jfif()], &[7; 3000]);
    let out = ultrahdr_assemble(src.clone(), base, gm).unwrap();
    let (abs, size) = gainmap_range(&out).unwrap();
    assert_eq!(abs + size, out.len());
    let found = ultrahdr_gainmap_inner(&out).unwrap();
    // everything that the original's gain map carried is there
    let (orig_abs, _) = gainmap_range(&src).unwrap();
    let carried = hdr_carry_segments(&src[orig_abs..], true);
    assert_eq!(carried.len(), 3);
    for (marker, payload) in &carried {
        assert!(has_segment(&found, *marker, payload));
    }
    // the container directory declares the new length
    let segs = jpeg_segments(&out);
    let xmp = segs.iter().find(|s| s.payload.starts_with(&XMP_SIG)).unwrap();
    let text = String::from_utf8_lossy(xmp.payload);
    assert!(text.contains(&format!("Item:Length=\"{size}\"")));
    assert_eq!(text.matches("Length=").count(), 1);
}

#[test]
fn only_the_original_profile_survives() {
    let src = original();
    let base = plain_jpeg(&[jfif()], &[9]);
    let (abs, _) = gainmap_range(&src).unwrap();
    let mut reencoded = strip_icc(&src[abs..]);
    assert!(profiles(&reencoded).is_empty());
    let at = jpeg_app_insert_pos(&reencoded);
    insert_segments(&mut reencoded, at, &[icc(b"sRGB canvas")]);
    assert_eq!(profiles(&reencoded).len(), 1);
    let out = ultrahdr_assemble_inner(&src, &base, &reencoded).unwrap();
    let gm = ultrahdr_gainmap_inner(&out).unwrap();
    assert_eq!(profiles(&gm), vec![icc(b"hdr").1]);
}

#[test]
fn carried_segments_come_once() {
    let xmp = (0xE1, [&XMP_SIG[..], b"\0hdrgm:Version"].concat());
    let plain = (0xE1, [&XMP_SIG[..], b"\0nothing"].concat());
    let iso = (0xE2, ISO21496_URN.to_vec());
    let raw = plain_jpeg(&[xmp.clone(), plain, xmp.clone(), icc(b"a"), iso.clone(), icc(b"a")], &[]);
    assert_eq!(hdr_carry_segments(&raw, false), vec![xmp.clone(), iso.clone()]);
    assert_eq!(hdr_carry_segments(&raw, true), vec![xmp, icc(b"a"), iso]);
}

#[test]
fn gain_map_follows_a_stale_directory() {
    let src = original();
    let (abs, size) = gainmap_range(&src).unwrap();
    // more bytes in the base make the listed offset point at no image
    let mut stale = src.clone();
    let end = abs - 2;
    stale.splice(end..end, [0u8; 5]);
    assert_eq!(gainmap_range(&stale), Some((abs + 5, size)));
}

#[test]
fn own_gain_map_comes_back_from_a_new_base() {
    let src = original();
    let gm = ultrahdr_gainmap_inner(&src).unwrap();
    let base = plain_jpeg(&[jfif(), (0xFE, b"watermarked".to_vec())], &[9; 40]);
    let out = ultrahdr_assemble_inner(&src, &base, &gm).unwrap();
    assert_eq!(ultrahdr_gainmap_inner(&out), Some(gm));
}

#[test]
fn created_file_has_one_set_of_metadata() {
    let stale = original();
    let gm = ultrahdr_gainmap_inner(&stale).unwrap();
    let (abs, _) = gainmap_range(&stale).unwrap();
    let out = create(&stale[..abs], &gm, 4.0).unwrap();
    let kinds = |raw: &[u8]| -> Vec<&'static str> {
        jpeg_segments(raw)
            .iter()
            .map(|s| match s.payload {
                p if p.starts_with(&XMP_SIG) => "xmp",
                p if p.starts_with(&ISO21496_URN) => "iso",
                p if p.starts_with(b"MPF\0") => "mpf",
                _ => "",
            })
            .filter(|kind| !kind.is_empty())
            .collect()
    };
    let (abs, _) = gainmap_range(&out).unwrap();
    assert_eq!(kinds(&out), ["xmp", "iso", "mpf"]);
    assert_eq!(kinds(&out[..abs]), ["xmp", "iso", "mpf"]);
    assert_eq!(kinds(&out[abs..]), ["xmp", "iso"]);
}
