use picseal::detect::{detect_hdr, detect_hdr_inner};

fn png_chunk(typ: &[u8; 4], data: &[u8]) -> Vec<u8> {
    let mut v = Vec::new();
    v.extend_from_slice(&(data.len() as u32).to_be_bytes());
    v.extend_from_slice(typ);
    v.extend_from_slice(data);
    v.extend_from_slice(&0u32.to_be_bytes()); // CRC (unused by detector)
    v
}

fn png_with_chunks(chunks: &[Vec<u8>]) -> Vec<u8> {
    let mut v = vec![0x89, b'P', b'N', b'G', 0x0D, 0x0A, 0x1A, 0x0A];
    v.extend_from_slice(&png_chunk(b"IHDR", &[0; 13]));
    for c in chunks {
        v.extend_from_slice(c);
    }
    v.extend_from_slice(&png_chunk(b"IDAT", &[0; 8]));
    v.extend_from_slice(&png_chunk(b"IEND", &[]));
    v
}

#[test]
fn png_cicp_pq_is_hdr() {
    let png = png_with_chunks(&[png_chunk(b"cICP", &[9, 16, 9, 1])]);
    let info = detect_hdr_inner(&png);
    assert!(info.is_hdr && info.kind == "png-pq");
}

#[test]
fn png_sdr_is_not_hdr() {
    let png = png_with_chunks(&[png_chunk(b"cICP", &[1, 13, 6, 1]), png_chunk(b"iCCP", b"profile\0\0abc")]);
    assert!(!detect_hdr_inner(&png).is_hdr);
}

#[test]
fn png_gainmap_xmp_is_hdr() {
    let mut itxt = b"XML:com.adobe.xmp\0\0\0\0\0".to_vec();
    itxt.extend_from_slice(b"<x:xmpmeta xmlns:hdrgm='http://ns.adobe.com/hdr-gain-map/1.0/' hdrgm:Version='1.0'/>");
    let png = png_with_chunks(&[png_chunk(b"iTXt", &itxt)]);
    let info = detect_hdr_inner(&png);
    assert!(info.is_hdr && info.kind == "png-gainmap");
}

#[test]
fn jpeg_hdrgm_xmp_is_hdr() {
    let xmp_payload = [b"http://ns.adobe.com/xap/1.0/\0".as_slice(), b"<x:xmpmeta><rdf:Description xmlns:hdrgm='http://ns.adobe.com/hdr-gain-map/1.0/'/></x:xmpmeta>"].concat();
    let mut jpeg = vec![0xFF, 0xD8, 0xFF, 0xE1];
    jpeg.extend_from_slice(&((xmp_payload.len() + 2) as u16).to_be_bytes());
    jpeg.extend_from_slice(&xmp_payload);
    jpeg.extend_from_slice(&[0xFF, 0xDA, 0x00, 0x02]);
    let info = detect_hdr_inner(&jpeg);
    assert!(info.is_hdr && info.kind == "jpeg-gainmap");
}

#[test]
fn jpeg_plain_is_not_hdr() {
    let mut jpeg = vec![0xFF, 0xD8, 0xFF, 0xE0, 0x00, 0x10];
    jpeg.extend_from_slice(b"JFIF\0\x01\x01\0\0\x01\0\x01\0\0");
    jpeg.extend_from_slice(&[0xFF, 0xDA, 0x00, 0x02]);
    assert!(!detect_hdr_inner(&jpeg).is_hdr);
}

#[test]
fn bmff_tmap_brand_is_hdr() {
    let mut raw = Vec::new();
    raw.extend_from_slice(&36u32.to_be_bytes());
    raw.extend_from_slice(b"ftypheic");
    raw.extend_from_slice(&0u32.to_be_bytes());
    raw.extend_from_slice(b"heictmap");
    // no meta box
    let info = detect_hdr_inner(&raw);
    assert!(info.is_hdr && info.kind == "iso-21496-1");
}

#[test]
fn bmff_apple_gainmap_is_hdr() {
    let mut raw = Vec::new();
    raw.extend_from_slice(&16u32.to_be_bytes());
    raw.extend_from_slice(b"ftypheic");
    raw.extend_from_slice(&0u32.to_be_bytes());
    // meta box (fullbox) containing auxC with Apple gain map URN
    let payload = [b"\0\0\0\0".as_slice(), b"auxC\0\0\0\0urn:com:apple:photo:2020:aux:hdrgainmap\0"].concat();
    let meta_size = (payload.len() + 8) as u32;
    raw.extend_from_slice(&meta_size.to_be_bytes());
    raw.extend_from_slice(b"meta");
    raw.extend_from_slice(&payload);
    let info = detect_hdr_inner(&raw);
    assert!(info.is_hdr && info.kind == "apple-gainmap");
}

#[test]
fn bmff_avif_pq_nclx_is_hdr() {
    let mut raw = Vec::new();
    raw.extend_from_slice(&16u32.to_be_bytes());
    raw.extend_from_slice(b"ftypavif");
    raw.extend_from_slice(&0u32.to_be_bytes());
    let payload = [b"\0\0\0\0".as_slice(), b"colr", b"nclx", &(9u16).to_be_bytes(), &(16u16).to_be_bytes(), &(9u16).to_be_bytes(), &[0x80]].concat();
    let meta_size = (payload.len() + 8) as u32;
    raw.extend_from_slice(&meta_size.to_be_bytes());
    raw.extend_from_slice(b"meta");
    raw.extend_from_slice(&payload);
    let info = detect_hdr_inner(&raw);
    assert!(info.is_hdr && info.kind == "bmff-pq");
}

#[test]
fn truncated_input_is_safe() {
    assert!(!detect_hdr_inner(&[0x89, b'P', b'N']).is_hdr);
    assert!(!detect_hdr_inner(&[]).is_hdr);
    assert!(!detect_hdr_inner(&[0xFF; 64]).is_hdr);
}

// Build a JPEG whose APP2 carries an MPF directory pointing at an appended
// second individual image (mirrors Apple gain map JPEG layout)
fn mpf_test_jpeg(second: &[u8], num_images: u32, real_size: bool) -> Vec<u8> {
    let mut tiff = Vec::new();
    tiff.extend_from_slice(b"II");
    tiff.extend_from_slice(&42u16.to_le_bytes());
    tiff.extend_from_slice(&8u32.to_le_bytes());
    let mpe_off = 8 + 2 + 24 + 4;
    tiff.extend_from_slice(&2u16.to_le_bytes());
    tiff.extend_from_slice(&0xB001u16.to_le_bytes());
    tiff.extend_from_slice(&4u16.to_le_bytes());
    tiff.extend_from_slice(&1u32.to_le_bytes());
    tiff.extend_from_slice(&num_images.to_le_bytes());
    tiff.extend_from_slice(&0xB002u16.to_le_bytes());
    tiff.extend_from_slice(&7u16.to_le_bytes());
    tiff.extend_from_slice(&32u32.to_le_bytes());
    tiff.extend_from_slice(&(mpe_off as u32).to_le_bytes());
    tiff.extend_from_slice(&0u32.to_le_bytes());
    tiff.extend_from_slice(&0u32.to_le_bytes());
    tiff.extend_from_slice(&4u32.to_le_bytes());
    tiff.extend_from_slice(&0u32.to_le_bytes());
    tiff.extend_from_slice(&0u32.to_le_bytes());
    tiff.extend_from_slice(&0u32.to_le_bytes());
    tiff.extend_from_slice(&(if real_size { second.len() as u32 } else { 0 }).to_le_bytes());
    let off_field = tiff.len();
    tiff.extend_from_slice(&0u32.to_le_bytes());
    tiff.extend_from_slice(&0u32.to_le_bytes());

    let mut jpeg = vec![0xFF, 0xD8];
    let payload_len = 4 + tiff.len();
    jpeg.extend_from_slice(&[0xFF, 0xE2]);
    jpeg.extend_from_slice(&((payload_len + 2) as u16).to_be_bytes());
    jpeg.extend_from_slice(b"MPF\0");
    let tiff_start = jpeg.len();
    jpeg.extend_from_slice(&tiff);
    jpeg.extend_from_slice(&[0xFF, 0xDA, 0x00, 0x02]);
    let img_abs = jpeg.len();
    let off_val = (img_abs - tiff_start) as u32;
    jpeg[tiff_start + off_field..tiff_start + off_field + 4].copy_from_slice(&off_val.to_le_bytes());
    jpeg.extend_from_slice(second);
    jpeg
}

fn fake_aux_image(meta: &[u8]) -> Vec<u8> {
    let mut v = vec![0xFF, 0xD8, 0xFF, 0xE1];
    let payload_len = 4 + meta.len();
    v.extend_from_slice(&((payload_len + 2) as u16).to_be_bytes());
    v.extend_from_slice(b"XMP\0");
    v.extend_from_slice(meta);
    v.extend_from_slice(&[0xFF, 0xD9]);
    v
}

#[test]
fn jpeg_mpf_apple_gainmap_is_hdr() {
    let meta = b"<x:xmpmeta xmlns:apdi='http://ns.apple.com/HDRGainMap/1.0/'><apdi:AuxiliaryImageType>urn:com:apple:photo:2020:aux:hdrgainmap</apdi:AuxiliaryImageType></x:xmpmeta>";
    let jpeg = mpf_test_jpeg(&fake_aux_image(meta), 2, true);
    let info = detect_hdr_inner(&jpeg);
    assert!(info.is_hdr && info.kind == "apple-gainmap");
}

#[test]
fn jpeg_mpf_iso_or_xmp_gainmap_is_hdr() {
    for meta in [b"urn:iso:std:iso:ts:21496:-1".as_slice(), b"hdrgm:Version='1.0'".as_slice()] {
        let jpeg = mpf_test_jpeg(&fake_aux_image(meta), 2, true);
        let info = detect_hdr_inner(&jpeg);
        assert!(info.is_hdr && info.kind == "jpeg-gainmap");
    }
}

#[test]
fn jpeg_mpf_stereo_pair_is_not_hdr() {
    let jpeg = mpf_test_jpeg(&fake_aux_image(b"plain second image, no gain map metadata"), 2, true);
    assert!(!detect_hdr_inner(&jpeg).is_hdr);
}

#[test]
fn jpeg_mpf_single_image_is_not_hdr() {
    let meta = b"urn:com:apple:photo:2020:aux:hdrgainmap";
    let jpeg = mpf_test_jpeg(&fake_aux_image(meta), 1, true);
    assert!(!detect_hdr_inner(&jpeg).is_hdr);
}

#[test]
fn jpeg_mpf_zero_size_scans_tail() {
    let meta = b"urn:com:apple:photo:2020:aux:hdrgainmap";
    let jpeg = mpf_test_jpeg(&fake_aux_image(meta), 2, false);
    let info = detect_hdr_inner(&jpeg);
    assert!(info.is_hdr && info.kind == "apple-gainmap");
}

#[test]
fn jpeg_mpf_truncation_is_safe() {
    let meta = b"urn:com:apple:photo:2020:aux:hdrgainmap";
    let jpeg = mpf_test_jpeg(&fake_aux_image(meta), 2, true);
    let full = jpeg.len();
    for cut in [8usize, 20, 40, full / 2, full - 1] {
        let _ = detect_hdr_inner(&jpeg[..cut.min(full)]);
    }
    for shrink in [8usize, 9, 10, 12] {
        let _ = detect_hdr_inner(&jpeg[..full - shrink]);
    }
}

#[test]
fn png_cicp_hlg_kind() {
    let png = png_with_chunks(&[png_chunk(b"cICP", &[9, 18, 9, 1])]);
    let info = detect_hdr_inner(&png);
    assert!(info.is_hdr && info.kind == "png-hlg");
}

#[test]
fn png_static_hdr_metadata_is_hdr() {
    for typ in [b"mDCv", b"cLLi"] {
        let png = png_with_chunks(&[png_chunk(typ, &[0; 4])]);
        let info = detect_hdr(png);
        assert!(info.is_hdr && info.kind == "png-static-hdr");
    }
}

#[test]
fn png_metadata_behind_image_data_does_not_count() {
    let mut png = png_with_chunks(&[]);
    let at = png.len() - 12;
    png.splice(at..at, png_chunk(b"cICP", &[9, 16, 0, 1]));
    let info = detect_hdr_inner(&png);
    assert!(!info.is_hdr && info.kind.is_empty());
}

#[test]
fn bmff_tone_map_item_and_iso_urn_are_hdr() {
    for text in [b"tmap".as_slice(), b"urn:iso:std:iso:ts:21496:-1".as_slice()] {
        let mut raw = Vec::new();
        raw.extend_from_slice(&16u32.to_be_bytes());
        raw.extend_from_slice(b"ftypheic");
        raw.extend_from_slice(&0u32.to_be_bytes());
        let payload = [b"\0\0\0\0".as_slice(), text].concat();
        raw.extend_from_slice(&((payload.len() + 8) as u32).to_be_bytes());
        raw.extend_from_slice(b"meta");
        raw.extend_from_slice(&payload);
        let info = detect_hdr_inner(&raw);
        assert!(info.is_hdr && info.kind == "iso-21496-1");
    }
}

#[test]
fn jpeg_segment_beyond_the_search_limit_does_not_count() {
    // 17 full segments reach beyond the first MiB
    let mut jpeg = vec![0xFF, 0xD8];
    for _ in 0..17 {
        jpeg.extend_from_slice(&[0xFF, 0xE0, 0xFF, 0xFF]);
        jpeg.extend_from_slice(&vec![0u8; 65533]);
    }
    let near = jpeg.clone();
    jpeg.extend_from_slice(&[0xFF, 0xE1, 0x00, 0x08]);
    jpeg.extend_from_slice(b"hdrgm:");
    assert!(!detect_hdr_inner(&jpeg).is_hdr);
    let mut early = near;
    early.splice(2..2, [0xFF, 0xE1, 0x00, 0x08, b'h', b'd', b'r', b'g', b'm', b':']);
    assert_eq!(detect_hdr_inner(&early).kind, "jpeg-gainmap");
}

#[test]
fn png_image_data_is_no_metadata() {
    let mut png = vec![0x89, b'P', b'N', b'G', 0x0D, 0x0A, 0x1A, 0x0A];
    png.extend_from_slice(&png_chunk(b"IHDR", &[0; 13]));
    png.extend_from_slice(&png_chunk(b"IDAT", b"hdrgm:\0\0"));
    png.extend_from_slice(&png_chunk(b"IEND", &[]));
    let info = detect_hdr_inner(&png);
    assert!(!info.is_hdr);
    assert_eq!(info.kind, "");
    // the same bytes in a chunk of text do tell
    let png = png_with_chunks(&[png_chunk(b"tEXt", b"hdrgm:\0\0")]);
    assert_eq!(detect_hdr_inner(&png).kind, "png-gainmap");
}

#[test]
fn png_trailer_is_searched() {
    let sig = [0x89, b'P', b'N', b'G', 0x0D, 0x0A, 0x1A, 0x0A];
    let png = [&sig[..], &png_chunk(b"IEND", b"hdrgm:")].concat();
    assert_eq!(detect_hdr_inner(&png).kind, "png-gainmap");
    let behind = [&sig[..], &png_chunk(b"IEND", b""), &png_chunk(b"tEXt", b"hdrgm:")].concat();
    assert!(!detect_hdr_inner(&behind).is_hdr);
}
