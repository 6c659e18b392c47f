use picseal::blend::Mask;
use picseal::codec::PngHeader;
use picseal::composite::{
    assemble_file, blended_samples, check_chunks, composite_png, frame_size, png_composite,
};
use picseal::detect::detect_hdr_inner;
use picseal::png_file::{
    parse_png_chunks, png_primaries, png_transfer, write_chunk, PngPrimaries, PngTransfer,
};
use picseal::tags::PNG_SIG;
use picseal::watermark::watermark_codes;

fn srgb_to_linear(v: f64) -> f64 {
    if v <= 0.04045 {
        v / 12.92
    } else {
        ((v + 0.055) / 1.055).powf(2.4)
    }
}

fn pq_oetf(nits: f64) -> f64 {
    let m1 = 2610.0 / 16384.0;
    let m2 = 2523.0 / 4096.0 * 128.0;
    let (c1, c2, c3) = (3424.0 / 4096.0, 2413.0 / 4096.0 * 32.0, 2392.0 / 4096.0 * 32.0);
    let ym = (nits / 10000.0f64).max(0.0).powf(m1);
    ((c1 + c2 * ym) / (1.0 + c3 * ym)).powf(m2)
}

fn hlg_oetf(e: f64) -> f64 {
    if e <= 1.0 / 12.0 {
        (3.0 * e).sqrt()
    } else {
        0.17883277 * (12.0 * e - 0.28466892).ln() + 0.55991073
    }
}

fn hlg_inverse_oetf(v: f64) -> f64 {
    if v <= 0.5 {
        v * v / 3.0
    } else {
        (((v - 0.55991073) / 0.17883277).exp() + 0.28466892) / 12.0
    }
}

fn target_matrix(p: PngPrimaries) -> [[f64; 3]; 3] {
    match p {
        PngPrimaries::Bt709 => [[1.0, 0.0, 0.0], [0.0, 1.0, 0.0], [0.0, 0.0, 1.0]],
        PngPrimaries::P3 => [
            [0.822462, 0.177538, 0.0],
            [0.033194, 0.966806, 0.0],
            [0.017083, 0.072397, 0.910520],
        ],
        PngPrimaries::Bt2020 => [
            [0.627404, 0.329283, 0.0433136],
            [0.069097, 0.919540, 0.0113623],
            [0.0163916, 0.0880132, 0.895595],
        ],
    }
}

fn curve(px: [u8; 3], transfer: PngTransfer, primaries: PngPrimaries, sixteen: bool) -> [u32; 3] {
    let scale = if sixteen { 65535.0 } else { 255.0 };
    let m = target_matrix(primaries);
    let lin = px.map(|v| srgb_to_linear(v as f64 / 255.0));
    let mut out = [0u32; 3];
    for c in 0..3 {
        let rel = m[c][0] * lin[0] + m[c][1] * lin[1] + m[c][2] * lin[2];
        let norm = match transfer {
            PngTransfer::Pq => pq_oetf(rel * 203.0),
            PngTransfer::Hlg => hlg_oetf(rel * hlg_inverse_oetf(0.75)),
            PngTransfer::Sdr => 0.0,
        };
        out[c] = (norm * scale + 0.5f64).floor() as u32;
    }
    out
}

fn codes(px: [u8; 3], transfer: PngTransfer, primaries: PngPrimaries, sixteen: bool) -> [u32; 3] {
    watermark_codes(px, transfer, primaries, sixteen, &curve)
}

fn composite(
    original: &[u8],
    mask: &[u8],
    mask_w: usize,
    mask_h: usize,
    off_x: usize,
    off_y: usize,
) -> Result<Vec<u8>, String> {
    png_composite(original, mask, mask_w, mask_h, off_x, off_y, &curve)
}

fn encode_test_png(w: u32, h: u32, sixteen: bool, rgba: bool, fill: u16) -> Vec<u8> {
    let mut data = Vec::new();
    let channels = if rgba { 4u8 } else { 3u8 };
    for _ in 0..(w * h) {
        for c in 0..channels as u16 {
            if sixteen {
                data.extend_from_slice(&(fill + c).to_be_bytes());
            } else {
                data.push((fill + c) as u8);
            }
        }
    }
    let mut out = Vec::new();
    {
        let mut encoder = png::Encoder::new(&mut out, w, h);
        encoder.set_color(if rgba { png::ColorType::Rgba } else { png::ColorType::Rgb });
        encoder.set_depth(if sixteen { png::BitDepth::Sixteen } else { png::BitDepth::Eight });
        let mut writer = encoder.write_header().unwrap();
        writer.write_image_data(&data).unwrap();
    }
    out
}

#[test]
fn png16_endianness_roundtrip() {
    // the codec keeps 16-bit samples in file byte order, so 0x1234 comes back as it is
    let src = encode_test_png(2, 2, true, false, 0x1234);
    let decoder = png::Decoder::new(std::io::Cursor::new(&src));
    let mut reader = decoder.read_info().unwrap();
    let mut buf = vec![0u8; reader.output_buffer_size().unwrap()];
    let info = reader.next_frame(&mut buf).unwrap();
    buf.truncate(info.buffer_size());
    assert_eq!(info.bit_depth, png::BitDepth::Sixteen);
    let first = u16::from_be_bytes([buf[0], buf[1]]);
    assert_eq!(first, 0x1234, "png crate 16bit samples stay in file byte order (big-endian)");
}

#[test]
fn png_composite_8bit_rgba() {
    let src = encode_test_png(8, 8, false, true, 100);
    // an opaque white 4x4 mask at (2, 2)
    let mask = vec![255u8; 4 * 4 * 4];
    let out = composite(&src, &mask, 4, 4, 2, 2).unwrap();
    // decode the result
    let decoder = png::Decoder::new(std::io::Cursor::new(&out));
    let mut reader = decoder.read_info().unwrap();
    let mut buf = vec![0u8; reader.output_buffer_size().unwrap()];
    let info = reader.next_frame(&mut buf).unwrap();
    buf.truncate(info.buffer_size());
    assert_eq!(info.color_type, png::ColorType::Rgba);
    // (3, 3) lies under the mask and is white; (0, 0) does not and keeps 100
    let px = |x: usize, y: usize| (y * 8 + x) * 4;
    assert_eq!(&buf[px(3, 3)..px(3, 3) + 3], &[255, 255, 255]);
    assert_eq!(buf[px(0, 0)], 100);
    // a red mask of alpha 128
    let mut mask2 = vec![0u8; 2 * 1 * 4];
    mask2[0..4].copy_from_slice(&[255, 0, 0, 128]);
    mask2[4..8].copy_from_slice(&[0, 0, 255, 64]);
    let out2 = composite(&src, &mask2, 2, 1, 0, 0).unwrap();
    let decoder2 = png::Decoder::new(std::io::Cursor::new(&out2));
    let mut reader2 = decoder2.read_info().unwrap();
    let mut buf2 = vec![0u8; reader2.output_buffer_size().unwrap()];
    reader2.next_frame(&mut buf2).unwrap();
    // red: (100*127 + 255*128 + 127)/255 = 178; green: (100*127 + 127)/255 = 50
    assert_eq!(buf2[0], 178, "alpha=128 blend red");
    assert_eq!(buf2[1], 50, "alpha=128 blend green");
}

#[test]
fn png_composite_rejects_palette_and_apng() {
    let indexed = encode_test_png(4, 4, false, false, 10);
    // an animation control chunk makes it an animated PNG
    let mut apng = indexed.clone();
    // insert acTL before IEND
    let iend_pos = apng.len() - 12;
    let mut actl = Vec::new();
    write_chunk(&mut actl, b"acTL", &[0, 0, 0, 1, 0, 0, 0, 0]);
    apng.splice(iend_pos..iend_pos, actl);
    let mask = vec![0u8; 4];
    assert!(composite(&apng, &mask, 1, 1, 0, 0).is_err());
    // an indexed image
    let mut out = Vec::new();
    {
        let mut encoder = png::Encoder::new(&mut out, 2, 2);
        encoder.set_color(png::ColorType::Indexed);
        encoder.set_depth(png::BitDepth::Eight);
        encoder.set_palette(vec![255, 0, 0, 0, 255, 0]);
        let mut writer = encoder.write_header().unwrap();
        writer.write_image_data(&[0, 1, 1, 0]).unwrap();
    }
    assert!(composite(&out, &mask, 1, 1, 0, 0).is_err());
}

#[test]
fn png_composite_geometry_expand() {
    // 4-bit gray becomes 8-bit, and the new header says so
    let mut src4 = Vec::new();
    {
        let mut encoder = png::Encoder::new(&mut src4, 4, 4);
        encoder.set_color(png::ColorType::Grayscale);
        encoder.set_depth(png::BitDepth::Four);
        let mut writer = encoder.write_header().unwrap();
        writer.write_image_data(&[0x12, 0x34, 0x56, 0x78, 0x9A, 0xBC, 0xDE, 0xF0]).unwrap();
    }
    let mask = vec![255u8; 2 * 2 * 4];
    let composited = composite(&src4, &mask, 2, 2, 0, 0).unwrap();
    let chunks = parse_png_chunks(&composited).unwrap();
    let ihdr = chunks.iter().find(|c| c.typ == *b"IHDR").unwrap();
    assert_eq!(ihdr.data[8], 8, "4bit gray must expand to 8bit in output IHDR");
    let decoder = png::Decoder::new(std::io::Cursor::new(&composited));
    let mut reader = decoder.read_info().unwrap();
    let mut buf = vec![0u8; reader.output_buffer_size().unwrap()];
    reader.next_frame(&mut buf).unwrap();

    // RGB with tRNS stays RGB, and tRNS is passed on
    let mut src_trns = Vec::new();
    {
        let mut encoder = png::Encoder::new(&mut src_trns, 2, 2);
        encoder.set_color(png::ColorType::Rgb);
        encoder.set_depth(png::BitDepth::Eight);
        encoder.set_trns(vec![255, 0, 0]);
        let mut writer = encoder.write_header().unwrap();
        writer.write_image_data(&[255, 0, 0, 0, 255, 0, 0, 0, 255, 1, 2, 3]).unwrap();
    }
    let mask2 = vec![0u8; 1 * 1 * 4];
    let out2 = composite(&src_trns, &mask2, 1, 1, 0, 0).unwrap();
    let chunks2 = parse_png_chunks(&out2).unwrap();
    let ihdr2 = chunks2.iter().find(|c| c.typ == *b"IHDR").unwrap();
    assert_eq!(ihdr2.data[9], 2, "RGB+tRNS must stay RGB (crate does not expand tRNS)");
    let src_trns_chunk = parse_png_chunks(&src_trns).unwrap().into_iter().find(|c| c.typ == *b"tRNS").unwrap();
    let out_trns_chunk = chunks2.iter().find(|c| c.typ == *b"tRNS").expect("tRNS must pass through");
    assert_eq!(out_trns_chunk.data, src_trns_chunk.data, "tRNS must be byte-identical");
    let decoder2 = png::Decoder::new(std::io::Cursor::new(&out2));
    let mut reader2 = decoder2.read_info().unwrap();
    let mut buf2 = vec![0u8; reader2.output_buffer_size().unwrap()];
    reader2.next_frame(&mut buf2).unwrap();
}

#[test]
fn png_composite_extends_canvas_below() {
    // the mask lies below an 8x8 image: the result is 8x12, white with the mask over it
    let src = encode_test_png(8, 8, false, true, 100);
    let (mw, mh) = (8usize, 4usize);
    let mut mask = vec![0u8; mw * mh * 4];
    // the first row is opaque white, the others are transparent
    for x in 0..mw {
        mask[x * 4..x * 4 + 4].copy_from_slice(&[255, 255, 255, 255]);
    }
    let out = composite(&src, &mask, mw, mh, 0, 8).unwrap();
    let decoder = png::Decoder::new(std::io::Cursor::new(&out));
    let mut reader = decoder.read_info().unwrap();
    let mut buf = vec![0u8; reader.output_buffer_size().unwrap()];
    let info = reader.next_frame(&mut buf).unwrap();
    buf.truncate(info.buffer_size());
    assert_eq!((info.width, info.height), (8, 12), "canvas must extend below");
    // row 8 is the first row of the mask
    let row8 = 8 * 8 * 4;
    assert_eq!(&buf[row8..row8 + 3], &[255, 255, 255]);
    // row 9 is transparent, so it has the white of the extension
    let row9 = 9 * 8 * 4;
    assert_eq!(&buf[row9..row9 + 3], &[255, 255, 255]);
    // row 7 is the last row of the image and stays
    let row7 = 7 * 8 * 4;
    assert_eq!(buf[row7], 100);
}

fn with_cicp(png: Vec<u8>, data: [u8; 4]) -> Vec<u8> {
    let chunks = parse_png_chunks(&png).unwrap();
    let mut out = Vec::new();
    out.extend_from_slice(&PNG_SIG);
    for c in &chunks {
        write_chunk(&mut out, &c.typ, c.data);
        if c.typ == *b"IHDR" {
            write_chunk(&mut out, b"cICP", &data);
        }
    }
    out
}

fn decode_png_buf(data: &[u8]) -> (png::OutputInfo, Vec<u8>) {
    let decoder = png::Decoder::new(std::io::Cursor::new(data));
    let mut reader = decoder.read_info().unwrap();
    let mut buf = vec![0u8; reader.output_buffer_size().unwrap()];
    let info = reader.next_frame(&mut buf).unwrap();
    buf.truncate(info.buffer_size());
    (info, buf)
}

#[test]
fn pq_oetf_203nit_reference() {
    let v = pq_oetf(203.0);
    assert!((v - 0.5806888810416109).abs() < 1e-9, "{v}");
    // achromatic invariant: white maps to 203-nit PQ in every primaries set
    for p in [PngPrimaries::Bt709, PngPrimaries::P3, PngPrimaries::Bt2020] {
        assert_eq!(codes([255; 3], PngTransfer::Pq, p, false), [148; 3]);
        assert_eq!(codes([255; 3], PngTransfer::Pq, p, true), [38055; 3]);
    }
    assert_eq!(codes([255; 3], PngTransfer::Sdr, PngPrimaries::Bt2020, false), [255; 3]);
    assert_eq!(codes([255; 3], PngTransfer::Sdr, PngPrimaries::Bt2020, true), [65535; 3]);
    // saturated red: primaries conversion must be applied (sRGB -> target)
    assert_eq!(codes([255, 0, 0], PngTransfer::Pq, PngPrimaries::Bt2020, true), [34900, 21431, 14422]);
    assert_eq!(codes([255, 0, 0], PngTransfer::Pq, PngPrimaries::P3, true), [36723, 17660, 14601]);
    assert_eq!(codes([35; 3], PngTransfer::Pq, PngPrimaries::Bt2020, true), [14530; 3]);
}

#[test]
fn png_composite_pq_watermark_maps_to_203nit() {
    let src = with_cicp(encode_test_png(2, 2, true, false, 100), [9, 16, 9, 1]);
    let mut mask = vec![0u8; 2 * 4];
    mask[0..4].copy_from_slice(&[255, 255, 255, 255]);
    mask[4..8].copy_from_slice(&[255, 0, 0, 128]);
    let out = composite(&src, &mask, 2, 1, 0, 0).unwrap();
    let (info, buf) = decode_png_buf(&out);
    assert_eq!(info.bit_depth, png::BitDepth::Sixteen);
    let ch = |x: usize, y: usize, c: usize| {
        let i = (y * 2 + x) * 6 + c * 2;
        u32::from(u16::from_be_bytes([buf[i], buf[i + 1]]))
    };
    assert_eq!(ch(0, 0, 0), 38055, "opaque white -> 203nit PQ code");
    assert_eq!((ch(1, 0, 0), ch(1, 0, 1), ch(1, 0, 2)), (17568, 10808, 7290), "alpha blend uses sRGB->BT.2020 mapped codes");
    assert_eq!(ch(1, 1, 0), 100, "untouched pixel unchanged");
    assert!(parse_png_chunks(&out).unwrap().iter().any(|c| c.typ == *b"cICP" && c.data == [9, 16, 0, 1]), "cICP matrix normalized to 0");
}

#[test]
fn hlg_reference_white_at_75_percent() {
    assert!((hlg_oetf(hlg_inverse_oetf(0.75)) - 0.75).abs() < 1e-9);
    // achromatic invariant: reference white maps to the 75% HLG signal
    for p in [PngPrimaries::Bt709, PngPrimaries::P3, PngPrimaries::Bt2020] {
        assert_eq!(codes([255; 3], PngTransfer::Hlg, p, true), [49151; 3]);
        assert_eq!(codes([255; 3], PngTransfer::Hlg, p, false), [191; 3]);
    }
    assert_eq!(codes([35; 3], PngTransfer::Hlg, PngPrimaries::Bt2020, true), [7575; 3]);
    assert_eq!(codes([255, 0, 0], PngTransfer::Hlg, PngPrimaries::Bt2020, true), [42983, 15359, 7481]);
    assert_eq!(codes([255, 0, 0], PngTransfer::Hlg, PngPrimaries::P3, true), [46609, 10645, 7637]);
}

#[test]
fn png_composite_hlg_watermark_maps_reference_white() {
    let src = with_cicp(encode_test_png(2, 2, true, false, 100), [9, 18, 9, 1]);
    let mut mask = vec![0u8; 2 * 4];
    mask[0..4].copy_from_slice(&[255, 255, 255, 255]);
    mask[4..8].copy_from_slice(&[255, 0, 0, 128]);
    let out = composite(&src, &mask, 2, 1, 0, 0).unwrap();
    let (info, buf) = decode_png_buf(&out);
    assert_eq!(info.bit_depth, png::BitDepth::Sixteen);
    let ch = |x: usize, y: usize, c: usize| {
        let i = (y * 2 + x) * 6 + c * 2;
        u32::from(u16::from_be_bytes([buf[i], buf[i + 1]]))
    };
    assert_eq!(ch(0, 0, 0), 49151, "opaque white -> 75% HLG signal");
    assert_eq!((ch(1, 0, 0), ch(1, 0, 1), ch(1, 0, 2)), (21626, 7760, 3806), "alpha blend uses sRGB->BT.2020 mapped codes");
    assert_eq!(ch(1, 1, 0), 100, "untouched pixel unchanged");
    assert!(parse_png_chunks(&out).unwrap().iter().any(|c| c.typ == *b"cICP" && c.data == [9, 18, 0, 1]), "cICP matrix normalized to 0");
}

#[test]
fn png_composite_hlg_extension_fills_reference_white() {
    let src = with_cicp(encode_test_png(2, 2, true, false, 100), [9, 18, 9, 1]);
    let mask = vec![0u8; 2 * 2 * 4];
    let out = composite(&src, &mask, 2, 2, 0, 2).unwrap();
    let (info, buf) = decode_png_buf(&out);
    assert_eq!((info.width, info.height), (2, 4));
    let ch = |x: usize, y: usize, c: usize| {
        let i = (y * 2 + x) * 6 + c * 2;
        u32::from(u16::from_be_bytes([buf[i], buf[i + 1]]))
    };
    for y in 2..4 {
        for x in 0..2 {
            for c in 0..3 {
                assert_eq!(ch(x, y, c), 49151, "extension row must be 75% HLG reference white");
            }
        }
    }
}

#[test]
fn png_composite_hlg_bt709_primaries() {
    let src = with_cicp(encode_test_png(1, 1, false, false, 100), [1, 18, 9, 1]);
    let mask = vec![255u8; 4];
    let out = composite(&src, &mask, 1, 1, 0, 0).unwrap();
    let (_, buf) = decode_png_buf(&out);
    assert_eq!(buf[0], 191, "BT.709-primaries HLG still maps reference white to 75% signal");
}

#[test]
fn png_composite_pq_extension_fills_203nit() {
    let src = with_cicp(encode_test_png(2, 2, true, false, 100), [9, 16, 9, 1]);
    let mask = vec![0u8; 2 * 2 * 4];
    let out = composite(&src, &mask, 2, 2, 0, 2).unwrap();
    let (info, buf) = decode_png_buf(&out);
    assert_eq!((info.width, info.height), (2, 4));
    let ch = |x: usize, y: usize, c: usize| {
        let i = (y * 2 + x) * 6 + c * 2;
        u32::from(u16::from_be_bytes([buf[i], buf[i + 1]]))
    };
    for y in 2..4 {
        for x in 0..2 {
            for c in 0..3 {
                assert_eq!(ch(x, y, c), 38055, "extension row must be 203nit PQ white");
            }
        }
    }
    assert_eq!(ch(0, 0, 0), 100, "photo rows unchanged");
}

fn error_of(original: &[u8], mask: &[u8], mask_w: usize, mask_h: usize, off_x: usize) -> String {
    composite(original, mask, mask_w, mask_h, off_x, 0).unwrap_err()
}

fn png_of(chunks: &[(&[u8; 4], &[u8])]) -> Vec<u8> {
    let mut out = PNG_SIG.to_vec();
    for (typ, data) in chunks {
        write_chunk(&mut out, typ, data);
    }
    out
}

#[test]
fn composite_errors_are_named() {
    let src = encode_test_png(4, 4, false, false, 10);
    assert_eq!(error_of(b"GIF89a..", &[0; 4], 1, 1, 0), "not a PNG");
    assert_eq!(error_of(&src[..46], &[0; 4], 1, 1, 0), "truncated PNG chunk");
    assert_eq!(error_of(&src[..33], &[0; 4], 1, 1, 0), "truncated PNG");
    assert_eq!(error_of(&png_of(&[(b"IEND", &[])]), &[0; 4], 1, 1, 0), "missing IHDR");
    let short = png_of(&[(b"IHDR", &[0; 12]), (b"IEND", &[])]);
    assert_eq!(error_of(&short, &[0; 4], 1, 1, 0), "bad IHDR");
    let palette = png_of(&[(b"IHDR", &[0, 0, 0, 1, 0, 0, 0, 1, 8, 3, 0, 0, 0]), (b"IEND", &[])]);
    assert_eq!(error_of(&palette, &[0; 4], 1, 1, 0), "palette PNG not supported");
    let apng = png_of(&[
        (b"IHDR", &[0, 0, 0, 1, 0, 0, 0, 1, 8, 2, 0, 0, 0]),
        (b"acTL", &[0; 8]),
        (b"IEND", &[]),
    ]);
    assert_eq!(error_of(&apng, &[0; 4], 1, 1, 0), "APNG not supported");
    assert_eq!(error_of(&src, &[0; 15], 2, 2, 0), "mask buffer too small");
    assert_eq!(error_of(&src, &[0; 16], 2, 2, 3), "mask wider than image");
    let no_width = png_of(&[(b"IHDR", &[0, 0, 0, 0, 0, 0, 0, 1, 8, 2, 0, 0, 0]), (b"IEND", &[])]);
    assert!(error_of(&no_width, &[0; 4], 1, 1, 0).starts_with("decode: "));
    // the header reads, the image data do not
    let broken = png_of(&[
        (b"IHDR", &[0, 0, 0, 1, 0, 0, 0, 1, 8, 2, 0, 0, 0]),
        (b"IDAT", &[1, 2, 3, 4]),
        (b"IEND", &[]),
    ]);
    assert!(error_of(&broken, &[0; 4], 1, 1, 0).starts_with("decode: "));
}

#[test]
fn ancillary_chunks_pass_through() {
    let src = with_cicp(encode_test_png(3, 2, false, true, 7), [9, 1, 9, 1]);
    let mut parts = parse_png_chunks(&src).unwrap();
    let at = parts.len() - 1;
    let text = b"Comment\0kept".to_vec();
    parts.insert(at, picseal::png_file::PngChunk { typ: *b"tEXt", data: &text });
    let mut with_text = PNG_SIG.to_vec();
    for c in &parts {
        write_chunk(&mut with_text, &c.typ, c.data);
    }
    let out = composite_png(with_text, vec![0u8; 4], 1, 1, 0, 0, &curve).unwrap();
    let chunks = parse_png_chunks(&out).unwrap();
    let types: Vec<[u8; 4]> = chunks.iter().map(|c| c.typ).collect();
    assert_eq!(&types[..3], &[*b"IHDR", *b"cICP", *b"tEXt"]);
    assert_eq!(types.last(), Some(b"IEND"));
    assert!(types[3..types.len() - 1].iter().all(|t| t == b"IDAT"));
    assert_eq!(chunks[1].data, &[9, 1, 0, 1]);
    assert_eq!(chunks[2].data, text.as_slice());
    // an invisible mask leaves every sample as it was
    assert_eq!(decode_png_buf(&out).1, decode_png_buf(&src_without_matrix(&src)).1);
}

fn src_without_matrix(src: &[u8]) -> Vec<u8> {
    let mut out = PNG_SIG.to_vec();
    for c in parse_png_chunks(src).unwrap() {
        let mut data = c.data.to_vec();
        if c.typ == *b"cICP" {
            data[2] = 0;
        }
        write_chunk(&mut out, &c.typ, &data);
    }
    out
}

fn gray_alpha_png(pixel: [u8; 2]) -> Vec<u8> {
    let mut src = Vec::new();
    {
        let mut encoder = png::Encoder::new(&mut src, 1, 1);
        encoder.set_color(png::ColorType::GrayscaleAlpha);
        encoder.set_depth(png::BitDepth::Eight);
        let mut writer = encoder.write_header().unwrap();
        writer.write_image_data(&pixel).unwrap();
    }
    src
}

#[test]
fn gray_target_takes_mask_luma() {
    let src = gray_alpha_png([10, 20]);
    let out = composite(&src, &[200, 100, 50, 255], 1, 1, 0, 0).unwrap();
    // (200 * 77 + 100 * 150 + 50 * 29) >> 8 = 124; the pixel is opaque then
    assert_eq!(decode_png_buf(&out).1, vec![124, 255]);
    let out = composite(&src, &[200, 100, 50, 128], 1, 1, 0, 0).unwrap();
    assert_eq!(decode_png_buf(&out).1, vec![67, 138]);
}

#[test]
fn marks_make_pixels_more_opaque() {
    let src = encode_test_png(1, 1, false, true, 100);
    assert_eq!(decode_png_buf(&src).1[3], 103);
    let out = composite(&src, &[1, 2, 3, 255], 1, 1, 0, 0).unwrap();
    assert_eq!(decode_png_buf(&out).1, vec![1, 2, 3, 255]);
    let out = composite(&src, &[1, 2, 3, 51], 1, 1, 0, 0).unwrap();
    assert_eq!(decode_png_buf(&out).1[3], 133);
}

#[test]
fn marks_leave_opaque_pixels_opaque() {
    let mut src = Vec::new();
    {
        let mut encoder = png::Encoder::new(&mut src, 1, 1);
        encoder.set_color(png::ColorType::Rgba);
        encoder.set_depth(png::BitDepth::Eight);
        let mut writer = encoder.write_header().unwrap();
        writer.write_image_data(&[10, 20, 30, 255]).unwrap();
    }
    let out = composite(&src, &[0, 0, 0, 255], 1, 1, 0, 0).unwrap();
    assert_eq!(decode_png_buf(&out).1, vec![0, 0, 0, 255]);
    let out = composite(&src, &[0, 0, 0, 128], 1, 1, 0, 0).unwrap();
    assert_eq!(decode_png_buf(&out).1[3], 255);
}

#[test]
fn extension_of_a_gray_hdr_image_is_opaque() {
    let src = with_cicp(gray_alpha_png([10, 20]), [9, 16, 0, 1]);
    let out = composite(&src, &[9, 9, 9, 0], 1, 1, 0, 1).unwrap();
    assert_eq!(decode_png_buf(&out).1, vec![10, 20, 148, 255]);
}

#[test]
fn colors_of_invisible_pixels_change_nothing() {
    let src = encode_test_png(2, 2, true, true, 100);
    let plain = composite(&src, &[1, 2, 3, 0, 7, 8, 9, 200], 2, 1, 0, 1).unwrap();
    let other = composite(&src, &[99, 98, 97, 0, 7, 8, 9, 200, 55], 2, 1, 0, 1).unwrap();
    assert_eq!(plain, other);
}

#[test]
fn codes_from_the_curve_are_cut_off() {
    let wild = |_: [u8; 3], _: PngTransfer, _: PngPrimaries, _: bool| [70000u32, 256, 5];
    let hdr = watermark_codes([1, 2, 3], PngTransfer::Pq, PngPrimaries::P3, false, &wild);
    assert_eq!(hdr, [255, 255, 5]);
    let hdr16 = watermark_codes([1, 2, 3], PngTransfer::Hlg, PngPrimaries::P3, true, &wild);
    assert_eq!(hdr16, [65535, 256, 5]);
    let sdr = watermark_codes([1, 2, 3], PngTransfer::Sdr, PngPrimaries::P3, true, &wild);
    assert_eq!(sdr, [257, 514, 771]);
}

#[test]
fn hdr_kind_and_transfer_are_kept() {
    for (code, kind) in [(16u8, "png-pq"), (18, "png-hlg")] {
        let src = with_cicp(encode_test_png(2, 2, true, false, 100), [12, code, 9, 1]);
        assert_eq!(detect_hdr_inner(&src).kind, kind);
        let out = composite(&src, &[1, 2, 3, 255], 1, 1, 0, 0).unwrap();
        assert_eq!(detect_hdr_inner(&out).kind, kind);
        let (old, new) = (parse_png_chunks(&src).unwrap(), parse_png_chunks(&out).unwrap());
        assert_eq!(png_transfer(&new), png_transfer(&old));
        assert_eq!(png_primaries(&new), PngPrimaries::P3);
    }
    let plain = composite(&encode_test_png(2, 2, false, false, 9), &[1, 2, 3, 255], 1, 1, 0, 0);
    assert!(!detect_hdr_inner(&plain.unwrap()).is_hdr);
}

#[test]
fn steps_around_the_codec_are_exact() {
    // before decoding: what the decoder is asked for
    let mask = |left: usize, pixels: &'static [u8]| Mask { pixels, width: 1, height: 1, left, top: 0 };
    let header = |size| PngHeader { width: 2, height: 1, color: 0, depth: 8, size };
    assert_eq!(frame_size(&header(Some(2)), &mask(1, &[9; 4])), Ok(2));
    let error = |h: &PngHeader, m: &Mask| frame_size(h, m).unwrap_err();
    assert_eq!(error(&header(None), &mask(1, &[9; 4])), "bad PNG geometry");
    assert_eq!(error(&header(Some(2)), &mask(1, &[9; 3])), "mask buffer too small");
    assert_eq!(error(&header(Some(2)), &mask(2, &[9; 4])), "mask wider than image");
    // between decoding and encoding: the samples
    let over = mask(1, &[255, 255, 255, 255]);
    assert_eq!(blended_samples(&[], &header(Some(2)), &[7, 8], &over, &curve), vec![7, 255]);
    // behind encoding: the file
    let kept = png_of(&[(b"tEXt", b"hi"), (b"IDAT", b"old"), (b"IEND", b"")]);
    let chunks = parse_png_chunks(&kept).unwrap();
    let ihdr = [0, 0, 0, 2, 0, 0, 0, 1, 8, 0, 0, 0, 0];
    let encoded = png_of(&[(b"IHDR", &ihdr), (b"IDAT", b"new"), (b"fdAT", b"x"), (b"IEND", b"")]);
    let want = png_of(&[(b"IHDR", &ihdr), (b"tEXt", b"hi"), (b"IDAT", b"new"), (b"IEND", b"")]);
    assert_eq!(assemble_file(&chunks, &encoded), Ok(want));
    assert_eq!(assemble_file(&chunks, b"?"), Err("not a PNG".to_string()));
    assert_eq!(assemble_file(&chunks, &kept), Err("encoder produced no IHDR".to_string()));
    assert_eq!(check_chunks(&chunks), Err("missing IHDR".to_string()));
}
