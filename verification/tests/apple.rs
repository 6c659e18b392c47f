use picseal::apple::{
    apple_hdr_compose_inner, apple_hdr_compose_png, apple_hdr_iso_gainmap,
    apple_hdr_iso_gainmap_inner, four_gains,
};
use picseal::detect::detect_hdr_inner;
use picseal::png_file::{parse_png_chunks, PngPrimaries, PngTransfer};

fn srgb_to_linear(v: f64) -> f64 {
    if v <= 0.04045 {
        v / 12.92
    } else {
        ((v + 0.055) / 1.055).powf(2.4)
    }
}

fn pq_oetf(nits: f64) -> f64 {
    let m1 = 2610.0 / 16384.0;
    let m2 = 2523.0 / 4096.0 * 128.0;
    let (c1, c2, c3) = (3424.0 / 4096.0, 2413.0 / 4096.0 * 32.0, 2392.0 / 4096.0 * 32.0);
    let ym = (nits / 10000.0f64).max(0.0).powf(m1);
    ((c1 + c2 * ym) / (1.0 + c3 * ym)).powf(m2)
}

fn hlg_oetf(e: f64) -> f64 {
    if e <= 1.0 / 12.0 {
        (3.0 * e).sqrt()
    } else {
        0.17883277 * (12.0 * e - 0.28466892).ln() + 0.55991073
    }
}

fn hlg_inverse_oetf(v: f64) -> f64 {
    if v <= 0.5 {
        v * v / 3.0
    } else {
        (((v - 0.55991073) / 0.17883277).exp() + 0.28466892) / 12.0
    }
}

fn target_matrix(p: PngPrimaries) -> [[f64; 3]; 3] {
    match p {
        PngPrimaries::Bt709 => [[1.0, 0.0, 0.0], [0.0, 1.0, 0.0], [0.0, 0.0, 1.0]],
        PngPrimaries::P3 => [
            [0.822462, 0.177538, 0.0],
            [0.033194, 0.966806, 0.0],
            [0.017083, 0.072397, 0.910520],
        ],
        PngPrimaries::Bt2020 => [
            [0.627404, 0.329283, 0.0433136],
            [0.069097, 0.919540, 0.0113623],
            [0.0163916, 0.0880132, 0.895595],
        ],
    }
}

fn curve(px: [u8; 3], transfer: PngTransfer, primaries: PngPrimaries, sixteen: bool) -> [u32; 3] {
    let scale = if sixteen { 65535.0 } else { 255.0 };
    let m = target_matrix(primaries);
    let lin = px.map(|v| srgb_to_linear(v as f64 / 255.0));
    let mut out = [0u32; 3];
    for c in 0..3 {
        let rel = m[c][0] * lin[0] + m[c][1] * lin[1] + m[c][2] * lin[2];
        let norm = match transfer {
            PngTransfer::Pq => pq_oetf(rel * 203.0),
            PngTransfer::Hlg => hlg_oetf(rel * hlg_inverse_oetf(0.75)),
            PngTransfer::Sdr => 0.0,
        };
        out[c] = (norm * scale + 0.5f64).floor() as u32;
    }
    out
}

// Display P3 -> BT.2020 linear (D65); row sums = 1 so white is preserved
const P3_TO_BT2020: [[f64; 3]; 3] = [
    [0.7538, 0.2346, 0.0116],
    [0.0458, 0.9409, 0.0133],
    [0.0012, 0.0556, 0.9432],
];
const PQ_M1: f64 = 2610.0 / 16384.0;
const PQ_M2: f64 = 2523.0 / 4096.0 * 128.0;
const PQ_C1: f64 = 3424.0 / 4096.0;
const PQ_C2: f64 = 2413.0 / 4096.0 * 32.0;
const PQ_C3: f64 = 2392.0 / 4096.0 * 32.0;

struct SrgbEotf {
    lut: [f64; 1025],
    lut8: [f64; 256],
}

impl SrgbEotf {
    fn new() -> Self {
        let mut lut = [0.0f64; 1025];
        for (i, v) in lut.iter_mut().enumerate() {
            *v = srgb_to_linear(i as f64 / 1024.0);
        }
        let mut lut8 = [0.0f64; 256];
        for (i, v) in lut8.iter_mut().enumerate() {
            *v = srgb_to_linear(i as f64 / 255.0);
        }
        SrgbEotf { lut, lut8 }
    }

    fn eval8(&self, v: u8) -> f64 {
        self.lut8[v as usize]
    }

    fn eval(&self, v: f64) -> f64 {
        let x = (v.clamp(0.0, 1.0)) * 1024.0;
        let i = x.floor() as usize;
        if i >= 1024 {
            return 1.0;
        }
        let f = x - i as f64;
        self.lut[i] + (self.lut[i + 1] - self.lut[i]) * f
    }
}

fn pq_code_from_linear(lin: f64) -> u16 {
    let code = pq_oetf(lin * 203.0) * 65535.0 + 0.5;
    code.clamp(0.0, 65535.0) as u16
}

struct PqEncoder {
    umax: f64,
    k: f64,
    ym_max: f64,
    vm1: Vec<f64>,
    g: Vec<f64>,
}

impl PqEncoder {
    fn new() -> Self {
        const VMAX: f64 = 32.0;
        const N: usize = 2048;
        let umax = VMAX.powf(0.125);
        let mut vm1 = Vec::with_capacity(N + 1);
        for i in 0..=N {
            let u = i as f64 / N as f64 * umax;
            let v = u * u * u * u * u * u * u * u;
            vm1.push(v.powf(PQ_M1));
        }
        let ym_max = (0.0203 * VMAX).powf(PQ_M1);
        let mut g = Vec::with_capacity(N + 1);
        for i in 0..=N {
            let ym = i as f64 / N as f64 * ym_max;
            g.push(((PQ_C1 + PQ_C2 * ym) / (1.0 + PQ_C3 * ym)).powf(PQ_M2) * 65535.0);
        }
        PqEncoder { umax, k: 0.0203f64.powf(PQ_M1), ym_max, vm1, g }
    }

    fn code(&self, v: f64) -> u16 {
        let v = v.max(0.0);
        if v >= 32.0 {
            return pq_code_from_linear(v);
        }
        let u = (v.sqrt()).sqrt().sqrt();
        let n = (self.vm1.len() - 1) as f64;
        // v^m1
        let p = (u / self.umax * n).min(n);
        let i = p.floor() as usize;
        let f = p - i as f64;
        let vm = self.vm1[i] + (self.vm1[(i + 1).min(self.vm1.len() - 1)] - self.vm1[i]) * f;
        // X^m2 (code)
        let ym = self.k * vm;
        let p2 = (ym / self.ym_max * n).clamp(0.0, n);
        let j = p2.floor() as usize;
        let f2 = p2 - j as f64;
        let code = self.g[j] + (self.g[(j + 1).min(self.g.len() - 1)] - self.g[j]) * f2;
        (code + 0.5).clamp(0.0, 65535.0) as u16
    }
}

fn iso_curve(headroom: f64) -> [u8; 256] {
    let srgb = SrgbEotf::new();
    let mut curve = [0u8; 256];
    for (g, v) in curve.iter_mut().enumerate() {
        let ratio = 1.0 + (headroom - 1.0) * srgb.eval(g as f64 / 255.0);
        let code = (ratio.log2() / headroom.log2()).clamp(0.0, 1.0) * 255.0 + 0.5;
        *v = code.floor() as u8;
    }
    curve
}

fn spread(v: usize, gm: usize, size: usize) -> f64 {
    ((v as f64 + 0.5) * gm as f64 / size as f64 - 0.5).max(0.0)
}

fn first_place(v: usize, gm: usize, size: usize) -> usize {
    spread(v, gm, size).floor() as usize
}

fn compose(
    base: &[u8],
    base_w: usize,
    base_h: usize,
    gainmap: &[u8],
    gm_w: usize,
    gm_h: usize,
    headroom: f64,
    mask: &[u8],
    mask_w: usize,
    mask_h: usize,
    off_x: usize,
    off_y: usize,
) -> Result<Vec<u8>, String> {
    let srgb = SrgbEotf::new();
    let pq = PqEncoder::new();
    let towards_next = |v: usize, gm: usize, size: usize| {
        (spread(v, gm, size) - first_place(v, gm, size) as f64).clamp(0.0, 1.0)
    };
    let light = |px: [u8; 3], gains: [u8; 4], x: usize, y: usize| {
        let fy = towards_next(y, gm_h, base_h);
        let fx = towards_next(x, gm_w, base_w);
        let [g00, g01, g10, g11] = gains.map(|v| v as f64 / 255.0);
        let g = (g00 + (g01 - g00) * fx) + ((g10 + (g11 - g10) * fx) - (g00 + (g01 - g00) * fx)) * fy;
        let scale = 1.0 + (headroom - 1.0) * srgb.eval(g);
        let p3 = px.map(|v| srgb.eval8(v));
        let mut codes = [0u16; 3];
        for c in 0..3 {
            let m = P3_TO_BT2020[c];
            codes[c] = pq.code((m[0] * p3[0] + m[1] * p3[1] + m[2] * p3[2]) * scale);
        }
        codes
    };
    let valid = headroom.is_finite() && headroom >= 1.0;
    apple_hdr_compose_inner(
        base,
        base_w,
        base_h,
        gainmap,
        gm_w,
        gm_h,
        if valid { Some(&light) } else { None },
        &first_place,
        mask,
        mask_w,
        mask_h,
        off_x,
        off_y,
        &curve,
    )
}


fn decode_png_buf(data: &[u8]) -> (png::OutputInfo, Vec<u8>) {
    let decoder = png::Decoder::new(std::io::Cursor::new(data));
    let mut reader = decoder.read_info().unwrap();
    let mut buf = vec![0u8; reader.output_buffer_size().unwrap()];
    let info = reader.next_frame(&mut buf).unwrap();
    buf.truncate(info.buffer_size());
    (info, buf)
}

#[test]
fn apple_iso_gainmap_round_trips_through_iso_formula() {
    let headroom = 4.915774637972608_f64; // IMG_9519
    let srgb = SrgbEotf::new();
    let denom = headroom.log2();
    let samples: [u8; 5] = [0, 64, 128, 192, 255];
    let mut rgba = Vec::new();
    for s in samples {
        rgba.extend_from_slice(&[s, s, s, 255]);
    }
    let iso = apple_hdr_iso_gainmap_inner(&rgba, samples.len(), 1, Some(&iso_curve(headroom))).unwrap();
    assert_eq!(iso.len(), samples.len());
    assert_eq!(iso[0], 0);
    assert_eq!(iso[4], 255);
    for (s, v) in samples.iter().zip(iso.iter()) {
        let want = 1.0 + (headroom - 1.0) * srgb.eval(*s as f64 / 255.0);
        let got = 2f64.powf(denom * (*v as f64 / 255.0));
        let rel = (got - want).abs() / want;
        assert!(rel < 0.01, "sample {s}: want {want} got {got}");
    }
}

fn solid_rgba(w: usize, h: usize, rgb: [u8; 3], a: u8) -> Vec<u8> {
    let mut v = Vec::with_capacity(w * h * 4);
    for _ in 0..w * h {
        v.extend_from_slice(&[rgb[0], rgb[1], rgb[2], a]);
    }
    v
}

fn px16(buf: &[u8], w: usize, x: usize, y: usize, c: usize) -> u16 {
    let i = (y * w + x) * 6 + c * 2;
    u16::from_be_bytes([buf[i], buf[i + 1]])
}

#[test]
fn apple_hdr_compose_reference_codes() {
    let gm0 = solid_rgba(2, 2, [0, 0, 0], 255);
    let gm255 = solid_rgba(2, 2, [255, 255, 255], 255);
    let no_mask = vec![0u8; 4];

    // SDR passthrough: headroom 1 -> PQ(203 nits) per channel
    let white = solid_rgba(2, 2, [255, 255, 255], 255);
    let out = compose(&white, 2, 2, &gm0, 2, 2, 1.0, &no_mask, 1, 1, 0, 0).unwrap();
    let (info, buf) = decode_png_buf(&out);
    assert_eq!(info.bit_depth, png::BitDepth::Sixteen);
    assert_eq!(info.color_type, png::ColorType::Rgb);
    assert_eq!([px16(&buf, 2, 0, 0, 0), px16(&buf, 2, 0, 0, 1), px16(&buf, 2, 0, 0, 2)], [38055; 3]);

    let red = solid_rgba(2, 2, [255, 0, 0], 255);
    let out = compose(&red, 2, 2, &gm0, 2, 2, 1.0, &no_mask, 1, 1, 0, 0).unwrap();
    let (_, buf) = decode_png_buf(&out);
    assert_eq!([px16(&buf, 2, 0, 0, 0), px16(&buf, 2, 0, 0, 1), px16(&buf, 2, 0, 0, 2)], [36133, 19266, 5867]);

    let gray = solid_rgba(2, 2, [100, 100, 100], 255);
    let out = compose(&gray, 2, 2, &gm0, 2, 2, 1.0, &no_mask, 1, 1, 0, 0).unwrap();
    let (_, buf) = decode_png_buf(&out);
    assert_eq!(px16(&buf, 2, 0, 0, 0), 24876);

    // Full gain: 203 * headroom nits
    let out = compose(&white, 2, 2, &gm255, 2, 2, 4.0, &no_mask, 1, 1, 0, 0).unwrap();
    let (_, buf) = decode_png_buf(&out);
    assert_eq!(px16(&buf, 2, 0, 0, 0), 47785);
    let out = compose(&white, 2, 2, &gm255, 2, 2, 4.915774637972608, &no_mask, 1, 1, 0, 0).unwrap();
    let (_, buf) = decode_png_buf(&out);
    assert_eq!(px16(&buf, 2, 0, 0, 0), 49256);
}

#[test]
fn apple_hdr_compose_watermark_extension_cicp() {
    let base = solid_rgba(2, 2, [100, 100, 100], 255);
    let gm0 = solid_rgba(2, 2, [0, 0, 0], 255);

    // overlay: opaque white banner on the photo's last row
    let mask = solid_rgba(2, 1, [255, 255, 255], 255);
    let out = compose(&base, 2, 2, &gm0, 2, 2, 2.0, &mask, 2, 1, 0, 1).unwrap();
    let (info, buf) = decode_png_buf(&out);
    assert_eq!((info.width, info.height), (2, 2));
    assert_eq!(px16(&buf, 2, 0, 0, 0), 24876, "photo row unchanged");
    assert_eq!(px16(&buf, 2, 0, 1, 0), 38055, "opaque watermark -> 203-nit PQ code");
    assert_eq!(px16(&buf, 2, 1, 1, 0), 38055);

    // extension: banner below the photo extends the canvas with reference white
    let out = compose(&base, 2, 2, &gm0, 2, 2, 2.0, &mask, 2, 1, 0, 2).unwrap();
    let (info, buf) = decode_png_buf(&out);
    assert_eq!((info.width, info.height), (2, 3));
    assert_eq!(px16(&buf, 2, 0, 1, 0), 24876, "photo row unchanged");
    assert_eq!(px16(&buf, 2, 0, 2, 0), 38055, "extension row = reference white");
    let chunks = parse_png_chunks(&out).unwrap();
    assert!(chunks.iter().any(|c| c.typ == *b"cICP" && c.data == [9, 16, 0, 1]));

    // semi-transparent watermark blends in code domain
    let mask_half = solid_rgba(2, 1, [255, 255, 255], 128);
    let out = compose(&base, 2, 2, &gm0, 2, 2, 2.0, &mask_half, 2, 1, 0, 1).unwrap();
    let (_, buf) = decode_png_buf(&out);
    assert_eq!(px16(&buf, 2, 0, 1, 0), 31491, "alpha=128 blend");
}

#[test]
fn compose_errors_are_named() {
    let img = solid_rgba(2, 2, [9, 9, 9], 255);
    let mask = solid_rgba(1, 1, [0, 0, 0], 255);
    let error = |b: &[u8], bw: usize, g: &[u8], gh: usize, h: f64, m: &[u8], x: usize| {
        compose(b, bw, 2, g, 2, gh, h, m, 1, 1, x, 0).unwrap_err()
    };
    assert_eq!(error(&img, 3, &img, 2, 2.0, &mask, 0), "bad base image");
    assert_eq!(error(&img, 0, &img, 2, 2.0, &mask, 0), "bad base image");
    assert_eq!(error(&img, 2, &img, 3, 2.0, &mask, 0), "bad gain map");
    assert_eq!(error(&img, 2, &img, 0, 2.0, &mask, 0), "bad gain map");
    assert_eq!(error(&img, 2, &img, 2, 2.0, &mask[..3], 0), "mask buffer too small");
    assert_eq!(error(&img, 2, &img, 2, 2.0, &mask, 2), "mask wider than image");
    assert_eq!(error(&img, 2, &img, 2, 0.5, &mask, 0), "invalid headroom");
    assert_eq!(error(&img, 2, &img, 2, f64::NAN, &mask, 0), "invalid headroom");
}

#[test]
fn composed_file_has_header_code_points_data_and_trailer() {
    let img = solid_rgba(3, 2, [9, 9, 9], 255);
    let light = |px: [u8; 3], _: [u8; 4], x: usize, y: usize| [px[0] as u16, x as u16, y as u16];
    let out = apple_hdr_compose_png(
        img.clone(),
        3,
        2,
        img.clone(),
        3,
        2,
        Some(&light),
        &first_place,
        vec![0u8; 4],
        1,
        1,
        0,
        2,
        &curve,
    )
    .unwrap();
    let chunks = parse_png_chunks(&out).unwrap();
    let types: Vec<[u8; 4]> = chunks.iter().map(|c| c.typ).collect();
    assert_eq!(&types[..3], &[*b"IHDR", *b"cICP", *b"IDAT"]);
    assert_eq!(types.last(), Some(b"IEND"));
    assert_eq!(chunks[0].data, &[0, 0, 0, 3, 0, 0, 0, 3, 16, 2, 0, 0, 0]);
    assert_eq!(chunks[1].data, &[9, 16, 0, 1]);
    assert_eq!(detect_hdr_inner(&out).kind, "png-pq");
    let (_, buf) = decode_png_buf(&out);
    for (x, y) in [(0usize, 0usize), (2, 0), (1, 1)] {
        assert_eq!([0, 1, 2].map(|c| px16(&buf, 3, x, y, c)), [9, x as u16, y as u16]);
    }
    assert_eq!([0, 1, 2].map(|c| px16(&buf, 3, 1, 2, c)), [38055; 3]);
}

#[test]
fn iso_gain_map_errors_are_named() {
    let table = [7u8; 256];
    let error = |r: Result<Vec<u8>, String>| r.unwrap_err();
    assert_eq!(error(apple_hdr_iso_gainmap(vec![0; 7], 2, 1, Some(&table))), "bad gain map");
    assert_eq!(error(apple_hdr_iso_gainmap(vec![0; 8], 0, 1, Some(&table))), "bad gain map");
    assert_eq!(error(apple_hdr_iso_gainmap(vec![0; 8], 2, 1, None)), "invalid headroom");
    assert_eq!(apple_hdr_iso_gainmap(vec![0; 8], 2, 1, Some(&table)), Ok(vec![7, 7]));
}

#[test]
fn gains_are_read_from_the_first_channel() {
    let map: Vec<u8> = (0..24).map(|i| if i % 4 == 0 { 10 + i } else { 200 }).collect();
    assert_eq!(four_gains(&map, 3, 2, 0, 0), [10, 14, 22, 26]);
    assert_eq!(four_gains(&map, 3, 2, 1, 0), [14, 18, 26, 30]);
    assert_eq!(four_gains(&map, 3, 2, 2, 0), [18, 18, 30, 30]);
    assert_eq!(four_gains(&map, 3, 2, 2, 1), [30, 30, 30, 30]);
}

#[test]
fn composed_pixels_get_their_own_gains() {
    let base = solid_rgba(4, 2, [9, 9, 9], 255);
    let map: Vec<u8> = (0..16).map(|i| if i % 4 == 0 { 10 + i } else { 200 }).collect();
    let light =
        |_: [u8; 3], g: [u8; 4], _: usize, _: usize| [g[0] as u16, g[1] as u16, g[2] as u16];
    let halved = |at: usize, gm: usize, size: usize| at * gm / size;
    let out = apple_hdr_compose_inner(
        &base,
        4,
        2,
        &map,
        2,
        2,
        Some(&light),
        &halved,
        &[],
        0,
        0,
        0,
        0,
        &curve,
    )
    .unwrap();
    let (_, buf) = decode_png_buf(&out);
    let pixel = |x: usize, y: usize| [0, 1, 2].map(|c| px16(&buf, 4, x, y, c));
    assert_eq!(pixel(0, 0), [10, 14, 18]);
    assert_eq!(pixel(1, 0), [10, 14, 18]);
    assert_eq!(pixel(2, 0), [14, 14, 22]);
    assert_eq!(pixel(3, 1), [22, 22, 22]);
}

#[test]
fn unused_bytes_change_nothing() {
    let base = solid_rgba(3, 2, [100, 50, 7], 255);
    let map = solid_rgba(2, 2, [128, 128, 128], 255);
    let mut mask = solid_rgba(2, 1, [255, 255, 255], 128);
    mask[7] = 0;
    let plain = compose(&base, 3, 2, &map, 2, 2, 3.0, &mask, 2, 1, 0, 1).unwrap();

    let mut base2 = solid_rgba(3, 2, [100, 50, 7], 1);
    base2.push(99);
    let mut map2 = solid_rgba(2, 2, [128, 3, 250], 0);
    map2.push(99);
    let mut mask2 = mask.clone();
    mask2[4..7].copy_from_slice(&[1, 2, 3]);
    mask2.push(99);
    assert_eq!(compose(&base2, 3, 2, &map2, 2, 2, 3.0, &mask2, 2, 1, 0, 1), Ok(plain.clone()));

    let mut map3 = map;
    map3[0] = 127;
    assert_ne!(compose(&base, 3, 2, &map3, 2, 2, 3.0, &mask, 2, 1, 0, 1), Ok(plain));
}

#[test]
fn places_behind_the_gain_map_count_as_its_last() {
    let base = solid_rgba(1, 1, [9, 9, 9], 255);
    let map: Vec<u8> = (0..16).map(|i| if i % 4 == 0 { 10 + i } else { 200 }).collect();
    let light =
        |_: [u8; 3], g: [u8; 4], _: usize, _: usize| [g[0] as u16, g[1] as u16, g[3] as u16];
    let far = |_: usize, _: usize, _: usize| usize::MAX;
    let out = apple_hdr_compose_inner(
        &base,
        1,
        1,
        &map,
        2,
        2,
        Some(&light),
        &far,
        &[],
        0,
        0,
        0,
        0,
        &curve,
    )
    .unwrap();
    let (_, buf) = decode_png_buf(&out);
    assert_eq!([0, 1, 2].map(|c| px16(&buf, 1, 0, 0, c)), [22, 22, 22]);
}
