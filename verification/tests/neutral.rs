use picseal::neutral::{
    combined_values, iso_candidate, neutral_candidates, ultrahdr_neutral, ultrahdr_neutral_inner,
    xmp_candidate, zero_sample, Channel, NeutralInfo, Number,
};
use picseal::tags::{ISO21496_URN, XMP_SIG};
use picseal::ultrahdr::{build_iso21496_1_payload, ultrahdr_create_inner, GainRange};

fn value(n: &Number) -> f64 {
    match n {
        Number::Fraction { num, den } => *num as f64 / *den as f64,
        Number::Text(text) => String::from_utf8(text.clone()).unwrap().parse().unwrap(),
    }
}

fn neutral_value(c: Channel) -> Option<u8> {
    let (min, max, gamma) = (value(&c.min), value(&c.max), value(&c.gamma));
    if !min.is_finite() || !max.is_finite() || !gamma.is_finite() || gamma <= 0.0 {
        return None;
    }
    let span = max - min;
    let g = -min / span;
    if span.abs() < 1e-9 || !(0.0..=1.0).contains(&g) {
        return None;
    }
    Some((g.powf(gamma) * 255.0 + 0.5).floor().clamp(0.0, 255.0) as u8)
}

fn info_of(raw: &[u8]) -> NeutralInfo {
    ultrahdr_neutral_inner(raw, &neutral_value)
}

fn jpeg_with_xmp(xmp: &str) -> Vec<u8> {
    let mut v = vec![0xFF, 0xD8, 0xFF, 0xE1];
    let payload_len = XMP_SIG.len() + 1 + xmp.len();
    v.extend_from_slice(&((payload_len + 2) as u16).to_be_bytes());
    v.extend_from_slice(&XMP_SIG);
    v.push(0);
    v.extend_from_slice(xmp.as_bytes());
    v.extend_from_slice(&[0xFF, 0xDA, 0x00, 0x02]);
    v
}

#[test]
fn xmp_neutral_parsing() {
    let xmp = "<x:xmpmeta><rdf:Description xmlns:hdrgm='http://ns.adobe.com/hdr-gain-map/1.0/' hdrgm:GainMapMax='2.5' hdrgm:GainMapMin='0' hdrgm:Gamma='1'/></x:xmpmeta>";
    let info = info_of(&jpeg_with_xmp(xmp));
    assert!(info.ok && !info.multi_channel);
    assert_eq!(info.values, [0, 0, 0]);

    let info = info_of(&jpeg_with_xmp("<hdrgm:GainMapMin=\"-1\" hdrgm:GainMapMax=\"1\" hdrgm:Gamma=\"1\"/>"));
    assert!(info.ok && info.values[0] == 128);

    let info = info_of(&jpeg_with_xmp("<hdrgm:GainMapMin=\"-1\" hdrgm:GainMapMax=\"1\" hdrgm:Gamma=\"2\"/>"));
    assert!(info.ok && info.values[0] == 64);
}

fn numbers(payload: &[u8]) -> Vec<[String; 3]> {
    let text = |n: &Number| match n {
        Number::Fraction { num, den } => format!("{num}/{den}"),
        Number::Text(text) => String::from_utf8(text.clone()).unwrap(),
    };
    let found = xmp_candidate(payload).map(|c| c.channels).unwrap_or_default();
    found.iter().map(|c| [text(&c.min), text(&c.max), text(&c.gamma)]).collect()
}

fn row(a: &str, b: &str, c: &str) -> [String; 3] {
    [a.to_string(), b.to_string(), c.to_string()]
}

#[test]
fn xmp_lists_fill_up_with_their_first_number() {
    let xmp = b"hdrgm:GainMapMax = '1, 2,3,4' hdrgm:GainMapMin=\"-1 -2\"";
    assert_eq!(numbers(xmp), vec![row("-1", "1", "1/1"), row("-2", "2", "1/1"), row("-1", "3", "1/1")]);
    assert_eq!(numbers(b"hdrgm:GainMapMax='7'"), vec![row("0/1", "7", "1/1")]);
    assert!(numbers(b"hdrgm:GainMapMin='7'").is_empty());
}

#[test]
fn xmp_tokens_that_are_no_numbers_are_passed_over() {
    let xmp = b"hdrgm:GainMapMax='x, +1.5e-3 .5 5. 1e 1.2.3 - . iNf NaN -infinity' hdrgm:Gamma 2";
    let maxs: Vec<String> = numbers(xmp).into_iter().map(|r| r[1].clone()).collect();
    assert_eq!(maxs, vec!["+1.5e-3", ".5", "5."]);
    let words = b"hdrgm:GainMapMax='iNf NaN -infinity infinit'";
    let maxs: Vec<String> = numbers(words).into_iter().map(|r| r[1].clone()).collect();
    assert_eq!(maxs, vec!["iNf", "NaN", "-infinity"]);
}

#[test]
fn attribute_without_numbers_gives_way_to_the_next_one() {
    let xmp = b"<hdrgm:GainMapMax>a</hdrgm:GainMapMax> hdrgm:GainMapMax='x' hdrgm:GainMapMax='4";
    assert_eq!(numbers(xmp), vec![row("0/1", "4", "1/1")]);
}

fn iso_segment(body: &[u8]) -> Vec<u8> {
    [&ISO21496_URN[..], &[0, 0, 0, 0], body].concat()
}

fn words(list: &[u32]) -> Vec<u8> {
    list.iter().flat_map(|v| v.to_be_bytes()).collect()
}

#[test]
fn iso_metadata_with_own_denominators_is_read() {
    let channel = |min: u32, max: u32| [min, 10, max, 5, 3, 2, 0, 1, 0, 1];
    let mut body = vec![0x80];
    body.extend(words(&[0, 1, 0, 1]));
    for max in [1u32, 2, 3] {
        body.extend(words(&channel((-10i32) as u32, max)));
    }
    let found = iso_candidate(&iso_segment(&body)).unwrap();
    assert!(found.multi_channel);
    assert_eq!(found.channels.len(), 3);
    assert!(matches!(found.channels[2].min, Number::Fraction { num: -10, den: 10 }));
    assert!(matches!(found.channels[2].max, Number::Fraction { num: 3, den: 5 }));
    assert!(matches!(found.channels[2].gamma, Number::Fraction { num: 3, den: 2 }));
    assert!(iso_candidate(&iso_segment(&body[..body.len() - 1])).is_none(), "cut off");
    let mut zero = body.clone();
    zero[1 + 16 + 40 + 7] = 0;
    assert!(iso_candidate(&iso_segment(&zero)).is_none(), "denominator 0");
}

#[test]
fn iso_metadata_of_other_versions_and_directions_is_refused() {
    let good = build_iso21496_1_payload(1_000_000);
    assert!(iso_candidate(&good).is_some());
    let mut newer = good.clone();
    newer[29] = 1;
    assert!(iso_candidate(&newer).is_none());
    let mut backward = good.clone();
    backward[32] = 0x0C;
    assert!(iso_candidate(&backward).is_none());
    let mut no_den = good.clone();
    no_den[33..37].copy_from_slice(&[0; 4]);
    assert!(iso_candidate(&no_den).is_none());
    assert!(iso_candidate(&good[..64]).is_none());
    assert!(iso_candidate(&good[1..]).is_none());
}

#[test]
fn built_iso_payload_reads_back() {
    let payload = build_iso21496_1_payload(2_297_418);
    assert_eq!(payload.len(), 65);
    assert_eq!(payload[33..37], 1_000_000u32.to_be_bytes());
    assert_eq!(payload[37..41], [0; 4], "the base image has no headroom");
    assert_eq!(payload[41..45], 2_297_418u32.to_be_bytes());
    let found = iso_candidate(&payload).unwrap();
    assert!(!found.multi_channel);
    assert_eq!(found.channels.len(), 1);
    let c = &found.channels[0];
    assert!(matches!(c.min, Number::Fraction { num: 0, den: 1_000_000 }));
    assert!(matches!(c.max, Number::Fraction { num: 2_297_418, den: 1_000_000 }));
    assert!(matches!(c.gamma, Number::Fraction { num: 1_000_000, den: 1_000_000 }));
}

fn segment(marker: u8, payload: &[u8]) -> Vec<u8> {
    let len = ((payload.len() + 2) as u16).to_be_bytes();
    [&[0xFF, marker][..], &len, payload].concat()
}

#[test]
fn iso_metadata_comes_before_xmp() {
    let xmp = [&XMP_SIG[..], b"\0hdrgm:GainMapMin='-1' hdrgm:GainMapMax='1'"].concat();
    let iso = build_iso21496_1_payload(1_000_000);
    let mut jpeg = vec![0xFF, 0xD8];
    jpeg.extend(segment(0xE1, &xmp));
    jpeg.extend(segment(0xE2, &iso));
    jpeg.extend([0xFF, 0xDA, 0, 2]);
    let info = ultrahdr_neutral(jpeg.clone(), &neutral_value);
    assert!(info.ok && !info.multi_channel);
    assert_eq!(info.values, [0, 0, 0]);
    // metadata that give no sample are passed over
    let at = jpeg.len() - 4 - 65 + 45;
    jpeg[at..at + 4].copy_from_slice(&(-500_000i32).to_be_bytes());
    assert_eq!(info_of(&jpeg).values, [85; 3]);
    let unless_iso = |c: Channel| match c.max {
        Number::Fraction { .. } => None,
        Number::Text(_) => Some(9),
    };
    assert_eq!(ultrahdr_neutral_inner(&jpeg, &unless_iso).values, [9, 9, 9]);
    let never = ultrahdr_neutral_inner(&jpeg, &|_| None);
    assert!(!never.ok && !never.multi_channel);
    assert_eq!(never.values, [0, 0, 0]);
}

#[test]
fn two_xmp_channels_leave_the_third_at_zero() {
    let raw = jpeg_with_xmp("hdrgm:GainMapMin='-1' hdrgm:GainMapMax='1,1'");
    let info = info_of(&raw);
    assert!(info.ok && info.multi_channel);
    assert_eq!(info.values, [128, 128, 0]);
}

#[test]
fn created_metadata_count_first() {
    let stale = jpeg_with_xmp("<hdrgm:GainMapMin=\"-1\" hdrgm:GainMapMax=\"1\"/>");
    let gain = GainRange { micro: 2_000_000, text: b"2.000000".to_vec() };
    assert_eq!(info_of(&stale).values, [128; 3]);
    let out = ultrahdr_create_inner(&stale, &stale, Some(&gain)).unwrap();
    let info = info_of(&out);
    assert!(info.ok && !info.multi_channel);
    assert_eq!(info.values, [0; 3]);
    let list = neutral_candidates(&out);
    assert_eq!(value(&list[0].channels[0].max), 2.0);
    // both copies of the ISO metadata, then the attributes of the gain map
    assert_eq!(list.len(), 3);
    assert_eq!(value(&list[2].channels[0].max), 2.0);
}

#[test]
fn written_payload_is_neutral_at_zero() {
    for micro in [1, 14, 1_000_000, 2_297_418, 0x7FFF_FFFF] {
        let found = iso_candidate(&build_iso21496_1_payload(micro)).unwrap();
        assert!(!found.multi_channel);
        assert_eq!(combined_values(&found.channels, &neutral_value), Some([0; 3]));
        // no other function decides this
        assert_eq!(combined_values(&found.channels, &|_| Some(9)), Some([0; 3]));
    }
    let none = iso_candidate(&build_iso21496_1_payload(0)).unwrap();
    assert_eq!(combined_values(&none.channels, &neutral_value), None);
    assert_eq!(combined_values(&none.channels, &|_| Some(9)), None);
}

#[test]
fn samples_from_zero_are_those_of_the_formula() {
    let fraction = |num: i64, den: u32| Number::Fraction { num, den };
    let channel = |min: i64, max: (i64, u32), gamma: i64| Channel {
        min: fraction(min, 7),
        max: fraction(max.0, max.1),
        gamma: fraction(gamma, 3),
    };
    let maxs = [
        (0, 1),
        (1, 1),
        (-1, 1),
        (1, 999_999_999),
        (1, 1_000_000_000),
        (1, 1_000_000_001),
        (-1, 1_000_000_000),
        (-1, 1_000_000_001),
        (3, 3_000_000_000),
        (3, 3_000_000_001),
        (4, 4_294_967_295),
        (5, 4_294_967_295),
        (i32::MAX as i64, 1),
        (i32::MIN as i64, 1),
    ];
    for max in maxs {
        for gamma in [0, 1, 3, u32::MAX as i64] {
            let known = zero_sample(&channel(0, max, gamma));
            assert_eq!(known, Some(neutral_value(channel(0, max, gamma))), "{max:?} {gamma}");
        }
    }
    assert_eq!(zero_sample(&channel(1, (2, 1), 3)), None);
    let text = Channel { max: Number::Text(b"1".to_vec()), ..channel(0, (1, 1), 3) };
    assert_eq!(zero_sample(&text), None);
}
