use picseal::metadata::{exif_or_empty, get_exif, ExifData};

/// A TIFF file with an x-resolution of 72 pixels per inch.
fn tiff() -> Vec<u8> {
    let mut v = b"MM\0\x2A\0\0\0\x08".to_vec();
    v.extend_from_slice(&[0, 2]);
    v.extend_from_slice(&[0x01, 0x1A, 0, 5, 0, 0, 0, 1, 0, 0, 0, 38]);
    v.extend_from_slice(&[0x01, 0x28, 0, 3, 0, 0, 0, 1, 0, 2, 0, 0]);
    v.extend_from_slice(&[0, 0, 0, 0]);
    v.extend_from_slice(&[0, 0, 0, 72, 0, 0, 0, 1]);
    v
}

#[test]
fn exif_fields_are_read_as_text() {
    let fields = get_exif(tiff());
    let found: Vec<[&str; 3]> = fields
        .iter()
        .map(|f| [f.tag.as_str(), f.value.as_str(), f.value_with_unit.as_str()])
        .collect();
    assert_eq!(
        found,
        vec![
            ["XResolution", "72", "72 pixels per inch"],
            ["ResolutionUnit", "inch", "inch"],
        ]
    );
}

#[test]
fn unreadable_exif_gives_no_fields() {
    assert!(get_exif(vec![]).is_empty());
    assert!(get_exif(b"no image at all".to_vec()).is_empty());
    assert!(exif_or_empty(None).is_empty());
    let one = ExifData {
        tag: "a".to_string(),
        value: "b".to_string(),
        value_with_unit: "c".to_string(),
    };
    assert_eq!(exif_or_empty(Some(vec![one]))[0].value, "b");
}
