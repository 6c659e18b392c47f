use picseal::blend::{blend_mask, straight_code, Mask, Photo};
use picseal::samples::{read_codes, write_codes};

fn photo(codes: &[u16], sixteen: bool) -> Photo<'_> {
    Photo { codes, width: 2, height: 1, samples: 1, sixteen, white: [200, 201, 202] }
}

#[test]
fn blending_keeps_replaces_mixes_and_extends() {
    let codes = [10u16, 20];
    // one column, three rows, over the second column
    let pixels = [1, 2, 3, 255, 1, 2, 3, 0, 1, 2, 3, 128];
    let mask = Mask { pixels: &pixels, width: 1, height: 3, left: 1, top: 0 };
    let marks = [[100u32, 0, 0], [0; 3], [50, 0, 0]];
    let out = blend_mask(&photo(&codes, false), &mask, &marks);
    // kept, opaque; white, white under an invisible pixel; white, half
    let half = (200 * 127 + 50 * 128 + 127) / 255;
    assert_eq!(out, vec![10, 100, 200, 200, 200, half]);
}

#[test]
fn codes_and_bytes_go_back_and_forth() {
    let codes = [0u16, 255, 256, 0xABCD];
    assert_eq!(write_codes(&codes, true), vec![0, 0, 0, 255, 1, 0, 0xAB, 0xCD]);
    assert_eq!(read_codes(&write_codes(&codes, true), true), codes.to_vec());
    assert_eq!(read_codes(&write_codes(&[7, 255], false), false), vec![7, 255]);
    assert_eq!(read_codes(&[1, 2, 3], true), vec![0x0102]);
    assert_eq!((straight_code(255, true), straight_code(255, false)), (65535, 255));
}
