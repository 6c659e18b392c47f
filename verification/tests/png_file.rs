use picseal::png_file::{
    parse_png_chunks, png_primaries, png_transfer, sanitized_for_decode, write_chunk, PngChunk,
    PngPrimaries, PngTransfer,
};
use picseal::tags::PNG_SIG;

#[test]
fn written_chunk_has_length_type_data_and_checksum() {
    let mut out = Vec::new();
    write_chunk(&mut out, b"IEND", &[]);
    assert_eq!(out, [0, 0, 0, 0, b'I', b'E', b'N', b'D', 0xAE, 0x42, 0x60, 0x82]);
    write_chunk(&mut out, b"gAMA", &[0, 0, 0xB1, 0x8F]);
    assert_eq!(&out[12..], &[0, 0, 0, 4, b'g', b'A', b'M', b'A', 0, 0, 0xB1, 0x8F, 0x0B, 0xFC, 0x61, 0x05]);
}

#[test]
fn written_chunks_read_back() {
    let mut out = PNG_SIG.to_vec();
    write_chunk(&mut out, b"IHDR", &[1, 2, 3]);
    write_chunk(&mut out, b"tEXt", b"");
    write_chunk(&mut out, b"IEND", &[9]);
    out.extend_from_slice(b"not looked at");
    let chunks = parse_png_chunks(&out).unwrap();
    let found: Vec<([u8; 4], &[u8])> = chunks.iter().map(|c| (c.typ, c.data)).collect();
    assert_eq!(found, vec![(*b"IHDR", &[1u8, 2, 3][..]), (*b"tEXt", b""), (*b"IEND", &[9])]);
}

fn chunks<'a>(list: &[(&[u8; 4], &'a [u8])]) -> Vec<PngChunk<'a>> {
    list.iter().map(|(typ, data)| PngChunk { typ: **typ, data }).collect()
}

#[test]
fn transfer_and_primaries_come_from_the_first_code_points() {
    let of = |list: &[(&[u8; 4], &[u8])]| {
        let c = chunks(list);
        (png_transfer(&c), png_primaries(&c))
    };
    assert_eq!(of(&[]), (PngTransfer::Sdr, PngPrimaries::Bt2020));
    assert_eq!(of(&[(b"cICP", &[1, 16])]), (PngTransfer::Pq, PngPrimaries::Bt709));
    assert_eq!(of(&[(b"cICP", &[12, 18])]), (PngTransfer::Hlg, PngPrimaries::P3));
    assert_eq!(of(&[(b"cICP", &[9])]), (PngTransfer::Sdr, PngPrimaries::Bt2020));
    assert_eq!(of(&[(b"cLLi", &[])]), (PngTransfer::Pq, PngPrimaries::Bt2020));
    assert_eq!(of(&[(b"mDCv", &[]), (b"cICP", &[1, 1])]), (PngTransfer::Sdr, PngPrimaries::Bt709));
}

#[test]
fn matrix_coefficients_are_reset_for_decoding() {
    let good = chunks(&[(b"cICP", &[9, 16, 0, 1]), (b"IEND", &[])]);
    assert_eq!(sanitized_for_decode(&good), None);
    let bad = chunks(&[(b"cICP", &[9, 16, 9, 1]), (b"IEND", &[7])]);
    let copy = sanitized_for_decode(&bad).unwrap();
    let found = parse_png_chunks(&copy).unwrap();
    assert_eq!(found[0].data, &[9, 16, 0, 1]);
    assert_eq!(found[1].data, &[7]);
}
