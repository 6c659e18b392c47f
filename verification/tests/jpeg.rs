use picseal::jpeg::{
    gainmap_range, has_segment, insert_segments, jpeg_app_insert_pos, jpeg_image_end,
    jpeg_segments, sequential_gainmap_range, strip_app2, strip_hdr_metadata, strip_mpf,
    write_jpeg_segment,
};

/// Two application segments, a restart marker, a quantization table, and image data.
fn sample() -> Vec<u8> {
    let mut v = vec![0xFF, 0xD8];
    write_jpeg_segment(&mut v, 0xE0, b"JFIF\0");
    write_jpeg_segment(&mut v, 0xE2, b"MPF\0abc");
    v.extend_from_slice(&[0xFF, 0xD0]);
    write_jpeg_segment(&mut v, 0xDB, b"table");
    v.extend_from_slice(&[0xFF, 0xDA, 0x00, 0x02, 1, 0xFF, 0x00, 2, 0xFF, 0xD3, 3, 0xFF, 0xD9]);
    v
}

#[test]
fn segments_are_listed_up_to_the_image_data() {
    let raw = sample();
    let found: Vec<(u8, usize, usize)> =
        jpeg_segments(&raw).iter().map(|s| (s.marker, s.payload.len(), s.start)).collect();
    assert_eq!(found, vec![(0xE0, 5, 2), (0xE2, 7, 11), (0xDB, 5, 24)]);
    assert!(has_segment(&raw, 0xDB, b"table"));
    assert!(!has_segment(&raw, 0xDB, b"tabl"));
    assert!(jpeg_segments(&raw[1..]).is_empty());
    assert_eq!(jpeg_segments(&raw[..15]).len(), 1, "a segment that is cut off ends the walk");
}

#[test]
fn inserted_segments_end_the_run() {
    let mut raw = sample();
    let at = jpeg_app_insert_pos(&raw);
    assert_eq!(at, 22);
    insert_segments(&mut raw, at, &[(0xE1, b"one".to_vec()), (0xFE, Vec::new())]);
    let markers: Vec<u8> = jpeg_segments(&raw).iter().map(|s| s.marker).collect();
    assert_eq!(markers, vec![0xE0, 0xE2, 0xE1, 0xFE, 0xDB]);
    assert_eq!(jpeg_app_insert_pos(&raw), at + 7 + 4);
    let same = raw.clone();
    insert_segments(&mut raw, at, &[]);
    assert_eq!(raw, same);
}

#[test]
fn segments_too_long_for_their_length_field_are_left_out() {
    let mut out = Vec::new();
    write_jpeg_segment(&mut out, 0xE1, &vec![0; 65534]);
    assert!(out.is_empty());
    write_jpeg_segment(&mut out, 0xE1, &vec![0; 65533]);
    assert_eq!(&out[..4], &[0xFF, 0xE1, 0xFF, 0xFF]);
}

#[test]
fn stripping_drops_directories() {
    let raw = sample();
    let out = strip_mpf(&raw);
    assert_eq!(out.len(), raw.len() - 11);
    assert!(!has_segment(&out, 0xE2, b"MPF\0abc"));
    assert_eq!(strip_app2(&raw, b"none"), raw);
    assert_eq!(strip_mpf(&[0xFF]), vec![0xFF]);
    // the other way of stripping goes on behind the restart marker, which stays
    assert_eq!(strip_hdr_metadata(&raw), out);
    let mut late = sample();
    insert_segments(&mut late, 24, &[(0xE2, b"MPF\0late".to_vec())]);
    assert_eq!(strip_hdr_metadata(&late), out);
    assert_eq!(strip_mpf(&late).len(), out.len() + 12);
}

#[test]
fn image_end_is_behind_the_end_marker() {
    let raw = sample();
    assert_eq!(jpeg_image_end(&raw, 0), Some(raw.len()));
    assert_eq!(jpeg_image_end(&raw, 1), None);
    assert_eq!(jpeg_image_end(&raw[..raw.len() - 1], 0), None);
}

#[test]
fn second_image_in_a_file_is_the_gain_map() {
    let mut raw = sample();
    let first = raw.len();
    raw.extend_from_slice(&[0, 0, 0xFF, 0xD8, 0xFF, 0x00]);
    let at = raw.len();
    raw.extend_from_slice(&[0xFF, 0xD8, 0xFF, 0xD9, 7]);
    assert_eq!(sequential_gainmap_range(&raw), Some((at, 4)));
    assert_eq!(gainmap_range(&raw), Some((at, 4)));
    // without an end marker it reaches to the end of the file
    assert_eq!(sequential_gainmap_range(&raw[..at + 3]), None);
    let mut open = raw[..at].to_vec();
    open.extend_from_slice(&[0xFF, 0xD8, 0xFF, 0xFE, 0, 9]);
    assert_eq!(sequential_gainmap_range(&open), Some((at, 6)));
    assert_eq!(sequential_gainmap_range(&raw[..first]), None);
}

#[test]
fn standalone_markers_are_kept() {
    let raw = [0xFF, 0xD8, 0xFF, 0x01, 0xFF, 0xD9];
    assert_eq!(strip_hdr_metadata(&raw), raw);
    assert_eq!(strip_mpf(&raw), raw);
}

#[test]
fn stripping_again_changes_nothing() {
    let once = strip_hdr_metadata(&sample());
    assert_eq!(strip_hdr_metadata(&once), once);
    let once = strip_mpf(&sample());
    assert_eq!(strip_mpf(&once), once);
}

#[test]
fn other_segments_stay_in_order() {
    let raw = sample();
    let parts = |raw: &[u8]| -> Vec<(u8, Vec<u8>)> {
        jpeg_segments(raw).iter().map(|s| (s.marker, s.payload.to_vec())).collect()
    };
    let want = vec![(0xE0, b"JFIF\0".to_vec()), (0xDB, b"table".to_vec())];
    assert_eq!(parts(&strip_mpf(&raw)), want);
    assert_eq!(parts(&strip_hdr_metadata(&raw)), want);
}
