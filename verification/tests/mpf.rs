use picseal::mpf::{build_mpf_segment, mpf_second_image};

#[test]
fn built_directory_reads_back() {
    let seg = build_mpf_segment(1000, 77, 900);
    assert_eq!(seg.len(), 90);
    assert_eq!(mpf_second_image(&seg[4..]), Some((900, 77)));
}
