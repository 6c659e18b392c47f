use picseal::bytes::{be_u16, contains, find_sub, splice, u32be};

#[test]
fn numbers_are_read_where_the_data_reach() {
    let data = [0x12, 0x34, 0x56, 0x78, 0x9A];
    assert_eq!(u32be(&data, 1), Some(0x3456789A));
    assert_eq!(u32be(&data, 2), None);
    assert_eq!(be_u16(&data, 3), Some(0x789A));
    assert_eq!(be_u16(&data, 4), None);
    assert_eq!(u32be(&data, usize::MAX), None);
}

#[test]
fn first_occurrence_is_found() {
    assert_eq!(find_sub(b"abcabc", b"ca"), Some(2));
    assert_eq!(find_sub(b"abcabc", b"bc"), Some(1));
    assert_eq!(find_sub(b"abc", b"abcd"), None);
    assert_eq!(find_sub(b"abc", b""), None);
    assert!(contains(b"abc", b"c") && !contains(b"abc", b"ac"));
}

#[test]
fn splicing_replaces_a_range() {
    let mut v = b"abcdef".to_vec();
    splice(&mut v, 1, 3, b"XYZ");
    assert_eq!(v, b"aXYZdef");
    splice(&mut v, 7, 7, b"!");
    splice(&mut v, 0, 4, b"");
    assert_eq!(v, b"def!");
}
