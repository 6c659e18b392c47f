use picseal::jpeg::{jpeg_segments, write_jpeg_segment};
use picseal::tags::XMP_SIG;
use picseal::xmp::{
    build_primary_xmp, build_secondary_xmp, decimal_digits, patch_container_gainmap_length,
    patch_xmp_in_jpeg,
};

fn patched(xmp: &[u8], n: usize) -> Vec<u8> {
    let mut v = xmp.to_vec();
    patch_container_gainmap_length(&mut v, n);
    v
}

#[test]
fn decimal_digits_are_those_of_the_number() {
    for n in [0usize, 9, 10, 407, 65536, 1234567890] {
        assert_eq!(decimal_digits(n), n.to_string().into_bytes());
    }
}

#[test]
fn declared_length_is_rewritten() {
    let xmp = b"Length=\"1\" Item:Semantic=\"GainMap\" Item:Length=\"22\"/> Length=\"3\"";
    let out = patched(xmp, 5000);
    assert_eq!(out, b"Length=\"1\" Item:Semantic=\"GainMap\" Item:Length=\"5000\"/> Length=\"3\"");
    assert_eq!(patched(&out, 22), xmp.to_vec());
    assert_eq!(patched(&out, 5000), out);
}

#[test]
fn packets_without_a_gain_map_item_stay() {
    for xmp in [
        b"Item:Semantic=\"Primary\" Item:Length=\"22\"".as_slice(),
        b"Item:Semantic=\"GainMap\" Item:Mime=\"x\"",
        b"Item:Semantic=\"GainMap\" Item:Length=\"22",
        b"",
    ] {
        assert_eq!(patched(xmp, 7), xmp.to_vec());
    }
}

#[test]
fn first_packet_of_a_file_is_rewritten() {
    let packet = build_primary_xmp(12);
    let mut jpeg = vec![0xFF, 0xD8];
    write_jpeg_segment(&mut jpeg, 0xE0, b"JFIF\0");
    write_jpeg_segment(&mut jpeg, 0xE1, &packet);
    write_jpeg_segment(&mut jpeg, 0xE1, &packet);
    jpeg.extend_from_slice(&[0xFF, 0xDA, 0x00, 0x02]);
    let before = jpeg.clone();
    patch_xmp_in_jpeg(&mut jpeg, 3456);
    let segs = jpeg_segments(&jpeg);
    assert_eq!(segs.len(), 3);
    assert_eq!(segs[1].payload, build_primary_xmp(3456).as_slice());
    assert_eq!(segs[2].payload, packet.as_slice());
    assert_eq!(jpeg.len(), before.len() + 2);
    patch_xmp_in_jpeg(&mut jpeg, 12);
    assert_eq!(jpeg, before);
}

#[test]
fn packets_hold_what_they_declare() {
    let primary = String::from_utf8(build_primary_xmp(98765)).unwrap();
    assert!(primary.as_bytes().starts_with(&XMP_SIG));
    assert_eq!(primary.as_bytes()[XMP_SIG.len()], 0);
    assert!(primary.contains("Item:Semantic=\"GainMap\"\n"));
    assert!(primary.contains("             Item:Length=\"98765\"/>\n          </rdf:li>\n"));
    assert!(primary.contains("x:xmptk=\"Adobe XMP Core 5.1.2\">\n  <rdf:RDF"));
    assert!(primary.ends_with("\n  </rdf:RDF>\n</x:xmpmeta>"));
    let secondary = String::from_utf8(build_secondary_xmp(b"2.297418")).unwrap();
    assert!(secondary.contains("<?xpacket begin=\"\u{feff}\" id=\"W5M0MpCehiHzreSzNTczkc9d\"?>\n"));
    assert!(secondary.contains("   hdrgm:GainMapMax=\"2.297418\"\n   hdrgm:HDRCapacityMin"));
    assert!(secondary.contains("hdrgm:HDRCapacityMax=\"2.297418\"\n   hdrgm:OffsetSDR"));
    assert!(secondary.ends_with("</x:xmpmeta>\n       \n<?xpacket end=\"w\"?>"));
}
