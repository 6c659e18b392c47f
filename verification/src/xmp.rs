//! XMP packets of Ultra HDR files: the container directory and the gain map attributes.

use vstd::prelude::*;
use vstd::slice::{slice_subrange, slice_to_vec};
use vstd::utf8::encode_utf8;

use crate::bytes::{
    append, append_be16, be16_bytes, find_at, find_from, find_sub, lemma_find_from,
    lemma_find_from_is, matches_at, splice, stands_at,
};
use crate::jpeg::{scan, scan_at, Mark, Scan};
use crate::tags::{HDRGM, LENGTH_ATTR, SEMANTIC_GAINMAP, XMP_SIG};

verus! {

/// The closing quote of an attribute value.
pub const QUOTE: [u8; 1] = [0x22];

/// The container directory up to its version attribute.
pub const PRIMARY_HEAD: &'static str = "<x:xmpmeta xmlns:x=\"adobe:ns:meta/\" x:xmptk=\"Adobe XMP Core 5.1.2\">\n  \
<rdf:RDF xmlns:rdf=\"http://www.w3.org/1999/02/22-rdf-syntax-ns#\">\n    \
<rdf:Description\n        \
xmlns:Container=\"http://ns.google.com/photos/1.0/container/\"\n        \
xmlns:Item=\"http://ns.google.com/photos/1.0/container/item/\"\n        \
xmlns:hdrgm=\"http://ns.adobe.com/hdr-gain-map/1.0/\"\n        ";

/// The container directory between the prefix of its version attribute and the gain map's length.
pub const PRIMARY_ITEMS: &'static str = "Version=\"1.0\">\n      \
<Container:Directory>\n        \
<rdf:Seq>\n          \
<rdf:li rdf:parseType=\"Resource\">\n            \
<Container:Item\n             Item:Semantic=\"Primary\"\n             Item:Mime=\"image/jpeg\"/>\n          \
</rdf:li>\n          \
<rdf:li rdf:parseType=\"Resource\">\n            \
<Container:Item\n             Item:Semantic=\"GainMap\"\n             Item:Mime=\"image/jpeg\"\n             Item:Length=\"";

/// The container directory behind the gain map's length.
pub const PRIMARY_TAIL: &'static str = "\"/>\n          \
</rdf:li>\n        \
</rdf:Seq>\n      \
</Container:Directory>\n    \
</rdf:Description>\n  \
</rdf:RDF>\n\
</x:xmpmeta>";

/// The gain map attributes up to the version.
pub const SECONDARY_HEAD: &'static str = "<?xpacket begin=\"\u{feff}\" id=\"W5M0MpCehiHzreSzNTczkc9d\"?>\n\
<x:xmpmeta xmlns:x=\"adobe:ns:meta/\" x:xmptk=\"XMP Core 5.5.0\">\n \
<rdf:RDF xmlns:rdf=\"http://www.w3.org/1999/02/22-rdf-syntax-ns#\">\n  \
<rdf:Description rdf:about=\"\"\n    \
xmlns:hdrgm=\"http://ns.adobe.com/hdr-gain-map/1.0/\"\n   ";

/// The gain map attributes between the prefix of the version and the largest gain.
pub const SECONDARY_RANGE: &'static str = "Version=\"1.0\"\n   \
hdrgm:GainMapMin=\"0.000000\"\n   \
hdrgm:GainMapMax=\"";

/// The gain map attributes between the largest gain and the largest headroom.
pub const SECONDARY_MIDDLE: &'static str = "\"\n   \
hdrgm:HDRCapacityMin=\"0.000000\"\n   \
hdrgm:HDRCapacityMax=\"";

/// The gain map attributes behind the largest headroom.
pub const SECONDARY_TAIL: &'static str = "\"\n   \
hdrgm:OffsetSDR=\"0.000000\"\n   \
hdrgm:OffsetHDR=\"0.000000\"/>\n \
</rdf:RDF>\n\
</x:xmpmeta>\n       \n\
<?xpacket end=\"w\"?>";

/// The decimal digits of `n`, in ASCII.
pub open spec fn decimal(n: nat) -> Seq<u8>
    decreases n,
{
    if n < 10 {
        seq![(0x30 + n) as u8]
    } else {
        decimal(n / 10) + seq![(0x30 + n % 10) as u8]
    }
}

/// The decimal digits of `n`, in ASCII.
pub fn decimal_digits(n: usize) -> (r: Vec<u8>)
    ensures
        r@ == decimal(n as nat),
    decreases n,
{
    if n < 10 {
        let mut r: Vec<u8> = Vec::new();
        r.push(0x30 + n as u8);
        assert(r@ =~= decimal(n as nat));
        r
    } else {
        let mut r: Vec<u8> = decimal_digits(n / 10);
        r.push(0x30 + (n % 10) as u8);
        assert(r@ =~= decimal(n as nat));
        r
    }
}

/// Where the declared gain map length stands in a container directory: the first `Length="` value
/// behind `Semantic="GainMap"`.
pub open spec fn declared_length(xmp: Seq<u8>) -> Option<(int, int)> {
    match find_from(xmp, SEMANTIC_GAINMAP@, 0) {
        Some(sem) => match find_from(xmp, LENGTH_ATTR@, sem) {
            Some(attr) => match find_from(xmp, QUOTE@, attr + LENGTH_ATTR@.len()) {
                Some(end) => Some((attr + LENGTH_ATTR@.len(), end)),
                None => None,
            },
            None => None,
        },
        None => None,
    }
}

/// A container directory that declares a gain map of `n` bytes; one without a gain map item is
/// left as it is.
pub open spec fn with_declared_length(xmp: Seq<u8>, n: nat) -> Seq<u8> {
    match declared_length(xmp) {
        Some((start, end)) => xmp.subrange(0, start) + decimal(n) + xmp.subrange(
            end,
            xmp.len() as int,
        ),
        None => xmp,
    }
}

/// Rewrites the gain map length that a container directory declares.
pub fn patch_container_gainmap_length(xmp: &mut Vec<u8>, new_len: usize)
    ensures
        final(xmp)@ == with_declared_length(old(xmp)@, new_len as nat),
{
    let sem: usize = match find_sub(xmp.as_slice(), &SEMANTIC_GAINMAP) {
        Some(i) => i,
        None => return,
    };
    let attr: usize = match find_at(xmp.as_slice(), &LENGTH_ATTR, sem) {
        Some(i) => i,
        None => return,
    };
    proof {
        lemma_find_from(xmp@, LENGTH_ATTR@, sem as int);
    }
    let start: usize = attr + LENGTH_ATTR.len();
    let end: usize = match find_at(xmp.as_slice(), &QUOTE, start) {
        Some(i) => i,
        None => return,
    };
    proof {
        lemma_find_from(xmp@, QUOTE@, start as int);
    }
    let digits: Vec<u8> = decimal_digits(new_len);
    splice(xmp, start, end, digits.as_slice());
}

/// `raw` with a rewritten packet in the segment from `off` to `end`.
pub open spec fn with_patched_packet(raw: Seq<u8>, off: int, end: int, n: nat) -> Seq<u8> {
    let packet = with_declared_length(raw.subrange(off + 4, end), n);
    raw.subrange(0, off + 2) + be16_bytes(packet.len() as int + 2) + packet + raw.subrange(
        end,
        raw.len() as int,
    )
}

/// Rewrites the packet in the segment from `off` to `end`, and its length field.
fn patch_packet(jpeg: &mut Vec<u8>, off: usize, end: usize, new_len: usize)
    requires
        off + 4 <= end <= old(jpeg)@.len(),
    ensures
        final(jpeg)@ == with_patched_packet(old(jpeg)@, off as int, end as int, new_len as nat),
{
    let mut packet: Vec<u8> = slice_to_vec(slice_subrange(jpeg.as_slice(), off + 4, end));
    patch_container_gainmap_length(&mut packet, new_len);
    let field: u16 = ((packet.len() % 0x1_0000 + 2) % 0x1_0000) as u16;
    proof {
        crate::bytes::lemma_be16_low(packet@.len() as int + 2);
        assert(field == (packet@.len() + 2) % 0x1_0000);
    }
    let mut with: Vec<u8> = Vec::new();
    append_be16(&mut with, field);
    append(&mut with, packet.as_slice());
    splice(jpeg, off + 2, end, with.as_slice());
    assert(jpeg@ =~= with_patched_packet(old(jpeg)@, off as int, end as int, new_len as nat));
}

/// `raw` from the walk position `off` on: the first segment that holds an XMP packet gets a
/// directory that declares a gain map of `n` bytes, and the length field that goes with it.
pub open spec fn with_patched_xmp_from(raw: Seq<u8>, off: int, n: nat) -> Seq<u8>
    decreases raw.len() - off,
{
    match scan_at(raw, off) {
        Scan::Stop => raw,
        Scan::Standalone => with_patched_xmp_from(raw, off + 2, n),
        Scan::Segment { marker: _, end } => if matches_at(raw, XMP_SIG@, off + 4) {
            with_patched_packet(raw, off, end, n)
        } else {
            with_patched_xmp_from(raw, end, n)
        },
    }
}

/// What stands before the walk position stays where it is.
pub proof fn lemma_patched_keeps_head(raw: Seq<u8>, off: int, n: nat)
    requires
        0 <= off <= raw.len(),
    ensures
        with_patched_xmp_from(raw, off, n).len() >= off,
        with_patched_xmp_from(raw, off, n).subrange(0, off) == raw.subrange(0, off),
    decreases raw.len() - off,
{
    match scan_at(raw, off) {
        Scan::Stop => {},
        Scan::Standalone => {
            lemma_patched_keeps_head(raw, off + 2, n);
            let out = with_patched_xmp_from(raw, off + 2, n);
            assert(out.subrange(0, off) =~= out.subrange(0, off + 2).subrange(0, off));
            assert(raw.subrange(0, off) =~= raw.subrange(0, off + 2).subrange(0, off));
        },
        Scan::Segment { marker: _, end } => {
            if matches_at(raw, XMP_SIG@, off + 4) {
                assert(with_patched_xmp_from(raw, off, n).subrange(0, off) =~= raw.subrange(0, off));
            } else {
                lemma_patched_keeps_head(raw, end, n);
                let out = with_patched_xmp_from(raw, end, n);
                assert(out.subrange(0, off) =~= out.subrange(0, end).subrange(0, off));
                assert(raw.subrange(0, off) =~= raw.subrange(0, end).subrange(0, off));
            }
        },
    }
}

/// Rewrites the gain map length that a JPEG file's first XMP packet declares.
pub fn patch_xmp_in_jpeg(jpeg: &mut Vec<u8>, new_len: usize)
    ensures
        final(jpeg)@ == with_patched_xmp_from(old(jpeg)@, 2, new_len as nat),
{
    let mut off: usize = 2;
    loop
        invariant
            jpeg@ == old(jpeg)@,
            with_patched_xmp_from(jpeg@, 2, new_len as nat) == with_patched_xmp_from(
                jpeg@,
                off as int,
                new_len as nat,
            ),
        decreases jpeg@.len() - off,
    {
        match scan(jpeg.as_slice(), off) {
            Mark::Stop => {
                return;
            },
            Mark::Standalone => {
                off += 2;
            },
            Mark::Segment { marker: _, end } => {
                if stands_at(jpeg.as_slice(), &XMP_SIG, off + 4) {
                    patch_packet(jpeg, off, end, new_len);
                    return;
                }
                off = end;
            },
        }
    }
}

/// The container directory packet of a file whose gain map has `n` bytes.
pub open spec fn primary_xmp(n: nat) -> Seq<u8> {
    XMP_SIG@ + seq![0u8] + encode_utf8(PRIMARY_HEAD@) + HDRGM@ + encode_utf8(PRIMARY_ITEMS@)
        + decimal(n) + encode_utf8(PRIMARY_TAIL@)
}

/// The container directory packet of a file whose gain map has `gainmap_len` bytes.
pub fn build_primary_xmp(gainmap_len: usize) -> (r: Vec<u8>)
    ensures
        r@ == primary_xmp(gainmap_len as nat),
{
    let mut out: Vec<u8> = Vec::new();
    append(&mut out, &XMP_SIG);
    out.push(0);
    assert(out@ =~= XMP_SIG@ + seq![0u8]);
    append(&mut out, PRIMARY_HEAD.as_bytes());
    append(&mut out, &HDRGM);
    append(&mut out, PRIMARY_ITEMS.as_bytes());
    append(&mut out, decimal_digits(gainmap_len).as_slice());
    append(&mut out, PRIMARY_TAIL.as_bytes());
    out
}

/// The gain map attribute packet; `gain` is the largest log2 gain in decimal notation.
pub open spec fn secondary_xmp(gain: Seq<u8>) -> Seq<u8> {
    XMP_SIG@ + seq![0u8] + encode_utf8(SECONDARY_HEAD@) + HDRGM@ + encode_utf8(SECONDARY_RANGE@)
        + gain + encode_utf8(SECONDARY_MIDDLE@) + gain + encode_utf8(SECONDARY_TAIL@)
}

/// The gain map attribute packet; `gain` is the largest log2 gain in decimal notation.
pub fn build_secondary_xmp(gain: &[u8]) -> (r: Vec<u8>)
    ensures
        r@ == secondary_xmp(gain@),
{
    let mut out: Vec<u8> = Vec::new();
    append(&mut out, &XMP_SIG);
    out.push(0);
    assert(out@ =~= XMP_SIG@ + seq![0u8]);
    append(&mut out, SECONDARY_HEAD.as_bytes());
    append(&mut out, &HDRGM);
    append(&mut out, SECONDARY_RANGE.as_bytes());
    append(&mut out, gain);
    append(&mut out, SECONDARY_MIDDLE.as_bytes());
    append(&mut out, gain);
    append(&mut out, SECONDARY_TAIL.as_bytes());
    out
}

/// A character takes at most four bytes.
proof fn lemma_encoded_len(chars: Seq<char>)
    ensures
        encode_utf8(chars).len() <= 4 * chars.len(),
    decreases chars.len(),
{
    if chars.len() > 0 {
        lemma_encoded_len(chars.drop_first());
    }
}

/// A 32-bit number has at most ten digits.
pub(crate) proof fn lemma_decimal_len(n: nat)
    requires
        n < 0x1_0000_0000,
    ensures
        decimal(n).len() <= 10,
{
    reveal_with_fuel(decimal, 11);
}

/// A length field can count the container directory of a file whose gain map is not too large.
pub proof fn lemma_primary_fits(n: nat)
    requires
        n < 0x1_0000_0000,
    ensures
        primary_xmp(n).len() + 2 <= 0xFFFF,
{
    reveal_strlit("<x:xmpmeta xmlns:x=\"adobe:ns:meta/\" x:xmptk=\"Adobe XMP Core 5.1.2\">\n  \
<rdf:RDF xmlns:rdf=\"http://www.w3.org/1999/02/22-rdf-syntax-ns#\">\n    \
<rdf:Description\n        \
xmlns:Container=\"http://ns.google.com/photos/1.0/container/\"\n        \
xmlns:Item=\"http://ns.google.com/photos/1.0/container/item/\"\n        \
xmlns:hdrgm=\"http://ns.adobe.com/hdr-gain-map/1.0/\"\n        ");
    reveal_strlit("Version=\"1.0\">\n      \
<Container:Directory>\n        \
<rdf:Seq>\n          \
<rdf:li rdf:parseType=\"Resource\">\n            \
<Container:Item\n             Item:Semantic=\"Primary\"\n             Item:Mime=\"image/jpeg\"/>\n          \
</rdf:li>\n          \
<rdf:li rdf:parseType=\"Resource\">\n            \
<Container:Item\n             Item:Semantic=\"GainMap\"\n             Item:Mime=\"image/jpeg\"\n             Item:Length=\"");
    reveal_strlit("\"/>\n          \
</rdf:li>\n        \
</rdf:Seq>\n      \
</Container:Directory>\n    \
</rdf:Description>\n  \
</rdf:RDF>\n\
</x:xmpmeta>");
    lemma_encoded_len(PRIMARY_HEAD@);
    lemma_encoded_len(PRIMARY_ITEMS@);
    lemma_encoded_len(PRIMARY_TAIL@);
    lemma_decimal_len(n);
}

/// A pattern stands at the same places in two sequences with a common beginning.
proof fn lemma_matches_prefix(a: Seq<u8>, b: Seq<u8>, pat: Seq<u8>, n: int, j: int)
    requires
        0 <= n <= a.len(),
        n <= b.len(),
        a.subrange(0, n) == b.subrange(0, n),
        0 <= j,
        j + pat.len() <= n,
    ensures
        matches_at(a, pat, j) == matches_at(b, pat, j),
{
    assert(a.subrange(j, j + pat.len()) =~= a.subrange(0, n).subrange(j, j + pat.len()));
    assert(b.subrange(j, j + pat.len()) =~= b.subrange(0, n).subrange(j, j + pat.len()));
}

/// A pattern is found at the same place in two sequences with a common beginning that holds it.
proof fn lemma_find_prefix(a: Seq<u8>, b: Seq<u8>, pat: Seq<u8>, from: int, n: int)
    requires
        0 <= from,
        pat.len() > 0,
        0 <= n <= a.len(),
        n <= b.len(),
        a.subrange(0, n) == b.subrange(0, n),
        find_from(a, pat, from) matches Some(at) && at + pat.len() <= n,
    ensures
        find_from(b, pat, from) == find_from(a, pat, from),
{
    lemma_find_from(a, pat, from);
    let at = find_from(a, pat, from)->Some_0;
    assert forall|j: int| from <= j <= at implies matches_at(a, pat, j) == #[trigger] matches_at(
        b,
        pat,
        j,
    ) by {
        lemma_matches_prefix(a, b, pat, n, j);
    }
    lemma_find_from_is(b, pat, from, at);
}

/// Decimal notation has digits only, and at least one.
pub proof fn lemma_decimal_digits(n: nat)
    ensures
        decimal(n).len() > 0,
        forall|i: int| 0 <= i < decimal(n).len() ==> 0x30 <= #[trigger] decimal(n)[i] <= 0x39,
    decreases n,
{
    if n >= 10 {
        lemma_decimal_digits(n / 10);
    }
}

/// A container directory that was rewritten declares the length that it was rewritten for.
pub proof fn law_declared_length_reads_back(xmp: Seq<u8>, n: nat)
    requires
        declared_length(xmp) is Some,
    ensures
        ({
            let out = with_declared_length(xmp, n);
            let start = (declared_length(xmp)->Some_0).0;
            let end = start + decimal(n).len();
            &&& declared_length(out) == Some((start, end))
            &&& out.subrange(start, end) == decimal(n)
        }),
{
    let out = with_declared_length(xmp, n);
    let (start, end) = declared_length(xmp)->Some_0;
    let digits = decimal(n);
    let sem = find_from(xmp, SEMANTIC_GAINMAP@, 0)->Some_0;
    let attr = find_from(xmp, LENGTH_ATTR@, sem)->Some_0;
    lemma_find_from(xmp, SEMANTIC_GAINMAP@, 0);
    lemma_find_from(xmp, LENGTH_ATTR@, sem);
    lemma_find_from(xmp, QUOTE@, start);
    lemma_decimal_digits(n);
    assert(out.subrange(0, start) =~= xmp.subrange(0, start));
    assert(sem + 18 <= start) by {
        if attr < sem + 18 {
            let k = attr - sem;
            let s = xmp.subrange(sem, sem + 18);
            let a = xmp.subrange(attr, attr + 8);
            assert(s[k] == xmp[attr] && a[0] == xmp[attr]);
            assert(LENGTH_ATTR@[0] == 0x4C);
            assert(SEMANTIC_GAINMAP@[k] != 0x4C);
        }
    }
    lemma_find_prefix(xmp, out, SEMANTIC_GAINMAP@, 0, start);
    lemma_find_prefix(xmp, out, LENGTH_ATTR@, sem, start);
    let close = start + digits.len();
    assert(out.subrange(start, close) =~= digits);
    assert(xmp.subrange(end, end + 1)[0] == xmp[end]);
    assert(out[close] == xmp[end]);
    assert(out.subrange(close, close + 1) =~= QUOTE@);
    assert forall|j: int| start <= j < close implies !#[trigger] matches_at(out, QUOTE@, j) by {
        assert(out.subrange(j, j + 1)[0] == out[j]);
        assert(out[j] == digits[j - start]);
        assert(QUOTE@[0] == 0x22);
    }
    lemma_find_from_is(out, QUOTE@, start, close);
}

} // verus!
