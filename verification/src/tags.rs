//! Byte signatures of the container formats.

use vstd::prelude::*;

verus! {

/// `hdrgm:`. Namespace prefix of the Ultra HDR gain map attributes in XMP.
pub const HDRGM: [u8; 6] = [0x68, 0x64, 0x72, 0x67, 0x6D, 0x3A];

/// `hdr-gain-map`. Tail of the XMP namespace URI of gain map metadata.
pub const HDR_GAIN_MAP: [u8; 12] = [0x68, 0x64, 0x72, 0x2D, 0x67, 0x61, 0x69, 0x6E, 0x2D, 0x6D, 0x61, 0x70];

/// `urn:iso:std:iso:ts:21496:-1`. URN of ISO 21496-1 gain map metadata, without its terminator.
pub const ISO_URN: [u8; 27] = [
    0x75, 0x72, 0x6E, 0x3A, 0x69, 0x73, 0x6F, 0x3A, 0x73, 0x74, 0x64, 0x3A, 0x69, 0x73,
    0x6F, 0x3A, 0x74, 0x73, 0x3A, 0x32, 0x31, 0x34, 0x39, 0x36, 0x3A, 0x2D, 0x31,
];

/// `urn:iso:std:iso:ts:21496:-1\x00`. Signature of an APP2 segment with ISO 21496-1 metadata.
pub const ISO21496_URN: [u8; 28] = [
    0x75, 0x72, 0x6E, 0x3A, 0x69, 0x73, 0x6F, 0x3A, 0x73, 0x74, 0x64, 0x3A, 0x69, 0x73,
    0x6F, 0x3A, 0x74, 0x73, 0x3A, 0x32, 0x31, 0x34, 0x39, 0x36, 0x3A, 0x2D, 0x31, 0x00,
];

/// `http://ns.adobe.com/xap/1.0/`. Signature of an XMP packet in a JPEG segment.
pub const XMP_SIG: [u8; 28] = [
    0x68, 0x74, 0x74, 0x70, 0x3A, 0x2F, 0x2F, 0x6E, 0x73, 0x2E, 0x61, 0x64, 0x6F, 0x62,
    0x65, 0x2E, 0x63, 0x6F, 0x6D, 0x2F, 0x78, 0x61, 0x70, 0x2F, 0x31, 0x2E, 0x30, 0x2F,
];

/// `MPF\x00`. Signature of an APP2 segment with a multi-picture directory (CIPA DC-007).
pub const MPF_SIG: [u8; 4] = [0x4D, 0x50, 0x46, 0x00];

/// `ICC_PROFILE\x00`. Signature of an APP2 segment with an ICC profile.
pub const ICC_SIG: [u8; 12] = [0x49, 0x43, 0x43, 0x5F, 0x50, 0x52, 0x4F, 0x46, 0x49, 0x4C, 0x45, 0x00];

/// `hdrgainmap`. Tail of Apple's auxiliary image URN for gain maps.
pub const AUX_GAINMAP: [u8; 10] = [0x68, 0x64, 0x72, 0x67, 0x61, 0x69, 0x6E, 0x6D, 0x61, 0x70];

/// `HDRGainMap`. Apple's XMP namespace for gain maps.
pub const AUX_GAINMAP_NS: [u8; 10] = [0x48, 0x44, 0x52, 0x47, 0x61, 0x69, 0x6E, 0x4D, 0x61, 0x70];

/// `Semantic="GainMap"`. Container attribute that marks the gain map item.
pub const SEMANTIC_GAINMAP: [u8; 18] = [
    0x53, 0x65, 0x6D, 0x61, 0x6E, 0x74, 0x69, 0x63, 0x3D, 0x22, 0x47, 0x61, 0x69, 0x6E,
    0x4D, 0x61, 0x70, 0x22,
];

/// `Length="`. Opening of the container attribute with an item's byte length.
pub const LENGTH_ATTR: [u8; 8] = [0x4C, 0x65, 0x6E, 0x67, 0x74, 0x68, 0x3D, 0x22];

/// `Apple iOS\x00`. Magic of Apple's EXIF maker note.
pub const APPLE_IOS: [u8; 10] = [0x41, 0x70, 0x70, 0x6C, 0x65, 0x20, 0x69, 0x4F, 0x53, 0x00];

/// `hdrgm:GainMapMax`. XMP attribute with the largest log2 gain per channel.
pub const GAIN_MAP_MAX: [u8; 16] = [
    0x68, 0x64, 0x72, 0x67, 0x6D, 0x3A, 0x47, 0x61, 0x69, 0x6E, 0x4D, 0x61, 0x70, 0x4D,
    0x61, 0x78,
];

/// `hdrgm:GainMapMin`. XMP attribute with the smallest log2 gain per channel.
pub const GAIN_MAP_MIN: [u8; 16] = [
    0x68, 0x64, 0x72, 0x67, 0x6D, 0x3A, 0x47, 0x61, 0x69, 0x6E, 0x4D, 0x61, 0x70, 0x4D,
    0x69, 0x6E,
];

/// `hdrgm:Gamma`. XMP attribute with the gain map encoding gamma per channel.
pub const GAIN_MAP_GAMMA: [u8; 11] = [0x68, 0x64, 0x72, 0x67, 0x6D, 0x3A, 0x47, 0x61, 0x6D, 0x6D, 0x61];

/// `\x89PNG\x0d\x0a\x1a\x0a`. Signature of a PNG file.
pub const PNG_SIG: [u8; 8] = [0x89, 0x50, 0x4E, 0x47, 0x0D, 0x0A, 0x1A, 0x0A];

/// `IHDR`. Image header chunk.
pub const IHDR: [u8; 4] = [0x49, 0x48, 0x44, 0x52];

/// `PLTE`. Palette chunk.
pub const PLTE: [u8; 4] = [0x50, 0x4C, 0x54, 0x45];

/// `IDAT`. Image data chunk.
pub const IDAT: [u8; 4] = [0x49, 0x44, 0x41, 0x54];

/// `IEND`. Image trailer chunk.
pub const IEND: [u8; 4] = [0x49, 0x45, 0x4E, 0x44];

/// `tRNS`. Transparency chunk.
pub const TRNS: [u8; 4] = [0x74, 0x52, 0x4E, 0x53];

/// `cICP`. Coding-independent code points chunk.
pub const CICP: [u8; 4] = [0x63, 0x49, 0x43, 0x50];

/// `mDCv`. Mastering display colour volume chunk.
pub const MDCV: [u8; 4] = [0x6D, 0x44, 0x43, 0x76];

/// `cLLi`. Content light level chunk.
pub const CLLI: [u8; 4] = [0x63, 0x4C, 0x4C, 0x69];

/// `acTL`. Animation control chunk.
pub const ACTL: [u8; 4] = [0x61, 0x63, 0x54, 0x4C];

/// `fcTL`. Frame control chunk.
pub const FCTL: [u8; 4] = [0x66, 0x63, 0x54, 0x4C];

/// `fdAT`. Frame data chunk.
pub const FDAT: [u8; 4] = [0x66, 0x64, 0x41, 0x54];

/// `ftyp`. File type box.
pub const FTYP: [u8; 4] = [0x66, 0x74, 0x79, 0x70];

/// `meta`. Metadata box.
pub const META: [u8; 4] = [0x6D, 0x65, 0x74, 0x61];

/// `nclx`. Colour type of an on-screen colour box.
pub const NCLX: [u8; 4] = [0x6E, 0x63, 0x6C, 0x78];

/// `tmap`. Tone map brand and item type.
pub const TMAP: [u8; 4] = [0x74, 0x6D, 0x61, 0x70];

/// `iinf`. Item information box.
pub const IINF: [u8; 4] = [0x69, 0x69, 0x6E, 0x66];

/// `infe`. Item information entry box.
pub const INFE: [u8; 4] = [0x69, 0x6E, 0x66, 0x65];

/// `iref`. Item reference box.
pub const IREF: [u8; 4] = [0x69, 0x72, 0x65, 0x66];

/// `pitm`. Primary item box.
pub const PITM: [u8; 4] = [0x70, 0x69, 0x74, 0x6D];

/// `iprp`. Item properties box.
pub const IPRP: [u8; 4] = [0x69, 0x70, 0x72, 0x70];

/// `ipco`. Item property container box.
pub const IPCO: [u8; 4] = [0x69, 0x70, 0x63, 0x6F];

/// `ipma`. Item property association box.
pub const IPMA: [u8; 4] = [0x69, 0x70, 0x6D, 0x61];

/// `auxC`. Auxiliary type property.
pub const AUXC: [u8; 4] = [0x61, 0x75, 0x78, 0x43];

/// `auxl`. Auxiliary image reference.
pub const AUXL: [u8; 4] = [0x61, 0x75, 0x78, 0x6C];

/// `dimg`. Derived image reference.
pub const DIMG: [u8; 4] = [0x64, 0x69, 0x6D, 0x67];

/// `hvc1`. HEVC image item.
pub const HVC1: [u8; 4] = [0x68, 0x76, 0x63, 0x31];

/// `grid`. Grid image item.
pub const GRID: [u8; 4] = [0x67, 0x72, 0x69, 0x64];

/// `hevc`. HEVC image item, alternative code.
pub const HEVC: [u8; 4] = [0x68, 0x65, 0x76, 0x63];

/// `av01`. AV1 image item.
pub const AV01: [u8; 4] = [0x61, 0x76, 0x30, 0x31];

/// `II`. TIFF little-endian byte order mark.
pub const BYTE_ORDER_LE: [u8; 2] = [0x49, 0x49];

/// `MM`. TIFF big-endian byte order mark.
pub const BYTE_ORDER_BE: [u8; 2] = [0x4D, 0x4D];

} // verus!
