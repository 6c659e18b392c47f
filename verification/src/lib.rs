//! Photo watermarking on the byte level: HDR detection, Ultra HDR assembly,
//! HEIC gain map lookup and PNG compositing.

pub mod apple;
pub mod assembled_laws;
pub mod assembly_laws;
pub mod attributes;
pub mod blend;
pub mod bmff;
pub mod box_laws;
pub mod bytes;
pub mod checksum;
pub mod chunk_laws;
pub mod codec;
pub mod composed_laws;
pub mod composite;
pub mod created_metadata;
pub mod detect;
pub mod detect_laws;
pub mod directory_laws;
pub mod gainmap_laws;
pub mod heic;
pub mod heic_laws;
pub mod jpeg;
pub mod kept_metadata;
pub mod laws;
pub mod layout_laws;
pub mod makernote;
pub mod metadata;
pub mod metadata_laws;
pub mod mpf;
pub mod neutral;
pub mod neutral_laws;
pub mod number_laws;
pub mod photo_laws;
pub mod picture_laws;
pub mod png_file;
pub mod png_laws;
pub mod round_trip;
pub mod run;
pub mod samples;
pub mod segment_laws;
pub mod several_boxes_laws;
pub mod tags;
pub mod tiff_laws;
pub mod ultrahdr;
pub mod unused_bytes;
pub mod watermark;
pub mod xmp;
