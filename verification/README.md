# picseal

Watermarks for photos without losing their HDR: a library on file bytes, verified with Verus, and
JavaScript bindings around it.

What the library does:

- tells HDR photos (PNG, JPEG, HEIC, AVIF) from others (`detect`, `bmff`),
- finds the gain map of an Ultra HDR file, attaches a re-encoded one with the metadata of the
  original, and creates Ultra HDR files from a photo and a gain map (`ultrahdr`, `jpeg`, `mpf`,
  `xmp`, `neutral`, `attributes`),
- finds the gain map item and the maker note of an Apple HEIC photo (`heic`, `makernote`),
- blends a watermark into a PNG file at its own sample depth and passes the other chunks on
  (`composite`, `blend`, `watermark`, `samples`, `png_file`),
- composes a photo and an Apple gain map into a PQ PNG file (`apple`),
- lists EXIF fields (`metadata`).

What holds of whole files stands in `laws`, `kept_metadata`, `round_trip`, `directory_laws`,
`created_metadata`, `png_laws` and `unused_bytes`, over lemmas on JPEG segments in `run`.

The calls into `png`, `crc32fast` and `exif` stand in `codec`, `checksum` and `metadata`; their
contracts are trusted. Colour science is floating point and therefore not verified: `app/` has it,
and hands it to the library as functions and tables. `app/` also has the bindings.
