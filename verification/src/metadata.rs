//! EXIF fields of photos.

use vstd::prelude::*;

verus! {

/// An EXIF field in text form.
pub struct ExifData {
    /// Name of the tag.
    pub tag: String,
    /// Value.
    pub value: String,
    /// Value with its unit.
    pub value_with_unit: String,
}

/// What an `ExifData` stands for.
pub struct ExifText {
    pub tag: Seq<char>,
    pub value: Seq<char>,
    pub value_with_unit: Seq<char>,
}

impl View for ExifData {
    type V = ExifText;

    open spec fn view(&self) -> ExifText {
        ExifText { tag: self.tag@, value: self.value@, value_with_unit: self.value_with_unit@ }
    }
}

/// The fields that a list of `ExifData` stands for.
pub open spec fn exif_views(v: Seq<ExifData>) -> Seq<ExifText> {
    v.map_values(|e: ExifData| e@)
}

/// What reading gives, as values that contracts speak of.
pub open spec fn exif_option(r: Option<Vec<ExifData>>) -> Option<Seq<ExifText>> {
    match r {
        Some(v) => Some(exif_views(v@)),
        None => None,
    }
}

/// The fields that `exif` reads of the image file `raw`, each as the texts of its tag, of its value
/// and of its value with unit, on a machine whose largest size is `largest`; `None` for an error.
pub uninterp spec fn exif_fields(raw: Seq<u8>, largest: int) -> Option<Seq<ExifText>>;

/// Calls `exif::Reader::read_from_container`, and turns each field's `tag`, `display_value` and
/// `display_value` with unit into text. It is trusted that the outcome depends on the file and the
/// machine's size type alone; what the fields are stays unsaid.
#[verifier::external_body]
pub(crate) fn read_exif(raw: &[u8]) -> (r: Option<Vec<ExifData>>)
    ensures
        exif_option(r) == exif_fields(raw@, usize::MAX as int),
{
    let exif = exif::Reader::new().read_from_container(&mut std::io::Cursor::new(raw)).ok()?;
    let to_data = |f: &exif::Field| ExifData {
        tag: f.tag.to_string(),
        value: f.display_value().to_string(),
        value_with_unit: f.display_value().with_unit(&exif).to_string(),
    };
    Some(exif.fields().map(to_data).collect())
}

/// The fields that were read; none where reading failed.
pub open spec fn fields_or_none(fields: Option<Seq<ExifText>>) -> Seq<ExifText> {
    match fields {
        Some(fields) => fields,
        None => Seq::empty(),
    }
}

/// The fields that were read; an empty list where reading failed.
pub fn exif_or_empty(fields: Option<Vec<ExifData>>) -> (r: Vec<ExifData>)
    ensures
        exif_views(r@) == fields_or_none(exif_option(fields)),
{
    match fields {
        Some(fields) => fields,
        None => {
            let none: Vec<ExifData> = Vec::new();
            assert(exif_views(none@) =~= Seq::empty());
            none
        },
    }
}

/// The EXIF fields of a photo; none where it has no readable EXIF data.
pub fn get_exif(raw: Vec<u8>) -> (r: Vec<ExifData>)
    ensures
        exif_views(r@) == fields_or_none(exif_fields(raw@, usize::MAX as int)),
{
    exif_or_empty(read_exif(raw.as_slice()))
}

} // verus!
