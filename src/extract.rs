//! Reading the focal-length tag out of an image file's bytes.
use vstd::prelude::*;

verus! {

/// The display text of the primary image's focal-length tag in `bytes`, if
/// the bytes are an image container with readable Exif data that has it.
pub uninterp spec fn focal_length_tag(bytes: Seq<u8>) -> Option<Seq<char>>;

/// Relies on `exif::Reader::read_from_container`, `Exif::get_field` and
/// `Field::display_value` (kamadak-exif): the FocalLength field of the
/// primary image as display text, or nothing where the container or its Exif
/// data does not parse or lacks the field. The result depends on the bytes alone.
#[verifier::external_body]
fn read_focal_length_tag(bytes: &[u8]) -> (r: Option<String>)
    ensures
        match r {
            Some(t) => focal_length_tag(bytes@) == Some(t@),
            None => focal_length_tag(bytes@) is None,
        },
{
    let mut cursor = std::io::Cursor::new(bytes);
    let exif = exif::Reader::new().read_from_container(&mut cursor).ok()?;
    let field = exif.get_field(exif::Tag::FocalLength, exif::In::PRIMARY)?;
    Some(field.display_value().to_string())
}

/// The focal-length tag's text in the contents of one file, or `None` where
/// the file is no image with that tag; other content is no error.
pub fn extract_focal_length(bytes: &Vec<u8>) -> (r: Option<String>)
    ensures
        match r {
            Some(t) => focal_length_tag(bytes@) == Some(t@),
            None => focal_length_tag(bytes@) is None,
        },
{
    read_focal_length_tag(bytes.as_slice())
}

} // verus!
