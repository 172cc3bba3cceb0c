//! The format classifier: a coarse category and a format label derived from
//! a file name's extension.
//!
//! The category is looked up by the lower-cased extension in two fixed
//! extension sets, one of audio formats and one of image-like formats that
//! fall outside the audio/video split; every other extension, an unknown one
//! included, and a missing extension default to video — the manifest always
//! needs a bucket, so the default is an explicit policy, not an oversight.
//!
//! The format label is the upper-cased extension, or `UNKNOWN` when the name
//! has none. Deeper media introspection (resolution, duration) is an
//! optional enrichment step outside this library; when it is unavailable or
//! fails, the label derived here is what the manifest records.

use vstd::prelude::*;

use crate::text::{
    extension_of,
    spec_extension,
    spec_lower_chars,
    spec_upper_chars,
    str_eq,
    to_lower_string,
    to_upper_string,
};

verus! {

/// The coarse bucket a file falls in.
#[derive(Debug, Clone, Copy, PartialEq, Eq, Structural)]
pub enum FileCategory {
    Video,
    Audio,
    Other,
}

/// The fixed set of audio extensions, lower-cased.
pub open spec fn spec_is_audio_extension(e: Seq<char>) -> bool {
    ||| e == "mp3"@
    ||| e == "wav"@
    ||| e == "flac"@
    ||| e == "aac"@
    ||| e == "ogg"@
    ||| e == "m4a"@
}

/// The fixed set of extensions outside the audio/video split, lower-cased:
/// still-image formats.
pub open spec fn spec_is_other_extension(e: Seq<char>) -> bool {
    ||| e == "jpg"@
    ||| e == "jpeg"@
    ||| e == "png"@
    ||| e == "gif"@
    ||| e == "bmp"@
    ||| e == "tiff"@
    ||| e == "webp"@
}

/// The category of a lower-cased extension: audio and image extensions have
/// their own buckets; everything else is video.
pub open spec fn spec_category_of_extension(e: Seq<char>) -> FileCategory {
    if spec_is_audio_extension(e) {
        FileCategory::Audio
    } else if spec_is_other_extension(e) {
        FileCategory::Other
    } else {
        FileCategory::Video
    }
}

/// The category of a file name; a name without an extension is video.
pub open spec fn spec_file_category(name: Seq<char>) -> FileCategory {
    match spec_extension(name) {
        Some(e) => spec_category_of_extension(spec_lower_chars(e)),
        None => FileCategory::Video,
    }
}

/// The format label a manifest records for a file name: the upper-cased
/// extension, or `UNKNOWN` when the name has none.
pub open spec fn spec_format_label(name: Seq<char>) -> Seq<char> {
    match spec_extension(name) {
        Some(e) => spec_upper_chars(e),
        None => "UNKNOWN"@,
    }
}

fn is_audio_extension(e: &str) -> (r: bool)
    ensures
        r == spec_is_audio_extension(e@),
{
    str_eq(e, "mp3") || str_eq(e, "wav") || str_eq(e, "flac") || str_eq(e, "aac") || str_eq(
        e,
        "ogg",
    ) || str_eq(e, "m4a")
}

fn is_other_extension(e: &str) -> (r: bool)
    ensures
        r == spec_is_other_extension(e@),
{
    str_eq(e, "jpg") || str_eq(e, "jpeg") || str_eq(e, "png") || str_eq(e, "gif") || str_eq(
        e,
        "bmp",
    ) || str_eq(e, "tiff") || str_eq(e, "webp")
}

/// Classifies a file name into its coarse bucket.
pub fn file_category(name: &str) -> (r: FileCategory)
    ensures
        r == spec_file_category(name@),
{
    match extension_of(name) {
        Some(e) => {
            let lower = to_lower_string(e.as_str());
            if is_audio_extension(lower.as_str()) {
                FileCategory::Audio
            } else if is_other_extension(lower.as_str()) {
                FileCategory::Other
            } else {
                FileCategory::Video
            }
        },
        None => FileCategory::Video,
    }
}

/// Derives the format label a manifest records for a file name.
pub fn format_label(name: &str) -> (r: String)
    ensures
        r@ == spec_format_label(name@),
{
    match extension_of(name) {
        Some(e) => to_upper_string(e.as_str()),
        None => {
            let r = String::from_str("UNKNOWN");
            r
        },
    }
}

/// What file analysis yields: an optional resolution and duration, filled in
/// by an enrichment collaborator when one is available, and the format label
/// the manifest records.
#[derive(Debug, Clone, PartialEq, Eq)]
pub struct FileMetadata {
    pub resolution: Option<String>,
    pub duration: Option<String>,
    pub format: String,
}

/// Analyzes a file name without outside help: the format label is derived
/// from the extension, and the enrichment fields stay empty. An enrichment
/// collaborator may fill resolution and duration in afterwards; its absence
/// or failure never blocks manifest generation.
pub fn analyze_file(file_name: &str) -> (r: FileMetadata)
    ensures
        r.format@ == spec_format_label(file_name@),
        r.resolution is None,
        r.duration is None,
{
    FileMetadata { resolution: None, duration: None, format: format_label(file_name) }
}

} // verus!
