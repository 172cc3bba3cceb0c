//! The ignore rules: which directory entries never take part in manifest
//! generation. A fixed list of OS and VCS housekeeping names is excluded,
//! and so is every name ending in the manifest-file suffix, so that a
//! manifest never records itself or an earlier manifest as a media file.

use vstd::prelude::*;

use crate::text::{spec_ends_with, str_ends_with, str_eq};

verus! {

/// A name the manifest generator skips: one of the fixed housekeeping file
/// names, or any name ending in the manifest-file suffix.
pub open spec fn spec_ignored(name: Seq<char>) -> bool {
    ||| name == ".DS_Store"@
    ||| name == "Thumbs.db"@
    ||| name == ".gitignore"@
    ||| name == ".gitkeep"@
    ||| spec_ends_with(name, "metadata.json"@)
}

/// Decides whether a directory entry is excluded from manifest generation.
pub fn should_ignore_file(file_name: &str) -> (r: bool)
    ensures
        r == spec_ignored(file_name@),
{
    str_eq(file_name, ".DS_Store") || str_eq(file_name, "Thumbs.db") || str_eq(
        file_name,
        ".gitignore",
    ) || str_eq(file_name, ".gitkeep") || str_ends_with(file_name, "metadata.json")
}

} // verus!
