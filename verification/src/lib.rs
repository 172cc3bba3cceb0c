//! A tamper-evident manifest for a directory of artwork and media files.
//!
//! The library records, for every qualifying file of a directory, a BLAKE3
//! content digest, the file's size and a derived format label, together with
//! caller-supplied descriptive fields and an optional certificate-of-
//! authenticity fingerprint; it serializes the record to a manifest file, and
//! can later re-verify a directory against such a manifest, reporting every
//! missing or altered file.
//!
//! The library itself never touches the file system: callers enumerate a
//! directory and hand file names and bytes in, and take the assembled
//! manifest, its serialized form and the verification report back.

pub mod classify;
pub mod hashing;
pub mod jsonin;
pub mod jsonout;
pub mod laws;
pub mod manifest;
pub mod report;
pub mod rules;
pub mod text;
