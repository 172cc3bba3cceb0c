//! The verifier: recomputes every recorded file's digest from the bytes the
//! caller hands in and builds the verification report.
//!
//! Verification is pure: it reads the manifest value, the per-file contents
//! and the certificate content, and produces a fresh report; nothing is
//! mutated, so an unchanged directory always yields the same report.
//! Integrity mismatches are ordinary report entries, never errors: a
//! verification run always produces a report.

use vstd::prelude::*;

use crate::hashing::{blake3_hex, hash_bytes, is_hex_digest};
use crate::manifest::{ArtworkFileAbs, Metadata, MetadataAbs};

verus! {

/// What the caller found at a recorded file's path: the file's bytes, no
/// file at all, or a file that could not be read, with the reason.
pub enum FileContent {
    Present(Vec<u8>),
    Missing,
    Unreadable(String),
}

/// The mathematical content of a [`FileContent`].
pub ghost enum FileContentAbs {
    Present(Seq<u8>),
    Missing,
    Unreadable(Seq<char>),
}

impl View for FileContent {
    type V = FileContentAbs;

    open spec fn view(&self) -> FileContentAbs {
        match self {
            FileContent::Present(b) => FileContentAbs::Present(b@),
            FileContent::Missing => FileContentAbs::Missing,
            FileContent::Unreadable(e) => FileContentAbs::Unreadable(e@),
        }
    }
}

/// The views of a sequence of file contents.
pub open spec fn content_views(s: Seq<FileContent>) -> Seq<FileContentAbs> {
    s.map_values(|c: FileContent| c@)
}

/// The outcome of re-verifying one recorded file.
#[derive(Debug, Clone, PartialEq, Eq)]
pub struct VerificationResult {
    pub file_name: String,
    pub expected_hash: String,
    pub actual_hash: String,
    pub is_valid: bool,
    pub error: Option<String>,
}

/// The mathematical content of a [`VerificationResult`].
pub ghost struct VerificationResultAbs {
    pub file_name: Seq<char>,
    pub expected_hash: Seq<char>,
    pub actual_hash: Seq<char>,
    pub is_valid: bool,
    pub error: Option<Seq<char>>,
}

impl View for VerificationResult {
    type V = VerificationResultAbs;

    open spec fn view(&self) -> VerificationResultAbs {
        VerificationResultAbs {
            file_name: self.file_name@,
            expected_hash: self.expected_hash@,
            actual_hash: self.actual_hash@,
            is_valid: self.is_valid,
            error: match self.error {
                Some(ref e) => Some(e@),
                None => None,
            },
        }
    }
}

/// The views of a sequence of verification results.
pub open spec fn result_views(s: Seq<VerificationResult>) -> Seq<VerificationResultAbs> {
    s.map_values(|r: VerificationResult| r@)
}

/// The whole report of one verification run.
#[derive(Debug, Clone, PartialEq, Eq)]
pub struct VerificationReport {
    pub metadata_file_hash: String,
    pub total_files: usize,
    pub valid_files: usize,
    pub invalid_files: usize,
    pub results: Vec<VerificationResult>,
    pub metadata_file_valid: bool,
    pub certificate_valid: Option<bool>,
    pub certificate_hash: Option<String>,
    pub overall_valid: bool,
}

/// The mathematical content of a [`VerificationReport`].
pub ghost struct VerificationReportAbs {
    pub metadata_file_hash: Seq<char>,
    pub total_files: int,
    pub valid_files: int,
    pub invalid_files: int,
    pub results: Seq<VerificationResultAbs>,
    pub metadata_file_valid: bool,
    pub certificate_valid: Option<bool>,
    pub certificate_hash: Option<Seq<char>>,
    pub overall_valid: bool,
}

impl View for VerificationReport {
    type V = VerificationReportAbs;

    open spec fn view(&self) -> VerificationReportAbs {
        VerificationReportAbs {
            metadata_file_hash: self.metadata_file_hash@,
            total_files: self.total_files as int,
            valid_files: self.valid_files as int,
            invalid_files: self.invalid_files as int,
            results: result_views(self.results@),
            metadata_file_valid: self.metadata_file_valid,
            certificate_valid: self.certificate_valid,
            certificate_hash: match self.certificate_hash {
                Some(ref h) => Some(h@),
                None => None,
            },
            overall_valid: self.overall_valid,
        }
    }
}

/// The outcome for one recorded file, given what the caller found at its
/// path: present bytes are re-hashed and compared against the recorded
/// digest; a missing file is invalid with the error `File not found`; an
/// unreadable one is invalid and carries the reason, with an empty actual
/// digest.
pub open spec fn spec_verify_one(record: ArtworkFileAbs, content: FileContentAbs)
    -> VerificationResultAbs {
    match content {
        FileContentAbs::Present(b) => VerificationResultAbs {
            file_name: record.file_name,
            expected_hash: record.file_hash,
            actual_hash: blake3_hex(b),
            is_valid: blake3_hex(b) == record.file_hash,
            error: None,
        },
        FileContentAbs::Missing => VerificationResultAbs {
            file_name: record.file_name,
            expected_hash: record.file_hash,
            actual_hash: Seq::empty(),
            is_valid: false,
            error: Some("File not found"@),
        },
        FileContentAbs::Unreadable(e) => VerificationResultAbs {
            file_name: record.file_name,
            expected_hash: record.file_hash,
            actual_hash: Seq::empty(),
            is_valid: false,
            error: Some(e),
        },
    }
}

/// The results for all recorded files, in manifest order.
pub open spec fn spec_results(
    records: Seq<ArtworkFileAbs>,
    contents: Seq<FileContentAbs>,
) -> Seq<VerificationResultAbs> {
    Seq::new(records.len(), |i: int| spec_verify_one(records[i], contents[i]))
}

/// How many results are valid.
pub open spec fn spec_valid_count(results: Seq<VerificationResultAbs>) -> int
    decreases results.len(),
{
    if results.len() == 0 {
        0
    } else {
        spec_valid_count(results.drop_last()) + if results.last().is_valid {
            1int
        } else {
            0int
        }
    }
}

/// The certificate status: not applicable when the manifest names no
/// certificate; otherwise valid exactly when the certificate's bytes were
/// found and their digest equals the expected one — a missing or unreadable
/// certificate, or a manifest that holds no expected digest, is invalid.
pub open spec fn spec_certificate_valid(m: MetadataAbs, certificate: FileContentAbs) -> Option<
    bool,
> {
    match m.certificate_of_authenticity {
        None => None,
        Some(_) => Some(
            match certificate {
                FileContentAbs::Present(b) => match m.certificate_hash {
                    Some(expected) => blake3_hex(b) == expected,
                    None => false,
                },
                _ => false,
            },
        ),
    }
}

/// The certificate digest the report carries: the recomputed one, when the
/// manifest records a certificate and its bytes were found.
pub open spec fn spec_certificate_hash(m: MetadataAbs, certificate: FileContentAbs) -> Option<
    Seq<char>,
> {
    match (m.certificate_of_authenticity, certificate) {
        (Some(_), FileContentAbs::Present(b)) => Some(blake3_hex(b)),
        _ => None,
    }
}

/// The whole report of verifying a manifest against what the caller found:
/// per-file results in manifest order, the counts, the manifest file's own
/// fingerprint, the certificate status, and overall validity — no invalid
/// file, and the certificate valid or not applicable.
pub open spec fn spec_report(
    m: MetadataAbs,
    contents: Seq<FileContentAbs>,
    certificate: FileContentAbs,
    manifest_bytes: Seq<u8>,
) -> VerificationReportAbs {
    let results = spec_results(m.artwork_files, contents);
    let valid = spec_valid_count(results);
    let cert = spec_certificate_valid(m, certificate);
    VerificationReportAbs {
        metadata_file_hash: blake3_hex(manifest_bytes),
        total_files: results.len() as int,
        valid_files: valid,
        invalid_files: results.len() - valid,
        results,
        metadata_file_valid: true,
        certificate_valid: cert,
        certificate_hash: spec_certificate_hash(m, certificate),
        overall_valid: results.len() - valid == 0 && (cert is None || cert == Some(true)),
    }
}

/// The valid count lies between zero and the number of results.
pub proof fn lemma_valid_count_bounds(results: Seq<VerificationResultAbs>)
    ensures
        0 <= spec_valid_count(results) <= results.len(),
    decreases results.len(),
{
    if results.len() > 0 {
        lemma_valid_count_bounds(results.drop_last());
    }
}

fn verify_one(record: &crate::manifest::ArtworkFile, content: &FileContent) -> (r:
    VerificationResult)
    ensures
        r@ == spec_verify_one(record@, content@),
{
    match content {
        FileContent::Present(b) => {
            let actual = hash_bytes(b.as_slice());
            let is_valid = crate::text::str_eq(actual.as_str(), record.file_hash.as_str());
            VerificationResult {
                file_name: record.file_name.clone(),
                expected_hash: record.file_hash.clone(),
                actual_hash: actual,
                is_valid,
                error: None,
            }
        },
        FileContent::Missing => VerificationResult {
            file_name: record.file_name.clone(),
            expected_hash: record.file_hash.clone(),
            actual_hash: String::new(),
            is_valid: false,
            error: Some(String::from_str("File not found")),
        },
        FileContent::Unreadable(e) => VerificationResult {
            file_name: record.file_name.clone(),
            expected_hash: record.file_hash.clone(),
            actual_hash: String::new(),
            is_valid: false,
            error: Some(e.clone()),
        },
    }
}

/// Verifies a manifest against what the caller found in the base directory:
/// `contents[i]` is what stands today at the path `m.artwork_files[i]`
/// records, `certificate` is what stands at the recorded certificate path
/// (ignored when the manifest records none), and `manifest_bytes` are the
/// manifest file's own bytes, fingerprinted for the report. Read-only and
/// total: every outcome is a report, never an error.
pub fn verify_manifest(
    m: &Metadata,
    contents: &Vec<FileContent>,
    certificate: &FileContent,
    manifest_bytes: &[u8],
) -> (r: VerificationReport)
    requires
        contents@.len() == m.artwork_files@.len(),
    ensures
        r@ == spec_report(m@, content_views(contents@), certificate@, manifest_bytes@),
{
    let metadata_file_hash = hash_bytes(manifest_bytes);
    let total = m.artwork_files.len();
    let mut results: Vec<VerificationResult> = Vec::new();
    let mut valid_files: usize = 0;
    let mut invalid_files: usize = 0;
    let ghost all_results = spec_results(m@.artwork_files, content_views(contents@));
    let mut i: usize = 0;
    while i < total
        invariant
            total == m.artwork_files@.len(),
            contents@.len() == total,
            i <= total,
            all_results == spec_results(m@.artwork_files, content_views(contents@)),
            result_views(results@) == all_results.take(i as int),
            valid_files == spec_valid_count(all_results.take(i as int)),
            valid_files + invalid_files == i,
        decreases total - i,
    {
        let record = &m.artwork_files[i];
        let content = &contents[i];
        let one = verify_one(record, content);
        if one.is_valid {
            valid_files = valid_files + 1;
        } else {
            invalid_files = invalid_files + 1;
        }
        proof {
            assert(all_results.take(i + 1).drop_last() =~= all_results.take(i as int));
            assert(result_views(results@.push(one)) =~= result_views(results@).push(one@));
            assert(all_results.take(i + 1) =~= all_results.take(i as int).push(one@));
        }
        results.push(one);
        i = i + 1;
    }
    proof {
        assert(all_results.take(total as int) =~= all_results);
    }
    let certificate_valid: Option<bool> = match &m.certificate_of_authenticity {
        None => None,
        Some(_) => Some(
            match certificate {
                FileContent::Present(b) => {
                    match &m.certificate_hash {
                        Some(expected) => {
                            let actual = hash_bytes(b.as_slice());
                            crate::text::str_eq(actual.as_str(), expected.as_str())
                        },
                        None => false,
                    }
                },
                _ => false,
            },
        ),
    };
    let certificate_hash: Option<String> = match (&m.certificate_of_authenticity, certificate) {
        (Some(_), FileContent::Present(b)) => Some(hash_bytes(b.as_slice())),
        _ => None,
    };
    let overall_valid = invalid_files == 0 && match certificate_valid {
        None => true,
        Some(v) => v,
    };
    VerificationReport {
        metadata_file_hash,
        total_files: total,
        valid_files,
        invalid_files,
        results,
        metadata_file_valid: true,
        certificate_valid,
        certificate_hash,
        overall_valid,
    }
}

} // verus!
