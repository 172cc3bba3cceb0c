//! The laws relating generation and verification: a freshly generated
//! manifest verifies clean against the unchanged directory, verification is
//! a pure function of its inputs, a tampered or missing file is reported as
//! exactly that, the ignore rules keep housekeeping names out of every
//! manifest, and the certificate status follows the recorded certificate.

use vstd::prelude::*;

use crate::hashing::blake3_hex;
use crate::manifest::{
    spec_artwork_file_for,
    spec_generate,
    spec_kept_files,
    MetadataAbs,
    ScannedFileAbs,
};
use crate::report::{
    lemma_valid_count_bounds,
    spec_certificate_valid,
    spec_report,
    spec_results,
    spec_valid_count,
    FileContentAbs,
    VerificationResultAbs,
};
use crate::rules::spec_ignored;

verus! {

/// The bytes of the entries the ignore rules keep, in order: the file
/// contents a directory left unchanged since generation offers back for
/// verification.
pub open spec fn spec_kept_bytes(entries: Seq<ScannedFileAbs>) -> Seq<Seq<u8>>
    decreases entries.len(),
{
    if entries.len() == 0 {
        Seq::empty()
    } else {
        let rest = spec_kept_bytes(entries.drop_last());
        let last = entries.last();
        if spec_ignored(last.file_name) {
            rest
        } else {
            rest.push(last.bytes)
        }
    }
}

/// Each kept record is built from the kept entry with the same index: in
/// particular its recorded digest is the digest of that entry's bytes.
pub proof fn lemma_kept_files_match_kept_bytes(entries: Seq<ScannedFileAbs>)
    ensures
        spec_kept_files(entries).len() == spec_kept_bytes(entries).len(),
        forall|i: int|
            0 <= i < spec_kept_files(entries).len() ==> (#[trigger] spec_kept_files(entries)[i]).file_hash
                == blake3_hex(spec_kept_bytes(entries)[i]),
    decreases entries.len(),
{
    if entries.len() > 0 {
        lemma_kept_files_match_kept_bytes(entries.drop_last());
    }
}

/// The valid count is the length exactly when every result is valid.
pub proof fn lemma_valid_count_all(results: Seq<VerificationResultAbs>)
    ensures
        (spec_valid_count(results) == results.len()) <==> (forall|i: int|
            0 <= i < results.len() ==> (#[trigger] results[i]).is_valid),
    decreases results.len(),
{
    if results.len() > 0 {
        lemma_valid_count_all(results.drop_last());
        lemma_valid_count_bounds(results.drop_last());
        assert(forall|i: int|
            0 <= i < results.len() - 1 ==> results.drop_last()[i] == #[trigger] results[i]);
    }
}

/// With every result but the one at `j` valid and that one invalid, the
/// valid count is the length less one.
pub proof fn lemma_valid_count_one_invalid(results: Seq<VerificationResultAbs>, j: int)
    requires
        0 <= j < results.len(),
        !results[j].is_valid,
        forall|i: int|
            0 <= i < results.len() && i != j ==> (#[trigger] results[i]).is_valid,
    ensures
        spec_valid_count(results) == results.len() - 1,
    decreases results.len(),
{
    if j == results.len() - 1 {
        lemma_valid_count_all(results.drop_last());
        assert(forall|i: int|
            0 <= i < results.len() - 1 ==> (#[trigger] results.drop_last()[i]) == results[i]);
    } else {
        lemma_valid_count_one_invalid(results.drop_last(), j);
    }
}

/// Round trip: generating a manifest for a directory and verifying it at
/// once against the same, unchanged directory yields a report with no
/// invalid file, every recomputed digest equal to the recorded one, and
/// overall validity — whatever descriptive fields the template carried, and
/// with the certificate, if the template named one, still as generation
/// hashed it.
pub proof fn lemma_generate_then_verify(
    template: MetadataAbs,
    entries: Seq<ScannedFileAbs>,
    certificate_bytes: Option<Seq<u8>>,
    contents: Seq<FileContentAbs>,
    certificate: FileContentAbs,
    manifest_bytes: Seq<u8>,
)
    requires
        contents.len() == spec_kept_files(entries).len(),
        forall|i: int|
            0 <= i < contents.len() ==> #[trigger] contents[i] == FileContentAbs::Present(
                spec_kept_bytes(entries)[i],
            ),
        match template.certificate_of_authenticity {
            Some(_) => certificate_bytes is Some && certificate == FileContentAbs::Present(
                certificate_bytes.unwrap(),
            ),
            None => true,
        },
    ensures
        ({
            let m = spec_generate(template, entries, certificate_bytes);
            let r = spec_report(m, contents, certificate, manifest_bytes);
            &&& r.invalid_files == 0
            &&& r.valid_files == r.total_files
            &&& r.overall_valid
            &&& forall|i: int|
                0 <= i < r.results.len() ==> (#[trigger] r.results[i]).is_valid
                    && r.results[i].actual_hash == r.results[i].expected_hash
        }),
{
    let m = spec_generate(template, entries, certificate_bytes);
    let r = spec_report(m, contents, certificate, manifest_bytes);
    lemma_kept_files_match_kept_bytes(entries);
    assert(forall|i: int|
        0 <= i < r.results.len() ==> (#[trigger] r.results[i]).is_valid && r.results[i].actual_hash
            == r.results[i].expected_hash);
    lemma_valid_count_all(r.results);
}

/// Idempotence: verification is a pure function of the manifest, the found
/// contents and the manifest file's bytes, so verifying twice against an
/// unchanged directory yields identical reports.
pub proof fn lemma_verify_idempotent(
    m1: MetadataAbs,
    contents1: Seq<FileContentAbs>,
    certificate1: FileContentAbs,
    manifest_bytes1: Seq<u8>,
    m2: MetadataAbs,
    contents2: Seq<FileContentAbs>,
    certificate2: FileContentAbs,
    manifest_bytes2: Seq<u8>,
)
    requires
        m1 == m2,
        contents1 == contents2,
        certificate1 == certificate2,
        manifest_bytes1 == manifest_bytes2,
    ensures
        spec_report(m1, contents1, certificate1, manifest_bytes1) == spec_report(
            m2,
            contents2,
            certificate2,
            manifest_bytes2,
        ),
{
}

/// Tamper detection: altering the content found for exactly one recorded
/// file, so that its digest no longer matches, turns a clean report into one
/// with exactly one invalid result — at that file, with recomputed and
/// recorded digests unequal and no error text — and overall validity lost.
pub proof fn lemma_tamper_detection(
    m: MetadataAbs,
    contents: Seq<FileContentAbs>,
    tampered: Seq<FileContentAbs>,
    certificate: FileContentAbs,
    manifest_bytes: Seq<u8>,
    j: int,
    new_bytes: Seq<u8>,
)
    requires
        contents.len() == m.artwork_files.len(),
        tampered.len() == contents.len(),
        0 <= j < contents.len(),
        spec_report(m, contents, certificate, manifest_bytes).overall_valid,
        forall|i: int| 0 <= i < contents.len() && i != j ==> #[trigger] tampered[i] == contents[i],
        tampered[j] == FileContentAbs::Present(new_bytes),
        blake3_hex(new_bytes) != m.artwork_files[j].file_hash,
    ensures
        ({
            let r = spec_report(m, tampered, certificate, manifest_bytes);
            &&& !r.results[j].is_valid
            &&& r.results[j].actual_hash != r.results[j].expected_hash
            &&& r.results[j].error is None
            &&& r.invalid_files == 1
            &&& r.valid_files == r.total_files - 1
            &&& !r.overall_valid
        }),
{
    let clean = spec_results(m.artwork_files, contents);
    let r = spec_report(m, tampered, certificate, manifest_bytes);
    lemma_valid_count_bounds(clean);
    lemma_valid_count_all(clean);
    assert(forall|i: int|
        0 <= i < r.results.len() && i != j ==> (#[trigger] r.results[i]) == clean[i]);
    lemma_valid_count_one_invalid(r.results, j);
}

/// Missing-file detection: a recorded file that no longer exists yields an
/// invalid result carrying the error `File not found` and an empty
/// recomputed digest — a distinct outcome from a digest mismatch — and
/// overall validity is lost.
pub proof fn lemma_missing_file_detection(
    m: MetadataAbs,
    contents: Seq<FileContentAbs>,
    certificate: FileContentAbs,
    manifest_bytes: Seq<u8>,
    j: int,
)
    requires
        contents.len() == m.artwork_files.len(),
        0 <= j < contents.len(),
        contents[j] == FileContentAbs::Missing,
    ensures
        ({
            let r = spec_report(m, contents, certificate, manifest_bytes);
            &&& !r.results[j].is_valid
            &&& r.results[j].error == Some("File not found"@)
            &&& r.results[j].actual_hash == Seq::<char>::empty()
            &&& r.invalid_files >= 1
            &&& !r.overall_valid
        }),
{
    let r = spec_report(m, contents, certificate, manifest_bytes);
    lemma_valid_count_bounds(r.results);
    lemma_valid_count_all(r.results);
}

/// The ignore rules hold of every generated manifest: no kept record carries
/// an ignored name — no OS housekeeping file and no prior manifest file is
/// ever recorded.
pub proof fn lemma_ignore_rules_respected(entries: Seq<ScannedFileAbs>)
    ensures
        forall|k: int|
            0 <= k < spec_kept_files(entries).len() ==> !spec_ignored(
                (#[trigger] spec_kept_files(entries)[k]).file_name,
            ),
    decreases entries.len(),
{
    if entries.len() > 0 {
        lemma_ignore_rules_respected(entries.drop_last());
        let rest = spec_kept_files(entries.drop_last());
        let whole = spec_kept_files(entries);
        assert forall|k: int| 0 <= k < whole.len() implies !spec_ignored(
            (#[trigger] whole[k]).file_name,
        ) by {
            if k < rest.len() {
                assert(whole[k] == rest[k]);
            } else {
                assert(whole[k] == spec_artwork_file_for(
                    entries.last().file_name,
                    entries.last().bytes,
                ));
            }
        }
    }
}

/// Certificate policy, absent side: a template without a certificate yields
/// a manifest without certificate fields, and verifying any manifest without
/// a certificate reference yields a report whose certificate status is not
/// applicable and whose overall validity depends on the files alone.
pub proof fn lemma_certificate_not_applicable(
    template: MetadataAbs,
    entries: Seq<ScannedFileAbs>,
    certificate_bytes: Option<Seq<u8>>,
    contents: Seq<FileContentAbs>,
    certificate: FileContentAbs,
    manifest_bytes: Seq<u8>,
)
    requires
        template.certificate_of_authenticity is None,
    ensures
        spec_generate(template, entries, certificate_bytes).certificate_of_authenticity is None,
        spec_generate(template, entries, certificate_bytes).certificate_hash is None,
        ({
            let r = spec_report(
                spec_generate(template, entries, certificate_bytes),
                contents,
                certificate,
                manifest_bytes,
            );
            &&& r.certificate_valid is None
            &&& r.certificate_hash is None
            &&& r.overall_valid == (r.invalid_files == 0)
        }),
{
}

/// Certificate policy, tampered side: when the manifest records a
/// certificate and its digest, and the certificate found today hashes to
/// something else, the certificate status is invalid and overall validity
/// is lost, however the files fared.
pub proof fn lemma_certificate_tamper_detection(
    m: MetadataAbs,
    contents: Seq<FileContentAbs>,
    certificate: FileContentAbs,
    manifest_bytes: Seq<u8>,
    new_bytes: Seq<u8>,
)
    requires
        m.certificate_of_authenticity is Some,
        m.certificate_hash is Some,
        certificate == FileContentAbs::Present(new_bytes),
        blake3_hex(new_bytes) != m.certificate_hash.unwrap(),
    ensures
        ({
            let r = spec_report(m, contents, certificate, manifest_bytes);
            &&& r.certificate_valid == Some(false)
            &&& !r.overall_valid
        }),
{
    assert(spec_certificate_valid(m, certificate) == Some(false));
}

} // verus!
