use metadata_generator::jsonout::manifest_json;
use metadata_generator::manifest::{generate_manifest, Metadata, ScannedFile};
use metadata_generator::report::{verify_manifest, FileContent, VerificationReport};

fn template() -> Metadata {
    Metadata {
        artwork_id: "ART-001".to_string(),
        artwork_title: "Round Trip".to_string(),
        artwork_short_title: "RT".to_string(),
        artwork_creator: "A. Creator".to_string(),
        year_of_creation: 2024,
        short_description: "short".to_string(),
        long_description: "long".to_string(),
        edition_number: 1,
        total_editions: 1,
        issue_date: "2024-05-01".to_string(),
        gallery: "The Gallery".to_string(),
        keywords: vec!["art".to_string()],
        medium: vec!["digital".to_string()],
        certificate_of_authenticity: None,
        certificate_hash: None,
        artwork_files: Vec::new(),
    }
}

fn scanned(name: &str, bytes: &[u8]) -> ScannedFile {
    ScannedFile { file_name: name.to_string(), bytes: bytes.to_vec() }
}

fn present(bytes: &[u8]) -> FileContent {
    FileContent::Present(bytes.to_vec())
}

fn verify_clean(m: &Metadata, contents: &Vec<FileContent>) -> VerificationReport {
    let bytes = manifest_json(m).into_bytes();
    verify_manifest(m, contents, &FileContent::Missing, &bytes)
}

#[test]
fn round_trip_verifies_clean() {
    let entries = vec![scanned("a.mp4", b"abcd"), scanned("b.mp3", b"wxyz")];
    let m = generate_manifest(&template(), &entries, None);
    let contents = vec![present(b"abcd"), present(b"wxyz")];
    let r = verify_clean(&m, &contents);
    assert_eq!(r.total_files, 2);
    assert_eq!(r.valid_files, 2);
    assert_eq!(r.invalid_files, 0);
    assert!(r.overall_valid);
    assert!(r.metadata_file_valid);
    for result in &r.results {
        assert!(result.is_valid);
        assert_eq!(result.actual_hash, result.expected_hash);
        assert!(result.error.is_none());
    }
}

#[test]
fn verifying_twice_yields_identical_reports() {
    let entries = vec![scanned("a.mp4", b"abcd"), scanned("b.mp3", b"wxyz")];
    let m = generate_manifest(&template(), &entries, None);
    let contents = vec![present(b"abcd"), present(b"wxyz")];
    let first = verify_clean(&m, &contents);
    let second = verify_clean(&m, &contents);
    assert_eq!(first, second);
}

#[test]
fn tampering_one_byte_invalidates_exactly_that_file() {
    let entries = vec![scanned("a.mp4", b"abcd"), scanned("b.mp3", b"wxyz")];
    let m = generate_manifest(&template(), &entries, None);
    let contents = vec![present(b"abcd"), present(b"wxyA")];
    let r = verify_clean(&m, &contents);
    assert_eq!(r.total_files, 2);
    assert_eq!(r.valid_files, 1);
    assert_eq!(r.invalid_files, 1);
    assert!(!r.overall_valid);
    assert!(r.results[0].is_valid);
    let bad = &r.results[1];
    assert!(!bad.is_valid);
    assert_ne!(bad.actual_hash, bad.expected_hash);
    assert!(bad.error.is_none());
}

#[test]
fn missing_file_reports_file_not_found() {
    let entries = vec![scanned("a.mp4", b"abcd")];
    let m = generate_manifest(&template(), &entries, None);
    let contents = vec![FileContent::Missing];
    let r = verify_clean(&m, &contents);
    assert_eq!(r.invalid_files, 1);
    assert!(!r.overall_valid);
    let bad = &r.results[0];
    assert!(!bad.is_valid);
    assert_eq!(bad.error.as_deref(), Some("File not found"));
    assert_eq!(bad.actual_hash, "");
    assert_eq!(bad.expected_hash, blake3::hash(b"abcd").to_hex().to_string());
}

#[test]
fn unreadable_file_carries_the_reason() {
    let entries = vec![scanned("a.mp4", b"abcd")];
    let m = generate_manifest(&template(), &entries, None);
    let contents = vec![FileContent::Unreadable("permission denied".to_string())];
    let r = verify_clean(&m, &contents);
    assert!(!r.overall_valid);
    let bad = &r.results[0];
    assert!(!bad.is_valid);
    assert_eq!(bad.error.as_deref(), Some("permission denied"));
    assert_eq!(bad.actual_hash, "");
}

#[test]
fn report_fingerprints_the_manifest_file() {
    let m = generate_manifest(&template(), &vec![scanned("a.mp4", b"abcd")], None);
    let bytes = manifest_json(&m).into_bytes();
    let r = verify_manifest(&m, &vec![present(b"abcd")], &FileContent::Missing, &bytes);
    assert_eq!(r.metadata_file_hash, blake3::hash(&bytes).to_hex().to_string());
}

#[test]
fn no_certificate_means_not_applicable() {
    let m = generate_manifest(&template(), &vec![scanned("a.mp4", b"abcd")], None);
    let r = verify_clean(&m, &vec![present(b"abcd")]);
    assert!(r.certificate_valid.is_none());
    assert!(r.certificate_hash.is_none());
    assert!(r.overall_valid);
}

#[test]
fn matching_certificate_is_valid() {
    let mut t = template();
    t.certificate_of_authenticity = Some("./certificate/coa.pdf".to_string());
    let cert = b"%PDF-1.4 certificate".to_vec();
    let m = generate_manifest(&t, &vec![scanned("a.mp4", b"abcd")], Some(&cert));
    let bytes = manifest_json(&m).into_bytes();
    let r = verify_manifest(&m, &vec![present(b"abcd")], &present(&cert), &bytes);
    assert_eq!(r.certificate_valid, Some(true));
    assert_eq!(
        r.certificate_hash,
        Some(blake3::hash(&cert).to_hex().to_string())
    );
    assert!(r.overall_valid);
}

#[test]
fn altered_certificate_is_invalid_and_sinks_overall_validity() {
    let mut t = template();
    t.certificate_of_authenticity = Some("./certificate/coa.pdf".to_string());
    let cert = b"%PDF-1.4 certificate".to_vec();
    let m = generate_manifest(&t, &vec![scanned("a.mp4", b"abcd")], Some(&cert));
    let bytes = manifest_json(&m).into_bytes();
    let altered = b"%PDF-1.4 certificatX".to_vec();
    let r = verify_manifest(&m, &vec![present(b"abcd")], &present(&altered), &bytes);
    assert_eq!(r.certificate_valid, Some(false));
    assert_eq!(
        r.certificate_hash,
        Some(blake3::hash(&altered).to_hex().to_string())
    );
    assert!(!r.overall_valid);
    assert_eq!(r.invalid_files, 0);
}

#[test]
fn missing_certificate_is_invalid() {
    let mut t = template();
    t.certificate_of_authenticity = Some("./certificate/coa.pdf".to_string());
    let cert = b"%PDF-1.4 certificate".to_vec();
    let m = generate_manifest(&t, &vec![scanned("a.mp4", b"abcd")], Some(&cert));
    let bytes = manifest_json(&m).into_bytes();
    let r = verify_manifest(&m, &vec![present(b"abcd")], &FileContent::Missing, &bytes);
    assert_eq!(r.certificate_valid, Some(false));
    assert!(r.certificate_hash.is_none());
    assert!(!r.overall_valid);
}

#[test]
fn certificate_without_recorded_digest_is_invalid() {
    let mut t = template();
    t.certificate_of_authenticity = Some("./certificate/coa.pdf".to_string());
    let m = generate_manifest(&t, &vec![scanned("a.mp4", b"abcd")], None);
    assert!(m.certificate_hash.is_none());
    let bytes = manifest_json(&m).into_bytes();
    let cert = b"%PDF-1.4 certificate".to_vec();
    let r = verify_manifest(&m, &vec![present(b"abcd")], &present(&cert), &bytes);
    assert_eq!(r.certificate_valid, Some(false));
    assert_eq!(
        r.certificate_hash,
        Some(blake3::hash(&cert).to_hex().to_string())
    );
    assert!(!r.overall_valid);
}
