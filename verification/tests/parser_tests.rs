use metadata_generator::jsonin::parse_manifest;
use metadata_generator::jsonout::manifest_json;
use metadata_generator::manifest::{generate_manifest, Metadata, ScannedFile};

fn template() -> Metadata {
    Metadata {
        artwork_id: "ART-001".to_string(),
        artwork_title: "Parsed Art".to_string(),
        artwork_short_title: "PA".to_string(),
        artwork_creator: "A. \"Quoted\" Creator".to_string(),
        year_of_creation: 2024,
        short_description: "line one\nline two\tand tab".to_string(),
        long_description: "back\\slash and control\u{1}char".to_string(),
        edition_number: -2,
        total_editions: 10,
        issue_date: "2024-05-01".to_string(),
        gallery: "".to_string(),
        keywords: vec!["a".to_string(), "b".to_string()],
        medium: Vec::new(),
        certificate_of_authenticity: None,
        certificate_hash: None,
        artwork_files: Vec::new(),
    }
}

fn scanned(name: &str, bytes: &[u8]) -> ScannedFile {
    ScannedFile { file_name: name.to_string(), bytes: bytes.to_vec() }
}

#[test]
fn parser_round_trips_the_serialized_manifest() {
    let entries = vec![scanned("a.mp4", b"abcd"), scanned("b.mp3", b"wxyz")];
    let m = generate_manifest(&template(), &entries, None);
    let text = manifest_json(&m);
    let parsed = parse_manifest(&text).expect("canonical text parses");
    assert_eq!(parsed, m);
}

#[test]
fn parser_round_trips_certificate_fields_and_escapes() {
    let mut t = template();
    t.certificate_of_authenticity = Some("./certificate/coa.pdf".to_string());
    let cert = b"%PDF-1.4".to_vec();
    let m = generate_manifest(&t, &vec![scanned("a.mp4", b"abcd")], Some(&cert));
    let text = manifest_json(&m);
    let parsed = parse_manifest(&text).expect("canonical text parses");
    assert_eq!(parsed, m);
    assert_eq!(manifest_json(&parsed), text);
}

#[test]
fn parser_round_trips_an_empty_file_list() {
    let m = generate_manifest(&template(), &Vec::new(), None);
    let text = manifest_json(&m);
    assert_eq!(parse_manifest(&text), Some(m));
}

#[test]
fn parser_rejects_malformed_text() {
    assert_eq!(parse_manifest(""), None);
    assert_eq!(parse_manifest("{}"), None);
    assert_eq!(parse_manifest("{\n  \"artwork_id\": \"x\""), None);
    assert_eq!(parse_manifest("not json at all"), None);
}

#[test]
fn parser_rejects_trailing_text() {
    let m = generate_manifest(&template(), &vec![scanned("a.mp4", b"abcd")], None);
    let mut text = manifest_json(&m);
    assert!(parse_manifest(&text).is_some());
    text.push(' ');
    assert_eq!(parse_manifest(&text), None);
}

#[test]
fn parser_rejects_reordered_fields() {
    let m = generate_manifest(&template(), &vec![scanned("a.mp4", b"abcd")], None);
    let text = manifest_json(&m);
    let v: serde_json::Value = serde_json::from_str(&text).unwrap();
    // serde_json re-serializes object keys sorted, not in the manifest's
    // canonical order
    let reordered = serde_json::to_string_pretty(&v).unwrap();
    assert_eq!(parse_manifest(&reordered), None);
}

#[test]
fn parser_rejects_non_canonical_numerals() {
    let m = generate_manifest(&template(), &vec![scanned("a.mp4", b"abcd")], None);
    let text = manifest_json(&m);
    let padded = text.replace("\"file_size\": 4", "\"file_size\": 04");
    assert_ne!(padded, text);
    assert_eq!(parse_manifest(&padded), None);
}
