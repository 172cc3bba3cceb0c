use metadata_generator::jsonout::manifest_json;
use metadata_generator::manifest::{generate_manifest, Metadata, ScannedFile};

fn template() -> Metadata {
    Metadata {
        artwork_id: "ART-001".to_string(),
        artwork_title: "Serial Art".to_string(),
        artwork_short_title: "SA".to_string(),
        artwork_creator: "A. \"Quoted\" Creator".to_string(),
        year_of_creation: 2024,
        short_description: "line one\nline two".to_string(),
        long_description: "back\\slash and control\u{1}char".to_string(),
        edition_number: -2,
        total_editions: 10,
        issue_date: "2024-05-01".to_string(),
        gallery: "".to_string(),
        keywords: vec!["a".to_string(), "b".to_string()],
        medium: Vec::new(),
        certificate_of_authenticity: None,
        certificate_hash: None,
        artwork_files: Vec::new(),
    }
}

fn scanned(name: &str, bytes: &[u8]) -> ScannedFile {
    ScannedFile { file_name: name.to_string(), bytes: bytes.to_vec() }
}

#[test]
fn serialized_manifest_is_valid_json_with_the_recorded_fields() {
    let entries = vec![scanned("a.mp4", b"abcd"), scanned("b.mp3", b"wxyz")];
    let m = generate_manifest(&template(), &entries, None);
    let text = manifest_json(&m);
    let v: serde_json::Value = serde_json::from_str(&text).expect("well-formed JSON");
    assert_eq!(v["artwork_id"], "ART-001");
    assert_eq!(v["artwork_title"], "Serial Art");
    assert_eq!(v["artwork_creator"], "A. \"Quoted\" Creator");
    assert_eq!(v["year_of_creation"], 2024);
    assert_eq!(v["short_description"], "line one\nline two");
    assert_eq!(v["long_description"], "back\\slash and control\u{1}char");
    assert_eq!(v["edition_number"], -2);
    assert_eq!(v["total_editions"], 10);
    assert_eq!(v["gallery"], "");
    assert_eq!(v["keywords"], serde_json::Value::from(vec!["a", "b"]));
    assert_eq!(v["medium"], serde_json::Value::from(Vec::<String>::new()));
    let files = v["artwork_files"].as_array().expect("array");
    assert_eq!(files.len(), 2);
    assert_eq!(files[0]["path"], "./a.mp4");
    assert_eq!(files[0]["file_name"], "a.mp4");
    assert_eq!(
        files[0]["file_hash"],
        blake3::hash(b"abcd").to_hex().to_string()
    );
    assert_eq!(files[0]["file_size"], 4);
    assert_eq!(files[0]["format"], "MP4");
    assert_eq!(files[1]["format"], "MP3");
}

#[test]
fn absent_certificate_fields_are_omitted_entirely() {
    let m = generate_manifest(&template(), &vec![scanned("a.mp4", b"abcd")], None);
    let text = manifest_json(&m);
    assert!(!text.contains("certificate_of_authenticity"));
    assert!(!text.contains("certificate_hash"));
    let v: serde_json::Value = serde_json::from_str(&text).unwrap();
    assert!(v.get("certificate_of_authenticity").is_none());
}

#[test]
fn recorded_certificate_fields_are_serialized() {
    let mut t = template();
    t.certificate_of_authenticity = Some("./certificate/coa.pdf".to_string());
    let cert = b"%PDF-1.4".to_vec();
    let m = generate_manifest(&t, &vec![scanned("a.mp4", b"abcd")], Some(&cert));
    let text = manifest_json(&m);
    let v: serde_json::Value = serde_json::from_str(&text).unwrap();
    assert_eq!(v["certificate_of_authenticity"], "./certificate/coa.pdf");
    assert_eq!(
        v["certificate_hash"],
        blake3::hash(&cert).to_hex().to_string()
    );
}

#[test]
fn empty_file_list_serializes_as_empty_array() {
    let m = generate_manifest(&template(), &Vec::new(), None);
    let v: serde_json::Value = serde_json::from_str(&manifest_json(&m)).unwrap();
    assert_eq!(v["artwork_files"], serde_json::Value::from(Vec::<String>::new()));
}

#[test]
fn serialization_round_trips_through_a_json_parser() {
    let entries = vec![scanned("a.mp4", b"abcd")];
    let m = generate_manifest(&template(), &entries, None);
    let text = manifest_json(&m);
    let v: serde_json::Value = serde_json::from_str(&text).unwrap();
    let reserialized = serde_json::to_string_pretty(&v).unwrap();
    let v2: serde_json::Value = serde_json::from_str(&reserialized).unwrap();
    assert_eq!(v, v2);
}
