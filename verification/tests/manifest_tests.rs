use metadata_generator::manifest::{
    artwork_file_from_digest, build_artwork_file, check_manifest, find_certificate,
    generate_manifest, is_hex_digest_str, manifest_file_name, ArtworkFile, Metadata, ScannedFile,
};

fn template() -> Metadata {
    Metadata {
        artwork_id: "ART-001".to_string(),
        artwork_title: "My Great Work".to_string(),
        artwork_short_title: "Great Work".to_string(),
        artwork_creator: "A. Creator".to_string(),
        year_of_creation: 2024,
        short_description: "short".to_string(),
        long_description: "long".to_string(),
        edition_number: 1,
        total_editions: 3,
        issue_date: "2024-05-01".to_string(),
        gallery: "The Gallery".to_string(),
        keywords: vec!["art".to_string(), "video".to_string()],
        medium: vec!["digital".to_string()],
        certificate_of_authenticity: None,
        certificate_hash: None,
        artwork_files: Vec::new(),
    }
}

fn scanned(name: &str, bytes: &[u8]) -> ScannedFile {
    ScannedFile { file_name: name.to_string(), bytes: bytes.to_vec() }
}

#[test]
fn generate_records_digest_size_and_format() {
    let entries = vec![scanned("a.mp4", b"abcd"), scanned("b.mp3", b"wxyz")];
    let m = generate_manifest(&template(), &entries, None);
    assert_eq!(m.artwork_files.len(), 2);
    let a = &m.artwork_files[0];
    assert_eq!(a.path, "./a.mp4");
    assert_eq!(a.file_name, "a.mp4");
    assert_eq!(a.file_hash, blake3::hash(b"abcd").to_hex().to_string());
    assert_eq!(a.file_size, 4);
    assert_eq!(a.format, "MP4");
    let b = &m.artwork_files[1];
    assert_eq!(b.file_hash, blake3::hash(b"wxyz").to_hex().to_string());
    assert_eq!(b.file_size, 4);
    assert_eq!(b.format, "MP3");
}

#[test]
fn generate_copies_descriptive_fields_from_template() {
    let m = generate_manifest(&template(), &Vec::new(), None);
    assert_eq!(m.artwork_title, "My Great Work");
    assert_eq!(m.year_of_creation, 2024);
    assert_eq!(m.keywords, vec!["art".to_string(), "video".to_string()]);
    assert_eq!(m.medium, vec!["digital".to_string()]);
    assert!(m.artwork_files.is_empty());
}

#[test]
fn generate_skips_housekeeping_and_prior_manifests() {
    let entries = vec![
        scanned(".DS_Store", b"junk"),
        scanned("a.mp4", b"abcd"),
        scanned("Foo_metadata.json", b"{}"),
        scanned("b.mp3", b"wxyz"),
    ];
    let m = generate_manifest(&template(), &entries, None);
    let names: Vec<&str> = m.artwork_files.iter().map(|f| f.file_name.as_str()).collect();
    assert_eq!(names, vec!["a.mp4", "b.mp3"]);
    assert!(!names.contains(&".DS_Store"));
    assert!(!names.contains(&"Foo_metadata.json"));
}

#[test]
fn generate_keeps_enumeration_order() {
    let entries = vec![
        scanned("z.mp4", b"1"),
        scanned("a.mp4", b"2"),
        scanned("m.mp4", b"3"),
    ];
    let m = generate_manifest(&template(), &entries, None);
    let names: Vec<&str> = m.artwork_files.iter().map(|f| f.file_name.as_str()).collect();
    assert_eq!(names, vec!["z.mp4", "a.mp4", "m.mp4"]);
}

#[test]
fn generate_without_certificate_has_no_certificate_fields() {
    let m = generate_manifest(&template(), &vec![scanned("a.mp4", b"abcd")], None);
    assert!(m.certificate_of_authenticity.is_none());
    assert!(m.certificate_hash.is_none());
}

#[test]
fn generate_with_certificate_records_its_digest() {
    let mut t = template();
    t.certificate_of_authenticity = Some("./certificate/coa.pdf".to_string());
    let cert = b"%PDF-1.4 certificate".to_vec();
    let m = generate_manifest(&t, &vec![scanned("a.mp4", b"abcd")], Some(&cert));
    assert_eq!(m.certificate_of_authenticity.as_deref(), Some("./certificate/coa.pdf"));
    assert_eq!(m.certificate_hash, Some(blake3::hash(&cert).to_hex().to_string()));
}

#[test]
fn generate_with_unreadable_certificate_continues_without_hash() {
    let mut t = template();
    t.certificate_of_authenticity = Some("./certificate/coa.pdf".to_string());
    let m = generate_manifest(&t, &vec![scanned("a.mp4", b"abcd")], None);
    assert_eq!(m.certificate_of_authenticity.as_deref(), Some("./certificate/coa.pdf"));
    assert!(m.certificate_hash.is_none());
}

#[test]
fn manifest_file_name_replaces_spaces() {
    assert_eq!(manifest_file_name("My Great Work"), "My_Great_Work_metadata.json");
    assert_eq!(manifest_file_name("solo"), "solo_metadata.json");
}

#[test]
fn manifest_file_name_is_self_excluding() {
    let name = manifest_file_name("Any Title At All");
    assert!(metadata_generator::rules::should_ignore_file(&name));
}

#[test]
fn find_certificate_takes_first_pdf_in_order() {
    let entries = vec![
        "readme.txt".to_string(),
        "scan.PDF".to_string(),
        "other.pdf".to_string(),
    ];
    assert_eq!(
        find_certificate(&entries).as_deref(),
        Some("./certificate/scan.PDF")
    );
}

#[test]
fn find_certificate_without_pdf_is_none() {
    assert_eq!(find_certificate(&Vec::new()), None);
    let entries = vec!["readme.txt".to_string(), "scan.png".to_string()];
    assert_eq!(find_certificate(&entries), None);
}

#[test]
fn build_artwork_file_matches_generate() {
    let af: ArtworkFile = build_artwork_file("a.mp4", &b"abcd".to_vec());
    let m = generate_manifest(&template(), &vec![scanned("a.mp4", b"abcd")], None);
    assert_eq!(af, m.artwork_files[0]);
}

#[test]
fn artwork_file_from_digest_assembles_the_record() {
    let digest = blake3::hash(b"abcd").to_hex().to_string();
    assert!(is_hex_digest_str(&digest));
    let af = artwork_file_from_digest("a.mp4", digest.clone(), 4);
    assert_eq!(af.path, "./a.mp4");
    assert_eq!(af.file_name, "a.mp4");
    assert_eq!(af.file_hash, digest);
    assert_eq!(af.file_size, 4);
    assert_eq!(af.format, "MP4");
}

#[test]
fn generated_manifests_are_well_formed() {
    let entries = vec![scanned("a.mp4", b"abcd"), scanned("b.mp3", b"wxyz")];
    let mut t = template();
    t.certificate_of_authenticity = Some("./certificate/coa.pdf".to_string());
    let cert = b"%PDF-1.4".to_vec();
    let m = generate_manifest(&t, &entries, Some(&cert));
    assert!(check_manifest(&m));
}

#[test]
fn check_manifest_rejects_duplicate_file_names() {
    let mut m = generate_manifest(&template(), &vec![scanned("a.mp4", b"abcd")], None);
    let copy = m.artwork_files[0].clone();
    m.artwork_files.push(copy);
    assert!(!check_manifest(&m));
}

#[test]
fn check_manifest_rejects_malformed_digests() {
    let mut m = generate_manifest(&template(), &vec![scanned("a.mp4", b"abcd")], None);
    m.artwork_files[0].file_hash = "not-a-digest".to_string();
    assert!(!check_manifest(&m));
}

#[test]
fn check_manifest_rejects_foreign_path_forms() {
    let mut m = generate_manifest(&template(), &vec![scanned("a.mp4", b"abcd")], None);
    m.artwork_files[0].path = "a.mp4".to_string();
    assert!(!check_manifest(&m));
}

#[test]
fn check_manifest_rejects_malformed_certificate_digest() {
    let mut m = generate_manifest(&template(), &vec![scanned("a.mp4", b"abcd")], None);
    m.certificate_hash = Some("xyz".to_string());
    assert!(!check_manifest(&m));
}

#[test]
fn is_hex_digest_str_rejects_bad_digests() {
    assert!(!is_hex_digest_str(""));
    assert!(!is_hex_digest_str("abcd"));
    let upper = blake3::hash(b"x").to_hex().to_string().to_uppercase();
    assert!(!is_hex_digest_str(&upper));
    let good = blake3::hash(b"x").to_hex().to_string();
    assert!(is_hex_digest_str(&good));
}
