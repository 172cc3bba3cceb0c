use metadata_generator::classify::{analyze_file, file_category, format_label, FileCategory};
use metadata_generator::rules::should_ignore_file;
use metadata_generator::text::{extension_of, str_ends_with, str_eq, to_lower_string, to_upper_string, underscored};

#[test]
fn housekeeping_names_are_ignored() {
    assert!(should_ignore_file(".DS_Store"));
    assert!(should_ignore_file("Thumbs.db"));
    assert!(should_ignore_file(".gitignore"));
    assert!(should_ignore_file(".gitkeep"));
}

#[test]
fn manifest_files_are_ignored() {
    assert!(should_ignore_file("Foo_metadata.json"));
    assert!(should_ignore_file("metadata.json"));
    assert!(should_ignore_file("old_metadata.json"));
}

#[test]
fn ordinary_media_names_are_not_ignored() {
    assert!(!should_ignore_file("a.mp4"));
    assert!(!should_ignore_file("track.mp3"));
    assert!(!should_ignore_file("metadata.json.bak"));
    assert!(!should_ignore_file("notes.txt"));
}

#[test]
fn audio_extensions_are_audio() {
    assert_eq!(file_category("track.mp3"), FileCategory::Audio);
    assert_eq!(file_category("track.WAV"), FileCategory::Audio);
    assert_eq!(file_category("x.flac"), FileCategory::Audio);
}

#[test]
fn image_extensions_are_other() {
    assert_eq!(file_category("still.png"), FileCategory::Other);
    assert_eq!(file_category("still.JPEG"), FileCategory::Other);
}

#[test]
fn video_and_unknown_extensions_default_to_video() {
    assert_eq!(file_category("clip.mp4"), FileCategory::Video);
    assert_eq!(file_category("clip.mov"), FileCategory::Video);
    assert_eq!(file_category("mystery.xyz"), FileCategory::Video);
    assert_eq!(file_category("no_extension"), FileCategory::Video);
}

#[test]
fn format_label_is_uppercased_extension() {
    assert_eq!(format_label("a.mp4"), "MP4");
    assert_eq!(format_label("b.Mp3"), "MP3");
    assert_eq!(format_label("archive.tar.gz"), "GZ");
}

#[test]
fn format_label_without_extension_is_unknown() {
    assert_eq!(format_label("plainfile"), "UNKNOWN");
    assert_eq!(format_label(".gitignore"), "UNKNOWN");
}

#[test]
fn analyze_file_reports_label_and_no_enrichment() {
    let fm = analyze_file("work.mp4");
    assert_eq!(fm.format, "MP4");
    assert!(fm.resolution.is_none());
    assert!(fm.duration.is_none());
}

#[test]
fn extension_of_finds_the_last_dot() {
    assert_eq!(extension_of("a.mp4").as_deref(), Some("mp4"));
    assert_eq!(extension_of("archive.tar.gz").as_deref(), Some("gz"));
    assert_eq!(extension_of("trailing.").as_deref(), Some(""));
    assert_eq!(extension_of("noext"), None);
    assert_eq!(extension_of(".hidden"), None);
    assert_eq!(extension_of("."), None);
}

#[test]
fn text_helpers_behave() {
    assert!(str_eq("abc", "abc"));
    assert!(!str_eq("abc", "abd"));
    assert!(!str_eq("abc", "abcd"));
    assert!(str_ends_with("Foo_metadata.json", "metadata.json"));
    assert!(!str_ends_with("json", "metadata.json"));
    assert_eq!(to_upper_string("mp4é"), "MP4é");
    assert_eq!(to_lower_string("MP4É"), "mp4É");
    assert_eq!(underscored("My Great Work"), "My_Great_Work");
}
