use browrs::entry::{Entry, EntryKind};
use browrs::preview::{
    extension_of, generate_preview, is_image, preview_directory, preview_file_bytes, split_lines,
    ChildMeta, PathProbe, PreviewResult,
};

fn file_entry(name: &str) -> Entry {
    Entry { name: String::from(name), kind: EntryKind::File }
}

fn meta(name: &str, is_dir: bool, size: Option<u64>) -> ChildMeta {
    ChildMeta { name: String::from(name), is_dir, size }
}

#[test]
fn size_exactly_at_threshold_is_previewed() {
    let entry = file_entry("big.txt");
    let bytes = vec![b'a'; 1_048_576];
    let probe = PathProbe::File { size: Some(1_048_576), content: Some(Ok(bytes)) };
    match generate_preview(&entry, probe) {
        PreviewResult::TextPreview { byte_size, total_line_count, truncated, .. } => {
            assert_eq!(byte_size, 1_048_576);
            assert_eq!(total_line_count, 1);
            assert!(!truncated);
        }
        other => panic!("expected a text preview, got {:?}", other),
    }
}

#[test]
fn size_one_over_threshold_is_too_large() {
    let entry = file_entry("big.txt");
    let probe = PathProbe::File { size: Some(1_048_577), content: None };
    match generate_preview(&entry, probe) {
        PreviewResult::TooLarge { byte_size } => assert_eq!(byte_size, 1_048_577),
        other => panic!("expected a too-large notice, got {:?}", other),
    }
}

#[test]
fn null_byte_classifies_as_binary() {
    let mut bytes = b"abcd0efghi".to_vec();
    bytes[4] = 0;
    match preview_file_bytes(String::from("data"), bytes) {
        PreviewResult::BinaryNotice { byte_size } => assert_eq!(byte_size, 10),
        other => panic!("expected a binary notice, got {:?}", other),
    }
}

#[test]
fn newline_instead_of_null_classifies_as_text() {
    let mut bytes = b"abcd0efghi".to_vec();
    bytes[4] = b'\n';
    match preview_file_bytes(String::from("data"), bytes) {
        PreviewResult::TextPreview { total_line_count, shown_lines, .. } => {
            assert_eq!(total_line_count, 2);
            assert_eq!(shown_lines, vec!["abcd", "efghi"]);
        }
        other => panic!("expected a text preview, got {:?}", other),
    }
}

#[test]
fn control_byte_after_first_kilobyte_is_ignored() {
    let mut bytes = vec![b'a'; 1025];
    bytes[1024] = 0;
    match preview_file_bytes(String::from("data"), bytes) {
        PreviewResult::TextPreview { byte_size, .. } => assert_eq!(byte_size, 1025),
        other => panic!("expected a text preview, got {:?}", other),
    }
}

#[test]
fn fifty_one_lines_are_truncated_to_fifty() {
    let mut text = String::new();
    for i in 0..51 {
        text.push_str(&format!("line {}\n", i));
    }
    match preview_file_bytes(String::from("long.txt"), text.into_bytes()) {
        PreviewResult::TextPreview { total_line_count, shown_lines, truncated, .. } => {
            assert_eq!(total_line_count, 51);
            assert_eq!(shown_lines.len(), 50);
            assert!(truncated);
            assert_eq!(shown_lines[49], "line 49");
        }
        other => panic!("expected a text preview, got {:?}", other),
    }
}

#[test]
fn fifty_lines_are_not_truncated() {
    let mut text = String::new();
    for i in 0..50 {
        text.push_str(&format!("line {}\n", i));
    }
    match preview_file_bytes(String::from("long.txt"), text.into_bytes()) {
        PreviewResult::TextPreview { total_line_count, shown_lines, truncated, .. } => {
            assert_eq!(total_line_count, 50);
            assert_eq!(shown_lines.len(), 50);
            assert!(!truncated);
        }
        other => panic!("expected a text preview, got {:?}", other),
    }
}

#[test]
fn decoded_lines_match_input() {
    match preview_file_bytes(String::from("x.txt"), b"one\ntwo\n".to_vec()) {
        PreviewResult::TextPreview { file_name, byte_size, total_line_count, shown_lines, truncated } => {
            assert_eq!(file_name, "x.txt");
            assert_eq!(byte_size, 8);
            assert_eq!(total_line_count, 2);
            assert_eq!(shown_lines, vec!["one", "two"]);
            assert!(!truncated);
        }
        other => panic!("expected a text preview, got {:?}", other),
    }
}

#[test]
fn invalid_utf8_is_reported() {
    match preview_file_bytes(String::from("junk"), vec![0xff, 0xfe, b'a']) {
        PreviewResult::InvalidEncoding { byte_size } => assert_eq!(byte_size, 3),
        other => panic!("expected an invalid-encoding notice, got {:?}", other),
    }
}

#[test]
fn split_lines_handles_crlf_and_lone_cr() {
    let lines = split_lines(&b"a\nb\r\nc\rd".to_vec());
    assert_eq!(lines, vec![b"a".to_vec(), b"b".to_vec(), b"c\rd".to_vec()]);
}

#[test]
fn directory_with_45_children_lists_30() {
    let mut children = Vec::new();
    for i in 0..45 {
        children.push(meta(&format!("file{:02}", i), false, Some(1)));
    }
    match preview_directory(children) {
        PreviewResult::DirectorySummary {
            subdir_count,
            file_count,
            total_bytes,
            listed_items,
            truncated_count,
        } => {
            assert_eq!(subdir_count, 0);
            assert_eq!(file_count, 45);
            assert_eq!(total_bytes, 45);
            assert_eq!(listed_items.len(), 30);
            assert_eq!(truncated_count, 15);
        }
        other => panic!("expected a directory summary, got {:?}", other),
    }
}

#[test]
fn directory_summary_sorts_directories_first() {
    let children = vec![
        meta("b", false, Some(100)),
        meta("a", true, None),
        meta("a", false, Some(24)),
        meta(".x", false, Some(7)),
    ];
    match preview_directory(children) {
        PreviewResult::DirectorySummary {
            subdir_count,
            file_count,
            total_bytes,
            listed_items,
            truncated_count,
        } => {
            assert_eq!(subdir_count, 1);
            assert_eq!(file_count, 2);
            assert_eq!(total_bytes, 124);
            assert_eq!(listed_items, vec!["a/", "a", "b"]);
            assert_eq!(truncated_count, 0);
        }
        other => panic!("expected a directory summary, got {:?}", other),
    }
}

#[test]
fn image_extension_is_case_insensitive() {
    let entry = file_entry("photo.PNG");
    let probe = PathProbe::File { size: Some(10), content: None };
    match generate_preview(&entry, probe) {
        PreviewResult::ImagePlaceholder { extension } => assert_eq!(extension, "PNG"),
        other => panic!("expected an image placeholder, got {:?}", other),
    }
}

#[test]
fn image_wins_over_size_cap() {
    let entry = file_entry("huge.jpg");
    let probe = PathProbe::File { size: Some(2_000_000), content: None };
    assert!(matches!(
        generate_preview(&entry, probe),
        PreviewResult::ImagePlaceholder { .. }
    ));
}

#[test]
fn leading_dot_is_no_extension() {
    assert_eq!(extension_of(".bashrc"), None);
    assert_eq!(extension_of("Makefile"), None);
    assert_eq!(extension_of("a.tar.gz"), Some(String::from("gz")));
    assert_eq!(extension_of("trailing."), Some(String::from("")));
}

#[test]
fn image_set_membership() {
    assert!(is_image("WebP"));
    assert!(is_image("ico"));
    assert!(!is_image("txt"));
    assert!(!is_image("pngx"));
}

#[test]
fn missing_path_is_an_access_error() {
    let entry = file_entry("gone");
    match generate_preview(&entry, PathProbe::Missing) {
        PreviewResult::AccessError { message } => assert_eq!(message, "Unable to access file"),
        other => panic!("expected an access error, got {:?}", other),
    }
}

#[test]
fn failed_directory_read_reports_its_error() {
    let entry = Entry { name: String::from("locked/"), kind: EntryKind::Directory };
    let probe = PathProbe::Dir { listing: Err(String::from("permission denied")) };
    match generate_preview(&entry, probe) {
        PreviewResult::AccessError { message } => assert_eq!(message, "permission denied"),
        other => panic!("expected an access error, got {:?}", other),
    }
}

#[test]
fn failed_file_read_reports_its_error() {
    let entry = file_entry("f.txt");
    let probe = PathProbe::File { size: Some(10), content: Some(Err(String::from("io error"))) };
    match generate_preview(&entry, probe) {
        PreviewResult::AccessError { message } => assert_eq!(message, "io error"),
        other => panic!("expected an access error, got {:?}", other),
    }
}

#[test]
fn absent_content_reports_an_access_error() {
    let entry = file_entry("f.txt");
    let probe = PathProbe::File { size: Some(10), content: None };
    match generate_preview(&entry, probe) {
        PreviewResult::AccessError { message } => assert_eq!(message, "file content unavailable"),
        other => panic!("expected an access error, got {:?}", other),
    }
}

#[test]
fn parent_sentinel_gets_the_hint() {
    let entry = Entry { name: String::from(".."), kind: EntryKind::Parent };
    assert!(matches!(
        generate_preview(&entry, PathProbe::Missing),
        PreviewResult::ParentHint
    ));
}

#[test]
fn empty_file_is_empty_text() {
    match preview_file_bytes(String::from("empty"), Vec::new()) {
        PreviewResult::TextPreview { total_line_count, shown_lines, truncated, byte_size, .. } => {
            assert_eq!(total_line_count, 0);
            assert_eq!(shown_lines.len(), 0);
            assert!(!truncated);
            assert_eq!(byte_size, 0);
        }
        other => panic!("expected a text preview, got {:?}", other),
    }
}
