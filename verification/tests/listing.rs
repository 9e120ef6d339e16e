use browrs::entry::{build_entries, ChildInfo, EntryKind};

fn child(name: &str, is_dir: bool) -> ChildInfo {
    ChildInfo { name: String::from(name), is_dir }
}

#[test]
fn hidden_file_excluded() {
    let entries = build_entries(vec![child(".hidden", false), child("visible.txt", false)]);
    assert_eq!(entries.len(), 2);
    assert_eq!(entries[0].name, "..");
    assert_eq!(entries[0].kind, EntryKind::Parent);
    assert_eq!(entries[1].name, "visible.txt");
    assert_eq!(entries[1].kind, EntryKind::File);
}

#[test]
fn entries_sorted_by_name() {
    let entries = build_entries(vec![child("b", false), child("a", true), child("c.txt", false)]);
    let names: Vec<&str> = entries.iter().map(|e| e.name.as_str()).collect();
    assert_eq!(names, vec!["..", "a/", "b", "c.txt"]);
    assert_eq!(entries[1].kind, EntryKind::Directory);
}

#[test]
fn directory_marker_affects_order() {
    // "foo.txt" sorts before "foo/" because '.' precedes '/'
    let entries = build_entries(vec![child("foo", true), child("foo.txt", false)]);
    let names: Vec<&str> = entries.iter().map(|e| e.name.as_str()).collect();
    assert_eq!(names, vec!["..", "foo.txt", "foo/"]);
}

#[test]
fn sentinel_always_first() {
    // '!' precedes '.' in byte order, but the sentinel is never sorted
    let entries = build_entries(vec![child("!bang", false)]);
    let names: Vec<&str> = entries.iter().map(|e| e.name.as_str()).collect();
    assert_eq!(names, vec!["..", "!bang"]);
}

#[test]
fn empty_directory_lists_only_sentinel() {
    let entries = build_entries(vec![]);
    assert_eq!(entries.len(), 1);
    assert_eq!(entries[0].name, "..");
}

#[test]
fn duplicate_names_are_kept() {
    let entries = build_entries(vec![child("same", false), child("same", false)]);
    let names: Vec<&str> = entries.iter().map(|e| e.name.as_str()).collect();
    assert_eq!(names, vec!["..", "same", "same"]);
}
