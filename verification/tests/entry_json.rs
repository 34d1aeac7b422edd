use findex::entry_json::json_escape;
use findex::storage::Storage;
use findex::types::FileEntry;

fn sample() -> FileEntry {
    FileEntry {
        id: 7,
        name: "notes.txt".to_string(),
        path: "D:/work/notes.txt".to_string(),
        parent_path: "D:/work".to_string(),
        size: 1234,
        created: -5,
        modified: 1700000000,
        accessed: 0,
        is_dir: false,
        is_hidden: true,
        is_readonly: false,
        extension: ".txt".to_string(),
        volume: "D".to_string(),
    }
}

#[test]
fn entry_to_json_text() {
    let e = sample();
    assert_eq!(
        e.to_json(),
        "{\"id\":7,\"name\":\"notes.txt\",\"path\":\"D:/work/notes.txt\",\"parent_path\":\"D:/work\",\"size\":1234,\"created\":-5,\"modified\":1700000000,\"accessed\":0,\"is_dir\":0,\"is_hidden\":1,\"is_readonly\":0,\"extension\":\".txt\",\"volume\":\"D\"}"
    );
}

#[test]
fn entry_roundtrip_keeps_every_field() {
    let e = sample();
    let back = FileEntry::from_json(&e.to_json()).unwrap();
    assert_eq!(back.id, 7);
    assert_eq!(back.name, "notes.txt");
    assert_eq!(back.path, "D:/work/notes.txt");
    assert_eq!(back.parent_path, "D:/work");
    assert_eq!(back.size, 1234);
    assert_eq!(back.created, -5);
    assert_eq!(back.modified, 1700000000);
    assert!(!back.is_dir && back.is_hidden && !back.is_readonly);
    assert_eq!(back.extension, ".txt");
    assert_eq!(back.volume, "D");
}

#[test]
fn empty_volume_reads_back_empty() {
    let mut e = sample();
    e.volume = String::new();
    let back = FileEntry::from_json(&e.to_json()).unwrap();
    assert_eq!(back.volume, "");
}

#[test]
fn backslashes_are_escaped_and_read_back() {
    let mut e = sample();
    e.path = "C:\\a".to_string();
    e.parent_path = "C:\\".to_string();
    assert!(e.to_json().contains("\"path\":\"C:\\\\a\""));
    let back = FileEntry::from_json(&e.to_json()).unwrap();
    assert_eq!(back.path, "C:\\a");
    assert_eq!(back.parent_path, "C:\\");
}

#[test]
fn escaped_quote_tab_and_line_break_read_back() {
    let mut e = sample();
    e.name = "a\"b\tc\nd\re".to_string();
    e.volume = "\\x".to_string();
    let back = FileEntry::from_json(&e.to_json()).unwrap();
    assert_eq!(back.name, "a\"b\tc\nd\re");
    assert_eq!(back.volume, "\\x");
}

#[test]
fn from_json_rejects_short_or_bad_lines() {
    assert!(FileEntry::from_json("{\"id\":1}").is_none());
    let bad = sample().to_json().replace("\"size\":1234", "\"size\":x");
    assert!(FileEntry::from_json(&bad).is_none());
}

#[test]
fn escape_rules() {
    assert_eq!(json_escape("a\"b\\c\nd\re\tf"), "a\\\"b\\\\c\\nd\\re\\tf");
}

#[test]
fn storage_text_and_reading() {
    let mut a = sample();
    a.volume = String::new();
    let mut b = sample();
    b.id = 8;
    b.name = "b".to_string();
    b.volume = String::new();
    let text = Storage::format_entries(&vec![a, b]);
    assert!(text.starts_with("[\n  {\"id\":7,"));
    assert!(text.ends_with("}\n]\n"));
    assert_eq!(text.matches(",\n").count(), 1);
    let back = Storage::parse_entries(&text);
    assert_eq!(back.len(), 2);
    assert_eq!(back[1].id, 8);
    assert_eq!(back[1].name, "b");
    assert_eq!(Storage::entry_count(&text), 2);
}

#[test]
fn storage_empty_texts() {
    assert_eq!(Storage::format_entries(&Vec::new()), "[\n]\n");
    assert!(Storage::parse_entries("[]").is_empty());
    assert!(Storage::parse_entries("  ").is_empty());
    assert_eq!(Storage::entry_count("[\n]\n"), 0);
    let s = Storage::new("C:\\idx.db".to_string());
    assert_eq!(s.path(), "C:\\idx.db");
}

#[test]
fn saved_index_with_windows_paths_loads_back() {
    let mut a = sample();
    a.path = "C:\\Users\\me\\notes.txt".to_string();
    a.parent_path = "C:\\Users\\me".to_string();
    let text = Storage::format_entries(&vec![a.clone()]);
    let back = Storage::parse_entries(&text);
    assert_eq!(back.len(), 1);
    assert_eq!(back[0].path, a.path);
    assert_eq!(back[0].parent_path, a.parent_path);
    assert_eq!(back[0].volume, "D");
    assert_eq!(back[0].name, a.name);
}
