use findex::commands::{index_volumes, search_command, volume_letter};
use findex::index_engine::TrieIndex;
use findex::searcher::Searcher;
use findex::types::FileEntry;

fn entry(name: &str, path: &str, ext: &str, is_dir: bool) -> FileEntry {
    FileEntry {
        id: 0,
        name: name.to_string(),
        path: path.to_string(),
        parent_path: String::new(),
        size: 0,
        created: 0,
        modified: 0,
        accessed: 0,
        is_dir,
        is_hidden: false,
        is_readonly: false,
        extension: ext.to_string(),
        volume: "C".to_string(),
    }
}

fn searcher() -> Searcher {
    let mut t = TrieIndex::new();
    t.insert(entry("report.docx", "C:\\work\\report.docx", ".docx", false));
    t.insert(entry("reports", "C:\\reports", "", true));
    t.insert(entry("report.rs", "C:\\src\\report.rs", ".rs", false));
    Searcher::new(t)
}

#[test]
fn search_requests() {
    let s = searcher();
    let all = search_command(&s, "report".to_string(), None, None);
    assert_eq!(all.len(), 3);
    let dirs = search_command(&s, "report".to_string(), None, Some("Folders".to_string()));
    assert_eq!(dirs.len(), 1);
    assert_eq!(dirs[0].entry.path, "C:\\reports");
    let docs = search_command(&s, "report".to_string(), None, Some("docs".to_string()));
    assert_eq!(docs.len(), 1);
    assert_eq!(docs[0].entry.name, "report.docx");
    let unknown = search_command(&s, "report".to_string(), None, Some("whatever".to_string()));
    assert_eq!(unknown.len(), 3);
    let one = search_command(&s, "report".to_string(), Some(1), None);
    assert_eq!(one.len(), 1);
    assert!(search_command(&s, "   ".to_string(), None, None).is_empty());
}

#[test]
fn volumes_to_index() {
    assert_eq!(index_volumes(&vec![]), vec!["C:\\".to_string()]);
    let dirs = vec!["D:\\".to_string(), "E:\\data".to_string()];
    assert_eq!(index_volumes(&dirs), dirs);
    assert_eq!(volume_letter("D:\\"), 'D');
    assert_eq!(volume_letter("e:"), 'e');
    assert_eq!(volume_letter("X:\\\\"), 'X');
    assert_eq!(volume_letter(""), 'C');
    assert_eq!(volume_letter(":\\"), 'C');
}
