use findex::index_engine::TrieIndex;
use findex::types::FileEntry;

fn entry(name: &str, path: &str, is_dir: bool) -> FileEntry {
    FileEntry {
        id: 0,
        name: name.to_string(),
        path: path.to_string(),
        parent_path: String::new(),
        size: 10,
        created: 0,
        modified: 0,
        accessed: 0,
        is_dir,
        is_hidden: false,
        is_readonly: false,
        extension: String::new(),
        volume: "C".to_string(),
    }
}

#[test]
fn insert_assigns_consecutive_ids() {
    let mut t = TrieIndex::new();
    assert!(t.is_empty());
    assert_eq!(t.insert(entry("a.txt", "C:\\a.txt", false)), 1);
    assert_eq!(t.insert(entry("b.txt", "C:\\b.txt", false)), 2);
    assert_eq!(t.len(), 2);
    assert_eq!(t.next_id(), 3);
}

#[test]
fn prefix_search_finds_name_and_stem() {
    let mut t = TrieIndex::new();
    t.insert(entry("Report.docx", "C:\\docs\\Report.docx", false));
    t.insert(entry("readme.md", "C:\\readme.md", false));
    let r = t.search_prefix("rep", 10);
    assert_eq!(r.len(), 1);
    assert_eq!(r[0].name, "Report.docx");
    assert_eq!(r[0].id, 1);
    let r = t.search_prefix("re", 10);
    assert_eq!(r.len(), 2);
    assert_eq!(t.search_prefix("report", 10).len(), 1);
    assert_eq!(t.search_prefix("x", 10).len(), 0);
}

#[test]
fn prefix_search_respects_limit() {
    let mut t = TrieIndex::new();
    for i in 0..5 {
        t.insert(entry(&format!("file{}.txt", i), &format!("C:\\file{}.txt", i), false));
    }
    assert_eq!(t.search_prefix("file", 3).len(), 3);
}

#[test]
fn removed_entry_is_not_found() {
    let mut t = TrieIndex::new();
    let id = t.insert(entry("notes.txt", "C:\\notes.txt", false));
    t.remove(id);
    assert!(t.is_empty());
    assert_eq!(t.search_prefix("notes", 10).len(), 0);
    assert_eq!(t.search_substring("note", 10).len(), 0);
}

#[test]
fn substring_and_path_search() {
    let mut t = TrieIndex::new();
    t.insert(entry("my_report.pdf", "C:\\work\\my_report.pdf", false));
    t.insert(entry("other.pdf", "C:\\home\\other.pdf", false));
    let r = t.search_substring("REPORT", 10);
    assert_eq!(r.len(), 1);
    assert_eq!(r[0].name, "my_report.pdf");
    let r = t.search_path_segment("\\home\\", 10);
    assert_eq!(r.len(), 1);
    assert_eq!(r[0].name, "other.pdf");
}

#[test]
fn all_entries_in_id_order_and_load() {
    let mut t = TrieIndex::new();
    t.insert(entry("b", "C:\\b", false));
    t.insert(entry("a", "C:\\a", true));
    let all = t.all_entries();
    assert_eq!(all.len(), 2);
    assert_eq!(all[0].id, 1);
    assert_eq!(all[1].id, 2);
    let mut u = TrieIndex::new();
    u.load_entries(all);
    assert_eq!(u.len(), 2);
    assert_eq!(u.next_id(), 3);
    assert_eq!(u.search_prefix("a", 10)[0].id, 2);
}

#[test]
fn ids_with_path_lists_matches() {
    let mut t = TrieIndex::new();
    t.insert(entry("x", "C:\\x", false));
    t.insert(entry("x", "C:\\x", false));
    t.insert(entry("y", "C:\\y", false));
    assert_eq!(t.ids_with_path("C:\\x"), vec![1, 2]);
    assert_eq!(t.ids_with_path("C:\\z"), Vec::<i64>::new());
}

#[test]
fn insert_appends_above_every_id() {
    let mut t = TrieIndex::new();
    t.insert(entry("b.txt", "C:\\b.txt", false));
    t.insert(entry("a.txt", "C:\\a.txt", false));
    let before = t.all_entries();
    let id = t.insert(entry("c.txt", "C:\\c.txt", false));
    assert!(before.iter().all(|e| e.id < id));
    let after = t.all_entries();
    assert_eq!(after.len(), before.len() + 1);
    assert_eq!(after[after.len() - 1].id, id);
    assert_eq!(after[after.len() - 1].name, "c.txt");
    assert_eq!(t.insert(entry("d.txt", "C:\\d.txt", false)), id + 1);
}

#[test]
fn removed_entry_is_found_by_no_search() {
    let mut t = TrieIndex::new();
    let a = t.insert(entry("notes.txt", "C:\\docs\\notes.txt", false));
    let b = t.insert(entry("notes2.txt", "C:\\docs\\notes2.txt", false));
    t.remove(a);
    let all = t.all_entries();
    assert_eq!(all.len(), 1);
    assert_eq!(all[0].id, b);
    assert!(t.search_prefix("notes", 10).iter().all(|e| e.id != a));
    assert!(t.search_substring("otes", 10).iter().all(|e| e.id != a));
    assert!(t.search_path_segment("docs", 10).iter().all(|e| e.id != a));
}

#[test]
fn field_searches_filter_all_entries_then_cut() {
    let mut t = TrieIndex::new();
    for (n, p) in [("Alpha.txt", "C:\\x\\Alpha.txt"), ("beta.txt", "C:\\y\\beta.txt"), ("ALPHABET", "C:\\x\\ALPHABET"), ("gamma", "C:\\x\\gamma")] {
        t.insert(entry(n, p, false));
    }
    let all = t.all_entries();
    let by_name: Vec<i64> = all.iter().filter(|e| e.name.to_lowercase().contains("alpha")).map(|e| e.id).collect();
    let got: Vec<i64> = t.search_substring("ALPHA", 10).iter().map(|e| e.id).collect();
    assert_eq!(got, by_name);
    let cut: Vec<i64> = t.search_substring("alpha", 1).iter().map(|e| e.id).collect();
    assert_eq!(cut, by_name[..1].to_vec());
    let by_path: Vec<i64> = all.iter().filter(|e| e.path.to_lowercase().contains("\\x\\")).map(|e| e.id).collect();
    let got: Vec<i64> = t.search_path_segment("\\X\\", 10).iter().map(|e| e.id).collect();
    assert_eq!(got, by_path);
}

#[test]
fn loaded_entries_are_found_by_their_names() {
    let mut es = Vec::new();
    for (i, n) in ["Zeta.md", "alpha.rs", "alphabet.txt"].iter().enumerate() {
        let mut e = entry(n, &format!("C:\\{}", n), false);
        e.id = 10 + i as i64;
        es.push(e);
    }
    let mut t = TrieIndex::new();
    t.load_entries(es.clone());
    for e in &es {
        assert!(t.search_prefix(&e.name, 10).iter().any(|x| x.id == e.id));
    }
    let all = t.all_entries();
    let want: Vec<i64> = all.iter().filter(|e| e.name.to_lowercase().starts_with("alp")).map(|e| e.id).collect();
    let got: Vec<i64> = t.search_prefix("ALP", 10).iter().map(|e| e.id).collect();
    assert_eq!(got, want);
    assert!(t.next_id() > 12);
}

#[test]
fn prefix_search_after_a_removal_gives_the_first_matches() {
    let mut t = TrieIndex::new();
    let a = t.insert(entry("ab.txt", "C:\\ab.txt", false));
    t.insert(entry("ac.txt", "C:\\ac.txt", false));
    t.insert(entry("ad.txt", "C:\\ad.txt", false));
    t.remove(a);
    let all = t.all_entries();
    let m: Vec<i64> = all.iter().filter(|e| e.name.to_lowercase().starts_with("a")).map(|e| e.id).collect();
    let got: Vec<i64> = t.search_prefix("a", 2).iter().map(|e| e.id).collect();
    assert!(got.len() <= 2);
    assert_eq!(got, m[..got.len()].to_vec());
    let full: Vec<i64> = t.search_prefix("a", 10).iter().map(|e| e.id).collect();
    assert_eq!(full, m);
}

#[test]
fn inserts_number_the_entries_in_order() {
    let mut t = TrieIndex::new();
    for n in ["x.txt", "y.txt", "z.txt"] {
        t.insert(entry(n, &format!("C:\\{}", n), false));
    }
    let all = t.all_entries();
    let got: Vec<(i64, &str)> = all.iter().map(|e| (e.id, e.name.as_str())).collect();
    assert_eq!(got, vec![(1, "x.txt"), (2, "y.txt"), (3, "z.txt")]);
    assert_eq!(t.next_id(), 4);
}
