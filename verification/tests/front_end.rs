use findex::cli::{has_flag, index_args, index_db_path, index_figures, parse_flag, results_to_json, search_args};
use findex::display::{file_icon, format_date};
use findex::types::{FileEntry, MatchType, SearchResult};
use findex::walker::FsWalker;
use findex::win32::{from_wstring, get_b, get_g, get_r, hiword, loword, rgb, RECT};

fn entry(name: &str, ext: &str, is_dir: bool) -> FileEntry {
    FileEntry {
        id: 3,
        name: name.to_string(),
        path: format!("C:/{}", name),
        parent_path: "C:/".to_string(),
        size: 5,
        created: 0,
        modified: 0,
        accessed: 0,
        is_dir,
        is_hidden: false,
        is_readonly: false,
        extension: ext.to_string(),
        volume: "C".to_string(),
    }
}

fn args(v: &[&str]) -> Vec<String> {
    v.iter().map(|s| s.to_string()).collect()
}

#[test]
fn option_lookup() {
    let a = args(&["q", "--max", "5", "--json"]);
    assert_eq!(parse_flag(&a, "--max"), Some("5".to_string()));
    assert_eq!(parse_flag(&a, "--json"), None);
    assert_eq!(parse_flag(&a, "--context"), None);
    assert!(has_flag(&a, "--json"));
    assert!(!has_flag(&a, "--max2"));
}

#[test]
fn search_options() {
    let s = search_args(&args(&["report", "--max", "7", "--context", "D:\\w", "--json"])).unwrap();
    assert_eq!(s.query, "report");
    assert_eq!(s.max_results, 7);
    assert_eq!(s.context, Some("D:\\w".to_string()));
    assert!(s.json);
    let d = search_args(&args(&["x", "--max", "lots"])).unwrap();
    assert_eq!(d.max_results, 50);
    assert!(d.context.is_none() && !d.json);
    assert!(search_args(&args(&["--json"])).is_none());
    assert!(search_args(&[]).is_none());
}

#[test]
fn index_options_and_paths() {
    assert_eq!(index_args(&args(&["D:\\p", "--depth", "3"])), ("D:\\p".to_string(), 3));
    assert_eq!(index_args(&args(&["--depth", "2"])), (".".to_string(), 2));
    assert_eq!(index_args(&[]), (".".to_string(), 0));
    assert_eq!(index_db_path(""), "findex.db");
    assert_eq!(index_db_path("C:\\A"), "C:\\A\\Findex\\index.db");
}

#[test]
fn results_as_json() {
    let r = vec![
        SearchResult { entry: entry("a", "", false), score: 100, match_type: MatchType::ExactPrefix },
        SearchResult { entry: entry("b", "", true), score: -1, match_type: MatchType::Pinyin },
    ];
    let text = results_to_json(&r);
    assert!(text.starts_with("[{\"score\":100,\"match\":\"PREFIX\",\"entry\":{\"id\":3,"));
    assert!(text.contains("},{\"score\":-1,\"match\":\"PINYIN\",\"entry\":"));
    assert!(text.ends_with("}}]"));
    assert_eq!(results_to_json(&[]), "[]");
}

#[test]
fn status_figures() {
    let es = vec![entry("ab", "", false), entry("dir", "", true)];
    let (total, files, dirs, mem) = index_figures(&es);
    assert_eq!((total, files, dirs), (2, 1, 1));
    assert_eq!(mem, (2 + 5 + 3 + 64) + (3 + 6 + 3 + 64));
}

#[test]
fn date_column() {
    assert_eq!(format_date(0), "");
    assert_eq!(format_date(-5), "");
    assert_eq!(format_date(1), "1970-01-01");
    assert_eq!(format_date(86400 * 31), "1970-02-02");
    assert_eq!(format_date(86400 * 365), "1971-01-01");
    assert_eq!(format_date(1700000000), "2023-12-01");
}

#[test]
fn icons() {
    assert_eq!(file_icon(&entry("d", "", true)), "\u{1F4C1}");
    assert_eq!(file_icon(&entry("a.RS", ".RS", false)), "\u{1F4BB}");
    assert_eq!(file_icon(&entry("a.pdf", ".pdf", false)), "\u{1F4D5}");
    assert_eq!(file_icon(&entry("a.xyz", ".xyz", false)), "\u{1F4C4}");
}

#[test]
fn walker_rules() {
    let ex = vec!["node_modules".to_string(), String::new()];
    assert_eq!(FsWalker::volume_of("D:\\data"), "D");
    assert_eq!(FsWalker::volume_of("relative"), "relative");
    assert!(FsWalker::walks_dir("C:\\src", 0, 9, &ex));
    assert!(!FsWalker::walks_dir("C:\\src", 2, 3, &ex));
    assert!(!FsWalker::walks_dir("C:\\Windows\\System32\\x", 0, 0, &ex));
    assert!(!FsWalker::walks_dir("C:\\app\\Node_Modules\\y", 0, 0, &ex));
    let e = FsWalker::entry_for("lib.rs", "C:\\s\\lib.rs", "C:\\s", false, 0x3, 9, (1, 2, 3), "C", &ex).unwrap();
    assert_eq!(e.extension, ".rs");
    assert!(e.is_hidden && e.is_readonly);
    assert_eq!((e.created, e.modified, e.accessed), (1, 2, 3));
    assert_eq!(e.parent_path, "C:\\s");
    assert!(FsWalker::entry_for(".git", "p", "q", true, 0, 0, (0, 0, 0), "C", &ex).is_none());
    assert!(FsWalker::entry_for("link", "p", "q", true, 0x400, 0, (0, 0, 0), "C", &ex).is_none());
    assert!(FsWalker::entry_for("node_modules", "p", "q", true, 0, 0, (0, 0, 0), "C", &ex).is_none());
    let mut v = vec![e.clone(), e];
    FsWalker::number_entries(&mut v);
    assert_eq!((v[0].id, v[1].id), (1, 2));
}

#[test]
fn win32_helpers() {
    let c = rgb(1, 2, 3);
    assert_eq!(c, 0x030201);
    assert_eq!((get_r(c), get_g(c), get_b(c)), (1, 2, 3));
    assert_eq!(hiword(0x1234_5678), 0x1234);
    assert_eq!(loword(0x1234_5678), 0x5678);
    let r = RECT { left: 10, top: 20, right: 110, bottom: 70 };
    assert_eq!((r.width(), r.height()), (100, 50));
    assert_eq!(from_wstring(&[104, 105, 0, 120]), "hi");
    assert_eq!(from_wstring(&[104, 105]), "hi");
}
