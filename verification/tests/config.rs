use findex::app_config::{self, AppConfig};
use findex::file_kinds::SearchFilter;
use findex::journal_state::UsnJournalState;
use findex::types::FileEntry;
use findex::ui_config::{self, bool_to_int, extract_json_value, reg_output_says_dark, Config, Theme};

fn file(ext: &str, is_dir: bool) -> FileEntry {
    FileEntry {
        id: 1,
        name: format!("x{}", ext),
        path: String::new(),
        parent_path: String::new(),
        size: 0,
        created: 0,
        modified: 0,
        accessed: 0,
        is_dir,
        is_hidden: false,
        is_readonly: false,
        extension: ext.to_string(),
        volume: String::new(),
    }
}

#[test]
fn strict_hotkeys() {
    assert_eq!(ui_config::parse_hotkey("Ctrl+Space"), Some((0x2, 0x20)));
    assert_eq!(ui_config::parse_hotkey("Ctrl+Shift+F"), Some((0x6, 0x46)));
    assert_eq!(ui_config::parse_hotkey("alt+win+f5"), None);
    assert_eq!(ui_config::parse_hotkey("alt+win+x"), Some((0x9, 0x58)));
    assert_eq!(ui_config::parse_hotkey("Alt+F5"), Some((0x1, 0x74)));
    assert_eq!(ui_config::parse_hotkey("Hyper+A"), None);
    assert_eq!(ui_config::parse_hotkey("Ctrl+Nope"), None);
    assert_eq!(ui_config::parse_hotkey("Ctrl+"), None);
    assert_eq!(ui_config::parse_hotkey("q"), Some((0, 0x51)));
}

#[test]
fn strict_hotkey_text() {
    assert_eq!(ui_config::format_hotkey(0x6, 0x46), "Ctrl+Shift+F");
    assert_eq!(ui_config::format_hotkey(0x2, 0x20), "Ctrl+Space");
    assert_eq!(ui_config::format_hotkey(0xF, 0x7B), "Ctrl+Shift+Alt+Win+F12");
    assert_eq!(ui_config::format_hotkey(0x1, 0x26), "Alt+Up");
    assert_eq!(ui_config::format_hotkey(0x2, 0xBA), "Ctrl+BA");
    assert_eq!(ui_config::format_hotkey(0, 0x31), "1");
    assert_eq!(ui_config::format_hotkey(0x2, 0x31), "Ctrl+1");
    assert_eq!(ui_config::format_hotkey(0x4, 0x2F), "Shift+/");
    assert_eq!(ui_config::format_hotkey(0x2, 0x2B), "Ctrl+2B");
    assert_eq!(ui_config::format_hotkey(0x2, 0x61), "Ctrl+61");
    for s in ["Ctrl+1", "Alt+/", "Win+.", "ctrl+shift+q", "Ctrl+~"] {
        let (m, vk) = ui_config::parse_hotkey(s).unwrap();
        assert_eq!(ui_config::parse_hotkey(&ui_config::format_hotkey(m, vk)), Some((m, vk)));
    }
    for (m, vk) in [(0x2u32, 0x20u32), (0x5, 0x41), (0xF, 0x70), (0x8, 0x25)] {
        assert_eq!(ui_config::parse_hotkey(&ui_config::format_hotkey(m, vk)), Some((m, vk)));
    }
}

#[test]
fn lenient_hotkeys() {
    assert_eq!(app_config::parse_hotkey("ctrl+space"), Some((0x2, 0x20)));
    assert_eq!(app_config::parse_hotkey("CONTROL+Shift+return"), Some((0x6, 0x0D)));
    assert_eq!(app_config::parse_hotkey("Hyper+Super+k"), Some((0x8, 0x4B)));
    assert_eq!(app_config::parse_hotkey("Ctrl+Nope"), None);
    assert_eq!(app_config::format_hotkey(0x7, 0x20), "Ctrl+Alt+Shift+Space");
    assert_eq!(app_config::format_hotkey(0x2, 0x26), "Ctrl+Up");
    assert_eq!(app_config::format_hotkey(0x0, 0x28), "Down");
    assert_eq!(app_config::format_hotkey(0x1, 0x25), "Alt+Left");
    assert_eq!(app_config::format_hotkey(0x4, 0x27), "Shift+Right");
    assert_eq!(app_config::parse_hotkey("Ctrl+Up"), Some((0x2, 0x26)));
    for s in ["ctrl+shift+up", "Alt+1", "win+/", "CONTROL+F9", "Super+left", "x"] {
        let (m, vk) = app_config::parse_hotkey(s).unwrap();
        assert_eq!(app_config::parse_hotkey(&app_config::format_hotkey(m, vk)), Some((m, vk)));
    }
    assert_eq!(app_config::format_hotkey(0x0, 0x71), "F2");
    assert_eq!(app_config::format_hotkey(0x0, 0xD800), "?");
    for (m, vk) in [(0x2u32, 0x20u32), (0x5, 0x41), (0xF, 0x70), (0x8, 0x30)] {
        assert_eq!(app_config::parse_hotkey(&app_config::format_hotkey(m, vk)), Some((m, vk)));
    }
}

#[test]
fn filters_by_kind() {
    assert_eq!(SearchFilter::from_str("Docs"), SearchFilter::Documents);
    assert_eq!(SearchFilter::from_str("ARCHIVE"), SearchFilter::Archives);
    assert_eq!(SearchFilter::from_str("anything"), SearchFilter::All);
    assert!(SearchFilter::Documents.matches(&file(".PDF", false)));
    assert!(!SearchFilter::Documents.matches(&file(".pdf", true)));
    assert!(SearchFilter::Code.matches(&file(".rs", false)));
    assert!(SearchFilter::Folders.matches(&file("", true)));
    assert!(!SearchFilter::Folders.matches(&file(".txt", false)));
    assert!(SearchFilter::All.matches(&file(".zzz", false)));
    assert!(!SearchFilter::Video.matches(&file(".mp3", false)));
    let v = SearchFilter::variants();
    assert_eq!(v.len(), 8);
    assert_eq!(v[2], (SearchFilter::Documents, "Docs"));
    assert_eq!(v[5], (SearchFilter::Archives, "Archive"));
}

#[test]
fn themes() {
    assert_eq!(Theme::from_str("dark"), Theme::Dark);
    assert_eq!(Theme::from_str("Dark"), Theme::Light);
    assert_eq!(Theme::from_str("system"), Theme::System);
    assert_eq!(Theme::System.as_str(), "system");
    assert_eq!(Theme::System.effective(true), Theme::Dark);
    assert_eq!(Theme::System.effective(false), Theme::Light);
    assert_eq!(Theme::Dark.effective(false), Theme::Dark);
    assert!(reg_output_says_dark(true, "    AppsUseLightTheme    REG_DWORD    0x0\n"));
    assert!(!reg_output_says_dark(true, "    AppsUseLightTheme    REG_DWORD    0x1\n"));
    assert!(!reg_output_says_dark(false, "0x0"));
}

#[test]
fn config_defaults() {
    let c = Config::default();
    assert!(c.index_paths.is_empty());
    assert_eq!(c.max_results, 100);
    assert_eq!(c.theme, "system");
    assert_eq!(c.exclude_patterns, vec![".git", "node_modules", "target"]);
    let a = AppConfig::default();
    assert_eq!(a.max_results, 50);
    assert_eq!(a.index_dirs, vec!["C:\\".to_string()]);
    assert_eq!(a.exclude_patterns.len(), 6);
    assert!(a.enable_fuzzy);
    assert_eq!(bool_to_int(true), 1);
    assert_eq!(Config::path(""), "config.json");
    assert_eq!(Config::path("C:\\Users\\me\\AppData"), "C:\\Users\\me\\AppData\\Findex\\config.json");
}

#[test]
fn config_json_forms() {
    let mut c = Config::default();
    c.index_paths = vec!["D:/docs".to_string(), "E:/music".to_string()];
    c.enable_fuzzy = true;
    let compact = c.to_json();
    assert_eq!(
        compact,
        "{\"index_paths\":[\"D:/docs\",\"E:/music\"],\"enable_pinyin\":1,\"enable_fuzzy\":1,\"show_hidden\":0,\"max_results\":100,\"auto_index\":1,\"theme\":\"system\",\"exclude_patterns\":[\".git\",\"node_modules\",\"target\"],\"hotkey_search\":\"Ctrl+Space\",\"hotkey_settings\":\"Ctrl+Shift+F\"}"
    );
    let pretty = c.to_json_pretty();
    assert!(pretty.starts_with("{\n  \"index_paths\": [\n    \"D:/docs\",\n    \"E:/music\"\n  ],\n"));
    for text in [compact, pretty] {
        let back = Config::from_json(&text).unwrap();
        assert_eq!(back.index_paths, c.index_paths);
        assert!(back.enable_pinyin && back.enable_fuzzy && !back.show_hidden && back.auto_index);
        assert_eq!(back.max_results, 100);
        assert_eq!(back.theme, "system");
        assert_eq!(back.exclude_patterns, c.exclude_patterns);
        assert_eq!(back.hotkey_search, "Ctrl+Space");
        assert_eq!(back.hotkey_settings, "Ctrl+Shift+F");
    }
}

#[test]
fn config_windows_paths_read_back() {
    let mut c = Config::default();
    c.index_paths = vec!["D:\\x".to_string(), "C:\\".to_string()];
    c.exclude_patterns = vec!["a\\b\tc".to_string()];
    c.hotkey_search = "Ctrl+\\".to_string();
    let pretty = c.to_json_pretty();
    assert!(pretty.contains("\"D:\\\\x\""));
    let back = Config::from_json(&pretty).unwrap();
    assert_eq!(back.index_paths, c.index_paths);
    assert_eq!(back.exclude_patterns, c.exclude_patterns);
    assert_eq!(back.hotkey_search, "Ctrl+\\");
    let compact = Config::from_json(&c.to_json()).unwrap();
    assert_eq!(compact.index_paths, c.index_paths);
}

#[test]
fn config_reader_defaults_and_refusals() {
    assert!(Config::from_json("not json").is_none());
    assert!(Config::from_json("[1]").is_none());
    let c = Config::from_json("  {\"enable_pinyin\": true, \"max_results\": x}  ").unwrap();
    assert!(c.enable_pinyin);
    assert!(!c.auto_index);
    assert_eq!(c.max_results, 100);
    assert_eq!(c.theme, "system");
    assert!(c.index_paths.is_empty());
    assert_eq!(c.hotkey_settings, "Ctrl+Shift+F");
}

#[test]
fn json_values() {
    assert_eq!(extract_json_value("{\"a\": \"x y\", \"b\": 12}", "a"), Some("x y".to_string()));
    assert_eq!(extract_json_value("{\"a\": \"x y\", \"b\": 12}", "b"), Some("12".to_string()));
    assert_eq!(extract_json_value("{\"a\": 1}", "c"), None);
    assert_eq!(extract_json_value("{\"a\" 1}", "a"), None);
    assert_eq!(extract_json_value("{\"a\": \"open}", "a"), None);
}

#[test]
fn journal_state_records_and_reads() {
    let mut s = UsnJournalState::new();
    assert!(s.get_volume("C").is_none());
    assert!(!s.is_journal_valid("C", 1));
    s.update_volume("C", 100, 7);
    s.update_volume("D", 5, 9);
    s.update_volume("C", 200, 8);
    assert_eq!(s.volumes.len(), 2);
    let c = s.get_volume("C").unwrap();
    assert_eq!((c.last_usn, c.usn_journal_id), (200, 8));
    assert!(s.is_journal_valid("C", 8));
    assert!(!s.is_journal_valid("C", 7));
    assert_eq!(s.get_volume("D").unwrap().last_usn, 5);
}

#[test]
fn journal_state_text() {
    let mut s = UsnJournalState::new();
    s.update_volume("C", -3, 42);
    s.update_volume("D", 7, 1);
    let text = s.to_json();
    assert_eq!(
        text,
        "{\n  \"volumes\": [\n    {\"volume_letter\":\"C\",\"last_usn\":-3,\"usn_journal_id\":42},\n    {\"volume_letter\":\"D\",\"last_usn\":7,\"usn_journal_id\":1}\n  ]\n}\n"
    );
    let back = UsnJournalState::from_json(&text);
    assert_eq!(back.volumes.len(), 2);
    assert_eq!(back.volumes[0].volume_letter, "C");
    assert_eq!(back.volumes[0].last_usn, -3);
    assert_eq!(back.volumes[0].usn_journal_id, 42);
    assert_eq!(back.volumes[1].volume_letter, "D");
    assert!(UsnJournalState::from_json("{}").volumes.is_empty());
    assert!(UsnJournalState::from_json("{\"volumes\": [{\"last_usn\": 3}]}").volumes.is_empty());
}

#[test]
fn journal_state_text_round_trip_edges() {
    // a letter spelled like the position key still reads back
    let mut s = UsnJournalState::new();
    s.update_volume("last_usn", 12, 34);
    s.update_volume("E:", -1, 0);
    let back = UsnJournalState::from_json(&s.to_json());
    assert_eq!(back.volumes.len(), 2);
    assert_eq!(back.volumes[0].volume_letter, "last_usn");
    assert_eq!((back.volumes[0].last_usn, back.volumes[0].usn_journal_id), (12, 34));
    assert_eq!(back.volumes[1].volume_letter, "E:");
    assert_eq!((back.volumes[1].last_usn, back.volumes[1].usn_journal_id), (-1, 0));
    // a letter spelled like the id key does not: the id is read from the position
    let mut t = UsnJournalState::new();
    t.update_volume("usn_journal_id", 12, 34);
    let back = UsnJournalState::from_json(&t.to_json());
    assert_eq!(back.volumes[0].usn_journal_id, 12);
    // ... so it reads back only when the two agree, or the position is negative and the id 0
    let mut t = UsnJournalState::new();
    t.update_volume("usn_journal_id", 7, 7);
    t.update_volume("F", 1, 2);
    let back = UsnJournalState::from_json(&t.to_json());
    assert_eq!((back.volumes[0].last_usn, back.volumes[0].usn_journal_id), (7, 7));
    assert_eq!((back.volumes[1].last_usn, back.volumes[1].usn_journal_id), (1, 2));
    let mut t = UsnJournalState::new();
    t.update_volume("usn_journal_id", -5, 0);
    let back = UsnJournalState::from_json(&t.to_json());
    assert_eq!((back.volumes[0].last_usn, back.volumes[0].usn_journal_id), (-5, 0));
    // a letter with `{` is cut apart
    let mut u = UsnJournalState::new();
    u.update_volume("C{", 1, 2);
    assert_eq!(UsnJournalState::from_json(&u.to_json()).volumes.len(), 0);
}

#[test]
fn config_pretty_round_trip() {
    let mut c = Config::default();
    c.index_paths = vec!["C:/a b".to_string(), "D:/x".to_string(), "E:".to_string()];
    c.enable_pinyin = false;
    c.show_hidden = true;
    c.max_results = 12345;
    c.theme = "dark".to_string();
    c.exclude_patterns = vec![];
    c.hotkey_search = "Alt+K".to_string();
    c.hotkey_settings = "".to_string();
    let back = Config::from_json(&c.to_json_pretty()).unwrap();
    assert_eq!(back.index_paths, c.index_paths);
    assert!(!back.enable_pinyin && !back.enable_fuzzy && back.show_hidden && back.auto_index);
    assert_eq!(back.max_results, 12345);
    assert_eq!(back.theme, "dark");
    assert!(back.exclude_patterns.is_empty());
    assert_eq!(back.hotkey_search, "Alt+K");
    assert_eq!(back.hotkey_settings, "");
    // a theme spelled like a later key is not carried through
    c.theme = "hotkey_search".to_string();
    let back = Config::from_json(&c.to_json_pretty()).unwrap();
    assert_ne!(back.hotkey_search, "Alt+K");
}

#[test]
fn config_texts_named_like_earlier_keys_read_back() {
    let mut c = Config::default();
    c.index_paths = vec!["index_paths".to_string()];
    c.theme = "index_paths".to_string();
    c.exclude_patterns = vec!["theme".to_string(), "max_results".to_string()];
    c.hotkey_search = "exclude_patterns".to_string();
    c.hotkey_settings = "hotkey_search".to_string();
    let back = Config::from_json(&c.to_json_pretty()).unwrap();
    assert_eq!(back.index_paths, c.index_paths);
    assert_eq!(back.theme, "index_paths");
    assert_eq!(back.exclude_patterns, c.exclude_patterns);
    assert_eq!(back.hotkey_search, "exclude_patterns");
    assert_eq!(back.hotkey_settings, "hotkey_search");
    // an index path named like a later key is read in that key's place
    c.index_paths = vec!["theme".to_string()];
    let back = Config::from_json(&c.to_json_pretty()).unwrap();
    assert_ne!(back.theme, "index_paths");
}

#[test]
fn config_compact_round_trip() {
    let mut c = Config::default();
    c.index_paths = vec!["C:/a b".to_string(), "D:\\x".to_string()];
    c.enable_fuzzy = true;
    c.auto_index = false;
    c.max_results = 7;
    c.theme = "light".to_string();
    c.exclude_patterns = vec!["node_modules".to_string(), "*.tmp".to_string()];
    c.hotkey_search = "Ctrl+Alt+F".to_string();
    c.hotkey_settings = "Win+\\".to_string();
    let text = c.to_json();
    assert!(!text.contains('\n'));
    let back = Config::from_json(&text).unwrap();
    assert_eq!(back.index_paths, c.index_paths);
    assert!(back.enable_pinyin && back.enable_fuzzy && !back.show_hidden && !back.auto_index);
    assert_eq!(back.max_results, 7);
    assert_eq!(back.theme, "light");
    assert_eq!(back.exclude_patterns, c.exclude_patterns);
    assert_eq!(back.hotkey_search, "Ctrl+Alt+F");
    assert_eq!(back.hotkey_settings, "Win+\\");
    c.index_paths = vec![];
    c.exclude_patterns = vec![];
    let back = Config::from_json(&c.to_json()).unwrap();
    assert!(back.index_paths.is_empty() && back.exclude_patterns.is_empty());
}
