use findex::display::result_line;
use findex::file_kinds::SearchFilter;
use findex::raster::{EguiRenderer, Rgba};
use findex::overlay::{OverlayAction, OverlayState, VK_BACK, VK_DOWN, VK_ESCAPE, VK_RETURN, VK_UP};
use findex::search_panel::{detail_line, found_label, PanelAction, PanelKey, SearchPanel};
use findex::settings_form::SettingsState;
use findex::types::{FileEntry, MatchType, SearchResult, SearchScope, SortBy};
use findex::ui_config::Config;

fn entry(id: i64, path: &str, ext: &str, is_dir: bool) -> FileEntry {
    let name = path.rsplit('/').next().unwrap().to_string();
    FileEntry {
        id,
        name,
        path: path.to_string(),
        parent_path: "C:/".to_string(),
        size: 5,
        created: 0,
        modified: 0,
        accessed: 0,
        is_dir,
        is_hidden: false,
        is_readonly: false,
        extension: ext.to_string(),
        volume: "C".to_string(),
    }
}

fn result(path: &str, ext: &str, is_dir: bool) -> SearchResult {
    SearchResult { entry: entry(1, path, ext, is_dir), score: 10, match_type: MatchType::ExactPrefix }
}

#[test]
fn search_panel_keys_wrap() {
    let mut p = SearchPanel::new();
    assert_eq!(p.selected_index, 0);
    assert_eq!(p.filter, SearchFilter::All);
    assert_eq!(p.key(PanelKey::Down, 3), PanelAction::Stay);
    assert_eq!(p.selected_index, 1);
    p.key(PanelKey::Down, 3);
    p.key(PanelKey::Down, 3);
    assert_eq!(p.selected_index, 0);
    p.key(PanelKey::Up, 3);
    assert_eq!(p.selected_index, 2);
    assert_eq!(p.key(PanelKey::Enter, 3), PanelAction::Open(2));
    // a selection past the end opens the last shown result
    assert_eq!(p.key(PanelKey::Enter, 2), PanelAction::Open(1));
    assert_eq!(p.key(PanelKey::Enter, 0), PanelAction::Stay);
    p.key(PanelKey::Down, 0);
    assert_eq!(p.selected_index, 2);
    assert_eq!(p.key(PanelKey::Escape, 3), PanelAction::Close);
}

#[test]
fn search_panel_edits_reset_selection() {
    let mut p = SearchPanel::new();
    assert!(p.request().is_none());
    p.key(PanelKey::Down, 5);
    p.edit_query("rep".to_string());
    assert_eq!(p.selected_index, 0);
    let q = p.request().unwrap();
    assert_eq!(q.query, "rep");
    assert!(matches!(q.scope, SearchScope::Global));
    assert!(q.context_path.is_none());
    assert_eq!((q.max_results, q.offset), (200, 0));
    assert_eq!(q.sort_by, SortBy::Relevance);
    p.key(PanelKey::Down, 5);
    p.choose_filter(SearchFilter::Folders);
    assert_eq!(p.selected_index, 0);
    assert_eq!(p.query, "rep");
}

#[test]
fn search_panel_shows_chosen_kind() {
    let mut p = SearchPanel::new();
    let all = vec![
        result("C:/report.docx", ".docx", false),
        result("C:/reports", "", true),
        result("C:/main.rs", ".rs", false),
        result("C:/notes.TXT", ".TXT", false),
    ];
    assert_eq!(p.visible(&all).len(), 4);
    p.choose_filter(SearchFilter::Folders);
    let v = p.visible(&all);
    assert_eq!(v.len(), 1);
    assert_eq!(v[0].entry.path, "C:/reports");
    p.choose_filter(SearchFilter::Documents);
    let v: Vec<String> = p.visible(&all).into_iter().map(|r| r.entry.path).collect();
    assert_eq!(v, vec!["C:/report.docx".to_string(), "C:/notes.TXT".to_string()]);
    p.choose_filter(SearchFilter::Images);
    assert!(p.visible(&all).is_empty());
}

#[test]
fn search_panel_labels() {
    assert_eq!(found_label(3), "Found 3 results");
    assert_eq!(found_label(0), "Found 0 results");
    assert_eq!(detail_line("C:/a", "2024-01-02", "1.0 KB"), "C:/a  2024-01-02  1.0 KB");
    assert_eq!(detail_line("C:/a", "2024-01-02", ""), "C:/a  2024-01-02");
    assert_eq!(detail_line("C:/a", "", "5 B"), "C:/a  5 B");
    assert_eq!(detail_line("C:/a", "", ""), "C:/a");
}

#[test]
fn settings_form_starts_from_config() {
    let mut c = Config::default();
    c.theme = "dark".to_string();
    let f = SettingsState::new(c);
    assert_eq!(f.theme_idx, 1);
    assert_eq!(f.status_text, "Ready");
    assert_eq!(f.hotkey_search_buffer, "Ctrl+Space");
    assert_eq!(f.hotkey_settings_buffer, "Ctrl+Shift+F");
    assert!(f.recorded_hotkey.is_none() && f.selected_path_index.is_none());
    assert!(!f.pending_browse && !f.pending_index && !f.pending_save && !f.pending_cancel);
    let mut c = Config::default();
    c.theme = "system".to_string();
    assert_eq!(SettingsState::new(c).theme_idx, 2);
    let mut c = Config::default();
    c.theme = "blue".to_string();
    assert_eq!(SettingsState::new(c).theme_idx, 0);
}

#[test]
fn settings_form_theme_and_hotkeys() {
    let mut f = SettingsState::new(Config::default());
    assert_eq!(f.theme_idx, 2);
    assert!(!f.sync_theme());
    f.theme_idx = 1;
    assert!(f.sync_theme());
    assert_eq!(f.config.theme, "dark");
    f.theme_idx = 0;
    assert!(f.sync_theme());
    assert_eq!(f.config.theme, "light");

    f.start_recording("search");
    assert_eq!(f.recorded_hotkey.as_deref(), Some("search"));
    assert_eq!(f.hotkey_search_buffer, "Recording...");
    let target = f.recorded_hotkey.clone().unwrap();
    // no modifier, or a key without a name: still recording
    f.key_for_recording(&target, false, false, false, false, Some(0x20));
    f.key_for_recording(&target, true, false, false, false, None);
    assert_eq!(f.hotkey_search_buffer, "Recording...");
    assert!(f.recorded_hotkey.is_some());
    f.key_for_recording(&target, true, true, false, false, Some(0x70));
    assert_eq!(f.hotkey_search_buffer, "Ctrl+Shift+F1");
    assert!(f.recorded_hotkey.is_none());

    f.start_recording("settings");
    assert_eq!(f.hotkey_settings_buffer, "Recording...");
    let target = f.recorded_hotkey.clone().unwrap();
    f.key_for_recording(&target, false, false, true, false, Some(0x26));
    assert_eq!(f.hotkey_settings_buffer, "Alt+Up");
    assert_eq!(f.hotkey_search_buffer, "Ctrl+Shift+F1");

    f.pending_save = true;
    f.take_hotkeys();
    assert!(!f.pending_save);
    assert_eq!(f.config.hotkey_search, "Ctrl+Shift+F1");
    assert_eq!(f.config.hotkey_settings, "Alt+Up");
    f.saved(true);
    assert_eq!(f.status_text, "Saved. Hotkeys will apply on next Settings open.");
    f.saved(false);
    assert_eq!(f.status_text, "Save failed");
}

#[test]
fn settings_form_lists() {
    let mut c = Config::default();
    c.index_paths = vec!["C:/a".to_string(), "D:/b".to_string()];
    let mut f = SettingsState::new(c);
    f.selected_path_index = Some(1);
    f.remove_path(5);
    assert_eq!(f.config.index_paths.len(), 2);
    assert_eq!(f.selected_path_index, Some(1));
    f.remove_path(0);
    assert_eq!(f.config.index_paths, vec!["D:/b".to_string()]);
    assert!(f.selected_path_index.is_none());

    f.pending_browse = true;
    f.add_browsed(Some("D:/b".to_string()));
    assert!(!f.pending_browse);
    assert_eq!(f.config.index_paths.len(), 1);
    f.add_browsed(Some("E:/c".to_string()));
    f.add_browsed(None);
    assert_eq!(f.config.index_paths, vec!["D:/b".to_string(), "E:/c".to_string()]);

    f.exclude_pattern_buffer = "  build  ".to_string();
    f.add_exclude();
    assert_eq!(f.config.exclude_patterns.last().unwrap(), "build");
    assert!(f.exclude_pattern_buffer.is_empty());
    f.exclude_pattern_buffer = "target".to_string();
    f.add_exclude();
    assert_eq!(f.config.exclude_patterns.len(), 4);
    assert!(f.exclude_pattern_buffer.is_empty());
    f.exclude_pattern_buffer = "   ".to_string();
    f.add_exclude();
    assert_eq!(f.config.exclude_patterns.len(), 4);
    assert!(f.exclude_pattern_buffer.is_empty());
    f.selected_exclude_index = Some(0);
    f.remove_exclude(0);
    assert_eq!(f.config.exclude_patterns, vec!["node_modules", "target", "build"]);
    assert!(f.selected_exclude_index.is_none());
}

#[test]
fn settings_form_indexing() {
    let mut f = SettingsState::new(Config::default());
    f.pending_index = true;
    f.start_index();
    assert!(!f.pending_index);
    assert_eq!(f.status_text, "Indexing...");
    assert!(f.finish_index(Vec::new()).is_none());
    assert_eq!(f.status_text, "No files found");
    let found = vec![
        entry(1, "C:/docs", "", true),
        entry(2, "C:/docs/a.txt", ".txt", false),
        entry(3, "C:/docs/a.txt", ".txt", false),
        entry(4, "C:/docs/b.rs", ".rs", false),
    ];
    let s = f.finish_index(found).unwrap();
    assert_eq!(f.status_text, "Indexed: 2 files, 1 folders");
    assert_eq!(s.index().len(), 3);
}

#[test]
fn overlay_keys_and_typing() {
    let mut o = OverlayState::new();
    o.typed(b'a');
    o.typed(b' ');
    o.typed(b'b');
    o.typed(0x07);
    assert_eq!(o.query, "a b");
    assert_eq!(o.key_down(VK_BACK, 0), OverlayAction::Stay);
    assert_eq!(o.query, "a ");
    assert_eq!(o.key_down(VK_DOWN, 2), OverlayAction::Stay);
    assert_eq!(o.selected_index, 1);
    o.key_down(VK_DOWN, 2);
    assert_eq!(o.selected_index, 1);
    o.key_down(VK_UP, 2);
    o.key_down(VK_UP, 2);
    assert_eq!(o.selected_index, 0);
    assert_eq!(o.key_down(VK_RETURN, 2), OverlayAction::OpenAndClose(0));
    assert_eq!(o.key_down(VK_RETURN, 0), OverlayAction::Close);
    assert_eq!(o.key_down(VK_ESCAPE, 2), OverlayAction::Close);
}

#[test]
fn result_list_lines() {
    assert_eq!(result_line(&entry(1, "C:/docs", "", true)), "[DIR] docs  (C:/docs)");
    assert_eq!(result_line(&entry(1, "C:/docs/a.txt", ".txt", false)), "a.txt  (C:/docs/a.txt)");
}

#[test]
fn frame_blending_and_bytes() {
    let mut f = EguiRenderer::new();
    assert_eq!((f.width(), f.height()), (0, 0));
    assert_eq!(f.font_size, [2048, 2048]);
    f.resize(2, 1);
    assert_eq!(f.pixels, vec![Rgba { r: 0, g: 0, b: 0, a: 255 }; 2]);
    f.clear(Rgba { r: 10, g: 20, b: 30, a: 255 });
    // half-transparent white over the background
    f.paint(1, Rgba { r: 128, g: 128, b: 128, a: 128 });
    assert_eq!(f.pixels[1], Rgba { r: 69, g: 74, b: 79, a: 255 });
    f.paint(5, Rgba { r: 1, g: 1, b: 1, a: 255 });
    assert_eq!(f.pixels.len(), 2);
    assert_eq!(f.as_bgra(), vec![30, 20, 10, 255, 79, 74, 69, 255]);
    let opaque = Rgba { r: 1, g: 2, b: 3, a: 255 };
    let clear = Rgba { r: 9, g: 9, b: 9, a: 0 };
    assert_eq!(EguiRenderer::blend(clear, opaque), opaque);
    assert_eq!(EguiRenderer::blend(opaque, clear), opaque);
    assert_eq!(EguiRenderer::blend(Rgba { r: 0, g: 0, b: 0, a: 0 }, Rgba { r: 100, g: 0, b: 0, a: 100 }), Rgba { r: 39, g: 0, b: 0, a: 100 });
    assert_eq!(
        EguiRenderer::shade(Rgba { r: 255, g: 128, b: 0, a: 255 }, Rgba { r: 128, g: 128, b: 128, a: 128 }),
        Rgba { r: 128, g: 64, b: 0, a: 128 }
    );
    f.set_font([2, 1], vec![Rgba { r: 1, g: 1, b: 1, a: 1 }, Rgba { r: 2, g: 2, b: 2, a: 2 }]);
    assert_eq!(f.font_texel(1, 0), Some(Rgba { r: 2, g: 2, b: 2, a: 2 }));
    assert_eq!(f.font_texel(2, 0), None);
    assert_eq!(f.font_texel(0, 1), None);
    f.resize(2, 1);
    assert_eq!(f.pixels[1], Rgba { r: 69, g: 74, b: 79, a: 255 });
}

#[test]
fn at_most_one_kind_matches() {
    let kinds = [
        SearchFilter::Folders,
        SearchFilter::Documents,
        SearchFilter::Code,
        SearchFilter::Images,
        SearchFilter::Archives,
        SearchFilter::Audio,
        SearchFilter::Video,
    ];
    for (ext, is_dir) in [(".TXT", false), (".rs", false), (".Png", false), (".zip", false), (".mp3", false), (".mp4", false), ("", true), (".json", false), (".unknown", false)] {
        let e = entry(1, "C:\\x", ext, is_dir);
        let n = kinds.iter().filter(|k| k.matches(&e)).count();
        assert!(n <= 1);
        assert!(SearchFilter::All.matches(&e));
    }
}
