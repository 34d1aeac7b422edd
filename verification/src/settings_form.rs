//! The settings window of the native front end: the settings being edited and how the
//! window answers the user. A theme is picked by position; a hotkey is recorded from
//! the next key pressed with a modifier; folders and exclusion patterns are added and
//! removed; saving takes the recorded hotkeys into the settings; indexing reports what
//! it found. Drawing, dialogs, the file system and saving are the caller's part.
use vstd::prelude::*;
use crate::index_engine::{map_of, TrieIndex};
use crate::index_sync::{dedup_by_path, entry_views, first_by_path};
use crate::searcher::Searcher;
use crate::text::{
    chars_eq, chars_of, decimal, eq_str, fmt_u64, push_all, push_str, string_of, trim,
    trim_chars,
};
use crate::types::{FileEntry, FileEntryView};
use crate::ui_config::{format_hotkey, strict_hotkey_text, strs, Config, ConfigView};

verus! {

/// What the settings window holds while it is open.
pub struct SettingsState {
    pub config: Config,
    pub status_text: String,
    pub selected_path_index: Option<usize>,
    pub selected_exclude_index: Option<usize>,
    pub pending_browse: bool,
    pub pending_index: bool,
    pub pending_save: bool,
    pub pending_cancel: bool,
    pub theme_idx: usize,
    pub recorded_hotkey: Option<String>,
    pub hotkey_search_buffer: String,
    pub hotkey_settings_buffer: String,
    pub exclude_pattern_buffer: String,
}

/// The position of a theme among the choices Light, Dark, System.
pub open spec fn theme_index_of(theme: Seq<char>) -> usize {
    if theme == "dark"@ {
        1
    } else if theme == "system"@ {
        2
    } else {
        0
    }
}

/// The theme at a position among the choices.
pub open spec fn theme_at(idx: usize) -> Seq<char> {
    if idx == 1 {
        "dark"@
    } else if idx == 2 {
        "system"@
    } else {
        "light"@
    }
}

/// Picking a theme and reading back the picked theme's name gives the same position.
pub proof fn lemma_theme_pick_roundtrip(idx: usize)
    requires
        idx < 3,
    ensures
        theme_index_of(theme_at(idx)) == idx,
{
    reveal_strlit("light");
    reveal_strlit("dark");
    reveal_strlit("system");
    assert("light"@ != "dark"@) by {
        assert("light"@[0] != "dark"@[0]);
    }
    assert("light"@.len() != "system"@.len());
    assert("dark"@.len() != "system"@.len());
}

/// The modifier bits of a hotkey: Alt 1, Control 2, Shift 4, the command key 8.
pub open spec fn modifier_bits(ctrl: bool, shift: bool, alt: bool, cmd: bool) -> u32 {
    ((if alt { 1u32 } else { 0u32 }) + (if ctrl { 2u32 } else { 0u32 }) + (if shift {
        4u32
    } else {
        0u32
    }) + (if cmd { 8u32 } else { 0u32 })) as u32
}

/// The settings with a different theme.
pub open spec fn with_theme(c: ConfigView, theme: Seq<char>) -> ConfigView {
    ConfigView { theme, ..c }
}

/// What indexing reports: the counts of files and folders.
pub open spec fn indexed_text(files: u64, folders: u64) -> Seq<char> {
    "Indexed: "@ + decimal(files as nat) + " files, "@ + decimal(folders as nat) + " folders"@
}

pub open spec fn ids_below_max(es: Seq<FileEntry>) -> bool {
    forall|i: int| 0 <= i < es.len() ==> #[trigger] es[i].id < i64::MAX
}

proof fn lemma_first_by_path_ids(es: Seq<FileEntryView>)
    requires
        forall|i: int| 0 <= i < es.len() ==> #[trigger] es[i].id < i64::MAX,
    ensures
        forall|i: int|
            0 <= i < first_by_path(es).len() ==> #[trigger] first_by_path(es)[i].id < i64::MAX,
    decreases es.len(),
{
    if es.len() > 0 {
        let prev = es.drop_last();
        assert forall|i: int| 0 <= i < prev.len() implies #[trigger] prev[i].id < i64::MAX by {
            assert(prev[i] == es[i]);
        }
        lemma_first_by_path_ids(prev);
        assert(es[es.len() - 1].id < i64::MAX);
        let a = first_by_path(prev);
        let out = first_by_path(es);
        assert forall|i: int| 0 <= i < out.len() implies #[trigger] out[i].id < i64::MAX by {
            if i < a.len() {
                assert(out[i] == a[i]);
            } else {
                assert(out[i] == es.last());
            }
        }
    }
}

/// Adding a text that is not in a list of distinct texts keeps them distinct.
pub proof fn lemma_push_new_distinct(l: Seq<Seq<char>>, p: Seq<char>)
    requires
        l.no_duplicates(),
        !l.contains(p),
    ensures
        l.push(p).no_duplicates(),
{
    let m = l.push(p);
    assert forall|i: int, j: int| 0 <= i < m.len() && 0 <= j < m.len() && i != j implies m[i]
        != m[j] by {
        if i == l.len() {
            assert(m[j] == l[j]);
        } else if j == l.len() {
            assert(m[i] == l[i]);
        } else {
            assert(m[i] == l[i] && m[j] == l[j]);
        }
    }
}

/// Removing a text from a list of distinct texts keeps them distinct.
pub proof fn lemma_remove_distinct(l: Seq<Seq<char>>, k: int)
    requires
        l.no_duplicates(),
        0 <= k < l.len(),
    ensures
        l.remove(k).no_duplicates(),
{
    let m = l.remove(k);
    assert forall|i: int, j: int| 0 <= i < m.len() && 0 <= j < m.len() && i != j implies m[i]
        != m[j] by {
        let a = if i < k { i } else { i + 1 };
        let b = if j < k { j } else { j + 1 };
        assert(m[i] == l[a] && m[j] == l[b]);
    }
}

/// The folder and pattern lists of the form never gain a repeated entry: adding a
/// browsed folder or a typed pattern, and removing either, keeps distinct lists distinct.
pub proof fn lemma_lists_stay_distinct(before: ConfigView, after: ConfigView, p: Seq<char>, k: int)
    requires
        before.index_paths.no_duplicates(),
        before.exclude_patterns.no_duplicates(),
        after == (if !before.index_paths.contains(p) {
            ConfigView { index_paths: before.index_paths.push(p), ..before }
        } else {
            before
        }) || after == (if p.len() > 0 && !before.exclude_patterns.contains(p) {
            ConfigView { exclude_patterns: before.exclude_patterns.push(p), ..before }
        } else {
            before
        }) || (0 <= k < before.index_paths.len() && after == ConfigView {
            index_paths: before.index_paths.remove(k),
            ..before
        }) || (0 <= k < before.exclude_patterns.len() && after == ConfigView {
            exclude_patterns: before.exclude_patterns.remove(k),
            ..before
        }),
    ensures
        after.index_paths.no_duplicates(),
        after.exclude_patterns.no_duplicates(),
{
    if !before.index_paths.contains(p) {
        lemma_push_new_distinct(before.index_paths, p);
    }
    if !before.exclude_patterns.contains(p) {
        lemma_push_new_distinct(before.exclude_patterns, p);
    }
    if 0 <= k < before.index_paths.len() {
        lemma_remove_distinct(before.index_paths, k);
    }
    if 0 <= k < before.exclude_patterns.len() {
        lemma_remove_distinct(before.exclude_patterns, k);
    }
}

fn theme_index(theme: &String) -> (r: usize)
    ensures
        r == theme_index_of(theme@),
{
    let t = chars_of(theme.as_str());
    if eq_str(&t, "dark") {
        1
    } else if eq_str(&t, "system") {
        2
    } else {
        0
    }
}

fn theme_name(idx: usize) -> (r: &'static str)
    ensures
        r@ == theme_at(idx),
{
    if idx == 1 {
        "dark"
    } else if idx == 2 {
        "system"
    } else {
        "light"
    }
}

/// Whether a list of texts holds `s`.
fn holds_text(v: &Vec<String>, s: &Vec<char>) -> (r: bool)
    ensures
        r == strs(v@).contains(s@),
{
    let mut i: usize = 0;
    while i < v.len()
        invariant
            i <= v.len(),
            forall|j: int| 0 <= j < i ==> strs(v@)[j] != s@,
        decreases v.len() - i,
    {
        let c = chars_of(v[i].as_str());
        if chars_eq(&c, s) {
            assert(strs(v@)[i as int] == s@);
            return true;
        }
        i = i + 1;
    }
    proof {
        if strs(v@).contains(s@) {
            let j = choose|j: int| 0 <= j < strs(v@).len() && strs(v@)[j] == s@;
            assert(strs(v@)[j] != s@);
        }
    }
    false
}

impl SettingsState {
    /// The form for the saved settings: their theme's position, their hotkeys in the
    /// hotkey buttons, nothing selected, recorded or requested, and `Ready` shown.
    pub fn new(config: Config) -> (f: SettingsState)
        ensures
            f.config@ == config@,
            f.theme_idx == theme_index_of(config.theme@),
            f.hotkey_search_buffer@ == config.hotkey_search@,
            f.hotkey_settings_buffer@ == config.hotkey_settings@,
            f.status_text@ == "Ready"@,
            f.selected_path_index is None && f.selected_exclude_index is None,
            f.recorded_hotkey is None,
            !f.pending_browse && !f.pending_index && !f.pending_save && !f.pending_cancel,
            f.exclude_pattern_buffer@ == Seq::<char>::empty(),
    {
        let theme_idx = theme_index(&config.theme);
        let hs = config.hotkey_search.clone();
        let hst = config.hotkey_settings.clone();
        SettingsState {
            config,
            status_text: "Ready".to_owned(),
            selected_path_index: None,
            selected_exclude_index: None,
            pending_browse: false,
            pending_index: false,
            pending_save: false,
            pending_cancel: false,
            theme_idx,
            recorded_hotkey: None,
            hotkey_search_buffer: hs,
            hotkey_settings_buffer: hst,
            exclude_pattern_buffer: String::new(),
        }
    }

    /// Takes the picked theme into the settings; true when it changed, so that the
    /// caller restyles the window.
    pub fn sync_theme(&mut self) -> (changed: bool)
        ensures
            changed == (old(self).config.theme@ != theme_at(old(self).theme_idx)),
            final(self).config@ == with_theme(old(self).config@, theme_at(old(self).theme_idx)),
            final(self).theme_idx == old(self).theme_idx,
    {
        let name = theme_name(self.theme_idx);
        let current = chars_of(self.config.theme.as_str());
        if eq_str(&current, name) {
            assert(self.config@ =~= with_theme(old(self).config@, theme_at(self.theme_idx)));
            false
        } else {
            self.config.theme = name.to_owned();
            assert(self.config@ =~= with_theme(old(self).config@, theme_at(self.theme_idx)));
            true
        }
    }

    /// A hotkey button was clicked: the next key with a modifier is recorded for it
    /// (`search` for the search hotkey, anything else for the settings one).
    pub fn start_recording(&mut self, target: &str)
        ensures
            final(self).recorded_hotkey matches Some(t) && t@ == target@,
            target@ == "search"@ ==> final(self).hotkey_search_buffer@ == "Recording..."@
                && final(self).hotkey_settings_buffer@ == old(self).hotkey_settings_buffer@,
            target@ != "search"@ ==> final(self).hotkey_settings_buffer@ == "Recording..."@
                && final(self).hotkey_search_buffer@ == old(self).hotkey_search_buffer@,
            final(self).config@ == old(self).config@,
    {
        let t = chars_of(target);
        self.recorded_hotkey = Some(target.to_owned());
        if eq_str(&t, "search") {
            self.hotkey_search_buffer = "Recording...".to_owned();
        } else {
            self.hotkey_settings_buffer = "Recording...".to_owned();
        }
    }

    /// A key was pressed while a hotkey for `target` is being recorded: with a modifier
    /// and a key the settings can name, its text goes into the target's button and the
    /// recording ends; else nothing changes.
    pub fn key_for_recording(
        &mut self,
        target: &String,
        ctrl: bool,
        shift: bool,
        alt: bool,
        cmd: bool,
        vk: Option<u32>,
    )
        ensures
            (ctrl || shift || alt || cmd) && vk is Some ==> {
                let text = strict_hotkey_text(modifier_bits(ctrl, shift, alt, cmd), vk->0);
                &&& final(self).recorded_hotkey is None
                &&& target@ == "search"@ ==> final(self).hotkey_search_buffer@ == text
                    && final(self).hotkey_settings_buffer@ == old(self).hotkey_settings_buffer@
                &&& target@ != "search"@ ==> final(self).hotkey_settings_buffer@ == text
                    && final(self).hotkey_search_buffer@ == old(self).hotkey_search_buffer@
            },
            !((ctrl || shift || alt || cmd) && vk is Some) ==> final(self).recorded_hotkey
                == old(self).recorded_hotkey && final(self).hotkey_search_buffer@ == old(
                self,
            ).hotkey_search_buffer@ && final(self).hotkey_settings_buffer@ == old(
                self,
            ).hotkey_settings_buffer@,
            final(self).config@ == old(self).config@,
    {
        if !(ctrl || shift || alt || cmd) {
            return;
        }
        let code = match vk {
            Some(v) => v,
            None => {
                return;
            },
        };
        let mut mods: u32 = 0;
        if alt {
            mods = mods + 1;
        }
        if ctrl {
            mods = mods + 2;
        }
        if shift {
            mods = mods + 4;
        }
        if cmd {
            mods = mods + 8;
        }
        assert(mods == modifier_bits(ctrl, shift, alt, cmd));
        let text = format_hotkey(mods, code);
        let t = chars_of(target.as_str());
        if eq_str(&t, "search") {
            self.hotkey_search_buffer = text;
        } else {
            self.hotkey_settings_buffer = text;
        }
        self.recorded_hotkey = None;
    }

    /// The remove button of the folder at `i` was clicked.
    pub fn remove_path(&mut self, i: usize)
        ensures
            i < old(self).config.index_paths.len() ==> final(self).config@ == (ConfigView {
                index_paths: old(self).config@.index_paths.remove(i as int),
                ..old(self).config@
            }) && final(self).selected_path_index is None,
            i >= old(self).config.index_paths.len() ==> final(self).config@ == old(self).config@
                && final(self).selected_path_index == old(self).selected_path_index,
    {
        if i < self.config.index_paths.len() {
            let ghost before = self.config@;
            self.config.index_paths.remove(i);
            assert(self.config@.index_paths =~= before.index_paths.remove(i as int));
            self.selected_path_index = None;
        }
    }

    /// The remove button of the pattern at `i` was clicked.
    pub fn remove_exclude(&mut self, i: usize)
        ensures
            i < old(self).config.exclude_patterns.len() ==> final(self).config@ == (ConfigView {
                exclude_patterns: old(self).config@.exclude_patterns.remove(i as int),
                ..old(self).config@
            }) && final(self).selected_exclude_index is None,
            i >= old(self).config.exclude_patterns.len() ==> final(self).config@ == old(
                self,
            ).config@ && final(self).selected_exclude_index == old(self).selected_exclude_index,
    {
        if i < self.config.exclude_patterns.len() {
            let ghost before = self.config@;
            self.config.exclude_patterns.remove(i);
            assert(self.config@.exclude_patterns =~= before.exclude_patterns.remove(i as int));
            self.selected_exclude_index = None;
        }
    }

    /// The add button of the patterns was clicked: a typed pattern, trimmed, is added
    /// unless it is empty or already there, and the field is cleared; an empty field
    /// does nothing.
    pub fn add_exclude(&mut self)
        ensures
            old(self).exclude_pattern_buffer@.len() == 0 ==> final(self).config@ == old(
                self,
            ).config@ && final(self).exclude_pattern_buffer@ == old(self).exclude_pattern_buffer@,
            old(self).exclude_pattern_buffer@.len() > 0 ==> {
                let p = trim(old(self).exclude_pattern_buffer@);
                &&& final(self).exclude_pattern_buffer@ == Seq::<char>::empty()
                &&& final(self).config@ == if p.len() > 0 && !old(
                    self,
                ).config@.exclude_patterns.contains(p) {
                    ConfigView {
                        exclude_patterns: old(self).config@.exclude_patterns.push(p),
                        ..old(self).config@
                    }
                } else {
                    old(self).config@
                }
            },
    {
        let b = chars_of(self.exclude_pattern_buffer.as_str());
        if b.len() == 0 {
            return;
        }
        let p = trim_chars(&b);
        if p.len() > 0 && !holds_text(&self.config.exclude_patterns, &p) {
            let ghost before = self.config@;
            self.config.exclude_patterns.push(string_of(&p));
            assert(self.config@.exclude_patterns =~= before.exclude_patterns.push(p@));
        }
        self.exclude_pattern_buffer = String::new();
    }

    /// The folder dialog closed: its folder, if one was picked, is added unless it is
    /// already there.
    pub fn add_browsed(&mut self, picked: Option<String>)
        ensures
            !final(self).pending_browse,
            final(self).config@ == match picked {
                Some(p) => if !old(self).config@.index_paths.contains(p@) {
                    ConfigView { index_paths: old(self).config@.index_paths.push(p@), ..old(self).config@ }
                } else {
                    old(self).config@
                },
                None => old(self).config@,
            },
    {
        self.pending_browse = false;
        if let Some(p) = picked {
            let pc = chars_of(p.as_str());
            if !holds_text(&self.config.index_paths, &pc) {
                let ghost before = self.config@;
                self.config.index_paths.push(p);
                assert(self.config@.index_paths =~= before.index_paths.push(pc@));
            }
        }
    }

    /// Saving was asked for: the recorded hotkeys go into the settings, which the caller
    /// then stores.
    pub fn take_hotkeys(&mut self)
        ensures
            !final(self).pending_save,
            final(self).config@ == (ConfigView {
                hotkey_search: old(self).hotkey_search_buffer@,
                hotkey_settings: old(self).hotkey_settings_buffer@,
                ..old(self).config@
            }),
    {
        self.pending_save = false;
        self.config.hotkey_search = self.hotkey_search_buffer.clone();
        self.config.hotkey_settings = self.hotkey_settings_buffer.clone();
    }

    /// What saving reports.
    pub fn saved(&mut self, ok: bool)
        ensures
            final(self).status_text@ == (if ok {
                "Saved. Hotkeys will apply on next Settings open."@
            } else {
                "Save failed"@
            }),
            final(self).config@ == old(self).config@,
    {
        if ok {
            self.status_text = "Saved. Hotkeys will apply on next Settings open.".to_owned();
        } else {
            self.status_text = "Save failed".to_owned();
        }
    }

    /// Indexing was asked for: it starts.
    pub fn start_index(&mut self)
        ensures
            !final(self).pending_index,
            final(self).status_text@ == "Indexing..."@,
            final(self).config@ == old(self).config@,
    {
        self.pending_index = false;
        self.status_text = "Indexing...".to_owned();
    }

    /// Indexing walked the folders and found `entries`: none found is reported; else the
    /// first entry of every path goes into a new index, and its counts are reported.
    pub fn finish_index(&mut self, entries: Vec<FileEntry>) -> (r: Option<Searcher>)
        requires
            ids_below_max(entries@),
        ensures
            entries@.len() == 0 <==> r is None,
            r is None ==> final(self).status_text@ == "No files found"@,
            r matches Some(s) ==> s.wf() && (exists|d: Seq<FileEntry>|
                entry_views(d) == first_by_path(entry_views(entries@))
                    && s.index_view().entries_view() == #[trigger] map_of(d))
                && final(self).status_text@ == indexed_text(
                s.index_view().ordered().filter(|e: FileEntryView| !e.is_dir).len() as u64,
                s.index_view().ordered().filter(|e: FileEntryView| e.is_dir).len() as u64,
            ),
            final(self).config@ == old(self).config@,
    {
        if entries.len() == 0 {
            self.status_text = "No files found".to_owned();
            return None;
        }
        let ghost src = entry_views(entries@);
        proof {
            assert forall|i: int| 0 <= i < src.len() implies #[trigger] src[i].id < i64::MAX by {
                assert(src[i] == entries@[i]@);
            }
        }
        let kept = dedup_by_path(entries);
        proof {
            lemma_first_by_path_ids(src);
            assert forall|i: int| 0 <= i < kept@.len() implies #[trigger] kept@[i].id < i64::MAX by {
                assert(entry_views(kept@)[i] == kept@[i]@);
                assert(first_by_path(src)[i].id < i64::MAX);
            }
        }
        let ghost d = kept@;
        let mut index = TrieIndex::new();
        index.load_entries(kept);
        let searcher = Searcher::new(index);
        let st = searcher.status();
        let mut out: Vec<char> = Vec::new();
        push_str(&mut out, "Indexed: ");
        let f = fmt_u64(st.total_files);
        push_all(&mut out, &f);
        push_str(&mut out, " files, ");
        let g = fmt_u64(st.total_folders);
        push_all(&mut out, &g);
        push_str(&mut out, " folders");
        self.status_text = string_of(&out);
        Some(searcher)
    }
}

} // verus!
