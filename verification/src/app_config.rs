//! Settings of the desktop shell: the saved configuration with its defaults and
//! hotkey text in its lenient form. The search filters and the journal state are
//! shared with the native front end.
use vstd::prelude::*;
use crate::text::{
    ascii_upper_char, chars_of, decimal, eq_str, fmt_u64, is_ascii_char, is_scalar, join_chars,
    join_with, lemma_split_char_len, lower, lower_vec, push_all, split_char, split_chars,
    string_of, to_ascii_upper, char_from_u32, all_ascii, ascii_lower,
};
pub use crate::file_kinds::SearchFilter;
pub use crate::journal_state::{UsnJournalState, VolumeJournalState};

verus! {

/// The saved settings of the desktop shell.
#[derive(Debug, Clone)]
pub struct AppConfig {
    pub theme: String,
    pub search_hotkey: String,
    pub settings_hotkey: String,
    pub index_dirs: Vec<String>,
    pub exclude_patterns: Vec<String>,
    pub max_results: usize,
    pub enable_pinyin: bool,
    pub enable_fuzzy: bool,
    pub show_hidden: bool,
    pub auto_index: bool,
}

pub struct AppConfigView {
    pub theme: Seq<char>,
    pub search_hotkey: Seq<char>,
    pub settings_hotkey: Seq<char>,
    pub index_dirs: Seq<Seq<char>>,
    pub exclude_patterns: Seq<Seq<char>>,
    pub max_results: usize,
    pub enable_pinyin: bool,
    pub enable_fuzzy: bool,
    pub show_hidden: bool,
    pub auto_index: bool,
}

impl View for AppConfig {
    type V = AppConfigView;

    open spec fn view(&self) -> AppConfigView {
        AppConfigView {
            theme: self.theme@,
            search_hotkey: self.search_hotkey@,
            settings_hotkey: self.settings_hotkey@,
            index_dirs: self.index_dirs@.map_values(|s: String| s@),
            exclude_patterns: self.exclude_patterns@.map_values(|s: String| s@),
            max_results: self.max_results,
            enable_pinyin: self.enable_pinyin,
            enable_fuzzy: self.enable_fuzzy,
            show_hidden: self.show_hidden,
            auto_index: self.auto_index,
        }
    }
}

/// The settings used when none are saved.
pub open spec fn default_app_config() -> AppConfigView {
    AppConfigView {
        theme: "system"@,
        search_hotkey: "Ctrl+Space"@,
        settings_hotkey: "Ctrl+Shift+F"@,
        index_dirs: seq!["C:\\"@],
        exclude_patterns: seq![
            "node_modules"@,
            ".git"@,
            "__pycache__"@,
            ".cache"@,
            "venv"@,
            ".venv"@,
        ],
        max_results: 50,
        enable_pinyin: true,
        enable_fuzzy: true,
        show_hidden: false,
        auto_index: true,
    }
}

impl Default for AppConfig {
    fn default() -> (r: AppConfig)
        ensures
            r@ == default_app_config(),
    {
        let mut index_dirs: Vec<String> = Vec::new();
        index_dirs.push("C:\\".to_owned());
        let mut exclude_patterns: Vec<String> = Vec::new();
        exclude_patterns.push("node_modules".to_owned());
        exclude_patterns.push(".git".to_owned());
        exclude_patterns.push("__pycache__".to_owned());
        exclude_patterns.push(".cache".to_owned());
        exclude_patterns.push("venv".to_owned());
        exclude_patterns.push(".venv".to_owned());
        let r = AppConfig {
            theme: "system".to_owned(),
            search_hotkey: "Ctrl+Space".to_owned(),
            settings_hotkey: "Ctrl+Shift+F".to_owned(),
            index_dirs,
            exclude_patterns,
            max_results: 50,
            enable_pinyin: true,
            enable_fuzzy: true,
            show_hidden: false,
            auto_index: true,
        };
        assert(r@.index_dirs =~= default_app_config().index_dirs);
        assert(r@.exclude_patterns =~= default_app_config().exclude_patterns);
        r
    }
}

// ---------------------------------------------------------------------------
// Hotkeys
// ---------------------------------------------------------------------------

/// The bit of a lower-cased modifier name; other names add nothing.
pub open spec fn modifier_bit(p: Seq<char>) -> u32 {
    if p == "ctrl"@ || p == "control"@ {
        2
    } else if p == "alt"@ {
        1
    } else if p == "shift"@ {
        4
    } else if p == "win"@ || p == "super"@ || p == "windows"@ {
        8
    } else {
        0
    }
}

/// The bits of the modifier names, each read case-insensitively.
pub open spec fn modifier_bits(parts: Seq<Seq<char>>) -> u32
    decreases parts.len(),
{
    if parts.len() == 0 {
        0
    } else {
        modifier_bits(parts.drop_last()) | modifier_bit(lower(parts.last()))
    }
}

/// The virtual-key code of a lower-cased key name; a single ASCII character stands
/// for its upper-case code.
pub open spec fn key_code(k: Seq<char>) -> Option<u32> {
    if k == "space"@ {
        Some(0x20u32)
    } else if k == "enter"@ || k == "return"@ {
        Some(0x0Du32)
    } else if k == "tab"@ {
        Some(0x09u32)
    } else if k == "esc"@ || k == "escape"@ {
        Some(0x1Bu32)
    } else if k == "backspace"@ || k == "back"@ {
        Some(0x08u32)
    } else if k == "delete"@ || k == "del"@ {
        Some(0x2Eu32)
    } else if k == "insert"@ || k == "ins"@ {
        Some(0x2Du32)
    } else if k == "home"@ {
        Some(0x24u32)
    } else if k == "end"@ {
        Some(0x23u32)
    } else if k == "pageup"@ {
        Some(0x21u32)
    } else if k == "pagedown"@ {
        Some(0x22u32)
    } else if k == "up"@ {
        Some(0x26u32)
    } else if k == "down"@ {
        Some(0x28u32)
    } else if k == "left"@ {
        Some(0x25u32)
    } else if k == "right"@ {
        Some(0x27u32)
    } else if k == "f1"@ {
        Some(0x70u32)
    } else if k == "f2"@ {
        Some(0x71u32)
    } else if k == "f3"@ {
        Some(0x72u32)
    } else if k == "f4"@ {
        Some(0x73u32)
    } else if k == "f5"@ {
        Some(0x74u32)
    } else if k == "f6"@ {
        Some(0x75u32)
    } else if k == "f7"@ {
        Some(0x76u32)
    } else if k == "f8"@ {
        Some(0x77u32)
    } else if k == "f9"@ {
        Some(0x78u32)
    } else if k == "f10"@ {
        Some(0x79u32)
    } else if k == "f11"@ {
        Some(0x7Au32)
    } else if k == "f12"@ {
        Some(0x7Bu32)
    } else if k.len() == 1 && is_ascii_char(k[0]) {
        Some(ascii_upper_char(k[0]) as u32)
    } else {
        None
    }
}

/// `Mod+...+Key` read case-insensitively as modifier bits and a virtual-key code;
/// unknown modifier names are passed over.
pub open spec fn hotkey_of(s: Seq<char>) -> Option<(u32, u32)> {
    let parts = split_char(s, '+');
    match key_code(lower(parts.last())) {
        Some(vk) => Some((modifier_bits(parts.drop_last()), vk)),
        None => None,
    }
}

fn modifier_bit_of(p: &Vec<char>) -> (r: u32)
    ensures
        r == modifier_bit(lower(p@)),
{
    let l = lower_vec(p);
    if eq_str(&l, "ctrl") || eq_str(&l, "control") {
        2
    } else if eq_str(&l, "alt") {
        1
    } else if eq_str(&l, "shift") {
        4
    } else if eq_str(&l, "win") || eq_str(&l, "super") || eq_str(&l, "windows") {
        8
    } else {
        0
    }
}

fn key_code_of(k: &Vec<char>) -> (r: Option<u32>)
    ensures
        r == key_code(k@),
{
    if eq_str(k, "space") {
        return Some(0x20);
    }
    if eq_str(k, "enter") || eq_str(k, "return") {
        return Some(0x0D);
    }
    if eq_str(k, "tab") {
        return Some(0x09);
    }
    if eq_str(k, "esc") || eq_str(k, "escape") {
        return Some(0x1B);
    }
    if eq_str(k, "backspace") || eq_str(k, "back") {
        return Some(0x08);
    }
    if eq_str(k, "delete") || eq_str(k, "del") {
        return Some(0x2E);
    }
    if eq_str(k, "insert") || eq_str(k, "ins") {
        return Some(0x2D);
    }
    if eq_str(k, "home") {
        return Some(0x24);
    }
    if eq_str(k, "end") {
        return Some(0x23);
    }
    if eq_str(k, "pageup") {
        return Some(0x21);
    }
    if eq_str(k, "pagedown") {
        return Some(0x22);
    }
    if eq_str(k, "up") {
        return Some(0x26);
    }
    if eq_str(k, "down") {
        return Some(0x28);
    }
    if eq_str(k, "left") {
        return Some(0x25);
    }
    if eq_str(k, "right") {
        return Some(0x27);
    }
    if eq_str(k, "f1") {
        return Some(0x70);
    }
    if eq_str(k, "f2") {
        return Some(0x71);
    }
    if eq_str(k, "f3") {
        return Some(0x72);
    }
    if eq_str(k, "f4") {
        return Some(0x73);
    }
    if eq_str(k, "f5") {
        return Some(0x74);
    }
    if eq_str(k, "f6") {
        return Some(0x75);
    }
    if eq_str(k, "f7") {
        return Some(0x76);
    }
    if eq_str(k, "f8") {
        return Some(0x77);
    }
    if eq_str(k, "f9") {
        return Some(0x78);
    }
    if eq_str(k, "f10") {
        return Some(0x79);
    }
    if eq_str(k, "f11") {
        return Some(0x7A);
    }
    if eq_str(k, "f12") {
        return Some(0x7B);
    }
    if k.len() == 1 && (k[0] as u32) < 128 {
        let c = to_ascii_upper(k[0]);
        return Some(c as u32);
    }
    None
}

/// Parses a hotkey such as `ctrl+shift+f`, case-insensitively: see `hotkey_of`.
pub fn parse_hotkey(s: &str) -> (r: Option<(u32, u32)>)
    ensures
        r == hotkey_of(s@),
{
    let cs = chars_of(s);
    let parts = split_chars(&cs, '+');
    let ghost ps = parts@.map_values(|p: Vec<char>| p@);
    proof {
        lemma_split_char_len(s@, '+');
    }
    let n = parts.len();
    let mut modifiers: u32 = 0;
    let mut i: usize = 0;
    assert(ps.drop_last().take(0) =~= Seq::<Seq<char>>::empty());
    while i < n - 1
        invariant
            n == parts.len(),
            n >= 1,
            i <= n - 1,
            ps == parts@.map_values(|p: Vec<char>| p@),
            modifier_bits(ps.drop_last().take(i as int)) == modifiers,
        decreases n - 1 - i,
    {
        assert(ps.drop_last().take(i + 1).drop_last() =~= ps.drop_last().take(i as int));
        assert(ps.drop_last().take(i + 1).last() == parts@[i as int]@);
        let b = modifier_bit_of(&parts[i]);
        modifiers = modifiers | b;
        i = i + 1;
    }
    assert(ps.drop_last().take(i as int) =~= ps.drop_last());
    assert(ps.last() == parts@[n - 1]@);
    let key = lower_vec(&parts[n - 1]);
    match key_code_of(&key) {
        Some(vk) => Some((modifiers, vk)),
        None => None,
    }
}

/// Names of the modifier bits, in the order Ctrl, Alt, Shift, Win.
pub open spec fn modifier_names(m: u32) -> Seq<Seq<char>> {
    (if m & 2 != 0 {
        seq!["Ctrl"@]
    } else {
        seq![]
    }) + (if m & 1 != 0 {
        seq!["Alt"@]
    } else {
        seq![]
    }) + (if m & 4 != 0 {
        seq!["Shift"@]
    } else {
        seq![]
    }) + (if m & 8 != 0 {
        seq!["Win"@]
    } else {
        seq![]
    })
}

/// The name of a virtual key: the named keys (the arrows among them), `F1`..`F12`, else
/// the character with that code, or `?` when there is none.
pub open spec fn key_label(vk: u32) -> Seq<char> {
    if vk == 0x20 {
        "Space"@
    } else if vk == 0x0D {
        "Enter"@
    } else if vk == 0x09 {
        "Tab"@
    } else if vk == 0x1B {
        "Esc"@
    } else if vk == 0x08 {
        "Backspace"@
    } else if vk == 0x2E {
        "Delete"@
    } else if vk == 0x2D {
        "Insert"@
    } else if vk == 0x24 {
        "Home"@
    } else if vk == 0x23 {
        "End"@
    } else if vk == 0x21 {
        "PageUp"@
    } else if vk == 0x22 {
        "PageDown"@
    } else if vk == 0x26 {
        "Up"@
    } else if vk == 0x28 {
        "Down"@
    } else if vk == 0x25 {
        "Left"@
    } else if vk == 0x27 {
        "Right"@
    } else if 0x70 <= vk <= 0x7B {
        seq!['F'] + decimal((vk - 0x6F) as nat)
    } else if is_scalar(vk) {
        seq![vk as char]
    } else {
        "?"@
    }
}

/// The text of a hotkey: the modifier names and the key name joined by `+`.
pub open spec fn hotkey_text(m: u32, vk: u32) -> Seq<char> {
    join_with(modifier_names(m).push(key_label(vk)), seq!['+'])
}

fn key_label_of(vk: u32) -> (r: Vec<char>)
    ensures
        r@ == key_label(vk),
{
    if vk == 0x20 {
        return chars_of("Space");
    }
    if vk == 0x0D {
        return chars_of("Enter");
    }
    if vk == 0x09 {
        return chars_of("Tab");
    }
    if vk == 0x1B {
        return chars_of("Esc");
    }
    if vk == 0x08 {
        return chars_of("Backspace");
    }
    if vk == 0x2E {
        return chars_of("Delete");
    }
    if vk == 0x2D {
        return chars_of("Insert");
    }
    if vk == 0x24 {
        return chars_of("Home");
    }
    if vk == 0x23 {
        return chars_of("End");
    }
    if vk == 0x21 {
        return chars_of("PageUp");
    }
    if vk == 0x22 {
        return chars_of("PageDown");
    }
    if vk == 0x26 {
        return chars_of("Up");
    }
    if vk == 0x28 {
        return chars_of("Down");
    }
    if vk == 0x25 {
        return chars_of("Left");
    }
    if vk == 0x27 {
        return chars_of("Right");
    }
    if 0x70 <= vk && vk <= 0x7B {
        let mut v: Vec<char> = Vec::new();
        v.push('F');
        let d = fmt_u64((vk - 0x6F) as u64);
        push_all(&mut v, &d);
        assert(v@ =~= seq!['F'] + decimal((vk - 0x6F) as nat));
        return v;
    }
    match char_from_u32(vk) {
        Some(c) => {
            let mut v: Vec<char> = Vec::new();
            v.push(c);
            assert(v@ =~= seq![vk as char]);
            v
        },
        None => chars_of("?"),
    }
}

/// Writes modifier bits and a virtual-key code as hotkey text: see `hotkey_text`.
pub fn format_hotkey(modifiers: u32, vk: u32) -> (r: String)
    ensures
        r@ == hotkey_text(modifiers, vk),
{
    let mut parts: Vec<Vec<char>> = Vec::new();
    if modifiers & 2 != 0 {
        parts.push(chars_of("Ctrl"));
    }
    if modifiers & 1 != 0 {
        parts.push(chars_of("Alt"));
    }
    if modifiers & 4 != 0 {
        parts.push(chars_of("Shift"));
    }
    if modifiers & 8 != 0 {
        parts.push(chars_of("Win"));
    }
    let k = key_label_of(vk);
    let ghost kv = k@;
    parts.push(k);
    assert(parts@.map_values(|p: Vec<char>| p@) =~= modifier_names(modifiers).push(kv));
    let mut plus: Vec<char> = Vec::new();
    plus.push('+');
    assert(plus@ =~= seq!['+']);
    let j = join_chars(&parts, &plus);
    string_of(&j)
}

// ---------------------------------------------------------------------------
// Reading back written hotkeys
// ---------------------------------------------------------------------------

pub open spec fn no_plus(s: Seq<char>) -> bool {
    forall|j: int| 0 <= j < s.len() ==> #[trigger] s[j] != '+'
}

/// The keys whose written name reads back to them: every key below 0x80 but the
/// lower-case letters `a`..`o` (whose names read back upper-case) and `+` (which
/// separates the parts); `p`..`{` are `F1`..`F12`.
pub open spec fn reads_back(vk: u32) -> bool {
    vk < 0x80 && !(0x61 <= vk <= 0x6F) && vk != 0x2B
}

proof fn lemma_names_revealed()
    ensures
        "space"@ =~= seq!['s', 'p', 'a', 'c', 'e'],
        "enter"@ =~= seq!['e', 'n', 't', 'e', 'r'],
        "return"@ =~= seq!['r', 'e', 't', 'u', 'r', 'n'],
        "tab"@ =~= seq!['t', 'a', 'b'],
        "esc"@ =~= seq!['e', 's', 'c'],
        "escape"@ =~= seq!['e', 's', 'c', 'a', 'p', 'e'],
        "backspace"@ =~= seq!['b', 'a', 'c', 'k', 's', 'p', 'a', 'c', 'e'],
        "back"@ =~= seq!['b', 'a', 'c', 'k'],
        "delete"@ =~= seq!['d', 'e', 'l', 'e', 't', 'e'],
        "del"@ =~= seq!['d', 'e', 'l'],
        "insert"@ =~= seq!['i', 'n', 's', 'e', 'r', 't'],
        "ins"@ =~= seq!['i', 'n', 's'],
        "home"@ =~= seq!['h', 'o', 'm', 'e'],
        "end"@ =~= seq!['e', 'n', 'd'],
        "pageup"@ =~= seq!['p', 'a', 'g', 'e', 'u', 'p'],
        "pagedown"@ =~= seq!['p', 'a', 'g', 'e', 'd', 'o', 'w', 'n'],
        "up"@ =~= seq!['u', 'p'],
        "down"@ =~= seq!['d', 'o', 'w', 'n'],
        "left"@ =~= seq!['l', 'e', 'f', 't'],
        "right"@ =~= seq!['r', 'i', 'g', 'h', 't'],
        "f1"@ =~= seq!['f', '1'],
        "f2"@ =~= seq!['f', '2'],
        "f3"@ =~= seq!['f', '3'],
        "f4"@ =~= seq!['f', '4'],
        "f5"@ =~= seq!['f', '5'],
        "f6"@ =~= seq!['f', '6'],
        "f7"@ =~= seq!['f', '7'],
        "f8"@ =~= seq!['f', '8'],
        "f9"@ =~= seq!['f', '9'],
        "f10"@ =~= seq!['f', '1', '0'],
        "f11"@ =~= seq!['f', '1', '1'],
        "f12"@ =~= seq!['f', '1', '2'],
        "Space"@ =~= seq!['S', 'p', 'a', 'c', 'e'],
        "Enter"@ =~= seq!['E', 'n', 't', 'e', 'r'],
        "Tab"@ =~= seq!['T', 'a', 'b'],
        "Esc"@ =~= seq!['E', 's', 'c'],
        "Backspace"@ =~= seq!['B', 'a', 'c', 'k', 's', 'p', 'a', 'c', 'e'],
        "Delete"@ =~= seq!['D', 'e', 'l', 'e', 't', 'e'],
        "Insert"@ =~= seq!['I', 'n', 's', 'e', 'r', 't'],
        "Home"@ =~= seq!['H', 'o', 'm', 'e'],
        "End"@ =~= seq!['E', 'n', 'd'],
        "PageUp"@ =~= seq!['P', 'a', 'g', 'e', 'U', 'p'],
        "PageDown"@ =~= seq!['P', 'a', 'g', 'e', 'D', 'o', 'w', 'n'],
        "Up"@ =~= seq!['U', 'p'],
        "Down"@ =~= seq!['D', 'o', 'w', 'n'],
        "Left"@ =~= seq!['L', 'e', 'f', 't'],
        "Right"@ =~= seq!['R', 'i', 'g', 'h', 't'],
        "F1"@ =~= seq!['F', '1'],
        "F2"@ =~= seq!['F', '2'],
        "F3"@ =~= seq!['F', '3'],
        "F4"@ =~= seq!['F', '4'],
        "F5"@ =~= seq!['F', '5'],
        "F6"@ =~= seq!['F', '6'],
        "F7"@ =~= seq!['F', '7'],
        "F8"@ =~= seq!['F', '8'],
        "F9"@ =~= seq!['F', '9'],
        "F10"@ =~= seq!['F', '1', '0'],
        "F11"@ =~= seq!['F', '1', '1'],
        "F12"@ =~= seq!['F', '1', '2'],
        "Ctrl"@ =~= seq!['C', 't', 'r', 'l'],
        "Alt"@ =~= seq!['A', 'l', 't'],
        "Shift"@ =~= seq!['S', 'h', 'i', 'f', 't'],
        "Win"@ =~= seq!['W', 'i', 'n'],
        "ctrl"@ =~= seq!['c', 't', 'r', 'l'],
        "control"@ =~= seq!['c', 'o', 'n', 't', 'r', 'o', 'l'],
        "alt"@ =~= seq!['a', 'l', 't'],
        "shift"@ =~= seq!['s', 'h', 'i', 'f', 't'],
        "win"@ =~= seq!['w', 'i', 'n'],
        "super"@ =~= seq!['s', 'u', 'p', 'e', 'r'],
        "windows"@ =~= seq!['w', 'i', 'n', 'd', 'o', 'w', 's'],
        "?"@ =~= seq!['?'],
{
    reveal_strlit("space");
    reveal_strlit("enter");
    reveal_strlit("return");
    reveal_strlit("tab");
    reveal_strlit("esc");
    reveal_strlit("escape");
    reveal_strlit("backspace");
    reveal_strlit("back");
    reveal_strlit("delete");
    reveal_strlit("del");
    reveal_strlit("insert");
    reveal_strlit("ins");
    reveal_strlit("home");
    reveal_strlit("end");
    reveal_strlit("pageup");
    reveal_strlit("pagedown");
    reveal_strlit("up");
    reveal_strlit("down");
    reveal_strlit("left");
    reveal_strlit("right");
    reveal_strlit("f1");
    reveal_strlit("f2");
    reveal_strlit("f3");
    reveal_strlit("f4");
    reveal_strlit("f5");
    reveal_strlit("f6");
    reveal_strlit("f7");
    reveal_strlit("f8");
    reveal_strlit("f9");
    reveal_strlit("f10");
    reveal_strlit("f11");
    reveal_strlit("f12");
    reveal_strlit("Space");
    reveal_strlit("Enter");
    reveal_strlit("Tab");
    reveal_strlit("Esc");
    reveal_strlit("Backspace");
    reveal_strlit("Delete");
    reveal_strlit("Insert");
    reveal_strlit("Home");
    reveal_strlit("End");
    reveal_strlit("PageUp");
    reveal_strlit("PageDown");
    reveal_strlit("Up");
    reveal_strlit("Down");
    reveal_strlit("Left");
    reveal_strlit("Right");
    reveal_strlit("F1");
    reveal_strlit("F2");
    reveal_strlit("F3");
    reveal_strlit("F4");
    reveal_strlit("F5");
    reveal_strlit("F6");
    reveal_strlit("F7");
    reveal_strlit("F8");
    reveal_strlit("F9");
    reveal_strlit("F10");
    reveal_strlit("F11");
    reveal_strlit("F12");
    reveal_strlit("Ctrl");
    reveal_strlit("Alt");
    reveal_strlit("Shift");
    reveal_strlit("Win");
    reveal_strlit("ctrl");
    reveal_strlit("control");
    reveal_strlit("alt");
    reveal_strlit("shift");
    reveal_strlit("win");
    reveal_strlit("super");
    reveal_strlit("windows");
    reveal_strlit("?");
}

proof fn lemma_literal_ascii(s: Seq<char>)
    requires
        forall|j: int| 0 <= j < s.len() ==> (#[trigger] s[j] as u32) < 128,
    ensures
        lower(s) == ascii_lower(s),
{
}

proof fn lemma_modifier_bits_step(s: Seq<Seq<char>>, b: bool, x: Seq<char>, bit: u32)
    requires
        modifier_bit(lower(x)) == bit,
    ensures
        modifier_bits(s + (if b {
            seq![x]
        } else {
            seq![]
        })) == (if b {
            modifier_bits(s) | bit
        } else {
            modifier_bits(s)
        }),
{
    if b {
        assert((s + seq![x]).drop_last() =~= s);
    } else {
        assert(s + Seq::<Seq<char>>::empty() =~= s);
    }
}

proof fn lemma_lenient_modifier_bits(m: u32)
    ensures
        modifier_bits(modifier_names(m)) == m & 15,
{
    lemma_names_revealed();
    assert(ascii_lower("Ctrl"@) =~= "ctrl"@);
    assert(ascii_lower("Alt"@) =~= "alt"@);
    assert(ascii_lower("Shift"@) =~= "shift"@);
    assert(ascii_lower("Win"@) =~= "win"@);
    lemma_literal_ascii("Ctrl"@);
    lemma_literal_ascii("Alt"@);
    lemma_literal_ascii("Shift"@);
    lemma_literal_ascii("Win"@);
    let e = Seq::<Seq<char>>::empty();
    let s1 = e + (if m & 2 != 0 { seq!["Ctrl"@] } else { seq![] });
    let s2 = s1 + (if m & 1 != 0 { seq!["Alt"@] } else { seq![] });
    let s3 = s2 + (if m & 4 != 0 { seq!["Shift"@] } else { seq![] });
    let s4 = s3 + (if m & 8 != 0 { seq!["Win"@] } else { seq![] });
    lemma_modifier_bits_step(e, m & 2 != 0, "Ctrl"@, 2);
    let v1: u32 = if m & 2 != 0 { 0u32 | 2u32 } else { 0u32 };
    lemma_modifier_bits_step(s1, m & 1 != 0, "Alt"@, 1);
    let v2: u32 = if m & 1 != 0 { v1 | 1u32 } else { v1 };
    lemma_modifier_bits_step(s2, m & 4 != 0, "Shift"@, 4);
    let v3: u32 = if m & 4 != 0 { v2 | 4u32 } else { v2 };
    lemma_modifier_bits_step(s3, m & 8 != 0, "Win"@, 8);
    let v4: u32 = if m & 8 != 0 { v3 | 8u32 } else { v3 };
    assert(modifier_bits(s4) == v4);
    assert(s4 =~= modifier_names(m));
    assert(v4 == m & 15) by (bit_vector)
        requires
            v1 == (if m & 2 != 0 { 0u32 | 2u32 } else { 0u32 }),
            v2 == (if m & 1 != 0 { v1 | 1u32 } else { v1 }),
            v3 == (if m & 4 != 0 { v2 | 4u32 } else { v2 }),
            v4 == (if m & 8 != 0 { v3 | 8u32 } else { v3 }),
    ;
}

proof fn lemma_modifier_names_no_plus(m: u32)
    ensures
        forall|k: int| 0 <= k < modifier_names(m).len() ==> no_plus(#[trigger] modifier_names(m)[k]),
{
    lemma_names_revealed();
    let n = modifier_names(m);
    assert forall|k: int| 0 <= k < n.len() implies no_plus(#[trigger] n[k]) by {
        assert(n[k] == "Ctrl"@ || n[k] == "Alt"@ || n[k] == "Shift"@ || n[k] == "Win"@);
    }
}

proof fn lemma_named_label(vk: u32)
    requires
        vk == 0x20 || vk == 0x0D || vk == 0x09 || vk == 0x1B || vk == 0x08 || vk == 0x2E || vk
            == 0x2D || vk == 0x24 || vk == 0x23 || vk == 0x21 || vk == 0x22 || vk == 0x25 || vk
            == 0x26 || vk == 0x27 || vk == 0x28,
    ensures
        key_code(lower(key_label(vk))) == Some(vk),
        no_plus(key_label(vk)),
{
    lemma_names_revealed();
    lemma_literal_ascii(key_label(vk));
    if vk == 0 {
    } else if vk == 0x20 {
        assert(key_label(vk) == "Space"@);
        assert(ascii_lower("Space"@) =~= "space"@);
    } else if vk == 0x0D {
        assert(key_label(vk) == "Enter"@);
        assert(ascii_lower("Enter"@) =~= "enter"@);
    } else if vk == 0x09 {
        assert(key_label(vk) == "Tab"@);
        assert(ascii_lower("Tab"@) =~= "tab"@);
    } else if vk == 0x1B {
        assert(key_label(vk) == "Esc"@);
        assert(ascii_lower("Esc"@) =~= "esc"@);
    } else if vk == 0x08 {
        assert(key_label(vk) == "Backspace"@);
        assert(ascii_lower("Backspace"@) =~= "backspace"@);
    } else if vk == 0x2E {
        assert(key_label(vk) == "Delete"@);
        assert(ascii_lower("Delete"@) =~= "delete"@);
    } else if vk == 0x2D {
        assert(key_label(vk) == "Insert"@);
        assert(ascii_lower("Insert"@) =~= "insert"@);
    } else if vk == 0x24 {
        assert(key_label(vk) == "Home"@);
        assert(ascii_lower("Home"@) =~= "home"@);
    } else if vk == 0x23 {
        assert(key_label(vk) == "End"@);
        assert(ascii_lower("End"@) =~= "end"@);
    } else if vk == 0x21 {
        assert(key_label(vk) == "PageUp"@);
        assert(ascii_lower("PageUp"@) =~= "pageup"@);
    } else if vk == 0x22 {
        assert(key_label(vk) == "PageDown"@);
        assert(ascii_lower("PageDown"@) =~= "pagedown"@);
    } else if vk == 0x26 {
        assert(key_label(vk) == "Up"@);
        assert(ascii_lower("Up"@) =~= "up"@);
    } else if vk == 0x28 {
        assert(key_label(vk) == "Down"@);
        assert(ascii_lower("Down"@) =~= "down"@);
    } else if vk == 0x25 {
        assert(key_label(vk) == "Left"@);
        assert(ascii_lower("Left"@) =~= "left"@);
    } else if vk == 0x27 {
        assert(key_label(vk) == "Right"@);
        assert(ascii_lower("Right"@) =~= "right"@);
    }
}

proof fn lemma_f_label(vk: u32)
    requires
        0x70 <= vk <= 0x7B,
    ensures
        key_code(lower(key_label(vk))) == Some(vk),
        no_plus(key_label(vk)),
{
    lemma_names_revealed();
    reveal_with_fuel(decimal, 2);
    let l = key_label(vk);
    assert(l == seq!['F'] + decimal((vk - 0x6F) as nat));
    if vk == 0 {
    } else if vk == 0x70 {
        assert(crate::text::digit_char(1) == '1');
        assert(l =~= "F1"@);
        assert(ascii_lower(l) =~= "f1"@);
    } else if vk == 0x71 {
        assert(crate::text::digit_char(2) == '2');
        assert(l =~= "F2"@);
        assert(ascii_lower(l) =~= "f2"@);
    } else if vk == 0x72 {
        assert(crate::text::digit_char(3) == '3');
        assert(l =~= "F3"@);
        assert(ascii_lower(l) =~= "f3"@);
    } else if vk == 0x73 {
        assert(crate::text::digit_char(4) == '4');
        assert(l =~= "F4"@);
        assert(ascii_lower(l) =~= "f4"@);
    } else if vk == 0x74 {
        assert(crate::text::digit_char(5) == '5');
        assert(l =~= "F5"@);
        assert(ascii_lower(l) =~= "f5"@);
    } else if vk == 0x75 {
        assert(crate::text::digit_char(6) == '6');
        assert(l =~= "F6"@);
        assert(ascii_lower(l) =~= "f6"@);
    } else if vk == 0x76 {
        assert(crate::text::digit_char(7) == '7');
        assert(l =~= "F7"@);
        assert(ascii_lower(l) =~= "f7"@);
    } else if vk == 0x77 {
        assert(crate::text::digit_char(8) == '8');
        assert(l =~= "F8"@);
        assert(ascii_lower(l) =~= "f8"@);
    } else if vk == 0x78 {
        assert(crate::text::digit_char(9) == '9');
        assert(l =~= "F9"@);
        assert(ascii_lower(l) =~= "f9"@);
    } else if vk == 0x79 {
        assert(crate::text::digit_char(0) == '0');
        assert(l =~= "F10"@);
        assert(ascii_lower(l) =~= "f10"@);
    } else if vk == 0x7A {
        assert(crate::text::digit_char(1) == '1');
        assert(l =~= "F11"@);
        assert(ascii_lower(l) =~= "f11"@);
    } else if vk == 0x7B {
        assert(crate::text::digit_char(2) == '2');
        assert(l =~= "F12"@);
        assert(ascii_lower(l) =~= "f12"@);
    }
    lemma_literal_ascii(l);
}

proof fn lemma_char_label(vk: u32)
    requires
        reads_back(vk),
        !(0x70 <= vk <= 0x7B),
        !(vk == 0x20 || vk == 0x0D || vk == 0x09 || vk == 0x1B || vk == 0x08 || vk == 0x2E || vk
            == 0x2D || vk == 0x24 || vk == 0x23 || vk == 0x21 || vk == 0x22 || vk == 0x25 || vk
            == 0x26 || vk == 0x27 || vk == 0x28),
    ensures
        key_code(lower(key_label(vk))) == Some(vk),
        no_plus(key_label(vk)),
{
    lemma_names_revealed();
    let c = vk as char;
    assert(c as u32 == vk);
    let l = key_label(vk);
    assert(l == seq![c]);
    lemma_literal_ascii(l);
    let lc = crate::text::ascii_lower_char(c);
    assert(ascii_lower(l) =~= seq![lc]);
    assert(ascii_upper_char(lc) == c);
    assert(is_ascii_char(lc));
}

/// A hotkey written by `format_hotkey` reads back through `parse_hotkey` as its four
/// modifier bits and its key, for every key whose name reads back (see `reads_back`).
pub proof fn lemma_hotkey_roundtrip(m: u32, vk: u32)
    requires
        reads_back(vk),
    ensures
        hotkey_of(hotkey_text(m, vk)) == Some((m & 15, vk)),
{
    let names = modifier_names(m);
    let l = key_label(vk);
    let parts = names.push(l);
    if 0x70 <= vk <= 0x7B {
        lemma_f_label(vk);
    } else if vk == 0x20 || vk == 0x0D || vk == 0x09 || vk == 0x1B || vk == 0x08 || vk == 0x2E
        || vk == 0x2D || vk == 0x24 || vk == 0x23 || vk == 0x21 || vk == 0x22 || vk == 0x25
        || vk == 0x26 || vk == 0x27 || vk == 0x28 {
        lemma_named_label(vk);
    } else {
        lemma_char_label(vk);
    }
    lemma_modifier_names_no_plus(m);
    assert forall|k: int, j: int| 0 <= k < parts.len() && 0 <= j < parts[k].len() implies #[trigger] parts[k][j] != '+' by {
        if k < names.len() {
            assert(parts[k] == names[k]);
            assert(no_plus(names[k]));
        } else {
            assert(parts[k] == l);
        }
    }
    crate::text::lemma_split_join(parts, '+');
    assert(parts.drop_last() =~= names);
    lemma_lenient_modifier_bits(m);
}

proof fn lemma_modifier_bits_small(parts: Seq<Seq<char>>)
    ensures
        modifier_bits(parts) & 15 == modifier_bits(parts),
    decreases parts.len(),
{
    if parts.len() > 0 {
        lemma_modifier_bits_small(parts.drop_last());
        let a = modifier_bits(parts.drop_last());
        let b = modifier_bit(lower(parts.last()));
        assert(b == 0 || b == 1 || b == 2 || b == 4 || b == 8);
        assert((a | b) & 15 == a | b) by (bit_vector)
            requires
                a & 15 == a,
                b == 0 || b == 1 || b == 2 || b == 4 || b == 8,
        ;
    } else {
        assert(0u32 & 15 == 0u32) by (bit_vector);
    }
}

/// What `format_hotkey` writes of a hotkey that `parse_hotkey` read from ASCII text
/// reads back as the same hotkey. (Of other text nothing is stated of lower-casing but
/// that it is a function, so which key a non-ASCII name stands for is left open.)
pub proof fn lemma_hotkey_text_reads_back(s: Seq<char>)
    requires
        hotkey_of(s) is Some,
        crate::text::all_ascii(s),
    ensures
        hotkey_of(s) matches Some(h) && hotkey_of(hotkey_text(h.0, h.1)) == Some(h),
{
    let parts = split_char(s, '+');
    lemma_split_char_len(s, '+');
    crate::text::lemma_split_parts_lack(s, '+');
    let key = parts.last();
    assert(key == parts[parts.len() - 1]);
    crate::text::lemma_split_parts_ascii(s, '+');
    assert(crate::text::all_ascii(key));
    let k = lower(key);
    assert(k == crate::text::ascii_lower(key));
    lemma_names_revealed();
    let vk = key_code(k)->0;
    if k.len() == 1 && key_code(k) == Some(ascii_upper_char(k[0]) as u32) {
        assert(key.len() == 1);
        assert(key[0] != '+');
        assert(k[0] == crate::text::ascii_lower_char(key[0]));
        assert(k[0] != '+');
        assert(is_ascii_char(k[0]));
        let u = ascii_upper_char(k[0]);
        assert(u != '+');
        assert(!('a' <= u && u <= 'z'));
        assert(reads_back(vk));
    }
    assert(reads_back(vk));
    lemma_modifier_bits_small(parts.drop_last());
    lemma_hotkey_roundtrip(modifier_bits(parts.drop_last()), vk);
}

} // verus!
