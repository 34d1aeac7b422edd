//! Settings of the native front end: the theme, hotkey text in its strict form,
//! the configuration record and its hand-written JSON form.
use vstd::prelude::*;
use crate::entry_json::{
    escape_char, flag, json_escape_chars, json_escape_spec, json_unescape_chars, json_unescape_spec,
    lemma_unescape_escape,
};
use crate::json_tokens::{
    chunk, is_lower, lemma_render_concat, lemma_render_one, lemma_render_three, lemma_render_two,
    item_parts, key_ok, lemma_array_at, lemma_lookup, lemma_no_word_concat, lemma_tokens_ok_concat,
    lemma_value_bare,
    lemma_value_quoted, no_word, render, token_text, tokens_ok, word, Token,
};
use crate::text::{
    parse_usize, parse_usize_spec,
    lemma_find_from, lemma_index_of_char, match_at, lemma_index_of_char_first, lemma_trim_noop,
    is_ws, push_all, push_str, trim_char, trim_char_chars,
    all_ascii, ascii_upper_char, chars_of, decimal, eq_str, find, find_char, find_chars,
    fmt_hex_upper, fmt_u64, hex_upper, index_of_char, is_ascii_char, join_chars, join_with,
    lemma_split_char_len, slice_chars, split_char, split_chars, string_of, to_ascii_upper, trim,
    trim_chars,
};
pub use crate::entry_json::json_escape;
pub use crate::file_kinds::SearchFilter;
pub use crate::journal_state::{UsnJournalState, VolumeJournalState};

verus! {

/// Colour scheme of the windows.
#[derive(Debug, Clone, Copy, PartialEq, Eq, Structural)]
pub enum Theme {
    Light,
    Dark,
    System,
}

/// The theme a setting names: `dark` and `system` exactly, anything else light.
pub open spec fn theme_named(s: Seq<char>) -> Theme {
    if s == "dark"@ {
        Theme::Dark
    } else if s == "system"@ {
        Theme::System
    } else {
        Theme::Light
    }
}

impl Theme {
    pub open spec fn name(self) -> Seq<char> {
        match self {
            Theme::Light => "light"@,
            Theme::Dark => "dark"@,
            Theme::System => "system"@,
        }
    }

    pub fn from_str(s: &str) -> (r: Theme)
        ensures
            r == theme_named(s@),
    {
        let cs = chars_of(s);
        if eq_str(&cs, "dark") {
            Theme::Dark
        } else if eq_str(&cs, "system") {
            Theme::System
        } else {
            Theme::Light
        }
    }

    pub fn as_str(&self) -> (s: &'static str)
        ensures
            s@ == self.name(),
    {
        match self {
            Theme::Light => "light",
            Theme::Dark => "dark",
            Theme::System => "system",
        }
    }

    /// The theme to draw with: the system setting stands for dark or light as the
    /// system reports, the others for themselves.
    pub fn effective(&self, system_dark: bool) -> (r: Theme)
        ensures
            r == (match *self {
                Theme::System => if system_dark {
                    Theme::Dark
                } else {
                    Theme::Light
                },
                t => t,
            }),
    {
        match self {
            Theme::System => if system_dark {
                Theme::Dark
            } else {
                Theme::Light
            },
            Theme::Light => Theme::Light,
            Theme::Dark => Theme::Dark,
        }
    }
}

/// A theme's name reads back as the theme.
pub proof fn lemma_theme_name_roundtrip(t: Theme)
    ensures
        theme_named(t.name()) == t,
{
    reveal_strlit("light");
    reveal_strlit("dark");
    reveal_strlit("system");
    assert("light"@ != "dark"@ && "light"@ != "system"@) by {
        assert("light"@[0] != "dark"@[0]);
        assert("light"@.len() != "system"@.len());
    }
    assert("dark"@ != "system"@) by {
        assert("dark"@.len() != "system"@.len());
    }
}

/// Whether the answer of the registry query for `AppsUseLightTheme` says dark: the
/// query succeeded and its output holds `0x0`.
pub fn reg_output_says_dark(succeeded: bool, stdout: &str) -> (r: bool)
    ensures
        r == (succeeded && crate::text::contains(stdout@, "0x0"@)),
{
    if !succeeded {
        return false;
    }
    let out = chars_of(stdout);
    let pat = chars_of("0x0");
    crate::text::contains_chars(&out, &pat)
}

// ---------------------------------------------------------------------------
// Hotkeys
// ---------------------------------------------------------------------------

/// The bit of a modifier name, written with a capital or in lower case.
pub open spec fn strict_modifier(p: Seq<char>) -> Option<u32> {
    if p == "Ctrl"@ || p == "ctrl"@ {
        Some(2u32)
    } else if p == "Shift"@ || p == "shift"@ {
        Some(4u32)
    } else if p == "Alt"@ || p == "alt"@ {
        Some(1u32)
    } else if p == "Win"@ || p == "win"@ {
        Some(8u32)
    } else {
        None
    }
}

/// The bits of all modifier names, or nothing when one is not a modifier.
pub open spec fn strict_modifiers(parts: Seq<Seq<char>>) -> Option<u32>
    decreases parts.len(),
{
    if parts.len() == 0 {
        Some(0u32)
    } else {
        match (strict_modifiers(parts.drop_last()), strict_modifier(parts.last())) {
            (Some(a), Some(b)) => Some(a | b),
            _ => None,
        }
    }
}

/// The virtual-key code of a key name as written; a single ASCII character stands for
/// its upper-case code.
pub open spec fn strict_key(k: Seq<char>) -> Option<u32> {
    if k == "Space"@ {
        Some(0x20u32)
    } else if k == "Enter"@ {
        Some(0x0Du32)
    } else if k == "Esc"@ {
        Some(0x1Bu32)
    } else if k == "Tab"@ {
        Some(0x09u32)
    } else if k == "Backspace"@ {
        Some(0x08u32)
    } else if k == "Delete"@ {
        Some(0x2Eu32)
    } else if k == "Insert"@ {
        Some(0x2Du32)
    } else if k == "Home"@ {
        Some(0x24u32)
    } else if k == "End"@ {
        Some(0x23u32)
    } else if k == "PageUp"@ {
        Some(0x21u32)
    } else if k == "PageDown"@ {
        Some(0x22u32)
    } else if k == "Up"@ {
        Some(0x26u32)
    } else if k == "Down"@ {
        Some(0x28u32)
    } else if k == "Left"@ {
        Some(0x25u32)
    } else if k == "Right"@ {
        Some(0x27u32)
    } else if k == "F1"@ {
        Some(0x70u32)
    } else if k == "F2"@ {
        Some(0x71u32)
    } else if k == "F3"@ {
        Some(0x72u32)
    } else if k == "F4"@ {
        Some(0x73u32)
    } else if k == "F5"@ {
        Some(0x74u32)
    } else if k == "F6"@ {
        Some(0x75u32)
    } else if k == "F7"@ {
        Some(0x76u32)
    } else if k == "F8"@ {
        Some(0x77u32)
    } else if k == "F9"@ {
        Some(0x78u32)
    } else if k == "F10"@ {
        Some(0x79u32)
    } else if k == "F11"@ {
        Some(0x7Au32)
    } else if k == "F12"@ {
        Some(0x7Bu32)
    } else if k.len() == 1 && is_ascii_char(k[0]) {
        Some(ascii_upper_char(k[0]) as u32)
    } else {
        None
    }
}

/// `Mod+...+Key` read as modifier bits and a virtual-key code.
pub open spec fn strict_hotkey(s: Seq<char>) -> Option<(u32, u32)> {
    let parts = split_char(s, '+');
    match strict_modifiers(parts.drop_last()) {
        Some(m) => match strict_key(parts.last()) {
            Some(vk) => Some((m, vk)),
            None => None,
        },
        None => None,
    }
}

fn modifier_bit(p: &Vec<char>) -> (r: Option<u32>)
    ensures
        r == strict_modifier(p@),
{
    if eq_str(p, "Ctrl") || eq_str(p, "ctrl") {
        Some(2)
    } else if eq_str(p, "Shift") || eq_str(p, "shift") {
        Some(4)
    } else if eq_str(p, "Alt") || eq_str(p, "alt") {
        Some(1)
    } else if eq_str(p, "Win") || eq_str(p, "win") {
        Some(8)
    } else {
        None
    }
}

fn key_code(k: &Vec<char>) -> (r: Option<u32>)
    ensures
        r == strict_key(k@),
{
    if eq_str(k, "Space") {
        return Some(0x20);
    }
    if eq_str(k, "Enter") {
        return Some(0x0D);
    }
    if eq_str(k, "Esc") {
        return Some(0x1B);
    }
    if eq_str(k, "Tab") {
        return Some(0x09);
    }
    if eq_str(k, "Backspace") {
        return Some(0x08);
    }
    if eq_str(k, "Delete") {
        return Some(0x2E);
    }
    if eq_str(k, "Insert") {
        return Some(0x2D);
    }
    if eq_str(k, "Home") {
        return Some(0x24);
    }
    if eq_str(k, "End") {
        return Some(0x23);
    }
    if eq_str(k, "PageUp") {
        return Some(0x21);
    }
    if eq_str(k, "PageDown") {
        return Some(0x22);
    }
    if eq_str(k, "Up") {
        return Some(0x26);
    }
    if eq_str(k, "Down") {
        return Some(0x28);
    }
    if eq_str(k, "Left") {
        return Some(0x25);
    }
    if eq_str(k, "Right") {
        return Some(0x27);
    }
    if eq_str(k, "F1") {
        return Some(0x70);
    }
    if eq_str(k, "F2") {
        return Some(0x71);
    }
    if eq_str(k, "F3") {
        return Some(0x72);
    }
    if eq_str(k, "F4") {
        return Some(0x73);
    }
    if eq_str(k, "F5") {
        return Some(0x74);
    }
    if eq_str(k, "F6") {
        return Some(0x75);
    }
    if eq_str(k, "F7") {
        return Some(0x76);
    }
    if eq_str(k, "F8") {
        return Some(0x77);
    }
    if eq_str(k, "F9") {
        return Some(0x78);
    }
    if eq_str(k, "F10") {
        return Some(0x79);
    }
    if eq_str(k, "F11") {
        return Some(0x7A);
    }
    if eq_str(k, "F12") {
        return Some(0x7B);
    }
    if k.len() == 1 && (k[0] as u32) < 128 {
        let c = to_ascii_upper(k[0]);
        return Some(c as u32);
    }
    None
}

/// Parses a hotkey such as `Ctrl+Shift+F`: modifiers `Ctrl`, `Shift`, `Alt`, `Win`
/// (capitalised or lower case), then a key name or a single character.
pub fn parse_hotkey(s: &str) -> (r: Option<(u32, u32)>)
    ensures
        r == strict_hotkey(s@),
{
    let cs = chars_of(s);
    let parts = split_chars(&cs, '+');
    let ghost ps = parts@.map_values(|p: Vec<char>| p@);
    proof {
        lemma_split_char_len(s@, '+');
    }
    let n = parts.len();
    let mut modifiers: u32 = 0;
    let mut i: usize = 0;
    assert(ps.drop_last().take(0) =~= Seq::<Seq<char>>::empty());
    while i < n - 1
        invariant
            n == parts.len(),
            n >= 1,
            i <= n - 1,
            ps == parts@.map_values(|p: Vec<char>| p@),
            ps == split_char(s@, '+'),
            strict_modifiers(ps.drop_last().take(i as int)) == Some(modifiers),
        decreases n - 1 - i,
    {
        assert(ps.drop_last().take(i + 1).drop_last() =~= ps.drop_last().take(i as int));
        assert(ps.drop_last().take(i + 1).last() == parts@[i as int]@);
        match modifier_bit(&parts[i]) {
            Some(b) => {
                modifiers = modifiers | b;
            },
            None => {
                proof {
                    let pre = ps.drop_last().take(i + 1);
                    assert(strict_modifier(pre.last()) is None);
                    assert(strict_modifiers(pre) is None);
                    lemma_strict_modifiers_none(ps.drop_last(), i as int + 1);
                    assert(ps == split_char(s@, '+'));
                }
                return None;
            },
        }
        i = i + 1;
    }
    assert(ps.drop_last().take(i as int) =~= ps.drop_last());
    assert(ps.last() == parts@[n - 1]@);
    match key_code(&parts[n - 1]) {
        Some(vk) => Some((modifiers, vk)),
        None => None,
    }
}

proof fn lemma_strict_modifiers_none(parts: Seq<Seq<char>>, k: int)
    requires
        0 <= k <= parts.len(),
        strict_modifiers(parts.take(k)) is None,
    ensures
        strict_modifiers(parts) is None,
    decreases parts.len() - k,
{
    if k < parts.len() {
        assert(parts.take(k + 1).drop_last() =~= parts.take(k));
        lemma_strict_modifiers_none(parts, k + 1);
    } else {
        assert(parts.take(k) =~= parts);
    }
}

/// Names of the modifier bits, in the order Ctrl, Shift, Alt, Win.
pub open spec fn strict_modifier_names(m: u32) -> Seq<Seq<char>> {
    (if m & 2 != 0 {
        seq!["Ctrl"@]
    } else {
        seq![]
    }) + (if m & 4 != 0 {
        seq!["Shift"@]
    } else {
        seq![]
    }) + (if m & 1 != 0 {
        seq!["Alt"@]
    } else {
        seq![]
    }) + (if m & 8 != 0 {
        seq!["Win"@]
    } else {
        seq![]
    })
}

/// Whether a virtual-key code is written as the one character that stands for it: an
/// ASCII code that is not `+` and not a lower-case letter (letters stand for their
/// upper-case codes).
pub open spec fn char_key(vk: u32) -> bool {
    vk < 0x80 && vk != 0x2B && !(0x61 <= vk <= 0x7A)
}

/// The name of a virtual key: the named keys, `F1`..`F12`, and for any other ASCII key
/// that one character stands for, that character (letters, digits, symbols).
pub open spec fn strict_key_label(vk: u32) -> Option<Seq<char>> {
    if vk == 0x20 {
        Some("Space"@)
    } else if vk == 0x0D {
        Some("Enter"@)
    } else if vk == 0x1B {
        Some("Esc"@)
    } else if vk == 0x09 {
        Some("Tab"@)
    } else if vk == 0x08 {
        Some("Backspace"@)
    } else if vk == 0x2E {
        Some("Delete"@)
    } else if vk == 0x2D {
        Some("Insert"@)
    } else if vk == 0x24 {
        Some("Home"@)
    } else if vk == 0x23 {
        Some("End"@)
    } else if vk == 0x21 {
        Some("PageUp"@)
    } else if vk == 0x22 {
        Some("PageDown"@)
    } else if vk == 0x26 {
        Some("Up"@)
    } else if vk == 0x28 {
        Some("Down"@)
    } else if vk == 0x25 {
        Some("Left"@)
    } else if vk == 0x27 {
        Some("Right"@)
    } else if 0x70 <= vk <= 0x7B {
        Some(seq!['F'] + decimal((vk - 0x6F) as nat))
    } else if char_key(vk) {
        Some(seq![vk as char])
    } else {
        None
    }
}

/// The text of a hotkey: the modifier names and the key name joined by `+`; a key
/// without a name is written as `+` and its hexadecimal code after the modifiers.
pub open spec fn strict_hotkey_text(m: u32, vk: u32) -> Seq<char> {
    match strict_key_label(vk) {
        Some(k) => join_with(strict_modifier_names(m).push(k), seq!['+']),
        None => join_with(strict_modifier_names(m), seq!['+']) + seq!['+'] + hex_upper(vk as nat),
    }
}

fn modifier_parts(m: u32) -> (r: Vec<Vec<char>>)
    ensures
        r@.map_values(|p: Vec<char>| p@) == strict_modifier_names(m),
{
    let mut parts: Vec<Vec<char>> = Vec::new();
    if m & 2 != 0 {
        parts.push(chars_of("Ctrl"));
    }
    if m & 4 != 0 {
        parts.push(chars_of("Shift"));
    }
    if m & 1 != 0 {
        parts.push(chars_of("Alt"));
    }
    if m & 8 != 0 {
        parts.push(chars_of("Win"));
    }
    assert(parts@.map_values(|p: Vec<char>| p@) =~= strict_modifier_names(m));
    parts
}

fn key_label(vk: u32) -> (r: Option<Vec<char>>)
    ensures
        match r {
            Some(v) => strict_key_label(vk) == Some(v@),
            None => strict_key_label(vk) is None,
        },
{
    if vk == 0x20 {
        return Some(chars_of("Space"));
    }
    if vk == 0x0D {
        return Some(chars_of("Enter"));
    }
    if vk == 0x1B {
        return Some(chars_of("Esc"));
    }
    if vk == 0x09 {
        return Some(chars_of("Tab"));
    }
    if vk == 0x08 {
        return Some(chars_of("Backspace"));
    }
    if vk == 0x2E {
        return Some(chars_of("Delete"));
    }
    if vk == 0x2D {
        return Some(chars_of("Insert"));
    }
    if vk == 0x24 {
        return Some(chars_of("Home"));
    }
    if vk == 0x23 {
        return Some(chars_of("End"));
    }
    if vk == 0x21 {
        return Some(chars_of("PageUp"));
    }
    if vk == 0x22 {
        return Some(chars_of("PageDown"));
    }
    if vk == 0x26 {
        return Some(chars_of("Up"));
    }
    if vk == 0x28 {
        return Some(chars_of("Down"));
    }
    if vk == 0x25 {
        return Some(chars_of("Left"));
    }
    if vk == 0x27 {
        return Some(chars_of("Right"));
    }
    if 0x70 <= vk && vk <= 0x7B {
        let mut v: Vec<char> = Vec::new();
        v.push('F');
        let d = fmt_u64((vk - 0x6F) as u64);
        crate::text::push_all(&mut v, &d);
        assert(v@ =~= seq!['F'] + decimal((vk - 0x6F) as nat));
        return Some(v);
    }
    if vk < 0x80 && vk != 0x2B && !(0x61 <= vk && vk <= 0x7A) {
        let b: u8 = vk as u8;
        let c: char = b as char;
        let mut v: Vec<char> = Vec::new();
        v.push(c);
        assert(v@ =~= seq![vk as char]);
        return Some(v);
    }
    None
}

/// Writes modifier bits and a virtual-key code as hotkey text, the inverse of
/// `parse_hotkey` on the keys it names.
pub fn format_hotkey(modifiers: u32, vk: u32) -> (r: String)
    ensures
        r@ == strict_hotkey_text(modifiers, vk),
{
    let mut parts = modifier_parts(modifiers);
    let mut plus: Vec<char> = Vec::new();
    plus.push('+');
    assert(plus@ =~= seq!['+']);
    match key_label(vk) {
        Some(k) => {
            let ghost before = parts@.map_values(|p: Vec<char>| p@);
            let ghost kv = k@;
            parts.push(k);
            assert(parts@.map_values(|p: Vec<char>| p@) =~= before.push(kv));
            let j = join_chars(&parts, &plus);
            string_of(&j)
        },
        None => {
            let mut j = join_chars(&parts, &plus);
            j.push('+');
            let h = fmt_hex_upper(vk);
            crate::text::push_all(&mut j, &h);
            string_of(&j)
        },
    }
}

// ---------------------------------------------------------------------------
// Reading back written hotkeys
// ---------------------------------------------------------------------------

pub open spec fn no_plus(s: Seq<char>) -> bool {
    forall|j: int| 0 <= j < s.len() ==> #[trigger] s[j] != '+'
}

proof fn lemma_key_names_revealed()
    ensures
        "Space"@ =~= seq!['S', 'p', 'a', 'c', 'e'],
        "Enter"@ =~= seq!['E', 'n', 't', 'e', 'r'],
        "Esc"@ =~= seq!['E', 's', 'c'],
        "Tab"@ =~= seq!['T', 'a', 'b'],
        "Backspace"@ =~= seq!['B', 'a', 'c', 'k', 's', 'p', 'a', 'c', 'e'],
        "Delete"@ =~= seq!['D', 'e', 'l', 'e', 't', 'e'],
        "Insert"@ =~= seq!['I', 'n', 's', 'e', 'r', 't'],
        "Home"@ =~= seq!['H', 'o', 'm', 'e'],
        "End"@ =~= seq!['E', 'n', 'd'],
        "PageUp"@ =~= seq!['P', 'a', 'g', 'e', 'U', 'p'],
        "PageDown"@ =~= seq!['P', 'a', 'g', 'e', 'D', 'o', 'w', 'n'],
        "Up"@ =~= seq!['U', 'p'],
        "Down"@ =~= seq!['D', 'o', 'w', 'n'],
        "Left"@ =~= seq!['L', 'e', 'f', 't'],
        "Right"@ =~= seq!['R', 'i', 'g', 'h', 't'],
        "F1"@ =~= seq!['F', '1'],
        "F2"@ =~= seq!['F', '2'],
        "F3"@ =~= seq!['F', '3'],
        "F4"@ =~= seq!['F', '4'],
        "F5"@ =~= seq!['F', '5'],
        "F6"@ =~= seq!['F', '6'],
        "F7"@ =~= seq!['F', '7'],
        "F8"@ =~= seq!['F', '8'],
        "F9"@ =~= seq!['F', '9'],
        "F10"@ =~= seq!['F', '1', '0'],
        "F11"@ =~= seq!['F', '1', '1'],
        "F12"@ =~= seq!['F', '1', '2'],
{
    reveal_strlit("Space");
    reveal_strlit("Enter");
    reveal_strlit("Esc");
    reveal_strlit("Tab");
    reveal_strlit("Backspace");
    reveal_strlit("Delete");
    reveal_strlit("Insert");
    reveal_strlit("Home");
    reveal_strlit("End");
    reveal_strlit("PageUp");
    reveal_strlit("PageDown");
    reveal_strlit("Up");
    reveal_strlit("Down");
    reveal_strlit("Left");
    reveal_strlit("Right");
    reveal_strlit("F1");
    reveal_strlit("F2");
    reveal_strlit("F3");
    reveal_strlit("F4");
    reveal_strlit("F5");
    reveal_strlit("F6");
    reveal_strlit("F7");
    reveal_strlit("F8");
    reveal_strlit("F9");
    reveal_strlit("F10");
    reveal_strlit("F11");
    reveal_strlit("F12");
}

proof fn lemma_modifier_names_revealed()
    ensures
        "Ctrl"@ =~= seq!['C', 't', 'r', 'l'],
        "ctrl"@ =~= seq!['c', 't', 'r', 'l'],
        "Shift"@ =~= seq!['S', 'h', 'i', 'f', 't'],
        "shift"@ =~= seq!['s', 'h', 'i', 'f', 't'],
        "Alt"@ =~= seq!['A', 'l', 't'],
        "alt"@ =~= seq!['a', 'l', 't'],
        "Win"@ =~= seq!['W', 'i', 'n'],
        "win"@ =~= seq!['w', 'i', 'n'],
{
    reveal_strlit("Ctrl");
    reveal_strlit("ctrl");
    reveal_strlit("Shift");
    reveal_strlit("shift");
    reveal_strlit("Alt");
    reveal_strlit("alt");
    reveal_strlit("Win");
    reveal_strlit("win");
}

proof fn lemma_strict_modifiers_step(s: Seq<Seq<char>>, b: bool, x: Seq<char>, bit: u32)
    requires
        strict_modifiers(s) is Some,
        strict_modifier(x) == Some(bit),
    ensures
        strict_modifiers(s + (if b {
            seq![x]
        } else {
            seq![]
        })) == Some(if b {
            strict_modifiers(s)->0 | bit
        } else {
            strict_modifiers(s)->0
        }),
{
    if b {
        assert((s + seq![x]).drop_last() =~= s);
    } else {
        assert(s + Seq::<Seq<char>>::empty() =~= s);
    }
}

proof fn lemma_strict_modifier_bits(m: u32)
    ensures
        strict_modifiers(strict_modifier_names(m)) == Some(m & 15),
{
    lemma_modifier_names_revealed();
    let e = Seq::<Seq<char>>::empty();
    let s1 = e + (if m & 2 != 0 { seq!["Ctrl"@] } else { seq![] });
    let s2 = s1 + (if m & 4 != 0 { seq!["Shift"@] } else { seq![] });
    let s3 = s2 + (if m & 1 != 0 { seq!["Alt"@] } else { seq![] });
    let s4 = s3 + (if m & 8 != 0 { seq!["Win"@] } else { seq![] });
    assert(strict_modifier("Ctrl"@) == Some(2u32));
    assert(strict_modifier("Shift"@) == Some(4u32));
    assert(strict_modifier("Alt"@) == Some(1u32));
    assert(strict_modifier("Win"@) == Some(8u32));
    assert(strict_modifiers(e) == Some(0u32));
    lemma_strict_modifiers_step(e, m & 2 != 0, "Ctrl"@, 2);
    let v1: u32 = if m & 2 != 0 { 0u32 | 2u32 } else { 0u32 };
    assert(strict_modifiers(s1) == Some(v1));
    lemma_strict_modifiers_step(s1, m & 4 != 0, "Shift"@, 4);
    let v2: u32 = if m & 4 != 0 { v1 | 4u32 } else { v1 };
    assert(strict_modifiers(s2) == Some(v2));
    lemma_strict_modifiers_step(s2, m & 1 != 0, "Alt"@, 1);
    let v3: u32 = if m & 1 != 0 { v2 | 1u32 } else { v2 };
    assert(strict_modifiers(s3) == Some(v3));
    lemma_strict_modifiers_step(s3, m & 8 != 0, "Win"@, 8);
    let v4: u32 = if m & 8 != 0 { v3 | 8u32 } else { v3 };
    assert(strict_modifiers(s4) == Some(v4));
    assert(s4 =~= strict_modifier_names(m));
    assert(v4 == m & 15) by (bit_vector)
        requires
            v1 == (if m & 2 != 0 { 0u32 | 2u32 } else { 0u32 }),
            v2 == (if m & 4 != 0 { v1 | 4u32 } else { v1 }),
            v3 == (if m & 1 != 0 { v2 | 1u32 } else { v2 }),
            v4 == (if m & 8 != 0 { v3 | 8u32 } else { v3 }),
    ;
}

proof fn lemma_modifier_names_no_plus(m: u32)
    ensures
        forall|k: int| 0 <= k < strict_modifier_names(m).len() ==> no_plus(#[trigger] strict_modifier_names(m)[k]),
{
    lemma_modifier_names_revealed();
    let n = strict_modifier_names(m);
    assert forall|k: int| 0 <= k < n.len() implies no_plus(#[trigger] n[k]) by {
        assert(n[k] == "Ctrl"@ || n[k] == "Shift"@ || n[k] == "Alt"@ || n[k] == "Win"@);
    }
}

proof fn lemma_f_key_label(vk: u32)
    requires
        0x70 <= vk <= 0x7B,
    ensures
        strict_key(strict_key_label(vk)->0) == Some(vk),
        no_plus(strict_key_label(vk)->0),
{
    lemma_key_names_revealed();
    reveal_with_fuel(decimal, 2);
    let l = strict_key_label(vk)->0;
    assert(l == seq!['F'] + decimal((vk - 0x6F) as nat));
    if vk == 0 {
    } else if vk == 0x70 {
        assert(crate::text::digit_char(1) == '1');
        assert(l =~= "F1"@);
    } else if vk == 0x71 {
        assert(crate::text::digit_char(2) == '2');
        assert(l =~= "F2"@);
    } else if vk == 0x72 {
        assert(crate::text::digit_char(3) == '3');
        assert(l =~= "F3"@);
    } else if vk == 0x73 {
        assert(crate::text::digit_char(4) == '4');
        assert(l =~= "F4"@);
    } else if vk == 0x74 {
        assert(crate::text::digit_char(5) == '5');
        assert(l =~= "F5"@);
    } else if vk == 0x75 {
        assert(crate::text::digit_char(6) == '6');
        assert(l =~= "F6"@);
    } else if vk == 0x76 {
        assert(crate::text::digit_char(7) == '7');
        assert(l =~= "F7"@);
    } else if vk == 0x77 {
        assert(crate::text::digit_char(8) == '8');
        assert(l =~= "F8"@);
    } else if vk == 0x78 {
        assert(crate::text::digit_char(9) == '9');
        assert(l =~= "F9"@);
    } else if vk == 0x79 {
        assert(crate::text::digit_char(0) == '0');
        assert(l =~= "F10"@);
    } else if vk == 0x7A {
        assert(crate::text::digit_char(1) == '1');
        assert(l =~= "F11"@);
    } else if vk == 0x7B {
        assert(crate::text::digit_char(2) == '2');
        assert(l =~= "F12"@);
    }
}

proof fn lemma_char_label(vk: u32)
    requires
        char_key(vk),
        strict_key_label(vk) == Some(seq![vk as char]),
    ensures
        strict_key(strict_key_label(vk)->0) == Some(vk),
        no_plus(strict_key_label(vk)->0),
{
    lemma_key_names_revealed();
    let l = strict_key_label(vk)->0;
    let c = vk as char;
    assert(c as u32 == vk);
    assert(l == seq![c]);
    assert(!('a' <= c && c <= 'z'));
    assert(ascii_upper_char(c) == c);
    assert(is_ascii_char(c));
    assert(c != '+');
}

/// The key that a key name reads back to, for every key that `format_hotkey` names.
proof fn lemma_strict_key_label(vk: u32)
    requires
        strict_key_label(vk) is Some,
    ensures
        strict_key(strict_key_label(vk)->0) == Some(vk),
        no_plus(strict_key_label(vk)->0),
{
    if 0x70 <= vk <= 0x7B {
        lemma_f_key_label(vk);
    } else if char_key(vk) && strict_key_label(vk) == Some(seq![vk as char]) {
        lemma_char_label(vk);
    } else {
        lemma_key_names_revealed();
    }
}

/// A hotkey written by `format_hotkey` reads back through `parse_hotkey` as its four
/// modifier bits and its key, for every key that has a name: the named keys,
/// `F1`..`F12` and the keys that one ASCII character stands for.
pub proof fn lemma_strict_hotkey_roundtrip(m: u32, vk: u32)
    requires
        strict_key_label(vk) is Some,
    ensures
        strict_hotkey(strict_hotkey_text(m, vk)) == Some((m & 15, vk)),
{
    let names = strict_modifier_names(m);
    let l = strict_key_label(vk)->0;
    let parts = names.push(l);
    lemma_modifier_names_no_plus(m);
    lemma_strict_key_label(vk);
    assert forall|k: int, j: int| 0 <= k < parts.len() && 0 <= j < parts[k].len() implies #[trigger] parts[k][j] != '+' by {
        if k < names.len() {
            assert(parts[k] == names[k]);
            assert(no_plus(names[k]));
        } else {
            assert(parts[k] == l);
        }
    }
    crate::text::lemma_split_join(parts, '+');
    assert(parts.drop_last() =~= names);
    lemma_strict_modifier_bits(m);
}

proof fn lemma_modifiers_bits(parts: Seq<Seq<char>>)
    requires
        strict_modifiers(parts) is Some,
    ensures
        strict_modifiers(parts)->0 & 15 == strict_modifiers(parts)->0,
    decreases parts.len(),
{
    if parts.len() > 0 {
        lemma_modifiers_bits(parts.drop_last());
        let a = strict_modifiers(parts.drop_last())->0;
        let b = strict_modifier(parts.last())->0;
        assert(strict_modifiers(parts) == Some(a | b));
        assert(b == 1 || b == 2 || b == 4 || b == 8);
        assert((a | b) & 15 == a | b) by (bit_vector)
            requires
                a & 15 == a,
                b == 1 || b == 2 || b == 4 || b == 8,
        ;
    } else {
        assert(0u32 & 15 == 0u32) by (bit_vector);
    }
}

/// Every key that `parse_hotkey` reads has a name that `format_hotkey` writes.
proof fn lemma_parsed_key_named(k: Seq<char>)
    requires
        strict_key(k) is Some,
        no_plus(k),
    ensures
        strict_key_label(strict_key(k)->0) is Some,
{
    lemma_key_names_revealed();
    if k.len() == 1 && strict_key(k) == Some(ascii_upper_char(k[0]) as u32) {
        let c = k[0];
        assert(c != '+');
        let u = ascii_upper_char(c);
        assert(u != '+');
        assert(!('a' <= u && u <= 'z'));
    }
}

/// What `format_hotkey` writes of a hotkey that `parse_hotkey` read reads back as the
/// same hotkey.
pub proof fn lemma_hotkey_text_reads_back(s: Seq<char>)
    requires
        strict_hotkey(s) is Some,
    ensures
        strict_hotkey(s) matches Some(h) && strict_hotkey(strict_hotkey_text(h.0, h.1)) == Some(h),
{
    let parts = split_char(s, '+');
    lemma_split_char_len(s, '+');
    crate::text::lemma_split_parts_lack(s, '+');
    let key = parts.last();
    assert(key == parts[parts.len() - 1]);
    assert forall|j: int| 0 <= j < key.len() implies #[trigger] key[j] != '+' by {
        assert(parts[parts.len() - 1][j] != '+');
    }
    lemma_parsed_key_named(key);
    lemma_modifiers_bits(parts.drop_last());
    let (m, vk) = strict_hotkey(s)->0;
    lemma_strict_hotkey_roundtrip(m, vk);
}

// ---------------------------------------------------------------------------
// Reading values out of the JSON text
// ---------------------------------------------------------------------------

pub open spec fn is_value_stop(c: char) -> bool {
    c == ',' || c == '}' || c == '\n' || c == '\r'
}

/// Length of the bare value at the start of `v`: up to the first comma, closing brace
/// or line break.
pub open spec fn value_end(v: Seq<char>) -> int
    decreases v.len(),
{
    if v.len() == 0 {
        0
    } else if is_value_stop(v[0]) {
        0
    } else {
        1 + value_end(v.drop_first())
    }
}

/// `"key"` with its quotes.
pub open spec fn quoted(key: Seq<char>) -> Seq<char> {
    seq!['"'] + key + seq!['"']
}

/// The value of `key` in a flat JSON text: after the first `"key"` and the next `:`,
/// white space trimmed; a quoted value runs up to the next quote, a bare one up to the
/// first comma, brace or line break, trimmed. Absent without the key or the colon, or
/// when a quoted value is not closed.
pub open spec fn json_value(s: Seq<char>, key: Seq<char>) -> Option<Seq<char>> {
    match find(s, quoted(key)) {
        Some(idx) => {
            let after = s.skip(idx + quoted(key).len());
            match index_of_char(after, ':') {
                Some(colon) => {
                    let val = trim(after.skip(colon + 1));
                    if val.len() > 0 && val[0] == '"' {
                        match index_of_char(val.skip(1), '"') {
                            Some(end) => Some(val.subrange(1, end + 1)),
                            None => None,
                        }
                    } else {
                        Some(trim(val.take(value_end(val))))
                    }
                },
                None => None,
            }
        },
        None => None,
    }
}

/// `find` gives the first match.
pub proof fn lemma_find_first(s: Seq<char>, pat: Seq<char>, p: int)
    requires
        0 <= p,
        match_at(s, pat, p),
        forall|j: int| 0 <= j < p ==> !match_at(s, pat, j),
    ensures
        find(s, pat) == Some(p),
{
    lemma_find_from(s, pat, 0);
    match find(s, pat) {
        Some(k) => {
            if k > p {
                assert(!match_at(s, pat, p));
            }
        },
        None => {
            assert(!match_at(s, pat, p));
        },
    }
}

pub proof fn lemma_value_end_at(v: Seq<char>, k: int)
    requires
        0 <= k < v.len(),
        is_value_stop(v[k]),
        forall|j: int| 0 <= j < k ==> !is_value_stop(#[trigger] v[j]),
    ensures
        value_end(v) == k,
    decreases k,
{
    if k > 0 {
        assert forall|j: int| 0 <= j < k - 1 implies !is_value_stop(#[trigger] v.drop_first()[j]) by {
            assert(v.drop_first()[j] == v[j + 1]);
        }
        assert(v.drop_first()[k - 1] == v[k]);
        lemma_value_end_at(v.drop_first(), k - 1);
    }
}

/// The value of `key` when its first occurrence at `a` is followed by `:` and a quoted
/// text without quotes.
pub proof fn lemma_json_value_string(s: Seq<char>, key: Seq<char>, a: int, v: Seq<char>)
    requires
        find(s, quoted(key)) == Some(a),
        0 <= a,
        a + quoted(key).len() + 3 + v.len() <= s.len(),
        s.subrange(a + quoted(key).len(), a + quoted(key).len() + 3 + v.len()) == seq![':', '"']
            + v + seq!['"'],
        forall|j: int| 0 <= j < v.len() ==> #[trigger] v[j] != '"',
        !is_ws(s.last()),
    ensures
        json_value(s, key) == Some(v),
{
    let q = quoted(key).len();
    let after = s.skip(a + q);
    assert(after[0] == ':');
    lemma_index_of_char_first(after, ':', 0);
    let w = after.skip(1);
    assert(w[0] == '"');
    assert(w.last() == s.last());
    lemma_trim_noop(w);
    assert(w.skip(1).subrange(0, v.len() as int) =~= v);
    assert(w.skip(1)[v.len() as int] == '"');
    assert forall|j: int| 0 <= j < v.len() implies w.skip(1)[j] != '"' by {
        assert(w.skip(1)[j] == v[j]);
    }
    lemma_index_of_char_first(w.skip(1), '"', v.len() as int);
    assert(w.subrange(1, v.len() as int + 1) =~= v);
}

/// The value of `key` when its first occurrence at `a` is followed by a text without
/// colons, `:`, a number and a comma or brace.
pub proof fn lemma_json_value_number(s: Seq<char>, key: Seq<char>, a: int, x: Seq<char>, d: Seq<char>)
    requires
        find(s, quoted(key)) == Some(a),
        0 <= a,
        d.len() > 0,
        forall|j: int| 0 <= j < d.len() ==> #[trigger] crate::text::is_digit(d[j]) || (j == 0 && d[j] == '-'),
        forall|j: int| 0 <= j < x.len() ==> #[trigger] x[j] != ':',
        a + quoted(key).len() + x.len() + 2 + d.len() <= s.len(),
        s.subrange(a + quoted(key).len(), a + quoted(key).len() + x.len() + 1 + d.len()) == x
            + seq![':'] + d,
        is_value_stop(s[a + quoted(key).len() + x.len() + 1 + d.len()]),
        !is_ws(s.last()),
    ensures
        json_value(s, key) == Some(d),
{
    let q = quoted(key).len();
    let after = s.skip(a + q);
    let n = x.len() as int;
    assert forall|j: int| 0 <= j < n implies after[j] != ':' by {
        assert(after[j] == (x + seq![':'] + d)[j]);
    }
    assert(after[n] == (x + seq![':'] + d)[n]);
    lemma_index_of_char_first(after, ':', n);
    let w = after.skip(n + 1);
    assert(w[0] == (x + seq![':'] + d)[n + 1]);
    assert(w[0] == d[0]);
    assert(crate::text::is_digit(d[0]) || d[0] == '-');
    assert(!is_ws(w[0]));
    assert(w.last() == s.last());
    lemma_trim_noop(w);
    assert forall|j: int| 0 <= j < d.len() implies !is_value_stop(#[trigger] w[j]) by {
        assert(w[j] == (x + seq![':'] + d)[n + 1 + j]);
        assert(w[j] == d[j]);
        assert(crate::text::is_digit(d[j]) || d[j] == '-');
    }
    assert(w[d.len() as int] == s[a + q + n + 1 + d.len()]);
    lemma_value_end_at(w, d.len() as int);
    assert forall|j: int| 0 <= j < d.len() implies w.take(d.len() as int)[j] == d[j] by {
        assert(w[j] == (x + seq![':'] + d)[n + 1 + j]);
    }
    assert(w.take(d.len() as int) =~= d);
    assert(!is_ws(d[0]));
    assert(crate::text::is_digit(d[d.len() - 1]) || d[d.len() - 1] == '-');
    assert(d.last() == d[d.len() - 1]);
    lemma_trim_noop(d);
}

fn value_end_of(v: &Vec<char>) -> (r: usize)
    ensures
        r == value_end(v@),
        r <= v.len(),
{
    let mut i: usize = 0;
    assert(v@.skip(0) =~= v@);
    while i < v.len() && !(v[i] == ',' || v[i] == '}' || v[i] == '\n' || v[i] == '\r')
        invariant
            i <= v.len(),
            value_end(v@) == i + value_end(v@.skip(i as int)),
        decreases v.len() - i,
    {
        assert(v@.skip(i as int).drop_first() =~= v@.skip(i + 1));
        i = i + 1;
    }
    i
}

fn quoted_chars(key: &Vec<char>) -> (r: Vec<char>)
    ensures
        r@ == quoted(key@),
{
    let mut pat: Vec<char> = Vec::new();
    pat.push('"');
    push_all(&mut pat, key);
    pat.push('"');
    assert(pat@ =~= quoted(key@));
    pat
}

/// The value of `key`: see `json_value`.
pub fn json_value_chars(s: &Vec<char>, key: &Vec<char>) -> (r: Option<Vec<char>>)
    ensures
        match r {
            Some(v) => json_value(s@, key@) == Some(v@),
            None => json_value(s@, key@) is None,
        },
{
    let pat = quoted_chars(key);
    let idx = match find_chars(s, &pat) {
        Some(i) => i,
        None => return None,
    };
    proof {
        lemma_find_from(s@, pat@, 0);
        assert(match_at(s@, pat@, idx as int));
        assert(idx + pat@.len() <= s@.len());
    }
    assert(idx + pat.len() <= s.len());
    let after = slice_chars(s, idx + pat.len(), s.len());
    assert(after@ =~= s@.skip(idx + quoted(key@).len()));
    let colon = match find_char(&after, ':') {
        Some(c) => c,
        None => return None,
    };
    proof {
        lemma_index_of_char(after@, ':');
    }
    let rest = slice_chars(&after, colon + 1, after.len());
    assert(rest@ =~= after@.skip(colon + 1));
    let val = trim_chars(&rest);
    if val.len() > 0 && val[0] == '"' {
        let inner = slice_chars(&val, 1, val.len());
        assert(inner@ =~= val@.skip(1));
        match find_char(&inner, '"') {
            Some(end) => {
                proof {
                    lemma_index_of_char(inner@, '"');
                }
                Some(slice_chars(&val, 1, end + 1))
            },
            None => None,
        }
    } else {
        let e = value_end_of(&val);
        let head = slice_chars(&val, 0, e);
        assert(head@ =~= val@.take(value_end(val@)));
        Some(trim_chars(&head))
    }
}

/// Reads the value of `key` from a flat JSON text (see `json_value`).
pub fn extract_json_value(s: &str, key: &str) -> (r: Option<String>)
    ensures
        match r {
            Some(v) => json_value(s@, key@) == Some(v@),
            None => json_value(s@, key@) is None,
        },
{
    let cs = chars_of(s);
    let ks = chars_of(key);
    match json_value_chars(&cs, &ks) {
        Some(v) => Some(string_of(&v)),
        None => None,
    }
}


// ---------------------------------------------------------------------------
// The configuration record
// ---------------------------------------------------------------------------

/// The saved settings.
#[derive(Debug, Clone)]
pub struct Config {
    pub index_paths: Vec<String>,
    pub enable_pinyin: bool,
    pub enable_fuzzy: bool,
    pub show_hidden: bool,
    pub max_results: usize,
    pub auto_index: bool,
    pub theme: String,
    pub exclude_patterns: Vec<String>,
    pub hotkey_search: String,
    pub hotkey_settings: String,
}

pub struct ConfigView {
    pub index_paths: Seq<Seq<char>>,
    pub enable_pinyin: bool,
    pub enable_fuzzy: bool,
    pub show_hidden: bool,
    pub max_results: usize,
    pub auto_index: bool,
    pub theme: Seq<char>,
    pub exclude_patterns: Seq<Seq<char>>,
    pub hotkey_search: Seq<char>,
    pub hotkey_settings: Seq<char>,
}

pub open spec fn strs(v: Seq<String>) -> Seq<Seq<char>> {
    v.map_values(|s: String| s@)
}

impl View for Config {
    type V = ConfigView;

    open spec fn view(&self) -> ConfigView {
        ConfigView {
            index_paths: strs(self.index_paths@),
            enable_pinyin: self.enable_pinyin,
            enable_fuzzy: self.enable_fuzzy,
            show_hidden: self.show_hidden,
            max_results: self.max_results,
            auto_index: self.auto_index,
            theme: self.theme@,
            exclude_patterns: strs(self.exclude_patterns@),
            hotkey_search: self.hotkey_search@,
            hotkey_settings: self.hotkey_settings@,
        }
    }
}

/// The settings used when none are saved.
pub open spec fn default_config() -> ConfigView {
    ConfigView {
        index_paths: seq![],
        enable_pinyin: true,
        enable_fuzzy: false,
        show_hidden: false,
        max_results: 100,
        auto_index: true,
        theme: "system"@,
        exclude_patterns: seq![".git"@, "node_modules"@, "target"@],
        hotkey_search: "Ctrl+Space"@,
        hotkey_settings: "Ctrl+Shift+F"@,
    }
}

impl Default for Config {
    fn default() -> (r: Config)
        ensures
            r@ == default_config(),
    {
        let mut exclude_patterns: Vec<String> = Vec::new();
        exclude_patterns.push(".git".to_owned());
        exclude_patterns.push("node_modules".to_owned());
        exclude_patterns.push("target".to_owned());
        let r = Config {
            index_paths: Vec::new(),
            enable_pinyin: true,
            enable_fuzzy: false,
            show_hidden: false,
            max_results: 100,
            auto_index: true,
            theme: "system".to_owned(),
            exclude_patterns,
            hotkey_search: "Ctrl+Space".to_owned(),
            hotkey_settings: "Ctrl+Shift+F".to_owned(),
        };
        assert(r@.exclude_patterns =~= default_config().exclude_patterns);
        assert(r@.index_paths =~= default_config().index_paths);
        r
    }
}

/// One list item: the indent, then the escaped text in quotes.
pub open spec fn quoted_item(p: Seq<char>, indent: Seq<char>) -> Seq<char> {
    indent + seq!['"'] + json_escape_spec(p) + seq!['"']
}

pub open spec fn quoted_items(ps: Seq<Seq<char>>, indent: Seq<char>) -> Seq<Seq<char>> {
    ps.map_values(|p: Seq<char>| quoted_item(p, indent))
}

/// A flag as the settings file writes it.
pub fn bool_to_int(b: bool) -> (r: i32)
    ensures
        r == (if b {
            1i32
        } else {
            0i32
        }),
{
    if b {
        1
    } else {
        0
    }
}

/// The one-line form of the settings.
pub open spec fn config_json(c: ConfigView) -> Seq<char> {
    "{\"index_paths\":["@ + join_with(quoted_items(c.index_paths, seq![]), seq![','])
        + "],\"enable_pinyin\":"@ + flag(c.enable_pinyin) + ",\"enable_fuzzy\":"@ + flag(
        c.enable_fuzzy,
    ) + ",\"show_hidden\":"@ + flag(c.show_hidden) + ",\"max_results\":"@ + decimal(
        c.max_results as nat,
    ) + ",\"auto_index\":"@ + flag(c.auto_index) + ",\"theme\":\""@ + json_escape_spec(c.theme)
        + "\",\"exclude_patterns\":["@ + join_with(
        quoted_items(c.exclude_patterns, seq![]),
        seq![','],
    ) + "],\"hotkey_search\":\""@ + json_escape_spec(c.hotkey_search)
        + "\",\"hotkey_settings\":\""@ + json_escape_spec(c.hotkey_settings) + "\"}"@
}

/// The indented form of the settings that the settings file holds.
pub open spec fn config_json_pretty(c: ConfigView) -> Seq<char> {
    "{\n  \"index_paths\": [\n"@ + join_with(quoted_items(c.index_paths, "    "@), ",\n"@)
        + "\n  ],\n  \"enable_pinyin\": "@ + flag(c.enable_pinyin) + ",\n  \"enable_fuzzy\": "@
        + flag(c.enable_fuzzy) + ",\n  \"show_hidden\": "@ + flag(c.show_hidden)
        + ",\n  \"max_results\": "@ + decimal(c.max_results as nat) + ",\n  \"auto_index\": "@
        + flag(c.auto_index) + ",\n  \"theme\": \""@ + json_escape_spec(c.theme)
        + "\",\n  \"exclude_patterns\": [\n"@ + join_with(
        quoted_items(c.exclude_patterns, "    "@),
        ",\n"@,
    ) + "\n  ],\n  \"hotkey_search\": \""@ + json_escape_spec(c.hotkey_search)
        + "\",\n  \"hotkey_settings\": \""@ + json_escape_spec(c.hotkey_settings) + "\"\n}\n"@
}

/// The list items of an array of strings, each escaped and quoted, joined by `sep`.
fn quoted_list(items: &Vec<String>, indent: &str, sep: &str) -> (r: Vec<char>)
    ensures
        r@ == join_with(quoted_items(strs(items@), indent@), sep@),
{
    let mut parts: Vec<Vec<char>> = Vec::new();
    let mut i: usize = 0;
    while i < items.len()
        invariant
            i <= items.len(),
            parts@.map_values(|p: Vec<char>| p@) == quoted_items(strs(items@), indent@).take(
                i as int,
            ),
        decreases items.len() - i,
    {
        let mut q: Vec<char> = chars_of(indent);
        q.push('"');
        let cs = chars_of(items[i].as_str());
        let e = json_escape_chars(&cs);
        push_all(&mut q, &e);
        q.push('"');
        assert(q@ =~= quoted_item(items@[i as int]@, indent@));
        let ghost before = parts@.map_values(|p: Vec<char>| p@);
        parts.push(q);
        assert(parts@.map_values(|p: Vec<char>| p@) =~= before.push(
            quoted_item(items@[i as int]@, indent@),
        ));
        assert(quoted_items(strs(items@), indent@).take(i + 1) =~= quoted_items(
            strs(items@),
            indent@,
        ).take(i as int).push(quoted_item(items@[i as int]@, indent@)));
        i = i + 1;
    }
    assert(quoted_items(strs(items@), indent@).take(items.len() as int) =~= quoted_items(
        strs(items@),
        indent@,
    ));
    let sp = chars_of(sep);
    join_chars(&parts, &sp)
}

fn push_flag(out: &mut Vec<char>, b: bool)
    ensures
        final(out)@ == old(out)@ + flag(b),
{
    if b {
        out.push('1');
    } else {
        out.push('0');
    }
    assert(final(out)@ =~= old(out)@ + flag(b));
}

fn push_escaped(out: &mut Vec<char>, s: &String)
    ensures
        final(out)@ == old(out)@ + json_escape_spec(s@),
{
    let cs = chars_of(s.as_str());
    let e = json_escape_chars(&cs);
    push_all(out, &e);
}

/// `value` trimmed of white space, then of quotes at both ends, when that leaves
/// something.
pub open spec fn kept_items(parts: Seq<Seq<char>>) -> Seq<Seq<char>>
    decreases parts.len(),
{
    if parts.len() == 0 {
        seq![]
    } else {
        let t = trim_char(trim(parts.last()), '"');
        kept_items(parts.drop_last()) + (if t.len() > 0 {
            seq![t]
        } else {
            seq![]
        })
    }
}

/// The items of the array under `key`: after `"key"`, the next `:`, the next `[`, up to
/// the next `]`, split at commas, each trimmed of white space and then of quotes, empty
/// ones dropped. Empty when any of these is missing.
pub open spec fn json_array(s: Seq<char>, key: Seq<char>) -> Seq<Seq<char>> {
    match find(s, quoted(key)) {
        Some(idx) => {
            let after = s.skip(idx + quoted(key).len());
            match index_of_char(after, ':') {
                Some(colon) => {
                    let ac = after.skip(colon);
                    match index_of_char(ac, '[') {
                        Some(br) => match index_of_char(ac.skip(br + 1), ']') {
                            Some(e) => kept_items(
                                split_char(ac.subrange(br + 1, br + 1 + e), ','),
                            ),
                            None => seq![],
                        },
                        None => seq![],
                    }
                },
                None => seq![],
            }
        },
        None => seq![],
    }
}

/// A flag is set when its value reads `1` or `true`.
pub open spec fn json_flag(s: Seq<char>, key: Seq<char>) -> bool {
    match json_value(s, key) {
        Some(v) => v == "1"@ || v == "true"@,
        None => false,
    }
}

/// A count, or 100 when it is missing or does not read as a number.
pub open spec fn json_count(s: Seq<char>, key: Seq<char>) -> usize {
    match json_value(s, key) {
        Some(v) => match parse_usize_spec(v) {
            Some(n) => n,
            None => 100,
        },
        None => 100,
    }
}

/// The text under `key` with its escapes undone, or `d` when it is missing.
pub open spec fn json_text_or(s: Seq<char>, key: Seq<char>, d: Seq<char>) -> Seq<char> {
    match json_value(s, key) {
        Some(v) => json_unescape_spec(v),
        None => d,
    }
}

/// Each item with its escapes undone.
pub open spec fn unescaped_items(ps: Seq<Seq<char>>) -> Seq<Seq<char>> {
    ps.map_values(|p: Seq<char>| json_unescape_spec(p))
}

/// Each item escaped.
pub open spec fn escaped_items(ps: Seq<Seq<char>>) -> Seq<Seq<char>> {
    ps.map_values(|p: Seq<char>| json_escape_spec(p))
}

/// The settings that a text holds: absent unless, trimmed, it starts with `{` and ends
/// with `}`; else every field read by key, with its default where it is missing, and
/// the escapes of its texts undone.
pub open spec fn config_from_json(s: Seq<char>) -> Option<ConfigView> {
    let t = trim(s);
    if t.len() > 0 && t[0] == '{' && t.last() == '}' {
        Some(
            ConfigView {
                index_paths: unescaped_items(json_array(t, "index_paths"@)),
                enable_pinyin: json_flag(t, "enable_pinyin"@),
                enable_fuzzy: json_flag(t, "enable_fuzzy"@),
                show_hidden: json_flag(t, "show_hidden"@),
                max_results: json_count(t, "max_results"@),
                auto_index: json_flag(t, "auto_index"@),
                theme: json_text_or(t, "theme"@, "system"@),
                exclude_patterns: unescaped_items(json_array(t, "exclude_patterns"@)),
                hotkey_search: json_text_or(t, "hotkey_search"@, "Ctrl+Space"@),
                hotkey_settings: json_text_or(t, "hotkey_settings"@, "Ctrl+Shift+F"@),
            },
        )
    } else {
        None
    }
}

fn kept_items_of(parts: &Vec<Vec<char>>) -> (r: Vec<Vec<char>>)
    ensures
        r@.map_values(|p: Vec<char>| p@) == kept_items(parts@.map_values(|p: Vec<char>| p@)),
{
    let ghost ps = parts@.map_values(|p: Vec<char>| p@);
    let mut out: Vec<Vec<char>> = Vec::new();
    let mut i: usize = 0;
    assert(ps.take(0) =~= Seq::<Seq<char>>::empty());
    assert(out@.map_values(|p: Vec<char>| p@) =~= Seq::<Seq<char>>::empty());
    while i < parts.len()
        invariant
            i <= parts.len(),
            ps == parts@.map_values(|p: Vec<char>| p@),
            out@.map_values(|p: Vec<char>| p@) == kept_items(ps.take(i as int)),
        decreases parts.len() - i,
    {
        assert(ps.take(i + 1).drop_last() =~= ps.take(i as int));
        assert(ps.take(i + 1).last() == parts@[i as int]@);
        let t0 = trim_chars(&parts[i]);
        let t = trim_char_chars(&t0, '"');
        let ghost before = out@.map_values(|p: Vec<char>| p@);
        if t.len() > 0 {
            let ghost tv = t@;
            out.push(t);
            assert(out@.map_values(|p: Vec<char>| p@) =~= before + seq![tv]);
        } else {
            assert(before =~= before + Seq::<Seq<char>>::empty());
        }
        i = i + 1;
    }
    assert(ps.take(parts.len() as int) =~= ps);
    out
}

fn json_array_chars(s: &Vec<char>, key: &Vec<char>) -> (r: Vec<Vec<char>>)
    ensures
        r@.map_values(|p: Vec<char>| p@) == json_array(s@, key@),
{
    let empty: Vec<Vec<char>> = Vec::new();
    assert(empty@.map_values(|p: Vec<char>| p@) =~= Seq::<Seq<char>>::empty());
    let pat = quoted_chars(key);
    let idx = match find_chars(s, &pat) {
        Some(i) => i,
        None => return empty,
    };
    proof {
        lemma_find_from(s@, pat@, 0);
        assert(match_at(s@, pat@, idx as int));
    }
    assert(idx + pat.len() <= s.len());
    let after = slice_chars(s, idx + pat.len(), s.len());
    assert(after@ =~= s@.skip(idx + quoted(key@).len()));
    let colon = match find_char(&after, ':') {
        Some(c) => c,
        None => return empty,
    };
    proof {
        lemma_index_of_char(after@, ':');
    }
    let ac = slice_chars(&after, colon, after.len());
    assert(ac@ =~= after@.skip(colon as int));
    let br = match find_char(&ac, '[') {
        Some(b) => b,
        None => return empty,
    };
    proof {
        lemma_index_of_char(ac@, '[');
    }
    let tail = slice_chars(&ac, br + 1, ac.len());
    assert(tail@ =~= ac@.skip(br + 1));
    let e = match find_char(&tail, ']') {
        Some(e) => e,
        None => return empty,
    };
    proof {
        lemma_index_of_char(tail@, ']');
    }
    let content = slice_chars(&ac, br + 1, br + 1 + e);
    let parts = split_chars(&content, ',');
    kept_items_of(&parts)
}

fn flag_of(t: &Vec<char>, key: &str) -> (r: bool)
    ensures
        r == json_flag(t@, key@),
{
    let k = chars_of(key);
    match json_value_chars(t, &k) {
        Some(v) => eq_str(&v, "1") || eq_str(&v, "true"),
        None => false,
    }
}

fn count_of(t: &Vec<char>, key: &str) -> (r: usize)
    ensures
        r == json_count(t@, key@),
{
    let k = chars_of(key);
    match json_value_chars(t, &k) {
        Some(v) => match parse_usize(&v) {
            Some(n) => n,
            None => 100,
        },
        None => 100,
    }
}

fn text_or(t: &Vec<char>, key: &str, d: &str) -> (r: String)
    ensures
        r@ == json_text_or(t@, key@, d@),
{
    let k = chars_of(key);
    match json_value_chars(t, &k) {
        Some(v) => string_of(&json_unescape_chars(&v)),
        None => d.to_owned(),
    }
}

fn array_of(t: &Vec<char>, key: &str) -> (r: Vec<String>)
    ensures
        strs(r@) == unescaped_items(json_array(t@, key@)),
{
    let k = chars_of(key);
    let items = json_array_chars(t, &k);
    let ghost ps = items@.map_values(|p: Vec<char>| p@);
    let mut out: Vec<String> = Vec::new();
    let mut i: usize = 0;
    while i < items.len()
        invariant
            i <= items.len(),
            ps == items@.map_values(|p: Vec<char>| p@),
            strs(out@) == unescaped_items(ps).take(i as int),
        decreases items.len() - i,
    {
        let ghost before = strs(out@);
        let u = json_unescape_chars(&items[i]);
        out.push(string_of(&u));
        assert(strs(out@) =~= before.push(json_unescape_spec(ps[i as int])));
        assert(unescaped_items(ps).take(i + 1) =~= unescaped_items(ps).take(i as int).push(
            json_unescape_spec(ps[i as int]),
        ));
        i = i + 1;
    }
    assert(unescaped_items(ps).take(items.len() as int) =~= unescaped_items(ps));
    out
}

impl Config {
    /// Where the settings are kept: `config.json` in the working folder when `appdata`
    /// is empty, else `<appdata>\Findex\config.json`.
    pub fn path(appdata: &str) -> (r: String)
        ensures
            r@ == (if appdata@.len() == 0 {
                "config.json"@
            } else {
                appdata@ + "\\Findex\\config.json"@
            }),
    {
        let a = chars_of(appdata);
        if a.len() == 0 {
            "config.json".to_owned()
        } else {
            let mut p = a;
            push_str(&mut p, "\\Findex\\config.json");
            string_of(&p)
        }
    }

    /// The one-line JSON form: see `config_json`.
    pub fn to_json(&self) -> (r: String)
        ensures
            r@ == config_json(self@),
    {
        let mut out: Vec<char> = Vec::new();
        push_str(&mut out, "{\"index_paths\":[");
        let paths = quoted_list(&self.index_paths, "", ",");
        push_all(&mut out, &paths);
        push_str(&mut out, "],\"enable_pinyin\":");
        push_flag(&mut out, self.enable_pinyin);
        push_str(&mut out, ",\"enable_fuzzy\":");
        push_flag(&mut out, self.enable_fuzzy);
        push_str(&mut out, ",\"show_hidden\":");
        push_flag(&mut out, self.show_hidden);
        push_str(&mut out, ",\"max_results\":");
        let n = crate::text::fmt_usize(self.max_results);
        push_all(&mut out, &n);
        push_str(&mut out, ",\"auto_index\":");
        push_flag(&mut out, self.auto_index);
        push_str(&mut out, ",\"theme\":\"");
        push_escaped(&mut out, &self.theme);
        push_str(&mut out, "\",\"exclude_patterns\":[");
        let ex = quoted_list(&self.exclude_patterns, "", ",");
        push_all(&mut out, &ex);
        push_str(&mut out, "],\"hotkey_search\":\"");
        push_escaped(&mut out, &self.hotkey_search);
        push_str(&mut out, "\",\"hotkey_settings\":\"");
        push_escaped(&mut out, &self.hotkey_settings);
        push_str(&mut out, "\"}");
        proof {
            reveal_strlit("");
            reveal_strlit(",");
            assert(""@ =~= Seq::<char>::empty());
            assert(","@ =~= seq![',']);
        }
        assert(out@ =~= config_json(self@));
        string_of(&out)
    }

    /// The indented JSON form: see `config_json_pretty`.
    pub fn to_json_pretty(&self) -> (r: String)
        ensures
            r@ == config_json_pretty(self@),
    {
        let mut out: Vec<char> = Vec::new();
        push_str(&mut out, "{\n  \"index_paths\": [\n");
        let paths = quoted_list(&self.index_paths, "    ", ",\n");
        push_all(&mut out, &paths);
        push_str(&mut out, "\n  ],\n  \"enable_pinyin\": ");
        push_flag(&mut out, self.enable_pinyin);
        push_str(&mut out, ",\n  \"enable_fuzzy\": ");
        push_flag(&mut out, self.enable_fuzzy);
        push_str(&mut out, ",\n  \"show_hidden\": ");
        push_flag(&mut out, self.show_hidden);
        push_str(&mut out, ",\n  \"max_results\": ");
        let n = crate::text::fmt_usize(self.max_results);
        push_all(&mut out, &n);
        push_str(&mut out, ",\n  \"auto_index\": ");
        push_flag(&mut out, self.auto_index);
        push_str(&mut out, ",\n  \"theme\": \"");
        push_escaped(&mut out, &self.theme);
        push_str(&mut out, "\",\n  \"exclude_patterns\": [\n");
        let ex = quoted_list(&self.exclude_patterns, "    ", ",\n");
        push_all(&mut out, &ex);
        push_str(&mut out, "\n  ],\n  \"hotkey_search\": \"");
        push_escaped(&mut out, &self.hotkey_search);
        push_str(&mut out, "\",\n  \"hotkey_settings\": \"");
        push_escaped(&mut out, &self.hotkey_settings);
        push_str(&mut out, "\"\n}\n");
        assert(out@ =~= config_json_pretty(self@));
        string_of(&out)
    }

    /// Reads settings back: see `config_from_json`.
    pub fn from_json(s: &str) -> (r: Option<Config>)
        ensures
            match r {
                Some(c) => config_from_json(s@) == Some(c@),
                None => config_from_json(s@) is None,
            },
    {
        let cs = chars_of(s);
        let t = trim_chars(&cs);
        if !(t.len() > 0 && t[0] == '{' && t[t.len() - 1] == '}') {
            return None;
        }
        let r = Config {
            index_paths: array_of(&t, "index_paths"),
            enable_pinyin: flag_of(&t, "enable_pinyin"),
            enable_fuzzy: flag_of(&t, "enable_fuzzy"),
            show_hidden: flag_of(&t, "show_hidden"),
            max_results: count_of(&t, "max_results"),
            auto_index: flag_of(&t, "auto_index"),
            theme: text_or(&t, "theme", "system"),
            exclude_patterns: array_of(&t, "exclude_patterns"),
            hotkey_search: text_or(&t, "hotkey_search", "Ctrl+Space"),
            hotkey_settings: text_or(&t, "hotkey_settings", "Ctrl+Shift+F"),
        };
        Some(r)
    }
}

// ---------------------------------------------------------------------------
// Reading back the settings file
// ---------------------------------------------------------------------------

/// The keys of the settings file, in the order they are written.
pub open spec fn setting_keys() -> Seq<Seq<char>> {
    seq![
        "index_paths"@,
        "enable_pinyin"@,
        "enable_fuzzy"@,
        "show_hidden"@,
        "max_results"@,
        "auto_index"@,
        "theme"@,
        "exclude_patterns"@,
        "hotkey_search"@,
        "hotkey_settings"@,
    ]
}

/// The keys that the settings file writes after the key at `i`.
pub open spec fn later_keys(i: int) -> Seq<Seq<char>> {
    setting_keys().subrange(i + 1, 10)
}

/// A text that the settings file can hold and read back: no quote. Backslashes, line
/// breaks and tabs travel as their backslash forms.
pub open spec fn plain_setting(x: Seq<char>) -> bool {
    forall|i: int| 0 <= i < x.len() ==> #[trigger] x[i] != '"'
}

/// A list item that the settings file can hold and read back: a plain text that is not
/// empty and holds no comma and no `]`.
pub open spec fn plain_item(x: Seq<char>) -> bool {
    &&& plain_setting(x)
    &&& x.len() > 0
    &&& forall|i: int| 0 <= i < x.len() ==> #[trigger] x[i] != ',' && x[i] != ']'
}

/// Settings whose texts are plain, and none of which names a key that the file writes
/// after it: the reader takes the first place where a key's name stands in quotes.
pub open spec fn plain_config(c: ConfigView) -> bool {
    &&& forall|i: int| 0 <= i < c.index_paths.len() ==> plain_item(#[trigger] c.index_paths[i])
    &&& forall|i: int|
        0 <= i < c.exclude_patterns.len() ==> plain_item(#[trigger] c.exclude_patterns[i])
    &&& plain_setting(c.theme)
    &&& plain_setting(c.hotkey_search)
    &&& plain_setting(c.hotkey_settings)
    &&& keys_in_order(c)
}

/// No text of the settings is the name of a key written after it.
pub open spec fn keys_in_order(c: ConfigView) -> bool {
    &&& forall|i: int|
        0 <= i < c.index_paths.len() ==> !later_keys(0).contains(#[trigger] c.index_paths[i])
    &&& !later_keys(6).contains(c.theme)
    &&& forall|i: int|
        0 <= i < c.exclude_patterns.len() ==> !later_keys(7).contains(
            #[trigger] c.exclude_patterns[i],
        )
    &&& !later_keys(8).contains(c.hotkey_search)
}

/// The settings with every text escaped, as the writer puts them in the file.
pub open spec fn escaped_config(c: ConfigView) -> ConfigView {
    ConfigView {
        index_paths: escaped_items(c.index_paths),
        theme: json_escape_spec(c.theme),
        exclude_patterns: escaped_items(c.exclude_patterns),
        hotkey_search: json_escape_spec(c.hotkey_search),
        hotkey_settings: json_escape_spec(c.hotkey_settings),
        ..c
    }
}

/// An escaped text as it stands in the file: no quote, no line break or tab.
spec fn written_setting(x: Seq<char>) -> bool {
    forall|i: int|
        0 <= i < x.len() ==> #[trigger] x[i] != '"' && x[i] != '\n' && x[i] != '\r' && x[i]
            != '\t'
}

/// An escaped list item as it stands in the file.
spec fn written_item(x: Seq<char>) -> bool {
    &&& written_setting(x)
    &&& x.len() > 0
    &&& forall|i: int| 0 <= i < x.len() ==> #[trigger] x[i] != ',' && x[i] != ']'
}

spec fn written_config(c: ConfigView) -> bool {
    &&& forall|i: int| 0 <= i < c.index_paths.len() ==> written_item(#[trigger] c.index_paths[i])
    &&& forall|i: int|
        0 <= i < c.exclude_patterns.len() ==> written_item(#[trigger] c.exclude_patterns[i])
    &&& written_setting(c.theme)
    &&& written_setting(c.hotkey_search)
    &&& written_setting(c.hotkey_settings)
    &&& keys_in_order(c)
}

/// One list item as written: the indent, then the text in quotes.
spec fn raw_item(p: Seq<char>, indent: Seq<char>) -> Seq<char> {
    indent + seq!['"'] + p + seq!['"']
}

spec fn raw_items(ps: Seq<Seq<char>>, indent: Seq<char>) -> Seq<Seq<char>> {
    ps.map_values(|p: Seq<char>| raw_item(p, indent))
}

/// The indented form of settings whose texts are already escaped.
spec fn pretty_raw(c: ConfigView) -> Seq<char> {
    "{\n  \"index_paths\": [\n"@ + join_with(raw_items(c.index_paths, "    "@), ",\n"@)
        + "\n  ],\n  \"enable_pinyin\": "@ + flag(c.enable_pinyin) + ",\n  \"enable_fuzzy\": "@
        + flag(c.enable_fuzzy) + ",\n  \"show_hidden\": "@ + flag(c.show_hidden)
        + ",\n  \"max_results\": "@ + decimal(c.max_results as nat) + ",\n  \"auto_index\": "@
        + flag(c.auto_index) + ",\n  \"theme\": \""@ + c.theme
        + "\",\n  \"exclude_patterns\": [\n"@ + join_with(
        raw_items(c.exclude_patterns, "    "@),
        ",\n"@,
    ) + "\n  ],\n  \"hotkey_search\": \""@ + c.hotkey_search
        + "\",\n  \"hotkey_settings\": \""@ + c.hotkey_settings + "\"\n}\n"@
}

spec fn indent4() -> Seq<char> {
    seq![' ', ' ', ' ', ' ']
}

spec fn comma_nl() -> Seq<char> {
    seq![',', '\n']
}

/// The tokens of a list's items in the indented form: each item on its own line.
spec fn item_tokens(ps: Seq<Seq<char>>) -> Seq<Token>
    decreases ps.len(),
{
    if ps.len() == 0 {
        seq![]
    } else if ps.len() == 1 {
        seq![chunk(indent4()), word(ps[0])]
    } else {
        item_tokens(ps.drop_last()) + seq![chunk(comma_nl()), chunk(indent4()), word(ps.last())]
    }
}

proof fn lemma_item_tokens(ps: Seq<Seq<char>>, k: Seq<char>)
    requires
        forall|i: int| 0 <= i < ps.len() ==> written_item(#[trigger] ps[i]),
    ensures
        render(item_tokens(ps)) == join_with(raw_items(ps, indent4()), comma_nl()),
        tokens_ok(item_tokens(ps)),
        !ps.contains(k) ==> forall|j: int|
            0 <= j < item_tokens(ps).len() ==> item_tokens(ps)[j] != word(k),
        item_tokens(ps).len() == (if ps.len() == 0 { 0 } else { 3 * ps.len() - 1 }),
    decreases ps.len(),
{
    let ts = item_tokens(ps);
    if ps.len() == 1 {
        lemma_render_two(chunk(indent4()), word(ps[0]));
        assert(raw_items(ps, indent4()) =~= seq![raw_item(ps[0], indent4())]);
        assert(join_with(raw_items(ps, indent4()), comma_nl()) == raw_item(ps[0], indent4()));
        assert(render(ts) =~= raw_item(ps[0], indent4()));
        assert(ps[0] == ps[0]);
        if !ps.contains(k) {
            assert(ps[0] != k);
        }
        assert forall|i: int, j: int| 0 <= i < ts.len() && 0 <= j < ts[i].text.len() implies #[trigger] ts[i].text[j] != '"' by {
            if i == 1 {
                assert(written_item(ps[0]));
            }
        }
    } else if ps.len() > 1 {
        let pre = ps.drop_last();
        assert forall|i: int| 0 <= i < pre.len() implies written_item(#[trigger] pre[i]) by {
            assert(pre[i] == ps[i]);
        }
        lemma_item_tokens(pre, k);
        let last = ps.last();
        assert(written_item(ps[ps.len() - 1]));
        let tail = seq![chunk(comma_nl()), chunk(indent4()), word(last)];
        lemma_render_concat(item_tokens(pre), tail);
        lemma_render_three(chunk(comma_nl()), chunk(indent4()), word(last));
        let qs = raw_items(ps, indent4());
        assert(qs.drop_last() =~= raw_items(pre, indent4()));
        assert(qs.last() == raw_item(last, indent4()));
        assert(render(ts) =~= join_with(qs, comma_nl()));
        let tp = item_tokens(pre);
        assert forall|i: int, j: int| 0 <= i < ts.len() && 0 <= j < ts[i].text.len() implies #[trigger] ts[i].text[j] != '"' by {
            if i < tp.len() {
                assert(ts[i] == tp[i]);
                assert(tp[i].text[j] != '"');
            } else if i == tp.len() + 2 {
                assert(ts[i] == word(last));
            }
        }
        assert forall|i: int| 0 <= i < ts.len() && !ts[i].word implies #[trigger] ts[i].text.len() > 0 && !is_lower(ts[i].text[0]) by {
            if i < tp.len() {
                assert(ts[i] == tp[i]);
            }
        }
        if !ps.contains(k) {
            assert forall|j: int| 0 <= j < ts.len() implies ts[j] != word(k) by {
                if j < tp.len() {
                    assert(ts[j] == tp[j]);
                    assert(!pre.contains(k)) by {
                        if pre.contains(k) {
                            let x = choose|x: int| 0 <= x < pre.len() && pre[x] == k;
                            assert(ps[x] == k);
                        }
                    }
                } else if j == tp.len() + 2 {
                    assert(ts[j] == word(last));
                    assert(ps[ps.len() - 1] != k);
                }
            }
        }
    }
}

spec fn colon_sp() -> Token {
    chunk(seq![':', ' '])
}

spec fn next_line() -> Token {
    chunk(seq![',', '\n', ' ', ' '])
}

spec fn list_open() -> Token {
    chunk(seq![':', ' ', '[', '\n'])
}

spec fn list_close() -> Token {
    chunk(seq!['\n', ' ', ' ', ']', ',', '\n', ' ', ' '])
}

spec fn head_tokens() -> Seq<Token> {
    seq![chunk(seq!['{', '\n', ' ', ' ']), word("index_paths"@), list_open()]
}

/// The tokens between the two lists of the indented form: the flags, the count, the
/// theme.
spec fn middle_tokens(c: ConfigView) -> Seq<Token> {
    field_tokens(list_close(), "enable_pinyin"@, flag(c.enable_pinyin)) + field_tokens(
        next_line(),
        "enable_fuzzy"@,
        flag(c.enable_fuzzy),
    ) + field_tokens(next_line(), "show_hidden"@, flag(c.show_hidden)) + field_tokens(
        next_line(),
        "max_results"@,
        decimal(c.max_results as nat),
    ) + field_tokens(next_line(), "auto_index"@, flag(c.auto_index)) + theme_tokens(c)
}

/// A separator, a key, a colon and a bare value.
spec fn field_tokens(sep: Token, key: Seq<char>, v: Seq<char>) -> Seq<Token> {
    seq![sep, word(key), colon_sp(), chunk(v)]
}

proof fn lemma_field_text(sep: Token, key: Seq<char>, v: Seq<char>)
    ensures
        render(field_tokens(sep, key, v)) == token_text(sep) + token_text(word(key)) + token_text(
            colon_sp(),
        ) + v,
{
    let m = field_tokens(sep, key, v);
    lemma_render_from(m, 0);
    lemma_render_from(m, 1);
    lemma_render_from(m, 2);
    lemma_render_from(m, 3);
    lemma_render_from(m, 4);
    assert(render(m) =~= token_text(sep) + token_text(word(key)) + token_text(colon_sp()) + v);
}

spec fn theme_tokens(c: ConfigView) -> Seq<Token> {
    seq![
        next_line(), word("theme"@), colon_sp(), word(c.theme),
        next_line(), word("exclude_patterns"@), list_open(),
    ]
}

spec fn tail_tokens(c: ConfigView) -> Seq<Token> {
    seq![
        list_close(), word("hotkey_search"@), colon_sp(), word(c.hotkey_search),
        next_line(), word("hotkey_settings"@), colon_sp(), word(c.hotkey_settings),
        chunk(seq!['\n', '}']),
    ]
}

/// The indented form of the settings, trimmed, as tokens.
spec fn config_tokens(c: ConfigView) -> Seq<Token> {
    head_tokens() + item_tokens(c.index_paths) + middle_tokens(c) + item_tokens(
        c.exclude_patterns,
    ) + tail_tokens(c)
}

proof fn lemma_render_seq3(ts: Seq<Token>)
    requires
        ts.len() == 3,
    ensures
        render(ts) == token_text(ts[0]) + token_text(ts[1]) + token_text(ts[2]),
{
    assert(ts =~= seq![ts[0], ts[1], ts[2]]);
    lemma_render_three(ts[0], ts[1], ts[2]);
}

/// The text of the tokens from `i` on, for a run of tokens split in threes.
proof fn lemma_render_from(ts: Seq<Token>, i: int)
    requires
        0 <= i <= ts.len(),
    ensures
        render(ts.skip(i)) == (if i < ts.len() {
            token_text(ts[i]) + render(ts.skip(i + 1))
        } else {
            Seq::<char>::empty()
        }),
{
    if i < ts.len() {
        assert(ts.skip(i)[0] == ts[i]);
        assert(ts.skip(i).drop_first() =~= ts.skip(i + 1));
    } else {
        assert(ts.skip(i) =~= Seq::<Token>::empty());
    }
}

proof fn lemma_lit_head()
    ensures
        "{\n  \"index_paths\": [\n"@ == token_text(chunk(seq!['{', '\n', ' ', ' '])) + token_text(word("index_paths"@)) + token_text(list_open()),
{
    reveal_strlit("{\n  \"index_paths\": [\n");
    reveal_strlit("index_paths");
    assert("{\n  \"index_paths\": [\n"@ =~= token_text(chunk(seq!['{', '\n', ' ', ' '])) + token_text(word("index_paths"@)) + token_text(list_open()));
}

proof fn lemma_lit_pinyin()
    ensures
        "\n  ],\n  \"enable_pinyin\": "@ == token_text(list_close()) + token_text(word("enable_pinyin"@)) + token_text(colon_sp()),
{
    reveal_strlit("\n  ],\n  \"enable_pinyin\": ");
    reveal_strlit("enable_pinyin");
    assert("\n  ],\n  \"enable_pinyin\": "@ =~= token_text(list_close()) + token_text(word("enable_pinyin"@)) + token_text(colon_sp()));
}

proof fn lemma_lit_fuzzy()
    ensures
        ",\n  \"enable_fuzzy\": "@ == token_text(next_line()) + token_text(word("enable_fuzzy"@)) + token_text(colon_sp()),
{
    reveal_strlit(",\n  \"enable_fuzzy\": ");
    reveal_strlit("enable_fuzzy");
    assert(",\n  \"enable_fuzzy\": "@ =~= token_text(next_line()) + token_text(word("enable_fuzzy"@)) + token_text(colon_sp()));
}

proof fn lemma_lit_hidden()
    ensures
        ",\n  \"show_hidden\": "@ == token_text(next_line()) + token_text(word("show_hidden"@)) + token_text(colon_sp()),
{
    reveal_strlit(",\n  \"show_hidden\": ");
    reveal_strlit("show_hidden");
    assert(",\n  \"show_hidden\": "@ =~= token_text(next_line()) + token_text(word("show_hidden"@)) + token_text(colon_sp()));
}

proof fn lemma_lit_max()
    ensures
        ",\n  \"max_results\": "@ == token_text(next_line()) + token_text(word("max_results"@)) + token_text(colon_sp()),
{
    reveal_strlit(",\n  \"max_results\": ");
    reveal_strlit("max_results");
    assert(",\n  \"max_results\": "@ =~= token_text(next_line()) + token_text(word("max_results"@)) + token_text(colon_sp()));
}

proof fn lemma_lit_auto()
    ensures
        ",\n  \"auto_index\": "@ == token_text(next_line()) + token_text(word("auto_index"@)) + token_text(colon_sp()),
{
    reveal_strlit(",\n  \"auto_index\": ");
    reveal_strlit("auto_index");
    assert(",\n  \"auto_index\": "@ =~= token_text(next_line()) + token_text(word("auto_index"@)) + token_text(colon_sp()));
}

proof fn lemma_lit_theme()
    ensures
        ",\n  \"theme\": \""@ == token_text(next_line()) + token_text(word("theme"@)) + token_text(colon_sp()) + seq!['"'],
{
    reveal_strlit(",\n  \"theme\": \"");
    reveal_strlit("theme");
    assert(",\n  \"theme\": \""@ =~= token_text(next_line()) + token_text(word("theme"@)) + token_text(colon_sp()) + seq!['"']);
}

proof fn lemma_lit_exclude()
    ensures
        "\",\n  \"exclude_patterns\": [\n"@ == seq!['"'] + token_text(next_line()) + token_text(word("exclude_patterns"@)) + token_text(list_open()),
{
    reveal_strlit("\",\n  \"exclude_patterns\": [\n");
    reveal_strlit("exclude_patterns");
    assert("\",\n  \"exclude_patterns\": [\n"@ =~= seq!['"'] + token_text(next_line()) + token_text(word("exclude_patterns"@)) + token_text(list_open()));
}

proof fn lemma_lit_search()
    ensures
        "\n  ],\n  \"hotkey_search\": \""@ == token_text(list_close()) + token_text(word("hotkey_search"@)) + token_text(colon_sp()) + seq!['"'],
{
    reveal_strlit("\n  ],\n  \"hotkey_search\": \"");
    reveal_strlit("hotkey_search");
    assert("\n  ],\n  \"hotkey_search\": \""@ =~= token_text(list_close()) + token_text(word("hotkey_search"@)) + token_text(colon_sp()) + seq!['"']);
}

proof fn lemma_lit_settings()
    ensures
        "\",\n  \"hotkey_settings\": \""@ == seq!['"'] + token_text(next_line()) + token_text(word("hotkey_settings"@)) + token_text(colon_sp()) + seq!['"'],
{
    reveal_strlit("\",\n  \"hotkey_settings\": \"");
    reveal_strlit("hotkey_settings");
    assert("\",\n  \"hotkey_settings\": \""@ =~= seq!['"'] + token_text(next_line()) + token_text(word("hotkey_settings"@)) + token_text(colon_sp()) + seq!['"']);
}

proof fn lemma_lit_end()
    ensures
        "\"\n}\n"@ == seq!['"'] + token_text(chunk(seq!['\n', '}'])) + seq!['\n'],
        "    "@ == indent4(),
        ",\n"@ == comma_nl(),
{
    reveal_strlit("\"\n}\n");
    reveal_strlit("    ");
    reveal_strlit(",\n");
    assert("\"\n}\n"@ =~= seq!['"'] + token_text(chunk(seq!['\n', '}'])) + seq!['\n']);
    assert("    "@ =~= indent4());
    assert(",\n"@ =~= comma_nl());
}

/// The text between the two lists, as the writer puts it together.
spec fn middle_text(c: ConfigView) -> Seq<char> {
    "\n  ],\n  \"enable_pinyin\": "@ + flag(c.enable_pinyin) + ",\n  \"enable_fuzzy\": "@ + flag(
        c.enable_fuzzy,
    ) + ",\n  \"show_hidden\": "@ + flag(c.show_hidden) + ",\n  \"max_results\": "@ + decimal(
        c.max_results as nat,
    ) + ",\n  \"auto_index\": "@ + flag(c.auto_index) + ",\n  \"theme\": \""@ + c.theme
        + "\",\n  \"exclude_patterns\": [\n"@
}

spec fn tail_text(c: ConfigView) -> Seq<char> {
    "\n  ],\n  \"hotkey_search\": \""@ + c.hotkey_search + "\",\n  \"hotkey_settings\": \""@
        + c.hotkey_settings + seq!['"', '\n', '}']
}

proof fn lemma_theme_text(c: ConfigView)
    ensures
        render(theme_tokens(c)) == ",\n  \"theme\": \""@ + c.theme
            + "\",\n  \"exclude_patterns\": [\n"@,
{
    let m = theme_tokens(c);
    lemma_render_from(m, 0);
    lemma_render_from(m, 1);
    lemma_render_from(m, 2);
    lemma_render_from(m, 3);
    lemma_render_from(m, 4);
    lemma_render_from(m, 5);
    lemma_render_from(m, 6);
    lemma_render_from(m, 7);
    lemma_lit_theme();
    lemma_lit_exclude();
    assert(render(m) =~= ",\n  \"theme\": \""@ + c.theme + "\",\n  \"exclude_patterns\": [\n"@);
}

#[verifier::spinoff_prover]
proof fn lemma_middle_text(c: ConfigView)
    ensures
        render(middle_tokens(c)) == middle_text(c),
{
    let g1 = field_tokens(list_close(), "enable_pinyin"@, flag(c.enable_pinyin));
    let g2 = field_tokens(next_line(), "enable_fuzzy"@, flag(c.enable_fuzzy));
    let g3 = field_tokens(next_line(), "show_hidden"@, flag(c.show_hidden));
    let g4 = field_tokens(next_line(), "max_results"@, decimal(c.max_results as nat));
    let g5 = field_tokens(next_line(), "auto_index"@, flag(c.auto_index));
    let g6 = theme_tokens(c);
    lemma_field_text(list_close(), "enable_pinyin"@, flag(c.enable_pinyin));
    lemma_field_text(next_line(), "enable_fuzzy"@, flag(c.enable_fuzzy));
    lemma_field_text(next_line(), "show_hidden"@, flag(c.show_hidden));
    lemma_field_text(next_line(), "max_results"@, decimal(c.max_results as nat));
    lemma_field_text(next_line(), "auto_index"@, flag(c.auto_index));
    lemma_theme_text(c);
    lemma_lit_pinyin();
    lemma_lit_fuzzy();
    lemma_lit_hidden();
    lemma_lit_max();
    lemma_lit_auto();
    lemma_render_concat(g1, g2);
    lemma_render_concat(g1 + g2, g3);
    lemma_render_concat(g1 + g2 + g3, g4);
    lemma_render_concat(g1 + g2 + g3 + g4, g5);
    lemma_render_concat(g1 + g2 + g3 + g4 + g5, g6);
    assert(render(middle_tokens(c)) =~= middle_text(c));
}

proof fn lemma_tail_text(c: ConfigView)
    ensures
        render(tail_tokens(c)) == tail_text(c),
{
    let m = tail_tokens(c);
    lemma_render_from(m, 0);
    lemma_render_from(m, 1);
    lemma_render_from(m, 2);
    lemma_render_from(m, 3);
    lemma_render_from(m, 4);
    lemma_render_from(m, 5);
    lemma_render_from(m, 6);
    lemma_render_from(m, 7);
    lemma_render_from(m, 8);
    lemma_render_from(m, 9);
    lemma_lit_search();
    lemma_lit_settings();
    assert(render(m) =~= tail_text(c));
}

proof fn lemma_assoc(x: Seq<char>, a: Seq<char>, b: Seq<char>)
    ensures
        x + a + b == x + (a + b),
{
    assert(x + a + b =~= x + (a + b));
}

/// The indented form of plain settings, regrouped: its head, first list, middle, second
/// list and tail, then a line break.
proof fn lemma_pretty_parts(c: ConfigView)
    requires
        written_config(c),
    ensures
        pretty_raw(c) == "{\n  \"index_paths\": [\n"@ + join_with(
            raw_items(c.index_paths, "    "@),
            ",\n"@,
        ) + middle_text(c) + join_with(raw_items(c.exclude_patterns, "    "@), ",\n"@)
            + tail_text(c) + seq!['\n'],
{
    lemma_lit_end();
    let p1 = "{\n  \"index_paths\": [\n"@ + join_with(raw_items(c.index_paths, "    "@), ",\n"@);
    let m1 = "\n  ],\n  \"enable_pinyin\": "@;
    let q2 = p1 + m1;
    let m2 = m1 + flag(c.enable_pinyin);
    lemma_assoc(p1, m1, flag(c.enable_pinyin));
    let q3 = p1 + m2;
    assert(q2 + flag(c.enable_pinyin) == q3);
    let m3 = m2 + ",\n  \"enable_fuzzy\": "@;
    lemma_assoc(p1, m2, ",\n  \"enable_fuzzy\": "@);
    let q4 = p1 + m3;
    assert(q3 + ",\n  \"enable_fuzzy\": "@ == q4);
    let m4 = m3 + flag(c.enable_fuzzy);
    lemma_assoc(p1, m3, flag(c.enable_fuzzy));
    let q5 = p1 + m4;
    assert(q4 + flag(c.enable_fuzzy) == q5);
    let m5 = m4 + ",\n  \"show_hidden\": "@;
    lemma_assoc(p1, m4, ",\n  \"show_hidden\": "@);
    let q6 = p1 + m5;
    assert(q5 + ",\n  \"show_hidden\": "@ == q6);
    let m6 = m5 + flag(c.show_hidden);
    lemma_assoc(p1, m5, flag(c.show_hidden));
    let q7 = p1 + m6;
    assert(q6 + flag(c.show_hidden) == q7);
    let m7 = m6 + ",\n  \"max_results\": "@;
    lemma_assoc(p1, m6, ",\n  \"max_results\": "@);
    let q8 = p1 + m7;
    assert(q7 + ",\n  \"max_results\": "@ == q8);
    let m8 = m7 + decimal(c.max_results as nat);
    lemma_assoc(p1, m7, decimal(c.max_results as nat));
    let q9 = p1 + m8;
    assert(q8 + decimal(c.max_results as nat) == q9);
    let m9 = m8 + ",\n  \"auto_index\": "@;
    lemma_assoc(p1, m8, ",\n  \"auto_index\": "@);
    let q10 = p1 + m9;
    assert(q9 + ",\n  \"auto_index\": "@ == q10);
    let m10 = m9 + flag(c.auto_index);
    lemma_assoc(p1, m9, flag(c.auto_index));
    let q11 = p1 + m10;
    assert(q10 + flag(c.auto_index) == q11);
    let m11 = m10 + ",\n  \"theme\": \""@;
    lemma_assoc(p1, m10, ",\n  \"theme\": \""@);
    let q12 = p1 + m11;
    assert(q11 + ",\n  \"theme\": \""@ == q12);
    let m12 = m11 + c.theme;
    lemma_assoc(p1, m11, c.theme);
    let q13 = p1 + m12;
    assert(q12 + c.theme == q13);
    let m13 = m12 + "\",\n  \"exclude_patterns\": [\n"@;
    lemma_assoc(p1, m12, "\",\n  \"exclude_patterns\": [\n"@);
    let q14 = p1 + m13;
    assert(q13 + "\",\n  \"exclude_patterns\": [\n"@ == q14);
    assert(m13 == middle_text(c));
    let p15 = q14 + join_with(raw_items(c.exclude_patterns, "    "@), ",\n"@);
    let t1 = "\n  ],\n  \"hotkey_search\": \""@;
    let u16 = p15 + t1;
    let t2 = t1 + c.hotkey_search;
    lemma_assoc(p15, t1, c.hotkey_search);
    let u17 = p15 + t2;
    assert(u16 + c.hotkey_search == u17);
    let t3 = t2 + "\",\n  \"hotkey_settings\": \""@;
    lemma_assoc(p15, t2, "\",\n  \"hotkey_settings\": \""@);
    let u18 = p15 + t3;
    assert(u17 + "\",\n  \"hotkey_settings\": \""@ == u18);
    let t4 = t3 + c.hotkey_settings;
    lemma_assoc(p15, t3, c.hotkey_settings);
    let u19 = p15 + t4;
    assert(u18 + c.hotkey_settings == u19);
    let t5 = t4 + seq!['"', '\n', '}'];
    lemma_assoc(p15, t4, seq!['"', '\n', '}']);
    let u20 = p15 + t5;
    assert(u19 + seq!['"', '\n', '}'] == u20);
    assert(t5 == tail_text(c));
    assert("\"\n}\n"@ =~= seq!['"', '\n', '}'] + seq!['\n']);
    lemma_assoc(u19, seq!['"', '\n', '}'], seq!['\n']);
    assert(pretty_raw(c) == u19 + "\"\n}\n"@);
    assert(pretty_raw(c) == u20 + seq!['\n']);
}

/// The indented form of plain settings, trimmed, is the text of their tokens.
proof fn lemma_pretty_tokens(c: ConfigView)
    requires
        written_config(c),
    ensures
        render(config_tokens(c)) == trim(pretty_raw(c)),
        render(config_tokens(c)).len() > 0,
        render(config_tokens(c))[0] == '{',
        render(config_tokens(c)).last() == '}',
{
    let ip = c.index_paths;
    let ex = c.exclude_patterns;
    lemma_lit_head();
    lemma_lit_end();
    lemma_render_seq3(head_tokens());
    lemma_item_tokens(ip, Seq::<char>::empty());
    lemma_item_tokens(ex, Seq::<char>::empty());
    lemma_middle_text(c);
    lemma_tail_text(c);
    lemma_pretty_parts(c);
    let a = head_tokens();
    let b = item_tokens(ip);
    let d = middle_tokens(c);
    let e = item_tokens(ex);
    let f = tail_tokens(c);
    lemma_render_concat(a, b);
    lemma_render_concat(a + b, d);
    lemma_render_concat(a + b + d, e);
    lemma_render_concat(a + b + d + e, f);
    let r = render(config_tokens(c));
    let p = pretty_raw(c);
    assert(p == r + seq!['\n']);
    assert(p[0] == '{');
    assert(r.last() == tail_text(c).last());
    assert(r.last() == '}');
    crate::json_tokens::lemma_trim_end_ws(r, seq!['\n']);
    crate::json_tokens::lemma_trim_start_ws(Seq::<char>::empty(), p);
    assert(Seq::<char>::empty() + p =~= p);
    assert(trim(p) == r);
    assert(r[0] == p[0]);
}

proof fn lemma_key_index_paths()
    ensures
        "index_paths"@ == seq!['i', 'n', 'd', 'e', 'x', '_', 'p', 'a', 't', 'h', 's'],
        key_ok("index_paths"@),
        setting_keys()[0] == "index_paths"@,
{
    reveal_strlit("index_paths");
    assert("index_paths"@ =~= seq!['i', 'n', 'd', 'e', 'x', '_', 'p', 'a', 't', 'h', 's']);
}

proof fn lemma_key_enable_pinyin()
    ensures
        "enable_pinyin"@ == seq!['e', 'n', 'a', 'b', 'l', 'e', '_', 'p', 'i', 'n', 'y', 'i', 'n'],
        key_ok("enable_pinyin"@),
        setting_keys()[1] == "enable_pinyin"@,
{
    reveal_strlit("enable_pinyin");
    assert("enable_pinyin"@ =~= seq!['e', 'n', 'a', 'b', 'l', 'e', '_', 'p', 'i', 'n', 'y', 'i', 'n']);
}

proof fn lemma_key_enable_fuzzy()
    ensures
        "enable_fuzzy"@ == seq!['e', 'n', 'a', 'b', 'l', 'e', '_', 'f', 'u', 'z', 'z', 'y'],
        key_ok("enable_fuzzy"@),
        setting_keys()[2] == "enable_fuzzy"@,
{
    reveal_strlit("enable_fuzzy");
    assert("enable_fuzzy"@ =~= seq!['e', 'n', 'a', 'b', 'l', 'e', '_', 'f', 'u', 'z', 'z', 'y']);
}

proof fn lemma_key_show_hidden()
    ensures
        "show_hidden"@ == seq!['s', 'h', 'o', 'w', '_', 'h', 'i', 'd', 'd', 'e', 'n'],
        key_ok("show_hidden"@),
        setting_keys()[3] == "show_hidden"@,
{
    reveal_strlit("show_hidden");
    assert("show_hidden"@ =~= seq!['s', 'h', 'o', 'w', '_', 'h', 'i', 'd', 'd', 'e', 'n']);
}

proof fn lemma_key_max_results()
    ensures
        "max_results"@ == seq!['m', 'a', 'x', '_', 'r', 'e', 's', 'u', 'l', 't', 's'],
        key_ok("max_results"@),
        setting_keys()[4] == "max_results"@,
{
    reveal_strlit("max_results");
    assert("max_results"@ =~= seq!['m', 'a', 'x', '_', 'r', 'e', 's', 'u', 'l', 't', 's']);
}

proof fn lemma_key_auto_index()
    ensures
        "auto_index"@ == seq!['a', 'u', 't', 'o', '_', 'i', 'n', 'd', 'e', 'x'],
        key_ok("auto_index"@),
        setting_keys()[5] == "auto_index"@,
{
    reveal_strlit("auto_index");
    assert("auto_index"@ =~= seq!['a', 'u', 't', 'o', '_', 'i', 'n', 'd', 'e', 'x']);
}

proof fn lemma_key_theme()
    ensures
        "theme"@ == seq!['t', 'h', 'e', 'm', 'e'],
        key_ok("theme"@),
        setting_keys()[6] == "theme"@,
{
    reveal_strlit("theme");
    assert("theme"@ =~= seq!['t', 'h', 'e', 'm', 'e']);
}

proof fn lemma_key_exclude_patterns()
    ensures
        "exclude_patterns"@ == seq!['e', 'x', 'c', 'l', 'u', 'd', 'e', '_', 'p', 'a', 't', 't', 'e', 'r', 'n', 's'],
        key_ok("exclude_patterns"@),
        setting_keys()[7] == "exclude_patterns"@,
{
    reveal_strlit("exclude_patterns");
    assert("exclude_patterns"@ =~= seq!['e', 'x', 'c', 'l', 'u', 'd', 'e', '_', 'p', 'a', 't', 't', 'e', 'r', 'n', 's']);
}

proof fn lemma_key_hotkey_search()
    ensures
        "hotkey_search"@ == seq!['h', 'o', 't', 'k', 'e', 'y', '_', 's', 'e', 'a', 'r', 'c', 'h'],
        key_ok("hotkey_search"@),
        setting_keys()[8] == "hotkey_search"@,
{
    reveal_strlit("hotkey_search");
    assert("hotkey_search"@ =~= seq!['h', 'o', 't', 'k', 'e', 'y', '_', 's', 'e', 'a', 'r', 'c', 'h']);
}

proof fn lemma_key_hotkey_settings()
    ensures
        "hotkey_settings"@ == seq!['h', 'o', 't', 'k', 'e', 'y', '_', 's', 'e', 't', 't', 'i', 'n', 'g', 's'],
        key_ok("hotkey_settings"@),
        setting_keys()[9] == "hotkey_settings"@,
{
    reveal_strlit("hotkey_settings");
    assert("hotkey_settings"@ =~= seq!['h', 'o', 't', 'k', 'e', 'y', '_', 's', 'e', 't', 't', 'i', 'n', 'g', 's']);
}

/// The keys of the settings file are well-formed and different from each other.
/// No backslash in the text.
spec fn no_backslash(s: Seq<char>) -> bool {
    forall|j: int| 0 <= j < s.len() ==> #[trigger] s[j] != '\\'
}

/// The keys of the settings file hold no backslash.
proof fn lemma_keys_no_backslash()
    ensures
        forall|i: int| 0 <= i < 10 ==> no_backslash(#[trigger] setting_keys()[i]),
{
    lemma_key_index_paths();
    lemma_key_enable_pinyin();
    lemma_key_enable_fuzzy();
    lemma_key_show_hidden();
    lemma_key_max_results();
    lemma_key_auto_index();
    lemma_key_theme();
    lemma_key_exclude_patterns();
    lemma_key_hotkey_search();
    lemma_key_hotkey_settings();
    assert forall|i: int| 0 <= i < 10 implies no_backslash(#[trigger] setting_keys()[i]) by {
        let k = setting_keys()[i];
        assert forall|j: int| 0 <= j < k.len() implies #[trigger] k[j] != '\\' by {
            assert(is_lower(k[j]) || k[j] == '_');
        }
    }
}

proof fn lemma_setting_keys()
    ensures
        forall|i: int| 0 <= i < 10 ==> key_ok(#[trigger] setting_keys()[i]),
        forall|i: int, j: int|
            0 <= i < 10 && 0 <= j < 10 && i != j ==> #[trigger] setting_keys()[i]
                != #[trigger] setting_keys()[j],
        setting_keys().len() == 10,
{
    lemma_key_index_paths();
    lemma_key_enable_pinyin();
    lemma_key_enable_fuzzy();
    lemma_key_show_hidden();
    lemma_key_max_results();
    lemma_key_auto_index();
    lemma_key_theme();
    lemma_key_exclude_patterns();
    lemma_key_hotkey_search();
    lemma_key_hotkey_settings();
    assert forall|i: int, j: int|
        0 <= i < 10 && 0 <= j < 10 && i != j implies #[trigger] setting_keys()[i]
            != #[trigger] setting_keys()[j] by {
        let a = setting_keys()[i];
        let b = setting_keys()[j];
        if a.len() == b.len() {
            if a[0] == b[0] {
                assert(a[1] != b[1] || a[2] != b[2] || a[3] != b[3] || a[4] != b[4]);
            }
        }
    }
}

/// The chunks of the settings format: not empty, no quote, no lower-case start.
spec fn chunk_ok(t: Token) -> bool {
    &&& !t.word
    &&& t.text.len() > 0
    &&& !is_lower(t.text[0])
    &&& crate::json_tokens::lacks(t.text, '"')
}

proof fn lemma_chunks_ok()
    ensures
        chunk_ok(colon_sp()),
        chunk_ok(next_line()),
        chunk_ok(list_open()),
        chunk_ok(list_close()),
        chunk_ok(chunk(seq!['{', '\n', ' ', ' '])),
        chunk_ok(chunk(seq!['\n', '}'])),
{
}

/// A bare value's chunk: a flag or a count.
proof fn lemma_value_chunk_ok(v: Seq<char>)
    requires
        v.len() > 0,
        forall|i: int| 0 <= i < v.len() ==> #[trigger] crate::text::is_digit(v[i]),
    ensures
        chunk_ok(chunk(v)),
{
    assert(crate::text::is_digit(v[0]));
    assert forall|i: int| 0 <= i < v.len() implies #[trigger] v[i] != '"' by {
        assert(crate::text::is_digit(v[i]));
    }
}

proof fn lemma_flag_digits(b: bool)
    ensures
        flag(b).len() > 0,
        forall|i: int| 0 <= i < flag(b).len() ==> #[trigger] crate::text::is_digit(flag(b)[i]),
{
}

/// Tokens each of which is an acceptable chunk or a word without quotes are well-formed.
proof fn lemma_tokens_ok_each(ts: Seq<Token>)
    requires
        forall|i: int|
            0 <= i < ts.len() ==> chunk_ok(#[trigger] ts[i]) || (ts[i].word
                && crate::json_tokens::lacks(ts[i].text, '"')),
    ensures
        tokens_ok(ts),
{
    assert forall|i: int, j: int| 0 <= i < ts.len() && 0 <= j < ts[i].text.len() implies #[trigger] ts[i].text[j] != '"' by {
        assert(chunk_ok(ts[i]) || (ts[i].word && crate::json_tokens::lacks(ts[i].text, '"')));
    }
    assert forall|i: int| 0 <= i < ts.len() && !ts[i].word implies #[trigger] ts[i].text.len() > 0 && !is_lower(ts[i].text[0]) by {
        assert(chunk_ok(ts[i]));
    }
}

proof fn lemma_word_ok(k: Seq<char>)
    requires
        key_ok(k),
    ensures
        word(k).word && crate::json_tokens::lacks(word(k).text, '"'),
{
}

proof fn lemma_plain_word_ok(x: Seq<char>)
    requires
        written_setting(x),
    ensures
        word(x).word && crate::json_tokens::lacks(word(x).text, '"'),
{
    assert forall|i: int| 0 <= i < x.len() implies #[trigger] x[i] != '"' by {
        assert(x[i] != '"');
    }
}

proof fn lemma_field_tokens_ok(sep: Token, key: Seq<char>, v: Seq<char>)
    requires
        chunk_ok(sep),
        key_ok(key),
        chunk_ok(chunk(v)),
    ensures
        tokens_ok(field_tokens(sep, key, v)),
{
    lemma_chunks_ok();
    lemma_word_ok(key);
    let ts = field_tokens(sep, key, v);
    assert forall|i: int| 0 <= i < ts.len() implies chunk_ok(#[trigger] ts[i]) || (ts[i].word
        && crate::json_tokens::lacks(ts[i].text, '"')) by {
        if i == 1 {
            assert(ts[1] == word(key));
        }
    }
    lemma_tokens_ok_each(ts);
}

proof fn lemma_config_tokens_ok(c: ConfigView)
    requires
        written_config(c),
    ensures
        tokens_ok(config_tokens(c)),
{
    lemma_setting_keys();
    lemma_chunks_ok();
    lemma_key_index_paths();
    lemma_key_enable_pinyin();
    lemma_key_enable_fuzzy();
    lemma_key_show_hidden();
    lemma_key_max_results();
    lemma_key_auto_index();
    lemma_key_theme();
    lemma_key_exclude_patterns();
    lemma_key_hotkey_search();
    lemma_key_hotkey_settings();
    lemma_word_ok("index_paths"@);
    lemma_word_ok("theme"@);
    lemma_word_ok("exclude_patterns"@);
    lemma_word_ok("hotkey_search"@);
    lemma_word_ok("hotkey_settings"@);
    lemma_plain_word_ok(c.theme);
    lemma_plain_word_ok(c.hotkey_search);
    lemma_plain_word_ok(c.hotkey_settings);
    let h = head_tokens();
    assert forall|i: int| 0 <= i < h.len() implies chunk_ok(#[trigger] h[i]) || (h[i].word
        && crate::json_tokens::lacks(h[i].text, '"')) by {}
    lemma_tokens_ok_each(h);
    lemma_item_tokens(c.index_paths, Seq::<char>::empty());
    lemma_item_tokens(c.exclude_patterns, Seq::<char>::empty());
    lemma_flag_digits(c.enable_pinyin);
    lemma_flag_digits(c.enable_fuzzy);
    lemma_flag_digits(c.show_hidden);
    lemma_flag_digits(c.auto_index);
    crate::text::lemma_decimal_digits(c.max_results as nat);
    lemma_value_chunk_ok(flag(c.enable_pinyin));
    lemma_value_chunk_ok(flag(c.enable_fuzzy));
    lemma_value_chunk_ok(flag(c.show_hidden));
    lemma_value_chunk_ok(flag(c.auto_index));
    assert forall|i: int| 0 <= i < decimal(c.max_results as nat).len() implies #[trigger] crate::text::is_digit(
        decimal(c.max_results as nat)[i],
    ) by {}
    lemma_value_chunk_ok(decimal(c.max_results as nat));
    let g1 = field_tokens(list_close(), "enable_pinyin"@, flag(c.enable_pinyin));
    let g2 = field_tokens(next_line(), "enable_fuzzy"@, flag(c.enable_fuzzy));
    let g3 = field_tokens(next_line(), "show_hidden"@, flag(c.show_hidden));
    let g4 = field_tokens(next_line(), "max_results"@, decimal(c.max_results as nat));
    let g5 = field_tokens(next_line(), "auto_index"@, flag(c.auto_index));
    lemma_field_tokens_ok(list_close(), "enable_pinyin"@, flag(c.enable_pinyin));
    lemma_field_tokens_ok(next_line(), "enable_fuzzy"@, flag(c.enable_fuzzy));
    lemma_field_tokens_ok(next_line(), "show_hidden"@, flag(c.show_hidden));
    lemma_field_tokens_ok(next_line(), "max_results"@, decimal(c.max_results as nat));
    lemma_field_tokens_ok(next_line(), "auto_index"@, flag(c.auto_index));
    let th = theme_tokens(c);
    assert forall|i: int| 0 <= i < th.len() implies chunk_ok(#[trigger] th[i]) || (th[i].word
        && crate::json_tokens::lacks(th[i].text, '"')) by {}
    lemma_tokens_ok_each(th);
    let tl = tail_tokens(c);
    assert forall|i: int| 0 <= i < tl.len() implies chunk_ok(#[trigger] tl[i]) || (tl[i].word
        && crate::json_tokens::lacks(tl[i].text, '"')) by {}
    lemma_tokens_ok_each(tl);
    lemma_tokens_ok_concat(g1, g2);
    lemma_tokens_ok_concat(g1 + g2, g3);
    lemma_tokens_ok_concat(g1 + g2 + g3, g4);
    lemma_tokens_ok_concat(g1 + g2 + g3 + g4, g5);
    lemma_tokens_ok_concat(g1 + g2 + g3 + g4 + g5, th);
    let a = head_tokens();
    let b = item_tokens(c.index_paths);
    let d = middle_tokens(c);
    let e = item_tokens(c.exclude_patterns);
    lemma_tokens_ok_concat(a, b);
    lemma_tokens_ok_concat(a + b, d);
    lemma_tokens_ok_concat(a + b + d, e);
    lemma_tokens_ok_concat(a + b + d + e, tl);
}

/// The value of a key followed by a colon, a space, a bare value and the next line.
proof fn lemma_lookup_bare(pre: Seq<Token>, k: Seq<char>, v: Seq<char>, rest: Seq<Token>)
    requires
        tokens_ok(pre + seq![word(k)] + (seq![colon_sp(), chunk(v)] + rest)),
        key_ok(k),
        no_word(pre, k),
        v.len() > 0,
        forall|i: int| 0 <= i < v.len() ==> #[trigger] crate::text::is_digit(v[i]),
        rest.len() > 0,
        rest[0] == next_line(),
        !is_ws(render(pre + seq![word(k)] + (seq![colon_sp(), chunk(v)] + rest)).last()),
    ensures
        json_value(render(pre + seq![word(k)] + (seq![colon_sp(), chunk(v)] + rest)), k) == Some(
            v,
        ),
{
    let post = seq![colon_sp(), chunk(v)] + rest;
    let s = render(pre + seq![word(k)] + post);
    lemma_lookup(pre, k, post);
    lemma_render_concat(seq![colon_sp(), chunk(v)], rest);
    lemma_render_two(colon_sp(), chunk(v));
    lemma_render_from(rest, 0);
    let r = render(rest);
    assert(r[0] == ',');
    assert(render(post) =~= Seq::<char>::empty() + seq![':'] + seq![' '] + v + r);
    assert(crate::text::is_digit(v[0]));
    assert(crate::text::is_digit(v[v.len() - 1]));
    assert forall|i: int| 0 <= i < v.len() implies !is_value_stop(#[trigger] v[i]) by {
        assert(crate::text::is_digit(v[i]));
    }
    lemma_value_bare(s, k, render(pre).len() as int, Seq::<char>::empty(), seq![' '], v, r);
}

/// The value of a key followed by a colon, a space and a word.
proof fn lemma_lookup_quoted(pre: Seq<Token>, k: Seq<char>, x: Seq<char>, rest: Seq<Token>)
    requires
        tokens_ok(pre + seq![word(k)] + (seq![colon_sp(), word(x)] + rest)),
        key_ok(k),
        no_word(pre, k),
        crate::json_tokens::lacks(x, '"'),
        !is_ws(render(pre + seq![word(k)] + (seq![colon_sp(), word(x)] + rest)).last()),
    ensures
        json_value(render(pre + seq![word(k)] + (seq![colon_sp(), word(x)] + rest)), k) == Some(
            x,
        ),
{
    let post = seq![colon_sp(), word(x)] + rest;
    let s = render(pre + seq![word(k)] + post);
    lemma_lookup(pre, k, post);
    lemma_render_concat(seq![colon_sp(), word(x)], rest);
    lemma_render_two(colon_sp(), word(x));
    let r = render(rest);
    assert(render(post) =~= Seq::<char>::empty() + seq![':'] + seq![' '] + seq!['"'] + x + seq![
        '"',
    ] + r);
    lemma_value_quoted(s, k, render(pre).len() as int, Seq::<char>::empty(), seq![' '], x, r);
}

spec fn nl_indent() -> Seq<char> {
    seq!['\n', ' ', ' ', ' ', ' ']
}

/// The lines of a list's items, with the line break before the first and the indent
/// of the closing bracket after the last, cut at commas.
proof fn lemma_items_content(ps: Seq<Seq<char>>, tr: Seq<char>)
    requires
        ps.len() > 0,
        forall|i: int| 0 <= i < ps.len() ==> written_item(#[trigger] ps[i]),
    ensures
        seq!['\n'] + join_with(raw_items(ps, indent4()), comma_nl()) + tr == join_with(
            item_parts(ps, nl_indent(), nl_indent(), tr),
            seq![','],
        ),
    decreases ps.len(),
{
    let qs = raw_items(ps, indent4());
    let parts = item_parts(ps, nl_indent(), nl_indent(), tr);
    assert(written_item(ps[ps.len() - 1]));
    if ps.len() == 1 {
        assert(join_with(qs, comma_nl()) == qs[0]);
        assert(join_with(parts, seq![',']) == parts[0]);
        assert(seq!['\n'] + qs[0] + tr =~= parts[0]);
    } else {
        let pre = ps.drop_last();
        assert forall|i: int| 0 <= i < pre.len() implies written_item(#[trigger] pre[i]) by {
            assert(pre[i] == ps[i]);
        }
        lemma_items_content(pre, Seq::<char>::empty());
        assert(qs.drop_last() =~= raw_items(pre, indent4()));
        assert(parts.drop_last() =~= item_parts(pre, nl_indent(), nl_indent(), Seq::<char>::empty()));
        let jp = join_with(raw_items(pre, indent4()), comma_nl());
        assert(seq!['\n'] + jp + Seq::<char>::empty() =~= seq!['\n'] + jp);
        assert(join_with(qs, comma_nl()) == jp + comma_nl() + qs.last());
        assert(join_with(parts, seq![',']) == join_with(parts.drop_last(), seq![',']) + seq![',']
            + parts.last());
        assert(parts.last() =~= nl_indent() + quoted(ps.last()) + tr);
        assert(qs.last() =~= indent4() + quoted(ps.last()));
        assert(seq!['\n'] + join_with(qs, comma_nl()) + tr =~= (seq!['\n'] + jp) + seq![','] + (
        nl_indent() + quoted(ps.last()) + tr));
    }
}

/// The items of a key followed by a list.
#[verifier::spinoff_prover]
proof fn lemma_lookup_list(pre: Seq<Token>, k: Seq<char>, ps: Seq<Seq<char>>, rest: Seq<Token>)
    requires
        tokens_ok(pre + seq![word(k)] + (seq![list_open()] + item_tokens(ps) + rest)),
        key_ok(k),
        no_word(pre, k),
        forall|i: int| 0 <= i < ps.len() ==> written_item(#[trigger] ps[i]),
        rest.len() > 0,
        rest[0] == list_close(),
    ensures
        json_array(render(pre + seq![word(k)] + (seq![list_open()] + item_tokens(ps) + rest)), k)
            == ps,
{
    let post = seq![list_open()] + item_tokens(ps) + rest;
    let s = render(pre + seq![word(k)] + post);
    lemma_lookup(pre, k, post);
    lemma_item_tokens(ps, Seq::<char>::empty());
    lemma_render_concat(seq![list_open()], item_tokens(ps));
    lemma_render_concat(seq![list_open()] + item_tokens(ps), rest);
    lemma_render_one(list_open());
    lemma_render_from(rest, 0);
    let r = render(rest.skip(1));
    let j = join_with(raw_items(ps, indent4()), comma_nl());
    let content = seq!['\n'] + j + seq!['\n', ' ', ' '];
    let tail = seq![',', '\n', ' ', ' '] + r;
    assert(render(post) =~= Seq::<char>::empty() + seq![':'] + seq![' '] + seq!['['] + content
        + seq![']'] + tail);
    // no `]` in the items' lines
    assert forall|i: int| 0 <= i < content.len() implies #[trigger] content[i] != ']' by {
        if 1 <= i < 1 + j.len() {
            assert(content[i] == render(item_tokens(ps))[i - 1]);
            lemma_render_lacks_bracket(ps);
        }
    }
    lemma_array_at(s, k, render(pre).len() as int, Seq::<char>::empty(), seq![' '], content, tail);
    if ps.len() == 0 {
        assert(j =~= Seq::<char>::empty());
        assert forall|i: int| 0 <= i < content.len() implies content[i] != ',' by {}
        crate::text::lemma_split_single(content, ',');
        assert(trim(content) =~= Seq::<char>::empty()) by {
            crate::json_tokens::lemma_trim_start_ws(content, Seq::<char>::empty());
            assert(content + Seq::<char>::empty() =~= content);
        }
        assert(kept_items(seq![content]) =~= Seq::<Seq<char>>::empty()) by {
            assert(seq![content].drop_last() =~= Seq::<Seq<char>>::empty());
            assert(seq![content].last() == content);
            assert(crate::text::strip_start(Seq::<char>::empty(), '"') == Seq::<char>::empty());
            assert(crate::text::strip_end(Seq::<char>::empty(), '"') == Seq::<char>::empty());
            assert(trim_char(trim(content), '"') == Seq::<char>::empty());
            assert(kept_items(Seq::<Seq<char>>::empty()) == Seq::<Seq<char>>::empty());
        }
        assert(ps =~= Seq::<Seq<char>>::empty());
    } else {
        lemma_items_content(ps, seq!['\n', ' ', ' ']);
        assert forall|i: int| 0 <= i < ps.len() implies #[trigger] ps[i].len() > 0
            && crate::json_tokens::lacks(ps[i], '"') && crate::json_tokens::lacks(ps[i], ',')
            && crate::json_tokens::lacks(ps[i], ']') by {
            assert(written_item(ps[i]));
        }
        crate::json_tokens::lemma_split_item_parts(ps, nl_indent(), nl_indent(), seq!['\n', ' ', ' ']);
        crate::json_tokens::lemma_kept_item_parts(ps, nl_indent(), nl_indent(), seq!['\n', ' ', ' ']);
    }
}

/// The text of a list's item tokens holds no `]`.
proof fn lemma_render_lacks_bracket(ps: Seq<Seq<char>>)
    requires
        forall|i: int| 0 <= i < ps.len() ==> written_item(#[trigger] ps[i]),
    ensures
        crate::json_tokens::lacks(render(item_tokens(ps)), ']'),
    decreases ps.len(),
{
    let ts = item_tokens(ps);
    if ps.len() == 1 {
        lemma_render_two(chunk(indent4()), word(ps[0]));
        assert(written_item(ps[0]));
        let r = render(ts);
        assert forall|i: int| 0 <= i < r.len() implies #[trigger] r[i] != ']' by {
            if 5 <= i < 5 + ps[0].len() {
                assert(r[i] == ps[0][i - 5]);
            }
        }
    } else if ps.len() > 1 {
        let pre = ps.drop_last();
        assert forall|i: int| 0 <= i < pre.len() implies written_item(#[trigger] pre[i]) by {
            assert(pre[i] == ps[i]);
        }
        lemma_render_lacks_bracket(pre);
        let last = ps.last();
        assert(written_item(ps[ps.len() - 1]));
        let tail = seq![chunk(comma_nl()), chunk(indent4()), word(last)];
        lemma_render_concat(item_tokens(pre), tail);
        lemma_render_three(chunk(comma_nl()), chunk(indent4()), word(last));
        let a = render(item_tokens(pre));
        let r = render(ts);
        assert forall|i: int| 0 <= i < r.len() implies #[trigger] r[i] != ']' by {
            if i < a.len() {
                assert(r[i] == a[i]);
            } else if a.len() + 7 <= i < a.len() + 7 + last.len() {
                assert(r[i] == last[i - a.len() - 7]);
            }
        }
    }
}

/// A text that names no key written after the key at `f` is none of those keys.
proof fn lemma_plain_not_key(x: Seq<char>, f: int, i: int)
    requires
        !later_keys(f).contains(x),
        0 <= f < i < 10,
    ensures
        x != setting_keys()[i],
{
    if x == setting_keys()[i] {
        assert(later_keys(f)[i - f - 1] == x);
    }
}

/// Items that name no key written after the key at `f` are none of those keys.
proof fn lemma_items_not_key(ps: Seq<Seq<char>>, f: int, i: int)
    requires
        forall|j: int| 0 <= j < ps.len() ==> !later_keys(f).contains(#[trigger] ps[j]),
        0 <= f < i < 10,
    ensures
        !ps.contains(setting_keys()[i]),
{
    if ps.contains(setting_keys()[i]) {
        let j = choose|j: int| 0 <= j < ps.len() && ps[j] == setting_keys()[i];
        lemma_plain_not_key(ps[j], f, i);
    }
}

/// What the reader needs to know of the settings' tokens for the key at `i`: no text
/// written before that key names it.
proof fn lemma_read_setup(c: ConfigView, i: int)
    requires
        written_config(c),
        0 <= i < 10,
    ensures
        tokens_ok(config_tokens(c)),
        key_ok(setting_keys()[i]),
        i > 0 ==> no_word(item_tokens(c.index_paths), setting_keys()[i]),
        i > 7 ==> no_word(item_tokens(c.exclude_patterns), setting_keys()[i]),
        i > 6 ==> c.theme != setting_keys()[i],
        i > 8 ==> c.hotkey_search != setting_keys()[i],
        !is_ws(render(config_tokens(c)).last()),
        forall|j: int| 0 <= j < 10 && j != i ==> #[trigger] setting_keys()[j] != setting_keys()[i],
{
    lemma_config_tokens_ok(c);
    lemma_setting_keys();
    if i > 0 {
        lemma_items_not_key(c.index_paths, 0, i);
        lemma_item_tokens(c.index_paths, setting_keys()[i]);
    }
    if i > 7 {
        lemma_items_not_key(c.exclude_patterns, 7, i);
        lemma_item_tokens(c.exclude_patterns, setting_keys()[i]);
    }
    if i > 6 {
        lemma_plain_not_key(c.theme, 6, i);
    }
    if i > 8 {
        lemma_plain_not_key(c.hotkey_search, 8, i);
    }
    lemma_pretty_tokens(c);
    assert forall|j: int| 0 <= j < 10 && j != i implies #[trigger] setting_keys()[j] != setting_keys()[i] by {}
}

proof fn lemma_read_enable_pinyin(c: ConfigView)
    requires
        written_config(c),
    ensures
        json_value(render(config_tokens(c)), "enable_pinyin"@) == Some(flag(c.enable_pinyin)),
{
    lemma_key_index_paths();
    lemma_key_enable_pinyin();
    lemma_key_enable_fuzzy();
    lemma_key_show_hidden();
    lemma_key_max_results();
    lemma_key_auto_index();
    lemma_key_theme();
    lemma_key_exclude_patterns();
    lemma_key_hotkey_search();
    lemma_key_hotkey_settings();
    lemma_read_setup(c, 1);
    let k = "enable_pinyin"@;
    let v = flag(c.enable_pinyin);
    let a = head_tokens();
    let b = item_tokens(c.index_paths);
    let g1 = field_tokens(list_close(), "enable_pinyin"@, flag(c.enable_pinyin));
    let g2 = field_tokens(next_line(), "enable_fuzzy"@, flag(c.enable_fuzzy));
    let g3 = field_tokens(next_line(), "show_hidden"@, flag(c.show_hidden));
    let g4 = field_tokens(next_line(), "max_results"@, decimal(c.max_results as nat));
    let g5 = field_tokens(next_line(), "auto_index"@, flag(c.auto_index));
    let th = theme_tokens(c);
    let e = item_tokens(c.exclude_patterns);
    let tl = tail_tokens(c);
    let pre = a + b + seq![list_close()];
    let rest = g2 + g3 + g4 + g5 + th + e + tl;
    assert(config_tokens(c) =~= pre + seq![word(k)] + (seq![colon_sp(), chunk(v)] + rest));
    assert(no_word(a, k));
    assert(no_word(seq![list_close()], k));
    lemma_no_word_concat(a, b, k);
    lemma_no_word_concat(a + b, seq![list_close()], k);
    assert forall|j: int| 0 <= j < v.len() implies #[trigger] crate::text::is_digit(v[j]) by {}
    assert(rest[0] == next_line());
    lemma_lookup_bare(pre, k, v, rest);
}

proof fn lemma_read_enable_fuzzy(c: ConfigView)
    requires
        written_config(c),
    ensures
        json_value(render(config_tokens(c)), "enable_fuzzy"@) == Some(flag(c.enable_fuzzy)),
{
    lemma_key_index_paths();
    lemma_key_enable_pinyin();
    lemma_key_enable_fuzzy();
    lemma_key_show_hidden();
    lemma_key_max_results();
    lemma_key_auto_index();
    lemma_key_theme();
    lemma_key_exclude_patterns();
    lemma_key_hotkey_search();
    lemma_key_hotkey_settings();
    lemma_read_setup(c, 2);
    let k = "enable_fuzzy"@;
    let v = flag(c.enable_fuzzy);
    let a = head_tokens();
    let b = item_tokens(c.index_paths);
    let g1 = field_tokens(list_close(), "enable_pinyin"@, flag(c.enable_pinyin));
    let g2 = field_tokens(next_line(), "enable_fuzzy"@, flag(c.enable_fuzzy));
    let g3 = field_tokens(next_line(), "show_hidden"@, flag(c.show_hidden));
    let g4 = field_tokens(next_line(), "max_results"@, decimal(c.max_results as nat));
    let g5 = field_tokens(next_line(), "auto_index"@, flag(c.auto_index));
    let th = theme_tokens(c);
    let e = item_tokens(c.exclude_patterns);
    let tl = tail_tokens(c);
    let pre = a + b + g1 + seq![next_line()];
    let rest = g3 + g4 + g5 + th + e + tl;
    assert(config_tokens(c) =~= pre + seq![word(k)] + (seq![colon_sp(), chunk(v)] + rest));
    assert(no_word(a, k));
    assert(no_word(g1, k));
    assert(no_word(seq![next_line()], k));
    lemma_no_word_concat(a, b, k);
    lemma_no_word_concat(a + b, g1, k);
    lemma_no_word_concat(a + b + g1, seq![next_line()], k);
    assert forall|j: int| 0 <= j < v.len() implies #[trigger] crate::text::is_digit(v[j]) by {}
    assert(rest[0] == next_line());
    lemma_lookup_bare(pre, k, v, rest);
}

proof fn lemma_read_show_hidden(c: ConfigView)
    requires
        written_config(c),
    ensures
        json_value(render(config_tokens(c)), "show_hidden"@) == Some(flag(c.show_hidden)),
{
    lemma_key_index_paths();
    lemma_key_enable_pinyin();
    lemma_key_enable_fuzzy();
    lemma_key_show_hidden();
    lemma_key_max_results();
    lemma_key_auto_index();
    lemma_key_theme();
    lemma_key_exclude_patterns();
    lemma_key_hotkey_search();
    lemma_key_hotkey_settings();
    lemma_read_setup(c, 3);
    let k = "show_hidden"@;
    let v = flag(c.show_hidden);
    let a = head_tokens();
    let b = item_tokens(c.index_paths);
    let g1 = field_tokens(list_close(), "enable_pinyin"@, flag(c.enable_pinyin));
    let g2 = field_tokens(next_line(), "enable_fuzzy"@, flag(c.enable_fuzzy));
    let g3 = field_tokens(next_line(), "show_hidden"@, flag(c.show_hidden));
    let g4 = field_tokens(next_line(), "max_results"@, decimal(c.max_results as nat));
    let g5 = field_tokens(next_line(), "auto_index"@, flag(c.auto_index));
    let th = theme_tokens(c);
    let e = item_tokens(c.exclude_patterns);
    let tl = tail_tokens(c);
    let pre = a + b + g1 + g2 + seq![next_line()];
    let rest = g4 + g5 + th + e + tl;
    assert(config_tokens(c) =~= pre + seq![word(k)] + (seq![colon_sp(), chunk(v)] + rest));
    assert(no_word(a, k));
    assert(no_word(g1, k));
    assert(no_word(g2, k));
    assert(no_word(seq![next_line()], k));
    lemma_no_word_concat(a, b, k);
    lemma_no_word_concat(a + b, g1, k);
    lemma_no_word_concat(a + b + g1, g2, k);
    lemma_no_word_concat(a + b + g1 + g2, seq![next_line()], k);
    assert forall|j: int| 0 <= j < v.len() implies #[trigger] crate::text::is_digit(v[j]) by {}
    assert(rest[0] == next_line());
    lemma_lookup_bare(pre, k, v, rest);
}

proof fn lemma_read_max_results(c: ConfigView)
    requires
        written_config(c),
    ensures
        json_value(render(config_tokens(c)), "max_results"@) == Some(decimal(c.max_results as nat)),
{
    lemma_key_index_paths();
    lemma_key_enable_pinyin();
    lemma_key_enable_fuzzy();
    lemma_key_show_hidden();
    lemma_key_max_results();
    lemma_key_auto_index();
    lemma_key_theme();
    lemma_key_exclude_patterns();
    lemma_key_hotkey_search();
    lemma_key_hotkey_settings();
    lemma_read_setup(c, 4);
    let k = "max_results"@;
    let v = decimal(c.max_results as nat);
    let a = head_tokens();
    let b = item_tokens(c.index_paths);
    let g1 = field_tokens(list_close(), "enable_pinyin"@, flag(c.enable_pinyin));
    let g2 = field_tokens(next_line(), "enable_fuzzy"@, flag(c.enable_fuzzy));
    let g3 = field_tokens(next_line(), "show_hidden"@, flag(c.show_hidden));
    let g4 = field_tokens(next_line(), "max_results"@, decimal(c.max_results as nat));
    let g5 = field_tokens(next_line(), "auto_index"@, flag(c.auto_index));
    let th = theme_tokens(c);
    let e = item_tokens(c.exclude_patterns);
    let tl = tail_tokens(c);
    let pre = a + b + g1 + g2 + g3 + seq![next_line()];
    let rest = g5 + th + e + tl;
    assert(config_tokens(c) =~= pre + seq![word(k)] + (seq![colon_sp(), chunk(v)] + rest));
    assert(no_word(a, k));
    assert(no_word(g1, k));
    assert(no_word(g2, k));
    assert(no_word(g3, k));
    assert(no_word(seq![next_line()], k));
    lemma_no_word_concat(a, b, k);
    lemma_no_word_concat(a + b, g1, k);
    lemma_no_word_concat(a + b + g1, g2, k);
    lemma_no_word_concat(a + b + g1 + g2, g3, k);
    lemma_no_word_concat(a + b + g1 + g2 + g3, seq![next_line()], k);
    crate::text::lemma_decimal_digits(c.max_results as nat);
    assert forall|j: int| 0 <= j < v.len() implies #[trigger] crate::text::is_digit(v[j]) by {}
    assert(rest[0] == next_line());
    lemma_lookup_bare(pre, k, v, rest);
}

proof fn lemma_read_auto_index(c: ConfigView)
    requires
        written_config(c),
    ensures
        json_value(render(config_tokens(c)), "auto_index"@) == Some(flag(c.auto_index)),
{
    lemma_key_index_paths();
    lemma_key_enable_pinyin();
    lemma_key_enable_fuzzy();
    lemma_key_show_hidden();
    lemma_key_max_results();
    lemma_key_auto_index();
    lemma_key_theme();
    lemma_key_exclude_patterns();
    lemma_key_hotkey_search();
    lemma_key_hotkey_settings();
    lemma_read_setup(c, 5);
    let k = "auto_index"@;
    let v = flag(c.auto_index);
    let a = head_tokens();
    let b = item_tokens(c.index_paths);
    let g1 = field_tokens(list_close(), "enable_pinyin"@, flag(c.enable_pinyin));
    let g2 = field_tokens(next_line(), "enable_fuzzy"@, flag(c.enable_fuzzy));
    let g3 = field_tokens(next_line(), "show_hidden"@, flag(c.show_hidden));
    let g4 = field_tokens(next_line(), "max_results"@, decimal(c.max_results as nat));
    let g5 = field_tokens(next_line(), "auto_index"@, flag(c.auto_index));
    let th = theme_tokens(c);
    let e = item_tokens(c.exclude_patterns);
    let tl = tail_tokens(c);
    let pre = a + b + g1 + g2 + g3 + g4 + seq![next_line()];
    let rest = th + e + tl;
    assert(config_tokens(c) =~= pre + seq![word(k)] + (seq![colon_sp(), chunk(v)] + rest));
    assert(no_word(a, k));
    assert(no_word(g1, k));
    assert(no_word(g2, k));
    assert(no_word(g3, k));
    assert(no_word(g4, k));
    assert(no_word(seq![next_line()], k));
    lemma_no_word_concat(a, b, k);
    lemma_no_word_concat(a + b, g1, k);
    lemma_no_word_concat(a + b + g1, g2, k);
    lemma_no_word_concat(a + b + g1 + g2, g3, k);
    lemma_no_word_concat(a + b + g1 + g2 + g3, g4, k);
    lemma_no_word_concat(a + b + g1 + g2 + g3 + g4, seq![next_line()], k);
    assert forall|j: int| 0 <= j < v.len() implies #[trigger] crate::text::is_digit(v[j]) by {}
    assert(rest[0] == next_line());
    lemma_lookup_bare(pre, k, v, rest);
}

proof fn lemma_read_index_paths(c: ConfigView)
    requires
        written_config(c),
    ensures
        json_array(render(config_tokens(c)), "index_paths"@) == c.index_paths,
{
    lemma_key_index_paths();
    lemma_key_enable_pinyin();
    lemma_key_enable_fuzzy();
    lemma_key_show_hidden();
    lemma_key_max_results();
    lemma_key_auto_index();
    lemma_key_theme();
    lemma_key_exclude_patterns();
    lemma_key_hotkey_search();
    lemma_key_hotkey_settings();
    lemma_read_setup(c, 0);
    let k = "index_paths"@;
    let a = head_tokens();
    let b = item_tokens(c.index_paths);
    let g1 = field_tokens(list_close(), "enable_pinyin"@, flag(c.enable_pinyin));
    let g2 = field_tokens(next_line(), "enable_fuzzy"@, flag(c.enable_fuzzy));
    let g3 = field_tokens(next_line(), "show_hidden"@, flag(c.show_hidden));
    let g4 = field_tokens(next_line(), "max_results"@, decimal(c.max_results as nat));
    let g5 = field_tokens(next_line(), "auto_index"@, flag(c.auto_index));
    let th = theme_tokens(c);
    let e = item_tokens(c.exclude_patterns);
    let tl = tail_tokens(c);
    let pre = seq![chunk(seq!['{', '\n', ' ', ' '])];
    let rest = g1 + g2 + g3 + g4 + g5 + th + e + tl;
    assert(config_tokens(c) =~= pre + seq![word(k)] + (seq![list_open()] + b + rest));
    assert(no_word(pre, k));
    assert(rest[0] == list_close());
    lemma_lookup_list(pre, k, c.index_paths, rest);
}

proof fn lemma_read_theme(c: ConfigView)
    requires
        written_config(c),
    ensures
        json_value(render(config_tokens(c)), "theme"@) == Some(c.theme),
{
    lemma_key_index_paths();
    lemma_key_enable_pinyin();
    lemma_key_enable_fuzzy();
    lemma_key_show_hidden();
    lemma_key_max_results();
    lemma_key_auto_index();
    lemma_key_theme();
    lemma_key_exclude_patterns();
    lemma_key_hotkey_search();
    lemma_key_hotkey_settings();
    lemma_read_setup(c, 6);
    let k = "theme"@;
    let a = head_tokens();
    let b = item_tokens(c.index_paths);
    let g1 = field_tokens(list_close(), "enable_pinyin"@, flag(c.enable_pinyin));
    let g2 = field_tokens(next_line(), "enable_fuzzy"@, flag(c.enable_fuzzy));
    let g3 = field_tokens(next_line(), "show_hidden"@, flag(c.show_hidden));
    let g4 = field_tokens(next_line(), "max_results"@, decimal(c.max_results as nat));
    let g5 = field_tokens(next_line(), "auto_index"@, flag(c.auto_index));
    let th = theme_tokens(c);
    let e = item_tokens(c.exclude_patterns);
    let tl = tail_tokens(c);
    let pre = a + b + g1 + g2 + g3 + g4 + g5 + seq![next_line()];
    let rest = seq![next_line(), word("exclude_patterns"@), list_open()] + e + tl;
    assert(config_tokens(c) =~= pre + seq![word(k)] + (seq![colon_sp(), word(c.theme)] + rest));
    assert(no_word(a, k));
    assert(no_word(g1, k));
    assert(no_word(g2, k));
    assert(no_word(g3, k));
    assert(no_word(g4, k));
    assert(no_word(g5, k));
    assert(no_word(seq![next_line()], k));
    lemma_no_word_concat(a, b, k);
    lemma_no_word_concat(a + b, g1, k);
    lemma_no_word_concat(a + b + g1, g2, k);
    lemma_no_word_concat(a + b + g1 + g2, g3, k);
    lemma_no_word_concat(a + b + g1 + g2 + g3, g4, k);
    lemma_no_word_concat(a + b + g1 + g2 + g3 + g4, g5, k);
    lemma_no_word_concat(a + b + g1 + g2 + g3 + g4 + g5, seq![next_line()], k);
    lemma_plain_word_ok(c.theme);
    lemma_lookup_quoted(pre, k, c.theme, rest);
}

proof fn lemma_read_exclude_patterns(c: ConfigView)
    requires
        written_config(c),
    ensures
        json_array(render(config_tokens(c)), "exclude_patterns"@) == c.exclude_patterns,
{
    lemma_key_index_paths();
    lemma_key_enable_pinyin();
    lemma_key_enable_fuzzy();
    lemma_key_show_hidden();
    lemma_key_max_results();
    lemma_key_auto_index();
    lemma_key_theme();
    lemma_key_exclude_patterns();
    lemma_key_hotkey_search();
    lemma_key_hotkey_settings();
    lemma_read_setup(c, 7);
    let k = "exclude_patterns"@;
    let a = head_tokens();
    let b = item_tokens(c.index_paths);
    let g1 = field_tokens(list_close(), "enable_pinyin"@, flag(c.enable_pinyin));
    let g2 = field_tokens(next_line(), "enable_fuzzy"@, flag(c.enable_fuzzy));
    let g3 = field_tokens(next_line(), "show_hidden"@, flag(c.show_hidden));
    let g4 = field_tokens(next_line(), "max_results"@, decimal(c.max_results as nat));
    let g5 = field_tokens(next_line(), "auto_index"@, flag(c.auto_index));
    let th = theme_tokens(c);
    let e = item_tokens(c.exclude_patterns);
    let tl = tail_tokens(c);
    let th0 = seq![next_line(), word("theme"@), colon_sp(), word(c.theme), next_line()];
    let pre = a + b + g1 + g2 + g3 + g4 + g5 + th0;
    assert(config_tokens(c) =~= pre + seq![word(k)] + (seq![list_open()] + e + tl));
    assert(no_word(a, k));
    assert(no_word(g1, k));
    assert(no_word(g2, k));
    assert(no_word(g3, k));
    assert(no_word(g4, k));
    assert(no_word(g5, k));
    assert(no_word(th0, k));
    lemma_no_word_concat(a, b, k);
    lemma_no_word_concat(a + b, g1, k);
    lemma_no_word_concat(a + b + g1, g2, k);
    lemma_no_word_concat(a + b + g1 + g2, g3, k);
    lemma_no_word_concat(a + b + g1 + g2 + g3, g4, k);
    lemma_no_word_concat(a + b + g1 + g2 + g3 + g4, g5, k);
    lemma_no_word_concat(a + b + g1 + g2 + g3 + g4 + g5, th0, k);
    assert(tl[0] == list_close());
    lemma_lookup_list(pre, k, c.exclude_patterns, tl);
}

proof fn lemma_read_hotkey_search(c: ConfigView)
    requires
        written_config(c),
    ensures
        json_value(render(config_tokens(c)), "hotkey_search"@) == Some(c.hotkey_search),
{
    lemma_key_index_paths();
    lemma_key_enable_pinyin();
    lemma_key_enable_fuzzy();
    lemma_key_show_hidden();
    lemma_key_max_results();
    lemma_key_auto_index();
    lemma_key_theme();
    lemma_key_exclude_patterns();
    lemma_key_hotkey_search();
    lemma_key_hotkey_settings();
    lemma_read_setup(c, 8);
    let k = "hotkey_search"@;
    let a = head_tokens();
    let b = item_tokens(c.index_paths);
    let g1 = field_tokens(list_close(), "enable_pinyin"@, flag(c.enable_pinyin));
    let g2 = field_tokens(next_line(), "enable_fuzzy"@, flag(c.enable_fuzzy));
    let g3 = field_tokens(next_line(), "show_hidden"@, flag(c.show_hidden));
    let g4 = field_tokens(next_line(), "max_results"@, decimal(c.max_results as nat));
    let g5 = field_tokens(next_line(), "auto_index"@, flag(c.auto_index));
    let th = theme_tokens(c);
    let e = item_tokens(c.exclude_patterns);
    let tl = tail_tokens(c);
    let pre = a + b + g1 + g2 + g3 + g4 + g5 + th + e + seq![list_close()];
    let rest = seq![next_line(), word("hotkey_settings"@), colon_sp(), word(c.hotkey_settings), chunk(seq!['\n', '}'])];
    assert(config_tokens(c) =~= pre + seq![word(k)] + (seq![colon_sp(), word(c.hotkey_search)] + rest));
    assert(no_word(a, k));
    assert(no_word(g1, k));
    assert(no_word(g2, k));
    assert(no_word(g3, k));
    assert(no_word(g4, k));
    assert(no_word(g5, k));
    assert(no_word(th, k));
    assert(no_word(seq![list_close()], k));
    lemma_no_word_concat(a, b, k);
    lemma_no_word_concat(a + b, g1, k);
    lemma_no_word_concat(a + b + g1, g2, k);
    lemma_no_word_concat(a + b + g1 + g2, g3, k);
    lemma_no_word_concat(a + b + g1 + g2 + g3, g4, k);
    lemma_no_word_concat(a + b + g1 + g2 + g3 + g4, g5, k);
    lemma_no_word_concat(a + b + g1 + g2 + g3 + g4 + g5, th, k);
    lemma_no_word_concat(a + b + g1 + g2 + g3 + g4 + g5 + th, e, k);
    lemma_no_word_concat(a + b + g1 + g2 + g3 + g4 + g5 + th + e, seq![list_close()], k);
    lemma_plain_word_ok(c.hotkey_search);
    lemma_lookup_quoted(pre, k, c.hotkey_search, rest);
}

proof fn lemma_read_hotkey_settings(c: ConfigView)
    requires
        written_config(c),
    ensures
        json_value(render(config_tokens(c)), "hotkey_settings"@) == Some(c.hotkey_settings),
{
    lemma_key_index_paths();
    lemma_key_enable_pinyin();
    lemma_key_enable_fuzzy();
    lemma_key_show_hidden();
    lemma_key_max_results();
    lemma_key_auto_index();
    lemma_key_theme();
    lemma_key_exclude_patterns();
    lemma_key_hotkey_search();
    lemma_key_hotkey_settings();
    lemma_read_setup(c, 9);
    let k = "hotkey_settings"@;
    let a = head_tokens();
    let b = item_tokens(c.index_paths);
    let g1 = field_tokens(list_close(), "enable_pinyin"@, flag(c.enable_pinyin));
    let g2 = field_tokens(next_line(), "enable_fuzzy"@, flag(c.enable_fuzzy));
    let g3 = field_tokens(next_line(), "show_hidden"@, flag(c.show_hidden));
    let g4 = field_tokens(next_line(), "max_results"@, decimal(c.max_results as nat));
    let g5 = field_tokens(next_line(), "auto_index"@, flag(c.auto_index));
    let th = theme_tokens(c);
    let e = item_tokens(c.exclude_patterns);
    let tl = tail_tokens(c);
    let tl0 = seq![list_close(), word("hotkey_search"@), colon_sp(), word(c.hotkey_search), next_line()];
    let pre = a + b + g1 + g2 + g3 + g4 + g5 + th + e + tl0;
    let rest = seq![chunk(seq!['\n', '}'])];
    assert(config_tokens(c) =~= pre + seq![word(k)] + (seq![colon_sp(), word(c.hotkey_settings)] + rest));
    assert(no_word(a, k));
    assert(no_word(g1, k));
    assert(no_word(g2, k));
    assert(no_word(g3, k));
    assert(no_word(g4, k));
    assert(no_word(g5, k));
    assert(no_word(th, k));
    assert(no_word(tl0, k));
    lemma_no_word_concat(a, b, k);
    lemma_no_word_concat(a + b, g1, k);
    lemma_no_word_concat(a + b + g1, g2, k);
    lemma_no_word_concat(a + b + g1 + g2, g3, k);
    lemma_no_word_concat(a + b + g1 + g2 + g3, g4, k);
    lemma_no_word_concat(a + b + g1 + g2 + g3 + g4, g5, k);
    lemma_no_word_concat(a + b + g1 + g2 + g3 + g4 + g5, th, k);
    lemma_no_word_concat(a + b + g1 + g2 + g3 + g4 + g5 + th, e, k);
    lemma_no_word_concat(a + b + g1 + g2 + g3 + g4 + g5 + th + e, tl0, k);
    lemma_plain_word_ok(c.hotkey_settings);
    lemma_lookup_quoted(pre, k, c.hotkey_settings, rest);
}

proof fn lemma_flag_reads(b: bool)
    ensures
        (flag(b) == "1"@ || flag(b) == "true"@) == b,
{
    reveal_strlit("1");
    reveal_strlit("true");
    if !b {
        assert(flag(b)[0] != "1"@[0]);
    }
    assert(b ==> flag(b) =~= "1"@);
}

/// The escape of a text without backslash is the text itself.
proof fn lemma_escape_without_backslash(x: Seq<char>)
    requires
        forall|j: int| 0 <= j < json_escape_spec(x).len() ==> #[trigger] json_escape_spec(x)[j]
            != '\\',
    ensures
        json_escape_spec(x) == x,
    decreases x.len(),
{
    if x.len() > 0 {
        let a = json_escape_spec(x.drop_last());
        let y = escape_char(x.last());
        assert(json_escape_spec(x) == a + y);
        assert forall|j: int| 0 <= j < a.len() implies #[trigger] a[j] != '\\' by {
            assert((a + y)[j] == a[j]);
        }
        lemma_escape_without_backslash(x.drop_last());
        assert((a + y)[a.len() as int] == y[0]);
        assert(y =~= seq![x.last()]);
        assert(x =~= x.drop_last() + seq![x.last()]);
    }
}

/// What escaping a plain text gives: a text as the file holds it, whose escapes undo to
/// the text.
proof fn lemma_escaped_setting(x: Seq<char>)
    requires
        plain_setting(x),
    ensures
        written_setting(json_escape_spec(x)),
        json_unescape_spec(json_escape_spec(x)) == x,
        json_escape_spec(x).len() >= x.len(),
{
    let w = json_escape_spec(x);
    let p = |c: char| c != '"' && c != '\n' && c != '\r' && c != '\t';
    crate::entry_json::lemma_escape_chars(x, p);
    assert forall|j: int| 0 <= j < w.len() implies #[trigger] w[j] != '"' && w[j] != '\n' && w[j]
        != '\r' && w[j] != '\t' by {
        assert(p(w[j]));
    }
    crate::entry_json::lemma_escape_ends(x);
    lemma_unescape_escape(x);
}

/// A text that names no key written after the key at `f` keeps that when escaped: the
/// keys hold no backslash.
proof fn lemma_escaped_not_later(x: Seq<char>, f: int)
    requires
        !later_keys(f).contains(x),
        0 <= f < 10,
    ensures
        !later_keys(f).contains(json_escape_spec(x)),
{
    let w = json_escape_spec(x);
    lemma_setting_keys();
    lemma_keys_no_backslash();
    if later_keys(f).contains(w) {
        let i = choose|i: int| 0 <= i < later_keys(f).len() && later_keys(f)[i] == w;
        assert(later_keys(f)[i] == setting_keys()[f + 1 + i]);
        assert(no_backslash(setting_keys()[f + 1 + i]));
        lemma_escape_without_backslash(x);
        assert(later_keys(f).contains(x));
    }
}

/// Items that name no key written after the key at `f` keep that when escaped.
proof fn lemma_escaped_items_not_later(ps: Seq<Seq<char>>, f: int)
    requires
        forall|j: int| 0 <= j < ps.len() ==> !later_keys(f).contains(#[trigger] ps[j]),
        0 <= f < 10,
    ensures
        forall|j: int|
            0 <= j < escaped_items(ps).len() ==> !later_keys(f).contains(
                #[trigger] escaped_items(ps)[j],
            ),
{
    assert forall|j: int| 0 <= j < escaped_items(ps).len() implies !later_keys(f).contains(
        #[trigger] escaped_items(ps)[j],
    ) by {
        lemma_escaped_not_later(ps[j], f);
    }
}

proof fn lemma_escaped_item(x: Seq<char>)
    requires
        plain_item(x),
    ensures
        written_item(json_escape_spec(x)),
        json_unescape_spec(json_escape_spec(x)) == x,
{
    lemma_escaped_setting(x);
    let w = json_escape_spec(x);
    let p = |c: char| c != ',' && c != ']';
    crate::entry_json::lemma_escape_chars(x, p);
    assert forall|j: int| 0 <= j < w.len() implies #[trigger] w[j] != ',' && w[j] != ']' by {
        assert(p(w[j]));
    }
}

proof fn lemma_escaped_items(ps: Seq<Seq<char>>)
    requires
        forall|i: int| 0 <= i < ps.len() ==> plain_item(#[trigger] ps[i]),
    ensures
        forall|i: int| 0 <= i < escaped_items(ps).len() ==> written_item(#[trigger] escaped_items(ps)[i]),
        unescaped_items(escaped_items(ps)) == ps,
{
    assert forall|i: int| 0 <= i < escaped_items(ps).len() implies written_item(#[trigger] escaped_items(ps)[i]) by {
        lemma_escaped_item(ps[i]);
    }
    assert forall|i: int| 0 <= i < ps.len() implies #[trigger] unescaped_items(escaped_items(ps))[i] == ps[i] by {
        lemma_escaped_item(ps[i]);
    }
    assert(unescaped_items(escaped_items(ps)) =~= ps);
}

proof fn lemma_raw_items(ps: Seq<Seq<char>>, indent: Seq<char>)
    ensures
        raw_items(escaped_items(ps), indent) == quoted_items(ps, indent),
{
    assert(raw_items(escaped_items(ps), indent) =~= quoted_items(ps, indent));
}

// ---------------------------------------------------------------------------
// The one-line form read back
// ---------------------------------------------------------------------------

spec fn comma() -> Token {
    chunk(seq![','])
}

spec fn colon() -> Token {
    chunk(seq![':'])
}

spec fn open_list() -> Token {
    chunk(seq![':', '['])
}

spec fn close_list() -> Token {
    chunk(seq![']', ','])
}

/// The tokens of a list's items in the one-line form: the items, cut by commas.
spec fn line_item_tokens(ps: Seq<Seq<char>>) -> Seq<Token>
    decreases ps.len(),
{
    if ps.len() == 0 {
        seq![]
    } else if ps.len() == 1 {
        seq![word(ps[0])]
    } else {
        line_item_tokens(ps.drop_last()) + seq![comma(), word(ps.last())]
    }
}

proof fn lemma_line_item_tokens(ps: Seq<Seq<char>>, k: Seq<char>)
    requires
        forall|i: int| 0 <= i < ps.len() ==> written_item(#[trigger] ps[i]),
    ensures
        render(line_item_tokens(ps)) == join_with(raw_items(ps, seq![]), seq![',']),
        tokens_ok(line_item_tokens(ps)),
        crate::json_tokens::lacks(render(line_item_tokens(ps)), ']'),
        !ps.contains(k) ==> no_word(line_item_tokens(ps), k),
    decreases ps.len(),
{
    let ts = line_item_tokens(ps);
    if ps.len() == 0 {
        assert(raw_items(ps, seq![]) =~= Seq::<Seq<char>>::empty());
    } else if ps.len() == 1 {
        lemma_render_one(word(ps[0]));
        assert(written_item(ps[0]));
        assert(raw_items(ps, seq![]) =~= seq![raw_item(ps[0], seq![])]);
        assert(render(ts) =~= raw_item(ps[0], seq![]));
        let r = render(ts);
        assert forall|i: int| 0 <= i < r.len() implies #[trigger] r[i] != ']' by {
            if 1 <= i < 1 + ps[0].len() {
                assert(r[i] == ps[0][i - 1]);
            }
        }
        assert forall|i: int, j: int| 0 <= i < ts.len() && 0 <= j < ts[i].text.len() implies #[trigger] ts[i].text[j] != '"' by {
            assert(ts[i] == word(ps[0]));
        }
        if !ps.contains(k) {
            assert(ps[0] != k);
        }
    } else {
        let pre = ps.drop_last();
        assert forall|i: int| 0 <= i < pre.len() implies written_item(#[trigger] pre[i]) by {
            assert(pre[i] == ps[i]);
        }
        lemma_line_item_tokens(pre, k);
        let last = ps.last();
        assert(written_item(ps[ps.len() - 1]));
        let tp = line_item_tokens(pre);
        let tail = seq![comma(), word(last)];
        lemma_render_concat(tp, tail);
        lemma_render_two(comma(), word(last));
        let qs = raw_items(ps, seq![]);
        assert(qs.drop_last() =~= raw_items(pre, seq![]));
        assert(qs.last() == raw_item(last, seq![]));
        assert(render(ts) =~= join_with(qs, seq![',']));
        let a = render(tp);
        let r = render(ts);
        assert forall|i: int| 0 <= i < r.len() implies #[trigger] r[i] != ']' by {
            if i < a.len() {
                assert(r[i] == a[i]);
            } else if a.len() + 2 <= i < a.len() + 2 + last.len() {
                assert(r[i] == last[i - a.len() - 2]);
            }
        }
        assert forall|i: int, j: int| 0 <= i < ts.len() && 0 <= j < ts[i].text.len() implies #[trigger] ts[i].text[j] != '"' by {
            if i < tp.len() {
                assert(ts[i] == tp[i]);
                assert(tp[i].text[j] != '"');
            } else if i == tp.len() + 1 {
                assert(ts[i] == word(last));
            }
        }
        assert forall|i: int| 0 <= i < ts.len() && !ts[i].word implies #[trigger] ts[i].text.len() > 0 && !is_lower(ts[i].text[0]) by {
            if i < tp.len() {
                assert(ts[i] == tp[i]);
            }
        }
        if !ps.contains(k) {
            assert forall|j: int| 0 <= j < ts.len() implies ts[j] != word(k) by {
                if j < tp.len() {
                    assert(ts[j] == tp[j]);
                    assert(!pre.contains(k)) by {
                        if pre.contains(k) {
                            let x = choose|x: int| 0 <= x < pre.len() && pre[x] == k;
                            assert(ps[x] == k);
                        }
                    }
                } else if j == tp.len() + 1 {
                    assert(ts[j] == word(last));
                    assert(ps[ps.len() - 1] != k);
                }
            }
        }
    }
}

/// The value of a key followed by a colon and a bare value, then a comma.
proof fn lemma_line_lookup_bare(pre: Seq<Token>, k: Seq<char>, v: Seq<char>, rest: Seq<Token>)
    requires
        tokens_ok(pre + seq![word(k)] + (seq![colon(), chunk(v)] + rest)),
        key_ok(k),
        no_word(pre, k),
        v.len() > 0,
        forall|i: int| 0 <= i < v.len() ==> #[trigger] crate::text::is_digit(v[i]),
        rest.len() > 0,
        rest[0] == comma(),
        !is_ws(render(pre + seq![word(k)] + (seq![colon(), chunk(v)] + rest)).last()),
    ensures
        json_value(render(pre + seq![word(k)] + (seq![colon(), chunk(v)] + rest)), k) == Some(v),
{
    let post = seq![colon(), chunk(v)] + rest;
    let s = render(pre + seq![word(k)] + post);
    lemma_lookup(pre, k, post);
    lemma_render_concat(seq![colon(), chunk(v)], rest);
    lemma_render_two(colon(), chunk(v));
    lemma_render_from(rest, 0);
    let r = render(rest);
    assert(r[0] == ',');
    assert(render(post) =~= Seq::<char>::empty() + seq![':'] + Seq::<char>::empty() + v + r);
    assert(crate::text::is_digit(v[0]));
    assert(crate::text::is_digit(v[v.len() - 1]));
    assert forall|i: int| 0 <= i < v.len() implies !is_value_stop(#[trigger] v[i]) by {
        assert(crate::text::is_digit(v[i]));
    }
    lemma_value_bare(
        s,
        k,
        render(pre).len() as int,
        Seq::<char>::empty(),
        Seq::<char>::empty(),
        v,
        r,
    );
}

/// The value of a key followed by a colon and a word.
proof fn lemma_line_lookup_quoted(pre: Seq<Token>, k: Seq<char>, x: Seq<char>, rest: Seq<Token>)
    requires
        tokens_ok(pre + seq![word(k)] + (seq![colon(), word(x)] + rest)),
        key_ok(k),
        no_word(pre, k),
        crate::json_tokens::lacks(x, '"'),
        !is_ws(render(pre + seq![word(k)] + (seq![colon(), word(x)] + rest)).last()),
    ensures
        json_value(render(pre + seq![word(k)] + (seq![colon(), word(x)] + rest)), k) == Some(x),
{
    let post = seq![colon(), word(x)] + rest;
    let s = render(pre + seq![word(k)] + post);
    lemma_lookup(pre, k, post);
    lemma_render_concat(seq![colon(), word(x)], rest);
    lemma_render_two(colon(), word(x));
    let r = render(rest);
    assert(render(post) =~= Seq::<char>::empty() + seq![':'] + Seq::<char>::empty() + seq!['"']
        + x + seq!['"'] + r);
    lemma_value_quoted(
        s,
        k,
        render(pre).len() as int,
        Seq::<char>::empty(),
        Seq::<char>::empty(),
        x,
        r,
    );
}

/// The items of a key followed by a list in the one-line form.
#[verifier::spinoff_prover]
proof fn lemma_line_lookup_list(pre: Seq<Token>, k: Seq<char>, ps: Seq<Seq<char>>, rest: Seq<Token>)
    requires
        tokens_ok(pre + seq![word(k)] + (seq![open_list()] + line_item_tokens(ps) + rest)),
        key_ok(k),
        no_word(pre, k),
        forall|i: int| 0 <= i < ps.len() ==> written_item(#[trigger] ps[i]),
        rest.len() > 0,
        rest[0] == close_list(),
    ensures
        json_array(render(pre + seq![word(k)] + (seq![open_list()] + line_item_tokens(ps) + rest)), k)
            == ps,
{
    let post = seq![open_list()] + line_item_tokens(ps) + rest;
    let s = render(pre + seq![word(k)] + post);
    lemma_lookup(pre, k, post);
    lemma_line_item_tokens(ps, Seq::<char>::empty());
    lemma_render_concat(seq![open_list()], line_item_tokens(ps));
    lemma_render_concat(seq![open_list()] + line_item_tokens(ps), rest);
    lemma_render_one(open_list());
    lemma_render_from(rest, 0);
    let r = render(rest.skip(1));
    let content = join_with(raw_items(ps, seq![]), seq![',']);
    let tail = seq![','] + r;
    assert(render(post) =~= Seq::<char>::empty() + seq![':'] + Seq::<char>::empty() + seq!['[']
        + content + seq![']'] + tail);
    lemma_array_at(
        s,
        k,
        render(pre).len() as int,
        Seq::<char>::empty(),
        Seq::<char>::empty(),
        content,
        tail,
    );
    if ps.len() == 0 {
        assert(content =~= Seq::<char>::empty());
        crate::text::lemma_split_single(content, ',');
        assert(trim(content) =~= Seq::<char>::empty()) by {
            crate::json_tokens::lemma_trim_start_ws(content, Seq::<char>::empty());
            assert(content + Seq::<char>::empty() =~= content);
        }
        assert(kept_items(seq![content]) =~= Seq::<Seq<char>>::empty()) by {
            assert(seq![content].drop_last() =~= Seq::<Seq<char>>::empty());
            assert(seq![content].last() == content);
            assert(crate::text::strip_start(Seq::<char>::empty(), '"') == Seq::<char>::empty());
            assert(crate::text::strip_end(Seq::<char>::empty(), '"') == Seq::<char>::empty());
            assert(trim_char(trim(content), '"') == Seq::<char>::empty());
            assert(kept_items(Seq::<Seq<char>>::empty()) == Seq::<Seq<char>>::empty());
        }
        assert(ps =~= Seq::<Seq<char>>::empty());
    } else {
        let e = Seq::<char>::empty();
        assert(item_parts(ps, e, e, e) =~= raw_items(ps, e)) by {
            assert forall|j: int| 0 <= j < ps.len() implies #[trigger] item_parts(ps, e, e, e)[j]
                == raw_items(ps, e)[j] by {
                assert(item_parts(ps, e, e, e)[j] =~= raw_item(ps[j], e));
            }
        }
        assert forall|i: int| 0 <= i < ps.len() implies #[trigger] ps[i].len() > 0
            && crate::json_tokens::lacks(ps[i], '"') && crate::json_tokens::lacks(ps[i], ',')
            && crate::json_tokens::lacks(ps[i], ']') by {
            assert(written_item(ps[i]));
        }
        crate::json_tokens::lemma_split_item_parts(ps, e, e, e);
        crate::json_tokens::lemma_kept_item_parts(ps, e, e, e);
    }
}

spec fn line_head() -> Seq<Token> {
    seq![chunk(seq!['{']), word("index_paths"@), open_list()]
}

/// The tokens between the two lists of the one-line form: the flags, the count, the
/// theme.
spec fn line_middle(c: ConfigView) -> Seq<Token> {
    line_field(close_list(), "enable_pinyin"@, flag(c.enable_pinyin)) + line_field(
        comma(),
        "enable_fuzzy"@,
        flag(c.enable_fuzzy),
    ) + line_field(comma(), "show_hidden"@, flag(c.show_hidden)) + line_field(
        comma(),
        "max_results"@,
        decimal(c.max_results as nat),
    ) + line_field(comma(), "auto_index"@, flag(c.auto_index)) + line_theme(c)
}

/// A separator, a key, a colon and a bare value.
spec fn line_field(sep: Token, key: Seq<char>, v: Seq<char>) -> Seq<Token> {
    seq![sep, word(key), colon(), chunk(v)]
}

proof fn lemma_line_field_text(sep: Token, key: Seq<char>, v: Seq<char>)
    ensures
        render(line_field(sep, key, v)) == token_text(sep) + token_text(word(key)) + token_text(
            colon(),
        ) + v,
{
    let m = line_field(sep, key, v);
    lemma_render_from(m, 0);
    lemma_render_from(m, 1);
    lemma_render_from(m, 2);
    lemma_render_from(m, 3);
    lemma_render_from(m, 4);
    assert(render(m) =~= token_text(sep) + token_text(word(key)) + token_text(colon()) + v);
}

spec fn line_theme(c: ConfigView) -> Seq<Token> {
    seq![
        comma(), word("theme"@), colon(), word(c.theme),
        comma(), word("exclude_patterns"@), open_list(),
    ]
}

spec fn line_tail(c: ConfigView) -> Seq<Token> {
    seq![
        close_list(), word("hotkey_search"@), colon(), word(c.hotkey_search),
        comma(), word("hotkey_settings"@), colon(), word(c.hotkey_settings),
        chunk(seq!['}']),
    ]
}

/// The one-line form of the settings, as tokens.
spec fn line_tokens(c: ConfigView) -> Seq<Token> {
    line_head() + line_item_tokens(c.index_paths) + line_middle(c) + line_item_tokens(
        c.exclude_patterns,
    ) + line_tail(c)
}

proof fn lemma_line_lit_head()
    ensures
        "{\"index_paths\":["@ == token_text(chunk(seq!['{'])) + token_text(word("index_paths"@)) + token_text(open_list()),
{
    reveal_strlit("{\"index_paths\":[");
    reveal_strlit("index_paths");
    assert("{\"index_paths\":["@ =~= token_text(chunk(seq!['{'])) + token_text(word("index_paths"@)) + token_text(open_list()));
}

proof fn lemma_line_lit_pinyin()
    ensures
        "],\"enable_pinyin\":"@ == token_text(close_list()) + token_text(word("enable_pinyin"@)) + token_text(colon()),
{
    reveal_strlit("],\"enable_pinyin\":");
    reveal_strlit("enable_pinyin");
    assert("],\"enable_pinyin\":"@ =~= token_text(close_list()) + token_text(word("enable_pinyin"@)) + token_text(colon()));
}

proof fn lemma_line_lit_fuzzy()
    ensures
        ",\"enable_fuzzy\":"@ == token_text(comma()) + token_text(word("enable_fuzzy"@)) + token_text(colon()),
{
    reveal_strlit(",\"enable_fuzzy\":");
    reveal_strlit("enable_fuzzy");
    assert(",\"enable_fuzzy\":"@ =~= token_text(comma()) + token_text(word("enable_fuzzy"@)) + token_text(colon()));
}

proof fn lemma_line_lit_hidden()
    ensures
        ",\"show_hidden\":"@ == token_text(comma()) + token_text(word("show_hidden"@)) + token_text(colon()),
{
    reveal_strlit(",\"show_hidden\":");
    reveal_strlit("show_hidden");
    assert(",\"show_hidden\":"@ =~= token_text(comma()) + token_text(word("show_hidden"@)) + token_text(colon()));
}

proof fn lemma_line_lit_max()
    ensures
        ",\"max_results\":"@ == token_text(comma()) + token_text(word("max_results"@)) + token_text(colon()),
{
    reveal_strlit(",\"max_results\":");
    reveal_strlit("max_results");
    assert(",\"max_results\":"@ =~= token_text(comma()) + token_text(word("max_results"@)) + token_text(colon()));
}

proof fn lemma_line_lit_auto()
    ensures
        ",\"auto_index\":"@ == token_text(comma()) + token_text(word("auto_index"@)) + token_text(colon()),
{
    reveal_strlit(",\"auto_index\":");
    reveal_strlit("auto_index");
    assert(",\"auto_index\":"@ =~= token_text(comma()) + token_text(word("auto_index"@)) + token_text(colon()));
}

proof fn lemma_line_lit_theme()
    ensures
        ",\"theme\":\""@ == token_text(comma()) + token_text(word("theme"@)) + token_text(colon()) + seq!['"'],
{
    reveal_strlit(",\"theme\":\"");
    reveal_strlit("theme");
    assert(",\"theme\":\""@ =~= token_text(comma()) + token_text(word("theme"@)) + token_text(colon()) + seq!['"']);
}

proof fn lemma_line_lit_exclude()
    ensures
        "\",\"exclude_patterns\":["@ == seq!['"'] + token_text(comma()) + token_text(word("exclude_patterns"@)) + token_text(open_list()),
{
    reveal_strlit("\",\"exclude_patterns\":[");
    reveal_strlit("exclude_patterns");
    assert("\",\"exclude_patterns\":["@ =~= seq!['"'] + token_text(comma()) + token_text(word("exclude_patterns"@)) + token_text(open_list()));
}

proof fn lemma_line_lit_search()
    ensures
        "],\"hotkey_search\":\""@ == token_text(close_list()) + token_text(word("hotkey_search"@)) + token_text(colon()) + seq!['"'],
{
    reveal_strlit("],\"hotkey_search\":\"");
    reveal_strlit("hotkey_search");
    assert("],\"hotkey_search\":\""@ =~= token_text(close_list()) + token_text(word("hotkey_search"@)) + token_text(colon()) + seq!['"']);
}

proof fn lemma_line_lit_settings()
    ensures
        "\",\"hotkey_settings\":\""@ == seq!['"'] + token_text(comma()) + token_text(word("hotkey_settings"@)) + token_text(colon()) + seq!['"'],
{
    reveal_strlit("\",\"hotkey_settings\":\"");
    reveal_strlit("hotkey_settings");
    assert("\",\"hotkey_settings\":\""@ =~= seq!['"'] + token_text(comma()) + token_text(word("hotkey_settings"@)) + token_text(colon()) + seq!['"']);
}

/// The text between the two lists, as the writer puts it together.
spec fn line_middle_text(c: ConfigView) -> Seq<char> {
    "],\"enable_pinyin\":"@ + flag(c.enable_pinyin) + ",\"enable_fuzzy\":"@ + flag(
        c.enable_fuzzy,
    ) + ",\"show_hidden\":"@ + flag(c.show_hidden) + ",\"max_results\":"@ + decimal(
        c.max_results as nat,
    ) + ",\"auto_index\":"@ + flag(c.auto_index) + ",\"theme\":\""@ + c.theme
        + "\",\"exclude_patterns\":["@
}

spec fn line_tail_text(c: ConfigView) -> Seq<char> {
    "],\"hotkey_search\":\""@ + c.hotkey_search + "\",\"hotkey_settings\":\""@
        + c.hotkey_settings + seq!['"', '}']
}

proof fn lemma_line_theme_text(c: ConfigView)
    ensures
        render(line_theme(c)) == ",\"theme\":\""@ + c.theme
            + "\",\"exclude_patterns\":["@,
{
    let m = line_theme(c);
    lemma_render_from(m, 0);
    lemma_render_from(m, 1);
    lemma_render_from(m, 2);
    lemma_render_from(m, 3);
    lemma_render_from(m, 4);
    lemma_render_from(m, 5);
    lemma_render_from(m, 6);
    lemma_render_from(m, 7);
    lemma_line_lit_theme();
    lemma_line_lit_exclude();
    assert(render(m) =~= ",\"theme\":\""@ + c.theme + "\",\"exclude_patterns\":["@);
}

#[verifier::spinoff_prover]
proof fn lemma_line_middle_text(c: ConfigView)
    ensures
        render(line_middle(c)) == line_middle_text(c),
{
    let g1 = line_field(close_list(), "enable_pinyin"@, flag(c.enable_pinyin));
    let g2 = line_field(comma(), "enable_fuzzy"@, flag(c.enable_fuzzy));
    let g3 = line_field(comma(), "show_hidden"@, flag(c.show_hidden));
    let g4 = line_field(comma(), "max_results"@, decimal(c.max_results as nat));
    let g5 = line_field(comma(), "auto_index"@, flag(c.auto_index));
    let g6 = line_theme(c);
    lemma_line_field_text(close_list(), "enable_pinyin"@, flag(c.enable_pinyin));
    lemma_line_field_text(comma(), "enable_fuzzy"@, flag(c.enable_fuzzy));
    lemma_line_field_text(comma(), "show_hidden"@, flag(c.show_hidden));
    lemma_line_field_text(comma(), "max_results"@, decimal(c.max_results as nat));
    lemma_line_field_text(comma(), "auto_index"@, flag(c.auto_index));
    lemma_line_theme_text(c);
    lemma_line_lit_pinyin();
    lemma_line_lit_fuzzy();
    lemma_line_lit_hidden();
    lemma_line_lit_max();
    lemma_line_lit_auto();
    lemma_render_concat(g1, g2);
    lemma_render_concat(g1 + g2, g3);
    lemma_render_concat(g1 + g2 + g3, g4);
    lemma_render_concat(g1 + g2 + g3 + g4, g5);
    lemma_render_concat(g1 + g2 + g3 + g4 + g5, g6);
    assert(render(line_middle(c)) =~= line_middle_text(c));
}

proof fn lemma_line_tail_text(c: ConfigView)
    ensures
        render(line_tail(c)) == line_tail_text(c),
{
    let m = line_tail(c);
    lemma_render_from(m, 0);
    lemma_render_from(m, 1);
    lemma_render_from(m, 2);
    lemma_render_from(m, 3);
    lemma_render_from(m, 4);
    lemma_render_from(m, 5);
    lemma_render_from(m, 6);
    lemma_render_from(m, 7);
    lemma_render_from(m, 8);
    lemma_render_from(m, 9);
    lemma_line_lit_search();
    lemma_line_lit_settings();
    assert(render(m) =~= line_tail_text(c));
}

proof fn lemma_line_field_ok(sep: Token, key: Seq<char>, v: Seq<char>)
    requires
        chunk_ok(sep),
        key_ok(key),
        chunk_ok(chunk(v)),
    ensures
        tokens_ok(line_field(sep, key, v)),
{
    lemma_line_chunks_ok();
    lemma_word_ok(key);
    let ts = line_field(sep, key, v);
    assert forall|i: int| 0 <= i < ts.len() implies chunk_ok(#[trigger] ts[i]) || (ts[i].word
        && crate::json_tokens::lacks(ts[i].text, '"')) by {
        if i == 1 {
            assert(ts[1] == word(key));
        }
    }
    lemma_tokens_ok_each(ts);
}

proof fn lemma_line_tokens_ok(c: ConfigView)
    requires
        written_config(c),
    ensures
        tokens_ok(line_tokens(c)),
{
    lemma_setting_keys();
    lemma_line_chunks_ok();
    lemma_key_index_paths();
    lemma_key_enable_pinyin();
    lemma_key_enable_fuzzy();
    lemma_key_show_hidden();
    lemma_key_max_results();
    lemma_key_auto_index();
    lemma_key_theme();
    lemma_key_exclude_patterns();
    lemma_key_hotkey_search();
    lemma_key_hotkey_settings();
    lemma_word_ok("index_paths"@);
    lemma_word_ok("theme"@);
    lemma_word_ok("exclude_patterns"@);
    lemma_word_ok("hotkey_search"@);
    lemma_word_ok("hotkey_settings"@);
    lemma_plain_word_ok(c.theme);
    lemma_plain_word_ok(c.hotkey_search);
    lemma_plain_word_ok(c.hotkey_settings);
    let h = line_head();
    assert forall|i: int| 0 <= i < h.len() implies chunk_ok(#[trigger] h[i]) || (h[i].word
        && crate::json_tokens::lacks(h[i].text, '"')) by {}
    lemma_tokens_ok_each(h);
    lemma_line_item_tokens(c.index_paths, Seq::<char>::empty());
    lemma_line_item_tokens(c.exclude_patterns, Seq::<char>::empty());
    lemma_flag_digits(c.enable_pinyin);
    lemma_flag_digits(c.enable_fuzzy);
    lemma_flag_digits(c.show_hidden);
    lemma_flag_digits(c.auto_index);
    crate::text::lemma_decimal_digits(c.max_results as nat);
    lemma_value_chunk_ok(flag(c.enable_pinyin));
    lemma_value_chunk_ok(flag(c.enable_fuzzy));
    lemma_value_chunk_ok(flag(c.show_hidden));
    lemma_value_chunk_ok(flag(c.auto_index));
    assert forall|i: int| 0 <= i < decimal(c.max_results as nat).len() implies #[trigger] crate::text::is_digit(
        decimal(c.max_results as nat)[i],
    ) by {}
    lemma_value_chunk_ok(decimal(c.max_results as nat));
    let g1 = line_field(close_list(), "enable_pinyin"@, flag(c.enable_pinyin));
    let g2 = line_field(comma(), "enable_fuzzy"@, flag(c.enable_fuzzy));
    let g3 = line_field(comma(), "show_hidden"@, flag(c.show_hidden));
    let g4 = line_field(comma(), "max_results"@, decimal(c.max_results as nat));
    let g5 = line_field(comma(), "auto_index"@, flag(c.auto_index));
    lemma_line_field_ok(close_list(), "enable_pinyin"@, flag(c.enable_pinyin));
    lemma_line_field_ok(comma(), "enable_fuzzy"@, flag(c.enable_fuzzy));
    lemma_line_field_ok(comma(), "show_hidden"@, flag(c.show_hidden));
    lemma_line_field_ok(comma(), "max_results"@, decimal(c.max_results as nat));
    lemma_line_field_ok(comma(), "auto_index"@, flag(c.auto_index));
    let th = line_theme(c);
    assert forall|i: int| 0 <= i < th.len() implies chunk_ok(#[trigger] th[i]) || (th[i].word
        && crate::json_tokens::lacks(th[i].text, '"')) by {}
    lemma_tokens_ok_each(th);
    let tl = line_tail(c);
    assert forall|i: int| 0 <= i < tl.len() implies chunk_ok(#[trigger] tl[i]) || (tl[i].word
        && crate::json_tokens::lacks(tl[i].text, '"')) by {}
    lemma_tokens_ok_each(tl);
    lemma_tokens_ok_concat(g1, g2);
    lemma_tokens_ok_concat(g1 + g2, g3);
    lemma_tokens_ok_concat(g1 + g2 + g3, g4);
    lemma_tokens_ok_concat(g1 + g2 + g3 + g4, g5);
    lemma_tokens_ok_concat(g1 + g2 + g3 + g4 + g5, th);
    let a = line_head();
    let b = line_item_tokens(c.index_paths);
    let d = line_middle(c);
    let e = line_item_tokens(c.exclude_patterns);
    lemma_tokens_ok_concat(a, b);
    lemma_tokens_ok_concat(a + b, d);
    lemma_tokens_ok_concat(a + b + d, e);
    lemma_tokens_ok_concat(a + b + d + e, tl);
}

/// What the reader needs to know of the settings' tokens for the key at `i`: no text
/// written before that key names it.
proof fn lemma_line_read_setup(c: ConfigView, i: int)
    requires
        written_config(c),
        0 <= i < 10,
    ensures
        tokens_ok(line_tokens(c)),
        key_ok(setting_keys()[i]),
        i > 0 ==> no_word(line_item_tokens(c.index_paths), setting_keys()[i]),
        i > 7 ==> no_word(line_item_tokens(c.exclude_patterns), setting_keys()[i]),
        i > 6 ==> c.theme != setting_keys()[i],
        i > 8 ==> c.hotkey_search != setting_keys()[i],
        !is_ws(render(line_tokens(c)).last()),
        forall|j: int| 0 <= j < 10 && j != i ==> #[trigger] setting_keys()[j] != setting_keys()[i],
{
    lemma_line_tokens_ok(c);
    lemma_setting_keys();
    if i > 0 {
        lemma_items_not_key(c.index_paths, 0, i);
        lemma_line_item_tokens(c.index_paths, setting_keys()[i]);
    }
    if i > 7 {
        lemma_items_not_key(c.exclude_patterns, 7, i);
        lemma_line_item_tokens(c.exclude_patterns, setting_keys()[i]);
    }
    if i > 6 {
        lemma_plain_not_key(c.theme, 6, i);
    }
    if i > 8 {
        lemma_plain_not_key(c.hotkey_search, 8, i);
    }
    lemma_line_tokens(c);
    assert forall|j: int| 0 <= j < 10 && j != i implies #[trigger] setting_keys()[j] != setting_keys()[i] by {}
}

proof fn lemma_line_read_enable_pinyin(c: ConfigView)
    requires
        written_config(c),
    ensures
        json_value(render(line_tokens(c)), "enable_pinyin"@) == Some(flag(c.enable_pinyin)),
{
    lemma_key_index_paths();
    lemma_key_enable_pinyin();
    lemma_key_enable_fuzzy();
    lemma_key_show_hidden();
    lemma_key_max_results();
    lemma_key_auto_index();
    lemma_key_theme();
    lemma_key_exclude_patterns();
    lemma_key_hotkey_search();
    lemma_key_hotkey_settings();
    lemma_line_read_setup(c, 1);
    let k = "enable_pinyin"@;
    let v = flag(c.enable_pinyin);
    let a = line_head();
    let b = line_item_tokens(c.index_paths);
    let g1 = line_field(close_list(), "enable_pinyin"@, flag(c.enable_pinyin));
    let g2 = line_field(comma(), "enable_fuzzy"@, flag(c.enable_fuzzy));
    let g3 = line_field(comma(), "show_hidden"@, flag(c.show_hidden));
    let g4 = line_field(comma(), "max_results"@, decimal(c.max_results as nat));
    let g5 = line_field(comma(), "auto_index"@, flag(c.auto_index));
    let th = line_theme(c);
    let e = line_item_tokens(c.exclude_patterns);
    let tl = line_tail(c);
    let pre = a + b + seq![close_list()];
    let rest = g2 + g3 + g4 + g5 + th + e + tl;
    assert(line_tokens(c) =~= pre + seq![word(k)] + (seq![colon(), chunk(v)] + rest));
    assert(no_word(a, k));
    assert(no_word(seq![close_list()], k));
    lemma_no_word_concat(a, b, k);
    lemma_no_word_concat(a + b, seq![close_list()], k);
    assert forall|j: int| 0 <= j < v.len() implies #[trigger] crate::text::is_digit(v[j]) by {}
    assert(rest[0] == comma());
    lemma_line_lookup_bare(pre, k, v, rest);
}

proof fn lemma_line_read_enable_fuzzy(c: ConfigView)
    requires
        written_config(c),
    ensures
        json_value(render(line_tokens(c)), "enable_fuzzy"@) == Some(flag(c.enable_fuzzy)),
{
    lemma_key_index_paths();
    lemma_key_enable_pinyin();
    lemma_key_enable_fuzzy();
    lemma_key_show_hidden();
    lemma_key_max_results();
    lemma_key_auto_index();
    lemma_key_theme();
    lemma_key_exclude_patterns();
    lemma_key_hotkey_search();
    lemma_key_hotkey_settings();
    lemma_line_read_setup(c, 2);
    let k = "enable_fuzzy"@;
    let v = flag(c.enable_fuzzy);
    let a = line_head();
    let b = line_item_tokens(c.index_paths);
    let g1 = line_field(close_list(), "enable_pinyin"@, flag(c.enable_pinyin));
    let g2 = line_field(comma(), "enable_fuzzy"@, flag(c.enable_fuzzy));
    let g3 = line_field(comma(), "show_hidden"@, flag(c.show_hidden));
    let g4 = line_field(comma(), "max_results"@, decimal(c.max_results as nat));
    let g5 = line_field(comma(), "auto_index"@, flag(c.auto_index));
    let th = line_theme(c);
    let e = line_item_tokens(c.exclude_patterns);
    let tl = line_tail(c);
    let pre = a + b + g1 + seq![comma()];
    let rest = g3 + g4 + g5 + th + e + tl;
    assert(line_tokens(c) =~= pre + seq![word(k)] + (seq![colon(), chunk(v)] + rest));
    assert(no_word(a, k));
    assert(no_word(g1, k));
    assert(no_word(seq![comma()], k));
    lemma_no_word_concat(a, b, k);
    lemma_no_word_concat(a + b, g1, k);
    lemma_no_word_concat(a + b + g1, seq![comma()], k);
    assert forall|j: int| 0 <= j < v.len() implies #[trigger] crate::text::is_digit(v[j]) by {}
    assert(rest[0] == comma());
    lemma_line_lookup_bare(pre, k, v, rest);
}

proof fn lemma_line_read_show_hidden(c: ConfigView)
    requires
        written_config(c),
    ensures
        json_value(render(line_tokens(c)), "show_hidden"@) == Some(flag(c.show_hidden)),
{
    lemma_key_index_paths();
    lemma_key_enable_pinyin();
    lemma_key_enable_fuzzy();
    lemma_key_show_hidden();
    lemma_key_max_results();
    lemma_key_auto_index();
    lemma_key_theme();
    lemma_key_exclude_patterns();
    lemma_key_hotkey_search();
    lemma_key_hotkey_settings();
    lemma_line_read_setup(c, 3);
    let k = "show_hidden"@;
    let v = flag(c.show_hidden);
    let a = line_head();
    let b = line_item_tokens(c.index_paths);
    let g1 = line_field(close_list(), "enable_pinyin"@, flag(c.enable_pinyin));
    let g2 = line_field(comma(), "enable_fuzzy"@, flag(c.enable_fuzzy));
    let g3 = line_field(comma(), "show_hidden"@, flag(c.show_hidden));
    let g4 = line_field(comma(), "max_results"@, decimal(c.max_results as nat));
    let g5 = line_field(comma(), "auto_index"@, flag(c.auto_index));
    let th = line_theme(c);
    let e = line_item_tokens(c.exclude_patterns);
    let tl = line_tail(c);
    let pre = a + b + g1 + g2 + seq![comma()];
    let rest = g4 + g5 + th + e + tl;
    assert(line_tokens(c) =~= pre + seq![word(k)] + (seq![colon(), chunk(v)] + rest));
    assert(no_word(a, k));
    assert(no_word(g1, k));
    assert(no_word(g2, k));
    assert(no_word(seq![comma()], k));
    lemma_no_word_concat(a, b, k);
    lemma_no_word_concat(a + b, g1, k);
    lemma_no_word_concat(a + b + g1, g2, k);
    lemma_no_word_concat(a + b + g1 + g2, seq![comma()], k);
    assert forall|j: int| 0 <= j < v.len() implies #[trigger] crate::text::is_digit(v[j]) by {}
    assert(rest[0] == comma());
    lemma_line_lookup_bare(pre, k, v, rest);
}

proof fn lemma_line_read_max_results(c: ConfigView)
    requires
        written_config(c),
    ensures
        json_value(render(line_tokens(c)), "max_results"@) == Some(decimal(c.max_results as nat)),
{
    lemma_key_index_paths();
    lemma_key_enable_pinyin();
    lemma_key_enable_fuzzy();
    lemma_key_show_hidden();
    lemma_key_max_results();
    lemma_key_auto_index();
    lemma_key_theme();
    lemma_key_exclude_patterns();
    lemma_key_hotkey_search();
    lemma_key_hotkey_settings();
    lemma_line_read_setup(c, 4);
    let k = "max_results"@;
    let v = decimal(c.max_results as nat);
    let a = line_head();
    let b = line_item_tokens(c.index_paths);
    let g1 = line_field(close_list(), "enable_pinyin"@, flag(c.enable_pinyin));
    let g2 = line_field(comma(), "enable_fuzzy"@, flag(c.enable_fuzzy));
    let g3 = line_field(comma(), "show_hidden"@, flag(c.show_hidden));
    let g4 = line_field(comma(), "max_results"@, decimal(c.max_results as nat));
    let g5 = line_field(comma(), "auto_index"@, flag(c.auto_index));
    let th = line_theme(c);
    let e = line_item_tokens(c.exclude_patterns);
    let tl = line_tail(c);
    let pre = a + b + g1 + g2 + g3 + seq![comma()];
    let rest = g5 + th + e + tl;
    assert(line_tokens(c) =~= pre + seq![word(k)] + (seq![colon(), chunk(v)] + rest));
    assert(no_word(a, k));
    assert(no_word(g1, k));
    assert(no_word(g2, k));
    assert(no_word(g3, k));
    assert(no_word(seq![comma()], k));
    lemma_no_word_concat(a, b, k);
    lemma_no_word_concat(a + b, g1, k);
    lemma_no_word_concat(a + b + g1, g2, k);
    lemma_no_word_concat(a + b + g1 + g2, g3, k);
    lemma_no_word_concat(a + b + g1 + g2 + g3, seq![comma()], k);
    crate::text::lemma_decimal_digits(c.max_results as nat);
    assert forall|j: int| 0 <= j < v.len() implies #[trigger] crate::text::is_digit(v[j]) by {}
    assert(rest[0] == comma());
    lemma_line_lookup_bare(pre, k, v, rest);
}

proof fn lemma_line_read_auto_index(c: ConfigView)
    requires
        written_config(c),
    ensures
        json_value(render(line_tokens(c)), "auto_index"@) == Some(flag(c.auto_index)),
{
    lemma_key_index_paths();
    lemma_key_enable_pinyin();
    lemma_key_enable_fuzzy();
    lemma_key_show_hidden();
    lemma_key_max_results();
    lemma_key_auto_index();
    lemma_key_theme();
    lemma_key_exclude_patterns();
    lemma_key_hotkey_search();
    lemma_key_hotkey_settings();
    lemma_line_read_setup(c, 5);
    let k = "auto_index"@;
    let v = flag(c.auto_index);
    let a = line_head();
    let b = line_item_tokens(c.index_paths);
    let g1 = line_field(close_list(), "enable_pinyin"@, flag(c.enable_pinyin));
    let g2 = line_field(comma(), "enable_fuzzy"@, flag(c.enable_fuzzy));
    let g3 = line_field(comma(), "show_hidden"@, flag(c.show_hidden));
    let g4 = line_field(comma(), "max_results"@, decimal(c.max_results as nat));
    let g5 = line_field(comma(), "auto_index"@, flag(c.auto_index));
    let th = line_theme(c);
    let e = line_item_tokens(c.exclude_patterns);
    let tl = line_tail(c);
    let pre = a + b + g1 + g2 + g3 + g4 + seq![comma()];
    let rest = th + e + tl;
    assert(line_tokens(c) =~= pre + seq![word(k)] + (seq![colon(), chunk(v)] + rest));
    assert(no_word(a, k));
    assert(no_word(g1, k));
    assert(no_word(g2, k));
    assert(no_word(g3, k));
    assert(no_word(g4, k));
    assert(no_word(seq![comma()], k));
    lemma_no_word_concat(a, b, k);
    lemma_no_word_concat(a + b, g1, k);
    lemma_no_word_concat(a + b + g1, g2, k);
    lemma_no_word_concat(a + b + g1 + g2, g3, k);
    lemma_no_word_concat(a + b + g1 + g2 + g3, g4, k);
    lemma_no_word_concat(a + b + g1 + g2 + g3 + g4, seq![comma()], k);
    assert forall|j: int| 0 <= j < v.len() implies #[trigger] crate::text::is_digit(v[j]) by {}
    assert(rest[0] == comma());
    lemma_line_lookup_bare(pre, k, v, rest);
}

proof fn lemma_line_read_index_paths(c: ConfigView)
    requires
        written_config(c),
    ensures
        json_array(render(line_tokens(c)), "index_paths"@) == c.index_paths,
{
    lemma_key_index_paths();
    lemma_key_enable_pinyin();
    lemma_key_enable_fuzzy();
    lemma_key_show_hidden();
    lemma_key_max_results();
    lemma_key_auto_index();
    lemma_key_theme();
    lemma_key_exclude_patterns();
    lemma_key_hotkey_search();
    lemma_key_hotkey_settings();
    lemma_line_read_setup(c, 0);
    let k = "index_paths"@;
    let a = line_head();
    let b = line_item_tokens(c.index_paths);
    let g1 = line_field(close_list(), "enable_pinyin"@, flag(c.enable_pinyin));
    let g2 = line_field(comma(), "enable_fuzzy"@, flag(c.enable_fuzzy));
    let g3 = line_field(comma(), "show_hidden"@, flag(c.show_hidden));
    let g4 = line_field(comma(), "max_results"@, decimal(c.max_results as nat));
    let g5 = line_field(comma(), "auto_index"@, flag(c.auto_index));
    let th = line_theme(c);
    let e = line_item_tokens(c.exclude_patterns);
    let tl = line_tail(c);
    let pre = seq![chunk(seq!['{'])];
    let rest = g1 + g2 + g3 + g4 + g5 + th + e + tl;
    assert(line_tokens(c) =~= pre + seq![word(k)] + (seq![open_list()] + b + rest));
    assert(no_word(pre, k));
    assert(rest[0] == close_list());
    lemma_line_lookup_list(pre, k, c.index_paths, rest);
}

proof fn lemma_line_read_theme(c: ConfigView)
    requires
        written_config(c),
    ensures
        json_value(render(line_tokens(c)), "theme"@) == Some(c.theme),
{
    lemma_key_index_paths();
    lemma_key_enable_pinyin();
    lemma_key_enable_fuzzy();
    lemma_key_show_hidden();
    lemma_key_max_results();
    lemma_key_auto_index();
    lemma_key_theme();
    lemma_key_exclude_patterns();
    lemma_key_hotkey_search();
    lemma_key_hotkey_settings();
    lemma_line_read_setup(c, 6);
    let k = "theme"@;
    let a = line_head();
    let b = line_item_tokens(c.index_paths);
    let g1 = line_field(close_list(), "enable_pinyin"@, flag(c.enable_pinyin));
    let g2 = line_field(comma(), "enable_fuzzy"@, flag(c.enable_fuzzy));
    let g3 = line_field(comma(), "show_hidden"@, flag(c.show_hidden));
    let g4 = line_field(comma(), "max_results"@, decimal(c.max_results as nat));
    let g5 = line_field(comma(), "auto_index"@, flag(c.auto_index));
    let th = line_theme(c);
    let e = line_item_tokens(c.exclude_patterns);
    let tl = line_tail(c);
    let pre = a + b + g1 + g2 + g3 + g4 + g5 + seq![comma()];
    let rest = seq![comma(), word("exclude_patterns"@), open_list()] + e + tl;
    assert(line_tokens(c) =~= pre + seq![word(k)] + (seq![colon(), word(c.theme)] + rest));
    assert(no_word(a, k));
    assert(no_word(g1, k));
    assert(no_word(g2, k));
    assert(no_word(g3, k));
    assert(no_word(g4, k));
    assert(no_word(g5, k));
    assert(no_word(seq![comma()], k));
    lemma_no_word_concat(a, b, k);
    lemma_no_word_concat(a + b, g1, k);
    lemma_no_word_concat(a + b + g1, g2, k);
    lemma_no_word_concat(a + b + g1 + g2, g3, k);
    lemma_no_word_concat(a + b + g1 + g2 + g3, g4, k);
    lemma_no_word_concat(a + b + g1 + g2 + g3 + g4, g5, k);
    lemma_no_word_concat(a + b + g1 + g2 + g3 + g4 + g5, seq![comma()], k);
    lemma_plain_word_ok(c.theme);
    lemma_line_lookup_quoted(pre, k, c.theme, rest);
}

proof fn lemma_line_read_exclude_patterns(c: ConfigView)
    requires
        written_config(c),
    ensures
        json_array(render(line_tokens(c)), "exclude_patterns"@) == c.exclude_patterns,
{
    lemma_key_index_paths();
    lemma_key_enable_pinyin();
    lemma_key_enable_fuzzy();
    lemma_key_show_hidden();
    lemma_key_max_results();
    lemma_key_auto_index();
    lemma_key_theme();
    lemma_key_exclude_patterns();
    lemma_key_hotkey_search();
    lemma_key_hotkey_settings();
    lemma_line_read_setup(c, 7);
    let k = "exclude_patterns"@;
    let a = line_head();
    let b = line_item_tokens(c.index_paths);
    let g1 = line_field(close_list(), "enable_pinyin"@, flag(c.enable_pinyin));
    let g2 = line_field(comma(), "enable_fuzzy"@, flag(c.enable_fuzzy));
    let g3 = line_field(comma(), "show_hidden"@, flag(c.show_hidden));
    let g4 = line_field(comma(), "max_results"@, decimal(c.max_results as nat));
    let g5 = line_field(comma(), "auto_index"@, flag(c.auto_index));
    let th = line_theme(c);
    let e = line_item_tokens(c.exclude_patterns);
    let tl = line_tail(c);
    let th0 = seq![comma(), word("theme"@), colon(), word(c.theme), comma()];
    let pre = a + b + g1 + g2 + g3 + g4 + g5 + th0;
    assert(line_tokens(c) =~= pre + seq![word(k)] + (seq![open_list()] + e + tl));
    assert(no_word(a, k));
    assert(no_word(g1, k));
    assert(no_word(g2, k));
    assert(no_word(g3, k));
    assert(no_word(g4, k));
    assert(no_word(g5, k));
    assert(no_word(th0, k));
    lemma_no_word_concat(a, b, k);
    lemma_no_word_concat(a + b, g1, k);
    lemma_no_word_concat(a + b + g1, g2, k);
    lemma_no_word_concat(a + b + g1 + g2, g3, k);
    lemma_no_word_concat(a + b + g1 + g2 + g3, g4, k);
    lemma_no_word_concat(a + b + g1 + g2 + g3 + g4, g5, k);
    lemma_no_word_concat(a + b + g1 + g2 + g3 + g4 + g5, th0, k);
    assert(tl[0] == close_list());
    lemma_line_lookup_list(pre, k, c.exclude_patterns, tl);
}

proof fn lemma_line_read_hotkey_search(c: ConfigView)
    requires
        written_config(c),
    ensures
        json_value(render(line_tokens(c)), "hotkey_search"@) == Some(c.hotkey_search),
{
    lemma_key_index_paths();
    lemma_key_enable_pinyin();
    lemma_key_enable_fuzzy();
    lemma_key_show_hidden();
    lemma_key_max_results();
    lemma_key_auto_index();
    lemma_key_theme();
    lemma_key_exclude_patterns();
    lemma_key_hotkey_search();
    lemma_key_hotkey_settings();
    lemma_line_read_setup(c, 8);
    let k = "hotkey_search"@;
    let a = line_head();
    let b = line_item_tokens(c.index_paths);
    let g1 = line_field(close_list(), "enable_pinyin"@, flag(c.enable_pinyin));
    let g2 = line_field(comma(), "enable_fuzzy"@, flag(c.enable_fuzzy));
    let g3 = line_field(comma(), "show_hidden"@, flag(c.show_hidden));
    let g4 = line_field(comma(), "max_results"@, decimal(c.max_results as nat));
    let g5 = line_field(comma(), "auto_index"@, flag(c.auto_index));
    let th = line_theme(c);
    let e = line_item_tokens(c.exclude_patterns);
    let tl = line_tail(c);
    let pre = a + b + g1 + g2 + g3 + g4 + g5 + th + e + seq![close_list()];
    let rest = seq![comma(), word("hotkey_settings"@), colon(), word(c.hotkey_settings), chunk(seq!['}'])];
    assert(line_tokens(c) =~= pre + seq![word(k)] + (seq![colon(), word(c.hotkey_search)] + rest));
    assert(no_word(a, k));
    assert(no_word(g1, k));
    assert(no_word(g2, k));
    assert(no_word(g3, k));
    assert(no_word(g4, k));
    assert(no_word(g5, k));
    assert(no_word(th, k));
    assert(no_word(seq![close_list()], k));
    lemma_no_word_concat(a, b, k);
    lemma_no_word_concat(a + b, g1, k);
    lemma_no_word_concat(a + b + g1, g2, k);
    lemma_no_word_concat(a + b + g1 + g2, g3, k);
    lemma_no_word_concat(a + b + g1 + g2 + g3, g4, k);
    lemma_no_word_concat(a + b + g1 + g2 + g3 + g4, g5, k);
    lemma_no_word_concat(a + b + g1 + g2 + g3 + g4 + g5, th, k);
    lemma_no_word_concat(a + b + g1 + g2 + g3 + g4 + g5 + th, e, k);
    lemma_no_word_concat(a + b + g1 + g2 + g3 + g4 + g5 + th + e, seq![close_list()], k);
    lemma_plain_word_ok(c.hotkey_search);
    lemma_line_lookup_quoted(pre, k, c.hotkey_search, rest);
}

proof fn lemma_line_read_hotkey_settings(c: ConfigView)
    requires
        written_config(c),
    ensures
        json_value(render(line_tokens(c)), "hotkey_settings"@) == Some(c.hotkey_settings),
{
    lemma_key_index_paths();
    lemma_key_enable_pinyin();
    lemma_key_enable_fuzzy();
    lemma_key_show_hidden();
    lemma_key_max_results();
    lemma_key_auto_index();
    lemma_key_theme();
    lemma_key_exclude_patterns();
    lemma_key_hotkey_search();
    lemma_key_hotkey_settings();
    lemma_line_read_setup(c, 9);
    let k = "hotkey_settings"@;
    let a = line_head();
    let b = line_item_tokens(c.index_paths);
    let g1 = line_field(close_list(), "enable_pinyin"@, flag(c.enable_pinyin));
    let g2 = line_field(comma(), "enable_fuzzy"@, flag(c.enable_fuzzy));
    let g3 = line_field(comma(), "show_hidden"@, flag(c.show_hidden));
    let g4 = line_field(comma(), "max_results"@, decimal(c.max_results as nat));
    let g5 = line_field(comma(), "auto_index"@, flag(c.auto_index));
    let th = line_theme(c);
    let e = line_item_tokens(c.exclude_patterns);
    let tl = line_tail(c);
    let tl0 = seq![close_list(), word("hotkey_search"@), colon(), word(c.hotkey_search), comma()];
    let pre = a + b + g1 + g2 + g3 + g4 + g5 + th + e + tl0;
    let rest = seq![chunk(seq!['}'])];
    assert(line_tokens(c) =~= pre + seq![word(k)] + (seq![colon(), word(c.hotkey_settings)] + rest));
    assert(no_word(a, k));
    assert(no_word(g1, k));
    assert(no_word(g2, k));
    assert(no_word(g3, k));
    assert(no_word(g4, k));
    assert(no_word(g5, k));
    assert(no_word(th, k));
    assert(no_word(tl0, k));
    lemma_no_word_concat(a, b, k);
    lemma_no_word_concat(a + b, g1, k);
    lemma_no_word_concat(a + b + g1, g2, k);
    lemma_no_word_concat(a + b + g1 + g2, g3, k);
    lemma_no_word_concat(a + b + g1 + g2 + g3, g4, k);
    lemma_no_word_concat(a + b + g1 + g2 + g3 + g4, g5, k);
    lemma_no_word_concat(a + b + g1 + g2 + g3 + g4 + g5, th, k);
    lemma_no_word_concat(a + b + g1 + g2 + g3 + g4 + g5 + th, e, k);
    lemma_no_word_concat(a + b + g1 + g2 + g3 + g4 + g5 + th + e, tl0, k);
    lemma_plain_word_ok(c.hotkey_settings);
    lemma_line_lookup_quoted(pre, k, c.hotkey_settings, rest);
}

proof fn lemma_line_chunks_ok()
    ensures
        chunk_ok(colon()),
        chunk_ok(comma()),
        chunk_ok(open_list()),
        chunk_ok(close_list()),
        chunk_ok(chunk(seq!['{'])),
        chunk_ok(chunk(seq!['}'])),
{
}

proof fn lemma_line_lit_end()
    ensures
        "\"}"@ == seq!['"'] + token_text(chunk(seq!['}'])),
{
    reveal_strlit("\"}");
    assert("\"}"@ =~= seq!['"'] + token_text(chunk(seq!['}'])));
}

/// The one-line form of settings whose texts are already escaped.
spec fn line_raw(c: ConfigView) -> Seq<char> {
    "{\"index_paths\":["@ + join_with(raw_items(c.index_paths, seq![]), seq![','])
        + "],\"enable_pinyin\":"@
        + flag(c.enable_pinyin)
        + ",\"enable_fuzzy\":"@
        + flag(c.enable_fuzzy)
        + ",\"show_hidden\":"@
        + flag(c.show_hidden)
        + ",\"max_results\":"@
        + decimal(c.max_results as nat)
        + ",\"auto_index\":"@
        + flag(c.auto_index)
        + ",\"theme\":\""@
        + c.theme
        + "\",\"exclude_patterns\":["@
        + join_with(raw_items(c.exclude_patterns, seq![]), seq![','])
        + "],\"hotkey_search\":\""@
        + c.hotkey_search
        + "\",\"hotkey_settings\":\""@
        + c.hotkey_settings + "\"}"@
}

/// The one-line form of written settings, regrouped: its head, first list, middle,
/// second list and tail.
proof fn lemma_line_parts(c: ConfigView)
    ensures
        line_raw(c) == "{\"index_paths\":["@ + join_with(raw_items(c.index_paths, seq![]), seq![',']) + line_middle_text(c) + join_with(raw_items(c.exclude_patterns, seq![]), seq![',']) + line_tail_text(c),
{
    lemma_line_lit_end();
    assert("\"}"@ =~= seq!['"', '}']);
    let p1 = "{\"index_paths\":["@ + join_with(raw_items(c.index_paths, seq![]), seq![',']);
    let m0 = "],\"enable_pinyin\":"@;
    let q0 = p1 + m0;
    let m1 = m0 + flag(c.enable_pinyin);
    lemma_assoc(p1, m0, flag(c.enable_pinyin));
    let q1 = p1 + m1;
    assert(q0 + flag(c.enable_pinyin) == q1);
    let m2 = m1 + ",\"enable_fuzzy\":"@;
    lemma_assoc(p1, m1, ",\"enable_fuzzy\":"@);
    let q2 = p1 + m2;
    assert(q1 + ",\"enable_fuzzy\":"@ == q2);
    let m3 = m2 + flag(c.enable_fuzzy);
    lemma_assoc(p1, m2, flag(c.enable_fuzzy));
    let q3 = p1 + m3;
    assert(q2 + flag(c.enable_fuzzy) == q3);
    let m4 = m3 + ",\"show_hidden\":"@;
    lemma_assoc(p1, m3, ",\"show_hidden\":"@);
    let q4 = p1 + m4;
    assert(q3 + ",\"show_hidden\":"@ == q4);
    let m5 = m4 + flag(c.show_hidden);
    lemma_assoc(p1, m4, flag(c.show_hidden));
    let q5 = p1 + m5;
    assert(q4 + flag(c.show_hidden) == q5);
    let m6 = m5 + ",\"max_results\":"@;
    lemma_assoc(p1, m5, ",\"max_results\":"@);
    let q6 = p1 + m6;
    assert(q5 + ",\"max_results\":"@ == q6);
    let m7 = m6 + decimal(c.max_results as nat);
    lemma_assoc(p1, m6, decimal(c.max_results as nat));
    let q7 = p1 + m7;
    assert(q6 + decimal(c.max_results as nat) == q7);
    let m8 = m7 + ",\"auto_index\":"@;
    lemma_assoc(p1, m7, ",\"auto_index\":"@);
    let q8 = p1 + m8;
    assert(q7 + ",\"auto_index\":"@ == q8);
    let m9 = m8 + flag(c.auto_index);
    lemma_assoc(p1, m8, flag(c.auto_index));
    let q9 = p1 + m9;
    assert(q8 + flag(c.auto_index) == q9);
    let m10 = m9 + ",\"theme\":\""@;
    lemma_assoc(p1, m9, ",\"theme\":\""@);
    let q10 = p1 + m10;
    assert(q9 + ",\"theme\":\""@ == q10);
    let m11 = m10 + c.theme;
    lemma_assoc(p1, m10, c.theme);
    let q11 = p1 + m11;
    assert(q10 + c.theme == q11);
    let m12 = m11 + "\",\"exclude_patterns\":["@;
    lemma_assoc(p1, m11, "\",\"exclude_patterns\":["@);
    let q12 = p1 + m12;
    assert(q11 + "\",\"exclude_patterns\":["@ == q12);
    assert(m12 == line_middle_text(c));
    let p2 = q12 + join_with(raw_items(c.exclude_patterns, seq![]), seq![',']);
    let t0 = "],\"hotkey_search\":\""@;
    let u0 = p2 + t0;
    let t1 = t0 + c.hotkey_search;
    lemma_assoc(p2, t0, c.hotkey_search);
    let u1 = p2 + t1;
    assert(u0 + c.hotkey_search == u1);
    let t2 = t1 + "\",\"hotkey_settings\":\""@;
    lemma_assoc(p2, t1, "\",\"hotkey_settings\":\""@);
    let u2 = p2 + t2;
    assert(u1 + "\",\"hotkey_settings\":\""@ == u2);
    let t3 = t2 + c.hotkey_settings;
    lemma_assoc(p2, t2, c.hotkey_settings);
    let u3 = p2 + t3;
    assert(u2 + c.hotkey_settings == u3);
    let t4 = t3 + seq!['"', '}'];
    lemma_assoc(p2, t3, seq!['"', '}']);
    let u4 = p2 + t4;
    assert(u3 + seq!['"', '}'] == u4);
    assert(t4 == line_tail_text(c));
    assert(line_raw(c) == u3 + "\"}"@);
}

/// The one-line form of written settings is the text of their tokens.
proof fn lemma_line_tokens(c: ConfigView)
    requires
        written_config(c),
    ensures
        render(line_tokens(c)) == line_raw(c),
        render(line_tokens(c)).len() > 0,
        render(line_tokens(c))[0] == '{',
        render(line_tokens(c)).last() == '}',
{
    let ip = c.index_paths;
    let ex = c.exclude_patterns;
    lemma_line_lit_head();
    lemma_render_seq3(line_head());
    lemma_line_item_tokens(ip, Seq::<char>::empty());
    lemma_line_item_tokens(ex, Seq::<char>::empty());
    lemma_line_middle_text(c);
    lemma_line_tail_text(c);
    lemma_line_parts(c);
    let a = line_head();
    let b = line_item_tokens(ip);
    let d = line_middle(c);
    let e = line_item_tokens(ex);
    let f = line_tail(c);
    lemma_render_concat(a, b);
    lemma_render_concat(a + b, d);
    lemma_render_concat(a + b + d, e);
    lemma_render_concat(a + b + d + e, f);
    let r = render(line_tokens(c));
    assert(r == line_raw(c));
    assert(r[0] == '{');
    assert(r.last() == line_tail_text(c).last());
}

/// The one-line form of settings reads back as the same settings, whenever their
/// texts are plain (see `plain_config`), as the indented form does.
pub proof fn lemma_config_line_roundtrip(c: ConfigView)
    requires
        plain_config(c),
    ensures
        config_from_json(config_json(c)) == Some(c),
{
    let r = escaped_config(c);
    lemma_escaped_items(c.index_paths);
    lemma_escaped_items(c.exclude_patterns);
    lemma_escaped_setting(c.theme);
    lemma_escaped_setting(c.hotkey_search);
    lemma_escaped_setting(c.hotkey_settings);
    lemma_escaped_items_not_later(c.index_paths, 0);
    lemma_escaped_items_not_later(c.exclude_patterns, 7);
    lemma_escaped_not_later(c.theme, 6);
    lemma_escaped_not_later(c.hotkey_search, 8);
    assert(written_config(r));
    lemma_raw_items(c.index_paths, seq![]);
    lemma_raw_items(c.exclude_patterns, seq![]);
    assert(line_raw(r) == config_json(c));
    lemma_line_tokens(r);
    let s = config_json(c);
    crate::json_tokens::lemma_trim_end_ws(s, Seq::<char>::empty());
    assert(s + Seq::<char>::empty() =~= s);
    crate::json_tokens::lemma_trim_start_ws(Seq::<char>::empty(), s);
    assert(Seq::<char>::empty() + s =~= s);
    assert(trim(s) == s);
    lemma_line_read_index_paths(r);
    lemma_line_read_enable_pinyin(r);
    lemma_line_read_enable_fuzzy(r);
    lemma_line_read_show_hidden(r);
    lemma_line_read_max_results(r);
    lemma_line_read_auto_index(r);
    lemma_line_read_theme(r);
    lemma_line_read_exclude_patterns(r);
    lemma_line_read_hotkey_search(r);
    lemma_line_read_hotkey_settings(r);
    lemma_flag_reads(c.enable_pinyin);
    lemma_flag_reads(c.enable_fuzzy);
    lemma_flag_reads(c.show_hidden);
    lemma_flag_reads(c.auto_index);
    crate::text::lemma_parse_u64_decimal(c.max_results as u64);
    assert(parse_usize_spec(decimal(c.max_results as nat)) == Some(c.max_results));
}

/// Saving settings and loading the saved file gives the same settings back, whenever
/// their texts are plain (see `plain_config`): no quote, not the name of a key written
/// after them, and list items not empty and without comma or `]`. Backslashes, as in
/// Windows paths, read back.
pub proof fn lemma_config_roundtrip(c: ConfigView)
    requires
        plain_config(c),
    ensures
        config_from_json(config_json_pretty(c)) == Some(c),
{
    let r = escaped_config(c);
    lemma_escaped_items(c.index_paths);
    lemma_escaped_items(c.exclude_patterns);
    lemma_escaped_setting(c.theme);
    lemma_escaped_setting(c.hotkey_search);
    lemma_escaped_setting(c.hotkey_settings);
    lemma_escaped_items_not_later(c.index_paths, 0);
    lemma_escaped_items_not_later(c.exclude_patterns, 7);
    lemma_escaped_not_later(c.theme, 6);
    lemma_escaped_not_later(c.hotkey_search, 8);
    assert(written_config(r));
    lemma_raw_items(c.index_paths, "    "@);
    lemma_raw_items(c.exclude_patterns, "    "@);
    assert(pretty_raw(r) == config_json_pretty(c));
    lemma_pretty_tokens(r);
    lemma_read_index_paths(r);
    lemma_read_enable_pinyin(r);
    lemma_read_enable_fuzzy(r);
    lemma_read_show_hidden(r);
    lemma_read_max_results(r);
    lemma_read_auto_index(r);
    lemma_read_theme(r);
    lemma_read_exclude_patterns(r);
    lemma_read_hotkey_search(r);
    lemma_read_hotkey_settings(r);
    lemma_flag_reads(c.enable_pinyin);
    lemma_flag_reads(c.enable_fuzzy);
    lemma_flag_reads(c.show_hidden);
    lemma_flag_reads(c.auto_index);
    crate::text::lemma_parse_u64_decimal(c.max_results as u64);
    assert(parse_usize_spec(decimal(c.max_results as nat)) == Some(c.max_results));
}

} // verus!
