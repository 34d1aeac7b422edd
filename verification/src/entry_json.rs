//! The one-line text form of a `FileEntry` that the index file stores, and
//! the field reader that takes it back apart.
use vstd::prelude::*;
use crate::text::{
    chars_of, decimal, decimal_int, find_char, fmt_i64, fmt_u64, index_of_char, parse_i64,
    parse_i64_spec, parse_u64, parse_u64_spec, push_all, push_str, slice_chars, split_char,
    split_chars, string_of, trim, trim_char, trim_char_chars, trim_chars, eq_str, is_ws,
    lemma_decimal_digits, lemma_index_of_char, lemma_index_of_char_first,
    lemma_parse_i64_decimal, lemma_parse_u64_decimal, lemma_split_cons, lemma_split_single,
    lemma_trim_char_noop, lemma_trim_noop, lemma_trim_quotes, strip_end, strip_start, is_digit,
    join_chars, join_with, lemma_split_join,
};
use crate::types::{FileEntry, FileEntryView};

verus! {

/// The escape of one character: backslash, quote, newline, carriage return and tab get a
/// backslash form.
pub open spec fn escape_char(c: char) -> Seq<char> {
    if c == '\\' {
        seq!['\\', '\\']
    } else if c == '"' {
        seq!['\\', '"']
    } else if c == '\n' {
        seq!['\\', 'n']
    } else if c == '\r' {
        seq!['\\', 'r']
    } else if c == '\t' {
        seq!['\\', 't']
    } else {
        seq![c]
    }
}

pub open spec fn json_escape_spec(s: Seq<char>) -> Seq<char>
    decreases s.len(),
{
    if s.len() == 0 {
        Seq::empty()
    } else {
        json_escape_spec(s.drop_last()) + escape_char(s.last())
    }
}

/// Escapes backslash, quote, newline, carriage return and tab.
pub fn json_escape_chars(s: &Vec<char>) -> (r: Vec<char>)
    ensures
        r@ == json_escape_spec(s@),
{
    let mut out: Vec<char> = Vec::new();
    let mut i: usize = 0;
    while i < s.len()
        invariant
            i <= s.len(),
            out@ == json_escape_spec(s@.take(i as int)),
        decreases s.len() - i,
    {
        assert(s@.take(i + 1).drop_last() =~= s@.take(i as int));
        let c = s[i];
        let ghost before = out@;
        if c == '\\' {
            out.push('\\');
            out.push('\\');
        } else if c == '"' {
            out.push('\\');
            out.push('"');
        } else if c == '\n' {
            out.push('\\');
            out.push('n');
        } else if c == '\r' {
            out.push('\\');
            out.push('r');
        } else if c == '\t' {
            out.push('\\');
            out.push('t');
        } else {
            out.push(c);
        }
        i = i + 1;
        assert(out@ =~= before + escape_char(c));
    }
    assert(s@.take(s.len() as int) =~= s@);
    out
}

pub fn json_escape(s: &str) -> (r: String)
    ensures
        r@ == json_escape_spec(s@),
{
    let cs = chars_of(s);
    let e = json_escape_chars(&cs);
    string_of(&e)
}

/// The character that a backslash form stands for: `n`, `r` and `t` name line feed,
/// carriage return and tab; any other character stands for itself.
pub open spec fn unescape_char(c: char) -> char {
    if c == 'n' {
        '\n'
    } else if c == 'r' {
        '\r'
    } else if c == 't' {
        '\t'
    } else {
        c
    }
}

/// Undoes the escapes, left to right: a backslash and the character after it become the
/// character it stands for; a backslash at the very end stays.
pub open spec fn json_unescape_spec(s: Seq<char>) -> Seq<char>
    decreases s.len(),
{
    if s.len() == 0 {
        Seq::empty()
    } else if s[0] == '\\' && s.len() >= 2 {
        seq![unescape_char(s[1])] + json_unescape_spec(s.skip(2))
    } else {
        seq![s[0]] + json_unescape_spec(s.drop_first())
    }
}

/// Undoes the backslash forms that `json_escape_chars` writes.
pub fn json_unescape_chars(s: &Vec<char>) -> (r: Vec<char>)
    ensures
        r@ == json_unescape_spec(s@),
{
    let mut out: Vec<char> = Vec::new();
    let mut i: usize = 0;
    assert(s@.skip(0) =~= s@);
    while i < s.len()
        invariant
            i <= s.len(),
            json_unescape_spec(s@) == out@ + json_unescape_spec(s@.skip(i as int)),
        decreases s.len() - i,
    {
        let ghost rest = s@.skip(i as int);
        assert(rest[0] == s[i as int]);
        if s[i] == '\\' && i + 1 < s.len() {
            let d = s[i + 1];
            assert(rest[1] == d);
            assert(rest.skip(2) =~= s@.skip(i + 2));
            let c = if d == 'n' {
                '\n'
            } else if d == 'r' {
                '\r'
            } else if d == 't' {
                '\t'
            } else {
                d
            };
            out.push(c);
            i = i + 2;
        } else {
            assert(rest.drop_first() =~= s@.skip(i + 1));
            out.push(s[i]);
            i = i + 1;
        }
    }
    assert(s@.skip(i as int) =~= Seq::<char>::empty());
    assert(out@ + Seq::<char>::empty() =~= out@);
    out
}

/// The escape of a text, taken from its first character.
pub proof fn lemma_escape_cons(c: char, t: Seq<char>)
    ensures
        json_escape_spec(seq![c] + t) == escape_char(c) + json_escape_spec(t),
    decreases t.len(),
{
    let s = seq![c] + t;
    if t.len() == 0 {
        assert(s =~= seq![c]);
        assert(s.drop_last() =~= Seq::<char>::empty());
        assert(json_escape_spec(s) == json_escape_spec(s.drop_last()) + escape_char(s.last()));
        assert(json_escape_spec(t) == Seq::<char>::empty());
        assert(escape_char(c) + Seq::<char>::empty() =~= escape_char(c));
    } else {
        lemma_escape_cons(c, t.drop_last());
        assert(s.drop_last() =~= seq![c] + t.drop_last());
        assert(s.last() == t.last());
        assert(json_escape_spec(s) == json_escape_spec(s.drop_last()) + escape_char(s.last()));
        assert(json_escape_spec(t) == json_escape_spec(t.drop_last()) + escape_char(t.last()));
        assert(escape_char(c) + json_escape_spec(t.drop_last()) + escape_char(t.last())
            =~= escape_char(c) + (json_escape_spec(t.drop_last()) + escape_char(t.last())));
    }
}

/// Undoing the escapes gives back the text that was escaped.
pub proof fn lemma_unescape_escape(s: Seq<char>)
    ensures
        json_unescape_spec(json_escape_spec(s)) == s,
    decreases s.len(),
{
    if s.len() > 0 {
        let c = s[0];
        let t = s.drop_first();
        assert(s =~= seq![c] + t);
        lemma_escape_cons(c, t);
        lemma_unescape_escape(t);
        let e = json_escape_spec(t);
        let w = escape_char(c) + e;
        if escape_char(c).len() == 2 {
            assert(w[0] == '\\');
            assert(w.skip(2) =~= e);
            assert(unescape_char(w[1]) == c);
        } else {
            assert(w[0] == c);
            assert(w.drop_first() =~= e);
        }
        assert(seq![c] + t =~= s);
    }
}

/// Every character of an escaped text has a property that the backslash forms'
/// characters have, and that each character of the text has but for line breaks and
/// tabs.
pub proof fn lemma_escape_chars(s: Seq<char>, p: spec_fn(char) -> bool)
    requires
        p('\\') && p('n') && p('r') && p('t'),
        forall|i: int| 0 <= i < s.len() ==> s[i] == '\n' || s[i] == '\r' || s[i] == '\t' || #[trigger] p(s[i]),
    ensures
        forall|j: int| 0 <= j < json_escape_spec(s).len() ==> #[trigger] p(json_escape_spec(s)[j]),
    decreases s.len(),
{
    if s.len() > 0 {
        let a = s.drop_last();
        assert forall|i: int| 0 <= i < a.len() implies a[i] == '\n' || a[i] == '\r' || a[i] == '\t' || #[trigger] p(a[i]) by {
            assert(a[i] == s[i]);
        }
        lemma_escape_chars(a, p);
        let x = json_escape_spec(a);
        let y = escape_char(s.last());
        assert(s.last() == s[s.len() - 1]);
        assert(s[s.len() - 1] == '\n' || s[s.len() - 1] == '\r' || s[s.len() - 1] == '\t' || p(s[s.len() - 1]));
        assert forall|j: int| 0 <= j < y.len() implies #[trigger] p(y[j]) by {}
        assert forall|j: int| 0 <= j < (x + y).len() implies #[trigger] p((x + y)[j]) by {
            if j < x.len() {
                assert((x + y)[j] == x[j]);
            } else {
                assert((x + y)[j] == y[j - x.len()]);
            }
        }
    }
}

/// An escaped text starts with a quote only if the text does not start, and ends with a
/// quote only if the text ends with one.
pub proof fn lemma_escape_ends(s: Seq<char>)
    ensures
        json_escape_spec(s).len() >= s.len(),
        s.len() > 0 ==> json_escape_spec(s)[0] != '"',
        s.len() > 0 && s.last() != '"' ==> json_escape_spec(s).last() != '"',
    decreases s.len(),
{
    if s.len() > 0 {
        lemma_escape_ends(s.drop_last());
        lemma_escape_cons(s[0], s.drop_first());
        assert(s =~= seq![s[0]] + s.drop_first());
        let w = json_escape_spec(s);
        assert(w == escape_char(s[0]) + json_escape_spec(s.drop_first()));
        assert(w[0] == escape_char(s[0])[0]);
        let y = escape_char(s.last());
        assert(w == json_escape_spec(s.drop_last()) + y);
        assert(w.last() == y.last());
    }
}

/// Escaping leaves a text without backslash, quote, line feed, carriage return or tab
/// unchanged.
pub(crate) proof fn lemma_escape_plain(s: Seq<char>)
    requires
        forall|i: int|
            0 <= i < s.len() ==> #[trigger] s[i] != '"' && s[i] != '\\' && s[i] != '\n' && s[i]
                != '\r' && s[i] != '\t',
    ensures
        json_escape_spec(s) == s,
    decreases s.len(),
{
    if s.len() > 0 {
        assert(s.drop_last().len() < s.len());
        assert forall|i: int| 0 <= i < s.drop_last().len() implies #[trigger] s.drop_last()[i] != '"'
            && s.drop_last()[i] != '\\' && s.drop_last()[i] != '\n' && s.drop_last()[i] != '\r'
            && s.drop_last()[i] != '\t' by {
            assert(s.drop_last()[i] == s[i]);
        }
        lemma_escape_plain(s.drop_last());
        assert(s.last() == s[s.len() - 1]);
        assert(s =~= s.drop_last() + seq![s.last()]);
    }
}

fn keyed(key: &str, v: Vec<char>) -> (r: Vec<char>)
    ensures
        r@ == key@ + v@,
{
    let mut r = chars_of(key);
    push_all(&mut r, &v);
    r
}

fn quoted_chars(v: Vec<char>) -> (r: Vec<char>)
    ensures
        r@ == quoted_text(v@),
{
    let mut r: Vec<char> = Vec::new();
    r.push('"');
    push_all(&mut r, &v);
    r.push('"');
    assert(r@ =~= quoted_text(v@));
    r
}

fn flag_chars(b: bool) -> (r: Vec<char>)
    ensures
        r@ == flag(b),
{
    let mut r: Vec<char> = Vec::new();
    r.push(if b {
        '1'
    } else {
        '0'
    });
    assert(r@ =~= flag(b));
    r
}

pub open spec fn flag(b: bool) -> Seq<char> {
    if b {
        seq!['1']
    } else {
        seq!['0']
    }
}

/// The thirteen `"key":value` fields of an entry's one-line form, in order: numbers in
/// decimal, flags as `1` or `0`, texts escaped and in quotes; the last field carries the
/// closing brace and the first the opening one.
pub open spec fn entry_fields(e: FileEntryView) -> Seq<Seq<char>> {
    seq![
        key0() + decimal_int(e.id as int),
        key1() + quoted_text(json_escape_spec(e.name)),
        key2() + quoted_text(json_escape_spec(e.path)),
        key3() + quoted_text(json_escape_spec(e.parent_path)),
        key4() + decimal(e.size as nat),
        key5() + decimal_int(e.created as int),
        key6() + decimal_int(e.modified as int),
        key7() + decimal_int(e.accessed as int),
        key8() + flag(e.is_dir),
        key9() + flag(e.is_hidden),
        key10() + flag(e.is_readonly),
        key11() + quoted_text(json_escape_spec(e.extension)),
        key12() + seq!['"'] + json_escape_spec(e.volume) + seq!['"', '}'],
    ]
}

/// The one-line form of an entry: a JSON object, its fields joined by commas.
pub open spec fn entry_json(e: FileEntryView) -> Seq<char> {
    join_with(entry_fields(e), seq![','])
}

/// The raw value of field `idx`: the text after the first `:` of the `idx`-th
/// comma-separated part, trimmed of white space, then of `}` at both ends, then of quotes
/// at both ends. Absent when the part has no `:`, or when the value is empty and the part
/// has no quote.
pub open spec fn field_value(parts: Seq<Seq<char>>, idx: int) -> Option<Seq<char>> {
    let p = parts[idx];
    match index_of_char(p, ':') {
        Some(colon) => {
            let v = trim_char(trim_char(trim(p.skip(colon + 1)), '}'), '"');
            if v.len() == 0 && index_of_char(p, '"') is None {
                None
            } else {
                Some(v)
            }
        },
        None => None,
    }
}

pub open spec fn field_i64(parts: Seq<Seq<char>>, idx: int) -> Option<i64> {
    match field_value(parts, idx) {
        Some(v) => parse_i64_spec(v),
        None => None,
    }
}

pub open spec fn field_u64(parts: Seq<Seq<char>>, idx: int) -> Option<u64> {
    match field_value(parts, idx) {
        Some(v) => parse_u64_spec(v),
        None => None,
    }
}

/// The entry that the reader takes from a line, if it takes one: numbers and flags as
/// their raw values read, texts as their raw values with the escapes undone.
pub open spec fn entry_from_json(s: Seq<char>) -> Option<FileEntryView> {
    let parts = split_char(s, ',');
    if parts.len() < 13 {
        None
    } else if field_i64(parts, 0) is None || field_value(parts, 1) is None || field_value(parts, 2)
        is None || field_value(parts, 3) is None || field_u64(parts, 4) is None || field_i64(
        parts,
        5,
    ) is None || field_i64(parts, 6) is None || field_i64(parts, 7) is None || field_value(
        parts,
        8,
    ) is None || field_value(parts, 9) is None || field_value(parts, 10) is None || field_value(
        parts,
        11,
    ) is None || field_value(parts, 12) is None {
        None
    } else {
        Some(
            FileEntryView {
                id: field_i64(parts, 0)->0,
                name: json_unescape_spec(field_value(parts, 1)->0),
                path: json_unescape_spec(field_value(parts, 2)->0),
                parent_path: json_unescape_spec(field_value(parts, 3)->0),
                size: field_u64(parts, 4)->0,
                created: field_i64(parts, 5)->0,
                modified: field_i64(parts, 6)->0,
                accessed: field_i64(parts, 7)->0,
                is_dir: field_value(parts, 8)->0 == seq!['1'],
                is_hidden: field_value(parts, 9)->0 == seq!['1'],
                is_readonly: field_value(parts, 10)->0 == seq!['1'],
                extension: json_unescape_spec(field_value(parts, 11)->0),
                volume: json_unescape_spec(field_value(parts, 12)->0),
            },
        )
    }
}

pub open spec fn opt_entry_view(r: Option<FileEntry>) -> Option<FileEntryView> {
    match r {
        Some(e) => Some(e@),
        None => None,
    }
}

fn get_val(parts: &Vec<Vec<char>>, idx: usize) -> (r: Option<Vec<char>>)
    requires
        idx < parts.len(),
    ensures
        match r {
            Some(v) => field_value(parts@.map_values(|p: Vec<char>| p@), idx as int) == Some(v@),
            None => field_value(parts@.map_values(|p: Vec<char>| p@), idx as int) is None,
        },
{
    let p = &parts[idx];
    assert(parts@.map_values(|p: Vec<char>| p@)[idx as int] == p@);
    let colon = match find_char(p, ':') {
        Some(c) => c,
        None => {
            return None;
        },
    };
    proof {
        crate::text::lemma_index_of_char(p@, ':');
        assert(index_of_char(p@, ':') == Some(colon as int));
    }
    assert(colon < p.len());
    let rest = slice_chars(p, colon + 1, p.len());
    assert(rest@ =~= p@.skip(colon + 1));
    let t = trim_chars(&rest);
    let t = trim_char_chars(&t, '}');
    let t = trim_char_chars(&t, '"');
    if t.len() == 0 && find_char(p, '"').is_none() {
        return None;
    }
    Some(t)
}

fn get_i64(parts: &Vec<Vec<char>>, idx: usize) -> (r: Option<i64>)
    requires
        idx < parts.len(),
    ensures
        r == field_i64(parts@.map_values(|p: Vec<char>| p@), idx as int),
{
    match get_val(parts, idx) {
        Some(v) => parse_i64(&v),
        None => None,
    }
}

fn get_u64(parts: &Vec<Vec<char>>, idx: usize) -> (r: Option<u64>)
    requires
        idx < parts.len(),
    ensures
        r == field_u64(parts@.map_values(|p: Vec<char>| p@), idx as int),
{
    match get_val(parts, idx) {
        Some(v) => parse_u64(&v),
        None => None,
    }
}

fn get_str(parts: &Vec<Vec<char>>, idx: usize) -> (r: Option<String>)
    requires
        idx < parts.len(),
    ensures
        match r {
            Some(v) => field_value(parts@.map_values(|p: Vec<char>| p@), idx as int) matches Some(
                raw,
            ) && v@ == json_unescape_spec(raw),
            None => field_value(parts@.map_values(|p: Vec<char>| p@), idx as int) is None,
        },
{
    match get_val(parts, idx) {
        Some(v) => Some(string_of(&json_unescape_chars(&v))),
        None => None,
    }
}

fn get_flag(parts: &Vec<Vec<char>>, idx: usize) -> (r: Option<bool>)
    requires
        idx < parts.len(),
    ensures
        match r {
            Some(b) => field_value(parts@.map_values(|p: Vec<char>| p@), idx as int) matches Some(v)
                && b == (v == seq!['1']),
            None => field_value(parts@.map_values(|p: Vec<char>| p@), idx as int) is None,
        },
{
    match get_val(parts, idx) {
        Some(v) => {
            let one = eq_str(&v, "1");
            proof {
                reveal_strlit("1");
                assert("1"@ =~= seq!['1']);
            }
            Some(one)
        },
        None => None,
    }
}

// ---------------------------------------------------------------------------
// Reading back what was written
// ---------------------------------------------------------------------------

/// Text that the one-line form carries through: no comma, and no quote at the end.
/// Backslashes, quotes inside, line breaks and tabs travel as their backslash forms.
pub open spec fn plain_field(s: Seq<char>) -> bool {
    &&& forall|i: int| 0 <= i < s.len() ==> #[trigger] s[i] != ','
    &&& s.len() > 0 ==> s.last() != '"'
}

pub open spec fn no_comma(s: Seq<char>) -> bool {
    forall|j: int| 0 <= j < s.len() ==> #[trigger] s[j] != ','
}

/// What the escape of a plain text is like: no comma, no quote at either end, and it
/// unescapes to the text.
proof fn lemma_escaped_text(x: Seq<char>)
    requires
        plain_field(x),
    ensures
        no_comma(json_escape_spec(x)),
        json_escape_spec(x).len() > 0 ==> json_escape_spec(x)[0] != '"'
            && json_escape_spec(x).last() != '"',
        json_unescape_spec(json_escape_spec(x)) == x,
{
    let p = |c: char| c != ',';
    assert forall|i: int| 0 <= i < x.len() implies #[trigger] p(x[i]) by {}
    lemma_escape_chars(x, p);
    let w = json_escape_spec(x);
    assert forall|j: int| 0 <= j < w.len() implies #[trigger] w[j] != ',' by {
        assert(p(w[j]));
    }
    lemma_escape_ends(x);
    if w.len() > 0 {
        assert(x.len() > 0) by {
            if x.len() == 0 {
                assert(w =~= Seq::<char>::empty());
            }
        }
    }
    lemma_unescape_escape(x);
}

/// The value of a part made of a key that ends with its only colon and has a quote
/// among its first two characters, then `x`.
proof fn lemma_field_of(parts: Seq<Seq<char>>, idx: int, key: Seq<char>, x: Seq<char>)
    requires
        0 <= idx < parts.len(),
        parts[idx] == key + x,
        key.len() >= 2,
        key.last() == ':',
        key[0] == '"' || key[1] == '"',
        forall|j: int| 0 <= j < key.len() - 1 ==> key[j] != ':',
    ensures
        field_value(parts, idx) == Some(trim_char(trim_char(trim(x), '}'), '"')),
{
    let p = key + x;
    assert forall|j: int| 0 <= j < key.len() - 1 implies p[j] != ':' by {
        assert(p[j] == key[j]);
    }
    assert(p[key.len() - 1] == ':');
    lemma_index_of_char_first(p, ':', key.len() - 1);
    assert(p.skip(key.len() - 1 + 1) =~= x);
    lemma_index_of_char(p, '"');
    if index_of_char(p, '"') is None {
        assert(p[0] == key[0] && p[1] == key[1]);
    }
}

/// A number's text comes through the field reader unchanged.
proof fn lemma_number_field(d: Seq<char>)
    requires
        d.len() > 0,
        forall|i: int| 0 <= i < d.len() ==> #[trigger] is_digit(d[i]) || (i == 0 && d[i] == '-'),
    ensures
        trim_char(trim_char(trim(d), '}'), '"') == d,
{
    assert(is_digit(d[0]) || d[0] == '-');
    assert(is_digit(d[d.len() - 1]) || d[d.len() - 1] == '-');
    assert(d.last() == d[d.len() - 1]);
    assert(!is_ws(d[0]) && !is_ws(d.last()));
    lemma_trim_noop(d);
    lemma_trim_char_noop(d, '}');
    lemma_trim_char_noop(d, '"');
}

/// Stripping quotes from a quoted text that neither starts nor ends with a quote gives
/// the text.
proof fn lemma_strip_quotes(w: Seq<char>)
    requires
        w.len() > 0 ==> w[0] != '"' && w.last() != '"',
    ensures
        trim_char(seq!['"'] + w + seq!['"'], '"') == w,
{
    let q = seq!['"'] + w + seq!['"'];
    let r = w + seq!['"'];
    assert(q[0] == '"');
    assert(q.drop_first() =~= r);
    assert(strip_start(q, '"') == strip_start(r, '"'));
    if w.len() == 0 {
        assert(r.drop_first() =~= Seq::<char>::empty());
        assert(strip_start(r, '"') == strip_start(Seq::<char>::empty(), '"'));
        assert(strip_end(Seq::<char>::empty(), '"') == Seq::<char>::empty());
    } else {
        assert(r[0] == w[0]);
        assert(strip_start(r, '"') == r);
        assert(r.drop_last() =~= w);
        assert(r.last() == '"');
        assert(strip_end(r, '"') == strip_end(w, '"'));
        assert(strip_end(w, '"') == w);
    }
}

/// A quoted text that neither starts nor ends with a quote comes through the field
/// reader without its quotes.
proof fn lemma_quoted_field(w: Seq<char>)
    requires
        w.len() > 0 ==> w[0] != '"' && w.last() != '"',
    ensures
        trim_char(trim_char(trim(seq!['"'] + w + seq!['"']), '}'), '"') == w,
{
    let q = seq!['"'] + w + seq!['"'];
    assert(q[0] == '"' && q.last() == '"');
    lemma_trim_noop(q);
    lemma_trim_char_noop(q, '}');
    lemma_strip_quotes(w);
}

/// The last field, quoted and followed by the closing brace, comes through the field
/// reader without its quotes and brace.
proof fn lemma_last_field(w: Seq<char>)
    requires
        w.len() > 0 ==> w[0] != '"' && w.last() != '"',
    ensures
        trim_char(trim_char(trim(seq!['"'] + w + seq!['"', '}']), '}'), '"') == w,
{
    reveal_with_fuel(strip_start, 2);
    reveal_with_fuel(strip_end, 3);
    let q = seq!['"'] + w + seq!['"', '}'];
    let qq = seq!['"'] + w + seq!['"'];
    assert(q[0] == '"' && q.last() == '}');
    lemma_trim_noop(q);
    assert(strip_start(q, '}') == q);
    assert(q.drop_last() =~= qq);
    assert(qq.last() == '"');
    assert(strip_end(q, '}') == qq);
    lemma_strip_quotes(w);
}

pub(crate) proof fn lemma_decimal_number(n: nat)
    ensures
        decimal(n).len() > 0,
        forall|i: int| 0 <= i < decimal(n).len() ==> #[trigger] is_digit(decimal(n)[i]) || (i == 0
            && decimal(n)[i] == '-'),
{
    lemma_decimal_digits(n);
}

pub(crate) proof fn lemma_decimal_int_number(n: int)
    ensures
        decimal_int(n).len() > 0,
        forall|i: int| 0 <= i < decimal_int(n).len() ==> #[trigger] is_digit(decimal_int(n)[i]) || (
        i == 0 && decimal_int(n)[i] == '-'),
{
    if n < 0 {
        let m = (0 - n) as nat;
        lemma_decimal_digits(m);
        assert forall|i: int| 0 <= i < decimal_int(n).len() implies #[trigger] is_digit(decimal_int(n)[i]) || (
        i == 0 && decimal_int(n)[i] == '-') by {
            if i > 0 {
                assert(decimal_int(n)[i] == decimal(m)[i - 1]);
            }
        }
    } else {
        lemma_decimal_digits(n as nat);
    }
}

proof fn lemma_no_comma_number(d: Seq<char>)
    requires
        forall|i: int| 0 <= i < d.len() ==> #[trigger] is_digit(d[i]) || (i == 0 && d[i] == '-'),
    ensures
        no_comma(d),
{
    assert forall|i: int| 0 <= i < d.len() implies #[trigger] d[i] != ',' by {
        assert(is_digit(d[i]) || d[i] == '-');
    }
}

pub open spec fn key0() -> Seq<char> { seq!['{', '"', 'i', 'd', '"', ':'] }
pub open spec fn key1() -> Seq<char> { seq!['"', 'n', 'a', 'm', 'e', '"', ':'] }
pub open spec fn key2() -> Seq<char> { seq!['"', 'p', 'a', 't', 'h', '"', ':'] }
pub open spec fn key3() -> Seq<char> { seq!['"', 'p', 'a', 'r', 'e', 'n', 't', '_', 'p', 'a', 't', 'h', '"', ':'] }
pub open spec fn key4() -> Seq<char> { seq!['"', 's', 'i', 'z', 'e', '"', ':'] }
pub open spec fn key5() -> Seq<char> { seq!['"', 'c', 'r', 'e', 'a', 't', 'e', 'd', '"', ':'] }
pub open spec fn key6() -> Seq<char> { seq!['"', 'm', 'o', 'd', 'i', 'f', 'i', 'e', 'd', '"', ':'] }
pub open spec fn key7() -> Seq<char> { seq!['"', 'a', 'c', 'c', 'e', 's', 's', 'e', 'd', '"', ':'] }
pub open spec fn key8() -> Seq<char> { seq!['"', 'i', 's', '_', 'd', 'i', 'r', '"', ':'] }
pub open spec fn key9() -> Seq<char> { seq!['"', 'i', 's', '_', 'h', 'i', 'd', 'd', 'e', 'n', '"', ':'] }
pub open spec fn key10() -> Seq<char> { seq!['"', 'i', 's', '_', 'r', 'e', 'a', 'd', 'o', 'n', 'l', 'y', '"', ':'] }
pub open spec fn key11() -> Seq<char> { seq!['"', 'e', 'x', 't', 'e', 'n', 's', 'i', 'o', 'n', '"', ':'] }
pub open spec fn key12() -> Seq<char> { seq!['"', 'v', 'o', 'l', 'u', 'm', 'e', '"', ':'] }

pub open spec fn quoted_text(v: Seq<char>) -> Seq<char> {
    seq!['"'] + v + seq!['"']
}

proof fn lemma_no_comma_add(a: Seq<char>, b: Seq<char>)
    requires
        no_comma(a),
        no_comma(b),
    ensures
        no_comma(a + b),
{
    assert forall|j: int| 0 <= j < (a + b).len() implies #[trigger] (a + b)[j] != ',' by {
        if j < a.len() {
            assert((a + b)[j] == a[j]);
        } else {
            assert((a + b)[j] == b[j - a.len()]);
        }
    }
}

proof fn lemma_no_comma_quoted(v: Seq<char>)
    requires
        no_comma(v),
    ensures
        no_comma(quoted_text(v)),
{
    assert(no_comma(seq!['"']));
    lemma_no_comma_add(seq!['"'], v);
    lemma_no_comma_add(seq!['"'] + v, seq!['"']);
}

/// The texts of an entry are plain.
pub open spec fn plain_entry(e: FileEntryView) -> bool {
    &&& plain_field(e.name)
    &&& plain_field(e.path)
    &&& plain_field(e.parent_path)
    &&& plain_field(e.extension)
    &&& plain_field(e.volume)
}

proof fn lemma_entry_texts(e: FileEntryView)
    requires
        plain_entry(e),
    ensures
        no_comma(json_escape_spec(e.name)),
        no_comma(json_escape_spec(e.path)),
        no_comma(json_escape_spec(e.parent_path)),
        no_comma(json_escape_spec(e.extension)),
        no_comma(json_escape_spec(e.volume)),
{
    lemma_escaped_text(e.name);
    lemma_escaped_text(e.path);
    lemma_escaped_text(e.parent_path);
    lemma_escaped_text(e.extension);
    lemma_escaped_text(e.volume);
}

proof fn lemma_entry_fields_no_comma(e: FileEntryView)
    requires
        plain_entry(e),
    ensures
        forall|k: int, j: int|
            0 <= k < entry_fields(e).len() && 0 <= j < entry_fields(e)[k].len() ==> #[trigger] entry_fields(e)[k][j] != ',',
{
    lemma_entry_texts(e);
    let n = json_escape_spec(e.name);
    let p = json_escape_spec(e.path);
    let pp = json_escape_spec(e.parent_path);
    let x = json_escape_spec(e.extension);
    let v = json_escape_spec(e.volume);
    lemma_decimal_int_number(e.id as int);
    lemma_decimal_number(e.size as nat);
    lemma_decimal_int_number(e.created as int);
    lemma_decimal_int_number(e.modified as int);
    lemma_decimal_int_number(e.accessed as int);
    lemma_no_comma_number(decimal_int(e.id as int));
    lemma_no_comma_number(decimal(e.size as nat));
    lemma_no_comma_number(decimal_int(e.created as int));
    lemma_no_comma_number(decimal_int(e.modified as int));
    lemma_no_comma_number(decimal_int(e.accessed as int));
    assert(no_comma(flag(e.is_dir)) && no_comma(flag(e.is_hidden)) && no_comma(flag(e.is_readonly)));
    assert(no_comma(key0()) && no_comma(key1()) && no_comma(key2()) && no_comma(key3()));
    assert(no_comma(key4()) && no_comma(key5()) && no_comma(key6()) && no_comma(key7()));
    assert(no_comma(key8()) && no_comma(key9()) && no_comma(key10()) && no_comma(key11()));
    assert(no_comma(key12()));
    lemma_no_comma_add(key0(), decimal_int(e.id as int));
    lemma_no_comma_quoted(n);
    lemma_no_comma_add(key1(), quoted_text(n));
    lemma_no_comma_quoted(p);
    lemma_no_comma_add(key2(), quoted_text(p));
    lemma_no_comma_quoted(pp);
    lemma_no_comma_add(key3(), quoted_text(pp));
    lemma_no_comma_add(key4(), decimal(e.size as nat));
    lemma_no_comma_add(key5(), decimal_int(e.created as int));
    lemma_no_comma_add(key6(), decimal_int(e.modified as int));
    lemma_no_comma_add(key7(), decimal_int(e.accessed as int));
    lemma_no_comma_add(key8(), flag(e.is_dir));
    lemma_no_comma_add(key9(), flag(e.is_hidden));
    lemma_no_comma_add(key10(), flag(e.is_readonly));
    lemma_no_comma_quoted(x);
    lemma_no_comma_add(key11(), quoted_text(x));
    lemma_no_comma_add(key12(), seq!['"']);
    lemma_no_comma_add(key12() + seq!['"'], v);
    assert(no_comma(seq!['"', '}']));
    lemma_no_comma_add(key12() + seq!['"'] + v, seq!['"', '}']);
    let ps = entry_fields(e);
    assert forall|k: int, j: int| 0 <= k < ps.len() && 0 <= j < ps[k].len() implies #[trigger] ps[k][j] != ',' by {
        assert(no_comma(ps[k]));
    }
}

proof fn lemma_entry_number_fields(e: FileEntryView)
    ensures
        field_i64(entry_fields(e), 0) == Some(e.id),
        field_u64(entry_fields(e), 4) == Some(e.size),
        field_i64(entry_fields(e), 5) == Some(e.created),
        field_i64(entry_fields(e), 6) == Some(e.modified),
        field_i64(entry_fields(e), 7) == Some(e.accessed),
{
    let parts = entry_fields(e);
    lemma_field_of(parts, 0, key0(), decimal_int(e.id as int));
    lemma_field_of(parts, 4, key4(), decimal(e.size as nat));
    lemma_field_of(parts, 5, key5(), decimal_int(e.created as int));
    lemma_field_of(parts, 6, key6(), decimal_int(e.modified as int));
    lemma_field_of(parts, 7, key7(), decimal_int(e.accessed as int));
    lemma_decimal_int_number(e.id as int);
    lemma_decimal_number(e.size as nat);
    lemma_decimal_int_number(e.created as int);
    lemma_decimal_int_number(e.modified as int);
    lemma_decimal_int_number(e.accessed as int);
    lemma_number_field(decimal_int(e.id as int));
    lemma_number_field(decimal(e.size as nat));
    lemma_number_field(decimal_int(e.created as int));
    lemma_number_field(decimal_int(e.modified as int));
    lemma_number_field(decimal_int(e.accessed as int));
    lemma_parse_i64_decimal(e.id);
    lemma_parse_u64_decimal(e.size);
    lemma_parse_i64_decimal(e.created);
    lemma_parse_i64_decimal(e.modified);
    lemma_parse_i64_decimal(e.accessed);
}

proof fn lemma_flag_field(b: bool)
    ensures
        trim_char(trim_char(trim(flag(b)), '}'), '"') == flag(b),
        (flag(b) == seq!['1']) == b,
{
    assert(is_digit(flag(b)[0]));
    lemma_number_field(flag(b));
}

proof fn lemma_entry_flag_fields(e: FileEntryView)
    ensures
        field_value(entry_fields(e), 8) == Some(flag(e.is_dir)),
        field_value(entry_fields(e), 9) == Some(flag(e.is_hidden)),
        field_value(entry_fields(e), 10) == Some(flag(e.is_readonly)),
        (flag(e.is_dir) == seq!['1']) == e.is_dir,
        (flag(e.is_hidden) == seq!['1']) == e.is_hidden,
        (flag(e.is_readonly) == seq!['1']) == e.is_readonly,
{
    let parts = entry_fields(e);
    lemma_field_of(parts, 8, key8(), flag(e.is_dir));
    lemma_field_of(parts, 9, key9(), flag(e.is_hidden));
    lemma_field_of(parts, 10, key10(), flag(e.is_readonly));
    lemma_flag_field(e.is_dir);
    lemma_flag_field(e.is_hidden);
    lemma_flag_field(e.is_readonly);
}

proof fn lemma_entry_text_fields(e: FileEntryView)
    requires
        plain_entry(e),
    ensures
        field_value(entry_fields(e), 1) == Some(json_escape_spec(e.name)),
        field_value(entry_fields(e), 2) == Some(json_escape_spec(e.path)),
        field_value(entry_fields(e), 3) == Some(json_escape_spec(e.parent_path)),
        field_value(entry_fields(e), 11) == Some(json_escape_spec(e.extension)),
        field_value(entry_fields(e), 12) == Some(json_escape_spec(e.volume)),
        json_unescape_spec(json_escape_spec(e.name)) == e.name,
        json_unescape_spec(json_escape_spec(e.path)) == e.path,
        json_unescape_spec(json_escape_spec(e.parent_path)) == e.parent_path,
        json_unescape_spec(json_escape_spec(e.extension)) == e.extension,
        json_unescape_spec(json_escape_spec(e.volume)) == e.volume,
{
    let parts = entry_fields(e);
    let n = json_escape_spec(e.name);
    let p = json_escape_spec(e.path);
    let pp = json_escape_spec(e.parent_path);
    let x = json_escape_spec(e.extension);
    let v = json_escape_spec(e.volume);
    lemma_escaped_text(e.name);
    lemma_escaped_text(e.path);
    lemma_escaped_text(e.parent_path);
    lemma_escaped_text(e.extension);
    lemma_escaped_text(e.volume);
    lemma_field_of(parts, 1, key1(), quoted_text(n));
    lemma_field_of(parts, 2, key2(), quoted_text(p));
    lemma_field_of(parts, 3, key3(), quoted_text(pp));
    lemma_field_of(parts, 11, key11(), quoted_text(x));
    assert(key12() + seq!['"'] + v + seq!['"', '}'] =~= key12() + (seq!['"'] + v + seq!['"', '}']));
    lemma_field_of(parts, 12, key12(), seq!['"'] + v + seq!['"', '}']);
    lemma_quoted_field(n);
    lemma_quoted_field(p);
    lemma_quoted_field(pp);
    lemma_quoted_field(x);
    lemma_last_field(v);
}

proof fn lemma_entry_split(e: FileEntryView)
    requires
        plain_entry(e),
    ensures
        split_char(entry_json(e), ',') == entry_fields(e),
{
    lemma_entry_fields_no_comma(e);
    lemma_split_join(entry_fields(e), ',');
}

/// Reading back the one-line form of an entry whose texts have no comma and do not end
/// with a quote gives the entry.
pub proof fn lemma_entry_json_roundtrip(e: FileEntryView)
    requires
        plain_entry(e),
    ensures
        entry_from_json(entry_json(e)) == Some(e),
{
    lemma_entry_split(e);
    lemma_entry_number_fields(e);
    lemma_entry_flag_fields(e);
    lemma_entry_text_fields(e);
}

/// No bracket or brace in the text.
pub open spec fn no_brackets(s: Seq<char>) -> bool {
    forall|j: int| 0 <= j < s.len() ==> #[trigger] s[j] != '[' && s[j] != ']' && s[j] != '{' && s[j] != '}'
}

/// An entry whose texts the index file carries through: plain, and without brackets or
/// braces.
pub open spec fn storable(e: FileEntryView) -> bool {
    &&& plain_entry(e)
    &&& no_brackets(e.name)
    &&& no_brackets(e.path)
    &&& no_brackets(e.parent_path)
    &&& no_brackets(e.extension)
    &&& no_brackets(e.volume)
}

proof fn lemma_no_brackets_add(a: Seq<char>, b: Seq<char>)
    requires
        no_brackets(a),
        no_brackets(b),
    ensures
        no_brackets(a + b),
{
    assert forall|j: int| 0 <= j < (a + b).len() implies #[trigger] (a + b)[j] != '[' && (a + b)[j] != ']' && (a + b)[j] != '{' && (a + b)[j] != '}' by {
        if j < a.len() {
            assert((a + b)[j] == a[j]);
        } else {
            assert((a + b)[j] == b[j - a.len()]);
        }
    }
}

proof fn lemma_no_brackets_number(d: Seq<char>)
    requires
        forall|i: int| 0 <= i < d.len() ==> #[trigger] is_digit(d[i]) || (i == 0 && d[i] == '-'),
    ensures
        no_brackets(d),
{
    assert forall|j: int| 0 <= j < d.len() implies #[trigger] d[j] != '[' && d[j] != ']' && d[j] != '{' && d[j] != '}' by {
        assert(is_digit(d[j]) || d[j] == '-');
    }
}

/// Escaping brings in no bracket or brace.
proof fn lemma_no_brackets_escape(x: Seq<char>)
    requires
        no_brackets(x),
    ensures
        no_brackets(json_escape_spec(x)),
{
    let p = |c: char| c != '[' && c != ']' && c != '{' && c != '}';
    assert forall|i: int| 0 <= i < x.len() implies #[trigger] p(x[i]) by {}
    lemma_escape_chars(x, p);
    let w = json_escape_spec(x);
    assert forall|j: int| 0 <= j < w.len() implies #[trigger] w[j] != '[' && w[j] != ']' && w[j] != '{' && w[j] != '}' by {
        assert(p(w[j]));
    }
}

/// A quoted text without brackets or braces has none.
proof fn lemma_no_brackets_quoted(w: Seq<char>)
    requires
        no_brackets(w),
    ensures
        no_brackets(quoted_text(w)),
{
    assert(no_brackets(seq!['"']));
    lemma_no_brackets_add(seq!['"'], w);
    lemma_no_brackets_add(seq!['"'] + w, seq!['"']);
}

proof fn lemma_open_join(ps: Seq<Seq<char>>, k: int)
    requires
        1 <= k <= ps.len(),
        ps[0].len() >= 1,
        ps[0][0] == '{',
        no_brackets(ps[0].drop_first()),
        forall|i: int| 0 < i < k ==> #[trigger] no_brackets(ps[i]),
    ensures
        join_with(ps.take(k), seq![',']).len() >= 1,
        join_with(ps.take(k), seq![','])[0] == '{',
        no_brackets(join_with(ps.take(k), seq![',']).drop_first()),
    decreases k,
{
    let t = ps.take(k);
    if k == 1 {
        assert(t.len() == 1);
        assert(join_with(t, seq![',']) == t[0]);
    } else {
        lemma_open_join(ps, k - 1);
        assert(t.drop_last() =~= ps.take(k - 1));
        assert(t.last() == ps[k - 1]);
        let a = join_with(ps.take(k - 1), seq![',']);
        assert(join_with(t, seq![',']) == a + seq![','] + ps[k - 1]);
        assert(no_brackets(seq![',']));
        lemma_no_brackets_add(a.drop_first(), seq![',']);
        lemma_no_brackets_add(a.drop_first() + seq![','], ps[k - 1]);
        assert((a + seq![','] + ps[k - 1]).drop_first() =~= a.drop_first() + seq![','] + ps[k - 1]);
    }
}

/// The one-line form of a storable entry is `{`, then text without brackets or braces,
/// then `}`.
pub proof fn lemma_entry_json_braced(e: FileEntryView)
    requires
        storable(e),
    ensures
        entry_json(e).len() >= 2,
        entry_json(e)[0] == '{',
        entry_json(e).last() == '}',
        no_brackets(entry_json(e).subrange(1, entry_json(e).len() - 1)),
{
    let n = json_escape_spec(e.name);
    let p = json_escape_spec(e.path);
    let pp = json_escape_spec(e.parent_path);
    let x = json_escape_spec(e.extension);
    let v = json_escape_spec(e.volume);
    lemma_no_brackets_escape(e.name);
    lemma_no_brackets_escape(e.path);
    lemma_no_brackets_escape(e.parent_path);
    lemma_no_brackets_escape(e.extension);
    lemma_no_brackets_escape(e.volume);
    let ps = entry_fields(e);
    lemma_decimal_int_number(e.id as int);
    lemma_decimal_number(e.size as nat);
    lemma_decimal_int_number(e.created as int);
    lemma_decimal_int_number(e.modified as int);
    lemma_decimal_int_number(e.accessed as int);
    lemma_no_brackets_number(decimal_int(e.id as int));
    lemma_no_brackets_number(decimal(e.size as nat));
    lemma_no_brackets_number(decimal_int(e.created as int));
    lemma_no_brackets_number(decimal_int(e.modified as int));
    lemma_no_brackets_number(decimal_int(e.accessed as int));
    assert(no_brackets(flag(e.is_dir)) && no_brackets(flag(e.is_hidden)) && no_brackets(flag(e.is_readonly)));
    assert(no_brackets(key0().drop_first()));
    assert(no_brackets(key1()) && no_brackets(key2()) && no_brackets(key3()) && no_brackets(key4()));
    assert(no_brackets(key5()) && no_brackets(key6()) && no_brackets(key7()) && no_brackets(key8()));
    assert(no_brackets(key9()) && no_brackets(key10()) && no_brackets(key11()) && no_brackets(key12()));
    assert(no_brackets(seq!['"']));
    lemma_no_brackets_quoted(n);
    lemma_no_brackets_quoted(p);
    lemma_no_brackets_quoted(pp);
    lemma_no_brackets_quoted(x);
    lemma_no_brackets_add(key1(), quoted_text(n));
    lemma_no_brackets_add(key2(), quoted_text(p));
    lemma_no_brackets_add(key3(), quoted_text(pp));
    lemma_no_brackets_add(key4(), decimal(e.size as nat));
    lemma_no_brackets_add(key5(), decimal_int(e.created as int));
    lemma_no_brackets_add(key6(), decimal_int(e.modified as int));
    lemma_no_brackets_add(key7(), decimal_int(e.accessed as int));
    lemma_no_brackets_add(key8(), flag(e.is_dir));
    lemma_no_brackets_add(key9(), flag(e.is_hidden));
    lemma_no_brackets_add(key10(), flag(e.is_readonly));
    lemma_no_brackets_add(key11(), quoted_text(x));
    lemma_no_brackets_add(key0().drop_first(), decimal_int(e.id as int));
    assert((key0() + decimal_int(e.id as int)).drop_first() =~= key0().drop_first() + decimal_int(e.id as int));
    let p12 = ps[12];
    let body = key12() + seq!['"'] + v + seq!['"'];
    lemma_no_brackets_add(key12(), seq!['"']);
    lemma_no_brackets_add(key12() + seq!['"'], v);
    lemma_no_brackets_add(key12() + seq!['"'] + v, seq!['"']);
    assert(p12 =~= body + seq!['}']);
    assert forall|i: int| 0 < i < 12 implies #[trigger] no_brackets(ps[i]) by {}
    lemma_open_join(ps, 12);
    let a = join_with(ps.take(12), seq![',']);
    assert(ps.drop_last() =~= ps.take(12));
    assert(entry_json(e) == a + seq![','] + p12);
    let whole = a + seq![','] + p12;
    lemma_no_brackets_add(a.drop_first(), seq![',']);
    lemma_no_brackets_add(a.drop_first() + seq![','], body);
    assert(whole.subrange(1, whole.len() - 1) =~= a.drop_first() + seq![','] + body);
}

impl FileEntry {
    /// The one-line form that the index file stores.
    pub fn to_json(&self) -> (r: String)
        ensures
            r@ == entry_json(self@),
    {
        proof {
            reveal_strlit("{\"id\":");
            reveal_strlit("\"name\":");
            reveal_strlit("\"path\":");
            reveal_strlit("\"parent_path\":");
            reveal_strlit("\"size\":");
            reveal_strlit("\"created\":");
            reveal_strlit("\"modified\":");
            reveal_strlit("\"accessed\":");
            reveal_strlit("\"is_dir\":");
            reveal_strlit("\"is_hidden\":");
            reveal_strlit("\"is_readonly\":");
            reveal_strlit("\"extension\":");
            reveal_strlit("\"volume\":");
            assert("{\"id\":"@ =~= key0());
            assert("\"name\":"@ =~= key1());
            assert("\"path\":"@ =~= key2());
            assert("\"parent_path\":"@ =~= key3());
            assert("\"size\":"@ =~= key4());
            assert("\"created\":"@ =~= key5());
            assert("\"modified\":"@ =~= key6());
            assert("\"accessed\":"@ =~= key7());
            assert("\"is_dir\":"@ =~= key8());
            assert("\"is_hidden\":"@ =~= key9());
            assert("\"is_readonly\":"@ =~= key10());
            assert("\"extension\":"@ =~= key11());
            assert("\"volume\":"@ =~= key12());
        }
        let mut parts: Vec<Vec<char>> = Vec::new();
        parts.push(keyed("{\"id\":", fmt_i64(self.id)));
        parts.push(keyed("\"name\":", quoted_chars(json_escape_chars(&chars_of(self.name.as_str())))));
        parts.push(keyed("\"path\":", quoted_chars(json_escape_chars(&chars_of(self.path.as_str())))));
        parts.push(
            keyed(
                "\"parent_path\":",
                quoted_chars(json_escape_chars(&chars_of(self.parent_path.as_str()))),
            ),
        );
        parts.push(keyed("\"size\":", fmt_u64(self.size)));
        parts.push(keyed("\"created\":", fmt_i64(self.created)));
        parts.push(keyed("\"modified\":", fmt_i64(self.modified)));
        parts.push(keyed("\"accessed\":", fmt_i64(self.accessed)));
        parts.push(keyed("\"is_dir\":", flag_chars(self.is_dir)));
        parts.push(keyed("\"is_hidden\":", flag_chars(self.is_hidden)));
        parts.push(keyed("\"is_readonly\":", flag_chars(self.is_readonly)));
        parts.push(
            keyed(
                "\"extension\":",
                quoted_chars(json_escape_chars(&chars_of(self.extension.as_str()))),
            ),
        );
        let mut last = keyed("\"volume\":", Vec::new());
        last.push('"');
        push_all(&mut last, &json_escape_chars(&chars_of(self.volume.as_str())));
        last.push('"');
        last.push('}');
        parts.push(last);
        proof {
            let ps = parts@.map_values(|p: Vec<char>| p@);
            let fs = entry_fields(self@);
            assert(ps.len() == fs.len());
            assert(ps[12] =~= fs[12]);
            assert forall|i: int| 0 <= i < 12 implies ps[i] == fs[i] by {
                if i == 0 {
                    assert(ps[0] =~= fs[0]);
                } else if i == 1 {
                    assert(ps[1] =~= fs[1]);
                } else if i == 2 {
                    assert(ps[2] =~= fs[2]);
                } else if i == 3 {
                    assert(ps[3] =~= fs[3]);
                } else if i == 4 {
                    assert(ps[4] =~= fs[4]);
                } else if i == 5 {
                    assert(ps[5] =~= fs[5]);
                } else if i == 6 {
                    assert(ps[6] =~= fs[6]);
                } else if i == 7 {
                    assert(ps[7] =~= fs[7]);
                } else if i == 8 {
                    assert(ps[8] =~= fs[8]);
                } else if i == 9 {
                    assert(ps[9] =~= fs[9]);
                } else if i == 10 {
                    assert(ps[10] =~= fs[10]);
                } else {
                    assert(ps[11] =~= fs[11]);
                }
            }
            assert(ps =~= fs);
        }
        let mut comma: Vec<char> = Vec::new();
        comma.push(',');
        assert(comma@ =~= seq![',']);
        let out = join_chars(&parts, &comma);
        string_of(&out)
    }

    /// Reads an entry back from its one-line form: the line is split at every comma, and
    /// the thirteen fields are read from the first thirteen parts, the texts with their
    /// escapes undone; `None` when there are fewer parts, or a field is absent or a number
    /// does not parse.
    pub fn from_json(s: &str) -> (r: Option<FileEntry>)
        ensures
            opt_entry_view(r) == entry_from_json(s@),
    {
        let cs = chars_of(s);
        let v = split_chars(&cs, ',');
        let ghost parts = v@.map_values(|p: Vec<char>| p@);
        assert(parts == split_char(s@, ','));
        if v.len() < 13 {
            return None;
        }
        let id = match get_i64(&v, 0) {
            Some(x) => x,
            None => {
                return None;
            },
        };
        let name = match get_str(&v, 1) {
            Some(x) => x,
            None => {
                return None;
            },
        };
        let path = match get_str(&v, 2) {
            Some(x) => x,
            None => {
                return None;
            },
        };
        let parent_path = match get_str(&v, 3) {
            Some(x) => x,
            None => {
                return None;
            },
        };
        let size = match get_u64(&v, 4) {
            Some(x) => x,
            None => {
                return None;
            },
        };
        let created = match get_i64(&v, 5) {
            Some(x) => x,
            None => {
                return None;
            },
        };
        let modified = match get_i64(&v, 6) {
            Some(x) => x,
            None => {
                return None;
            },
        };
        let accessed = match get_i64(&v, 7) {
            Some(x) => x,
            None => {
                return None;
            },
        };
        let is_dir = match get_flag(&v, 8) {
            Some(x) => x,
            None => {
                return None;
            },
        };
        let is_hidden = match get_flag(&v, 9) {
            Some(x) => x,
            None => {
                return None;
            },
        };
        let is_readonly = match get_flag(&v, 10) {
            Some(x) => x,
            None => {
                return None;
            },
        };
        let extension = match get_str(&v, 11) {
            Some(x) => x,
            None => {
                return None;
            },
        };
        let volume = match get_str(&v, 12) {
            Some(x) => x,
            None => {
                return None;
            },
        };
        Some(
            FileEntry {
                id,
                name,
                path,
                parent_path,
                size,
                created,
                modified,
                accessed,
                is_dir,
                is_hidden,
                is_readonly,
                extension,
                volume,
            },
        )
    }
}

} // verus!
