//! The index file: a JSON-like array with one entry per line. Reading and
//! writing the file is left to the caller; this module builds the text and
//! takes it apart.
use vstd::prelude::*;
use crate::entry_json::{
    entry_from_json, entry_json, lemma_entry_json_braced, lemma_entry_json_roundtrip, no_brackets,
    opt_entry_view, storable,
};
use crate::text::{
    chars_of, eq_str, is_ws, push_all, push_str, slice_chars, string_of, trim, trim_chars, trim_end,
    trim_start,
};
use crate::types::{FileEntry, FileEntryView};

verus! {

/// Where the index file lives.
pub struct Storage {
    path: String,
}

/// An entry line that another line follows.
pub open spec fn comma_lines(es: Seq<FileEntryView>) -> Seq<char>
    decreases es.len(),
{
    if es.len() == 0 {
        Seq::empty()
    } else {
        comma_lines(es.drop_last()) + "  "@ + entry_json(es.last()) + ",\n"@
    }
}

/// The text of the index file: `[`, one indented entry per line with a comma after all
/// but the last, and `]`.
pub open spec fn entries_text(es: Seq<FileEntryView>) -> Seq<char> {
    if es.len() == 0 {
        "[\n"@ + "]\n"@
    } else {
        "[\n"@ + comma_lines(es.drop_last()) + "  "@ + entry_json(es.last()) + "\n"@ + "]\n"@
    }
}

/// The reader's state after the first `n` characters: bracket depth, where the current
/// object starts, and the entries read so far. An object is taken from its `{` to its
/// `}` at depth one.
pub open spec fn scan(cs: Seq<char>, n: int) -> (int, int, Seq<FileEntryView>)
    decreases n,
{
    if n <= 0 {
        (0, 0, Seq::empty())
    } else {
        let prev = scan(cs, n - 1);
        let d = prev.0;
        let st = prev.1;
        let es = prev.2;
        let i = n - 1;
        let c = cs[i];
        if c == '[' {
            (d + 1, st, es)
        } else if c == ']' {
            (d - 1, st, es)
        } else if c == '{' && d == 1 {
            (d, i, es)
        } else if c == '}' && d == 1 {
            (
                d,
                st,
                match entry_from_json(cs.subrange(st, i + 1)) {
                    Some(e) => es.push(e),
                    None => es,
                },
            )
        } else {
            (d, st, es)
        }
    }
}

/// The entries that reading the index file gives: none for an empty file or `[]`, else
/// every object read at depth one that parses.
pub open spec fn entries_of_text(content: Seq<char>) -> Seq<FileEntryView> {
    let t = trim(content);
    if t == "[]"@ || t.len() == 0 {
        Seq::empty()
    } else {
        scan(t, t.len() as int).2
    }
}

pub open spec fn entry_views(s: Seq<FileEntry>) -> Seq<FileEntryView> {
    s.map_values(|e: FileEntry| e@)
}

// ---------------------------------------------------------------------------
// Reading back what was saved
// ---------------------------------------------------------------------------

pub open spec fn is_bracket(c: char) -> bool {
    c == '[' || c == ']' || c == '{' || c == '}'
}

/// The reader's state after a prefix depends on that prefix alone.
proof fn lemma_scan_prefix(cs: Seq<char>, m: int, n: int)
    requires
        0 <= n <= m <= cs.len(),
    ensures
        scan(cs, n) == scan(cs.take(m), n),
    decreases n,
{
    if n > 0 {
        lemma_scan_prefix(cs, m, n - 1);
        lemma_scan_start_bounded(cs, n - 1);
        let prev = scan(cs, n - 1);
        assert(cs.take(m)[n - 1] == cs[n - 1]);
        if 0 <= prev.1 && prev.1 <= n - 1 {
            assert(cs.take(m).subrange(prev.1, n) =~= cs.subrange(prev.1, n));
        }
    }
}

proof fn lemma_scan_start_bounded(cs: Seq<char>, n: int)
    requires
        0 <= n <= cs.len(),
    ensures
        0 <= scan(cs, n).1 <= n,
    decreases n,
{
    if n > 0 {
        lemma_scan_start_bounded(cs, n - 1);
    }
}

/// Characters that are not brackets or braces leave the reader's state alone.
proof fn lemma_scan_quiet(cs: Seq<char>, a: int, b: int)
    requires
        0 <= a <= b <= cs.len(),
        forall|i: int| a <= i < b ==> !is_bracket(#[trigger] cs[i]),
    ensures
        scan(cs, b) == scan(cs, a),
    decreases b - a,
{
    if b > a {
        lemma_scan_quiet(cs, a, b - 1);
        assert(!is_bracket(cs[b - 1]));
    }
}

/// An entry's one-line form read at depth one adds the entry as it reads back.
proof fn lemma_scan_entry(cs: Seq<char>, a: int, e: FileEntryView)
    requires
        storable(e),
        0 <= a,
        a + entry_json(e).len() <= cs.len(),
        cs.subrange(a, a + entry_json(e).len()) == entry_json(e),
        scan(cs, a).0 == 1,
    ensures
        scan(cs, a + entry_json(e).len()) == (1int, a, scan(cs, a).2.push(e)),
{
    let j = entry_json(e);
    lemma_entry_json_braced(e);
    lemma_entry_json_roundtrip(e);
    assert(cs[a] == j[0]);
    assert(scan(cs, a + 1) == (1int, a, scan(cs, a).2));
    assert forall|i: int| a + 1 <= i < a + j.len() - 1 implies !is_bracket(#[trigger] cs[i]) by {
        assert(cs[i] == j[i - a]);
        assert(j.subrange(1, j.len() - 1)[i - a - 1] == j[i - a]);
    }
    lemma_scan_quiet(cs, a + 1, a + j.len() - 1);
    assert(cs[a + j.len() - 1] == j[j.len() - 1]);
}

pub open spec fn head_lines(es: Seq<FileEntryView>, k: int) -> Seq<char> {
    "[\n"@ + comma_lines(es.take(k))
}

proof fn lemma_file_literals()
    ensures
        "[\n"@ == seq!['[', '\n'],
        "  "@ == seq![' ', ' '],
        ",\n"@ == seq![',', '\n'],
        "\n"@ == seq!['\n'],
        "]\n"@ == seq![']', '\n'],
        "[]"@ == seq!['[', ']'],
{
    reveal_strlit("[\n");
    reveal_strlit("  ");
    reveal_strlit(",\n");
    reveal_strlit("\n");
    reveal_strlit("]\n");
    reveal_strlit("[]");
    assert("[\n"@ =~= seq!['[', '\n']);
    assert("  "@ =~= seq![' ', ' ']);
    assert(",\n"@ =~= seq![',', '\n']);
    assert("\n"@ =~= seq!['\n']);
    assert("]\n"@ =~= seq![']', '\n']);
    assert("[]"@ =~= seq!['[', ']']);
}

/// Reading an indented entry line after a prefix read at depth one.
proof fn lemma_scan_line(prev: Seq<char>, e: FileEntryView, tail: Seq<char>)
    requires
        storable(e),
        scan(prev, prev.len() as int).0 == 1,
        forall|i: int| 0 <= i < tail.len() ==> !is_bracket(#[trigger] tail[i]),
    ensures
        scan(prev + seq![' ', ' '] + entry_json(e) + tail, (prev.len() + 2 + entry_json(e).len()
            + tail.len()) as int) == (1int, prev.len() + 2int, scan(prev, prev.len() as int).2.push(e)),
{
    let j = entry_json(e);
    let cur = prev + seq![' ', ' '] + j + tail;
    let p = prev.len() as int;
    lemma_scan_prefix(cur, p, p);
    assert(cur.take(p) =~= prev);
    assert forall|i: int| p <= i < p + 2 implies !is_bracket(#[trigger] cur[i]) by {
        assert(cur[i] == ' ');
    }
    lemma_scan_quiet(cur, p, p + 2);
    assert(cur.subrange(p + 2, p + 2 + j.len()) =~= j);
    lemma_scan_entry(cur, p + 2, e);
    assert forall|i: int| p + 2 + j.len() <= i < cur.len() implies !is_bracket(#[trigger] cur[i]) by {
        assert(cur[i] == tail[i - p - 2 - j.len()]);
    }
    lemma_scan_quiet(cur, p + 2 + j.len(), cur.len() as int);
}

proof fn lemma_scan_lines(es: Seq<FileEntryView>, k: int)
    requires
        0 <= k <= es.len(),
        forall|i: int| 0 <= i < es.len() ==> storable(#[trigger] es[i]),
    ensures
        scan(head_lines(es, k), head_lines(es, k).len() as int).0 == 1,
        scan(head_lines(es, k), head_lines(es, k).len() as int).2 == es.take(k),
    decreases k,
{
    lemma_file_literals();
    if k == 0 {
        reveal_with_fuel(scan, 3);
        let h = head_lines(es, 0);
        assert(es.take(0) =~= Seq::<FileEntryView>::empty());
        assert(h =~= seq!['[', '\n']);
    } else {
        lemma_scan_lines(es, k - 1);
        let e = es[k - 1];
        let prev = head_lines(es, k - 1);
        let cur = head_lines(es, k);
        assert(es.take(k).drop_last() =~= es.take(k - 1));
        assert(es.take(k).last() == e);
        let tail = seq![',', '\n'];
        assert(cur =~= prev + seq![' ', ' '] + entry_json(e) + tail);
        assert forall|i: int| 0 <= i < tail.len() implies !is_bracket(#[trigger] tail[i]) by {}
        lemma_scan_line(prev, e, tail);
        assert(cur.len() == prev.len() + 2 + entry_json(e).len() + tail.len());
        assert(es.take(k) =~= es.take(k - 1).push(e));
    }
}

proof fn lemma_file_trim(text: Seq<char>)
    requires
        text.len() >= 2,
        text[0] == '[',
        text.last() == '\n',
        text[text.len() - 2] == ']',
    ensures
        trim(text) == text.drop_last(),
{
    let t = text.drop_last();
    assert(is_ws('\n'));
    assert(!is_ws('['));
    assert(!is_ws(']'));
    assert(trim_start(text) == text);
    assert(t.last() == ']');
    assert(trim_end(t) == t);
}

proof fn lemma_storage_empty()
    ensures
        entries_of_text(entries_text(Seq::<FileEntryView>::empty())) == Seq::<FileEntryView>::empty(),
{
    lemma_file_literals();
    let text = entries_text(Seq::<FileEntryView>::empty());
    assert(text =~= seq!['[', '\n', ']', '\n']);
    lemma_file_trim(text);
    let t = text.drop_last();
    assert(t =~= seq!['[', '\n', ']']);
    assert(t != seq!['[', ']']);
    reveal_with_fuel(scan, 4);
    assert(scan(t, 3).2 =~= Seq::<FileEntryView>::empty());
}

proof fn lemma_storage_nonempty(es: Seq<FileEntryView>)
    requires
        es.len() > 0,
        forall|i: int| 0 <= i < es.len() ==> storable(#[trigger] es[i]),
    ensures
        entries_of_text(entries_text(es)) == es,
{
    lemma_file_literals();
    let text = entries_text(es);
    let n = es.len() - 1;
    let e = es[n];
    let h = head_lines(es, n);
    let j = entry_json(e);
    assert(es.take(n) =~= es.drop_last());
    let u = h + seq![' ', ' '] + j + seq!['\n'];
    let t = u.push(']');
    assert(text =~= t.push('\n'));
    assert(text.drop_last() =~= t);
    lemma_file_trim(text);
    assert(t[1] == '\n');
    assert(t != seq!['[', ']']);
    lemma_scan_lines(es, n);
    lemma_scan_line(h, e, seq!['\n']);
    lemma_scan_prefix(t, u.len() as int, u.len() as int);
    assert(t.take(u.len() as int) =~= u);
    assert(t[u.len() as int] == ']');
    assert(es =~= es.take(n).push(e));
}

/// Saving entries and reading the file back gives the same entries, in order, when
/// their texts are storable.
pub proof fn lemma_storage_roundtrip(es: Seq<FileEntryView>)
    requires
        forall|i: int| 0 <= i < es.len() ==> storable(#[trigger] es[i]),
    ensures
        entries_of_text(entries_text(es)) == es,
{
    if es.len() == 0 {
        lemma_storage_empty();
        assert(es =~= Seq::<FileEntryView>::empty());
    } else {
        lemma_storage_nonempty(es);
    }
}

impl Storage {
    pub closed spec fn path_view(&self) -> Seq<char> {
        self.path@
    }

    pub fn new(path: String) -> (s: Self)
        ensures
            s.path_view() == path@,
    {
        Storage { path }
    }

    /// Where the index file lives.
    pub fn path(&self) -> (r: &str)
        ensures
            r@ == self.path_view(),
    {
        self.path.as_str()
    }

    /// The text that saving these entries writes.
    pub fn format_entries(entries: &Vec<FileEntry>) -> (r: String)
        ensures
            r@ == entries_text(entry_views(entries@)),
    {
        let mut out: Vec<char> = Vec::new();
        push_str(&mut out, "[\n");
        let ghost es = entry_views(entries@);
        if entries.len() == 0 {
            push_str(&mut out, "]\n");
            return string_of(&out);
        }
        let n = entries.len() - 1;
        let mut i: usize = 0;
        assert(es.take(0) =~= Seq::<FileEntryView>::empty());
        assert(out@ =~= "[\n"@ + comma_lines(es.take(0)));
        while i < n
            invariant
                i <= n,
                n == entries.len() - 1,
                es == entry_views(entries@),
                out@ == "[\n"@ + comma_lines(es.take(i as int)),
            decreases n - i,
        {
            let line = entries[i].to_json();
            push_str(&mut out, "  ");
            push_str(&mut out, line.as_str());
            push_str(&mut out, ",\n");
            proof {
                assert(es.take(i + 1).drop_last() =~= es.take(i as int));
                assert(es.take(i + 1).last() == entries@[i as int]@);
                assert(out@ =~= "[\n"@ + comma_lines(es.take(i + 1)));
            }
            i = i + 1;
        }
        let line = entries[n].to_json();
        push_str(&mut out, "  ");
        push_str(&mut out, line.as_str());
        push_str(&mut out, "\n");
        push_str(&mut out, "]\n");
        proof {
            assert(es.take(n as int) =~= es.drop_last());
            assert(es.last() == entries@[n as int]@);
            assert(out@ =~= entries_text(es));
        }
        string_of(&out)
    }

    /// The entries that reading this file text gives.
    pub fn parse_entries(content: &str) -> (r: Vec<FileEntry>)
        ensures
            entry_views(r@) == entries_of_text(content@),
    {
        let cs = chars_of(content);
        let t = trim_chars(&cs);
        if eq_str(&t, "[]") || t.len() == 0 {
            return Vec::new();
        }
        let mut entries: Vec<FileEntry> = Vec::new();
        let mut depth: i128 = 0;
        let mut start: usize = 0;
        let mut i: usize = 0;
        while i < t.len()
            invariant
                i <= t.len(),
                start <= i,
                -(i as int) <= depth <= i as int,
                scan(t@, i as int) == (depth as int, start as int, entry_views(entries@)),
            decreases t.len() - i,
        {
            let c = t[i];
            let ghost before = entry_views(entries@);
            if c == '[' {
                depth = depth + 1;
            } else if c == ']' {
                depth = depth - 1;
            } else if c == '{' && depth == 1 {
                start = i;
            } else if c == '}' && depth == 1 {
                let json_chars = slice_chars(&t, start, i + 1);
                let json = string_of(&json_chars);
                match FileEntry::from_json(json.as_str()) {
                    Some(e) => {
                        entries.push(e);
                        assert(entry_views(entries@) =~= before.push(e@));
                    },
                    None => {},
                }
            }
            i = i + 1;
        }
        entries
    }

    /// The number of entries that reading this file text gives.
    pub fn entry_count(content: &str) -> (r: u64)
        ensures
            r == entries_of_text(content@).len(),
    {
        let entries = Storage::parse_entries(content);
        entries.len() as u64
    }
}

} // verus!
