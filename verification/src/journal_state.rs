//! Where the incremental journal reader stopped on each volume: the last journal
//! position read and the journal's id, kept per drive letter, with the text form
//! of the state file.
use vstd::prelude::*;
use crate::entry_json::{json_escape_chars, json_escape_spec, lemma_escape_plain};
use crate::text::{
    chars_eq, chars_of, decimal, decimal_int, find_char, fmt_i64, fmt_u64, index_of_char,
    join_chars, join_with, lemma_index_of_char, parse_i64, parse_i64_spec, parse_u64,
    parse_u64_spec, push_all, push_str, slice_chars, split_char, split_chars, string_of,
    strip_end, strip_end_chars, trim, trim_chars, is_ws, trim_end, trim_start,
};
use crate::ui_config::{
    json_value, json_value_chars, lemma_find_first, lemma_json_value_number, lemma_json_value_string,
    quoted,
};
use crate::text::match_at;
use crate::json_tokens::{lacks, lemma_trim_end_ws};

verus! {

/// The journal position reached on one volume.
#[derive(Debug, Clone)]
pub struct VolumeJournalState {
    pub volume_letter: String,
    pub last_usn: i64,
    pub usn_journal_id: u64,
}

pub struct VolumeView {
    pub volume_letter: Seq<char>,
    pub last_usn: i64,
    pub usn_journal_id: u64,
}

impl View for VolumeJournalState {
    type V = VolumeView;

    open spec fn view(&self) -> VolumeView {
        VolumeView {
            volume_letter: self.volume_letter@,
            last_usn: self.last_usn,
            usn_journal_id: self.usn_journal_id,
        }
    }
}

/// The journal positions of all volumes.
#[derive(Debug, Clone)]
pub struct UsnJournalState {
    pub volumes: Vec<VolumeJournalState>,
}

impl View for UsnJournalState {
    type V = Seq<VolumeView>;

    open spec fn view(&self) -> Seq<VolumeView> {
        self.volumes@.map_values(|v: VolumeJournalState| v@)
    }
}

/// Position of the first state for `letter`.
pub open spec fn volume_index(vs: Seq<VolumeView>, letter: Seq<char>) -> Option<int>
    decreases vs.len(),
{
    if vs.len() == 0 {
        None
    } else {
        match volume_index(vs.drop_last(), letter) {
            Some(i) => Some(i),
            None => if vs.last().volume_letter == letter {
                Some(vs.len() - 1)
            } else {
                None
            },
        }
    }
}

/// The state for `letter`, the first one there is.
pub open spec fn volume_of(vs: Seq<VolumeView>, letter: Seq<char>) -> Option<VolumeView> {
    match volume_index(vs, letter) {
        Some(i) => Some(vs[i]),
        None => None,
    }
}

/// The states after recording `usn` and `id` for `letter`: the first state for the
/// letter takes them, or a new state is added at the end when there is none.
pub open spec fn with_volume(vs: Seq<VolumeView>, letter: Seq<char>, usn: i64, id: u64) -> Seq<
    VolumeView,
> {
    let v = VolumeView { volume_letter: letter, last_usn: usn, usn_journal_id: id };
    match volume_index(vs, letter) {
        Some(i) => vs.update(i, v),
        None => vs.push(v),
    }
}

pub proof fn lemma_volume_index(vs: Seq<VolumeView>, letter: Seq<char>)
    ensures
        volume_index(vs, letter) matches Some(i) ==> 0 <= i < vs.len() && vs[i].volume_letter
            == letter && forall|j: int| 0 <= j < i ==> vs[j].volume_letter != letter,
        volume_index(vs, letter) is None ==> forall|j: int|
            0 <= j < vs.len() ==> vs[j].volume_letter != letter,
    decreases vs.len(),
{
    if vs.len() > 0 {
        let p = vs.drop_last();
        lemma_volume_index(p, letter);
        assert forall|j: int| 0 <= j < p.len() implies p[j] == vs[j] by {}
    }
}

/// The one-line form of a volume's state.
pub open spec fn volume_json(v: VolumeView) -> Seq<char> {
    "{\"volume_letter\":\""@ + json_escape_spec(v.volume_letter) + "\",\"last_usn\":"@
        + decimal_int(v.last_usn as int) + ",\"usn_journal_id\":"@ + decimal(
        v.usn_journal_id as nat,
    ) + "}"@
}

/// The text of the state file: the volumes' states, one per line, in a `volumes` array.
pub open spec fn journal_json(vs: Seq<VolumeView>) -> Seq<char> {
    "{\n  \"volumes\": [\n    "@ + join_with(
        vs.map_values(|v: VolumeView| volume_json(v)),
        ",\n    "@,
    ) + "\n  ]\n}\n"@
}

/// A volume's state from the text between two `{`: commas and then braces dropped from
/// its end, trimmed and put back in braces; its fields read by key, 0 for a number that
/// is missing or does not read. Absent when the letter is missing or empty.
pub open spec fn item_volume(item: Seq<char>) -> Option<VolumeView> {
    let it = seq!['{'] + trim(strip_end(strip_end(item, ','), '}')) + seq!['}'];
    let letter = match json_value(it, "volume_letter"@) {
        Some(v) => v,
        None => seq![],
    };
    let usn = match json_value(it, "last_usn"@) {
        Some(v) => match parse_i64_spec(v) {
            Some(n) => n,
            None => 0,
        },
        None => 0,
    };
    let id = match json_value(it, "usn_journal_id"@) {
        Some(v) => match parse_u64_spec(v) {
            Some(n) => n,
            None => 0,
        },
        None => 0,
    };
    if letter.len() > 0 {
        Some(VolumeView { volume_letter: letter, last_usn: usn, usn_journal_id: id })
    } else {
        None
    }
}

pub open spec fn items_volumes(items: Seq<Seq<char>>) -> Seq<VolumeView>
    decreases items.len(),
{
    if items.len() == 0 {
        seq![]
    } else {
        items_volumes(items.drop_last()) + match item_volume(items.last()) {
            Some(v) => seq![v],
            None => seq![],
        }
    }
}

/// The states that a state file's text holds: the text from the first `[` to the next
/// `]`, cut at each `{`, every piece after the first read as one volume's state.
pub open spec fn journal_from_json(s: Seq<char>) -> Seq<VolumeView> {
    match index_of_char(s, '[') {
        Some(a) => match index_of_char(s.skip(a), ']') {
            Some(b) => items_volumes(split_char(s.subrange(a + 1, a + b), '{').skip(1)),
            None => seq![],
        },
        None => seq![],
    }
}

/// Recording a position for a volume: afterwards the volume's state is exactly the one
/// recorded, and the state of every other volume is what it was.
pub proof fn lemma_update_then_get(
    vs: Seq<VolumeView>,
    letter: Seq<char>,
    usn: i64,
    id: u64,
    other: Seq<char>,
)
    ensures
        volume_of(with_volume(vs, letter, usn, id), letter) == Some(
            VolumeView { volume_letter: letter, last_usn: usn, usn_journal_id: id },
        ),
        other != letter ==> volume_of(with_volume(vs, letter, usn, id), other) == volume_of(
            vs,
            other,
        ),
{
    let v = VolumeView { volume_letter: letter, last_usn: usn, usn_journal_id: id };
    let ws = with_volume(vs, letter, usn, id);
    lemma_volume_index(vs, letter);
    lemma_volume_index(ws, letter);
    lemma_volume_index(vs, other);
    lemma_volume_index(ws, other);
    match volume_index(vs, letter) {
        Some(i) => {
            assert(ws == vs.update(i, v));
            assert(ws[i] == v);
            match volume_index(ws, letter) {
                Some(k) => {
                    assert(!(k < i));
                    assert(!(k > i));
                },
                None => {
                    assert(ws[i].volume_letter == letter);
                },
            }
            if other != letter {
                match volume_index(vs, other) {
                    Some(j) => {
                        assert(j != i);
                        assert(ws[j] == vs[j]);
                        match volume_index(ws, other) {
                            Some(k) => {
                                if k < j {
                                    if k == i {
                                    } else {
                                        assert(ws[k] == vs[k]);
                                    }
                                }
                                if k > j {
                                }
                                assert(k == j);
                            },
                            None => {
                                assert(ws[j].volume_letter == other);
                            },
                        }
                    },
                    None => {
                        match volume_index(ws, other) {
                            Some(k) => {
                                if k != i {
                                    assert(ws[k] == vs[k]);
                                }
                            },
                            None => {},
                        }
                    },
                }
            }
        },
        None => {
            assert(ws == vs.push(v));
            assert(ws[vs.len() as int] == v);
            match volume_index(ws, letter) {
                Some(k) => {
                    if k < vs.len() {
                        assert(ws[k] == vs[k]);
                    }
                },
                None => {
                    assert(ws[vs.len() as int].volume_letter == letter);
                },
            }
            if other != letter {
                match volume_index(vs, other) {
                    Some(j) => {
                        assert(ws[j] == vs[j]);
                        match volume_index(ws, other) {
                            Some(k) => {
                                if k < j {
                                    assert(ws[k] == vs[k]);
                                }
                                assert(k == j);
                            },
                            None => {
                                assert(ws[j].volume_letter == other);
                            },
                        }
                    },
                    None => {
                        match volume_index(ws, other) {
                            Some(k) => {
                                if k < vs.len() {
                                    assert(ws[k] == vs[k]);
                                }
                            },
                            None => {},
                        }
                    },
                }
            }
        },
    }
}

/// A journal recorded for a volume counts as valid for the id it was recorded with, and
/// for no other.
pub proof fn lemma_recorded_journal_valid(
    vs: Seq<VolumeView>,
    letter: Seq<char>,
    usn: i64,
    id: u64,
    current: u64,
)
    ensures
        (match volume_of(with_volume(vs, letter, usn, id), letter) {
            Some(v) => v.usn_journal_id == current,
            None => false,
        }) == (current == id),
{
    lemma_update_then_get(vs, letter, usn, id, letter);
}

/// Recording a position adds a state only for a volume that had none, so no volume ever
/// has two states.
pub proof fn lemma_update_keeps_letters_distinct(
    vs: Seq<VolumeView>,
    letter: Seq<char>,
    usn: i64,
    id: u64,
)
    requires
        forall|a: int, b: int|
            0 <= a < b < vs.len() ==> vs[a].volume_letter != vs[b].volume_letter,
    ensures
        forall|a: int, b: int|
            0 <= a < b < with_volume(vs, letter, usn, id).len() ==> with_volume(
                vs,
                letter,
                usn,
                id,
            )[a].volume_letter != with_volume(vs, letter, usn, id)[b].volume_letter,
        with_volume(vs, letter, usn, id).len() == vs.len() + (if volume_index(vs, letter) is Some {
            0int
        } else {
            1int
        }),
{
    lemma_volume_index(vs, letter);
    let ws = with_volume(vs, letter, usn, id);
    assert forall|a: int, b: int|
        0 <= a < b < ws.len() implies ws[a].volume_letter != ws[b].volume_letter by {
        match volume_index(vs, letter) {
            Some(i) => {
                if a == i {
                    assert(vs[b].volume_letter != vs[i].volume_letter);
                } else if b == i {
                    assert(vs[a].volume_letter != vs[i].volume_letter);
                }
            },
            None => {
                if b == vs.len() {
                    assert(vs[a].volume_letter != letter);
                }
            },
        }
    }
}

fn same_letter(a: &String, b: &Vec<char>) -> (r: bool)
    ensures
        r == (a@ == b@),
{
    let ac = chars_of(a.as_str());
    chars_eq(&ac, b)
}

fn volume_from_item(item: &Vec<char>) -> (r: Option<VolumeJournalState>)
    ensures
        match r {
            Some(v) => item_volume(item@) == Some(v@),
            None => item_volume(item@) is None,
        },
{
    let a = strip_end_chars(item, ',');
    let b = strip_end_chars(&a, '}');
    let t = trim_chars(&b);
    let mut it: Vec<char> = Vec::new();
    it.push('{');
    push_all(&mut it, &t);
    it.push('}');
    assert(it@ =~= seq!['{'] + trim(strip_end(strip_end(item@, ','), '}')) + seq!['}']);
    let letter = match json_value_chars(&it, &chars_of("volume_letter")) {
        Some(v) => v,
        None => Vec::new(),
    };
    let usn: i64 = match json_value_chars(&it, &chars_of("last_usn")) {
        Some(v) => match parse_i64(&v) {
            Some(n) => n,
            None => 0,
        },
        None => 0,
    };
    let id: u64 = match json_value_chars(&it, &chars_of("usn_journal_id")) {
        Some(v) => match parse_u64(&v) {
            Some(n) => n,
            None => 0,
        },
        None => 0,
    };
    if letter.len() > 0 {
        Some(VolumeJournalState { volume_letter: string_of(&letter), last_usn: usn, usn_journal_id: id })
    } else {
        None
    }
}

impl UsnJournalState {
    pub fn new() -> (r: UsnJournalState)
        ensures
            r@ == Seq::<VolumeView>::empty(),
    {
        let r = UsnJournalState { volumes: Vec::new() };
        assert(r@ =~= Seq::<VolumeView>::empty());
        r
    }

    /// Records the position reached on a volume: see `with_volume`.
    pub fn update_volume(&mut self, volume_letter: &str, last_usn: i64, usn_journal_id: u64)
        ensures
            final(self)@ == with_volume(old(self)@, volume_letter@, last_usn, usn_journal_id),
    {
        let letter = chars_of(volume_letter);
        let ghost vs = self@;
        let mut i: usize = 0;
        while i < self.volumes.len()
            invariant
                i <= self.volumes.len(),
                self@ == vs,
                vs == old(self)@,
                letter@ == volume_letter@,
                forall|j: int| 0 <= j < i ==> vs[j].volume_letter != letter@,
            decreases self.volumes.len() - i,
        {
            if same_letter(&self.volumes[i].volume_letter, &letter) {
                proof {
                    assert(vs[i as int] == self.volumes@[i as int]@);
                    assert(vs[i as int].volume_letter == letter@);
                    lemma_volume_index(vs, letter@);
                    assert(volume_index(vs, letter@) == Some(i as int)) by {
                        if volume_index(vs, letter@) is None {
                            assert(vs[i as int].volume_letter == letter@);
                        } else {
                            let k = volume_index(vs, letter@)->0;
                            assert(!(k < i));
                            assert(!(k > i));
                        }
                    }
                }
                let old_letter = self.volumes[i].volume_letter.clone();
                self.volumes.set(
                    i,
                    VolumeJournalState { volume_letter: old_letter, last_usn, usn_journal_id },
                );
                assert(self@ =~= with_volume(vs, volume_letter@, last_usn, usn_journal_id));
                return;
            }
            i = i + 1;
        }
        proof {
            lemma_volume_index(vs, letter@);
            if volume_index(vs, letter@) is Some {
                let k = volume_index(vs, letter@)->0;
                assert(vs[k].volume_letter == letter@);
            }
        }
        self.volumes.push(
            VolumeJournalState {
                volume_letter: string_of(&letter),
                last_usn,
                usn_journal_id,
            },
        );
        assert(self@ =~= with_volume(vs, volume_letter@, last_usn, usn_journal_id));
    }

    /// The state of a volume: see `volume_of`.
    pub fn get_volume(&self, volume_letter: &str) -> (r: Option<&VolumeJournalState>)
        ensures
            match r {
                Some(v) => volume_of(self@, volume_letter@) == Some(v@),
                None => volume_of(self@, volume_letter@) is None,
            },
    {
        let letter = chars_of(volume_letter);
        let ghost vs = self@;
        proof {
            lemma_volume_index(vs, letter@);
        }
        let mut i: usize = 0;
        while i < self.volumes.len()
            invariant
                i <= self.volumes.len(),
                self@ == vs,
                letter@ == volume_letter@,
                forall|j: int| 0 <= j < i ==> vs[j].volume_letter != letter@,
                volume_index(vs, letter@) matches Some(k) ==> 0 <= k < vs.len()
                    && vs[k].volume_letter == letter@ && forall|j: int|
                    0 <= j < k ==> vs[j].volume_letter != letter@,
                volume_index(vs, letter@) is None ==> forall|j: int|
                    0 <= j < vs.len() ==> vs[j].volume_letter != letter@,
            decreases self.volumes.len() - i,
        {
            if same_letter(&self.volumes[i].volume_letter, &letter) {
                assert(vs[i as int] == self.volumes@[i as int]@);
                assert(vs[i as int].volume_letter == letter@);
                assert(volume_index(vs, letter@) == Some(i as int)) by {
                    if volume_index(vs, letter@) is None {
                        assert(vs[i as int].volume_letter == letter@);
                    } else {
                        let k = volume_index(vs, letter@)->0;
                        assert(!(k < i));
                        assert(!(k > i));
                    }
                }
                return Some(&self.volumes[i]);
            }
            i = i + 1;
        }
        proof {
            if volume_index(vs, letter@) is Some {
                let k = volume_index(vs, letter@)->0;
                assert(vs[k].volume_letter == letter@);
            }
        }
        None
    }

    /// Whether the recorded journal of a volume is still the current one: a state for
    /// the volume exists and holds `current_journal_id`.
    pub fn is_journal_valid(&self, volume_letter: &str, current_journal_id: u64) -> (r: bool)
        ensures
            r == (match volume_of(self@, volume_letter@) {
                Some(v) => v.usn_journal_id == current_journal_id,
                None => false,
            }),
    {
        match self.get_volume(volume_letter) {
            Some(v) => v.usn_journal_id == current_journal_id,
            None => false,
        }
    }

    /// The text of the state file: see `journal_json`.
    pub fn to_json(&self) -> (r: String)
        ensures
            r@ == journal_json(self@),
    {
        let ghost vs = self@;
        let mut items: Vec<Vec<char>> = Vec::new();
        let mut i: usize = 0;
        while i < self.volumes.len()
            invariant
                i <= self.volumes.len(),
                vs == self@,
                items@.map_values(|p: Vec<char>| p@) == vs.map_values(
                    |v: VolumeView| volume_json(v),
                ).take(i as int),
            decreases self.volumes.len() - i,
        {
            let v = &self.volumes[i];
            let mut t: Vec<char> = Vec::new();
            push_str(&mut t, "{\"volume_letter\":\"");
            let lc = chars_of(v.volume_letter.as_str());
            let e = json_escape_chars(&lc);
            push_all(&mut t, &e);
            push_str(&mut t, "\",\"last_usn\":");
            let u = fmt_i64(v.last_usn);
            push_all(&mut t, &u);
            push_str(&mut t, ",\"usn_journal_id\":");
            let d = fmt_u64(v.usn_journal_id);
            push_all(&mut t, &d);
            push_str(&mut t, "}");
            assert(t@ =~= volume_json(vs[i as int]));
            let ghost before = items@.map_values(|p: Vec<char>| p@);
            items.push(t);
            assert(items@.map_values(|p: Vec<char>| p@) =~= before.push(volume_json(vs[i as int])));
            assert(vs.map_values(|v: VolumeView| volume_json(v)).take(i + 1) =~= vs.map_values(
                |v: VolumeView| volume_json(v),
            ).take(i as int).push(volume_json(vs[i as int])));
            i = i + 1;
        }
        assert(vs.map_values(|v: VolumeView| volume_json(v)).take(i as int) =~= vs.map_values(
            |v: VolumeView| volume_json(v),
        ));
        let mut out: Vec<char> = Vec::new();
        push_str(&mut out, "{\n  \"volumes\": [\n    ");
        let sep = chars_of(",\n    ");
        let body = join_chars(&items, &sep);
        push_all(&mut out, &body);
        push_str(&mut out, "\n  ]\n}\n");
        string_of(&out)
    }

    /// Reads the state file's text: see `journal_from_json`.
    pub fn from_json(s: &str) -> (r: UsnJournalState)
        ensures
            r@ == journal_from_json(s@),
    {
        let cs = chars_of(s);
        let mut volumes: Vec<VolumeJournalState> = Vec::new();
        let a = match find_char(&cs, '[') {
            Some(a) => a,
            None => {
                let r = UsnJournalState { volumes };
                assert(r@ =~= Seq::<VolumeView>::empty());
                return r;
            },
        };
        proof {
            lemma_index_of_char(cs@, '[');
        }
        let tail = slice_chars(&cs, a, cs.len());
        assert(tail@ =~= cs@.skip(a as int));
        let b = match find_char(&tail, ']') {
            Some(b) => b,
            None => {
                let r = UsnJournalState { volumes };
                assert(r@ =~= Seq::<VolumeView>::empty());
                return r;
            },
        };
        proof {
            lemma_index_of_char(tail@, ']');
            assert(tail@[0] == '[');
        }
        let content = slice_chars(&cs, a + 1, a + b);
        let parts = split_chars(&content, '{');
        let ghost items = parts@.map_values(|p: Vec<char>| p@).skip(1);
        let mut i: usize = 1;
        assert(items.take(0) =~= Seq::<Seq<char>>::empty());
        assert(volumes@.map_values(|v: VolumeJournalState| v@) =~= Seq::<VolumeView>::empty());
        while i < parts.len()
            invariant
                1 <= i,
                i <= parts.len() || parts.len() == 0,
                items == parts@.map_values(|p: Vec<char>| p@).skip(1),
                volumes@.map_values(|v: VolumeJournalState| v@) == items_volumes(
                    items.take(i - 1),
                ),
            decreases parts.len() - i,
        {
            assert(items.take(i as int).drop_last() =~= items.take(i - 1));
            assert(items.take(i as int).last() == parts@[i as int]@);
            let ghost before = volumes@.map_values(|v: VolumeJournalState| v@);
            match volume_from_item(&parts[i]) {
                Some(v) => {
                    let ghost vv = v@;
                    volumes.push(v);
                    assert(volumes@.map_values(|v: VolumeJournalState| v@) =~= before + seq![vv]);
                },
                None => {
                    assert(before =~= before + Seq::<VolumeView>::empty());
                },
            }
            i = i + 1;
        }
        proof {
            if parts.len() > 0 {
                assert(items.take(i - 1) =~= items);
            } else {
                assert(items =~= Seq::<Seq<char>>::empty());
                assert(items.take(i - 1) =~= items);
            }
        }
        UsnJournalState { volumes }
    }
}

// ---------------------------------------------------------------------------
// Reading back what was written
// ---------------------------------------------------------------------------

/// A drive letter that the state file carries through unchanged: not empty, and without
/// the characters that the text form escapes or cuts at.
pub open spec fn plain_letter(l: Seq<char>) -> bool {
    &&& l.len() > 0
    &&& forall|i: int|
        0 <= i < l.len() ==> #[trigger] l[i] != '"' && l[i] != '\\' && l[i] != '\n' && l[i]
            != '\r' && l[i] != '\t' && l[i] != '{' && l[i] != ']'
}

/// Whether a state's journal id reads back: always, unless its letter is spelled like
/// the id's key, which makes the reader take the position for the id (a negative one
/// reads as 0).
pub open spec fn id_reads_back(v: VolumeView) -> bool {
    v.volume_letter != id_key() || (if v.last_usn >= 0 {
        v.usn_journal_id == v.last_usn
    } else {
        v.usn_journal_id == 0
    })
}

pub open spec fn id_key() -> Seq<char> {
    seq!['u', 's', 'n', '_', 'j', 'o', 'u', 'r', 'n', 'a', 'l', '_', 'i', 'd']
}

pub open spec fn usn_key() -> Seq<char> {
    seq!['l', 'a', 's', 't', '_', 'u', 's', 'n']
}

pub open spec fn letter_key() -> Seq<char> {
    seq!['v', 'o', 'l', 'u', 'm', 'e', '_', 'l', 'e', 't', 't', 'e', 'r']
}

spec fn vhead() -> Seq<char> {
    seq!['{', '"', 'v', 'o', 'l', 'u', 'm', 'e', '_', 'l', 'e', 't', 't', 'e', 'r', '"', ':', '"']
}

spec fn vmid1() -> Seq<char> {
    seq!['"', ',', '"', 'l', 'a', 's', 't', '_', 'u', 's', 'n', '"', ':']
}

spec fn vmid2() -> Seq<char> {
    seq![',', '"', 'u', 's', 'n', '_', 'j', 'o', 'u', 'r', 'n', 'a', 'l', '_', 'i', 'd', '"', ':']
}

/// The one-line form of a state with a plain letter, piece by piece.
spec fn volume_parts(v: VolumeView) -> Seq<char> {
    vhead() + v.volume_letter + vmid1() + decimal_int(v.last_usn as int) + vmid2() + decimal(
        v.usn_journal_id as nat,
    ) + seq!['}']
}

proof fn lemma_volume_parts(v: VolumeView)
    requires
        plain_letter(v.volume_letter),
    ensures
        volume_json(v) == volume_parts(v),
{
    reveal_strlit("{\"volume_letter\":\"");
    reveal_strlit("\",\"last_usn\":");
    reveal_strlit(",\"usn_journal_id\":");
    reveal_strlit("}");
    let l = v.volume_letter;
    assert forall|i: int| 0 <= i < l.len() implies #[trigger] l[i] != '"' && l[i] != '\\' && l[i]
        != '\n' && l[i] != '\r' && l[i] != '\t' by {}
    lemma_escape_plain(l);
    assert("{\"volume_letter\":\""@ =~= vhead());
    assert("\",\"last_usn\":"@ =~= vmid1());
    assert(",\"usn_journal_id\":"@ =~= vmid2());
    assert("}"@ =~= seq!['}']);
}

/// The text that a state's item becomes before its fields are read: its one-line form,
/// then `tail`, then a closing brace.
#[verifier::opaque]
spec fn item_text(v: VolumeView, tail: Seq<char>) -> Seq<char> {
    volume_parts(v) + tail + seq!['}']
}

proof fn lemma_item_chars(v: VolumeView, tail: Seq<char>)
    ensures
        ({
            let it = item_text(v, tail);
            let n = v.volume_letter.len() as int;
            let d1 = decimal_int(v.last_usn as int);
            let d2 = decimal(v.usn_journal_id as nat);
            let m1 = d1.len() as int;
            let m2 = d2.len() as int;
            &&& it.len() == 51 + n + m1 + m2 + tail.len()
            &&& forall|j: int| 0 <= j < 18 ==> it[j] == #[trigger] vhead()[j]
            &&& forall|j: int| 0 <= j < n ==> it[18 + j] == #[trigger] v.volume_letter[j]
            &&& forall|j: int| 0 <= j < 13 ==> it[18 + n + j] == #[trigger] vmid1()[j]
            &&& forall|j: int| 0 <= j < m1 ==> it[31 + n + j] == #[trigger] d1[j]
            &&& forall|j: int| 0 <= j < 18 ==> it[31 + n + m1 + j] == #[trigger] vmid2()[j]
            &&& forall|j: int| 0 <= j < m2 ==> it[49 + n + m1 + j] == #[trigger] d2[j]
            &&& it[49 + n + m1 + m2] == '}'
            &&& it.last() == '}'
        }),
{
    reveal(item_text);
    let n = v.volume_letter.len() as int;
    let d1 = decimal_int(v.last_usn as int);
    let d2 = decimal(v.usn_journal_id as nat);
    let a0 = vhead();
    let a1 = a0 + v.volume_letter;
    let a2 = a1 + vmid1();
    let a3 = a2 + d1;
    let a4 = a3 + vmid2();
    let a5 = a4 + d2;
    let a6 = a5 + seq!['}'];
    let it = a6 + tail + seq!['}'];
    assert forall|j: int| 0 <= j < 18 implies it[j] == #[trigger] vhead()[j] by {
        assert(it[j] == a6[j] && a6[j] == a5[j] && a5[j] == a4[j] && a4[j] == a3[j]);
        assert(a3[j] == a2[j] && a2[j] == a1[j] && a1[j] == a0[j]);
    }
    assert forall|j: int| 0 <= j < n implies it[18 + j] == #[trigger] v.volume_letter[j] by {
        let k = 18 + j;
        assert(it[k] == a6[k] && a6[k] == a5[k] && a5[k] == a4[k] && a4[k] == a3[k]);
        assert(a3[k] == a2[k] && a2[k] == a1[k]);
    }
    assert forall|j: int| 0 <= j < 13 implies it[18 + n + j] == #[trigger] vmid1()[j] by {
        let k = 18 + n + j;
        assert(it[k] == a6[k] && a6[k] == a5[k] && a5[k] == a4[k] && a4[k] == a3[k]);
        assert(a3[k] == a2[k]);
    }
    assert forall|j: int| 0 <= j < d1.len() implies it[31 + n + j] == #[trigger] d1[j] by {
        let k = 31 + n + j;
        assert(it[k] == a6[k] && a6[k] == a5[k] && a5[k] == a4[k] && a4[k] == a3[k]);
    }
    assert forall|j: int| 0 <= j < 18 implies it[31 + n + d1.len() + j] == #[trigger] vmid2()[j] by {
        let k = 31 + n + d1.len() + j;
        assert(it[k] == a6[k] && a6[k] == a5[k] && a5[k] == a4[k]);
    }
    assert forall|j: int| 0 <= j < d2.len() implies it[49 + n + d1.len() + j] == #[trigger] d2[j] by {
        let k = 49 + n + d1.len() + j;
        assert(it[k] == a6[k] && a6[k] == a5[k]);
    }
    let e = 49 + n + d1.len() + d2.len();
    assert(it[e] == a6[e]);
}

/// A pattern does not occur at `j` when one of its characters differs there.
proof fn lemma_no_match_at(s: Seq<char>, pat: Seq<char>, j: int, k: int)
    requires
        0 <= k < pat.len(),
        0 <= j,
        j + k < s.len(),
        s[j + k] != pat[k],
    ensures
        !match_at(s, pat, j),
{
    if match_at(s, pat, j) {
        assert(s.subrange(j, j + pat.len())[k] == s[j + k]);
    }
}

/// Two texts of the same length that differ somewhere differ at some position.
proof fn lemma_differ_at(a: Seq<char>, b: Seq<char>) -> (i: int)
    requires
        a.len() == b.len(),
        a != b,
    ensures
        0 <= i < a.len(),
        a[i] != b[i],
{
    if forall|i: int| 0 <= i < a.len() ==> a[i] == b[i] {
        assert(a =~= b);
    }
    choose|i: int| 0 <= i < a.len() && a[i] != b[i]
}

proof fn lemma_item_letter(v: VolumeView, tail: Seq<char>)
    requires
        plain_letter(v.volume_letter),
    ensures
        json_value(item_text(v, tail), "volume_letter"@) == Some(v.volume_letter),
{
    reveal_strlit("volume_letter");
    assert("volume_letter"@ =~= letter_key());
    let it = item_text(v, tail);
    let l = v.volume_letter;
    let n = l.len() as int;
    lemma_item_chars(v, tail);
    let pat = quoted(letter_key());
    assert(pat.len() == 15);
    assert forall|i: int| 0 <= i < 15 implies it.subrange(1, 16)[i] == pat[i] by {
        assert(it[1 + i] == vhead()[1 + i]);
    }
    assert(it.subrange(1, 16) =~= pat);
    assert(it[0] == vhead()[0]);
    lemma_no_match_at(it, pat, 0, 0);
    lemma_find_first(it, pat, 1);
    let w = seq![':', '"'] + l + seq!['"'];
    assert forall|i: int| 0 <= i < 3 + n implies it.subrange(16, 19 + n)[i] == w[i] by {
        if i < 2 {
            assert(it[16 + i] == vhead()[16 + i]);
        } else if i < 2 + n {
            assert(it[18 + (i - 2)] == l[i - 2]);
        } else {
            assert(it[18 + n + 0] == vmid1()[0]);
        }
    }
    assert(it.subrange(16, 19 + n) =~= w);
    lemma_json_value_string(it, letter_key(), 1, l);
}

/// No pattern that starts with a quote and then `c` occurs in the first 17 characters
/// of an item, for a `c` that follows no quote there.
proof fn lemma_no_match_in_head(v: VolumeView, tail: Seq<char>, pat: Seq<char>)
    requires
        pat.len() >= 2,
        pat[0] == '"',
        pat[1] != 'v' && pat[1] != ':' && pat[1] != '"',
        17 + pat.len() <= item_text(v, tail).len(),
    ensures
        forall|j: int| 0 <= j < 17 ==> !match_at(item_text(v, tail), pat, j),
{
    let it = item_text(v, tail);
    lemma_item_chars(v, tail);
    assert forall|j: int| 0 <= j < 17 implies !match_at(it, pat, j) by {
        assert(it[j] == vhead()[j]);
        assert(it[j + 1] == vhead()[j + 1]);
        if vhead()[j] == '"' {
            lemma_no_match_at(it, pat, j, 1);
        } else {
            lemma_no_match_at(it, pat, j, 0);
        }
    }
}

/// A quoted key does not occur right before the letter unless the letter is the key.
proof fn lemma_no_match_letter(v: VolumeView, tail: Seq<char>, key: Seq<char>)
    requires
        plain_letter(v.volume_letter),
        v.volume_letter != key,
        forall|i: int| 0 <= i < key.len() ==> #[trigger] key[i] != '"',
        18 + key.len() <= item_text(v, tail).len(),
    ensures
        !match_at(item_text(v, tail), quoted(key), 17),
{
    let it = item_text(v, tail);
    let l = v.volume_letter;
    let n = l.len() as int;
    let pat = quoted(key);
    let m = key.len() as int;
    lemma_item_chars(v, tail);
    if n < m {
        assert(it[18 + n + 0] == vmid1()[0]);
        assert(pat[1 + n] == key[n]);
        lemma_no_match_at(it, pat, 17, 1 + n);
    } else if n > m {
        assert(it[18 + m] == l[m]);
        assert(pat[1 + m] == '"');
        lemma_no_match_at(it, pat, 17, 1 + m);
    } else {
        let i = lemma_differ_at(l, key);
        assert(it[18 + i] == l[i]);
        assert(pat[1 + i] == key[i]);
        lemma_no_match_at(it, pat, 17, 1 + i);
    }
}

proof fn lemma_item_usn(v: VolumeView, tail: Seq<char>)
    requires
        plain_letter(v.volume_letter),
    ensures
        json_value(item_text(v, tail), "last_usn"@) == Some(decimal_int(v.last_usn as int)),
{
    reveal_strlit("last_usn");
    assert("last_usn"@ =~= usn_key());
    let it = item_text(v, tail);
    let l = v.volume_letter;
    let n = l.len() as int;
    let d1 = decimal_int(v.last_usn as int);
    let m1 = d1.len() as int;
    lemma_item_chars(v, tail);
    crate::entry_json::lemma_decimal_int_number(v.last_usn as int);
    let pat = quoted(usn_key());
    assert(pat.len() == 10);
    lemma_no_match_in_head(v, tail, pat);
    assert(it[31 + n + m1 + 0] == vmid2()[0]);
    if l != usn_key() {
        let p = 20 + n;
        assert forall|i: int| 0 <= i < 10 implies it.subrange(p, p + 10)[i] == pat[i] by {
            assert(it[18 + n + (2 + i)] == vmid1()[2 + i]);
        }
        assert(it.subrange(p, p + 10) =~= pat);
        lemma_no_match_letter(v, tail, usn_key());
        assert forall|j: int| 0 <= j < p implies !match_at(it, pat, j) by {
            if 18 <= j < 18 + n {
                assert(it[18 + (j - 18)] == l[j - 18]);
                lemma_no_match_at(it, pat, j, 0);
            } else if j == 18 + n {
                assert(it[18 + n + 1] == vmid1()[1]);
                lemma_no_match_at(it, pat, j, 1);
            } else if j == 19 + n {
                assert(it[18 + n + 1] == vmid1()[1]);
                lemma_no_match_at(it, pat, j, 0);
            }
        }
        lemma_find_first(it, pat, p);
        let w = seq![':'] + d1;
        assert forall|i: int| 0 <= i < 1 + m1 implies it.subrange(p + 10, p + 11 + m1)[i] == w[i] by {
            if i == 0 {
                assert(it[18 + n + 12] == vmid1()[12]);
            } else {
                assert(it[31 + n + (i - 1)] == d1[i - 1]);
            }
        }
        assert(it.subrange(p + 10, p + 11 + m1) =~= Seq::<char>::empty() + seq![':'] + d1);
        lemma_json_value_number(it, usn_key(), p, Seq::<char>::empty(), d1);
    } else {
        assert(n == 8);
        assert forall|i: int| 0 <= i < 10 implies it.subrange(17, 27)[i] == pat[i] by {
            if i == 0 {
                assert(it[17] == vhead()[17]);
            } else if i < 9 {
                assert(it[18 + (i - 1)] == l[i - 1]);
            } else {
                assert(it[18 + n + 0] == vmid1()[0]);
            }
        }
        assert(it.subrange(17, 27) =~= pat);
        lemma_find_first(it, pat, 17);
        let x = vmid1().subrange(1, 12);
        let w = x + seq![':'] + d1;
        assert forall|i: int| 0 <= i < 12 + m1 implies it.subrange(27, 39 + m1)[i] == w[i] by {
            if i < 12 {
                assert(it[18 + n + (1 + i)] == vmid1()[1 + i]);
            } else {
                assert(it[31 + n + (i - 12)] == d1[i - 12]);
            }
        }
        assert(it.subrange(27, 39 + m1) =~= w);
        lemma_json_value_number(it, usn_key(), 17, x, d1);
    }
}

proof fn lemma_item_id(v: VolumeView, tail: Seq<char>)
    requires
        plain_letter(v.volume_letter),
        v.volume_letter != id_key(),
    ensures
        json_value(item_text(v, tail), "usn_journal_id"@) == Some(decimal(v.usn_journal_id as nat)),
{
    reveal_strlit("usn_journal_id");
    assert("usn_journal_id"@ =~= id_key());
    let it = item_text(v, tail);
    let l = v.volume_letter;
    let n = l.len() as int;
    let d1 = decimal_int(v.last_usn as int);
    let d2 = decimal(v.usn_journal_id as nat);
    let m1 = d1.len() as int;
    let m2 = d2.len() as int;
    lemma_item_chars(v, tail);
    crate::entry_json::lemma_decimal_int_number(v.last_usn as int);
    crate::entry_json::lemma_decimal_number(v.usn_journal_id as nat);
    let pat = quoted(id_key());
    assert(pat.len() == 16);
    let p = 32 + n + m1;
    assert forall|i: int| 0 <= i < 16 implies it.subrange(p, p + 16)[i] == pat[i] by {
        assert(it[31 + n + m1 + (1 + i)] == vmid2()[1 + i]);
    }
    assert(it.subrange(p, p + 16) =~= pat);
    lemma_no_match_in_head(v, tail, pat);
    lemma_no_match_letter(v, tail, id_key());
    assert forall|j: int| 0 <= j < p implies !match_at(it, pat, j) by {
        if 18 <= j < 18 + n {
            assert(it[18 + (j - 18)] == l[j - 18]);
            lemma_no_match_at(it, pat, j, 0);
        } else if 18 + n <= j < 30 + n {
            assert(it[18 + n + (j - 18 - n)] == vmid1()[j - 18 - n]);
            assert(it[18 + n + (j + 1 - 18 - n)] == vmid1()[j + 1 - 18 - n]);
            if vmid1()[j - 18 - n] == '"' {
                lemma_no_match_at(it, pat, j, 1);
            } else {
                lemma_no_match_at(it, pat, j, 0);
            }
        } else if j == 30 + n {
            assert(it[18 + n + 12] == vmid1()[12]);
            lemma_no_match_at(it, pat, j, 0);
        } else if 31 + n <= j < 31 + n + m1 {
            assert(it[31 + n + (j - 31 - n)] == d1[j - 31 - n]);
            assert(crate::text::is_digit(d1[j - 31 - n]) || d1[j - 31 - n] == '-');
            lemma_no_match_at(it, pat, j, 0);
        } else if j == 31 + n + m1 {
            assert(it[31 + n + m1 + 0] == vmid2()[0]);
            lemma_no_match_at(it, pat, j, 0);
        }
    }
    lemma_find_first(it, pat, p);
    let w = seq![':'] + d2;
    assert forall|i: int| 0 <= i < 1 + m2 implies it.subrange(p + 16, p + 17 + m2)[i] == w[i] by {
        if i == 0 {
            assert(it[31 + n + m1 + 17] == vmid2()[17]);
        } else {
            assert(it[49 + n + m1 + (i - 1)] == d2[i - 1]);
        }
    }
    assert(it.subrange(p + 16, p + 17 + m2) =~= Seq::<char>::empty() + seq![':'] + d2);
    lemma_json_value_number(it, id_key(), p, Seq::<char>::empty(), d2);
}

/// The id read from an item whose letter is spelled like the id's key: the position.
proof fn lemma_item_id_at_letter(v: VolumeView, tail: Seq<char>)
    requires
        plain_letter(v.volume_letter),
        v.volume_letter == id_key(),
    ensures
        json_value(item_text(v, tail), "usn_journal_id"@) == Some(decimal_int(v.last_usn as int)),
{
    reveal_strlit("usn_journal_id");
    assert("usn_journal_id"@ =~= id_key());
    let it = item_text(v, tail);
    let l = v.volume_letter;
    let n = l.len() as int;
    assert(n == 14);
    let d1 = decimal_int(v.last_usn as int);
    let m1 = d1.len() as int;
    lemma_item_chars(v, tail);
    crate::entry_json::lemma_decimal_int_number(v.last_usn as int);
    let pat = quoted(id_key());
    assert(pat.len() == 16);
    lemma_no_match_in_head(v, tail, pat);
    assert forall|i: int| 0 <= i < 16 implies it.subrange(17, 33)[i] == pat[i] by {
        if i == 0 {
            assert(it[17] == vhead()[17]);
        } else if i < 15 {
            assert(it[18 + (i - 1)] == l[i - 1]);
        } else {
            assert(it[18 + n + 0] == vmid1()[0]);
        }
    }
    assert(it.subrange(17, 33) =~= pat);
    lemma_find_first(it, pat, 17);
    let x = vmid1().subrange(1, 12);
    let w = x + seq![':'] + d1;
    assert forall|i: int| 0 <= i < 12 + m1 implies it.subrange(33, 45 + m1)[i] == w[i] by {
        if i < 12 {
            assert(it[18 + n + (1 + i)] == vmid1()[1 + i]);
        } else {
            assert(it[31 + n + (i - 12)] == d1[i - 12]);
        }
    }
    assert(it.subrange(33, 45 + m1) =~= w);
    assert(it[31 + n + m1 + 0] == vmid2()[0]);
    lemma_json_value_number(it, id_key(), 17, x, d1);
}

/// A negative position does not read as an unsigned number.
proof fn lemma_negative_not_unsigned(u: i64)
    requires
        u < 0,
    ensures
        parse_u64_spec(decimal_int(u as int)) is None,
{
    let s = decimal_int(u as int);
    assert(s[0] == '-');
    assert(!crate::text::is_digit(s[0]));
}

/// What follows each state but the last in the text: the comma and the next line's
/// indent.
spec fn item_sep() -> Seq<char> {
    seq![',', '\n', ' ', ' ', ' ', ' ']
}

/// The text before the first state and after the last one, inside the brackets.
spec fn open_gap() -> Seq<char> {
    seq!['\n', ' ', ' ', ' ', ' ']
}

spec fn close_gap() -> Seq<char> {
    seq!['\n', ' ', ' ']
}

/// An item of the written text, once trimmed and put back in braces, is the state's
/// one-line form with the item's comma, if any, before its closing brace.
proof fn lemma_item_trimmed(v: VolumeView, x: Seq<char>)
    requires
        plain_letter(v.volume_letter),
        x == item_sep() || x == close_gap(),
    ensures
        seq!['{'] + trim(strip_end(strip_end(volume_parts(v).drop_first() + x, ','), '}')) + seq![
            '}',
        ] == item_text(v, if x == item_sep() { seq![','] } else { Seq::<char>::empty() }),
{
    let r = volume_parts(v).drop_first();
    let item = r + x;
    let tail = if x == item_sep() { seq![','] } else { Seq::<char>::empty() };
    let ws = if x == item_sep() { x.drop_first() } else { x };
    assert(x =~= tail + ws);
    assert(item =~= (r + tail) + ws);
    reveal(item_text);
    assert(volume_parts(v)[0] == '{');
    assert(volume_parts(v) =~= seq!['{'] + r);
    assert(r[0] == vhead()[1]);
    let rt = r + tail;
    assert(rt[0] == r[0]);
    assert(!is_ws(rt.last())) by {
        if x == item_sep() {
            assert(rt.last() == ',');
        } else {
            assert(rt.last() == r.last());
            assert(r.last() == volume_parts(v).last());
            assert(volume_parts(v).last() == '}');
        }
    }
    assert(item.last() == ' ');
    assert(strip_end(item, ',') == item);
    assert(strip_end(item, '}') == item);
    assert forall|i: int| 0 <= i < ws.len() implies #[trigger] is_ws(ws[i]) by {}
    lemma_trim_end_ws(rt, ws);
    assert(trim_start(item) == item);
    assert(trim(item) == rt);
    assert(seq!['{'] + rt + seq!['}'] =~= item_text(v, tail));
}

/// Reading one item of the written text gives the state it was written from.
proof fn lemma_item_volume(v: VolumeView, x: Seq<char>)
    requires
        plain_letter(v.volume_letter),
        id_reads_back(v),
        x == item_sep() || x == close_gap(),
    ensures
        item_volume(volume_parts(v).drop_first() + x) == Some(v),
{
    let tail = if x == item_sep() { seq![','] } else { Seq::<char>::empty() };
    lemma_item_trimmed(v, x);
    lemma_item_letter(v, tail);
    lemma_item_usn(v, tail);
    crate::text::lemma_parse_i64_decimal(v.last_usn);
    if v.volume_letter == id_key() {
        lemma_item_id_at_letter(v, tail);
        if v.last_usn >= 0 {
            crate::text::lemma_parse_u64_decimal(v.last_usn as u64);
            assert(decimal_int(v.last_usn as int) == decimal((v.last_usn as u64) as nat));
        } else {
            lemma_negative_not_unsigned(v.last_usn);
        }
    } else {
        lemma_item_id(v, tail);
        crate::text::lemma_parse_u64_decimal(v.usn_journal_id);
    }
}

proof fn lemma_join_lacks(ps: Seq<Seq<char>>, sep: Seq<char>, c: char)
    requires
        forall|k: int| 0 <= k < ps.len() ==> lacks(#[trigger] ps[k], c),
        lacks(sep, c),
    ensures
        lacks(join_with(ps, sep), c),
    decreases ps.len(),
{
    if ps.len() == 1 {
        assert(lacks(ps[0], c));
    } else if ps.len() > 1 {
        let pre = ps.drop_last();
        assert forall|k: int| 0 <= k < pre.len() implies lacks(#[trigger] pre[k], c) by {
            assert(pre[k] == ps[k]);
        }
        lemma_join_lacks(pre, sep, c);
        let a = join_with(pre, sep);
        assert(lacks(ps[ps.len() - 1], c));
        let t = a + sep + ps.last();
        assert forall|i: int| 0 <= i < t.len() implies #[trigger] t[i] != c by {
            if i < a.len() {
                assert(t[i] == a[i]);
            } else if i < a.len() + sep.len() {
                assert(t[i] == sep[i - a.len()]);
            } else {
                assert(t[i] == ps.last()[i - a.len() - sep.len()]);
            }
        }
    }
}

/// The one-line form of a state opens with its only `{` and holds no `]`.
proof fn lemma_parts_lack(v: VolumeView)
    requires
        plain_letter(v.volume_letter),
    ensures
        volume_parts(v)[0] == '{',
        lacks(volume_parts(v).drop_first(), '{'),
        lacks(volume_parts(v), ']'),
{
    let p = volume_parts(v);
    let it = item_text(v, Seq::<char>::empty());
    lemma_item_chars(v, Seq::<char>::empty());
    reveal(item_text);
    let l = v.volume_letter;
    let n = l.len() as int;
    let d1 = decimal_int(v.last_usn as int);
    let d2 = decimal(v.usn_journal_id as nat);
    let m1 = d1.len() as int;
    crate::entry_json::lemma_decimal_int_number(v.last_usn as int);
    crate::entry_json::lemma_decimal_number(v.usn_journal_id as nat);
    assert forall|i: int| 0 <= i < p.len() implies #[trigger] p[i] != ']' && (i > 0 ==> p[i]
        != '{') by {
        assert(p[i] == it[i]);
        if i < 18 {
            assert(it[i] == vhead()[i]);
        } else if i < 18 + n {
            assert(it[18 + (i - 18)] == l[i - 18]);
        } else if i < 31 + n {
            assert(it[18 + n + (i - 18 - n)] == vmid1()[i - 18 - n]);
        } else if i < 31 + n + m1 {
            assert(it[31 + n + (i - 31 - n)] == d1[i - 31 - n]);
            assert(crate::text::is_digit(d1[i - 31 - n]) || d1[i - 31 - n] == '-');
        } else if i < 49 + n + m1 {
            assert(it[31 + n + m1 + (i - 31 - n - m1)] == vmid2()[i - 31 - n - m1]);
        } else if i < 49 + n + m1 + d2.len() {
            assert(it[49 + n + m1 + (i - 49 - n - m1)] == d2[i - 49 - n - m1]);
            assert(crate::text::is_digit(d2[i - 49 - n - m1]) || d2[i - 49 - n - m1] == '-');
        }
    }
    assert(p[0] == it[0] && it[0] == vhead()[0]);
    assert forall|i: int| 0 <= i < p.drop_first().len() implies #[trigger] p.drop_first()[i]
        != '{' by {
        assert(p.drop_first()[i] == p[i + 1]);
    }
}

proof fn lemma_items_volumes(items: Seq<Seq<char>>, vs: Seq<VolumeView>)
    requires
        items.len() == vs.len(),
        forall|j: int| 0 <= j < items.len() ==> item_volume(#[trigger] items[j]) == Some(vs[j]),
    ensures
        items_volumes(items) == vs,
    decreases items.len(),
{
    if items.len() > 0 {
        let pi = items.drop_last();
        let pv = vs.drop_last();
        assert forall|j: int| 0 <= j < pi.len() implies item_volume(#[trigger] pi[j]) == Some(pv[j]) by {
            assert(pi[j] == items[j]);
        }
        lemma_items_volumes(pi, pv);
        assert(item_volume(items[items.len() - 1]) == Some(vs[vs.len() - 1]));
        assert(vs =~= pv + seq![vs.last()]);
    }
}

/// The items that the written states' text splits into at `{`, after the first piece.
spec fn written_items(vs: Seq<VolumeView>) -> Seq<Seq<char>> {
    Seq::new(
        vs.len(),
        |j: int|
            volume_parts(vs[j]).drop_first() + (if j < vs.len() - 1 {
                item_sep()
            } else {
                close_gap()
            }),
    )
}

proof fn lemma_content_split(vs: Seq<VolumeView>)
    requires
        vs.len() >= 1,
        forall|i: int| 0 <= i < vs.len() ==> plain_letter(#[trigger] vs[i].volume_letter),
    ensures
        split_char(
            open_gap() + join_with(vs.map_values(|v: VolumeView| volume_json(v)), item_sep())
                + close_gap(),
            '{',
        ).skip(1) == written_items(vs),
{
    let n = vs.len() as int;
    let rs = vs.map_values(|v: VolumeView| volume_parts(v).drop_first());
    let ps = vs.map_values(|v: VolumeView| volume_json(v));
    assert forall|j: int| 0 <= j < n implies #[trigger] ps[j] == seq!['{'] + rs[j] by {
        assert(plain_letter(vs[j].volume_letter));
        lemma_volume_parts(vs[j]);
        lemma_parts_lack(vs[j]);
        assert(volume_parts(vs[j]) =~= seq!['{'] + volume_parts(vs[j]).drop_first());
    }
    assert(ps =~= rs.map_values(|r: Seq<char>| seq!['{'] + r));
    crate::text::lemma_rejoin(open_gap(), rs, item_sep(), '{');
    let g = seq![open_gap()] + crate::text::glued(rs, item_sep());
    crate::text::lemma_join_append(g, seq!['{'], close_gap());
    let g2 = g.update(g.len() - 1, g.last() + close_gap());
    assert forall|k: int, j: int| 0 <= k < g2.len() && 0 <= j < g2[k].len() implies #[trigger] g2[k][j]
        != '{' by {
        if k == 0 {
            if n == 1 {
                assert(g2[0] == g[0]);
            }
        } else {
            let v = vs[k - 1];
            assert(plain_letter(v.volume_letter));
            lemma_parts_lack(v);
            let r = rs[k - 1];
            assert(lacks(r, '{'));
            let e = if k - 1 < n - 1 { item_sep() } else { Seq::<char>::empty() };
            let z = if k == n { close_gap() } else { Seq::<char>::empty() };
            assert(g2[k] =~= r + e + z);
            if j < r.len() {
                assert(g2[k][j] == r[j]);
            } else if j < r.len() + e.len() {
                assert(g2[k][j] == e[j - r.len()]);
            } else {
                assert(g2[k][j] == z[j - r.len() - e.len()]);
            }
        }
    }
    crate::text::lemma_split_join(g2, '{');
    assert(g2.skip(1) =~= written_items(vs)) by {
        assert forall|j: int| 0 <= j < n implies g2.skip(1)[j] == written_items(vs)[j] by {
            assert(g2.skip(1)[j] == g2[j + 1]);
            assert(rs[j] == volume_parts(vs[j]).drop_first());
            if j < n - 1 {
                assert(g2[j + 1] == g[j + 1]);
                assert(g[j + 1] == rs[j] + item_sep());
            } else {
                assert(g[j + 1] =~= rs[j] + Seq::<char>::empty());
                assert(g2[j + 1] =~= rs[j] + close_gap());
            }
        }
    }
}

spec fn jhead() -> Seq<char> {
    seq!['{', '\n', ' ', ' ', '"', 'v', 'o', 'l', 'u', 'm', 'e', 's', '"', ':', ' ', '[']
}

spec fn jtail() -> Seq<char> {
    seq![']', '\n', '}', '\n']
}

proof fn lemma_journal_json_parts(vs: Seq<VolumeView>)
    ensures
        journal_json(vs) == jhead() + open_gap() + join_with(
            vs.map_values(|v: VolumeView| volume_json(v)),
            item_sep(),
        ) + close_gap() + jtail(),
{
    reveal_strlit("{\n  \"volumes\": [\n    ");
    reveal_strlit(",\n    ");
    reveal_strlit("\n  ]\n}\n");
    assert("{\n  \"volumes\": [\n    "@ =~= jhead() + open_gap());
    assert(",\n    "@ =~= item_sep());
    assert("\n  ]\n}\n"@ =~= close_gap() + jtail());
}

/// Saving the states and reading the saved text back gives the same states, whenever
/// every drive letter is plain (see `plain_letter`) and every journal id reads back (see
/// `id_reads_back`).
pub proof fn lemma_journal_roundtrip(vs: Seq<VolumeView>)
    requires
        forall|i: int| 0 <= i < vs.len() ==> plain_letter(#[trigger] vs[i].volume_letter),
        forall|i: int| 0 <= i < vs.len() ==> id_reads_back(#[trigger] vs[i]),
    ensures
        journal_from_json(journal_json(vs)) == vs,
{
    let ps = vs.map_values(|v: VolumeView| volume_json(v));
    let jn = join_with(ps, item_sep());
    lemma_journal_json_parts(vs);
    let s = journal_json(vs);
    let body = open_gap() + jn + close_gap();
    assert(s =~= jhead() + body + jtail());
    assert forall|k: int| 0 <= k < ps.len() implies lacks(#[trigger] ps[k], ']') by {
        assert(plain_letter(vs[k].volume_letter));
        lemma_volume_parts(vs[k]);
        lemma_parts_lack(vs[k]);
    }
    lemma_join_lacks(ps, item_sep(), ']');
    // the first `[` closes the header
    assert forall|j: int| 0 <= j < 15 implies s[j] != '[' by {
        assert(s[j] == jhead()[j]);
    }
    assert(s[15] == jhead()[15]);
    crate::text::lemma_index_of_char_first(s, '[', 15);
    // the first `]` after it is the one in the closing lines
    let t = s.skip(15);
    let b = jn.len() as int + 9;
    assert forall|j: int| 0 <= j < b implies t[j] != ']' by {
        assert(t[j] == s[15 + j]);
        if j == 0 {
            assert(s[15] == jhead()[15]);
        } else if j < 6 {
            assert(s[16 + (j - 1)] == open_gap()[j - 1]);
        } else if j < 6 + jn.len() {
            assert(s[21 + (j - 6)] == jn[j - 6]);
        } else {
            assert(s[21 + jn.len() + (j - 6 - jn.len())] == close_gap()[j - 6 - jn.len()]);
        }
    }
    assert(t[b] == s[15 + b]);
    assert(s[24 + jn.len() as int] == jtail()[0]);
    crate::text::lemma_index_of_char_first(t, ']', b);
    assert(s.subrange(16, 15 + b) =~= body);
    if vs.len() == 0 {
        assert(jn =~= Seq::<char>::empty());
        assert forall|j: int| 0 <= j < body.len() implies body[j] != '{' by {}
        crate::text::lemma_split_single(body, '{');
        assert(split_char(body, '{').skip(1) =~= Seq::<Seq<char>>::empty());
        assert(vs =~= Seq::<VolumeView>::empty());
    } else {
        lemma_content_split(vs);
        let items = written_items(vs);
        assert forall|j: int| 0 <= j < items.len() implies item_volume(#[trigger] items[j]) == Some(
            vs[j],
        ) by {
            assert(plain_letter(vs[j].volume_letter));
            assert(id_reads_back(vs[j]));
            let x = if j < vs.len() - 1 { item_sep() } else { close_gap() };
            lemma_item_volume(vs[j], x);
        }
        lemma_items_volumes(items, vs);
    }
}

} // verus!
