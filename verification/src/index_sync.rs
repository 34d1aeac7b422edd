//! Keeping a loaded index in step with the change journal: applying the changes
//! read since the last run, choosing where to resume reading, and merging the
//! entries of several volumes.
use vstd::prelude::*;
use vstd::hash_set::StringHashSet;
use crate::index_engine::{filed_at, keys_of, numbered, path_ids, with_id, TrieIndex};
use crate::text::{all_ascii, lowercase};
use crate::journal_state::{volume_of, with_volume, UsnJournalState};
use crate::searcher::Searcher;
use crate::order::strictly_increasing;
use crate::types::{FileEntry, FileEntryView};
use crate::usn_reader::{change_views, FileChange, FileChangeView};

verus! {

/// The entries, the next id and the number of entries changed, after one change: an
/// addition or a modification adds its entry under the next id; a deletion, and a
/// rename by its old path, removes every entry at that path.
pub open spec fn apply_change(
    st: (Map<i64, FileEntryView>, int, int),
    c: FileChangeView,
) -> (Map<i64, FileEntryView>, int, int) {
    match c {
        FileChangeView::Added(e) => (st.0.insert(st.1 as i64, with_id(e, st.1 as i64)), st.1 + 1, st.2 + 1),
        FileChangeView::Modified(e) => (
            st.0.insert(st.1 as i64, with_id(e, st.1 as i64)),
            st.1 + 1,
            st.2 + 1,
        ),
        FileChangeView::Deleted(p) => (
            st.0.remove_keys(path_ids(st.0, p)),
            st.1,
            st.2 + path_ids(st.0, p).len(),
        ),
        FileChangeView::Renamed(p, _) => (
            st.0.remove_keys(path_ids(st.0, p)),
            st.1,
            st.2 + path_ids(st.0, p).len(),
        ),
    }
}

pub open spec fn apply_all(
    st: (Map<i64, FileEntryView>, int, int),
    cs: Seq<FileChangeView>,
) -> (Map<i64, FileEntryView>, int, int)
    decreases cs.len(),
{
    if cs.len() == 0 {
        st
    } else {
        apply_change(apply_all(st, cs.drop_last()), cs.last())
    }
}

/// Filtering by two tests in turn is filtering by both.
proof fn lemma_filter_and(s: Seq<i64>, f: spec_fn(i64) -> bool, g: spec_fn(i64) -> bool)
    ensures
        s.filter(f).filter(g) == s.filter(|x: i64| f(x) && g(x)),
    decreases s.len(),
{
    reveal(Seq::filter);
    if s.len() > 0 {
        lemma_filter_and(s.drop_last(), f, g);
        let h = |x: i64| f(x) && g(x);
        let a = s.drop_last().filter(f);
        if f(s.last()) {
            assert(s.filter(f) == a.push(s.last()));
            assert(a.push(s.last()).drop_last() =~= a);
            assert(a.push(s.last()).last() == s.last());
        } else {
            assert(s.filter(f) == a);
        }
    }
}

/// Filtering by tests that agree everywhere gives the same.
proof fn lemma_filter_same(s: Seq<i64>, f: spec_fn(i64) -> bool, g: spec_fn(i64) -> bool)
    requires
        forall|x: i64| #[trigger] f(x) == g(x),
    ensures
        s.filter(f) == s.filter(g),
{
    assert(f =~= g);
}

/// The ids filed under each key after the ids of `gone` leave: each leaves the key of
/// its own lower-cased name, where that name is ASCII.
pub open spec fn unfiled(
    keys: spec_fn(Seq<u32>) -> Seq<i64>,
    m: Map<i64, FileEntryView>,
    gone: Set<i64>,
) -> spec_fn(Seq<u32>) -> Seq<i64> {
    |p: Seq<u32>|
        keys(p).filter(
            |x: i64|
                !(gone.contains(x) && m.contains_key(x) && all_ascii(lowercase(m[x].name)) && p
                    == keys_of(lowercase(m[x].name))),
        )
}

/// The ids filed under each key after one change, from the state before it: an added
/// or modified entry is filed under the next id; a deletion or a rename un-files the
/// entries at the path.
pub open spec fn filing_change(
    st: (Map<i64, FileEntryView>, int, int),
    keys: spec_fn(Seq<u32>) -> Seq<i64>,
    c: FileChangeView,
) -> spec_fn(Seq<u32>) -> Seq<i64> {
    match c {
        FileChangeView::Added(e) => |p: Seq<u32>| keys(p) + filed_at(lowercase(e.name), st.1 as i64, p),
        FileChangeView::Modified(e) => |p: Seq<u32>|
            keys(p) + filed_at(lowercase(e.name), st.1 as i64, p),
        FileChangeView::Deleted(path) => unfiled(keys, st.0, path_ids(st.0, path)),
        FileChangeView::Renamed(path, _) => unfiled(keys, st.0, path_ids(st.0, path)),
    }
}

pub open spec fn filing_all(
    st: (Map<i64, FileEntryView>, int, int),
    keys: spec_fn(Seq<u32>) -> Seq<i64>,
    cs: Seq<FileChangeView>,
) -> spec_fn(Seq<u32>) -> Seq<i64>
    decreases cs.len(),
{
    if cs.len() == 0 {
        keys
    } else {
        filing_change(apply_all(st, cs.drop_last()), filing_all(st, keys, cs.drop_last()), cs.last())
    }
}

proof fn lemma_unfiled_none(k0: spec_fn(Seq<u32>) -> Seq<i64>, m0: Map<i64, FileEntryView>, p: Seq<u32>)
    ensures
        unfiled(k0, m0, Set::<i64>::empty())(p) == k0(p),
{
    let f = |x: i64|
        !(Set::<i64>::empty().contains(x) && m0.contains_key(x) && all_ascii(lowercase(m0[x].name))
            && p == keys_of(lowercase(m0[x].name)));
    assert(unfiled(k0, m0, Set::<i64>::empty())(p) == k0(p).filter(f));
    crate::index_engine::lemma_filter_all(k0(p), f);
}

/// One more id leaving, in the ascending order of removal.
proof fn lemma_unfile_one(
    k0: spec_fn(Seq<u32>) -> Seq<i64>,
    m0: Map<i64, FileEntryView>,
    t: Set<i64>,
    id: i64,
    p: Seq<u32>,
)
    requires
        !t.contains(id),
        m0.contains_key(id),
    ensures
        unfiled(k0, m0, t.insert(id))(p) == if all_ascii(lowercase(m0[id].name)) && p == keys_of(
            lowercase(m0[id].name),
        ) {
            unfiled(k0, m0, t)(p).filter(|x: i64| x != id)
        } else {
            unfiled(k0, m0, t)(p)
        },
{
    let ft = |x: i64|
        !(t.contains(x) && m0.contains_key(x) && all_ascii(lowercase(m0[x].name)) && p == keys_of(
            lowercase(m0[x].name),
        ));
    let fu = |x: i64|
        !(t.insert(id).contains(x) && m0.contains_key(x) && all_ascii(lowercase(m0[x].name)) && p
            == keys_of(lowercase(m0[x].name)));
    let ne = |x: i64| x != id;
    assert(unfiled(k0, m0, t)(p) == k0(p).filter(ft));
    assert(unfiled(k0, m0, t.insert(id))(p) == k0(p).filter(fu));
    if all_ascii(lowercase(m0[id].name)) && p == keys_of(lowercase(m0[id].name)) {
        lemma_filter_and(k0(p), ft, ne);
        lemma_filter_same(k0(p), |x: i64| ft(x) && ne(x), fu);
    } else {
        lemma_filter_same(k0(p), ft, fu);
    }
}

fn remove_at_path(index: &mut TrieIndex, path: &String, count: usize, Ghost(bound): Ghost<int>) -> (r: usize)
    requires
        old(index).wf(),
        count + old(index).entries_view().len() <= bound,
        bound <= usize::MAX,
    ensures
        final(index).wf(),
        final(index).next_id_view() == old(index).next_id_view(),
        final(index).entries_view() == old(index).entries_view().remove_keys(
            path_ids(old(index).entries_view(), path@),
        ),
        r == count + path_ids(old(index).entries_view(), path@).len(),
        r + final(index).entries_view().len() <= bound,
        forall|p: Seq<u32>| #![trigger final(index).key_ids(p)]
            final(index).key_ids(p) == unfiled(
                |q: Seq<u32>| old(index).key_ids(q),
                old(index).entries_view(),
                path_ids(old(index).entries_view(), path@),
            )(p),
{
    let ghost m0 = index.entries_view();
    let ghost k0 = |q: Seq<u32>| index.key_ids(q);
    let ids = index.ids_with_path(path.as_str());
    proof {
        index.lemma_entries_finite();
    }
    let c0 = count;
    let mut count = count;
    let mut j: usize = 0;
    assert(ids@.take(0).to_set() =~= Set::<i64>::empty());
    assert(m0.remove_keys(Set::<i64>::empty()) =~= m0);
    assert forall|p: Seq<u32>| #![trigger index.key_ids(p)] index.key_ids(p) == unfiled(k0, m0, ids@.take(0).to_set())(p) by {
        lemma_unfiled_none(k0, m0, p);
    }
    while j < ids.len()
        invariant
            k0 == (|q: Seq<u32>| old(index).key_ids(q)),
            forall|p: Seq<u32>| #![trigger index.key_ids(p)]
                index.key_ids(p) == unfiled(k0, m0, ids@.take(j as int).to_set())(p),
            j <= ids.len(),
            index.wf(),
            index.next_id_view() == old(index).next_id_view(),
            m0 == old(index).entries_view(),
            c0 + old(index).entries_view().len() <= bound,
            m0.dom().finite(),
            strictly_increasing(ids@),
            ids@.to_set() == path_ids(m0, path@),
            index.entries_view() == m0.remove_keys(ids@.take(j as int).to_set()),
            count == c0 + j,
            count + index.entries_view().len() <= bound,
            bound <= usize::MAX,
        decreases ids.len() - j,
    {
        let id = ids[j];
        let ghost cur = index.entries_view();
        proof {
            assert(ids@.to_set().contains(id));
            assert(m0.contains_key(id));
            assert(!ids@.take(j as int).to_set().contains(id)) by {
                if ids@.take(j as int).to_set().contains(id) {
                    let k = choose|k: int| 0 <= k < j && ids@.take(j as int)[k] == id;
                    assert(ids@[k] < ids@[j as int]);
                }
            }
            assert(cur.contains_key(id));
            index.lemma_entries_finite();
            cur.lemma_remove_key_len(id);
        }
        index.remove(id);
        proof {
            let t1 = ids@.take(j + 1);
            let t0 = ids@.take(j as int);
            assert forall|x: i64| t1.to_set().contains(x) <==> t0.to_set().insert(id).contains(x) by {
                if t1.to_set().contains(x) {
                    let k = choose|k: int| 0 <= k < t1.len() && t1[k] == x;
                    if k < j {
                        assert(t0[k] == x);
                    }
                }
                if t0.to_set().contains(x) {
                    let k = choose|k: int| 0 <= k < t0.len() && t0[k] == x;
                    assert(t1[k] == x);
                }
                if x == id {
                    assert(t1[j as int] == x);
                }
            }
            assert(t1.to_set() =~= t0.to_set().insert(id));
            assert(index.entries_view() =~= m0.remove_keys(ids@.take(j + 1).to_set()));
            assert(cur[id] == m0[id]);
            assert forall|p: Seq<u32>| #![trigger index.key_ids(p)] index.key_ids(p) == unfiled(k0, m0, ids@.take(j + 1).to_set())(p) by {
                lemma_unfile_one(k0, m0, t0.to_set(), id, p);
            }
        }
        count = count + 1;
        j = j + 1;
    }
    proof {
        assert(ids@.take(ids.len() as int) =~= ids@);
        assert(ids@.no_duplicates()) by {
            assert forall|a: int, b: int| 0 <= a < ids@.len() && 0 <= b < ids@.len() && a != b implies ids@[a] != ids@[b] by {
                if a < b {
                    assert(ids@[a] < ids@[b]);
                } else {
                    assert(ids@[b] < ids@[a]);
                }
            }
        }
        ids@.unique_seq_to_set();
    }
    count
}

/// Applies the changes read from the journal to the index, in order, and returns how
/// many entries were added or removed: see `apply_change`.
pub fn apply_changes(index: &mut TrieIndex, changes: &Vec<FileChange>) -> (r: usize)
    requires
        old(index).wf(),
        old(index).next_id_view() + changes.len() < i64::MAX,
        old(index).entries_view().len() + 2 * changes.len() <= usize::MAX,
    ensures
        final(index).wf(),
        ({
            let st = apply_all(
                (old(index).entries_view(), old(index).next_id_view() as int, 0),
                change_views(changes@),
            );
            final(index).entries_view() == st.0 && final(index).next_id_view() == st.1 && r == st.2
        }),
        forall|p: Seq<u32>| #![trigger final(index).key_ids(p)]
            final(index).key_ids(p) == filing_all(
                (old(index).entries_view(), old(index).next_id_view() as int, 0),
                |q: Seq<u32>| old(index).key_ids(q),
                change_views(changes@),
            )(p),
{
    let ghost start = (index.entries_view(), index.next_id_view() as int, 0int);
    let ghost k0 = |q: Seq<u32>| index.key_ids(q);
    let ghost cv = change_views(changes@);
    let ghost l0 = index.entries_view().len();
    let mut count: usize = 0;
    let mut i: usize = 0;
    assert(cv.take(0) =~= Seq::<FileChangeView>::empty());
    assert forall|p: Seq<u32>| #![trigger index.key_ids(p)] index.key_ids(p) == filing_all(start, k0, cv.take(0))(p) by {}
    while i < changes.len()
        invariant
            i <= changes.len(),
            index.wf(),
            cv == change_views(changes@),
            start.1 == old(index).next_id_view(),
            old(index).next_id_view() + changes.len() < i64::MAX,
            l0 + 2 * changes.len() <= usize::MAX,
            index.next_id_view() <= old(index).next_id_view() + i,
            count + index.entries_view().len() <= l0 + 2 * i,
            apply_all(start, cv.take(i as int)) == (
                index.entries_view(),
                index.next_id_view() as int,
                count as int,
            ),
            k0 == (|q: Seq<u32>| old(index).key_ids(q)),
            start == (old(index).entries_view(), old(index).next_id_view() as int, 0int),
            forall|p: Seq<u32>| #![trigger index.key_ids(p)]
                index.key_ids(p) == filing_all(start, k0, cv.take(i as int))(p),
        decreases changes.len() - i,
    {
        let ghost before = (index.entries_view(), index.next_id_view() as int, count as int);
        proof {
            assert(cv.take(i + 1).drop_last() =~= cv.take(i as int));
            assert(cv.take(i + 1).last() == changes@[i as int]@);
            index.lemma_entries_finite();
        }
        match &changes[i] {
            FileChange::Added(e) => {
                let ghost m = index.entries_view();
                let id = index.insert(e.clone());
                proof {
                    index.lemma_entries_finite();
                    assert(index.entries_view().dom() =~= m.dom().insert(id));
                }
                count = count + 1;
            },
            FileChange::Modified(e) => {
                let ghost m = index.entries_view();
                let id = index.insert(e.clone());
                proof {
                    index.lemma_entries_finite();
                    assert(index.entries_view().dom() =~= m.dom().insert(id));
                }
                count = count + 1;
            },
            FileChange::Deleted(p) => {
                count = remove_at_path(index, p, count, Ghost(l0 + 2 * i));
            },
            FileChange::Renamed(p, _) => {
                count = remove_at_path(index, p, count, Ghost(l0 + 2 * i));
            },
        }
        i = i + 1;
    }
    assert(cv.take(changes.len() as int) =~= cv);
    count
}

/// An added (or modified) entry is in the index afterwards, under the next id, and every
/// other entry stays as it was.
pub proof fn lemma_added_entry_present(st: (Map<i64, FileEntryView>, int, int), e: FileEntryView)
    ensures
        apply_change(st, FileChangeView::Added(e)).0.contains_key(st.1 as i64),
        apply_change(st, FileChangeView::Added(e)).0[st.1 as i64] == with_id(e, st.1 as i64),
        forall|k: i64| #[trigger] st.0.contains_key(k) && k != st.1 as i64 ==> apply_change(
            st,
            FileChangeView::Added(e),
        ).0.contains_key(k) && apply_change(st, FileChangeView::Added(e)).0[k] == st.0[k],
        apply_change(st, FileChangeView::Modified(e)) == apply_change(st, FileChangeView::Added(e)),
{
}

/// After a deletion no entry has the deleted path, every entry at another path stays,
/// and the count grows by the number of entries removed.
pub proof fn lemma_deleted_path_gone(st: (Map<i64, FileEntryView>, int, int), p: Seq<char>)
    ensures
        forall|k: i64| #[trigger] apply_change(st, FileChangeView::Deleted(p)).0.contains_key(k)
            ==> apply_change(st, FileChangeView::Deleted(p)).0[k].path != p,
        forall|k: i64| #[trigger] st.0.contains_key(k) && st.0[k].path != p ==> apply_change(
            st,
            FileChangeView::Deleted(p),
        ).0.contains_key(k) && apply_change(st, FileChangeView::Deleted(p)).0[k] == st.0[k],
        forall|q: Seq<char>| #[trigger] apply_change(st, FileChangeView::Renamed(p, q)) == apply_change(
            st,
            FileChangeView::Deleted(p),
        ),
{
}

/// Merging keeps exactly one entry per path: no two kept entries share a path, and
/// every path of the input has a kept entry.
pub proof fn lemma_first_by_path_unique(es: Seq<FileEntryView>)
    ensures
        forall|a: int, b: int|
            0 <= a < b < first_by_path(es).len() ==> first_by_path(es)[a].path != first_by_path(
                es,
            )[b].path,
        forall|i: int| #![trigger es[i]]
            0 <= i < es.len() ==> exists|j: int|
                0 <= j < first_by_path(es).len() && #[trigger] first_by_path(es)[j].path
                    == es[i].path,
    decreases es.len(),
{
    if es.len() > 0 {
        let prev = es.drop_last();
        lemma_first_by_path_unique(prev);
        let f = first_by_path(prev);
        let r = first_by_path(es);
        let dup = exists|j: int| 0 <= j < prev.len() && prev[j].path == es.last().path;
        if dup {
            assert(r =~= f);
        } else {
            assert(r =~= f.push(es.last()));
            assert forall|a: int, b: int| 0 <= a < b < r.len() implies r[a].path != r[b].path by {
                if b == f.len() {
                    if r[a].path == r[b].path {
                        assert(f[a].path == es.last().path);
                        lemma_kept_from(prev, a);
                    }
                }
            }
        }
        assert forall|i: int| #![trigger es[i]] 0 <= i < es.len() implies exists|j: int|
            0 <= j < r.len() && #[trigger] r[j].path == es[i].path by {
            if i < prev.len() {
                assert(prev[i] == es[i]);
                assert(prev[i] == es[i]);
                let j = choose|j: int| 0 <= j < f.len() && #[trigger] f[j].path == prev[i].path;
                assert(r[j] == f[j]);
            } else if dup {
                let j0 = choose|j: int| 0 <= j < prev.len() && prev[j].path == es.last().path;
                assert(prev[j0] == prev[j0]);
                let j = choose|j: int| 0 <= j < f.len() && #[trigger] f[j].path == prev[j0].path;
                assert(r[j] == f[j]);
            } else {
                assert(r[f.len() as int] == es.last());
            }
        }
    }
}

/// Every kept entry is an entry of the input.
proof fn lemma_kept_from(es: Seq<FileEntryView>, a: int)
    requires
        0 <= a < first_by_path(es).len(),
    ensures
        exists|i: int| 0 <= i < es.len() && es[i] == first_by_path(es)[a],
    decreases es.len(),
{
    let prev = es.drop_last();
    let f = first_by_path(prev);
    if a < f.len() {
        lemma_kept_from(prev, a);
        let i = choose|i: int| 0 <= i < prev.len() && prev[i] == f[a];
        assert(es[i] == prev[i]);
    } else {
        assert(es[es.len() - 1] == es.last());
    }
}

/// Where to resume reading a volume's journal: from the recorded position, when the
/// volume has a recorded state for the same journal and the journal has moved past it;
/// else nothing is read.
pub open spec fn resume_from(
    vs: Seq<crate::journal_state::VolumeView>,
    letter: Seq<char>,
    current_usn: i64,
    current_journal_id: u64,
) -> Option<i64> {
    match volume_of(vs, letter) {
        Some(v) => if v.usn_journal_id == current_journal_id && current_usn > v.last_usn {
            Some(v.last_usn)
        } else {
            None
        },
        None => None,
    }
}

/// The journal position to resume reading a volume from: see `resume_from`.
pub fn resume_position(
    state: &UsnJournalState,
    volume_letter: &str,
    current_usn: i64,
    current_journal_id: u64,
) -> (r: Option<i64>)
    ensures
        r == resume_from(state@, volume_letter@, current_usn, current_journal_id),
{
    match state.get_volume(volume_letter) {
        Some(v) => {
            if state.is_journal_valid(volume_letter, current_journal_id) && current_usn > v.last_usn {
                Some(v.last_usn)
            } else {
                None
            }
        },
        None => None,
    }
}

/// The entries whose path no earlier entry has, in their order.
pub open spec fn first_by_path(es: Seq<FileEntryView>) -> Seq<FileEntryView>
    decreases es.len(),
{
    if es.len() == 0 {
        seq![]
    } else {
        let prev = es.drop_last();
        first_by_path(prev) + (if exists|j: int| 0 <= j < prev.len() && prev[j].path == es.last().path {
            seq![]
        } else {
            seq![es.last()]
        })
    }
}

pub open spec fn entry_views(s: Seq<FileEntry>) -> Seq<FileEntryView> {
    s.map_values(|e: FileEntry| e@)
}

/// Keeps the first entry of every path, in order.
pub fn dedup_by_path(entries: Vec<FileEntry>) -> (r: Vec<FileEntry>)
    ensures
        entry_views(r@) == first_by_path(entry_views(entries@)),
{
    let ghost es = entry_views(entries@);
    let mut seen = StringHashSet::new();
    let mut out: Vec<FileEntry> = Vec::new();
    let mut i: usize = 0;
    assert(es.take(0) =~= Seq::<FileEntryView>::empty());
    assert(entry_views(out@) =~= Seq::<FileEntryView>::empty());
    while i < entries.len()
        invariant
            i <= entries.len(),
            es == entry_views(entries@),
            entry_views(out@) == first_by_path(es.take(i as int)),
            forall|x: Seq<char>| #[trigger] seen@.contains(x) <==> exists|j: int|
                0 <= j < i && es[j].path == x,
        decreases entries.len() - i,
    {
        let e = &entries[i];
        let ghost prev = es.take(i as int);
        proof {
            assert(es.take(i + 1).drop_last() =~= prev);
            assert(es.take(i + 1).last() == e@);
            assert((exists|j: int| 0 <= j < prev.len() && prev[j].path == e@.path) <==> seen@.contains(e.path@)) by {
                if seen@.contains(e.path@) {
                    let j = choose|j: int| 0 <= j < i && es[j].path == e.path@;
                    assert(prev[j].path == e@.path);
                }
            }
        }
        let fresh = seen.insert(e.path.clone());
        let ghost before = entry_views(out@);
        if fresh {
            out.push(e.clone());
            assert(entry_views(out@) =~= before + seq![e@]);
        } else {
            assert(before =~= before + Seq::<FileEntryView>::empty());
        }
        proof {
            assert forall|x: Seq<char>| #[trigger] seen@.contains(x) <==> exists|j: int|
                0 <= j < i + 1 && es[j].path == x by {
                if x == e.path@ {
                    assert(es[i as int].path == x);
                }
                if exists|j: int| 0 <= j < i + 1 && es[j].path == x {
                    let j = choose|j: int| 0 <= j < i + 1 && es[j].path == x;
                    if j < i {
                    } else {
                        assert(x == e.path@);
                    }
                }
            }
        }
        i = i + 1;
    }
    assert(es.take(entries.len() as int) =~= es);
    out
}

// ---------------------------------------------------------------------------
// Building the index at start-up
// ---------------------------------------------------------------------------

/// What happened on a volume while the index is built: the volume was found (and
/// whether its change journal can be read), its journal was enumerated (with the
/// journal's position and id when the query for them succeeded), the enumeration
/// failed, or its folders were walked (nothing when the walk failed).
pub enum VolumeEvent {
    Found { letter: char, usn_available: bool },
    Enumerated { letter: char, entries: Vec<FileEntry>, journal: Option<(i64, u64)> },
    EnumerationFailed { letter: char },
    Walked { letter: char, entries: Option<Vec<FileEntry>> },
}

/// What to do next: enumerate a volume through its change journal, walk its folders,
/// or go on to the next volume.
#[derive(Debug, PartialEq, Eq, Structural)]
pub enum VolumeAction {
    Enumerate(char),
    Walk(char),
    Next,
}

/// The state of a full build: the entries gathered so far, the journal positions
/// recorded, and which volumes were read through the journal and which were walked.
pub struct IndexBuild {
    pub entries: Vec<FileEntry>,
    pub journal: UsnJournalState,
    pub via_usn: Vec<char>,
    pub via_walker: Vec<char>,
}

/// The journal after a volume's enumeration: its position recorded when the query for
/// it succeeded.
pub open spec fn journal_after(
    vs: Seq<crate::journal_state::VolumeView>,
    letter: char,
    journal: Option<(i64, u64)>,
) -> Seq<crate::journal_state::VolumeView> {
    match journal {
        Some(j) => with_volume(vs, seq![letter], j.0, j.1),
        None => vs,
    }
}

/// Appends copies of `more` to `out`.
fn append_entries(out: &mut Vec<FileEntry>, more: &Vec<FileEntry>)
    ensures
        entry_views(final(out)@) == entry_views(old(out)@) + entry_views(more@),
{
    let ghost start = entry_views(out@);
    let mut i: usize = 0;
    while i < more.len()
        invariant
            i <= more.len(),
            entry_views(out@) == start + entry_views(more@).take(i as int),
            start == entry_views(old(out)@),
        decreases more.len() - i,
    {
        let ghost before = entry_views(out@);
        let e = more[i].clone();
        out.push(e);
        assert(entry_views(out@) =~= before.push(more@[i as int]@));
        assert(entry_views(more@).take(i + 1) =~= entry_views(more@).take(i as int).push(
            more@[i as int]@,
        ));
        i = i + 1;
    }
    assert(entry_views(more@).take(more.len() as int) =~= entry_views(more@));
}

impl IndexBuild {
    /// A build that has gathered nothing yet, starting from the recorded journal
    /// positions.
    pub fn new(journal: UsnJournalState) -> (b: IndexBuild)
        ensures
            b.entries@.len() == 0,
            b.journal@ == journal@,
            b.via_usn@.len() == 0,
            b.via_walker@.len() == 0,
    {
        IndexBuild { entries: Vec::new(), journal, via_usn: Vec::new(), via_walker: Vec::new() }
    }

    /// Decides the next step from what happened on a volume: a found volume is
    /// enumerated through its journal when that can be read, else walked; a failed
    /// enumeration falls back to walking; an enumeration adds its entries and records the
    /// journal position; a walk adds its entries when it succeeded.
    pub fn step(&mut self, event: VolumeEvent) -> (a: VolumeAction)
        ensures
            match event {
                VolumeEvent::Found { letter, usn_available } => {
                    &&& a == (if usn_available {
                        VolumeAction::Enumerate(letter)
                    } else {
                        VolumeAction::Walk(letter)
                    })
                    &&& *final(self) == *old(self)
                },
                VolumeEvent::EnumerationFailed { letter } => {
                    &&& a == VolumeAction::Walk(letter)
                    &&& *final(self) == *old(self)
                },
                VolumeEvent::Enumerated { letter, entries, journal } => {
                    &&& a == VolumeAction::Next
                    &&& entry_views(final(self).entries@) == entry_views(old(self).entries@)
                        + entry_views(entries@)
                    &&& final(self).via_usn@ == old(self).via_usn@.push(letter)
                    &&& final(self).via_walker@ == old(self).via_walker@
                    &&& final(self).journal@ == journal_after(old(self).journal@, letter, journal)
                },
                VolumeEvent::Walked { letter, entries } => {
                    &&& a == VolumeAction::Next
                    &&& match entries {
                        Some(es) => {
                            &&& entry_views(final(self).entries@) == entry_views(old(self).entries@)
                                + entry_views(es@)
                            &&& final(self).via_walker@ == old(self).via_walker@.push(letter)
                            &&& final(self).via_usn@ == old(self).via_usn@
                            &&& final(self).journal@ == old(self).journal@
                        },
                        None => *final(self) == *old(self),
                    }
                },
            },
    {
        match event {
            VolumeEvent::Found { letter, usn_available } => {
                if usn_available {
                    VolumeAction::Enumerate(letter)
                } else {
                    VolumeAction::Walk(letter)
                }
            },
            VolumeEvent::EnumerationFailed { letter } => VolumeAction::Walk(letter),
            VolumeEvent::Enumerated { letter, entries, journal } => {
                append_entries(&mut self.entries, &entries);
                self.via_usn.push(letter);
                match journal {
                    Some(j) => {
                        let mut l: Vec<char> = Vec::new();
                        l.push(letter);
                        assert(l@ =~= seq![letter]);
                        let name = crate::text::string_of(&l);
                        self.journal.update_volume(name.as_str(), j.0, j.1);
                    },
                    None => {},
                }
                VolumeAction::Next
            },
            VolumeEvent::Walked { letter, entries } => {
                match entries {
                    Some(es) => {
                        append_entries(&mut self.entries, &es);
                        self.via_walker.push(letter);
                    },
                    None => {},
                }
                VolumeAction::Next
            },
        }
    }

    /// Builds the index from what was gathered: the first entry of every path is kept,
    /// in order, and numbered 1, 2, ... (each volume numbers its own entries, so their
    /// ids are given afresh); nothing when no entry was gathered.
    pub fn finish(self) -> (r: Option<Searcher>)
        requires
            self.entries@.len() < i64::MAX,
        ensures
            r is Some <==> first_by_path(entry_views(self.entries@)).len() > 0,
            r matches Some(s) ==> {
                &&& s.wf()
                &&& s.index_view().ordered() == numbered(first_by_path(entry_views(self.entries@)))
                &&& s.index_view().entries_view().dom() == Set::new(
                    |id: i64| 1 <= id <= first_by_path(entry_views(self.entries@)).len(),
                )
            },
    {
        let ghost gathered = first_by_path(entry_views(self.entries@));
        let mut kept = dedup_by_path(self.entries);
        if kept.len() == 0 {
            return None;
        }
        proof {
            lemma_first_by_path_len(entry_views(self.entries@));
        }
        let ghost before = kept@;
        crate::walker::FsWalker::number_entries(&mut kept);
        let ghost es = kept@;
        let n = kept.len();
        assert forall|i: int| 0 <= i < es.len() implies #[trigger] es[i].id == i + 1 by {
            assert(es[i]@ == with_id(before[i]@, (i + 1) as i64));
        }
        let mut index = TrieIndex::new();
        index.load_entries(kept);
        let ghost t = index;
        proof {
            assert(crate::index_engine::distinct_entry_ids(es));
            t.lemma_entry_ids();
            let ids = Seq::new(n as nat, |i: int| (i + 1) as i64);
            let dom = Set::new(|id: i64| 1 <= id <= n);
            assert forall|id: i64| #[trigger] t.entries_view().contains_key(id) <==> dom.contains(id) by {
                if t.entries_view().contains_key(id) {
                    crate::index_engine::lemma_map_of_dom(es, id);
                }
                if dom.contains(id) {
                    crate::index_engine::lemma_map_of_at(es, id - 1);
                }
            }
            assert(t.entries_view().dom() =~= dom);
            assert(ids.to_set() =~= dom) by {
                assert forall|id: i64| dom.contains(id) implies ids.to_set().contains(id) by {
                    assert(ids[id - 1] == id);
                }
            }
            crate::order::lemma_ascending_is(ids, dom);
            assert forall|i: int| 0 <= i < n implies #[trigger] t.ordered()[i] == numbered(gathered)[i] by {
                crate::index_engine::lemma_map_of_at(es, i);
                assert(entry_views(before)[i] == gathered[i]);
                assert(before[i]@ == gathered[i]);
            }
            assert(t.ordered() =~= numbered(gathered));
        }
        Some(Searcher::new(index))
    }
}

/// First-by-path keeps at most as many entries as there are.
proof fn lemma_first_by_path_len(es: Seq<FileEntryView>)
    ensures
        first_by_path(es).len() <= es.len(),
    decreases es.len(),
{
    if es.len() > 0 {
        lemma_first_by_path_len(es.drop_last());
    }
}

/// How the program starts: with a saved index that holds entries, that index is loaded
/// (and is then brought up to date from the journals with `catch_up`); with none, a full
/// build starts.
pub enum Startup {
    Loaded { searcher: Searcher, journal: UsnJournalState },
    Build(IndexBuild),
}

/// Chooses between loading the saved entries and a full build: see `Startup`.
pub fn start(saved: Vec<FileEntry>, journal: UsnJournalState) -> (r: Startup)
    requires
        forall|i: int| 0 <= i < saved@.len() ==> #[trigger] saved@[i].id < i64::MAX,
    ensures
        saved@.len() > 0 ==> (r matches Startup::Loaded { searcher, journal: j } && searcher.wf()
            && searcher.index_view().entries_view() == crate::index_engine::map_of(saved@)
            && j@ == journal@),
        saved@.len() == 0 ==> (r matches Startup::Build(b) && b.entries@.len() == 0 && b.journal@
            == journal@ && b.via_usn@.len() == 0 && b.via_walker@.len() == 0),
{
    if saved.len() > 0 {
        let mut index = TrieIndex::new();
        index.load_entries(saved);
        Startup::Loaded { searcher: Searcher::new(index), journal }
    } else {
        Startup::Build(IndexBuild::new(journal))
    }
}

/// Brings a loaded index up to date on one volume whose journal `resume_position` says
/// to read: applies the changes read and records the volume's current position. Returns
/// how many entries changed.
pub fn catch_up(
    searcher: &mut Searcher,
    journal: &mut UsnJournalState,
    volume_letter: &str,
    current_usn: i64,
    current_journal_id: u64,
    changes: &Vec<FileChange>,
) -> (r: usize)
    requires
        old(searcher).wf(),
        old(searcher).index_view().next_id_view() + changes.len() < i64::MAX,
        old(searcher).index_view().entries_view().len() + 2 * changes.len() <= usize::MAX,
    ensures
        final(searcher).wf(),
        ({
            let st = apply_all(
                (
                    old(searcher).index_view().entries_view(),
                    old(searcher).index_view().next_id_view() as int,
                    0,
                ),
                change_views(changes@),
            );
            final(searcher).index_view().entries_view() == st.0
                && final(searcher).index_view().next_id_view() == st.1 && r == st.2
        }),
        final(journal)@ == with_volume(old(journal)@, volume_letter@, current_usn, current_journal_id),
{
    let index = searcher.index_mut();
    let changed = apply_changes(index, changes);
    journal.update_volume(volume_letter, current_usn, current_journal_id);
    changed
}

} // verus!
