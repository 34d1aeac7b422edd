//! The search router: it asks the index for prefix, path and substring
//! matches and the pinyin matcher for Chinese names, scores each hit, ranks
//! them and cuts out the requested page.
use vstd::prelude::*;
use crate::index_engine::{TrieIndex, take_upto};
use crate::order::ascending;
use crate::pinyin::{has_chinese, initials, is_cjk, match_pinyin};
use crate::text::{
    chars_of, contains, find_char, index_of_char, lemma_index_of_char, lower_chars, lowercase,
    starts_with, starts_with_chars, string_of, trim, trim_chars, utf8_len, utf8_len_capped,
};
use crate::types::{
    FileEntry, FileEntryView, IndexStatus, MatchType, SearchQuery, SearchResult,
    SearchResultView,
};

verus! {

/// The characters of an optional string.
pub open spec fn opt_chars(o: Option<String>) -> Option<Seq<char>> {
    match o {
        Some(s) => Some(s@),
        None => None,
    }
}

/// Whether the lower-cased path of the entry starts with the lower-cased context folder.
pub open spec fn in_context(e: FileEntryView, ctx: Option<Seq<char>>) -> bool {
    match ctx {
        Some(c) => starts_with(lowercase(e.path), lowercase(c)),
        None => false,
    }
}

/// A hit with the higher score when the entry lies in the context folder.
pub open spec fn scored(
    e: FileEntryView,
    ctx: Option<Seq<char>>,
    hi: i32,
    lo: i32,
    kind: MatchType,
) -> SearchResultView {
    SearchResultView {
        entry: e,
        score: if in_context(e, ctx) {
            hi
        } else {
            lo
        },
        match_type: kind,
    }
}

pub open spec fn has_id(r: Seq<SearchResultView>, id: i64) -> bool {
    exists|i: int| 0 <= i < r.len() && (#[trigger] r[i]).entry.id == id
}

/// Appends a scored hit for each entry in turn; when `fresh_only` holds, an entry whose
/// id is already among the hits is skipped.
pub open spec fn add_hits(
    r: Seq<SearchResultView>,
    es: Seq<FileEntryView>,
    ctx: Option<Seq<char>>,
    hi: i32,
    lo: i32,
    kind: MatchType,
    fresh_only: bool,
) -> Seq<SearchResultView>
    decreases es.len(),
{
    if es.len() == 0 {
        r
    } else {
        let prev = add_hits(r, es.drop_last(), ctx, hi, lo, kind, fresh_only);
        if fresh_only && has_id(prev, es.last().id) {
            prev
        } else {
            prev.push(scored(es.last(), ctx, hi, lo, kind))
        }
    }
}

/// The entries that the pinyin pass takes: those whose pinyin initials contain the
/// lower-cased query and whose id is not yet among the hits, walked in id order; the walk
/// stops once it holds `remaining` of them, and when `remaining` is zero it stops after
/// the first entry.
pub open spec fn pinyin_picks(
    es: Seq<FileEntryView>,
    base: Seq<SearchResultView>,
    q: Seq<char>,
    remaining: int,
) -> Seq<FileEntryView> {
    let pred = pinyin_pred(base, q);
    if remaining == 0 {
        take_upto(es, 1).filter(pred)
    } else {
        take_upto(es.filter(pred), remaining)
    }
}

/// An entry that the pinyin pass may take.
pub open spec fn pinyin_pred(base: Seq<SearchResultView>, q: Seq<char>) -> spec_fn(
    FileEntryView,
) -> bool {
    |e: FileEntryView| contains(initials(e.name), lowercase(q)) && !has_id(base, e.id)
}

/// Scoring of one kind of hit.
pub open spec fn scorer(ctx: Option<Seq<char>>, hi: i32, lo: i32, kind: MatchType) -> spec_fn(
    FileEntryView,
) -> SearchResultView {
    |e: FileEntryView| scored(e, ctx, hi, lo, kind)
}

/// Inserts `x` after every hit whose score is at least its own, walking from the back.
pub open spec fn insert_by_score(l: Seq<SearchResultView>, x: SearchResultView) -> Seq<
    SearchResultView,
>
    decreases l.len(),
{
    if l.len() == 0 {
        seq![x]
    } else if l.last().score >= x.score {
        l.push(x)
    } else {
        insert_by_score(l.drop_last(), x).push(l.last())
    }
}

/// The stable sort of the hits by descending score.
pub open spec fn sort_by_score(s: Seq<SearchResultView>) -> Seq<SearchResultView>
    decreases s.len(),
{
    if s.len() == 0 {
        s
    } else {
        insert_by_score(sort_by_score(s.drop_last()), s.last())
    }
}

/// Scores never rise along the list.
pub open spec fn score_desc(s: Seq<SearchResultView>) -> bool {
    forall|i: int, j: int| 0 <= i < j < s.len() ==> s[i].score >= s[j].score
}

proof fn lemma_insert_by_score(l: Seq<SearchResultView>, x: SearchResultView)
    requires
        score_desc(l),
    ensures
        score_desc(insert_by_score(l, x)),
        insert_by_score(l, x).to_multiset() == l.to_multiset().insert(x),
        insert_by_score(l, x).len() == l.len() + 1,
    decreases l.len(),
{
    broadcast use vstd::seq_lib::group_to_multiset_ensures;

    if l.len() == 0 {
        assert(seq![x] =~= Seq::<SearchResultView>::empty().push(x));
    } else if l.last().score >= x.score {
    } else {
        let dl = l.drop_last();
        assert(l =~= dl.push(l.last()));
        assert(score_desc(dl));
        lemma_insert_by_score(dl, x);
        let r0 = insert_by_score(dl, x);
        let r = r0.push(l.last());
        assert forall|i: int, j: int| 0 <= i < j < r.len() implies r[i].score >= r[j].score by {
            if j == r.len() - 1 {
                let y = r0[i];
                assert(r0.contains(y));
                assert(r0.to_multiset().count(y) > 0);
                if y != x {
                    assert(dl.to_multiset().count(y) > 0);
                    assert(dl.contains(y));
                    let k = choose|k: int| 0 <= k < dl.len() && dl[k] == y;
                    assert(l[k] == y);
                }
            } else {
                assert(r[i] == r0[i] && r[j] == r0[j]);
            }
        }
        assert(r.to_multiset() == r0.to_multiset().insert(l.last()));
        assert(l.to_multiset() == dl.to_multiset().insert(l.last()));
        assert(r.to_multiset() =~= l.to_multiset().insert(x));
    }
}

/// Ranking by score orders the hits by descending score and keeps each hit, as often as
/// it occurs.
pub proof fn lemma_sort_by_score(s: Seq<SearchResultView>)
    ensures
        score_desc(sort_by_score(s)),
        sort_by_score(s).to_multiset() == s.to_multiset(),
        sort_by_score(s).len() == s.len(),
    decreases s.len(),
{
    broadcast use vstd::seq_lib::group_to_multiset_ensures;

    if s.len() > 0 {
        lemma_sort_by_score(s.drop_last());
        lemma_insert_by_score(sort_by_score(s.drop_last()), s.last());
        assert(s =~= s.drop_last().push(s.last()));
    }
}

pub open spec fn min_int(a: int, b: int) -> int {
    if a < b {
        a
    } else {
        b
    }
}

pub open spec fn views(s: Seq<SearchResult>) -> Seq<SearchResultView> {
    s.map_values(|x: SearchResult| x@)
}

pub open spec fn entry_views(s: Seq<FileEntry>) -> Seq<FileEntryView> {
    s.map_values(|e: FileEntry| e@)
}

/// Whether the entry's lower-cased path starts with the lower-cased context folder.
fn is_in_context(entry: &FileEntry, context_path: &Option<String>) -> (r: bool)
    ensures
        r == in_context(entry@, opt_chars(*context_path)),
{
    match context_path {
        Some(ctx) => {
            let ctx_lower = lower_chars(ctx.as_str());
            let entry_path_lower = lower_chars(entry.path.as_str());
            starts_with_chars(&entry_path_lower, &ctx_lower)
        },
        None => false,
    }
}

fn score_of(entry: FileEntry, ctx: &Option<String>, hi: i32, lo: i32, kind: MatchType) -> (r: SearchResult)
    ensures
        r@ == scored(entry@, opt_chars(*ctx), hi, lo, kind),
{
    let score = if is_in_context(&entry, ctx) {
        hi
    } else {
        lo
    };
    SearchResult { entry, score, match_type: kind }
}

/// Whether a hit with this id is listed.
fn contains_id(results: &Vec<SearchResult>, id: i64) -> (r: bool)
    ensures
        r == has_id(views(results@), id),
{
    let mut i: usize = 0;
    while i < results.len()
        invariant
            i <= results.len(),
            forall|j: int| 0 <= j < i ==> (#[trigger] results@[j]).entry.id != id,
        decreases results.len() - i,
    {
        if results[i].entry.id == id {
            assert(views(results@)[i as int].entry.id == id);
            return true;
        }
        i = i + 1;
    }
    proof {
        if has_id(views(results@), id) {
            let j = choose|j: int| 0 <= j < views(results@).len() && (#[trigger] views(results@)[j]).entry.id == id;
            assert(results@[j].entry.id == id);
        }
    }
    false
}

/// Appends a scored hit per entry; with `fresh_only`, entries whose id is listed are
/// skipped.
fn add_results(
    results: &mut Vec<SearchResult>,
    es: &Vec<FileEntry>,
    ctx: &Option<String>,
    hi: i32,
    lo: i32,
    kind: MatchType,
    fresh_only: bool,
)
    ensures
        views(final(results)@) == add_hits(
            views(old(results)@),
            entry_views(es@),
            opt_chars(*ctx),
            hi,
            lo,
            kind,
            fresh_only,
        ),
{
    let mut i: usize = 0;
    assert(entry_views(es@).take(0) =~= Seq::<FileEntryView>::empty());
    while i < es.len()
        invariant
            i <= es.len(),
            views(results@) == add_hits(
                views(old(results)@),
                entry_views(es@).take(i as int),
                opt_chars(*ctx),
                hi,
                lo,
                kind,
                fresh_only,
            ),
        decreases es.len() - i,
    {
        assert(entry_views(es@).take(i + 1).drop_last() =~= entry_views(es@).take(i as int));
        let skip = fresh_only && contains_id(results, es[i].id);
        if !skip {
            let hit = score_of(es[i].clone(), ctx, hi, lo, kind);
            results.push(hit);
        }
        i = i + 1;
        assert(views(results@) =~= add_hits(
            views(old(results)@),
            entry_views(es@).take(i as int),
            opt_chars(*ctx),
            hi,
            lo,
            kind,
            fresh_only,
        ));
    }
    assert(entry_views(es@).take(es.len() as int) =~= entry_views(es@));
}

/// The pinyin pass over the entries in id order.
fn pinyin_pass(
    all: &Vec<FileEntry>,
    base: &Vec<SearchResult>,
    q: &str,
    remaining: usize,
    ctx: &Option<String>,
) -> (r: Vec<SearchResult>)
    ensures
        views(r@) == pinyin_picks(entry_views(all@), views(base@), q@, remaining as int).map_values(
            scorer(opt_chars(*ctx), 35, 25, MatchType::Pinyin),
        ),
{
    let ghost es = entry_views(all@);
    let ghost pred = pinyin_pred(views(base@), q@);
    let ghost sc = scorer(opt_chars(*ctx), 35, 25, MatchType::Pinyin);
    let ghost target = pinyin_picks(es, views(base@), q@, remaining as int).map_values(sc);
    let mut picks: Vec<SearchResult> = Vec::new();
    let mut i: usize = 0;
    let mut done = false;
    proof {
        reveal(Seq::filter);
        assert(es.take(0) =~= Seq::<FileEntryView>::empty());
        assert(es.take(0).filter(pred) =~= Seq::<FileEntryView>::empty());
        assert(views(picks@) =~= Seq::<SearchResultView>::empty());
    }
    while i < all.len() && !done
        invariant
            i <= all.len(),
            es == entry_views(all@),
            pred == pinyin_pred(views(base@), q@),
            sc == scorer(opt_chars(*ctx), 35, 25, MatchType::Pinyin),
            target == pinyin_picks(es, views(base@), q@, remaining as int).map_values(sc),
            !done ==> views(picks@) == es.take(i as int).filter(pred).map_values(sc),
            !done && remaining > 0 ==> picks.len() < remaining,
            !done && remaining == 0 ==> i == 0,
            done ==> views(picks@) == target,
        decreases all.len() - i,
    {
        let ghost before = views(picks@);
        let e = &all[i];
        proof {
            reveal(Seq::filter);
            assert(es.take(i + 1).drop_last() =~= es.take(i as int));
            assert(es.take(i + 1).last() == e@);
        }
        if match_pinyin(e.name.as_str(), q) {
            if !contains_id(base, e.id) {
                let hit = score_of(e.clone(), ctx, 35, 25, MatchType::Pinyin);
                let ghost hv = hit@;
                picks.push(hit);
                proof {
                    assert(pred(e@));
                    assert(hv == sc(e@));
                    assert(views(picks@) =~= before.push(hv));
                    let f0 = es.take(i as int).filter(pred);
                    assert(f0.push(e@).map_values(sc) =~= f0.map_values(sc).push(sc(e@)));
                    assert(es.take(i + 1).filter(pred) == es.take(i as int).filter(pred).push(e@));
                    assert(views(picks@) =~= es.take(i + 1).filter(pred).map_values(sc));
                }
            } else {
                proof {
                    assert(!pred(e@));
                    assert(views(picks@) =~= es.take(i + 1).filter(pred).map_values(sc));
                }
            }
        } else {
            proof {
                assert(!pred(e@));
                assert(views(picks@) =~= es.take(i + 1).filter(pred).map_values(sc));
            }
        }
        if picks.len() >= remaining {
            done = true;
            proof {
                if remaining == 0 {
                    assert(take_upto(es, 1) =~= es.take(1));
                } else {
                    let f = es.take(i + 1).filter(pred);
                    assert(es =~= es.take(i + 1) + es.skip(i + 1));
                    Seq::filter_distributes_over_add(es.take(i + 1), es.skip(i + 1), pred);
                    assert(f.len() == remaining);
                    assert(es.filter(pred).take(remaining as int) =~= f);
                }
            }
        }
        i = i + 1;
    }
    proof {
        if !done {
            assert(es.take(i as int) =~= es);
            if remaining == 0 {
                assert(es.len() == 0);
                assert(take_upto(es, 1) =~= es);
            }
        }
    }
    picks
}

/// Moves `x` in after every hit whose score is at least its own.
fn insert_sorted(out: &mut Vec<SearchResult>, x: SearchResult)
    ensures
        views(final(out)@) == insert_by_score(views(old(out)@), x@),
{
    let ghost target = insert_by_score(views(old(out)@), x@);
    let mut tail: Vec<SearchResult> = Vec::new();
    assert(views(tail@).reverse() =~= Seq::<SearchResultView>::empty());
    assert(target =~= insert_by_score(views(out@), x@) + views(tail@).reverse());
    while out.len() > 0 && out[out.len() - 1].score < x.score
        invariant
            target == insert_by_score(views(out@), x@) + views(tail@).reverse(),
        decreases out.len(),
    {
        let ghost o = views(out@);
        let ghost t = views(tail@);
        let y = out.pop().unwrap();
        proof {
            assert(o.drop_last() =~= views(out@));
            assert(o.last() == y@);
        }
        tail.push(y);
        proof {
            assert(views(tail@) =~= t.push(y@));
            assert(views(tail@).reverse() =~= seq![y@] + t.reverse());
            assert(insert_by_score(o, x@) == insert_by_score(views(out@), x@).push(y@));
            assert(target =~= insert_by_score(views(out@), x@) + views(tail@).reverse());
        }
    }
    let ghost o = views(out@);
    out.push(x);
    proof {
        assert(insert_by_score(o, x@) == o.push(x@));
        assert(views(out@) =~= o.push(x@));
    }
    while tail.len() > 0
        invariant
            target == views(out@) + views(tail@).reverse(),
        decreases tail.len(),
    {
        let ghost t = views(tail@);
        let ghost o2 = views(out@);
        let y = tail.pop().unwrap();
        proof {
            assert(t.drop_last() =~= views(tail@));
            assert(t.last() == y@);
            assert(t.reverse() =~= seq![y@] + views(tail@).reverse());
        }
        out.push(y);
        proof {
            assert(views(out@) =~= o2.push(y@));
            assert(target =~= views(out@) + views(tail@).reverse());
        }
    }
    assert(views(tail@).reverse() =~= Seq::<SearchResultView>::empty());
    assert(views(out@) =~= target);
}

/// Stable sort by descending score.
fn sort_results(v: Vec<SearchResult>) -> (r: Vec<SearchResult>)
    ensures
        views(r@) == sort_by_score(views(v@)),
{
    let mut out: Vec<SearchResult> = Vec::new();
    let mut i: usize = 0;
    assert(views(v@).take(0) =~= Seq::<SearchResultView>::empty());
    assert(views(out@) =~= sort_by_score(views(v@).take(0)));
    while i < v.len()
        invariant
            i <= v.len(),
            views(out@) == sort_by_score(views(v@).take(i as int)),
        decreases v.len() - i,
    {
        assert(views(v@).take(i + 1).drop_last() =~= views(v@).take(i as int));
        insert_sorted(&mut out, v[i].clone());
        i = i + 1;
    }
    assert(views(v@).take(v.len() as int) =~= views(v@));
    out
}

/// Lexicographic order of character sequences, the order of `String`'s `Ord` (UTF-8
/// byte order and code-point order agree).
pub open spec fn lex_lt(a: Seq<char>, b: Seq<char>) -> bool
    decreases a.len(),
{
    if a.len() == 0 {
        b.len() > 0
    } else if b.len() == 0 {
        false
    } else if a[0] != b[0] {
        (a[0] as u32) < (b[0] as u32)
    } else {
        lex_lt(a.drop_first(), b.drop_first())
    }
}

pub proof fn lemma_lex_irreflexive(a: Seq<char>)
    ensures
        !lex_lt(a, a),
    decreases a.len(),
{
    if a.len() > 0 {
        lemma_lex_irreflexive(a.drop_first());
    }
}

pub proof fn lemma_lex_transitive(a: Seq<char>, b: Seq<char>, c: Seq<char>)
    requires
        lex_lt(a, b),
        lex_lt(b, c),
    ensures
        lex_lt(a, c),
    decreases a.len(),
{
    if a.len() > 0 && b.len() > 0 && c.len() > 0 {
        if a[0] == b[0] && b[0] == c[0] {
            lemma_lex_transitive(a.drop_first(), b.drop_first(), c.drop_first());
        }
    }
}

pub proof fn lemma_lex_total(a: Seq<char>, b: Seq<char>)
    ensures
        a == b || lex_lt(a, b) || lex_lt(b, a),
    decreases a.len(),
{
    if a.len() > 0 && b.len() > 0 {
        if a[0] == b[0] {
            lemma_lex_total(a.drop_first(), b.drop_first());
            if a.drop_first() == b.drop_first() {
                assert(a =~= seq![a[0]] + a.drop_first());
                assert(b =~= seq![b[0]] + b.drop_first());
            }
        } else {
            assert((a[0] as u32) != (b[0] as u32)) by {
                if (a[0] as u32) == (b[0] as u32) {
                    vstd::utf8::char_u32_cast(a[0], a[0] as u32);
                    vstd::utf8::char_u32_cast(b[0], b[0] as u32);
                }
            }
        }
    } else if a.len() == 0 && b.len() == 0 {
        assert(a =~= b);
    }
}

pub open spec fn str_ascending(s: Seq<Seq<char>>) -> bool {
    forall|i: int, j: int| 0 <= i < j < s.len() ==> lex_lt(#[trigger] s[i], #[trigger] s[j])
}

/// The strings of `s` in ascending order, each once (when `s` is finite).
pub open spec fn ascending_strs(s: Set<Seq<char>>) -> Seq<Seq<char>> {
    choose|l: Seq<Seq<char>>| str_ascending(l) && l.to_set() == s
}

/// The non-empty volume names of the entries.
pub open spec fn volumes_of(es: Seq<FileEntryView>) -> Set<Seq<char>> {
    Set::new(|v: Seq<char>| exists|k: int| 0 <= k < es.len() && (#[trigger] es[k]).volume == v && v.len() > 0)
}

pub proof fn lemma_str_ascending_unique(a: Seq<Seq<char>>, b: Seq<Seq<char>>)
    requires
        str_ascending(a),
        str_ascending(b),
        a.to_set() == b.to_set(),
    ensures
        a == b,
    decreases a.len(),
{
    if a.len() == 0 {
        if b.len() > 0 {
            assert(b.to_set().contains(b[0]));
        }
        assert(a =~= b);
    } else if b.len() == 0 {
        assert(a.to_set().contains(a[0]));
    } else {
        assert(b.to_set().contains(a[0]));
        assert(a.to_set().contains(b[0]));
        let ja = choose|j: int| 0 <= j < b.len() && b[j] == a[0];
        let jb = choose|j: int| 0 <= j < a.len() && a[j] == b[0];
        if a[0] != b[0] {
            assert(ja > 0 && jb > 0);
            assert(lex_lt(b[0], b[ja]));
            assert(lex_lt(a[0], a[jb]));
            lemma_lex_transitive(a[0], b[0], a[0]);
            lemma_lex_irreflexive(a[0]);
        }
        let a1 = a.drop_first();
        let b1 = b.drop_first();
        assert forall|x: Seq<char>| a1.to_set().contains(x) implies b1.to_set().contains(x) by {
            let i = choose|i: int| 0 <= i < a1.len() && a1[i] == x;
            assert(a[i + 1] == x);
            assert(lex_lt(a[0], a[i + 1]));
            assert(b.to_set().contains(x));
            let j = choose|j: int| 0 <= j < b.len() && b[j] == x;
            if j == 0 {
                lemma_lex_irreflexive(x);
            }
            assert(b1[j - 1] == x);
        }
        assert forall|x: Seq<char>| b1.to_set().contains(x) implies a1.to_set().contains(x) by {
            let i = choose|i: int| 0 <= i < b1.len() && b1[i] == x;
            assert(b[i + 1] == x);
            assert(lex_lt(b[0], b[i + 1]));
            assert(a.to_set().contains(x));
            let j = choose|j: int| 0 <= j < a.len() && a[j] == x;
            if j == 0 {
                lemma_lex_irreflexive(x);
            }
            assert(a1[j - 1] == x);
        }
        assert(a1.to_set() =~= b1.to_set());
        assert forall|i: int, j: int| 0 <= i < j < a1.len() implies lex_lt(#[trigger] a1[i], #[trigger] a1[j]) by {
            assert(a1[i] == a[i + 1] && a1[j] == a[j + 1]);
        }
        assert forall|i: int, j: int| 0 <= i < j < b1.len() implies lex_lt(#[trigger] b1[i], #[trigger] b1[j]) by {
            assert(b1[i] == b[i + 1] && b1[j] == b[j + 1]);
        }
        lemma_str_ascending_unique(a1, b1);
        assert(a =~= seq![a[0]] + a1);
        assert(b =~= seq![b[0]] + b1);
    }
}

pub proof fn lemma_ascending_strs_is(l: Seq<Seq<char>>, s: Set<Seq<char>>)
    requires
        str_ascending(l),
        l.to_set() == s,
    ensures
        ascending_strs(s) == l,
{
    let a = ascending_strs(s);
    assert(str_ascending(a) && a.to_set() == s);
    lemma_str_ascending_unique(a, l);
}

/// Whether `a` sorts before `b`.
fn lex_less(a: &Vec<char>, b: &Vec<char>) -> (r: bool)
    ensures
        r == lex_lt(a@, b@),
{
    let mut i: usize = 0;
    assert(a@.skip(0) =~= a@);
    assert(b@.skip(0) =~= b@);
    while i < a.len() && i < b.len() && a[i] == b[i]
        invariant
            i <= a.len(),
            i <= b.len(),
            lex_lt(a@, b@) == lex_lt(a@.skip(i as int), b@.skip(i as int)),
        decreases a.len() - i,
    {
        assert(a@.skip(i as int).drop_first() =~= a@.skip(i + 1));
        assert(b@.skip(i as int).drop_first() =~= b@.skip(i + 1));
        i = i + 1;
    }
    if i == a.len() {
        i < b.len()
    } else if i == b.len() {
        false
    } else {
        assert(a@.skip(i as int)[0] == a@[i as int]);
        assert(b@.skip(i as int)[0] == b@[i as int]);
        (a[i] as u32) < (b[i] as u32)
    }
}

/// Adds a name to an ascending list of distinct names, keeping it so.
fn insert_volume(vols: &mut Vec<Vec<char>>, v: Vec<char>)
    requires
        str_ascending(old(vols)@.map_values(|x: Vec<char>| x@)),
    ensures
        str_ascending(final(vols)@.map_values(|x: Vec<char>| x@)),
        final(vols)@.map_values(|x: Vec<char>| x@).to_set() == old(vols)@.map_values(
            |x: Vec<char>| x@,
        ).to_set().insert(v@),
{
    let ghost o = vols@.map_values(|x: Vec<char>| x@);
    let mut k: usize = 0;
    while k < vols.len() && lex_less(&vols[k], &v)
        invariant
            k <= vols.len(),
            vols@.map_values(|x: Vec<char>| x@) == o,
            forall|j: int| 0 <= j < k ==> lex_lt(#[trigger] o[j], v@),
        decreases vols.len() - k,
    {
        k = k + 1;
    }
    if k < vols.len() && crate::text::chars_eq(&vols[k], &v) {
        assert(o[k as int] == v@);
        assert(o.to_set().contains(v@));
        assert(o.to_set().insert(v@) =~= o.to_set());
        return ;
    }
    proof {
        if k < o.len() {
            lemma_lex_total(o[k as int], v@);
            assert(lex_lt(v@, o[k as int]));
        }
    }
    vols.insert(k, v);
    proof {
        let n = vols@.map_values(|x: Vec<char>| x@);
        assert(n =~= o.insert(k as int, v@));
        assert forall|i: int, j: int| 0 <= i < j < n.len() implies lex_lt(#[trigger] n[i], #[trigger] n[j]) by {
            if j < k {
            } else if i < k && j == k {
            } else if i < k && j > k {
                assert(n[j] == o[j - 1]);
                if k < o.len() {
                    if j - 1 > k {
                        lemma_lex_transitive(v@, o[k as int], o[j - 1]);
                    }
                    lemma_lex_transitive(o[i], v@, o[j - 1]);
                }
            } else if i == k {
                assert(n[j] == o[j - 1]);
                if j - 1 > k {
                    lemma_lex_transitive(v@, o[k as int], o[j - 1]);
                }
            } else {
                assert(n[i] == o[i - 1] && n[j] == o[j - 1]);
            }
        }
        assert(n.to_set() =~= o.to_set().insert(v@)) by {
            assert forall|x: Seq<char>| n.to_set().contains(x) implies o.to_set().insert(v@).contains(x) by {
                let i = choose|i: int| 0 <= i < n.len() && n[i] == x;
                if i < k {
                    assert(o[i] == x);
                } else if i > k {
                    assert(o[i - 1] == x);
                }
            }
            assert forall|x: Seq<char>| o.to_set().insert(v@).contains(x) implies n.to_set().contains(x) by {
                if x == v@ {
                    assert(n[k as int] == x);
                } else {
                    let i = choose|i: int| 0 <= i < o.len() && o[i] == x;
                    if i < k {
                        assert(n[i] == x);
                    } else {
                        assert(n[i + 1] == x);
                    }
                }
            }
        }
    }
}

/// No two hits share an entry id.
pub open spec fn distinct_ids(s: Seq<SearchResultView>) -> bool {
    forall|i: int, j: int| 0 <= i < j < s.len() ==> s[i].entry.id != s[j].entry.id
}

/// The entries' ids rise along the list.
pub open spec fn ids_increasing(es: Seq<FileEntryView>) -> bool {
    forall|i: int, j: int| 0 <= i < j < es.len() ==> es[i].id < es[j].id
}

proof fn lemma_filter_ids_increasing(es: Seq<FileEntryView>, p: spec_fn(FileEntryView) -> bool)
    requires
        ids_increasing(es),
    ensures
        ids_increasing(es.filter(p)),
        es.len() > 0 ==> forall|k: int| 0 <= k < es.filter(p).len() ==> #[trigger] es.filter(p)[k].id
            <= es.last().id,
    decreases es.len(),
{
    reveal(Seq::filter);
    if es.len() > 0 {
        let dl = es.drop_last();
        assert(ids_increasing(dl));
        lemma_filter_ids_increasing(dl, p);
        let f = dl.filter(p);
        if dl.len() > 0 {
            assert(dl.last() == es[es.len() - 2]);
            assert(es[es.len() - 2].id < es[es.len() - 1].id);
        }
        assert(es.last() == es[es.len() - 1]);
        assert forall|k: int| 0 <= k < f.len() implies #[trigger] f[k].id < es.last().id by {
            if dl.len() == 0 {
                assert(f.len() == 0);
            }
        }
        if p(es.last()) {
            assert(es.filter(p) == f.push(es.last()));
        } else {
            assert(es.filter(p) == f);
        }
    }
}

/// Hits of entries whose ids rise, none of them listed yet, keep the ids distinct.
proof fn lemma_add_hits_all(
    r: Seq<SearchResultView>,
    es: Seq<FileEntryView>,
    ctx: Option<Seq<char>>,
    hi: i32,
    lo: i32,
    kind: MatchType,
)
    ensures
        add_hits(r, es, ctx, hi, lo, kind, false) == r + es.map_values(scorer(ctx, hi, lo, kind)),
    decreases es.len(),
{
    if es.len() > 0 {
        lemma_add_hits_all(r, es.drop_last(), ctx, hi, lo, kind);
        assert(es.map_values(scorer(ctx, hi, lo, kind)) =~= es.drop_last().map_values(
            scorer(ctx, hi, lo, kind),
        ).push(scored(es.last(), ctx, hi, lo, kind)));
        assert(r + es.map_values(scorer(ctx, hi, lo, kind)) =~= (r + es.drop_last().map_values(
            scorer(ctx, hi, lo, kind),
        )).push(scored(es.last(), ctx, hi, lo, kind)));
    } else {
        assert(r + es.map_values(scorer(ctx, hi, lo, kind)) =~= r);
    }
}

/// Adding only hits whose id is not yet listed keeps the ids distinct.
proof fn lemma_add_hits_fresh(
    r: Seq<SearchResultView>,
    es: Seq<FileEntryView>,
    ctx: Option<Seq<char>>,
    hi: i32,
    lo: i32,
    kind: MatchType,
)
    requires
        distinct_ids(r),
    ensures
        distinct_ids(add_hits(r, es, ctx, hi, lo, kind, true)),
    decreases es.len(),
{
    if es.len() > 0 {
        lemma_add_hits_fresh(r, es.drop_last(), ctx, hi, lo, kind);
        let prev = add_hits(r, es.drop_last(), ctx, hi, lo, kind, true);
        if !has_id(prev, es.last().id) {
            let n = prev.push(scored(es.last(), ctx, hi, lo, kind));
            assert forall|i: int, j: int| 0 <= i < j < n.len() implies n[i].entry.id != n[j].entry.id by {
                if j == n.len() - 1 {
                    assert(n[i] == prev[i]);
                    if prev[i].entry.id == es.last().id {
                        assert(has_id(prev, es.last().id));
                    }
                } else {
                    assert(n[i] == prev[i] && n[j] == prev[j]);
                }
            }
        }
    }
}

/// Where `insert_by_score` puts the new hit.
pub open spec fn insert_pos(l: Seq<SearchResultView>, x: SearchResultView) -> int
    decreases l.len(),
{
    if l.len() == 0 {
        0
    } else if l.last().score >= x.score {
        l.len() as int
    } else {
        insert_pos(l.drop_last(), x)
    }
}

proof fn lemma_insert_pos(l: Seq<SearchResultView>, x: SearchResultView)
    ensures
        0 <= insert_pos(l, x) <= l.len(),
        insert_by_score(l, x) == l.take(insert_pos(l, x)) + seq![x] + l.skip(insert_pos(l, x)),
    decreases l.len(),
{
    if l.len() == 0 {
        assert(insert_by_score(l, x) =~= l.take(0) + seq![x] + l.skip(0));
    } else if l.last().score >= x.score {
        assert(insert_by_score(l, x) =~= l.take(l.len() as int) + seq![x] + l.skip(l.len() as int));
    } else {
        let dl = l.drop_last();
        lemma_insert_pos(dl, x);
        let k = insert_pos(dl, x);
        assert(insert_by_score(l, x) == insert_by_score(dl, x).push(l.last()));
        assert(insert_by_score(l, x) =~= l.take(k) + seq![x] + l.skip(k));
    }
}

/// Ranking keeps the ids distinct, and lists only ids of the hits.
pub proof fn lemma_sort_distinct(s: Seq<SearchResultView>)
    requires
        distinct_ids(s),
    ensures
        distinct_ids(sort_by_score(s)),
        sort_by_score(s).len() == s.len(),
        forall|k: int| 0 <= k < sort_by_score(s).len() ==> has_id(s, #[trigger] sort_by_score(s)[k].entry.id),
    decreases s.len(),
{
    if s.len() > 0 {
        let dl = s.drop_last();
        let x = s.last();
        assert(distinct_ids(dl));
        lemma_sort_distinct(dl);
        let l = sort_by_score(dl);
        lemma_insert_pos(l, x);
        let k = insert_pos(l, x);
        let r = sort_by_score(s);
        assert(r == l.take(k) + seq![x] + l.skip(k));
        assert forall|m: int| 0 <= m < l.len() implies l[m].entry.id != x.entry.id by {
            assert(has_id(dl, l[m].entry.id));
            let j = choose|j: int| 0 <= j < dl.len() && (#[trigger] dl[j]).entry.id == l[m].entry.id;
            assert(dl[j] == s[j]);
            assert(x == s[s.len() - 1]);
        }
        assert forall|m: int| 0 <= m < r.len() implies has_id(s, #[trigger] r[m].entry.id) by {
            if m < k {
                assert(r[m] == l[m]);
                assert(has_id(dl, l[m].entry.id));
                let j = choose|j: int| 0 <= j < dl.len() && (#[trigger] dl[j]).entry.id == l[m].entry.id;
                assert(s[j] == dl[j]);
            } else if m == k {
                assert(r[m] == x);
                assert(s[s.len() - 1] == x);
            } else {
                assert(r[m] == l[m - 1]);
                assert(has_id(dl, l[m - 1].entry.id));
                let j = choose|j: int| 0 <= j < dl.len() && (#[trigger] dl[j]).entry.id == l[m - 1].entry.id;
                assert(s[j] == dl[j]);
            }
        }
        assert forall|i: int, j: int| 0 <= i < j < r.len() implies r[i].entry.id != r[j].entry.id by {
            if j < k {
                assert(r[i] == l[i] && r[j] == l[j]);
            } else if j == k {
                assert(r[i] == l[i] && r[j] == x);
            } else if i < k {
                assert(r[i] == l[i] && r[j] == l[j - 1]);
            } else if i == k {
                assert(r[i] == x && r[j] == l[j - 1]);
            } else {
                assert(r[i] == l[i - 1] && r[j] == l[j - 1]);
            }
        }
    }
}

/// Adding hits keeps the hits there are, and every added hit has one of the two scores.
proof fn lemma_add_hits_scores(
    r: Seq<SearchResultView>,
    es: Seq<FileEntryView>,
    ctx: Option<Seq<char>>,
    hi: i32,
    lo: i32,
    kind: MatchType,
    fresh_only: bool,
)
    ensures
        add_hits(r, es, ctx, hi, lo, kind, fresh_only).len() >= r.len(),
        add_hits(r, es, ctx, hi, lo, kind, fresh_only).take(r.len() as int) == r,
        forall|k: int|
            r.len() <= k < add_hits(r, es, ctx, hi, lo, kind, fresh_only).len() ==> #[trigger] add_hits(
                r,
                es,
                ctx,
                hi,
                lo,
                kind,
                fresh_only,
            )[k].score == hi || add_hits(r, es, ctx, hi, lo, kind, fresh_only)[k].score == lo,
    decreases es.len(),
{
    if es.len() == 0 {
        assert(r.take(r.len() as int) =~= r);
    } else {
        lemma_add_hits_scores(r, es.drop_last(), ctx, hi, lo, kind, fresh_only);
        let prev = add_hits(r, es.drop_last(), ctx, hi, lo, kind, fresh_only);
        let cur = add_hits(r, es, ctx, hi, lo, kind, fresh_only);
        if !(fresh_only && has_id(prev, es.last().id)) {
            assert(cur == prev.push(scored(es.last(), ctx, hi, lo, kind)));
            assert(cur.take(r.len() as int) =~= prev.take(r.len() as int));
            assert forall|k: int| r.len() <= k < cur.len() implies #[trigger] cur[k].score == hi
                || cur[k].score == lo by {
                if k < prev.len() {
                    assert(cur[k] == prev[k]);
                }
            }
        }
    }
}

/// Every hit of `l` scores at least `t`.
pub open spec fn scores_at_least(l: Seq<SearchResultView>, t: int) -> bool {
    forall|k: int| 0 <= k < l.len() ==> #[trigger] l[k].score >= t
}

/// Every hit of `l` scores below `t`.
pub open spec fn scores_below(l: Seq<SearchResultView>, t: int) -> bool {
    forall|k: int| 0 <= k < l.len() ==> #[trigger] l[k].score < t
}

/// A hit that scores below every hit of `a` goes in after all of them.
proof fn lemma_insert_after(a: Seq<SearchResultView>, b: Seq<SearchResultView>, x: SearchResultView)
    requires
        scores_at_least(a, x.score as int),
    ensures
        insert_by_score(a + b, x) == a + insert_by_score(b, x),
    decreases b.len(),
{
    if b.len() == 0 {
        assert(a + b =~= a);
        if a.len() > 0 {
            assert(a.last() == a[a.len() - 1]);
        } else {
            assert(insert_by_score(a, x) =~= seq![x]);
        }
        assert(a + insert_by_score(b, x) =~= a.push(x));
    } else {
        assert((a + b).last() == b.last());
        if b.last().score >= x.score {
            assert((a + b).push(x) =~= a + b.push(x));
        } else {
            assert((a + b).drop_last() =~= a + b.drop_last());
            lemma_insert_after(a, b.drop_last(), x);
            assert((a + insert_by_score(b.drop_last(), x)).push(b.last()) =~= a + insert_by_score(
                b.drop_last(),
                x,
            ).push(b.last()));
        }
    }
}

/// Ranking keeps a lower bound on the scores.
proof fn lemma_sort_scores_at_least(s: Seq<SearchResultView>, t: int)
    requires
        scores_at_least(s, t),
    ensures
        scores_at_least(sort_by_score(s), t),
    decreases s.len(),
{
    if s.len() > 0 {
        let dl = s.drop_last();
        assert(scores_at_least(dl, t));
        lemma_sort_scores_at_least(dl, t);
        let l = sort_by_score(dl);
        lemma_insert_pos(l, s.last());
        let k = insert_pos(l, s.last());
        let r = sort_by_score(s);
        assert(s.last() == s[s.len() - 1]);
        assert forall|m: int| 0 <= m < r.len() implies #[trigger] r[m].score >= t by {
            if m < k {
                assert(r[m] == l[m]);
            } else if m > k {
                assert(r[m] == l[m - 1]);
            }
        }
    }
}

/// Ranking hits that all outscore the rest puts them first: ranking `a + b` is ranking
/// `a`, then ranking `b`.
pub proof fn lemma_sort_split(a: Seq<SearchResultView>, b: Seq<SearchResultView>, t: int)
    requires
        scores_at_least(a, t),
        scores_below(b, t),
    ensures
        sort_by_score(a + b) == sort_by_score(a) + sort_by_score(b),
    decreases b.len(),
{
    if b.len() == 0 {
        assert(a + b =~= a);
        assert(sort_by_score(a) + sort_by_score(b) =~= sort_by_score(a));
    } else {
        let x = b.last();
        assert(x == b[b.len() - 1]);
        assert(scores_below(b.drop_last(), t));
        lemma_sort_split(a, b.drop_last(), t);
        assert((a + b).drop_last() =~= a + b.drop_last());
        assert((a + b).last() == x);
        lemma_sort_scores_at_least(a, t);
        lemma_insert_after(sort_by_score(a), sort_by_score(b.drop_last()), x);
    }
}

/// `h` is `pre` followed by hits that all score below `t`.
pub open spec fn extends_below(h: Seq<SearchResultView>, pre: Seq<SearchResultView>, t: int) -> bool {
    &&& h.len() >= pre.len()
    &&& h.take(pre.len() as int) == pre
    &&& forall|k: int| pre.len() <= k < h.len() ==> #[trigger] h[k].score < t
}

proof fn lemma_extends_add(
    h: Seq<SearchResultView>,
    pre: Seq<SearchResultView>,
    es: Seq<FileEntryView>,
    ctx: Option<Seq<char>>,
    hi: i32,
    lo: i32,
    kind: MatchType,
    t: int,
)
    requires
        extends_below(h, pre, t),
        hi < t,
        lo < t,
    ensures
        extends_below(add_hits(h, es, ctx, hi, lo, kind, true), pre, t),
{
    lemma_add_hits_scores(h, es, ctx, hi, lo, kind, true);
    let n = add_hits(h, es, ctx, hi, lo, kind, true);
    assert(n.take(pre.len() as int) =~= n.take(h.len() as int).take(pre.len() as int));
    assert forall|k: int| pre.len() <= k < n.len() implies #[trigger] n[k].score < t by {
        if k < h.len() {
            assert(n[k] == n.take(h.len() as int)[k]);
            assert(h[k].score < t);
        }
    }
}

/// What a result of a search for the trimmed query `q` is, by its kind: a prefix hit's
/// lower-cased name starts with the lower-cased query; a path hit, for a query with `/`,
/// `\` or `.`, has a lower-cased path that contains it; a substring hit's lower-cased
/// name contains it; a pinyin hit's initials contain it; each with its two scores, the
/// higher in the context folder; and there is no fuzzy hit.
pub open spec fn result_fits(x: SearchResultView, q: Seq<char>, ctx: Option<Seq<char>>) -> bool {
    let lq = lowercase(q);
    let e = x.entry;
    let c = in_context(e, ctx);
    match x.match_type {
        MatchType::ExactPrefix => starts_with(lowercase(e.name), lq) && x.score == (if c {
            130i32
        } else {
            100i32
        }),
        MatchType::PathSegment => (contains(q, seq!['/']) || contains(q, seq!['\\']) || contains(
            q,
            seq!['.'],
        )) && contains(lowercase(e.path), lq) && x.score == (if c {
            80i32
        } else {
            60i32
        }),
        MatchType::Substring => contains(lowercase(e.name), lq) && x.score == (if c {
            55i32
        } else {
            40i32
        }),
        MatchType::Pinyin => contains(initials(e.name), lq) && x.score == (if c {
            35i32
        } else {
            25i32
        }),
        MatchType::Fuzzy => false,
    }
}

/// Adding hits keeps a property that the hits there are and every added hit have.
proof fn lemma_add_hits_keep(
    r: Seq<SearchResultView>,
    es: Seq<FileEntryView>,
    ctx: Option<Seq<char>>,
    hi: i32,
    lo: i32,
    kind: MatchType,
    fresh_only: bool,
    p: spec_fn(SearchResultView) -> bool,
)
    requires
        forall|i: int| 0 <= i < r.len() ==> p(#[trigger] r[i]),
        forall|j: int| 0 <= j < es.len() ==> p(scored(#[trigger] es[j], ctx, hi, lo, kind)),
    ensures
        forall|i: int| 0 <= i < add_hits(r, es, ctx, hi, lo, kind, fresh_only).len() ==> p(
            #[trigger] add_hits(r, es, ctx, hi, lo, kind, fresh_only)[i],
        ),
    decreases es.len(),
{
    if es.len() > 0 {
        let d = es.drop_last();
        assert forall|j: int| 0 <= j < d.len() implies p(scored(#[trigger] d[j], ctx, hi, lo, kind)) by {
            assert(d[j] == es[j]);
        }
        lemma_add_hits_keep(r, d, ctx, hi, lo, kind, fresh_only, p);
        assert(es.last() == es[es.len() - 1]);
        let prev = add_hits(r, d, ctx, hi, lo, kind, fresh_only);
        let cur = add_hits(r, es, ctx, hi, lo, kind, fresh_only);
        assert forall|i: int| 0 <= i < cur.len() implies p(#[trigger] cur[i]) by {
            if i < prev.len() {
                assert(cur[i] == prev[i]);
            }
        }
    }
}

/// The search router over a trie index.
pub struct Searcher {
    index: TrieIndex,
}

/// A search returns at most the requested number of results, best score first, each of
/// them one of the hits.
pub proof fn lemma_results_ranked(
    searcher: Searcher,
    query: Seq<char>,
    ctx: Option<Seq<char>>,
    max: int,
    offset: int,
)
    requires
        max >= 0,
        offset >= 0,
    ensures
        searcher.results(query, ctx, max, offset).len() <= max,
        score_desc(searcher.results(query, ctx, max, offset)),
        forall|k: int| 0 <= k < searcher.results(query, ctx, max, offset).len() ==>
            searcher.hits(trim(query), ctx, max).contains(
                #[trigger] searcher.results(query, ctx, max, offset)[k],
            ),
{
    broadcast use vstd::seq_lib::group_to_multiset_ensures;

    let q = trim(query);
    if q.len() > 0 {
        let h = searcher.hits(q, ctx, max);
        let ranked = sort_by_score(h);
        lemma_sort_by_score(h);
        let start = min_int(offset, ranked.len() as int);
        let end = min_int(start + max, ranked.len() as int);
        let r = ranked.subrange(start, end);
        assert forall|k: int| 0 <= k < r.len() implies h.contains(#[trigger] r[k]) by {
            assert(r[k] == ranked[start + k]);
            assert(ranked.contains(ranked[start + k]));
            assert(ranked.to_multiset().count(r[k]) > 0);
        }
    }
}

/// Every hit that adding entries gives is one of the hits before, kept in place, or the
/// hit of one of the entries.
proof fn lemma_add_hits_members(
    r: Seq<SearchResultView>,
    es: Seq<FileEntryView>,
    ctx: Option<Seq<char>>,
    hi: i32,
    lo: i32,
    kind: MatchType,
    fresh_only: bool,
)
    ensures
        add_hits(r, es, ctx, hi, lo, kind, fresh_only).len() >= r.len(),
        add_hits(r, es, ctx, hi, lo, kind, fresh_only).take(r.len() as int) == r,
        forall|k: int|
            r.len() <= k < add_hits(r, es, ctx, hi, lo, kind, fresh_only).len() ==> exists|i: int|
                0 <= i < es.len() && #[trigger] add_hits(r, es, ctx, hi, lo, kind, fresh_only)[k]
                    == scored(es[i], ctx, hi, lo, kind),
    decreases es.len(),
{
    if es.len() > 0 {
        let d = es.drop_last();
        lemma_add_hits_members(r, d, ctx, hi, lo, kind, fresh_only);
        let prev = add_hits(r, d, ctx, hi, lo, kind, fresh_only);
        let h = add_hits(r, es, ctx, hi, lo, kind, fresh_only);
        if !(fresh_only && has_id(prev, es.last().id)) {
            assert(h == prev.push(scored(es.last(), ctx, hi, lo, kind)));
            assert(h.take(r.len() as int) =~= prev.take(r.len() as int));
            assert forall|k: int| r.len() <= k < h.len() implies exists|i: int|
                0 <= i < es.len() && #[trigger] h[k] == scored(es[i], ctx, hi, lo, kind) by {
                if k < prev.len() {
                    assert(h[k] == prev[k]);
                    let i = choose|i: int| 0 <= i < d.len() && #[trigger] prev[k] == scored(d[i], ctx, hi, lo, kind);
                    assert(es[i] == d[i]);
                } else {
                    assert(h[k] == scored(es[es.len() - 1], ctx, hi, lo, kind));
                }
            }
        } else {
            assert forall|k: int| r.len() <= k < h.len() implies exists|i: int|
                0 <= i < es.len() && #[trigger] h[k] == scored(es[i], ctx, hi, lo, kind) by {
                let i = choose|i: int| 0 <= i < d.len() && #[trigger] prev[k] == scored(d[i], ctx, hi, lo, kind);
                assert(es[i] == d[i]);
            }
        }
    }
}

/// Adding entries, skipping those whose id is already there, gives a hit for each entry
/// unless its id was among the hits before or an earlier entry has it.
proof fn lemma_add_hits_covers(
    r: Seq<SearchResultView>,
    es: Seq<FileEntryView>,
    ctx: Option<Seq<char>>,
    hi: i32,
    lo: i32,
    kind: MatchType,
    j: int,
)
    requires
        0 <= j < es.len(),
    ensures
        add_hits(r, es, ctx, hi, lo, kind, true).contains(scored(es[j], ctx, hi, lo, kind))
            || has_id(r, es[j].id) || exists|i: int| 0 <= i < j && #[trigger] es[i].id == es[j].id,
    decreases es.len(),
{
    let d = es.drop_last();
    let prev = add_hits(r, d, ctx, hi, lo, kind, true);
    let h = add_hits(r, es, ctx, hi, lo, kind, true);
    lemma_add_hits_members(r, d, ctx, hi, lo, kind, true);
    if j == es.len() - 1 {
        if has_id(prev, es[j].id) {
            let k = choose|k: int| 0 <= k < prev.len() && (#[trigger] prev[k]).entry.id == es[j].id;
            if k < r.len() {
                assert(prev.take(r.len() as int)[k] == r[k]);
                assert(r[k].entry.id == es[j].id);
            } else {
                let i = choose|i: int| 0 <= i < d.len() && #[trigger] prev[k] == scored(d[i], ctx, hi, lo, kind);
                assert(es[i] == d[i]);
                assert(es[i].id == es[j].id);
            }
        } else {
            assert(h == prev.push(scored(es[j], ctx, hi, lo, kind)));
            assert(h[prev.len() as int] == scored(es[j], ctx, hi, lo, kind));
        }
    } else {
        assert(d[j] == es[j]);
        lemma_add_hits_covers(r, d, ctx, hi, lo, kind, j);
        if prev.contains(scored(es[j], ctx, hi, lo, kind)) {
            let k = choose|k: int| 0 <= k < prev.len() && prev[k] == scored(es[j], ctx, hi, lo, kind);
            assert(h.len() >= prev.len());
            if !has_id(prev, es.last().id) {
                assert(h == prev.push(scored(es.last(), ctx, hi, lo, kind)));
            }
            assert(h[k] == prev[k]);
        }
        if exists|i: int| 0 <= i < j && #[trigger] d[i].id == d[j].id {
            let i = choose|i: int| 0 <= i < j && #[trigger] d[i].id == d[j].id;
            assert(es[i] == d[i]);
        }
    }
}

impl Searcher {
    pub closed spec fn index_view(&self) -> TrieIndex {
        self.index
    }

    pub open spec fn wf(&self) -> bool {
        self.index_view().wf()
    }

    /// The hits before ranking, for a query whose trimmed text `q` is not empty.
    pub open spec fn hits(&self, q: Seq<char>, ctx: Option<Seq<char>>, max: int) -> Seq<
        SearchResultView,
    > {
        let idx = self.index_view();
        let prefix = add_hits(
            Seq::empty(),
            idx.prefix_results(q, max),
            ctx,
            130,
            100,
            MatchType::ExactPrefix,
            false,
        );
        let with_path = if contains(q, seq!['/']) || contains(q, seq!['\\']) || contains(
            q,
            seq!['.'],
        ) {
            add_hits(
                prefix,
                idx.entries_of(take_upto(ascending(idx.path_matches(q)), max)),
                ctx,
                80,
                60,
                MatchType::PathSegment,
                true,
            )
        } else {
            prefix
        };
        let with_sub = if with_path.len() < max {
            add_hits(
                with_path,
                idx.entries_of(
                    take_upto(ascending(idx.name_matches(q)), max - with_path.len()),
                ),
                ctx,
                55,
                40,
                MatchType::Substring,
                true,
            )
        } else {
            with_path
        };
        if (exists|i: int| 0 <= i < q.len() && is_cjk(#[trigger] q[i])) || utf8_len(q) <= 3 {
            let remaining = if max > with_sub.len() {
                max - with_sub.len()
            } else {
                0
            };
            with_sub + pinyin_picks(idx.ordered(), with_sub, q, remaining).map_values(
                scorer(ctx, 35, 25, MatchType::Pinyin),
            )
        } else {
            with_sub
        }
    }

    /// What `search` returns for a query.
    pub open spec fn results(&self, query: Seq<char>, ctx: Option<Seq<char>>, max: int, offset: int) -> Seq<
        SearchResultView,
    > {
        let q = trim(query);
        if q.len() == 0 {
            Seq::empty()
        } else {
            let ranked = sort_by_score(self.hits(q, ctx, max));
            let start = min_int(offset, ranked.len() as int);
            let end = min_int(start + max, ranked.len() as int);
            ranked.subrange(start, end)
        }
    }

    /// The hits list each id once, when the ids filed under the query are finitely many
    /// (as `search_prefix` shows they are).
    proof fn lemma_hits_distinct(&self, q: Seq<char>, ctx: Option<Seq<char>>, max: int)
        requires
            self.wf(),
            self.index_view().ids_below_prefix(q).finite(),
            max >= 0,
        ensures
            distinct_ids(self.hits(q, ctx, max)),
    {
        broadcast use vstd::seq_lib::group_filter_ensures;

        let idx = self.index_view();
        idx.lemma_entry_ids();
        let ev = idx.entries_view();
        crate::order::lemma_ascending_finite(idx.ids_below_prefix(q));
        let asc = ascending(idx.ids_below_prefix(q));
        let cut = take_upto(asc, max);
        assert(crate::order::strictly_increasing(cut));
        let in_dom = |id: i64| ev.contains_key(id);
        crate::order::lemma_filter_ascending(cut, in_dom);
        let kept = cut.filter(in_dom);
        let pr = idx.prefix_results(q, max);
        assert(pr == kept.map_values(|id: i64| ev[id]));
        assert forall|k: int| 0 <= k < pr.len() implies #[trigger] pr[k].id == kept[k] by {
            assert(in_dom(kept[k]));
        }
        assert(ids_increasing(pr));
        lemma_add_hits_all(Seq::empty(), pr, ctx, 130, 100, MatchType::ExactPrefix);
        let prefix = add_hits(Seq::empty(), pr, ctx, 130, 100, MatchType::ExactPrefix, false);
        assert(prefix =~= pr.map_values(scorer(ctx, 130, 100, MatchType::ExactPrefix)));
        assert(distinct_ids(prefix));
        let with_path = if contains(q, seq!['/']) || contains(q, seq!['\\']) || contains(
            q,
            seq!['.'],
        ) {
            lemma_add_hits_fresh(
                prefix,
                idx.entries_of(take_upto(ascending(idx.path_matches(q)), max)),
                ctx,
                80,
                60,
                MatchType::PathSegment,
            );
            add_hits(
                prefix,
                idx.entries_of(take_upto(ascending(idx.path_matches(q)), max)),
                ctx,
                80,
                60,
                MatchType::PathSegment,
                true,
            )
        } else {
            prefix
        };
        let with_sub = if with_path.len() < max {
            lemma_add_hits_fresh(
                with_path,
                idx.entries_of(take_upto(ascending(idx.name_matches(q)), max - with_path.len())),
                ctx,
                55,
                40,
                MatchType::Substring,
            );
            add_hits(
                with_path,
                idx.entries_of(take_upto(ascending(idx.name_matches(q)), max - with_path.len())),
                ctx,
                55,
                40,
                MatchType::Substring,
                true,
            )
        } else {
            with_path
        };
        assert(distinct_ids(with_sub));
        if (exists|i: int| 0 <= i < q.len() && is_cjk(#[trigger] q[i])) || utf8_len(q) <= 3 {
            let remaining = if max > with_sub.len() {
                max - with_sub.len()
            } else {
                0
            };
            let es = idx.ordered();
            let dom_asc = ascending(ev.dom());
            assert forall|k: int| 0 <= k < es.len() implies #[trigger] es[k].id == dom_asc[k] by {
                assert(dom_asc.to_set().contains(dom_asc[k]));
            }
            assert(ids_increasing(es));
            let pred = pinyin_pred(with_sub, q);
            let picks = pinyin_picks(es, with_sub, q, remaining);
            if remaining == 0 {
                let t1 = take_upto(es, 1);
                assert(ids_increasing(t1));
                lemma_filter_ids_increasing(t1, pred);
                assert forall|k: int| 0 <= k < picks.len() implies !has_id(with_sub, #[trigger] picks[k].id) by {
                    assert(pred(picks[k]));
                }
            } else {
                lemma_filter_ids_increasing(es, pred);
                let f = es.filter(pred);
                assert(ids_increasing(take_upto(f, remaining)));
                assert forall|k: int| 0 <= k < picks.len() implies !has_id(with_sub, #[trigger] picks[k].id) by {
                    assert(picks[k] == f[k]);
                    assert(pred(f[k]));
                }
            }
            let sc = scorer(ctx, 35, 25, MatchType::Pinyin);
            let tail = picks.map_values(sc);
            let all = with_sub + tail;
            assert forall|i: int, j: int| 0 <= i < j < all.len() implies all[i].entry.id != all[j].entry.id by {
                if j < with_sub.len() {
                    assert(all[i] == with_sub[i] && all[j] == with_sub[j]);
                } else if i < with_sub.len() {
                    let pj = picks[j - with_sub.len()];
                    assert(all[j] == sc(pj));
                    assert(all[i] == with_sub[i]);
                    assert(!has_id(with_sub, pj.id));
                    if with_sub[i].entry.id == pj.id {
                        assert(has_id(with_sub, pj.id));
                    }
                } else {
                    assert(all[i] == sc(picks[i - with_sub.len()]));
                    assert(all[j] == sc(picks[j - with_sub.len()]));
                }
            }
        }
    }

    /// With no offset, every prefix hit is among the results, as an exact-prefix result:
    /// prefix hits score at least 100, every other kind at most 80, and there are at most
    /// `max` of them, so the limit never cuts one.
    pub proof fn lemma_prefix_hits_listed(&self, query: Seq<char>, ctx: Option<Seq<char>>, max: int)
        requires
            max >= 0,
            trim(query).len() > 0,
        ensures
            forall|k: int| 0 <= k < self.index_view().prefix_results(trim(query), max).len()
                ==> self.results(query, ctx, max, 0).contains(
                scored(
                    #[trigger] self.index_view().prefix_results(trim(query), max)[k],
                    ctx,
                    130,
                    100,
                    MatchType::ExactPrefix,
                ),
            ),
    {
        broadcast use vstd::seq_lib::group_to_multiset_ensures;
        broadcast use vstd::seq_lib::group_filter_ensures;

        let q = trim(query);
        let idx = self.index_view();
        let pr = idx.prefix_results(q, max);
        let cut = take_upto(ascending(idx.ids_below_prefix(q)), max);
        assert(pr.len() <= max) by {
            assert(cut.len() <= max);
            assert(cut.filter(|id: i64| idx.entries_view().contains_key(id)).len() <= cut.len());
        }
        lemma_add_hits_all(Seq::empty(), pr, ctx, 130, 100, MatchType::ExactPrefix);
        let pre = add_hits(Seq::empty(), pr, ctx, 130, 100, MatchType::ExactPrefix, false);
        assert(pre =~= pr.map_values(scorer(ctx, 130, 100, MatchType::ExactPrefix)));
        assert(scores_at_least(pre, 100));
        assert(extends_below(pre, pre, 100)) by {
            assert(pre.take(pre.len() as int) =~= pre);
        }
        let with_path = if contains(q, seq!['/']) || contains(q, seq!['\\']) || contains(q, seq!['.']) {
            lemma_extends_add(
                pre,
                pre,
                idx.entries_of(take_upto(ascending(idx.path_matches(q)), max)),
                ctx,
                80,
                60,
                MatchType::PathSegment,
                100,
            );
            add_hits(
                pre,
                idx.entries_of(take_upto(ascending(idx.path_matches(q)), max)),
                ctx,
                80,
                60,
                MatchType::PathSegment,
                true,
            )
        } else {
            pre
        };
        let with_sub = if with_path.len() < max {
            lemma_extends_add(
                with_path,
                pre,
                idx.entries_of(take_upto(ascending(idx.name_matches(q)), max - with_path.len())),
                ctx,
                55,
                40,
                MatchType::Substring,
                100,
            );
            add_hits(
                with_path,
                idx.entries_of(take_upto(ascending(idx.name_matches(q)), max - with_path.len())),
                ctx,
                55,
                40,
                MatchType::Substring,
                true,
            )
        } else {
            with_path
        };
        assert(extends_below(with_sub, pre, 100));
        let h = self.hits(q, ctx, max);
        assert(extends_below(h, pre, 100)) by {
            if (exists|i: int| 0 <= i < q.len() && is_cjk(#[trigger] q[i])) || utf8_len(q) <= 3 {
                let remaining = if max > with_sub.len() {
                    max - with_sub.len()
                } else {
                    0
                };
                let tail = pinyin_picks(idx.ordered(), with_sub, q, remaining).map_values(
                    scorer(ctx, 35, 25, MatchType::Pinyin),
                );
                assert(h == with_sub + tail);
                assert(h.take(pre.len() as int) =~= with_sub.take(pre.len() as int));
                assert forall|k: int| pre.len() <= k < h.len() implies #[trigger] h[k].score < 100 by {
                    if k < with_sub.len() {
                        assert(h[k] == with_sub[k]);
                    } else {
                        assert(h[k] == tail[k - with_sub.len()]);
                    }
                }
            }
        }
        let rest = h.skip(pre.len() as int);
        assert(h =~= pre + rest);
        assert(scores_below(rest, 100)) by {
            assert forall|k: int| 0 <= k < rest.len() implies #[trigger] rest[k].score < 100 by {
                assert(rest[k] == h[pre.len() + k]);
            }
        }
        lemma_sort_split(pre, rest, 100);
        lemma_sort_by_score(pre);
        lemma_sort_by_score(h);
        let ranked = sort_by_score(h);
        let sp = sort_by_score(pre);
        assert(ranked == sp + sort_by_score(rest));
        let end = min_int(min_int(0, ranked.len() as int) + max, ranked.len() as int);
        assert(sp.len() <= end);
        let res = self.results(query, ctx, max, 0);
        assert(res == ranked.subrange(0, end));
        assert forall|k: int| 0 <= k < pr.len() implies res.contains(
            scored(#[trigger] pr[k], ctx, 130, 100, MatchType::ExactPrefix),
        ) by {
            let x = scored(pr[k], ctx, 130, 100, MatchType::ExactPrefix);
            assert(pre[k] == x);
            assert(pre.contains(x));
            assert(pre.to_multiset().count(x) > 0);
            assert(sp.to_multiset().count(x) > 0);
            assert(sp.contains(x));
            let m = choose|m: int| 0 <= m < sp.len() && sp[m] == x;
            assert(ranked[m] == x);
            assert(res[m] == x);
        }
    }

    /// A query holding a slash, a backslash or a dot also matches paths. With no offset,
    /// each of the first `max` entries, in id order, whose lower-cased path contains the
    /// lower-cased query is among the results, as a path-segment hit or as an exact-prefix
    /// hit of the same entry, unless the results already hold `max` hits that rank at least
    /// as high as its path-segment hit.
    pub proof fn lemma_path_hits_listed(&self, query: Seq<char>, ctx: Option<Seq<char>>, max: int, id: i64)
        requires
            self.wf(),
            max >= 0,
            contains(trim(query), seq!['/']) || contains(trim(query), seq!['\\']) || contains(
                trim(query),
                seq!['.'],
            ),
            take_upto(ascending(self.index_view().path_matches(trim(query))), max).contains(id),
        ensures
            self.index_view().entries_view().contains_key(id),
            contains(
                lowercase(self.index_view().entries_view()[id].path),
                lowercase(trim(query)),
            ),
            self.results(query, ctx, max, 0).contains(
                scored(self.index_view().entries_view()[id], ctx, 80, 60, MatchType::PathSegment),
            ) || (exists|k: int|
                0 <= k < self.results(query, ctx, max, 0).len() && (#[trigger] self.results(
                    query,
                    ctx,
                    max,
                    0,
                )[k]).entry.id == id && self.results(query, ctx, max, 0)[k].match_type
                    == MatchType::ExactPrefix) || (self.results(query, ctx, max, 0).len() == max
                && forall|k: int|
                0 <= k < self.results(query, ctx, max, 0).len() ==> #[trigger] self.results(
                    query,
                    ctx,
                    max,
                    0,
                )[k].score >= scored(
                    self.index_view().entries_view()[id],
                    ctx,
                    80,
                    60,
                    MatchType::PathSegment,
                ).score),
    {
        broadcast use vstd::seq_lib::group_to_multiset_ensures;

        let q = trim(query);
        let idx = self.index_view();
        let ev = idx.entries_view();
        idx.lemma_entry_ids();
        assert(q.len() > 0) by {
            if q.len() == 0 {
                crate::text::lemma_find_from(q, seq!['/'], 0);
                crate::text::lemma_find_from(q, seq!['\\'], 0);
                crate::text::lemma_find_from(q, seq!['.'], 0);
            }
        }
        let pm = idx.path_matches(q);
        assert(pm.finite()) by {
            assert(pm.subset_of(ev.dom()));
            vstd::set_lib::lemma_set_subset_finite(ev.dom(), pm);
        }
        crate::order::lemma_ascending_finite(pm);
        let cut = take_upto(ascending(pm), max);
        let j = choose|j: int| 0 <= j < cut.len() && cut[j] == id;
        assert(ascending(pm).contains(id)) by {
            assert(ascending(pm)[j] == cut[j]);
        }
        assert(pm.contains(id));
        let e = ev[id];
        let p = scored(e, ctx, 80, 60, MatchType::PathSegment);
        let es = idx.entries_of(cut);
        assert(es[j] == e);
        assert forall|i: int| 0 <= i < j implies #[trigger] es[i].id != es[j].id by {
            assert(ascending(pm)[i] == cut[i]);
            assert(pm.contains(cut[i]));
            assert(ev[cut[i]].id == cut[i]);
            assert(cut[i] < cut[j]);
        }
        let pr = idx.prefix_results(q, max);
        lemma_add_hits_all(Seq::empty(), pr, ctx, 130, 100, MatchType::ExactPrefix);
        let pre = add_hits(Seq::empty(), pr, ctx, 130, 100, MatchType::ExactPrefix, false);
        assert(pre =~= pr.map_values(scorer(ctx, 130, 100, MatchType::ExactPrefix)));
        let with_path = add_hits(pre, es, ctx, 80, 60, MatchType::PathSegment, true);
        lemma_add_hits_covers(pre, es, ctx, 80, 60, MatchType::PathSegment, j);
        // the hit of the entry among the path stage's hits
        let x_pos = if with_path.contains(p) {
            choose|m: int| 0 <= m < with_path.len() && with_path[m] == p
        } else {
            let k = choose|k: int| 0 <= k < pre.len() && (#[trigger] pre[k]).entry.id == id;
            lemma_add_hits_members(pre, es, ctx, 80, 60, MatchType::PathSegment, true);
            assert(with_path.take(pre.len() as int)[k] == pre[k]);
            k
        };
        let x = with_path[x_pos];
        assert(x == p || (x.entry.id == id && x.match_type == MatchType::ExactPrefix && x.score
            >= 100));
        assert(x.score >= p.score);
        // later stages keep the path stage's hits in front
        let subs = idx.entries_of(take_upto(ascending(idx.name_matches(q)), max - with_path.len()));
        let with_sub = if with_path.len() < max {
            lemma_add_hits_members(with_path, subs, ctx, 55, 40, MatchType::Substring, true);
            add_hits(with_path, subs, ctx, 55, 40, MatchType::Substring, true)
        } else {
            with_path
        };
        assert(with_sub[x_pos] == x) by {
            if with_path.len() < max {
                assert(with_sub.take(with_path.len() as int)[x_pos] == with_path[x_pos]);
            }
        }
        let h = self.hits(q, ctx, max);
        assert(h.len() >= with_sub.len() && h[x_pos] == x);
        assert(h.contains(x));
        lemma_sort_by_score(h);
        let ranked = sort_by_score(h);
        assert(ranked.to_multiset().count(x) > 0);
        assert(ranked.contains(x));
        let m = choose|m: int| 0 <= m < ranked.len() && ranked[m] == x;
        let end = min_int(min_int(0, ranked.len() as int) + max, ranked.len() as int);
        let res = self.results(query, ctx, max, 0);
        assert(res == ranked.subrange(0, end));
        if m < end {
            assert(res[m] == x);
            if x != p {
                assert(res[m].entry.id == id && res[m].match_type == MatchType::ExactPrefix);
            }
        } else {
            assert forall|k: int| 0 <= k < res.len() implies #[trigger] res[k].score >= p.score by {
                assert(res[k] == ranked[k]);
                assert(ranked[k].score >= ranked[m].score);
            }
        }
    }

    /// A query without a slash, a backslash or a dot matches names as substrings. With no
    /// offset, each of the first entries, in id order, whose lower-cased name contains the
    /// lower-cased query, as many as the limit leaves after the exact-prefix hits, is
    /// among the results, as a substring hit or as an exact-prefix hit of the same entry,
    /// unless the results already hold `max` hits that rank at least as high as its
    /// substring hit.
    pub proof fn lemma_substring_hits_listed(&self, query: Seq<char>, ctx: Option<Seq<char>>, max: int, id: i64)
        requires
            self.wf(),
            max >= 0,
            trim(query).len() > 0,
            !contains(trim(query), seq!['/']),
            !contains(trim(query), seq!['\\']),
            !contains(trim(query), seq!['.']),
            take_upto(
                ascending(self.index_view().name_matches(trim(query))),
                max - self.index_view().prefix_results(trim(query), max).len(),
            ).contains(id),
        ensures
            self.index_view().entries_view().contains_key(id),
            contains(
                lowercase(self.index_view().entries_view()[id].name),
                lowercase(trim(query)),
            ),
            self.results(query, ctx, max, 0).contains(
                scored(self.index_view().entries_view()[id], ctx, 55, 40, MatchType::Substring),
            ) || (exists|k: int|
                0 <= k < self.results(query, ctx, max, 0).len() && (#[trigger] self.results(
                    query,
                    ctx,
                    max,
                    0,
                )[k]).entry.id == id && self.results(query, ctx, max, 0)[k].match_type
                    == MatchType::ExactPrefix) || (self.results(query, ctx, max, 0).len() == max
                && forall|k: int|
                0 <= k < self.results(query, ctx, max, 0).len() ==> #[trigger] self.results(
                    query,
                    ctx,
                    max,
                    0,
                )[k].score >= scored(
                    self.index_view().entries_view()[id],
                    ctx,
                    55,
                    40,
                    MatchType::Substring,
                ).score),
    {
        broadcast use vstd::seq_lib::group_to_multiset_ensures;

        let q = trim(query);
        let idx = self.index_view();
        let ev = idx.entries_view();
        idx.lemma_entry_ids();
        let nm = idx.name_matches(q);
        assert(nm.finite()) by {
            assert(nm.subset_of(ev.dom()));
            vstd::set_lib::lemma_set_subset_finite(ev.dom(), nm);
        }
        crate::order::lemma_ascending_finite(nm);
        let pr = idx.prefix_results(q, max);
        lemma_add_hits_all(Seq::empty(), pr, ctx, 130, 100, MatchType::ExactPrefix);
        let pre = add_hits(Seq::empty(), pr, ctx, 130, 100, MatchType::ExactPrefix, false);
        assert(pre =~= pr.map_values(scorer(ctx, 130, 100, MatchType::ExactPrefix)));
        let cut = take_upto(ascending(nm), max - pre.len());
        let j = choose|j: int| 0 <= j < cut.len() && cut[j] == id;
        assert(cut.len() > 0);
        assert(pre.len() < max);
        assert(ascending(nm)[j] == cut[j]);
        assert(nm.contains(id));
        let e = ev[id];
        let p = scored(e, ctx, 55, 40, MatchType::Substring);
        let es = idx.entries_of(cut);
        assert(es[j] == e);
        assert forall|i: int| 0 <= i < j implies #[trigger] es[i].id != es[j].id by {
            assert(ascending(nm)[i] == cut[i]);
            assert(nm.contains(cut[i]));
            assert(ev[cut[i]].id == cut[i]);
            assert(cut[i] < cut[j]);
        }
        let with_sub = add_hits(pre, es, ctx, 55, 40, MatchType::Substring, true);
        lemma_add_hits_covers(pre, es, ctx, 55, 40, MatchType::Substring, j);
        lemma_add_hits_members(pre, es, ctx, 55, 40, MatchType::Substring, true);
        let x_pos = if with_sub.contains(p) {
            choose|m: int| 0 <= m < with_sub.len() && with_sub[m] == p
        } else {
            let k = choose|k: int| 0 <= k < pre.len() && (#[trigger] pre[k]).entry.id == id;
            assert(with_sub.take(pre.len() as int)[k] == pre[k]);
            k
        };
        let x = with_sub[x_pos];
        assert(x == p || (x.entry.id == id && x.match_type == MatchType::ExactPrefix && x.score
            >= 100));
        assert(x.score >= p.score);
        let h = self.hits(q, ctx, max);
        assert(h.len() >= with_sub.len() && h[x_pos] == x);
        assert(h.contains(x));
        lemma_sort_by_score(h);
        let ranked = sort_by_score(h);
        assert(ranked.to_multiset().count(x) > 0);
        assert(ranked.contains(x));
        let m = choose|m: int| 0 <= m < ranked.len() && ranked[m] == x;
        let end = min_int(min_int(0, ranked.len() as int) + max, ranked.len() as int);
        let res = self.results(query, ctx, max, 0);
        assert(res == ranked.subrange(0, end));
        if m < end {
            assert(res[m] == x);
            if x != p {
                assert(res[m].entry.id == id && res[m].match_type == MatchType::ExactPrefix);
            }
        } else {
            assert forall|k: int| 0 <= k < res.len() implies #[trigger] res[k].score >= p.score by {
                assert(res[k] == ranked[k]);
                assert(ranked[k].score >= ranked[m].score);
            }
        }
    }

    /// A short query (at most three bytes) or one holding a CJK ideograph also matches the
    /// pinyin initials of the names. With no offset and room for a hit, when no name and no
    /// path holds the query, the first entry in id order whose name's pinyin initials hold
    /// the lower-cased query is among the results, as a pinyin hit.
    pub proof fn lemma_pinyin_hit_listed(&self, query: Seq<char>, ctx: Option<Seq<char>>, max: int, id: i64)
        requires
            self.wf(),
            self.index_view().names_filed(),
            max >= 1,
            trim(query).len() > 0,
            (exists|i: int| 0 <= i < trim(query).len() && is_cjk(#[trigger] trim(query)[i]))
                || utf8_len(trim(query)) <= 3,
            forall|j: i64| #[trigger]
                self.index_view().entries_view().contains_key(j) ==> !starts_with(
                    lowercase(self.index_view().entries_view()[j].name),
                    lowercase(trim(query)),
                ) && !contains(
                    lowercase(self.index_view().entries_view()[j].name),
                    lowercase(trim(query)),
                ) && !contains(
                    lowercase(self.index_view().entries_view()[j].path),
                    lowercase(trim(query)),
                ),
            self.index_view().entries_view().contains_key(id),
            contains(initials(self.index_view().entries_view()[id].name), lowercase(trim(query))),
            forall|j: i64|
                #[trigger] self.index_view().entries_view().contains_key(j) && j < id ==> !contains(
                    initials(self.index_view().entries_view()[j].name),
                    lowercase(trim(query)),
                ),
        ensures
            self.results(query, ctx, max, 0).contains(
                scored(self.index_view().entries_view()[id], ctx, 35, 25, MatchType::Pinyin),
            ),
    {
        broadcast use vstd::seq_lib::group_to_multiset_ensures;
        broadcast use vstd::seq_lib::group_filter_ensures;

        let q = trim(query);
        let lq = lowercase(q);
        let idx = self.index_view();
        let ev = idx.entries_view();
        idx.lemma_entry_ids();
        // no exact-prefix hit
        crate::index_engine::lemma_prefix_is_filter(idx, q, max);
        let pr = idx.prefix_results(q, max);
        let in_dom = |x: i64| ev.contains_key(x);
        let fl = take_upto(ascending(idx.ids_below_prefix(q)), max).filter(in_dom);
        assert(pr == fl.map_values(|x: i64| ev[x]));
        if pr.len() > 0 {
            assert(in_dom(fl[0]));
            assert(pr[0] == ev[fl[0]]);
            assert(starts_with(lowercase(pr[0].name), lq));
            assert(ev.contains_key(fl[0]));
        }
        assert(pr.len() == 0);
        lemma_add_hits_all(Seq::empty(), pr, ctx, 130, 100, MatchType::ExactPrefix);
        let pre = add_hits(Seq::empty(), pr, ctx, 130, 100, MatchType::ExactPrefix, false);
        assert(pre =~= Seq::<SearchResultView>::empty());
        // no path and no substring hit
        let none = Set::<i64>::empty();
        assert(idx.path_matches(q) =~= none);
        assert(idx.name_matches(q) =~= none);
        crate::order::lemma_ascending_finite(none);
        assert(ascending(none).len() == 0) by {
            if ascending(none).len() > 0 {
                assert(ascending(none).to_set().contains(ascending(none)[0]));
            }
        }
        let with_path = if contains(q, seq!['/']) || contains(q, seq!['\\']) || contains(q, seq!['.']) {
            let es = idx.entries_of(take_upto(ascending(idx.path_matches(q)), max));
            assert(es.len() == 0);
            add_hits(pre, es, ctx, 80, 60, MatchType::PathSegment, true)
        } else {
            pre
        };
        assert(with_path.len() == 0);
        let subs = idx.entries_of(take_upto(ascending(idx.name_matches(q)), max - with_path.len()));
        assert(subs.len() == 0);
        let with_sub = add_hits(with_path, subs, ctx, 55, 40, MatchType::Substring, true);
        assert(with_sub.len() == 0);
        // the pinyin pass takes the entry first
        let pred = pinyin_pred(with_sub, q);
        let ord = idx.ordered();
        let asc = ascending(ev.dom());
        assert(ord == asc.map_values(|x: i64| ev[x]));
        assert(asc.to_set().contains(id));
        let pid = choose|k: int| 0 <= k < asc.len() && asc[k] == id;
        let a = ord.take(pid);
        let b = ord.skip(pid);
        assert(ord =~= a + b);
        assert(a.filter(pred).len() == 0) by {
            if a.filter(pred).len() > 0 {
                let y = a.filter(pred)[0];
                assert(a.filter(pred).contains(y));
                a.lemma_filter_contains_rev(pred, y);
                assert(a.contains(y));
                let k = choose|k: int| 0 <= k < a.len() && a[k] == y;
                assert(asc.to_set().contains(asc[k]));
                assert(asc[k] < asc[pid]);
                assert(y == ev[asc[k]]);
            }
        }
        assert(b[0] == ev[id]);
        assert(!has_id(with_sub, ev[id].id));
        assert(pred(ev[id]));
        let b1 = seq![b[0]];
        assert(b =~= b1 + b.skip(1));
        Seq::filter_distributes_over_add(a, b, pred);
        Seq::filter_distributes_over_add(b1, b.skip(1), pred);
        assert(b1.filter(pred) =~= seq![ev[id]]) by {
            Seq::<FileEntryView>::empty().lemma_filter_push(ev[id], pred);
            assert(Seq::<FileEntryView>::empty().push(ev[id]) =~= b1);
            assert(Seq::<FileEntryView>::empty().filter(pred).len() == 0);
        }
        let f = ord.filter(pred);
        assert(f =~= a.filter(pred) + (b1.filter(pred) + b.skip(1).filter(pred)));
        assert(f[0] == ev[id]);
        let picks = pinyin_picks(ord, with_sub, q, max);
        assert(picks == take_upto(f, max));
        assert(picks[0] == ev[id]);
        let x = scored(ev[id], ctx, 35, 25, MatchType::Pinyin);
        let h = self.hits(q, ctx, max);
        let tail = picks.map_values(scorer(ctx, 35, 25, MatchType::Pinyin));
        assert(h == with_sub + tail);
        assert(h =~= tail);
        assert(h[0] == x);
        assert(h.len() <= max);
        lemma_sort_by_score(h);
        let ranked = sort_by_score(h);
        assert(h.contains(x));
        assert(ranked.to_multiset().count(x) > 0);
        assert(ranked.contains(x));
        let m = choose|m: int| 0 <= m < ranked.len() && ranked[m] == x;
        let res = self.results(query, ctx, max, 0);
        assert(res == ranked.subrange(0, ranked.len() as int));
        assert(res[m] == x);
    }

    /// Every result of a search is as its kind says (see `result_fits`), in an index whose
    /// trie and entries agree.
    pub proof fn lemma_results_fit(&self, query: Seq<char>, ctx: Option<Seq<char>>, max: int, offset: int)
        requires
            self.wf(),
            self.index_view().names_filed(),
            max >= 0,
            offset >= 0,
        ensures
            forall|k: int| 0 <= k < self.results(query, ctx, max, offset).len() ==> result_fits(
                #[trigger] self.results(query, ctx, max, offset)[k],
                trim(query),
                ctx,
            ),
    {
        broadcast use vstd::seq_lib::group_filter_ensures;

        let q = trim(query);
        if q.len() > 0 {
            let idx = self.index_view();
            idx.lemma_entry_ids();
            let ev = idx.entries_view();
            let fits = |x: SearchResultView| result_fits(x, q, ctx);
            crate::index_engine::lemma_prefix_is_filter(idx, q, max);
            let pr = idx.prefix_results(q, max);
            lemma_add_hits_keep(Seq::empty(), pr, ctx, 130, 100, MatchType::ExactPrefix, false, fits);
            let pre = add_hits(Seq::empty(), pr, ctx, 130, 100, MatchType::ExactPrefix, false);
            let with_path = if contains(q, seq!['/']) || contains(q, seq!['\\']) || contains(q, seq!['.']) {
                let pm = idx.path_matches(q);
                vstd::set_lib::lemma_set_subset_finite(ev.dom(), pm);
                crate::order::lemma_ascending_finite(pm);
                let es = idx.entries_of(take_upto(ascending(pm), max));
                assert forall|j: int| 0 <= j < es.len() implies fits(scored(#[trigger] es[j], ctx, 80, 60, MatchType::PathSegment)) by {
                    let id = take_upto(ascending(pm), max)[j];
                    assert(ascending(pm)[j] == id);
                    assert(ascending(pm).to_set().contains(id));
                }
                lemma_add_hits_keep(pre, es, ctx, 80, 60, MatchType::PathSegment, true, fits);
                add_hits(pre, es, ctx, 80, 60, MatchType::PathSegment, true)
            } else {
                pre
            };
            let with_sub = if with_path.len() < max {
                let nm = idx.name_matches(q);
                vstd::set_lib::lemma_set_subset_finite(ev.dom(), nm);
                crate::order::lemma_ascending_finite(nm);
                let es = idx.entries_of(take_upto(ascending(nm), max - with_path.len()));
                assert forall|j: int| 0 <= j < es.len() implies fits(scored(#[trigger] es[j], ctx, 55, 40, MatchType::Substring)) by {
                    let id = take_upto(ascending(nm), max - with_path.len())[j];
                    assert(ascending(nm)[j] == id);
                    assert(ascending(nm).to_set().contains(id));
                }
                lemma_add_hits_keep(with_path, es, ctx, 55, 40, MatchType::Substring, true, fits);
                add_hits(with_path, es, ctx, 55, 40, MatchType::Substring, true)
            } else {
                with_path
            };
            let h = self.hits(q, ctx, max);
            assert forall|i: int| 0 <= i < h.len() implies fits(#[trigger] h[i]) by {
                if (exists|c: int| 0 <= c < q.len() && is_cjk(#[trigger] q[c])) || utf8_len(q) <= 3 {
                    let remaining = if max > with_sub.len() {
                        max - with_sub.len()
                    } else {
                        0
                    };
                    let picks = pinyin_picks(idx.ordered(), with_sub, q, remaining);
                    let pred = pinyin_pred(with_sub, q);
                    let sc = scorer(ctx, 35, 25, MatchType::Pinyin);
                    assert(h == with_sub + picks.map_values(sc));
                    if i >= with_sub.len() {
                        let e = picks[i - with_sub.len()];
                        assert(h[i] == sc(e));
                        if remaining == 0 {
                            assert(pred(e));
                        } else {
                            assert(e == idx.ordered().filter(pred)[i - with_sub.len()]);
                            assert(pred(e));
                        }
                    } else {
                        assert(h[i] == with_sub[i]);
                    }
                }
            }
            lemma_results_ranked(*self, query, ctx, max, offset);
            let res = self.results(query, ctx, max, offset);
            assert forall|k: int| 0 <= k < res.len() implies result_fits(#[trigger] res[k], q, ctx) by {
                assert(h.contains(res[k]));
                let i = choose|i: int| 0 <= i < h.len() && h[i] == res[k];
                assert(fits(h[i]));
            }
        }
    }

    pub fn new(index: TrieIndex) -> (s: Self)
        ensures
            s.index_view() == index,
    {
        Searcher { index }
    }

    /// The underlying index.
    pub fn index(&self) -> (r: &TrieIndex)
        ensures
            *r == self.index_view(),
    {
        &self.index
    }

    /// The underlying index, for changes.
    pub fn index_mut(&mut self) -> (r: &mut TrieIndex)
        ensures
            *r == old(self).index_view(),
            final(self).index_view() == *final(r),
    {
        &mut self.index
    }

    /// Runs a search: prefix hits first (130 in the context folder, else 100), then, when
    /// the query holds `/`, `\\` or `.`, path hits (80 / 60), then, while there is room,
    /// substring hits (55 / 40), then, for a query with a CJK ideograph or of at most three
    /// bytes, pinyin hits (35 / 25); an id is listed once. The hits are ranked by
    /// descending score, stably, and the page at `offset` of at most `max_results` is
    /// returned.
    pub fn search(&self, query: &SearchQuery) -> (r: Vec<SearchResult>)
        requires
            self.wf(),
        ensures
            views(r@) == self.results(
                query.query@,
                opt_chars(query.context_path),
                query.max_results as int,
                query.offset as int,
            ),
            distinct_ids(views(r@)),
    {
        let qc = chars_of(query.query.as_str());
        let q = trim_chars(&qc);
        if q.len() == 0 {
            return Vec::new();
        }
        let qs = string_of(&q);
        let max = query.max_results;
        let ctx = &query.context_path;
        let ghost cv = opt_chars(*ctx);
        let ghost idx = self.index;
        let mut results: Vec<SearchResult> = Vec::new();
        assert(views(results@) =~= Seq::<SearchResultView>::empty());
        let pre = self.index.search_prefix(qs.as_str(), max);
        add_results(&mut results, &pre, ctx, 130, 100, MatchType::ExactPrefix, false);
        let ghost prefix = views(results@);
        assert(prefix == add_hits(
            Seq::empty(),
            idx.prefix_results(q@, max as int),
            cv,
            130,
            100,
            MatchType::ExactPrefix,
            false,
        ));
        let slash = find_char(&q, '/').is_some();
        let backslash = find_char(&q, '\\').is_some();
        let dot = find_char(&q, '.').is_some();
        if slash || backslash || dot {
            let ps = self.index.search_path_segment(qs.as_str(), max);
            add_results(&mut results, &ps, ctx, 80, 60, MatchType::PathSegment, true);
        }
        let ghost with_path = views(results@);
        assert(with_path == if contains(q@, seq!['/']) || contains(q@, seq!['\\']) || contains(
            q@,
            seq!['.'],
        ) {
            add_hits(
                prefix,
                idx.entries_of(take_upto(ascending(idx.path_matches(q@)), max as int)),
                cv,
                80,
                60,
                MatchType::PathSegment,
                true,
            )
        } else {
            prefix
        });
        if results.len() < max {
            let remaining = max - results.len();
            let ss = self.index.search_substring(qs.as_str(), remaining);
            add_results(&mut results, &ss, ctx, 55, 40, MatchType::Substring, true);
        }
        let ghost with_sub = views(results@);
        assert(with_sub == if with_path.len() < max {
            add_hits(
                with_path,
                idx.entries_of(
                    take_upto(ascending(idx.name_matches(q@)), max - with_path.len()),
                ),
                cv,
                55,
                40,
                MatchType::Substring,
                true,
            )
        } else {
            with_path
        });
        let chinese = has_chinese(qs.as_str());
        if chinese || utf8_len_capped(&q, 3) <= 3 {
            let remaining = if max > results.len() {
                max - results.len()
            } else {
                0
            };
            let all = self.index.all_entries();
            let picks = pinyin_pass(&all, &results, qs.as_str(), remaining, ctx);
            let mut k: usize = 0;
            let ghost base = views(results@);
            while k < picks.len()
                invariant
                    k <= picks.len(),
                    views(results@) == base + views(picks@).take(k as int),
                decreases picks.len() - k,
            {
                let ghost before = views(results@);
                let c = picks[k].clone();
                assert(c@ == views(picks@)[k as int]);
                results.push(c);
                assert(views(results@) =~= before.push(c@));
                k = k + 1;
                assert(views(results@) =~= base + views(picks@).take(k as int));
            }
            assert(views(picks@).take(picks.len() as int) =~= views(picks@));
        }
        proof {
            assert(self.hits(q@, cv, max as int) == views(results@));
            self.lemma_hits_distinct(q@, cv, max as int);
            lemma_sort_distinct(views(results@));
        }
        let ranked = sort_results(results);
        let len = ranked.len();
        let start = if query.offset < len {
            query.offset
        } else {
            len
        };
        let end = if max < len - start {
            start + max
        } else {
            len
        };
        let mut page: Vec<SearchResult> = Vec::new();
        let mut i = start;
        while i < end
            invariant
                start <= i <= end <= ranked.len(),
                views(page@) == views(ranked@).subrange(start as int, i as int),
            decreases end - i,
        {
            let ghost before = views(page@);
            let c = ranked[i].clone();
            assert(c@ == views(ranked@)[i as int]);
            page.push(c);
            assert(views(page@) =~= before.push(c@));
            i = i + 1;
            assert(views(page@) =~= views(ranked@).subrange(start as int, i as int));
        }
        assert(distinct_ids(views(ranked@)));
        page
    }

    /// Counts of files and folders, and the distinct non-empty volume names in ascending
    /// order; the other fields are zero and `false`.
    pub fn status(&self) -> (st: IndexStatus)
        requires
            self.wf(),
        ensures
            st.total_files == self.index_view().ordered().filter(|e: FileEntryView| !e.is_dir).len(),
            st.total_folders == self.index_view().ordered().filter(|e: FileEntryView| e.is_dir).len(),
            st.indexed_volumes@.map_values(|v: String| v@) == ascending_strs(
                volumes_of(self.index_view().ordered()),
            ),
            st.memory_usage_bytes == 0,
            st.last_index_time == 0,
            !st.is_indexing,
    {
        let entries = self.index.all_entries();
        let ghost es = entry_views(entries@);
        let mut files: u64 = 0;
        let mut folders: u64 = 0;
        let mut vols: Vec<Vec<char>> = Vec::new();
        let mut i: usize = 0;
        proof {
            reveal(Seq::filter);
            assert(es.take(0) =~= Seq::<FileEntryView>::empty());
            assert(vols@.map_values(|v: Vec<char>| v@).to_set() =~= volumes_of(es.take(0)));
        }
        while i < entries.len()
            invariant
                i <= entries.len(),
                es == entry_views(entries@),
                files == es.take(i as int).filter(|e: FileEntryView| !e.is_dir).len(),
                folders == es.take(i as int).filter(|e: FileEntryView| e.is_dir).len(),
                files + folders == i,
                str_ascending(vols@.map_values(|v: Vec<char>| v@)),
                vols@.map_values(|v: Vec<char>| v@).to_set() == volumes_of(es.take(i as int)),
            decreases entries.len() - i,
        {
            let e = &entries[i];
            proof {
                reveal(Seq::filter);
                assert(es.take(i + 1).drop_last() =~= es.take(i as int));
                assert(es.take(i + 1).last() == e@);
            }
            if e.is_dir {
                folders = folders + 1;
            } else {
                files = files + 1;
            }
            let v = chars_of(e.volume.as_str());
            let ghost before = vols@.map_values(|v: Vec<char>| v@);
            if v.len() > 0 {
                insert_volume(&mut vols, v);
            }
            proof {
                assert(volumes_of(es.take(i + 1)) =~= volumes_of(es.take(i as int)).union(
                    if e@.volume.len() > 0 { set![e@.volume] } else { Set::empty() },
                )) by {
                    let a = es.take(i + 1);
                    let b = es.take(i as int);
                    assert forall|x: Seq<char>| volumes_of(a).contains(x) implies volumes_of(b).union(
                        if e@.volume.len() > 0 { set![e@.volume] } else { Set::empty() },
                    ).contains(x) by {
                        let k = choose|k: int| 0 <= k < a.len() && (#[trigger] a[k]).volume == x && x.len() > 0;
                        if k < b.len() {
                            assert(b[k] == a[k]);
                        }
                    }
                    assert forall|x: Seq<char>| volumes_of(b).contains(x) implies volumes_of(a).contains(x) by {
                        let k = choose|k: int| 0 <= k < b.len() && (#[trigger] b[k]).volume == x && x.len() > 0;
                        assert(a[k] == b[k]);
                    }
                    if e@.volume.len() > 0 {
                        assert(a[i as int].volume == e@.volume);
                    }
                }
            }
            i = i + 1;
        }
        proof {
            assert(es.take(entries.len() as int) =~= es);
            lemma_ascending_strs_is(vols@.map_values(|v: Vec<char>| v@), volumes_of(es));
        }
        let mut names: Vec<String> = Vec::new();
        let mut k: usize = 0;
        while k < vols.len()
            invariant
                k <= vols.len(),
                names@.map_values(|v: String| v@) == vols@.map_values(|v: Vec<char>| v@).take(k as int),
            decreases vols.len() - k,
        {
            let s = string_of(&vols[k]);
            let ghost before = names@.map_values(|v: String| v@);
            assert(s@ == vols@.map_values(|v: Vec<char>| v@)[k as int]);
            names.push(s);
            assert(names@.map_values(|v: String| v@) =~= before.push(s@));
            k = k + 1;
            assert(names@.map_values(|v: String| v@) =~= vols@.map_values(|v: Vec<char>| v@).take(k as int));
        }
        assert(vols@.map_values(|v: Vec<char>| v@).take(vols.len() as int) =~= vols@.map_values(|v: Vec<char>| v@));
        IndexStatus {
            total_files: files,
            total_folders: folders,
            indexed_volumes: names,
            memory_usage_bytes: 0,
            last_index_time: 0,
            is_indexing: false,
        }
    }
}

} // verus!
