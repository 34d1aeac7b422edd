//! The search window of the native front end: what it holds between frames and how it
//! answers the user. Editing the query or choosing a kind starts again at the first
//! result; the arrows move through the shown results, wrapping at either end; Enter opens
//! the selected one; Escape closes the window. Drawing and opening files is the caller's
//! part.
use vstd::prelude::*;
use crate::file_kinds::{admits, SearchFilter};
use crate::text::{fmt_usize, push_all, push_str, string_of, chars_of, decimal};
use crate::types::{SearchQuery, SearchResult, SearchResultView, SearchScope, SortBy};

verus! {

/// What the window holds between frames.
pub struct SearchPanel {
    pub query: String,
    pub selected_index: usize,
    pub filter: SearchFilter,
}

/// The keys the window answers.
#[derive(Debug, Clone, Copy, PartialEq, Eq, Structural)]
pub enum PanelKey {
    Up,
    Down,
    Enter,
    Escape,
}

/// What the window does after a key.
#[derive(Debug, Clone, Copy, PartialEq, Eq, Structural)]
pub enum PanelAction {
    Stay,
    Close,
    /// Open the shown result at this position, then close.
    Open(usize),
}

/// The selection after a key while `count` results are shown: the arrows move it by one,
/// wrapping around; other keys and an empty list leave it.
pub open spec fn next_selection(key: PanelKey, sel: usize, count: usize) -> int {
    if count == 0 {
        sel as int
    } else {
        match key {
            PanelKey::Down => (sel + 1) % (count as int),
            PanelKey::Up => (sel + count - 1) % (count as int),
            _ => sel as int,
        }
    }
}

/// One step forward or back around `c` places, from the place `sel` wraps to.
proof fn lemma_wrap_steps(sel: int, c: int)
    requires
        sel >= 0,
        c > 0,
    ensures
        (sel + 1) % c == (if sel % c + 1 == c { 0 } else { sel % c + 1 }),
        (sel + c - 1) % c == (if sel % c == 0 { c - 1 } else { sel % c - 1 }),
{
    let q = sel / c;
    let s = sel % c;
    vstd::arithmetic::div_mod::lemma_fundamental_div_mod(sel, c);
    assert(0 <= s < c);
    assert(sel == c * q + s);
    if s + 1 == c {
        assert((q + 1) * c == c * q + c) by (nonlinear_arith);
        vstd::arithmetic::div_mod::lemma_fundamental_div_mod_converse(sel + 1, c, q + 1, 0);
    } else {
        assert(q * c == c * q) by (nonlinear_arith);
        vstd::arithmetic::div_mod::lemma_fundamental_div_mod_converse(sel + 1, c, q, s + 1);
    }
    if s == 0 {
        assert(q * c == c * q) by (nonlinear_arith);
        vstd::arithmetic::div_mod::lemma_fundamental_div_mod_converse(sel + c - 1, c, q, c - 1);
    } else {
        assert((q + 1) * c == c * q + c) by (nonlinear_arith);
        vstd::arithmetic::div_mod::lemma_fundamental_div_mod_converse(sel + c - 1, c, q + 1, s - 1);
    }
}

/// The action of a key: Enter opens the selected result, or the last one when the
/// selection is past the end, when there is any; Escape closes.
pub open spec fn panel_action(key: PanelKey, sel: usize, count: usize) -> PanelAction {
    match key {
        PanelKey::Enter => if count > 0 {
            PanelAction::Open(if sel < count { sel } else { (count - 1) as usize })
        } else {
            PanelAction::Stay
        },
        PanelKey::Escape => PanelAction::Close,
        _ => PanelAction::Stay,
    }
}

/// The results that a kind filter lets through, in order.
pub open spec fn shown(rs: Seq<SearchResultView>, f: SearchFilter) -> Seq<SearchResultView>
    decreases rs.len(),
{
    if rs.len() == 0 {
        seq![]
    } else {
        shown(rs.drop_last(), f) + (if admits(f, rs.last().entry.is_dir, rs.last().entry.extension) {
            seq![rs.last()]
        } else {
            seq![]
        })
    }
}

pub open spec fn result_views(rs: Seq<SearchResult>) -> Seq<SearchResultView> {
    rs.map_values(|r: SearchResult| r@)
}

/// The detail line under a result: the path, then the date and the size where they are
/// not empty, two spaces apart.
pub open spec fn detail_text(path: Seq<char>, date: Seq<char>, size: Seq<char>) -> Seq<char> {
    path + (if date.len() > 0 {
        "  "@ + date
    } else {
        seq![]
    }) + (if size.len() > 0 {
        "  "@ + size
    } else {
        seq![]
    })
}

/// Moving with the arrows through shown results always lands on one of them.
pub proof fn lemma_selection_in_range(key: PanelKey, sel: usize, count: usize)
    requires
        count > 0,
        key == PanelKey::Up || key == PanelKey::Down,
    ensures
        0 <= next_selection(key, sel, count) < count,
{
}

/// Opening with Enter always opens one of the shown results.
pub proof fn lemma_open_in_range(sel: usize, count: usize)
    ensures
        panel_action(PanelKey::Enter, sel, count) matches PanelAction::Open(i) ==> i < count,
{
}

impl SearchPanel {
    /// An empty query, the first result selected, every kind shown.
    pub fn new() -> (p: SearchPanel)
        ensures
            p.query@ == Seq::<char>::empty(),
            p.selected_index == 0,
            p.filter == SearchFilter::All,
    {
        SearchPanel { query: String::new(), selected_index: 0, filter: SearchFilter::All }
    }

    /// The query was edited: it is kept and the selection goes back to the first result.
    pub fn edit_query(&mut self, query: String)
        ensures
            final(self).query@ == query@,
            final(self).selected_index == 0,
            final(self).filter == old(self).filter,
    {
        self.query = query;
        self.selected_index = 0;
    }

    /// A kind was chosen: it is kept and the selection goes back to the first result.
    pub fn choose_filter(&mut self, filter: SearchFilter)
        ensures
            final(self).filter == filter,
            final(self).selected_index == 0,
            final(self).query@ == old(self).query@,
    {
        self.filter = filter;
        self.selected_index = 0;
    }

    /// Answers a key while `count` results are shown: see `next_selection` and
    /// `panel_action`.
    pub fn key(&mut self, key: PanelKey, count: usize) -> (a: PanelAction)
        ensures
            final(self).selected_index == next_selection(key, old(self).selected_index, count),
            a == panel_action(key, old(self).selected_index, count),
            final(self).query@ == old(self).query@,
            final(self).filter == old(self).filter,
    {
        let sel = self.selected_index;
        match key {
            PanelKey::Down => {
                if count > 0 {
                    let s = sel % count;
                    proof {
                        lemma_wrap_steps(sel as int, count as int);
                    }
                    self.selected_index = if s + 1 == count {
                        0
                    } else {
                        s + 1
                    };
                }
                PanelAction::Stay
            },
            PanelKey::Up => {
                if count > 0 {
                    let s = sel % count;
                    proof {
                        lemma_wrap_steps(sel as int, count as int);
                    }
                    self.selected_index = if s == 0 {
                        count - 1
                    } else {
                        s - 1
                    };
                }
                PanelAction::Stay
            },
            PanelKey::Enter => {
                if count > 0 {
                    PanelAction::Open(if sel < count { sel } else { count - 1 })
                } else {
                    PanelAction::Stay
                }
            },
            PanelKey::Escape => PanelAction::Close,
        }
    }

    /// The search to run for the current query: none for an empty query, else a
    /// global search by relevance for up to 200 results from the first.
    pub fn request(&self) -> (r: Option<SearchQuery>)
        ensures
            self.query@.len() == 0 <==> r is None,
            r matches Some(q) ==> q.query@ == self.query@ && q.scope is Global
                && q.context_path is None && q.max_results == 200 && q.offset == 0 && q.sort_by
                == SortBy::Relevance,
    {
        let q = chars_of(self.query.as_str());
        if q.len() == 0 {
            None
        } else {
            Some(
                SearchQuery {
                    query: self.query.clone(),
                    scope: SearchScope::Global,
                    context_path: None,
                    max_results: 200,
                    offset: 0,
                    sort_by: SortBy::Relevance,
                },
            )
        }
    }

    /// The results of the chosen kind: see `shown`.
    pub fn visible(&self, all: &Vec<SearchResult>) -> (r: Vec<SearchResult>)
        ensures
            result_views(r@) == shown(result_views(all@), self.filter),
    {
        let ghost rs = result_views(all@);
        let mut out: Vec<SearchResult> = Vec::new();
        let mut i: usize = 0;
        assert(rs.take(0) =~= Seq::<SearchResultView>::empty());
        assert(result_views(out@) =~= Seq::<SearchResultView>::empty());
        while i < all.len()
            invariant
                i <= all.len(),
                rs == result_views(all@),
                result_views(out@) == shown(rs.take(i as int), self.filter),
            decreases all.len() - i,
        {
            assert(rs.take(i + 1).drop_last() =~= rs.take(i as int));
            assert(rs.take(i + 1).last() == all@[i as int]@);
            let ghost before = result_views(out@);
            let e = &all[i].entry;
            if self.filter.matches(e) {
                let r = all[i].clone();
                out.push(r);
                assert(result_views(out@) =~= before + seq![all@[i as int]@]);
            } else {
                assert(result_views(out@) =~= before + Seq::<SearchResultView>::empty());
            }
            i = i + 1;
        }
        assert(rs.take(all.len() as int) =~= rs);
        out
    }
}

/// The line that counts the shown results.
pub fn found_label(count: usize) -> (r: String)
    ensures
        r@ == "Found "@ + decimal(count as nat) + " results"@,
{
    let mut out: Vec<char> = Vec::new();
    push_str(&mut out, "Found ");
    let n = fmt_usize(count);
    push_all(&mut out, &n);
    push_str(&mut out, " results");
    string_of(&out)
}

/// The detail line under a result: see `detail_text`.
pub fn detail_line(path: &str, date: &str, size: &str) -> (r: String)
    ensures
        r@ == detail_text(path@, date@, size@),
{
    let mut out: Vec<char> = chars_of(path);
    let d = chars_of(date);
    let s = chars_of(size);
    if d.len() > 0 {
        push_str(&mut out, "  ");
        push_all(&mut out, &d);
    }
    if s.len() > 0 {
        push_str(&mut out, "  ");
        push_all(&mut out, &s);
    }
    string_of(&out)
}

} // verus!
