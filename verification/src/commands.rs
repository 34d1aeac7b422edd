//! The requests that the web front end sends: a search with an optional count and
//! kind, and which volumes a full index walks.
use vstd::prelude::*;
use crate::file_kinds::{filter_named, SearchFilter};
use crate::search_panel::{result_views, shown};
use crate::searcher::Searcher;
use crate::text::{chars_of, lower, strip_end, strip_end_chars};
use crate::types::{SearchQuery, SearchResult, SearchScope, SortBy};

verus! {

/// The kind a request names: none names every kind.
pub open spec fn requested_kind(filter: Option<Seq<char>>) -> SearchFilter {
    match filter {
        Some(f) => filter_named(lower(f)),
        None => SearchFilter::All,
    }
}

/// The results of a search request: a global search by relevance for the query, for
/// `max_results` results (50 when none is given) from the first, and of those the ones
/// of the requested kind.
pub fn search_command(
    searcher: &Searcher,
    query: String,
    max_results: Option<usize>,
    filter: Option<String>,
) -> (r: Vec<SearchResult>)
    requires
        searcher.wf(),
    ensures
        result_views(r@) == shown(
            searcher.results(
                query@,
                None,
                (match max_results {
                    Some(m) => m,
                    None => 50usize,
                }) as int,
                0,
            ),
            requested_kind(
                match filter {
                    Some(f) => Some(f@),
                    None => None,
                },
            ),
        ),
{
    let max = match max_results {
        Some(m) => m,
        None => 50,
    };
    let q = SearchQuery {
        query,
        scope: SearchScope::Global,
        context_path: None,
        max_results: max,
        offset: 0,
        sort_by: SortBy::Relevance,
    };
    let results = searcher.search(&q);
    let kind = match &filter {
        Some(f) => SearchFilter::from_str(f.as_str()),
        None => SearchFilter::All,
    };
    let mut panel = crate::search_panel::SearchPanel::new();
    panel.choose_filter(kind);
    panel.visible(&results)
}

/// The volumes a full index walks: the configured folders, or `C:\` when there are none.
pub fn index_volumes(index_dirs: &Vec<String>) -> (r: Vec<String>)
    ensures
        index_dirs.len() == 0 ==> r@.len() == 1 && r@[0]@ == "C:\\"@,
        index_dirs.len() > 0 ==> r@.len() == index_dirs.len() && forall|i: int|
            0 <= i < r@.len() ==> #[trigger] r@[i]@ == index_dirs@[i]@,
{
    let mut out: Vec<String> = Vec::new();
    if index_dirs.len() == 0 {
        out.push("C:\\".to_owned());
        return out;
    }
    let mut i: usize = 0;
    while i < index_dirs.len()
        invariant
            i <= index_dirs.len(),
            out@.len() == i,
            forall|k: int| 0 <= k < i ==> #[trigger] out@[k]@ == index_dirs@[k]@,
        decreases index_dirs.len() - i,
    {
        out.push(index_dirs[i].clone());
        i = i + 1;
    }
    out
}

/// The drive letter of a volume's root: the first character once trailing backslashes
/// and then colons are dropped, or `C` when nothing is left.
pub open spec fn volume_letter_of(volume: Seq<char>) -> char {
    let t = strip_end(strip_end(volume, '\\'), ':');
    if t.len() > 0 {
        t[0]
    } else {
        'C'
    }
}

pub fn volume_letter(volume: &str) -> (r: char)
    ensures
        r == volume_letter_of(volume@),
{
    let v = chars_of(volume);
    let a = strip_end_chars(&v, '\\');
    let t = strip_end_chars(&a, ':');
    if t.len() > 0 {
        t[0]
    } else {
        'C'
    }
}

} // verus!
