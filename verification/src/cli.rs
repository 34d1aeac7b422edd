//! The command-line front end's reading of its arguments and its machine-readable
//! output: option lookup, the options of each command, where the index file lives,
//! the JSON list of results, and the figures of the status report.
use vstd::prelude::*;
use crate::entry_json::entry_json;
use crate::text::{
    chars_eq, chars_of, decimal_int, fmt_i64, join_chars, join_with, parse_usize,
    parse_usize_spec, push_all, push_str, starts_with, starts_with_chars, string_of,
};
use vstd::utf8::encode_utf8;
use crate::types::{FileEntry, MatchType, SearchResult, SearchResultView};

verus! {

pub open spec fn arg_views(args: Seq<String>) -> Seq<Seq<char>> {
    args.map_values(|a: String| a@)
}

/// Position of the first argument equal to `flag`.
pub open spec fn flag_index(args: Seq<Seq<char>>, flag: Seq<char>) -> Option<int>
    decreases args.len(),
{
    if args.len() == 0 {
        None
    } else {
        match flag_index(args.drop_last(), flag) {
            Some(i) => Some(i),
            None => if args.last() == flag {
                Some(args.len() - 1)
            } else {
                None
            },
        }
    }
}

/// The argument after the first `flag`, when there is one.
pub open spec fn flag_value(args: Seq<Seq<char>>, flag: Seq<char>) -> Option<Seq<char>> {
    match flag_index(args, flag) {
        Some(i) => if i + 1 < args.len() {
            Some(args[i + 1])
        } else {
            None
        },
        None => None,
    }
}

proof fn lemma_flag_index(args: Seq<Seq<char>>, flag: Seq<char>)
    ensures
        flag_index(args, flag) matches Some(i) ==> 0 <= i < args.len() && args[i] == flag
            && forall|j: int| 0 <= j < i ==> args[j] != flag,
        flag_index(args, flag) is None ==> forall|j: int| 0 <= j < args.len() ==> args[j] != flag,
    decreases args.len(),
{
    if args.len() > 0 {
        let p = args.drop_last();
        lemma_flag_index(p, flag);
        assert forall|j: int| 0 <= j < p.len() implies p[j] == args[j] by {}
    }
}

fn first_flag(args: &[String], flag: &Vec<char>) -> (r: Option<usize>)
    ensures
        match r {
            Some(i) => flag_index(arg_views(args@), flag@) == Some(i as int),
            None => flag_index(arg_views(args@), flag@) is None,
        },
{
    let ghost av = arg_views(args@);
    proof {
        lemma_flag_index(av, flag@);
    }
    let mut i: usize = 0;
    while i < args.len()
        invariant
            i <= args.len(),
            av == arg_views(args@),
            forall|j: int| 0 <= j < i ==> av[j] != flag@,
            flag_index(av, flag@) matches Some(k) ==> 0 <= k < av.len() && av[k] == flag@
                && forall|j: int| 0 <= j < k ==> av[j] != flag@,
            flag_index(av, flag@) is None ==> forall|j: int| 0 <= j < av.len() ==> av[j] != flag@,
        decreases args.len() - i,
    {
        let a = chars_of(args[i].as_str());
        if chars_eq(&a, flag) {
            assert(av[i as int] == flag@);
            proof {
                if flag_index(av, flag@) is Some {
                    let k = flag_index(av, flag@)->0;
                    assert(!(k < i));
                    assert(!(k > i));
                }
            }
            return Some(i);
        }
        i = i + 1;
    }
    proof {
        if flag_index(av, flag@) is Some {
            let k = flag_index(av, flag@)->0;
            assert(av[k] == flag@);
        }
    }
    None
}

/// The value given to an option: the argument after its first occurrence.
pub fn parse_flag(args: &[String], flag: &str) -> (r: Option<String>)
    ensures
        match r {
            Some(v) => flag_value(arg_views(args@), flag@) == Some(v@),
            None => flag_value(arg_views(args@), flag@) is None,
        },
{
    let f = chars_of(flag);
    proof {
        lemma_flag_index(arg_views(args@), flag@);
    }
    match first_flag(args, &f) {
        Some(i) => if i < args.len() - 1 {
            Some(args[i + 1].clone())
        } else {
            None
        },
        None => None,
    }
}

/// Whether an option is given.
pub fn has_flag(args: &[String], flag: &str) -> (r: bool)
    ensures
        r == (flag_index(arg_views(args@), flag@) is Some),
{
    let f = chars_of(flag);
    first_flag(args, &f).is_some()
}

/// The arguments of a search: the query, the result limit, the context folder, and
/// whether to write JSON.
pub struct SearchArgs {
    pub query: String,
    pub max_results: usize,
    pub context: Option<String>,
    pub json: bool,
}

/// A count option's value, or the default when it is missing or does not read.
pub open spec fn count_or(v: Option<Seq<char>>, d: usize) -> usize {
    match v {
        Some(s) => match parse_usize_spec(s) {
            Some(n) => n,
            None => d,
        },
        None => d,
    }
}

fn count_value(v: Option<String>, d: usize) -> (r: usize)
    ensures
        r == count_or(
            match v {
                Some(s) => Some(s@),
                None => None,
            },
            d,
        ),
{
    match v {
        Some(s) => {
            let cs = chars_of(s.as_str());
            match parse_usize(&cs) {
                Some(n) => n,
                None => d,
            }
        },
        None => d,
    }
}

/// Whether the first argument is there and is not an option.
pub open spec fn leads_with_value(args: Seq<Seq<char>>) -> bool {
    args.len() > 0 && !starts_with(args[0], "--"@)
}

fn first_is_value(args: &[String]) -> (r: bool)
    ensures
        r == leads_with_value(arg_views(args@)),
{
    if args.len() == 0 {
        return false;
    }
    let a = chars_of(args[0].as_str());
    !starts_with_chars(&a, &chars_of("--"))
}

/// The arguments of `search`: absent without a query; else the query, `--max` (50 when
/// missing or unreadable), `--context` and `--json` read from the arguments after it.
pub fn search_args(args: &[String]) -> (r: Option<SearchArgs>)
    ensures
        match r {
            Some(a) => leads_with_value(arg_views(args@)) && a.query@ == args@[0]@
                && a.max_results == count_or(flag_value(arg_views(args@).skip(1), "--max"@), 50)
                && (match a.context {
                    Some(c) => flag_value(arg_views(args@).skip(1), "--context"@) == Some(c@),
                    None => flag_value(arg_views(args@).skip(1), "--context"@) is None,
                }) && a.json == (flag_index(arg_views(args@).skip(1), "--json"@) is Some),
            None => !leads_with_value(arg_views(args@)),
        },
{
    if !first_is_value(args) {
        return None;
    }
    let rest = &args[1..args.len()];
    assert(arg_views(rest@) =~= arg_views(args@).skip(1));
    let max_results = count_value(parse_flag(rest, "--max"), 50);
    let context = parse_flag(rest, "--context");
    let json = has_flag(rest, "--json");
    Some(SearchArgs { query: args[0].clone(), max_results, context, json })
}

/// The arguments of `index`: the folder (`.` when the first argument is missing or an
/// option) and `--depth` (0, no limit, when missing or unreadable), read from the
/// arguments after the folder.
pub fn index_args(args: &[String]) -> (r: (String, usize))
    ensures
        leads_with_value(arg_views(args@)) ==> r.0@ == args@[0]@ && r.1 == count_or(
            flag_value(arg_views(args@).skip(1), "--depth"@),
            0,
        ),
        !leads_with_value(arg_views(args@)) ==> r.0@ == "."@ && r.1 == count_or(
            flag_value(arg_views(args@), "--depth"@),
            0,
        ),
{
    if first_is_value(args) {
        let rest = &args[1..args.len()];
        assert(arg_views(rest@) =~= arg_views(args@).skip(1));
        let depth = count_value(parse_flag(rest, "--depth"), 0);
        (args[0].clone(), depth)
    } else {
        let depth = count_value(parse_flag(args, "--depth"), 0);
        (".".to_owned(), depth)
    }
}

/// Where the index file lives: `findex.db` in the working folder when `appdata` is
/// empty, else `<appdata>\Findex\index.db`.
pub fn index_db_path(appdata: &str) -> (r: String)
    ensures
        r@ == (if appdata@.len() == 0 {
            "findex.db"@
        } else {
            appdata@ + "\\Findex\\index.db"@
        }),
{
    let a = chars_of(appdata);
    if a.len() == 0 {
        "findex.db".to_owned()
    } else {
        let mut p = a;
        push_str(&mut p, "\\Findex\\index.db");
        string_of(&p)
    }
}

/// One result as JSON: its score, the label of its match kind, and its entry.
pub open spec fn result_json(r: SearchResultView) -> Seq<char> {
    "{\"score\":"@ + decimal_int(r.score as int) + ",\"match\":\""@ + r.match_type.label()
        + "\",\"entry\":"@ + entry_json(r.entry) + "}"@
}

/// The results as a JSON array.
pub open spec fn results_json(rs: Seq<SearchResultView>) -> Seq<char> {
    seq!['['] + join_with(rs.map_values(|r: SearchResultView| result_json(r)), seq![','])
        + seq![']']
}

/// The results as a JSON array: see `results_json`.
pub fn results_to_json(results: &[SearchResult]) -> (r: String)
    ensures
        r@ == results_json(results@.map_values(|x: SearchResult| x@)),
{
    let ghost rv = results@.map_values(|x: SearchResult| x@);
    let mut items: Vec<Vec<char>> = Vec::new();
    let mut i: usize = 0;
    while i < results.len()
        invariant
            i <= results.len(),
            rv == results@.map_values(|x: SearchResult| x@),
            items@.map_values(|p: Vec<char>| p@) == rv.map_values(
                |r: SearchResultView| result_json(r),
            ).take(i as int),
        decreases results.len() - i,
    {
        let res = &results[i];
        let mut t: Vec<char> = Vec::new();
        push_str(&mut t, "{\"score\":");
        let sc = fmt_i64(res.score as i64);
        push_all(&mut t, &sc);
        push_str(&mut t, ",\"match\":\"");
        push_str(&mut t, res.match_type.as_str());
        push_str(&mut t, "\",\"entry\":");
        let ej = res.entry.to_json();
        push_str(&mut t, ej.as_str());
        push_str(&mut t, "}");
        assert(t@ =~= result_json(rv[i as int]));
        let ghost before = items@.map_values(|p: Vec<char>| p@);
        items.push(t);
        assert(items@.map_values(|p: Vec<char>| p@) =~= before.push(result_json(rv[i as int])));
        assert(rv.map_values(|r: SearchResultView| result_json(r)).take(i + 1) =~= rv.map_values(
            |r: SearchResultView| result_json(r),
        ).take(i as int).push(result_json(rv[i as int])));
        i = i + 1;
    }
    assert(rv.map_values(|r: SearchResultView| result_json(r)).take(i as int) =~= rv.map_values(
        |r: SearchResultView| result_json(r),
    ));
    let mut comma: Vec<char> = Vec::new();
    comma.push(',');
    assert(comma@ =~= seq![',']);
    let body = join_chars(&items, &comma);
    let mut out: Vec<char> = Vec::new();
    out.push('[');
    push_all(&mut out, &body);
    out.push(']');
    assert(out@ =~= results_json(rv));
    string_of(&out)
}

/// Number of folders among the entries.
pub open spec fn folder_count(es: Seq<FileEntry>) -> nat
    decreases es.len(),
{
    if es.len() == 0 {
        0
    } else {
        folder_count(es.drop_last()) + if es.last().is_dir {
            1nat
        } else {
            0nat
        }
    }
}

/// The status report's memory estimate: the bytes of each entry's name, path and
/// parent path, and 64 more per entry.
pub open spec fn memory_estimate(es: Seq<FileEntry>) -> nat
    decreases es.len(),
{
    if es.len() == 0 {
        0
    } else {
        memory_estimate(es.drop_last()) + encode_utf8(es.last().name@).len() + encode_utf8(
            es.last().path@,
        ).len() + encode_utf8(es.last().parent_path@).len() + 64
    }
}

proof fn lemma_folder_count_le(es: Seq<FileEntry>)
    ensures
        folder_count(es) <= es.len(),
    decreases es.len(),
{
    if es.len() > 0 {
        lemma_folder_count_le(es.drop_last());
    }
}

/// The figures of the status report: entries, files, folders and the memory estimate.
pub fn index_figures(entries: &Vec<FileEntry>) -> (r: (usize, usize, usize, usize))
    requires
        memory_estimate(entries@) <= usize::MAX,
    ensures
        r.0 == entries.len(),
        r.2 == folder_count(entries@),
        r.1 == entries.len() - folder_count(entries@),
        r.3 == memory_estimate(entries@),
{
    let mut dirs: usize = 0;
    let mut mem: usize = 0;
    let mut i: usize = 0;
    while i < entries.len()
        invariant
            i <= entries.len(),
            memory_estimate(entries@) <= usize::MAX,
            dirs == folder_count(entries@.take(i as int)),
            mem == memory_estimate(entries@.take(i as int)),
        decreases entries.len() - i,
    {
        proof {
            assert(entries@.take(i + 1).drop_last() =~= entries@.take(i as int));
            lemma_memory_prefix(entries@, i + 1);
            lemma_folder_count_le(entries@.take(i as int));
        }
        let e = &entries[i];
        let n = e.name.as_str().len();
        let p = e.path.as_str().len();
        let q = e.parent_path.as_str().len();
        mem = mem + n + p + q + 64;
        if e.is_dir {
            dirs = dirs + 1;
        }
        i = i + 1;
    }
    proof {
        assert(entries@.take(entries.len() as int) =~= entries@);
        lemma_folder_count_le(entries@);
    }
    (entries.len(), entries.len() - dirs, dirs, mem)
}

proof fn lemma_memory_prefix(es: Seq<FileEntry>, k: int)
    requires
        0 <= k <= es.len(),
    ensures
        memory_estimate(es.take(k)) <= memory_estimate(es),
    decreases es.len() - k,
{
    if k < es.len() {
        lemma_memory_prefix(es, k + 1);
        assert(es.take(k + 1).drop_last() =~= es.take(k));
    } else {
        assert(es.take(k) =~= es);
    }
}

} // verus!
