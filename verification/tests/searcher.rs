use findex::index_engine::TrieIndex;
use findex::searcher::Searcher;
use findex::types::{FileEntry, MatchType, SearchQuery, SearchScope, SortBy};

fn entry(name: &str, path: &str, is_dir: bool) -> FileEntry {
    FileEntry {
        id: 0,
        name: name.to_string(),
        path: path.to_string(),
        parent_path: String::new(),
        size: 0,
        created: 0,
        modified: 0,
        accessed: 0,
        is_dir,
        is_hidden: false,
        is_readonly: false,
        extension: String::new(),
        volume: "C".to_string(),
    }
}

fn query(q: &str, context: Option<&str>, max: usize) -> SearchQuery {
    SearchQuery {
        query: q.to_string(),
        scope: SearchScope::Global,
        context_path: context.map(|c| c.to_string()),
        max_results: max,
        offset: 0,
        sort_by: SortBy::Relevance,
    }
}

fn searcher() -> Searcher {
    let mut t = TrieIndex::new();
    t.insert(entry("report.docx", "C:\\work\\report.docx", false));
    t.insert(entry("annual_report.pdf", "C:\\home\\annual_report.pdf", false));
    t.insert(entry("报告.docx", "C:\\work\\报告.docx", false));
    t.insert(entry("work", "C:\\work", true));
    Searcher::new(t)
}

#[test]
fn prefix_hits_rank_first() {
    let s = searcher();
    let r = s.search(&query("report", None, 10));
    assert_eq!(r.len(), 2);
    assert_eq!(r[0].entry.name, "report.docx");
    assert_eq!(r[0].score, 100);
    assert_eq!(r[0].match_type, MatchType::ExactPrefix);
    assert_eq!(r[1].entry.name, "annual_report.pdf");
    assert_eq!(r[1].score, 40);
    assert_eq!(r[1].match_type, MatchType::Substring);
}

#[test]
fn context_raises_score() {
    let s = searcher();
    let r = s.search(&query("report", Some("c:\\HOME"), 10));
    assert_eq!(r[0].entry.name, "report.docx");
    assert_eq!(r[0].score, 100);
    assert_eq!(r[1].entry.name, "annual_report.pdf");
    assert_eq!(r[1].score, 55);
}

#[test]
fn pinyin_hits() {
    let s = searcher();
    let r = s.search(&query("bg", None, 10));
    assert_eq!(r.len(), 1);
    assert_eq!(r[0].entry.name, "报告.docx");
    assert_eq!(r[0].match_type, MatchType::Pinyin);
    assert_eq!(r[0].score, 25);
}

#[test]
fn empty_query_and_limit() {
    let s = searcher();
    assert!(s.search(&query("   ", None, 10)).is_empty());
    assert_eq!(s.search(&query("r", None, 1)).len(), 1);
}

#[test]
fn status_counts() {
    let s = searcher();
    let st = s.status();
    assert_eq!(st.total_files, 3);
    assert_eq!(st.total_folders, 1);
    assert_eq!(st.indexed_volumes, vec!["C".to_string()]);
    assert!(!st.is_indexing);
    assert_eq!(s.index().len(), 4);
}

#[test]
fn match_labels() {
    assert_eq!(MatchType::ExactPrefix.as_str(), "PREFIX");
    assert_eq!(MatchType::PathSegment.as_str(), "PATH");
    assert_eq!(MatchType::Pinyin.as_str(), "PINYIN");
}

#[test]
fn blank_query_with_any_page_gives_nothing() {
    let s = searcher();
    let mut q = query("   ", None, usize::MAX);
    q.offset = usize::MAX;
    assert!(s.search(&q).is_empty());
}

#[test]
fn huge_page_bounds_do_not_overflow() {
    let s = searcher();
    let mut q = query("report", None, usize::MAX);
    q.offset = 1;
    let all = s.search(&query("report", None, usize::MAX));
    let r = s.search(&q);
    assert_eq!(r.len(), all.len() - 1);
    q.offset = usize::MAX;
    assert!(s.search(&q).is_empty());
}

#[test]
fn results_list_each_entry_once() {
    let s = searcher();
    for text in ["rep", "work", "report", "r", "bg"] {
        let r = s.search(&query(text, Some("C:\\work"), 50));
        for i in 0..r.len() {
            for j in (i + 1)..r.len() {
                assert_ne!(r[i].entry.id, r[j].entry.id);
            }
        }
    }
}

#[test]
fn every_prefix_hit_is_listed_first_page() {
    let s = searcher();
    let pre = s.index().search_prefix("rep", 2);
    let r = s.search(&query("rep", None, 2));
    for p in &pre {
        assert!(r.iter().any(|x| x.entry.id == p.id && x.match_type == MatchType::ExactPrefix));
    }
}

#[test]
fn pinyin_initials_find_a_chinese_name() {
    let mut idx = TrieIndex::new();
    let mut e = entry("报告.docx", "C:/报告.docx", false);
    e.extension = ".docx".to_string();
    idx.insert(e);
    let s = Searcher::new(idx);
    let r = s.search(&query("bg", None, 10));
    assert_eq!(r.len(), 1);
    assert_eq!(r[0].entry.name, "报告.docx");
    assert_eq!(r[0].match_type, MatchType::Pinyin);
    assert_eq!(r[0].score, 25);
}

#[test]
fn every_result_is_as_its_kind_says() {
    let s = searcher();
    for (text, ctx) in [("rep", Some("C:\\work")), ("work", None), ("report", None), ("bg", None), ("r.d", None)] {
        let t = text.to_lowercase();
        for r in s.search(&query(text, ctx, 50)) {
            let c = ctx.map_or(false, |p| r.entry.path.to_lowercase().starts_with(&p.to_lowercase()));
            let name = r.entry.name.to_lowercase();
            match r.match_type {
                MatchType::ExactPrefix => {
                    assert!(name.starts_with(&t));
                    assert_eq!(r.score, if c { 130 } else { 100 });
                },
                MatchType::PathSegment => {
                    assert!(r.entry.path.to_lowercase().contains(&t));
                    assert_eq!(r.score, if c { 80 } else { 60 });
                },
                MatchType::Substring => {
                    assert!(name.contains(&t));
                    assert_eq!(r.score, if c { 55 } else { 40 });
                },
                MatchType::Pinyin => assert_eq!(r.score, if c { 35 } else { 25 }),
                MatchType::Fuzzy => panic!("no fuzzy hits"),
            }
        }
    }
}
