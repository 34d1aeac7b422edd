//! The records that the index holds and the search hands out.
use vstd::prelude::*;

verus! {

/// One indexed file or folder.
#[derive(Debug)]
pub struct FileEntry {
    pub id: i64,
    pub name: String,
    pub path: String,
    pub parent_path: String,
    pub size: u64,
    pub created: i64,
    pub modified: i64,
    pub accessed: i64,
    pub is_dir: bool,
    pub is_hidden: bool,
    pub is_readonly: bool,
    pub extension: String,
    pub volume: String,
}

/// The value of a `FileEntry`, its strings taken as characters.
pub struct FileEntryView {
    pub id: i64,
    pub name: Seq<char>,
    pub path: Seq<char>,
    pub parent_path: Seq<char>,
    pub size: u64,
    pub created: i64,
    pub modified: i64,
    pub accessed: i64,
    pub is_dir: bool,
    pub is_hidden: bool,
    pub is_readonly: bool,
    pub extension: Seq<char>,
    pub volume: Seq<char>,
}

impl View for FileEntry {
    type V = FileEntryView;

    open spec fn view(&self) -> FileEntryView {
        FileEntryView {
            id: self.id,
            name: self.name@,
            path: self.path@,
            parent_path: self.parent_path@,
            size: self.size,
            created: self.created,
            modified: self.modified,
            accessed: self.accessed,
            is_dir: self.is_dir,
            is_hidden: self.is_hidden,
            is_readonly: self.is_readonly,
            extension: self.extension@,
            volume: self.volume@,
        }
    }
}

impl Clone for FileEntry {
    fn clone(&self) -> (r: Self)
        ensures
            r == *self,
    {
        FileEntry {
            id: self.id,
            name: self.name.clone(),
            path: self.path.clone(),
            parent_path: self.parent_path.clone(),
            size: self.size,
            created: self.created,
            modified: self.modified,
            accessed: self.accessed,
            is_dir: self.is_dir,
            is_hidden: self.is_hidden,
            is_readonly: self.is_readonly,
            extension: self.extension.clone(),
            volume: self.volume.clone(),
        }
    }
}

/// How a search result was found.
#[derive(Debug, Clone, Copy, PartialEq, Eq, Structural)]
pub enum MatchType {
    ExactPrefix,
    Substring,
    Pinyin,
    Fuzzy,
    PathSegment,
}

impl MatchType {
    pub open spec fn label(self) -> Seq<char> {
        match self {
            MatchType::ExactPrefix => "PREFIX"@,
            MatchType::Substring => "SUBSTR"@,
            MatchType::Pinyin => "PINYIN"@,
            MatchType::Fuzzy => "FUZZY"@,
            MatchType::PathSegment => "PATH"@,
        }
    }

    /// The label under which a match kind is shown.
    pub fn as_str(&self) -> (s: &'static str)
        ensures
            s@ == self.label(),
    {
        match self {
            MatchType::ExactPrefix => "PREFIX",
            MatchType::Substring => "SUBSTR",
            MatchType::Pinyin => "PINYIN",
            MatchType::Fuzzy => "FUZZY",
            MatchType::PathSegment => "PATH",
        }
    }
}

/// One ranked search hit.
#[derive(Debug)]
pub struct SearchResult {
    pub entry: FileEntry,
    pub score: i32,
    pub match_type: MatchType,
}

/// The value of a `SearchResult`.
pub struct SearchResultView {
    pub entry: FileEntryView,
    pub score: i32,
    pub match_type: MatchType,
}

impl View for SearchResult {
    type V = SearchResultView;

    open spec fn view(&self) -> SearchResultView {
        SearchResultView { entry: self.entry@, score: self.score, match_type: self.match_type }
    }
}

impl Clone for SearchResult {
    fn clone(&self) -> (r: Self)
        ensures
            r == *self,
    {
        SearchResult { entry: self.entry.clone(), score: self.score, match_type: self.match_type }
    }
}

#[derive(Debug, Clone, PartialEq, Eq)]
pub enum SearchScope {
    Global,
    CurrentFolder,
    Path(String),
}

#[derive(Debug, Clone, Copy, PartialEq, Eq, Structural)]
pub enum SortBy {
    Relevance,
    Name,
    Date,
    Size,
}

/// A search request.
#[derive(Debug)]
pub struct SearchQuery {
    pub query: String,
    pub scope: SearchScope,
    pub context_path: Option<String>,
    pub max_results: usize,
    pub offset: usize,
    pub sort_by: SortBy,
}

/// Counters that describe the index.
#[derive(Debug)]
pub struct IndexStatus {
    pub total_files: u64,
    pub total_folders: u64,
    pub indexed_volumes: Vec<String>,
    pub memory_usage_bytes: u64,
    pub last_index_time: i64,
    pub is_indexing: bool,
}

} // verus!
