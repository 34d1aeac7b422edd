//! The search filters of the front ends, which sort files by kind: folders, and
//! extension classes that are each a fixed list of lower-case extensions with
//! their dot.
use vstd::prelude::*;
use crate::text::{eq_str, lower, lower_chars};
use crate::types::FileEntry;

verus! {
/// Extensions of documents.
pub open spec fn is_document_ext(l: Seq<char>) -> bool {
    l == ".txt"@
        || l == ".md"@
        || l == ".log"@
        || l == ".json"@
        || l == ".xml"@
        || l == ".yaml"@
        || l == ".yml"@
        || l == ".toml"@
        || l == ".ini"@
        || l == ".cfg"@
        || l == ".pdf"@
        || l == ".doc"@
        || l == ".docx"@
        || l == ".xls"@
        || l == ".xlsx"@
        || l == ".csv"@
        || l == ".ppt"@
        || l == ".pptx"@
        || l == ".rtf"@
}

pub fn document_ext(l: &Vec<char>) -> (r: bool)
    ensures
        r == is_document_ext(l@),
{
    eq_str(l, ".txt")
        || eq_str(l, ".md")
        || eq_str(l, ".log")
        || eq_str(l, ".json")
        || eq_str(l, ".xml")
        || eq_str(l, ".yaml")
        || eq_str(l, ".yml")
        || eq_str(l, ".toml")
        || eq_str(l, ".ini")
        || eq_str(l, ".cfg")
        || eq_str(l, ".pdf")
        || eq_str(l, ".doc")
        || eq_str(l, ".docx")
        || eq_str(l, ".xls")
        || eq_str(l, ".xlsx")
        || eq_str(l, ".csv")
        || eq_str(l, ".ppt")
        || eq_str(l, ".pptx")
        || eq_str(l, ".rtf")
}

/// Extensions of source code.
pub open spec fn is_code_ext(l: Seq<char>) -> bool {
    l == ".rs"@
        || l == ".py"@
        || l == ".js"@
        || l == ".ts"@
        || l == ".go"@
        || l == ".java"@
        || l == ".c"@
        || l == ".cpp"@
        || l == ".h"@
        || l == ".hpp"@
        || l == ".cs"@
        || l == ".rb"@
        || l == ".php"@
        || l == ".swift"@
        || l == ".kt"@
        || l == ".scala"@
        || l == ".html"@
        || l == ".css"@
        || l == ".scss"@
        || l == ".less"@
        || l == ".vue"@
        || l == ".jsx"@
        || l == ".tsx"@
        || l == ".sql"@
        || l == ".sh"@
        || l == ".bat"@
        || l == ".ps1"@
}

pub fn code_ext(l: &Vec<char>) -> (r: bool)
    ensures
        r == is_code_ext(l@),
{
    eq_str(l, ".rs")
        || eq_str(l, ".py")
        || eq_str(l, ".js")
        || eq_str(l, ".ts")
        || eq_str(l, ".go")
        || eq_str(l, ".java")
        || eq_str(l, ".c")
        || eq_str(l, ".cpp")
        || eq_str(l, ".h")
        || eq_str(l, ".hpp")
        || eq_str(l, ".cs")
        || eq_str(l, ".rb")
        || eq_str(l, ".php")
        || eq_str(l, ".swift")
        || eq_str(l, ".kt")
        || eq_str(l, ".scala")
        || eq_str(l, ".html")
        || eq_str(l, ".css")
        || eq_str(l, ".scss")
        || eq_str(l, ".less")
        || eq_str(l, ".vue")
        || eq_str(l, ".jsx")
        || eq_str(l, ".tsx")
        || eq_str(l, ".sql")
        || eq_str(l, ".sh")
        || eq_str(l, ".bat")
        || eq_str(l, ".ps1")
}

/// Extensions of images.
pub open spec fn is_image_ext(l: Seq<char>) -> bool {
    l == ".jpg"@
        || l == ".jpeg"@
        || l == ".png"@
        || l == ".gif"@
        || l == ".bmp"@
        || l == ".svg"@
        || l == ".webp"@
        || l == ".ico"@
        || l == ".tiff"@
        || l == ".tif"@
        || l == ".raw"@
}

pub fn image_ext(l: &Vec<char>) -> (r: bool)
    ensures
        r == is_image_ext(l@),
{
    eq_str(l, ".jpg")
        || eq_str(l, ".jpeg")
        || eq_str(l, ".png")
        || eq_str(l, ".gif")
        || eq_str(l, ".bmp")
        || eq_str(l, ".svg")
        || eq_str(l, ".webp")
        || eq_str(l, ".ico")
        || eq_str(l, ".tiff")
        || eq_str(l, ".tif")
        || eq_str(l, ".raw")
}

/// Extensions of archives.
pub open spec fn is_archive_ext(l: Seq<char>) -> bool {
    l == ".zip"@
        || l == ".rar"@
        || l == ".7z"@
        || l == ".tar"@
        || l == ".gz"@
        || l == ".bz2"@
        || l == ".xz"@
        || l == ".zst"@
        || l == ".iso"@
        || l == ".dmg"@
}

pub fn archive_ext(l: &Vec<char>) -> (r: bool)
    ensures
        r == is_archive_ext(l@),
{
    eq_str(l, ".zip")
        || eq_str(l, ".rar")
        || eq_str(l, ".7z")
        || eq_str(l, ".tar")
        || eq_str(l, ".gz")
        || eq_str(l, ".bz2")
        || eq_str(l, ".xz")
        || eq_str(l, ".zst")
        || eq_str(l, ".iso")
        || eq_str(l, ".dmg")
}

/// Extensions of audio.
pub open spec fn is_audio_ext(l: Seq<char>) -> bool {
    l == ".mp3"@
        || l == ".wav"@
        || l == ".flac"@
        || l == ".ogg"@
        || l == ".aac"@
        || l == ".wma"@
        || l == ".m4a"@
}

pub fn audio_ext(l: &Vec<char>) -> (r: bool)
    ensures
        r == is_audio_ext(l@),
{
    eq_str(l, ".mp3")
        || eq_str(l, ".wav")
        || eq_str(l, ".flac")
        || eq_str(l, ".ogg")
        || eq_str(l, ".aac")
        || eq_str(l, ".wma")
        || eq_str(l, ".m4a")
}

/// Extensions of video.
pub open spec fn is_video_ext(l: Seq<char>) -> bool {
    l == ".mp4"@
        || l == ".avi"@
        || l == ".mkv"@
        || l == ".mov"@
        || l == ".wmv"@
        || l == ".flv"@
        || l == ".webm"@
}

pub fn video_ext(l: &Vec<char>) -> (r: bool)
    ensures
        r == is_video_ext(l@),
{
    eq_str(l, ".mp4")
        || eq_str(l, ".avi")
        || eq_str(l, ".mkv")
        || eq_str(l, ".mov")
        || eq_str(l, ".wmv")
        || eq_str(l, ".flv")
        || eq_str(l, ".webm")
}

/// A filter of the search results by file kind.
#[derive(Debug, Clone, Copy, PartialEq, Eq, Structural)]
pub enum SearchFilter {
    All,
    Folders,
    Documents,
    Code,
    Images,
    Archives,
    Audio,
    Video,
}

/// The filter that a lower-cased name selects; unknown names select all files.
pub open spec fn filter_named(l: Seq<char>) -> SearchFilter {
    if l == "folders"@ {
        SearchFilter::Folders
    } else if l == "documents"@ || l == "docs"@ {
        SearchFilter::Documents
    } else if l == "code"@ {
        SearchFilter::Code
    } else if l == "images"@ {
        SearchFilter::Images
    } else if l == "archives"@ || l == "archive"@ {
        SearchFilter::Archives
    } else if l == "audio"@ {
        SearchFilter::Audio
    } else if l == "video"@ {
        SearchFilter::Video
    } else {
        SearchFilter::All
    }
}

/// Whether a filter lets through a file or folder with the given extension: every
/// filter but `All` and `Folders` takes files only, by their lower-cased extension.
pub open spec fn admits(f: SearchFilter, is_dir: bool, ext: Seq<char>) -> bool {
    match f {
        SearchFilter::All => true,
        SearchFilter::Folders => is_dir,
        SearchFilter::Documents => !is_dir && is_document_ext(lower(ext)),
        SearchFilter::Code => !is_dir && is_code_ext(lower(ext)),
        SearchFilter::Images => !is_dir && is_image_ext(lower(ext)),
        SearchFilter::Archives => !is_dir && is_archive_ext(lower(ext)),
        SearchFilter::Audio => !is_dir && is_audio_ext(lower(ext)),
        SearchFilter::Video => !is_dir && is_video_ext(lower(ext)),
    }
}

/// The filters with the labels of their buttons, in button order.
pub open spec fn filter_labels() -> Seq<(SearchFilter, Seq<char>)> {
    seq![
        (SearchFilter::All, "All"@),
        (SearchFilter::Folders, "Folders"@),
        (SearchFilter::Documents, "Docs"@),
        (SearchFilter::Code, "Code"@),
        (SearchFilter::Images, "Images"@),
        (SearchFilter::Archives, "Archive"@),
        (SearchFilter::Audio, "Audio"@),
        (SearchFilter::Video, "Video"@),
    ]
}

impl SearchFilter {
    /// The filter a name selects, case-insensitively: see `filter_named`.
    pub fn from_str(s: &str) -> (r: SearchFilter)
        ensures
            r == filter_named(lower(s@)),
    {
        let l = lower_chars(s);
        if eq_str(&l, "folders") {
            SearchFilter::Folders
        } else if eq_str(&l, "documents") || eq_str(&l, "docs") {
            SearchFilter::Documents
        } else if eq_str(&l, "code") {
            SearchFilter::Code
        } else if eq_str(&l, "images") {
            SearchFilter::Images
        } else if eq_str(&l, "archives") || eq_str(&l, "archive") {
            SearchFilter::Archives
        } else if eq_str(&l, "audio") {
            SearchFilter::Audio
        } else if eq_str(&l, "video") {
            SearchFilter::Video
        } else {
            SearchFilter::All
        }
    }

    /// The filters with their button labels: see `filter_labels`.
    pub fn variants() -> (r: Vec<(SearchFilter, &'static str)>)
        ensures
            r@.map_values(|p: (SearchFilter, &'static str)| (p.0, p.1@)) == filter_labels(),
    {
        let mut r: Vec<(SearchFilter, &'static str)> = Vec::new();
        r.push((SearchFilter::All, "All"));
        r.push((SearchFilter::Folders, "Folders"));
        r.push((SearchFilter::Documents, "Docs"));
        r.push((SearchFilter::Code, "Code"));
        r.push((SearchFilter::Images, "Images"));
        r.push((SearchFilter::Archives, "Archive"));
        r.push((SearchFilter::Audio, "Audio"));
        r.push((SearchFilter::Video, "Video"));
        assert(r@.map_values(|p: (SearchFilter, &'static str)| (p.0, p.1@)) =~= filter_labels());
        r
    }

    /// Whether the filter lets the entry through: see `admits`.
    pub fn matches(&self, entry: &FileEntry) -> (r: bool)
        ensures
            r == admits(*self, entry.is_dir, entry.extension@),
    {
        match self {
            SearchFilter::All => true,
            SearchFilter::Folders => entry.is_dir,
            _ => {
                if entry.is_dir {
                    return false;
                }
                let l = lower_chars(entry.extension.as_str());
                match self {
                    SearchFilter::Documents => document_ext(&l),
                    SearchFilter::Code => code_ext(&l),
                    SearchFilter::Images => image_ext(&l),
                    SearchFilter::Archives => archive_ext(&l),
                    SearchFilter::Audio => audio_ext(&l),
                    _ => video_ext(&l),
                }
            },
        }
    }
}

// ---------------------------------------------------------------------------
// The kinds do not overlap
// ---------------------------------------------------------------------------

proof fn lemma_extension_literals()
    ensures
        ".txt"@ =~= seq!['.', 't', 'x', 't'],
        ".md"@ =~= seq!['.', 'm', 'd'],
        ".log"@ =~= seq!['.', 'l', 'o', 'g'],
        ".json"@ =~= seq!['.', 'j', 's', 'o', 'n'],
        ".xml"@ =~= seq!['.', 'x', 'm', 'l'],
        ".yaml"@ =~= seq!['.', 'y', 'a', 'm', 'l'],
        ".yml"@ =~= seq!['.', 'y', 'm', 'l'],
        ".toml"@ =~= seq!['.', 't', 'o', 'm', 'l'],
        ".ini"@ =~= seq!['.', 'i', 'n', 'i'],
        ".cfg"@ =~= seq!['.', 'c', 'f', 'g'],
        ".pdf"@ =~= seq!['.', 'p', 'd', 'f'],
        ".doc"@ =~= seq!['.', 'd', 'o', 'c'],
        ".docx"@ =~= seq!['.', 'd', 'o', 'c', 'x'],
        ".xls"@ =~= seq!['.', 'x', 'l', 's'],
        ".xlsx"@ =~= seq!['.', 'x', 'l', 's', 'x'],
        ".csv"@ =~= seq!['.', 'c', 's', 'v'],
        ".ppt"@ =~= seq!['.', 'p', 'p', 't'],
        ".pptx"@ =~= seq!['.', 'p', 'p', 't', 'x'],
        ".rtf"@ =~= seq!['.', 'r', 't', 'f'],
        ".rs"@ =~= seq!['.', 'r', 's'],
        ".py"@ =~= seq!['.', 'p', 'y'],
        ".js"@ =~= seq!['.', 'j', 's'],
        ".ts"@ =~= seq!['.', 't', 's'],
        ".go"@ =~= seq!['.', 'g', 'o'],
        ".java"@ =~= seq!['.', 'j', 'a', 'v', 'a'],
        ".c"@ =~= seq!['.', 'c'],
        ".cpp"@ =~= seq!['.', 'c', 'p', 'p'],
        ".h"@ =~= seq!['.', 'h'],
        ".hpp"@ =~= seq!['.', 'h', 'p', 'p'],
        ".cs"@ =~= seq!['.', 'c', 's'],
        ".rb"@ =~= seq!['.', 'r', 'b'],
        ".php"@ =~= seq!['.', 'p', 'h', 'p'],
        ".swift"@ =~= seq!['.', 's', 'w', 'i', 'f', 't'],
        ".kt"@ =~= seq!['.', 'k', 't'],
        ".scala"@ =~= seq!['.', 's', 'c', 'a', 'l', 'a'],
        ".html"@ =~= seq!['.', 'h', 't', 'm', 'l'],
        ".css"@ =~= seq!['.', 'c', 's', 's'],
        ".scss"@ =~= seq!['.', 's', 'c', 's', 's'],
        ".less"@ =~= seq!['.', 'l', 'e', 's', 's'],
        ".vue"@ =~= seq!['.', 'v', 'u', 'e'],
        ".jsx"@ =~= seq!['.', 'j', 's', 'x'],
        ".tsx"@ =~= seq!['.', 't', 's', 'x'],
        ".sql"@ =~= seq!['.', 's', 'q', 'l'],
        ".sh"@ =~= seq!['.', 's', 'h'],
        ".bat"@ =~= seq!['.', 'b', 'a', 't'],
        ".ps1"@ =~= seq!['.', 'p', 's', '1'],
        ".jpg"@ =~= seq!['.', 'j', 'p', 'g'],
        ".jpeg"@ =~= seq!['.', 'j', 'p', 'e', 'g'],
        ".png"@ =~= seq!['.', 'p', 'n', 'g'],
        ".gif"@ =~= seq!['.', 'g', 'i', 'f'],
        ".bmp"@ =~= seq!['.', 'b', 'm', 'p'],
        ".svg"@ =~= seq!['.', 's', 'v', 'g'],
        ".webp"@ =~= seq!['.', 'w', 'e', 'b', 'p'],
        ".ico"@ =~= seq!['.', 'i', 'c', 'o'],
        ".tiff"@ =~= seq!['.', 't', 'i', 'f', 'f'],
        ".tif"@ =~= seq!['.', 't', 'i', 'f'],
        ".raw"@ =~= seq!['.', 'r', 'a', 'w'],
        ".zip"@ =~= seq!['.', 'z', 'i', 'p'],
        ".rar"@ =~= seq!['.', 'r', 'a', 'r'],
        ".7z"@ =~= seq!['.', '7', 'z'],
        ".tar"@ =~= seq!['.', 't', 'a', 'r'],
        ".gz"@ =~= seq!['.', 'g', 'z'],
        ".bz2"@ =~= seq!['.', 'b', 'z', '2'],
        ".xz"@ =~= seq!['.', 'x', 'z'],
        ".zst"@ =~= seq!['.', 'z', 's', 't'],
        ".iso"@ =~= seq!['.', 'i', 's', 'o'],
        ".dmg"@ =~= seq!['.', 'd', 'm', 'g'],
        ".mp3"@ =~= seq!['.', 'm', 'p', '3'],
        ".wav"@ =~= seq!['.', 'w', 'a', 'v'],
        ".flac"@ =~= seq!['.', 'f', 'l', 'a', 'c'],
        ".ogg"@ =~= seq!['.', 'o', 'g', 'g'],
        ".aac"@ =~= seq!['.', 'a', 'a', 'c'],
        ".wma"@ =~= seq!['.', 'w', 'm', 'a'],
        ".m4a"@ =~= seq!['.', 'm', '4', 'a'],
        ".mp4"@ =~= seq!['.', 'm', 'p', '4'],
        ".avi"@ =~= seq!['.', 'a', 'v', 'i'],
        ".mkv"@ =~= seq!['.', 'm', 'k', 'v'],
        ".mov"@ =~= seq!['.', 'm', 'o', 'v'],
        ".wmv"@ =~= seq!['.', 'w', 'm', 'v'],
        ".flv"@ =~= seq!['.', 'f', 'l', 'v'],
        ".webm"@ =~= seq!['.', 'w', 'e', 'b', 'm'],
{
    reveal_strlit(".txt");
    reveal_strlit(".md");
    reveal_strlit(".log");
    reveal_strlit(".json");
    reveal_strlit(".xml");
    reveal_strlit(".yaml");
    reveal_strlit(".yml");
    reveal_strlit(".toml");
    reveal_strlit(".ini");
    reveal_strlit(".cfg");
    reveal_strlit(".pdf");
    reveal_strlit(".doc");
    reveal_strlit(".docx");
    reveal_strlit(".xls");
    reveal_strlit(".xlsx");
    reveal_strlit(".csv");
    reveal_strlit(".ppt");
    reveal_strlit(".pptx");
    reveal_strlit(".rtf");
    reveal_strlit(".rs");
    reveal_strlit(".py");
    reveal_strlit(".js");
    reveal_strlit(".ts");
    reveal_strlit(".go");
    reveal_strlit(".java");
    reveal_strlit(".c");
    reveal_strlit(".cpp");
    reveal_strlit(".h");
    reveal_strlit(".hpp");
    reveal_strlit(".cs");
    reveal_strlit(".rb");
    reveal_strlit(".php");
    reveal_strlit(".swift");
    reveal_strlit(".kt");
    reveal_strlit(".scala");
    reveal_strlit(".html");
    reveal_strlit(".css");
    reveal_strlit(".scss");
    reveal_strlit(".less");
    reveal_strlit(".vue");
    reveal_strlit(".jsx");
    reveal_strlit(".tsx");
    reveal_strlit(".sql");
    reveal_strlit(".sh");
    reveal_strlit(".bat");
    reveal_strlit(".ps1");
    reveal_strlit(".jpg");
    reveal_strlit(".jpeg");
    reveal_strlit(".png");
    reveal_strlit(".gif");
    reveal_strlit(".bmp");
    reveal_strlit(".svg");
    reveal_strlit(".webp");
    reveal_strlit(".ico");
    reveal_strlit(".tiff");
    reveal_strlit(".tif");
    reveal_strlit(".raw");
    reveal_strlit(".zip");
    reveal_strlit(".rar");
    reveal_strlit(".7z");
    reveal_strlit(".tar");
    reveal_strlit(".gz");
    reveal_strlit(".bz2");
    reveal_strlit(".xz");
    reveal_strlit(".zst");
    reveal_strlit(".iso");
    reveal_strlit(".dmg");
    reveal_strlit(".mp3");
    reveal_strlit(".wav");
    reveal_strlit(".flac");
    reveal_strlit(".ogg");
    reveal_strlit(".aac");
    reveal_strlit(".wma");
    reveal_strlit(".m4a");
    reveal_strlit(".mp4");
    reveal_strlit(".avi");
    reveal_strlit(".mkv");
    reveal_strlit(".mov");
    reveal_strlit(".wmv");
    reveal_strlit(".flv");
    reveal_strlit(".webm");
}

proof fn lemma_document_not_code(l: Seq<char>)
    requires
        is_document_ext(l),
    ensures
        !is_code_ext(l),
{
    lemma_extension_literals();
    if l == ".txt"@ {
        assert(l.len() == 4 && l[0] == '.' && l[1] == 't' && l[2] == 'x' && l[3] == 't');
    } else if l == ".md"@ {
        assert(l.len() == 3 && l[0] == '.' && l[1] == 'm' && l[2] == 'd');
    } else if l == ".log"@ {
        assert(l.len() == 4 && l[0] == '.' && l[1] == 'l' && l[2] == 'o' && l[3] == 'g');
    } else if l == ".json"@ {
        assert(l.len() == 5 && l[0] == '.' && l[1] == 'j' && l[2] == 's' && l[3] == 'o' && l[4] == 'n');
    } else if l == ".xml"@ {
        assert(l.len() == 4 && l[0] == '.' && l[1] == 'x' && l[2] == 'm' && l[3] == 'l');
    } else if l == ".yaml"@ {
        assert(l.len() == 5 && l[0] == '.' && l[1] == 'y' && l[2] == 'a' && l[3] == 'm' && l[4] == 'l');
    } else if l == ".yml"@ {
        assert(l.len() == 4 && l[0] == '.' && l[1] == 'y' && l[2] == 'm' && l[3] == 'l');
    } else if l == ".toml"@ {
        assert(l.len() == 5 && l[0] == '.' && l[1] == 't' && l[2] == 'o' && l[3] == 'm' && l[4] == 'l');
    } else if l == ".ini"@ {
        assert(l.len() == 4 && l[0] == '.' && l[1] == 'i' && l[2] == 'n' && l[3] == 'i');
    } else if l == ".cfg"@ {
        assert(l.len() == 4 && l[0] == '.' && l[1] == 'c' && l[2] == 'f' && l[3] == 'g');
    } else if l == ".pdf"@ {
        assert(l.len() == 4 && l[0] == '.' && l[1] == 'p' && l[2] == 'd' && l[3] == 'f');
    } else if l == ".doc"@ {
        assert(l.len() == 4 && l[0] == '.' && l[1] == 'd' && l[2] == 'o' && l[3] == 'c');
    } else if l == ".docx"@ {
        assert(l.len() == 5 && l[0] == '.' && l[1] == 'd' && l[2] == 'o' && l[3] == 'c' && l[4] == 'x');
    } else if l == ".xls"@ {
        assert(l.len() == 4 && l[0] == '.' && l[1] == 'x' && l[2] == 'l' && l[3] == 's');
    } else if l == ".xlsx"@ {
        assert(l.len() == 5 && l[0] == '.' && l[1] == 'x' && l[2] == 'l' && l[3] == 's' && l[4] == 'x');
    } else if l == ".csv"@ {
        assert(l.len() == 4 && l[0] == '.' && l[1] == 'c' && l[2] == 's' && l[3] == 'v');
    } else if l == ".ppt"@ {
        assert(l.len() == 4 && l[0] == '.' && l[1] == 'p' && l[2] == 'p' && l[3] == 't');
    } else if l == ".pptx"@ {
        assert(l.len() == 5 && l[0] == '.' && l[1] == 'p' && l[2] == 'p' && l[3] == 't' && l[4] == 'x');
    } else if l == ".rtf"@ {
        assert(l.len() == 4 && l[0] == '.' && l[1] == 'r' && l[2] == 't' && l[3] == 'f');
    }
}

proof fn lemma_document_not_image(l: Seq<char>)
    requires
        is_document_ext(l),
    ensures
        !is_image_ext(l),
{
    lemma_extension_literals();
}

proof fn lemma_document_not_archive(l: Seq<char>)
    requires
        is_document_ext(l),
    ensures
        !is_archive_ext(l),
{
    lemma_extension_literals();
}

proof fn lemma_document_not_audio(l: Seq<char>)
    requires
        is_document_ext(l),
    ensures
        !is_audio_ext(l),
{
    lemma_extension_literals();
}

proof fn lemma_document_not_video(l: Seq<char>)
    requires
        is_document_ext(l),
    ensures
        !is_video_ext(l),
{
    lemma_extension_literals();
}

proof fn lemma_code_not_image(l: Seq<char>)
    requires
        is_code_ext(l),
    ensures
        !is_image_ext(l),
{
    lemma_extension_literals();
}

proof fn lemma_code_not_archive(l: Seq<char>)
    requires
        is_code_ext(l),
    ensures
        !is_archive_ext(l),
{
    lemma_extension_literals();
}

proof fn lemma_code_not_audio(l: Seq<char>)
    requires
        is_code_ext(l),
    ensures
        !is_audio_ext(l),
{
    lemma_extension_literals();
}

proof fn lemma_code_not_video(l: Seq<char>)
    requires
        is_code_ext(l),
    ensures
        !is_video_ext(l),
{
    lemma_extension_literals();
}

proof fn lemma_image_not_archive(l: Seq<char>)
    requires
        is_image_ext(l),
    ensures
        !is_archive_ext(l),
{
    lemma_extension_literals();
}

proof fn lemma_image_not_audio(l: Seq<char>)
    requires
        is_image_ext(l),
    ensures
        !is_audio_ext(l),
{
    lemma_extension_literals();
}

proof fn lemma_image_not_video(l: Seq<char>)
    requires
        is_image_ext(l),
    ensures
        !is_video_ext(l),
{
    lemma_extension_literals();
}

proof fn lemma_archive_not_audio(l: Seq<char>)
    requires
        is_archive_ext(l),
    ensures
        !is_audio_ext(l),
{
    lemma_extension_literals();
}

proof fn lemma_archive_not_video(l: Seq<char>)
    requires
        is_archive_ext(l),
    ensures
        !is_video_ext(l),
{
    lemma_extension_literals();
}

proof fn lemma_audio_not_video(l: Seq<char>)
    requires
        is_audio_ext(l),
    ensures
        !is_video_ext(l),
{
    lemma_extension_literals();
}

/// The Documents filter lets through every file, never a folder, whose extension is, in
/// any case, one of .txt .md .log .json .xml .yaml .yml .toml .ini .cfg .pdf .doc .docx .xls .xlsx .csv .ppt .pptx .rtf.
pub proof fn lemma_document_admitted(ext: Seq<char>)
    requires
        lower(ext) == ".txt"@
            || lower(ext) == ".md"@
            || lower(ext) == ".log"@
            || lower(ext) == ".json"@
            || lower(ext) == ".xml"@
            || lower(ext) == ".yaml"@
            || lower(ext) == ".yml"@
            || lower(ext) == ".toml"@
            || lower(ext) == ".ini"@
            || lower(ext) == ".cfg"@
            || lower(ext) == ".pdf"@
            || lower(ext) == ".doc"@
            || lower(ext) == ".docx"@
            || lower(ext) == ".xls"@
            || lower(ext) == ".xlsx"@
            || lower(ext) == ".csv"@
            || lower(ext) == ".ppt"@
            || lower(ext) == ".pptx"@
            || lower(ext) == ".rtf"@,
    ensures
        admits(SearchFilter::Documents, false, ext),
        !admits(SearchFilter::Documents, true, ext),
{
}

/// The Code filter lets through every file, never a folder, whose extension is, in
/// any case, one of .rs .py .js .ts .go .java .c .cpp .h .hpp .cs .rb .php .swift .kt .scala .html .css .scss .less .vue .jsx .tsx .sql .sh .bat .ps1.
pub proof fn lemma_code_admitted(ext: Seq<char>)
    requires
        lower(ext) == ".rs"@
            || lower(ext) == ".py"@
            || lower(ext) == ".js"@
            || lower(ext) == ".ts"@
            || lower(ext) == ".go"@
            || lower(ext) == ".java"@
            || lower(ext) == ".c"@
            || lower(ext) == ".cpp"@
            || lower(ext) == ".h"@
            || lower(ext) == ".hpp"@
            || lower(ext) == ".cs"@
            || lower(ext) == ".rb"@
            || lower(ext) == ".php"@
            || lower(ext) == ".swift"@
            || lower(ext) == ".kt"@
            || lower(ext) == ".scala"@
            || lower(ext) == ".html"@
            || lower(ext) == ".css"@
            || lower(ext) == ".scss"@
            || lower(ext) == ".less"@
            || lower(ext) == ".vue"@
            || lower(ext) == ".jsx"@
            || lower(ext) == ".tsx"@
            || lower(ext) == ".sql"@
            || lower(ext) == ".sh"@
            || lower(ext) == ".bat"@
            || lower(ext) == ".ps1"@,
    ensures
        admits(SearchFilter::Code, false, ext),
        !admits(SearchFilter::Code, true, ext),
{
}

/// The Images filter lets through every file, never a folder, whose extension is, in
/// any case, one of .jpg .jpeg .png .gif .bmp .svg .webp .ico .tiff .tif .raw.
pub proof fn lemma_image_admitted(ext: Seq<char>)
    requires
        lower(ext) == ".jpg"@
            || lower(ext) == ".jpeg"@
            || lower(ext) == ".png"@
            || lower(ext) == ".gif"@
            || lower(ext) == ".bmp"@
            || lower(ext) == ".svg"@
            || lower(ext) == ".webp"@
            || lower(ext) == ".ico"@
            || lower(ext) == ".tiff"@
            || lower(ext) == ".tif"@
            || lower(ext) == ".raw"@,
    ensures
        admits(SearchFilter::Images, false, ext),
        !admits(SearchFilter::Images, true, ext),
{
}

/// The Archives filter lets through every file, never a folder, whose extension is, in
/// any case, one of .zip .rar .7z .tar .gz .bz2 .xz .zst .iso .dmg.
pub proof fn lemma_archive_admitted(ext: Seq<char>)
    requires
        lower(ext) == ".zip"@
            || lower(ext) == ".rar"@
            || lower(ext) == ".7z"@
            || lower(ext) == ".tar"@
            || lower(ext) == ".gz"@
            || lower(ext) == ".bz2"@
            || lower(ext) == ".xz"@
            || lower(ext) == ".zst"@
            || lower(ext) == ".iso"@
            || lower(ext) == ".dmg"@,
    ensures
        admits(SearchFilter::Archives, false, ext),
        !admits(SearchFilter::Archives, true, ext),
{
}

/// The Audio filter lets through every file, never a folder, whose extension is, in
/// any case, one of .mp3 .wav .flac .ogg .aac .wma .m4a.
pub proof fn lemma_audio_admitted(ext: Seq<char>)
    requires
        lower(ext) == ".mp3"@
            || lower(ext) == ".wav"@
            || lower(ext) == ".flac"@
            || lower(ext) == ".ogg"@
            || lower(ext) == ".aac"@
            || lower(ext) == ".wma"@
            || lower(ext) == ".m4a"@,
    ensures
        admits(SearchFilter::Audio, false, ext),
        !admits(SearchFilter::Audio, true, ext),
{
}

/// The Video filter lets through every file, never a folder, whose extension is, in
/// any case, one of .mp4 .avi .mkv .mov .wmv .flv .webm.
pub proof fn lemma_video_admitted(ext: Seq<char>)
    requires
        lower(ext) == ".mp4"@
            || lower(ext) == ".avi"@
            || lower(ext) == ".mkv"@
            || lower(ext) == ".mov"@
            || lower(ext) == ".wmv"@
            || lower(ext) == ".flv"@
            || lower(ext) == ".webm"@,
    ensures
        admits(SearchFilter::Video, false, ext),
        !admits(SearchFilter::Video, true, ext),
{
}

/// The Documents filter lets nothing else through: only files whose extension is, in any
/// case, one of .txt .md .log .json .xml .yaml .yml .toml .ini .cfg .pdf .doc .docx .xls .xlsx .csv .ppt .pptx .rtf.
pub proof fn lemma_document_only(is_dir: bool, ext: Seq<char>)
    requires
        admits(SearchFilter::Documents, is_dir, ext),
    ensures
        !is_dir,
        lower(ext) == ".txt"@
            || lower(ext) == ".md"@
            || lower(ext) == ".log"@
            || lower(ext) == ".json"@
            || lower(ext) == ".xml"@
            || lower(ext) == ".yaml"@
            || lower(ext) == ".yml"@
            || lower(ext) == ".toml"@
            || lower(ext) == ".ini"@
            || lower(ext) == ".cfg"@
            || lower(ext) == ".pdf"@
            || lower(ext) == ".doc"@
            || lower(ext) == ".docx"@
            || lower(ext) == ".xls"@
            || lower(ext) == ".xlsx"@
            || lower(ext) == ".csv"@
            || lower(ext) == ".ppt"@
            || lower(ext) == ".pptx"@
            || lower(ext) == ".rtf"@,
{
}

/// The Code filter lets nothing else through: only files whose extension is, in any
/// case, one of .rs .py .js .ts .go .java .c .cpp .h .hpp .cs .rb .php .swift .kt .scala .html .css .scss .less .vue .jsx .tsx .sql .sh .bat .ps1.
pub proof fn lemma_code_only(is_dir: bool, ext: Seq<char>)
    requires
        admits(SearchFilter::Code, is_dir, ext),
    ensures
        !is_dir,
        lower(ext) == ".rs"@
            || lower(ext) == ".py"@
            || lower(ext) == ".js"@
            || lower(ext) == ".ts"@
            || lower(ext) == ".go"@
            || lower(ext) == ".java"@
            || lower(ext) == ".c"@
            || lower(ext) == ".cpp"@
            || lower(ext) == ".h"@
            || lower(ext) == ".hpp"@
            || lower(ext) == ".cs"@
            || lower(ext) == ".rb"@
            || lower(ext) == ".php"@
            || lower(ext) == ".swift"@
            || lower(ext) == ".kt"@
            || lower(ext) == ".scala"@
            || lower(ext) == ".html"@
            || lower(ext) == ".css"@
            || lower(ext) == ".scss"@
            || lower(ext) == ".less"@
            || lower(ext) == ".vue"@
            || lower(ext) == ".jsx"@
            || lower(ext) == ".tsx"@
            || lower(ext) == ".sql"@
            || lower(ext) == ".sh"@
            || lower(ext) == ".bat"@
            || lower(ext) == ".ps1"@,
{
}

/// The Images filter lets nothing else through: only files whose extension is, in any
/// case, one of .jpg .jpeg .png .gif .bmp .svg .webp .ico .tiff .tif .raw.
pub proof fn lemma_image_only(is_dir: bool, ext: Seq<char>)
    requires
        admits(SearchFilter::Images, is_dir, ext),
    ensures
        !is_dir,
        lower(ext) == ".jpg"@
            || lower(ext) == ".jpeg"@
            || lower(ext) == ".png"@
            || lower(ext) == ".gif"@
            || lower(ext) == ".bmp"@
            || lower(ext) == ".svg"@
            || lower(ext) == ".webp"@
            || lower(ext) == ".ico"@
            || lower(ext) == ".tiff"@
            || lower(ext) == ".tif"@
            || lower(ext) == ".raw"@,
{
}

/// The Archives filter lets nothing else through: only files whose extension is, in any
/// case, one of .zip .rar .7z .tar .gz .bz2 .xz .zst .iso .dmg.
pub proof fn lemma_archive_only(is_dir: bool, ext: Seq<char>)
    requires
        admits(SearchFilter::Archives, is_dir, ext),
    ensures
        !is_dir,
        lower(ext) == ".zip"@
            || lower(ext) == ".rar"@
            || lower(ext) == ".7z"@
            || lower(ext) == ".tar"@
            || lower(ext) == ".gz"@
            || lower(ext) == ".bz2"@
            || lower(ext) == ".xz"@
            || lower(ext) == ".zst"@
            || lower(ext) == ".iso"@
            || lower(ext) == ".dmg"@,
{
}

/// The Audio filter lets nothing else through: only files whose extension is, in any
/// case, one of .mp3 .wav .flac .ogg .aac .wma .m4a.
pub proof fn lemma_audio_only(is_dir: bool, ext: Seq<char>)
    requires
        admits(SearchFilter::Audio, is_dir, ext),
    ensures
        !is_dir,
        lower(ext) == ".mp3"@
            || lower(ext) == ".wav"@
            || lower(ext) == ".flac"@
            || lower(ext) == ".ogg"@
            || lower(ext) == ".aac"@
            || lower(ext) == ".wma"@
            || lower(ext) == ".m4a"@,
{
}

/// The Video filter lets nothing else through: only files whose extension is, in any
/// case, one of .mp4 .avi .mkv .mov .wmv .flv .webm.
pub proof fn lemma_video_only(is_dir: bool, ext: Seq<char>)
    requires
        admits(SearchFilter::Video, is_dir, ext),
    ensures
        !is_dir,
        lower(ext) == ".mp4"@
            || lower(ext) == ".avi"@
            || lower(ext) == ".mkv"@
            || lower(ext) == ".mov"@
            || lower(ext) == ".wmv"@
            || lower(ext) == ".flv"@
            || lower(ext) == ".webm"@,
{
}

/// The folder filter lets through exactly the folders, and `All` lets through everything.
pub proof fn lemma_folders_and_all(is_dir: bool, ext: Seq<char>)
    ensures
        admits(SearchFilter::Folders, is_dir, ext) == is_dir,
        admits(SearchFilter::All, is_dir, ext),
{
}

/// At most one filter other than `All` lets a file or folder through: folders pass only
/// `Folders`, and no extension belongs to two kinds.
pub proof fn lemma_one_kind(f: SearchFilter, g: SearchFilter, is_dir: bool, ext: Seq<char>)
    requires
        f != SearchFilter::All,
        g != SearchFilter::All,
        admits(f, is_dir, ext),
        admits(g, is_dir, ext),
    ensures
        f == g,
{
    let l = lower(ext);
    if is_document_ext(l) {
        lemma_document_not_code(l);
    }
    if is_document_ext(l) {
        lemma_document_not_image(l);
    }
    if is_document_ext(l) {
        lemma_document_not_archive(l);
    }
    if is_document_ext(l) {
        lemma_document_not_audio(l);
    }
    if is_document_ext(l) {
        lemma_document_not_video(l);
    }
    if is_code_ext(l) {
        lemma_code_not_image(l);
    }
    if is_code_ext(l) {
        lemma_code_not_archive(l);
    }
    if is_code_ext(l) {
        lemma_code_not_audio(l);
    }
    if is_code_ext(l) {
        lemma_code_not_video(l);
    }
    if is_image_ext(l) {
        lemma_image_not_archive(l);
    }
    if is_image_ext(l) {
        lemma_image_not_audio(l);
    }
    if is_image_ext(l) {
        lemma_image_not_video(l);
    }
    if is_archive_ext(l) {
        lemma_archive_not_audio(l);
    }
    if is_archive_ext(l) {
        lemma_archive_not_video(l);
    }
    if is_audio_ext(l) {
        lemma_audio_not_video(l);
    }
}

} // verus!
