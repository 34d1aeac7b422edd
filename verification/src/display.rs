//! How the result lists show an entry: the date column and the icon by kind.
use vstd::prelude::*;
use crate::text::{chars_of, decimal, eq_str, fmt_u64, lower, lower_chars, push_all, push_str, string_of};
use crate::types::{FileEntry, FileEntryView};

verus! {

/// `n` zero characters (none when `n` is not positive).
pub open spec fn zeros(n: int) -> Seq<char> {
    Seq::new(if n > 0 { n as nat } else { 0 }, |i: int| '0')
}

/// A number written in decimal and padded with zeros after its sign to `width`
/// characters (`{:0width}`).
pub open spec fn padded(n: int, width: int) -> Seq<char> {
    if n < 0 {
        seq!['-'] + zeros(width - 1 - decimal((0 - n) as nat).len()) + decimal((0 - n) as nat)
    } else {
        zeros(width - decimal(n as nat).len()) + decimal(n as nat)
    }
}

/// The year of a positive timestamp as the date column computes it: 1970 and one year
/// for every 365 days, the day count cut to 32 bits.
pub open spec fn date_year(ts: i64) -> int {
    1970 + (((ts / 86400) / 365) as i32)
}

/// The date column of a timestamp: empty for none; else `YYYY-MM-DD` from whole days
/// since 1970, counting 365-day years and 30-day months.
pub open spec fn date_text(ts: i64) -> Seq<char> {
    if ts <= 0 {
        seq![]
    } else {
        let days = ts / 86400;
        let rem = days % 365;
        padded(date_year(ts), 4) + seq!['-'] + padded(rem / 30 + 1, 2) + seq!['-'] + padded(
            rem % 30 + 1,
            2,
        )
    }
}

fn pad_number(n: i64, width: usize) -> (r: Vec<char>)
    requires
        n > i64::MIN,
    ensures
        r@ == padded(n as int, width as int),
{
    let mag: u64 = if n < 0 {
        (0 - n) as u64
    } else {
        n as u64
    };
    let digits = fmt_u64(mag);
    let mut out: Vec<char> = Vec::new();
    let used: usize = if n < 0 {
        out.push('-');
        1
    } else {
        0
    };
    let ghost start = out@;
    let need: usize = if width > used && width - used > digits.len() {
        width - used - digits.len()
    } else {
        0
    };
    let mut j: usize = 0;
    while j < need
        invariant
            j <= need,
            out@ == start + zeros(j as int),
        decreases need - j,
    {
        out.push('0');
        assert(zeros(j + 1) =~= zeros(j as int).push('0'));
        j = j + 1;
    }
    push_all(&mut out, &digits);
    proof {
        assert(zeros(need as int) =~= zeros(width - used - digits.len()));
        if n < 0 {
            assert(start =~= seq!['-']);
        } else {
            assert(start =~= Seq::<char>::empty());
        }
    }
    out
}

/// The date column of an entry's timestamp: see `date_text`.
pub fn format_date(timestamp: i64) -> (r: String)
    requires
        timestamp > 0 ==> date_year(timestamp) <= i32::MAX,
    ensures
        r@ == date_text(timestamp),
{
    if timestamp <= 0 {
        return String::new();
    }
    let days = timestamp / 86400;
    #[verifier::truncate]
    let short: i32 = (days / 365) as i32;
    let years: i32 = 1970 + short;
    let remaining_days = days % 365;
    let months: i64 = remaining_days / 30 + 1;
    let day: i64 = remaining_days % 30 + 1;
    let mut out = pad_number(years as i64, 4);
    out.push('-');
    let m = pad_number(months, 2);
    push_all(&mut out, &m);
    out.push('-');
    let d = pad_number(day, 2);
    push_all(&mut out, &d);
    string_of(&out)
}

/// The icon of an entry: a folder, or a symbol for the kind of file its lower-cased
/// extension names, or a plain page.
pub open spec fn icon_for(is_dir: bool, ext: Seq<char>) -> Seq<char> {
    let l = lower(ext);
    if is_dir {
        "\u{1F4C1}"@
    } else {
        if l == ".txt"@ || l == ".md"@ || l == ".log"@ || l == ".json"@ || l == ".xml"@ || l == ".yaml"@ || l == ".yml"@ || l == ".toml"@ || l == ".ini"@ || l == ".cfg"@ {
            "\u{1F4DD}"@
        } else if l == ".rs"@ || l == ".py"@ || l == ".js"@ || l == ".ts"@ || l == ".go"@ || l == ".java"@ || l == ".c"@ || l == ".cpp"@ || l == ".h"@ || l == ".hpp"@ || l == ".cs"@ || l == ".rb"@ || l == ".php"@ {
            "\u{1F4BB}"@
        } else if l == ".html"@ || l == ".css"@ || l == ".scss"@ || l == ".less"@ || l == ".jsx"@ || l == ".tsx"@ || l == ".vue"@ {
            "\u{1F310}"@
        } else if l == ".jpg"@ || l == ".jpeg"@ || l == ".png"@ || l == ".gif"@ || l == ".bmp"@ || l == ".svg"@ || l == ".webp"@ || l == ".ico"@ {
            "\u{1F5BC}"@
        } else if l == ".mp3"@ || l == ".wav"@ || l == ".flac"@ || l == ".ogg"@ || l == ".aac"@ || l == ".wma"@ || l == ".m4a"@ {
            "\u{1F3B5}"@
        } else if l == ".mp4"@ || l == ".avi"@ || l == ".mkv"@ || l == ".mov"@ || l == ".wmv"@ || l == ".flv"@ || l == ".webm"@ {
            "\u{1F3AC}"@
        } else if l == ".pdf"@ {
            "\u{1F4D5}"@
        } else if l == ".doc"@ || l == ".docx"@ {
            "\u{1F4D8}"@
        } else if l == ".xls"@ || l == ".xlsx"@ || l == ".csv"@ {
            "\u{1F4CA}"@
        } else if l == ".ppt"@ || l == ".pptx"@ {
            "\u{1F4D9}"@
        } else if l == ".zip"@ || l == ".rar"@ || l == ".7z"@ || l == ".tar"@ || l == ".gz"@ || l == ".bz2"@ || l == ".xz"@ {
            "\u{1F4E6}"@
        } else if l == ".exe"@ || l == ".dll"@ || l == ".msi"@ || l == ".bin"@ {
            "\u{2699}"@
        } else {
            "\u{1F4C4}"@
        }
    }
}

/// The icon shown beside an entry: see `icon_for`.
pub fn file_icon(entry: &FileEntry) -> (r: &'static str)
    ensures
        r@ == icon_for(entry.is_dir, entry.extension@),
{
    if entry.is_dir {
        return "\u{1F4C1}";
    }
    let l = lower_chars(entry.extension.as_str());
    if eq_str(&l, ".txt") || eq_str(&l, ".md") || eq_str(&l, ".log") || eq_str(&l, ".json") || eq_str(&l, ".xml") || eq_str(&l, ".yaml") || eq_str(&l, ".yml") || eq_str(&l, ".toml") || eq_str(&l, ".ini") || eq_str(&l, ".cfg") {
        return "\u{1F4DD}";
    }
    if eq_str(&l, ".rs") || eq_str(&l, ".py") || eq_str(&l, ".js") || eq_str(&l, ".ts") || eq_str(&l, ".go") || eq_str(&l, ".java") || eq_str(&l, ".c") || eq_str(&l, ".cpp") || eq_str(&l, ".h") || eq_str(&l, ".hpp") || eq_str(&l, ".cs") || eq_str(&l, ".rb") || eq_str(&l, ".php") {
        return "\u{1F4BB}";
    }
    if eq_str(&l, ".html") || eq_str(&l, ".css") || eq_str(&l, ".scss") || eq_str(&l, ".less") || eq_str(&l, ".jsx") || eq_str(&l, ".tsx") || eq_str(&l, ".vue") {
        return "\u{1F310}";
    }
    if eq_str(&l, ".jpg") || eq_str(&l, ".jpeg") || eq_str(&l, ".png") || eq_str(&l, ".gif") || eq_str(&l, ".bmp") || eq_str(&l, ".svg") || eq_str(&l, ".webp") || eq_str(&l, ".ico") {
        return "\u{1F5BC}";
    }
    if eq_str(&l, ".mp3") || eq_str(&l, ".wav") || eq_str(&l, ".flac") || eq_str(&l, ".ogg") || eq_str(&l, ".aac") || eq_str(&l, ".wma") || eq_str(&l, ".m4a") {
        return "\u{1F3B5}";
    }
    if eq_str(&l, ".mp4") || eq_str(&l, ".avi") || eq_str(&l, ".mkv") || eq_str(&l, ".mov") || eq_str(&l, ".wmv") || eq_str(&l, ".flv") || eq_str(&l, ".webm") {
        return "\u{1F3AC}";
    }
    if eq_str(&l, ".pdf") {
        return "\u{1F4D5}";
    }
    if eq_str(&l, ".doc") || eq_str(&l, ".docx") {
        return "\u{1F4D8}";
    }
    if eq_str(&l, ".xls") || eq_str(&l, ".xlsx") || eq_str(&l, ".csv") {
        return "\u{1F4CA}";
    }
    if eq_str(&l, ".ppt") || eq_str(&l, ".pptx") {
        return "\u{1F4D9}";
    }
    if eq_str(&l, ".zip") || eq_str(&l, ".rar") || eq_str(&l, ".7z") || eq_str(&l, ".tar") || eq_str(&l, ".gz") || eq_str(&l, ".bz2") || eq_str(&l, ".xz") {
        return "\u{1F4E6}";
    }
    if eq_str(&l, ".exe") || eq_str(&l, ".dll") || eq_str(&l, ".msi") || eq_str(&l, ".bin") {
        return "\u{2699}";
    }
    "\u{1F4C4}"
}

/// The line that the result list shows for an entry: `[DIR] ` for a folder, the name,
/// and the path in parentheses.
pub open spec fn result_line_text(e: FileEntryView) -> Seq<char> {
    (if e.is_dir {
        "[DIR] "@
    } else {
        seq![]
    }) + e.name + "  ("@ + e.path + ")"@
}

/// The line that the result list shows for an entry: see `result_line_text`.
pub fn result_line(entry: &FileEntry) -> (r: String)
    ensures
        r@ == result_line_text(entry@),
{
    let mut out: Vec<char> = Vec::new();
    if entry.is_dir {
        push_str(&mut out, "[DIR] ");
    }
    push_str(&mut out, entry.name.as_str());
    push_str(&mut out, "  (");
    push_str(&mut out, entry.path.as_str());
    push_str(&mut out, ")");
    assert(out@ =~= result_line_text(entry@));
    string_of(&out)
}

} // verus!
