//! Character-sequence helpers shared by the search engine and the
//! configuration readers: trimming, searching, splitting, number parsing
//! and formatting, all stated over `Seq<char>`.
use vstd::prelude::*;
use vstd::std_specs::iter::IteratorSpec;

verus! {

// ---------------------------------------------------------------------------
// Characters
// ---------------------------------------------------------------------------

/// `char::is_whitespace`: the Unicode `White_Space` property.
pub open spec fn is_ws(c: char) -> bool {
    let u = c as u32;
    ||| (9 <= u && u <= 13)
    ||| u == 32
    ||| u == 0x85
    ||| u == 0xA0
    ||| u == 0x1680
    ||| (0x2000 <= u && u <= 0x200A)
    ||| u == 0x2028
    ||| u == 0x2029
    ||| u == 0x202F
    ||| u == 0x205F
    ||| u == 0x3000
}

pub fn is_whitespace(c: char) -> (r: bool)
    ensures
        r == is_ws(c),
{
    let u = c as u32;
    (9 <= u && u <= 13) || u == 32 || u == 0x85 || u == 0xA0 || u == 0x1680 || (0x2000 <= u && u
        <= 0x200A) || u == 0x2028 || u == 0x2029 || u == 0x202F || u == 0x205F || u == 0x3000
}

pub open spec fn is_ascii_char(c: char) -> bool {
    (c as u32) < 128
}

pub open spec fn all_ascii(s: Seq<char>) -> bool {
    forall|i: int| 0 <= i < s.len() ==> is_ascii_char(#[trigger] s[i])
}

/// ASCII-only lower-casing of one character (`char::to_ascii_lowercase`).
pub open spec fn ascii_lower_char(c: char) -> char {
    if 'A' <= c && c <= 'Z' {
        ((c as u32) + 32) as char
    } else {
        c
    }
}

/// ASCII-only upper-casing of one character (`char::to_ascii_uppercase`).
pub open spec fn ascii_upper_char(c: char) -> char {
    if 'a' <= c && c <= 'z' {
        ((c as u32) - 32) as char
    } else {
        c
    }
}

pub open spec fn ascii_lower(s: Seq<char>) -> Seq<char> {
    s.map_values(|c: char| ascii_lower_char(c))
}

pub fn to_ascii_upper(c: char) -> (r: char)
    ensures
        r == ascii_upper_char(c),
{
    if 'a' <= c && c <= 'z' {
        let u: u32 = (c as u32) - 32;
        let b: u8 = u as u8;
        assert(b as u32 == u);
        b as char
    } else {
        c
    }
}

/// Number of bytes of the UTF-8 encoding of one character.
pub open spec fn utf8_width(c: char) -> nat {
    let u = c as u32;
    if u < 0x80 {
        1
    } else if u < 0x800 {
        2
    } else if u < 0x10000 {
        3
    } else {
        4
    }
}

/// Byte length of the UTF-8 encoding of a character sequence (`str::len`).
pub open spec fn utf8_len(s: Seq<char>) -> nat
    decreases s.len(),
{
    if s.len() == 0 {
        0
    } else {
        utf8_len(s.drop_last()) + utf8_width(s.last())
    }
}

pub proof fn lemma_utf8_len_ge(s: Seq<char>)
    ensures
        utf8_len(s) >= s.len(),
    decreases s.len(),
{
    if s.len() > 0 {
        lemma_utf8_len_ge(s.drop_last());
    }
}

/// Byte length of the UTF-8 encoding, capped at `cap + 1`.
pub fn utf8_len_capped(s: &Vec<char>, cap: usize) -> (r: usize)
    requires
        cap < usize::MAX,
    ensures
        r <= cap ==> r == utf8_len(s@),
        r > cap ==> utf8_len(s@) > cap,
{
    let mut total: usize = 0;
    let mut i: usize = 0;
    while i < s.len()
        invariant
            i <= s.len(),
            cap < usize::MAX,
            total <= cap,
            total == utf8_len(s@.take(i as int)),
        decreases s.len() - i,
    {
        assert(s@.take(i + 1).drop_last() =~= s@.take(i as int));
        let u = s[i] as u32;
        let w: usize = if u < 0x80 {
            1
        } else if u < 0x800 {
            2
        } else if u < 0x10000 {
            3
        } else {
            4
        };
        if w > cap - total {
            proof {
                lemma_utf8_len_prefix(s@, i + 1);
            }
            return cap + 1;
        }
        total = total + w;
        i = i + 1;
    }
    assert(s@.take(i as int) =~= s@);
    total
}

proof fn lemma_utf8_len_prefix(s: Seq<char>, k: int)
    requires
        0 <= k <= s.len(),
    ensures
        utf8_len(s.take(k)) <= utf8_len(s),
    decreases s.len() - k,
{
    if k < s.len() {
        lemma_utf8_len_prefix(s, k + 1);
        assert(s.take(k + 1).drop_last() =~= s.take(k));
    } else {
        assert(s.take(k) =~= s);
    }
}

// ---------------------------------------------------------------------------
// Conversions between `str`/`String` and `Vec<char>`
// ---------------------------------------------------------------------------

/// The characters of a string slice, in order.
pub fn chars_of(s: &str) -> (v: Vec<char>)
    ensures
        v@ == s@,
{
    let mut v: Vec<char> = Vec::new();
    proof {
        broadcast use vstd::string::axiom_spec_iter;
    }
    for c in it: s.chars()
        invariant
            it.seq() == s@,
            v@ == it.seq().take(it.index() as int),
    {
        v.push(c);
        assert(v@ =~= it.seq().take(it.index() + 1));
    }
    assert(v@ =~= s@);
    v
}

/// Builds a `String` from characters (`Iterator::collect` into `String`).
/// Trusted: `collect` of `char`s into a `String` keeps every character, in order.
#[verifier::external_body]
pub(crate) fn string_of(v: &Vec<char>) -> (s: String)
    ensures
        s@ == v@,
{
    v.iter().collect()
}

/// The Unicode lower-case form of a character sequence, as `str::to_lowercase` computes it.
pub uninterp spec fn lowercase(s: Seq<char>) -> Seq<char>;

/// A CJK unified ideograph (U+4E00..=U+9FFF): a character without case.
pub open spec fn is_ideograph(c: char) -> bool {
    '\u{4e00}' <= c && c <= '\u{9fff}'
}

/// Every character is ASCII or a CJK unified ideograph.
pub open spec fn ascii_or_ideographs(s: Seq<char>) -> bool {
    forall|i: int| 0 <= i < s.len() ==> is_ascii_char(#[trigger] s[i]) || is_ideograph(s[i])
}

/// Calls `str::to_lowercase`. Trusted: the result is the function `lowercase` of the
/// input characters; on text of ASCII characters and CJK unified ideographs it maps
/// `A`..=`Z` to `a`..=`z` and keeps every other character (std documents that a
/// character without a lower-case mapping is kept, and neither ASCII non-letters nor
/// the ideographs have one). Nothing else is stated of other input.
#[verifier::external_body]
pub(crate) fn to_lowercase(s: &str) -> (r: String)
    ensures
        r@ == lowercase(s@),
        all_ascii(s@) ==> r@ == ascii_lower(s@),
        ascii_or_ideographs(s@) ==> r@ == ascii_lower(s@),
{
    s.to_lowercase()
}

/// `str::to_lowercase` as far as it is stated here: ASCII lower-casing on ASCII input,
/// `lowercase` otherwise.
pub open spec fn lower(s: Seq<char>) -> Seq<char> {
    if all_ascii(s) {
        ascii_lower(s)
    } else {
        lowercase(s)
    }
}

/// Lower-cased characters of a string slice.
pub fn lower_chars(s: &str) -> (v: Vec<char>)
    ensures
        v@ == lowercase(s@),
        all_ascii(s@) ==> v@ == ascii_lower(s@),
        ascii_or_ideographs(s@) ==> v@ == ascii_lower(s@),
        v@ == lower(s@),
{
    let l = to_lowercase(s);
    chars_of(l.as_str())
}

/// Lower-cased copy of a character vector.
pub fn lower_vec(v: &Vec<char>) -> (r: Vec<char>)
    ensures
        r@ == lower(v@),
{
    let s = string_of(v);
    lower_chars(s.as_str())
}

// ---------------------------------------------------------------------------
// Searching
// ---------------------------------------------------------------------------

pub open spec fn match_at(s: Seq<char>, pat: Seq<char>, i: int) -> bool {
    0 <= i && i + pat.len() <= s.len() && s.subrange(i, i + pat.len()) == pat
}

/// First position at or after `i` where `pat` occurs in `s` (`str::find`).
pub open spec fn find_from(s: Seq<char>, pat: Seq<char>, i: int) -> Option<int>
    decreases s.len() + 1 - i,
{
    if i < 0 || i + pat.len() > s.len() {
        None
    } else if match_at(s, pat, i) {
        Some(i)
    } else {
        find_from(s, pat, i + 1)
    }
}

pub open spec fn find(s: Seq<char>, pat: Seq<char>) -> Option<int> {
    find_from(s, pat, 0)
}

/// `str::contains` with a string pattern.
pub open spec fn contains(s: Seq<char>, pat: Seq<char>) -> bool {
    find(s, pat) is Some
}

pub proof fn lemma_find_from(s: Seq<char>, pat: Seq<char>, i: int)
    requires
        0 <= i,
    ensures
        find_from(s, pat, i) matches Some(k) ==> i <= k && match_at(s, pat, k) && forall|j: int|
            i <= j < k ==> !match_at(s, pat, j),
        find_from(s, pat, i) is None ==> forall|j: int| i <= j ==> !match_at(s, pat, j),
    decreases s.len() + 1 - i,
{
    if i + pat.len() > s.len() {
    } else if match_at(s, pat, i) {
    } else {
        lemma_find_from(s, pat, i + 1);
    }
}

fn matches_at(s: &Vec<char>, pat: &Vec<char>, i: usize) -> (r: bool)
    requires
        i + pat.len() <= s.len(),
    ensures
        r == match_at(s@, pat@, i as int),
{
    let mut j: usize = 0;
    while j < pat.len()
        invariant
            j <= pat.len(),
            i + pat.len() <= s.len(),
            forall|k: int| 0 <= k < j ==> s@[i + k] == pat@[k],
        decreases pat.len() - j,
    {
        if s[i + j] != pat[j] {
            assert(s@.subrange(i as int, i + pat.len())[j as int] != pat@[j as int]);
            return false;
        }
        j = j + 1;
    }
    assert(s@.subrange(i as int, i + pat.len()) =~= pat@);
    true
}

/// First position at or after `from` where `pat` occurs.
pub fn find_chars_from(s: &Vec<char>, pat: &Vec<char>, from: usize) -> (r: Option<usize>)
    ensures
        match r {
            Some(k) => find_from(s@, pat@, from as int) == Some(k as int),
            None => find_from(s@, pat@, from as int) is None,
        },
{
    let mut i = from;
    if pat.len() > s.len() {
        proof {
            lemma_find_from(s@, pat@, from as int);
            assert(find_from(s@, pat@, from as int) is None) by {
                if find_from(s@, pat@, from as int) is Some {
                    let k = find_from(s@, pat@, from as int)->0;
                    assert(match_at(s@, pat@, k));
                }
            }
        }
        return None;
    }
    let last = s.len() - pat.len();
    if i > last {
        proof {
            lemma_find_from(s@, pat@, from as int);
        }
        return None;
    }
    while i <= last
        invariant
            from <= i <= last,
            last == s.len() - pat.len(),
            pat.len() <= s.len(),
            find_from(s@, pat@, from as int) == find_from(s@, pat@, i as int),
        decreases last - i,
    {
        if matches_at(s, pat, i) {
            return Some(i);
        }
        if i == last {
            proof {
                lemma_find_from(s@, pat@, i + 1);
            }
            return None;
        }
        i = i + 1;
    }
    None
}

pub fn find_chars(s: &Vec<char>, pat: &Vec<char>) -> (r: Option<usize>)
    ensures
        match r {
            Some(k) => find(s@, pat@) == Some(k as int),
            None => find(s@, pat@) is None,
        },
{
    find_chars_from(s, pat, 0)
}

pub fn contains_chars(s: &Vec<char>, pat: &Vec<char>) -> (r: bool)
    ensures
        r == contains(s@, pat@),
{
    find_chars(s, pat).is_some()
}

/// `str::starts_with` with a string pattern.
pub open spec fn starts_with(s: Seq<char>, pat: Seq<char>) -> bool {
    pat.len() <= s.len() && s.take(pat.len() as int) == pat
}

pub fn starts_with_chars(s: &Vec<char>, pat: &Vec<char>) -> (r: bool)
    ensures
        r == starts_with(s@, pat@),
{
    if pat.len() > s.len() {
        return false;
    }
    let r = matches_at(s, pat, 0);
    assert(s@.subrange(0, pat@.len() as int) =~= s@.take(pat@.len() as int));
    r
}

pub open spec fn ends_with(s: Seq<char>, pat: Seq<char>) -> bool {
    pat.len() <= s.len() && s.skip(s.len() - pat.len()) == pat
}

/// Position of the first occurrence of a character.
pub open spec fn index_of_char(s: Seq<char>, c: char) -> Option<int> {
    find(s, seq![c])
}

pub fn find_char(s: &Vec<char>, c: char) -> (r: Option<usize>)
    ensures
        match r {
            Some(k) => index_of_char(s@, c) == Some(k as int),
            None => index_of_char(s@, c) is None,
        },
{
    let mut pat: Vec<char> = Vec::new();
    pat.push(c);
    assert(pat@ =~= seq![c]);
    find_chars(s, &pat)
}

pub proof fn lemma_index_of_char(s: Seq<char>, c: char)
    ensures
        index_of_char(s, c) matches Some(k) ==> 0 <= k < s.len() && s[k] == c && forall|j: int|
            0 <= j < k ==> s[j] != c,
        index_of_char(s, c) is None ==> forall|j: int| 0 <= j < s.len() ==> s[j] != c,
{
    lemma_find_from(s, seq![c], 0);
    if index_of_char(s, c) is Some {
        let k = index_of_char(s, c)->0;
        assert(s.subrange(k, k + 1)[0] == c);
        assert forall|j: int| 0 <= j < k implies s[j] != c by {
            if s[j] == c {
                assert(s.subrange(j, j + 1) =~= seq![c]);
                assert(match_at(s, seq![c], j));
            }
        }
    } else {
        assert forall|j: int| 0 <= j < s.len() implies s[j] != c by {
            if s[j] == c {
                assert(s.subrange(j, j + 1) =~= seq![c]);
                assert(match_at(s, seq![c], j));
            }
        }
    }
}

// ---------------------------------------------------------------------------
// Trimming
// ---------------------------------------------------------------------------

pub open spec fn trim_start(s: Seq<char>) -> Seq<char>
    decreases s.len(),
{
    if s.len() > 0 && is_ws(s[0]) {
        trim_start(s.drop_first())
    } else {
        s
    }
}

pub open spec fn trim_end(s: Seq<char>) -> Seq<char>
    decreases s.len(),
{
    if s.len() > 0 && is_ws(s.last()) {
        trim_end(s.drop_last())
    } else {
        s
    }
}

/// `str::trim`: drop leading and trailing white space.
pub open spec fn trim(s: Seq<char>) -> Seq<char> {
    trim_end(trim_start(s))
}

pub open spec fn strip_start(s: Seq<char>, c: char) -> Seq<char>
    decreases s.len(),
{
    if s.len() > 0 && s[0] == c {
        strip_start(s.drop_first(), c)
    } else {
        s
    }
}

pub open spec fn strip_end(s: Seq<char>, c: char) -> Seq<char>
    decreases s.len(),
{
    if s.len() > 0 && s.last() == c {
        strip_end(s.drop_last(), c)
    } else {
        s
    }
}

/// `str::trim_matches` with a character pattern.
pub open spec fn trim_char(s: Seq<char>, c: char) -> Seq<char> {
    strip_end(strip_start(s, c), c)
}

pub fn trim_chars(s: &Vec<char>) -> (r: Vec<char>)
    ensures
        r@ == trim(s@),
{
    let mut a: usize = 0;
    assert(s@.skip(0) =~= s@);
    while a < s.len() && is_whitespace(s[a])
        invariant
            a <= s.len(),
            trim_start(s@) == trim_start(s@.skip(a as int)),
        decreases s.len() - a,
    {
        assert(s@.skip(a as int).drop_first() =~= s@.skip(a + 1));
        a = a + 1;
    }
    assert(trim_start(s@.skip(a as int)) == s@.skip(a as int));
    let mut b: usize = s.len();
    while b > a && is_whitespace(s[b - 1])
        invariant
            a <= b <= s.len(),
            trim_start(s@) == s@.skip(a as int),
            trim(s@) == trim_end(s@.subrange(a as int, b as int)),
        decreases b,
    {
        assert(s@.subrange(a as int, b as int).drop_last() =~= s@.subrange(a as int, b - 1));
        b = b - 1;
    }
    if b > a {
        assert(s@.subrange(a as int, b as int).last() == s@[b - 1]);
    }
    assert(trim_end(s@.subrange(a as int, b as int)) == s@.subrange(a as int, b as int));
    slice_chars(s, a, b)
}

pub fn trim_char_chars(s: &Vec<char>, c: char) -> (r: Vec<char>)
    ensures
        r@ == trim_char(s@, c),
{
    let mut a: usize = 0;
    assert(s@.skip(0) =~= s@);
    while a < s.len() && s[a] == c
        invariant
            a <= s.len(),
            strip_start(s@, c) == strip_start(s@.skip(a as int), c),
        decreases s.len() - a,
    {
        assert(s@.skip(a as int).drop_first() =~= s@.skip(a + 1));
        a = a + 1;
    }
    assert(strip_start(s@.skip(a as int), c) == s@.skip(a as int));
    let mut b: usize = s.len();
    while b > a && s[b - 1] == c
        invariant
            a <= b <= s.len(),
            strip_start(s@, c) == s@.skip(a as int),
            trim_char(s@, c) == strip_end(s@.subrange(a as int, b as int), c),
        decreases b,
    {
        assert(s@.subrange(a as int, b as int).drop_last() =~= s@.subrange(a as int, b - 1));
        b = b - 1;
    }
    if b > a {
        assert(s@.subrange(a as int, b as int).last() == s@[b - 1]);
    }
    assert(strip_end(s@.subrange(a as int, b as int), c) == s@.subrange(a as int, b as int));
    slice_chars(s, a, b)
}

/// A copy of `s[a..b]`.
pub fn slice_chars(s: &Vec<char>, a: usize, b: usize) -> (r: Vec<char>)
    requires
        a <= b <= s.len(),
    ensures
        r@ == s@.subrange(a as int, b as int),
{
    let mut r: Vec<char> = Vec::new();
    let mut i = a;
    while i < b
        invariant
            a <= i <= b <= s.len(),
            r@ == s@.subrange(a as int, i as int),
        decreases b - i,
    {
        r.push(s[i]);
        i = i + 1;
        assert(r@ =~= s@.subrange(a as int, i as int));
    }
    r
}

/// `a` followed by `b`.
pub fn concat_chars(a: &Vec<char>, b: &Vec<char>) -> (r: Vec<char>)
    ensures
        r@ == a@ + b@,
{
    let mut r = a.clone();
    let mut i: usize = 0;
    while i < b.len()
        invariant
            i <= b.len(),
            r@ == a@ + b@.take(i as int),
        decreases b.len() - i,
    {
        r.push(b[i]);
        i = i + 1;
        assert(r@ =~= a@ + b@.take(i as int));
    }
    assert(b@.take(b.len() as int) =~= b@);
    r
}

/// Appends `b` to `a`.
pub fn push_all(a: &mut Vec<char>, b: &Vec<char>)
    ensures
        final(a)@ == old(a)@ + b@,
{
    let mut i: usize = 0;
    while i < b.len()
        invariant
            i <= b.len(),
            a@ == old(a)@ + b@.take(i as int),
        decreases b.len() - i,
    {
        a.push(b[i]);
        i = i + 1;
        assert(a@ =~= old(a)@ + b@.take(i as int));
    }
    assert(b@.take(b.len() as int) =~= b@);
}

/// Appends the characters of a string slice to `a`.
pub fn push_str(a: &mut Vec<char>, s: &str)
    ensures
        final(a)@ == old(a)@ + s@,
{
    let v = chars_of(s);
    push_all(a, &v);
}

/// Two character vectors hold the same characters.
pub fn chars_eq(a: &Vec<char>, b: &Vec<char>) -> (r: bool)
    ensures
        r == (a@ == b@),
{
    if a.len() != b.len() {
        return false;
    }
    let mut i: usize = 0;
    while i < a.len()
        invariant
            i <= a.len(),
            a.len() == b.len(),
            forall|k: int| 0 <= k < i ==> a@[k] == b@[k],
        decreases a.len() - i,
    {
        if a[i] != b[i] {
            return false;
        }
        i = i + 1;
    }
    assert(a@ =~= b@);
    true
}

/// The characters of `s` equal those of the literal `lit`.
pub fn eq_str(s: &Vec<char>, lit: &str) -> (r: bool)
    ensures
        r == (s@ == lit@),
{
    let l = chars_of(lit);
    chars_eq(s, &l)
}

// ---------------------------------------------------------------------------
// Splitting
// ---------------------------------------------------------------------------

/// `str::split` with a character separator.
pub open spec fn split_char(s: Seq<char>, c: char) -> Seq<Seq<char>>
    decreases s.len(),
{
    match index_of_char(s, c) {
        Some(k) => if 0 <= k < s.len() {
            seq![s.take(k)] + split_char(s.skip(k + 1), c)
        } else {
            seq![s]
        },
        None => seq![s],
    }
}

pub proof fn lemma_split_char_len(s: Seq<char>, c: char)
    ensures
        split_char(s, c).len() >= 1,
    decreases s.len(),
{
    match index_of_char(s, c) {
        Some(k) => if 0 <= k < s.len() {
            lemma_split_char_len(s.skip(k + 1), c);
        },
        None => {},
    }
}

pub fn split_chars(s: &Vec<char>, c: char) -> (r: Vec<Vec<char>>)
    ensures
        r@.map_values(|p: Vec<char>| p@) == split_char(s@, c),
{
    let mut parts: Vec<Vec<char>> = Vec::new();
    let mut start: usize = 0;
    let mut i: usize = 0;
    assert(s@.skip(0) =~= s@);
    assert(parts@.map_values(|p: Vec<char>| p@) =~= Seq::<Seq<char>>::empty());
    while i < s.len()
        invariant
            start <= i <= s.len(),
            forall|j: int| start <= j < i ==> s@[j] != c,
            parts@.map_values(|p: Vec<char>| p@) + split_char(s@.skip(start as int), c)
                == split_char(s@, c),
        decreases s.len() - i,
    {
        if s[i] == c {
            let piece = slice_chars(s, start, i);
            proof {
                let rest = s@.skip(start as int);
                lemma_index_of_char(rest, c);
                assert(rest[i - start] == c);
                assert(index_of_char(rest, c) == Some(i - start)) by {
                    let k = index_of_char(rest, c);
                    if k is None {
                    } else {
                        let kk = k->0;
                        if kk < i - start {
                            assert(rest[kk] == s@[start + kk]);
                        }
                    }
                }
                assert(rest.take(i - start) =~= s@.subrange(start as int, i as int));
                assert(rest.skip(i - start + 1) =~= s@.skip(i + 1));
                let old_parts = parts@.map_values(|p: Vec<char>| p@);
                assert(split_char(rest, c) == seq![rest.take(i - start)] + split_char(
                    rest.skip(i - start + 1),
                    c,
                ));
            }
            let ghost old_parts = parts@;
            parts.push(piece);
            proof {
                assert(parts@.map_values(|p: Vec<char>| p@) =~= old_parts.map_values(
                    |p: Vec<char>| p@,
                ).push(s@.subrange(start as int, i as int)));
                assert(parts@.map_values(|p: Vec<char>| p@) + split_char(s@.skip(i + 1), c)
                    =~= old_parts.map_values(|p: Vec<char>| p@) + split_char(
                    s@.skip(start as int),
                    c,
                ));
            }
            start = i + 1;
        }
        i = i + 1;
    }
    let last = slice_chars(s, start, s.len());
    proof {
        let rest = s@.skip(start as int);
        lemma_index_of_char(rest, c);
        assert(index_of_char(rest, c) is None) by {
            if index_of_char(rest, c) is Some {
                let kk = index_of_char(rest, c)->0;
                assert(rest[kk] == s@[start + kk]);
            }
        }
        assert(rest =~= s@.subrange(start as int, s.len() as int));
    }
    let ghost old_parts = parts@;
    parts.push(last);
    assert(parts@.map_values(|p: Vec<char>| p@) =~= old_parts.map_values(|p: Vec<char>| p@).push(
        s@.subrange(start as int, s.len() as int),
    ));
    parts
}

/// `str::trim_end_matches` with a character pattern.
pub fn strip_end_chars(s: &Vec<char>, c: char) -> (r: Vec<char>)
    ensures
        r@ == strip_end(s@, c),
{
    let mut b: usize = s.len();
    assert(s@.subrange(0, b as int) =~= s@);
    while b > 0 && s[b - 1] == c
        invariant
            b <= s.len(),
            strip_end(s@, c) == strip_end(s@.subrange(0, b as int), c),
        decreases b,
    {
        assert(s@.subrange(0, b as int).drop_last() =~= s@.subrange(0, b - 1));
        b = b - 1;
    }
    if b > 0 {
        assert(s@.subrange(0, b as int).last() == s@[b - 1]);
    }
    slice_chars(s, 0, b)
}

/// The parts joined with `sep` between each two (`[String]::join`).
pub open spec fn join_with(parts: Seq<Seq<char>>, sep: Seq<char>) -> Seq<char>
    decreases parts.len(),
{
    if parts.len() == 0 {
        Seq::empty()
    } else if parts.len() == 1 {
        parts[0]
    } else {
        join_with(parts.drop_last(), sep) + sep + parts.last()
    }
}

pub fn join_chars(parts: &Vec<Vec<char>>, sep: &Vec<char>) -> (r: Vec<char>)
    ensures
        r@ == join_with(parts@.map_values(|p: Vec<char>| p@), sep@),
{
    let ghost ps = parts@.map_values(|p: Vec<char>| p@);
    let mut out: Vec<char> = Vec::new();
    let mut i: usize = 0;
    assert(ps.take(0) =~= Seq::<Seq<char>>::empty());
    while i < parts.len()
        invariant
            i <= parts.len(),
            ps == parts@.map_values(|p: Vec<char>| p@),
            out@ == join_with(ps.take(i as int), sep@),
        decreases parts.len() - i,
    {
        assert(ps.take(i + 1).drop_last() =~= ps.take(i as int));
        assert(ps.take(i + 1).last() == parts@[i as int]@);
        if i > 0 {
            push_all(&mut out, sep);
        }
        push_all(&mut out, &parts[i]);
        proof {
            if i == 0 {
                assert(ps.take(1).len() == 1);
                assert(ps.take(1)[0] == parts@[0]@);
                assert(out@ =~= parts@[0]@);
            }
        }
        i = i + 1;
    }
    assert(ps.take(parts.len() as int) =~= ps);
    out
}

/// Whether `u` is the code of a Unicode scalar value.
pub open spec fn is_scalar(u: u32) -> bool {
    u < 0xD800 || (0xE000 <= u && u <= 0x10FFFF)
}

/// Calls `char::from_u32`. Trusted: as its documentation says, the character with code
/// `u` when `u` is a Unicode scalar value (not a surrogate, at most `0x10FFFF`), else
/// nothing.
#[verifier::external_body]
pub(crate) fn char_from_u32(u: u32) -> (r: Option<char>)
    ensures
        r is Some <==> is_scalar(u),
        r matches Some(c) ==> c as u32 == u && c == u as char,
{
    char::from_u32(u)
}

/// The first `c` in `s` is at `k`.
pub proof fn lemma_index_of_char_first(s: Seq<char>, c: char, k: int)
    requires
        0 <= k < s.len(),
        s[k] == c,
        forall|j: int| 0 <= j < k ==> s[j] != c,
    ensures
        index_of_char(s, c) == Some(k),
{
    lemma_index_of_char(s, c);
    match index_of_char(s, c) {
        Some(m) => {
            if m > k {
                assert(s[k] != c);
            }
        },
        None => {
            assert(s[k] != c);
        },
    }
}

/// No part of a split holds the separator.
pub proof fn lemma_split_parts_lack(s: Seq<char>, c: char)
    ensures
        forall|k: int, j: int|
            0 <= k < split_char(s, c).len() && 0 <= j < split_char(s, c)[k].len()
                ==> #[trigger] split_char(s, c)[k][j] != c,
    decreases s.len(),
{
    lemma_index_of_char(s, c);
    match index_of_char(s, c) {
        Some(i) => {
            lemma_split_parts_lack(s.skip(i + 1), c);
            let ps = split_char(s, c);
            let rest = split_char(s.skip(i + 1), c);
            assert(ps == seq![s.take(i)] + rest);
            assert forall|k: int, j: int| 0 <= k < ps.len() && 0 <= j < ps[k].len() implies #[trigger] ps[k][j] != c by {
                if k == 0 {
                    assert(ps[0][j] == s[j]);
                } else {
                    assert(ps[k] == rest[k - 1]);
                }
            }
        },
        None => {},
    }
}

/// The parts of an ASCII text are ASCII.
pub proof fn lemma_split_parts_ascii(s: Seq<char>, c: char)
    requires
        all_ascii(s),
    ensures
        forall|k: int| 0 <= k < split_char(s, c).len() ==> all_ascii(#[trigger] split_char(s, c)[k]),
    decreases s.len(),
{
    lemma_index_of_char(s, c);
    match index_of_char(s, c) {
        Some(i) => {
            assert(all_ascii(s.skip(i + 1))) by {
                assert forall|j: int| 0 <= j < s.skip(i + 1).len() implies is_ascii_char(#[trigger] s.skip(i + 1)[j]) by {
                    assert(s.skip(i + 1)[j] == s[i + 1 + j]);
                }
            }
            lemma_split_parts_ascii(s.skip(i + 1), c);
            let ps = split_char(s, c);
            let rest = split_char(s.skip(i + 1), c);
            assert(ps == seq![s.take(i)] + rest);
            assert forall|k: int| 0 <= k < ps.len() implies all_ascii(#[trigger] ps[k]) by {
                if k == 0 {
                    assert forall|j: int| 0 <= j < ps[0].len() implies is_ascii_char(#[trigger] ps[0][j]) by {
                        assert(ps[0][j] == s[j]);
                    }
                } else {
                    assert(ps[k] == rest[k - 1]);
                }
            }
        },
        None => {},
    }
}

/// A text without `c` splits into itself alone.
pub proof fn lemma_split_single(a: Seq<char>, c: char)
    requires
        forall|j: int| 0 <= j < a.len() ==> a[j] != c,
    ensures
        split_char(a, c) == seq![a],
{
    lemma_index_of_char(a, c);
    if index_of_char(a, c) is Some {
        let k = index_of_char(a, c)->0;
        assert(a[k] == c);
    }
}

/// Splitting `a`, `c`, `b` at `c`, where `a` holds no `c`, gives `a` and then the parts
/// of `b`.
pub proof fn lemma_split_cons(a: Seq<char>, b: Seq<char>, c: char)
    requires
        forall|j: int| 0 <= j < a.len() ==> a[j] != c,
    ensures
        split_char(a + seq![c] + b, c) == seq![a] + split_char(b, c),
{
    let s = a + seq![c] + b;
    assert forall|j: int| 0 <= j < a.len() implies s[j] != c by {
        assert(s[j] == a[j]);
    }
    assert(s[a.len() as int] == c);
    lemma_index_of_char_first(s, c, a.len() as int);
    assert(s.take(a.len() as int) =~= a);
    assert(s.skip(a.len() as int + 1) =~= b);
}

/// Splitting `a`, `c`, `b` at `c`, where `b` holds no `c`, gives the parts of `a` and
/// then `b`.
pub proof fn lemma_split_snoc(a: Seq<char>, b: Seq<char>, c: char)
    requires
        forall|j: int| 0 <= j < b.len() ==> b[j] != c,
    ensures
        split_char(a + seq![c] + b, c) == split_char(a, c) + seq![b],
    decreases a.len(),
{
    lemma_index_of_char(a, c);
    match index_of_char(a, c) {
        Some(k) => {
            let a1 = a.take(k);
            let a2 = a.skip(k + 1);
            assert(a =~= a1 + seq![c] + a2);
            assert(a + seq![c] + b =~= a1 + seq![c] + (a2 + seq![c] + b));
            assert forall|j: int| 0 <= j < a1.len() implies a1[j] != c by {
                assert(a1[j] == a[j]);
            }
            lemma_split_cons(a1, a2 + seq![c] + b, c);
            lemma_split_snoc(a2, b, c);
            assert(split_char(a, c) == seq![a1] + split_char(a2, c));
            assert(seq![a1] + (split_char(a2, c) + seq![b]) =~= seq![a1] + split_char(a2, c) + seq![b]);
        },
        None => {
            lemma_split_cons(a, b, c);
            lemma_split_single(b, c);
            lemma_split_single(a, c);
        },
    }
}

/// Joining parts that hold no `c` with `c` and splitting the result at `c` gives the
/// parts back.
pub proof fn lemma_split_join(ps: Seq<Seq<char>>, c: char)
    requires
        ps.len() >= 1,
        forall|k: int, j: int| 0 <= k < ps.len() && 0 <= j < ps[k].len() ==> #[trigger] ps[k][j] != c,
    ensures
        split_char(join_with(ps, seq![c]), c) == ps,
    decreases ps.len(),
{
    if ps.len() == 1 {
        assert forall|j: int| 0 <= j < ps[0].len() implies ps[0][j] != c by {}
        lemma_split_single(ps[0], c);
        assert(ps =~= seq![ps[0]]);
    } else {
        let pre = ps.drop_last();
        assert forall|k: int, j: int| 0 <= k < pre.len() && 0 <= j < pre[k].len() implies #[trigger] pre[k][j] != c by {
            assert(pre[k] == ps[k]);
        }
        lemma_split_join(pre, c);
        assert(ps.last() == ps[ps.len() - 1]);
        assert forall|j: int| 0 <= j < ps.last().len() implies ps.last()[j] != c by {}
        lemma_split_snoc(join_with(pre, seq![c]), ps.last(), c);
        assert(ps =~= pre + seq![ps.last()]);
    }
}

/// The parts with `sep` after each but the last.
pub open spec fn glued(rs: Seq<Seq<char>>, sep: Seq<char>) -> Seq<Seq<char>> {
    Seq::new(rs.len(), |j: int| rs[j] + (if j < rs.len() - 1 { sep } else { Seq::empty() }))
}

/// Adding to the end of a joined text adds to its last part.
pub proof fn lemma_join_append(ps: Seq<Seq<char>>, sep: Seq<char>, x: Seq<char>)
    requires
        ps.len() >= 1,
    ensures
        join_with(ps, sep) + x == join_with(ps.update(ps.len() - 1, ps.last() + x), sep),
{
    let qs = ps.update(ps.len() - 1, ps.last() + x);
    if ps.len() == 1 {
        assert(join_with(ps, sep) == ps[0]);
        assert(join_with(qs, sep) == qs[0]);
    } else {
        assert(qs.drop_last() =~= ps.drop_last());
        assert(qs.last() == ps.last() + x);
        assert(join_with(ps, sep) + x =~= join_with(ps.drop_last(), sep) + sep + (ps.last() + x));
    }
}

/// Joining texts that each start with `c`, after `w`, is joining at `c` the text `w`
/// and the rests with `sep` glued after each but the last.
pub proof fn lemma_rejoin(w: Seq<char>, rs: Seq<Seq<char>>, sep: Seq<char>, c: char)
    requires
        rs.len() >= 1,
    ensures
        w + join_with(rs.map_values(|r: Seq<char>| seq![c] + r), sep) == join_with(
            seq![w] + glued(rs, sep),
            seq![c],
        ),
    decreases rs.len(),
{
    let ps = rs.map_values(|r: Seq<char>| seq![c] + r);
    if rs.len() == 1 {
        assert(join_with(ps, sep) == ps[0]);
        let g = seq![w] + glued(rs, sep);
        assert(g.len() == 2);
        assert(g.drop_last() =~= seq![w]);
        assert(join_with(g.drop_last(), seq![c]) == w);
        assert(g.last() =~= rs[0]);
        assert(w + ps[0] =~= w + seq![c] + rs[0]);
    } else {
        let init = rs.drop_last();
        lemma_rejoin(w, init, sep, c);
        let pi = init.map_values(|r: Seq<char>| seq![c] + r);
        assert(ps.drop_last() =~= pi);
        assert(ps.last() == seq![c] + rs.last());
        let gi = seq![w] + glued(init, sep);
        let g = seq![w] + glued(rs, sep);
        // w + join(ps) = (w + join(pi)) + sep + c + last
        assert(w + join_with(ps, sep) =~= (w + join_with(pi, sep)) + sep + seq![c] + rs.last());
        lemma_join_append(gi, seq![c], sep);
        let gi2 = gi.update(gi.len() - 1, gi.last() + sep);
        assert(gi2 =~= g.drop_last());
        assert(g.last() =~= rs.last());
        assert(join_with(g, seq![c]) == join_with(g.drop_last(), seq![c]) + seq![c] + g.last());
    }
}

/// Trimming changes nothing when neither end is white space.
pub proof fn lemma_trim_noop(s: Seq<char>)
    requires
        s.len() > 0 ==> !is_ws(s[0]) && !is_ws(s.last()),
    ensures
        trim(s) == s,
{
}

/// Stripping `c` changes nothing when neither end is `c`.
pub proof fn lemma_trim_char_noop(s: Seq<char>, c: char)
    requires
        s.len() > 0 ==> s[0] != c && s.last() != c,
    ensures
        trim_char(s, c) == s,
{
}

/// Stripping quotes from a quoted text without quotes gives the text.
pub proof fn lemma_trim_quotes(x: Seq<char>)
    requires
        forall|j: int| 0 <= j < x.len() ==> x[j] != '"',
    ensures
        trim_char(seq!['"'] + x + seq!['"'], '"') == x,
{
    reveal_with_fuel(strip_start, 3);
    reveal_with_fuel(strip_end, 3);
    let q = seq!['"'] + x + seq!['"'];
    assert(q[0] == '"');
    assert(q.drop_first() =~= x + seq!['"']);
    if x.len() == 0 {
        assert((x + seq!['"']).drop_first() =~= Seq::<char>::empty());
        assert(strip_start(q, '"') == Seq::<char>::empty());
    } else {
        assert((x + seq!['"'])[0] == x[0]);
        assert(strip_start(q, '"') == x + seq!['"']);
        assert((x + seq!['"']).drop_last() =~= x);
        assert(x.last() == x[x.len() - 1]);
    }
}

/// All digits of a number are digits, there is at least one, and they are worth the
/// number.
pub proof fn lemma_decimal_digits(n: nat)
    ensures
        decimal(n).len() > 0,
        all_digits(decimal(n)),
        digits_value(decimal(n)) == n,
    decreases n,
{
    if n < 10 {
        assert(digit_char(n) as u32 == n + 48);
        assert(decimal(n) == seq![digit_char(n)]);
        assert(seq![digit_char(n)].drop_last() =~= Seq::<char>::empty());
        assert(('0' as u32) == 48);
        assert(digits_value(decimal(n)) == digits_value(Seq::<char>::empty()) * 10 + (n + 48 - 48));
    } else {
        lemma_decimal_digits(n / 10);
        let d = decimal(n / 10);
        assert(decimal(n) == d.push(digit_char(n % 10)));
        assert(d.push(digit_char(n % 10)).drop_last() =~= d);
        assert(digit_char(n % 10) as u32 == n % 10 + 48);
        assert(('0' as u32) == 48);
        assert(decimal(n).last() == digit_char(n % 10));
        assert(digits_value(decimal(n)) == digits_value(d) * 10 + (n % 10));
        assert(n == (n / 10) * 10 + n % 10) by (nonlinear_arith);
        assert forall|i: int| 0 <= i < decimal(n).len() implies is_digit(#[trigger] decimal(n)[i]) by {
            if i < d.len() {
                assert(decimal(n)[i] == d[i]);
            }
        }
    }
}

/// Reading back the decimal form of an unsigned number gives the number.
pub proof fn lemma_parse_u64_decimal(n: u64)
    ensures
        parse_u64_spec(decimal(n as nat)) == Some(n),
{
    lemma_decimal_digits(n as nat);
    assert(is_digit(decimal(n as nat)[0]));
}

/// Reading back the decimal form of a signed number gives the number.
pub proof fn lemma_parse_i64_decimal(n: i64)
    ensures
        parse_i64_spec(decimal_int(n as int)) == Some(n),
{
    if n < 0 {
        let m = (0 - n) as nat;
        lemma_decimal_digits(m);
        let s = decimal_int(n as int);
        assert(s == seq!['-'] + decimal(m));
        assert(s.drop_first() =~= decimal(m));
    } else {
        lemma_decimal_digits(n as nat);
        assert(is_digit(decimal(n as nat)[0]));
    }
}

// ---------------------------------------------------------------------------
// Numbers
// ---------------------------------------------------------------------------

pub open spec fn is_digit(c: char) -> bool {
    '0' <= c && c <= '9'
}

pub open spec fn all_digits(s: Seq<char>) -> bool {
    forall|i: int| 0 <= i < s.len() ==> is_digit(#[trigger] s[i])
}

/// Value of a sequence of decimal digits.
pub open spec fn digits_value(s: Seq<char>) -> nat
    decreases s.len(),
{
    if s.len() == 0 {
        0
    } else {
        digits_value(s.drop_last()) * 10 + ((s.last() as u32) - ('0' as u32)) as nat
    }
}

/// `str::parse::<i64>`: an optional sign, one or more ASCII digits, and a value in range.
pub open spec fn parse_i64_spec(s: Seq<char>) -> Option<i64> {
    let neg = s.len() > 0 && s[0] == '-';
    let signed = s.len() > 0 && (s[0] == '-' || s[0] == '+');
    let digits = if signed {
        s.drop_first()
    } else {
        s
    };
    if digits.len() == 0 || !all_digits(digits) {
        None
    } else if neg {
        if digits_value(digits) <= 0x8000_0000_0000_0000 {
            Some((0 - digits_value(digits)) as i64)
        } else {
            None
        }
    } else if digits_value(digits) <= i64::MAX {
        Some(digits_value(digits) as i64)
    } else {
        None
    }
}

/// `str::parse::<u64>`: an optional `+`, one or more ASCII digits, and a value in range.
pub open spec fn parse_u64_spec(s: Seq<char>) -> Option<u64> {
    let digits = if s.len() > 0 && s[0] == '+' {
        s.drop_first()
    } else {
        s
    };
    if digits.len() == 0 || !all_digits(digits) {
        None
    } else if digits_value(digits) <= u64::MAX {
        Some(digits_value(digits) as u64)
    } else {
        None
    }
}

/// `str::parse::<usize>` on a 64-bit target.
pub open spec fn parse_usize_spec(s: Seq<char>) -> Option<usize> {
    match parse_u64_spec(s) {
        Some(v) => if v <= usize::MAX {
            Some(v as usize)
        } else {
            None
        },
        None => None,
    }
}

proof fn lemma_digits_value_monotone(s: Seq<char>, k: int)
    requires
        0 <= k <= s.len(),
        all_digits(s),
    ensures
        digits_value(s.take(k)) <= digits_value(s),
    decreases s.len() - k,
{
    if k < s.len() {
        lemma_digits_value_monotone(s, k + 1);
        assert(s.take(k + 1).drop_last() =~= s.take(k));
    } else {
        assert(s.take(k) =~= s);
    }
}

/// Parses the digits `s[from..]`; `None` when one is not a digit, when there are none,
/// or when the value exceeds `bound`.
fn parse_digits(s: &Vec<char>, from: usize, bound: u64) -> (r: Option<u64>)
    requires
        from <= s.len(),
        bound >= 9,
    ensures
        match r {
            Some(v) => s@.skip(from as int).len() > 0 && all_digits(s@.skip(from as int)) && v
                == digits_value(s@.skip(from as int)) && v <= bound,
            None => !(s@.skip(from as int).len() > 0 && all_digits(s@.skip(from as int))
                && digits_value(s@.skip(from as int)) <= bound),
        },
{
    let ghost d = s@.skip(from as int);
    if from == s.len() {
        return None;
    }
    let mut v: u64 = 0;
    let mut i = from;
    while i < s.len()
        invariant
            from <= i <= s.len(),
            d == s@.skip(from as int),
            all_digits(d.take(i - from)),
            v == digits_value(d.take(i - from)),
            v <= bound,
            bound >= 9,
        decreases s.len() - i,
    {
        let c = s[i];
        assert(d[i - from] == c);
        if !('0' <= c && c <= '9') {
            return None;
        }
        let dv: u64 = ((c as u32) - ('0' as u32)) as u64;
        assert(d.take(i - from + 1).drop_last() =~= d.take(i - from));
        if v > (bound - dv) / 10 {
            proof {
                assert(all_digits(d.take(i - from + 1)));
                assert(digits_value(d.take(i - from + 1)) == v * 10 + dv);
                assert(v * 10 + dv > bound) by (nonlinear_arith)
                    requires
                        v > (bound - dv) / 10,
                        dv <= bound || dv > bound,
                ;
                if all_digits(d) {
                    lemma_digits_value_monotone(d, i - from + 1);
                }
            }
            return None;
        }
        assert(v * 10 + dv <= bound) by (nonlinear_arith)
            requires
                v <= (bound - dv) / 10,
                dv <= 9,
        ;
        v = v * 10 + dv;
        i = i + 1;
    }
    assert(d.take(i - from) =~= d);
    Some(v)
}

pub fn parse_i64(s: &Vec<char>) -> (r: Option<i64>)
    ensures
        r == parse_i64_spec(s@),
{
    let neg = s.len() > 0 && s[0] == '-';
    let signed = s.len() > 0 && (s[0] == '-' || s[0] == '+');
    let from: usize = if signed {
        1
    } else {
        0
    };
    let ghost digits = s@.skip(from as int);
    assert(signed ==> digits =~= s@.drop_first());
    assert(!signed ==> digits =~= s@);
    if neg {
        match parse_digits(s, from, 0x8000_0000_0000_0000u64) {
            Some(v) => {
                if v == 0x8000_0000_0000_0000u64 {
                    Some(i64::MIN)
                } else {
                    Some(0 - (v as i64))
                }
            },
            None => None,
        }
    } else {
        match parse_digits(s, from, 0x7FFF_FFFF_FFFF_FFFFu64) {
            Some(v) => Some(v as i64),
            None => None,
        }
    }
}

pub fn parse_u64(s: &Vec<char>) -> (r: Option<u64>)
    ensures
        r == parse_u64_spec(s@),
{
    let from: usize = if s.len() > 0 && s[0] == '+' {
        1
    } else {
        0
    };
    assert(from == 1 ==> s@.skip(1) =~= s@.drop_first());
    assert(from == 0 ==> s@.skip(0) =~= s@);
    parse_digits(s, from, u64::MAX)
}

pub fn parse_usize(s: &Vec<char>) -> (r: Option<usize>)
    ensures
        r == parse_usize_spec(s@),
{
    match parse_u64(s) {
        Some(v) => {
            if v <= usize::MAX as u64 {
                Some(v as usize)
            } else {
                None
            }
        },
        None => None,
    }
}

pub open spec fn digit_char(d: nat) -> char {
    ((d + 48) as u32) as char
}

/// Decimal digits of `n`, no leading zeros (`Display` of an unsigned integer).
pub open spec fn decimal(n: nat) -> Seq<char>
    decreases n,
{
    if n < 10 {
        seq![digit_char(n)]
    } else {
        decimal(n / 10).push(digit_char(n % 10))
    }
}

/// `Display` of a signed integer.
pub open spec fn decimal_int(n: int) -> Seq<char> {
    if n < 0 {
        seq!['-'] + decimal((0 - n) as nat)
    } else {
        decimal(n as nat)
    }
}

fn digit_of(d: u64) -> (c: char)
    requires
        d < 10,
    ensures
        c == digit_char(d as nat),
{
    let b: u8 = (d as u8) + 48;
    b as char
}

pub fn fmt_u64(n: u64) -> (r: Vec<char>)
    ensures
        r@ == decimal(n as nat),
    decreases n,
{
    if n < 10 {
        let mut v: Vec<char> = Vec::new();
        v.push(digit_of(n));
        assert(v@ =~= seq![digit_char(n as nat)]);
        v
    } else {
        let mut v = fmt_u64(n / 10);
        v.push(digit_of(n % 10));
        v
    }
}

pub fn fmt_i64(n: i64) -> (r: Vec<char>)
    ensures
        r@ == decimal_int(n as int),
{
    if n < 0 {
        let mag: u64 = if n == i64::MIN {
            0x8000_0000_0000_0000u64
        } else {
            (0 - n) as u64
        };
        let d = fmt_u64(mag);
        let mut v: Vec<char> = Vec::new();
        v.push('-');
        let r = concat_chars(&v, &d);
        assert(v@ =~= seq!['-']);
        r
    } else {
        fmt_u64(n as u64)
    }
}

pub fn fmt_usize(n: usize) -> (r: Vec<char>)
    ensures
        r@ == decimal(n as nat),
{
    fmt_u64(n as u64)
}

pub open spec fn hex_digit_char(d: nat) -> char {
    if d < 10 {
        digit_char(d)
    } else {
        ((d + 55) as u32) as char
    }
}

/// Upper-case hexadecimal digits of `n` (`{:X}`).
pub open spec fn hex_upper(n: nat) -> Seq<char>
    decreases n,
{
    if n < 16 {
        seq![hex_digit_char(n)]
    } else {
        hex_upper(n / 16).push(hex_digit_char(n % 16))
    }
}

pub fn fmt_hex_upper(n: u32) -> (r: Vec<char>)
    ensures
        r@ == hex_upper(n as nat),
    decreases n,
{
    let d: u32 = n % 16;
    let c: char = if d < 10 {
        ((d as u8) + 48) as char
    } else {
        ((d as u8) + 55) as char
    };
    if n < 16 {
        let mut v: Vec<char> = Vec::new();
        v.push(c);
        assert(v@ =~= seq![hex_digit_char(n as nat)]);
        v
    } else {
        let mut v = fmt_hex_upper(n / 16);
        v.push(c);
        v
    }
}

} // verus!
