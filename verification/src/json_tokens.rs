//! A flat JSON text seen as a run of tokens: words in quotes, and chunks of other
//! characters between them. Where a quoted key first occurs in such a text, and what
//! the key readers of the settings format find after it.
use vstd::prelude::*;
use crate::text::{
    find, index_of_char, is_ws, lemma_find_from, lemma_index_of_char_first, match_at, trim,
    trim_end, trim_start,
};
use crate::ui_config::{
    is_value_stop, json_array, json_value, kept_items, lemma_find_first, lemma_value_end_at,
    quoted, value_end,
};

verus! {

/// A piece of a flat JSON text: a word, written in quotes, or a chunk of characters
/// written as they are.
pub struct Token {
    pub word: bool,
    pub text: Seq<char>,
}

pub open spec fn word(t: Seq<char>) -> Token {
    Token { word: true, text: t }
}

pub open spec fn chunk(t: Seq<char>) -> Token {
    Token { word: false, text: t }
}

pub open spec fn token_text(t: Token) -> Seq<char> {
    if t.word {
        seq!['"'] + t.text + seq!['"']
    } else {
        t.text
    }
}

/// The text of a run of tokens.
pub open spec fn render(ts: Seq<Token>) -> Seq<char>
    decreases ts.len(),
{
    if ts.len() == 0 {
        seq![]
    } else {
        token_text(ts[0]) + render(ts.drop_first())
    }
}

pub open spec fn is_lower(c: char) -> bool {
    'a' <= c && c <= 'z'
}

/// Tokens without quotes in them, whose chunks are not empty and do not start with a
/// lower-case letter.
pub open spec fn tokens_ok(ts: Seq<Token>) -> bool {
    &&& forall|i: int, j: int|
        0 <= i < ts.len() && 0 <= j < ts[i].text.len() ==> #[trigger] ts[i].text[j] != '"'
    &&& forall|i: int|
        0 <= i < ts.len() && !ts[i].word ==> #[trigger] ts[i].text.len() > 0 && !is_lower(
            ts[i].text[0],
        )
}

/// A key the settings format uses: it starts with a lower-case letter and holds no
/// quote.
pub open spec fn key_ok(k: Seq<char>) -> bool {
    &&& k.len() > 0
    &&& is_lower(k[0])
    &&& forall|j: int| 0 <= j < k.len() ==> #[trigger] k[j] != '"'
}

/// Position, among the tokens, of the first word that is `k`.
pub open spec fn word_index(ts: Seq<Token>, k: Seq<char>) -> Option<int>
    decreases ts.len(),
{
    if ts.len() == 0 {
        None
    } else if ts[0].word && ts[0].text == k {
        Some(0)
    } else {
        match word_index(ts.drop_first(), k) {
            Some(i) => Some(i + 1),
            None => None,
        }
    }
}

/// Where the text of token `i` starts.
pub open spec fn offset(ts: Seq<Token>, i: int) -> int {
    render(ts.take(i)).len() as int
}

pub proof fn lemma_render_split(ts: Seq<Token>, i: int)
    requires
        0 <= i <= ts.len(),
    ensures
        render(ts) == render(ts.take(i)) + render(ts.skip(i)),
    decreases i,
{
    if i == 0 {
        assert(ts.take(0) =~= Seq::<Token>::empty());
        assert(ts.skip(0) =~= ts);
        assert(render(ts.take(0)) == Seq::<char>::empty());
        assert(render(ts) =~= Seq::<char>::empty() + render(ts));
    } else {
        let r = ts.drop_first();
        lemma_render_split(r, i - 1);
        assert(r.take(i - 1) =~= ts.take(i).drop_first());
        assert(r.skip(i - 1) =~= ts.skip(i));
        assert(ts.take(i)[0] == ts[0]);
        assert(render(ts.take(i)) == token_text(ts[0]) + render(r.take(i - 1)));
    }
}

pub proof fn lemma_word_index(ts: Seq<Token>, k: Seq<char>)
    ensures
        word_index(ts, k) matches Some(i) ==> 0 <= i < ts.len() && ts[i] == word(k) && forall|
            j: int,
        | 0 <= j < i ==> ts[j] != word(k),
        word_index(ts, k) is None ==> forall|j: int| 0 <= j < ts.len() ==> ts[j] != word(k),
    decreases ts.len(),
{
    if ts.len() > 0 {
        let r = ts.drop_first();
        lemma_word_index(r, k);
        assert forall|j: int| 0 <= j < r.len() implies r[j] == ts[j + 1] by {}
        if !(ts[0].word && ts[0].text == k) {
            assert(ts[0] != word(k));
            if word_index(r, k) is Some {
                let i = word_index(r, k)->0;
                assert(ts[i + 1] == r[i]);
                assert forall|j: int| 0 <= j < i + 1 implies ts[j] != word(k) by {
                    if j > 0 {
                        assert(ts[j] == r[j - 1]);
                    }
                }
            }
            if word_index(r, k) is None {
                assert forall|j: int| 0 <= j < ts.len() implies ts[j] != word(k) by {
                    if j > 0 {
                        assert(ts[j] == r[j - 1]);
                    }
                }
            }
        }
    }
}

/// Matches in a text after a prefix are the matches in the rest, moved.
proof fn lemma_match_shift(a: Seq<char>, b: Seq<char>, pat: Seq<char>, j: int)
    requires
        j >= a.len(),
    ensures
        match_at(a + b, pat, j) == match_at(b, pat, j - a.len()),
{
    let s = a + b;
    let m = a.len() as int;
    if j + pat.len() <= s.len() {
        assert(s.subrange(j, j + pat.len()) =~= b.subrange(j - m, j - m + pat.len()));
    }
}

/// No quoted key starts inside one token, but for the word that is the key, where it
/// starts at the token's first character.
proof fn lemma_match_in_token(t: Token, rest: Seq<Token>, k: Seq<char>, j: int)
    requires
        tokens_ok(seq![t] + rest),
        key_ok(k),
        0 <= j < token_text(t).len(),
    ensures
        match_at(render(seq![t] + rest), quoted(k), j) == (j == 0 && t == word(k)),
{
    let ts = seq![t] + rest;
    assert(ts[0] == t);
    assert(ts.drop_first() =~= rest);
    let s = render(ts);
    let tt = token_text(t);
    assert(s == tt + render(rest));
    let pat = quoted(k);
    let n = k.len() as int;
    let pl = pat.len() as int;
    assert forall|j2: int| 0 <= j2 < t.text.len() implies t.text[j2] != '"' by {
        assert(ts[0].text[j2] != '"');
    }
    if match_at(s, pat, j) {
        assert(s.subrange(j, j + pat.len())[0] == s[j]);
        assert(s[j] == '"');
        if !t.word {
            assert(s[j] == t.text[j]);
        } else {
            let w = t.text;
            if j > 0 && j <= w.len() {
                assert(s[j] == w[j - 1]);
            } else if j == w.len() + 1 {
                // a closing quote is followed by a quote or a chunk's first character
                assert(s.subrange(j, j + pat.len())[1] == s[j + 1]);
                assert(pat[1] == k[0]);
                assert(s[j + 1] == render(rest)[0]);
                assert(rest.len() > 0);
                assert(ts[1] == rest[0]);
                assert(render(rest) == token_text(rest[0]) + render(rest.drop_first()));
                if rest[0].word {
                    assert(render(rest)[0] == '"');
                } else {
                    assert(!ts[1].word);
                    assert(render(rest)[0] == rest[0].text[0]);
                }
            } else {
                assert(j == 0);
                // the word's text and the key match up to the shorter one's end
                let wl = w.len() as int;
                if wl < n {
                    assert(s[wl + 1] == '"');
                    assert(s.subrange(0, pl)[wl + 1] == pat[wl + 1]);
                    assert(pat[wl + 1] == k[wl]);
                } else if wl > n {
                    assert(s.subrange(0, pl)[n + 1] == pat[n + 1]);
                    assert(s[n + 1] == w[n]);
                } else {
                    assert forall|i: int| 0 <= i < n implies w[i] == k[i] by {
                        assert(s.subrange(0, pl)[i + 1] == pat[i + 1]);
                        assert(s[i + 1] == w[i]);
                    }
                    assert(w =~= k);
                }
            }
        }
    } else if j == 0 && t == word(k) {
        assert(s.subrange(0, pl) =~= pat);
    }
}

/// In the text of well-formed tokens, a quoted key occurs first where the first word
/// that is the key starts, and nowhere when no word is the key.
pub proof fn lemma_word_match(ts: Seq<Token>, k: Seq<char>)
    requires
        tokens_ok(ts),
        key_ok(k),
    ensures
        word_index(ts, k) matches Some(i) ==> match_at(render(ts), quoted(k), offset(ts, i))
            && forall|j: int| 0 <= j < offset(ts, i) ==> !match_at(render(ts), quoted(k), j),
        word_index(ts, k) is None ==> forall|j: int| 0 <= j ==> !match_at(render(ts), quoted(k), j),
    decreases ts.len(),
{
    let pat = quoted(k);
    if ts.len() == 0 {
        assert forall|j: int| 0 <= j implies !match_at(render(ts), pat, j) by {}
    } else {
        let t = ts[0];
        let r = ts.drop_first();
        assert(ts =~= seq![t] + r);
        assert forall|i: int, j: int| 0 <= i < r.len() && 0 <= j < r[i].text.len() implies #[trigger] r[i].text[j] != '"' by {
            assert(r[i] == ts[i + 1]);
        }
        assert forall|i: int| 0 <= i < r.len() && !r[i].word implies #[trigger] r[i].text.len() > 0 && !is_lower(r[i].text[0]) by {
            assert(r[i] == ts[i + 1]);
        }
        lemma_word_match(r, k);
        let s = render(ts);
        let tt = token_text(t);
        let m = tt.len() as int;
        assert(s == tt + render(r));
        assert forall|j: int| 0 <= j < m implies match_at(s, pat, j) == (j == 0 && t == word(k)) by {
            lemma_match_in_token(t, r, k, j);
        }
        assert forall|j: int| j >= m implies match_at(s, pat, j) == match_at(render(r), pat, j - m) by {
            lemma_match_shift(tt, render(r), pat, j);
        }
        assert(ts.take(0) =~= Seq::<Token>::empty());
        if t == word(k) {
            assert(word_index(ts, k) == Some(0int));
            assert(offset(ts, 0) == 0);
        } else {
            assert(!(t.word && t.text == k));
            match word_index(r, k) {
                Some(i) => {
                    lemma_word_index(r, k);
                    assert(word_index(ts, k) == Some(i + 1));
                    assert(ts.take(i + 1)[0] == t);
                    assert(ts.take(i + 1).drop_first() =~= r.take(i));
                    assert(render(ts.take(i + 1)) == tt + render(r.take(i)));
                    assert(offset(ts, i + 1) == m + offset(r, i));
                    assert forall|j: int| 0 <= j < offset(ts, i + 1) implies !match_at(s, pat, j) by {
                        if j >= m {
                            assert(!match_at(render(r), pat, j - m));
                        }
                    }
                },
                None => {
                    assert forall|j: int| 0 <= j implies !match_at(s, pat, j) by {
                        if j >= m {
                            assert(!match_at(render(r), pat, j - m));
                        }
                    }
                },
            }
        }
    }
}

/// Where `find` puts a quoted key in the text of well-formed tokens.
pub proof fn lemma_find_word(ts: Seq<Token>, k: Seq<char>)
    requires
        tokens_ok(ts),
        key_ok(k),
    ensures
        find(render(ts), quoted(k)) == (match word_index(ts, k) {
            Some(i) => Some(offset(ts, i)),
            None => None,
        }),
{
    lemma_word_match(ts, k);
    match word_index(ts, k) {
        Some(i) => {
            lemma_find_first(render(ts), quoted(k), offset(ts, i));
        },
        None => {
            lemma_find_from(render(ts), quoted(k), 0);
            if find(render(ts), quoted(k)) is Some {
                let p = find(render(ts), quoted(k))->0;
                assert(match_at(render(ts), quoted(k), p));
            }
        },
    }
}

pub open spec fn all_ws(s: Seq<char>) -> bool {
    forall|i: int| 0 <= i < s.len() ==> #[trigger] is_ws(s[i])
}

pub open spec fn lacks(s: Seq<char>, c: char) -> bool {
    forall|i: int| 0 <= i < s.len() ==> #[trigger] s[i] != c
}

pub proof fn lemma_trim_start_ws(sp: Seq<char>, x: Seq<char>)
    requires
        all_ws(sp),
        x.len() > 0 ==> !is_ws(x[0]),
    ensures
        trim_start(sp + x) == x,
    decreases sp.len(),
{
    if sp.len() == 0 {
        assert(sp + x =~= x);
    } else {
        assert((sp + x)[0] == sp[0]);
        assert((sp + x).drop_first() =~= sp.drop_first() + x);
        assert forall|i: int| 0 <= i < sp.drop_first().len() implies #[trigger] is_ws(sp.drop_first()[i]) by {
            assert(sp.drop_first()[i] == sp[i + 1]);
        }
        lemma_trim_start_ws(sp.drop_first(), x);
    }
}

pub proof fn lemma_trim_end_ws(a: Seq<char>, w: Seq<char>)
    requires
        all_ws(w),
        a.len() > 0 ==> !is_ws(a.last()),
    ensures
        trim_end(a + w) == a,
    decreases w.len(),
{
    if w.len() == 0 {
        assert(a + w =~= a);
    } else {
        assert((a + w).last() == w[w.len() - 1]);
        assert((a + w).drop_last() =~= a + w.drop_last());
        assert forall|i: int| 0 <= i < w.drop_last().len() implies #[trigger] is_ws(w.drop_last()[i]) by {
            assert(w.drop_last()[i] == w[i]);
        }
        lemma_trim_end_ws(a, w.drop_last());
    }
}

/// The text after the first `"key"` of `s`.
pub open spec fn after_key(s: Seq<char>, k: Seq<char>, a: int) -> Seq<char> {
    s.skip(a + quoted(k).len())
}

/// The value of `k` when the text after its first occurrence is a colon, white space
/// and a bare value up to a comma, brace or line break.
pub proof fn lemma_value_bare(
    s: Seq<char>,
    k: Seq<char>,
    a: int,
    pre: Seq<char>,
    sp: Seq<char>,
    d: Seq<char>,
    rest: Seq<char>,
)
    requires
        find(s, quoted(k)) == Some(a),
        0 <= a,
        a + quoted(k).len() <= s.len(),
        after_key(s, k, a) == pre + seq![':'] + sp + d + rest,
        lacks(pre, ':'),
        all_ws(sp),
        d.len() > 0,
        !is_ws(d[0]) && !is_ws(d.last()) && d[0] != '"',
        forall|i: int| 0 <= i < d.len() ==> !is_value_stop(#[trigger] d[i]),
        rest.len() > 0,
        is_value_stop(rest[0]),
        !is_ws(s.last()),
    ensures
        json_value(s, k) == Some(d),
{
    let after = after_key(s, k, a);
    let p = pre.len() as int;
    assert forall|j: int| 0 <= j < p implies after[j] != ':' by {
        assert(after[j] == pre[j]);
    }
    assert(after[p] == ':');
    lemma_index_of_char_first(after, ':', p);
    let w = after.skip(p + 1);
    assert(w =~= sp + (d + rest));
    lemma_trim_start_ws(sp, d + rest);
    assert(after.last() == s.last());
    assert((d + rest).last() == after.last());
    lemma_trim_end_ws(d + rest, Seq::<char>::empty());
    assert(d + rest + Seq::<char>::empty() =~= d + rest);
    assert(trim(w) == d + rest);
    let val = d + rest;
    assert(val[0] == d[0]);
    assert forall|j: int| 0 <= j < d.len() implies !is_value_stop(#[trigger] val[j]) by {
        assert(val[j] == d[j]);
    }
    assert(val[d.len() as int] == rest[0]);
    lemma_value_end_at(val, d.len() as int);
    assert(val.take(d.len() as int) =~= d);
    crate::text::lemma_trim_noop(d);
}

/// The value of `k` when the text after its first occurrence is a colon, white space
/// and a quoted text without quotes.
pub proof fn lemma_value_quoted(
    s: Seq<char>,
    k: Seq<char>,
    a: int,
    pre: Seq<char>,
    sp: Seq<char>,
    v: Seq<char>,
    rest: Seq<char>,
)
    requires
        find(s, quoted(k)) == Some(a),
        0 <= a,
        a + quoted(k).len() <= s.len(),
        after_key(s, k, a) == pre + seq![':'] + sp + seq!['"'] + v + seq!['"'] + rest,
        lacks(pre, ':'),
        all_ws(sp),
        lacks(v, '"'),
        !is_ws(s.last()),
    ensures
        json_value(s, k) == Some(v),
{
    let after = after_key(s, k, a);
    let p = pre.len() as int;
    assert forall|j: int| 0 <= j < p implies after[j] != ':' by {
        assert(after[j] == pre[j]);
    }
    assert(after[p] == ':');
    lemma_index_of_char_first(after, ':', p);
    let w = after.skip(p + 1);
    let x = seq!['"'] + v + seq!['"'] + rest;
    assert(w =~= sp + x);
    lemma_trim_start_ws(sp, x);
    assert(after.last() == s.last());
    assert(x.last() == after.last());
    lemma_trim_end_ws(x, Seq::<char>::empty());
    assert(x + Seq::<char>::empty() =~= x);
    assert(trim(w) == x);
    let y = x.skip(1);
    assert forall|j: int| 0 <= j < v.len() implies y[j] != '"' by {
        assert(y[j] == v[j]);
    }
    assert(y[v.len() as int] == '"');
    lemma_index_of_char_first(y, '"', v.len() as int);
    assert(x.subrange(1, v.len() as int + 1) =~= v);
}

/// The items of the array under `k` when the text after its first occurrence is a
/// colon, white space, `[`, a text without `]`, and `]`.
pub proof fn lemma_array_at(
    s: Seq<char>,
    k: Seq<char>,
    a: int,
    pre: Seq<char>,
    sp: Seq<char>,
    content: Seq<char>,
    rest: Seq<char>,
)
    requires
        find(s, quoted(k)) == Some(a),
        0 <= a,
        a + quoted(k).len() <= s.len(),
        after_key(s, k, a) == pre + seq![':'] + sp + seq!['['] + content + seq![']'] + rest,
        lacks(pre, ':'),
        all_ws(sp),
        lacks(content, ']'),
    ensures
        json_array(s, k) == kept_items(crate::text::split_char(content, ',')),
{
    let after = after_key(s, k, a);
    let p = pre.len() as int;
    assert forall|j: int| 0 <= j < p implies after[j] != ':' by {
        assert(after[j] == pre[j]);
    }
    assert(after[p] == ':');
    lemma_index_of_char_first(after, ':', p);
    let ac = after.skip(p);
    let q = sp.len() as int;
    assert(ac =~= seq![':'] + sp + seq!['['] + content + seq![']'] + rest);
    assert forall|j: int| 0 <= j < 1 + q implies ac[j] != '[' by {
        if j > 0 {
            assert(ac[j] == sp[j - 1]);
            assert(is_ws(sp[j - 1]));
        }
    }
    assert(ac[1 + q] == '[');
    lemma_index_of_char_first(ac, '[', 1 + q);
    let bt = ac.skip(1 + q + 1);
    assert(bt =~= content + seq![']'] + rest);
    assert forall|j: int| 0 <= j < content.len() implies bt[j] != ']' by {
        assert(bt[j] == content[j]);
    }
    assert(bt[content.len() as int] == ']');
    lemma_index_of_char_first(bt, ']', content.len() as int);
    assert(ac.subrange(2 + q, 2 + q + content.len()) =~= content);
}

/// The pieces that an array's text splits into at commas: each item in quotes, with
/// white space before it (`first` before the first one, `lead` before the others) and
/// `trail` after the last one.
pub open spec fn item_parts(
    ps: Seq<Seq<char>>,
    first: Seq<char>,
    lead: Seq<char>,
    trail: Seq<char>,
) -> Seq<Seq<char>> {
    Seq::new(
        ps.len(),
        |j: int|
            (if j == 0 {
                first
            } else {
                lead
            }) + quoted(ps[j]) + (if j == ps.len() - 1 {
                trail
            } else {
                Seq::<char>::empty()
            }),
    )
}

/// Items that are not empty and hold no quote: the array reader keeps each of them.
pub open spec fn items_ok(ps: Seq<Seq<char>>) -> bool {
    forall|j: int| 0 <= j < ps.len() ==> #[trigger] ps[j].len() > 0 && lacks(ps[j], '"')
        && lacks(ps[j], ',') && lacks(ps[j], ']')
}

proof fn lemma_kept_all(parts: Seq<Seq<char>>, ps: Seq<Seq<char>>)
    requires
        parts.len() == ps.len(),
        forall|j: int| 0 <= j < ps.len() ==> #[trigger] ps[j].len() > 0 && crate::text::trim_char(
            trim(parts[j]),
            '"',
        ) == ps[j],
    ensures
        kept_items(parts) == ps,
    decreases parts.len(),
{
    if parts.len() > 0 {
        let pp = parts.drop_last();
        let pv = ps.drop_last();
        assert forall|j: int| 0 <= j < pv.len() implies #[trigger] pv[j].len() > 0 && crate::text::trim_char(
            trim(pp[j]),
            '"',
        ) == pv[j] by {
            assert(pp[j] == parts[j] && pv[j] == ps[j]);
        }
        lemma_kept_all(pp, pv);
        assert(ps[ps.len() - 1].len() > 0);
        assert(ps =~= pv + seq![ps.last()]);
    }
}

pub proof fn lemma_kept_item_parts(
    ps: Seq<Seq<char>>,
    first: Seq<char>,
    lead: Seq<char>,
    trail: Seq<char>,
)
    requires
        items_ok(ps),
        all_ws(first),
        all_ws(lead),
        all_ws(trail),
    ensures
        kept_items(item_parts(ps, first, lead, trail)) == ps,
{
    let parts = item_parts(ps, first, lead, trail);
    assert forall|j: int| 0 <= j < ps.len() implies #[trigger] ps[j].len() > 0 && crate::text::trim_char(
        trim(parts[j]),
        '"',
    ) == ps[j] by {
        assert(ps[j].len() > 0 && lacks(ps[j], '"'));
        let w = if j == 0 { first } else { lead };
        let t = if j == ps.len() - 1 { trail } else { Seq::<char>::empty() };
        let q = quoted(ps[j]);
        assert(parts[j] == w + q + t);
        assert(q[0] == '"' && q.last() == '"');
        lemma_trim_start_ws(w, q + t);
        assert((q + t)[0] == q[0]);
        lemma_trim_end_ws(q, t);
        assert(trim(parts[j]) == q) by {
            assert(w + q + t =~= w + (q + t));
        }
        assert forall|i: int| 0 <= i < ps[j].len() implies ps[j][i] != '"' by {}
        crate::text::lemma_trim_quotes(ps[j]);
    }
    lemma_kept_all(parts, ps);
}

pub proof fn lemma_split_item_parts(
    ps: Seq<Seq<char>>,
    first: Seq<char>,
    lead: Seq<char>,
    trail: Seq<char>,
)
    requires
        ps.len() > 0,
        items_ok(ps),
        all_ws(first),
        all_ws(lead),
        all_ws(trail),
    ensures
        crate::text::split_char(
            crate::text::join_with(item_parts(ps, first, lead, trail), seq![',']),
            ',',
        ) == item_parts(ps, first, lead, trail),
{
    let parts = item_parts(ps, first, lead, trail);
    assert forall|k: int, j: int| 0 <= k < parts.len() && 0 <= j < parts[k].len() implies #[trigger] parts[k][j]
        != ',' by {
        assert(lacks(ps[k], ','));
        let w = if k == 0 { first } else { lead };
        let t = if k == ps.len() - 1 { trail } else { Seq::<char>::empty() };
        let q = quoted(ps[k]);
        assert(parts[k] == w + q + t);
        if j < w.len() {
            assert(parts[k][j] == w[j]);
            assert(is_ws(w[j]));
        } else if j < w.len() + q.len() {
            assert(parts[k][j] == q[j - w.len()]);
            if j - w.len() > 0 && j - w.len() < q.len() - 1 {
                assert(q[j - w.len()] == ps[k][j - w.len() - 1]);
            }
        } else {
            assert(parts[k][j] == t[j - w.len() - q.len()]);
            assert(is_ws(t[j - w.len() - q.len()]));
        }
    }
    crate::text::lemma_split_join(parts, ',');
}

pub proof fn lemma_render_concat(a: Seq<Token>, b: Seq<Token>)
    ensures
        render(a + b) == render(a) + render(b),
{
    lemma_render_split(a + b, a.len() as int);
    assert((a + b).take(a.len() as int) =~= a);
    assert((a + b).skip(a.len() as int) =~= b);
}

pub proof fn lemma_render_one(t: Token)
    ensures
        render(seq![t]) == token_text(t),
{
    assert(seq![t].drop_first() =~= Seq::<Token>::empty());
    assert(render(Seq::<Token>::empty()) == Seq::<char>::empty());
    assert(seq![t][0] == t);
    assert(render(seq![t]) == token_text(t) + render(seq![t].drop_first()));
    assert(token_text(t) + Seq::<char>::empty() =~= token_text(t));
}

pub proof fn lemma_render_two(t: Token, u: Token)
    ensures
        render(seq![t, u]) == token_text(t) + token_text(u),
{
    assert(seq![t, u] =~= seq![t] + seq![u]);
    lemma_render_concat(seq![t], seq![u]);
    lemma_render_one(t);
    lemma_render_one(u);
}

pub proof fn lemma_render_three(t: Token, u: Token, w: Token)
    ensures
        render(seq![t, u, w]) == token_text(t) + token_text(u) + token_text(w),
{
    assert(seq![t, u, w] =~= seq![t, u] + seq![w]);
    lemma_render_concat(seq![t, u], seq![w]);
    lemma_render_two(t, u);
    lemma_render_one(w);
}

/// None of the tokens is the word `k`.
pub open spec fn no_word(ts: Seq<Token>, k: Seq<char>) -> bool {
    forall|j: int| 0 <= j < ts.len() ==> ts[j] != word(k)
}

pub proof fn lemma_tokens_ok_concat(a: Seq<Token>, b: Seq<Token>)
    requires
        tokens_ok(a),
        tokens_ok(b),
    ensures
        tokens_ok(a + b),
{
    let ts = a + b;
    assert forall|i: int, j: int| 0 <= i < ts.len() && 0 <= j < ts[i].text.len() implies #[trigger] ts[i].text[j] != '"' by {
        if i < a.len() {
            assert(ts[i] == a[i]);
            assert(a[i].text[j] != '"');
        } else {
            assert(ts[i] == b[i - a.len()]);
            assert(b[i - a.len()].text[j] != '"');
        }
    }
    assert forall|i: int| 0 <= i < ts.len() && !ts[i].word implies #[trigger] ts[i].text.len() > 0 && !is_lower(ts[i].text[0]) by {
        if i < a.len() {
            assert(ts[i] == a[i]);
        } else {
            assert(ts[i] == b[i - a.len()]);
        }
    }
}

pub proof fn lemma_no_word_concat(a: Seq<Token>, b: Seq<Token>, k: Seq<char>)
    requires
        no_word(a, k),
        no_word(b, k),
    ensures
        no_word(a + b, k),
{
    assert forall|j: int| 0 <= j < (a + b).len() implies (a + b)[j] != word(k) by {
        if j < a.len() {
            assert((a + b)[j] == a[j]);
        } else {
            assert((a + b)[j] == b[j - a.len()]);
        }
    }
}

/// In the text of well-formed tokens made of a run without the word `k`, the word `k`,
/// and the rest, the quoted key first occurs after the run, and what follows it is the
/// rest's text.
pub proof fn lemma_lookup(pre: Seq<Token>, k: Seq<char>, post: Seq<Token>)
    requires
        tokens_ok(pre + seq![word(k)] + post),
        key_ok(k),
        no_word(pre, k),
    ensures
        find(render(pre + seq![word(k)] + post), quoted(k)) == Some(render(pre).len() as int),
        render(pre).len() + quoted(k).len() <= render(pre + seq![word(k)] + post).len(),
        after_key(render(pre + seq![word(k)] + post), k, render(pre).len() as int) == render(
            post,
        ),
{
    let ts = pre + seq![word(k)] + post;
    let n = pre.len() as int;
    lemma_word_index(ts, k);
    assert(ts[n] == word(k));
    assert forall|j: int| 0 <= j < n implies ts[j] != word(k) by {
        assert(ts[j] == pre[j]);
    }
    match word_index(ts, k) {
        Some(i) => {
            if i < n {
                assert(ts[i] != word(k));
            }
            if i > n {
                assert(ts[n] != word(k));
            }
        },
        None => {
            assert(ts[n] != word(k));
        },
    }
    assert(word_index(ts, k) == Some(n));
    lemma_find_word(ts, k);
    assert(ts.take(n) =~= pre);
    lemma_render_concat(pre, seq![word(k)]);
    lemma_render_concat(pre + seq![word(k)], post);
    lemma_render_one(word(k));
    let r = render(ts);
    assert(r == render(pre) + quoted(k) + render(post));
    assert(r.skip(render(pre).len() + quoted(k).len() as int) =~= render(post));
}

} // verus!
