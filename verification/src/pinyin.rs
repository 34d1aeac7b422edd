//! Matching file names by the pinyin initials of their Chinese characters.
use vstd::prelude::*;
use std::collections::HashMap;
use crate::text::{chars_of, contains, contains_chars, lower_chars, lowercase, string_of};

verus! {

/// The character-to-initial table, in the order in which it is built; a later pair for
/// the same character would replace an earlier one.
pub open spec fn pinyin_pairs() -> Seq<(char, char)> {
    seq![
        ('报', 'b'), ('告', 'g'), ('文', 'w'), ('件', 'j'), ('文', 'w'), ('档', 'd'),
        ('目', 'm'), ('录', 'l'), ('文', 'w'), ('件', 'j'), ('夹', 'j'), ('项', 'x'),
        ('目', 'm'), ('测', 'c'), ('试', 's'), ('源', 'y'), ('代', 'd'), ('码', 'm'),
        ('工', 'g'), ('程', 'c'), ('项', 'x'), ('目', 'm'), ('数', 's'), ('据', 'j'),
        ('库', 'k'), ('数', 's'), ('据', 'j'), ('文', 'w'), ('件', 'j'), ('图', 't'),
        ('片', 'p'), ('视', 's'), ('频', 'p'), ('音', 'y'), ('乐', 'l'), ('视', 's'),
        ('频', 'p'), ('文', 'w'), ('本', 'b'), ('表', 'b'), ('格', 'g'), ('演', 'y'),
        ('示', 's'), ('幻', 'h'), ('灯', 'd'), ('片', 'p'), ('简', 'j'), ('报', 'b'),
        ('合', 'h'), ('同', 't'), ('发', 'f'), ('票', 'p'), ('合', 'h'), ('约', 'y'),
        ('简', 'j'), ('历', 'l'), ('备', 'b'), ('份', 'f'), ('版', 'b'), ('本', 'b'),
        ('配', 'p'), ('置', 'z'), ('设', 's'), ('置', 'z'), ('日', 'r'), ('志', 'z'),
        ('日', 'r'), ('期', 'q'), ('时', 's'), ('间', 'j'), ('大', 'd'), ('小', 'x'),
        ('名', 'm'), ('称', 'c'), ('类', 'l'), ('型', 'x'), ('路', 'l'), ('径', 'j'),
        ('扩', 'k'), ('展', 'z'), ('后', 'h'), ('缀', 'z'), ('属', 's'), ('性', 'x'),
        ('创', 'c'), ('建', 'j'), ('修', 'x'), ('改', 'g'), ('访', 'f'), ('问', 'w'),
        ('隐', 'y'), ('藏', 'c'), ('只', 'z'), ('读', 'd'), ('系', 'x'), ('统', 't'),
        ('目', 'm'), ('录', 'l'), ('卷', 'j'), ('搜', 's'), ('索', 's'), ('结', 'j'),
        ('果', 'g'), ('过', 'g'), ('滤', 'l'), ('排', 'p'), ('序', 'x'), ('复', 'f'),
        ('制', 'z'), ('粘', 'z'), ('贴', 't'), ('删', 's'), ('除', 'c'), ('重', 'c'),
        ('命', 'm'), ('名', 'm'), ('属', 's'), ('性', 'x'), ('打', 'd'), ('开', 'k'),
        ('保', 'b'), ('存', 'c'), ('关', 'g'), ('闭', 'b'), ('退', 't'), ('出', 'c'),
        ('刷', 's'), ('新', 'x'), ('加', 'j'), ('载', 'z'), ('同', 't'), ('步', 'b'),
    ]
}

/// The initial that the table gives a character: the last pair for it.
pub open spec fn initial_in(pairs: Seq<(char, char)>, c: char) -> Option<char>
    decreases pairs.len(),
{
    if pairs.len() == 0 {
        None
    } else if pairs.last().0 == c {
        Some(pairs.last().1)
    } else {
        initial_in(pairs.drop_last(), c)
    }
}

/// The initials of the characters of `s` that the table knows, in order.
pub open spec fn initials(s: Seq<char>) -> Seq<char>
    decreases s.len(),
{
    if s.len() == 0 {
        Seq::empty()
    } else {
        initials(s.drop_last()) + match initial_in(pinyin_pairs(), s.last()) {
            Some(i) => seq![i],
            None => Seq::empty(),
        }
    }
}

/// A character of the CJK Unified Ideographs block.
pub open spec fn is_cjk(c: char) -> bool {
    '\u{4e00}' <= c && c <= '\u{9fff}'
}

/// The table as a map from a character's code point to its initial: the pairs inserted
/// in order, so that a later pair for a character replaces an earlier one.
pub open spec fn table_map(pairs: Seq<(char, char)>) -> Map<u32, char>
    decreases pairs.len(),
{
    if pairs.len() == 0 {
        Map::empty()
    } else {
        table_map(pairs.drop_last()).insert(pairs.last().0 as u32, pairs.last().1)
    }
}

/// The map built from the pairs holds a character exactly when the table gives it an
/// initial, and holds that initial.
proof fn lemma_table_map(pairs: Seq<(char, char)>, c: char)
    ensures
        table_map(pairs).contains_key(c as u32) <==> initial_in(pairs, c) is Some,
        initial_in(pairs, c) is Some ==> table_map(pairs)[c as u32] == initial_in(pairs, c)->0,
    decreases pairs.len(),
{
    if pairs.len() > 0 {
        lemma_table_map(pairs.drop_last(), c);
        let k = pairs.last().0;
        vstd::utf8::char_u32_cast(k, k as u32);
        vstd::utf8::char_u32_cast(c, c as u32);
    }
}

/// The table of Chinese characters and the initial of their pinyin, keyed by code
/// point.
fn build_pinyin_map() -> (m: HashMap<u32, char>)
    ensures
        m@ == table_map(pinyin_pairs()),
{
    broadcast use vstd::std_specs::hash::group_hash_axioms;
    let pairs: Vec<(char, char)> = vec![
        ('报', 'b'), ('告', 'g'), ('文', 'w'), ('件', 'j'), ('文', 'w'), ('档', 'd'),
        ('目', 'm'), ('录', 'l'), ('文', 'w'), ('件', 'j'), ('夹', 'j'), ('项', 'x'),
        ('目', 'm'), ('测', 'c'), ('试', 's'), ('源', 'y'), ('代', 'd'), ('码', 'm'),
        ('工', 'g'), ('程', 'c'), ('项', 'x'), ('目', 'm'), ('数', 's'), ('据', 'j'),
        ('库', 'k'), ('数', 's'), ('据', 'j'), ('文', 'w'), ('件', 'j'), ('图', 't'),
        ('片', 'p'), ('视', 's'), ('频', 'p'), ('音', 'y'), ('乐', 'l'), ('视', 's'),
        ('频', 'p'), ('文', 'w'), ('本', 'b'), ('表', 'b'), ('格', 'g'), ('演', 'y'),
        ('示', 's'), ('幻', 'h'), ('灯', 'd'), ('片', 'p'), ('简', 'j'), ('报', 'b'),
        ('合', 'h'), ('同', 't'), ('发', 'f'), ('票', 'p'), ('合', 'h'), ('约', 'y'),
        ('简', 'j'), ('历', 'l'), ('备', 'b'), ('份', 'f'), ('版', 'b'), ('本', 'b'),
        ('配', 'p'), ('置', 'z'), ('设', 's'), ('置', 'z'), ('日', 'r'), ('志', 'z'),
        ('日', 'r'), ('期', 'q'), ('时', 's'), ('间', 'j'), ('大', 'd'), ('小', 'x'),
        ('名', 'm'), ('称', 'c'), ('类', 'l'), ('型', 'x'), ('路', 'l'), ('径', 'j'),
        ('扩', 'k'), ('展', 'z'), ('后', 'h'), ('缀', 'z'), ('属', 's'), ('性', 'x'),
        ('创', 'c'), ('建', 'j'), ('修', 'x'), ('改', 'g'), ('访', 'f'), ('问', 'w'),
        ('隐', 'y'), ('藏', 'c'), ('只', 'z'), ('读', 'd'), ('系', 'x'), ('统', 't'),
        ('目', 'm'), ('录', 'l'), ('卷', 'j'), ('搜', 's'), ('索', 's'), ('结', 'j'),
        ('果', 'g'), ('过', 'g'), ('滤', 'l'), ('排', 'p'), ('序', 'x'), ('复', 'f'),
        ('制', 'z'), ('粘', 'z'), ('贴', 't'), ('删', 's'), ('除', 'c'), ('重', 'c'),
        ('命', 'm'), ('名', 'm'), ('属', 's'), ('性', 'x'), ('打', 'd'), ('开', 'k'),
        ('保', 'b'), ('存', 'c'), ('关', 'g'), ('闭', 'b'), ('退', 't'), ('出', 'c'),
        ('刷', 's'), ('新', 'x'), ('加', 'j'), ('载', 'z'), ('同', 't'), ('步', 'b'),
    ];
    assert(pairs@ =~= pinyin_pairs());
    let mut m: HashMap<u32, char> = HashMap::new();
    let mut i: usize = 0;
    assert(pairs@.take(0) =~= Seq::<(char, char)>::empty());
    while i < pairs.len()
        invariant
            i <= pairs.len(),
            pairs@ == pinyin_pairs(),
            m@ == table_map(pairs@.take(i as int)),
        decreases pairs.len() - i,
    {
        let (c, v) = pairs[i];
        m.insert(c as u32, v);
        assert(pairs@.take(i + 1).drop_last() =~= pairs@.take(i as int));
        i = i + 1;
    }
    assert(pairs@.take(pairs.len() as int) =~= pairs@);
    m
}

/// The initial that the map gives a character.
fn lookup_initial(m: &HashMap<u32, char>, c: char) -> (r: Option<char>)
    requires
        m@ == table_map(pinyin_pairs()),
    ensures
        r == initial_in(pinyin_pairs(), c),
{
    broadcast use vstd::std_specs::hash::group_hash_axioms;
    proof {
        lemma_table_map(pinyin_pairs(), c);
    }
    let key: u32 = c as u32;
    match m.get(&key) {
        Some(v) => Some(*v),
        None => None,
    }
}

/// The pinyin initials of the Chinese characters of `text` that the table knows;
/// every other character is skipped.
pub fn get_pinyin_initials(text: &str) -> (r: String)
    ensures
        r@ == initials(text@),
{
    let map = build_pinyin_map();
    let cs = chars_of(text);
    let mut out: Vec<char> = Vec::new();
    let mut i: usize = 0;
    while i < cs.len()
        invariant
            i <= cs.len(),
            map@ == table_map(pinyin_pairs()),
            out@ == initials(cs@.take(i as int)),
        decreases cs.len() - i,
    {
        assert(cs@.take(i + 1).drop_last() =~= cs@.take(i as int));
        match lookup_initial(&map, cs[i]) {
            Some(c) => {
                out.push(c);
            },
            None => {},
        }
        i = i + 1;
        assert(out@ =~= initials(cs@.take(i as int)));
    }
    assert(cs@.take(cs.len() as int) =~= cs@);
    string_of(&out)
}

/// Whether `text` holds a CJK ideograph (U+4E00 to U+9FFF).
pub fn has_chinese(text: &str) -> (r: bool)
    ensures
        r == exists|i: int| 0 <= i < text@.len() && is_cjk(#[trigger] text@[i]),
{
    let cs = chars_of(text);
    let mut i: usize = 0;
    while i < cs.len()
        invariant
            i <= cs.len(),
            cs@ == text@,
            forall|j: int| 0 <= j < i ==> !is_cjk(#[trigger] cs@[j]),
        decreases cs.len() - i,
    {
        if cs[i] >= '\u{4e00}' && cs[i] <= '\u{9fff}' {
            assert(is_cjk(text@[i as int]));
            return true;
        }
        i = i + 1;
    }
    false
}

/// Whether the lower-cased query occurs in the pinyin initials of the file name.
pub fn match_pinyin(file_name: &str, query: &str) -> (r: bool)
    ensures
        r == contains(initials(file_name@), lowercase(query@)),
{
    let initials = get_pinyin_initials(file_name);
    let ic = chars_of(initials.as_str());
    let q = lower_chars(query);
    contains_chars(&ic, &q)
}

} // verus!
