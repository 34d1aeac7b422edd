//! The trie index over lower-cased file names.
//!
//! Each entry is filed under its lower-cased name and, when the name has a
//! dot that is not its first character, under the lower-cased part before
//! the last dot. A trie path is a sequence of character codes; the ids filed
//! under a path are kept in the order in which they were filed.
use std::collections::HashMap;
use vstd::prelude::*;
use vstd::std_specs::iter::IteratorSpec;
use crate::order::{ascending, ascending_ids, strictly_increasing, lemma_ascending_is,
    lemma_ascending_finite, lemma_filter_ascending};
use crate::text::{chars_eq, chars_of, all_ascii, contains, contains_chars, lower_chars, lowercase, slice_chars, starts_with};
use crate::types::{FileEntry, FileEntryView};

verus! {

broadcast use vstd::std_specs::hash::group_hash_axioms;

/// A node of the trie: children keyed by character code, and the ids filed here.
#[derive(Debug)]
pub struct TrieNode {
    pub children: HashMap<u32, Box<TrieNode>>,
    pub file_ids: Vec<i64>,
    pub is_end: bool,
}

impl TrieNode {
    pub fn new() -> (n: Self)
        ensures
            n.children@ == Map::<u32, Box<TrieNode>>::empty(),
            n.file_ids@ == Seq::<i64>::empty(),
            !n.is_end,
    {
        TrieNode { children: HashMap::new(), file_ids: Vec::new(), is_end: false }
    }
}

/// The character codes of a character sequence: the path it is filed under.
pub open spec fn keys_of(s: Seq<char>) -> Seq<u32> {
    s.map_values(|c: char| c as u32)
}

/// The node reached from `n` along `p`, if there is one.
pub open spec fn node_at(n: TrieNode, p: Seq<u32>) -> Option<TrieNode>
    decreases p.len(),
{
    if p.len() == 0 {
        Some(n)
    } else if n.children@.contains_key(p[0]) {
        node_at(*n.children@[p[0]], p.drop_first())
    } else {
        None
    }
}

/// The ids filed at path `p` below `n` (none when there is no such node).
pub open spec fn ids_at(n: TrieNode, p: Seq<u32>) -> Seq<i64> {
    match node_at(n, p) {
        Some(m) => m.file_ids@,
        None => Seq::empty(),
    }
}

/// Whether a string ends at path `p` below `n`.
pub open spec fn end_at(n: TrieNode, p: Seq<u32>) -> bool {
    match node_at(n, p) {
        Some(m) => m.is_end,
        None => false,
    }
}

/// Every id filed anywhere below `n`.
pub open spec fn subtree_ids(n: TrieNode) -> Set<i64> {
    Set::new(|id: i64| exists|p: Seq<u32>| #[trigger] ids_at(n, p).contains(id))
}

/// Position of the last occurrence of `c` (`str::rfind`).
pub open spec fn last_index_of(s: Seq<char>, c: char) -> Option<int>
    decreases s.len(),
{
    if s.len() == 0 {
        None
    } else if s.last() == c {
        Some(s.len() - 1)
    } else {
        last_index_of(s.drop_last(), c)
    }
}

pub proof fn lemma_last_index_of(s: Seq<char>, c: char)
    ensures
        last_index_of(s, c) matches Some(k) ==> 0 <= k < s.len() && s[k] == c && forall|j: int|
            k < j < s.len() ==> s[j] != c,
        last_index_of(s, c) is None ==> forall|j: int| 0 <= j < s.len() ==> s[j] != c,
    decreases s.len(),
{
    if s.len() > 0 && s.last() != c {
        lemma_last_index_of(s.drop_last(), c);
        assert forall|j: int| 0 <= j < s.len() - 1 implies s[j] == s.drop_last()[j] by {}
    }
}

/// The part of a lower-cased name before its last dot, when that dot is not the first
/// character.
pub open spec fn stem_of(lower: Seq<char>) -> Option<Seq<char>> {
    match last_index_of(lower, '.') {
        Some(d) => if d > 0 {
            Some(lower.take(d))
        } else {
            None
        },
        None => None,
    }
}

/// The ids that filing `id` under a lower-cased name adds at path `p`: one for the name
/// and one for its stem.
pub open spec fn filed_at(lower: Seq<char>, id: i64, p: Seq<u32>) -> Seq<i64> {
    (if keys_of(lower) == p {
        seq![id]
    } else {
        Seq::empty()
    }) + (match stem_of(lower) {
        Some(st) => if keys_of(st) == p {
            seq![id]
        } else {
            Seq::empty()
        },
        None => Seq::empty(),
    })
}

/// The ids filed at `p` by filing each entry of `es` in turn.
pub open spec fn filed_all(es: Seq<FileEntry>, p: Seq<u32>) -> Seq<i64>
    decreases es.len(),
{
    if es.len() == 0 {
        Seq::empty()
    } else {
        filed_all(es.drop_last(), p) + filed_at(lowercase(es.last().name@), es.last().id, p)
    }
}

/// The entries of `es` keyed by id; a later entry replaces an earlier one with the same id.
pub open spec fn map_of(es: Seq<FileEntry>) -> Map<i64, FileEntryView>
    decreases es.len(),
{
    if es.len() == 0 {
        Map::empty()
    } else {
        map_of(es.drop_last()).insert(es.last().id, es.last()@)
    }
}

/// The next id after loading `es` when it was `start` before.
pub open spec fn next_after(es: Seq<FileEntry>, start: int) -> int
    decreases es.len(),
{
    if es.len() == 0 {
        start
    } else {
        let n = next_after(es.drop_last(), start);
        if es.last().id >= n {
            es.last().id + 1
        } else {
            n
        }
    }
}

/// `s` cut to at most `n` elements (`Vec::truncate`).
pub open spec fn take_upto<A>(s: Seq<A>, n: int) -> Seq<A> {
    if n < s.len() {
        s.take(n)
    } else {
        s
    }
}

pub proof fn lemma_node_at_concat(n: TrieNode, q: Seq<u32>, p: Seq<u32>)
    ensures
        node_at(n, q + p) == match node_at(n, q) {
            Some(m) => node_at(m, p),
            None => None,
        },
    decreases q.len(),
{
    if q.len() > 0 {
        assert((q + p).drop_first() =~= q.drop_first() + p);
        assert((q + p)[0] == q[0]);
        if n.children@.contains_key(q[0]) {
            lemma_node_at_concat(*n.children@[q[0]], q.drop_first(), p);
        }
    } else {
        assert(q + p =~= p);
    }
}

proof fn lemma_node_at_cons(n: TrieNode, k: u32, p: Seq<u32>)
    ensures
        node_at(n, seq![k] + p) == if n.children@.contains_key(k) {
            node_at(*n.children@[k], p)
        } else {
            None
        },
{
    assert((seq![k] + p).drop_first() =~= p);
    assert((seq![k] + p)[0] == k);
}

/// Replacing the child under `k` changes only the paths that start with `k`.
proof fn lemma_replace_child(old_n: TrieNode, new_n: TrieNode, k: u32, b: Box<TrieNode>, p: Seq<u32>)
    requires
        new_n.children@ == old_n.children@.insert(k, b),
        new_n.file_ids@ == old_n.file_ids@,
        new_n.is_end == old_n.is_end,
    ensures
        p.len() == 0 ==> ids_at(new_n, p) == ids_at(old_n, p) && end_at(new_n, p) == end_at(old_n, p),
        p.len() > 0 && p[0] != k ==> node_at(new_n, p) == node_at(old_n, p),
        p.len() > 0 && p[0] == k ==> node_at(new_n, p) == node_at(*b, p.drop_first()),
{
}

/// The paths through child `k` of `n` read as the paths of `c`, where `c` is that child,
/// or an empty node when there is none.
proof fn lemma_child_or_empty(n: TrieNode, k: u32, c: TrieNode, q: Seq<u32>)
    requires
        n.children@.contains_key(k) ==> c == *n.children@[k],
        !n.children@.contains_key(k) ==> c.children@ == Map::<u32, Box<TrieNode>>::empty()
            && c.file_ids@ == Seq::<i64>::empty() && !c.is_end,
    ensures
        ids_at(n, seq![k] + q) == ids_at(c, q),
        end_at(n, seq![k] + q) == end_at(c, q),
{
    lemma_node_at_cons(n, k, q);
    if !n.children@.contains_key(k) {
        if q.len() > 0 {
            assert(node_at(c, q) is None);
        }
    }
}

proof fn lemma_keys_of_add(a: Seq<char>, b: Seq<char>)
    ensures
        keys_of(a + b) == keys_of(a) + keys_of(b),
{
    assert(keys_of(a + b) =~= keys_of(a) + keys_of(b));
}

proof fn lemma_keys_of_take(s: Seq<char>, i: int)
    requires
        0 <= i < s.len(),
    ensures
        keys_of(s.take(i + 1)) == keys_of(s.take(i)) + seq![s[i] as u32],
{
    assert(keys_of(s.take(i + 1)) =~= keys_of(s.take(i)) + seq![s[i] as u32]);
}

proof fn lemma_keys_of_skip(s: Seq<char>, i: int)
    requires
        0 <= i < s.len(),
    ensures
        keys_of(s.skip(i)) == seq![s[i] as u32] + keys_of(s.skip(i + 1)),
{
    assert(keys_of(s.skip(i)) =~= seq![s[i] as u32] + keys_of(s.skip(i + 1)));
}

/// Files `id` at path `keys_of(s[depth..])` below `node`, creating the missing nodes.
fn insert_path(node: &mut TrieNode, s: &Vec<char>, depth: usize, id: i64)
    requires
        depth <= s.len(),
    ensures
        forall|p: Seq<u32>|
            #![trigger ids_at(*final(node), p)]
            ids_at(*final(node), p) == if p == keys_of(s@.skip(depth as int)) {
                ids_at(*old(node), p).push(id)
            } else {
                ids_at(*old(node), p)
            },
        forall|p: Seq<u32>|
            #![trigger end_at(*final(node), p)]
            end_at(*final(node), p) == (end_at(*old(node), p) || p == keys_of(
                s@.skip(depth as int),
            )),
    decreases s.len() - depth,
{
    if depth == s.len() {
        node.is_end = true;
        node.file_ids.push(id);
        proof {
            assert(keys_of(s@.skip(depth as int)) =~= Seq::<u32>::empty());
            assert forall|p: Seq<u32>| #![trigger ids_at(*node, p)]
                ids_at(*node, p) == if p == keys_of(s@.skip(depth as int)) {
                    ids_at(*old(node), p).push(id)
                } else {
                    ids_at(*old(node), p)
                } by {
                if p.len() == 0 {
                    assert(p =~= keys_of(s@.skip(depth as int)));
                }
            }
            assert forall|p: Seq<u32>| #![trigger end_at(*node, p)]
                end_at(*node, p) == (end_at(*old(node), p) || p == keys_of(
                    s@.skip(depth as int),
                )) by {
                if p.len() == 0 {
                    assert(p =~= keys_of(s@.skip(depth as int)));
                }
            }
        }
        return ;
    }
    let k: u32 = s[depth] as u32;
    let ghost old_node = *node;
    let existing = node.children.remove(&k);
    let mut child: Box<TrieNode> = match existing {
        Some(c) => c,
        None => Box::new(TrieNode::new()),
    };
    let ghost c0 = *child;
    proof {
        assert(old_node.children@.contains_key(k) ==> c0 == *old_node.children@[k]);
    }
    insert_path(&mut *child, s, depth + 1, id);
    let ghost c1 = child;
    node.children.insert(k, child);
    proof {
        let tail = keys_of(s@.skip(depth + 1));
        lemma_keys_of_skip(s@, depth as int);
        assert(keys_of(s@.skip(depth as int)) == seq![k] + tail);
        assert(node.children@ =~= old_node.children@.insert(k, c1));
        assert forall|p: Seq<u32>| #![trigger ids_at(*node, p)]
            ids_at(*node, p) == if p == keys_of(s@.skip(depth as int)) {
                ids_at(*old(node), p).push(id)
            } else {
                ids_at(*old(node), p)
            } by {
            lemma_replace_child(old_node, *node, k, c1, p);
            if p.len() == 0 {
                assert(p != seq![k] + tail);
            } else {
                let q = p.drop_first();
                assert(p == seq![p[0]] + q);
                if p[0] == k {
                    lemma_child_or_empty(old_node, k, c0, q);
                    assert(node_at(*node, p) == node_at(*c1, q));
                    assert(ids_at(*node, p) == ids_at(*c1, q));
                    assert(ids_at(old_node, p) == ids_at(c0, q));
                    assert(old_node == *old(node));
                    if p == seq![k] + tail {
                        assert(q == tail);
                    } else {
                        assert(q != tail);
                    }
                } else {
                    assert(p != seq![k] + tail) by {
                        if p == seq![k] + tail {
                            assert(p[0] == k);
                        }
                    }
                }
            }
        }
        assert forall|p: Seq<u32>| #![trigger end_at(*node, p)]
            end_at(*node, p) == (end_at(*old(node), p) || p == keys_of(
                s@.skip(depth as int),
            )) by {
            lemma_replace_child(old_node, *node, k, c1, p);
            if p.len() == 0 {
                assert(p != seq![k] + tail);
            } else {
                let q = p.drop_first();
                assert(p == seq![p[0]] + q);
                if p[0] == k {
                    lemma_child_or_empty(old_node, k, c0, q);
                    assert(node_at(*node, p) == node_at(*c1, q));
                    assert(end_at(*node, p) == end_at(*c1, q));
                    assert(end_at(old_node, p) == end_at(c0, q));
                    assert(old_node == *old(node));
                    if p == seq![k] + tail {
                        assert(q == tail);
                    } else {
                        assert(q != tail);
                    }
                } else {
                    assert(p != seq![k] + tail) by {
                        if p == seq![k] + tail {
                            assert(p[0] == k);
                        }
                    }
                }
            }
        }
    }
}

/// Removes `id` from the ids filed at `keys_of(s[depth..])` when `at_end` holds, walking
/// only through nodes that exist.
fn remove_from_trie(node: &mut TrieNode, s: &Vec<char>, at_end: bool, id: i64, depth: usize)
    requires
        depth <= s.len(),
    ensures
        forall|p: Seq<u32>|
            #![trigger ids_at(*final(node), p)]
            ids_at(*final(node), p) == if at_end && p == keys_of(s@.skip(depth as int)) {
                ids_at(*old(node), p).filter(|x: i64| x != id)
            } else {
                ids_at(*old(node), p)
            },
        forall|p: Seq<u32>| #![trigger end_at(*final(node), p)] end_at(*final(node), p) == end_at(*old(node), p),
    decreases s.len() - depth,
{
    if depth == s.len() {
        if at_end {
            let mut kept: Vec<i64> = Vec::new();
            let mut i: usize = 0;
            while i < node.file_ids.len()
                invariant
                    i <= node.file_ids.len(),
                    kept@ == node.file_ids@.take(i as int).filter(|x: i64| x != id),
                decreases node.file_ids.len() - i,
            {
                let x = node.file_ids[i];
                proof {
                    reveal(Seq::filter);
                    assert(node.file_ids@.take(i + 1).drop_last() =~= node.file_ids@.take(
                        i as int,
                    ));
                }
                if x != id {
                    kept.push(x);
                }
                i = i + 1;
            }
            assert(node.file_ids@.take(node.file_ids.len() as int) =~= node.file_ids@);
            node.file_ids = kept;
        }
        proof {
            assert(keys_of(s@.skip(depth as int)) =~= Seq::<u32>::empty());
            assert forall|p: Seq<u32>| #![trigger ids_at(*node, p)]
                ids_at(*node, p) == if at_end && p == keys_of(s@.skip(depth as int)) {
                    ids_at(*old(node), p).filter(|x: i64| x != id)
                } else {
                    ids_at(*old(node), p)
                } by {
                if p.len() == 0 {
                    assert(p =~= keys_of(s@.skip(depth as int)));
                }
            }
            assert forall|p: Seq<u32>| #![trigger end_at(*node, p)]
                end_at(*node, p) == end_at(*old(node), p) by {
                if p.len() > 0 {
                }
            }
        }
        return ;
    }
    let k: u32 = s[depth] as u32;
    let ghost old_node = *node;
    proof {
        let tail = keys_of(s@.skip(depth + 1));
        lemma_keys_of_skip(s@, depth as int);
    }
    if node.children.contains_key(&k) {
        let existing = node.children.remove(&k);
        match existing {
            Some(mut child) => {
                let ghost c0 = *child;
                remove_from_trie(&mut *child, s, at_end, id, depth + 1);
                let ghost c1 = child;
                node.children.insert(k, child);
                proof {
                    let tail = keys_of(s@.skip(depth + 1));
                    assert(old_node.children@.contains_key(k) && c0 == *old_node.children@[k]);
                    assert(node.children@ =~= old_node.children@.insert(k, c1));
                    assert(old_node == *old(node));
                    assert forall|p: Seq<u32>| #![trigger ids_at(*node, p)]
                        ids_at(*node, p) == if at_end && p == keys_of(s@.skip(depth as int)) {
                            ids_at(*old(node), p).filter(|x: i64| x != id)
                        } else {
                            ids_at(*old(node), p)
                        } by {
                        lemma_replace_child(old_node, *node, k, c1, p);
                        if p.len() > 0 {
                            let q = p.drop_first();
                            assert(p == seq![p[0]] + q);
                            if p[0] == k {
                                lemma_child_or_empty(old_node, k, c0, q);
                                assert(node_at(*node, p) == node_at(*c1, q));
                                assert(ids_at(*node, p) == ids_at(*c1, q));
                                assert(ids_at(old_node, p) == ids_at(c0, q));
                                if p == seq![k] + tail {
                                    assert(q == tail);
                                } else {
                                    assert(q != tail);
                                }
                            } else {
                                assert(p != seq![k] + tail) by {
                                    if p == seq![k] + tail {
                                        assert(p[0] == k);
                                    }
                                }
                            }
                        } else {
                            assert(p != seq![k] + tail);
                        }
                    }
                    assert forall|p: Seq<u32>| #![trigger end_at(*node, p)]
                        end_at(*node, p) == end_at(*old(node), p) by {
                        lemma_replace_child(old_node, *node, k, c1, p);
                        if p.len() > 0 {
                            let q = p.drop_first();
                            assert(p == seq![p[0]] + q);
                            if p[0] == k {
                                lemma_child_or_empty(old_node, k, c0, q);
                                assert(node_at(*node, p) == node_at(*c1, q));
                                assert(end_at(*node, p) == end_at(*c1, q));
                                assert(end_at(old_node, p) == end_at(c0, q));
                            }
                        }
                    }
                }
            },
            None => {},
        }
    } else {
        proof {
            let tail = keys_of(s@.skip(depth + 1));
            assert forall|p: Seq<u32>|
                at_end && p == keys_of(s@.skip(depth as int)) implies (#[trigger] ids_at(
                *old(node),
                p,
            )).filter(|x: i64| x != id) == ids_at(*old(node), p) by {
                lemma_node_at_cons(old_node, k, tail);
                assert(ids_at(old_node, p) =~= Seq::<i64>::empty());
                reveal(Seq::filter);
                assert(Seq::<i64>::empty().filter(|x: i64| x != id) =~= Seq::<i64>::empty());
            }
        }
    }
}

/// Appends every id filed below `node` to `ids`, in the order in which the children are
/// walked.
fn collect_ids(node: &TrieNode, ids: &mut Vec<i64>)
    ensures
        final(ids)@.to_set() == old(ids)@.to_set() + subtree_ids(*node),
    decreases *node,
{
    let mut k: usize = 0;
    while k < node.file_ids.len()
        invariant
            k <= node.file_ids.len(),
            ids@ == old(ids)@ + node.file_ids@.take(k as int),
        decreases node.file_ids.len() - k,
    {
        ids.push(node.file_ids[k]);
        k = k + 1;
        assert(ids@ =~= old(ids)@ + node.file_ids@.take(k as int));
    }
    assert(node.file_ids@.take(k as int) =~= node.file_ids@);
    let ghost base = ids@;
    let ghost vs = vstd::std_specs::hash::spec_values_iter(&node.children).remaining();
    proof {
        broadcast use vstd::std_specs::hash::axiom_spec_values_iter;
        assert(vs.unref().to_set() == node.children@.values());
    }
    for child in it: node.children.values()
        invariant
            base == old(ids)@ + node.file_ids@,
            it.seq() == vs,
            vs.unref().to_set() == node.children@.values(),
            forall|x: i64|
                #![trigger ids@.to_set().contains(x)]
                ids@.to_set().contains(x) <==> (base.to_set().contains(x) || exists|j: int|
                    0 <= j < it.index() && #[trigger] subtree_ids(**vs[j]).contains(x)),
    {
        proof {
            assert(vs.unref()[it.index() as int] == *child);
            assert(vs.unref().to_set().contains(*child));
            assert(node.children@.values().contains(*child));
            let key = choose|key: u32|
                node.children@.contains_key(key) && node.children@[key] == *child;
            assert(decreases_to!(node.children => node.children@));
            assert(decreases_to!(node.children@ => node.children@[key]));
        }
        collect_ids(child, ids);
    }
    proof {
        let n = *node;
        assert forall|x: i64|
            #![trigger ids@.to_set().contains(x)]
            ids@.to_set().contains(x) == (old(ids)@.to_set() + subtree_ids(n)).contains(x) by {
            if ids@.to_set().contains(x) {
                if base.to_set().contains(x) {
                    let i = choose|i: int| 0 <= i < base.len() && base[i] == x;
                    if i >= old(ids)@.len() {
                        assert(n.file_ids@[i - old(ids)@.len()] == x);
                        assert(ids_at(n, Seq::<u32>::empty()).contains(x));
                        assert(subtree_ids(n).contains(x));
                    } else {
                        assert(old(ids)@[i] == x);
                        assert(old(ids)@.to_set().contains(x));
                    }
                } else {
                    let j = choose|j: int| 0 <= j < vs.len() && #[trigger] subtree_ids(**vs[j]).contains(x);
                    let c: Box<TrieNode> = *vs[j];
                    assert(vs.unref()[j] == c);
                    assert(vs.unref().to_set().contains(c));
                    let key = choose|key: u32| n.children@.contains_key(key) && n.children@[key] == c;
                    let p = choose|p: Seq<u32>| #[trigger] ids_at(*c, p).contains(x);
                    lemma_node_at_cons(n, key, p);
                    assert(ids_at(n, seq![key] + p).contains(x));
                    assert(subtree_ids(n).contains(x));
                }
            }
            if (old(ids)@.to_set() + subtree_ids(n)).contains(x) {
                if old(ids)@.to_set().contains(x) {
                    let i = choose|i: int| 0 <= i < old(ids)@.len() && old(ids)@[i] == x;
                    assert(base[i] == x);
                    assert(base.to_set().contains(x));
                } else {
                    let p = choose|p: Seq<u32>| #[trigger] ids_at(n, p).contains(x);
                    if p.len() == 0 {
                        let i = choose|i: int| 0 <= i < n.file_ids@.len() && n.file_ids@[i] == x;
                        assert(base[old(ids)@.len() + i] == x);
                        assert(base.to_set().contains(x));
                    } else {
                        let key = p[0];
                        let q = p.drop_first();
                        assert(p == seq![key] + q);
                        lemma_node_at_cons(n, key, q);
                        assert(n.children@.contains_key(key));
                        let c = n.children@[key];
                        assert(n.children@.values().contains(c));
                        assert(vs.unref().to_set().contains(c));
                        let j = choose|j: int| 0 <= j < vs.unref().len() && vs.unref()[j] == c;
                        assert(*vs[j] == c);
                        assert(ids_at(*c, q).contains(x));
                        assert(subtree_ids(**vs[j]).contains(x));
                    }
                }
            }
        }
        assert(ids@.to_set() =~= old(ids)@.to_set() + subtree_ids(n));
    }
}

/// Position of the last occurrence of `c`.
pub fn rfind_char(s: &Vec<char>, c: char) -> (r: Option<usize>)
    ensures
        match r {
            Some(k) => last_index_of(s@, c) == Some(k as int),
            None => last_index_of(s@, c) is None,
        },
{
    let mut i = s.len();
    assert(s@.take(i as int) =~= s@);
    while i > 0
        invariant
            i <= s.len(),
            last_index_of(s@, c) == last_index_of(s@.take(i as int), c),
        decreases i,
    {
        assert(s@.take(i as int).drop_last() =~= s@.take(i - 1));
        if s[i - 1] == c {
            return Some(i - 1);
        }
        i = i - 1;
    }
    None
}

/// Whether every character is ASCII.
pub fn is_all_ascii(s: &Vec<char>) -> (r: bool)
    ensures
        r == all_ascii(s@),
{
    let mut i: usize = 0;
    while i < s.len()
        invariant
            i <= s.len(),
            forall|j: int| 0 <= j < i ==> crate::text::is_ascii_char(#[trigger] s@[j]),
        decreases s.len() - i,
    {
        if (s[i] as u32) >= 128 {
            return false;
        }
        i = i + 1;
    }
    true
}

pub proof fn lemma_filter_all<A>(s: Seq<A>, p: spec_fn(A) -> bool)
    requires
        forall|k: int| 0 <= k < s.len() ==> p(#[trigger] s[k]),
    ensures
        s.filter(p) == s,
    decreases s.len(),
{
    reveal(Seq::filter);
    if s.len() > 0 {
        lemma_filter_all(s.drop_last(), p);
        assert(s.drop_last().push(s.last()) =~= s);
    } else {
        assert(s.filter(p) =~= s);
    }
}

/// The ids of the entries at a path.
pub open spec fn path_ids(m: Map<i64, FileEntryView>, path: Seq<char>) -> Set<i64> {
    m.dom().filter(|id: i64| m[id].path == path)
}

/// An entry with its id replaced.
pub open spec fn with_id(e: FileEntryView, id: i64) -> FileEntryView {
    FileEntryView {
        id: id,
        name: e.name,
        path: e.path,
        parent_path: e.parent_path,
        size: e.size,
        created: e.created,
        modified: e.modified,
        accessed: e.accessed,
        is_dir: e.is_dir,
        is_hidden: e.is_hidden,
        is_readonly: e.is_readonly,
        extension: e.extension,
        volume: e.volume,
    }
}

/// An inserted entry is found by every prefix of its lower-cased name: when `after` is
/// `before` with `id` filed under `name` (what `insert` does), `id` is among the ids
/// under every query whose lower-cased form starts the lower-cased name.
pub proof fn lemma_insert_found_by_prefix(
    before: TrieIndex,
    after: TrieIndex,
    name: Seq<char>,
    id: i64,
    q: Seq<char>,
)
    requires
        forall|p: Seq<u32>| #![trigger after.key_ids(p)]
            after.key_ids(p) == before.key_ids(p) + filed_at(lowercase(name), id, p),
        lowercase(q).len() <= lowercase(name).len(),
        lowercase(name).take(lowercase(q).len() as int) == lowercase(q),
    ensures
        after.ids_below_prefix(q).contains(id),
{
    let ln = lowercase(name);
    let lq = lowercase(q);
    let rest = keys_of(ln.skip(lq.len() as int));
    assert(keys_of(lq) + rest =~= keys_of(ln));
    let full = keys_of(lq) + rest;
    assert(filed_at(ln, id, full).contains(id)) by {
        assert(filed_at(ln, id, full)[0] == id);
    }
    assert(after.key_ids(full) == before.key_ids(full) + filed_at(ln, id, full));
    assert(after.key_ids(full)[before.key_ids(full).len() as int] == id);
    assert(after.key_ids(keys_of(lq) + rest).contains(id));
}

/// A removed entry is not among the results of any prefix search.
pub proof fn lemma_removed_not_found(t: TrieIndex, id: i64, q: Seq<char>, max: int)
    requires
        t.wf(),
        !t.entries_view().contains_key(id),
    ensures
        forall|k: int| 0 <= k < t.prefix_results(q, max).len() ==> #[trigger] t.prefix_results(q, max)[k].id != id,
{
    let l = take_upto(ascending(t.ids_below_prefix(q)), max).filter(
        |x: i64| t.entries_view().contains_key(x),
    );
    assert forall|k: int| 0 <= k < t.prefix_results(q, max).len() implies #[trigger] t.prefix_results(q, max)[k].id != id by {
        let x = l[k];
        broadcast use vstd::seq_lib::group_filter_ensures;
        assert(t.entries_view().contains_key(x));
        assert(t.entries@.contains_key(x));
        assert(t.entries_view()[x].id == x);
    }
}

/// Mapping ids to entries commutes with keeping those that satisfy a test, when the test
/// on an id is the test on its entry.
pub proof fn lemma_map_filter(
    l: Seq<i64>,
    f: spec_fn(i64) -> FileEntryView,
    p: spec_fn(i64) -> bool,
    pe: spec_fn(FileEntryView) -> bool,
)
    requires
        forall|i: int| 0 <= i < l.len() ==> p(#[trigger] l[i]) == pe(f(l[i])),
    ensures
        l.filter(p).map_values(f) == l.map_values(f).filter(pe),
    decreases l.len(),
{
    reveal(Seq::filter);
    if l.len() > 0 {
        assert forall|i: int| 0 <= i < l.drop_last().len() implies p(#[trigger] l.drop_last()[i]) == pe(f(l.drop_last()[i])) by {
            assert(l.drop_last()[i] == l[i]);
        }
        lemma_map_filter(l.drop_last(), f, p, pe);
        assert(l.last() == l[l.len() - 1]);
        assert(l.map_values(f).drop_last() =~= l.drop_last().map_values(f));
        assert(l.map_values(f).last() == f(l.last()));
        assert(p(l.last()) == pe(f(l.last())));
        if p(l.last()) {
            assert(l.filter(p).map_values(f) =~= l.drop_last().filter(p).map_values(f).push(f(l.last())));
        }
    } else {
        assert(l.filter(p).map_values(f) =~= l.map_values(f).filter(pe));
    }
}

/// Cutting a list of ids and then looking up their entries is looking them up and then
/// cutting.
pub proof fn lemma_take_upto_map(l: Seq<i64>, f: spec_fn(i64) -> FileEntryView, n: int)
    requires
        n >= 0,
    ensures
        take_upto(l, n).map_values(f) == take_upto(l.map_values(f), n),
{
    if n < l.len() {
        assert(take_upto(l, n) == l.take(n));
        assert(take_upto(l.map_values(f), n) == l.map_values(f).take(n));
        assert(l.take(n).map_values(f) =~= l.map_values(f).take(n));
    } else {
        assert(take_upto(l, n) == l);
    }
}

/// Inserting gives the new entry an id above every id in the index and appends it to
/// the entries in id order; the next insert gets the id after it. Stated of `before` and
/// `after` related as `insert`'s contract relates them.
pub proof fn lemma_insert_appends(before: TrieIndex, after: TrieIndex, e: FileEntryView, r: i64)
    requires
        before.wf(),
        after.wf(),
        r == before.next_id_view(),
        after.next_id_view() == r + 1,
        after.entries_view() == before.entries_view().insert(r, with_id(e, r)),
    ensures
        forall|k: i64| #[trigger] before.entries_view().contains_key(k) ==> k < r,
        after.ordered() == before.ordered().push(with_id(e, r)),
        after.next_id_view() == r + 1,
{
    before.lemma_entry_ids();
    after.lemma_entry_ids();
    let l = ascending(before.entries_view().dom());
    let m = l.push(r);
    assert forall|k: int| 0 <= k < l.len() implies l[k] < r by {
        assert(l.to_set().contains(l[k]));
    }
    assert(strictly_increasing(m));
    assert(m.to_set() =~= after.entries_view().dom()) by {
        assert forall|x: i64| m.to_set().contains(x) implies after.entries_view().dom().contains(x) by {
            let k = choose|k: int| 0 <= k < m.len() && m[k] == x;
            if k < l.len() {
                assert(l.to_set().contains(x));
            }
        }
        assert forall|x: i64| after.entries_view().dom().contains(x) implies m.to_set().contains(x) by {
            if x == r {
                assert(m[l.len() as int] == x);
            } else {
                assert(l.to_set().contains(x));
                let k = choose|k: int| 0 <= k < l.len() && l[k] == x;
                assert(m[k] == x);
            }
        }
    }
    lemma_ascending_is(m, after.entries_view().dom());
    assert forall|k: int| 0 <= k < l.len() implies after.entries_view()[l[k]] == before.entries_view()[l[k]] by {
        assert(l.to_set().contains(l[k]));
    }
    assert(after.ordered() =~= before.ordered().push(with_id(e, r)));
}

/// The entries numbered 1, 2, ... in order.
pub open spec fn numbered(es: Seq<FileEntryView>) -> Seq<FileEntryView> {
    Seq::new(es.len(), |i: int| with_id(es[i], (i + 1) as i64))
}

/// After any number of inserts into a new index, the entries in id order are the
/// inserted entries, numbered 1, 2, ... in the order they were inserted, and the next
/// id is one past their count. `ts` are the successive indexes, related as `new` and
/// `insert`'s contracts relate them.
pub proof fn lemma_inserts_numbered(ts: Seq<TrieIndex>, es: Seq<FileEntryView>)
    requires
        ts.len() == es.len() + 1,
        ts[0].wf(),
        ts[0].entries_view() == Map::<i64, FileEntryView>::empty(),
        ts[0].next_id_view() == 1,
        forall|i: int| 0 <= i < es.len() ==> {
            &&& (#[trigger] ts[i + 1]).wf()
            &&& ts[i + 1].next_id_view() == ts[i].next_id_view() + 1
            &&& ts[i + 1].entries_view() == ts[i].entries_view().insert(
                ts[i].next_id_view(),
                with_id(es[i], ts[i].next_id_view()),
            )
        },
    ensures
        ts.last().ordered() == numbered(es),
        ts.last().next_id_view() == es.len() + 1,
    decreases es.len(),
{
    if es.len() == 0 {
        assert(ts[0].entries_view().dom() =~= Set::<i64>::empty());
        assert(Seq::<i64>::empty().to_set() =~= Set::<i64>::empty());
        lemma_ascending_is(Seq::<i64>::empty(), Set::<i64>::empty());
        assert(ts.last().ordered() =~= numbered(es));
    } else {
        let n = es.len() - 1;
        let ts0 = ts.drop_last();
        let es0 = es.drop_last();
        assert forall|i: int| 0 <= i < es0.len() implies {
            &&& (#[trigger] ts0[i + 1]).wf()
            &&& ts0[i + 1].next_id_view() == ts0[i].next_id_view() + 1
            &&& ts0[i + 1].entries_view() == ts0[i].entries_view().insert(
                ts0[i].next_id_view(),
                with_id(es0[i], ts0[i].next_id_view()),
            )
        } by {
            assert(ts0[i + 1] == ts[i + 1] && ts0[i] == ts[i] && es0[i] == es[i]);
        }
        lemma_inserts_numbered(ts0, es0);
        let before = ts[n];
        let after = ts[n + 1];
        if n > 0 {
            assert(ts[(n - 1) + 1].wf());
        }
        assert(before.wf());
        assert(ts0.last() == before);
        assert(after == ts.last());
        assert(after.wf());
        lemma_insert_appends(before, after, es[n], before.next_id_view());
        assert(numbered(es) =~= numbered(es0).push(with_id(es[n], (n + 1) as i64)));
    }
}

/// Removing an id takes its entry out of the entries in id order, and no search by name
/// or path, nor any prefix search, finds it afterwards. Stated of `before` and `after`
/// related as `remove`'s contract relates them.
pub proof fn lemma_remove_drops(before: TrieIndex, after: TrieIndex, id: i64)
    requires
        before.wf(),
        after.wf(),
        after.entries_view() == before.entries_view().remove(id),
    ensures
        after.ordered() == before.ordered().filter(|e: FileEntryView| e.id != id),
        forall|q: Seq<char>| !(#[trigger] after.name_matches(q)).contains(id),
        forall|q: Seq<char>| !(#[trigger] after.path_matches(q)).contains(id),
        forall|q: Seq<char>, max: int, k: int|
            0 <= k < after.prefix_results(q, max).len() ==> #[trigger] after.prefix_results(q, max)[k].id != id,
{
    before.lemma_entry_ids();
    after.lemma_entry_ids();
    let l = ascending(before.entries_view().dom());
    let p = |x: i64| x != id;
    lemma_filter_ascending(l, p);
    assert(l.to_set().filter(p) =~= after.entries_view().dom());
    lemma_ascending_is(l.filter(p), after.entries_view().dom());
    let fb = |x: i64| before.entries_view()[x];
    let fa = |x: i64| after.entries_view()[x];
    let pe = |e: FileEntryView| e.id != id;
    assert forall|i: int| 0 <= i < l.len() implies p(#[trigger] l[i]) == pe(fb(l[i])) by {
        assert(l.to_set().contains(l[i]));
    }
    lemma_map_filter(l, fb, p, pe);
    assert(l.filter(p).map_values(fa) =~= l.filter(p).map_values(fb)) by {
        broadcast use vstd::seq_lib::group_filter_ensures;
        assert forall|k: int| 0 <= k < l.filter(p).len() implies fa(#[trigger] l.filter(p)[k]) == fb(l.filter(p)[k]) by {
            assert(p(l.filter(p)[k]));
        }
    }
    assert forall|q: Seq<char>| !(#[trigger] after.name_matches(q)).contains(id) by {}
    assert forall|q: Seq<char>| !(#[trigger] after.path_matches(q)).contains(id) by {}
    assert forall|q: Seq<char>, max: int, k: int|
        0 <= k < after.prefix_results(q, max).len() implies #[trigger] after.prefix_results(q, max)[k].id != id by {
        lemma_removed_not_found(after, id, q, max);
    }
}

/// A search by name or by path is the entries in id order whose lower-cased name (or
/// path) contains the lower-cased query, cut to `n`.
pub proof fn lemma_field_search_is_filter(t: TrieIndex, q: Seq<char>, n: int)
    requires
        t.wf(),
        n >= 0,
    ensures
        t.entries_of(take_upto(ascending(t.name_matches(q)), n)) == take_upto(
            t.ordered().filter(|e: FileEntryView| contains(lowercase(e.name), lowercase(q))),
            n,
        ),
        t.entries_of(take_upto(ascending(t.path_matches(q)), n)) == take_upto(
            t.ordered().filter(|e: FileEntryView| contains(lowercase(e.path), lowercase(q))),
            n,
        ),
{
    t.lemma_entry_ids();
    let ev = t.entries_view();
    let l = ascending(ev.dom());
    let f = |x: i64| ev[x];
    let pn = |x: i64| contains(lowercase(ev[x].name), lowercase(q));
    let pp = |x: i64| contains(lowercase(ev[x].path), lowercase(q));
    let en = |e: FileEntryView| contains(lowercase(e.name), lowercase(q));
    let ep = |e: FileEntryView| contains(lowercase(e.path), lowercase(q));
    lemma_filter_ascending(l, pn);
    lemma_filter_ascending(l, pp);
    assert(l.to_set().filter(pn) =~= t.name_matches(q));
    assert(l.to_set().filter(pp) =~= t.path_matches(q));
    lemma_ascending_is(l.filter(pn), t.name_matches(q));
    lemma_ascending_is(l.filter(pp), t.path_matches(q));
    lemma_map_filter(l, f, pn, en);
    lemma_map_filter(l, f, pp, ep);
    lemma_take_upto_map(l.filter(pn), f, n);
    lemma_take_upto_map(l.filter(pp), f, n);
    assert(t.ordered() == l.map_values(f));
}

/// Filing entries in turn files each of them under its own lower-cased name.
proof fn lemma_filed_all_has(es: Seq<FileEntry>, i: int)
    requires
        0 <= i < es.len(),
    ensures
        filed_all(es, keys_of(lowercase(es[i].name@))).contains(es[i].id),
    decreases es.len(),
{
    let p = keys_of(lowercase(es[i].name@));
    if i == es.len() - 1 {
        let a = filed_all(es.drop_last(), p);
        let b = filed_at(lowercase(es.last().name@), es.last().id, p);
        assert(es.last() == es[i]);
        assert(b[0] == es[i].id);
        assert((a + b)[a.len() as int] == es[i].id);
    } else {
        assert(es.drop_last()[i] == es[i]);
        lemma_filed_all_has(es.drop_last(), i);
        let a = filed_all(es.drop_last(), p);
        let j = choose|j: int| 0 <= j < a.len() && a[j] == es[i].id;
        let b = filed_at(lowercase(es.last().name@), es.last().id, p);
        assert((a + b)[j] == es[i].id);
    }
}

/// After loading, every loaded entry is found by a prefix search on its own name: its id
/// is among the ids under every query whose lower-cased form starts its lower-cased
/// name. Stated of an index whose trie holds what `load_entries` files.
pub proof fn lemma_loaded_found_by_prefix(t: TrieIndex, entries: Seq<FileEntry>, i: int, q: Seq<char>)
    requires
        forall|p: Seq<u32>| #![trigger t.key_ids(p)] t.key_ids(p) == filed_all(entries, p),
        0 <= i < entries.len(),
        lowercase(q).len() <= lowercase(entries[i].name@).len(),
        lowercase(entries[i].name@).take(lowercase(q).len() as int) == lowercase(q),
    ensures
        t.ids_below_prefix(q).contains(entries[i].id),
{
    let ln = lowercase(entries[i].name@);
    let lq = lowercase(q);
    let rest = keys_of(ln.skip(lq.len() as int));
    assert(ln =~= lq + ln.skip(lq.len() as int));
    lemma_keys_of_add(lq, ln.skip(lq.len() as int));
    assert(keys_of(lq) + rest == keys_of(ln));
    lemma_filed_all_has(entries, i);
    assert(t.key_ids(keys_of(ln)) == filed_all(entries, keys_of(ln)));
    assert(t.key_ids(keys_of(lq) + rest).contains(entries[i].id));
}

/// The ids that a list of entries gives are pairwise different.
pub open spec fn distinct_entry_ids(es: Seq<FileEntry>) -> bool {
    forall|i: int, j: int| 0 <= i < j < es.len() ==> es[i].id != es[j].id
}

/// A text filed under a path that starts with the codes of `lq` starts with `lq`.
proof fn lemma_keys_prefix(x: Seq<char>, lq: Seq<char>, p: Seq<u32>)
    requires
        keys_of(x) == keys_of(lq) + p,
    ensures
        starts_with(x, lq),
{
    assert(keys_of(x).len() == x.len());
    assert(keys_of(lq).len() == lq.len());
    assert(x.len() >= lq.len());
    assert forall|k: int| 0 <= k < lq.len() implies x[k] == lq[k] by {
        assert(keys_of(x)[k] == (keys_of(lq) + p)[k]);
        assert(keys_of(lq)[k] == lq[k] as u32);
        let a = x[k];
        let b = lq[k];
        assert(a as u32 == b as u32);
        vstd::utf8::char_u32_cast(a, a as u32);
        vstd::utf8::char_u32_cast(b, b as u32);
    }
    assert(x.take(lq.len() as int) =~= lq);
}

/// An id filed at a path was filed for one of the entries, under its lower-cased name or
/// its stem.
proof fn lemma_filed_all_member(es: Seq<FileEntry>, p: Seq<u32>, id: i64)
    requires
        filed_all(es, p).contains(id),
    ensures
        exists|i: int| 0 <= i < es.len() && (#[trigger] es[i]).id == id && (keys_of(
            lowercase(es[i].name@),
        ) == p || (stem_of(lowercase(es[i].name@)) matches Some(st) && keys_of(st) == p)),
    decreases es.len(),
{
    let a = filed_all(es.drop_last(), p);
    let last = es.last();
    let b = filed_at(lowercase(last.name@), last.id, p);
    assert(filed_all(es, p) == a + b);
    let k = choose|k: int| 0 <= k < (a + b).len() && (a + b)[k] == id;
    if k < a.len() {
        assert(a[k] == id);
        lemma_filed_all_member(es.drop_last(), p, id);
        let i = choose|i: int| 0 <= i < es.drop_last().len() && (#[trigger] es.drop_last()[i]).id == id && (keys_of(
            lowercase(es.drop_last()[i].name@),
        ) == p || (stem_of(lowercase(es.drop_last()[i].name@)) matches Some(st) && keys_of(st) == p));
        assert(es[i] == es.drop_last()[i]);
    } else {
        assert(b[k - a.len()] == id);
        assert(es[es.len() - 1] == last);
    }
}

/// With pairwise different ids, the map of the entries gives each entry under its id.
pub(crate) proof fn lemma_map_of_at(es: Seq<FileEntry>, i: int)
    requires
        distinct_entry_ids(es),
        0 <= i < es.len(),
    ensures
        map_of(es).contains_key(es[i].id),
        map_of(es)[es[i].id] == es[i]@,
    decreases es.len(),
{
    if i < es.len() - 1 {
        assert(distinct_entry_ids(es.drop_last()));
        assert(es.drop_last()[i] == es[i]);
        lemma_map_of_at(es.drop_last(), i);
        assert(es[i].id != es[es.len() - 1].id);
    } else {
        assert(es.last() == es[i]);
    }
}

/// After loading entries with pairwise different ids, a prefix search is the entries in
/// id order whose lower-cased name starts with the lower-cased query, cut to `n`.
/// Stated of an index whose contents are what `load_entries` leaves.
pub proof fn lemma_loaded_prefix_is_filter(t: TrieIndex, entries: Seq<FileEntry>, q: Seq<char>, n: int)
    requires
        t.wf(),
        distinct_entry_ids(entries),
        t.entries_view() == map_of(entries),
        forall|p: Seq<u32>| #![trigger t.key_ids(p)] t.key_ids(p) == filed_all(entries, p),
        n >= 0,
    ensures
        t.prefix_results(q, n) == take_upto(
            t.ordered().filter(|e: FileEntryView| starts_with(lowercase(e.name), lowercase(q))),
            n,
        ),
{
    broadcast use vstd::seq_lib::group_filter_ensures;

    t.lemma_entry_ids();
    let ev = t.entries_view();
    let lq = lowercase(q);
    let pid = |x: i64| starts_with(lowercase(ev[x].name), lq);
    let pe = |e: FileEntryView| starts_with(lowercase(e.name), lq);
    assert(t.ids_below_prefix(q) =~= ev.dom().filter(pid)) by {
        assert forall|id: i64| t.ids_below_prefix(q).contains(id) implies ev.dom().filter(pid).contains(id) by {
            let p = choose|p: Seq<u32>| #[trigger] t.key_ids(keys_of(lq) + p).contains(id);
            assert(filed_all(entries, keys_of(lq) + p).contains(id));
            lemma_filed_all_member(entries, keys_of(lq) + p, id);
            let i = choose|i: int| 0 <= i < entries.len() && (#[trigger] entries[i]).id == id && (keys_of(
                lowercase(entries[i].name@),
            ) == keys_of(lq) + p || (stem_of(lowercase(entries[i].name@)) matches Some(st) && keys_of(st)
                == keys_of(lq) + p));
            lemma_map_of_at(entries, i);
            let ln = lowercase(entries[i].name@);
            if keys_of(ln) == keys_of(lq) + p {
                lemma_keys_prefix(ln, lq, p);
            } else {
                let st = stem_of(ln)->0;
                lemma_keys_prefix(st, lq, p);
                lemma_last_index_of(ln, '.');
                let d = last_index_of(ln, '.')->0;
                assert(st == ln.take(d));
                assert(ln.take(lq.len() as int) =~= st.take(lq.len() as int));
            }
        }
        assert forall|id: i64| ev.dom().filter(pid).contains(id) implies t.ids_below_prefix(q).contains(id) by {
            assert(map_of(entries).contains_key(id));
            lemma_map_of_dom(entries, id);
            let i = choose|i: int| 0 <= i < entries.len() && (#[trigger] entries[i]).id == id;
            lemma_map_of_at(entries, i);
            lemma_loaded_found_by_prefix(t, entries, i, q);
        }
    }
    let l = ascending(ev.dom());
    crate::order::lemma_filter_ascending(l, pid);
    assert(l.to_set().filter(pid) =~= t.ids_below_prefix(q));
    lemma_ascending_is(l.filter(pid), t.ids_below_prefix(q));
    let cut = take_upto(l.filter(pid), n);
    let in_dom = |id: i64| ev.contains_key(id);
    assert forall|k: int| 0 <= k < cut.len() implies in_dom(#[trigger] cut[k]) by {
        assert(cut[k] == l.filter(pid)[k]);
        assert(l.filter(pid).to_set().contains(l.filter(pid)[k]));
    }
    lemma_filter_all(cut, in_dom);
    let f = |x: i64| ev[x];
    assert forall|i: int| 0 <= i < l.len() implies pid(#[trigger] l[i]) == pe(f(l[i])) by {}
    lemma_map_filter(l, f, pid, pe);
    lemma_take_upto_map(l.filter(pid), f, n);
    assert(t.ordered() == l.map_values(f));
}

/// Inserting into an index that holds what loading a list of entries with pairwise
/// different ids leaves gives what loading that list with the new entry (under its new
/// id) appended leaves. With `new()` (the empty list) and `load_entries` as starts, every
/// index built by loading and inserting alone thus has the form that
/// `lemma_loaded_prefix_is_filter` speaks of.
pub proof fn lemma_insert_keeps_loaded(
    before: TrieIndex,
    after: TrieIndex,
    es: Seq<FileEntry>,
    entry: FileEntry,
    r: i64,
)
    requires
        before.wf(),
        distinct_entry_ids(es),
        before.entries_view() == map_of(es),
        forall|p: Seq<u32>| #![trigger before.key_ids(p)] before.key_ids(p) == filed_all(es, p),
        r == before.next_id_view(),
        after.entries_view() == before.entries_view().insert(r, with_id(entry@, r)),
        forall|p: Seq<u32>| #![trigger after.key_ids(p)]
            after.key_ids(p) == before.key_ids(p) + filed_at(lowercase(entry.name@), r, p),
    ensures
        distinct_entry_ids(es.push(FileEntry { id: r, ..entry })),
        after.entries_view() == map_of(es.push(FileEntry { id: r, ..entry })),
        forall|p: Seq<u32>| #![trigger after.key_ids(p)]
            after.key_ids(p) == filed_all(es.push(FileEntry { id: r, ..entry }), p),
{
    before.lemma_entry_ids();
    let e2 = FileEntry { id: r, ..entry };
    let n = es.push(e2);
    assert(n.drop_last() =~= es);
    assert(n.last() == e2);
    assert forall|i: int, j: int| 0 <= i < j < n.len() implies n[i].id != n[j].id by {
        if j == es.len() {
            lemma_map_of_at(es, i);
            assert(before.entries_view().contains_key(es[i].id));
            assert(n[i] == es[i]);
        } else {
            assert(n[i] == es[i] && n[j] == es[j]);
        }
    }
    assert(e2@ == with_id(entry@, r));
    assert(after.entries_view() =~= map_of(n));
    assert forall|p: Seq<u32>| #![trigger after.key_ids(p)] after.key_ids(p) == filed_all(n, p) by {
        assert(filed_all(n, p) == filed_all(es, p) + filed_at(lowercase(e2.name@), r, p));
    }
}

/// Every key of the map of entries is the id of one of them.
pub(crate) proof fn lemma_map_of_dom(es: Seq<FileEntry>, id: i64)
    requires
        map_of(es).contains_key(id),
    ensures
        exists|i: int| 0 <= i < es.len() && (#[trigger] es[i]).id == id,
    decreases es.len(),
{
    if es.last().id == id {
        assert(es[es.len() - 1].id == id);
    } else {
        lemma_map_of_dom(es.drop_last(), id);
        let i = choose|i: int| 0 <= i < es.drop_last().len() && (#[trigger] es.drop_last()[i]).id == id;
        assert(es[i] == es.drop_last()[i]);
    }
}

/// `p` starts `k`.
pub open spec fn code_prefix(p: Seq<u32>, k: Seq<u32>) -> bool {
    p.len() <= k.len() && k.take(p.len() as int) == p
}

/// A lower-cased name's stem starts the name, and so do their codes.
proof fn lemma_filed_at_prefix(lower: Seq<char>, id: i64, p: Seq<u32>, x: i64)
    requires
        filed_at(lower, id, p).contains(x),
    ensures
        x == id,
        code_prefix(p, keys_of(lower)),
{
    let a: Seq<i64> = if keys_of(lower) == p { seq![id] } else { Seq::empty() };
    let b: Seq<i64> = match stem_of(lower) {
        Some(st) => if keys_of(st) == p { seq![id] } else { Seq::empty() },
        None => Seq::empty(),
    };
    assert(filed_at(lower, id, p) == a + b);
    let k = choose|k: int| 0 <= k < (a + b).len() && (a + b)[k] == x;
    if k < a.len() {
        assert(keys_of(lower).take(p.len() as int) =~= p);
    } else {
        assert(b[k - a.len()] == x);
        lemma_last_index_of(lower, '.');
        let d = last_index_of(lower, '.')->0;
        let st = lower.take(d);
        assert(keys_of(lower).take(d) =~= keys_of(st));
    }
}

/// A new index holds what `names_filed` asks.
proof fn lemma_new_names_filed(t: TrieIndex)
    requires
        t.entries_view() == Map::<i64, FileEntryView>::empty(),
        forall|p: Seq<u32>| #[trigger] t.key_ids(p) == Seq::<i64>::empty(),
    ensures
        t.names_filed(),
{
    assert(t.filed_ids() =~= Set::<i64>::empty());
}

/// Inserting keeps the trie and the entries in agreement.
pub proof fn lemma_insert_names_filed(before: TrieIndex, after: TrieIndex, name: Seq<char>, e: FileEntryView, r: i64)
    requires
        before.wf(),
        before.names_filed(),
        e.name == name,
        r == before.next_id_view(),
        after.next_id_view() == r + 1,
        after.entries_view() == before.entries_view().insert(r, with_id(e, r)),
        forall|p: Seq<u32>| #![trigger after.key_ids(p)]
            after.key_ids(p) == before.key_ids(p) + filed_at(lowercase(name), r, p),
    ensures
        after.names_filed(),
{
    let ln = lowercase(name);
    assert forall|p: Seq<u32>, id: i64| #[trigger] after.key_ids(p).contains(id) implies (before.key_ids(p).contains(id)
        && id < r) || (id == r && code_prefix(p, keys_of(ln))) by {
        let a = before.key_ids(p);
        let b = filed_at(ln, r, p);
        let k = choose|k: int| 0 <= k < (a + b).len() && (a + b)[k] == id;
        if k < a.len() {
            assert(a[k] == id);
        } else {
            assert(b[k - a.len()] == id);
            lemma_filed_at_prefix(ln, r, p, id);
        }
    }
    assert(after.filed_ids().subset_of(before.filed_ids().insert(r))) by {
        assert forall|id: i64| after.filed_ids().contains(id) implies before.filed_ids().insert(r).contains(id) by {
            let p = choose|p: Seq<u32>| #[trigger] after.key_ids(p).contains(id);
            if id != r {
                assert(before.key_ids(p).contains(id));
            }
        }
    }
    vstd::set_lib::lemma_set_subset_finite(before.filed_ids().insert(r), after.filed_ids());
    assert forall|id: i64| #[trigger] after.entries_view().contains_key(id) implies after.key_ids(
        keys_of(lowercase(after.entries_view()[id].name)),
    ).contains(id) by {
        if id == r {
            let p = keys_of(ln);
            let b = filed_at(ln, r, p);
            assert(b[0] == r);
            assert((before.key_ids(p) + b)[before.key_ids(p).len() as int] == r);
        } else {
            let p = keys_of(lowercase(before.entries_view()[id].name));
            let a = before.key_ids(p);
            let j = choose|j: int| 0 <= j < a.len() && a[j] == id;
            assert((a + filed_at(ln, r, p))[j] == id);
        }
    }
}

/// Removing keeps the trie and the entries in agreement.
pub proof fn lemma_remove_names_filed(before: TrieIndex, after: TrieIndex, id: i64)
    requires
        before.names_filed(),
        after.next_id_view() == before.next_id_view(),
        after.entries_view() == before.entries_view().remove(id),
        forall|p: Seq<u32>| #![trigger after.key_ids(p)]
            after.key_ids(p) == before.key_ids(p) || after.key_ids(p) == before.key_ids(p).filter(
                |x: i64| x != id,
            ),
    ensures
        after.names_filed(),
{
    broadcast use vstd::seq_lib::group_filter_ensures;

    assert forall|p: Seq<u32>, x: i64| #[trigger] after.key_ids(p).contains(x) implies before.key_ids(p).contains(x) by {
        if after.key_ids(p) != before.key_ids(p) {
            let f = before.key_ids(p).filter(|y: i64| y != id);
            let k = choose|k: int| 0 <= k < f.len() && f[k] == x;
            reveal(Seq::filter);
            lemma_filter_sub(before.key_ids(p), |y: i64| y != id, k);
        }
    }
    assert(after.filed_ids().subset_of(before.filed_ids())) by {
        assert forall|x: i64| after.filed_ids().contains(x) implies before.filed_ids().contains(x) by {
            let p = choose|p: Seq<u32>| #[trigger] after.key_ids(p).contains(x);
            assert(before.key_ids(p).contains(x));
        }
    }
    vstd::set_lib::lemma_set_subset_finite(before.filed_ids(), after.filed_ids());
    assert forall|x: i64| #[trigger] after.entries_view().contains_key(x) implies after.key_ids(
        keys_of(lowercase(after.entries_view()[x].name)),
    ).contains(x) by {
        let p = keys_of(lowercase(before.entries_view()[x].name));
        assert(before.key_ids(p).contains(x));
        if after.key_ids(p) != before.key_ids(p) {
            let a = before.key_ids(p);
            let j = choose|j: int| 0 <= j < a.len() && a[j] == x;
            let f = |y: i64| y != id;
            a.lemma_filter_contains(f, j);
        }
    }
}

/// An element of a filter is an element of the sequence.
proof fn lemma_filter_sub(s: Seq<i64>, f: spec_fn(i64) -> bool, k: int)
    requires
        0 <= k < s.filter(f).len(),
    ensures
        s.contains(s.filter(f)[k]),
    decreases s.len(),
{
    reveal(Seq::filter);
    if s.len() > 0 {
        let fd = s.drop_last().filter(f);
        if k < fd.len() {
            assert(s.filter(f)[k] == fd[k]);
            lemma_filter_sub(s.drop_last(), f, k);
            let j = choose|j: int| 0 <= j < s.drop_last().len() && s.drop_last()[j] == fd[k];
            assert(s[j] == fd[k]);
        } else {
            assert(s.filter(f)[k] == s.last());
            assert(s[s.len() - 1] == s.last());
        }
    }
}

/// The next id after loading is above every loaded id.
proof fn lemma_next_after_above(es: Seq<FileEntry>, start: int, i: int)
    requires
        0 <= i < es.len(),
    ensures
        es[i].id < next_after(es, start),
    decreases es.len(),
{
    if i < es.len() - 1 {
        assert(es.drop_last()[i] == es[i]);
        lemma_next_after_above(es.drop_last(), start, i);
    } else {
        assert(es.last() == es[i]);
    }
}

/// Loading entries with pairwise different ids leaves the trie and the entries in
/// agreement. Stated of an index whose contents are what `load_entries` leaves.
pub proof fn lemma_load_names_filed(t: TrieIndex, es: Seq<FileEntry>, start: int)
    requires
        distinct_entry_ids(es),
        t.entries_view() == map_of(es),
        t.next_id_view() == next_after(es, start),
        forall|p: Seq<u32>| #![trigger t.key_ids(p)] t.key_ids(p) == filed_all(es, p),
    ensures
        t.names_filed(),
{
    let ids = es.map_values(|e: FileEntry| e.id);
    assert(t.filed_ids().subset_of(ids.to_set())) by {
        assert forall|x: i64| t.filed_ids().contains(x) implies ids.to_set().contains(x) by {
            let p = choose|p: Seq<u32>| #[trigger] t.key_ids(p).contains(x);
            lemma_filed_all_member(es, p, x);
            let i = choose|i: int| 0 <= i < es.len() && (#[trigger] es[i]).id == x && (keys_of(
                lowercase(es[i].name@),
            ) == p || (stem_of(lowercase(es[i].name@)) matches Some(st) && keys_of(st) == p));
            assert(ids[i] == x);
        }
    }
    vstd::seq_lib::seq_to_set_is_finite(ids);
    vstd::set_lib::lemma_set_subset_finite(ids.to_set(), t.filed_ids());
    assert forall|p: Seq<u32>, x: i64| #[trigger] t.key_ids(p).contains(x) implies x < t.next_id_view()
        && (t.entries_view().contains_key(x) ==> code_prefix(p, keys_of(lowercase(t.entries_view()[x].name)))) by {
        lemma_filed_all_member(es, p, x);
        let i = choose|i: int| 0 <= i < es.len() && (#[trigger] es[i]).id == x && (keys_of(
            lowercase(es[i].name@),
        ) == p || (stem_of(lowercase(es[i].name@)) matches Some(st) && keys_of(st) == p));
        lemma_next_after_above(es, start, i);
        lemma_map_of_at(es, i);
        let ln = lowercase(es[i].name@);
        let b: Seq<i64> = filed_at(ln, x, p);
        if keys_of(ln) == p {
            assert(keys_of(ln).take(p.len() as int) =~= p);
        } else {
            lemma_last_index_of(ln, '.');
            let d = last_index_of(ln, '.')->0;
            assert(keys_of(ln).take(d) =~= keys_of(ln.take(d)));
        }
    }
    assert forall|x: i64| #[trigger] t.entries_view().contains_key(x) implies t.key_ids(
        keys_of(lowercase(t.entries_view()[x].name)),
    ).contains(x) by {
        lemma_map_of_dom(es, x);
        let i = choose|i: int| 0 <= i < es.len() && (#[trigger] es[i]).id == x;
        lemma_map_of_at(es, i);
        lemma_filed_all_has(es, i);
    }
}

/// The entries, in id order, whose lower-cased name starts with the lower-cased query.
pub open spec fn name_starts(t: TrieIndex, q: Seq<char>) -> Seq<FileEntryView> {
    t.ordered().filter(|e: FileEntryView| starts_with(lowercase(e.name), lowercase(q)))
}

/// In an index whose trie and entries agree, the ids filed under a query that are still
/// in the index are those of the entries whose lower-cased name starts with the
/// lower-cased query.
proof fn lemma_prefix_ids(t: TrieIndex, q: Seq<char>)
    requires
        t.wf(),
        t.names_filed(),
    ensures
        t.ids_below_prefix(q).finite(),
        t.ids_below_prefix(q).intersect(t.entries_view().dom()) == t.entries_view().dom().filter(
            |x: i64| starts_with(lowercase(t.entries_view()[x].name), lowercase(q)),
        ),
{
    let ev = t.entries_view();
    let lq = lowercase(q);
    assert(t.ids_below_prefix(q).subset_of(t.filed_ids())) by {
        assert forall|x: i64| t.ids_below_prefix(q).contains(x) implies t.filed_ids().contains(x) by {
            let p = choose|p: Seq<u32>| #[trigger] t.key_ids(keys_of(lq) + p).contains(x);
            assert(t.key_ids(keys_of(lq) + p).contains(x));
        }
    }
    vstd::set_lib::lemma_set_subset_finite(t.filed_ids(), t.ids_below_prefix(q));
    let pid = |x: i64| starts_with(lowercase(ev[x].name), lq);
    assert forall|x: i64| t.ids_below_prefix(q).intersect(ev.dom()).contains(x) <==> ev.dom().filter(pid).contains(x) by {
        if t.ids_below_prefix(q).contains(x) && ev.dom().contains(x) {
            let p = choose|p: Seq<u32>| #[trigger] t.key_ids(keys_of(lq) + p).contains(x);
            let ln = lowercase(ev[x].name);
            assert(code_prefix(keys_of(lq) + p, keys_of(ln)));
            let rest = keys_of(ln).skip(lq.len() as int);
            assert(keys_of(lq).len() == lq.len());
            assert(keys_of(ln) =~= keys_of(lq) + rest) by {
                assert(keys_of(ln).take((keys_of(lq) + p).len() as int) == keys_of(lq) + p);
                assert forall|k: int| 0 <= k < lq.len() implies keys_of(ln)[k] == keys_of(lq)[k] by {
                    assert(keys_of(ln).take((keys_of(lq) + p).len() as int)[k] == keys_of(ln)[k]);
                }
            }
            lemma_keys_prefix(ln, lq, rest);
        }
        if ev.dom().filter(pid).contains(x) {
            let ln = lowercase(ev[x].name);
            assert(t.key_ids(keys_of(ln)).contains(x));
            let tail = ln.skip(lq.len() as int);
            assert(ln =~= lq + tail);
            lemma_keys_of_add(lq, tail);
            assert(t.key_ids(keys_of(lq) + keys_of(tail)).contains(x));
        }
    }
    assert(t.ids_below_prefix(q).intersect(ev.dom()) =~= ev.dom().filter(pid));
}

/// In an index whose trie and entries agree, a prefix search gives entries whose
/// lower-cased name starts with the lower-cased query: the first of them in id order, at
/// most `n`, and exactly the first `n` (or all) when every id filed under the query is
/// still in the index. (After a removal, an id can stay filed under the stem, or under a
/// non-ASCII name, and take one of the `n` places before it is skipped.)
pub proof fn lemma_prefix_is_filter(t: TrieIndex, q: Seq<char>, n: int)
    requires
        t.wf(),
        t.names_filed(),
        n >= 0,
    ensures
        exists|k: int| 0 <= k <= n && #[trigger] take_upto(name_starts(t, q), k) == t.prefix_results(q, n),
        t.ids_below_prefix(q).subset_of(t.entries_view().dom()) ==> t.prefix_results(q, n)
            == take_upto(name_starts(t, q), n),
        forall|k: int| 0 <= k < t.prefix_results(q, n).len() ==> starts_with(
            lowercase(#[trigger] t.prefix_results(q, n)[k].name),
            lowercase(q),
        ),
{
    broadcast use vstd::seq_lib::group_filter_ensures;

    t.lemma_entry_ids();
    lemma_prefix_ids(t, q);
    let ev = t.entries_view();
    let lq = lowercase(q);
    let s = t.ids_below_prefix(q);
    crate::order::lemma_ascending_finite(s);
    let a = ascending(s);
    let in_dom = |id: i64| ev.contains_key(id);
    let pid = |x: i64| starts_with(lowercase(ev[x].name), lq);
    let pe = |e: FileEntryView| starts_with(lowercase(e.name), lq);
    let f = |x: i64| ev[x];
    lemma_filter_ascending(a, in_dom);
    let b = a.filter(in_dom);
    assert(a.to_set().filter(in_dom) =~= s.intersect(ev.dom()));
    let l = ascending(ev.dom());
    lemma_filter_ascending(l, pid);
    assert(l.to_set().filter(pid) =~= ev.dom().filter(pid));
    lemma_ascending_is(b, ev.dom().filter(pid));
    lemma_ascending_is(l.filter(pid), ev.dom().filter(pid));
    assert(b == l.filter(pid));
    assert forall|i: int| 0 <= i < l.len() implies pid(#[trigger] l[i]) == pe(f(l[i])) by {}
    lemma_map_filter(l, f, pid, pe);
    let m = name_starts(t, q);
    assert(t.ordered() == l.map_values(f));
    assert(b.map_values(f) == m);
    let cut = take_upto(a, n);
    let rest = if n < a.len() { a.skip(n) } else { Seq::<i64>::empty() };
    assert(a =~= cut + rest);
    Seq::filter_distributes_over_add(cut, rest, in_dom);
    let cf = cut.filter(in_dom);
    let k = cf.len() as int;
    assert(b == cf + rest.filter(in_dom));
    assert(cf =~= b.take(k));
    assert(k <= n) by {
        assert(cf.len() <= cut.len());
    }
    assert(t.prefix_results(q, n) == cf.map_values(f));
    assert(b.take(k).map_values(f) =~= m.take(k));
    assert(take_upto(m, k) == m.take(k));
    assert(take_upto(m, k) == t.prefix_results(q, n));
    if s.subset_of(ev.dom()) {
        assert forall|i: int| 0 <= i < cut.len() implies in_dom(#[trigger] cut[i]) by {
            assert(a.to_set().contains(cut[i]));
        }
        lemma_filter_all(cut, in_dom);
        assert forall|i: int| 0 <= i < a.len() implies in_dom(#[trigger] a[i]) by {
            assert(a.to_set().contains(a[i]));
        }
        lemma_filter_all(a, in_dom);
        lemma_take_upto_map(b, f, n);
    }
    assert forall|j: int| 0 <= j < t.prefix_results(q, n).len() implies starts_with(
        lowercase(#[trigger] t.prefix_results(q, n)[j].name),
        lq,
    ) by {
        assert(t.prefix_results(q, n)[j] == m[j]);
        assert(pe(m[j]));
    }
}

/// The trie index: entries keyed by id, and the trie of their lower-cased names.
#[derive(Debug)]
pub struct TrieIndex {
    root: TrieNode,
    entries: HashMap<i64, FileEntry>,
    next_id: i64,
}

impl TrieIndex {
    /// The entries of the index, keyed by id.
    pub closed spec fn entries_view(&self) -> Map<i64, FileEntryView> {
        self.entries@.map_values(|e: FileEntry| e@)
    }

    /// The ids filed under trie path `p`, in filing order.
    pub closed spec fn key_ids(&self, p: Seq<u32>) -> Seq<i64> {
        ids_at(self.root, p)
    }

    /// The id that the next inserted entry gets.
    pub closed spec fn next_id_view(&self) -> i64 {
        self.next_id
    }

    /// Every key is the id of its entry, and lies below the next id; the next id is positive.
    pub closed spec fn wf(&self) -> bool {
        &&& forall|k: i64| #[trigger]
            self.entries@.contains_key(k) ==> self.entries@[k].id == k && k < self.next_id
        &&& self.next_id >= 1
    }

    /// The ids filed anywhere in the trie.
    pub open spec fn filed_ids(&self) -> Set<i64> {
        Set::new(|id: i64| exists|p: Seq<u32>| #[trigger] self.key_ids(p).contains(id))
    }

    /// The trie and the entries agree: the filed ids are finitely many and all lie below
    /// the next id; an id filed at a path, while its entry is in the index, is filed at a
    /// start of the codes of the entry's lower-cased name; and every entry is filed under
    /// its lower-cased name.
    pub open spec fn names_filed(&self) -> bool {
        &&& self.filed_ids().finite()
        &&& forall|p: Seq<u32>, id: i64| #[trigger] self.key_ids(p).contains(id) ==> id < self.next_id_view()
        &&& forall|p: Seq<u32>, id: i64|
            #[trigger] self.key_ids(p).contains(id) && self.entries_view().contains_key(id)
                ==> code_prefix(p, keys_of(lowercase(self.entries_view()[id].name)))
        &&& forall|id: i64| #[trigger]
            self.entries_view().contains_key(id) ==> self.key_ids(
                keys_of(lowercase(self.entries_view()[id].name)),
            ).contains(id)
    }

    pub open spec fn ids_below_prefix(&self, q: Seq<char>) -> Set<i64> {
        Set::new(
            |id: i64|
                exists|p: Seq<u32>| #[trigger]
                    self.key_ids(keys_of(lowercase(q)) + p).contains(id),
        )
    }

    /// What `search_prefix` returns: the ids filed under the lower-cased query or below it,
    /// ascending and distinct, cut to `max`, and of those the ones still in the index.
    pub open spec fn prefix_results(&self, q: Seq<char>, max: int) -> Seq<FileEntryView> {
        take_upto(ascending(self.ids_below_prefix(q)), max).filter(
            |id: i64| self.entries_view().contains_key(id),
        ).map_values(|id: i64| self.entries_view()[id])
    }

    /// The ids of the entries whose lower-cased name contains the lower-cased query.
    pub open spec fn name_matches(&self, q: Seq<char>) -> Set<i64> {
        self.entries_view().dom().filter(
            |id: i64| contains(lowercase(self.entries_view()[id].name), lowercase(q)),
        )
    }

    /// The ids of the entries whose lower-cased path contains the lower-cased query.
    pub open spec fn path_matches(&self, q: Seq<char>) -> Set<i64> {
        self.entries_view().dom().filter(
            |id: i64| contains(lowercase(self.entries_view()[id].path), lowercase(q)),
        )
    }

    pub open spec fn entries_of(&self, ids: Seq<i64>) -> Seq<FileEntryView> {
        ids.map_values(|id: i64| self.entries_view()[id])
    }

    /// All entries in ascending id order.
    pub open spec fn ordered(&self) -> Seq<FileEntryView> {
        self.entries_of(ascending(self.entries_view().dom()))
    }

    pub fn new() -> (t: Self)
        ensures
            t.wf(),
            t.entries_view() == Map::<i64, FileEntryView>::empty(),
            forall|p: Seq<u32>| #[trigger] t.key_ids(p) == Seq::<i64>::empty(),
            t.next_id_view() == 1,
            t.names_filed(),
    {
        let t = TrieIndex { root: TrieNode::new(), entries: HashMap::new(), next_id: 1 };
        proof {
            assert(t.entries_view() =~= Map::<i64, FileEntryView>::empty());
            assert forall|p: Seq<u32>| #[trigger] t.key_ids(p) == Seq::<i64>::empty() by {
                if p.len() > 0 {
                }
            }
            lemma_new_names_filed(t);
        }
        t
    }

    /// The id that the next inserted entry gets.
    pub fn next_id(&self) -> (r: i64)
        ensures
            r == self.next_id_view(),
    {
        self.next_id
    }

    /// Files `id` under the path of `s`.
    fn _insert_str(&mut self, s: &Vec<char>, id: i64)
        ensures
            final(self).entries == old(self).entries,
            final(self).next_id == old(self).next_id,
            forall|p: Seq<u32>| #![trigger final(self).key_ids(p)]
                final(self).key_ids(p) == old(self).key_ids(p) + if p == keys_of(s@) {
                    seq![id]
                } else {
                    Seq::<i64>::empty()
                },
    {
        insert_path(&mut self.root, s, 0, id);
        proof {
            assert(s@.skip(0) =~= s@);
            assert forall|p: Seq<u32>| #![trigger self.key_ids(p)]
                self.key_ids(p) == old(self).key_ids(p) + if p == keys_of(s@) {
                    seq![id]
                } else {
                    Seq::<i64>::empty()
                } by {
                assert(ids_at(self.root, p) == ids_at(old(self).root, p) || ids_at(self.root, p) == ids_at(old(self).root, p).push(id));
                if p == keys_of(s@) {
                    assert(ids_at(old(self).root, p).push(id) =~= ids_at(old(self).root, p) + seq![id]);
                } else {
                    assert(ids_at(old(self).root, p) =~= ids_at(old(self).root, p) + Seq::<i64>::empty());
                }
            }
        }
    }

    /// Files `id` under a lower-cased name and under its stem.
    fn file_name_and_stem(&mut self, lower: &Vec<char>, id: i64)
        ensures
            final(self).entries == old(self).entries,
            final(self).next_id == old(self).next_id,
            forall|p: Seq<u32>| #![trigger final(self).key_ids(p)]
                final(self).key_ids(p) == old(self).key_ids(p) + filed_at(lower@, id, p),
    {
        let ghost mid_before = self.key_ids(Seq::empty());
        self._insert_str(lower, id);
        let ghost mid = *self;
        match rfind_char(lower, '.') {
            Some(dot) => {
                proof {
                    lemma_last_index_of(lower@, '.');
                }
                if dot > 0 {
                    let stem = slice_chars(lower, 0, dot);
                    assert(stem@ =~= lower@.take(dot as int));
                    self._insert_str(&stem, id);
                    proof {
                        assert forall|p: Seq<u32>| #![trigger self.key_ids(p)]
                            self.key_ids(p) == old(self).key_ids(p) + filed_at(lower@, id, p) by {
                            assert(mid.key_ids(p) == old(self).key_ids(p) + (if p == keys_of(lower@) {
                                seq![id]
                            } else {
                                Seq::<i64>::empty()
                            }));
                            assert(self.key_ids(p) =~= old(self).key_ids(p) + filed_at(lower@, id, p));
                        }
                    }
                } else {
                    proof {
                        assert forall|p: Seq<u32>| #![trigger self.key_ids(p)]
                            self.key_ids(p) == old(self).key_ids(p) + filed_at(lower@, id, p) by {
                            assert(self.key_ids(p) =~= old(self).key_ids(p) + filed_at(lower@, id, p));
                        }
                    }
                }
            },
            None => {
                proof {
                    assert forall|p: Seq<u32>| #![trigger self.key_ids(p)]
                        self.key_ids(p) == old(self).key_ids(p) + filed_at(lower@, id, p) by {
                        assert(self.key_ids(p) =~= old(self).key_ids(p) + filed_at(lower@, id, p));
                    }
                }
            },
        }
    }

    /// Adds an entry under the next id and returns that id. The entry is filed under its
    /// lower-cased name and, when that has a dot after its first character, under the part
    /// before the last dot.
    pub fn insert(&mut self, entry: FileEntry) -> (r: i64)
        requires
            old(self).wf(),
            old(self).next_id_view() < i64::MAX,
        ensures
            final(self).wf(),
            r == old(self).next_id_view(),
            final(self).next_id_view() == r + 1,
            !old(self).entries_view().contains_key(r),
            final(self).entries_view() == old(self).entries_view().insert(r, with_id(entry@, r)),
            forall|p: Seq<u32>| #![trigger final(self).key_ids(p)]
                final(self).key_ids(p) == old(self).key_ids(p) + filed_at(lowercase(entry.name@), r, p),
            old(self).names_filed() ==> final(self).names_filed(),
    {
        let mut entry = entry;
        let id = self.next_id;
        self.next_id = self.next_id + 1;
        entry.id = id;
        let lower_name = lower_chars(entry.name.as_str());
        self.file_name_and_stem(&lower_name, id);
        let ghost mid = *self;
        self.entries.insert(id, entry);
        proof {
            assert forall|p: Seq<u32>| #![trigger self.key_ids(p)]
                self.key_ids(p) == old(self).key_ids(p) + filed_at(lowercase(entry.name@), id, p) by {
                assert(self.key_ids(p) == mid.key_ids(p));
            }
            assert(!old(self).entries@.contains_key(id));
            assert(self.entries_view() =~= old(self).entries_view().insert(id, with_id(entry@, id)));
            if old(self).names_filed() {
                lemma_insert_names_filed(*old(self), *self, entry.name@, entry@, id);
            }
        }
        id
    }

    /// Removes the entry with this id. The id is also taken out of the ids filed under the
    /// entry's lower-cased name, but only when that name is ASCII: the walk compares its
    /// depth in characters with the byte length of the name. The ids filed under the stem
    /// stay.
    pub fn remove(&mut self, id: i64)
        requires
            old(self).wf(),
        ensures
            final(self).wf(),
            final(self).next_id_view() == old(self).next_id_view(),
            final(self).entries_view() == old(self).entries_view().remove(id),
            forall|p: Seq<u32>| #![trigger final(self).key_ids(p)]
                final(self).key_ids(p) == if old(self).entries_view().contains_key(id) && all_ascii(
                    lowercase(old(self).entries_view()[id].name),
                ) && p == keys_of(lowercase(old(self).entries_view()[id].name)) {
                    old(self).key_ids(p).filter(|x: i64| x != id)
                } else {
                    old(self).key_ids(p)
                },
            old(self).names_filed() ==> final(self).names_filed(),
    {
        let removed = self.entries.remove(&id);
        proof {
            assert(self.entries_view() =~= old(self).entries_view().remove(id));
        }
        match removed {
            Some(entry) => {
                let lower_name = lower_chars(entry.name.as_str());
                let at_end = is_all_ascii(&lower_name);
                remove_from_trie(&mut self.root, &lower_name, at_end, id, 0);
                proof {
                    assert(lower_name@.skip(0) =~= lower_name@);
                }
            },
            None => {},
        }
        proof {
            if old(self).names_filed() {
                lemma_remove_names_filed(*old(self), *self, id);
            }
        }
    }

    /// The entries whose ids are listed, cloned, skipping ids that are not in the index.
    fn entries_for(&self, ids: &Vec<i64>) -> (r: Vec<FileEntry>)
        requires
            self.wf(),
        ensures
            r@.map_values(|e: FileEntry| e@) == ids@.filter(
                |id: i64| self.entries_view().contains_key(id),
            ).map_values(|id: i64| self.entries_view()[id]),
    {
        let mut out: Vec<FileEntry> = Vec::new();
        let mut i: usize = 0;
        while i < ids.len()
            invariant
                i <= ids.len(),
                out@.map_values(|e: FileEntry| e@) == ids@.take(i as int).filter(
                    |id: i64| self.entries_view().contains_key(id),
                ).map_values(|id: i64| self.entries_view()[id]),
            decreases ids.len() - i,
        {
            let id = ids[i];
            proof {
                reveal(Seq::filter);
                assert(ids@.take(i + 1).drop_last() =~= ids@.take(i as int));
            }
            let ghost old_out = out@;
            match self.entries.get(&id) {
                Some(e) => {
                    proof {
                        assert(self.entries@.contains_key(id) && self.entries@[id] == *e);
                        assert(self.entries_view().contains_key(id));
                        assert(self.entries_view()[id] == e@);
                        assert(ids@.take(i + 1).filter(|id: i64| self.entries_view().contains_key(id))
                            == ids@.take(i as int).filter(|id: i64| self.entries_view().contains_key(id)).push(id));
                    }
                    let c = e.clone();
                    out.push(c);
                    proof {
                        let f = ids@.take(i as int).filter(|id: i64| self.entries_view().contains_key(id));
                        assert(f.push(id).map_values(|id: i64| self.entries_view()[id]) =~= f.map_values(|id: i64| self.entries_view()[id]).push(self.entries_view()[id]));
                        assert(out@.map_values(|e: FileEntry| e@) =~= old_out.map_values(|e: FileEntry| e@).push(c@));
                    }
                    assert(out@.map_values(|e: FileEntry| e@) =~= ids@.take(i + 1).filter(
                        |id: i64| self.entries_view().contains_key(id),
                    ).map_values(|id: i64| self.entries_view()[id]));
                },
                None => {
                    proof {
                        assert(!self.entries@.contains_key(id));
                        assert(ids@.take(i + 1).filter(|id: i64| self.entries_view().contains_key(id))
                            == ids@.take(i as int).filter(|id: i64| self.entries_view().contains_key(id)));
                    }
                    assert(out@.map_values(|e: FileEntry| e@) =~= ids@.take(i + 1).filter(
                        |id: i64| self.entries_view().contains_key(id),
                    ).map_values(|id: i64| self.entries_view()[id]));
                },
            }
            i = i + 1;
        }
        assert(ids@.take(ids.len() as int) =~= ids@);
        out
    }

    /// Entries filed under the lower-cased query or under a longer path that starts with
    /// it: the ids are sorted, repeats dropped, cut to `max_results`, and the ids that are
    /// no longer in the index are then skipped.
    pub fn search_prefix(&self, query: &str, max_results: usize) -> (r: Vec<FileEntry>)
        requires
            self.wf(),
        ensures
            r@.map_values(|e: FileEntry| e@) == self.prefix_results(query@, max_results as int),
            self.ids_below_prefix(query@).finite(),
    {
        let lower_query = lower_chars(query);
        let kq = Ghost(keys_of(lower_query@));
        let mut node = &self.root;
        let mut i: usize = 0;
        assert(keys_of(lower_query@.take(0)) =~= Seq::<u32>::empty());
        while i < lower_query.len()
            invariant
                i <= lower_query.len(),
                node_at(self.root, keys_of(lower_query@.take(i as int))) == Some(*node),
                kq@ == keys_of(lower_query@),
                lower_query@ == lowercase(query@),
            decreases lower_query.len() - i,
        {
            let k: u32 = lower_query[i] as u32;
            proof {
                lemma_keys_of_take(lower_query@, i as int);
                lemma_node_at_concat(self.root, keys_of(lower_query@.take(i as int)), seq![k]);
                lemma_node_at_cons(*node, k, Seq::<u32>::empty());
                assert(seq![k] + Seq::<u32>::empty() =~= seq![k]);
            }
            match node.children.get(&k) {
                Some(child) => {
                    node = child;
                },
                None => {
                    proof {
                        assert(node_at(self.root, keys_of(lower_query@.take(i + 1))) is None);
                        assert(self.ids_below_prefix(query@) =~= Set::<i64>::empty()) by {
                            assert forall|id: i64| !self.ids_below_prefix(query@).contains(id) by {
                                assert forall|p: Seq<u32>| !(#[trigger] self.key_ids(kq@ + p).contains(id)) by {
                                    let pre = keys_of(lower_query@.take(i + 1));
                                    let post = keys_of(lower_query@.skip(i + 1));
                                    assert(lower_query@ =~= lower_query@.take(i + 1) + lower_query@.skip(i + 1));
                                    lemma_keys_of_add(lower_query@.take(i + 1), lower_query@.skip(i + 1));
                                    assert(kq@ == pre + post);
                                    assert(kq@ + p =~= pre + (post + p));
                                    lemma_node_at_concat(self.root, pre, post + p);
                                }
                            }
                        }
                        assert(Seq::<i64>::empty().to_set() =~= Set::<i64>::empty());
                        lemma_ascending_is(Seq::<i64>::empty(), Set::<i64>::empty());
                        assert(self.ids_below_prefix(query@).finite());
                        reveal(Seq::filter);
                        assert(self.prefix_results(query@, max_results as int) =~= Seq::<FileEntryView>::empty());
                    }
                    return Vec::new();
                },
            }
            i = i + 1;
        }
        assert(lower_query@.take(i as int) =~= lower_query@);
        let mut ids: Vec<i64> = Vec::new();
        collect_ids(node, &mut ids);
        proof {
            assert(ids@.to_set() =~= self.ids_below_prefix(query@)) by {
                assert(Seq::<i64>::empty().to_set() =~= Set::<i64>::empty());
                assert forall|id: i64| subtree_ids(*node).contains(id) <==> self.ids_below_prefix(query@).contains(id) by {
                    if subtree_ids(*node).contains(id) {
                        let p = choose|p: Seq<u32>| #[trigger] ids_at(*node, p).contains(id);
                        lemma_node_at_concat(self.root, kq@, p);
                        assert(self.key_ids(kq@ + p).contains(id));
                    }
                    if self.ids_below_prefix(query@).contains(id) {
                        let p = choose|p: Seq<u32>| #[trigger] self.key_ids(kq@ + p).contains(id);
                        lemma_node_at_concat(self.root, kq@, p);
                        assert(ids_at(*node, p).contains(id));
                    }
                }
            }
        }
        proof {
            vstd::seq_lib::seq_to_set_is_finite(ids@);
        }
        let mut asc = ascending_ids(ids);
        let ghost full = asc@;
        asc.truncate(max_results);
        assert(asc@ =~= take_upto(full, max_results as int));
        self.entries_for(&asc)
    }

    /// Collects the ids of the entries whose lower-cased name (or path) contains the
    /// lower-cased query, ascending, cut to `max`.
    fn search_field(&self, query: &str, max_results: usize, by_path: bool) -> (r: Vec<FileEntry>)
        requires
            self.wf(),
        ensures
            r@.map_values(|e: FileEntry| e@) == self.entries_of(take_upto(
                ascending(if by_path {
                    self.path_matches(query@)
                } else {
                    self.name_matches(query@)
                }),
                max_results as int,
            )),
    {
        let lower_query = lower_chars(query);
        let ghost matches = if by_path {
            self.path_matches(query@)
        } else {
            self.name_matches(query@)
        };
        let ghost ks = vstd::std_specs::hash::spec_keys_iter(&self.entries).remaining();
        proof {
            broadcast use vstd::std_specs::hash::axiom_spec_keys_iter;
        }
        let mut ids: Vec<i64> = Vec::new();
        for k in it: self.entries.keys()
            invariant
                it.seq() == ks,
                ks.unref().to_set() == self.entries@.dom(),
                lower_query@ == lowercase(query@),
                matches == if by_path {
                    self.path_matches(query@)
                } else {
                    self.name_matches(query@)
                },
                forall|x: i64| #![trigger ids@.to_set().contains(x)]
                    ids@.to_set().contains(x) <==> (exists|j: int| 0 <= j < it.index() && *ks[j] == x) && matches.contains(x),
        {
            let id = *k;
            proof {
                assert(ks.unref()[it.index() as int] == id);
                assert(ks.unref().to_set().contains(id));
            }
            match self.entries.get(&id) {
                Some(e) => {
                    let field = if by_path {
                        lower_chars(e.path.as_str())
                    } else {
                        lower_chars(e.name.as_str())
                    };
                    let ghost old_ids = ids@;
                    if contains_chars(&field, &lower_query) {
                        ids.push(id);
                        proof {
                            assert forall|x: i64| #![trigger ids@.to_set().contains(x)]
                                ids@.to_set().contains(x) <==> (exists|j: int| 0 <= j < it.index() + 1 && *ks[j] == x) && matches.contains(x) by {
                                if ids@.to_set().contains(x) && x != id {
                                    let m = choose|m: int| 0 <= m < ids@.len() && ids@[m] == x;
                                    assert(old_ids[m] == x);
                                    assert(old_ids.to_set().contains(x));
                                }
                                if x == id {
                                    assert(ids@[ids@.len() - 1] == x);
                                    assert(*ks[it.index() as int] == x);
                                }
                                if (exists|j: int| 0 <= j < it.index() + 1 && *ks[j] == x) && matches.contains(x) && x != id {
                                    let j = choose|j: int| 0 <= j < it.index() + 1 && *ks[j] == x;
                                    assert(j < it.index());
                                    assert(old_ids.to_set().contains(x));
                                    let m = choose|m: int| 0 <= m < old_ids.len() && old_ids[m] == x;
                                    assert(ids@[m] == x);
                                }
                            }
                        }
                    } else {
                        proof {
                            assert(!matches.contains(id));
                            assert forall|x: i64| #![trigger ids@.to_set().contains(x)]
                                ids@.to_set().contains(x) <==> (exists|j: int| 0 <= j < it.index() + 1 && *ks[j] == x) && matches.contains(x) by {
                                if (exists|j: int| 0 <= j < it.index() + 1 && *ks[j] == x) && matches.contains(x) {
                                    let j = choose|j: int| 0 <= j < it.index() + 1 && *ks[j] == x;
                                    if j == it.index() {
                                        assert(x == id);
                                    }
                                }
                            }
                        }
                    }
                },
                None => {},
            }
        }
        proof {
            assert(ids@.to_set() =~= matches) by {
                assert forall|x: i64| matches.contains(x) implies ids@.to_set().contains(x) by {
                    assert(self.entries@.dom().contains(x));
                    assert(ks.unref().to_set().contains(x));
                    let j = choose|j: int| 0 <= j < ks.unref().len() && ks.unref()[j] == x;
                    assert(*ks[j] == x);
                }
            }
        }
        let mut asc = ascending_ids(ids);
        let ghost full = asc@;
        asc.truncate(max_results);
        assert(asc@ =~= take_upto(full, max_results as int));
        let r = self.entries_for(&asc);
        proof {
            let cut = take_upto(ascending(matches), max_results as int);
            assert forall|k: int| 0 <= k < cut.len() implies self.entries_view().contains_key(#[trigger] cut[k]) by {
                assert(ascending(matches).to_set().contains(cut[k]));
            }
            assert(cut.filter(|id: i64| self.entries_view().contains_key(id)) == cut) by {
                reveal(Seq::filter);
                crate::index_engine::lemma_filter_all(cut, |id: i64| self.entries_view().contains_key(id));
            }
        }
        r
    }

    /// Entries whose lower-cased name contains the lower-cased query, in ascending id
    /// order, at most `max_results` of them.
    pub fn search_substring(&self, query: &str, max_results: usize) -> (r: Vec<FileEntry>)
        requires
            self.wf(),
        ensures
            r@.map_values(|e: FileEntry| e@) == self.entries_of(
                take_upto(ascending(self.name_matches(query@)), max_results as int),
            ),
    {
        self.search_field(query, max_results, false)
    }

    /// Entries whose lower-cased path contains the lower-cased query, in ascending id
    /// order, at most `max_results` of them.
    pub fn search_path_segment(&self, query: &str, max_results: usize) -> (r: Vec<FileEntry>)
        requires
            self.wf(),
        ensures
            r@.map_values(|e: FileEntry| e@) == self.entries_of(
                take_upto(ascending(self.path_matches(query@)), max_results as int),
            ),
    {
        self.search_field(query, max_results, true)
    }

    /// Number of entries.
    pub fn len(&self) -> (r: usize)
        ensures
            r == self.entries_view().len(),
    {
        proof {
            assert(self.entries_view().dom() =~= self.entries@.dom());
        }
        self.entries.len()
    }

    /// Whether the index holds no entry.
    pub fn is_empty(&self) -> (r: bool)
        ensures
            r == (self.entries_view().len() == 0),
    {
        proof {
            assert(self.entries_view().dom() =~= self.entries@.dom());
            vstd::std_specs::hash::axiom_hashmap_view_finite_dom(self.entries);
            if self.entries@.dom().len() == 0 {
                assert(self.entries@.dom() =~= Set::<i64>::empty());
            }
        }
        self.entries.is_empty()
    }

    /// All entries, in ascending id order.
    pub fn all_entries(&self) -> (r: Vec<FileEntry>)
        requires
            self.wf(),
        ensures
            r@.map_values(|e: FileEntry| e@) == self.ordered(),
    {
        let ghost ks = vstd::std_specs::hash::spec_keys_iter(&self.entries).remaining();
        proof {
            broadcast use vstd::std_specs::hash::axiom_spec_keys_iter;
        }
        let mut ids: Vec<i64> = Vec::new();
        for k in it: self.entries.keys()
            invariant
                it.seq() == ks,
                ids@ == ks.unref().take(it.index() as int),
        {
            ids.push(*k);
            assert(ids@ =~= ks.unref().take(it.index() + 1));
        }
        proof {
            assert(ids@ =~= ks.unref());
            assert(self.entries_view().dom() =~= self.entries@.dom());
        }
        let asc = ascending_ids(ids);
        let r = self.entries_for(&asc);
        proof {
            let l = ascending(self.entries_view().dom());
            assert forall|k: int| 0 <= k < l.len() implies self.entries_view().contains_key(#[trigger] l[k]) by {
                assert(l.to_set().contains(l[k]));
            }
            lemma_filter_all(l, |id: i64| self.entries_view().contains_key(id));
        }
        r
    }

    /// The index holds finitely many entries.
    pub proof fn lemma_entries_finite(&self)
        ensures
            self.entries_view().dom().finite(),
    {
        assert(self.entries_view().dom() =~= self.entries@.dom());
        vstd::std_specs::hash::axiom_hashmap_view_finite_dom(self.entries);
    }

    /// In a well-formed index every entry carries its key as its id, every key lies below
    /// the next id, and the keys are finitely many, so that they have an ascending list.
    pub proof fn lemma_entry_ids(&self)
        requires
            self.wf(),
        ensures
            forall|k: i64| #[trigger] self.entries_view().contains_key(k) ==> self.entries_view()[k].id
                == k && k < self.next_id_view(),
            self.entries_view().dom().finite(),
            strictly_increasing(ascending(self.entries_view().dom())),
            ascending(self.entries_view().dom()).to_set() == self.entries_view().dom(),
    {
        self.lemma_entries_finite();
        lemma_ascending_finite(self.entries_view().dom());
        assert forall|k: i64| #[trigger] self.entries_view().contains_key(k) implies self.entries_view()[k].id
            == k && k < self.next_id_view() by {
            assert(self.entries@.contains_key(k));
        }
    }

    /// The ids of the entries whose path is `path`, ascending.
    pub fn ids_with_path(&self, path: &str) -> (r: Vec<i64>)
        requires
            self.wf(),
        ensures
            strictly_increasing(r@),
            r@.to_set() == path_ids(self.entries_view(), path@),
    {
        let ghost ks = vstd::std_specs::hash::spec_keys_iter(&self.entries).remaining();
        proof {
            broadcast use vstd::std_specs::hash::axiom_spec_keys_iter;
        }
        let mut ids: Vec<i64> = Vec::new();
        for k in it: self.entries.keys()
            invariant
                it.seq() == ks,
                ids@ == ks.unref().take(it.index() as int),
        {
            ids.push(*k);
            assert(ids@ =~= ks.unref().take(it.index() + 1));
        }
        proof {
            assert(ids@ =~= ks.unref());
            assert(self.entries_view().dom() =~= self.entries@.dom());
        }
        let asc = ascending_ids(ids);
        let target = chars_of(path);
        let ghost pred = |id: i64| self.entries_view()[id].path == path@;
        let mut out: Vec<i64> = Vec::new();
        let mut i: usize = 0;
        while i < asc.len()
            invariant
                i <= asc.len(),
                target@ == path@,
                strictly_increasing(asc@),
                asc@.to_set() == self.entries_view().dom(),
                pred == (|id: i64| self.entries_view()[id].path == path@),
                out@ == asc@.take(i as int).filter(pred),
            decreases asc.len() - i,
        {
            let id = asc[i];
            proof {
                reveal(Seq::filter);
                assert(asc@.take(i + 1).drop_last() =~= asc@.take(i as int));
                assert(asc@.to_set().contains(id));
            }
            match self.entries.get(&id) {
                Some(e) => {
                    let ep = chars_of(e.path.as_str());
                    if chars_eq(&ep, &target) {
                        out.push(id);
                    }
                },
                None => {},
            }
            i = i + 1;
        }
        proof {
            assert(asc@.take(asc.len() as int) =~= asc@);
            lemma_filter_ascending(asc@, pred);
            assert(asc@.to_set().filter(pred) =~= path_ids(self.entries_view(), path@));
        }
        out
    }

    /// Replaces the contents with the given entries, each kept under its own id (a later
    /// entry replaces an earlier one with the same id) and filed as `insert` files it. The
    /// next id becomes larger than every loaded id, and never smaller than it was.
    pub fn load_entries(&mut self, entries: Vec<FileEntry>)
        requires
            old(self).wf(),
            forall|i: int| 0 <= i < entries@.len() ==> #[trigger] entries@[i].id < i64::MAX,
        ensures
            final(self).wf(),
            final(self).entries_view() == map_of(entries@),
            final(self).next_id_view() == next_after(entries@, old(self).next_id_view() as int),
            forall|p: Seq<u32>| #![trigger final(self).key_ids(p)]
                final(self).key_ids(p) == filed_all(entries@, p),
            distinct_entry_ids(entries@) ==> final(self).names_filed(),
    {
        self.entries.clear();
        self.root = TrieNode::new();
        proof {
            assert(entries@.take(0) =~= Seq::<FileEntry>::empty());
            assert(self.entries_view() =~= map_of(entries@.take(0)));
            assert forall|p: Seq<u32>| #![trigger self.key_ids(p)]
                self.key_ids(p) == filed_all(entries@.take(0), p) by {
                if p.len() > 0 {
                }
            }
        }
        let mut i: usize = 0;
        while i < entries.len()
            invariant
                i <= entries.len(),
                forall|j: int| 0 <= j < entries@.len() ==> #[trigger] entries@[j].id < i64::MAX,
                self.next_id >= 1,
                forall|k: i64| #[trigger]
                    self.entries@.contains_key(k) ==> self.entries@[k].id == k && k < self.next_id,
                self.entries_view() == map_of(entries@.take(i as int)),
                self.next_id == next_after(entries@.take(i as int), old(self).next_id as int),
                forall|p: Seq<u32>| #![trigger self.key_ids(p)]
                    self.key_ids(p) == filed_all(entries@.take(i as int), p),
            decreases entries.len() - i,
        {
            let ghost start = *self;
            let entry = &entries[i];
            let id = entry.id;
            let ghost prefix = entries@.take(i as int);
            let ghost next = entries@.take(i + 1);
            assert(next.drop_last() =~= prefix);
            assert(next.last() == *entry);
            let copy = entry.clone();
            self.entries.insert(id, copy);
            let lower_name = lower_chars(entry.name.as_str());
            let ghost before = *self;
            self.file_name_and_stem(&lower_name, id);
            let ghost after_file = *self;
            if id >= self.next_id {
                self.next_id = id + 1;
            }
            proof {
                assert(self.entries_view() =~= map_of(next));
                assert forall|p: Seq<u32>| #![trigger self.key_ids(p)]
                    self.key_ids(p) == filed_all(next, p) by {
                    assert(start.key_ids(p) == filed_all(prefix, p));
                    assert(before.key_ids(p) == start.key_ids(p));
                    assert(self.key_ids(p) == after_file.key_ids(p));
                    assert(filed_all(next, p) == filed_all(prefix, p) + filed_at(lowercase(entry.name@), id, p));
                }
            }
            i = i + 1;
        }
        proof {
            assert(entries@.take(entries.len() as int) =~= entries@);
            if distinct_entry_ids(entries@) {
                lemma_load_names_filed(*self, entries@, old(self).next_id as int);
            }
        }
    }
}

} // verus!
