//! Ordered enumeration of identifier sets: the ascending list of a set of
//! ids, the sort that produces it, and the removal of repeats.
use vstd::prelude::*;

verus! {

pub open spec fn strictly_increasing(s: Seq<i64>) -> bool {
    forall|i: int, j: int| 0 <= i < j < s.len() ==> s[i] < s[j]
}

pub open spec fn non_decreasing(s: Seq<i64>) -> bool {
    forall|i: int, j: int| 0 <= i < j < s.len() ==> s[i] <= s[j]
}

/// The ids of `s` in ascending order (when `s` is finite).
pub open spec fn ascending(s: Set<i64>) -> Seq<i64> {
    choose|l: Seq<i64>| strictly_increasing(l) && l.to_set() == s
}

/// Two ascending lists of the same ids are equal.
pub proof fn lemma_ascending_unique(a: Seq<i64>, b: Seq<i64>)
    requires
        strictly_increasing(a),
        strictly_increasing(b),
        a.to_set() == b.to_set(),
    ensures
        a == b,
    decreases a.len(),
{
    if a.len() == 0 {
        if b.len() > 0 {
            assert(b.to_set().contains(b[0]));
        }
        assert(a =~= b);
    } else if b.len() == 0 {
        assert(a.to_set().contains(a[0]));
    } else {
        assert(b.to_set().contains(a[0]));
        assert(a.to_set().contains(b[0]));
        let ja = choose|j: int| 0 <= j < b.len() && b[j] == a[0];
        let jb = choose|j: int| 0 <= j < a.len() && a[j] == b[0];
        if ja > 0 {
            assert(b[0] < b[ja]);
        }
        if jb > 0 {
            assert(a[0] < a[jb]);
        }
        assert(a[0] == b[0]);
        let a1 = a.drop_first();
        let b1 = b.drop_first();
        assert forall|x: i64| a1.to_set().contains(x) implies b1.to_set().contains(x) by {
            let i = choose|i: int| 0 <= i < a1.len() && a1[i] == x;
            assert(a[i + 1] == x);
            assert(a[0] < a[i + 1]);
            assert(b.to_set().contains(x));
            let j = choose|j: int| 0 <= j < b.len() && b[j] == x;
            assert(j != 0);
            assert(b1[j - 1] == x);
        }
        assert forall|x: i64| b1.to_set().contains(x) implies a1.to_set().contains(x) by {
            let i = choose|i: int| 0 <= i < b1.len() && b1[i] == x;
            assert(b[i + 1] == x);
            assert(b[0] < b[i + 1]);
            assert(a.to_set().contains(x));
            let j = choose|j: int| 0 <= j < a.len() && a[j] == x;
            assert(j != 0);
            assert(a1[j - 1] == x);
        }
        assert(a1.to_set() =~= b1.to_set());
        lemma_ascending_unique(a1, b1);
        assert(a =~= seq![a[0]] + a1);
        assert(b =~= seq![b[0]] + b1);
    }
}

/// An ascending list of the ids of `s` is `ascending(s)`.
pub proof fn lemma_ascending_is(l: Seq<i64>, s: Set<i64>)
    requires
        strictly_increasing(l),
        l.to_set() == s,
    ensures
        ascending(s) == l,
{
    let a = ascending(s);
    assert(strictly_increasing(a) && a.to_set() == s);
    lemma_ascending_unique(a, l);
}

/// A finite set of ids has an ascending list.
pub proof fn lemma_ascending_finite(s: Set<i64>)
    requires
        s.finite(),
    ensures
        strictly_increasing(ascending(s)),
        ascending(s).to_set() == s,
    decreases s.len(),
{
    if s.len() == 0 {
        s.lemma_len0_is_empty();
        let e = Seq::<i64>::empty();
        assert(e.to_set() =~= s);
        lemma_ascending_is(e, s);
    } else {
        if s == Set::<i64>::empty() {
            assert(s.len() == 0);
        }
        let x = s.choose();
        assert(s.contains(x));
        let r = s.remove(x);
        lemma_ascending_finite(r);
        let l = ascending(r);
        let below = |y: i64| y < x;
        let above = |y: i64| y > x;
        lemma_filter_ascending(l, below);
        lemma_filter_ascending(l, above);
        let lo = l.filter(below);
        let hi = l.filter(above);
        let m = lo + seq![x] + hi;
        assert forall|k: int| 0 <= k < lo.len() implies lo[k] < x by {
            assert(lo.to_set().contains(lo[k]));
        }
        assert forall|k: int| 0 <= k < hi.len() implies hi[k] > x by {
            assert(hi.to_set().contains(hi[k]));
        }
        assert forall|i: int, j: int| 0 <= i < j < m.len() implies m[i] < m[j] by {
            if j < lo.len() {
                assert(m[i] == lo[i] && m[j] == lo[j]);
            } else if j == lo.len() {
                assert(m[i] == lo[i]);
            } else if i < lo.len() {
                assert(m[i] == lo[i] && m[j] == hi[j - lo.len() - 1]);
            } else if i == lo.len() {
                assert(m[j] == hi[j - lo.len() - 1]);
            } else {
                assert(m[i] == hi[i - lo.len() - 1] && m[j] == hi[j - lo.len() - 1]);
            }
        }
        assert(m.to_set() =~= s) by {
            assert forall|y: i64| m.to_set().contains(y) implies s.contains(y) by {
                let k = choose|k: int| 0 <= k < m.len() && m[k] == y;
                if k < lo.len() {
                    assert(lo.to_set().contains(y));
                } else if k > lo.len() {
                    assert(hi[k - lo.len() - 1] == y);
                    assert(hi.to_set().contains(y));
                }
            }
            assert forall|y: i64| s.contains(y) implies m.to_set().contains(y) by {
                if y == x {
                    assert(m[lo.len() as int] == y);
                } else if y < x {
                    assert(r.contains(y));
                    assert(lo.to_set().contains(y));
                    let k = choose|k: int| 0 <= k < lo.len() && lo[k] == y;
                    assert(m[k] == y);
                } else {
                    assert(r.contains(y));
                    assert(hi.to_set().contains(y));
                    let k = choose|k: int| 0 <= k < hi.len() && hi[k] == y;
                    assert(m[lo.len() + 1 + k] == y);
                }
            }
        }
        lemma_ascending_is(m, s);
    }
}

/// Keeping the elements of an ascending list that satisfy `p` gives the ascending list
/// of those elements.
pub proof fn lemma_filter_ascending(l: Seq<i64>, p: spec_fn(i64) -> bool)
    requires
        strictly_increasing(l),
    ensures
        strictly_increasing(l.filter(p)),
        l.filter(p).to_set() == l.to_set().filter(p),
    decreases l.len(),
{
    reveal(Seq::filter);
    if l.len() > 0 {
        let init = l.drop_last();
        lemma_filter_ascending(init, p);
        let f = l.filter(p);
        let fi = init.filter(p);
        assert forall|k: int| 0 <= k < fi.len() implies fi[k] < l.last() by {
            assert(fi.to_set().contains(fi[k]));
            assert(init.to_set().contains(fi[k]));
            let j = choose|j: int| 0 <= j < init.len() && init[j] == fi[k];
            assert(l[j] < l[l.len() - 1]);
        }
        assert(f.to_set() =~= l.to_set().filter(p)) by {
            assert forall|x: i64| f.to_set().contains(x) implies l.to_set().filter(p).contains(x) by {
                if p(l.last()) {
                    assert(f == fi.push(l.last()));
                    let k = choose|k: int| 0 <= k < f.len() && f[k] == x;
                    if k < fi.len() {
                        assert(fi[k] == x);
                        assert(fi.to_set().contains(x));
                        let j = choose|j: int| 0 <= j < init.len() && init[j] == x;
                        assert(l[j] == x);
                    } else {
                        assert(l[l.len() - 1] == x);
                    }
                } else {
                    assert(f == fi);
                    assert(fi.to_set().contains(x));
                    let j = choose|j: int| 0 <= j < init.len() && init[j] == x;
                    assert(l[j] == x);
                }
            }
            assert forall|x: i64| l.to_set().filter(p).contains(x) implies f.to_set().contains(x) by {
                let j = choose|j: int| 0 <= j < l.len() && l[j] == x;
                if j < l.len() - 1 {
                    assert(init[j] == x);
                    assert(init.to_set().filter(p).contains(x));
                    assert(fi.to_set().contains(x));
                    let k = choose|k: int| 0 <= k < fi.len() && fi[k] == x;
                    if p(l.last()) {
                        assert(f == fi.push(l.last()));
                        assert(f[k] == x);
                    } else {
                        assert(f == fi);
                    }
                } else {
                    assert(f == fi.push(l.last()));
                    assert(f[fi.len() as int] == x);
                }
            }
        }
    } else {
        assert(l.filter(p).to_set() =~= l.to_set().filter(p));
    }
}

/// Calls `slice::sort_unstable` on a vector of ids. Trusted: afterwards the vector holds
/// the same ids, each as often as before, in non-decreasing order.
#[verifier::external_body]
pub(crate) fn sort_ids(v: &mut Vec<i64>)
    ensures
        final(v)@.to_multiset() == old(v)@.to_multiset(),
        non_decreasing(final(v)@),
{
    v.sort_unstable();
}

/// Drops repeated neighbours of a non-decreasing list (`Vec::dedup`).
pub fn dedup_sorted(v: &Vec<i64>) -> (r: Vec<i64>)
    requires
        non_decreasing(v@),
    ensures
        strictly_increasing(r@),
        r@.to_set() == v@.to_set(),
{
    let mut r: Vec<i64> = Vec::new();
    let mut i: usize = 0;
    while i < v.len()
        invariant
            i <= v.len(),
            non_decreasing(v@),
            strictly_increasing(r@),
            r@.to_set() == v@.take(i as int).to_set(),
            r@.len() > 0 ==> i > 0 && r@.last() == v@[i - 1],
        decreases v.len() - i,
    {
        let x = v[i];
        let ghost old_r = r@;
        if r.len() == 0 || r[r.len() - 1] != x {
            if r.len() > 0 {
                assert(v@[i - 1] <= x);
            }
            r.push(x);
            assert forall|a: int, b: int| 0 <= a < b < r@.len() implies r@[a] < r@[b] by {
                if b == r@.len() - 1 && a < b {
                    assert(old_r[a] <= old_r.last());
                }
            }
        }
        assert(r@.to_set() =~= v@.take(i + 1).to_set()) by {
            let t1 = v@.take(i + 1);
            let t0 = v@.take(i as int);
            assert(t1 =~= t0.push(x));
            assert forall|y: i64| v@.take(i + 1).to_set().contains(y) implies r@.to_set().contains(
                y,
            ) by {
                let k = choose|k: int| 0 <= k < t1.len() && t1[k] == y;
                if k < i {
                    assert(t0[k] == y);
                    assert(old_r.to_set().contains(y));
                    let m = choose|m: int| 0 <= m < old_r.len() && old_r[m] == y;
                    assert(r@[m] == y);
                } else {
                    assert(r@.last() == x);
                }
            }
            assert forall|y: i64| r@.to_set().contains(y) implies v@.take(i + 1).to_set().contains(
                y,
            ) by {
                let m = choose|m: int| 0 <= m < r@.len() && r@[m] == y;
                if m < old_r.len() {
                    assert(old_r[m] == y);
                    assert(old_r.to_set().contains(y));
                    let k = choose|k: int| 0 <= k < t0.len() && t0[k] == y;
                    assert(t1[k] == y);
                } else {
                    assert(t1[i as int] == y);
                }
            }
        }
        i = i + 1;
    }
    assert(v@.take(v.len() as int) =~= v@);
    r
}

/// Sorts and de-duplicates: the ascending list of the ids that `v` holds.
pub fn ascending_ids(v: Vec<i64>) -> (r: Vec<i64>)
    ensures
        strictly_increasing(r@),
        r@.to_set() == v@.to_set(),
        r@ == ascending(v@.to_set()),
{
    let mut w = v;
    let ghost before = w@;
    sort_ids(&mut w);
    proof {
        before.to_multiset_ensures();
        w@.to_multiset_ensures();
        assert forall|x: i64| w@.to_set().contains(x) <==> before.to_set().contains(x) by {
            assert(w@.contains(x) <==> w@.to_multiset().count(x) > 0);
            assert(before.contains(x) <==> before.to_multiset().count(x) > 0);
        }
        assert(w@.to_set() =~= before.to_set());
    }
    let r = dedup_sorted(&w);
    proof {
        lemma_ascending_is(r@, before.to_set());
    }
    r
}

} // verus!
