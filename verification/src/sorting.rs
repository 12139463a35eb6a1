//! Ordering helpers: sorted, duplicate-free integer lists.

use vstd::prelude::*;

use crate::chars::{lex_lt, strs};

verus! {

broadcast use vstd::multiset::group_multiset_axioms, vstd::seq_lib::group_to_multiset_ensures;

/// The values of `s` are in strictly increasing order.
pub open spec fn strictly_increasing(s: Seq<u32>) -> bool {
    forall|i: int, j: int| 0 <= i < j < s.len() ==> s[i] < s[j]
}

/// The values of `s` are in non-decreasing order.
pub open spec fn non_decreasing(s: Seq<u32>) -> bool {
    forall|i: int, j: int| 0 <= i < j < s.len() ==> s[i] <= s[j]
}

/// Calls `slice::sort_unstable`, which the documentation describes as sorting the slice into
/// ascending order; the result is a rearrangement of the input.
#[verifier::external_body]
fn sort_u32(v: &mut Vec<u32>)
    ensures
        final(v)@.to_multiset() == old(v)@.to_multiset(),
        non_decreasing(final(v)@),
{
    v.sort_unstable();
}

/// The distinct values of `v` in increasing order.
pub fn sorted_unique(v: Vec<u32>) -> (r: Vec<u32>)
    ensures
        strictly_increasing(r@),
        forall|x: u32| r@.contains(x) <==> v@.contains(x),
{
    let mut s = v;
    let ghost orig = s@;
    sort_u32(&mut s);
    proof {
        assert forall|x: u32| s@.contains(x) <==> orig.contains(x) by {
            assert(s@.to_multiset().count(x) == orig.to_multiset().count(x));
        }
    }
    let mut r: Vec<u32> = Vec::new();
    let mut i: usize = 0;
    while i < s.len()
        invariant
            i <= s.len(),
            non_decreasing(s@),
            strictly_increasing(r@),
            forall|x: u32| r@.contains(x) <==> s@.take(i as int).contains(x),
            r@.len() > 0 ==> i > 0 && r@.last() == s@[i - 1],
        decreases s.len() - i,
    {
        let x = s[i];
        let ghost before = r@;
        if r.len() == 0 || r[r.len() - 1] != x {
            proof {
                if r@.len() > 0 {
                    assert(s@[i - 1] <= x);
                }
            }
            r.push(x);
            proof {
                assert forall|a: int, b: int| 0 <= a < b < r@.len() implies r@[a] < r@[b] by {
                    if b == r@.len() - 1 && a < b {
                        assert(before[a] <= before.last());
                    }
                }
            }
        }
        proof {
            assert(s@.take(i + 1) =~= s@.take(i as int).push(x));
            assert forall|y: u32| r@.contains(y) <==> s@.take(i + 1).contains(y) by {
                let t = s@.take(i + 1);
                if t.contains(y) && y != x {
                    let k = choose|k: int| 0 <= k < t.len() && #[trigger] t[k] == y;
                    assert(s@.take(i as int)[k] == y);
                    assert(s@.take(i as int).contains(y));
                    assert(before.contains(y));
                    let m = choose|m: int| 0 <= m < before.len() && #[trigger] before[m] == y;
                    assert(r@[m] == y);
                }
                if r@.contains(y) && y != x {
                    let k = choose|k: int| 0 <= k < r@.len() && #[trigger] r@[k] == y;
                    assert(before[k] == y);
                    assert(before.contains(y));
                    let u = s@.take(i as int);
                    assert(u.contains(y));
                    let j = choose|j: int| 0 <= j < u.len() && #[trigger] u[j] == y;
                    assert(t[j] == y);
                }
                if r@.contains(y) && y == x {
                    assert(s@.take(i + 1)[i as int] == x);
                }
                if s@.take(i + 1).contains(y) && y == x {
                    assert(r@[r@.len() - 1] == x);
                }
            }
        }
        i = i + 1;
    }
    assert(s@.take(s@.len() as int) =~= s@);
    r
}

} // verus!

verus! {

/// `new` is `old` rearranged by `p` (`new[i] == old[p[i]]`) into an order in which no element
/// comes `before` an element ahead of it, and elements neither of which comes `before` the other
/// keep their relative order.
pub open spec fn stable_sort_of<T>(old: Seq<T>, new: Seq<T>, p: Seq<int>, before: spec_fn(T, T) -> bool) -> bool {
    &&& p.len() == old.len()
    &&& new.len() == old.len()
    &&& forall|i: int| 0 <= i < p.len() ==> 0 <= #[trigger] p[i] < old.len()
    &&& forall|i: int, j: int| 0 <= i < j < p.len() ==> p[i] != p[j]
    &&& forall|i: int| 0 <= i < new.len() ==> #[trigger] new[i] == old[p[i]]
    &&& forall|i: int, j: int| 0 <= i < j < new.len() ==> !before(new[j], new[i])
    &&& forall|i: int, j: int| 0 <= i < j < new.len() && !before(new[i], new[j]) && !before(new[j], new[i])
        ==> p[i] < p[j]
}

/// The order of pairs by their first component.
pub open spec fn first_before<T>() -> spec_fn((usize, T), (usize, T)) -> bool {
    |a: (usize, T), b: (usize, T)| a.0 < b.0
}

/// Calls `slice::sort_by_key` with the first component as key. The documentation describes a
/// stable sort into ascending key order: the result is a rearrangement of the input in which
/// keys do not decrease and pairs with equal keys keep their relative order.
#[verifier::external_body]
pub(crate) fn sort_by_first<T>(v: &mut Vec<(usize, T)>)
    ensures
        exists|p: Seq<int>| stable_sort_of(old(v)@, final(v)@, p, first_before::<T>()),
{
    v.sort_by_key(|e| e.0);
}

/// The second components of `v`, in order.
pub fn seconds<T>(v: Vec<(usize, T)>) -> (r: Vec<T>)
    ensures
        r@ == v@.map_values(|e: (usize, T)| e.1),
{
    let mut r: Vec<T> = Vec::new();
    let ghost all = v@;
    for e in it: v.into_iter()
        invariant
            it.seq() == all,
            r@ == all.take(it.index() as int).map_values(|e: (usize, T)| e.1),
    {
        let ghost before = r@;
        r.push(e.1);
        proof {
            assert(all.take(it.index() + 1 as int) =~= all.take(it.index() as int).push(e));
            assert(r@ =~= all.take(it.index() + 1 as int).map_values(|e: (usize, T)| e.1));
        }
    }
    assert(all.take(all.len() as int) =~= all);
    r
}


/// A stable sort stays one when every element is mapped by `f`, given an order on the images
/// that agrees with the order on the elements.
pub proof fn lemma_stable_sort_map<T, U>(old: Seq<T>, new: Seq<T>, p: Seq<int>, before: spec_fn(T, T) -> bool,
    f: spec_fn(T) -> U, after: spec_fn(U, U) -> bool)
    requires
        stable_sort_of(old, new, p, before),
        forall|a: T, b: T| #[trigger] before(a, b) == after(f(a), f(b)),
    ensures
        stable_sort_of(old.map_values(f), new.map_values(f), p, after),
{
    let mo = old.map_values(f);
    let mn = new.map_values(f);
    assert forall|i: int| 0 <= i < mn.len() implies #[trigger] mn[i] == mo[p[i]] by {
        assert(new[i] == old[p[i]]);
    }
    assert forall|i: int, j: int| 0 <= i < j < mn.len() implies !after(mn[j], mn[i]) by {
        assert(!before(new[j], new[i]));
    }
    assert forall|i: int, j: int| 0 <= i < j < mn.len() && !after(mn[i], mn[j]) && !after(mn[j], mn[i])
        implies p[i] < p[j] by {
        assert(!before(new[i], new[j]));
        assert(!before(new[j], new[i]));
    }
}


/// Strings in the order of their characters.
pub open spec fn string_before() -> spec_fn(String, String) -> bool {
    |a: String, b: String| lex_lt(a@, b@)
}

/// No string of `s` comes after a later one.
pub open spec fn strings_non_decreasing(s: Seq<String>) -> bool {
    forall|i: int, j: int| 0 <= i < j < s.len() ==> !lex_lt(#[trigger] s[j]@, #[trigger] s[i]@)
}

/// Each string of `s` comes before every later one.
pub open spec fn strings_increasing(s: Seq<Seq<char>>) -> bool {
    forall|i: int, j: int| 0 <= i < j < s.len() ==> lex_lt(#[trigger] s[i], #[trigger] s[j])
}

/// Calls `slice::sort` on strings. The documentation describes a stable sort that rearranges
/// the elements into the order of `Ord for String`, which compares strings lexicographically
/// by their bytes; for UTF-8 that is the order of their characters' code points.
#[verifier::external_body]
pub(crate) fn sort_strings(v: &mut Vec<String>)
    ensures
        final(v)@.to_multiset() == old(v)@.to_multiset(),
        strings_non_decreasing(final(v)@),
{
    v.sort();
}

/// The strings of `v` in character order, each once.
pub fn sorted_unique_strings(v: Vec<String>) -> (r: Vec<String>)
    ensures
        strings_increasing(strs(r@)),
        forall|x: Seq<char>| strs(r@).contains(x) <==> strs(v@).contains(x),
{
    let mut v = v;
    let ghost before = v@;
    sort_strings(&mut v);
    proof {
        before.to_multiset_ensures();
        v@.to_multiset_ensures();
        assert forall|x: Seq<char>| strs(v@).contains(x) <==> strs(before).contains(x) by {
            if strs(v@).contains(x) {
                let i = choose|i: int| 0 <= i < strs(v@).len() && strs(v@)[i] == x;
                assert(v@.contains(v@[i]));
                assert(before.to_multiset().count(v@[i]) > 0);
                assert(before.contains(v@[i]));
                let k = choose|k: int| 0 <= k < before.len() && before[k] == v@[i];
                assert(strs(before)[k] == x);
            }
            if strs(before).contains(x) {
                let i = choose|i: int| 0 <= i < strs(before).len() && strs(before)[i] == x;
                assert(before.contains(before[i]));
                assert(v@.to_multiset().count(before[i]) > 0);
                assert(v@.contains(before[i]));
                let k = choose|k: int| 0 <= k < v@.len() && v@[k] == before[i];
                assert(strs(v@)[k] == x);
            }
        }
    }
    let mut r: Vec<String> = Vec::new();
    let mut i: usize = 0;
    while i < v.len()
        invariant
            i <= v.len(),
            strings_non_decreasing(v@),
            strings_increasing(strs(r@)),
            forall|x: Seq<char>| strs(r@).contains(x) <==> strs(v@.take(i as int)).contains(x),
            r@.len() > 0 ==> i > 0 && r@.last()@ == v@[i - 1]@,
        decreases v.len() - i,
    {
        let ghost prev = r@;
        if r.len() == 0 || !crate::chars::chars_equal(crate::chars::str_chars(r[r.len() - 1].as_str()).as_slice(),
            crate::chars::str_chars(v[i].as_str()).as_slice()) {
            r.push(v[i].clone());
            proof {
                if prev.len() > 0 {
                    assert(!lex_lt(v@[i as int]@, v@[i - 1]@));
                    crate::chars::lemma_lex_total(v@[i - 1]@, v@[i as int]@);
                    assert forall|a: int, b: int| 0 <= a < b < strs(r@).len() implies lex_lt(
                        #[trigger] strs(r@)[a], #[trigger] strs(r@)[b]) by {
                        if b == strs(r@).len() - 1 && a < b - 1 {
                            assert(lex_lt(strs(prev)[a], strs(prev)[b - 1]));
                            crate::chars::lemma_lex_transitive(strs(prev)[a], strs(prev)[b - 1], strs(r@)[b]);
                        } else if b < strs(r@).len() - 1 {
                            assert(strs(r@)[a] == strs(prev)[a]);
                            assert(strs(r@)[b] == strs(prev)[b]);
                        }
                    }
                }
            }
        }
        proof {
            let t = v@.take(i + 1);
            assert(strs(t) =~= strs(v@.take(i as int)).push(v@[i as int]@));
            assert forall|x: Seq<char>| strs(r@).contains(x) <==> strs(v@.take(i + 1)).contains(x) by {
                let ti = strs(v@.take(i as int));
                let tn = strs(v@.take(i + 1));
                assert(tn =~= ti.push(v@[i as int]@));
                if strs(r@).contains(x) {
                    let k = choose|k: int| 0 <= k < strs(r@).len() && strs(r@)[k] == x;
                    if k < prev.len() {
                        assert(strs(prev)[k] == x);
                        assert(strs(prev).contains(x));
                        assert(ti.contains(x));
                        let m = choose|m: int| 0 <= m < ti.len() && ti[m] == x;
                        assert(tn[m] == x);
                    } else {
                        assert(tn[i as int] == x);
                    }
                }
                if tn.contains(x) {
                    let k = choose|k: int| 0 <= k < tn.len() && tn[k] == x;
                    if k < i {
                        assert(ti[k] == x);
                        assert(ti.contains(x));
                        assert(strs(prev).contains(x));
                        let m = choose|m: int| 0 <= m < strs(prev).len() && strs(prev)[m] == x;
                        assert(strs(r@)[m] == x);
                    } else {
                        assert(x == v@[i as int]@);
                        assert(strs(r@)[r@.len() - 1] == x);
                    }
                }
            }
        }
        i = i + 1;
    }
    assert(v@.take(v@.len() as int) =~= v@);
    r
}


/// Two strictly increasing sequences of strings with the same elements are equal.
pub proof fn lemma_increasing_unique(a: Seq<Seq<char>>, b: Seq<Seq<char>>)
    requires
        strings_increasing(a),
        strings_increasing(b),
        forall|x: Seq<char>| a.contains(x) <==> b.contains(x),
    ensures
        a == b,
    decreases a.len(),
{
    if a.len() == 0 {
        if b.len() > 0 {
            assert(b.contains(b[0]));
        }
        assert(a =~= b);
    } else if b.len() == 0 {
        assert(a.contains(a[0]));
    } else {
        assert(a.contains(a[0]));
        assert(b.contains(b[0]));
        let i = choose|i: int| 0 <= i < b.len() && b[i] == a[0];
        let j = choose|j: int| 0 <= j < a.len() && a[j] == b[0];
        if i > 0 {
            assert(crate::chars::lex_lt(b[0], b[i]));
            if j > 0 {
                assert(crate::chars::lex_lt(a[0], a[j]));
                crate::chars::lemma_lex_asymmetric(a[0], b[0]);
            } else {
                crate::chars::lemma_lex_irreflexive(a[0]);
            }
        }
        assert(a[0] == b[0]) by {
            if i > 0 {
                assert(crate::chars::lex_lt(b[0], a[0]));
                if j > 0 {
                    assert(crate::chars::lex_lt(a[0], b[0]));
                    crate::chars::lemma_lex_asymmetric(a[0], b[0]);
                } else {
                    crate::chars::lemma_lex_irreflexive(a[0]);
                }
            }
        }
        let a2 = a.drop_first();
        let b2 = b.drop_first();
        assert forall|x: Seq<char>| a2.contains(x) <==> b2.contains(x) by {
            if a2.contains(x) {
                let k = choose|k: int| 0 <= k < a2.len() && a2[k] == x;
                assert(a[k + 1] == x);
                assert(crate::chars::lex_lt(a[0], x));
                assert(b.contains(x));
                let m = choose|m: int| 0 <= m < b.len() && b[m] == x;
                if m == 0 {
                    crate::chars::lemma_lex_irreflexive(x);
                }
                assert(b2[m - 1] == x);
            }
            if b2.contains(x) {
                let k = choose|k: int| 0 <= k < b2.len() && b2[k] == x;
                assert(b[k + 1] == x);
                assert(crate::chars::lex_lt(b[0], x));
                assert(a.contains(x));
                let m = choose|m: int| 0 <= m < a.len() && a[m] == x;
                if m == 0 {
                    crate::chars::lemma_lex_irreflexive(x);
                }
                assert(a2[m - 1] == x);
            }
        }
        assert forall|p: int, q: int| 0 <= p < q < a2.len() implies crate::chars::lex_lt(#[trigger] a2[p],
            #[trigger] a2[q]) by {
            assert(a2[p] == a[p + 1] && a2[q] == a[q + 1]);
        }
        assert forall|p: int, q: int| 0 <= p < q < b2.len() implies crate::chars::lex_lt(#[trigger] b2[p],
            #[trigger] b2[q]) by {
            assert(b2[p] == b[p + 1] && b2[q] == b[q + 1]);
        }
        lemma_increasing_unique(a2, b2);
        assert(a =~= seq![a[0]] + a2);
        assert(b =~= seq![b[0]] + b2);
    }
}

/// The strictly increasing sequence holding the strings of `s`.
pub open spec fn sorted_set(s: Seq<Seq<char>>) -> Seq<Seq<char>> {
    choose|t: Seq<Seq<char>>| strings_increasing(t) && forall|x: Seq<char>| t.contains(x) <==> s.contains(x)
}

/// A strictly increasing sequence with the strings of `s` is `sorted_set(s)`.
pub proof fn lemma_sorted_set(t: Seq<Seq<char>>, s: Seq<Seq<char>>)
    requires
        strings_increasing(t),
        forall|x: Seq<char>| t.contains(x) <==> s.contains(x),
    ensures
        t == sorted_set(s),
{
    let u = sorted_set(s);
    assert(strings_increasing(u) && forall|x: Seq<char>| u.contains(x) <==> s.contains(x));
    lemma_increasing_unique(t, u);
}

} // verus!
