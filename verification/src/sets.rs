//! Sets of strings kept as sorted lists that hold each string once, as class fingerprints keep
//! their shapes: comparing strings in that order, and counting what two such sets share.

use vstd::prelude::*;
use vstd::std_specs::iter::IteratorSpec;

use crate::chars::{lemma_lex_irreflexive, lemma_lex_total, lemma_lex_transitive, lex_lt, strs};
use crate::sorting::strings_increasing;

verus! {

/// Whether `a` comes before `b` in the order of their characters.
pub fn str_less(a: &str, b: &str) -> (r: bool)
    ensures
        r == lex_lt(a@, b@),
{
    let mut x = a.chars();
    let mut y = b.chars();
    let ghost mut k: int = 0;
    assert(a@.skip(0) =~= a@);
    assert(b@.skip(0) =~= b@);
    loop
        invariant
            0 <= k <= a@.len(),
            k <= b@.len(),
            x.remaining() == a@.skip(k),
            y.remaining() == b@.skip(k),
            lex_lt(a@, b@) == lex_lt(a@.skip(k), b@.skip(k)),
        decreases a@.len() - k,
    {
        let c = x.next();
        let d = y.next();
        match (c, d) {
            (None, None) => {
                return false;
            },
            (None, Some(_)) => {
                return true;
            },
            (Some(_), None) => {
                return false;
            },
            (Some(p), Some(q)) => {
                if p != q {
                    return p < q;
                }
                proof {
                    assert(a@.skip(k).drop_first() =~= a@.skip(k + 1));
                    assert(b@.skip(k).drop_first() =~= b@.skip(k + 1));
                    k = k + 1;
                }
            },
        }
    }
}

/// How many strings of `a` (each time it occurs) `b` holds too.
pub open spec fn shared(a: Seq<Seq<char>>, b: Seq<Seq<char>>) -> nat
    decreases a.len(),
{
    if a.len() == 0 {
        0
    } else {
        shared(a.drop_last(), b) + if b.contains(a.last()) {
            1nat
        } else {
            0nat
        }
    }
}

proof fn lemma_shared_bound(a: Seq<Seq<char>>, b: Seq<Seq<char>>)
    ensures
        shared(a, b) <= a.len(),
    decreases a.len(),
{
    if a.len() > 0 {
        lemma_shared_bound(a.drop_last(), b);
    }
}

/// Nothing from position `i` of `a` on is in `b`.
proof fn lemma_shared_rest_absent(a: Seq<Seq<char>>, b: Seq<Seq<char>>, i: int)
    requires
        0 <= i <= a.len(),
        forall|k: int| i <= k < a.len() ==> !b.contains(#[trigger] a[k]),
    ensures
        shared(a, b) == shared(a.take(i), b),
    decreases a.len() - i,
{
    if i < a.len() {
        lemma_shared_rest_absent(a, b, i + 1);
        assert(a.take(i + 1).drop_last() =~= a.take(i));
        assert(a.take(i + 1).last() == a[i]);
    } else {
        assert(a.take(i) =~= a);
    }
}

/// How many strings two sorted lists of distinct strings share.
pub fn shared_count(a: &[String], b: &[String]) -> (r: usize)
    requires
        strings_increasing(strs(a@)),
        strings_increasing(strs(b@)),
    ensures
        r == shared(strs(a@), strs(b@)),
{
    let ghost sa = strs(a@);
    let ghost sb = strs(b@);
    let mut count: usize = 0;
    let mut i: usize = 0;
    let mut j: usize = 0;
    while i < a.len() && j < b.len()
        invariant
            i <= a.len(),
            j <= b.len(),
            sa == strs(a@),
            sb == strs(b@),
            strings_increasing(sa),
            strings_increasing(sb),
            count == shared(sa.take(i as int), sb),
            forall|l: int| 0 <= l < j ==> forall|k: int| i <= k < a.len() ==> lex_lt(#[trigger] sb[l], #[trigger] sa[k]),
        decreases a.len() + b.len() - i - j,
    {
        let ghost x = sa[i as int];
        let ghost y = sb[j as int];
        proof {
            lemma_shared_bound(sa.take(i as int), sb);
            assert(sa.take(i + 1).drop_last() =~= sa.take(i as int));
            assert(sa.take(i + 1).last() == x);
            assert(a@[i as int]@ == x);
            assert(b@[j as int]@ == y);
        }
        if a[i] == b[j] {
            proof {
                assert(sb[j as int] == x);
                assert forall|l: int| 0 <= l < j + 1 implies forall|k: int|
                    i + 1 <= k < a.len() ==> lex_lt(#[trigger] sb[l], #[trigger] sa[k]) by {
                    assert forall|k: int| i + 1 <= k < a.len() implies lex_lt(#[trigger] sb[l], #[trigger] sa[k]) by {
                        assert(lex_lt(sa[i as int], sa[k]));
                        if l < j {
                            assert(lex_lt(sb[l], sa[i as int]));
                            lemma_lex_transitive(sb[l], sa[i as int], sa[k]);
                        }
                    }
                }
            }
            count = count + 1;
            i = i + 1;
            j = j + 1;
        } else if str_less(a[i].as_str(), b[j].as_str()) {
            proof {
                // `x` is below every string of `b` from `j` on, and above those before it
                assert forall|l: int| 0 <= l < sb.len() implies sb[l] != x by {
                    if l < j {
                        assert(lex_lt(sb[l], x));
                        lemma_lex_irreflexive(x);
                    } else if l == j {
                    } else {
                        assert(lex_lt(sb[j as int], sb[l]));
                        lemma_lex_transitive(x, sb[j as int], sb[l]);
                        lemma_lex_irreflexive(x);
                    }
                }
                assert(!sb.contains(x));
                assert forall|l: int| 0 <= l < j implies forall|k: int|
                    i + 1 <= k < a.len() ==> lex_lt(#[trigger] sb[l], #[trigger] sa[k]) by {
                }
            }
            i = i + 1;
        } else {
            proof {
                lemma_lex_total(x, y);
                assert(lex_lt(y, x));
                assert forall|l: int| 0 <= l < j + 1 implies forall|k: int|
                    i <= k < a.len() ==> lex_lt(#[trigger] sb[l], #[trigger] sa[k]) by {
                    assert forall|k: int| i <= k < a.len() implies lex_lt(#[trigger] sb[l], #[trigger] sa[k]) by {
                        if l == j && k > i {
                            assert(lex_lt(sa[i as int], sa[k]));
                            lemma_lex_transitive(y, x, sa[k]);
                        }
                    }
                }
            }
            j = j + 1;
        }
    }
    proof {
        if i < a.len() {
            // `b` is used up: each string of `b` is below what is left of `a`
            assert forall|k: int| i <= k < a.len() implies !sb.contains(#[trigger] sa[k]) by {
                if sb.contains(sa[k]) {
                    let l = choose|l: int| 0 <= l < sb.len() && sb[l] == sa[k];
                    assert(lex_lt(sb[l], sa[k]));
                    lemma_lex_irreflexive(sa[k]);
                }
            }
            lemma_shared_rest_absent(sa, sb, i as int);
        } else {
            assert(sa.take(i as int) =~= sa);
        }
    }
    count
}

/// Whether `v` is sorted in the order of its strings' characters, each string once.
pub fn is_sorted_set(v: &[String]) -> (r: bool)
    ensures
        r == strings_increasing(strs(v@)),
{
    let ghost sv = strs(v@);
    if v.len() == 0 {
        return true;
    }
    let mut i: usize = 1;
    while i < v.len()
        invariant
            1 <= i <= v.len(),
            sv == strs(v@),
            forall|p: int, q: int| 0 <= p < q < i ==> lex_lt(#[trigger] sv[p], #[trigger] sv[q]),
        decreases v.len() - i,
    {
        if !str_less(v[i - 1].as_str(), v[i].as_str()) {
            proof {
                assert(!lex_lt(sv[i - 1], sv[i as int]));
            }
            return false;
        }
        proof {
            assert forall|p: int, q: int| 0 <= p < q < i + 1 implies lex_lt(#[trigger] sv[p], #[trigger] sv[q]) by {
                if q == i && p < i - 1 {
                    lemma_lex_transitive(sv[p], sv[i - 1], sv[q]);
                }
            }
        }
        i = i + 1;
    }
    true
}

} // verus!
