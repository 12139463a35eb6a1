//! Candidate selection inside a matched pair of classes: which new methods and fields are worth
//! scoring against an old one. Candidates come from the members with the same name, then the same
//! prototype or type, then the methods whose code references the same strings and methods; each
//! member at most once, and no more than a limit. With none found, the first members stand in.

use std::collections::BTreeSet;

use vstd::prelude::*;

use crate::anchors::{hits, lemma_hits_len, lemma_hits_step};
use crate::candidates::{extend_unseen, lemma_take_unseen_congruent, positions_in, take_unseen};
use crate::chars::strs;
use crate::fingerprint::{first_n, proto_shape, proto_shape_text};
use crate::model::{FieldModel, FieldModelView, MethodModel, MethodModelView};
use crate::table::KeyTable;

verus! {

broadcast use vstd::std_specs::btree::group_btree_axioms, vstd::laws_cmp::group_laws_cmp;

/// The positions `p` of `lists`, once for each time `v` occurs in `lists[p]`, in order.
pub open spec fn list_positions(lists: Seq<Seq<Seq<char>>>, v: Seq<char>) -> Seq<usize>
    decreases lists.len(),
{
    if lists.len() == 0 {
        Seq::empty()
    } else {
        list_positions(lists.drop_last(), v) + hits(lists.last(), v, (lists.len() - 1) as usize)
    }
}

pub proof fn lemma_list_positions_step(lists: Seq<Seq<Seq<char>>>, i: int, v: Seq<char>)
    requires
        0 <= i < lists.len(),
    ensures
        list_positions(lists.take(i + 1), v) == list_positions(lists.take(i), v) + hits(lists[i], v, i as usize),
{
    assert(lists.take(i + 1).drop_last() =~= lists.take(i));
}

pub proof fn lemma_list_positions_in(lists: Seq<Seq<Seq<char>>>, v: Seq<char>)
    ensures
        forall|k: int| 0 <= k < list_positions(lists, v).len() ==> #[trigger] list_positions(lists, v)[k] < lists.len(),
    decreases lists.len(),
{
    if lists.len() > 0 {
        lemma_list_positions_in(lists.drop_last(), v);
        lemma_hits_len(lists.last(), v, (lists.len() - 1) as usize);
        let a = list_positions(lists.drop_last(), v);
        let h = hits(lists.last(), v, (lists.len() - 1) as usize);
        assert forall|k: int| 0 <= k < (a + h).len() implies #[trigger] (a + h)[k] < lists.len() by {
            if k >= a.len() {
                assert((a + h)[k] == h[k - a.len()]);
            }
        }
    }
}

pub proof fn lemma_hits_single(k: Seq<char>, v: Seq<char>, p: usize)
    ensures
        hits(seq![k], v, p) == if k == v {
            seq![p]
        } else {
            Seq::<usize>::empty()
        },
{
    let s = seq![k];
    assert(s.len() == 1);
    assert(s.drop_last() =~= Seq::<Seq<char>>::empty());
    assert(hits(s.drop_last(), v, p) == Seq::<usize>::empty());
    assert(s.last() == k);
    assert(Seq::<usize>::empty() + seq![p] =~= seq![p]);
    assert(Seq::<usize>::empty() + Seq::<usize>::empty() =~= Seq::<usize>::empty());
}

/// Goes through `buckets` in order, taking the unseen items of each, until `found` reaches
/// `limit`; tells whether it stopped there.
pub open spec fn run_buckets(found: Seq<usize>, seen: Set<usize>, buckets: Seq<Seq<usize>>, ids: Seq<usize>, limit: usize) -> (
    Seq<usize>,
    Set<usize>,
    bool,
)
    decreases buckets.len(),
{
    if buckets.len() == 0 {
        (found, seen, false)
    } else {
        let s = take_unseen(found, seen, buckets[0], ids, limit);
        if s.0.len() >= limit {
            (s.0, s.1, true)
        } else {
            run_buckets(s.0, s.1, buckets.skip(1), ids, limit)
        }
    }
}

pub proof fn lemma_run_buckets_concat(
    found: Seq<usize>,
    seen: Set<usize>,
    a: Seq<Seq<usize>>,
    b: Seq<Seq<usize>>,
    ids: Seq<usize>,
    limit: usize,
)
    ensures
        run_buckets(found, seen, a + b, ids, limit) == ({
            let r = run_buckets(found, seen, a, ids, limit);
            if r.2 {
                r
            } else {
                run_buckets(r.0, r.1, b, ids, limit)
            }
        }),
    decreases a.len(),
{
    if a.len() == 0 {
        assert(a + b =~= b);
    } else {
        assert((a + b)[0] == a[0]);
        assert((a + b).skip(1) =~= a.skip(1) + b);
        let s = take_unseen(found, seen, a[0], ids, limit);
        if s.0.len() < limit {
            lemma_run_buckets_concat(s.0, s.1, a.skip(1), b, ids, limit);
        }
    }
}

pub proof fn lemma_run_buckets_stop(found: Seq<usize>, seen: Set<usize>, buckets: Seq<Seq<usize>>, ids: Seq<usize>, limit: usize)
    ensures
        run_buckets(found, seen, buckets, ids, limit).2 ==> run_buckets(found, seen, buckets, ids, limit).0.len() >= limit,
    decreases buckets.len(),
{
    if buckets.len() > 0 {
        let s = take_unseen(found, seen, buckets[0], ids, limit);
        if s.0.len() < limit {
            lemma_run_buckets_stop(s.0, s.1, buckets.skip(1), ids, limit);
        }
    }
}

proof fn lemma_run_buckets_congruent(
    f1: Seq<usize>,
    s1: Set<usize>,
    b1: Seq<Seq<usize>>,
    f2: Seq<usize>,
    s2: Set<usize>,
    b2: Seq<Seq<usize>>,
    ids: Seq<usize>,
    limit: usize,
)
    requires
        f1 =~= f2,
        s1 =~= s2,
        b1 =~= b2,
    ensures
        run_buckets(f1, s1, b1, ids, limit) === run_buckets(f2, s2, b2, ids, limit),
{
}

/// The buckets that the keys `keys` find in `table`.
pub open spec fn buckets_of(table: KeyTable<Vec<usize>>, keys: Seq<Seq<char>>) -> Seq<Seq<usize>> {
    keys.map_values(|v: Seq<char>| table.list_of(v))
}

/// The items of an optional list.
pub open spec fn list_items(list: Option<&Vec<usize>>) -> Seq<usize> {
    match list {
        Some(b) => b@,
        None => Seq::empty(),
    }
}

/// Takes the unseen items of the bucket that each of the first `n` of `keys` finds in
/// `table`, until `found` reaches `limit`; tells whether it stopped there.
fn extend_from_keys(
    table: &KeyTable<Vec<usize>>,
    keys: &Vec<String>,
    n: usize,
    found: &mut Vec<usize>,
    seen: &mut BTreeSet<usize>,
    ids: &Vec<usize>,
    limit: usize,
) -> (stop: bool)
    requires
        table.wf(),
        forall|v: Seq<char>| positions_in(#[trigger] table.list_of(v), ids@),
    ensures
        ({
            let r = run_buckets(old(found)@, old(seen)@, buckets_of(*table, first_n(strs(keys@), n as nat)), ids@, limit);
            final(found)@ == r.0 && final(seen)@ == r.1 && stop == r.2
        }),
{
    let ghost all = buckets_of(*table, first_n(strs(keys@), n as nat));
    let ghost target = run_buckets(found@, seen@, all, ids@, limit);
    let count = if keys.len() < n {
        keys.len()
    } else {
        n
    };
    assert(all.len() == count);
    assert(all.skip(0) =~= all);
    let mut j: usize = 0;
    while j < count
        invariant
            j <= count,
            count <= keys.len(),
            all.len() == count,
            table.wf(),
            forall|v: Seq<char>| positions_in(#[trigger] table.list_of(v), ids@),
            all == buckets_of(*table, first_n(strs(keys@), n as nat)),
            forall|k: int| 0 <= k < count ==> #[trigger] all[k] == table.list_of(keys@[k]@),
            run_buckets(found@, seen@, all.skip(j as int), ids@, limit) === target,
            target === run_buckets(old(found)@, old(seen)@, all, ids@, limit),
        decreases count - j,
    {
        let ghost rest = all.skip(j as int);
        proof {
            assert(rest[0] == all[j as int]);
            assert(rest.skip(1) =~= all.skip(j + 1));
        }
        let ghost found_j = found@;
        let ghost seen_j = seen@;
        let list = table.list(&keys[j]);
        assert(list_items(list) == all[j as int]);
        match list {
            Some(b) => {
                assert(positions_in(table.list_of(keys@[j as int]@), ids@));
                extend_unseen(found, seen, b, ids, limit);
            },
            None => {
                assert(all[j as int] =~= Seq::<usize>::empty());
            },
        }
        if found.len() >= limit {
            return true;
        }
        proof {
            lemma_run_buckets_congruent(found@, seen@, rest.skip(1), found@, seen@, all.skip(j + 1), ids@, limit);
        }
        j = j + 1;
    }
    proof {
        assert(all.skip(count as int) =~= Seq::<Seq<usize>>::empty());
    }
    false
}

/// Adds the position `p` to the list of each of the first `n` of `keys`.
fn add_keys(table: &mut KeyTable<Vec<usize>>, keys: &Vec<String>, n: usize, p: usize)
    requires
        old(table).wf(),
    ensures
        final(table).wf(),
        forall|v: Seq<char>| #[trigger]
            final(table).list_of(v) == old(table).list_of(v) + hits(first_n(strs(keys@), n as nat), v, p),
{
    let ghost start = *table;
    let ghost ks = first_n(strs(keys@), n as nat);
    let count = if keys.len() < n {
        keys.len()
    } else {
        n
    };
    assert(ks.len() == count);
    let mut j: usize = 0;
    while j < count
        invariant
            j <= count,
            count <= keys.len(),
            ks.len() == count,
            ks == first_n(strs(keys@), n as nat),
            table.wf(),
            forall|v: Seq<char>| #[trigger] table.list_of(v) == start.list_of(v) + hits(ks.take(j as int), v, p),
        decreases count - j,
    {
        table.push_to(&keys[j], p);
        proof {
            assert(ks[j as int] == keys@[j as int]@);
            assert forall|v: Seq<char>| #[trigger] table.list_of(v) == start.list_of(v) + hits(ks.take(j + 1), v, p) by {
                lemma_hits_step(ks, j as int, v, p);
            }
        }
        j = j + 1;
    }
    proof {
        assert(ks.take(count as int) =~= ks);
    }
}

// ----- methods -----

/// Each method's name, as a one-key list.
pub open spec fn method_name_lists(ms: Seq<MethodModelView>) -> Seq<Seq<Seq<char>>> {
    ms.map_values(|m: MethodModelView| seq![m.name])
}

/// Each method's prototype, as a one-key list.
pub open spec fn method_proto_lists(ms: Seq<MethodModelView>) -> Seq<Seq<Seq<char>>> {
    ms.map_values(|m: MethodModelView| seq![proto_shape(m)])
}

/// The first 32 strings each method's code references, or none.
pub open spec fn method_string_lists(ms: Seq<MethodModelView>) -> Seq<Seq<Seq<char>>> {
    ms.map_values(
        |m: MethodModelView|
            match m.code {
                Some(c) => first_n(c.string_refs, 32),
                None => Seq::empty(),
            },
    )
}

/// The first 32 methods each method's code references, or none.
pub open spec fn method_ref_lists(ms: Seq<MethodModelView>) -> Seq<Seq<Seq<char>>> {
    ms.map_values(
        |m: MethodModelView|
            match m.code {
                Some(c) => first_n(c.method_refs, 32),
                None => Seq::empty(),
            },
    )
}

/// The ids of `ms`, by position.
pub open spec fn method_ids(ms: Seq<MethodModelView>) -> Seq<usize> {
    ms.map_values(|m: MethodModelView| m.id)
}

/// The first `n` positions of a list of `len`.
pub open spec fn first_positions(len: nat, n: usize) -> Seq<usize> {
    Seq::new(if n < len {
        n as nat
    } else {
        len
    }, |k: int| k as usize)
}

/// The candidates for the old method `old` among the new methods `ms`, by position: those with
/// its name, then those with its prototype, then those whose code shares its first 16 string
/// references or its first 16 method references; with none found, the first `limit`.
pub open spec fn method_candidates_of(ms: Seq<MethodModelView>, old: MethodModelView, limit: usize) -> Seq<usize> {
    let ids = method_ids(ms);
    let s1 = take_unseen(Seq::empty(), Set::empty(), list_positions(method_name_lists(ms), old.name), ids, limit);
    let s2 = take_unseen(s1.0, s1.1, list_positions(method_proto_lists(ms), proto_shape(old)), ids, limit);
    let s3 = match old.code {
        Some(c) => run_buckets(
            s2.0,
            s2.1,
            first_n(c.string_refs, 16).map_values(|v: Seq<char>| list_positions(method_string_lists(ms), v))
                + first_n(c.method_refs, 16).map_values(|v: Seq<char>| list_positions(method_ref_lists(ms), v)),
            ids,
            limit,
        ).0,
        None => s2.0,
    };
    if s3.len() == 0 {
        first_positions(ms.len(), limit)
    } else {
        s3
    }
}

/// The new methods of a class, found by name, prototype and the strings and methods their code
/// references.
pub struct MethodCandidateIndex {
    by_name: KeyTable<Vec<usize>>,
    by_proto: KeyTable<Vec<usize>>,
    by_string_ref: KeyTable<Vec<usize>>,
    by_method_ref: KeyTable<Vec<usize>>,
    ids: Vec<usize>,
    methods: Ghost<Seq<MethodModelView>>,
}

impl MethodCandidateIndex {
    /// The new methods.
    pub closed spec fn methods(&self) -> Seq<MethodModelView> {
        self.methods@
    }

    pub closed spec fn wf(&self) -> bool {
        &&& self.by_name.wf()
        &&& self.by_proto.wf()
        &&& self.by_string_ref.wf()
        &&& self.by_method_ref.wf()
        &&& forall|v: Seq<char>| #[trigger]
            self.by_name.list_of(v) == list_positions(method_name_lists(self.methods@), v)
        &&& forall|v: Seq<char>| #[trigger]
            self.by_proto.list_of(v) == list_positions(method_proto_lists(self.methods@), v)
        &&& forall|v: Seq<char>| #[trigger]
            self.by_string_ref.list_of(v) == list_positions(method_string_lists(self.methods@), v)
        &&& forall|v: Seq<char>| #[trigger]
            self.by_method_ref.list_of(v) == list_positions(method_ref_lists(self.methods@), v)
        &&& self.ids@ == method_ids(self.methods@)
    }

    /// The index of the new methods `methods`.
    pub fn new(methods: &[MethodModel]) -> (r: Self)
        ensures
            r.wf(),
            r.methods() == methods@.map_values(|m: MethodModel| m@),
    {
        let ghost ms = methods@.map_values(|m: MethodModel| m@);
        let mut by_name: KeyTable<Vec<usize>> = KeyTable::new();
        let mut by_proto: KeyTable<Vec<usize>> = KeyTable::new();
        let mut by_string_ref: KeyTable<Vec<usize>> = KeyTable::new();
        let mut by_method_ref: KeyTable<Vec<usize>> = KeyTable::new();
        let mut ids: Vec<usize> = Vec::new();
        let mut i: usize = 0;
        while i < methods.len()
            invariant
                i <= methods.len(),
                ms == methods@.map_values(|m: MethodModel| m@),
                by_name.wf(),
                by_proto.wf(),
                by_string_ref.wf(),
                by_method_ref.wf(),
                forall|v: Seq<char>| #[trigger]
                    by_name.list_of(v) == list_positions(method_name_lists(ms).take(i as int), v),
                forall|v: Seq<char>| #[trigger]
                    by_proto.list_of(v) == list_positions(method_proto_lists(ms).take(i as int), v),
                forall|v: Seq<char>| #[trigger]
                    by_string_ref.list_of(v) == list_positions(method_string_lists(ms).take(i as int), v),
                forall|v: Seq<char>| #[trigger]
                    by_method_ref.list_of(v) == list_positions(method_ref_lists(ms).take(i as int), v),
                ids@ == method_ids(ms.take(i as int)),
            decreases methods.len() - i,
        {
            let m = &methods[i];
            let ghost mv = ms[i as int];
            assert(mv == m@);
            let ghost n0 = by_name;
            let ghost p0 = by_proto;
            let ghost s0 = by_string_ref;
            let ghost r0 = by_method_ref;
            by_name.push_to(&m.name, i);
            let proto = proto_shape_text(m);
            by_proto.push_to(&proto, i);
            match &m.code {
                Some(code) => {
                    add_keys(&mut by_string_ref, &code.string_refs, 32, i);
                    add_keys(&mut by_method_ref, &code.method_refs, 32, i);
                },
                None => {},
            }
            ids.push(m.id);
            proof {
                assert forall|v: Seq<char>| #[trigger]
                    by_name.list_of(v) == list_positions(method_name_lists(ms).take(i + 1), v) by {
                    lemma_list_positions_step(method_name_lists(ms), i as int, v);
                    lemma_hits_single(mv.name, v, i);
                    assert(n0.list_of(v) == list_positions(method_name_lists(ms).take(i as int), v));
                }
                assert forall|v: Seq<char>| #[trigger]
                    by_proto.list_of(v) == list_positions(method_proto_lists(ms).take(i + 1), v) by {
                    lemma_list_positions_step(method_proto_lists(ms), i as int, v);
                    lemma_hits_single(proto_shape(mv), v, i);
                    assert(p0.list_of(v) == list_positions(method_proto_lists(ms).take(i as int), v));
                }
                assert forall|v: Seq<char>| #[trigger]
                    by_string_ref.list_of(v) == list_positions(method_string_lists(ms).take(i + 1), v) by {
                    lemma_list_positions_step(method_string_lists(ms), i as int, v);
                    assert(s0.list_of(v) == list_positions(method_string_lists(ms).take(i as int), v));
                    if m.code.is_none() {
                        assert(method_string_lists(ms)[i as int] =~= Seq::<Seq<char>>::empty());
                        assert(hits(Seq::<Seq<char>>::empty(), v, i) =~= Seq::<usize>::empty());
                        assert(s0.list_of(v) + Seq::<usize>::empty() =~= s0.list_of(v));
                    }
                }
                assert forall|v: Seq<char>| #[trigger]
                    by_method_ref.list_of(v) == list_positions(method_ref_lists(ms).take(i + 1), v) by {
                    lemma_list_positions_step(method_ref_lists(ms), i as int, v);
                    assert(r0.list_of(v) == list_positions(method_ref_lists(ms).take(i as int), v));
                    if m.code.is_none() {
                        assert(method_ref_lists(ms)[i as int] =~= Seq::<Seq<char>>::empty());
                        assert(hits(Seq::<Seq<char>>::empty(), v, i) =~= Seq::<usize>::empty());
                        assert(r0.list_of(v) + Seq::<usize>::empty() =~= r0.list_of(v));
                    }
                }
                assert(ids@ =~= method_ids(ms.take(i + 1)));
            }
            i = i + 1;
        }
        proof {
            assert(ms.take(ms.len() as int) =~= ms);
            assert(method_name_lists(ms).take(ms.len() as int) =~= method_name_lists(ms));
            assert(method_proto_lists(ms).take(ms.len() as int) =~= method_proto_lists(ms));
            assert(method_string_lists(ms).take(ms.len() as int) =~= method_string_lists(ms));
            assert(method_ref_lists(ms).take(ms.len() as int) =~= method_ref_lists(ms));
        }
        MethodCandidateIndex { by_name, by_proto, by_string_ref, by_method_ref, ids, methods: Ghost(ms) }
    }
}

/// The first `n` positions of a list of `len`.
fn first_positions_exec(len: usize, n: usize) -> (r: Vec<usize>)
    ensures
        r@ == first_positions(len as nat, n),
{
    let mut r: Vec<usize> = Vec::new();
    let mut p: usize = 0;
    while p < len && p < n
        invariant
            p <= len,
            p <= n,
            r@ == Seq::new(p as nat, |k: int| k as usize),
        decreases len - p,
    {
        r.push(p);
        p = p + 1;
        assert(r@ =~= Seq::new(p as nat, |k: int| k as usize));
    }
    assert(r@ =~= first_positions(len as nat, n));
    r
}

/// Takes the unseen items of `list`, if there is one.
fn extend_list(list: Option<&Vec<usize>>, found: &mut Vec<usize>, seen: &mut BTreeSet<usize>, ids: &Vec<usize>, limit: usize)
    requires
        positions_in(list_items(list), ids@),
    ensures
        final(found)@ == take_unseen(old(found)@, old(seen)@, list_items(list), ids@, limit).0,
        final(seen)@ == take_unseen(old(found)@, old(seen)@, list_items(list), ids@, limit).1,
{
    match list {
        Some(b) => extend_unseen(found, seen, b, ids, limit),
        None => {},
    }
}

impl MethodCandidateIndex {
    /// The new methods worth scoring against `old`, by position, as `method_candidates_of` says.
    pub fn candidates(&self, old: &MethodModel, limit: usize) -> (r: Vec<usize>)
        requires
            self.wf(),
        ensures
            r@ == method_candidates_of(self.methods(), old@, limit),
    {
        let ghost ms = self.methods@;
        let ghost ids = method_ids(ms);
        let mut result: Vec<usize> = Vec::new();
        let mut seen: BTreeSet<usize> = BTreeSet::new();
        proof {
            assert(method_name_lists(ms).len() == ids.len());
            assert(method_proto_lists(ms).len() == ids.len());
            assert(method_string_lists(ms).len() == ids.len());
            assert(method_ref_lists(ms).len() == ids.len());
            lemma_list_positions_in(method_name_lists(ms), old.name@);
            assert forall|v: Seq<char>| positions_in(#[trigger] self.by_string_ref.list_of(v), self.ids@) by {
                lemma_list_positions_in(method_string_lists(ms), v);
            }
            assert forall|v: Seq<char>| positions_in(#[trigger] self.by_method_ref.list_of(v), self.ids@) by {
                lemma_list_positions_in(method_ref_lists(ms), v);
            }
        }
        let name_list = self.by_name.list(&old.name);
        extend_list(name_list, &mut result, &mut seen, &self.ids, limit);
        let ghost s1 = take_unseen(Seq::empty(), Set::empty(), list_positions(method_name_lists(ms), old@.name), ids, limit);
        proof {
            lemma_take_unseen_congruent(
                Seq::empty(),
                Set::empty(),
                list_items(name_list),
                Seq::empty(),
                Set::empty(),
                list_positions(method_name_lists(ms), old@.name),
                ids,
                limit,
            );
        }
        let proto = proto_shape_text(old);
        proof {
            lemma_list_positions_in(method_proto_lists(ms), proto@);
        }
        let ghost f1 = result@;
        let ghost e1 = seen@;
        let proto_list = self.by_proto.list(&proto);
        extend_list(proto_list, &mut result, &mut seen, &self.ids, limit);
        let ghost s2 = take_unseen(s1.0, s1.1, list_positions(method_proto_lists(ms), proto_shape(old@)), ids, limit);
        proof {
            lemma_take_unseen_congruent(
                f1,
                e1,
                list_items(proto_list),
                s1.0,
                s1.1,
                list_positions(method_proto_lists(ms), proto_shape(old@)),
                ids,
                limit,
            );
            assert(result@ == s2.0);
            assert(seen@ == s2.1);
        }
        match &old.code {
            Some(code) => {
                let ghost c = old@.code.unwrap();
                let ghost a = first_n(c.string_refs, 16).map_values(|v: Seq<char>| list_positions(method_string_lists(ms), v));
                let ghost b = first_n(c.method_refs, 16).map_values(|v: Seq<char>| list_positions(method_ref_lists(ms), v));
                let ghost f2 = result@;
                let ghost s2 = seen@;
                let ghost ra = run_buckets(f2, s2, a, ids, limit);
                proof {
                    assert(c.string_refs == strs(code.string_refs@));
                    assert(c.method_refs == strs(code.method_refs@));
                    assert(buckets_of(self.by_string_ref, first_n(strs(code.string_refs@), 16)) =~= a);
                    assert(buckets_of(self.by_method_ref, first_n(strs(code.method_refs@), 16)) =~= b);
                    lemma_run_buckets_concat(f2, s2, a, b, ids, limit);
                    lemma_run_buckets_stop(f2, s2, a, ids, limit);
                    lemma_run_buckets_stop(ra.0, ra.1, b, ids, limit);
                    lemma_run_buckets_congruent(
                        f2,
                        s2,
                        buckets_of(self.by_string_ref, first_n(strs(code.string_refs@), 16)),
                        f2,
                        s2,
                        a,
                        ids,
                        limit,
                    );
                }
                if extend_from_keys(&self.by_string_ref, &code.string_refs, 16, &mut result, &mut seen, &self.ids, limit) {
                    assert(result@ == ra.0);
                    return result;
                }
                proof {
                    lemma_run_buckets_congruent(
                        result@,
                        seen@,
                        buckets_of(self.by_method_ref, first_n(strs(code.method_refs@), 16)),
                        ra.0,
                        ra.1,
                        b,
                        ids,
                        limit,
                    );
                }
                if extend_from_keys(&self.by_method_ref, &code.method_refs, 16, &mut result, &mut seen, &self.ids, limit) {
                    return result;
                }
            },
            None => {},
        }
        if result.len() == 0 {
            return first_positions_exec(self.ids.len(), limit);
        }
        result
    }
}

// ----- fields -----

/// Each field's name, as a one-key list.
pub open spec fn field_name_lists(fs: Seq<FieldModelView>) -> Seq<Seq<Seq<char>>> {
    fs.map_values(|f: FieldModelView| seq![f.name])
}

/// Each field's type, as a one-key list.
pub open spec fn field_type_lists(fs: Seq<FieldModelView>) -> Seq<Seq<Seq<char>>> {
    fs.map_values(|f: FieldModelView| seq![f.field_type])
}

/// The ids of `fs`, by position.
pub open spec fn field_ids(fs: Seq<FieldModelView>) -> Seq<usize> {
    fs.map_values(|f: FieldModelView| f.id)
}

/// The candidates for the old field `old` among the new fields `fs`, by position: those with its
/// name, then those with its type; with none found, the first `limit`.
pub open spec fn field_candidates_of(fs: Seq<FieldModelView>, old: FieldModelView, limit: usize) -> Seq<usize> {
    let ids = field_ids(fs);
    let s1 = take_unseen(Seq::empty(), Set::empty(), list_positions(field_name_lists(fs), old.name), ids, limit);
    let s2 = take_unseen(s1.0, s1.1, list_positions(field_type_lists(fs), old.field_type), ids, limit);
    if s2.0.len() == 0 {
        first_positions(fs.len(), limit)
    } else {
        s2.0
    }
}

/// The new fields of a class, found by name and by type.
pub struct FieldCandidateIndex {
    by_name: KeyTable<Vec<usize>>,
    by_type: KeyTable<Vec<usize>>,
    ids: Vec<usize>,
    fields: Ghost<Seq<FieldModelView>>,
}

impl FieldCandidateIndex {
    /// The new fields.
    pub closed spec fn fields(&self) -> Seq<FieldModelView> {
        self.fields@
    }

    pub closed spec fn wf(&self) -> bool {
        &&& self.by_name.wf()
        &&& self.by_type.wf()
        &&& forall|v: Seq<char>| #[trigger] self.by_name.list_of(v) == list_positions(field_name_lists(self.fields@), v)
        &&& forall|v: Seq<char>| #[trigger] self.by_type.list_of(v) == list_positions(field_type_lists(self.fields@), v)
        &&& self.ids@ == field_ids(self.fields@)
    }

    /// The index of the new fields `fields`.
    pub fn new(fields: &[FieldModel]) -> (r: Self)
        ensures
            r.wf(),
            r.fields() == fields@.map_values(|f: FieldModel| f@),
    {
        let ghost fs = fields@.map_values(|f: FieldModel| f@);
        let mut by_name: KeyTable<Vec<usize>> = KeyTable::new();
        let mut by_type: KeyTable<Vec<usize>> = KeyTable::new();
        let mut ids: Vec<usize> = Vec::new();
        let mut i: usize = 0;
        while i < fields.len()
            invariant
                i <= fields.len(),
                fs == fields@.map_values(|f: FieldModel| f@),
                by_name.wf(),
                by_type.wf(),
                forall|v: Seq<char>| #[trigger] by_name.list_of(v) == list_positions(field_name_lists(fs).take(i as int), v),
                forall|v: Seq<char>| #[trigger] by_type.list_of(v) == list_positions(field_type_lists(fs).take(i as int), v),
                ids@ == field_ids(fs.take(i as int)),
            decreases fields.len() - i,
        {
            let f = &fields[i];
            let ghost fv = fs[i as int];
            assert(fv == f@);
            let ghost n0 = by_name;
            let ghost t0 = by_type;
            by_name.push_to(&f.name, i);
            by_type.push_to(&f.field_type, i);
            ids.push(f.id);
            proof {
                assert forall|v: Seq<char>| #[trigger] by_name.list_of(v) == list_positions(field_name_lists(fs).take(i + 1), v) by {
                    lemma_list_positions_step(field_name_lists(fs), i as int, v);
                    lemma_hits_single(fv.name, v, i);
                    assert(n0.list_of(v) == list_positions(field_name_lists(fs).take(i as int), v));
                }
                assert forall|v: Seq<char>| #[trigger] by_type.list_of(v) == list_positions(field_type_lists(fs).take(i + 1), v) by {
                    lemma_list_positions_step(field_type_lists(fs), i as int, v);
                    lemma_hits_single(fv.field_type, v, i);
                    assert(t0.list_of(v) == list_positions(field_type_lists(fs).take(i as int), v));
                }
                assert(ids@ =~= field_ids(fs.take(i + 1)));
            }
            i = i + 1;
        }
        proof {
            assert(fs.take(fs.len() as int) =~= fs);
            assert(field_name_lists(fs).take(fs.len() as int) =~= field_name_lists(fs));
            assert(field_type_lists(fs).take(fs.len() as int) =~= field_type_lists(fs));
        }
        FieldCandidateIndex { by_name, by_type, ids, fields: Ghost(fs) }
    }

    /// The new fields worth scoring against `old`, by position, as `field_candidates_of` says.
    pub fn candidates(&self, old: &FieldModel, limit: usize) -> (r: Vec<usize>)
        requires
            self.wf(),
        ensures
            r@ == field_candidates_of(self.fields(), old@, limit),
    {
        let ghost fs = self.fields@;
        let mut result: Vec<usize> = Vec::new();
        let mut seen: BTreeSet<usize> = BTreeSet::new();
        proof {
            assert(field_name_lists(fs).len() == self.ids@.len());
            assert(field_type_lists(fs).len() == self.ids@.len());
            lemma_list_positions_in(field_name_lists(fs), old.name@);
            lemma_list_positions_in(field_type_lists(fs), old.field_type@);
        }
        extend_list(self.by_name.list(&old.name), &mut result, &mut seen, &self.ids, limit);
        extend_list(self.by_type.list(&old.field_type), &mut result, &mut seen, &self.ids, limit);
        if result.len() == 0 {
            return first_positions_exec(self.ids.len(), limit);
        }
        result
    }
}

/// How many new members to look at for one old member, with at most `max_candidates` kept.
pub fn member_candidate_scan_limit(max_candidates: usize) -> (r: usize)
    requires
        (if max_candidates < 1 {
            1
        } else {
            max_candidates as int
        }) * 32 <= usize::MAX,
    ensures
        r == ({
            let n = (if max_candidates < 1 {
                1
            } else {
                max_candidates as int
            }) * 32;
            if n < 128 {
                128
            } else {
                n
            }
        }),
{
    let m = if max_candidates < 1 {
        1
    } else {
        max_candidates
    };
    let n = m * 32;
    if n < 128 {
        128
    } else {
        n
    }
}

} // verus!
