//! Candidate selection: which new classes are worth scoring against an old class. Candidates
//! come first from the buckets of the old class's rare anchors, then from those of its other
//! anchors, then from the new classes of about its size; each class at most once, and no more
//! than a limit.

use std::collections::BTreeSet;

use vstd::prelude::*;

use crate::anchors::{anchor_positions, anchors_of, rare_anchor, useful_anchor, AnchorIndex, AnchorKind, AnchorStats,
    is_useful_anchor, lemma_hits_len};
use crate::chars::strs;
use crate::fingerprint::ClassFingerprint;
use crate::table::KeyTable;

verus! {

broadcast use vstd::std_specs::btree::group_btree_axioms, vstd::laws_cmp::group_laws_cmp;

// ----- taking candidates from a list -----

/// Goes through `items` in order and takes each whose id (`ids` by position) is not yet in
/// `seen`, until `found` reaches `limit`; gives the candidates and the ids taken.
pub open spec fn take_unseen(found: Seq<usize>, seen: Set<usize>, items: Seq<usize>, ids: Seq<usize>, limit: usize) -> (
    Seq<usize>,
    Set<usize>,
)
    decreases items.len(),
{
    if items.len() == 0 {
        (found, seen)
    } else if seen.contains(ids[items[0] as int]) {
        take_unseen(found, seen, items.skip(1), ids, limit)
    } else if found.len() + 1 >= limit {
        (found.push(items[0]), seen.insert(ids[items[0] as int]))
    } else {
        take_unseen(found.push(items[0]), seen.insert(ids[items[0] as int]), items.skip(1), ids, limit)
    }
}

/// Whether every item of `items` is a position of `ids`.
pub open spec fn positions_in(items: Seq<usize>, ids: Seq<usize>) -> bool {
    forall|k: int| 0 <= k < items.len() ==> #[trigger] items[k] < ids.len()
}

/// Takes the unseen items of `items`, as `take_unseen` says.
pub fn extend_unseen(found: &mut Vec<usize>, seen: &mut BTreeSet<usize>, items: &Vec<usize>, ids: &Vec<usize>, limit: usize)
    requires
        positions_in(items@, ids@),
    ensures
        final(found)@ == take_unseen(old(found)@, old(seen)@, items@, ids@, limit).0,
        final(seen)@ == take_unseen(old(found)@, old(seen)@, items@, ids@, limit).1,
{
    let ghost target = take_unseen(found@, seen@, items@, ids@, limit);
    assert(items@.skip(0) =~= items@);
    let mut i: usize = 0;
    while i < items.len()
        invariant
            i <= items.len(),
            positions_in(items@, ids@),
            take_unseen(found@, seen@, items@.skip(i as int), ids@, limit) === target,
            target === take_unseen(old(found)@, old(seen)@, items@, ids@, limit),
        decreases items.len() - i,
    {
        let p = items[i];
        assert(items@[i as int] < ids@.len());
        let id = ids[p];
        let ghost rest = items@.skip(i as int);
        proof {
            assert(rest[0] == p);
            assert(rest.skip(1) =~= items@.skip(i + 1));
        }
        let ghost before = seen@;
        let ghost found_i = found@;
        if seen.insert(id) {
            assert(!before.contains(id));
            found.push(p);
            if found.len() >= limit {
                return;
            }
            proof {
                lemma_take_unseen_congruent(
                    found_i.push(rest[0]),
                    before.insert(ids@[rest[0] as int]),
                    rest.skip(1),
                    found@,
                    seen@,
                    items@.skip(i + 1),
                    ids@,
                    limit,
                );
            }
        } else {
            assert(before.contains(ids@[rest[0] as int]));
            proof {
                lemma_take_unseen_congruent(found_i, before, rest.skip(1), found@, seen@, items@.skip(i + 1), ids@, limit);
            }
        }
        i = i + 1;
    }
    proof {
        assert(items@.skip(i as int) =~= Seq::<usize>::empty());
    }
}

pub proof fn lemma_take_unseen_congruent(
    f1: Seq<usize>,
    s1: Set<usize>,
    i1: Seq<usize>,
    f2: Seq<usize>,
    s2: Set<usize>,
    i2: Seq<usize>,
    ids: Seq<usize>,
    limit: usize,
)
    requires
        f1 =~= f2,
        s1 =~= s2,
        i1 =~= i2,
    ensures
        take_unseen(f1, s1, i1, ids, limit) === take_unseen(f2, s2, i2, ids, limit),
{
}

/// Takes the unseen items of a bucket, unless the bucket holds more than `max_bucket`.
pub open spec fn bucket_step(
    found: Seq<usize>,
    seen: Set<usize>,
    bucket: Seq<usize>,
    ids: Seq<usize>,
    limit: usize,
    max_bucket: usize,
) -> (Seq<usize>, Set<usize>) {
    if bucket.len() > max_bucket {
        (found, seen)
    } else {
        take_unseen(found, seen, bucket, ids, limit)
    }
}

/// Goes through the anchors `lookups` in order, taking candidates from the bucket of each,
/// until `found` reaches `limit`; tells whether it stopped there.
pub open spec fn run_lookups(
    found: Seq<usize>,
    seen: Set<usize>,
    lookups: Seq<(AnchorKind, Seq<char>)>,
    cs: Seq<ClassFingerprint>,
    ids: Seq<usize>,
    limit: usize,
    max_bucket: usize,
) -> (Seq<usize>, Set<usize>, bool)
    decreases lookups.len(),
{
    if lookups.len() == 0 {
        (found, seen, false)
    } else {
        let s = bucket_step(found, seen, anchor_positions(cs, lookups[0].0, lookups[0].1), ids, limit, max_bucket);
        if s.0.len() >= limit {
            (s.0, s.1, true)
        } else {
            run_lookups(s.0, s.1, lookups.skip(1), cs, ids, limit, max_bucket)
        }
    }
}

pub proof fn lemma_run_concat(
    found: Seq<usize>,
    seen: Set<usize>,
    a: Seq<(AnchorKind, Seq<char>)>,
    b: Seq<(AnchorKind, Seq<char>)>,
    cs: Seq<ClassFingerprint>,
    ids: Seq<usize>,
    limit: usize,
    max_bucket: usize,
)
    ensures
        run_lookups(found, seen, a + b, cs, ids, limit, max_bucket) == ({
            let r = run_lookups(found, seen, a, cs, ids, limit, max_bucket);
            if r.2 {
                r
            } else {
                run_lookups(r.0, r.1, b, cs, ids, limit, max_bucket)
            }
        }),
    decreases a.len(),
{
    if a.len() == 0 {
        assert(a + b =~= b);
    } else {
        assert((a + b)[0] == a[0]);
        assert((a + b).skip(1) =~= a.skip(1) + b);
        let s = bucket_step(found, seen, anchor_positions(cs, a[0].0, a[0].1), ids, limit, max_bucket);
        if s.0.len() < limit {
            lemma_run_concat(s.0, s.1, a.skip(1), b, cs, ids, limit, max_bucket);
        }
    }
}

pub proof fn lemma_positions_in(cs: Seq<ClassFingerprint>, kind: AnchorKind, v: Seq<char>)
    ensures
        forall|k: int|
            0 <= k < anchor_positions(cs, kind, v).len() ==> #[trigger] anchor_positions(cs, kind, v)[k] < cs.len(),
    decreases cs.len(),
{
    if cs.len() > 0 {
        lemma_positions_in(cs.drop_last(), kind, v);
        lemma_hits_len(anchors_of(cs.last(), kind), v, (cs.len() - 1) as usize);
        let a = anchor_positions(cs.drop_last(), kind, v);
        let h = crate::anchors::hits(anchors_of(cs.last(), kind), v, (cs.len() - 1) as usize);
        assert forall|k: int| 0 <= k < (a + h).len() implies #[trigger] (a + h)[k] < cs.len() by {
            if k >= a.len() {
                assert((a + h)[k] == h[k - a.len()]);
            }
        }
    }
}

proof fn lemma_run_congruent(
    f1: Seq<usize>,
    s1: Set<usize>,
    l1: Seq<(AnchorKind, Seq<char>)>,
    f2: Seq<usize>,
    s2: Set<usize>,
    l2: Seq<(AnchorKind, Seq<char>)>,
    cs: Seq<ClassFingerprint>,
    ids: Seq<usize>,
    limit: usize,
    max_bucket: usize,
)
    requires
        f1 =~= f2,
        s1 =~= s2,
        l1 =~= l2,
    ensures
        run_lookups(f1, s1, l1, cs, ids, limit, max_bucket) === run_lookups(f2, s2, l2, cs, ids, limit, max_bucket),
{
}

/// The items of an optional bucket.
pub open spec fn bucket_items(bucket: Option<&Vec<usize>>) -> Seq<usize> {
    match bucket {
        Some(b) => b@,
        None => Seq::empty(),
    }
}

/// Takes the unseen classes of `bucket`, as `bucket_step` says.
pub fn extend_bucket(
    bucket: Option<&Vec<usize>>,
    found: &mut Vec<usize>,
    seen: &mut BTreeSet<usize>,
    ids: &Vec<usize>,
    limit: usize,
    max_bucket: usize,
)
    requires
        positions_in(bucket_items(bucket), ids@),
    ensures
        final(found)@ == bucket_step(old(found)@, old(seen)@, bucket_items(bucket), ids@, limit, max_bucket).0,
        final(seen)@ == bucket_step(old(found)@, old(seen)@, bucket_items(bucket), ids@, limit, max_bucket).1,
{
    match bucket {
        Some(b) => {
            if b.len() > max_bucket {
                return;
            }
            extend_unseen(found, seen, b, ids, limit);
        },
        None => {},
    }
}

// ----- what each anchor looks up -----

/// The rare anchors among `values`, of kind `kind`, in order.
pub open spec fn rare_lookups_of(
    old: Seq<ClassFingerprint>,
    new: Seq<ClassFingerprint>,
    kind: AnchorKind,
    values: Seq<Seq<char>>,
) -> Seq<(AnchorKind, Seq<char>)>
    decreases values.len(),
{
    if values.len() == 0 {
        Seq::empty()
    } else {
        (if rare_anchor(old, new, kind, values[0]) {
            seq![(kind, values[0])]
        } else {
            Seq::empty()
        }) + rare_lookups_of(old, new, kind, values.skip(1))
    }
}

/// The rare anchors of `c` that are looked up first: strings, method references, field
/// references and method prototypes, in that order.
pub open spec fn rare_lookups(old: Seq<ClassFingerprint>, new: Seq<ClassFingerprint>, c: ClassFingerprint) -> Seq<
    (AnchorKind, Seq<char>),
> {
    rare_lookups_of(old, new, AnchorKind::Str, anchors_of(c, AnchorKind::Str)) + rare_lookups_of(
        old,
        new,
        AnchorKind::MethodRef,
        anchors_of(c, AnchorKind::MethodRef),
    ) + rare_lookups_of(old, new, AnchorKind::FieldRef, anchors_of(c, AnchorKind::FieldRef)) + rare_lookups_of(
        old,
        new,
        AnchorKind::MethodProto,
        anchors_of(c, AnchorKind::MethodProto),
    )
}

/// The first `n` of `values` (only those that can tell classes apart, where `useful_only`), as
/// anchors of kind `kind`.
pub open spec fn first_lookups(kind: AnchorKind, values: Seq<Seq<char>>, n: nat, useful_only: bool) -> Seq<
    (AnchorKind, Seq<char>),
>
    decreases values.len(),
{
    if values.len() == 0 || n == 0 {
        Seq::empty()
    } else if useful_only && !useful_anchor(values[0]) {
        first_lookups(kind, values.skip(1), n, useful_only)
    } else {
        seq![(kind, values[0])] + first_lookups(kind, values.skip(1), (n - 1) as nat, useful_only)
    }
}

/// The anchors of `c` looked up after its rare ones: its first 32 useful strings, 32 method
/// references, 32 field references and 16 method prototypes.
pub open spec fn common_lookups(c: ClassFingerprint) -> Seq<(AnchorKind, Seq<char>)> {
    first_lookups(AnchorKind::Str, anchors_of(c, AnchorKind::Str), 32, true) + first_lookups(
        AnchorKind::MethodRef,
        anchors_of(c, AnchorKind::MethodRef),
        32,
        false,
    ) + first_lookups(AnchorKind::FieldRef, anchors_of(c, AnchorKind::FieldRef), 32, false) + first_lookups(
        AnchorKind::MethodProto,
        anchors_of(c, AnchorKind::MethodProto),
        16,
        false,
    )
}

/// `x` kept between `lo` and `hi`.
pub open spec fn clamped(x: int, lo: int, hi: int) -> int {
    if x < lo {
        lo
    } else if x > hi {
        hi
    } else {
        x
    }
}

/// The largest bucket of a rare anchor that candidates are taken from.
pub open spec fn rare_bucket_cap(limit: usize) -> usize {
    clamped(2 * limit, 128, 2048) as usize
}

/// The largest bucket of another anchor that candidates are taken from.
pub open spec fn common_bucket_cap(limit: usize) -> usize {
    clamped(4 * limit, 512, 8192) as usize
}

/// The candidates the anchors of `c` give, after `found` and `seen`: those of its rare anchors,
/// then, short of `limit`, those of its other anchors.
pub open spec fn anchor_candidates(
    found: Seq<usize>,
    seen: Set<usize>,
    old: Seq<ClassFingerprint>,
    new: Seq<ClassFingerprint>,
    c: ClassFingerprint,
    cs: Seq<ClassFingerprint>,
    ids: Seq<usize>,
    limit: usize,
) -> (Seq<usize>, Set<usize>) {
    let r = run_lookups(found, seen, rare_lookups(old, new, c), cs, ids, limit, rare_bucket_cap(limit));
    if r.0.len() >= limit {
        (r.0, r.1)
    } else {
        let s = run_lookups(r.0, r.1, common_lookups(c), cs, ids, limit, common_bucket_cap(limit));
        (s.0, s.1)
    }
}

// ----- classes of about the same size -----

/// Half of `n`, or 2 for a small `n`: how far a count may differ.
pub open spec fn size_slack(n: usize) -> int {
    (if n < 4 {
        4
    } else {
        n as int
    }) / 2
}

/// `a - b`, or 0 below.
pub open spec fn sat_sub(a: int, b: int) -> int {
    if a < b {
        0
    } else {
        a - b
    }
}

/// `a + b`, or the largest `usize` above it.
pub open spec fn sat_add(a: int, b: int) -> int {
    if a + b > usize::MAX {
        usize::MAX as int
    } else {
        a + b
    }
}

/// `|a - b|`.
pub open spec fn distance(a: int, b: int) -> int {
    if a < b {
        b - a
    } else {
        a - b
    }
}

/// Whether the method and field counts of a class differ little enough from those of another.
pub open spec fn counts_close(om: usize, of: usize, m: usize, f: usize) -> bool {
    distance(om as int, m as int) <= size_slack(om) && distance(of as int, f as int) <= size_slack(of)
}

/// Whether a class with `m` methods and `f` fields is of about the size of one with `om`
/// methods and `of` fields: inside both count windows, and close in both counts.
pub open spec fn size_fits(om: usize, of: usize, m: usize, f: usize) -> bool {
    &&& sat_sub(om as int, size_slack(om)) <= m <= sat_add(om as int, size_slack(om))
    &&& sat_sub(of as int, size_slack(of)) <= f <= sat_add(of as int, size_slack(of))
    &&& counts_close(om, of, m, f)
}

/// The positions, in the order of `order`, of the classes of about the size of one with `om`
/// methods and `of` fields.
pub open spec fn size_scan(order: Seq<(usize, usize, usize)>, om: usize, of: usize) -> Seq<usize>
    decreases order.len(),
{
    if order.len() == 0 {
        Seq::empty()
    } else {
        (if size_fits(om, of, order[0].0, order[0].1) {
            seq![order[0].2]
        } else {
            Seq::empty()
        }) + size_scan(order.skip(1), om, of)
    }
}

/// `(methods, fields, position)` for each class of `cs`, by position.
pub open spec fn size_keys(cs: Seq<ClassFingerprint>) -> Seq<(usize, usize, usize)> {
    Seq::new(cs.len(), |p: int| (cs[p].method_shapes@.len() as usize, cs[p].field_shapes@.len() as usize, p as usize))
}

/// Whether `a` comes no later than `b`: by methods, then fields, then position.
pub open spec fn size_key_le(a: (usize, usize, usize), b: (usize, usize, usize)) -> bool {
    a.0 < b.0 || (a.0 == b.0 && (a.1 < b.1 || (a.1 == b.1 && a.2 <= b.2)))
}

/// Whether `order` holds the size keys of `cs`, each once, sorted by methods, fields and
/// position: the order in which classes of about the same size are looked at.
pub open spec fn is_size_order(cs: Seq<ClassFingerprint>, order: Seq<(usize, usize, usize)>) -> bool {
    &&& order.to_multiset() == size_keys(cs).to_multiset()
    &&& forall|i: int, j: int| 0 <= i <= j < order.len() ==> size_key_le(#[trigger] order[i], #[trigger] order[j])
}

/// Sorts size keys by methods, fields and position, as `size_key_le` orders them.
#[verifier::external_body]
fn sort_size_keys(v: &mut Vec<(usize, usize, usize)>)
    ensures
        final(v)@.to_multiset() == old(v)@.to_multiset(),
        forall|i: int, j: int| 0 <= i <= j < final(v)@.len() ==> size_key_le(#[trigger] final(v)@[i], #[trigger] final(v)@[j]),
{
    v.sort();
}

pub proof fn lemma_scan_skip_unfit(order: Seq<(usize, usize, usize)>, from: int, to: int, om: usize, of: usize)
    requires
        0 <= from <= to <= order.len(),
        forall|k: int| from <= k < to ==> !size_fits(om, of, #[trigger] order[k].0, order[k].1),
    ensures
        size_scan(order.skip(from), om, of) == size_scan(order.skip(to), om, of),
    decreases to - from,
{
    if from < to {
        assert(order.skip(from)[0] == order[from]);
        assert(order.skip(from).skip(1) =~= order.skip(from + 1));
        assert(Seq::<usize>::empty() + size_scan(order.skip(from + 1), om, of) =~= size_scan(order.skip(from + 1), om, of));
        lemma_scan_skip_unfit(order, from + 1, to, om, of);
    }
}

// ----- the index of the new classes -----

/// The class ids of `cs`, by position.
pub open spec fn class_ids(cs: Seq<ClassFingerprint>) -> Seq<usize> {
    cs.map_values(|c: ClassFingerprint| c.class_id)
}

/// The positions in `cs` of the classes with descriptor `d`, in order.
pub open spec fn descriptor_positions(cs: Seq<ClassFingerprint>, d: Seq<char>) -> Seq<usize>
    decreases cs.len(),
{
    if cs.len() == 0 {
        Seq::empty()
    } else {
        descriptor_positions(cs.drop_last(), d) + if cs.last().descriptor@ == d {
            seq![(cs.len() - 1) as usize]
        } else {
            Seq::empty()
        }
    }
}

/// The new classes of a match, found by anchor, by descriptor and by size.
pub struct ClassCandidateIndex {
    anchors: AnchorIndex,
    descriptors: KeyTable<Vec<usize>>,
    by_size: Vec<(usize, usize, usize)>,
    ids: Vec<usize>,
}

impl ClassCandidateIndex {
    /// The new classes.
    pub closed spec fn classes(&self) -> Seq<ClassFingerprint> {
        self.anchors.classes()
    }

    /// The size keys of the new classes in the order they are looked at.
    pub closed spec fn size_order(&self) -> Seq<(usize, usize, usize)> {
        self.by_size@
    }

    pub closed spec fn wf(&self) -> bool {
        &&& self.anchors.wf()
        &&& self.descriptors.wf()
        &&& forall|d: Seq<char>| #[trigger]
            self.descriptors.list_of(d) == descriptor_positions(self.anchors.classes(), d)
        &&& is_size_order(self.anchors.classes(), self.by_size@)
        &&& self.ids@ == class_ids(self.anchors.classes())
    }

    /// The index of the new classes `classes`.
    pub fn new(classes: &[ClassFingerprint]) -> (r: Self)
        ensures
            r.wf(),
            r.classes() == classes@,
            is_size_order(classes@, r.size_order()),
    {
        let anchors = AnchorIndex::new(classes);
        let mut descriptors: KeyTable<Vec<usize>> = KeyTable::new();
        let mut by_size: Vec<(usize, usize, usize)> = Vec::new();
        let mut ids: Vec<usize> = Vec::new();
        let mut i: usize = 0;
        while i < classes.len()
            invariant
                i <= classes.len(),
                descriptors.wf(),
                forall|d: Seq<char>| #[trigger]
                    descriptors.list_of(d) == descriptor_positions(classes@.take(i as int), d),
                by_size@ == size_keys(classes@.take(i as int)),
                ids@ == class_ids(classes@.take(i as int)),
            decreases classes.len() - i,
        {
            let c = &classes[i];
            let ghost before = descriptors;
            descriptors.push_to(&c.descriptor, i);
            by_size.push((c.method_shapes.len(), c.field_shapes.len(), i));
            ids.push(c.class_id);
            proof {
                let cs = classes@.take(i + 1);
                assert(cs.drop_last() =~= classes@.take(i as int));
                assert(cs.last() == classes@[i as int]);
                assert forall|d: Seq<char>| #[trigger]
                    descriptors.list_of(d) == descriptor_positions(cs, d) by {
                    assert(before.list_of(d) == descriptor_positions(classes@.take(i as int), d));
                }
                assert(by_size@ =~= size_keys(cs));
                assert(ids@ =~= class_ids(cs));
            }
            i = i + 1;
        }
        proof {
            assert(classes@.take(classes@.len() as int) =~= classes@);
        }
        let ghost unsorted = by_size@;
        sort_size_keys(&mut by_size);
        ClassCandidateIndex { anchors, descriptors, by_size, ids }
    }

    /// The position of the last new class with descriptor `descriptor`, if any has it.
    pub fn exact_candidate(&self, descriptor: &String) -> (r: Option<usize>)
        requires
            self.wf(),
        ensures
            r == (if descriptor_positions(self.classes(), descriptor@).len() == 0 {
                None::<usize>
            } else {
                Some(descriptor_positions(self.classes(), descriptor@).last())
            }),
    {
        assert(self.descriptors.list_of(descriptor@) == descriptor_positions(self.classes(), descriptor@));
        match self.descriptors.list(descriptor) {
            Some(list) => {
                if list.len() == 0 {
                    None
                } else {
                    Some(list[list.len() - 1])
                }
            },
            None => None,
        }
    }

    /// The first `limit` new classes, by position.
    pub fn fallback_candidates(&self, limit: usize) -> (r: Vec<usize>)
        requires
            self.wf(),
        ensures
            r@.len() == if limit < self.classes().len() {
                limit as int
            } else {
                self.classes().len() as int
            },
            forall|k: int| 0 <= k < r@.len() ==> r@[k] == k,
    {
        let n = self.ids.len();
        let mut r: Vec<usize> = Vec::new();
        let mut p: usize = 0;
        while p < n && p < limit
            invariant
                p <= n,
                p <= limit,
                n == self.classes().len(),
                r@.len() == p,
                forall|k: int| 0 <= k < p ==> r@[k] == k,
            decreases n - p,
        {
            r.push(p);
            p = p + 1;
        }
        r
    }
}

impl ClassCandidateIndex {
    /// Looks up the rare anchors among `values`, of kind `kind`, in order, taking candidates
    /// from the bucket of each until `found` reaches `limit`; tells whether it stopped there.
    fn extend_rare_kind(
        &self,
        kind: AnchorKind,
        values: &Vec<String>,
        found: &mut Vec<usize>,
        seen: &mut BTreeSet<usize>,
        limit: usize,
        max_bucket: usize,
        stats: &AnchorStats,
    ) -> (stop: bool)
        requires
            self.wf(),
            stats.wf(),
        ensures
            ({
                let r = run_lookups(
                    old(found)@,
                    old(seen)@,
                    rare_lookups_of(stats.old_classes(), stats.new_classes(), kind, strs(values@)),
                    self.classes(),
                    class_ids(self.classes()),
                    limit,
                    max_bucket,
                );
                final(found)@ == r.0 && final(seen)@ == r.1 && stop == r.2
            }),
    {
        let ghost cs = self.classes();
        let ghost ids = class_ids(cs);
        let ghost old_cs = stats.old_classes();
        let ghost new_cs = stats.new_classes();
        let ghost vals = strs(values@);
        let ghost target = run_lookups(found@, seen@, rare_lookups_of(old_cs, new_cs, kind, vals), cs, ids, limit, max_bucket);
        assert(vals.skip(0) =~= vals);
        let mut j: usize = 0;
        while j < values.len()
            invariant
                j <= values.len(),
                self.wf(),
                stats.wf(),
                cs == self.classes(),
                ids == class_ids(cs),
                old_cs == stats.old_classes(),
                new_cs == stats.new_classes(),
                vals == strs(values@),
                run_lookups(found@, seen@, rare_lookups_of(old_cs, new_cs, kind, vals.skip(j as int)), cs, ids, limit, max_bucket)
                    === target,
                target === run_lookups(
                    old(found)@,
                    old(seen)@,
                    rare_lookups_of(old_cs, new_cs, kind, vals),
                    cs,
                    ids,
                    limit,
                    max_bucket,
                ),
            decreases values.len() - j,
        {
            let item = &values[j];
            let ghost rest = vals.skip(j as int);
            let ghost tail = rare_lookups_of(old_cs, new_cs, kind, vals.skip(j + 1));
            proof {
                assert(rest[0] == item@);
                assert(rest.skip(1) =~= vals.skip(j + 1));
            }
            let ghost found_j = found@;
            let ghost seen_j = seen@;
            if stats.is_rare(kind, item) {
                let bucket = self.anchors.positions(kind, item);
                proof {
                    lemma_positions_in(cs, kind, item@);
                    assert(bucket_items(bucket) == anchor_positions(cs, kind, item@));
                    assert(self.ids@ == ids);
                }
                extend_bucket(bucket, found, seen, &self.ids, limit, max_bucket);
                let ghost l = seq![(kind, item@)] + tail;
                proof {
                    assert(rare_lookups_of(old_cs, new_cs, kind, rest) =~= l);
                    assert(l[0] == (kind, item@));
                    assert(l.skip(1) =~= tail);
                }
                if found.len() >= limit {
                    return true;
                }
                proof {
                    lemma_run_congruent(found@, seen@, l.skip(1), found@, seen@, tail, cs, ids, limit, max_bucket);
                }
            } else {
                proof {
                    assert(rare_lookups_of(old_cs, new_cs, kind, rest) =~= tail);
                }
            }
            j = j + 1;
        }
        proof {
            assert(vals.skip(j as int) =~= Seq::<Seq<char>>::empty());
        }
        false
    }

    /// Looks up the first `n` of `values` (only those that can tell classes apart, where
    /// `useful_only`), of kind `kind`, taking candidates from the bucket of each until `found`
    /// reaches `limit`; tells whether it stopped there.
    fn extend_first_kind(
        &self,
        kind: AnchorKind,
        values: &Vec<String>,
        n: usize,
        useful_only: bool,
        found: &mut Vec<usize>,
        seen: &mut BTreeSet<usize>,
        limit: usize,
        max_bucket: usize,
    ) -> (stop: bool)
        requires
            self.wf(),
        ensures
            ({
                let r = run_lookups(
                    old(found)@,
                    old(seen)@,
                    first_lookups(kind, strs(values@), n as nat, useful_only),
                    self.classes(),
                    class_ids(self.classes()),
                    limit,
                    max_bucket,
                );
                final(found)@ == r.0 && final(seen)@ == r.1 && stop == r.2
            }),
    {
        let ghost cs = self.classes();
        let ghost ids = class_ids(cs);
        let ghost vals = strs(values@);
        let ghost target = run_lookups(found@, seen@, first_lookups(kind, vals, n as nat, useful_only), cs, ids, limit, max_bucket);
        assert(vals.skip(0) =~= vals);
        let mut j: usize = 0;
        let mut taken: usize = 0;
        while j < values.len() && taken < n
            invariant
                j <= values.len(),
                taken <= n,
                self.wf(),
                cs == self.classes(),
                ids == class_ids(cs),
                vals == strs(values@),
                run_lookups(found@, seen@, first_lookups(kind, vals.skip(j as int), (n - taken) as nat, useful_only), cs, ids, limit, max_bucket)
                    === target,
                target === run_lookups(
                    old(found)@,
                    old(seen)@,
                    first_lookups(kind, vals, n as nat, useful_only),
                    cs,
                    ids,
                    limit,
                    max_bucket,
                ),
            decreases values.len() - j,
        {
            let item = &values[j];
            let ghost rest = vals.skip(j as int);
            proof {
                assert(rest[0] == item@);
                assert(rest.skip(1) =~= vals.skip(j + 1));
            }
            if useful_only && !is_useful_anchor(item.as_str()) {
                proof {
                    assert(first_lookups(kind, rest, (n - taken) as nat, useful_only) =~= first_lookups(
                        kind,
                        vals.skip(j + 1),
                        (n - taken) as nat,
                        useful_only,
                    ));
                }
            } else {
                let ghost tail = first_lookups(kind, vals.skip(j + 1), (n - taken - 1) as nat, useful_only);
                let ghost l = seq![(kind, item@)] + tail;
                proof {
                    assert(first_lookups(kind, rest, (n - taken) as nat, useful_only) =~= l);
                    assert(l[0] == (kind, item@));
                    assert(l.skip(1) =~= tail);
                }
                let bucket = self.anchors.positions(kind, item);
                proof {
                    lemma_positions_in(cs, kind, item@);
                    assert(bucket_items(bucket) == anchor_positions(cs, kind, item@));
                    assert(self.ids@ == ids);
                }
                extend_bucket(bucket, found, seen, &self.ids, limit, max_bucket);
                taken = taken + 1;
                if found.len() >= limit {
                    return true;
                }
                proof {
                    lemma_run_congruent(found@, seen@, l.skip(1), found@, seen@, tail, cs, ids, limit, max_bucket);
                }
            }
            j = j + 1;
        }
        proof {
            if j == values.len() {
                assert(vals.skip(j as int) =~= Seq::<Seq<char>>::empty());
            }
        }
        false
    }
}

/// `x` kept between `lo` and `hi`, for `lo <= hi`.
fn clamp_usize(x: usize, lo: usize, hi: usize) -> (r: usize)
    requires
        lo <= hi,
    ensures
        r == clamped(x as int, lo as int, hi as int),
{
    if x < lo {
        lo
    } else if x > hi {
        hi
    } else {
        x
    }
}

/// How many new classes to look at for one old class, with at most `max_candidates` kept.
pub fn candidate_scan_limit(max_candidates: usize) -> (r: usize)
    requires
        (if max_candidates < 1 {
            1
        } else {
            max_candidates as int
        }) * 512 <= usize::MAX,
    ensures
        r == ({
            let n = (if max_candidates < 1 {
                1
            } else {
                max_candidates as int
            }) * 512;
            if n < 4096 {
                4096
            } else {
                n
            }
        }),
{
    let m = if max_candidates < 1 {
        1
    } else {
        max_candidates
    };
    let n = m * 512;
    if n < 4096 {
        4096
    } else {
        n
    }
}

/// Whether the method and field counts of `new_class` differ little enough from those of
/// `old_class` for it to be a candidate.
pub fn cheap_bucket_compatible(old_class: &ClassFingerprint, new_class: &ClassFingerprint) -> (r: bool)
    ensures
        r == counts_close(
            old_class.method_shapes@.len() as usize,
            old_class.field_shapes@.len() as usize,
            new_class.method_shapes@.len() as usize,
            new_class.field_shapes@.len() as usize,
        ),
{
    counts_close_exec(
        old_class.method_shapes.len(),
        old_class.field_shapes.len(),
        new_class.method_shapes.len(),
        new_class.field_shapes.len(),
    )
}

fn slack(n: usize) -> (r: usize)
    ensures
        r == size_slack(n),
{
    if n < 4 {
        2
    } else {
        n / 2
    }
}

fn distance_exec(a: usize, b: usize) -> (r: usize)
    ensures
        r == distance(a as int, b as int),
{
    if a < b {
        b - a
    } else {
        a - b
    }
}

fn counts_close_exec(om: usize, of: usize, m: usize, f: usize) -> (r: bool)
    ensures
        r == counts_close(om, of, m, f),
{
    distance_exec(om, m) <= slack(om) && distance_exec(of, f) <= slack(of)
}

/// The candidates for an old class: those its anchors give, then, short of `limit`, the new
/// classes of about its size.
pub open spec fn compatible_of(
    old: Seq<ClassFingerprint>,
    new: Seq<ClassFingerprint>,
    c: ClassFingerprint,
    cs: Seq<ClassFingerprint>,
    order: Seq<(usize, usize, usize)>,
    limit: usize,
) -> Seq<usize> {
    let a = anchor_candidates(Seq::empty(), Set::empty(), old, new, c, cs, class_ids(cs), limit);
    if a.0.len() >= limit {
        a.0
    } else {
        take_unseen(
            a.0,
            a.1,
            size_scan(order, c.method_shapes@.len() as usize, c.field_shapes@.len() as usize),
            class_ids(cs),
            limit,
        ).0
    }
}

impl ClassCandidateIndex {
    /// Takes candidates from the buckets of the rare anchors of `old_class`: its strings,
    /// method references, field references and method prototypes, in that order.
    pub fn extend_rare_anchor_candidates(
        &self,
        old_class: &ClassFingerprint,
        found: &mut Vec<usize>,
        seen: &mut BTreeSet<usize>,
        limit: usize,
        stats: &AnchorStats,
    )
        requires
            self.wf(),
            stats.wf(),
            limit <= usize::MAX / 2,
        ensures
            ({
                let r = run_lookups(
                    old(found)@,
                    old(seen)@,
                    rare_lookups(stats.old_classes(), stats.new_classes(), *old_class),
                    self.classes(),
                    class_ids(self.classes()),
                    limit,
                    rare_bucket_cap(limit),
                );
                final(found)@ == r.0 && final(seen)@ == r.1
            }),
    {
        let ghost cs = self.classes();
        let ghost ids = class_ids(cs);
        let ghost o = stats.old_classes();
        let ghost n = stats.new_classes();
        let ghost f0 = found@;
        let ghost s0 = seen@;
        let ghost a = rare_lookups_of(o, n, AnchorKind::Str, anchors_of(*old_class, AnchorKind::Str));
        let ghost b = rare_lookups_of(o, n, AnchorKind::MethodRef, anchors_of(*old_class, AnchorKind::MethodRef));
        let ghost c = rare_lookups_of(o, n, AnchorKind::FieldRef, anchors_of(*old_class, AnchorKind::FieldRef));
        let ghost d = rare_lookups_of(o, n, AnchorKind::MethodProto, anchors_of(*old_class, AnchorKind::MethodProto));
        let max_bucket = clamp_usize(limit * 2, 128, 2048);
        proof {
            lemma_run_concat(f0, s0, a + b + c, d, cs, ids, limit, max_bucket);
            lemma_run_concat(f0, s0, a + b, c, cs, ids, limit, max_bucket);
            lemma_run_concat(f0, s0, a, b, cs, ids, limit, max_bucket);
        }
        if self.extend_rare_kind(AnchorKind::Str, &old_class.strings, found, seen, limit, max_bucket, stats) {
            return;
        }
        if self.extend_rare_kind(AnchorKind::MethodRef, &old_class.method_ref_shapes, found, seen, limit, max_bucket, stats) {
            return;
        }
        if self.extend_rare_kind(AnchorKind::FieldRef, &old_class.field_ref_shapes, found, seen, limit, max_bucket, stats) {
            return;
        }
        self.extend_rare_kind(AnchorKind::MethodProto, &old_class.method_proto_shapes, found, seen, limit, max_bucket, stats);
    }

    /// Takes candidates from the buckets of the anchors of `old_class`: its rare anchors
    /// first, then, short of `limit`, its first useful strings, method references, field
    /// references and method prototypes.
    pub fn extend_anchor_candidates(
        &self,
        old_class: &ClassFingerprint,
        stats: &AnchorStats,
        found: &mut Vec<usize>,
        seen: &mut BTreeSet<usize>,
        limit: usize,
    )
        requires
            self.wf(),
            stats.wf(),
            limit <= usize::MAX / 4,
        ensures
            ({
                let r = anchor_candidates(
                    old(found)@,
                    old(seen)@,
                    stats.old_classes(),
                    stats.new_classes(),
                    *old_class,
                    self.classes(),
                    class_ids(self.classes()),
                    limit,
                );
                final(found)@ == r.0 && final(seen)@ == r.1
            }),
    {
        let ghost cs = self.classes();
        let ghost ids = class_ids(cs);
        let max_bucket = clamp_usize(limit * 4, 512, 8192);
        self.extend_rare_anchor_candidates(old_class, found, seen, limit, stats);
        if found.len() >= limit {
            return;
        }
        let ghost f0 = found@;
        let ghost s0 = seen@;
        let ghost a = first_lookups(AnchorKind::Str, anchors_of(*old_class, AnchorKind::Str), 32, true);
        let ghost b = first_lookups(AnchorKind::MethodRef, anchors_of(*old_class, AnchorKind::MethodRef), 32, false);
        let ghost c = first_lookups(AnchorKind::FieldRef, anchors_of(*old_class, AnchorKind::FieldRef), 32, false);
        let ghost d = first_lookups(AnchorKind::MethodProto, anchors_of(*old_class, AnchorKind::MethodProto), 16, false);
        proof {
            lemma_run_concat(f0, s0, a + b + c, d, cs, ids, limit, max_bucket);
            lemma_run_concat(f0, s0, a + b, c, cs, ids, limit, max_bucket);
            lemma_run_concat(f0, s0, a, b, cs, ids, limit, max_bucket);
        }
        if self.extend_first_kind(AnchorKind::Str, &old_class.strings, 32, true, found, seen, limit, max_bucket) {
            return;
        }
        if self.extend_first_kind(AnchorKind::MethodRef, &old_class.method_ref_shapes, 32, false, found, seen, limit, max_bucket) {
            return;
        }
        if self.extend_first_kind(AnchorKind::FieldRef, &old_class.field_ref_shapes, 32, false, found, seen, limit, max_bucket) {
            return;
        }
        self.extend_first_kind(AnchorKind::MethodProto, &old_class.method_proto_shapes, 16, false, found, seen, limit, max_bucket);
    }
}

proof fn lemma_take_congruent_items(
    found: Seq<usize>,
    seen: Set<usize>,
    i1: Seq<usize>,
    i2: Seq<usize>,
    ids: Seq<usize>,
    limit: usize,
)
    requires
        i1 =~= i2,
    ensures
        take_unseen(found, seen, i1, ids, limit) === take_unseen(found, seen, i2, ids, limit),
{
}

impl ClassCandidateIndex {
    /// The new classes worth scoring against `old_class`, by position: those its anchors
    /// give, then, short of `limit`, the new classes of about its size, in size order; each
    /// class once, and at most `limit` of them.
    pub fn compatible_candidates(&self, old_class: &ClassFingerprint, stats: &AnchorStats, limit: usize) -> (r: Vec<usize>)
        requires
            self.wf(),
            stats.wf(),
            limit <= usize::MAX / 4,
        ensures
            r@ == compatible_of(stats.old_classes(), stats.new_classes(), *old_class, self.classes(), self.size_order(), limit),
    {
        let ghost cs = self.classes();
        let ghost ids = class_ids(cs);
        let ghost order = self.by_size@;
        let mut found: Vec<usize> = Vec::new();
        let mut seen: BTreeSet<usize> = BTreeSet::new();
        self.extend_anchor_candidates(old_class, stats, &mut found, &mut seen, limit);
        if found.len() >= limit {
            return found;
        }
        let om = old_class.method_shapes.len();
        let of = old_class.field_shapes.len();
        let sm = slack(om);
        let sf = slack(of);
        let min_m = if om < sm {
            0
        } else {
            om - sm
        };
        let max_m = if om > usize::MAX - sm {
            usize::MAX
        } else {
            om + sm
        };
        let min_f = if of < sf {
            0
        } else {
            of - sf
        };
        let max_f = if of > usize::MAX - sf {
            usize::MAX
        } else {
            of + sf
        };
        let n = self.by_size.len();
        // the first key with at least `min_m` methods
        let mut lo: usize = 0;
        let mut hi: usize = n;
        while lo < hi
            invariant
                0 <= lo <= hi <= n,
                n == order.len(),
                order == self.by_size@,
                forall|i: int, j: int| 0 <= i <= j < order.len() ==> size_key_le(#[trigger] order[i], #[trigger] order[j]),
                forall|k: int| 0 <= k < lo ==> (#[trigger] order[k]).0 < min_m,
                forall|k: int| hi <= k < n ==> (#[trigger] order[k]).0 >= min_m,
            decreases hi - lo,
        {
            let mid = lo + (hi - lo) / 2;
            if self.by_size[mid].0 < min_m {
                proof {
                    assert forall|k: int| 0 <= k < mid + 1 implies (#[trigger] order[k]).0 < min_m by {
                        assert(size_key_le(order[k], order[mid as int]));
                    }
                }
                lo = mid + 1;
            } else {
                proof {
                    assert forall|k: int| mid <= k < n implies (#[trigger] order[k]).0 >= min_m by {
                        assert(size_key_le(order[mid as int], order[k]));
                    }
                }
                hi = mid;
            }
        }
        let ghost scan = size_scan(order, om, of);
        let ghost target = take_unseen(found@, seen@, scan, ids, limit);
        let ghost want = compatible_of(stats.old_classes(), stats.new_classes(), *old_class, cs, order, limit);
        assert(want == target.0);
        proof {
            assert forall|k: int| 0 <= k < lo implies !size_fits(om, of, #[trigger] order[k].0, order[k].1) by {
                assert(order[k].0 < min_m);
            }
            lemma_scan_skip_unfit(order, 0, lo as int, om, of);
            assert(order.skip(0) =~= order);
            lemma_take_congruent_items(found@, seen@, scan, size_scan(order.skip(lo as int), om, of), ids, limit);
        }
        let mut i: usize = lo;
        while i < n && self.by_size[i].0 <= max_m
            invariant
                lo <= i <= n,
                n == order.len(),
                order == self.by_size@,
                self.wf(),
                cs == self.classes(),
                ids == class_ids(cs),
                self.ids@ == ids,
                is_size_order(cs, order),
                forall|i: int, j: int| 0 <= i <= j < order.len() ==> size_key_le(#[trigger] order[i], #[trigger] order[j]),
                take_unseen(found@, seen@, size_scan(order.skip(i as int), om, of), ids, limit) === target,
                sm == size_slack(om),
                sf == size_slack(of),
                min_m == sat_sub(om as int, sm as int),
                max_m == sat_add(om as int, sm as int),
                min_f == sat_sub(of as int, sf as int),
                max_f == sat_add(of as int, sf as int),
                found@.len() < limit,
                want == target.0,
                want == compatible_of(stats.old_classes(), stats.new_classes(), *old_class, self.classes(), self.size_order(), limit),
            decreases n - i,
        {
            let key = self.by_size[i];
            let m = key.0;
            let f = key.1;
            let p = key.2;
            let ghost rest = order.skip(i as int);
            proof {
                assert(rest[0] == key);
                assert(rest.skip(1) =~= order.skip(i + 1));
            }
            let fits = min_m <= m && min_f <= f && f <= max_f && counts_close_exec(om, of, m, f);
            assert(fits == size_fits(om, of, m, f));
            if fits {
                proof {
                    // the key is one of the size keys: its position is a class
                    order.to_multiset_ensures();
                    size_keys(cs).to_multiset_ensures();
                    assert(order[i as int] == key);
                    assert(order.contains(key));
                    assert(order.to_multiset().count(key) > 0);
                    assert(size_keys(cs).to_multiset().count(key) > 0);
                    assert(size_keys(cs).contains(key));
                    let q = choose|q: int| 0 <= q < size_keys(cs).len() && size_keys(cs)[q] == key;
                    assert(p < cs.len());
                }
                let id = self.ids[p];
                let ghost found_i = found@;
                let ghost seen_i = seen@;
                let ghost tail = size_scan(order.skip(i + 1), om, of);
                proof {
                    assert(size_scan(rest, om, of) =~= seq![p] + tail);
                    assert((seq![p] + tail)[0] == p);
                    assert((seq![p] + tail).skip(1) =~= tail);
                    lemma_take_congruent_items(found_i, seen_i, size_scan(rest, om, of), seq![p] + tail, ids, limit);
                }
                if seen.insert(id) {
                    found.push(p);
                    if found.len() >= limit {
                        assert(found@ == target.0);
                        return found;
                    }
                    proof {
                        lemma_take_unseen_congruent(found_i.push(p), seen_i.insert(id), (seq![p] + tail).skip(1), found@, seen@, tail, ids, limit);
                    }
                } else {
                    proof {
                        lemma_take_unseen_congruent(found_i, seen_i, (seq![p] + tail).skip(1), found@, seen@, tail, ids, limit);
                    }
                }
            } else {
                proof {
                    assert(size_scan(rest, om, of) =~= size_scan(order.skip(i + 1), om, of));
                    lemma_take_congruent_items(found@, seen@, size_scan(rest, om, of), size_scan(order.skip(i + 1), om, of), ids, limit);
                }
            }
            i = i + 1;
        }
        proof {
            if i < n {
                assert forall|k: int| i <= k < n implies !size_fits(om, of, #[trigger] order[k].0, order[k].1) by {
                    assert(size_key_le(order[i as int], order[k]));
                }
                lemma_scan_skip_unfit(order, i as int, n as int, om, of);
            }
            assert(order.skip(n as int) =~= Seq::<(usize, usize, usize)>::empty());
        }
        found
    }
}

// ----- each class at most once, and no more than the limit -----

/// Whether the candidates `found` name distinct classes (`ids` by position), all in `seen`.
pub open spec fn distinct_taken(found: Seq<usize>, seen: Set<usize>, ids: Seq<usize>) -> bool {
    &&& forall|i: int, j: int| 0 <= i < j < found.len() ==> ids[found[i] as int] != ids[found[j] as int]
    &&& forall|i: int| 0 <= i < found.len() ==> seen.contains(#[trigger] ids[found[i] as int])
}

proof fn lemma_take_unseen_distinct(found: Seq<usize>, seen: Set<usize>, items: Seq<usize>, ids: Seq<usize>, limit: usize)
    requires
        distinct_taken(found, seen, ids),
        found.len() < limit,
    ensures
        distinct_taken(
            take_unseen(found, seen, items, ids, limit).0,
            take_unseen(found, seen, items, ids, limit).1,
            ids,
        ),
        take_unseen(found, seen, items, ids, limit).0.len() <= limit,
    decreases items.len(),
{
    if items.len() > 0 {
        let id = ids[items[0] as int];
        if seen.contains(id) {
            lemma_take_unseen_distinct(found, seen, items.skip(1), ids, limit);
        } else {
            let f2 = found.push(items[0]);
            let s2 = seen.insert(id);
            assert forall|i: int, j: int| 0 <= i < j < f2.len() implies ids[f2[i] as int] != ids[f2[j] as int] by {
                if j == found.len() {
                    assert(seen.contains(ids[found[i] as int]));
                }
            }
            assert forall|i: int| 0 <= i < f2.len() implies s2.contains(#[trigger] ids[f2[i] as int]) by {
                if i < found.len() {
                    assert(seen.contains(ids[found[i] as int]));
                }
            }
            if f2.len() < limit {
                lemma_take_unseen_distinct(f2, s2, items.skip(1), ids, limit);
            }
        }
    }
}

proof fn lemma_run_lookups_distinct(
    found: Seq<usize>,
    seen: Set<usize>,
    lookups: Seq<(AnchorKind, Seq<char>)>,
    cs: Seq<ClassFingerprint>,
    ids: Seq<usize>,
    limit: usize,
    max_bucket: usize,
)
    requires
        distinct_taken(found, seen, ids),
        found.len() < limit,
    ensures
        ({
            let r = run_lookups(found, seen, lookups, cs, ids, limit, max_bucket);
            distinct_taken(r.0, r.1, ids) && r.0.len() <= limit && (!r.2 ==> r.0.len() < limit)
        }),
    decreases lookups.len(),
{
    if lookups.len() > 0 {
        let bucket = anchor_positions(cs, lookups[0].0, lookups[0].1);
        if bucket.len() <= max_bucket {
            lemma_take_unseen_distinct(found, seen, bucket, ids, limit);
        }
        let s = bucket_step(found, seen, bucket, ids, limit, max_bucket);
        if s.0.len() < limit {
            lemma_run_lookups_distinct(s.0, s.1, lookups.skip(1), cs, ids, limit, max_bucket);
        }
    }
}

/// The candidates for an old class name each new class at most once, and there are no more
/// of them than a positive `limit`.
pub proof fn lemma_candidates_distinct(
    old: Seq<ClassFingerprint>,
    new: Seq<ClassFingerprint>,
    c: ClassFingerprint,
    cs: Seq<ClassFingerprint>,
    order: Seq<(usize, usize, usize)>,
    limit: usize,
)
    requires
        limit >= 1,
    ensures
        ({
            let r = compatible_of(old, new, c, cs, order, limit);
            let ids = class_ids(cs);
            &&& forall|i: int, j: int| 0 <= i < j < r.len() ==> ids[r[i] as int] != ids[r[j] as int]
            &&& r.len() <= limit
        }),
{
    let ids = class_ids(cs);
    let e = Seq::<usize>::empty();
    let z = Set::<usize>::empty();
    lemma_run_lookups_distinct(e, z, rare_lookups(old, new, c), cs, ids, limit, rare_bucket_cap(limit));
    let r = run_lookups(e, z, rare_lookups(old, new, c), cs, ids, limit, rare_bucket_cap(limit));
    if r.0.len() < limit {
        lemma_run_lookups_distinct(r.0, r.1, common_lookups(c), cs, ids, limit, common_bucket_cap(limit));
    }
    let a = anchor_candidates(e, z, old, new, c, cs, ids, limit);
    if a.0.len() < limit {
        lemma_take_unseen_distinct(
            a.0,
            a.1,
            size_scan(order, c.method_shapes@.len() as usize, c.field_shapes@.len() as usize),
            ids,
            limit,
        );
    }
}

} // verus!
