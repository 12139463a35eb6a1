//! A map from names to names, found through hash buckets: inserting a name again replaces its
//! value, as a map does.

use std::collections::BTreeMap;

use vstd::prelude::*;

use crate::audit::descriptor_hash;
use crate::chars::chars_equal;

verus! {

broadcast use vstd::std_specs::btree::group_btree_axioms, vstd::laws_cmp::group_laws_cmp;

/// The hash of the characters `v`, as `descriptor_hash` defines it.
pub fn hash_chars(v: &[char]) -> (r: u64)
    ensures
        r == descriptor_hash(v@),
{
    let mut h: u64 = 0xcbf29ce484222325;
    let mut i: usize = 0;
    assert(v@.take(0) =~= Seq::<char>::empty());
    while i < v.len()
        invariant
            i <= v.len(),
            h == descriptor_hash(v@.take(i as int)),
        decreases v.len() - i,
    {
        let c = v[i];
        proof {
            assert(v@.take(i + 1).drop_last() =~= v@.take(i as int));
        }
        h = (h ^ (c as u32 as u64)).wrapping_mul(0x100000001b3);
        i = i + 1;
    }
    assert(v@.take(v@.len() as int) =~= v@);
    h
}

/// Names with their values, each name once.
pub struct NameTable {
    entries: Vec<(Vec<char>, Vec<char>)>,
    buckets: BTreeMap<u64, Vec<usize>>,
}

impl NameTable {
    /// Each name once, every entry found through the bucket of its name's hash, and every
    /// bucket position an entry.
    pub closed spec fn wf(&self) -> bool {
        &&& forall|i: int, j: int| 0 <= i < j < self.entries@.len() ==> self.entries@[i].0@ != self.entries@[j].0@
        &&& forall|i: int|
            #![trigger self.entries@[i]]
            0 <= i < self.entries@.len() ==> self.buckets@.contains_key(descriptor_hash(self.entries@[i].0@))
                && self.buckets@[descriptor_hash(self.entries@[i].0@)]@.contains(i as usize)
        &&& forall|h: u64, k: int|
            self.buckets@.contains_key(h) && 0 <= k < self.buckets@[h]@.len() ==> (#[trigger] self.buckets@[h]@[k])
                < self.entries@.len()
    }

    /// The value of `name`, if it has one.
    pub closed spec fn value_of(&self, name: Seq<char>) -> Option<Seq<char>> {
        if exists|i: int| 0 <= i < self.entries@.len() && self.entries@[i].0@ == name {
            let i = choose|i: int| 0 <= i < self.entries@.len() && self.entries@[i].0@ == name;
            Some(self.entries@[i].1@)
        } else {
            None
        }
    }

    /// An empty table.
    pub fn new() -> (r: Self)
        ensures
            r.wf(),
            forall|name: Seq<char>| #[trigger] r.value_of(name) is None,
    {
        NameTable { entries: Vec::new(), buckets: BTreeMap::new() }
    }

    /// The position of the entry for `name`.
    fn position(&self, name: &[char]) -> (r: Option<usize>)
        requires
            self.wf(),
        ensures
            match r {
                Some(k) => k < self.entries@.len() && self.entries@[k as int].0@ == name@,
                None => forall|j: int| 0 <= j < self.entries@.len() ==> self.entries@[j].0@ != name@,
            },
    {
        let h = hash_chars(name);
        let bucket = match self.buckets.get(&h) {
            Some(b) => b,
            None => {
                proof {
                    assert forall|j: int| 0 <= j < self.entries@.len() implies self.entries@[j].0@ != name@ by {
                        if self.entries@[j].0@ == name@ {
                            assert(self.buckets@.contains_key(descriptor_hash(self.entries@[j].0@)));
                        }
                    }
                }
                return None;
            },
        };
        let mut i: usize = 0;
        while i < bucket.len()
            invariant
                i <= bucket.len(),
                self.wf(),
                self.buckets@.contains_key(h),
                h == descriptor_hash(name@),
                bucket@ == self.buckets@[h]@,
                forall|k: int| 0 <= k < i ==> self.entries@[#[trigger] bucket@[k] as int].0@ != name@,
            decreases bucket.len() - i,
        {
            let k = bucket[i];
            assert(self.buckets@[h]@[i as int] == k);
            if chars_equal(self.entries[k].0.as_slice(), name) {
                return Some(k);
            }
            i = i + 1;
        }
        let count = self.entries.len();
        proof {
            assert forall|j: int| 0 <= j < self.entries@.len() implies self.entries@[j].0@ != name@ by {
                if self.entries@[j].0@ == name@ {
                    assert(j < count);
                    assert(descriptor_hash(self.entries@[j].0@) == h);
                    assert(self.buckets@[h]@.contains(j as usize));
                    let m = choose|m: int| 0 <= m < bucket@.len() && bucket@[m] == j as usize;
                    assert(self.entries@[bucket@[m] as int].0@ != name@);
                }
            }
        }
        None
    }

    /// The value of `name`.
    pub fn get(&self, name: &[char]) -> (r: Option<&Vec<char>>)
        requires
            self.wf(),
        ensures
            match r {
                Some(v) => self.value_of(name@) == Some(v@),
                None => self.value_of(name@) is None,
            },
    {
        match self.position(name) {
            Some(k) => {
                proof {
                    let i = choose|i: int| 0 <= i < self.entries@.len() && self.entries@[i].0@ == name@;
                    if i != k as int {
                        if i < k as int {
                            assert(self.entries@[i].0@ != self.entries@[k as int].0@);
                        } else {
                            assert(self.entries@[k as int].0@ != self.entries@[i].0@);
                        }
                    }
                }
                Some(&self.entries[k].1)
            },
            None => None,
        }
    }

    /// Gives `name` the value `value`, replacing any value it had.
    pub fn insert(&mut self, name: Vec<char>, value: Vec<char>)
        requires
            old(self).wf(),
        ensures
            final(self).wf(),
            forall|n: Seq<char>|
                #[trigger] final(self).value_of(n) == if n == name@ {
                    Some(value@)
                } else {
                    old(self).value_of(n)
                },
    {
        let ghost before = *self;
        match self.position(name.as_slice()) {
            Some(k) => {
                let ghost key = self.entries@[k as int].0;
                self.entries.set(k, (name, value));
                proof {
                    assert forall|i: int, j: int| 0 <= i < j < self.entries@.len() implies self.entries@[i].0@
                        != self.entries@[j].0@ by {
                        assert(before.entries@[i].0@ != before.entries@[j].0@);
                    }
                    assert forall|i: int| #![trigger self.entries@[i]] 0 <= i < self.entries@.len() implies self.buckets@.contains_key(
                        descriptor_hash(self.entries@[i].0@),
                    ) && self.buckets@[descriptor_hash(self.entries@[i].0@)]@.contains(i as usize) by {
                        assert(self.entries@[i].0@ == before.entries@[i].0@);
                    }
                    assert forall|n: Seq<char>| #[trigger] self.value_of(n) == if n == name@ {
                        Some(value@)
                    } else {
                        before.value_of(n)
                    } by {
                        if n == name@ {
                            assert(self.entries@[k as int].0@ == n);
                            let i = choose|i: int| 0 <= i < self.entries@.len() && self.entries@[i].0@ == n;
                            if i != k as int {
                                if i < k as int {
                                    assert(self.entries@[i].0@ != self.entries@[k as int].0@);
                                } else {
                                    assert(self.entries@[k as int].0@ != self.entries@[i].0@);
                                }
                            }
                        } else {
                            if exists|i: int| 0 <= i < before.entries@.len() && before.entries@[i].0@ == n {
                                let i = choose|i: int| 0 <= i < before.entries@.len() && before.entries@[i].0@ == n;
                                assert(i != k as int);
                                assert(self.entries@[i].0@ == n);
                                let i2 = choose|i2: int| 0 <= i2 < self.entries@.len() && self.entries@[i2].0@ == n;
                                assert(i2 != k as int);
                                if i2 != i {
                                    if i2 < i {
                                        assert(before.entries@[i2].0@ != before.entries@[i].0@);
                                    } else {
                                        assert(before.entries@[i].0@ != before.entries@[i2].0@);
                                    }
                                }
                            } else {
                                assert forall|i: int| 0 <= i < self.entries@.len() implies self.entries@[i].0@ != n by {
                                    if i != k as int {
                                        assert(self.entries@[i].0@ == before.entries@[i].0@);
                                    }
                                }
                            }
                        }
                    }
                }
            },
            None => {
                let h = hash_chars(name.as_slice());
                let k = self.entries.len();
                let mut bucket = match self.buckets.remove(&h) {
                    Some(b) => b,
                    None => Vec::new(),
                };
                let ghost old_bucket = bucket@;
                bucket.push(k);
                self.buckets.insert(h, bucket);
                self.entries.push((name, value));
                proof {
                    assert(before.buckets@.contains_key(h) ==> old_bucket == before.buckets@[h]@);
                    assert(!before.buckets@.contains_key(h) ==> old_bucket.len() == 0);
                    assert forall|i: int, j: int| 0 <= i < j < self.entries@.len() implies self.entries@[i].0@
                        != self.entries@[j].0@ by {
                        if j == k as int {
                            assert(before.entries@[i].0@ != name@);
                        } else {
                            assert(before.entries@[i].0@ != before.entries@[j].0@);
                        }
                    }
                    assert forall|i: int| #![trigger self.entries@[i]] 0 <= i < self.entries@.len() implies self.buckets@.contains_key(
                        descriptor_hash(self.entries@[i].0@),
                    ) && self.buckets@[descriptor_hash(self.entries@[i].0@)]@.contains(i as usize) by {
                        if i == k as int {
                            assert(self.buckets@[h]@[old_bucket.len() as int] == k);
                        } else {
                            let hi = descriptor_hash(before.entries@[i].0@);
                            assert(self.entries@[i].0@ == before.entries@[i].0@);
                            if hi == h {
                                let m = choose|m: int| 0 <= m < old_bucket.len() && old_bucket[m] == i as usize;
                                assert(self.buckets@[h]@[m] == i as usize);
                            }
                        }
                    }
                    assert forall|g: u64, m: int| self.buckets@.contains_key(g) && 0 <= m < self.buckets@[g]@.len()
                        implies (#[trigger] self.buckets@[g]@[m]) < self.entries@.len() by {
                        if g == h {
                            if m < old_bucket.len() {
                                assert(self.buckets@[h]@[m] == old_bucket[m]);
                                assert(before.buckets@[h]@[m] < before.entries@.len());
                            }
                        } else {
                            assert(self.buckets@[g] == before.buckets@[g]);
                        }
                    }
                    assert forall|n: Seq<char>| #[trigger] self.value_of(n) == if n == name@ {
                        Some(value@)
                    } else {
                        before.value_of(n)
                    } by {
                        if n == name@ {
                            assert(self.entries@[k as int].0@ == n);
                            let i = choose|i: int| 0 <= i < self.entries@.len() && self.entries@[i].0@ == n;
                            if i != k as int {
                                assert(before.entries@[i].0@ != name@);
                            }
                        } else {
                            if exists|i: int| 0 <= i < before.entries@.len() && before.entries@[i].0@ == n {
                                let i = choose|i: int| 0 <= i < before.entries@.len() && before.entries@[i].0@ == n;
                                assert(self.entries@[i].0@ == n);
                                let i2 = choose|i2: int| 0 <= i2 < self.entries@.len() && self.entries@[i2].0@ == n;
                                assert(i2 != k as int);
                                if i2 != i {
                                    if i2 < i {
                                        assert(before.entries@[i2].0@ != before.entries@[i].0@);
                                    } else {
                                        assert(before.entries@[i].0@ != before.entries@[i2].0@);
                                    }
                                }
                            } else {
                                assert forall|i: int| 0 <= i < self.entries@.len() implies self.entries@[i].0@ != n by {
                                    if i != k as int {
                                        assert(self.entries@[i].0@ == before.entries@[i].0@);
                                    }
                                }
                            }
                        }
                    }
                }
            },
        }
    }
}

/// The hash of the characters of `s`, as `descriptor_hash` defines it.
pub fn hash_str(s: &str) -> (r: u64)
    ensures
        r == descriptor_hash(s@),
{
    let mut h: u64 = 0xcbf29ce484222325;
    for c in it: s.chars()
        invariant
            it.seq() == s@,
            h == descriptor_hash(s@.take(it.index() as int)),
    {
        proof {
            assert(s@.take(it.index() + 1).drop_last() =~= s@.take(it.index() as int));
        }
        h = (h ^ (c as u32 as u64)).wrapping_mul(0x100000001b3);
    }
    assert(s@.take(s@.len() as int) =~= s@);
    h
}

/// Values found by string keys through hash buckets, each key once.
pub struct KeyTable<V> {
    keys: Vec<String>,
    values: Vec<V>,
    buckets: BTreeMap<u64, Vec<usize>>,
}

impl<V> KeyTable<V> {
    /// Each key once, beside its value; every entry found through the bucket of its key's
    /// hash, and every bucket position an entry.
    pub closed spec fn wf(&self) -> bool {
        &&& self.keys@.len() == self.values@.len()
        &&& forall|i: int, j: int| 0 <= i < j < self.keys@.len() ==> self.keys@[i]@ != self.keys@[j]@
        &&& forall|i: int|
            #![trigger self.keys@[i]]
            0 <= i < self.keys@.len() ==> self.buckets@.contains_key(descriptor_hash(self.keys@[i]@))
                && self.buckets@[descriptor_hash(self.keys@[i]@)]@.contains(i as usize)
        &&& forall|h: u64, k: int|
            self.buckets@.contains_key(h) && 0 <= k < self.buckets@[h]@.len() ==> (#[trigger] self.buckets@[h]@[k])
                < self.keys@.len()
    }

    /// The value of `key`, if it has one.
    pub closed spec fn value_of(&self, key: Seq<char>) -> Option<V> {
        if exists|i: int| 0 <= i < self.keys@.len() && self.keys@[i]@ == key {
            let i = choose|i: int| 0 <= i < self.keys@.len() && self.keys@[i]@ == key;
            Some(self.values@[i])
        } else {
            None
        }
    }

    /// An empty table.
    pub fn new() -> (r: Self)
        ensures
            r.wf(),
            forall|key: Seq<char>| #[trigger] r.value_of(key) is None,
    {
        KeyTable { keys: Vec::new(), values: Vec::new(), buckets: BTreeMap::new() }
    }

    proof fn lemma_value_at(&self, k: int)
        requires
            self.wf(),
            0 <= k < self.keys@.len(),
        ensures
            self.value_of(self.keys@[k]@) == Some(self.values@[k]),
    {
        let key = self.keys@[k]@;
        let i = choose|i: int| 0 <= i < self.keys@.len() && self.keys@[i]@ == key;
        if i != k {
            if i < k {
                assert(self.keys@[i]@ != self.keys@[k]@);
            } else {
                assert(self.keys@[k]@ != self.keys@[i]@);
            }
        }
    }

    /// The position of the entry for `key`.
    fn position(&self, key: &String) -> (r: Option<usize>)
        requires
            self.wf(),
        ensures
            match r {
                Some(k) => k < self.keys@.len() && self.keys@[k as int]@ == key@,
                None => forall|j: int| 0 <= j < self.keys@.len() ==> self.keys@[j]@ != key@,
            },
    {
        let h = hash_str(key.as_str());
        let bucket = match self.buckets.get(&h) {
            Some(b) => b,
            None => {
                proof {
                    assert forall|j: int| 0 <= j < self.keys@.len() implies self.keys@[j]@ != key@ by {
                        if self.keys@[j]@ == key@ {
                            assert(self.buckets@.contains_key(descriptor_hash(self.keys@[j]@)));
                        }
                    }
                }
                return None;
            },
        };
        let mut i: usize = 0;
        while i < bucket.len()
            invariant
                i <= bucket.len(),
                self.wf(),
                self.buckets@.contains_key(h),
                h == descriptor_hash(key@),
                bucket@ == self.buckets@[h]@,
                forall|k: int| 0 <= k < i ==> self.keys@[#[trigger] bucket@[k] as int]@ != key@,
            decreases bucket.len() - i,
        {
            let k = bucket[i];
            assert(self.buckets@[h]@[i as int] == k);
            if self.keys[k] == *key {
                return Some(k);
            }
            i = i + 1;
        }
        let count = self.keys.len();
        proof {
            assert forall|j: int| 0 <= j < self.keys@.len() implies self.keys@[j]@ != key@ by {
                if self.keys@[j]@ == key@ {
                    assert(j < count);
                    assert(descriptor_hash(self.keys@[j]@) == h);
                    assert(self.buckets@[h]@.contains(j as usize));
                    let m = choose|m: int| 0 <= m < bucket@.len() && bucket@[m] == j as usize;
                    assert(self.keys@[bucket@[m] as int]@ != key@);
                }
            }
        }
        None
    }

    /// The value of `key`.
    pub fn get(&self, key: &String) -> (r: Option<&V>)
        requires
            self.wf(),
        ensures
            match r {
                Some(v) => self.value_of(key@) == Some(*v),
                None => self.value_of(key@) is None,
            },
    {
        match self.position(key) {
            Some(k) => {
                proof {
                    self.lemma_value_at(k as int);
                }
                Some(&self.values[k])
            },
            None => None,
        }
    }

    /// Adds `key`, which has no value yet, with the value `value`.
    fn insert_new(&mut self, key: String, value: V)
        requires
            old(self).wf(),
            forall|j: int| 0 <= j < old(self).keys@.len() ==> old(self).keys@[j]@ != key@,
        ensures
            final(self).wf(),
            forall|n: Seq<char>|
                #[trigger] final(self).value_of(n) == if n == key@ {
                    Some(value)
                } else {
                    old(self).value_of(n)
                },
    {
        let ghost before = *self;
        let h = hash_str(key.as_str());
        let k = self.keys.len();
        let mut bucket = match self.buckets.remove(&h) {
            Some(b) => b,
            None => Vec::new(),
        };
        let ghost old_bucket = bucket@;
        bucket.push(k);
        self.buckets.insert(h, bucket);
        self.keys.push(key);
        self.values.push(value);
        proof {
            assert(before.buckets@.contains_key(h) ==> old_bucket == before.buckets@[h]@);
            assert(!before.buckets@.contains_key(h) ==> old_bucket.len() == 0);
            assert forall|i: int, j: int| 0 <= i < j < self.keys@.len() implies self.keys@[i]@
                != self.keys@[j]@ by {
                if j == k as int {
                    assert(before.keys@[i]@ != key@);
                } else {
                    assert(before.keys@[i]@ != before.keys@[j]@);
                }
            }
            assert forall|i: int| #![trigger self.keys@[i]] 0 <= i < self.keys@.len() implies self.buckets@.contains_key(
                descriptor_hash(self.keys@[i]@),
            ) && self.buckets@[descriptor_hash(self.keys@[i]@)]@.contains(i as usize) by {
                if i == k as int {
                    assert(self.buckets@[h]@[old_bucket.len() as int] == k);
                } else {
                    let hi = descriptor_hash(before.keys@[i]@);
                    assert(self.keys@[i]@ == before.keys@[i]@);
                    if hi == h {
                        let m = choose|m: int| 0 <= m < old_bucket.len() && old_bucket[m] == i as usize;
                        assert(self.buckets@[h]@[m] == i as usize);
                    }
                }
            }
            assert forall|g: u64, m: int| self.buckets@.contains_key(g) && 0 <= m < self.buckets@[g]@.len()
                implies (#[trigger] self.buckets@[g]@[m]) < self.keys@.len() by {
                if g == h {
                    if m < old_bucket.len() {
                        assert(self.buckets@[h]@[m] == old_bucket[m]);
                        assert(before.buckets@[h]@[m] < before.keys@.len());
                    }
                } else {
                    assert(self.buckets@[g] == before.buckets@[g]);
                }
            }
            assert forall|n: Seq<char>| #[trigger] self.value_of(n) == if n == key@ {
                Some(value)
            } else {
                before.value_of(n)
            } by {
                if n == key@ {
                    self.lemma_value_at(k as int);
                } else {
                    if exists|i: int| 0 <= i < before.keys@.len() && before.keys@[i]@ == n {
                        let i = choose|i: int| 0 <= i < before.keys@.len() && before.keys@[i]@ == n;
                        before.lemma_value_at(i);
                        assert(self.keys@[i] == before.keys@[i]);
                        self.lemma_value_at(i);
                    } else {
                        assert forall|i: int| 0 <= i < self.keys@.len() implies self.keys@[i]@ != n by {
                            if i != k as int {
                                assert(self.keys@[i] == before.keys@[i]);
                            }
                        }
                    }
                }
            }
        }
    }
}

impl KeyTable<Vec<usize>> {
    /// The list of `key`: its value's items, or none.
    pub open spec fn list_of(&self, key: Seq<char>) -> Seq<usize> {
        match self.value_of(key) {
            Some(v) => v@,
            None => Seq::empty(),
        }
    }

    /// Appends `item` to the list of `key`.
    pub fn push_to(&mut self, key: &String, item: usize)
        requires
            old(self).wf(),
        ensures
            final(self).wf(),
            forall|n: Seq<char>|
                #[trigger] final(self).list_of(n) == if n == key@ {
                    old(self).list_of(n).push(item)
                } else {
                    old(self).list_of(n)
                },
    {
        let ghost before = *self;
        match self.position(key) {
            Some(k) => {
                self.values[k].push(item);
                proof {
                    assert(self.keys@ == before.keys@);
                    assert forall|i: int| #![trigger self.keys@[i]] 0 <= i < self.keys@.len() implies self.buckets@.contains_key(
                        descriptor_hash(self.keys@[i]@),
                    ) && self.buckets@[descriptor_hash(self.keys@[i]@)]@.contains(i as usize) by {
                        assert(before.keys@[i] == self.keys@[i]);
                    }
                    assert forall|n: Seq<char>| #[trigger] self.list_of(n) == if n == key@ {
                        before.list_of(n).push(item)
                    } else {
                        before.list_of(n)
                    } by {
                        if n == key@ {
                            self.lemma_value_at(k as int);
                            before.lemma_value_at(k as int);
                        } else if exists|i: int| 0 <= i < before.keys@.len() && before.keys@[i]@ == n {
                            let i = choose|i: int| 0 <= i < before.keys@.len() && before.keys@[i]@ == n;
                            before.lemma_value_at(i);
                            self.lemma_value_at(i);
                            assert(i != k as int);
                        } else {
                            assert forall|i: int| 0 <= i < self.keys@.len() implies self.keys@[i]@ != n by {
                                assert(self.keys@[i] == before.keys@[i]);
                            }
                        }
                    }
                }
            },
            None => {
                let mut v: Vec<usize> = Vec::new();
                v.push(item);
                self.insert_new(key.clone(), v);
                proof {
                    assert forall|n: Seq<char>| #[trigger] self.list_of(n) == if n == key@ {
                        before.list_of(n).push(item)
                    } else {
                        before.list_of(n)
                    } by {
                        if n == key@ {
                            assert(before.value_of(n) is None);
                            assert(v@ =~= Seq::<usize>::empty().push(item));
                        }
                    }
                }
            },
        }
    }

    /// The list of `key`, where it has a value.
    pub fn list(&self, key: &String) -> (r: Option<&Vec<usize>>)
        requires
            self.wf(),
        ensures
            match r {
                Some(v) => v@ == self.list_of(key@),
                None => self.list_of(key@) == Seq::<usize>::empty(),
            },
    {
        self.get(key)
    }
}

} // verus!
