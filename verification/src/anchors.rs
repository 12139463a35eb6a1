//! Anchors: the strings, references and prototypes that classes of two app versions share,
//! how often each occurs in each app, and which classes hold each one.

use vstd::prelude::*;

use crate::chars::{strs, utf8_len, utf8_width};
use crate::fingerprint::{AppFingerprint, ClassFingerprint};
use crate::table::KeyTable;

verus! {

/// An anchor is rare when it occurs in at least one and at most this many classes of each app.
pub const RARE_ANCHOR_MAX_FREQUENCY: usize = 3;

/// The kinds of anchor a class fingerprint holds.
#[derive(Debug, Clone, Copy, PartialEq, Eq, Structural)]
pub enum AnchorKind {
    Str,
    MethodRef,
    FieldRef,
    MethodProto,
    FieldType,
}

/// The anchors of kind `kind` that `c` holds.
pub open spec fn anchors_of(c: ClassFingerprint, kind: AnchorKind) -> Seq<Seq<char>> {
    match kind {
        AnchorKind::Str => strs(c.strings@),
        AnchorKind::MethodRef => strs(c.method_ref_shapes@),
        AnchorKind::FieldRef => strs(c.field_ref_shapes@),
        AnchorKind::MethodProto => strs(c.method_proto_shapes@),
        AnchorKind::FieldType => strs(c.field_type_shapes@),
    }
}

/// Whether `c` is an ASCII digit.
pub open spec fn ascii_digit(c: char) -> bool {
    '0' <= c && c <= '9'
}

/// Whether `v` can tell classes apart: at least four bytes of UTF-8 and not all ASCII digits.
pub open spec fn useful_anchor(v: Seq<char>) -> bool {
    utf8_len(v) >= 4 && !(forall|i: int| 0 <= i < v.len() ==> ascii_digit(#[trigger] v[i]))
}

/// `p` once for each time `v` occurs in `values`.
pub open spec fn hits(values: Seq<Seq<char>>, v: Seq<char>, p: usize) -> Seq<usize>
    decreases values.len(),
{
    if values.len() == 0 {
        Seq::empty()
    } else {
        hits(values.drop_last(), v, p) + if values.last() == v {
            seq![p]
        } else {
            Seq::empty()
        }
    }
}

/// The positions in `cs` of the classes that hold the anchor `v` of kind `kind`, in order; a
/// class comes once for each time it holds `v`.
pub open spec fn anchor_positions(cs: Seq<ClassFingerprint>, kind: AnchorKind, v: Seq<char>) -> Seq<usize>
    decreases cs.len(),
{
    if cs.len() == 0 {
        Seq::empty()
    } else {
        anchor_positions(cs.drop_last(), kind, v) + hits(anchors_of(cs.last(), kind), v, (cs.len() - 1) as usize)
    }
}

/// How often the anchor `v` of kind `kind` occurs in the classes `cs`; anchors that cannot
/// tell classes apart are not counted.
pub open spec fn anchor_count(cs: Seq<ClassFingerprint>, kind: AnchorKind, v: Seq<char>) -> nat {
    if useful_anchor(v) {
        anchor_positions(cs, kind, v).len()
    } else {
        0
    }
}

/// Whether the anchor `v` of kind `kind` is rare in both the old classes and the new ones.
pub open spec fn rare_anchor(old: Seq<ClassFingerprint>, new: Seq<ClassFingerprint>, kind: AnchorKind, v: Seq<char>) -> bool {
    let a = anchor_count(old, kind, v);
    let b = anchor_count(new, kind, v);
    a > 0 && b > 0 && a <= RARE_ANCHOR_MAX_FREQUENCY && b <= RARE_ANCHOR_MAX_FREQUENCY
}

pub proof fn lemma_hits_step(values: Seq<Seq<char>>, j: int, v: Seq<char>, p: usize)
    requires
        0 <= j < values.len(),
    ensures
        hits(values.take(j + 1), v, p) == hits(values.take(j), v, p) + if values[j] == v {
            seq![p]
        } else {
            Seq::<usize>::empty()
        },
{
    assert(values.take(j + 1).drop_last() =~= values.take(j));
}

pub proof fn lemma_hits_len(values: Seq<Seq<char>>, v: Seq<char>, p: usize)
    ensures
        hits(values, v, p).len() <= values.len(),
        forall|k: int| 0 <= k < hits(values, v, p).len() ==> hits(values, v, p)[k] == p,
    decreases values.len(),
{
    if values.len() > 0 {
        lemma_hits_len(values.drop_last(), v, p);
    }
}

pub proof fn lemma_positions_step(cs: Seq<ClassFingerprint>, i: int, kind: AnchorKind, v: Seq<char>)
    requires
        0 <= i < cs.len(),
    ensures
        anchor_positions(cs.take(i + 1), kind, v) == anchor_positions(cs.take(i), kind, v) + hits(
            anchors_of(cs[i], kind),
            v,
            i as usize,
        ),
{
    assert(cs.take(i + 1).drop_last() =~= cs.take(i));
}

/// Whether `value` can tell classes apart as an anchor.
pub fn is_useful_anchor(value: &str) -> (r: bool)
    ensures
        r == useful_anchor(value@),
{
    let mut bytes: usize = 0;
    let mut all_digits = true;
    for c in it: value.chars()
        invariant
            it.seq() == value@,
            bytes as nat == if utf8_len(value@.take(it.index() as int)) < 4 {
                utf8_len(value@.take(it.index() as int))
            } else {
                4
            },
            all_digits == forall|k: int| 0 <= k < it.index() ==> ascii_digit(#[trigger] value@[k]),
    {
        let ghost i = it.index();
        proof {
            assert(value@.take(i + 1).drop_last() =~= value@.take(i as int));
            assert(value@.take(i + 1).last() == c);
        }
        let w: usize = if (c as u32) < 0x80 {
            1
        } else if (c as u32) < 0x800 {
            2
        } else if (c as u32) < 0x10000 {
            3
        } else {
            4
        };
        assert(w == utf8_width(c));
        bytes = if bytes + w < 4 {
            bytes + w
        } else {
            4
        };
        let digit = '0' <= c && c <= '9';
        proof {
            if all_digits && digit {
                assert forall|k: int| 0 <= k < i + 1 implies ascii_digit(#[trigger] value@[k]) by {
                    if k == i {
                        assert(value@[k] == c);
                    }
                }
            }
            if !digit {
                assert(value@[i as int] == c);
            }
        }
        all_digits = all_digits && digit;
    }
    proof {
        assert(value@.take(value@.len() as int) =~= value@);
    }
    bytes >= 4 && !all_digits
}

/// For each kind of anchor, the positions of the classes of a list that hold each anchor.
pub struct AnchorIndex {
    strings: KeyTable<Vec<usize>>,
    method_refs: KeyTable<Vec<usize>>,
    field_refs: KeyTable<Vec<usize>>,
    method_protos: KeyTable<Vec<usize>>,
    field_types: KeyTable<Vec<usize>>,
    classes: Ghost<Seq<ClassFingerprint>>,
}

impl AnchorIndex {
    spec fn table(&self, kind: AnchorKind) -> KeyTable<Vec<usize>> {
        match kind {
            AnchorKind::Str => self.strings,
            AnchorKind::MethodRef => self.method_refs,
            AnchorKind::FieldRef => self.field_refs,
            AnchorKind::MethodProto => self.method_protos,
            AnchorKind::FieldType => self.field_types,
        }
    }

    /// The classes the index was built from.
    pub closed spec fn classes(&self) -> Seq<ClassFingerprint> {
        self.classes@
    }

    /// Every table well formed, and the list of each anchor its positions in the classes.
    pub closed spec fn wf(&self) -> bool {
        &&& forall|kind: AnchorKind| #[trigger] self.table(kind).wf()
        &&& forall|kind: AnchorKind, v: Seq<char>|
            #[trigger] self.table(kind).list_of(v) == anchor_positions(self.classes@, kind, v)
    }

    /// The index of the anchors of `classes`.
    pub fn new(classes: &[ClassFingerprint]) -> (r: Self)
        ensures
            r.wf(),
            r.classes() == classes@,
    {
        let mut index = AnchorIndex {
            strings: KeyTable::new(),
            method_refs: KeyTable::new(),
            field_refs: KeyTable::new(),
            method_protos: KeyTable::new(),
            field_types: KeyTable::new(),
            classes: Ghost(classes@.take(0)),
        };
        proof {
            assert forall|kind: AnchorKind, v: Seq<char>|
                #[trigger] index.table(kind).list_of(v) == anchor_positions(index.classes@, kind, v) by {
                assert(index.table(kind).value_of(v) is None);
            }
        }
        let mut i: usize = 0;
        while i < classes.len()
            invariant
                i <= classes.len(),
                index.wf(),
                index.classes@ == classes@.take(i as int),
            decreases classes.len() - i,
        {
            let c = &classes[i];
            let ghost before = index;
            proof {
                assert(index.table(AnchorKind::Str).wf());
                assert(index.table(AnchorKind::MethodRef).wf());
                assert(index.table(AnchorKind::FieldRef).wf());
                assert(index.table(AnchorKind::MethodProto).wf());
                assert(index.table(AnchorKind::FieldType).wf());
            }
            add_anchors(&mut index.strings, &c.strings, i);
            add_anchors(&mut index.method_refs, &c.method_ref_shapes, i);
            add_anchors(&mut index.field_refs, &c.field_ref_shapes, i);
            add_anchors(&mut index.method_protos, &c.method_proto_shapes, i);
            add_anchors(&mut index.field_types, &c.field_type_shapes, i);
            index.classes = Ghost(classes@.take(i + 1));
            proof {
                assert forall|kind: AnchorKind| #[trigger] index.table(kind).wf() by {
                    match kind {
                        AnchorKind::Str => {},
                        AnchorKind::MethodRef => {},
                        AnchorKind::FieldRef => {},
                        AnchorKind::MethodProto => {},
                        AnchorKind::FieldType => {},
                    }
                }
                assert forall|kind: AnchorKind, v: Seq<char>|
                    #[trigger] index.table(kind).list_of(v) == anchor_positions(index.classes@, kind, v) by {
                    lemma_positions_step(classes@, i as int, kind, v);
                    assert(before.table(kind).list_of(v) == anchor_positions(classes@.take(i as int), kind, v));
                    match kind {
                        AnchorKind::Str => {},
                        AnchorKind::MethodRef => {},
                        AnchorKind::FieldRef => {},
                        AnchorKind::MethodProto => {},
                        AnchorKind::FieldType => {},
                    }
                }
            }
            i = i + 1;
        }
        proof {
            assert(classes@.take(classes@.len() as int) =~= classes@);
        }
        index
    }

    /// The positions of the classes that hold the anchor `value` of kind `kind`, where any do.
    pub fn positions(&self, kind: AnchorKind, value: &String) -> (r: Option<&Vec<usize>>)
        requires
            self.wf(),
        ensures
            match r {
                Some(p) => p@ == anchor_positions(self.classes(), kind, value@),
                None => anchor_positions(self.classes(), kind, value@) == Seq::<usize>::empty(),
            },
    {
        assert(self.table(kind).wf());
        assert(self.table(kind).list_of(value@) == anchor_positions(self.classes@, kind, value@));
        match kind {
            AnchorKind::Str => self.strings.list(value),
            AnchorKind::MethodRef => self.method_refs.list(value),
            AnchorKind::FieldRef => self.field_refs.list(value),
            AnchorKind::MethodProto => self.method_protos.list(value),
            AnchorKind::FieldType => self.field_types.list(value),
        }
    }

    /// How often the anchor `value` of kind `kind` occurs in the classes.
    pub fn count(&self, kind: AnchorKind, value: &String) -> (r: usize)
        requires
            self.wf(),
        ensures
            r == anchor_count(self.classes(), kind, value@),
    {
        if !is_useful_anchor(value.as_str()) {
            return 0;
        }
        match self.positions(kind, value) {
            Some(p) => p.len(),
            None => 0,
        }
    }
}

/// Adds the position `p` to the list of each of `values`, once for each time it occurs.
fn add_anchors(table: &mut KeyTable<Vec<usize>>, values: &Vec<String>, p: usize)
    requires
        old(table).wf(),
    ensures
        final(table).wf(),
        forall|v: Seq<char>| #[trigger] final(table).list_of(v) == old(table).list_of(v) + hits(strs(values@), v, p),
{
    let ghost start = *table;
    let mut j: usize = 0;
    while j < values.len()
        invariant
            j <= values.len(),
            table.wf(),
            forall|v: Seq<char>| #[trigger] table.list_of(v) == start.list_of(v) + hits(strs(values@).take(j as int), v, p),
        decreases values.len() - j,
    {
        table.push_to(&values[j], p);
        proof {
            assert forall|v: Seq<char>| #[trigger] table.list_of(v) == start.list_of(v) + hits(
                strs(values@).take(j + 1),
                v,
                p,
            ) by {
                lemma_hits_step(strs(values@), j as int, v, p);
                assert(strs(values@)[j as int] == values@[j as int]@);
            }
        }
        j = j + 1;
    }
    proof {
        assert(strs(values@).take(values@.len() as int) =~= strs(values@));
    }
}

/// How often each anchor occurs in the classes of an old app and of a new one.
pub struct AnchorStats {
    old: AnchorIndex,
    new: AnchorIndex,
}

/// How many rare anchors of each kind two classes share, in all, and how many kinds have any.
#[derive(Debug, Clone, Copy, PartialEq, Eq, Structural)]
pub struct RareAnchorEvidence {
    pub string: usize,
    pub method_ref: usize,
    pub field_ref: usize,
    pub method_proto: usize,
    pub field_type: usize,
    pub total: usize,
    pub kind_count: usize,
}

/// How many of `a` (each time it occurs) `b` holds too and are rare anchors of kind `kind`
/// in the old classes and the new ones.
pub open spec fn rare_shared(
    old: Seq<ClassFingerprint>,
    new: Seq<ClassFingerprint>,
    kind: AnchorKind,
    a: Seq<Seq<char>>,
    b: Seq<Seq<char>>,
) -> nat
    decreases a.len(),
{
    if a.len() == 0 {
        0
    } else {
        rare_shared(old, new, kind, a.drop_last(), b) + if b.contains(a.last()) && rare_anchor(old, new, kind, a.last()) {
            1nat
        } else {
            0nat
        }
    }
}

/// 1 for a count above zero, else 0.
pub open spec fn any(n: nat) -> nat {
    if n > 0 {
        1
    } else {
        0
    }
}

/// The rare anchors that `a` shares with `b`, counted by kind, with the old classes `old`
/// and the new classes `new` deciding what is rare.
pub open spec fn rare_evidence_of(
    old: Seq<ClassFingerprint>,
    new: Seq<ClassFingerprint>,
    a: ClassFingerprint,
    b: ClassFingerprint,
) -> RareAnchorEvidence {
    let string = rare_shared(old, new, AnchorKind::Str, anchors_of(a, AnchorKind::Str), anchors_of(b, AnchorKind::Str));
    let method_ref = rare_shared(
        old,
        new,
        AnchorKind::MethodRef,
        anchors_of(a, AnchorKind::MethodRef),
        anchors_of(b, AnchorKind::MethodRef),
    );
    let field_ref = rare_shared(
        old,
        new,
        AnchorKind::FieldRef,
        anchors_of(a, AnchorKind::FieldRef),
        anchors_of(b, AnchorKind::FieldRef),
    );
    let method_proto = rare_shared(
        old,
        new,
        AnchorKind::MethodProto,
        anchors_of(a, AnchorKind::MethodProto),
        anchors_of(b, AnchorKind::MethodProto),
    );
    let field_type = rare_shared(
        old,
        new,
        AnchorKind::FieldType,
        anchors_of(a, AnchorKind::FieldType),
        anchors_of(b, AnchorKind::FieldType),
    );
    RareAnchorEvidence {
        string: string as usize,
        method_ref: method_ref as usize,
        field_ref: field_ref as usize,
        method_proto: method_proto as usize,
        field_type: field_type as usize,
        total: (string + method_ref + field_ref + method_proto + field_type) as usize,
        kind_count: (any(string) + any(method_ref) + any(field_ref) + any(method_proto) + any(field_type)) as usize,
    }
}

pub proof fn lemma_rare_shared_bound(
    old: Seq<ClassFingerprint>,
    new: Seq<ClassFingerprint>,
    kind: AnchorKind,
    a: Seq<Seq<char>>,
    b: Seq<Seq<char>>,
)
    ensures
        rare_shared(old, new, kind, a, b) <= a.len(),
    decreases a.len(),
{
    if a.len() > 0 {
        lemma_rare_shared_bound(old, new, kind, a.drop_last(), b);
    }
}

/// Whether `v` holds `s`.
fn holds(v: &Vec<String>, s: &String) -> (r: bool)
    ensures
        r == strs(v@).contains(s@),
{
    let mut i: usize = 0;
    while i < v.len()
        invariant
            i <= v.len(),
            forall|k: int| 0 <= k < i ==> v@[k]@ != s@,
        decreases v.len() - i,
    {
        if v[i] == *s {
            assert(strs(v@)[i as int] == s@);
            return true;
        }
        i = i + 1;
    }
    proof {
        if strs(v@).contains(s@) {
            let k = choose|k: int| 0 <= k < strs(v@).len() && strs(v@)[k] == s@;
            assert(v@[k]@ == s@);
        }
    }
    false
}

impl AnchorStats {
    /// The classes of the old app.
    pub closed spec fn old_classes(&self) -> Seq<ClassFingerprint> {
        self.old.classes()
    }

    /// The classes of the new app.
    pub closed spec fn new_classes(&self) -> Seq<ClassFingerprint> {
        self.new.classes()
    }

    pub closed spec fn wf(&self) -> bool {
        self.old.wf() && self.new.wf()
    }

    /// The anchor counts of the old app `old` and the new app `new`.
    pub fn build(old: &AppFingerprint, new: &AppFingerprint) -> (r: Self)
        ensures
            r.wf(),
            r.old_classes() == old.classes@,
            r.new_classes() == new.classes@,
    {
        AnchorStats { old: AnchorIndex::new(old.classes.as_slice()), new: AnchorIndex::new(new.classes.as_slice()) }
    }

    /// Whether the anchor `value` of kind `kind` is rare in both apps.
    pub fn is_rare(&self, kind: AnchorKind, value: &String) -> (r: bool)
        requires
            self.wf(),
        ensures
            r == rare_anchor(self.old_classes(), self.new_classes(), kind, value@),
    {
        let a = self.old.count(kind, value);
        let b = self.new.count(kind, value);
        a > 0 && b > 0 && a <= RARE_ANCHOR_MAX_FREQUENCY && b <= RARE_ANCHOR_MAX_FREQUENCY
    }

    /// How many of `a` (each time it occurs) `b` holds too and are rare anchors of kind `kind`.
    fn rare_shared_count(&self, kind: AnchorKind, a: &Vec<String>, b: &Vec<String>) -> (r: usize)
        requires
            self.wf(),
        ensures
            r == rare_shared(self.old_classes(), self.new_classes(), kind, strs(a@), strs(b@)),
    {
        let ghost old_cs = self.old_classes();
        let ghost new_cs = self.new_classes();
        let mut count: usize = 0;
        let mut i: usize = 0;
        while i < a.len()
            invariant
                i <= a.len(),
                self.wf(),
                old_cs == self.old_classes(),
                new_cs == self.new_classes(),
                count == rare_shared(old_cs, new_cs, kind, strs(a@).take(i as int), strs(b@)),
            decreases a.len() - i,
        {
            proof {
                assert(strs(a@).take(i + 1).drop_last() =~= strs(a@).take(i as int));
                assert(strs(a@).take(i + 1).last() == a@[i as int]@);
                lemma_rare_shared_bound(old_cs, new_cs, kind, strs(a@).take(i as int), strs(b@));
            }
            if self.is_rare(kind, &a[i]) && holds(b, &a[i]) {
                count = count + 1;
            }
            i = i + 1;
        }
        proof {
            assert(strs(a@).take(a@.len() as int) =~= strs(a@));
        }
        count
    }

    /// The rare anchors that `old_class` shares with `new_class`, counted by kind.
    pub fn rare_evidence(&self, old_class: &ClassFingerprint, new_class: &ClassFingerprint) -> (r: RareAnchorEvidence)
        requires
            self.wf(),
            old_class.strings@.len() + old_class.method_ref_shapes@.len() + old_class.field_ref_shapes@.len()
                + old_class.method_proto_shapes@.len() + old_class.field_type_shapes@.len() <= usize::MAX,
        ensures
            r == rare_evidence_of(self.old_classes(), self.new_classes(), *old_class, *new_class),
    {
        let ghost old_cs = self.old_classes();
        let ghost new_cs = self.new_classes();
        let string = self.rare_shared_count(AnchorKind::Str, &old_class.strings, &new_class.strings);
        let method_ref = self.rare_shared_count(
            AnchorKind::MethodRef,
            &old_class.method_ref_shapes,
            &new_class.method_ref_shapes,
        );
        let field_ref = self.rare_shared_count(AnchorKind::FieldRef, &old_class.field_ref_shapes, &new_class.field_ref_shapes);
        let method_proto = self.rare_shared_count(
            AnchorKind::MethodProto,
            &old_class.method_proto_shapes,
            &new_class.method_proto_shapes,
        );
        let field_type = self.rare_shared_count(
            AnchorKind::FieldType,
            &old_class.field_type_shapes,
            &new_class.field_type_shapes,
        );
        proof {
            lemma_rare_shared_bound(old_cs, new_cs, AnchorKind::Str, strs(old_class.strings@), strs(new_class.strings@));
            lemma_rare_shared_bound(
                old_cs,
                new_cs,
                AnchorKind::MethodRef,
                strs(old_class.method_ref_shapes@),
                strs(new_class.method_ref_shapes@),
            );
            lemma_rare_shared_bound(
                old_cs,
                new_cs,
                AnchorKind::FieldRef,
                strs(old_class.field_ref_shapes@),
                strs(new_class.field_ref_shapes@),
            );
            lemma_rare_shared_bound(
                old_cs,
                new_cs,
                AnchorKind::MethodProto,
                strs(old_class.method_proto_shapes@),
                strs(new_class.method_proto_shapes@),
            );
            lemma_rare_shared_bound(
                old_cs,
                new_cs,
                AnchorKind::FieldType,
                strs(old_class.field_type_shapes@),
                strs(new_class.field_type_shapes@),
            );
        }
        let total = string + method_ref + field_ref + method_proto + field_type;
        let mut kind_count: usize = 0;
        if string > 0 {
            kind_count = kind_count + 1;
        }
        if method_ref > 0 {
            kind_count = kind_count + 1;
        }
        if field_ref > 0 {
            kind_count = kind_count + 1;
        }
        if method_proto > 0 {
            kind_count = kind_count + 1;
        }
        if field_type > 0 {
            kind_count = kind_count + 1;
        }
        RareAnchorEvidence { string, method_ref, field_ref, method_proto, field_type, total, kind_count }
    }
}

} // verus!
