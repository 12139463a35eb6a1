//! Class fingerprints: the shape of each class (its members, the strings and references its
//! code uses, its opcode counts) that classes of two app versions are compared by.

use std::collections::BTreeMap;

use vstd::prelude::*;

use crate::chars::{copy_opt_string, copy_string, join, join_strings, opt_str, push_str, str_chars, string_from_chars,
    strs};
use crate::dex::descriptor::{package_shape, package_shape_of};
use crate::model::{AppModel, ClassModel, ClassModelView, FieldModel, FieldModelView, MethodModel, MethodModelView};
use crate::order::compare_strings;
use crate::remap::{copy_range, find_text, find_text_from, lemma_find_text};
use crate::sorting::{lemma_sorted_set, sorted_set, sorted_unique_strings, stable_sort_of};

verus! {

broadcast use vstd::std_specs::btree::group_btree_axioms, vstd::laws_cmp::group_laws_cmp;

/// The string references of each method body that count, at most this many per body.
pub const MAX_STRING_REFS: usize = 128;

/// The method and field references of each method body that count, at most this many each.
pub const MAX_MEMBER_REFS: usize = 256;

/// The fingerprint of one class. Each list of shapes is sorted and holds each shape once.
#[derive(Debug, Clone, PartialEq, Eq)]
pub struct ClassFingerprint {
    pub class_id: usize,
    pub descriptor: String,
    pub package_shape: String,
    pub superclass: Option<String>,
    pub interfaces: Vec<String>,
    pub access_flags: u32,
    pub method_shapes: Vec<String>,
    pub method_proto_shapes: Vec<String>,
    pub field_shapes: Vec<String>,
    pub field_type_shapes: Vec<String>,
    pub strings: Vec<String>,
    pub method_ref_shapes: Vec<String>,
    pub field_ref_shapes: Vec<String>,
    pub class_ref_shapes: Vec<String>,
    pub instruction_count: u32,
    pub opcode_histogram: BTreeMap<u8, u32>,
}

/// The fingerprints of all classes of an app, in descriptor order.
#[derive(Debug, Clone, PartialEq, Eq)]
pub struct AppFingerprint {
    pub classes: Vec<ClassFingerprint>,
}

// ----- what a fingerprint holds -----

/// `name(P1,P2)->R`.
pub open spec fn member_shape(m: MethodModelView) -> Seq<char> {
    m.name + "("@ + join(m.parameters, ","@) + ")->"@ + m.return_type
}

/// `(P1,P2)->R`.
pub open spec fn proto_shape(m: MethodModelView) -> Seq<char> {
    "("@ + join(m.parameters, ","@) + ")->"@ + m.return_type
}

/// `name:T`.
pub open spec fn field_member_shape(f: FieldModelView) -> Seq<char> {
    f.name + ":"@ + f.field_type
}

/// The first `n` of `s`, or all of it.
pub open spec fn first_n(s: Seq<Seq<char>>, n: nat) -> Seq<Seq<char>> {
    if s.len() <= n {
        s
    } else {
        s.take(n as int)
    }
}

/// The owner in a reference shape `owner->rest`: what stands before the first `->`.
pub open spec fn ref_owner(v: Seq<char>) -> Option<Seq<char>> {
    match find_text(v, "->"@, 0) {
        Some(k) => Some(v.take(k)),
        None => None,
    }
}

/// The owners of the references `refs` that name one.
pub open spec fn ref_owners(refs: Seq<Seq<char>>) -> Seq<Seq<char>>
    decreases refs.len(),
{
    if refs.len() == 0 {
        Seq::empty()
    } else {
        let rest = ref_owners(refs.drop_last());
        match ref_owner(refs.last()) {
            Some(o) => rest.push(o),
            None => rest,
        }
    }
}

/// The string references of the method bodies of `ms` that count.
pub open spec fn code_strings(ms: Seq<MethodModelView>) -> Seq<Seq<char>>
    decreases ms.len(),
{
    if ms.len() == 0 {
        Seq::empty()
    } else {
        code_strings(ms.drop_last()) + match ms.last().code {
            Some(c) => first_n(c.string_refs, MAX_STRING_REFS as nat),
            None => Seq::empty(),
        }
    }
}

/// The method references of the method bodies of `ms` that count.
pub open spec fn code_method_refs(ms: Seq<MethodModelView>) -> Seq<Seq<char>>
    decreases ms.len(),
{
    if ms.len() == 0 {
        Seq::empty()
    } else {
        code_method_refs(ms.drop_last()) + match ms.last().code {
            Some(c) => first_n(c.method_refs, MAX_MEMBER_REFS as nat),
            None => Seq::empty(),
        }
    }
}

/// The field references of the method bodies of `ms` that count.
pub open spec fn code_field_refs(ms: Seq<MethodModelView>) -> Seq<Seq<char>>
    decreases ms.len(),
{
    if ms.len() == 0 {
        Seq::empty()
    } else {
        code_field_refs(ms.drop_last()) + match ms.last().code {
            Some(c) => first_n(c.field_refs, MAX_MEMBER_REFS as nat),
            None => Seq::empty(),
        }
    }
}

/// The owners of the member references of the method bodies of `ms`.
pub open spec fn code_ref_owners(ms: Seq<MethodModelView>) -> Seq<Seq<char>>
    decreases ms.len(),
{
    if ms.len() == 0 {
        Seq::empty()
    } else {
        code_ref_owners(ms.drop_last()) + match ms.last().code {
            Some(c) => ref_owners(first_n(c.method_refs, MAX_MEMBER_REFS as nat)) + ref_owners(
                first_n(c.field_refs, MAX_MEMBER_REFS as nat),
            ),
            None => Seq::empty(),
        }
    }
}

/// The classes a class refers to: its superclass, its interfaces, and the owners of the
/// members its code refers to.
pub open spec fn class_refs(c: ClassModelView) -> Seq<Seq<char>> {
    let head: Seq<Seq<char>> = match c.superclass {
        Some(s) => seq![s],
        None => Seq::empty(),
    };
    head + c.interfaces + code_ref_owners(c.methods)
}

/// `n` reduced to a `u32` the way wrapping addition reduces it.
pub open spec fn wrap32(n: nat) -> u32 {
    (n % 0x1_0000_0000) as u32
}

/// The instructions of the method bodies of `ms`.
pub open spec fn instruction_total(ms: Seq<MethodModelView>) -> nat
    decreases ms.len(),
{
    if ms.len() == 0 {
        0
    } else {
        instruction_total(ms.drop_last()) + match ms.last().code {
            Some(c) => c.instruction_count as nat,
            None => 0nat,
        }
    }
}

/// Whether some method body of `ms` uses opcode `o`.
pub open spec fn opcode_seen(ms: Seq<MethodModelView>, o: u8) -> bool
    decreases ms.len(),
{
    if ms.len() == 0 {
        false
    } else {
        opcode_seen(ms.drop_last(), o) || match ms.last().code {
            Some(c) => c.opcode_histogram.contains_key(o),
            None => false,
        }
    }
}

/// How often the method bodies of `ms` use opcode `o`.
pub open spec fn opcode_total(ms: Seq<MethodModelView>, o: u8) -> nat
    decreases ms.len(),
{
    if ms.len() == 0 {
        0
    } else {
        opcode_total(ms.drop_last(), o) + match ms.last().code {
            Some(c) => if c.opcode_histogram.contains_key(o) { c.opcode_histogram[o] as nat } else { 0nat },
            None => 0nat,
        }
    }
}

/// `fp` is the fingerprint of class `c`.
pub open spec fn fingerprint_of(c: ClassModel, fp: ClassFingerprint) -> bool {
    let v = c@;
    &&& fp.class_id == v.id
    &&& fp.descriptor@ == v.descriptor
    &&& fp.package_shape@ == package_shape_of(v.descriptor)
    &&& opt_str(fp.superclass) == v.superclass
    &&& strs(fp.interfaces@) == sorted_set(v.interfaces)
    &&& fp.access_flags == v.access_flags
    &&& strs(fp.method_shapes@) == sorted_set(v.methods.map_values(|m: MethodModelView| member_shape(m)))
    &&& strs(fp.method_proto_shapes@) == sorted_set(v.methods.map_values(|m: MethodModelView| proto_shape(m)))
    &&& strs(fp.field_shapes@) == sorted_set(v.fields.map_values(|f: FieldModelView| field_member_shape(f)))
    &&& strs(fp.field_type_shapes@) == sorted_set(v.fields.map_values(|f: FieldModelView| f.field_type))
    &&& strs(fp.strings@) == sorted_set(code_strings(v.methods))
    &&& strs(fp.method_ref_shapes@) == sorted_set(code_method_refs(v.methods))
    &&& strs(fp.field_ref_shapes@) == sorted_set(code_field_refs(v.methods))
    &&& strs(fp.class_ref_shapes@) == sorted_set(class_refs(v))
    &&& fp.instruction_count == wrap32(instruction_total(v.methods))
    &&& forall|o: u8| #[trigger]
        fp.opcode_histogram@.contains_key(o) == opcode_seen(v.methods, o)
    &&& forall|o: u8| #[trigger]
        fp.opcode_histogram@.contains_key(o) ==> fp.opcode_histogram@[o] == wrap32(opcode_total(v.methods, o))
}

// ----- computing a fingerprint -----

pub proof fn lemma_wrap32_add(t: nat, l: u32)
    ensures
        wrap32(t).wrapping_add(l) == wrap32((t + l) as nat),
{
    let m: nat = 0x1_0000_0000;
    vstd::arithmetic::div_mod::lemma_add_mod_noop(t as int, l as int, m as int);
    vstd::arithmetic::div_mod::lemma_small_mod(l as nat, m);
    let a = t % m;
    assert(a < m) by {
        vstd::arithmetic::div_mod::lemma_mod_bound(t as int, m as int);
    }
    if a + l >= m {
        vstd::arithmetic::div_mod::lemma_mod_sub_multiples_vanish((a + l) as int, m as int);
        vstd::arithmetic::div_mod::lemma_small_mod((a + l - m) as nat, m);
    } else {
        vstd::arithmetic::div_mod::lemma_small_mod((a + l) as nat, m);
    }
}

pub proof fn lemma_unseen_total(ms: Seq<MethodModelView>, o: u8)
    ensures
        !opcode_seen(ms, o) ==> opcode_total(ms, o) == 0,
    decreases ms.len(),
{
    if ms.len() > 0 {
        lemma_unseen_total(ms.drop_last(), o);
    }
}

pub proof fn lemma_opcode_step(prev: Seq<MethodModelView>, next: Seq<MethodModelView>, o: u8)
    requires
        next.len() > 0,
        next.drop_last() == prev,
    ensures
        opcode_seen(next, o) == (opcode_seen(prev, o) || match next.last().code {
            Some(c) => c.opcode_histogram.contains_key(o),
            None => false,
        }),
        opcode_total(next, o) == opcode_total(prev, o) + match next.last().code {
            Some(c) => if c.opcode_histogram.contains_key(o) { c.opcode_histogram[o] as nat } else { 0nat },
            None => 0nat,
        },
{
}

/// The set of strings of `list` as a sorted list.
fn sorted_set_of(list: Vec<String>) -> (r: Vec<String>)
    ensures
        strs(r@) == sorted_set(strs(list@)),
{
    let ghost s = strs(list@);
    let r = sorted_unique_strings(list);
    proof {
        lemma_sorted_set(strs(r@), s);
    }
    r
}

fn member_shape_text(m: &MethodModel) -> (r: String)
    ensures
        r@ == member_shape(m@),
{
    let mut s = String::new();
    push_str(&mut s, m.name.as_str());
    push_str(&mut s, "(");
    let params = join_strings(m.parameters.as_slice(), ",");
    assert(m.parameters@.map_values(|p: String| p@) =~= strs(m.parameters@));
    push_str(&mut s, params.as_str());
    push_str(&mut s, ")->");
    push_str(&mut s, m.return_type.as_str());
    s
}

pub(crate) fn proto_shape_text(m: &MethodModel) -> (r: String)
    ensures
        r@ == proto_shape(m@),
{
    let mut s = String::new();
    push_str(&mut s, "(");
    let params = join_strings(m.parameters.as_slice(), ",");
    assert(m.parameters@.map_values(|p: String| p@) =~= strs(m.parameters@));
    push_str(&mut s, params.as_str());
    push_str(&mut s, ")->");
    push_str(&mut s, m.return_type.as_str());
    s
}

fn field_shape_text(f: &FieldModel) -> (r: String)
    ensures
        r@ == field_member_shape(f@),
{
    let mut s = String::new();
    push_str(&mut s, f.name.as_str());
    push_str(&mut s, ":");
    push_str(&mut s, f.field_type.as_str());
    s
}

/// The member shapes of a class's methods and fields: name shapes, prototype shapes, field
/// shapes and field types.
fn member_lists(c: &ClassModel) -> (r: (Vec<String>, Vec<String>, Vec<String>, Vec<String>))
    ensures
        strs(r.0@) == c@.methods.map_values(|m: MethodModelView| member_shape(m)),
        strs(r.1@) == c@.methods.map_values(|m: MethodModelView| proto_shape(m)),
        strs(r.2@) == c@.fields.map_values(|f: FieldModelView| field_member_shape(f)),
        strs(r.3@) == c@.fields.map_values(|f: FieldModelView| f.field_type),
{
    let ghost ms = c@.methods;
    let ghost fs = c@.fields;
    let mut names: Vec<String> = Vec::new();
    let mut protos: Vec<String> = Vec::new();
    let mut i: usize = 0;
    while i < c.methods.len()
        invariant
            i <= c.methods.len(),
            ms == c@.methods,
            ms.len() == c.methods@.len(),
            forall|k: int| 0 <= k < ms.len() ==> #[trigger] ms[k] == c.methods@[k]@,
            strs(names@) == ms.take(i as int).map_values(|m: MethodModelView| member_shape(m)),
            strs(protos@) == ms.take(i as int).map_values(|m: MethodModelView| proto_shape(m)),
        decreases c.methods.len() - i,
    {
        let ghost n0 = strs(names@);
        let ghost p0 = strs(protos@);
        let shape = member_shape_text(&c.methods[i]);
        let proto = proto_shape_text(&c.methods[i]);
        assert(ms[i as int] == c.methods@[i as int]@);
        names.push(shape);
        protos.push(proto);
        assert(strs(names@) =~= n0.push(member_shape(ms[i as int])));
        assert(strs(protos@) =~= p0.push(proto_shape(ms[i as int])));
        assert(ms.take(i + 1).map_values(|m: MethodModelView| member_shape(m)) =~= ms.take(i as int).map_values(
            |m: MethodModelView| member_shape(m),
        ).push(member_shape(ms[i as int])));
        assert(ms.take(i + 1).map_values(|m: MethodModelView| proto_shape(m)) =~= ms.take(i as int).map_values(
            |m: MethodModelView| proto_shape(m),
        ).push(proto_shape(ms[i as int])));
        assert(strs(names@) =~= ms.take(i + 1).map_values(|m: MethodModelView| member_shape(m)));
        assert(strs(protos@) =~= ms.take(i + 1).map_values(|m: MethodModelView| proto_shape(m)));
        i = i + 1;
    }
    assert(ms.take(ms.len() as int) =~= ms);
    let mut fields: Vec<String> = Vec::new();
    let mut types: Vec<String> = Vec::new();
    let mut j: usize = 0;
    while j < c.fields.len()
        invariant
            j <= c.fields.len(),
            fs == c@.fields,
            fs.len() == c.fields@.len(),
            forall|k: int| 0 <= k < fs.len() ==> #[trigger] fs[k] == c.fields@[k]@,
            strs(fields@) == fs.take(j as int).map_values(|f: FieldModelView| field_member_shape(f)),
            strs(types@) == fs.take(j as int).map_values(|f: FieldModelView| f.field_type),
        decreases c.fields.len() - j,
    {
        let ghost f0 = strs(fields@);
        let ghost t0 = strs(types@);
        let shape = field_shape_text(&c.fields[j]);
        let kind = copy_string(&c.fields[j].field_type);
        assert(fs[j as int] == c.fields@[j as int]@);
        fields.push(shape);
        types.push(kind);
        assert(strs(fields@) =~= f0.push(field_member_shape(fs[j as int])));
        assert(strs(types@) =~= t0.push(fs[j as int].field_type));
        assert(fs.take(j + 1).map_values(|f: FieldModelView| field_member_shape(f)) =~= fs.take(j as int).map_values(
            |f: FieldModelView| field_member_shape(f),
        ).push(field_member_shape(fs[j as int])));
        assert(fs.take(j + 1).map_values(|f: FieldModelView| f.field_type) =~= fs.take(j as int).map_values(
            |f: FieldModelView| f.field_type,
        ).push(fs[j as int].field_type));
        assert(strs(fields@) =~= fs.take(j + 1).map_values(|f: FieldModelView| field_member_shape(f)));
        assert(strs(types@) =~= fs.take(j + 1).map_values(|f: FieldModelView| f.field_type));
        j = j + 1;
    }
    assert(fs.take(fs.len() as int) =~= fs);
    (names, protos, fields, types)
}

/// Appends the first `n` of `refs` to `list`.
fn push_first(list: &mut Vec<String>, refs: &Vec<String>, n: usize)
    ensures
        strs(final(list)@) == strs(old(list)@) + first_n(strs(refs@), n as nat),
{
    let end = if refs.len() <= n { refs.len() } else { n };
    let mut j: usize = 0;
    while j < end
        invariant
            j <= end <= refs.len(),
            end == if refs.len() <= n { refs.len() } else { n },
            strs(list@) == strs(old(list)@) + strs(refs@).take(j as int),
        decreases end - j,
    {
        let ghost l0 = strs(list@);
        let item = copy_string(&refs[j]);
        list.push(item);
        assert(strs(list@) =~= l0.push(refs@[j as int]@));
        assert(strs(refs@).take(j + 1) =~= strs(refs@).take(j as int).push(refs@[j as int]@));
        assert(strs(list@) =~= strs(old(list)@) + strs(refs@).take(j + 1));
        j = j + 1;
    }
    assert(strs(refs@).take(refs.len() as int) =~= strs(refs@));
}

fn owner_of(v: &String) -> (r: Option<String>)
    ensures
        opt_str(r) == ref_owner(v@),
{
    let s = str_chars(v.as_str());
    proof {
        reveal_strlit("->");
    }
    let arrow = str_chars("->");
    match find_text_from(s.as_slice(), arrow.as_slice(), 0) {
        Some(k) => {
            proof {
                lemma_find_text(s@, arrow@, 0);
            }
            let o = copy_range(s.as_slice(), 0, k);
            assert(o@ =~= s@.take(k as int));
            Some(string_from_chars(o.as_slice()))
        },
        None => None,
    }
}

/// Appends the owners of the first `n` of `refs` to `list`.
fn push_owners(list: &mut Vec<String>, refs: &Vec<String>, n: usize)
    ensures
        strs(final(list)@) == strs(old(list)@) + ref_owners(first_n(strs(refs@), n as nat)),
{
    let end = if refs.len() <= n { refs.len() } else { n };
    let ghost s = first_n(strs(refs@), n as nat);
    let mut j: usize = 0;
    while j < end
        invariant
            j <= end <= refs.len(),
            end == if refs.len() <= n { refs.len() } else { n },
            s == first_n(strs(refs@), n as nat),
            s.len() == end,
            forall|k: int| 0 <= k < end ==> #[trigger] s[k] == refs@[k]@,
            strs(list@) == strs(old(list)@) + ref_owners(s.take(j as int)),
        decreases end - j,
    {
        let ghost before = strs(list@);
        assert(s.take(j + 1).drop_last() =~= s.take(j as int));
        match owner_of(&refs[j]) {
            Some(o) => {
                list.push(o);
                assert(strs(list@) =~= before.push(ref_owner(s[j as int])->0));
            },
            None => {},
        }
        j = j + 1;
    }
    assert(s.take(end as int) =~= s);
}

/// The lists of things the method bodies of a class use: strings, method references, field
/// references, and the owners of the member references.
fn code_lists(ms: &Vec<MethodModel>) -> (r: (Vec<String>, Vec<String>, Vec<String>, Vec<String>))
    ensures
        strs(r.0@) == code_strings(ms@.map_values(|m: MethodModel| m@)),
        strs(r.1@) == code_method_refs(ms@.map_values(|m: MethodModel| m@)),
        strs(r.2@) == code_field_refs(ms@.map_values(|m: MethodModel| m@)),
        strs(r.3@) == code_ref_owners(ms@.map_values(|m: MethodModel| m@)),
{
    let ghost views = ms@.map_values(|m: MethodModel| m@);
    let mut strings: Vec<String> = Vec::new();
    let mut methods: Vec<String> = Vec::new();
    let mut fields: Vec<String> = Vec::new();
    let mut owners: Vec<String> = Vec::new();
    let mut i: usize = 0;
    while i < ms.len()
        invariant
            i <= ms.len(),
            views == ms@.map_values(|m: MethodModel| m@),
            strs(strings@) == code_strings(views.take(i as int)),
            strs(methods@) == code_method_refs(views.take(i as int)),
            strs(fields@) == code_field_refs(views.take(i as int)),
            strs(owners@) == code_ref_owners(views.take(i as int)),
        decreases ms.len() - i,
    {
        proof {
            assert(views.take(i + 1).drop_last() =~= views.take(i as int));
            assert(views.take(i + 1).last() == ms@[i as int]@);
        }
        match &ms[i].code {
            Some(code) => {
                push_first(&mut strings, &code.string_refs, MAX_STRING_REFS);
                push_first(&mut methods, &code.method_refs, MAX_MEMBER_REFS);
                push_first(&mut fields, &code.field_refs, MAX_MEMBER_REFS);
                let ghost o0 = strs(owners@);
                push_owners(&mut owners, &code.method_refs, MAX_MEMBER_REFS);
                push_owners(&mut owners, &code.field_refs, MAX_MEMBER_REFS);
                assert(strs(owners@) =~= o0 + (ref_owners(first_n(strs(code.method_refs@), MAX_MEMBER_REFS as nat))
                    + ref_owners(first_n(strs(code.field_refs@), MAX_MEMBER_REFS as nat))));
            },
            None => {
                assert(strs(strings@) =~= code_strings(views.take(i as int)) + Seq::<Seq<char>>::empty());
                assert(strs(methods@) =~= code_method_refs(views.take(i as int)) + Seq::<Seq<char>>::empty());
                assert(strs(fields@) =~= code_field_refs(views.take(i as int)) + Seq::<Seq<char>>::empty());
                assert(strs(owners@) =~= code_ref_owners(views.take(i as int)) + Seq::<Seq<char>>::empty());
            },
        }
        i = i + 1;
    }
    assert(views.take(ms.len() as int) =~= views);
    (strings, methods, fields, owners)
}

/// The number of instructions of the method bodies `ms`, wrapping around.
fn instruction_count_of(ms: &Vec<MethodModel>) -> (r: u32)
    ensures
        r == wrap32(instruction_total(ms@.map_values(|m: MethodModel| m@))),
{
    let ghost views = ms@.map_values(|m: MethodModel| m@);
    let mut total: u32 = 0;
    let mut i: usize = 0;
    while i < ms.len()
        invariant
            i <= ms.len(),
            views == ms@.map_values(|m: MethodModel| m@),
            total == wrap32(instruction_total(views.take(i as int))),
        decreases ms.len() - i,
    {
        proof {
            assert(views.take(i + 1).drop_last() =~= views.take(i as int));
            assert(views.take(i + 1).last() == ms@[i as int]@);
        }
        match &ms[i].code {
            Some(code) => {
                proof {
                    lemma_wrap32_add(instruction_total(views.take(i as int)), code.instruction_count);
                }
                total = total.wrapping_add(code.instruction_count);
            },
            None => {},
        }
        i = i + 1;
    }
    assert(views.take(ms.len() as int) =~= views);
    total
}

/// The opcode counts of the method bodies `ms`, added up per opcode, wrapping around.
fn histogram_of(ms: &Vec<MethodModel>) -> (r: BTreeMap<u8, u32>)
    ensures
        forall|o: u8| #[trigger] r@.contains_key(o) == opcode_seen(ms@.map_values(|m: MethodModel| m@), o),
        forall|o: u8| #[trigger]
            r@.contains_key(o) ==> r@[o] == wrap32(opcode_total(ms@.map_values(|m: MethodModel| m@), o)),
{
    let ghost views = ms@.map_values(|m: MethodModel| m@);
    let mut hist: BTreeMap<u8, u32> = BTreeMap::new();
    let mut i: usize = 0;
    while i < ms.len()
        invariant
            i <= ms.len(),
            views == ms@.map_values(|m: MethodModel| m@),
            forall|o: u8| #[trigger] hist@.contains_key(o) == opcode_seen(views.take(i as int), o),
            forall|o: u8| #[trigger]
                hist@.contains_key(o) ==> hist@[o] == wrap32(opcode_total(views.take(i as int), o)),
        decreases ms.len() - i,
    {
        let ghost prev = views.take(i as int);
        let ghost next = views.take(i + 1);
        proof {
            assert(next.drop_last() =~= prev);
            assert(next.last() == ms@[i as int]@);
        }
        match &ms[i].code {
            Some(code) => {
                let mut k: u16 = 0;
                while k < 256
                    invariant
                        k <= 256,
                        ms@[i as int].code == Some(*code),
                        next.len() > 0,
                        next.drop_last() == prev,
                        next.last() == ms@[i as int]@,
                        forall|o: u8| #[trigger]
                            hist@.contains_key(o) == (if (o as int) < (k as int) {
                                opcode_seen(next, o)
                            } else {
                                opcode_seen(prev, o)
                            }),
                        forall|o: u8| #[trigger]
                            hist@.contains_key(o) ==> hist@[o] == (if (o as int) < (k as int) {
                                wrap32(opcode_total(next, o))
                            } else {
                                wrap32(opcode_total(prev, o))
                            }),
                    decreases 256 - k,
                {
                    let op: u8 = k as u8;
                    assert(op as int == k as int);
                    let ghost h0 = hist@;
                    match code.opcode_histogram.get(&op) {
                        Some(count) => {
                            let current: u32 = match hist.get(&op) {
                                Some(v) => *v,
                                None => 0,
                            };
                            proof {
                                lemma_unseen_total(prev, op);
                                lemma_opcode_step(prev, next, op);
                                lemma_wrap32_add(opcode_total(prev, op), *count);
                            }
                            hist.insert(op, current.wrapping_add(*count));
                        },
                        None => {
                            proof {
                                lemma_opcode_step(prev, next, op);
                            }
                        },
                    }
                    proof {
                        assert forall|o: u8| #[trigger]
                            hist@.contains_key(o) == (if (o as int) < (k as int) + 1 {
                                opcode_seen(next, o)
                            } else {
                                opcode_seen(prev, o)
                            }) by {
                            lemma_opcode_step(prev, next, o);
                            if o != op {
                                assert(hist@.contains_key(o) == h0.contains_key(o));
                            }
                        }
                        assert forall|o: u8| #[trigger]
                            hist@.contains_key(o) implies hist@[o] == (if (o as int) < (k as int) + 1 {
                                wrap32(opcode_total(next, o))
                            } else {
                                wrap32(opcode_total(prev, o))
                            }) by {
                            lemma_opcode_step(prev, next, o);
                            if o != op {
                                assert(hist@[o] == h0[o]);
                                assert(h0.contains_key(o));
                            }
                        }
                    }
                    k = k + 1;
                }
            },
            None => {},
        }
        i = i + 1;
    }
    assert(views.take(ms.len() as int) =~= views);
    hist
}

/// The fingerprint of one class.
pub fn fingerprint_class(class: &ClassModel) -> (r: ClassFingerprint)
    ensures
        fingerprint_of(*class, r),
{
    let (names, protos, fields, types) = member_lists(class);
    let (strings, methods, field_refs, owners) = code_lists(&class.methods);
    let ghost views = class.methods@.map_values(|m: MethodModel| m@);
    assert(views =~= class@.methods);
    let mut refs: Vec<String> = Vec::new();
    match &class.superclass {
        Some(s) => refs.push(copy_string(s)),
        None => {},
    }
    let ghost head = strs(refs@);
    let mut i: usize = 0;
    while i < class.interfaces.len()
        invariant
            i <= class.interfaces.len(),
            strs(refs@) == head + strs(class.interfaces@).take(i as int),
        decreases class.interfaces.len() - i,
    {
        let ghost r0 = strs(refs@);
        let item = copy_string(&class.interfaces[i]);
        refs.push(item);
        assert(strs(refs@) =~= r0.push(class.interfaces@[i as int]@));
        assert(strs(class.interfaces@).take(i + 1) =~= strs(class.interfaces@).take(i as int).push(
            class.interfaces@[i as int]@,
        ));
        assert(strs(refs@) =~= head + strs(class.interfaces@).take(i + 1));
        i = i + 1;
    }
    assert(strs(class.interfaces@).take(class.interfaces.len() as int) =~= strs(class.interfaces@));
    let ghost mid = strs(refs@);
    let mut j: usize = 0;
    while j < owners.len()
        invariant
            j <= owners.len(),
            strs(refs@) == mid + strs(owners@).take(j as int),
        decreases owners.len() - j,
    {
        let ghost r0 = strs(refs@);
        let item = copy_string(&owners[j]);
        refs.push(item);
        assert(strs(refs@) =~= r0.push(owners@[j as int]@));
        assert(strs(owners@).take(j + 1) =~= strs(owners@).take(j as int).push(owners@[j as int]@));
        assert(strs(refs@) =~= mid + strs(owners@).take(j + 1));
        j = j + 1;
    }
    assert(strs(owners@).take(owners.len() as int) =~= strs(owners@));
    assert(strs(refs@) =~= class_refs(class@));
    let interfaces = sorted_set_of(crate::chars::copy_strings(&class.interfaces));
    ClassFingerprint {
        class_id: class.id,
        descriptor: copy_string(&class.descriptor),
        package_shape: package_shape(class.descriptor.as_str()),
        superclass: copy_opt_string(&class.superclass),
        interfaces,
        access_flags: class.access_flags,
        method_shapes: sorted_set_of(names),
        method_proto_shapes: sorted_set_of(protos),
        field_shapes: sorted_set_of(fields),
        field_type_shapes: sorted_set_of(types),
        strings: sorted_set_of(strings),
        method_ref_shapes: sorted_set_of(methods),
        field_ref_shapes: sorted_set_of(field_refs),
        class_ref_shapes: sorted_set_of(refs),
        instruction_count: instruction_count_of(&class.methods),
        opcode_histogram: histogram_of(&class.methods),
    }
}

/// The order of fingerprints by descriptor.
pub open spec fn fingerprint_before() -> spec_fn(ClassFingerprint, ClassFingerprint) -> bool {
    |a: ClassFingerprint, b: ClassFingerprint| crate::chars::lex_lt(a.descriptor@, b.descriptor@)
}

/// Calls `slice::sort_by` with a comparator that compares descriptors with the verified
/// `compare_strings`, a total order. The documentation describes a stable sort: the result is a
/// rearrangement of the input in which no fingerprint comes after one whose descriptor is
/// smaller, and fingerprints with equal descriptors keep their relative order.
#[verifier::external_body]
fn sort_fingerprints(v: &mut Vec<ClassFingerprint>)
    ensures
        exists|p: Seq<int>| stable_sort_of(old(v)@, final(v)@, p, fingerprint_before()),
{
    v.sort_by(|a, b| compare_strings(a.descriptor.as_str(), b.descriptor.as_str()));
}

/// Sorts fingerprints made one per class into descriptor order.
pub fn finish_fingerprints(classes: Vec<ClassFingerprint>) -> (r: AppFingerprint)
    ensures
        exists|p: Seq<int>| stable_sort_of(classes@, r.classes@, p, fingerprint_before()),
{
    let mut sorted = classes;
    sort_fingerprints(&mut sorted);
    let ghost p = choose|p: Seq<int>| stable_sort_of(classes@, sorted@, p, fingerprint_before());
    assert(stable_sort_of(classes@, sorted@, p, fingerprint_before()));
    let r = AppFingerprint { classes: sorted };
    assert(r.classes@ == sorted@);
    assert(stable_sort_of(classes@, r.classes@, p, fingerprint_before()));
    r
}

/// The fingerprints of all classes of an app, in descriptor order; classes with the same
/// descriptor keep the app's order.
pub fn fingerprint_app(app: &AppModel) -> (r: AppFingerprint)
    ensures
        exists|fps: Seq<ClassFingerprint>, p: Seq<int>| {
            &&& fps.len() == app.classes@.len()
            &&& forall|i: int| 0 <= i < fps.len() ==> fingerprint_of(app.classes@[i], #[trigger] fps[i])
            &&& stable_sort_of(fps, r.classes@, p, fingerprint_before())
        },
{
    let mut fps: Vec<ClassFingerprint> = Vec::new();
    let mut i: usize = 0;
    while i < app.classes.len()
        invariant
            i <= app.classes.len(),
            fps@.len() == i,
            forall|k: int| 0 <= k < i ==> fingerprint_of(app.classes@[k], #[trigger] fps@[k]),
        decreases app.classes.len() - i,
    {
        fps.push(fingerprint_class(&app.classes[i]));
        i = i + 1;
    }
    let ghost all = fps@;
    let r = finish_fingerprints(fps);
    let ghost p = choose|p: Seq<int>| stable_sort_of(all, r.classes@, p, fingerprint_before());
    assert(stable_sort_of(all, r.classes@, p, fingerprint_before()));
    r
}


/// The fingerprints of an app come in descriptor order.
pub proof fn lemma_fingerprints_sorted(classes: Seq<ClassFingerprint>, sorted: Seq<ClassFingerprint>, p: Seq<int>)
    requires
        stable_sort_of(classes, sorted, p, fingerprint_before()),
    ensures
        forall|i: int, j: int| 0 <= i < j < sorted.len() ==> !crate::chars::lex_lt(sorted[j].descriptor@, sorted[i].descriptor@),
{
    assert forall|i: int, j: int| 0 <= i < j < sorted.len() implies !crate::chars::lex_lt(
        sorted[j].descriptor@,
        sorted[i].descriptor@,
    ) by {
        assert(!(fingerprint_before())(sorted[j], sorted[i]));
    }
}

} // verus!
