//! The exact patterns between two class fingerprints that verify a match without any score:
//! the same fingerprint, the same descriptor with the same API, the same behavior under a new
//! name; and the facts they rest on.

use std::collections::BTreeMap;

use vstd::prelude::*;

use crate::chars::{opt_str, strs};
use crate::fingerprint::ClassFingerprint;

verus! {

broadcast use vstd::std_specs::btree::group_btree_axioms, vstd::laws_cmp::group_laws_cmp;

/// The access flag of an interface.
pub const ACC_INTERFACE: u32 = 0x0200;

/// Whether two lists of strings hold the same strings in the same order.
pub fn same_strings(a: &Vec<String>, b: &Vec<String>) -> (r: bool)
    ensures
        r == (strs(a@) == strs(b@)),
{
    if a.len() != b.len() {
        assert(strs(a@).len() != strs(b@).len());
        return false;
    }
    let mut i: usize = 0;
    while i < a.len()
        invariant
            i <= a.len(),
            a@.len() == b@.len(),
            forall|k: int| 0 <= k < i ==> a@[k]@ == b@[k]@,
        decreases a.len() - i,
    {
        if a[i] != b[i] {
            assert(strs(a@)[i as int] != strs(b@)[i as int]);
            return false;
        }
        i = i + 1;
    }
    assert(strs(a@) =~= strs(b@));
    true
}

/// Whether two optional strings are both absent or both the same string.
pub fn same_opt_string(a: &Option<String>, b: &Option<String>) -> (r: bool)
    ensures
        r == (opt_str(*a) == opt_str(*b)),
{
    match (a, b) {
        (Some(x), Some(y)) => *x == *y,
        (None, None) => true,
        _ => false,
    }
}

/// Whether two opcode histograms count the same opcodes the same.
pub fn same_histogram(a: &BTreeMap<u8, u32>, b: &BTreeMap<u8, u32>) -> (r: bool)
    ensures
        r == (a@ == b@),
{
    let mut k: u32 = 0;
    while k < 256
        invariant
            k <= 256,
            forall|j: u8|
                (j as u32) < k ==> (#[trigger] a@.contains_key(j) == b@.contains_key(j) && (a@.contains_key(j)
                    ==> a@[j] == b@[j])),
        decreases 256 - k,
    {
        let key = k as u8;
        let x = a.get(&key);
        let y = b.get(&key);
        let same = match (x, y) {
            (Some(p), Some(q)) => *p == *q,
            (None, None) => true,
            _ => false,
        };
        if !same {
            return false;
        }
        proof {
            assert forall|j: u8| (j as u32) < k + 1 implies (#[trigger] a@.contains_key(j) == b@.contains_key(j)
                && (a@.contains_key(j) ==> a@[j] == b@[j])) by {
                if j as u32 == k {
                    assert(j == key);
                }
            }
        }
        k = k + 1;
    }
    proof {
        assert forall|j: u8| #[trigger] a@.contains_key(j) == b@.contains_key(j) by {
            assert((j as u32) < 256);
        }
        assert forall|j: u8| a@.contains_key(j) implies #[trigger] a@[j] == b@[j] by {
            assert((j as u32) < 256);
        }
        assert(a@ =~= b@);
    }
    true
}

/// Whether `c` is an interface.
pub open spec fn is_interface(flags: u32) -> bool {
    flags & ACC_INTERFACE != 0
}

/// Whether one of two classes is an interface and the other is not.
pub fn class_kind_changed(old: &ClassFingerprint, new: &ClassFingerprint) -> (r: bool)
    ensures
        r == (is_interface(old.access_flags) != is_interface(new.access_flags)),
{
    (old.access_flags & ACC_INTERFACE != 0) != (new.access_flags & ACC_INTERFACE != 0)
}

/// Whether a class says enough to be matched on its shape alone: two members, three member
/// shapes, twenty instructions, or two references from its code.
pub open spec fn substantial_signal(c: ClassFingerprint) -> bool {
    ||| c.method_shapes@.len() + c.field_shapes@.len() >= 2
    ||| c.method_proto_shapes@.len() + c.field_type_shapes@.len() >= 3
    ||| c.instruction_count >= 20
    ||| c.strings@.len() + c.method_ref_shapes@.len() + c.field_ref_shapes@.len() >= 2
}

/// Whether `class` says enough to be matched on its shape alone.
pub fn has_substantial_class_signal(class: &ClassFingerprint) -> (r: bool)
    ensures
        r == substantial_signal(*class),
{
    let members = class.method_shapes.len() as u128 + class.field_shapes.len() as u128;
    let shapes = class.method_proto_shapes.len() as u128 + class.field_type_shapes.len() as u128;
    let refs = class.strings.len() as u128 + class.method_ref_shapes.len() as u128 + class.field_ref_shapes.len() as u128;
    members >= 2 || shapes >= 3 || class.instruction_count >= 20 || refs >= 2
}

/// Whether two classes have the same fingerprint in every part.
pub open spec fn same_fingerprint(old: ClassFingerprint, new: ClassFingerprint) -> bool {
    &&& old.descriptor@ == new.descriptor@
    &&& old.package_shape@ == new.package_shape@
    &&& opt_str(old.superclass) == opt_str(new.superclass)
    &&& strs(old.interfaces@) == strs(new.interfaces@)
    &&& old.access_flags == new.access_flags
    &&& strs(old.method_shapes@) == strs(new.method_shapes@)
    &&& strs(old.method_proto_shapes@) == strs(new.method_proto_shapes@)
    &&& strs(old.field_shapes@) == strs(new.field_shapes@)
    &&& strs(old.field_type_shapes@) == strs(new.field_type_shapes@)
    &&& strs(old.strings@) == strs(new.strings@)
    &&& strs(old.method_ref_shapes@) == strs(new.method_ref_shapes@)
    &&& strs(old.field_ref_shapes@) == strs(new.field_ref_shapes@)
    &&& strs(old.class_ref_shapes@) == strs(new.class_ref_shapes@)
    &&& old.instruction_count == new.instruction_count
    &&& old.opcode_histogram@ == new.opcode_histogram@
}

/// Whether two classes have the same fingerprint in every part.
pub fn exact_class_fingerprint_match(old: &ClassFingerprint, new: &ClassFingerprint) -> (r: bool)
    ensures
        r == same_fingerprint(*old, *new),
{
    old.descriptor == new.descriptor && old.package_shape == new.package_shape && same_opt_string(
        &old.superclass,
        &new.superclass,
    ) && same_strings(&old.interfaces, &new.interfaces) && old.access_flags == new.access_flags && same_strings(
        &old.method_shapes,
        &new.method_shapes,
    ) && same_strings(&old.method_proto_shapes, &new.method_proto_shapes) && same_strings(
        &old.field_shapes,
        &new.field_shapes,
    ) && same_strings(&old.field_type_shapes, &new.field_type_shapes) && same_strings(&old.strings, &new.strings)
        && same_strings(&old.method_ref_shapes, &new.method_ref_shapes) && same_strings(
        &old.field_ref_shapes,
        &new.field_ref_shapes,
    ) && same_strings(&old.class_ref_shapes, &new.class_ref_shapes) && old.instruction_count
        == new.instruction_count && same_histogram(&old.opcode_histogram, &new.opcode_histogram)
}

/// Whether two classes keep their descriptor and their whole API: superclass, interfaces,
/// access flags and member shapes; and the old one says enough to be matched on its shape.
pub open spec fn same_descriptor_and_api(old: ClassFingerprint, new: ClassFingerprint) -> bool {
    &&& old.descriptor@ == new.descriptor@
    &&& opt_str(old.superclass) == opt_str(new.superclass)
    &&& strs(old.interfaces@) == strs(new.interfaces@)
    &&& old.access_flags == new.access_flags
    &&& strs(old.method_shapes@) == strs(new.method_shapes@)
    &&& strs(old.field_shapes@) == strs(new.field_shapes@)
    &&& strs(old.method_proto_shapes@) == strs(new.method_proto_shapes@)
    &&& strs(old.field_type_shapes@) == strs(new.field_type_shapes@)
    &&& substantial_signal(old)
}

/// Whether two classes keep their descriptor and their whole API.
pub fn exact_descriptor_stable_api_match(old: &ClassFingerprint, new: &ClassFingerprint) -> (r: bool)
    ensures
        r == same_descriptor_and_api(*old, *new),
{
    old.descriptor == new.descriptor && same_opt_string(&old.superclass, &new.superclass) && same_strings(
        &old.interfaces,
        &new.interfaces,
    ) && old.access_flags == new.access_flags && same_strings(&old.method_shapes, &new.method_shapes)
        && same_strings(&old.field_shapes, &new.field_shapes) && same_strings(
        &old.method_proto_shapes,
        &new.method_proto_shapes,
    ) && same_strings(&old.field_type_shapes, &new.field_type_shapes) && has_substantial_class_signal(old)
}

/// Whether two classes of different descriptors behave the same: the same access flags,
/// member shapes, code references, instruction count and opcode counts; and the old one says
/// enough to be matched on its shape.
pub open spec fn same_behavior_renamed(old: ClassFingerprint, new: ClassFingerprint) -> bool {
    &&& old.descriptor@ != new.descriptor@
    &&& old.access_flags == new.access_flags
    &&& strs(old.method_shapes@) == strs(new.method_shapes@)
    &&& strs(old.method_proto_shapes@) == strs(new.method_proto_shapes@)
    &&& strs(old.field_shapes@) == strs(new.field_shapes@)
    &&& strs(old.field_type_shapes@) == strs(new.field_type_shapes@)
    &&& strs(old.strings@) == strs(new.strings@)
    &&& strs(old.method_ref_shapes@) == strs(new.method_ref_shapes@)
    &&& strs(old.field_ref_shapes@) == strs(new.field_ref_shapes@)
    &&& old.instruction_count == new.instruction_count
    &&& old.opcode_histogram@ == new.opcode_histogram@
    &&& substantial_signal(old)
}

/// Two lists of strings hold the same texts, position by position.
pub open spec fn same_texts(a: Seq<String>, b: Seq<String>) -> bool {
    a.len() == b.len() && forall|i: int| 0 <= i < a.len() ==> (#[trigger] a[i])@ == b[i]@
}

proof fn lemma_strs_equal(a: Seq<String>, b: Seq<String>)
    ensures
        (strs(a) == strs(b)) <==> same_texts(a, b),
{
    if same_texts(a, b) {
        assert(strs(a) =~= strs(b));
    }
    assert(strs(a).len() == a.len() && strs(b).len() == b.len());
    if strs(a) == strs(b) {
        assert forall|i: int| 0 <= i < a.len() implies (#[trigger] a[i])@ == b[i]@ by {
            assert(strs(a)[i] == a[i]@ && strs(b)[i] == b[i]@);
        }
    }
}

/// Two optional strings are both absent or hold the same text.
pub open spec fn same_opt_text(a: Option<String>, b: Option<String>) -> bool {
    (a is None <==> b is None) && (a is Some ==> a->0@ == b->0@)
}

/// Two classes match exactly when they agree on every part of their fingerprints: descriptor,
/// package shape, superclass, interfaces, access flags, member shapes, strings, reference shapes,
/// instruction count and opcode histogram. In particular every class matches itself, and the
/// match is symmetric.
pub proof fn lemma_exact_fingerprint_match(old: ClassFingerprint, new: ClassFingerprint)
    ensures
        same_fingerprint(old, new) <==> (old.descriptor@ == new.descriptor@ && old.package_shape@
            == new.package_shape@ && same_opt_text(old.superclass, new.superclass) && same_texts(old.interfaces@,
            new.interfaces@) && old.access_flags == new.access_flags && same_texts(old.method_shapes@,
            new.method_shapes@) && same_texts(old.method_proto_shapes@, new.method_proto_shapes@) && same_texts(
            old.field_shapes@,
            new.field_shapes@,
        ) && same_texts(old.field_type_shapes@, new.field_type_shapes@) && same_texts(old.strings@, new.strings@)
            && same_texts(old.method_ref_shapes@, new.method_ref_shapes@) && same_texts(old.field_ref_shapes@,
            new.field_ref_shapes@) && same_texts(old.class_ref_shapes@, new.class_ref_shapes@)
            && old.instruction_count == new.instruction_count && old.opcode_histogram@ == new.opcode_histogram@),
        same_fingerprint(old, old),
        same_fingerprint(old, new) == same_fingerprint(new, old),
{
    lemma_strs_equal(old.interfaces@, new.interfaces@);
    lemma_strs_equal(old.method_shapes@, new.method_shapes@);
    lemma_strs_equal(old.method_proto_shapes@, new.method_proto_shapes@);
    lemma_strs_equal(old.field_shapes@, new.field_shapes@);
    lemma_strs_equal(old.field_type_shapes@, new.field_type_shapes@);
    lemma_strs_equal(old.strings@, new.strings@);
    lemma_strs_equal(old.method_ref_shapes@, new.method_ref_shapes@);
    lemma_strs_equal(old.field_ref_shapes@, new.field_ref_shapes@);
    lemma_strs_equal(old.class_ref_shapes@, new.class_ref_shapes@);
}

/// A class keeps its descriptor and whole API exactly when the descriptor, superclass,
/// interfaces, access flags, method and field shapes, prototypes and field types are the same,
/// and the old class carries enough signal; code and strings may change.
pub proof fn lemma_stable_api_match(old: ClassFingerprint, new: ClassFingerprint)
    ensures
        same_descriptor_and_api(old, new) <==> (old.descriptor@ == new.descriptor@ && same_opt_text(
            old.superclass,
            new.superclass,
        ) && same_texts(old.interfaces@, new.interfaces@) && old.access_flags == new.access_flags && same_texts(
            old.method_shapes@,
            new.method_shapes@,
        ) && same_texts(old.field_shapes@, new.field_shapes@) && same_texts(old.method_proto_shapes@,
            new.method_proto_shapes@) && same_texts(old.field_type_shapes@, new.field_type_shapes@)
            && substantial_signal(old)),
{
    lemma_strs_equal(old.interfaces@, new.interfaces@);
    lemma_strs_equal(old.method_shapes@, new.method_shapes@);
    lemma_strs_equal(old.method_proto_shapes@, new.method_proto_shapes@);
    lemma_strs_equal(old.field_shapes@, new.field_shapes@);
    lemma_strs_equal(old.field_type_shapes@, new.field_type_shapes@);
}

/// Two classes of different descriptors count as the same class renamed, with exactly the same
/// behaviour, exactly when they agree on every part of their behaviour: access flags, the
/// shapes of their methods, prototypes, fields and field types, their string constants, the
/// shapes of the methods and fields they reference, their instruction count and opcode
/// histogram; and the old class carries enough signal to tell it apart.
pub proof fn lemma_renamed_exact_behavior(old: ClassFingerprint, new: ClassFingerprint)
    ensures
        same_behavior_renamed(old, new) <==> (old.descriptor@ != new.descriptor@ && old.access_flags
            == new.access_flags && same_texts(old.method_shapes@, new.method_shapes@) && same_texts(
            old.method_proto_shapes@,
            new.method_proto_shapes@,
        ) && same_texts(old.field_shapes@, new.field_shapes@) && same_texts(old.field_type_shapes@,
            new.field_type_shapes@) && same_texts(old.strings@, new.strings@) && same_texts(old.method_ref_shapes@,
            new.method_ref_shapes@) && same_texts(old.field_ref_shapes@, new.field_ref_shapes@)
            && old.instruction_count == new.instruction_count && old.opcode_histogram@ == new.opcode_histogram@
            && substantial_signal(old)),
{
    lemma_strs_equal(old.method_shapes@, new.method_shapes@);
    lemma_strs_equal(old.method_proto_shapes@, new.method_proto_shapes@);
    lemma_strs_equal(old.field_shapes@, new.field_shapes@);
    lemma_strs_equal(old.field_type_shapes@, new.field_type_shapes@);
    lemma_strs_equal(old.strings@, new.strings@);
    lemma_strs_equal(old.method_ref_shapes@, new.method_ref_shapes@);
    lemma_strs_equal(old.field_ref_shapes@, new.field_ref_shapes@);
}

/// Whether two classes of different descriptors behave the same.
pub fn renamed_exact_behavior_match(old: &ClassFingerprint, new: &ClassFingerprint) -> (r: bool)
    ensures
        r == same_behavior_renamed(*old, *new),
{
    old.descriptor != new.descriptor && old.access_flags == new.access_flags && same_strings(
        &old.method_shapes,
        &new.method_shapes,
    ) && same_strings(&old.method_proto_shapes, &new.method_proto_shapes) && same_strings(
        &old.field_shapes,
        &new.field_shapes,
    ) && same_strings(&old.field_type_shapes, &new.field_type_shapes) && same_strings(&old.strings, &new.strings)
        && same_strings(&old.method_ref_shapes, &new.method_ref_shapes) && same_strings(
        &old.field_ref_shapes,
        &new.field_ref_shapes,
    ) && old.instruction_count == new.instruction_count && same_histogram(&old.opcode_histogram, &new.opcode_histogram)
        && has_substantial_class_signal(old)
}

} // verus!
