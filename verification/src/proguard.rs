//! ProGuard-style class mappings: one `left -> right:` line for each match that pairs two
//! classes, Java names on both sides, with the unsafe ones flagged on the line before.

use std::collections::BTreeMap;

use vstd::prelude::*;

use crate::chars::{has_prefix, push_str, strs};
use crate::dex::descriptor::{descriptor_to_java_name, java_name};
use crate::mapping::{is_safe_link, is_safe_match, pairs_classes, unsafe_reason, unsafe_reason_text, ClassLink, MatchStatus};
use crate::model::ClassModel;

verus! {

broadcast use vstd::std_specs::btree::group_btree_axioms, vstd::laws_cmp::group_laws_cmp;

/// The descriptor of the last class of `cs` with id `id`, if any has it.
pub open spec fn descriptor_by_id(cs: Seq<ClassModel>, id: usize) -> Option<Seq<char>>
    decreases cs.len(),
{
    if cs.len() == 0 {
        None
    } else if cs.last().id == id {
        Some(cs.last().descriptor@)
    } else {
        descriptor_by_id(cs.drop_last(), id)
    }
}

/// The lines of one match in a mapping from the old app's classes `old` to the new app's `new`
/// (or the other way round): none unless it pairs two classes both apps have.
pub open spec fn mapping_entry(old: Seq<ClassModel>, new: Seq<ClassModel>, l: ClassLink, old_to_new: bool) -> Seq<char> {
    match (l.old_class_id, l.new_class_id) {
        (Some(o), Some(n)) => match (descriptor_by_id(old, o), descriptor_by_id(new, n)) {
            (Some(od), Some(nd)) => if pairs_classes(l.status) {
                let left = java_name(if old_to_new { od } else { nd });
                let right = java_name(if old_to_new { nd } else { od });
                (if is_safe_link(l.status, strs(l.reasons@)) {
                    Seq::empty()
                } else {
                    "# UNSAFE: "@ + unsafe_reason_text(l.status, strs(l.reasons@)) + "\n"@
                }) + left + " -> "@ + right + ":\n"@
            } else {
                Seq::empty()
            },
            _ => Seq::empty(),
        },
        _ => Seq::empty(),
    }
}

/// The mapping of the matches `links`, in their order.
pub open spec fn mapping_text(old: Seq<ClassModel>, new: Seq<ClassModel>, links: Seq<ClassLink>, old_to_new: bool) -> Seq<
    char,
>
    decreases links.len(),
{
    if links.len() == 0 {
        Seq::empty()
    } else {
        mapping_text(old, new, links.drop_last(), old_to_new) + mapping_entry(old, new, links.last(), old_to_new)
    }
}

/// The position of the last class of `classes` with each id.
fn positions_by_id(classes: &Vec<ClassModel>) -> (r: BTreeMap<usize, usize>)
    ensures
        forall|id: usize| #[trigger] r@.contains_key(id) == (descriptor_by_id(classes@, id) is Some),
        forall|id: usize|
            #[trigger] r@.contains_key(id) ==> r@[id] < classes@.len() && descriptor_by_id(classes@, id) == Some(
                classes@[r@[id] as int].descriptor@,
            ),
{
    let mut map: BTreeMap<usize, usize> = BTreeMap::new();
    let mut i: usize = 0;
    while i < classes.len()
        invariant
            i <= classes.len(),
            forall|id: usize| #[trigger] map@.contains_key(id) == (descriptor_by_id(classes@.take(i as int), id) is Some),
            forall|id: usize|
                #[trigger] map@.contains_key(id) ==> map@[id] < i && descriptor_by_id(classes@.take(i as int), id) == Some(
                    classes@[map@[id] as int].descriptor@,
                ),
        decreases classes.len() - i,
    {
        proof {
            let t = classes@.take(i + 1);
            assert(t.drop_last() =~= classes@.take(i as int));
            assert(t.last() == classes@[i as int]);
        }
        map.insert(classes[i].id, i);
        i = i + 1;
    }
    assert(classes@.take(classes.len() as int) =~= classes@);
    map
}

/// The ProGuard-style mapping of the matches `links` between the classes `old_classes` of the
/// old app and `new_classes` of the new one, from old to new names or from new to old.
pub fn mapping_file_text(
    old_classes: &Vec<ClassModel>,
    new_classes: &Vec<ClassModel>,
    links: &[ClassLink],
    old_to_new: bool,
) -> (r: String)
    ensures
        r@ == mapping_text(old_classes@, new_classes@, links@, old_to_new),
{
    let old_ids = positions_by_id(old_classes);
    let new_ids = positions_by_id(new_classes);
    let mut s = String::new();
    let mut i: usize = 0;
    while i < links.len()
        invariant
            i <= links.len(),
            s@ == mapping_text(old_classes@, new_classes@, links@.take(i as int), old_to_new),
            forall|id: usize| #[trigger] old_ids@.contains_key(id) == (descriptor_by_id(old_classes@, id) is Some),
            forall|id: usize|
                #[trigger] old_ids@.contains_key(id) ==> old_ids@[id] < old_classes@.len() && descriptor_by_id(
                    old_classes@,
                    id,
                ) == Some(old_classes@[old_ids@[id] as int].descriptor@),
            forall|id: usize| #[trigger] new_ids@.contains_key(id) == (descriptor_by_id(new_classes@, id) is Some),
            forall|id: usize|
                #[trigger] new_ids@.contains_key(id) ==> new_ids@[id] < new_classes@.len() && descriptor_by_id(
                    new_classes@,
                    id,
                ) == Some(new_classes@[new_ids@[id] as int].descriptor@),
        decreases links.len() - i,
    {
        proof {
            assert(links@.take(i + 1).drop_last() =~= links@.take(i as int));
            assert(links@.take(i + 1).last() == links@[i as int]);
        }
        let l = &links[i];
        let ghost before = s@;
        let pairs = l.status == MatchStatus::Matched || l.status == MatchStatus::LowConfidence || l.status
            == MatchStatus::Conflict || l.status == MatchStatus::SemanticBreak;
        match (l.old_class_id, l.new_class_id) {
            (Some(o), Some(n)) => match (old_ids.get(&o), new_ids.get(&n)) {
                (Some(op), Some(np)) => {
                    if pairs {
                        let od = &old_classes[*op].descriptor;
                        let nd = &new_classes[*np].descriptor;
                        let left = descriptor_to_java_name(if old_to_new {
                            od.as_str()
                        } else {
                            nd.as_str()
                        });
                        let right = descriptor_to_java_name(if old_to_new {
                            nd.as_str()
                        } else {
                            od.as_str()
                        });
                        if !is_safe_match(l) {
                            push_str(&mut s, "# UNSAFE: ");
                            let reason = unsafe_reason(l);
                            push_str(&mut s, reason.as_str());
                            push_str(&mut s, "\n");
                        }
                        push_str(&mut s, left.as_str());
                        push_str(&mut s, " -> ");
                        push_str(&mut s, right.as_str());
                        push_str(&mut s, ":\n");
                        proof {
                            let e = mapping_entry(old_classes@, new_classes@, links@[i as int], old_to_new);
                            assert(s@ =~= before + e);
                        }
                    }
                },
                _ => {},
            },
            _ => {},
        }
        proof {
            let e = mapping_entry(old_classes@, new_classes@, links@[i as int], old_to_new);
            assert(s@ =~= before + e);
        }
        i = i + 1;
    }
    proof {
        assert(links@.take(links@.len() as int) =~= links@);
    }
    s
}

/// The lines written for one match that pairs two classes both apps have (matched,
/// low-confidence, conflicting or semantically broken): the `left -> right:` line of the two Java
/// names, preceded by a `# UNSAFE: ` line exactly when the match is not matched with a reason
/// that starts with `verified:`.
pub proof fn lemma_unsafe_marker(old: Seq<ClassModel>, new: Seq<ClassModel>, l: ClassLink, old_to_new: bool)
    requires
        l.old_class_id is Some,
        l.new_class_id is Some,
        descriptor_by_id(old, l.old_class_id->0) is Some,
        descriptor_by_id(new, l.new_class_id->0) is Some,
        l.status == MatchStatus::Matched || l.status == MatchStatus::LowConfidence || l.status
            == MatchStatus::Conflict || l.status == MatchStatus::SemanticBreak,
    ensures
        ({
            let od = descriptor_by_id(old, l.old_class_id->0)->0;
            let nd = descriptor_by_id(new, l.new_class_id->0)->0;
            let line = java_name(if old_to_new { od } else { nd }) + " -> "@ + java_name(if old_to_new {
                nd
            } else {
                od
            }) + ":\n"@;
            let safe = l.status == MatchStatus::Matched && exists|i: int| 0 <= i < l.reasons@.len() && has_prefix(
                #[trigger] l.reasons@[i]@,
                "verified:"@,
            );
            let e = mapping_entry(old, new, l, old_to_new);
            &&& safe ==> e == line
            &&& !safe ==> e == "# UNSAFE: "@ + unsafe_reason_text(l.status, strs(l.reasons@)) + "\n"@ + line
        }),
{
    let rs = strs(l.reasons@);
    assert forall|i: int| 0 <= i < l.reasons@.len() implies #[trigger] rs[i] == l.reasons@[i]@ by {}
    if is_safe_link(l.status, rs) {
        let i = choose|i: int| 0 <= i < rs.len() && has_prefix(#[trigger] rs[i], "verified:"@);
        assert(has_prefix(l.reasons@[i]@, "verified:"@));
    }
    if l.status == MatchStatus::Matched && exists|i: int| 0 <= i < l.reasons@.len() && has_prefix(
        #[trigger] l.reasons@[i]@,
        "verified:"@,
    ) {
        let i = choose|i: int| 0 <= i < l.reasons@.len() && has_prefix(#[trigger] l.reasons@[i]@, "verified:"@);
        assert(has_prefix(rs[i], "verified:"@));
    }
    let e = mapping_entry(old, new, l, old_to_new);
    let od = descriptor_by_id(old, l.old_class_id->0)->0;
    let nd = descriptor_by_id(new, l.new_class_id->0)->0;
    let line = java_name(if old_to_new { od } else { nd }) + " -> "@ + java_name(if old_to_new { nd } else { od })
        + ":\n"@;
    if is_safe_link(l.status, rs) {
        assert(e =~= line);
    } else {
        assert(e =~= "# UNSAFE: "@ + unsafe_reason_text(l.status, rs) + "\n"@ + line);
    }
}

/// A match that leaves a class unresolved, or names a class an app does not have, writes no
/// line.
pub proof fn lemma_unpaired_writes_nothing(old: Seq<ClassModel>, new: Seq<ClassModel>, l: ClassLink, old_to_new: bool)
    requires
        l.status == MatchStatus::UnresolvedOld || l.status == MatchStatus::UnresolvedNew || l.old_class_id is None
            || l.new_class_id is None || (l.old_class_id is Some && descriptor_by_id(old, l.old_class_id->0) is None)
            || (l.new_class_id is Some && descriptor_by_id(new, l.new_class_id->0) is None),
    ensures
        mapping_entry(old, new, l, old_to_new) == Seq::<char>::empty(),
{
}

} // verus!
