//! How a class is named in reports: its descriptor and where it was defined,
//! `Lcom/Foo; (base.apk!classes.dex#3)`.

use std::collections::BTreeMap;

use vstd::prelude::*;

use crate::chars::{copy_string, decimal, push_decimal, push_str};
use crate::model::{AppModel, ClassModel, DexOrigin, OriginView};

verus! {

broadcast use vstd::std_specs::btree::group_btree_axioms, vstd::laws_cmp::group_laws_cmp;

/// The class-definition index as a label shows it: its number, or `?`.
pub open spec fn class_index_text(index: Option<usize>) -> Seq<char> {
    match index {
        Some(i) => decimal(i as nat),
        None => "?"@,
    }
}

/// `descriptor (part!dex#index)`.
pub open spec fn label_text(descriptor: Seq<char>, origin: OriginView) -> Seq<char> {
    descriptor + " ("@ + origin.apk_part + "!"@ + origin.dex_file + "#"@ + class_index_text(
        origin.class_def_index,
    ) + ")"@
}

/// The label of a class id: empty for no id, `#id` for an id no class has, else the class's
/// label.
pub open spec fn id_label(id: Option<usize>, found: Option<Seq<char>>) -> Seq<char> {
    match id {
        None => Seq::empty(),
        Some(i) => match found {
            Some(l) => l,
            None => "#"@ + decimal(i as nat),
        },
    }
}

/// The label of the first of `classes[k..]` with id `id`.
pub open spec fn first_label(classes: Seq<ClassModel>, id: usize, k: nat) -> Option<Seq<char>>
    decreases classes.len() - k,
{
    if k >= classes.len() {
        None
    } else if classes[k as int].id == id {
        Some(label_text(classes[k as int].descriptor@, classes[k as int].origin@))
    } else {
        first_label(classes, id, k + 1)
    }
}

/// The label of the last of `classes` with id `id`.
pub open spec fn last_label(classes: Seq<ClassModel>, id: usize) -> Option<Seq<char>>
    decreases classes.len(),
{
    if classes.len() == 0 {
        None
    } else if classes.last().id == id {
        Some(label_text(classes.last().descriptor@, classes.last().origin@))
    } else {
        last_label(classes.drop_last(), id)
    }
}

/// Appends `label_text(descriptor, origin)` to `s`.
pub fn push_label(s: &mut String, descriptor: &str, origin: &DexOrigin)
    ensures
        final(s)@ == old(s)@ + label_text(descriptor@, origin@),
{
    push_str(s, descriptor);
    push_str(s, " (");
    push_str(s, origin.apk_part.as_str());
    push_str(s, "!");
    push_str(s, origin.dex_file.as_str());
    push_str(s, "#");
    match origin.class_def_index {
        Some(i) => push_decimal(s, i as u64),
        None => push_str(s, "?"),
    }
    push_str(s, ")");
}

/// `#id`.
fn unknown_id(id: usize) -> (r: String)
    ensures
        r@ == "#"@ + decimal(id as nat),
{
    let mut s = String::new();
    push_str(&mut s, "#");
    push_decimal(&mut s, id as u64);
    s
}

/// The label of class `id` of `app`: the first class with that id, `#id` when none has it, and
/// nothing when there is no id.
pub fn class_label(app: &AppModel, id: Option<usize>) -> (r: String)
    ensures
        r@ == id_label(id, match id { Some(i) => first_label(app.classes@, i, 0), None => None }),
{
    let wanted = match id {
        None => return String::new(),
        Some(i) => i,
    };
    let mut k: usize = 0;
    while k < app.classes.len()
        invariant
            k <= app.classes.len(),
            id == Some(wanted),
            first_label(app.classes@, wanted, 0) == first_label(app.classes@, wanted, k as nat),
        decreases app.classes.len() - k,
    {
        let class = &app.classes[k];
        if class.id == wanted {
            let mut s = String::new();
            push_label(&mut s, class.descriptor.as_str(), &class.origin);
            assert(first_label(app.classes@, wanted, k as nat) == Some(label_text(class.descriptor@, class.origin@)));
            return s;
        }
        k = k + 1;
    }
    unknown_id(wanted)
}

/// The labels of an app's classes by id.
pub struct ClassLabelIndex {
    labels: BTreeMap<usize, String>,
}

impl ClassLabelIndex {
    /// The label recorded for `id`.
    pub closed spec fn lookup(&self, id: usize) -> Option<Seq<char>> {
        if self.labels@.contains_key(id) {
            Some(self.labels@[id]@)
        } else {
            None
        }
    }

    /// The labels of all classes of `app`; where two classes share an id, the later one's.
    pub fn new(app: &AppModel) -> (r: Self)
        ensures
            forall|id: usize| #[trigger] r.lookup(id) == last_label(app.classes@, id),
    {
        let mut labels: BTreeMap<usize, String> = BTreeMap::new();
        let mut k: usize = 0;
        while k < app.classes.len()
            invariant
                k <= app.classes.len(),
                forall|id: usize|
                    #![trigger labels@.contains_key(id)]
                    (if labels@.contains_key(id) { Some(labels@[id]@) } else { None })
                        == last_label(app.classes@.take(k as int), id),
            decreases app.classes.len() - k,
        {
            let class = &app.classes[k];
            let mut s = String::new();
            push_label(&mut s, class.descriptor.as_str(), &class.origin);
            labels.insert(class.id, s);
            proof {
                let t = app.classes@.take(k + 1);
                assert(t.drop_last() =~= app.classes@.take(k as int));
                assert(t.last() == app.classes@[k as int]);
            }
            k = k + 1;
        }
        assert(app.classes@.take(app.classes.len() as int) =~= app.classes@);
        let r = ClassLabelIndex { labels };
        assert forall|id: usize| #[trigger] r.lookup(id) == last_label(app.classes@, id) by {
            assert(r.labels@.contains_key(id) == labels@.contains_key(id));
        }
        r
    }

    /// The label of `id`: nothing for no id, `#id` for an id no class has.
    pub fn label(&self, id: Option<usize>) -> (r: String)
        ensures
            r@ == id_label(id, match id { Some(i) => self.lookup(i), None => None }),
    {
        let id = match id {
            None => return String::new(),
            Some(i) => i,
        };
        match self.labels.get(&id) {
            Some(l) => copy_string(l),
            None => unknown_id(id),
        }
    }
}


/// No two classes share an id.
pub open spec fn ids_unique(classes: Seq<ClassModel>) -> bool {
    forall|i: int, j: int| 0 <= i < j < classes.len() ==> classes[i].id != classes[j].id
}

proof fn lemma_first_label_at(cs: Seq<ClassModel>, id: usize, k: nat, j: int)
    requires
        k <= j < cs.len(),
        cs[j].id == id,
        forall|i: int| k <= i < j ==> cs[i].id != id,
    ensures
        first_label(cs, id, k) == Some(label_text(cs[j].descriptor@, cs[j].origin@)),
    decreases j - k,
{
    if k < j {
        lemma_first_label_at(cs, id, k + 1, j);
    }
}

proof fn lemma_first_label_none(cs: Seq<ClassModel>, id: usize, k: nat)
    requires
        forall|i: int| k <= i < cs.len() ==> cs[i].id != id,
    ensures
        first_label(cs, id, k) is None,
    decreases cs.len() - k,
{
    if k < cs.len() {
        lemma_first_label_none(cs, id, k + 1);
    }
}

proof fn lemma_last_label_at(cs: Seq<ClassModel>, id: usize, j: int)
    requires
        0 <= j < cs.len(),
        cs[j].id == id,
        forall|i: int| j < i < cs.len() ==> cs[i].id != id,
    ensures
        last_label(cs, id) == Some(label_text(cs[j].descriptor@, cs[j].origin@)),
    decreases cs.len(),
{
    if j < cs.len() - 1 {
        let rest = cs.drop_last();
        assert forall|i: int| j < i < rest.len() implies rest[i].id != id by {
            assert(rest[i] == cs[i]);
        }
        lemma_last_label_at(rest, id, j);
    }
}

proof fn lemma_last_label_none(cs: Seq<ClassModel>, id: usize)
    requires
        forall|i: int| 0 <= i < cs.len() ==> cs[i].id != id,
    ensures
        last_label(cs, id) is None,
    decreases cs.len(),
{
    if cs.len() > 0 {
        let rest = cs.drop_last();
        assert forall|i: int| 0 <= i < rest.len() implies rest[i].id != id by {
            assert(rest[i] == cs[i]);
        }
        lemma_last_label_none(rest, id);
    }
}

/// Where no two classes share an id, the label index labels every id as the direct lookup does.
pub proof fn lemma_index_matches_lookup(classes: Seq<ClassModel>, id: usize)
    requires
        ids_unique(classes),
    ensures
        first_label(classes, id, 0) == last_label(classes, id),
{
    if exists|j: int| 0 <= j < classes.len() && classes[j].id == id {
        let j = choose|j: int| 0 <= j < classes.len() && classes[j].id == id;
        assert forall|i: int| 0 <= i < j implies classes[i].id != id by {
            assert(classes[i].id != classes[j].id);
        }
        assert forall|i: int| j < i < classes.len() implies classes[i].id != id by {
            assert(classes[j].id != classes[i].id);
        }
        lemma_first_label_at(classes, id, 0, j);
        lemma_last_label_at(classes, id, j);
    } else {
        lemma_first_label_none(classes, id, 0);
        lemma_last_label_none(classes, id);
    }
}

} // verus!
