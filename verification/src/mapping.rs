//! What a `mapping.json` report holds of each app and of each class match, and the queries the
//! tool answers from it.

use std::collections::BTreeMap;

use vstd::prelude::*;

use crate::chars::{has_prefix, push_str, str_chars, strs};
use crate::error::{Result, UnocRsError};
use crate::labels::{id_label, label_text, push_label};
use crate::model::DexOrigin;

verus! {

broadcast use vstd::std_specs::btree::group_btree_axioms, vstd::laws_cmp::group_laws_cmp;

/// How a class pairing was judged.
#[derive(Debug, Clone, Copy, PartialEq, Eq, Structural)]
pub enum MatchStatus {
    Matched,
    LowConfidence,
    Conflict,
    SemanticBreak,
    UnresolvedOld,
    UnresolvedNew,
}

/// One class of an app in a mapping report.
#[derive(Debug, Clone)]
pub struct MappingClass {
    pub id: usize,
    pub descriptor: String,
    pub origin: DexOrigin,
}

/// The parse coverage of an app in a mapping report.
#[derive(Debug, Clone, Copy, PartialEq, Eq, Structural)]
pub struct MappingCoverage {
    pub apk_parts: usize,
    pub dex_files: usize,
    pub parsed_classes: usize,
    pub parsed_methods: usize,
    pub parsed_fields: usize,
    pub warning_count: usize,
}

impl Default for MappingCoverage {
    fn default() -> (r: Self)
        ensures
            r.apk_parts == 0 && r.dex_files == 0 && r.parsed_classes == 0 && r.parsed_methods == 0
                && r.parsed_fields == 0 && r.warning_count == 0,
    {
        MappingCoverage {
            apk_parts: 0,
            dex_files: 0,
            parsed_classes: 0,
            parsed_methods: 0,
            parsed_fields: 0,
            warning_count: 0,
        }
    }
}

/// One app of a mapping report.
#[derive(Debug, Clone)]
pub struct MappingApp {
    pub apk_name: String,
    pub package_name: Option<String>,
    pub classes: Vec<MappingClass>,
    pub coverage: MappingCoverage,
}

/// What a mapping report says of one class match, apart from its scores: the classes paired,
/// the verdict and its reasons.
#[derive(Debug, Clone)]
pub struct ClassLink {
    pub old_class_id: Option<usize>,
    pub new_class_id: Option<usize>,
    pub status: MatchStatus,
    pub reasons: Vec<String>,
}

/// The label of the first of `classes[k..]` with id `id`.
pub open spec fn first_mapping_label(classes: Seq<MappingClass>, id: usize, k: nat) -> Option<Seq<char>>
    decreases classes.len() - k,
{
    if k >= classes.len() {
        None
    } else if classes[k as int].id == id {
        Some(label_text(classes[k as int].descriptor@, classes[k as int].origin@))
    } else {
        first_mapping_label(classes, id, k + 1)
    }
}

/// The descriptor of the last of `classes` with id `id`.
pub open spec fn descriptor_of_id(classes: Seq<MappingClass>, id: usize) -> Option<Seq<char>>
    decreases classes.len(),
{
    if classes.len() == 0 {
        None
    } else if classes.last().id == id {
        Some(classes.last().descriptor@)
    } else {
        descriptor_of_id(classes.drop_last(), id)
    }
}

/// The id of the last of `classes` with descriptor `d`.
pub open spec fn id_of_descriptor(classes: Seq<MappingClass>, d: Seq<char>) -> Option<usize>
    decreases classes.len(),
{
    if classes.len() == 0 {
        None
    } else if classes.last().descriptor@ == d {
        Some(classes.last().id)
    } else {
        id_of_descriptor(classes.drop_last(), d)
    }
}

impl MappingApp {
    /// The label of class `id`: the first class with that id, `#id` when none has it, and
    /// nothing when there is no id.
    pub fn class_label(&self, id: Option<usize>) -> (r: String)
        ensures
            r@ == id_label(id, match id { Some(i) => first_mapping_label(self.classes@, i, 0), None => None }),
    {
        let wanted = match id {
            None => return String::new(),
            Some(i) => i,
        };
        let mut k: usize = 0;
        while k < self.classes.len()
            invariant
                k <= self.classes.len(),
                id == Some(wanted),
                first_mapping_label(self.classes@, wanted, 0) == first_mapping_label(self.classes@, wanted, k as nat),
            decreases self.classes.len() - k,
        {
            let class = &self.classes[k];
            if class.id == wanted {
                let mut s = String::new();
                push_label(&mut s, class.descriptor.as_str(), &class.origin);
                assert(first_mapping_label(self.classes@, wanted, k as nat) == Some(
                    label_text(class.descriptor@, class.origin@),
                ));
                return s;
            }
            k = k + 1;
        }
        let mut s = String::new();
        push_str(&mut s, "#");
        crate::chars::push_decimal(&mut s, wanted as u64);
        s
    }

    /// The descriptor of class `id`; where two classes share an id, the later one's.
    pub fn descriptor_of(&self, id: usize) -> (r: Option<&String>)
        ensures
            match r {
                Some(d) => descriptor_of_id(self.classes@, id) == Some(d@),
                None => descriptor_of_id(self.classes@, id) is None,
            },
    {
        let mut k: usize = self.classes.len();
        assert(self.classes@.take(k as int) =~= self.classes@);
        while k > 0
            invariant
                k <= self.classes.len(),
                descriptor_of_id(self.classes@, id) == descriptor_of_id(self.classes@.take(k as int), id),
            decreases k,
        {
            assert(self.classes@.take(k as int).drop_last() =~= self.classes@.take(k - 1));
            if self.classes[k - 1].id == id {
                return Some(&self.classes[k - 1].descriptor);
            }
            k = k - 1;
        }
        None
    }

    /// The id of the class with descriptor `d`; where two classes share it, the later one's.
    pub fn id_of(&self, d: &str) -> (r: Option<usize>)
        ensures
            r == id_of_descriptor(self.classes@, d@),
    {
        let want = str_chars(d);
        let mut k: usize = self.classes.len();
        assert(self.classes@.take(k as int) =~= self.classes@);
        assert(self.classes@.take(k as int) =~= self.classes@);
        while k > 0
            invariant
                k <= self.classes.len(),
                want@ == d@,
                id_of_descriptor(self.classes@, d@) == id_of_descriptor(self.classes@.take(k as int), d@),
            decreases k,
        {
            assert(self.classes@.take(k as int).drop_last() =~= self.classes@.take(k - 1));
            let have = str_chars(self.classes[k - 1].descriptor.as_str());
            if crate::chars::chars_equal(have.as_slice(), want.as_slice()) {
                return Some(self.classes[k - 1].id);
            }
            k = k - 1;
        }
        None
    }
}

/// A match is safe to apply when it was matched and one of its reasons is a verification.
pub open spec fn is_safe_link(status: MatchStatus, reasons: Seq<Seq<char>>) -> bool {
    status == MatchStatus::Matched && exists|i: int| 0 <= i < reasons.len() && has_prefix(#[trigger] reasons[i], "verified:"@)
}

/// Whether a match is safe to apply: matched, with a `verified:` reason.
pub fn is_safe_match(link: &ClassLink) -> (r: bool)
    ensures
        r == is_safe_link(link.status, strs(link.reasons@)),
{
    if link.status != MatchStatus::Matched {
        return false;
    }
    let p = str_chars("verified:");
    let mut i: usize = 0;
    while i < link.reasons.len()
        invariant
            i <= link.reasons.len(),
            p@ == "verified:"@,
            link.status == MatchStatus::Matched,
            forall|k: int| 0 <= k < i ==> !has_prefix(#[trigger] strs(link.reasons@)[k], "verified:"@),
        decreases link.reasons.len() - i,
    {
        let reason = str_chars(link.reasons[i].as_str());
        if crate::chars::chars_start_with(reason.as_slice(), p.as_slice()) {
            assert(has_prefix(strs(link.reasons@)[i as int], "verified:"@));
            return true;
        }
        i = i + 1;
    }
    false
}

/// The side of a mapping a query found its class on.
#[derive(Debug, Clone, Copy, PartialEq, Eq, Structural)]
pub enum QuerySide {
    Old,
    New,
}

/// The indices `k` from `from` on whose link pairs `id` on the chosen side.
pub open spec fn links_of(links: Seq<ClassLink>, old_side: bool, id: usize, from: nat) -> Seq<usize>
    decreases links.len() - from,
{
    if from >= links.len() {
        Seq::empty()
    } else {
        let side_id = if old_side { links[from as int].old_class_id } else { links[from as int].new_class_id };
        let rest = links_of(links, old_side, id, from + 1);
        if side_id == Some(id) {
            seq![from as usize] + rest
        } else {
            rest
        }
    }
}

/// The matches a query for `d` shows: those of the old class with that descriptor, then those of
/// the new one.
pub open spec fn query_hits(old_app: Seq<MappingClass>, new_app: Seq<MappingClass>, links: Seq<ClassLink>,
    d: Seq<char>) -> Seq<(usize, QuerySide)> {
    let olds = match id_of_descriptor(old_app, d) {
        Some(id) => links_of(links, true, id, 0),
        None => Seq::empty(),
    };
    let news = match id_of_descriptor(new_app, d) {
        Some(id) => links_of(links, false, id, 0),
        None => Seq::empty(),
    };
    olds.map_values(|k: usize| (k, QuerySide::Old)) + news.map_values(|k: usize| (k, QuerySide::New))
}

fn push_links(hits: &mut Vec<(usize, QuerySide)>, links: &[ClassLink], side: QuerySide, id: usize)
    ensures
        final(hits)@ == old(hits)@ + links_of(links@, side == QuerySide::Old, id, 0).map_values(
            |k: usize| (k, side),
        ),
{
    let ghost start = hits@;
    let ghost all = links_of(links@, side == QuerySide::Old, id, 0);
    let mut k: usize = 0;
    while k < links.len()
        invariant
            k <= links.len(),
            all == links_of(links@, side == QuerySide::Old, id, 0),
            start + all.map_values(|j: usize| (j, side)) == hits@ + links_of(
                links@,
                side == QuerySide::Old,
                id,
                k as nat,
            ).map_values(|j: usize| (j, side)),
        decreases links.len() - k,
    {
        let side_id = match side {
            QuerySide::Old => links[k].old_class_id,
            QuerySide::New => links[k].new_class_id,
        };
        let ghost rest = links_of(links@, side == QuerySide::Old, id, (k + 1) as nat);
        if side_id == Some(id) {
            hits.push((k, side));
            assert((seq![k] + rest).map_values(|j: usize| (j, side)) =~= seq![(k, side)] + rest.map_values(
                |j: usize| (j, side),
            ));
        }
        k = k + 1;
    }
}

/// Finds the matches of the class `class` names, as a descriptor or a Java name: those of the
/// old app's class with that descriptor, then those of the new app's. None found is an error.
pub fn find_class_matches(old_app: &MappingApp, new_app: &MappingApp, links: &[ClassLink], class: &str) -> (r: Result<
    Vec<(usize, QuerySide)>,
>)
    ensures
        ({
            let hits = query_hits(old_app.classes@, new_app.classes@, links@, query_descriptor(class@));
            match r {
                Ok(v) => v@ == hits && hits.len() > 0,
                Err(e) => hits.len() == 0 && (e matches UnocRsError::Other(m) && m@ == "class not found in mapping: "@
                    + class@),
            }
        }),
{
    let query = normalize_class_query(class);
    let mut hits: Vec<(usize, QuerySide)> = Vec::new();
    if let Some(id) = old_app.id_of(query.as_str()) {
        push_links(&mut hits, links, QuerySide::Old, id);
    }
    let ghost mid = hits@;
    if let Some(id) = new_app.id_of(query.as_str()) {
        push_links(&mut hits, links, QuerySide::New, id);
    }
    proof {
        let d = query@;
        let olds = match id_of_descriptor(old_app.classes@, d) {
            Some(id) => links_of(links@, true, id, 0),
            None => Seq::empty(),
        };
        assert(mid =~= olds.map_values(|k: usize| (k, QuerySide::Old)));
    }
    if hits.len() == 0 {
        let mut m = String::new();
        push_str(&mut m, "class not found in mapping: ");
        push_str(&mut m, class);
        return Err(UnocRsError::Other(m));
    }
    Ok(hits)
}

/// The descriptor a class query stands for: a descriptor `L...;` as it is, otherwise a Java or
/// slash-separated name with `.` made `/`, given an `L` in front unless it has one, and `;`.
pub open spec fn query_descriptor(v: Seq<char>) -> Seq<char> {
    if v.len() > 0 && v[0] == 'L' && v.last() == ';' {
        v
    } else {
        let slash = crate::chars::replace_char(v, '.', '/');
        if slash.len() > 0 && slash[0] == 'L' {
            slash + ";"@
        } else {
            "L"@ + slash + ";"@
        }
    }
}

/// Turns a class query into the descriptor it stands for.
pub fn normalize_class_query(value: &str) -> (r: String)
    ensures
        r@ == query_descriptor(value@),
{
    let v = str_chars(value);
    if v.len() > 0 && v[0] == 'L' && v[v.len() - 1] == ';' {
        return crate::chars::string_from_chars(v.as_slice());
    }
    let slash = crate::chars::replace_chars(v.as_slice(), '.', '/');
    let mut s = String::new();
    if !(slash.len() > 0 && slash[0] == 'L') {
        push_str(&mut s, "L");
    }
    crate::chars::push_chars(&mut s, slash.as_slice());
    push_str(&mut s, ";");
    s
}


/// A class query normalizes to a descriptor `L...;`, and normalizing that again changes
/// nothing.
pub proof fn lemma_query_descriptor_idempotent(v: Seq<char>)
    ensures
        query_descriptor(v).len() >= 2,
        query_descriptor(v)[0] == 'L',
        query_descriptor(v).last() == ';',
        query_descriptor(query_descriptor(v)) == query_descriptor(v),
{
    reveal_strlit(";");
    reveal_strlit("L");
    let slash = crate::chars::replace_char(v, '.', '/');
    if !(v.len() > 0 && v[0] == 'L' && v.last() == ';') {
        if slash.len() > 0 && slash[0] == 'L' {
            assert((slash + ";"@)[0] == slash[0]);
        }
    } else {
        if v.len() == 1 {
            assert(v[0] == v.last());
        }
    }
}


/// The reason the matcher gives a class whose interface flag changed.
pub open spec fn semantic_break_reason() -> Seq<char> {
    "semantic break: class/interface access flag changed"@
}

/// The reason the matcher gives a same-descriptor match whose methods barely overlap.
pub open spec fn weak_shape_reason() -> Seq<char> {
    "unsafe same descriptor: weak method shape overlap"@
}

/// The tiered mapping files.
#[derive(Debug, Clone, Copy, PartialEq, Eq, Structural)]
pub enum MappingTier {
    /// `verified.txt`: matches a check verified.
    Verified,
    /// `name-only.txt`: matches made on the same descriptor alone.
    NameOnly,
    /// `unsafe.txt`: conflicts, semantic breaks and weak same-descriptor matches.
    Unsafe,
}

/// Some reason of `reasons` starts with `verified:`.
pub open spec fn has_verified_reason(reasons: Seq<Seq<char>>) -> bool {
    exists|i: int| 0 <= i < reasons.len() && has_prefix(#[trigger] reasons[i], "verified:"@)
}

/// Whether a match belongs in a tier file.
pub open spec fn in_tier(tier: MappingTier, status: MatchStatus, reasons: Seq<Seq<char>>) -> bool {
    match tier {
        MappingTier::Verified => status == MatchStatus::Matched && has_verified_reason(reasons),
        MappingTier::NameOnly => (status == MatchStatus::Matched || status == MatchStatus::LowConfidence)
            && reasons.contains("same descriptor"@) && !has_verified_reason(reasons),
        MappingTier::Unsafe => status == MatchStatus::Conflict || status == MatchStatus::SemanticBreak
            || reasons.contains(semantic_break_reason()) || reasons.contains(weak_shape_reason()),
    }
}

fn contains_reason(reasons: &Vec<String>, r: &str) -> (b: bool)
    ensures
        b == strs(reasons@).contains(r@),
{
    let want = str_chars(r);
    let mut i: usize = 0;
    while i < reasons.len()
        invariant
            i <= reasons.len(),
            want@ == r@,
            forall|k: int| 0 <= k < i ==> strs(reasons@)[k] != r@,
        decreases reasons.len() - i,
    {
        let have = str_chars(reasons[i].as_str());
        if crate::chars::chars_equal(have.as_slice(), want.as_slice()) {
            assert(strs(reasons@)[i as int] == r@);
            return true;
        }
        i = i + 1;
    }
    false
}

fn verified_reason(reasons: &Vec<String>) -> (b: bool)
    ensures
        b == has_verified_reason(strs(reasons@)),
{
    let p = str_chars("verified:");
    let mut i: usize = 0;
    while i < reasons.len()
        invariant
            i <= reasons.len(),
            p@ == "verified:"@,
            forall|k: int| 0 <= k < i ==> !has_prefix(#[trigger] strs(reasons@)[k], "verified:"@),
        decreases reasons.len() - i,
    {
        let reason = str_chars(reasons[i].as_str());
        if crate::chars::chars_start_with(reason.as_slice(), p.as_slice()) {
            assert(has_prefix(strs(reasons@)[i as int], "verified:"@));
            return true;
        }
        i = i + 1;
    }
    false
}

/// Whether a match belongs in the tier file `tier`.
pub fn class_in_tier(link: &ClassLink, tier: MappingTier) -> (b: bool)
    ensures
        b == in_tier(tier, link.status, strs(link.reasons@)),
{
    proof {
        reveal_strlit("semantic break: class/interface access flag changed");
        reveal_strlit("unsafe same descriptor: weak method shape overlap");
    }
    match tier {
        MappingTier::Verified => link.status == MatchStatus::Matched && verified_reason(&link.reasons),
        MappingTier::NameOnly => (link.status == MatchStatus::Matched || link.status == MatchStatus::LowConfidence)
            && contains_reason(&link.reasons, "same descriptor") && !verified_reason(&link.reasons),
        MappingTier::Unsafe => link.status == MatchStatus::Conflict || link.status == MatchStatus::SemanticBreak
            || contains_reason(&link.reasons, "semantic break: class/interface access flag changed")
            || contains_reason(&link.reasons, "unsafe same descriptor: weak method shape overlap"),
    }
}

/// Why a mapping line is marked unsafe: a semantic break, a weak same-descriptor match, or
/// else the verdict's name.
pub open spec fn unsafe_reason_text(status: MatchStatus, reasons: Seq<Seq<char>>) -> Seq<char> {
    if status == MatchStatus::SemanticBreak || reasons.contains(semantic_break_reason()) {
        "semantic break"@
    } else if reasons.contains(weak_shape_reason()) {
        "weak same-descriptor match"@
    } else {
        status_name(status)
    }
}

/// How `{:?}` spells a verdict.
pub open spec fn status_name(status: MatchStatus) -> Seq<char> {
    match status {
        MatchStatus::Matched => "Matched"@,
        MatchStatus::LowConfidence => "LowConfidence"@,
        MatchStatus::Conflict => "Conflict"@,
        MatchStatus::SemanticBreak => "SemanticBreak"@,
        MatchStatus::UnresolvedOld => "UnresolvedOld"@,
        MatchStatus::UnresolvedNew => "UnresolvedNew"@,
    }
}

/// Why a mapping line is marked unsafe.
pub fn unsafe_reason(link: &ClassLink) -> (r: String)
    ensures
        r@ == unsafe_reason_text(link.status, strs(link.reasons@)),
{
    proof {
        reveal_strlit("semantic break: class/interface access flag changed");
        reveal_strlit("unsafe same descriptor: weak method shape overlap");
    }
    let mut s = String::new();
    if link.status == MatchStatus::SemanticBreak || contains_reason(
        &link.reasons,
        "semantic break: class/interface access flag changed",
    ) {
        push_str(&mut s, "semantic break");
    } else if contains_reason(&link.reasons, "unsafe same descriptor: weak method shape overlap") {
        push_str(&mut s, "weak same-descriptor match");
    } else {
        match link.status {
            MatchStatus::Matched => push_str(&mut s, "Matched"),
            MatchStatus::LowConfidence => push_str(&mut s, "LowConfidence"),
            MatchStatus::Conflict => push_str(&mut s, "Conflict"),
            MatchStatus::SemanticBreak => push_str(&mut s, "SemanticBreak"),
            MatchStatus::UnresolvedOld => push_str(&mut s, "UnresolvedOld"),
            MatchStatus::UnresolvedNew => push_str(&mut s, "UnresolvedNew"),
        }
    }
    s
}


/// The position of each class id among `classes`: for an id several classes share, the last.
pub fn id_positions(classes: &Vec<MappingClass>) -> (r: std::collections::BTreeMap<usize, usize>)
    ensures
        forall|id: usize| #[trigger] r@.contains_key(id) == (descriptor_of_id(classes@, id) is Some),
        forall|id: usize|
            #[trigger] r@.contains_key(id) ==> r@[id] < classes@.len() && descriptor_of_id(classes@, id) == Some(
                classes@[r@[id] as int].descriptor@,
            ),
{
    let mut map: std::collections::BTreeMap<usize, usize> = std::collections::BTreeMap::new();
    let mut i: usize = 0;
    while i < classes.len()
        invariant
            i <= classes.len(),
            forall|id: usize| #[trigger] map@.contains_key(id) == (descriptor_of_id(classes@.take(i as int), id) is Some),
            forall|id: usize|
                #[trigger] map@.contains_key(id) ==> map@[id] < i && descriptor_of_id(classes@.take(i as int), id) == Some(
                    classes@[map@[id] as int].descriptor@,
                ),
        decreases classes.len() - i,
    {
        proof {
            let t = classes@.take(i + 1);
            assert(t.drop_last() =~= classes@.take(i as int));
            assert(t.last() == classes@[i as int]);
        }
        map.insert(classes[i].id, i);
        i = i + 1;
    }
    assert(classes@.take(classes.len() as int) =~= classes@);
    map
}

// ----- new classes that several old classes claim -----

/// Whether a match claims its new class: it has an old class and is matched, of low
/// confidence, or already a conflict.
pub open spec fn claims_new_class(l: ClassLink) -> bool {
    &&& l.old_class_id is Some
    &&& (l.status == MatchStatus::Matched || l.status == MatchStatus::LowConfidence || l.status
        == MatchStatus::Conflict)
}

/// How many of `links` claim the new class `id`.
pub open spec fn claim_count(links: Seq<ClassLink>, id: usize) -> nat
    decreases links.len(),
{
    if links.len() == 0 {
        0
    } else {
        claim_count(links.drop_last(), id) + if claims_new_class(links.last()) && links.last().new_class_id == Some(id) {
            1nat
        } else {
            0nat
        }
    }
}

/// Whether `l`, one of `links`, claims a new class that another of them claims too.
pub open spec fn shares_new_class(links: Seq<ClassLink>, l: ClassLink) -> bool {
    claims_new_class(l) && match l.new_class_id {
        Some(id) => claim_count(links, id) > 1,
        None => false,
    }
}

/// `reasons` without those that start with `verified:`.
pub open spec fn unverified_reasons(reasons: Seq<Seq<char>>) -> Seq<Seq<char>>
    decreases reasons.len(),
{
    if reasons.len() == 0 {
        Seq::empty()
    } else if has_prefix(reasons.last(), "verified:"@) {
        unverified_reasons(reasons.drop_last())
    } else {
        unverified_reasons(reasons.drop_last()).push(reasons.last())
    }
}

/// The reason given to a match whose new class another match claims too.
pub open spec fn shared_new_class_reason() -> Seq<char> {
    "conflict: multiple old classes select the same new class"@
}

proof fn lemma_claim_count_bound(links: Seq<ClassLink>, id: usize)
    ensures
        claim_count(links, id) <= links.len(),
    decreases links.len(),
{
    if links.len() > 0 {
        lemma_claim_count_bound(links.drop_last(), id);
    }
}

/// `reasons` without those that start with `verified:`, and with the shared-class conflict
/// reason at the end.
fn conflict_reasons(reasons: &Vec<String>) -> (r: Vec<String>)
    ensures
        strs(r@) == unverified_reasons(strs(reasons@)).push(shared_new_class_reason()),
{
    let p = str_chars("verified:");
    let mut r: Vec<String> = Vec::new();
    let mut i: usize = 0;
    while i < reasons.len()
        invariant
            i <= reasons.len(),
            p@ == "verified:"@,
            strs(r@) == unverified_reasons(strs(reasons@).take(i as int)),
        decreases reasons.len() - i,
    {
        let chars = str_chars(reasons[i].as_str());
        proof {
            assert(strs(reasons@).take(i + 1).drop_last() =~= strs(reasons@).take(i as int));
            assert(strs(reasons@).take(i + 1).last() == reasons@[i as int]@);
        }
        if !crate::chars::chars_start_with(chars.as_slice(), p.as_slice()) {
            r.push(reasons[i].clone());
            proof {
                assert(strs(r@) =~= unverified_reasons(strs(reasons@).take(i as int)).push(reasons@[i as int]@));
            }
        }
        i = i + 1;
    }
    proof {
        assert(strs(reasons@).take(reasons@.len() as int) =~= strs(reasons@));
    }
    let ghost before = r@;
    let reason = "conflict: multiple old classes select the same new class".to_string();
    proof {
        reveal_strlit("conflict: multiple old classes select the same new class");
    }
    r.push(reason);
    proof {
        assert(strs(r@) =~= strs(before).push(shared_new_class_reason()));
    }
    r
}

/// Marks as conflicts the matches that claim a new class that another match claims too: their
/// `verified:` reasons go, and the shared-class reason comes last. Other matches stay as they
/// are.
pub fn mark_shared_new_classes(links: &mut Vec<ClassLink>)
    ensures
        final(links)@.len() == old(links)@.len(),
        forall|i: int|
            0 <= i < old(links)@.len() ==> {
                let l = #[trigger] old(links)@[i];
                let m = final(links)@[i];
                if shares_new_class(old(links)@, l) {
                    &&& m.old_class_id == l.old_class_id
                    &&& m.new_class_id == l.new_class_id
                    &&& m.status == MatchStatus::Conflict
                    &&& strs(m.reasons@) == unverified_reasons(strs(l.reasons@)).push(shared_new_class_reason())
                } else {
                    m == l
                }
            },
{
    let ghost orig = links@;
    let mut counts: BTreeMap<usize, usize> = BTreeMap::new();
    let mut i: usize = 0;
    while i < links.len()
        invariant
            i <= links.len(),
            links@ == orig,
            forall|id: usize| #[trigger]
                counts@.contains_key(id) ==> counts@[id] == claim_count(orig.take(i as int), id),
            forall|id: usize| !(#[trigger] counts@.contains_key(id)) ==> claim_count(orig.take(i as int), id) == 0,
        decreases links.len() - i,
    {
        let l = &links[i];
        proof {
            assert(orig.take(i + 1).drop_last() =~= orig.take(i as int));
            assert(orig.take(i + 1).last() == orig[i as int]);
        }
        let claims = l.old_class_id.is_some() && (l.status == MatchStatus::Matched || l.status
            == MatchStatus::LowConfidence || l.status == MatchStatus::Conflict);
        match l.new_class_id {
            Some(id) => {
                if claims {
                    let c = match counts.get(&id) {
                        Some(c) => *c,
                        None => 0,
                    };
                    proof {
                        lemma_claim_count_bound(orig.take(i as int), id);
                    }
                    counts.insert(id, c + 1);
                }
            },
            None => {},
        }
        i = i + 1;
    }
    proof {
        assert(orig.take(orig.len() as int) =~= orig);
    }
    let mut i: usize = 0;
    while i < links.len()
        invariant
            i <= links.len(),
            links@.len() == orig.len(),
            forall|id: usize| #[trigger] counts@.contains_key(id) ==> counts@[id] == claim_count(orig, id),
            forall|id: usize| !(#[trigger] counts@.contains_key(id)) ==> claim_count(orig, id) == 0,
            forall|k: int| i <= k < orig.len() ==> #[trigger] links@[k] == orig[k],
            forall|k: int|
                0 <= k < i ==> {
                    let l = #[trigger] orig[k];
                    let m = links@[k];
                    if shares_new_class(orig, l) {
                        &&& m.old_class_id == l.old_class_id
                        &&& m.new_class_id == l.new_class_id
                        &&& m.status == MatchStatus::Conflict
                        &&& strs(m.reasons@) == unverified_reasons(strs(l.reasons@)).push(shared_new_class_reason())
                    } else {
                        m == l
                    }
                },
        decreases links.len() - i,
    {
        let l = &links[i];
        assert(*l == orig[i as int]);
        let claims = l.old_class_id.is_some() && (l.status == MatchStatus::Matched || l.status
            == MatchStatus::LowConfidence || l.status == MatchStatus::Conflict);
        let shared = match l.new_class_id {
            Some(id) => claims && match counts.get(&id) {
                Some(c) => *c > 1,
                None => false,
            },
            None => false,
        };
        assert(shared == shares_new_class(orig, orig[i as int]));
        if shared {
            let updated = ClassLink {
                old_class_id: l.old_class_id,
                new_class_id: l.new_class_id,
                status: MatchStatus::Conflict,
                reasons: conflict_reasons(&l.reasons),
            };
            links.set(i, updated);
        }
        i = i + 1;
    }
}

// ----- what no match claims -----

/// Whether a verdict pairs two entities: matched, of low confidence, a conflict or a semantic
/// break.
pub open spec fn pairs_classes(status: MatchStatus) -> bool {
    status == MatchStatus::Matched || status == MatchStatus::LowConfidence || status == MatchStatus::Conflict
        || status == MatchStatus::SemanticBreak
}

/// Whether one of `matches` (a verdict and a new entity each) pairs the new entity `id`.
pub open spec fn paired(matches: Seq<(MatchStatus, Option<usize>)>, id: usize) -> bool {
    exists|i: int| 0 <= i < matches.len() && pairs_classes(#[trigger] matches[i].0) && matches[i].1 == Some(id)
}

/// The ids of `ids` that none of `matches` pairs, in order.
pub open spec fn unpaired(matches: Seq<(MatchStatus, Option<usize>)>, ids: Seq<usize>) -> Seq<usize>
    decreases ids.len(),
{
    if ids.len() == 0 {
        Seq::empty()
    } else if paired(matches, ids.last()) {
        unpaired(matches, ids.drop_last())
    } else {
        unpaired(matches, ids.drop_last()).push(ids.last())
    }
}

/// The ids of `ids` that none of `matches` pairs, in order: the new entities left unresolved.
pub fn unpaired_ids(matches: &[(MatchStatus, Option<usize>)], ids: &[usize]) -> (r: Vec<usize>)
    ensures
        r@ == unpaired(matches@, ids@),
{
    let mut taken: BTreeMap<usize, bool> = BTreeMap::new();
    let mut i: usize = 0;
    while i < matches.len()
        invariant
            i <= matches.len(),
            forall|id: usize| #[trigger] taken@.contains_key(id) == paired(matches@.take(i as int), id),
        decreases matches.len() - i,
    {
        let (status, new_id) = matches[i];
        proof {
            assert forall|id: usize| #[trigger] paired(matches@.take(i + 1), id) == (paired(matches@.take(i as int), id) || (
            pairs_classes(matches@[i as int].0) && matches@[i as int].1 == Some(id))) by {
                if paired(matches@.take(i + 1), id) {
                    let k = choose|k: int|
                        0 <= k < matches@.take(i + 1).len() && pairs_classes(#[trigger] matches@.take(i + 1)[k].0)
                            && matches@.take(i + 1)[k].1 == Some(id);
                    if k < i {
                        assert(matches@.take(i as int)[k] == matches@.take(i + 1)[k]);
                    }
                }
                if paired(matches@.take(i as int), id) {
                    let k = choose|k: int|
                        0 <= k < matches@.take(i as int).len() && pairs_classes(#[trigger] matches@.take(i as int)[k].0)
                            && matches@.take(i as int)[k].1 == Some(id);
                    assert(matches@.take(i + 1)[k] == matches@.take(i as int)[k]);
                }
                if pairs_classes(matches@[i as int].0) && matches@[i as int].1 == Some(id) {
                    assert(matches@.take(i + 1)[i as int] == matches@[i as int]);
                }
            }
        }
        let pairs = status == MatchStatus::Matched || status == MatchStatus::LowConfidence || status
            == MatchStatus::Conflict || status == MatchStatus::SemanticBreak;
        match new_id {
            Some(id) => {
                if pairs {
                    taken.insert(id, true);
                }
            },
            None => {},
        }
        i = i + 1;
    }
    proof {
        assert(matches@.take(matches@.len() as int) =~= matches@);
    }
    let mut r: Vec<usize> = Vec::new();
    let mut j: usize = 0;
    while j < ids.len()
        invariant
            j <= ids.len(),
            forall|id: usize| #[trigger] taken@.contains_key(id) == paired(matches@, id),
            r@ == unpaired(matches@, ids@.take(j as int)),
        decreases ids.len() - j,
    {
        proof {
            assert(ids@.take(j + 1).drop_last() =~= ids@.take(j as int));
            assert(ids@.take(j + 1).last() == ids@[j as int]);
        }
        if !taken.contains_key(&ids[j]) {
            r.push(ids[j]);
        }
        j = j + 1;
    }
    proof {
        assert(ids@.take(ids@.len() as int) =~= ids@);
    }
    r
}

} // verus!
