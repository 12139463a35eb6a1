//! Reference audit: checks that every class, method and field a source DEX refers to is defined
//! by the target app, and reports the references that are not.

use std::collections::BTreeMap;

use vstd::prelude::*;
use vstd::string::StrSliceExecFns;

use crate::chars::{blank, chars_equal, chars_start_with, decimal, has_prefix, is_blank, join, push_decimal,
    push_str, replace_char, str_chars, string_from_chars, strs};
use crate::dex::instructions::InstructionReference;
use crate::dex::raw::{FieldId, MethodId, RawDex};
use crate::dex::ParsedDex;
use crate::error::{Result, UnocRsError};
use crate::model::bump;
use crate::sorting::{lemma_sorted_set, sorted_set, sorted_unique_strings, strings_increasing};

verus! {

broadcast use vstd::std_specs::btree::group_btree_axioms, vstd::laws_cmp::group_laws_cmp;

/// The access flag of static members.
pub const ACC_STATIC: u32 = 0x0008;

/// How an invoke instruction dispatches.
#[derive(Debug, Clone, Copy, PartialEq, Eq)]
pub enum MethodDispatch {
    Virtual,
    Direct,
    Static,
}

/// What a reference refers to.
#[derive(Debug, Clone, Copy, PartialEq, Eq, PartialOrd, Ord)]
pub enum ReferenceKind {
    Class,
    Field,
    Method,
}

/// Why a reference does not resolve.
#[derive(Debug, Clone, Copy, PartialEq, Eq, PartialOrd, Ord)]
pub enum MissingReason {
    MissingOwner,
    MissingMethod,
    MissingField,
    ChangedPrototype,
    ChangedDescriptor,
    MemberKindMismatch,
}

/// The name of a reference kind in reports.
pub open spec fn kind_text(k: ReferenceKind) -> Seq<char> {
    match k {
        ReferenceKind::Class => "class"@,
        ReferenceKind::Field => "field"@,
        ReferenceKind::Method => "method"@,
    }
}

/// The name of a missing reason in reports.
pub open spec fn reason_text(r: MissingReason) -> Seq<char> {
    match r {
        MissingReason::MissingOwner => "missing_owner"@,
        MissingReason::MissingMethod => "missing_method"@,
        MissingReason::MissingField => "missing_field"@,
        MissingReason::ChangedPrototype => "changed_prototype"@,
        MissingReason::ChangedDescriptor => "changed_descriptor"@,
        MissingReason::MemberKindMismatch => "member_kind_mismatch"@,
    }
}

impl ReferenceKind {
    /// The name of this kind in reports.
    pub fn as_str(self) -> (r: &'static str)
        ensures
            r@ == kind_text(self),
    {
        match self {
            ReferenceKind::Class => {
                proof { reveal_strlit("class"); }
                "class"
            },
            ReferenceKind::Field => {
                proof { reveal_strlit("field"); }
                "field"
            },
            ReferenceKind::Method => {
                proof { reveal_strlit("method"); }
                "method"
            },
        }
    }
}

impl MissingReason {
    /// The name of this reason in reports.
    pub fn as_str(self) -> (r: &'static str)
        ensures
            r@ == reason_text(self),
    {
        match self {
            MissingReason::MissingOwner => "missing_owner",
            MissingReason::MissingMethod => "missing_method",
            MissingReason::MissingField => "missing_field",
            MissingReason::ChangedPrototype => "changed_prototype",
            MissingReason::ChangedDescriptor => "changed_descriptor",
            MissingReason::MemberKindMismatch => "member_kind_mismatch",
        }
    }
}

// ----- descriptors and opcodes -----

/// The number of `[` at the start of `s`.
pub open spec fn array_depth(s: Seq<char>) -> nat
    decreases s.len(),
{
    if s.len() > 0 && s[0] == '[' { 1 + array_depth(s.drop_first()) } else { 0 }
}

/// The object class a descriptor names, with array dimensions removed; none for primitives.
pub open spec fn object_descriptor_of(s: Seq<char>) -> Option<Seq<char>> {
    let t = s.skip(array_depth(s) as int);
    if t.len() > 0 && t[0] == 'L' { Some(t) } else { None }
}

proof fn lemma_array_depth(s: Seq<char>, i: int)
    requires
        0 <= i <= s.len(),
        forall|k: int| 0 <= k < i ==> s[k] == '[',
        i == s.len() || s[i] != '[',
    ensures
        array_depth(s) == i,
    decreases i,
{
    if i > 0 {
        lemma_array_depth(s.drop_first(), i - 1);
    }
}

/// The object class a descriptor names, with array dimensions removed; `None` for primitive
/// types and arrays of them.
pub fn object_descriptor(descriptor: &str) -> (r: Option<&str>)
    ensures
        match r {
            Some(t) => object_descriptor_of(descriptor@) == Some(t@),
            None => object_descriptor_of(descriptor@) is None,
        },
{
    let v = str_chars(descriptor);
    let mut i: usize = 0;
    while i < v.len() && v[i] == '['
        invariant
            i <= v.len(),
            v@ == descriptor@,
            forall|k: int| 0 <= k < i ==> v@[k] == '[',
        decreases v.len() - i,
    {
        i = i + 1;
    }
    proof {
        lemma_array_depth(v@, i as int);
    }
    if i < v.len() && v[i] == 'L' {
        Some(descriptor.substring_char(i, v.len()))
    } else {
        None
    }
}

/// How the invoke instruction with opcode `op` dispatches.
pub open spec fn dispatch_of(op: u8) -> MethodDispatch {
    if op == 0x71 || op == 0x77 {
        MethodDispatch::Static
    } else if op == 0x70 || op == 0x76 {
        MethodDispatch::Direct
    } else {
        MethodDispatch::Virtual
    }
}

/// How the invoke instruction with opcode `opcode` dispatches.
pub fn method_dispatch(opcode: u8) -> (r: MethodDispatch)
    ensures
        r == dispatch_of(opcode),
        (opcode == 0x71 || opcode == 0x77) ==> r == MethodDispatch::Static,
        (opcode == 0x70 || opcode == 0x76) ==> r == MethodDispatch::Direct,
        (opcode == 0x6e || opcode == 0x6f || opcode == 0x72 || opcode == 0x74 || opcode == 0x75 || opcode == 0x78)
            ==> r == MethodDispatch::Virtual,
{
    if opcode == 0x71 || opcode == 0x77 {
        MethodDispatch::Static
    } else if opcode == 0x70 || opcode == 0x76 {
        MethodDispatch::Direct
    } else {
        MethodDispatch::Virtual
    }
}

/// Every `/range` invoke dispatches as its plain form, six opcodes before it; `invoke-static`
/// calls are static, `invoke-direct` calls direct, and `invoke-virtual`, `invoke-super` and
/// `invoke-interface` calls virtual. So a static call, in either form, is served by exactly the
/// static definitions, and a direct call by the non-static direct ones.
pub proof fn lemma_invoke_dispatch(op: u8, def: MethodDefView, name: Seq<char>)
    requires
        0x6e <= op <= 0x72,
    ensures
        dispatch_of((op + 6) as u8) == dispatch_of(op),
        dispatch_of(op) == if op == 0x71 {
            MethodDispatch::Static
        } else if op == 0x70 {
            MethodDispatch::Direct
        } else {
            MethodDispatch::Virtual
        },
        op == 0x71 ==> (kind_matches(def, dispatch_of(op), name) <==> def.is_static) && (kind_matches(
            def,
            dispatch_of((op + 6) as u8),
            name,
        ) <==> def.is_static),
        op == 0x70 ==> (kind_matches(def, dispatch_of(op), name) <==> !def.is_static && def.is_direct) && (
        kind_matches(def, dispatch_of((op + 6) as u8), name) <==> !def.is_static && def.is_direct),
{
}

/// Whether a field instruction accesses a static field (`sget*` and `sput*`).
pub fn is_static_field_opcode(opcode: u8) -> (r: bool)
    ensures
        r == (0x60 <= opcode <= 0x6d),
{
    0x60 <= opcode && opcode <= 0x6d
}

/// `owner->name(P1P2)R`: how the audit spells a method reference.
pub open spec fn method_reference_text(owner: Seq<char>, name: Seq<char>, parameters: Seq<Seq<char>>,
    return_type: Seq<char>) -> Seq<char> {
    owner + "->"@ + name + "("@ + join(parameters, Seq::empty()) + ")"@ + return_type
}

/// `owner->name:T`: how the audit spells a field reference.
pub open spec fn field_reference_text(owner: Seq<char>, name: Seq<char>, field_type: Seq<char>) -> Seq<char> {
    owner + "->"@ + name + ":"@ + field_type
}

/// Spells a method reference as `owner->name(P1P2)R`.
pub fn format_method_reference(owner: &str, name: &str, parameters: &[String], return_type: &str) -> (r: String)
    ensures
        r@ == method_reference_text(owner@, name@, strs(parameters@), return_type@),
{
    let mut s = String::new();
    push_str(&mut s, owner);
    push_str(&mut s, "->");
    push_str(&mut s, name);
    push_str(&mut s, "(");
    let joined = crate::chars::join_strings(parameters, "");
    proof {
        reveal_strlit("");
        assert(""@ =~= Seq::<char>::empty());
    }
    assert(parameters@.map_values(|p: String| p@) == strs(parameters@));
    push_str(&mut s, joined.as_str());
    push_str(&mut s, ")");
    push_str(&mut s, return_type);
    s
}

/// Spells a field reference as `owner->name:T`.
pub fn format_field_reference(owner: &str, name: &str, field_type: &str) -> (r: String)
    ensures
        r@ == field_reference_text(owner@, name@, field_type@),
{
    let mut s = String::new();
    push_str(&mut s, owner);
    push_str(&mut s, "->");
    push_str(&mut s, name);
    push_str(&mut s, ":");
    push_str(&mut s, field_type);
    s
}

/// A table cell: tabs, newlines and carriage returns become spaces.
pub open spec fn tsv_text(s: Seq<char>) -> Seq<char> {
    s.map_values(|c: char| if c == '\t' || c == '\n' || c == '\r' { ' ' } else { c })
}

/// Makes `value` fit in one tab-separated cell.
pub fn tsv_cell(value: &str) -> (r: String)
    ensures
        r@ == tsv_text(value@),
{
    let v = str_chars(value);
    let mut r = String::new();
    let mut i: usize = 0;
    while i < v.len()
        invariant
            i <= v.len(),
            v@ == value@,
            r@ == tsv_text(v@.take(i as int)),
        decreases v.len() - i,
    {
        let c = v[i];
        r.push(if c == '\t' || c == '\n' || c == '\r' { ' ' } else { c });
        i = i + 1;
        assert(r@ =~= tsv_text(v@.take(i as int)));
    }
    assert(v@.take(v@.len() as int) =~= v@);
    r
}

// ----- prefix policy -----

/// The class prefixes the audit skips unless told otherwise: the platform's own packages.
pub open spec fn default_ignored_prefixes() -> Seq<Seq<char>> {
    seq!["Landroid/"@, "Landroidx/"@, "Lcom/android/"@, "Ldalvik/"@, "Lj$/"@, "Ljava/"@, "Ljavax/"@,
        "Lkotlin/"@, "Lkotlinx/"@, "Llibcore/"@, "Lorg/apache/http/"@, "Lorg/json/"@, "Lorg/w3c/dom/"@,
        "Lorg/xml/sax/"@, "Lorg/xmlpull/"@, "Lsun/"@]
}

fn default_ignored() -> (r: Vec<String>)
    ensures
        strs(r@) == default_ignored_prefixes(),
{
    let r = vec![
        "Landroid/".to_owned(), "Landroidx/".to_owned(), "Lcom/android/".to_owned(), "Ldalvik/".to_owned(),
        "Lj$/".to_owned(), "Ljava/".to_owned(), "Ljavax/".to_owned(), "Lkotlin/".to_owned(),
        "Lkotlinx/".to_owned(), "Llibcore/".to_owned(), "Lorg/apache/http/".to_owned(), "Lorg/json/".to_owned(),
        "Lorg/w3c/dom/".to_owned(), "Lorg/xml/sax/".to_owned(), "Lorg/xmlpull/".to_owned(), "Lsun/".to_owned(),
    ];
    assert(strs(r@) =~= default_ignored_prefixes());
    r
}

/// Which class prefixes the audit skips.
#[derive(Debug)]
pub struct PrefixPolicy {
    ignored: Vec<String>,
    included: Vec<String>,
}

/// The first blank prefix of `prefixes`, if any.
pub open spec fn first_blank(prefixes: Seq<Seq<char>>) -> Option<Seq<char>>
    decreases prefixes.len(),
{
    if prefixes.len() == 0 {
        None
    } else if is_blank(prefixes[0]) {
        Some(prefixes[0])
    } else {
        first_blank(prefixes.drop_first())
    }
}

fn validate_prefixes(option: &str, prefixes: &[String]) -> (r: Result<()>)
    ensures
        match first_blank(strs(prefixes@)) {
            Some(p) => r matches Err(UnocRsError::InvalidAuditPrefix { option: o, prefix }) && o@ == option@
                && prefix@ == p,
            None => r is Ok,
        },
{
    let mut i: usize = 0;
    assert(strs(prefixes@).skip(0) =~= strs(prefixes@));
    while i < prefixes.len()
        invariant
            i <= prefixes.len(),
            first_blank(strs(prefixes@)) == first_blank(strs(prefixes@).skip(i as int)),
        decreases prefixes.len() - i,
    {
        assert(strs(prefixes@).skip(i as int)[0] == prefixes@[i as int]@);
        if blank(prefixes[i].as_str()) {
            return Err(UnocRsError::InvalidAuditPrefix { option: option.to_owned(), prefix: prefixes[i].clone() });
        }
        assert(strs(prefixes@).skip(i as int).drop_first() =~= strs(prefixes@).skip(i + 1));
        i = i + 1;
    }
    assert(strs(prefixes@).skip(i as int) =~= Seq::<Seq<char>>::empty());
    Ok(())
}

impl PrefixPolicy {
    /// The prefixes skipped, in order, each once.
    pub closed spec fn ignored_prefixes(&self) -> Seq<Seq<char>> {
        strs(self.ignored@)
    }

    /// The prefixes audited even when they are skipped, in order, each once.
    pub closed spec fn included_prefixes(&self) -> Seq<Seq<char>> {
        strs(self.included@)
    }

    /// A policy skipping the platform's prefixes and `ignored`, except for `included`. A blank
    /// prefix in either list is an error naming its option.
    pub fn new(ignored: &[String], included: &[String]) -> (r: Result<Self>)
        ensures
            match (first_blank(strs(ignored@)), first_blank(strs(included@))) {
                (Some(p), _) => r matches Err(UnocRsError::InvalidAuditPrefix { option, prefix })
                    && option@ == "--ignore-prefix"@ && prefix@ == p,
                (None, Some(p)) => r matches Err(UnocRsError::InvalidAuditPrefix { option, prefix })
                    && option@ == "--include-prefix"@ && prefix@ == p,
                (None, None) => r matches Ok(policy) && strings_increasing(policy.ignored_prefixes())
                    && strings_increasing(policy.included_prefixes())
                    && (forall|x: Seq<char>| policy.ignored_prefixes().contains(x) <==> (
                        default_ignored_prefixes().contains(x) || strs(ignored@).contains(x)))
                    && (forall|x: Seq<char>| policy.included_prefixes().contains(x) <==> strs(included@).contains(x)),
            },
    {
        validate_prefixes("--ignore-prefix", ignored)?;
        validate_prefixes("--include-prefix", included)?;
        let mut all_ignored = default_ignored();
        let ghost defaults = all_ignored@;
        let mut i: usize = 0;
        while i < ignored.len()
            invariant
                i <= ignored.len(),
                strs(defaults) == default_ignored_prefixes(),
                all_ignored@ == defaults + ignored@.take(i as int),
            decreases ignored.len() - i,
        {
            all_ignored.push(ignored[i].clone());
            i = i + 1;
            assert(all_ignored@ =~= defaults + ignored@.take(i as int));
        }
        assert(ignored@.take(ignored@.len() as int) =~= ignored@);
        assert(strs(all_ignored@) =~= default_ignored_prefixes() + strs(ignored@));
        let ghost joined = strs(all_ignored@);
        let ignored_sorted = sorted_unique_strings(all_ignored);
        let mut included_all: Vec<String> = Vec::new();
        let mut k: usize = 0;
        while k < included.len()
            invariant
                k <= included.len(),
                included_all@ == included@.take(k as int),
            decreases included.len() - k,
        {
            included_all.push(included[k].clone());
            k = k + 1;
            assert(included_all@ =~= included@.take(k as int));
        }
        assert(included@.take(included@.len() as int) =~= included@);
        let included_sorted = sorted_unique_strings(included_all);
        let policy = PrefixPolicy { ignored: ignored_sorted, included: included_sorted };
        assert forall|x: Seq<char>| policy.ignored_prefixes().contains(x) <==> (
            default_ignored_prefixes().contains(x) || strs(ignored@).contains(x)) by {
            let d = default_ignored_prefixes();
            let g = strs(ignored@);
            if joined.contains(x) {
                let j = choose|j: int| 0 <= j < joined.len() && joined[j] == x;
                if j < d.len() {
                    assert(d[j] == x);
                } else {
                    assert(g[j - d.len()] == x);
                }
            }
            if d.contains(x) {
                let j = choose|j: int| 0 <= j < d.len() && d[j] == x;
                assert(joined[j] == x);
            }
            if g.contains(x) {
                let j = choose|j: int| 0 <= j < g.len() && g[j] == x;
                assert(joined[j + d.len()] == x);
            }
        }
        Ok(policy)
    }

    /// Whether references to the class `descriptor` (or arrays of it) are skipped: primitives
    /// always are; classes under an included prefix never are; others when under a skipped prefix.
    pub open spec fn skips(&self, descriptor: Seq<char>) -> bool {
        match object_descriptor_of(descriptor) {
            None => true,
            Some(d) => !(exists|i: int| 0 <= i < self.included_prefixes().len()
                && has_prefix(d, #[trigger] self.included_prefixes()[i]))
                && exists|i: int| 0 <= i < self.ignored_prefixes().len()
                && has_prefix(d, #[trigger] self.ignored_prefixes()[i]),
        }
    }

    /// Whether references to the class `descriptor` are skipped.
    pub fn excludes(&self, descriptor: &str) -> (r: bool)
        ensures
            r == self.skips(descriptor@),
    {
        let d = match object_descriptor(descriptor) {
            Some(d) => d,
            None => return true,
        };
        let chars = str_chars(d);
        let mut i: usize = 0;
        while i < self.included.len()
            invariant
                i <= self.included.len(),
                chars@ == d@,
                object_descriptor_of(descriptor@) == Some(d@),
                forall|k: int| 0 <= k < i ==> !has_prefix(d@, #[trigger] self.included_prefixes()[k]),
            decreases self.included.len() - i,
        {
            if chars_start_with(chars.as_slice(), str_chars(self.included[i].as_str()).as_slice()) {
                assert(has_prefix(d@, self.included_prefixes()[i as int]));
                return false;
            }
            i = i + 1;
        }
        let mut j: usize = 0;
        while j < self.ignored.len()
            invariant
                j <= self.ignored.len(),
                chars@ == d@,
                object_descriptor_of(descriptor@) == Some(d@),
                forall|k: int| 0 <= k < self.included@.len() ==> !has_prefix(d@, #[trigger] self.included_prefixes()[k]),
                forall|k: int| 0 <= k < j ==> !has_prefix(d@, #[trigger] self.ignored_prefixes()[k]),
            decreases self.ignored.len() - j,
        {
            if chars_start_with(chars.as_slice(), str_chars(self.ignored[j].as_str()).as_slice()) {
                assert(has_prefix(d@, self.ignored_prefixes()[j as int]));
                return true;
            }
            j = j + 1;
        }
        false
    }
}


// ----- DEX locations -----

/// Where a DEX file audited or indexed comes from.
#[derive(Debug, Clone, PartialEq, Eq)]
pub struct DexLocation {
    pub apk_part: String,
    pub dex_file: String,
    pub standalone: bool,
}

impl DexLocation {
    /// A DEX file of the target bundle.
    pub fn bundle(apk_part: String, dex_file: String) -> (r: Self)
        ensures
            r.apk_part@ == apk_part@,
            r.dex_file@ == dex_file@,
            !r.standalone,
    {
        DexLocation { apk_part, dex_file, standalone: false }
    }

    /// A standalone reference DEX file, shown as `path`.
    pub fn standalone(path: &str) -> (r: Self)
        ensures
            r.apk_part@ == "standalone"@,
            r.dex_file@ == path@,
            r.standalone,
    {
        DexLocation { apk_part: "standalone".to_owned(), dex_file: path.to_owned(), standalone: true }
    }

    /// `part!dex`.
    pub open spec fn qualified(&self) -> Seq<char> {
        self.apk_part@ + "!"@ + self.dex_file@
    }

    /// The location spelled `part!dex`.
    pub fn qualified_name(&self) -> (r: String)
        ensures
            r@ == self.qualified(),
    {
        let mut s = String::new();
        push_str(&mut s, self.apk_part.as_str());
        push_str(&mut s, "!");
        push_str(&mut s, self.dex_file.as_str());
        s
    }
}

/// Whether a `--source-dex` selector names this location, by DEX file name or as `part!dex`.
pub fn source_selector_matches(selector: &str, location: &DexLocation) -> (r: bool)
    ensures
        r == (selector@ == location.dex_file@ || selector@ == location.qualified()),
{
    let s = str_chars(selector);
    if chars_equal(s.as_slice(), str_chars(location.dex_file.as_str()).as_slice()) {
        return true;
    }
    let q = location.qualified_name();
    chars_equal(s.as_slice(), str_chars(q.as_str()).as_slice())
}

// ----- source completeness -----

/// The problem with the declared fields `fields[i..]` of class `owner`: the first whose index
/// is past the field table.
pub open spec fn field_index_problem(raw: RawDex, owner: Seq<char>, fields: Seq<crate::dex::class_data::EncodedField>,
    i: nat) -> Option<Seq<char>>
    decreases fields.len() - i,
{
    if i >= fields.len() {
        None
    } else if (fields[i as int].field_idx as int) >= raw.fields@.len() {
        Some(owner + ": declared field index "@ + decimal(fields[i as int].field_idx as nat) + " is out of range"@)
    } else {
        field_index_problem(raw, owner, fields, i + 1)
    }
}

/// The problem with the references `refs[i..]` of kind `kind` into a table of `count` entries.
pub open spec fn reference_problem(owner: Seq<char>, code_off: u32, kind: Seq<char>, refs: Seq<InstructionReference>,
    count: nat, i: nat) -> Option<Seq<char>>
    decreases refs.len() - i,
{
    if i >= refs.len() {
        None
    } else if refs[i as int].index >= count {
        Some(owner + "@code_off="@ + decimal(code_off as nat) + ": "@ + kind + " reference index "@
            + decimal(refs[i as int].index as nat) + " at code-unit "@ + decimal(refs[i as int].offset_code_unit as nat)
            + " is out of range"@)
    } else {
        reference_problem(owner, code_off, kind, refs, count, i + 1)
    }
}

/// The problem with the method body at `code_off` of a method of class `owner`.
pub open spec fn code_problem(raw: RawDex, owner: Seq<char>, code_off: u32) -> Option<Seq<char>> {
    if code_off == 0 {
        None
    } else if !raw.code_items@.dom().contains(code_off) {
        Some(owner + ": missing code item at offset "@ + decimal(code_off as nat))
    } else {
        let s = raw.code_items@[code_off].instruction_summary;
        match reference_problem(owner, code_off, "type"@, s.type_ref_uses@, raw.types@.len(), 0) {
            Some(t) => Some(t),
            None => match reference_problem(owner, code_off, "method"@, s.method_ref_uses@, raw.methods@.len(), 0) {
                Some(t) => Some(t),
                None => reference_problem(owner, code_off, "field"@, s.field_ref_uses@, raw.fields@.len(), 0),
            },
        }
    }
}

/// The problem with the declared methods `methods[i..]` of class `owner`.
pub open spec fn method_problem(raw: RawDex, owner: Seq<char>, methods: Seq<crate::dex::class_data::EncodedMethod>,
    i: nat) -> Option<Seq<char>>
    decreases methods.len() - i,
{
    if i >= methods.len() {
        None
    } else if (methods[i as int].method_idx as int) >= raw.methods@.len() {
        Some(owner + ": declared method index "@ + decimal(methods[i as int].method_idx as nat) + " is out of range"@)
    } else {
        match code_problem(raw, owner, methods[i as int].code_off) {
            Some(t) => Some(t),
            None => method_problem(raw, owner, methods, i + 1),
        }
    }
}

/// The problem with class definitions `i..` of `raw`.
pub open spec fn class_problem(raw: RawDex, i: nat) -> Option<Seq<char>>
    decreases raw.classes@.len() - i,
{
    if i >= raw.classes@.len() {
        None
    } else {
        let c = raw.classes@[i as int];
        let own = match c.class_data {
            None => None,
            Some(d) => {
                let owner = c.class_type@;
                match field_index_problem(raw, owner, d.static_fields@, 0) {
                    Some(t) => Some(t),
                    None => match field_index_problem(raw, owner, d.instance_fields@, 0) {
                        Some(t) => Some(t),
                        None => match method_problem(raw, owner, d.direct_methods@, 0) {
                            Some(t) => Some(t),
                            None => method_problem(raw, owner, d.virtual_methods@, 0),
                        },
                    },
                }
            },
        };
        match own {
            Some(t) => Some(t),
            None => class_problem(raw, i + 1),
        }
    }
}

/// Every use in `refs` points inside a table of `count` entries.
pub open spec fn refs_in_range(refs: Seq<InstructionReference>, count: nat) -> bool {
    forall|k: int| 0 <= k < refs.len() ==> (#[trigger] refs[k]).index < count
}

/// A method body offset of `raw` is complete: no body, or a parsed body whose type, method and
/// field uses all point inside their tables.
pub open spec fn code_complete(raw: RawDex, code_off: u32) -> bool {
    code_off == 0 || (raw.code_items@.dom().contains(code_off) && {
        let s = raw.code_items@[code_off].instruction_summary;
        &&& refs_in_range(s.type_ref_uses@, raw.types@.len())
        &&& refs_in_range(s.method_ref_uses@, raw.methods@.len())
        &&& refs_in_range(s.field_ref_uses@, raw.fields@.len())
    })
}

/// Every declared field points inside the field table.
pub open spec fn fields_complete(raw: RawDex, fields: Seq<crate::dex::class_data::EncodedField>) -> bool {
    forall|k: int| 0 <= k < fields.len() ==> ((#[trigger] fields[k]).field_idx as int) < raw.fields@.len()
}

/// Every declared method points inside the method table and has a complete body offset.
pub open spec fn methods_complete(raw: RawDex, methods: Seq<crate::dex::class_data::EncodedMethod>) -> bool {
    forall|k: int| 0 <= k < methods.len() ==> ((#[trigger] methods[k]).method_idx as int) < raw.methods@.len()
        && code_complete(raw, methods[k].code_off)
}

/// A class definition is complete: it has no class data, or all its members are.
pub open spec fn class_complete(raw: RawDex, c: crate::dex::raw::ClassDef) -> bool {
    match c.class_data {
        None => true,
        Some(d) => fields_complete(raw, d.static_fields@) && fields_complete(raw, d.instance_fields@)
            && methods_complete(raw, d.direct_methods@) && methods_complete(raw, d.virtual_methods@),
    }
}

/// A parsed DEX file that can be audited: no parse warning, and every class complete.
pub open spec fn audit_source_complete(raw: RawDex) -> bool {
    raw.warnings@.len() == 0 && forall|i: int| 0 <= i < raw.classes@.len() ==> class_complete(
        raw,
        #[trigger] raw.classes@[i],
    )
}

proof fn lemma_field_index_problem(raw: RawDex, owner: Seq<char>, fields: Seq<crate::dex::class_data::EncodedField>,
    i: nat)
    ensures
        field_index_problem(raw, owner, fields, i) is None <==> forall|k: int| i <= k < fields.len() ==> ((
            #[trigger] fields[k]).field_idx as int) < raw.fields@.len(),
    decreases fields.len() - i,
{
    if i < fields.len() {
        lemma_field_index_problem(raw, owner, fields, i + 1);
    }
}

proof fn lemma_reference_problem(owner: Seq<char>, code_off: u32, kind: Seq<char>, refs: Seq<InstructionReference>,
    count: nat, i: nat)
    ensures
        reference_problem(owner, code_off, kind, refs, count, i) is None <==> forall|k: int| i <= k < refs.len()
            ==> (#[trigger] refs[k]).index < count,
    decreases refs.len() - i,
{
    if i < refs.len() {
        lemma_reference_problem(owner, code_off, kind, refs, count, i + 1);
    }
}

proof fn lemma_code_problem(raw: RawDex, owner: Seq<char>, code_off: u32)
    ensures
        code_problem(raw, owner, code_off) is None <==> code_complete(raw, code_off),
{
    if code_off != 0 && raw.code_items@.dom().contains(code_off) {
        let s = raw.code_items@[code_off].instruction_summary;
        lemma_reference_problem(owner, code_off, "type"@, s.type_ref_uses@, raw.types@.len(), 0);
        lemma_reference_problem(owner, code_off, "method"@, s.method_ref_uses@, raw.methods@.len(), 0);
        lemma_reference_problem(owner, code_off, "field"@, s.field_ref_uses@, raw.fields@.len(), 0);
    }
}

proof fn lemma_method_problem(raw: RawDex, owner: Seq<char>, methods: Seq<crate::dex::class_data::EncodedMethod>,
    i: nat)
    ensures
        method_problem(raw, owner, methods, i) is None <==> forall|k: int| i <= k < methods.len() ==> ((
            #[trigger] methods[k]).method_idx as int) < raw.methods@.len() && code_complete(raw, methods[k].code_off),
    decreases methods.len() - i,
{
    if i < methods.len() {
        lemma_code_problem(raw, owner, methods[i as int].code_off);
        lemma_method_problem(raw, owner, methods, i + 1);
    }
}

proof fn lemma_class_problem(raw: RawDex, i: nat)
    ensures
        class_problem(raw, i) is None <==> forall|k: int| i <= k < raw.classes@.len() ==> class_complete(
            raw,
            #[trigger] raw.classes@[k],
        ),
    decreases raw.classes@.len() - i,
{
    if i < raw.classes@.len() {
        let c = raw.classes@[i as int];
        if let Some(d) = c.class_data {
            let owner = c.class_type@;
            lemma_field_index_problem(raw, owner, d.static_fields@, 0);
            lemma_field_index_problem(raw, owner, d.instance_fields@, 0);
            lemma_method_problem(raw, owner, d.direct_methods@, 0);
            lemma_method_problem(raw, owner, d.virtual_methods@, 0);
        }
        lemma_class_problem(raw, i + 1);
    }
}

/// A parsed DEX file is accepted as an audit source exactly when it has no parse warning and
/// every declared field and method, every method body offset and every type, method and field
/// use in those bodies points inside its table.
pub proof fn lemma_audit_source_accepted(raw: RawDex)
    ensures
        audit_source_problem(raw) is None <==> audit_source_complete(raw),
{
    lemma_class_problem(raw, 0);
}

/// Why a parsed DEX file cannot be audited: a parse warning, or a declared member or code
/// reference that points past its table.
pub open spec fn audit_source_problem(raw: RawDex) -> Option<Seq<char>> {
    if raw.warnings@.len() > 0 {
        let w = raw.warnings@[0];
        Some(decimal(raw.warnings@.len() as nat) + " warning(s); "@ + w.origin@ + ": "@ + w.message@)
    } else {
        class_problem(raw, 0)
    }
}

fn check_field_indices(raw: &RawDex, owner: &String, fields: &Vec<crate::dex::class_data::EncodedField>)
    -> (r: Option<String>)
    ensures
        crate::chars::opt_str(r) == field_index_problem(*raw, owner@, fields@, 0),
{
    let mut i: usize = 0;
    while i < fields.len()
        invariant
            i <= fields.len(),
            field_index_problem(*raw, owner@, fields@, 0) == field_index_problem(*raw, owner@, fields@, i as nat),
        decreases fields.len() - i,
    {
        if (fields[i].field_idx as usize) >= raw.fields.len() {
            let mut s = String::new();
            push_str(&mut s, owner.as_str());
            push_str(&mut s, ": declared field index ");
            push_decimal(&mut s, fields[i].field_idx as u64);
            push_str(&mut s, " is out of range");
            return Some(s);
        }
        i = i + 1;
    }
    None
}

fn check_references(owner: &String, code_off: u32, kind: &str, refs: &Vec<InstructionReference>, count: usize)
    -> (r: Option<String>)
    ensures
        crate::chars::opt_str(r) == reference_problem(owner@, code_off, kind@, refs@, count as nat, 0),
{
    let mut i: usize = 0;
    while i < refs.len()
        invariant
            i <= refs.len(),
            reference_problem(owner@, code_off, kind@, refs@, count as nat, 0) == reference_problem(owner@, code_off,
                kind@, refs@, count as nat, i as nat),
        decreases refs.len() - i,
    {
        if (refs[i].index as usize) >= count {
            let mut s = String::new();
            push_str(&mut s, owner.as_str());
            push_str(&mut s, "@code_off=");
            push_decimal(&mut s, code_off as u64);
            push_str(&mut s, ": ");
            push_str(&mut s, kind);
            push_str(&mut s, " reference index ");
            push_decimal(&mut s, refs[i].index as u64);
            push_str(&mut s, " at code-unit ");
            push_decimal(&mut s, refs[i].offset_code_unit as u64);
            push_str(&mut s, " is out of range");
            return Some(s);
        }
        i = i + 1;
    }
    None
}

fn check_code(raw: &RawDex, owner: &String, code_off: u32) -> (r: Option<String>)
    ensures
        crate::chars::opt_str(r) == code_problem(*raw, owner@, code_off),
{
    if code_off == 0 {
        return None;
    }
    let code = match raw.code_items.get(&code_off) {
        Some(c) => c,
        None => {
            let mut s = String::new();
            push_str(&mut s, owner.as_str());
            push_str(&mut s, ": missing code item at offset ");
            push_decimal(&mut s, code_off as u64);
            return Some(s);
        },
    };
    let summary = &code.instruction_summary;
    proof {
        reveal_strlit("type");
        reveal_strlit("method");
        reveal_strlit("field");
    }
    if let Some(t) = check_references(owner, code_off, "type", &summary.type_ref_uses, raw.types.len()) {
        return Some(t);
    }
    if let Some(t) = check_references(owner, code_off, "method", &summary.method_ref_uses, raw.methods.len()) {
        return Some(t);
    }
    check_references(owner, code_off, "field", &summary.field_ref_uses, raw.fields.len())
}

fn check_methods(raw: &RawDex, owner: &String, methods: &Vec<crate::dex::class_data::EncodedMethod>)
    -> (r: Option<String>)
    ensures
        crate::chars::opt_str(r) == method_problem(*raw, owner@, methods@, 0),
{
    let mut i: usize = 0;
    while i < methods.len()
        invariant
            i <= methods.len(),
            method_problem(*raw, owner@, methods@, 0) == method_problem(*raw, owner@, methods@, i as nat),
        decreases methods.len() - i,
    {
        let m = methods[i];
        if (m.method_idx as usize) >= raw.methods.len() {
            let mut s = String::new();
            push_str(&mut s, owner.as_str());
            push_str(&mut s, ": declared method index ");
            push_decimal(&mut s, m.method_idx as u64);
            push_str(&mut s, " is out of range");
            return Some(s);
        }
        if let Some(t) = check_code(raw, owner, m.code_off) {
            return Some(t);
        }
        i = i + 1;
    }
    None
}

/// Refuses to audit a DEX file that was not parsed completely: one with parse warnings, or
/// whose classes declare members or make code references past the tables.
pub fn validate_audit_source(raw: &RawDex, location: &DexLocation) -> (r: Result<()>)
    ensures
        match audit_source_problem(*raw) {
            None => r is Ok,
            Some(t) => r matches Err(UnocRsError::IncompleteAuditSource { origin, reason })
                && origin@ == location.qualified() && reason@ == t,
        },
{
    if raw.warnings.len() > 0 {
        let w = &raw.warnings[0];
        let mut s = String::new();
        push_decimal(&mut s, raw.warnings.len() as u64);
        push_str(&mut s, " warning(s); ");
        push_str(&mut s, w.origin.as_str());
        push_str(&mut s, ": ");
        push_str(&mut s, w.message.as_str());
        return Err(UnocRsError::IncompleteAuditSource { origin: location.qualified_name(), reason: s });
    }
    let mut i: usize = 0;
    while i < raw.classes.len()
        invariant
            i <= raw.classes.len(),
            raw.warnings@.len() == 0,
            class_problem(*raw, 0) == class_problem(*raw, i as nat),
        decreases raw.classes.len() - i,
    {
        let class = &raw.classes[i];
        if let Some(data) = &class.class_data {
            let owner = &class.class_type;
            let problem = match check_field_indices(raw, owner, &data.static_fields) {
                Some(t) => Some(t),
                None => match check_field_indices(raw, owner, &data.instance_fields) {
                    Some(t) => Some(t),
                    None => match check_methods(raw, owner, &data.direct_methods) {
                        Some(t) => Some(t),
                        None => check_methods(raw, owner, &data.virtual_methods),
                    },
                },
            };
            if let Some(t) = problem {
                return Err(UnocRsError::IncompleteAuditSource { origin: location.qualified_name(), reason: t });
            }
        }
        i = i + 1;
    }
    Ok(())
}


// ----- definitions -----

/// A method some indexed class defines; `origin` numbers the DEX location it came from.
#[derive(Debug, Clone, PartialEq, Eq)]
pub struct MethodDefinition {
    pub origin: usize,
    pub name: String,
    pub parameters: Vec<String>,
    pub return_type: String,
    pub is_static: bool,
    pub is_direct: bool,
}

/// A field some indexed class defines.
#[derive(Debug, Clone, PartialEq, Eq)]
pub struct FieldDefinition {
    pub origin: usize,
    pub name: String,
    pub field_type: String,
    pub is_static: bool,
}

/// An indexed class: where it was first defined, its supertypes and its members.
#[derive(Debug, Clone, PartialEq, Eq)]
pub struct ClassDefinition {
    pub origin: usize,
    pub superclass: Option<String>,
    pub interfaces: Vec<String>,
    pub methods: Vec<MethodDefinition>,
    pub fields: Vec<FieldDefinition>,
}

pub struct MethodDefView {
    pub origin: usize,
    pub name: Seq<char>,
    pub parameters: Seq<Seq<char>>,
    pub return_type: Seq<char>,
    pub is_static: bool,
    pub is_direct: bool,
}

impl View for MethodDefinition {
    type V = MethodDefView;

    open spec fn view(&self) -> MethodDefView {
        MethodDefView {
            origin: self.origin,
            name: self.name@,
            parameters: strs(self.parameters@),
            return_type: self.return_type@,
            is_static: self.is_static,
            is_direct: self.is_direct,
        }
    }
}

pub struct FieldDefView {
    pub origin: usize,
    pub name: Seq<char>,
    pub field_type: Seq<char>,
    pub is_static: bool,
}

impl View for FieldDefinition {
    type V = FieldDefView;

    open spec fn view(&self) -> FieldDefView {
        FieldDefView { origin: self.origin, name: self.name@, field_type: self.field_type@, is_static: self.is_static }
    }
}

pub struct ClassDefView {
    pub origin: usize,
    pub superclass: Option<Seq<char>>,
    pub interfaces: Seq<Seq<char>>,
    pub methods: Seq<MethodDefView>,
    pub fields: Seq<FieldDefView>,
}

pub open spec fn method_views(v: Seq<MethodDefinition>) -> Seq<MethodDefView> {
    v.map_values(|m: MethodDefinition| m@)
}

pub open spec fn field_views(v: Seq<FieldDefinition>) -> Seq<FieldDefView> {
    v.map_values(|f: FieldDefinition| f@)
}

impl View for ClassDefinition {
    type V = ClassDefView;

    open spec fn view(&self) -> ClassDefView {
        ClassDefView {
            origin: self.origin,
            superclass: crate::chars::opt_str(self.superclass),
            interfaces: strs(self.interfaces@),
            methods: method_views(self.methods@),
            fields: field_views(self.fields@),
        }
    }
}

fn copy_method_definition(m: &MethodDefinition) -> (r: MethodDefinition)
    ensures
        r@ == m@,
{
    MethodDefinition {
        origin: m.origin,
        name: m.name.clone(),
        parameters: crate::chars::copy_strings(&m.parameters),
        return_type: m.return_type.clone(),
        is_static: m.is_static,
        is_direct: m.is_direct,
    }
}

fn copy_field_definition(f: &FieldDefinition) -> (r: FieldDefinition)
    ensures
        r@ == f@,
{
    FieldDefinition { origin: f.origin, name: f.name.clone(), field_type: f.field_type.clone(), is_static: f.is_static }
}

/// The definitions of the declared fields `enc[i..]` that name an entry of the field table.
pub open spec fn field_definitions_from(raw: RawDex, enc: Seq<crate::dex::class_data::EncodedField>, is_static: bool,
    origin: usize, i: nat, acc: Seq<FieldDefView>) -> Seq<FieldDefView>
    decreases enc.len() - i,
{
    if i >= enc.len() {
        acc
    } else if (enc[i as int].field_idx as int) < raw.fields@.len() {
        let f = raw.fields@[enc[i as int].field_idx as int];
        field_definitions_from(raw, enc, is_static, origin, i + 1,
            acc.push(FieldDefView { origin, name: f.name@, field_type: f.field_type@, is_static }))
    } else {
        field_definitions_from(raw, enc, is_static, origin, i + 1, acc)
    }
}

/// The definitions of the declared methods `enc[i..]` that name an entry of the method table.
pub open spec fn method_definitions_from(raw: RawDex, enc: Seq<crate::dex::class_data::EncodedMethod>,
    is_direct: bool, origin: usize, i: nat, acc: Seq<MethodDefView>) -> Seq<MethodDefView>
    decreases enc.len() - i,
{
    if i >= enc.len() {
        acc
    } else if (enc[i as int].method_idx as int) < raw.methods@.len() {
        let m = raw.methods@[enc[i as int].method_idx as int]@;
        method_definitions_from(raw, enc, is_direct, origin, i + 1, acc.push(MethodDefView {
            origin,
            name: m.name,
            parameters: m.proto.parameters,
            return_type: m.proto.return_type,
            is_static: enc[i as int].access_flags & ACC_STATIC != 0,
            is_direct,
        }))
    } else {
        method_definitions_from(raw, enc, is_direct, origin, i + 1, acc)
    }
}

/// The definition class `c` of `raw` gives, attributed to location `origin`: static then
/// instance fields, direct then virtual methods, skipping members that name no table entry.
pub open spec fn class_definition_of(raw: RawDex, c: crate::dex::raw::ClassDef, origin: usize) -> ClassDefView {
    let (methods, fields) = match c.class_data {
        None => (Seq::empty(), Seq::empty()),
        Some(d) => {
            let f1 = field_definitions_from(raw, d.static_fields@, true, origin, 0, Seq::empty());
            let f2 = field_definitions_from(raw, d.instance_fields@, false, origin, 0, f1);
            let m1 = method_definitions_from(raw, d.direct_methods@, true, origin, 0, Seq::empty());
            let m2 = method_definitions_from(raw, d.virtual_methods@, false, origin, 0, m1);
            (m2, f2)
        },
    };
    ClassDefView {
        origin,
        superclass: crate::chars::opt_str(c.superclass),
        interfaces: strs(c.interfaces@),
        methods,
        fields,
    }
}

fn push_field_definitions(raw: &RawDex, enc: &Vec<crate::dex::class_data::EncodedField>, is_static: bool, origin: usize,
    out: &mut Vec<FieldDefinition>)
    ensures
        field_views(final(out)@) == field_definitions_from(*raw, enc@, is_static, origin, 0, field_views(old(out)@)),
{
    let ghost start = field_views(old(out)@);
    let mut i: usize = 0;
    while i < enc.len()
        invariant
            i <= enc.len(),
            field_definitions_from(*raw, enc@, is_static, origin, 0, start) == field_definitions_from(*raw, enc@,
                is_static, origin, i as nat, field_views(out@)),
        decreases enc.len() - i,
    {
        let e = enc[i];
        if (e.field_idx as usize) < raw.fields.len() {
            let f = &raw.fields[e.field_idx as usize];
            let ghost prev = out@;
            out.push(FieldDefinition { origin, name: f.name.clone(), field_type: f.field_type.clone(), is_static });
            assert(field_views(out@) =~= field_views(prev).push(FieldDefView { origin, name: f.name@,
                field_type: f.field_type@, is_static }));
        }
        i = i + 1;
    }
}

fn push_method_definitions(raw: &RawDex, enc: &Vec<crate::dex::class_data::EncodedMethod>, is_direct: bool,
    origin: usize, out: &mut Vec<MethodDefinition>)
    ensures
        method_views(final(out)@) == method_definitions_from(*raw, enc@, is_direct, origin, 0,
            method_views(old(out)@)),
{
    let ghost start = method_views(old(out)@);
    let mut i: usize = 0;
    while i < enc.len()
        invariant
            i <= enc.len(),
            method_definitions_from(*raw, enc@, is_direct, origin, 0, start) == method_definitions_from(*raw, enc@,
                is_direct, origin, i as nat, method_views(out@)),
        decreases enc.len() - i,
    {
        let e = enc[i];
        if (e.method_idx as usize) < raw.methods.len() {
            let m = &raw.methods[e.method_idx as usize];
            let ghost prev = out@;
            out.push(MethodDefinition {
                origin,
                name: m.name.clone(),
                parameters: crate::chars::copy_strings(&m.proto.parameters),
                return_type: m.proto.return_type.clone(),
                is_static: e.access_flags & ACC_STATIC != 0,
                is_direct,
            });
            assert(method_views(out@) =~= method_views(prev).push(MethodDefView {
                origin,
                name: m@.name,
                parameters: m@.proto.parameters,
                return_type: m@.proto.return_type,
                is_static: e.access_flags & ACC_STATIC != 0,
                is_direct,
            }));
        }
        i = i + 1;
    }
}

/// The definition of class `class` of `raw`, attributed to location `origin`.
pub fn build_class_definition(raw: &RawDex, class: &crate::dex::raw::ClassDef, origin: usize) -> (r: ClassDefinition)
    ensures
        r@ == class_definition_of(*raw, *class, origin),
{
    let mut methods: Vec<MethodDefinition> = Vec::new();
    let mut fields: Vec<FieldDefinition> = Vec::new();
    assert(method_views(methods@) =~= Seq::<MethodDefView>::empty());
    assert(field_views(fields@) =~= Seq::<FieldDefView>::empty());
    if let Some(data) = &class.class_data {
        push_field_definitions(raw, &data.static_fields, true, origin, &mut fields);
        push_field_definitions(raw, &data.instance_fields, false, origin, &mut fields);
        push_method_definitions(raw, &data.direct_methods, true, origin, &mut methods);
        push_method_definitions(raw, &data.virtual_methods, false, origin, &mut methods);
    }
    ClassDefinition {
        origin,
        superclass: crate::chars::copy_opt_string(&class.superclass),
        interfaces: crate::chars::copy_strings(&class.interfaces),
        methods,
        fields,
    }
}


// ----- merging definitions of a class defined more than once -----

/// `false` before `true`.
pub open spec fn bool_lt(a: bool, b: bool) -> bool {
    !a && b
}

/// Sequences of strings in lexicographic order, element by element.
pub open spec fn seqs_lt(p: Seq<Seq<char>>, q: Seq<Seq<char>>) -> bool
    decreases p.len(),
{
    if p.len() == 0 {
        q.len() > 0
    } else if q.len() == 0 {
        false
    } else if p[0] != q[0] {
        crate::chars::lex_lt(p[0], q[0])
    } else {
        seqs_lt(p.drop_first(), q.drop_first())
    }
}

/// The order of method definitions: by name, parameters, return type, then static and direct
/// flags (`false` first). The origin takes no part.
pub open spec fn method_key_lt(a: MethodDefView, b: MethodDefView) -> bool {
    if a.name != b.name {
        crate::chars::lex_lt(a.name, b.name)
    } else if a.parameters != b.parameters {
        seqs_lt(a.parameters, b.parameters)
    } else if a.return_type != b.return_type {
        crate::chars::lex_lt(a.return_type, b.return_type)
    } else if a.is_static != b.is_static {
        bool_lt(a.is_static, b.is_static)
    } else {
        bool_lt(a.is_direct, b.is_direct)
    }
}

/// Two method definitions agree on everything but their origin.
pub open spec fn method_key_eq(a: MethodDefView, b: MethodDefView) -> bool {
    a.name == b.name && a.parameters == b.parameters && a.return_type == b.return_type && a.is_static == b.is_static
        && a.is_direct == b.is_direct
}

/// The order of field definitions: by name, type, then static flag.
pub open spec fn field_key_lt(a: FieldDefView, b: FieldDefView) -> bool {
    if a.name != b.name {
        crate::chars::lex_lt(a.name, b.name)
    } else if a.field_type != b.field_type {
        crate::chars::lex_lt(a.field_type, b.field_type)
    } else {
        bool_lt(a.is_static, b.is_static)
    }
}

/// Two field definitions agree on everything but their origin.
pub open spec fn field_key_eq(a: FieldDefView, b: FieldDefView) -> bool {
    a.name == b.name && a.field_type == b.field_type && a.is_static == b.is_static
}

/// `x` put into the ordered `acc` before the first definition it comes before, unless `acc`
/// already has one agreeing with it.
pub open spec fn insert_method(acc: Seq<MethodDefView>, x: MethodDefView) -> Seq<MethodDefView>
    decreases acc.len(),
{
    if acc.len() == 0 {
        seq![x]
    } else if method_key_eq(acc[0], x) {
        acc
    } else if method_key_lt(x, acc[0]) {
        seq![x] + acc
    } else {
        seq![acc[0]] + insert_method(acc.drop_first(), x)
    }
}

/// The definitions of `s` in method order, keeping the first of those that agree: what sorting
/// stably and then removing later duplicates gives.
pub open spec fn sort_dedup_methods(s: Seq<MethodDefView>) -> Seq<MethodDefView>
    decreases s.len(),
{
    if s.len() == 0 { Seq::empty() } else { insert_method(sort_dedup_methods(s.drop_last()), s.last()) }
}

/// `x` put into the ordered `acc`, unless `acc` already has one agreeing with it.
pub open spec fn insert_field(acc: Seq<FieldDefView>, x: FieldDefView) -> Seq<FieldDefView>
    decreases acc.len(),
{
    if acc.len() == 0 {
        seq![x]
    } else if field_key_eq(acc[0], x) {
        acc
    } else if field_key_lt(x, acc[0]) {
        seq![x] + acc
    } else {
        seq![acc[0]] + insert_field(acc.drop_first(), x)
    }
}

/// The definitions of `s` in field order, keeping the first of those that agree.
pub open spec fn sort_dedup_fields(s: Seq<FieldDefView>) -> Seq<FieldDefView>
    decreases s.len(),
{
    if s.len() == 0 { Seq::empty() } else { insert_field(sort_dedup_fields(s.drop_last()), s.last()) }
}

fn strings_equal(a: &String, b: &String) -> (r: bool)
    ensures
        r == (a@ == b@),
{
    chars_equal(str_chars(a.as_str()).as_slice(), str_chars(b.as_str()).as_slice())
}

fn string_less(a: &String, b: &String) -> (r: bool)
    ensures
        r == crate::chars::lex_lt(a@, b@),
{
    crate::chars::lex_less(str_chars(a.as_str()).as_slice(), str_chars(b.as_str()).as_slice())
}

fn string_lists_equal(p: &Vec<String>, q: &Vec<String>) -> (r: bool)
    ensures
        r == (strs(p@) == strs(q@)),
{
    if p.len() != q.len() {
        assert(strs(p@).len() != strs(q@).len());
        return false;
    }
    let mut i: usize = 0;
    while i < p.len()
        invariant
            i <= p.len(),
            p.len() == q.len(),
            forall|k: int| 0 <= k < i ==> strs(p@)[k] == strs(q@)[k],
        decreases p.len() - i,
    {
        if !strings_equal(&p[i], &q[i]) {
            assert(strs(p@)[i as int] != strs(q@)[i as int]);
            return false;
        }
        i = i + 1;
    }
    assert(strs(p@) =~= strs(q@));
    true
}

fn string_list_less(p: &Vec<String>, q: &Vec<String>) -> (r: bool)
    ensures
        r == seqs_lt(strs(p@), strs(q@)),
{
    let mut i: usize = 0;
    assert(strs(p@).skip(0) =~= strs(p@));
    assert(strs(q@).skip(0) =~= strs(q@));
    while i < p.len() && i < q.len()
        invariant
            i <= p.len(),
            i <= q.len(),
            seqs_lt(strs(p@), strs(q@)) == seqs_lt(strs(p@).skip(i as int), strs(q@).skip(i as int)),
        decreases p.len() - i,
    {
        assert(strs(p@).skip(i as int)[0] == p@[i as int]@);
        assert(strs(q@).skip(i as int)[0] == q@[i as int]@);
        if !strings_equal(&p[i], &q[i]) {
            return string_less(&p[i], &q[i]);
        }
        assert(strs(p@).skip(i as int).drop_first() =~= strs(p@).skip(i + 1));
        assert(strs(q@).skip(i as int).drop_first() =~= strs(q@).skip(i + 1));
        i = i + 1;
    }
    p.len() == i && q.len() > i
}

fn method_key_less(a: &MethodDefinition, b: &MethodDefinition) -> (r: bool)
    ensures
        r == method_key_lt(a@, b@),
{
    if !strings_equal(&a.name, &b.name) {
        return string_less(&a.name, &b.name);
    }
    if !string_lists_equal(&a.parameters, &b.parameters) {
        return string_list_less(&a.parameters, &b.parameters);
    }
    if !strings_equal(&a.return_type, &b.return_type) {
        return string_less(&a.return_type, &b.return_type);
    }
    if a.is_static != b.is_static {
        return !a.is_static && b.is_static;
    }
    !a.is_direct && b.is_direct
}

fn method_key_same(a: &MethodDefinition, b: &MethodDefinition) -> (r: bool)
    ensures
        r == method_key_eq(a@, b@),
{
    strings_equal(&a.name, &b.name) && string_lists_equal(&a.parameters, &b.parameters)
        && strings_equal(&a.return_type, &b.return_type) && a.is_static == b.is_static && a.is_direct == b.is_direct
}

fn field_key_less(a: &FieldDefinition, b: &FieldDefinition) -> (r: bool)
    ensures
        r == field_key_lt(a@, b@),
{
    if !strings_equal(&a.name, &b.name) {
        return string_less(&a.name, &b.name);
    }
    if !strings_equal(&a.field_type, &b.field_type) {
        return string_less(&a.field_type, &b.field_type);
    }
    !a.is_static && b.is_static
}

fn field_key_same(a: &FieldDefinition, b: &FieldDefinition) -> (r: bool)
    ensures
        r == field_key_eq(a@, b@),
{
    strings_equal(&a.name, &b.name) && strings_equal(&a.field_type, &b.field_type) && a.is_static == b.is_static
}

proof fn lemma_insert_method_skip(s: Seq<MethodDefView>, x: MethodDefView, i: int)
    requires
        0 <= i < s.len(),
        !method_key_eq(s[i], x),
        !method_key_lt(x, s[i]),
    ensures
        s.take(i) + insert_method(s.skip(i), x) == s.take(i + 1) + insert_method(s.skip(i + 1), x),
{
    let t = s.skip(i);
    assert(t[0] == s[i]);
    assert(t.drop_first() =~= s.skip(i + 1));
    assert(insert_method(t, x) == seq![s[i]] + insert_method(s.skip(i + 1), x));
    assert(s.take(i + 1) =~= s.take(i) + seq![s[i]]);
    assert(s.take(i) + (seq![s[i]] + insert_method(s.skip(i + 1), x)) =~= s.take(i + 1) + insert_method(s.skip(i + 1), x));
}

fn insert_method_definition(acc: &mut Vec<MethodDefinition>, x: MethodDefinition)
    ensures
        method_views(final(acc)@) == insert_method(method_views(old(acc)@), x@),
{
    let ghost s = method_views(acc@);
    let mut i: usize = 0;
    assert(s.take(0) + s.skip(0) =~= s);
    assert(s.take(0) + insert_method(s.skip(0), x@) =~= insert_method(s, x@));
    while i < acc.len()
        invariant
            i <= acc.len(),
            s == method_views(acc@),
            s == method_views(old(acc)@),
            insert_method(s, x@) == s.take(i as int) + insert_method(s.skip(i as int), x@),
        decreases acc.len() - i,
    {
        let ghost t = s.skip(i as int);
        assert(t[0] == s[i as int]);
        if method_key_same(&acc[i], &x) {
            assert(insert_method(t, x@) == t);
            assert(s.take(i as int) + t =~= s);
            return;
        }
        if method_key_less(&x, &acc[i]) {
            let ghost before = acc@;
            acc.insert(i, x);
            assert(method_views(acc@) =~= s.take(i as int) + (seq![x@] + t));
            return;
        }
        proof {
            lemma_insert_method_skip(s, x@, i as int);
        }
        i = i + 1;
    }
    let ghost before = acc@;
    acc.push(x);
    assert(s.skip(i as int) =~= Seq::<MethodDefView>::empty());
    assert(s.take(i as int) =~= s);
    assert(method_views(acc@) =~= s.push(x@));
    assert(s.take(i as int) + seq![x@] =~= s.push(x@));
}

proof fn lemma_insert_field_skip(s: Seq<FieldDefView>, x: FieldDefView, i: int)
    requires
        0 <= i < s.len(),
        !field_key_eq(s[i], x),
        !field_key_lt(x, s[i]),
    ensures
        s.take(i) + insert_field(s.skip(i), x) == s.take(i + 1) + insert_field(s.skip(i + 1), x),
{
    let t = s.skip(i);
    assert(t[0] == s[i]);
    assert(t.drop_first() =~= s.skip(i + 1));
    assert(insert_field(t, x) == seq![s[i]] + insert_field(s.skip(i + 1), x));
    assert(s.take(i + 1) =~= s.take(i) + seq![s[i]]);
    assert(s.take(i) + (seq![s[i]] + insert_field(s.skip(i + 1), x)) =~= s.take(i + 1) + insert_field(s.skip(i + 1), x));
}

fn insert_field_definition(acc: &mut Vec<FieldDefinition>, x: FieldDefinition)
    ensures
        field_views(final(acc)@) == insert_field(field_views(old(acc)@), x@),
{
    let ghost s = field_views(acc@);
    let mut i: usize = 0;
    assert(s.take(0) =~= Seq::<FieldDefView>::empty());
    assert(s.skip(0) =~= s);
    assert(s.take(0) + insert_field(s.skip(0), x@) =~= insert_field(s, x@));
    while i < acc.len()
        invariant
            i <= acc.len(),
            s == field_views(acc@),
            s == field_views(old(acc)@),
            insert_field(s, x@) == s.take(i as int) + insert_field(s.skip(i as int), x@),
        decreases acc.len() - i,
    {
        let ghost t = s.skip(i as int);
        assert(t[0] == s[i as int]);
        if field_key_same(&acc[i], &x) {
            assert(insert_field(t, x@) == t);
            assert(s.take(i as int) + t =~= s);
            return;
        }
        if field_key_less(&x, &acc[i]) {
            acc.insert(i, x);
            assert(field_views(acc@) =~= s.take(i as int) + (seq![x@] + t));
            return;
        }
        proof {
            lemma_insert_field_skip(s, x@, i as int);
        }
        i = i + 1;
    }
    acc.push(x);
    assert(s.skip(i as int) =~= Seq::<FieldDefView>::empty());
    assert(field_views(acc@) =~= s.push(x@));
    assert(s.take(i as int) + seq![x@] =~= s.push(x@));
}

/// The definitions of `v` in method order, keeping the first of those that agree.
fn sort_dedup_method_definitions(v: &Vec<MethodDefinition>) -> (r: Vec<MethodDefinition>)
    ensures
        method_views(r@) == sort_dedup_methods(method_views(v@)),
{
    let mut r: Vec<MethodDefinition> = Vec::new();
    let mut i: usize = 0;
    assert(method_views(r@) =~= sort_dedup_methods(method_views(v@).take(0)));
    while i < v.len()
        invariant
            i <= v.len(),
            method_views(r@) == sort_dedup_methods(method_views(v@).take(i as int)),
        decreases v.len() - i,
    {
        proof {
            let t = method_views(v@).take(i + 1);
            assert(t.drop_last() =~= method_views(v@).take(i as int));
            assert(t.last() == v@[i as int]@);
        }
        insert_method_definition(&mut r, copy_method_definition(&v[i]));
        i = i + 1;
    }
    assert(method_views(v@).take(v@.len() as int) =~= method_views(v@));
    r
}

/// The definitions of `v` in field order, keeping the first of those that agree.
fn sort_dedup_field_definitions(v: &Vec<FieldDefinition>) -> (r: Vec<FieldDefinition>)
    ensures
        field_views(r@) == sort_dedup_fields(field_views(v@)),
{
    let mut r: Vec<FieldDefinition> = Vec::new();
    let mut i: usize = 0;
    assert(field_views(r@) =~= sort_dedup_fields(field_views(v@).take(0)));
    while i < v.len()
        invariant
            i <= v.len(),
            field_views(r@) == sort_dedup_fields(field_views(v@).take(i as int)),
        decreases v.len() - i,
    {
        proof {
            let t = field_views(v@).take(i + 1);
            assert(t.drop_last() =~= field_views(v@).take(i as int));
            assert(t.last() == v@[i as int]@);
        }
        insert_field_definition(&mut r, copy_field_definition(&v[i]));
        i = i + 1;
    }
    assert(field_views(v@).take(v@.len() as int) =~= field_views(v@));
    r
}

/// A class defined again: the first definition keeps its origin and supertypes; the members of
/// both are ordered and the first of agreeing ones kept.
pub open spec fn merge_class(existing: ClassDefView, added: ClassDefView) -> ClassDefView {
    ClassDefView {
        origin: existing.origin,
        superclass: existing.superclass,
        interfaces: existing.interfaces,
        methods: sort_dedup_methods(existing.methods + added.methods),
        fields: sort_dedup_fields(existing.fields + added.fields),
    }
}

fn merge_class_definitions(existing: &ClassDefinition, added: &ClassDefinition) -> (r: ClassDefinition)
    ensures
        r@ == merge_class(existing@, added@),
{
    let mut methods: Vec<MethodDefinition> = Vec::new();
    let mut i: usize = 0;
    while i < existing.methods.len()
        invariant
            i <= existing.methods.len(),
            method_views(methods@) == method_views(existing.methods@).take(i as int),
        decreases existing.methods.len() - i,
    {
        let ghost prev = methods@;
        let item = copy_method_definition(&existing.methods[i]);
        methods.push(item);
        assert(method_views(methods@) =~= method_views(prev).push(existing.methods@[i as int]@));
        assert(method_views(existing.methods@).take(i + 1) =~= method_views(existing.methods@).take(i as int).push(existing.methods@[i as int]@));
        i = i + 1;
        assert(method_views(methods@) =~= method_views(existing.methods@).take(i as int));
    }
    let mut j: usize = 0;
    while j < added.methods.len()
        invariant
            j <= added.methods.len(),
            method_views(methods@) == method_views(existing.methods@) + method_views(added.methods@).take(j as int),
        decreases added.methods.len() - j,
    {
        let ghost prev = methods@;
        let item = copy_method_definition(&added.methods[j]);
        methods.push(item);
        assert(method_views(methods@) =~= method_views(prev).push(added.methods@[j as int]@));
        assert(method_views(added.methods@).take(j + 1) =~= method_views(added.methods@).take(j as int).push(added.methods@[j as int]@));
        j = j + 1;
        assert(method_views(methods@) =~= method_views(existing.methods@) + method_views(added.methods@).take(j as int));
    }
    assert(method_views(existing.methods@).take(existing.methods@.len() as int) =~= method_views(existing.methods@));
    assert(method_views(added.methods@).take(added.methods@.len() as int) =~= method_views(added.methods@));
    let mut fields: Vec<FieldDefinition> = Vec::new();
    let mut k: usize = 0;
    while k < existing.fields.len()
        invariant
            k <= existing.fields.len(),
            field_views(fields@) == field_views(existing.fields@).take(k as int),
        decreases existing.fields.len() - k,
    {
        let ghost prev = fields@;
        let item = copy_field_definition(&existing.fields[k]);
        fields.push(item);
        assert(field_views(fields@) =~= field_views(prev).push(existing.fields@[k as int]@));
        assert(field_views(existing.fields@).take(k + 1) =~= field_views(existing.fields@).take(k as int).push(existing.fields@[k as int]@));
        k = k + 1;
        assert(field_views(fields@) =~= field_views(existing.fields@).take(k as int));
    }
    let mut m: usize = 0;
    while m < added.fields.len()
        invariant
            m <= added.fields.len(),
            field_views(fields@) == field_views(existing.fields@) + field_views(added.fields@).take(m as int),
        decreases added.fields.len() - m,
    {
        let ghost prev = fields@;
        let item = copy_field_definition(&added.fields[m]);
        fields.push(item);
        assert(field_views(fields@) =~= field_views(prev).push(added.fields@[m as int]@));
        assert(field_views(added.fields@).take(m + 1) =~= field_views(added.fields@).take(m as int).push(added.fields@[m as int]@));
        m = m + 1;
        assert(field_views(fields@) =~= field_views(existing.fields@) + field_views(added.fields@).take(m as int));
    }
    assert(field_views(existing.fields@).take(existing.fields@.len() as int) =~= field_views(existing.fields@));
    assert(field_views(added.fields@).take(added.fields@.len() as int) =~= field_views(added.fields@));
    ClassDefinition {
        origin: existing.origin,
        superclass: crate::chars::copy_opt_string(&existing.superclass),
        interfaces: crate::chars::copy_strings(&existing.interfaces),
        methods: sort_dedup_method_definitions(&methods),
        fields: sort_dedup_field_definitions(&fields),
    }
}


// ----- the definition index -----

/// A 64-bit FNV-1a hash of the characters of a descriptor, used to find it in the index.
pub open spec fn descriptor_hash(s: Seq<char>) -> u64
    decreases s.len(),
{
    if s.len() == 0 {
        0xcbf29ce484222325u64
    } else {
        let h = descriptor_hash(s.drop_last()) ^ ((s.last() as u32) as u64);
        ((h as nat * 0x100000001b3nat) % 0x10000000000000000nat) as u64
    }
}

fn hash_descriptor(s: &str) -> (r: u64)
    ensures
        r == descriptor_hash(s@),
{
    let v = str_chars(s);
    let mut h: u64 = 0xcbf29ce484222325;
    let mut i: usize = 0;
    assert(v@.take(0) =~= Seq::<char>::empty());
    while i < v.len()
        invariant
            i <= v.len(),
            v@ == s@,
            h == descriptor_hash(v@.take(i as int)),
        decreases v.len() - i,
    {
        let c = v[i];
        proof {
            assert(v@.take(i + 1).drop_last() =~= v@.take(i as int));
        }
        h = (h ^ (c as u32 as u64)).wrapping_mul(0x100000001b3);
        i = i + 1;
    }
    assert(v@.take(v@.len() as int) =~= v@);
    h
}

/// The position of the first entry for descriptor `d`.
pub open spec fn find_class(entries: Seq<(Seq<char>, ClassDefView)>, d: Seq<char>) -> Option<int>
    decreases entries.len(),
{
    if entries.len() == 0 {
        None
    } else {
        match find_class(entries.drop_last(), d) {
            Some(k) => Some(k),
            None => if entries.last().0 == d { Some(entries.len() - 1) } else { None },
        }
    }
}

pub proof fn lemma_find_class(entries: Seq<(Seq<char>, ClassDefView)>, d: Seq<char>)
    ensures
        match find_class(entries, d) {
            Some(k) => 0 <= k < entries.len() && entries[k].0 == d && forall|j: int| 0 <= j < k ==> entries[j].0 != d,
            None => forall|j: int| 0 <= j < entries.len() ==> entries[j].0 != d,
        },
    decreases entries.len(),
{
    if entries.len() > 0 {
        let p = entries.drop_last();
        lemma_find_class(p, d);
        assert forall|j: int| 0 <= j < p.len() implies p[j] == entries[j] by {}
    }
}

/// The index after adding the class `d` defined as `def`: merged into its entry, or appended.
pub open spec fn add_class(entries: Seq<(Seq<char>, ClassDefView)>, d: Seq<char>, def: ClassDefView)
    -> Seq<(Seq<char>, ClassDefView)> {
    match find_class(entries, d) {
        Some(k) => entries.update(k, (d, merge_class(entries[k].1, def))),
        None => entries.push((d, def)),
    }
}

/// The index after adding class definitions `i..` of `raw`, attributed to location `origin`.
pub open spec fn add_classes(entries: Seq<(Seq<char>, ClassDefView)>, raw: RawDex, origin: usize, i: nat)
    -> Seq<(Seq<char>, ClassDefView)>
    decreases raw.classes@.len() - i,
{
    if i >= raw.classes@.len() {
        entries
    } else {
        let c = raw.classes@[i as int];
        add_classes(add_class(entries, c.class_type@, class_definition_of(raw, c, origin)), raw, origin, i + 1)
    }
}

/// Every class the audited app and reference DEX files define, merged by descriptor.
pub struct DefinitionIndex {
    locations: Vec<DexLocation>,
    descriptors: Vec<String>,
    classes: Vec<ClassDefinition>,
    buckets: BTreeMap<u64, Vec<usize>>,
}

impl DefinitionIndex {
    /// The indexed classes with their descriptors, in the order they were first added.
    pub closed spec fn entries(&self) -> Seq<(Seq<char>, ClassDefView)> {
        Seq::new(self.classes@.len(), |i: int| (self.descriptors@[i]@, self.classes@[i]@))
    }

    /// The DEX locations definitions came from; a definition's `origin` numbers one of them.
    pub closed spec fn locations(&self) -> Seq<DexLocation> {
        self.locations@
    }

    /// The index is consistent: one entry per descriptor, each found through its hash bucket,
    /// and every origin numbers a location.
    pub closed spec fn wf(&self) -> bool {
        &&& self.descriptors@.len() == self.classes@.len()
        &&& forall|i: int, j: int| 0 <= i < j < self.descriptors@.len() ==> self.descriptors@[i]@
            != self.descriptors@[j]@
        &&& forall|i: int| 0 <= i < self.descriptors@.len() ==> self.buckets@.contains_key(
            descriptor_hash(#[trigger] self.descriptors@[i]@)) && self.buckets@[descriptor_hash(
            self.descriptors@[i]@)]@.contains(i as usize)
        &&& forall|h: u64, k: int| self.buckets@.contains_key(h) && 0 <= k < self.buckets@[h]@.len() ==> (
            #[trigger] self.buckets@[h]@[k]) < self.descriptors@.len()
        &&& forall|i: int| 0 <= i < self.classes@.len() ==> origins_below(#[trigger] self.classes@[i]@,
            self.locations@.len())
    }

    /// An empty index.
    pub fn new() -> (r: Self)
        ensures
            r.wf(),
            r.entries() == Seq::<(Seq<char>, ClassDefView)>::empty(),
            r.locations() == Seq::<DexLocation>::empty(),
    {
        let r = DefinitionIndex { locations: Vec::new(), descriptors: Vec::new(), classes: Vec::new(),
            buckets: BTreeMap::new() };
        assert(r.entries() =~= Seq::<(Seq<char>, ClassDefView)>::empty());
        r
    }

    /// The position of the class `descriptor` in the index.
    pub fn find(&self, descriptor: &str) -> (r: Option<usize>)
        requires
            self.wf(),
        ensures
            match r {
                Some(k) => find_class(self.entries(), descriptor@) == Some(k as int),
                None => find_class(self.entries(), descriptor@) is None,
            },
    {
        proof {
            lemma_find_class(self.entries(), descriptor@);
        }
        let h = hash_descriptor(descriptor);
        let bucket = match self.buckets.get(&h) {
            Some(b) => b,
            None => {
                proof {
                    assert forall|j: int| 0 <= j < self.entries().len() implies self.entries()[j].0 != descriptor@ by {
                        assert(self.entries()[j].0 == self.descriptors@[j]@);
                        if self.descriptors@[j]@ == descriptor@ {
                            assert(self.buckets@.contains_key(descriptor_hash(self.descriptors@[j]@)));
                        }
                    }
                }
                return None;
            },
        };
        let d = str_chars(descriptor);
        let mut i: usize = 0;
        while i < bucket.len()
            invariant
                i <= bucket.len(),
                self.wf(),
                d@ == descriptor@,
                self.buckets@.contains_key(h),
                h == descriptor_hash(descriptor@),
                bucket@ == self.buckets@[h]@,
                forall|k: int| 0 <= k < i ==> self.descriptors@[#[trigger] bucket@[k] as int]@ != descriptor@,
            decreases bucket.len() - i,
        {
            let k = bucket[i];
            assert(self.buckets@[h]@[i as int] == k);
            if chars_equal(str_chars(self.descriptors[k].as_str()).as_slice(), d.as_slice()) {
                proof {
                    lemma_find_class(self.entries(), descriptor@);
                    assert(self.entries()[k as int].0 == descriptor@);
                    match find_class(self.entries(), descriptor@) {
                        Some(g) => {
                            assert(self.entries()[g].0 == self.descriptors@[g]@);
                            if g < k as int {
                                assert(self.descriptors@[g]@ != self.descriptors@[k as int]@);
                            } else if g > k as int {
                                assert(self.descriptors@[k as int]@ != self.descriptors@[g]@);
                            }
                        },
                        None => {},
                    }
                }
                return Some(k);
            }
            i = i + 1;
        }
        let count = self.descriptors.len();
        proof {
            assert forall|j: int| 0 <= j < self.entries().len() implies self.entries()[j].0 != descriptor@ by {
                assert(j < count);
                assert(self.entries()[j].0 == self.descriptors@[j]@);
                if self.descriptors@[j]@ == descriptor@ {
                    assert(descriptor_hash(self.descriptors@[j]@) == h);
                    assert(self.buckets@[h]@.contains(j as usize));
                    let m = choose|m: int| 0 <= m < bucket@.len() && bucket@[m] == j as usize;
                    assert(self.descriptors@[bucket@[m] as int]@ != descriptor@);
                }
            }
        }
        None
    }
}

/// Every origin in a class definition numbers one of `n` locations.
pub open spec fn origins_below(c: ClassDefView, n: nat) -> bool {
    &&& c.origin < n
    &&& forall|i: int| 0 <= i < c.methods.len() ==> (#[trigger] c.methods[i]).origin < n
    &&& forall|i: int| 0 <= i < c.fields.len() ==> (#[trigger] c.fields[i]).origin < n
}


proof fn lemma_insert_method_members(acc: Seq<MethodDefView>, x: MethodDefView)
    ensures
        forall|i: int| 0 <= i < insert_method(acc, x).len() ==> #[trigger] insert_method(acc, x)[i] == x
            || acc.contains(insert_method(acc, x)[i]),
    decreases acc.len(),
{
    if acc.len() > 0 && !method_key_eq(acc[0], x) && !method_key_lt(x, acc[0]) {
        lemma_insert_method_members(acc.drop_first(), x);
        let r = insert_method(acc, x);
        assert forall|i: int| 0 <= i < r.len() implies #[trigger] r[i] == x || acc.contains(r[i]) by {
            if i == 0 {
                assert(r[0] == acc[0]);
            } else {
                let t = insert_method(acc.drop_first(), x);
                assert(r[i] == t[i - 1]);
                if t[i - 1] != x {
                    let k = choose|k: int| 0 <= k < acc.drop_first().len() && acc.drop_first()[k] == t[i - 1];
                    assert(acc[k + 1] == r[i]);
                }
            }
        }
    } else if acc.len() > 0 && !method_key_eq(acc[0], x) {
        let r = insert_method(acc, x);
        assert forall|i: int| 0 <= i < r.len() implies #[trigger] r[i] == x || acc.contains(r[i]) by {
            if i > 0 {
                assert(r[i] == acc[i - 1]);
            }
        }
    } else if acc.len() > 0 {
        assert forall|i: int| 0 <= i < acc.len() implies acc.contains(#[trigger] acc[i]) by {}
    }
}

proof fn lemma_sort_dedup_methods_members(s: Seq<MethodDefView>)
    ensures
        forall|i: int| 0 <= i < sort_dedup_methods(s).len() ==> s.contains(#[trigger] sort_dedup_methods(s)[i]),
    decreases s.len(),
{
    if s.len() > 0 {
        let p = s.drop_last();
        lemma_sort_dedup_methods_members(p);
        lemma_insert_method_members(sort_dedup_methods(p), s.last());
        let r = sort_dedup_methods(s);
        assert forall|i: int| 0 <= i < r.len() implies s.contains(#[trigger] r[i]) by {
            if r[i] == s.last() {
                assert(s[s.len() - 1] == r[i]);
            } else {
                let q = sort_dedup_methods(p);
                let k = choose|k: int| 0 <= k < q.len() && q[k] == r[i];
                assert(p.contains(q[k]));
                let m = choose|m: int| 0 <= m < p.len() && p[m] == q[k];
                assert(s[m] == r[i]);
            }
        }
    }
}

proof fn lemma_insert_field_members(acc: Seq<FieldDefView>, x: FieldDefView)
    ensures
        forall|i: int| 0 <= i < insert_field(acc, x).len() ==> #[trigger] insert_field(acc, x)[i] == x
            || acc.contains(insert_field(acc, x)[i]),
    decreases acc.len(),
{
    if acc.len() > 0 && !field_key_eq(acc[0], x) && !field_key_lt(x, acc[0]) {
        lemma_insert_field_members(acc.drop_first(), x);
        let r = insert_field(acc, x);
        assert forall|i: int| 0 <= i < r.len() implies #[trigger] r[i] == x || acc.contains(r[i]) by {
            if i == 0 {
                assert(r[0] == acc[0]);
            } else {
                let t = insert_field(acc.drop_first(), x);
                assert(r[i] == t[i - 1]);
                if t[i - 1] != x {
                    let k = choose|k: int| 0 <= k < acc.drop_first().len() && acc.drop_first()[k] == t[i - 1];
                    assert(acc[k + 1] == r[i]);
                }
            }
        }
    } else if acc.len() > 0 && !field_key_eq(acc[0], x) {
        let r = insert_field(acc, x);
        assert forall|i: int| 0 <= i < r.len() implies #[trigger] r[i] == x || acc.contains(r[i]) by {
            if i > 0 {
                assert(r[i] == acc[i - 1]);
            }
        }
    } else if acc.len() > 0 {
        assert forall|i: int| 0 <= i < acc.len() implies acc.contains(#[trigger] acc[i]) by {}
    }
}

proof fn lemma_sort_dedup_fields_members(s: Seq<FieldDefView>)
    ensures
        forall|i: int| 0 <= i < sort_dedup_fields(s).len() ==> s.contains(#[trigger] sort_dedup_fields(s)[i]),
    decreases s.len(),
{
    if s.len() > 0 {
        let p = s.drop_last();
        lemma_sort_dedup_fields_members(p);
        lemma_insert_field_members(sort_dedup_fields(p), s.last());
        let r = sort_dedup_fields(s);
        assert forall|i: int| 0 <= i < r.len() implies s.contains(#[trigger] r[i]) by {
            if r[i] == s.last() {
                assert(s[s.len() - 1] == r[i]);
            } else {
                let q = sort_dedup_fields(p);
                let k = choose|k: int| 0 <= k < q.len() && q[k] == r[i];
                assert(p.contains(q[k]));
                let m = choose|m: int| 0 <= m < p.len() && p[m] == q[k];
                assert(s[m] == r[i]);
            }
        }
    }
}

proof fn lemma_merge_origins(a: ClassDefView, b: ClassDefView, n: nat)
    requires
        origins_below(a, n),
        origins_below(b, n),
    ensures
        origins_below(merge_class(a, b), n),
{
    let ms = a.methods + b.methods;
    let fs = a.fields + b.fields;
    lemma_sort_dedup_methods_members(ms);
    lemma_sort_dedup_fields_members(fs);
    let m = merge_class(a, b);
    assert forall|i: int| 0 <= i < m.methods.len() implies (#[trigger] m.methods[i]).origin < n by {
        assert(ms.contains(m.methods[i]));
        let k = choose|k: int| 0 <= k < ms.len() && ms[k] == m.methods[i];
        if k < a.methods.len() {
            assert(ms[k] == a.methods[k]);
        } else {
            assert(ms[k] == b.methods[k - a.methods.len()]);
        }
    }
    assert forall|i: int| 0 <= i < m.fields.len() implies (#[trigger] m.fields[i]).origin < n by {
        assert(fs.contains(m.fields[i]));
        let k = choose|k: int| 0 <= k < fs.len() && fs[k] == m.fields[i];
        if k < a.fields.len() {
            assert(fs[k] == a.fields[k]);
        } else {
            assert(fs[k] == b.fields[k - a.fields.len()]);
        }
    }
}

proof fn lemma_field_definitions_origin(raw: RawDex, enc: Seq<crate::dex::class_data::EncodedField>, is_static: bool,
    origin: usize, i: nat, acc: Seq<FieldDefView>)
    ensures
        forall|k: int| 0 <= k < field_definitions_from(raw, enc, is_static, origin, i, acc).len() ==> (k < acc.len()
            && #[trigger] field_definitions_from(raw, enc, is_static, origin, i, acc)[k] == acc[k])
            || field_definitions_from(raw, enc, is_static, origin, i, acc)[k].origin == origin,
    decreases enc.len() - i,
{
    let r = field_definitions_from(raw, enc, is_static, origin, i, acc);
    if i < enc.len() {
        let acc2 = if (enc[i as int].field_idx as int) < raw.fields@.len() {
            let f = raw.fields@[enc[i as int].field_idx as int];
            acc.push(FieldDefView { origin, name: f.name@, field_type: f.field_type@, is_static })
        } else {
            acc
        };
        lemma_field_definitions_origin(raw, enc, is_static, origin, i + 1, acc2);
        let r2 = field_definitions_from(raw, enc, is_static, origin, i + 1, acc2);
        assert(r == r2);
        assert forall|k: int| 0 <= k < r.len() implies (k < acc.len() && #[trigger] r[k] == acc[k])
            || r[k].origin == origin by {
            assert((k < acc2.len() && r2[k] == acc2[k]) || r2[k].origin == origin);
            if k < acc2.len() && r2[k] == acc2[k] && k < acc.len() {
                assert(acc2[k] == acc[k]);
            }
        }
    } else {
        assert forall|k: int| 0 <= k < r.len() implies (k < acc.len() && #[trigger] r[k] == acc[k])
            || r[k].origin == origin by {}
    }
}

proof fn lemma_method_definitions_origin(raw: RawDex, enc: Seq<crate::dex::class_data::EncodedMethod>,
    is_direct: bool, origin: usize, i: nat, acc: Seq<MethodDefView>)
    ensures
        forall|k: int| 0 <= k < method_definitions_from(raw, enc, is_direct, origin, i, acc).len() ==> (k < acc.len()
            && #[trigger] method_definitions_from(raw, enc, is_direct, origin, i, acc)[k] == acc[k])
            || method_definitions_from(raw, enc, is_direct, origin, i, acc)[k].origin == origin,
    decreases enc.len() - i,
{
    let r = method_definitions_from(raw, enc, is_direct, origin, i, acc);
    if i < enc.len() {
        let acc2 = if (enc[i as int].method_idx as int) < raw.methods@.len() {
            let m = raw.methods@[enc[i as int].method_idx as int]@;
            acc.push(MethodDefView {
                origin,
                name: m.name,
                parameters: m.proto.parameters,
                return_type: m.proto.return_type,
                is_static: enc[i as int].access_flags & ACC_STATIC != 0,
                is_direct,
            })
        } else {
            acc
        };
        lemma_method_definitions_origin(raw, enc, is_direct, origin, i + 1, acc2);
        let r2 = method_definitions_from(raw, enc, is_direct, origin, i + 1, acc2);
        assert(r == r2);
        assert forall|k: int| 0 <= k < r.len() implies (k < acc.len() && #[trigger] r[k] == acc[k])
            || r[k].origin == origin by {
            assert((k < acc2.len() && r2[k] == acc2[k]) || r2[k].origin == origin);
            if k < acc2.len() && r2[k] == acc2[k] && k < acc.len() {
                assert(acc2[k] == acc[k]);
            }
        }
    } else {
        assert forall|k: int| 0 <= k < r.len() implies (k < acc.len() && #[trigger] r[k] == acc[k])
            || r[k].origin == origin by {}
    }
}

proof fn lemma_class_definition_origins(raw: RawDex, c: crate::dex::raw::ClassDef, origin: usize, n: nat)
    requires
        origin < n,
    ensures
        origins_below(class_definition_of(raw, c, origin), n),
{
    match c.class_data {
        None => {},
        Some(d) => {
            let e1 = Seq::<FieldDefView>::empty();
            let f1 = field_definitions_from(raw, d.static_fields@, true, origin, 0, e1);
            lemma_field_definitions_origin(raw, d.static_fields@, true, origin, 0, e1);
            lemma_field_definitions_origin(raw, d.instance_fields@, false, origin, 0, f1);
            let e2 = Seq::<MethodDefView>::empty();
            let m1 = method_definitions_from(raw, d.direct_methods@, true, origin, 0, e2);
            lemma_method_definitions_origin(raw, d.direct_methods@, true, origin, 0, e2);
            lemma_method_definitions_origin(raw, d.virtual_methods@, false, origin, 0, m1);
            let def = class_definition_of(raw, c, origin);
            assert forall|i: int| 0 <= i < def.fields.len() implies (#[trigger] def.fields[i]).origin < n by {
                if i < f1.len() {
                    assert(def.fields[i] == f1[i] || def.fields[i].origin == origin);
                }
            }
            assert forall|i: int| 0 <= i < def.methods.len() implies (#[trigger] def.methods[i]).origin < n by {
                if i < m1.len() {
                    assert(def.methods[i] == m1[i] || def.methods[i].origin == origin);
                }
            }
        },
    }
}

fn copy_location(l: &DexLocation) -> (r: DexLocation)
    ensures
        r.apk_part@ == l.apk_part@,
        r.dex_file@ == l.dex_file@,
        r.standalone == l.standalone,
{
    DexLocation { apk_part: l.apk_part.clone(), dex_file: l.dex_file.clone(), standalone: l.standalone }
}

impl DefinitionIndex {
    fn add_class_definition(&mut self, descriptor: &String, def: ClassDefinition)
        requires
            old(self).wf(),
            origins_below(def@, old(self).locations@.len()),
        ensures
            final(self).wf(),
            final(self).entries() == add_class(old(self).entries(), descriptor@, def@),
            final(self).locations@ == old(self).locations@,
    {
        let ghost before = self.entries();
        match self.find(descriptor.as_str()) {
            Some(k) => {
                proof {
                    lemma_find_class(before, descriptor@);
                    lemma_merge_origins(self.classes@[k as int]@, def@, self.locations@.len());
                }
                let merged = merge_class_definitions(&self.classes[k], &def);
                self.classes.set(k, merged);
                assert(self.entries() =~= before.update(k as int, (descriptor@, merge_class(before[k as int].1, def@))));
            },
            None => {
                proof {
                    lemma_find_class(before, descriptor@);
                }
                let k = self.classes.len();
                let h = hash_descriptor(descriptor.as_str());
                let ghost old_buckets = self.buckets@;
                let mut bucket: Vec<usize> = match self.buckets.remove(&h) {
                    Some(b) => b,
                    None => Vec::new(),
                };
                let ghost old_bucket = bucket@;
                bucket.push(k);
                self.buckets.insert(h, bucket);
                self.descriptors.push(descriptor.clone());
                self.classes.push(def);
                proof {
                    assert(self.entries() =~= before.push((descriptor@, def@)));
                    assert forall|i: int, j: int| 0 <= i < j < self.descriptors@.len() implies self.descriptors@[i]@
                        != self.descriptors@[j]@ by {
                        if j == k as int {
                            assert(before[i].0 == self.descriptors@[i]@);
                        }
                    }
                    assert forall|i: int| 0 <= i < self.descriptors@.len() implies self.buckets@.contains_key(
                        descriptor_hash(#[trigger] self.descriptors@[i]@)) && self.buckets@[descriptor_hash(
                        self.descriptors@[i]@)]@.contains(i as usize) by {
                        if i == k as int {
                            assert(self.buckets@[h]@[self.buckets@[h]@.len() - 1] == k);
                        } else {
                            let hi = descriptor_hash(self.descriptors@[i]@);
                            assert(old_buckets.contains_key(hi) && old_buckets[hi]@.contains(i as usize));
                            if hi == h {
                                let m = choose|m: int| 0 <= m < old_buckets[hi]@.len() && old_buckets[hi]@[m] == i as usize;
                                assert(old_bucket == old_buckets[h]@);
                                assert(self.buckets@[h]@[m] == i as usize);
                            }
                        }
                    }
                    assert forall|g: u64, m: int| self.buckets@.contains_key(g) && 0 <= m < self.buckets@[g]@.len()
                        implies (#[trigger] self.buckets@[g]@[m]) < self.descriptors@.len() by {
                        if g == h {
                            if m < old_bucket.len() {
                                assert(old_buckets.contains_key(h));
                                assert(old_buckets[h]@[m] == self.buckets@[g]@[m]);
                            }
                        } else {
                            assert(old_buckets.contains_key(g));
                        }
                    }
                    assert forall|i: int| 0 <= i < self.classes@.len() implies origins_below(
                        #[trigger] self.classes@[i]@, self.locations@.len()) by {
                        if i < k as int {
                            assert(self.classes@[i] == old(self).classes@[i]);
                        }
                    }
                }
            },
        }
    }

    /// Adds every class `raw` defines, attributed to `location`.
    pub fn add_dex(&mut self, raw: &RawDex, location: &DexLocation)
        requires
            old(self).wf(),
        ensures
            final(self).wf(),
            final(self).entries() == add_classes(old(self).entries(), *raw, old(self).locations().len() as usize, 0),
            final(self).locations().len() == old(self).locations().len() + 1,
            forall|i: int| 0 <= i < old(self).locations().len() ==> final(self).locations()[i] == old(self).locations()[i],
            final(self).locations().last().apk_part@ == location.apk_part@,
            final(self).locations().last().dex_file@ == location.dex_file@,
            final(self).locations().last().standalone == location.standalone,
    {
        let origin = self.locations.len();
        let ghost start = self.entries();
        self.locations.push(copy_location(location));
        proof {
            assert forall|i: int| 0 <= i < self.classes@.len() implies origins_below(
                #[trigger] self.classes@[i]@, self.locations@.len()) by {
                assert(origins_below(self.classes@[i]@, old(self).locations@.len()));
            }
        }
        let mut i: usize = 0;
        while i < raw.classes.len()
            invariant
                i <= raw.classes.len(),
                self.wf(),
                self.locations@.len() == origin + 1,
                forall|j: int| 0 <= j < origin ==> self.locations@[j] == old(self).locations@[j],
                self.locations@.last().apk_part@ == location.apk_part@,
                self.locations@.last().dex_file@ == location.dex_file@,
                self.locations@.last().standalone == location.standalone,
                add_classes(start, *raw, origin, 0) == add_classes(self.entries(), *raw, origin, i as nat),
            decreases raw.classes.len() - i,
        {
            let class = &raw.classes[i];
            let def = build_class_definition(raw, class, origin);
            proof {
                lemma_class_definition_origins(*raw, *class, origin, self.locations@.len());
            }
            self.add_class_definition(&class.class_type, def);
            i = i + 1;
        }
    }
}


// ----- resolving references -----

/// The indexed definition of class `d`.
pub open spec fn lookup_class(entries: Seq<(Seq<char>, ClassDefView)>, d: Seq<char>) -> Option<ClassDefView> {
    match find_class(entries, d) {
        Some(k) => Some(entries[k].1),
        None => None,
    }
}

/// How many supertypes a class names.
pub open spec fn supertype_count(c: ClassDefView) -> nat {
    c.interfaces.len() + if c.superclass is Some { 1nat } else { 0nat }
}

/// The supertypes of the first `n` entries not yet visited, counted.
pub open spec fn unvisited_weight(entries: Seq<(Seq<char>, ClassDefView)>, visited: Seq<Seq<char>>, n: nat) -> nat
    decreases n,
{
    if n == 0 || n > entries.len() {
        0
    } else {
        unvisited_weight(entries, visited, (n - 1) as nat) + if visited.contains(entries[n - 1].0) {
            0nat
        } else {
            supertype_count(entries[n - 1].1)
        }
    }
}

pub proof fn lemma_unvisited_weight(entries: Seq<(Seq<char>, ClassDefView)>, visited: Seq<Seq<char>>, cur: Seq<char>,
    n: nat)
    requires
        n <= entries.len(),
        !visited.contains(cur),
    ensures
        unvisited_weight(entries, visited.push(cur), n) <= unvisited_weight(entries, visited, n),
        forall|k: int| 0 <= k < n && entries[k].0 == cur ==> unvisited_weight(entries, visited.push(cur), n)
            + supertype_count(#[trigger] entries[k].1) <= unvisited_weight(entries, visited, n),
    decreases n,
{
    if n > 0 {
        lemma_unvisited_weight(entries, visited, cur, (n - 1) as nat);
        let e = entries[n - 1].0;
        let v2 = visited.push(cur);
        if e == cur {
            assert(v2[visited.len() as int] == cur);
            assert(v2.contains(e));
        } else {
            if v2.contains(e) {
                let m = choose|m: int| 0 <= m < v2.len() && v2[m] == e;
                assert(visited[m] == e);
            }
            if visited.contains(e) {
                let m = choose|m: int| 0 <= m < visited.len() && visited[m] == e;
                assert(v2[m] == e);
            }
        }
    }
}

/// `pending` with the supertypes of `c` pushed: its interfaces last to first, then its superclass,
/// so that the superclass is taken next.
pub open spec fn push_supertypes(pending: Seq<Seq<char>>, c: ClassDefView) -> Seq<Seq<char>> {
    let p = pending + c.interfaces.reverse();
    match c.superclass {
        Some(s) => p.push(s),
        None => p,
    }
}

/// The classes a member is looked up in, in order: a depth-first walk from the pending
/// classes (last first), visiting each class once, superclass before interfaces. Classes the
/// index lacks are visited but lead nowhere.
pub open spec fn search_order(entries: Seq<(Seq<char>, ClassDefView)>, pending: Seq<Seq<char>>, visited: Seq<Seq<char>>)
    -> Seq<Seq<char>>
    decreases pending.len() + unvisited_weight(entries, visited, entries.len()),
{
    if pending.len() == 0 {
        visited
    } else {
        let cur = pending.last();
        let rest = pending.drop_last();
        if visited.contains(cur) {
            search_order(entries, rest, visited)
        } else {
            proof {
                lemma_unvisited_weight(entries, visited, cur, entries.len());
                lemma_find_class(entries, cur);
            }
            match find_class(entries, cur) {
                None => search_order(entries, rest, visited.push(cur)),
                Some(k) => search_order(entries, push_supertypes(rest, entries[k].1), visited.push(cur)),
            }
        }
    }
}

fn contains_string(v: &Vec<String>, s: &String) -> (r: bool)
    ensures
        r == strs(v@).contains(s@),
{
    let mut i: usize = 0;
    while i < v.len()
        invariant
            i <= v.len(),
            forall|k: int| 0 <= k < i ==> strs(v@)[k] != s@,
        decreases v.len() - i,
    {
        if strings_equal(&v[i], s) {
            assert(strs(v@)[i as int] == s@);
            return true;
        }
        i = i + 1;
    }
    false
}

/// What resolving a reference gives, in the specification: the origin of the definition found
/// (none for a class outside the object types), or why none was and the candidates met.
pub enum ResolutionView {
    Resolved(Option<usize>),
    Missing(MissingReason, Seq<Seq<char>>),
}

/// The outcome of resolving a reference against the index.
#[derive(Debug)]
pub enum MemberResolution {
    Resolved(Option<usize>),
    Missing { reason: MissingReason, candidates: Vec<String> },
}

/// `r` is the resolution `v`: the same origin, or the same reason with the candidates ordered
/// and each once.
pub open spec fn resolution_matches(r: MemberResolution, v: ResolutionView) -> bool {
    match v {
        ResolutionView::Resolved(o) => r == MemberResolution::Resolved(o),
        ResolutionView::Missing(reason, cands) => r matches MemberResolution::Missing { reason: r2, candidates }
            && r2 == reason && strings_increasing(strs(candidates@))
            && forall|x: Seq<char>| strs(candidates@).contains(x) <==> cands.contains(x),
    }
}

/// The candidates gathered and whether a definition of the wrong kind was met.
pub struct Scan {
    pub candidates: Seq<Seq<char>>,
    pub mismatch: bool,
}

/// Whether a method definition can serve a call with the given dispatch.
pub open spec fn kind_matches(def: MethodDefView, dispatch: MethodDispatch, name: Seq<char>) -> bool {
    match dispatch {
        MethodDispatch::Static => def.is_static,
        MethodDispatch::Direct => !def.is_static && def.is_direct,
        MethodDispatch::Virtual => !def.is_static && !def.is_direct && name != "<init>"@,
    }
}

/// Looking for method `name(parameters)return_type` among the definitions `defs[i..]` of class
/// `owner`: the origin of the first that agrees and can serve the dispatch, or what was gathered.
pub open spec fn scan_methods(owner: Seq<char>, defs: Seq<MethodDefView>, i: nat, name: Seq<char>,
    parameters: Seq<Seq<char>>, return_type: Seq<char>, dispatch: MethodDispatch, st: Scan)
    -> core::result::Result<usize, Scan>
    decreases defs.len() - i,
{
    if i >= defs.len() {
        Err(st)
    } else {
        let d = defs[i as int];
        if d.name != name {
            scan_methods(owner, defs, i + 1, name, parameters, return_type, dispatch, st)
        } else {
            let c = st.candidates.push(method_reference_text(owner, d.name, d.parameters, d.return_type));
            if d.parameters == parameters && d.return_type == return_type {
                if kind_matches(d, dispatch, name) {
                    Ok(d.origin)
                } else {
                    scan_methods(owner, defs, i + 1, name, parameters, return_type, dispatch,
                        Scan { candidates: c, mismatch: true })
                }
            } else {
                scan_methods(owner, defs, i + 1, name, parameters, return_type, dispatch,
                    Scan { candidates: c, mismatch: st.mismatch })
            }
        }
    }
}

/// Looking for a method in the classes `owners[j..]`, in order.
pub open spec fn scan_method_owners(entries: Seq<(Seq<char>, ClassDefView)>, owners: Seq<Seq<char>>, j: nat,
    name: Seq<char>, parameters: Seq<Seq<char>>, return_type: Seq<char>, dispatch: MethodDispatch, st: Scan)
    -> core::result::Result<usize, Scan>
    decreases owners.len() - j,
{
    if j >= owners.len() {
        Err(st)
    } else {
        match lookup_class(entries, owners[j as int]) {
            None => scan_method_owners(entries, owners, j + 1, name, parameters, return_type, dispatch, st),
            Some(c) => match scan_methods(owners[j as int], c.methods, 0, name, parameters, return_type, dispatch, st) {
                Ok(o) => Ok(o),
                Err(st2) => scan_method_owners(entries, owners, j + 1, name, parameters, return_type, dispatch, st2),
            },
        }
    }
}

/// What resolving a method reference gives: the owner must be indexed; a virtual call of
/// anything but a constructor is looked up through the supertypes, any other only in the owner.
pub open spec fn method_resolution(entries: Seq<(Seq<char>, ClassDefView)>, m: crate::dex::raw::MethodView,
    dispatch: MethodDispatch) -> ResolutionView {
    if find_class(entries, m.class_type) is None {
        ResolutionView::Missing(MissingReason::MissingOwner, Seq::empty())
    } else {
        let declared_only = dispatch != MethodDispatch::Virtual || m.name == "<init>"@;
        let owners = if declared_only {
            seq![m.class_type]
        } else {
            search_order(entries, seq![m.class_type], Seq::empty())
        };
        match scan_method_owners(entries, owners, 0, m.name, m.proto.parameters, m.proto.return_type, dispatch,
            Scan { candidates: Seq::empty(), mismatch: false }) {
            Ok(o) => ResolutionView::Resolved(Some(o)),
            Err(st) => ResolutionView::Missing(
                if st.mismatch {
                    MissingReason::MemberKindMismatch
                } else if st.candidates.len() == 0 {
                    MissingReason::MissingMethod
                } else {
                    MissingReason::ChangedPrototype
                },
                st.candidates,
            ),
        }
    }
}

/// Looking for field `name:field_type` among the definitions `defs[i..]` of class `owner`.
pub open spec fn scan_fields(owner: Seq<char>, defs: Seq<FieldDefView>, i: nat, name: Seq<char>,
    field_type: Seq<char>, is_static: bool, st: Scan) -> core::result::Result<usize, Scan>
    decreases defs.len() - i,
{
    if i >= defs.len() {
        Err(st)
    } else {
        let d = defs[i as int];
        if d.name != name {
            scan_fields(owner, defs, i + 1, name, field_type, is_static, st)
        } else {
            let c = st.candidates.push(field_reference_text(owner, d.name, d.field_type));
            if d.field_type == field_type {
                if d.is_static == is_static {
                    Ok(d.origin)
                } else {
                    scan_fields(owner, defs, i + 1, name, field_type, is_static, Scan { candidates: c, mismatch: true })
                }
            } else {
                scan_fields(owner, defs, i + 1, name, field_type, is_static, Scan { candidates: c, mismatch: st.mismatch })
            }
        }
    }
}

/// Looking for a field in the classes `owners[j..]`, in order.
pub open spec fn scan_field_owners(entries: Seq<(Seq<char>, ClassDefView)>, owners: Seq<Seq<char>>, j: nat,
    name: Seq<char>, field_type: Seq<char>, is_static: bool, st: Scan) -> core::result::Result<usize, Scan>
    decreases owners.len() - j,
{
    if j >= owners.len() {
        Err(st)
    } else {
        match lookup_class(entries, owners[j as int]) {
            None => scan_field_owners(entries, owners, j + 1, name, field_type, is_static, st),
            Some(c) => match scan_fields(owners[j as int], c.fields, 0, name, field_type, is_static, st) {
                Ok(o) => Ok(o),
                Err(st2) => scan_field_owners(entries, owners, j + 1, name, field_type, is_static, st2),
            },
        }
    }
}

/// What resolving a field reference gives: static fields only in the owner, instance fields
/// through the supertypes.
pub open spec fn field_resolution(entries: Seq<(Seq<char>, ClassDefView)>, f: crate::dex::raw::FieldView,
    is_static: bool) -> ResolutionView {
    if find_class(entries, f.class_type) is None {
        ResolutionView::Missing(MissingReason::MissingOwner, Seq::empty())
    } else {
        let owners = if is_static {
            seq![f.class_type]
        } else {
            search_order(entries, seq![f.class_type], Seq::empty())
        };
        match scan_field_owners(entries, owners, 0, f.name, f.field_type, is_static,
            Scan { candidates: Seq::empty(), mismatch: false }) {
            Ok(o) => ResolutionView::Resolved(Some(o)),
            Err(st) => ResolutionView::Missing(
                if st.mismatch {
                    MissingReason::MemberKindMismatch
                } else if st.candidates.len() == 0 {
                    MissingReason::MissingField
                } else {
                    MissingReason::ChangedDescriptor
                },
                st.candidates,
            ),
        }
    }
}

/// Field definition `k` of the class `owners[j]`, when that class is indexed and has one.
pub open spec fn field_def_at(entries: Seq<(Seq<char>, ClassDefView)>, owners: Seq<Seq<char>>, j: int, k: int)
    -> Option<FieldDefView> {
    if 0 <= j < owners.len() {
        match lookup_class(entries, owners[j]) {
            Some(c) => if 0 <= k < c.fields.len() {
                Some(c.fields[k])
            } else {
                None
            },
            None => None,
        }
    } else {
        None
    }
}

/// A field definition with the name and type asked for.
pub open spec fn field_same(d: FieldDefView, name: Seq<char>, field_type: Seq<char>) -> bool {
    d.name == name && d.field_type == field_type
}

/// Scanning the definitions `defs[i..]` of `owner`: it finds a definition exactly when one from
/// `i` on has the name, type and staticness asked for, and returns the origin of one; else it
/// has met a definition of the other staticness exactly when one has the name and type, and has
/// gathered the spellings of all definitions with the name.
proof fn lemma_scan_fields(owner: Seq<char>, defs: Seq<FieldDefView>, i: nat, name: Seq<char>, field_type: Seq<char>,
    is_static: bool, st: Scan)
    ensures
        scan_fields(owner, defs, i, name, field_type, is_static, st) is Ok <==> exists|k: int| i <= k < defs.len()
            && field_same(#[trigger] defs[k], name, field_type) && defs[k].is_static == is_static,
        scan_fields(owner, defs, i, name, field_type, is_static, st) matches Ok(o) ==> exists|k: int| i <= k
            < defs.len() && field_same(#[trigger] defs[k], name, field_type) && defs[k].is_static == is_static
            && defs[k].origin == o,
        scan_fields(owner, defs, i, name, field_type, is_static, st) matches Err(st2) ==> (st2.mismatch <==> (
            st.mismatch || exists|k: int| i <= k < defs.len() && field_same(#[trigger] defs[k], name, field_type)))
            && forall|x: Seq<char>| st2.candidates.contains(x) <==> (st.candidates.contains(x) || exists|k: int|
                i <= k < defs.len() && (#[trigger] defs[k]).name == name && x == field_reference_text(owner,
                defs[k].name, defs[k].field_type)),
    decreases defs.len() - i,
{
    if i < defs.len() {
        let d = defs[i as int];
        let c = st.candidates.push(field_reference_text(owner, d.name, d.field_type));
        let next = if d.name != name {
            st
        } else if d.field_type == field_type {
            Scan { candidates: c, mismatch: true }
        } else {
            Scan { candidates: c, mismatch: st.mismatch }
        };
        lemma_scan_fields(owner, defs, i + 1, name, field_type, is_static, next);
        if d.name == name {
            assert forall|x: Seq<char>| c.contains(x) <==> (st.candidates.contains(x) || x == field_reference_text(
                owner,
                d.name,
                d.field_type,
            )) by {
                if c.contains(x) && !st.candidates.contains(x) {
                    let q = choose|q: int| 0 <= q < c.len() && c[q] == x;
                    if q < st.candidates.len() {
                        assert(st.candidates[q] == x);
                    }
                }
                if x == field_reference_text(owner, d.name, d.field_type) {
                    assert(c[c.len() - 1] == x);
                }
                if st.candidates.contains(x) {
                    let q = choose|q: int| 0 <= q < st.candidates.len() && st.candidates[q] == x;
                    assert(c[q] == x);
                }
            }
        }
    }
}

/// Scanning the classes `owners[j..]` in turn, as `lemma_scan_fields` describes for one class.
proof fn lemma_scan_field_owners(entries: Seq<(Seq<char>, ClassDefView)>, owners: Seq<Seq<char>>, j: nat,
    name: Seq<char>, field_type: Seq<char>, is_static: bool, st: Scan)
    ensures
        scan_field_owners(entries, owners, j, name, field_type, is_static, st) is Ok <==> exists|a: int, k: int|
            #[trigger] field_def_at(entries, owners, a, k) matches Some(d) && field_same(d, name, field_type)
            && d.is_static == is_static && j <= a,
        scan_field_owners(entries, owners, j, name, field_type, is_static, st) matches Ok(o) ==> exists|a: int,
            k: int| #[trigger] field_def_at(entries, owners, a, k) matches Some(d) && field_same(d, name, field_type)
            && d.is_static == is_static && d.origin == o && j <= a,
        scan_field_owners(entries, owners, j, name, field_type, is_static, st) matches Err(st2) ==> (st2.mismatch
            <==> (st.mismatch || exists|a: int, k: int| #[trigger] field_def_at(entries, owners, a, k)
            matches Some(d) && field_same(d, name, field_type) && j <= a)) && forall|x: Seq<char>| st2.candidates.contains(
            x) <==> (st.candidates.contains(x) || exists|a: int, k: int| #[trigger] field_def_at(
            entries,
            owners,
            a,
            k,
        ) matches Some(d) && d.name == name && x == field_reference_text(owners[a], d.name, d.field_type) && j <= a),
    decreases owners.len() - j,
{
    if j < owners.len() {
        let ja = j as int;
        match lookup_class(entries, owners[ja]) {
            None => {
                lemma_scan_field_owners(entries, owners, j + 1, name, field_type, is_static, st);
                assert forall|k: int| #[trigger] field_def_at(entries, owners, ja, k) is None by {}
            },
            Some(c) => {
                lemma_scan_fields(owners[ja], c.fields, 0, name, field_type, is_static, st);
                assert forall|k: int| 0 <= k < c.fields.len() implies #[trigger] field_def_at(entries, owners, ja, k)
                    == Some(c.fields[k]) by {}
                assert forall|k: int| !(0 <= k < c.fields.len()) implies #[trigger] field_def_at(entries, owners, ja,
                    k) is None by {}
                match scan_fields(owners[ja], c.fields, 0, name, field_type, is_static, st) {
                    Ok(o) => {
                        let k = choose|k: int| 0 <= k < c.fields.len() && field_same(#[trigger] c.fields[k], name,
                            field_type) && c.fields[k].is_static == is_static && c.fields[k].origin == o;
                        assert(field_def_at(entries, owners, ja, k) == Some(c.fields[k]));
                    },
                    Err(st2) => {
                        lemma_scan_field_owners(entries, owners, j + 1, name, field_type, is_static, st2);
                        if exists|k: int| 0 <= k < c.fields.len() && field_same(#[trigger] c.fields[k], name,
                            field_type) && c.fields[k].is_static == is_static {
                            assert(false);
                        }
                        if st2.mismatch && !st.mismatch {
                            let k = choose|k: int| 0 <= k < c.fields.len() && field_same(#[trigger] c.fields[k],
                                name, field_type);
                            assert(field_def_at(entries, owners, ja, k) == Some(c.fields[k]));
                        }
                        assert forall|x: Seq<char>| st2.candidates.contains(x) && !st.candidates.contains(x)
                            implies exists|a: int, k: int| #[trigger] field_def_at(entries, owners, a, k)
                            matches Some(d) && d.name == name && x == field_reference_text(owners[a], d.name,
                            d.field_type) && j <= a by {
                            let k = choose|k: int| 0 <= k < c.fields.len() && (#[trigger] c.fields[k]).name == name
                                && x == field_reference_text(owners[ja], c.fields[k].name, c.fields[k].field_type);
                            assert(field_def_at(entries, owners, ja, k) == Some(c.fields[k]));
                        }
                    },
                }
            },
        }
    }
}

/// The classes a field reference is looked up in: only the owner for a static access, else the
/// owner and its supertypes.
pub open spec fn field_owners(entries: Seq<(Seq<char>, ClassDefView)>, f: crate::dex::raw::FieldView, is_static: bool)
    -> Seq<Seq<char>> {
    if is_static {
        seq![f.class_type]
    } else {
        search_order(entries, seq![f.class_type], Seq::empty())
    }
}

/// Some searched class defines a field with the name and type of `f`, with staticness
/// `is_static` when `exact`.
pub open spec fn field_defined(entries: Seq<(Seq<char>, ClassDefView)>, owners: Seq<Seq<char>>,
    f: crate::dex::raw::FieldView, is_static: bool, exact: bool) -> bool {
    exists|a: int, k: int| #[trigger] field_def_at(entries, owners, a, k) matches Some(d) && field_same(d, f.name,
        f.field_type) && (exact ==> d.is_static == is_static)
}

/// Some searched class defines a field with the name of `f`.
pub open spec fn field_named(entries: Seq<(Seq<char>, ClassDefView)>, owners: Seq<Seq<char>>,
    f: crate::dex::raw::FieldView) -> bool {
    exists|a: int, k: int| #[trigger] field_def_at(entries, owners, a, k) matches Some(d) && d.name == f.name
}

/// What resolving a field reference gives, in the terms of the classes searched (only the owner
/// for a static access, else the owner and its supertypes): an owner that is not indexed is a
/// missing owner with no candidates; otherwise the reference resolves exactly when a searched
/// class defines a field of that name and type with the asked staticness, to the origin of one
/// such definition; when it does not, the reason is a kind mismatch when such a field exists with
/// the other staticness, a missing field when no searched class defines a field of that name, and
/// a changed descriptor otherwise, and the candidates are the spellings of the fields of that name.
pub proof fn lemma_field_resolution(entries: Seq<(Seq<char>, ClassDefView)>, f: crate::dex::raw::FieldView,
    is_static: bool)
    ensures
        find_class(entries, f.class_type) is None ==> field_resolution(entries, f, is_static)
            == ResolutionView::Missing(MissingReason::MissingOwner, Seq::empty()),
        find_class(entries, f.class_type) is Some ==> (field_resolution(entries, f, is_static) is Resolved
            <==> field_defined(entries, field_owners(entries, f, is_static), f, is_static, true)),
        find_class(entries, f.class_type) is Some ==> (field_resolution(entries, f, is_static) matches
            ResolutionView::Resolved(o) ==> exists|a: int, k: int| #[trigger] field_def_at(entries, field_owners(
            entries,
            f,
            is_static,
        ), a, k) matches Some(d) && field_same(d, f.name, f.field_type) && d.is_static == is_static && o == Some(
            d.origin,
        )),
        find_class(entries, f.class_type) is Some ==> (field_resolution(entries, f, is_static) matches
            ResolutionView::Missing(reason, cands) ==> {
            let owners = field_owners(entries, f, is_static);
            &&& (reason == MissingReason::MemberKindMismatch <==> field_defined(entries, owners, f, is_static, false))
            &&& (reason == MissingReason::MissingField <==> !field_defined(entries, owners, f, is_static, false)
                && !field_named(entries, owners, f))
            &&& (reason == MissingReason::ChangedDescriptor <==> !field_defined(entries, owners, f, is_static, false)
                && field_named(entries, owners, f))
            &&& forall|x: Seq<char>| cands.contains(x) <==> exists|a: int, k: int| #[trigger] field_def_at(
                entries,
                owners,
                a,
                k,
            ) matches Some(d) && d.name == f.name && x == field_reference_text(owners[a], d.name, d.field_type)
        }),
{
    let owners = field_owners(entries, f, is_static);
    let st0 = Scan { candidates: Seq::empty(), mismatch: false };
    lemma_scan_field_owners(entries, owners, 0, f.name, f.field_type, is_static, st0);
    if let Err(st) = scan_field_owners(entries, owners, 0, f.name, f.field_type, is_static, st0) {
        if field_named(entries, owners, f) {
            let (a, k) = choose|a: int, k: int| #[trigger] field_def_at(entries, owners, a, k) matches Some(d)
                && d.name == f.name;
            let d = field_def_at(entries, owners, a, k)->Some_0;
            assert(st.candidates.contains(field_reference_text(owners[a], d.name, d.field_type)));
        }
        if st.candidates.len() > 0 {
            assert(st.candidates.contains(st.candidates[0]));
        }
    }
}

/// Method definition `k` of the class `owners[j]`, when that class is indexed and has one.
pub open spec fn method_def_at(entries: Seq<(Seq<char>, ClassDefView)>, owners: Seq<Seq<char>>, j: int, k: int)
    -> Option<MethodDefView> {
    if 0 <= j < owners.len() {
        match lookup_class(entries, owners[j]) {
            Some(c) => if 0 <= k < c.methods.len() {
                Some(c.methods[k])
            } else {
                None
            },
            None => None,
        }
    } else {
        None
    }
}

/// A method definition with the name, parameters and return type asked for.
pub open spec fn method_same(d: MethodDefView, name: Seq<char>, parameters: Seq<Seq<char>>, return_type: Seq<char>)
    -> bool {
    d.name == name && d.parameters == parameters && d.return_type == return_type
}

/// Scanning the definitions `defs[i..]` of `owner`: it finds a definition exactly when one from
/// `i` on has the signature asked for and can serve the dispatch, and returns the origin of one;
/// else it has met a definition of the wrong kind exactly when one has the signature, and has
/// gathered the spellings of all definitions with the name.
proof fn lemma_scan_methods(owner: Seq<char>, defs: Seq<MethodDefView>, i: nat, name: Seq<char>,
    parameters: Seq<Seq<char>>, return_type: Seq<char>, dispatch: MethodDispatch, st: Scan)
    ensures
        scan_methods(owner, defs, i, name, parameters, return_type, dispatch, st) is Ok <==> exists|k: int| i <= k
            < defs.len() && method_same(#[trigger] defs[k], name, parameters, return_type) && kind_matches(defs[k],
            dispatch, name),
        scan_methods(owner, defs, i, name, parameters, return_type, dispatch, st) matches Ok(o) ==> exists|k: int|
            i <= k < defs.len() && method_same(#[trigger] defs[k], name, parameters, return_type) && kind_matches(
            defs[k],
            dispatch,
            name,
        ) && defs[k].origin == o,
        scan_methods(owner, defs, i, name, parameters, return_type, dispatch, st) matches Err(st2) ==> (st2.mismatch
            <==> (st.mismatch || exists|k: int| i <= k < defs.len() && method_same(#[trigger] defs[k], name,
            parameters, return_type))) && forall|x: Seq<char>| st2.candidates.contains(x) <==> (
            st.candidates.contains(x) || exists|k: int| i <= k < defs.len() && (#[trigger] defs[k]).name == name && x
                == method_reference_text(owner, defs[k].name, defs[k].parameters, defs[k].return_type)),
    decreases defs.len() - i,
{
    if i < defs.len() {
        let d = defs[i as int];
        let c = st.candidates.push(method_reference_text(owner, d.name, d.parameters, d.return_type));
        let next = if d.name != name {
            st
        } else if d.parameters == parameters && d.return_type == return_type {
            Scan { candidates: c, mismatch: true }
        } else {
            Scan { candidates: c, mismatch: st.mismatch }
        };
        lemma_scan_methods(owner, defs, i + 1, name, parameters, return_type, dispatch, next);
        if d.name == name {
            assert forall|x: Seq<char>| c.contains(x) <==> (st.candidates.contains(x) || x == method_reference_text(
                owner,
                d.name,
                d.parameters,
                d.return_type,
            )) by {
                if c.contains(x) && !st.candidates.contains(x) {
                    let q = choose|q: int| 0 <= q < c.len() && c[q] == x;
                    if q < st.candidates.len() {
                        assert(st.candidates[q] == x);
                    }
                }
                if x == method_reference_text(owner, d.name, d.parameters, d.return_type) {
                    assert(c[c.len() - 1] == x);
                }
                if st.candidates.contains(x) {
                    let q = choose|q: int| 0 <= q < st.candidates.len() && st.candidates[q] == x;
                    assert(c[q] == x);
                }
            }
        }
    }
}

/// Scanning the classes `owners[j..]` in turn, as `lemma_scan_methods` describes for one class.
proof fn lemma_scan_method_owners(entries: Seq<(Seq<char>, ClassDefView)>, owners: Seq<Seq<char>>, j: nat,
    name: Seq<char>, parameters: Seq<Seq<char>>, return_type: Seq<char>, dispatch: MethodDispatch, st: Scan)
    ensures
        scan_method_owners(entries, owners, j, name, parameters, return_type, dispatch, st) is Ok <==> exists|a: int,
            k: int| #[trigger] method_def_at(entries, owners, a, k) matches Some(d) && method_same(d, name,
            parameters, return_type) && kind_matches(d, dispatch, name) && j <= a,
        scan_method_owners(entries, owners, j, name, parameters, return_type, dispatch, st) matches Ok(o) ==> exists|
            a: int,
            k: int,
        | #[trigger] method_def_at(entries, owners, a, k) matches Some(d) && method_same(d, name, parameters,
            return_type) && kind_matches(d, dispatch, name) && d.origin == o && j <= a,
        scan_method_owners(entries, owners, j, name, parameters, return_type, dispatch, st) matches Err(st2) ==> (
        st2.mismatch <==> (st.mismatch || exists|a: int, k: int| #[trigger] method_def_at(entries, owners, a, k)
            matches Some(d) && method_same(d, name, parameters, return_type) && j <= a)) && forall|x: Seq<char>|
            st2.candidates.contains(x) <==> (st.candidates.contains(x) || exists|a: int, k: int| #[trigger]
            method_def_at(entries, owners, a, k) matches Some(d) && d.name == name && x == method_reference_text(
            owners[a],
            d.name,
            d.parameters,
            d.return_type,
        ) && j <= a),
    decreases owners.len() - j,
{
    if j < owners.len() {
        let ja = j as int;
        match lookup_class(entries, owners[ja]) {
            None => {
                lemma_scan_method_owners(entries, owners, j + 1, name, parameters, return_type, dispatch, st);
                assert forall|k: int| #[trigger] method_def_at(entries, owners, ja, k) is None by {}
            },
            Some(c) => {
                lemma_scan_methods(owners[ja], c.methods, 0, name, parameters, return_type, dispatch, st);
                assert forall|k: int| 0 <= k < c.methods.len() implies #[trigger] method_def_at(entries, owners, ja, k)
                    == Some(c.methods[k]) by {}
                assert forall|k: int| !(0 <= k < c.methods.len()) implies #[trigger] method_def_at(entries, owners,
                    ja, k) is None by {}
                match scan_methods(owners[ja], c.methods, 0, name, parameters, return_type, dispatch, st) {
                    Ok(o) => {
                        let k = choose|k: int| 0 <= k < c.methods.len() && method_same(#[trigger] c.methods[k],
                            name, parameters, return_type) && kind_matches(c.methods[k], dispatch, name)
                            && c.methods[k].origin == o;
                        assert(method_def_at(entries, owners, ja, k) == Some(c.methods[k]));
                    },
                    Err(st2) => {
                        lemma_scan_method_owners(entries, owners, j + 1, name, parameters, return_type, dispatch, st2);
                        if exists|k: int| 0 <= k < c.methods.len() && method_same(#[trigger] c.methods[k], name,
                            parameters, return_type) && kind_matches(c.methods[k], dispatch, name) {
                            assert(false);
                        }
                        if st2.mismatch && !st.mismatch {
                            let k = choose|k: int| 0 <= k < c.methods.len() && method_same(
                                #[trigger] c.methods[k],
                                name,
                                parameters,
                                return_type,
                            );
                            assert(method_def_at(entries, owners, ja, k) == Some(c.methods[k]));
                        }
                        assert forall|x: Seq<char>| st2.candidates.contains(x) && !st.candidates.contains(x)
                            implies exists|a: int, k: int| #[trigger] method_def_at(entries, owners, a, k)
                            matches Some(d) && d.name == name && x == method_reference_text(owners[a], d.name,
                            d.parameters, d.return_type) && j <= a by {
                            let k = choose|k: int| 0 <= k < c.methods.len() && (#[trigger] c.methods[k]).name == name
                                && x == method_reference_text(owners[ja], c.methods[k].name, c.methods[k].parameters,
                                c.methods[k].return_type);
                            assert(method_def_at(entries, owners, ja, k) == Some(c.methods[k]));
                        }
                    },
                }
            },
        }
    }
}

/// The classes a method reference is looked up in: only the owner for a static or direct call
/// and for a constructor, else the owner and its supertypes.
pub open spec fn method_owners(entries: Seq<(Seq<char>, ClassDefView)>, m: crate::dex::raw::MethodView,
    dispatch: MethodDispatch) -> Seq<Seq<char>> {
    if dispatch != MethodDispatch::Virtual || m.name == "<init>"@ {
        seq![m.class_type]
    } else {
        search_order(entries, seq![m.class_type], Seq::empty())
    }
}

/// Some searched class defines a method with the signature of `m`, one that can serve the
/// dispatch when `exact`.
pub open spec fn method_defined(entries: Seq<(Seq<char>, ClassDefView)>, owners: Seq<Seq<char>>,
    m: crate::dex::raw::MethodView, dispatch: MethodDispatch, exact: bool) -> bool {
    exists|a: int, k: int| #[trigger] method_def_at(entries, owners, a, k) matches Some(d) && method_same(d, m.name,
        m.proto.parameters, m.proto.return_type) && (exact ==> kind_matches(d, dispatch, m.name))
}

/// Some searched class defines a method with the name of `m`.
pub open spec fn method_named(entries: Seq<(Seq<char>, ClassDefView)>, owners: Seq<Seq<char>>,
    m: crate::dex::raw::MethodView) -> bool {
    exists|a: int, k: int| #[trigger] method_def_at(entries, owners, a, k) matches Some(d) && d.name == m.name
}

/// What resolving a method reference gives, in the terms of the classes searched: an owner that
/// is not indexed is a missing owner with no candidates; otherwise the reference resolves exactly
/// when a searched class defines a method of that name, parameters and return type of a kind that
/// serves the dispatch (static for a static call, non-static direct for a direct call, non-static
/// virtual and no constructor for a virtual call), to the origin of one such definition; when it
/// does not, the reason is a kind mismatch when a method with that signature exists, a missing
/// method when no searched class defines a method of that name, and a changed prototype
/// otherwise, and the candidates are the spellings of the methods of that name.
pub proof fn lemma_method_resolution(entries: Seq<(Seq<char>, ClassDefView)>, m: crate::dex::raw::MethodView,
    dispatch: MethodDispatch)
    ensures
        find_class(entries, m.class_type) is None ==> method_resolution(entries, m, dispatch)
            == ResolutionView::Missing(MissingReason::MissingOwner, Seq::empty()),
        find_class(entries, m.class_type) is Some ==> (method_resolution(entries, m, dispatch) is Resolved
            <==> method_defined(entries, method_owners(entries, m, dispatch), m, dispatch, true)),
        find_class(entries, m.class_type) is Some ==> (method_resolution(entries, m, dispatch) matches
            ResolutionView::Resolved(o) ==> exists|a: int, k: int| #[trigger] method_def_at(entries, method_owners(
            entries,
            m,
            dispatch,
        ), a, k) matches Some(d) && method_same(d, m.name, m.proto.parameters, m.proto.return_type)
            && kind_matches(d, dispatch, m.name) && o == Some(d.origin)),
        find_class(entries, m.class_type) is Some ==> (method_resolution(entries, m, dispatch) matches
            ResolutionView::Missing(reason, cands) ==> {
            let owners = method_owners(entries, m, dispatch);
            &&& (reason == MissingReason::MemberKindMismatch <==> method_defined(entries, owners, m, dispatch, false))
            &&& (reason == MissingReason::MissingMethod <==> !method_defined(entries, owners, m, dispatch, false)
                && !method_named(entries, owners, m))
            &&& (reason == MissingReason::ChangedPrototype <==> !method_defined(entries, owners, m, dispatch, false)
                && method_named(entries, owners, m))
            &&& forall|x: Seq<char>| cands.contains(x) <==> exists|a: int, k: int| #[trigger] method_def_at(
                entries,
                owners,
                a,
                k,
            ) matches Some(d) && d.name == m.name && x == method_reference_text(owners[a], d.name, d.parameters,
                d.return_type)
        }),
{
    let owners = method_owners(entries, m, dispatch);
    let st0 = Scan { candidates: Seq::empty(), mismatch: false };
    lemma_scan_method_owners(entries, owners, 0, m.name, m.proto.parameters, m.proto.return_type, dispatch, st0);
    if let Err(st) = scan_method_owners(entries, owners, 0, m.name, m.proto.parameters, m.proto.return_type, dispatch,
        st0) {
        if method_named(entries, owners, m) {
            let (a, k) = choose|a: int, k: int| #[trigger] method_def_at(entries, owners, a, k) matches Some(d)
                && d.name == m.name;
            let d = method_def_at(entries, owners, a, k)->Some_0;
            assert(st.candidates.contains(method_reference_text(owners[a], d.name, d.parameters, d.return_type)));
        }
        if st.candidates.len() > 0 {
            assert(st.candidates.contains(st.candidates[0]));
        }
    }
}

/// What resolving a class reference gives: primitives resolve to nothing; object classes must
/// be indexed.
pub open spec fn class_resolution(entries: Seq<(Seq<char>, ClassDefView)>, descriptor: Seq<char>) -> ResolutionView {
    match object_descriptor_of(descriptor) {
        None => ResolutionView::Resolved(None),
        Some(d) => match lookup_class(entries, d) {
            Some(c) => ResolutionView::Resolved(Some(c.origin)),
            None => ResolutionView::Missing(MissingReason::MissingOwner, Seq::empty()),
        },
    }
}


impl DefinitionIndex {
    /// The classes a member of `owner` is looked up in: only `owner` when `declared_only`, else
    /// the depth-first walk through its supertypes.
    pub fn member_search_order(&self, owner: &str, declared_only: bool) -> (r: Vec<String>)
        requires
            self.wf(),
        ensures
            strs(r@) == if declared_only {
                seq![owner@]
            } else {
                search_order(self.entries(), seq![owner@], Seq::empty())
            },
    {
        if declared_only {
            let r = vec![owner.to_owned()];
            assert(strs(r@) =~= seq![owner@]);
            return r;
        }
        let ghost entries = self.entries();
        let mut order: Vec<String> = Vec::new();
        let mut pending: Vec<String> = vec![owner.to_owned()];
        assert(strs(pending@) =~= seq![owner@]);
        assert(strs(order@) =~= Seq::<Seq<char>>::empty());
        while pending.len() > 0
            invariant
                self.wf(),
                entries == self.entries(),
                search_order(entries, seq![owner@], Seq::empty()) == search_order(entries, strs(pending@),
                    strs(order@)),
            decreases pending@.len() + unvisited_weight(entries, strs(order@), entries.len()),
        {
            let ghost p = strs(pending@);
            let ghost v = strs(order@);
            let current = pending.pop().unwrap();
            assert(strs(pending@) =~= p.drop_last());
            assert(current@ == p.last());
            if contains_string(&order, &current) {
                continue;
            }
            proof {
                lemma_unvisited_weight(entries, v, current@, entries.len());
                lemma_find_class(entries, current@);
            }
            order.push(current.clone());
            assert(strs(order@) =~= v.push(current@));
            match self.find(current.as_str()) {
                None => {},
                Some(k) => {
                    let class = &self.classes[k];
                    let ghost before = strs(pending@);
                    let mut j = class.interfaces.len();
                    while j > 0
                        invariant
                            j <= class.interfaces.len(),
                            strs(pending@) == before + strs(class.interfaces@).reverse().take(
                                (class.interfaces@.len() - j) as int),
                        decreases j,
                    {
                        j = j - 1;
                        let ghost prev = strs(pending@);
                        pending.push(class.interfaces[j].clone());
                        let ghost rv = strs(class.interfaces@).reverse();
                        assert(rv[(class.interfaces@.len() - j - 1) as int] == class.interfaces@[j as int]@);
                        assert(rv.take((class.interfaces@.len() - j) as int) =~= rv.take(
                            (class.interfaces@.len() - j - 1) as int).push(class.interfaces@[j as int]@));
                        assert(strs(pending@) =~= prev.push(class.interfaces@[j as int]@));
                    }
                    assert(strs(class.interfaces@).reverse().take(class.interfaces@.len() as int) =~= strs(
                        class.interfaces@).reverse());
                    if let Some(sup) = &class.superclass {
                        let ghost prev = strs(pending@);
                        pending.push(sup.clone());
                        assert(strs(pending@) =~= prev.push(sup@));
                    }
                    assert(entries[k as int].1 == class@);
                    assert(strs(pending@) =~= push_supertypes(p.drop_last(), class@));
                },
            }
        }
        order
    }
}


fn is_constructor_name(name: &String) -> (r: bool)
    ensures
        r == (name@ == "<init>"@),
{
    let init = vec!['<', 'i', 'n', 'i', 't', '>'];
    proof {
        reveal_strlit("<init>");
    }
    assert(init@ =~= "<init>"@);
    chars_equal(str_chars(name.as_str()).as_slice(), init.as_slice())
}

/// Whether a method definition can serve a call with the given dispatch.
pub fn method_kind_matches(definition: &MethodDefinition, dispatch: MethodDispatch, name: &String) -> (r: bool)
    ensures
        r == kind_matches(definition@, dispatch, name@),
{
    match dispatch {
        MethodDispatch::Static => definition.is_static,
        MethodDispatch::Direct => !definition.is_static && definition.is_direct,
        MethodDispatch::Virtual => !definition.is_static && !definition.is_direct && !is_constructor_name(name),
    }
}

fn missing(reason: MissingReason, candidates: Vec<String>) -> (r: MemberResolution)
    ensures
        resolution_matches(r, ResolutionView::Missing(reason, strs(candidates@))),
{
    let sorted = sorted_unique_strings(candidates);
    MemberResolution::Missing { reason, candidates: sorted }
}

impl DefinitionIndex {
    /// Resolves a reference to the class `descriptor`.
    pub fn resolve_class(&self, descriptor: &str) -> (r: MemberResolution)
        requires
            self.wf(),
        ensures
            resolution_matches(r, class_resolution(self.entries(), descriptor@)),
    {
        let d = match object_descriptor(descriptor) {
            Some(d) => d,
            None => return MemberResolution::Resolved(None),
        };
        proof {
            lemma_find_class(self.entries(), d@);
        }
        match self.find(d) {
            Some(k) => {
                assert(self.entries()[k as int].1 == self.classes@[k as int]@);
                MemberResolution::Resolved(Some(self.classes[k].origin))
            },
            None => {
                let empty: Vec<String> = Vec::new();
                assert(strs(empty@) =~= Seq::<Seq<char>>::empty());
                missing(MissingReason::MissingOwner, empty)
            },
        }
    }

    /// Resolves a reference to `method`, called with the given dispatch.
    pub fn resolve_method(&self, method: &MethodId, dispatch: MethodDispatch) -> (r: MemberResolution)
        requires
            self.wf(),
        ensures
            resolution_matches(r, method_resolution(self.entries(), method@, dispatch)),
    {
        let ghost entries = self.entries();
        let ghost target = method@;
        if self.find(method.class_type.as_str()).is_none() {
            let empty: Vec<String> = Vec::new();
            assert(strs(empty@) =~= Seq::<Seq<char>>::empty());
            return missing(MissingReason::MissingOwner, empty);
        }
        let declared_only = match dispatch {
            MethodDispatch::Virtual => is_constructor_name(&method.name),
            _ => true,
        };
        proof {
            reveal_strlit("<init>");
        }
        let owners = self.member_search_order(method.class_type.as_str(), declared_only);
        let ghost init = Scan { candidates: Seq::empty(), mismatch: false };
        let ghost ow = strs(owners@);
        let ghost spec_owners = if dispatch != MethodDispatch::Virtual || target.name == "<init>"@ {
            seq![target.class_type]
        } else {
            search_order(entries, seq![target.class_type], Seq::empty())
        };
        assert(ow == spec_owners);
        let mut candidates: Vec<String> = Vec::new();
        let mut mismatch = false;
        assert(strs(candidates@) =~= Seq::<Seq<char>>::empty());
        let mut j: usize = 0;
        while j < owners.len()
            invariant
                j <= owners.len(),
                self.wf(),
                entries == self.entries(),
                target == method@,
                ow == strs(owners@),
                ow == spec_owners,
                spec_owners == (if dispatch != MethodDispatch::Virtual || target.name == "<init>"@ {
                    seq![target.class_type]
                } else {
                    search_order(entries, seq![target.class_type], Seq::empty())
                }),
                find_class(entries, target.class_type) is Some,
                init == (Scan { candidates: Seq::empty(), mismatch: false }),
                scan_method_owners(entries, ow, 0, target.name, target.proto.parameters, target.proto.return_type,
                    dispatch, init) == scan_method_owners(entries, ow, j as nat, target.name, target.proto.parameters,
                    target.proto.return_type, dispatch, Scan { candidates: strs(candidates@), mismatch }),
            decreases owners.len() - j,
        {
            let owner = &owners[j];
            assert(owner@ == ow[j as int]);
            proof {
                lemma_find_class(entries, owner@);
            }
            match self.find(owner.as_str()) {
                None => {},
                Some(k) => {
                    let class = &self.classes[k];
                    assert(entries[k as int].1 == class@);
                    let ghost st0 = Scan { candidates: strs(candidates@), mismatch };
                    let mut i: usize = 0;
                    while i < class.methods.len()
                        invariant
                            i <= class.methods.len(),
                            target == method@,
                            entries == self.entries(),
                            j < owners.len(),
                            ow == strs(owners@),
                            ow == spec_owners,
                spec_owners == (if dispatch != MethodDispatch::Virtual || target.name == "<init>"@ {
                    seq![target.class_type]
                } else {
                    search_order(entries, seq![target.class_type], Seq::empty())
                }),
                            owner@ == ow[j as int],
                            find_class(entries, target.class_type) is Some,
                            init == (Scan { candidates: Seq::empty(), mismatch: false }),
                            lookup_class(entries, ow[j as int]) == Some(class@),
                            scan_method_owners(entries, ow, 0, target.name, target.proto.parameters,
                                target.proto.return_type, dispatch, init) == scan_method_owners(entries, ow, j as nat,
                                target.name, target.proto.parameters, target.proto.return_type, dispatch, st0),
                            scan_methods(owner@, class@.methods, 0, target.name, target.proto.parameters,
                                target.proto.return_type, dispatch, st0) == scan_methods(owner@, class@.methods, i as nat,
                                target.name, target.proto.parameters, target.proto.return_type, dispatch,
                                Scan { candidates: strs(candidates@), mismatch }),
                        decreases class.methods.len() - i,
                    {
                        let d = &class.methods[i];
                        assert(class@.methods[i as int] == d@);
                        if strings_equal(&d.name, &method.name) {
                            let ghost prev = strs(candidates@);
                            candidates.push(format_method_reference(owner.as_str(), d.name.as_str(),
                                d.parameters.as_slice(), d.return_type.as_str()));
                            assert(strs(candidates@) =~= prev.push(method_reference_text(owner@, d@.name, d@.parameters,
                                d@.return_type)));
                            if string_lists_equal(&d.parameters, &method.proto.parameters) && strings_equal(
                                &d.return_type, &method.proto.return_type) {
                                if method_kind_matches(d, dispatch, &method.name) {
                                    assert(scan_methods(owner@, class@.methods, 0, target.name, target.proto.parameters,
                                        target.proto.return_type, dispatch, st0) == Ok::<usize, Scan>(d.origin));
                                    assert(scan_method_owners(entries, ow, j as nat, target.name, target.proto.parameters,
                                        target.proto.return_type, dispatch, st0) == Ok::<usize, Scan>(d.origin));
                                    assert(scan_method_owners(entries, ow, 0, target.name, target.proto.parameters,
                                        target.proto.return_type, dispatch, init) == Ok::<usize, Scan>(d.origin));

                                    return MemberResolution::Resolved(Some(d.origin));
                                }
                                mismatch = true;
                            }
                        }
                        i = i + 1;
                    }
                },
            }
            j = j + 1;
        }
        let reason = if mismatch {
            MissingReason::MemberKindMismatch
        } else if candidates.len() == 0 {
            MissingReason::MissingMethod
        } else {
            MissingReason::ChangedPrototype
        };
        missing(reason, candidates)
    }

    /// Resolves a reference to `field`, accessed statically or not.
    pub fn resolve_field(&self, field: &FieldId, is_static: bool) -> (r: MemberResolution)
        requires
            self.wf(),
        ensures
            resolution_matches(r, field_resolution(self.entries(), field@, is_static)),
    {
        let ghost entries = self.entries();
        let ghost target = field@;
        if self.find(field.class_type.as_str()).is_none() {
            let empty: Vec<String> = Vec::new();
            assert(strs(empty@) =~= Seq::<Seq<char>>::empty());
            return missing(MissingReason::MissingOwner, empty);
        }
        let owners = self.member_search_order(field.class_type.as_str(), is_static);
        let ghost init = Scan { candidates: Seq::empty(), mismatch: false };
        let ghost ow = strs(owners@);
        let ghost spec_owners = if is_static {
            seq![target.class_type]
        } else {
            search_order(entries, seq![target.class_type], Seq::empty())
        };
        assert(ow == spec_owners);
        let mut candidates: Vec<String> = Vec::new();
        let mut mismatch = false;
        assert(strs(candidates@) =~= Seq::<Seq<char>>::empty());
        let mut j: usize = 0;
        while j < owners.len()
            invariant
                j <= owners.len(),
                self.wf(),
                entries == self.entries(),
                target == field@,
                ow == strs(owners@),
                ow == spec_owners,
                spec_owners == (if is_static {
                    seq![target.class_type]
                } else {
                    search_order(entries, seq![target.class_type], Seq::empty())
                }),
                find_class(entries, target.class_type) is Some,
                init == (Scan { candidates: Seq::empty(), mismatch: false }),
                scan_field_owners(entries, ow, 0, target.name, target.field_type, is_static, init)
                    == scan_field_owners(entries, ow, j as nat, target.name, target.field_type, is_static,
                    Scan { candidates: strs(candidates@), mismatch }),
            decreases owners.len() - j,
        {
            let owner = &owners[j];
            assert(owner@ == ow[j as int]);
            proof {
                lemma_find_class(entries, owner@);
            }
            match self.find(owner.as_str()) {
                None => {},
                Some(k) => {
                    let class = &self.classes[k];
                    assert(entries[k as int].1 == class@);
                    let ghost st0 = Scan { candidates: strs(candidates@), mismatch };
                    let mut i: usize = 0;
                    while i < class.fields.len()
                        invariant
                            i <= class.fields.len(),
                            target == field@,
                            entries == self.entries(),
                            j < owners.len(),
                            ow == strs(owners@),
                            ow == spec_owners,
                spec_owners == (if is_static {
                    seq![target.class_type]
                } else {
                    search_order(entries, seq![target.class_type], Seq::empty())
                }),
                            owner@ == ow[j as int],
                            find_class(entries, target.class_type) is Some,
                            init == (Scan { candidates: Seq::empty(), mismatch: false }),
                            lookup_class(entries, ow[j as int]) == Some(class@),
                            scan_field_owners(entries, ow, 0, target.name, target.field_type, is_static, init)
                                == scan_field_owners(entries, ow, j as nat, target.name, target.field_type, is_static,
                                st0),
                            scan_fields(owner@, class@.fields, 0, target.name, target.field_type, is_static, st0)
                                == scan_fields(owner@, class@.fields, i as nat, target.name, target.field_type,
                                is_static, Scan { candidates: strs(candidates@), mismatch }),
                        decreases class.fields.len() - i,
                    {
                        let d = &class.fields[i];
                        assert(class@.fields[i as int] == d@);
                        if strings_equal(&d.name, &field.name) {
                            let ghost prev = strs(candidates@);
                            candidates.push(format_field_reference(owner.as_str(), d.name.as_str(),
                                d.field_type.as_str()));
                            assert(strs(candidates@) =~= prev.push(field_reference_text(owner@, d@.name,
                                d@.field_type)));
                            if strings_equal(&d.field_type, &field.field_type) {
                                if d.is_static == is_static {
                                    assert(scan_fields(owner@, class@.fields, 0, target.name, target.field_type,
                                        is_static, st0) == Ok::<usize, Scan>(d.origin));
                                    assert(scan_field_owners(entries, ow, j as nat, target.name, target.field_type,
                                        is_static, st0) == Ok::<usize, Scan>(d.origin));
                                    assert(self.entries() == entries);
                                    return MemberResolution::Resolved(Some(d.origin));
                                }
                                mismatch = true;
                            }
                        }
                        i = i + 1;
                    }
                },
            }
            j = j + 1;
        }
        let reason = if mismatch {
            MissingReason::MemberKindMismatch
        } else if candidates.len() == 0 {
            MissingReason::MissingField
        } else {
            MissingReason::ChangedDescriptor
        };
        missing(reason, candidates)
    }
}


// ----- mapped candidates -----

/// The new descriptor a mapping gives `k`: the first pair with key `k`.
pub open spec fn mapping_lookup(m: Seq<(String, String)>, k: Seq<char>) -> Option<Seq<char>>
    decreases m.len(),
{
    if m.len() == 0 {
        None
    } else if m[0].0@ == k {
        Some(m[0].1@)
    } else {
        mapping_lookup(m.drop_first(), k)
    }
}

/// The signatures of the methods of `defs` named `name`, as members of `owner`.
pub open spec fn named_method_signatures(owner: Seq<char>, defs: Seq<MethodDefView>, name: Seq<char>) -> Seq<Seq<char>>
    decreases defs.len(),
{
    if defs.len() == 0 {
        Seq::empty()
    } else {
        let r = named_method_signatures(owner, defs.drop_last(), name);
        let d = defs.last();
        if d.name == name { r.push(method_reference_text(owner, d.name, d.parameters, d.return_type)) } else { r }
    }
}

/// The signatures of the fields of `defs` named `name`, as members of `owner`.
pub open spec fn named_field_signatures(owner: Seq<char>, defs: Seq<FieldDefView>, name: Seq<char>) -> Seq<Seq<char>>
    decreases defs.len(),
{
    if defs.len() == 0 {
        Seq::empty()
    } else {
        let r = named_field_signatures(owner, defs.drop_last(), name);
        let d = defs.last();
        if d.name == name { r.push(field_reference_text(owner, d.name, d.field_type)) } else { r }
    }
}

/// What a mapping suggests for an unresolved reference into `owner`: the mapped owner, and the
/// members of the mapped class with the same name.
pub open spec fn mapped_candidates(entries: Seq<(Seq<char>, ClassDefView)>, kind: ReferenceKind, owner: Seq<char>,
    name: Option<Seq<char>>, mappings: Seq<(String, String)>) -> Seq<Seq<char>> {
    match mapping_lookup(mappings, owner) {
        None => Seq::empty(),
        Some(m) => {
            let base = seq!["mapped_owner="@ + m];
            match (lookup_class(entries, m), name) {
                (Some(c), Some(n)) => match kind {
                    ReferenceKind::Class => base,
                    ReferenceKind::Method => base + named_method_signatures(m, c.methods, n),
                    ReferenceKind::Field => base + named_field_signatures(m, c.fields, n),
                },
                _ => base,
            }
        },
    }
}

fn lookup_mapping<'a>(mappings: &'a [(String, String)], key: &str) -> (r: Option<&'a String>)
    ensures
        match r {
            Some(v) => mapping_lookup(mappings@, key@) == Some(v@),
            None => mapping_lookup(mappings@, key@) is None,
        },
{
    let k = str_chars(key);
    let mut i: usize = 0;
    assert(mappings@.skip(0) =~= mappings@);
    while i < mappings.len()
        invariant
            i <= mappings.len(),
            k@ == key@,
            mapping_lookup(mappings@, key@) == mapping_lookup(mappings@.skip(i as int), key@),
        decreases mappings.len() - i,
    {
        assert(mappings@.skip(i as int)[0] == mappings@[i as int]);
        if chars_equal(str_chars(mappings[i].0.as_str()).as_slice(), k.as_slice()) {
            return Some(&mappings[i].1);
        }
        assert(mappings@.skip(i as int).drop_first() =~= mappings@.skip(i + 1));
        i = i + 1;
    }
    None
}

impl DefinitionIndex {
    /// What the mapping suggests for an unresolved reference into `owner`, ordered, each once.
    pub fn mapped_member_candidates(&self, kind: ReferenceKind, owner: &str, name: Option<&str>,
        mappings: &[(String, String)]) -> (r: Vec<String>)
        requires
            self.wf(),
        ensures
            strs(r@) == sorted_set(mapped_candidates(self.entries(), kind, owner@, match name {
                Some(n) => Some(n@),
                None => None,
            }, mappings@)),
            forall|x: Seq<char>| strs(r@).contains(x) <==> mapped_candidates(self.entries(), kind, owner@, match name {
                Some(n) => Some(n@),
                None => None,
            }, mappings@).contains(x),
    {
        let ghost name_view = match name {
            Some(n) => Some(n@),
            None => None,
        };
        let ghost raw = mapped_candidates(self.entries(), kind, owner@, name_view, mappings@);
        let mapped_owner = match lookup_mapping(mappings, owner) {
            Some(m) => m,
            None => {
                let r: Vec<String> = Vec::new();
                assert(strs(r@) =~= Seq::<Seq<char>>::empty());
                proof {
                    lemma_sorted_set(strs(r@), raw);
                }
                return r;
            },
        };
        let mut candidates: Vec<String> = Vec::new();
        let mut first = String::new();
        push_str(&mut first, "mapped_owner=");
        push_str(&mut first, mapped_owner.as_str());
        candidates.push(first);
        let ghost base = seq!["mapped_owner="@ + mapped_owner@];
        assert(strs(candidates@) =~= base);
        proof {
            lemma_find_class(self.entries(), mapped_owner@);
        }
        match (self.find(mapped_owner.as_str()), name) {
            (Some(k), Some(n)) => {
                let class = &self.classes[k];
                assert(self.entries()[k as int].1 == class@);
                let nm = n.to_owned();
                match kind {
                    ReferenceKind::Class => {},
                    ReferenceKind::Method => {
                        let mut i: usize = 0;
                        assert(method_views(class.methods@).take(0) =~= Seq::<MethodDefView>::empty());
                        while i < class.methods.len()
                            invariant
                                i <= class.methods.len(),
                                strs(candidates@) == base + named_method_signatures(mapped_owner@,
                                    method_views(class.methods@).take(i as int), nm@),
                            decreases class.methods.len() - i,
                        {
                            let d = &class.methods[i];
                            let ghost prev = strs(candidates@);
                            proof {
                                let t = method_views(class.methods@).take(i + 1);
                                assert(t.drop_last() =~= method_views(class.methods@).take(i as int));
                                assert(t.last() == d@);
                            }
                            if strings_equal(&d.name, &nm) {
                                candidates.push(format_method_reference(mapped_owner.as_str(), d.name.as_str(),
                                    d.parameters.as_slice(), d.return_type.as_str()));
                                assert(strs(candidates@) =~= prev.push(method_reference_text(mapped_owner@, d@.name,
                                    d@.parameters, d@.return_type)));
                            }
                            i = i + 1;
                        }
                        assert(method_views(class.methods@).take(class.methods@.len() as int) =~= class@.methods);
                    },
                    ReferenceKind::Field => {
                        let mut i: usize = 0;
                        assert(field_views(class.fields@).take(0) =~= Seq::<FieldDefView>::empty());
                        while i < class.fields.len()
                            invariant
                                i <= class.fields.len(),
                                strs(candidates@) == base + named_field_signatures(mapped_owner@,
                                    field_views(class.fields@).take(i as int), nm@),
                            decreases class.fields.len() - i,
                        {
                            let d = &class.fields[i];
                            let ghost prev = strs(candidates@);
                            proof {
                                let t = field_views(class.fields@).take(i + 1);
                                assert(t.drop_last() =~= field_views(class.fields@).take(i as int));
                                assert(t.last() == d@);
                            }
                            if strings_equal(&d.name, &nm) {
                                candidates.push(format_field_reference(mapped_owner.as_str(), d.name.as_str(),
                                    d.field_type.as_str()));
                                assert(strs(candidates@) =~= prev.push(field_reference_text(mapped_owner@, d@.name,
                                    d@.field_type)));
                            }
                            i = i + 1;
                        }
                        assert(field_views(class.fields@).take(class.fields@.len() as int) =~= class@.fields);
                    },
                }
            },
            _ => {},
        }
        assert(strs(candidates@) == raw);
        let r = sorted_unique_strings(candidates);
        proof {
            lemma_sorted_set(strs(r@), raw);
        }
        r
    }
}


// ----- auditing references -----

/// Where a reference was made.
#[derive(Debug, Clone)]
pub struct ReferenceSite {
    pub source: DexLocation,
    pub source_class: String,
    pub source_method: String,
    pub offset_code_unit: Option<u32>,
}

/// A reference that did not resolve.
#[derive(Debug, Clone)]
pub struct UnresolvedReference {
    pub kind: ReferenceKind,
    pub reference: String,
    pub reason: MissingReason,
    pub site: ReferenceSite,
    pub candidates: Vec<String>,
}

/// What the audit counted.
#[derive(Debug, Clone, Copy, PartialEq, Eq, Default)]
pub struct AuditStats {
    pub target_parts: usize,
    pub target_dex_files: usize,
    pub source_dex_files: usize,
    pub standalone_reference_dex_files: usize,
    pub class_definitions: usize,
    pub method_definitions: usize,
    pub field_definitions: usize,
    pub references_scanned: usize,
    pub references_excluded: usize,
    pub references_resolved: usize,
    pub references_resolved_in_another_split: usize,
}

pub struct SiteView {
    pub apk_part: Seq<char>,
    pub dex_file: Seq<char>,
    pub standalone: bool,
    pub source_class: Seq<char>,
    pub source_method: Seq<char>,
    pub offset_code_unit: Option<u32>,
}

impl View for ReferenceSite {
    type V = SiteView;

    open spec fn view(&self) -> SiteView {
        SiteView {
            apk_part: self.source.apk_part@,
            dex_file: self.source.dex_file@,
            standalone: self.source.standalone,
            source_class: self.source_class@,
            source_method: self.source_method@,
            offset_code_unit: self.offset_code_unit,
        }
    }
}

pub struct UnresolvedView {
    pub kind: ReferenceKind,
    pub reference: Seq<char>,
    pub reason: MissingReason,
    pub site: SiteView,
    pub candidates: Seq<Seq<char>>,
}

impl View for UnresolvedReference {
    type V = UnresolvedView;

    open spec fn view(&self) -> UnresolvedView {
        UnresolvedView {
            kind: self.kind,
            reference: self.reference@,
            reason: self.reason,
            site: self.site@,
            candidates: strs(self.candidates@),
        }
    }
}

pub open spec fn unresolved_views(v: Seq<UnresolvedReference>) -> Seq<UnresolvedView> {
    v.map_values(|u: UnresolvedReference| u@)
}

/// The reference counters and the unresolved references found so far.
pub struct AuditView {
    pub scanned: usize,
    pub excluded: usize,
    pub resolved: usize,
    pub other_split: usize,
    pub unresolved: Seq<UnresolvedView>,
}

pub open spec fn audit_view(stats: AuditStats, unresolved: Seq<UnresolvedReference>) -> AuditView {
    AuditView {
        scanned: stats.references_scanned,
        excluded: stats.references_excluded,
        resolved: stats.references_resolved,
        other_split: stats.references_resolved_in_another_split,
        unresolved: unresolved_views(unresolved),
    }
}

/// A reference from `site` resolved in another part of a split bundle; standalone DEX files
/// belong to no part.
pub open spec fn another_split(site: SiteView, target: DexLocation) -> bool {
    !site.standalone && !target.standalone && site.apk_part != target.apk_part@
}

/// The audit after recording the resolution of one reference.
pub open spec fn record(st: AuditView, index: DefinitionIndex, mappings: Seq<(String, String)>, kind: ReferenceKind,
    reference: Seq<char>, owner: Seq<char>, member: Option<Seq<char>>, site: SiteView, res: ResolutionView) -> AuditView {
    match res {
        ResolutionView::Resolved(o) => AuditView {
            scanned: st.scanned,
            excluded: st.excluded,
            resolved: bump(st.resolved),
            other_split: if o matches Some(k) && k < index.locations().len() && another_split(site,
                index.locations()[k as int]) {
                bump(st.other_split)
            } else {
                st.other_split
            },
            unresolved: st.unresolved,
        },
        ResolutionView::Missing(reason, cands) => AuditView {
            scanned: st.scanned,
            excluded: st.excluded,
            resolved: st.resolved,
            other_split: st.other_split,
            unresolved: st.unresolved.push(UnresolvedView {
                kind,
                reference,
                reason,
                site,
                candidates: sorted_set(cands + mapped_candidates(index.entries(), kind, owner, member, mappings)),
            }),
        },
    }
}

/// The audit after counting a reference to `owner`: skipped when the policy says so.
pub open spec fn counted(st: AuditView) -> AuditView {
    AuditView { scanned: bump(st.scanned), excluded: st.excluded, resolved: st.resolved, other_split: st.other_split,
        unresolved: st.unresolved }
}

pub open spec fn excluded(st: AuditView) -> AuditView {
    AuditView { scanned: st.scanned, excluded: bump(st.excluded), resolved: st.resolved, other_split: st.other_split,
        unresolved: st.unresolved }
}

/// The audit after a reference to the type `descriptor` from `site`; primitives are no reference.
pub open spec fn class_ref(st: AuditView, index: DefinitionIndex, policy: PrefixPolicy, mappings: Seq<(String, String)>,
    descriptor: Seq<char>, site: SiteView) -> AuditView {
    match object_descriptor_of(descriptor) {
        None => st,
        Some(owner) => if policy.skips(owner) {
            excluded(counted(st))
        } else {
            record(counted(st), index, mappings, ReferenceKind::Class, owner, owner, None, site,
                class_resolution(index.entries(), owner))
        },
    }
}

/// The audit after references to the types `descriptors[i..]` from `site`.
pub open spec fn class_refs(st: AuditView, index: DefinitionIndex, policy: PrefixPolicy, mappings: Seq<(String, String)>,
    descriptors: Seq<Seq<char>>, site: SiteView, i: nat) -> AuditView
    decreases descriptors.len() - i,
{
    if i >= descriptors.len() {
        st
    } else {
        class_refs(class_ref(st, index, policy, mappings, descriptors[i as int], site), index, policy, mappings,
            descriptors, site, i + 1)
    }
}

/// The audit after a reference to method `m` from `site`: first the types of its prototype, then
/// the method itself.
pub open spec fn method_ref(st: AuditView, index: DefinitionIndex, policy: PrefixPolicy, mappings: Seq<(String, String)>,
    m: crate::dex::raw::MethodView, dispatch: MethodDispatch, site: SiteView) -> AuditView {
    let st1 = class_ref(st, index, policy, mappings, m.proto.return_type, site);
    let st2 = class_refs(st1, index, policy, mappings, m.proto.parameters, site, 0);
    if policy.skips(m.class_type) {
        excluded(counted(st2))
    } else {
        record(counted(st2), index, mappings, ReferenceKind::Method,
            method_reference_text(m.class_type, m.name, m.proto.parameters, m.proto.return_type), m.class_type,
            Some(m.name), site, method_resolution(index.entries(), m, dispatch))
    }
}

/// The audit after a reference to field `f` from `site`: first its type, then the field itself.
pub open spec fn field_ref(st: AuditView, index: DefinitionIndex, policy: PrefixPolicy, mappings: Seq<(String, String)>,
    f: crate::dex::raw::FieldView, is_static: bool, site: SiteView) -> AuditView {
    let st1 = class_ref(st, index, policy, mappings, f.field_type, site);
    if policy.skips(f.class_type) {
        excluded(counted(st1))
    } else {
        record(counted(st1), index, mappings, ReferenceKind::Field,
            field_reference_text(f.class_type, f.name, f.field_type), f.class_type, Some(f.name), site,
            field_resolution(index.entries(), f, is_static))
    }
}

fn copy_site(site: &ReferenceSite) -> (r: ReferenceSite)
    ensures
        r@ == site@,
{
    ReferenceSite {
        source: copy_location(&site.source),
        source_class: site.source_class.clone(),
        source_method: site.source_method.clone(),
        offset_code_unit: site.offset_code_unit,
    }
}

/// Whether a reference from `source` resolved to a definition in another part of the bundle.
pub fn resolved_in_another_split(source: &DexLocation, target: &DexLocation) -> (r: bool)
    ensures
        r == (!source.standalone && !target.standalone && source.apk_part@ != target.apk_part@),
{
    !source.standalone && !target.standalone && !strings_equal(&source.apk_part, &target.apk_part)
}

/// The references the audit walks, and what it keeps while walking them.
pub struct AuditContext<'a> {
    pub index: &'a DefinitionIndex,
    pub policy: &'a PrefixPolicy,
    pub mappings: &'a [(String, String)],
}

#[verifier::rlimit(30)]
fn record_resolution(ctx: &AuditContext, kind: ReferenceKind, reference: String, owner: &str, member_name: Option<&str>,
    site: ReferenceSite, resolution: MemberResolution, stats: &mut AuditStats, unresolved: &mut Vec<UnresolvedReference>)
    requires
        ctx.index.wf(),
    ensures
        forall|rv: ResolutionView| resolution_matches(resolution, rv) ==> audit_view(*final(stats), final(unresolved)@)
            == record(audit_view(*old(stats), old(unresolved)@), *ctx.index, ctx.mappings@, kind, reference@, owner@,
            match member_name {
                Some(n) => Some(n@),
                None => None,
            }, site@, rv),
        final(stats).target_parts == old(stats).target_parts,
        final(stats).target_dex_files == old(stats).target_dex_files,
        final(stats).source_dex_files == old(stats).source_dex_files,
        final(stats).standalone_reference_dex_files == old(stats).standalone_reference_dex_files,
        final(stats).class_definitions == old(stats).class_definitions,
        final(stats).method_definitions == old(stats).method_definitions,
        final(stats).field_definitions == old(stats).field_definitions,
        final(stats).references_scanned == old(stats).references_scanned,
        final(stats).references_excluded == old(stats).references_excluded,
{
    match resolution {
        MemberResolution::Resolved(origin) => {
            stats.references_resolved = stats.references_resolved.wrapping_add(1);
            if let Some(k) = origin {
                if k < ctx.index.locations.len() && resolved_in_another_split(&site.source, &ctx.index.locations[k]) {
                    stats.references_resolved_in_another_split =
                        stats.references_resolved_in_another_split.wrapping_add(1);
                }
            }
        },
        MemberResolution::Missing { reason, candidates } => {
            let mut all = candidates;
            let mapped = ctx.index.mapped_member_candidates(kind, owner, member_name, ctx.mappings);
            let ghost first = strs(all@);
            let mut i: usize = 0;
            while i < mapped.len()
                invariant
                    i <= mapped.len(),
                    strs(all@) == first + strs(mapped@).take(i as int),
                decreases mapped.len() - i,
            {
                let ghost prev = strs(all@);
                all.push(mapped[i].clone());
                assert(strs(all@) =~= prev.push(mapped@[i as int]@));
                assert(strs(mapped@).take(i + 1) =~= strs(mapped@).take(i as int).push(mapped@[i as int]@));
                i = i + 1;
            }
            assert(strs(mapped@).take(mapped@.len() as int) =~= strs(mapped@));
            let sorted = sorted_unique_strings(all);
            let ghost prev_unresolved = unresolved@;
            unresolved.push(UnresolvedReference { kind, reference, reason, site, candidates: sorted });
            proof {
                assert forall|rv: ResolutionView| resolution_matches(resolution, rv) implies audit_view(*stats,
                    unresolved@) == record(audit_view(*old(stats), old(unresolved)@), *ctx.index, ctx.mappings@, kind,
                    reference@, owner@, match member_name {
                        Some(n) => Some(n@),
                        None => None,
                    }, site@, rv) by {
                    if let ResolutionView::Missing(r2, cands) = rv {
                        let mc = mapped_candidates(ctx.index.entries(), kind, owner@, match member_name {
                            Some(n) => Some(n@),
                            None => None,
                        }, ctx.mappings@);
                        let sm = sorted_set(mc);
                        assert forall|x: Seq<char>| strs(sorted@).contains(x) <==> (cands + mc).contains(x) by {
                            let all_v = first + strs(mapped@);
                            if all_v.contains(x) {
                                let k = choose|k: int| 0 <= k < all_v.len() && all_v[k] == x;
                                if k < first.len() {
                                    assert(first[k] == x);
                                    assert(first.contains(x));
                                    assert(cands.contains(x));
                                    let m = choose|m: int| 0 <= m < cands.len() && cands[m] == x;
                                    assert((cands + mc)[m] == x);
                                } else {
                                    assert(strs(mapped@)[k - first.len()] == x);
                                    assert(strs(mapped@).contains(x));
                                    assert(mc.contains(x));
                                    let m = choose|m: int| 0 <= m < mc.len() && mc[m] == x;
                                    assert((cands + mc)[m + cands.len()] == x);
                                }
                            }
                            if (cands + mc).contains(x) {
                                let k = choose|k: int| 0 <= k < (cands + mc).len() && (cands + mc)[k] == x;
                                if k < cands.len() {
                                    assert(cands[k] == x);
                                    assert(cands.contains(x));
                                    assert(first.contains(x));
                                    let m = choose|m: int| 0 <= m < first.len() && first[m] == x;
                                    assert(all_v[m] == x);
                                } else {
                                    assert(mc[k - cands.len()] == x);
                                    assert(mc.contains(x));
                                    assert(strs(mapped@).contains(x));
                                    let m = choose|m: int| 0 <= m < strs(mapped@).len() && strs(mapped@)[m] == x;
                                    assert(all_v[m + first.len()] == x);
                                }
                            }
                        }
                        lemma_sorted_set(strs(sorted@), cands + mc);
                        assert(unresolved_views(unresolved@) =~= unresolved_views(prev_unresolved).push(
                            unresolved@.last()@));
                    }
                }
            }
        },
    }
}


/// The counters other than the reference counters are unchanged.
pub open spec fn same_counts(a: AuditStats, b: AuditStats) -> bool {
    &&& a.target_parts == b.target_parts
    &&& a.target_dex_files == b.target_dex_files
    &&& a.source_dex_files == b.source_dex_files
    &&& a.standalone_reference_dex_files == b.standalone_reference_dex_files
    &&& a.class_definitions == b.class_definitions
    &&& a.method_definitions == b.method_definitions
    &&& a.field_definitions == b.field_definitions
}

fn audit_class_reference(ctx: &AuditContext, descriptor: &str, site: ReferenceSite, stats: &mut AuditStats,
    unresolved: &mut Vec<UnresolvedReference>)
    requires
        ctx.index.wf(),
    ensures
        audit_view(*final(stats), final(unresolved)@) == class_ref(audit_view(*old(stats), old(unresolved)@),
            *ctx.index, *ctx.policy, ctx.mappings@, descriptor@, site@),
        same_counts(*final(stats), *old(stats)),
{
    let owner = match object_descriptor(descriptor) {
        Some(o) => o,
        None => return,
    };
    stats.references_scanned = stats.references_scanned.wrapping_add(1);
    if ctx.policy.excludes(owner) {
        stats.references_excluded = stats.references_excluded.wrapping_add(1);
        return;
    }
    let resolution = ctx.index.resolve_class(owner);
    record_resolution(ctx, ReferenceKind::Class, owner.to_owned(), owner, None, site, resolution, stats, unresolved);
}

fn audit_class_references(ctx: &AuditContext, descriptors: &Vec<String>, site: &ReferenceSite, stats: &mut AuditStats,
    unresolved: &mut Vec<UnresolvedReference>)
    requires
        ctx.index.wf(),
    ensures
        audit_view(*final(stats), final(unresolved)@) == class_refs(audit_view(*old(stats), old(unresolved)@),
            *ctx.index, *ctx.policy, ctx.mappings@, strs(descriptors@), site@, 0),
        same_counts(*final(stats), *old(stats)),
{
    let ghost start = audit_view(*stats, unresolved@);
    let mut i: usize = 0;
    while i < descriptors.len()
        invariant
            i <= descriptors.len(),
            ctx.index.wf(),
            same_counts(*stats, *old(stats)),
            class_refs(start, *ctx.index, *ctx.policy, ctx.mappings@, strs(descriptors@), site@, 0) == class_refs(
                audit_view(*stats, unresolved@), *ctx.index, *ctx.policy, ctx.mappings@, strs(descriptors@), site@,
                i as nat),
        decreases descriptors.len() - i,
    {
        audit_class_reference(ctx, descriptors[i].as_str(), copy_site(site), stats, unresolved);
        i = i + 1;
    }
}

fn audit_method_reference(ctx: &AuditContext, method: &MethodId, dispatch: MethodDispatch, site: ReferenceSite,
    stats: &mut AuditStats, unresolved: &mut Vec<UnresolvedReference>)
    requires
        ctx.index.wf(),
    ensures
        audit_view(*final(stats), final(unresolved)@) == method_ref(audit_view(*old(stats), old(unresolved)@),
            *ctx.index, *ctx.policy, ctx.mappings@, method@, dispatch, site@),
        same_counts(*final(stats), *old(stats)),
{
    audit_class_reference(ctx, method.proto.return_type.as_str(), copy_site(&site), stats, unresolved);
    audit_class_references(ctx, &method.proto.parameters, &site, stats, unresolved);
    stats.references_scanned = stats.references_scanned.wrapping_add(1);
    if ctx.policy.excludes(method.class_type.as_str()) {
        stats.references_excluded = stats.references_excluded.wrapping_add(1);
        return;
    }
    let reference = format_method_reference(method.class_type.as_str(), method.name.as_str(),
        method.proto.parameters.as_slice(), method.proto.return_type.as_str());
    let resolution = ctx.index.resolve_method(method, dispatch);
    record_resolution(ctx, ReferenceKind::Method, reference, method.class_type.as_str(), Some(method.name.as_str()),
        site, resolution, stats, unresolved);
}

fn audit_field_reference(ctx: &AuditContext, field: &FieldId, is_static: bool, site: ReferenceSite,
    stats: &mut AuditStats, unresolved: &mut Vec<UnresolvedReference>)
    requires
        ctx.index.wf(),
    ensures
        audit_view(*final(stats), final(unresolved)@) == field_ref(audit_view(*old(stats), old(unresolved)@),
            *ctx.index, *ctx.policy, ctx.mappings@, field@, is_static, site@),
        same_counts(*final(stats), *old(stats)),
{
    audit_class_reference(ctx, field.field_type.as_str(), copy_site(&site), stats, unresolved);
    stats.references_scanned = stats.references_scanned.wrapping_add(1);
    if ctx.policy.excludes(field.class_type.as_str()) {
        stats.references_excluded = stats.references_excluded.wrapping_add(1);
        return;
    }
    let reference = format_field_reference(field.class_type.as_str(), field.name.as_str(), field.field_type.as_str());
    let resolution = ctx.index.resolve_field(field, is_static);
    record_resolution(ctx, ReferenceKind::Field, reference, field.class_type.as_str(), Some(field.name.as_str()),
        site, resolution, stats, unresolved);
}

/// The site of a reference made by an instruction of method `method` of class `class`.
pub open spec fn instruction_site(loc: DexLocation, class: Seq<char>, method: Seq<char>, offset: u32) -> SiteView {
    SiteView {
        apk_part: loc.apk_part@,
        dex_file: loc.dex_file@,
        standalone: loc.standalone,
        source_class: class,
        source_method: method,
        offset_code_unit: Some(offset),
    }
}

/// The site of a declaration in class `class`.
pub open spec fn declaration_site(loc: DexLocation, class: Seq<char>, member: Seq<char>) -> SiteView {
    SiteView {
        apk_part: loc.apk_part@,
        dex_file: loc.dex_file@,
        standalone: loc.standalone,
        source_class: class,
        source_method: member,
        offset_code_unit: None,
    }
}

fn site_at(location: &DexLocation, class: &String, method: &str, offset: Option<u32>) -> (r: ReferenceSite)
    ensures
        r.source.apk_part@ == location.apk_part@,
        r.source.dex_file@ == location.dex_file@,
        r.source.standalone == location.standalone,
        r.source_class@ == class@,
        r.source_method@ == method@,
        r.offset_code_unit == offset,
{
    ReferenceSite {
        source: copy_location(location),
        source_class: class.clone(),
        source_method: method.to_owned(),
        offset_code_unit: offset,
    }
}

/// The audit after the type references `refs[i..]` of a method body.
pub open spec fn type_uses_from(st: AuditView, index: DefinitionIndex, policy: PrefixPolicy,
    mappings: Seq<(String, String)>, raw: RawDex, loc: DexLocation, class: Seq<char>, method: Seq<char>,
    refs: Seq<InstructionReference>, i: nat) -> AuditView
    decreases refs.len() - i,
{
    if i >= refs.len() {
        st
    } else {
        let r = refs[i as int];
        let st2 = if (r.index as int) < raw.types@.len() {
            class_ref(st, index, policy, mappings, raw.types@[r.index as int]@,
                instruction_site(loc, class, method, r.offset_code_unit))
        } else {
            st
        };
        type_uses_from(st2, index, policy, mappings, raw, loc, class, method, refs, i + 1)
    }
}

/// The audit after the method references `refs[i..]` of a method body.
pub open spec fn method_uses_from(st: AuditView, index: DefinitionIndex, policy: PrefixPolicy,
    mappings: Seq<(String, String)>, raw: RawDex, loc: DexLocation, class: Seq<char>, method: Seq<char>,
    refs: Seq<InstructionReference>, i: nat) -> AuditView
    decreases refs.len() - i,
{
    if i >= refs.len() {
        st
    } else {
        let r = refs[i as int];
        let st2 = if (r.index as int) < raw.methods@.len() {
            method_ref(st, index, policy, mappings, raw.methods@[r.index as int]@, dispatch_of(r.opcode),
                instruction_site(loc, class, method, r.offset_code_unit))
        } else {
            st
        };
        method_uses_from(st2, index, policy, mappings, raw, loc, class, method, refs, i + 1)
    }
}

/// The audit after the field references `refs[i..]` of a method body.
pub open spec fn field_uses_from(st: AuditView, index: DefinitionIndex, policy: PrefixPolicy,
    mappings: Seq<(String, String)>, raw: RawDex, loc: DexLocation, class: Seq<char>, method: Seq<char>,
    refs: Seq<InstructionReference>, i: nat) -> AuditView
    decreases refs.len() - i,
{
    if i >= refs.len() {
        st
    } else {
        let r = refs[i as int];
        let st2 = if (r.index as int) < raw.fields@.len() {
            field_ref(st, index, policy, mappings, raw.fields@[r.index as int]@, 0x60 <= r.opcode <= 0x6d,
                instruction_site(loc, class, method, r.offset_code_unit))
        } else {
            st
        };
        field_uses_from(st2, index, policy, mappings, raw, loc, class, method, refs, i + 1)
    }
}

fn audit_type_uses(ctx: &AuditContext, raw: &RawDex, location: &DexLocation, class: &String, method: &String,
    refs: &Vec<InstructionReference>, stats: &mut AuditStats, unresolved: &mut Vec<UnresolvedReference>)
    requires
        ctx.index.wf(),
    ensures
        audit_view(*final(stats), final(unresolved)@) == type_uses_from(audit_view(*old(stats), old(unresolved)@),
            *ctx.index, *ctx.policy, ctx.mappings@, *raw, *location, class@, method@, refs@, 0),
        same_counts(*final(stats), *old(stats)),
{
    let ghost start = audit_view(*stats, unresolved@);
    let mut i: usize = 0;
    while i < refs.len()
        invariant
            i <= refs.len(),
            ctx.index.wf(),
            same_counts(*stats, *old(stats)),
            type_uses_from(start, *ctx.index, *ctx.policy, ctx.mappings@, *raw, *location, class@, method@, refs@, 0)
                == type_uses_from(audit_view(*stats, unresolved@), *ctx.index, *ctx.policy, ctx.mappings@, *raw,
                *location, class@, method@, refs@, i as nat),
        decreases refs.len() - i,
    {
        let r = refs[i];
        if (r.index as usize) < raw.types.len() {
            let site = site_at(location, class, method.as_str(), Some(r.offset_code_unit));
            audit_class_reference(ctx, raw.types[r.index as usize].as_str(), site, stats, unresolved);
        }
        i = i + 1;
    }
}

fn audit_method_uses(ctx: &AuditContext, raw: &RawDex, location: &DexLocation, class: &String, method: &String,
    refs: &Vec<InstructionReference>, stats: &mut AuditStats, unresolved: &mut Vec<UnresolvedReference>)
    requires
        ctx.index.wf(),
    ensures
        audit_view(*final(stats), final(unresolved)@) == method_uses_from(audit_view(*old(stats), old(unresolved)@),
            *ctx.index, *ctx.policy, ctx.mappings@, *raw, *location, class@, method@, refs@, 0),
        same_counts(*final(stats), *old(stats)),
{
    let ghost start = audit_view(*stats, unresolved@);
    let mut i: usize = 0;
    while i < refs.len()
        invariant
            i <= refs.len(),
            ctx.index.wf(),
            same_counts(*stats, *old(stats)),
            method_uses_from(start, *ctx.index, *ctx.policy, ctx.mappings@, *raw, *location, class@, method@, refs@, 0)
                == method_uses_from(audit_view(*stats, unresolved@), *ctx.index, *ctx.policy, ctx.mappings@, *raw,
                *location, class@, method@, refs@, i as nat),
        decreases refs.len() - i,
    {
        let r = refs[i];
        if (r.index as usize) < raw.methods.len() {
            let site = site_at(location, class, method.as_str(), Some(r.offset_code_unit));
            audit_method_reference(ctx, &raw.methods[r.index as usize], method_dispatch(r.opcode), site, stats,
                unresolved);
        }
        i = i + 1;
    }
}

fn audit_field_uses(ctx: &AuditContext, raw: &RawDex, location: &DexLocation, class: &String, method: &String,
    refs: &Vec<InstructionReference>, stats: &mut AuditStats, unresolved: &mut Vec<UnresolvedReference>)
    requires
        ctx.index.wf(),
    ensures
        audit_view(*final(stats), final(unresolved)@) == field_uses_from(audit_view(*old(stats), old(unresolved)@),
            *ctx.index, *ctx.policy, ctx.mappings@, *raw, *location, class@, method@, refs@, 0),
        same_counts(*final(stats), *old(stats)),
{
    let ghost start = audit_view(*stats, unresolved@);
    let mut i: usize = 0;
    while i < refs.len()
        invariant
            i <= refs.len(),
            ctx.index.wf(),
            same_counts(*stats, *old(stats)),
            field_uses_from(start, *ctx.index, *ctx.policy, ctx.mappings@, *raw, *location, class@, method@, refs@, 0)
                == field_uses_from(audit_view(*stats, unresolved@), *ctx.index, *ctx.policy, ctx.mappings@, *raw,
                *location, class@, method@, refs@, i as nat),
        decreases refs.len() - i,
    {
        let r = refs[i];
        if (r.index as usize) < raw.fields.len() {
            let site = site_at(location, class, method.as_str(), Some(r.offset_code_unit));
            audit_field_reference(ctx, &raw.fields[r.index as usize], is_static_field_opcode(r.opcode), site, stats,
                unresolved);
        }
        i = i + 1;
    }
}


/// The audit after the declared fields `enc[i..]` of class `class`: the type of each.
pub open spec fn field_decls_from(st: AuditView, index: DefinitionIndex, policy: PrefixPolicy,
    mappings: Seq<(String, String)>, raw: RawDex, loc: DexLocation, class: Seq<char>,
    enc: Seq<crate::dex::class_data::EncodedField>, i: nat) -> AuditView
    decreases enc.len() - i,
{
    if i >= enc.len() {
        st
    } else {
        let idx = enc[i as int].field_idx as int;
        let st2 = if idx < raw.fields@.len() {
            let f = raw.fields@[idx]@;
            class_ref(st, index, policy, mappings, f.field_type, declaration_site(loc, class, f.name + ":"@ + f.field_type))
        } else {
            st
        };
        field_decls_from(st2, index, policy, mappings, raw, loc, class, enc, i + 1)
    }
}

/// The audit after the references of one method body, by kind: types, methods, fields.
pub open spec fn code_uses(st: AuditView, index: DefinitionIndex, policy: PrefixPolicy,
    mappings: Seq<(String, String)>, raw: RawDex, loc: DexLocation, class: Seq<char>, method: Seq<char>,
    code_off: u32) -> AuditView {
    if raw.code_items@.dom().contains(code_off) {
        let s = raw.code_items@[code_off].instruction_summary;
        let st1 = type_uses_from(st, index, policy, mappings, raw, loc, class, method, s.type_ref_uses@, 0);
        let st2 = method_uses_from(st1, index, policy, mappings, raw, loc, class, method, s.method_ref_uses@, 0);
        field_uses_from(st2, index, policy, mappings, raw, loc, class, method, s.field_ref_uses@, 0)
    } else {
        st
    }
}

/// The audit after the declared methods `enc[i..]` of class `class`: the types of each
/// prototype, then the references of each body.
pub open spec fn method_decls_from(st: AuditView, index: DefinitionIndex, policy: PrefixPolicy,
    mappings: Seq<(String, String)>, raw: RawDex, loc: DexLocation, class: Seq<char>,
    enc: Seq<crate::dex::class_data::EncodedMethod>, i: nat) -> AuditView
    decreases enc.len() - i,
{
    if i >= enc.len() {
        st
    } else {
        let idx = enc[i as int].method_idx as int;
        let st2 = if idx < raw.methods@.len() {
            let m = raw.methods@[idx]@;
            let name = method_reference_text(class, m.name, m.proto.parameters, m.proto.return_type);
            let site = declaration_site(loc, class, name);
            let st1 = class_ref(st, index, policy, mappings, m.proto.return_type, site);
            let st2 = class_refs(st1, index, policy, mappings, m.proto.parameters, site, 0);
            code_uses(st2, index, policy, mappings, raw, loc, class, name, enc[i as int].code_off)
        } else {
            st
        };
        method_decls_from(st2, index, policy, mappings, raw, loc, class, enc, i + 1)
    }
}

/// The audit after the declarations of class `c`.
pub open spec fn declared_members(st: AuditView, index: DefinitionIndex, policy: PrefixPolicy,
    mappings: Seq<(String, String)>, raw: RawDex, loc: DexLocation, c: crate::dex::raw::ClassDef) -> AuditView {
    match c.class_data {
        None => st,
        Some(d) => {
            let class = c.class_type@;
            let st1 = field_decls_from(st, index, policy, mappings, raw, loc, class, d.static_fields@, 0);
            let st2 = field_decls_from(st1, index, policy, mappings, raw, loc, class, d.instance_fields@, 0);
            let st3 = method_decls_from(st2, index, policy, mappings, raw, loc, class, d.direct_methods@, 0);
            method_decls_from(st3, index, policy, mappings, raw, loc, class, d.virtual_methods@, 0)
        },
    }
}

/// The audit after classes `i..` of a source DEX file: each class's supertypes, then its
/// declarations.
pub open spec fn source_classes_from(st: AuditView, index: DefinitionIndex, policy: PrefixPolicy,
    mappings: Seq<(String, String)>, raw: RawDex, loc: DexLocation, i: nat) -> AuditView
    decreases raw.classes@.len() - i,
{
    if i >= raw.classes@.len() {
        st
    } else {
        let c = raw.classes@[i as int];
        let site = declaration_site(loc, c.class_type@, "-"@);
        let st1 = match c.superclass {
            Some(sc) => class_ref(st, index, policy, mappings, sc@, site),
            None => st,
        };
        let st2 = class_refs(st1, index, policy, mappings, strs(c.interfaces@), site, 0);
        let st3 = declared_members(st2, index, policy, mappings, raw, loc, c);
        source_classes_from(st3, index, policy, mappings, raw, loc, i + 1)
    }
}

/// A DEX file whose references are audited.
#[derive(Debug)]
pub struct SourceDex {
    pub location: DexLocation,
    pub raw: RawDex,
}

fn audit_field_declarations(ctx: &AuditContext, raw: &RawDex, location: &DexLocation, class: &String,
    enc: &Vec<crate::dex::class_data::EncodedField>, stats: &mut AuditStats, unresolved: &mut Vec<UnresolvedReference>)
    requires
        ctx.index.wf(),
    ensures
        audit_view(*final(stats), final(unresolved)@) == field_decls_from(audit_view(*old(stats), old(unresolved)@),
            *ctx.index, *ctx.policy, ctx.mappings@, *raw, *location, class@, enc@, 0),
        same_counts(*final(stats), *old(stats)),
{
    let ghost start = audit_view(*stats, unresolved@);
    let mut i: usize = 0;
    while i < enc.len()
        invariant
            i <= enc.len(),
            ctx.index.wf(),
            same_counts(*stats, *old(stats)),
            field_decls_from(start, *ctx.index, *ctx.policy, ctx.mappings@, *raw, *location, class@, enc@, 0)
                == field_decls_from(audit_view(*stats, unresolved@), *ctx.index, *ctx.policy, ctx.mappings@, *raw,
                *location, class@, enc@, i as nat),
        decreases enc.len() - i,
    {
        let e = enc[i];
        if (e.field_idx as usize) < raw.fields.len() {
            let f = &raw.fields[e.field_idx as usize];
            let mut member = String::new();
            push_str(&mut member, f.name.as_str());
            push_str(&mut member, ":");
            push_str(&mut member, f.field_type.as_str());
            let site = site_at(location, class, member.as_str(), None);
            audit_class_reference(ctx, f.field_type.as_str(), site, stats, unresolved);
        }
        i = i + 1;
    }
}

fn audit_method_declarations(ctx: &AuditContext, raw: &RawDex, location: &DexLocation, class: &String,
    enc: &Vec<crate::dex::class_data::EncodedMethod>, stats: &mut AuditStats, unresolved: &mut Vec<UnresolvedReference>)
    requires
        ctx.index.wf(),
    ensures
        audit_view(*final(stats), final(unresolved)@) == method_decls_from(audit_view(*old(stats), old(unresolved)@),
            *ctx.index, *ctx.policy, ctx.mappings@, *raw, *location, class@, enc@, 0),
        same_counts(*final(stats), *old(stats)),
{
    let ghost start = audit_view(*stats, unresolved@);
    let mut i: usize = 0;
    while i < enc.len()
        invariant
            i <= enc.len(),
            ctx.index.wf(),
            same_counts(*stats, *old(stats)),
            method_decls_from(start, *ctx.index, *ctx.policy, ctx.mappings@, *raw, *location, class@, enc@, 0)
                == method_decls_from(audit_view(*stats, unresolved@), *ctx.index, *ctx.policy, ctx.mappings@, *raw,
                *location, class@, enc@, i as nat),
        decreases enc.len() - i,
    {
        let e = enc[i];
        if (e.method_idx as usize) < raw.methods.len() {
            let m = &raw.methods[e.method_idx as usize];
            let source_method = format_method_reference(class.as_str(), m.name.as_str(), m.proto.parameters.as_slice(),
                m.proto.return_type.as_str());
            let site = site_at(location, class, source_method.as_str(), None);
            audit_class_reference(ctx, m.proto.return_type.as_str(), copy_site(&site), stats, unresolved);
            audit_class_references(ctx, &m.proto.parameters, &site, stats, unresolved);
            if let Some(code) = raw.code_items.get(&e.code_off) {
                let summary = &code.instruction_summary;
                audit_type_uses(ctx, raw, location, class, &source_method, &summary.type_ref_uses, stats, unresolved);
                audit_method_uses(ctx, raw, location, class, &source_method, &summary.method_ref_uses, stats,
                    unresolved);
                audit_field_uses(ctx, raw, location, class, &source_method, &summary.field_ref_uses, stats, unresolved);
            }
        }
        i = i + 1;
    }
}

fn audit_declared_members(ctx: &AuditContext, raw: &RawDex, location: &DexLocation, class: &crate::dex::raw::ClassDef,
    stats: &mut AuditStats, unresolved: &mut Vec<UnresolvedReference>)
    requires
        ctx.index.wf(),
    ensures
        audit_view(*final(stats), final(unresolved)@) == declared_members(audit_view(*old(stats), old(unresolved)@),
            *ctx.index, *ctx.policy, ctx.mappings@, *raw, *location, *class),
        same_counts(*final(stats), *old(stats)),
{
    let data = match &class.class_data {
        Some(d) => d,
        None => return,
    };
    audit_field_declarations(ctx, raw, location, &class.class_type, &data.static_fields, stats, unresolved);
    audit_field_declarations(ctx, raw, location, &class.class_type, &data.instance_fields, stats, unresolved);
    audit_method_declarations(ctx, raw, location, &class.class_type, &data.direct_methods, stats, unresolved);
    audit_method_declarations(ctx, raw, location, &class.class_type, &data.virtual_methods, stats, unresolved);
}

/// Audits every reference one source DEX file makes: supertypes, member declarations and
/// instructions, class by class.
pub fn audit_source_dex(ctx: &AuditContext, source: &SourceDex, stats: &mut AuditStats,
    unresolved: &mut Vec<UnresolvedReference>)
    requires
        ctx.index.wf(),
    ensures
        audit_view(*final(stats), final(unresolved)@) == source_classes_from(audit_view(*old(stats), old(unresolved)@),
            *ctx.index, *ctx.policy, ctx.mappings@, source.raw, source.location, 0),
        same_counts(*final(stats), *old(stats)),
{
    let raw = &source.raw;
    let ghost start = audit_view(*stats, unresolved@);
    let mut i: usize = 0;
    proof {
        reveal_strlit("-");
    }
    while i < raw.classes.len()
        invariant
            i <= raw.classes.len(),
            ctx.index.wf(),
            raw == &source.raw,
            same_counts(*stats, *old(stats)),
            source_classes_from(start, *ctx.index, *ctx.policy, ctx.mappings@, *raw, source.location, 0)
                == source_classes_from(audit_view(*stats, unresolved@), *ctx.index, *ctx.policy, ctx.mappings@, *raw,
                source.location, i as nat),
        decreases raw.classes.len() - i,
    {
        let class = &raw.classes[i];
        let site = site_at(&source.location, &class.class_type, "-", None);
        if let Some(superclass) = &class.superclass {
            audit_class_reference(ctx, superclass.as_str(), copy_site(&site), stats, unresolved);
        }
        audit_class_references(ctx, &class.interfaces, &site, stats, unresolved);
        audit_declared_members(ctx, raw, &source.location, class, stats, unresolved);
        i = i + 1;
    }
}


// ----- ordering and reporting unresolved references -----

/// The position of a reason in the declaration order, which orders reasons.
pub open spec fn reason_rank(r: MissingReason) -> nat {
    match r {
        MissingReason::MissingOwner => 0,
        MissingReason::MissingMethod => 1,
        MissingReason::MissingField => 2,
        MissingReason::ChangedPrototype => 3,
        MissingReason::ChangedDescriptor => 4,
        MissingReason::MemberKindMismatch => 5,
    }
}

/// The position of a kind in the declaration order, which orders kinds.
pub open spec fn kind_rank(k: ReferenceKind) -> nat {
    match k {
        ReferenceKind::Class => 0,
        ReferenceKind::Field => 1,
        ReferenceKind::Method => 2,
    }
}

/// Absent offsets first, then by value.
pub open spec fn offset_lt(a: Option<u32>, b: Option<u32>) -> bool {
    match (a, b) {
        (None, Some(_)) => true,
        (Some(x), Some(y)) => x < y,
        _ => false,
    }
}

/// The report order of unresolved references: by reason, kind, reference, then site (part,
/// DEX file, class, method, offset).
pub open spec fn unresolved_lt(a: UnresolvedView, b: UnresolvedView) -> bool {
    if a.reason != b.reason {
        reason_rank(a.reason) < reason_rank(b.reason)
    } else if a.kind != b.kind {
        kind_rank(a.kind) < kind_rank(b.kind)
    } else if a.reference != b.reference {
        crate::chars::lex_lt(a.reference, b.reference)
    } else if a.site.apk_part != b.site.apk_part {
        crate::chars::lex_lt(a.site.apk_part, b.site.apk_part)
    } else if a.site.dex_file != b.site.dex_file {
        crate::chars::lex_lt(a.site.dex_file, b.site.dex_file)
    } else if a.site.source_class != b.site.source_class {
        crate::chars::lex_lt(a.site.source_class, b.site.source_class)
    } else if a.site.source_method != b.site.source_method {
        crate::chars::lex_lt(a.site.source_method, b.site.source_method)
    } else {
        offset_lt(a.site.offset_code_unit, b.site.offset_code_unit)
    }
}

/// Unresolved references in report order.
pub open spec fn unresolved_before() -> spec_fn(UnresolvedReference, UnresolvedReference) -> bool {
    |a: UnresolvedReference, b: UnresolvedReference| unresolved_lt(a@, b@)
}

/// Calls `slice::sort_by` with the verified comparator `compare_unresolved`, a total order that
/// agrees with `unresolved_lt`. The documentation describes a stable sort: the result is a
/// rearrangement of the input in report order in which references the order does not tell apart
/// keep their relative order.
#[verifier::external_body]
fn sort_unresolved(v: &mut Vec<UnresolvedReference>)
    ensures
        exists|p: Seq<int>| crate::sorting::stable_sort_of(old(v)@, final(v)@, p, unresolved_before()),
{
    v.sort_by(|left, right| crate::order::compare_unresolved(left, right));
}

/// How many unresolved references have reason `r`.
pub open spec fn reason_count(items: Seq<UnresolvedView>, r: MissingReason) -> nat
    decreases items.len(),
{
    if items.len() == 0 {
        0
    } else {
        reason_count(items.drop_last(), r) + if items.last().reason == r { 1nat } else { 0nat }
    }
}

/// The result of an audit: what was audited, the threshold, the counters and the unresolved
/// references in report order.
#[derive(Debug)]
pub struct AuditReport {
    pub target: String,
    pub allow_missing: usize,
    pub stats: AuditStats,
    pub unresolved: Vec<UnresolvedReference>,
}

impl AuditReport {
    /// The audit passes when no more references are unresolved than allowed.
    pub fn passes(&self) -> (r: bool)
        ensures
            r == (self.unresolved@.len() <= self.allow_missing),
    {
        self.unresolved.len() <= self.allow_missing
    }
}

/// `name: value` and a newline.
pub open spec fn stat_line(name: Seq<char>, value: nat) -> Seq<char> {
    name + ": "@ + decimal(value) + "\n"@
}

/// The lines counting unresolved references by reason, for the reasons `MissingOwner` onward
/// from rank `k`, skipping reasons with none.
pub open spec fn reason_lines(items: Seq<UnresolvedView>, k: nat) -> Seq<char>
    decreases 6 - k,
{
    if k >= 6 {
        Seq::empty()
    } else {
        let r = reason_of_rank(k);
        let c = reason_count(items, r);
        (if c > 0 { reason_text(r) + ": "@ + decimal(c) + "\n"@ } else { Seq::empty() }) + reason_lines(items, k + 1)
    }
}

/// The reason at a rank.
pub open spec fn reason_of_rank(k: nat) -> MissingReason {
    if k == 0 {
        MissingReason::MissingOwner
    } else if k == 1 {
        MissingReason::MissingMethod
    } else if k == 2 {
        MissingReason::MissingField
    } else if k == 3 {
        MissingReason::ChangedPrototype
    } else if k == 4 {
        MissingReason::ChangedDescriptor
    } else {
        MissingReason::MemberKindMismatch
    }
}

/// The text of `summary.txt`.
pub open spec fn summary_text(report: AuditReport) -> Seq<char> {
    let st = report.stats;
    let items = unresolved_views(report.unresolved@);
    "unoc-rs Reference Audit\n"@ + "=======================\n"@ + "\n"@
        + "target: "@ + report.target@ + "\n"@
        + stat_line("target_parts"@, st.target_parts as nat)
        + stat_line("target_dex_files"@, st.target_dex_files as nat)
        + stat_line("source_dex_files"@, st.source_dex_files as nat)
        + stat_line("standalone_reference_dex_files"@, st.standalone_reference_dex_files as nat)
        + stat_line("class_definitions"@, st.class_definitions as nat)
        + stat_line("method_definitions"@, st.method_definitions as nat)
        + stat_line("field_definitions"@, st.field_definitions as nat)
        + stat_line("references_scanned"@, st.references_scanned as nat)
        + stat_line("references_excluded"@, st.references_excluded as nat)
        + stat_line("references_resolved"@, st.references_resolved as nat)
        + stat_line("resolved_in_another_split"@, st.references_resolved_in_another_split as nat)
        + stat_line("unresolved_references"@, items.len())
        + stat_line("allow_missing"@, report.allow_missing as nat)
        + "status: "@ + (if items.len() <= report.allow_missing { "PASS"@ } else { "FAIL"@ }) + "\n"@
        + if items.len() > 0 {
            "\n"@ + "Unresolved by reason\n"@ + "--------------------\n"@ + reason_lines(items, 0)
        } else {
            Seq::empty()
        }
}

fn push_stat_line(out: &mut String, name: &str, value: usize)
    ensures
        final(out)@ == old(out)@ + stat_line(name@, value as nat),
{
    push_str(out, name);
    push_str(out, ": ");
    push_decimal(out, value as u64);
    push_str(out, "\n");
}

#[verifier::spinoff_prover]
fn count_reason(items: &Vec<UnresolvedReference>, r: MissingReason) -> (n: usize)
    ensures
        n == reason_count(unresolved_views(items@), r),
{
    let mut n: usize = 0;
    let mut i: usize = 0;
    let ghost v = unresolved_views(items@);
    assert(v.take(0) =~= Seq::<UnresolvedView>::empty());
    while i < items.len()
        invariant
            i <= items.len(),
            v == unresolved_views(items@),
            n == reason_count(v.take(i as int), r),
            n <= i,
        decreases items.len() - i,
    {
        proof {
            assert(v.take(i + 1).drop_last() =~= v.take(i as int));
        }
        let same = match (items[i].reason, r) {
            (MissingReason::MissingOwner, MissingReason::MissingOwner) => true,
            (MissingReason::MissingMethod, MissingReason::MissingMethod) => true,
            (MissingReason::MissingField, MissingReason::MissingField) => true,
            (MissingReason::ChangedPrototype, MissingReason::ChangedPrototype) => true,
            (MissingReason::ChangedDescriptor, MissingReason::ChangedDescriptor) => true,
            (MissingReason::MemberKindMismatch, MissingReason::MemberKindMismatch) => true,
            _ => false,
        };
        if same {
            n = n + 1;
        }
        i = i + 1;
    }
    assert(v.take(v.len() as int) =~= v);
    n
}

fn reason_at(k: usize) -> (r: MissingReason)
    requires
        k < 6,
    ensures
        r == reason_of_rank(k as nat),
{
    if k == 0 {
        MissingReason::MissingOwner
    } else if k == 1 {
        MissingReason::MissingMethod
    } else if k == 2 {
        MissingReason::MissingField
    } else if k == 3 {
        MissingReason::ChangedPrototype
    } else if k == 4 {
        MissingReason::ChangedDescriptor
    } else {
        MissingReason::MemberKindMismatch
    }
}

/// The text of `summary.txt`: the counters, the verdict, and the unresolved references counted
/// by reason.
pub fn render_summary(report: &AuditReport) -> (r: String)
    ensures
        r@ == summary_text(*report),
{
    let st = &report.stats;
    let mut out = String::new();
    push_str(&mut out, "unoc-rs Reference Audit\n");
    push_str(&mut out, "=======================\n");
    push_str(&mut out, "\n");
    push_str(&mut out, "target: ");
    push_str(&mut out, report.target.as_str());
    push_str(&mut out, "\n");
    push_stat_line(&mut out, "target_parts", st.target_parts);
    push_stat_line(&mut out, "target_dex_files", st.target_dex_files);
    push_stat_line(&mut out, "source_dex_files", st.source_dex_files);
    push_stat_line(&mut out, "standalone_reference_dex_files", st.standalone_reference_dex_files);
    push_stat_line(&mut out, "class_definitions", st.class_definitions);
    push_stat_line(&mut out, "method_definitions", st.method_definitions);
    push_stat_line(&mut out, "field_definitions", st.field_definitions);
    push_stat_line(&mut out, "references_scanned", st.references_scanned);
    push_stat_line(&mut out, "references_excluded", st.references_excluded);
    push_stat_line(&mut out, "references_resolved", st.references_resolved);
    push_stat_line(&mut out, "resolved_in_another_split", st.references_resolved_in_another_split);
    push_stat_line(&mut out, "unresolved_references", report.unresolved.len());
    push_stat_line(&mut out, "allow_missing", report.allow_missing);
    push_str(&mut out, "status: ");
    push_str(&mut out, if report.passes() { "PASS" } else { "FAIL" });
    push_str(&mut out, "\n");
    let ghost items = unresolved_views(report.unresolved@);
    let ghost head = out@;
    if report.unresolved.len() > 0 {
        push_str(&mut out, "\n");
        push_str(&mut out, "Unresolved by reason\n");
        push_str(&mut out, "--------------------\n");
        let ghost prefix = out@;
        let mut k: usize = 0;
        while k < 6
            invariant
                k <= 6,
                items == unresolved_views(report.unresolved@),
                prefix + reason_lines(items, 0) == out@ + reason_lines(items, k as nat),
            decreases 6 - k,
        {
            let r = reason_at(k);
            let c = count_reason(&report.unresolved, r);
            if c > 0 {
                push_str(&mut out, r.as_str());
                push_str(&mut out, ": ");
                push_decimal(&mut out, c as u64);
                push_str(&mut out, "\n");
            }
            proof {
                let line = if c > 0 { reason_text(r) + ": "@ + decimal(c as nat) + "\n"@ } else { Seq::empty() };
                assert(reason_lines(items, k as nat) == line + reason_lines(items, (k + 1) as nat));
            }
            k = k + 1;
        }
    }
    out
}


// ----- running an audit -----

/// The number of methods of the indexed classes.
pub open spec fn indexed_method_total(entries: Seq<(Seq<char>, ClassDefView)>) -> nat
    decreases entries.len(),
{
    if entries.len() == 0 { 0 } else { indexed_method_total(entries.drop_last()) + entries.last().1.methods.len() }
}

/// The number of fields of the indexed classes.
pub open spec fn indexed_field_total(entries: Seq<(Seq<char>, ClassDefView)>) -> nat
    decreases entries.len(),
{
    if entries.len() == 0 { 0 } else { indexed_field_total(entries.drop_last()) + entries.last().1.fields.len() }
}

impl DefinitionIndex {
    /// The number of indexed classes.
    pub fn class_count(&self) -> (r: usize)
        ensures
            r == self.entries().len(),
    {
        self.classes.len()
    }

    /// The number of methods of the indexed classes, wrapping past `usize::MAX`.
    pub fn method_count(&self) -> (r: usize)
        ensures
            r == crate::model::wrap(indexed_method_total(self.entries())),
    {
        let ghost e = self.entries();
        let mut total: usize = 0;
        let mut i: usize = 0;
        assert(e.take(0) =~= Seq::<(Seq<char>, ClassDefView)>::empty());
        assert(crate::model::wrap(0) == 0);
        while i < self.classes.len()
            invariant
                i <= self.classes.len(),
                e == self.entries(),
                total == crate::model::wrap(indexed_method_total(e.take(i as int))),
            decreases self.classes.len() - i,
        {
            proof {
                assert(e.take(i + 1).drop_last() =~= e.take(i as int));
                assert(e.take(i + 1).last().1 == self.classes@[i as int]@);
                crate::model::lemma_wrap_add(indexed_method_total(e.take(i as int)), self.classes@[i as int].methods.len());
            }
            total = total.wrapping_add(self.classes[i].methods.len());
            i = i + 1;
        }
        assert(e.take(e.len() as int) =~= e);
        total
    }

    /// The number of fields of the indexed classes, wrapping past `usize::MAX`.
    pub fn field_count(&self) -> (r: usize)
        ensures
            r == crate::model::wrap(indexed_field_total(self.entries())),
    {
        let ghost e = self.entries();
        let mut total: usize = 0;
        let mut i: usize = 0;
        assert(e.take(0) =~= Seq::<(Seq<char>, ClassDefView)>::empty());
        assert(crate::model::wrap(0) == 0);
        while i < self.classes.len()
            invariant
                i <= self.classes.len(),
                e == self.entries(),
                total == crate::model::wrap(indexed_field_total(e.take(i as int))),
            decreases self.classes.len() - i,
        {
            proof {
                assert(e.take(i + 1).drop_last() =~= e.take(i as int));
                assert(e.take(i + 1).last().1 == self.classes@[i as int]@);
                crate::model::lemma_wrap_add(indexed_field_total(e.take(i as int)), self.classes@[i as int].fields.len());
            }
            total = total.wrapping_add(self.classes[i].fields.len());
            i = i + 1;
        }
        assert(e.take(e.len() as int) =~= e);
        total
    }
}

/// The audit after the source DEX files `sources[i..]`, in order.
pub open spec fn sources_from(st: AuditView, index: DefinitionIndex, policy: PrefixPolicy,
    mappings: Seq<(String, String)>, sources: Seq<SourceDex>, i: nat) -> AuditView
    decreases sources.len() - i,
{
    if i >= sources.len() {
        st
    } else {
        sources_from(source_classes_from(st, index, policy, mappings, sources[i as int].raw, sources[i as int].location, 0),
            index, policy, mappings, sources, i + 1)
    }
}

/// Unresolved views in report order.
pub open spec fn unresolved_view_before() -> spec_fn(UnresolvedView, UnresolvedView) -> bool {
    |a: UnresolvedView, b: UnresolvedView| unresolved_lt(a, b)
}

/// Audits every source DEX file and returns the unresolved references in report order; the
/// reference counters of `stats` are advanced.
pub fn audit_sources(ctx: &AuditContext, sources: &Vec<SourceDex>, stats: &mut AuditStats)
    -> (r: Vec<UnresolvedReference>)
    requires
        ctx.index.wf(),
    ensures
        ({
            let done = sources_from(audit_view(*old(stats), Seq::empty()), *ctx.index, *ctx.policy, ctx.mappings@,
                sources@, 0);
            &&& final(stats).references_scanned == done.scanned
            &&& final(stats).references_excluded == done.excluded
            &&& final(stats).references_resolved == done.resolved
            &&& final(stats).references_resolved_in_another_split == done.other_split
            &&& exists|p: Seq<int>| crate::sorting::stable_sort_of(done.unresolved, unresolved_views(r@), p,
                unresolved_view_before())
        }),
        same_counts(*final(stats), *old(stats)),
{
    let mut unresolved: Vec<UnresolvedReference> = Vec::new();
    let ghost start = audit_view(*stats, unresolved@);
    assert(start == audit_view(*old(stats), Seq::empty()));
    let mut i: usize = 0;
    while i < sources.len()
        invariant
            i <= sources.len(),
            ctx.index.wf(),
            same_counts(*stats, *old(stats)),
            start == audit_view(*old(stats), Seq::empty()),
            sources_from(start, *ctx.index, *ctx.policy, ctx.mappings@, sources@, 0) == sources_from(
                audit_view(*stats, unresolved@), *ctx.index, *ctx.policy, ctx.mappings@, sources@, i as nat),
        decreases sources.len() - i,
    {
        audit_source_dex(ctx, &sources[i], stats, &mut unresolved);
        i = i + 1;
    }
    let ghost before = unresolved@;
    sort_unresolved(&mut unresolved);
    let ghost p = choose|p: Seq<int>| crate::sorting::stable_sort_of(before, unresolved@, p, unresolved_before());
    proof {
        let f = |u: UnresolvedReference| u@;
        crate::sorting::lemma_stable_sort_map(before, unresolved@, p, unresolved_before(), f, unresolved_view_before());
        assert(before.map_values(f) =~= unresolved_views(before));
        assert(unresolved@.map_values(f) =~= unresolved_views(unresolved@));
        assert(crate::sorting::stable_sort_of(unresolved_views(before), unresolved_views(unresolved@), p,
            unresolved_view_before()));
    }
    assert(sources_from(start, *ctx.index, *ctx.policy, ctx.mappings@, sources@, 0) == audit_view(*stats, before));
    assert(crate::sorting::stable_sort_of(sources_from(audit_view(*old(stats), Seq::empty()), *ctx.index, *ctx.policy,
        ctx.mappings@, sources@, 0).unresolved, unresolved_views(unresolved@), p, unresolved_view_before()));
    unresolved
}

/// Refuses an audit with nothing to audit.
pub fn validate_sources(source_dex_selectors: usize, reference_files: usize) -> (r: Result<()>)
    ensures
        source_dex_selectors == 0 && reference_files == 0 ==> r == Err::<(), UnocRsError>(UnocRsError::MissingAuditSources),
        !(source_dex_selectors == 0 && reference_files == 0) ==> r is Ok,
{
    if source_dex_selectors == 0 && reference_files == 0 {
        return Err(UnocRsError::MissingAuditSources);
    }
    Ok(())
}

/// The selectors that name `location`.
pub fn matching_selectors(selectors: &[String], location: &DexLocation) -> (r: Vec<String>)
    ensures
        strs(r@) == strs(selectors@).filter(|s: Seq<char>| s == location.dex_file@ || s == location.qualified()),
{
    let mut r: Vec<String> = Vec::new();
    let mut i: usize = 0;
    let ghost pred = |s: Seq<char>| s == location.dex_file@ || s == location.qualified();
    assert(strs(selectors@).take(0).filter(pred) =~= Seq::<Seq<char>>::empty());
    while i < selectors.len()
        invariant
            i <= selectors.len(),
            pred == (|s: Seq<char>| s == location.dex_file@ || s == location.qualified()),
            strs(r@) == strs(selectors@).take(i as int).filter(pred),
        decreases selectors.len() - i,
    {
        proof {
            let t = strs(selectors@).take(i + 1);
            assert(t.drop_last() =~= strs(selectors@).take(i as int));
            assert(t.last() == selectors@[i as int]@);
            reveal(Seq::filter);
            assert(strs(selectors@).take(i as int).push(selectors@[i as int]@) =~= t);
        }
        if source_selector_matches(selectors[i].as_str(), location) {
            let ghost prev = strs(r@);
            r.push(selectors[i].clone());
            assert(strs(r@) =~= prev.push(selectors@[i as int]@));
        }
        i = i + 1;
    }
    assert(strs(selectors@).take(selectors@.len() as int) =~= strs(selectors@));
    r
}

/// Fails naming, joined by `, `, the selectors that matched no DEX file of the target.
pub fn check_selectors_matched(selectors: &[String], matched: &[String]) -> (r: Result<()>)
    ensures
        ({
            let missing = strs(selectors@).filter(|s: Seq<char>| !strs(matched@).contains(s));
            &&& missing.len() == 0 ==> r is Ok
            &&& missing.len() > 0 ==> (r matches Err(UnocRsError::AuditSourceDexNotFound { selectors: t })
                && t@ == join(missing, ", "@))
        }),
{
    let mut missing: Vec<String> = Vec::new();
    let ghost pred = |s: Seq<char>| !strs(matched@).contains(s);
    let mut i: usize = 0;
    assert(strs(selectors@).take(0).filter(pred) =~= Seq::<Seq<char>>::empty());
    while i < selectors.len()
        invariant
            i <= selectors.len(),
            pred == (|s: Seq<char>| !strs(matched@).contains(s)),
            strs(missing@) == strs(selectors@).take(i as int).filter(pred),
        decreases selectors.len() - i,
    {
        proof {
            let t = strs(selectors@).take(i + 1);
            assert(t.drop_last() =~= strs(selectors@).take(i as int));
            reveal(Seq::filter);
            assert(strs(selectors@).take(i as int).push(selectors@[i as int]@) =~= t);
        }
        let mut found = false;
        let mut k: usize = 0;
        assert(strs(matched@).take(0) =~= Seq::<Seq<char>>::empty());
        while k < matched.len()
            invariant
                k <= matched.len(),
                i < selectors.len(),
                found == strs(matched@).take(k as int).contains(selectors@[i as int]@),
            decreases matched.len() - k,
        {
            let ghost x = selectors@[i as int]@;
            let ghost before_t = strs(matched@).take(k as int);
            let ghost t = strs(matched@).take(k + 1);
            assert(t =~= before_t.push(matched@[k as int]@));
            if strings_equal(&matched[k], &selectors[i]) {
                found = true;
                assert(t[k as int] == x);
            } else {
                proof {
                    if t.contains(x) {
                        let m = choose|m: int| 0 <= m < t.len() && t[m] == x;
                        assert(m < k);
                        assert(before_t[m] == x);
                    }
                }
            }
            proof {
                if before_t.contains(x) {
                    let m = choose|m: int| 0 <= m < before_t.len() && before_t[m] == x;
                    assert(t[m] == x);
                }
            }
            k = k + 1;
        }
        assert(strs(matched@).take(matched@.len() as int) =~= strs(matched@));
        if !found {
            let ghost prev = strs(missing@);
            missing.push(selectors[i].clone());
            assert(strs(missing@) =~= prev.push(selectors@[i as int]@));
        }
        i = i + 1;
    }
    assert(strs(selectors@).take(selectors@.len() as int) =~= strs(selectors@));
    if missing.len() == 0 {
        return Ok(());
    }
    proof {
        reveal_strlit(", ");
    }
    let joined = crate::chars::join_strings(missing.as_slice(), ", ");
    assert(missing@.map_values(|p: String| p@) == strs(missing@));
    Err(UnocRsError::AuditSourceDexNotFound { selectors: joined })
}

/// What an audit ends with: success when it passes, else the count of unresolved references,
/// the threshold and where the reports went.
pub fn audit_outcome(report: &AuditReport, output: &str) -> (r: Result<()>)
    ensures
        report.unresolved@.len() <= report.allow_missing ==> r is Ok,
        report.unresolved@.len() > report.allow_missing ==> (r matches Err(UnocRsError::ReferenceAuditFailed {
            unresolved,
            allowed,
            output: o,
        }) && unresolved == report.unresolved@.len() && allowed == report.allow_missing && o@ == output@),
{
    if report.passes() {
        Ok(())
    } else {
        Err(UnocRsError::ReferenceAuditFailed {
            unresolved: report.unresolved.len(),
            allowed: report.allow_missing,
            output: output.to_owned(),
        })
    }
}

/// The header line of `unresolved-refs.tsv`.
pub open spec fn unresolved_header() -> Seq<char> {
    "kind\treference\treason\tsource_split\tsource_dex\tsource_class\tsource_method\toffset\tcandidates\n"@
}

/// The header line of `unresolved-refs.tsv`.
pub fn unresolved_tsv_header() -> (r: String)
    ensures
        r@ == unresolved_header(),
{
    "kind\treference\treason\tsource_split\tsource_dex\tsource_class\tsource_method\toffset\tcandidates\n".to_owned()
}

/// The row of `unresolved-refs.tsv` for one unresolved reference: kind, reference, reason, site
/// and candidates joined by ` | `, each made a cell; the offset in hexadecimal as `0x..`, or `-`.
pub open spec fn unresolved_row_text(u: UnresolvedView) -> Seq<char> {
    kind_text(u.kind) + "\t"@ + tsv_text(u.reference) + "\t"@ + reason_text(u.reason) + "\t"@
        + tsv_text(u.site.apk_part) + "\t"@ + tsv_text(u.site.dex_file) + "\t"@ + tsv_text(u.site.source_class)
        + "\t"@ + tsv_text(u.site.source_method) + "\t"@ + match u.site.offset_code_unit {
            Some(o) => "0x"@ + crate::chars::hex_padded(o as nat, 1),
            None => "-"@,
        } + "\t"@ + tsv_text(join(u.candidates, " | "@)) + "\n"@
}

/// The row of `unresolved-refs.tsv` for one unresolved reference.
pub fn unresolved_tsv_row(item: &UnresolvedReference) -> (r: String)
    ensures
        r@ == unresolved_row_text(item@),
{
    let mut s = String::new();
    push_str(&mut s, item.kind.as_str());
    push_str(&mut s, "\t");
    push_str(&mut s, tsv_cell(item.reference.as_str()).as_str());
    push_str(&mut s, "\t");
    push_str(&mut s, item.reason.as_str());
    push_str(&mut s, "\t");
    push_str(&mut s, tsv_cell(item.site.source.apk_part.as_str()).as_str());
    push_str(&mut s, "\t");
    push_str(&mut s, tsv_cell(item.site.source.dex_file.as_str()).as_str());
    push_str(&mut s, "\t");
    push_str(&mut s, tsv_cell(item.site.source_class.as_str()).as_str());
    push_str(&mut s, "\t");
    push_str(&mut s, tsv_cell(item.site.source_method.as_str()).as_str());
    push_str(&mut s, "\t");
    match item.site.offset_code_unit {
        Some(o) => {
            push_str(&mut s, "0x");
            crate::chars::push_hex_padded(&mut s, o as u64, 1);
        },
        None => push_str(&mut s, "-"),
    }
    push_str(&mut s, "\t");
    proof {
        reveal_strlit(" | ");
    }
    let joined = crate::chars::join_strings(item.candidates.as_slice(), " | ");
    assert(item.candidates@.map_values(|p: String| p@) == strs(item.candidates@));
    push_str(&mut s, tsv_cell(joined.as_str()).as_str());
    push_str(&mut s, "\n");
    s
}


/// The selectors naming a location, in the specification.
pub open spec fn selectors_naming(selectors: Seq<Seq<char>>, loc: DexLocation) -> Seq<Seq<char>> {
    selectors.filter(|s: Seq<char>| s == loc.dex_file@ || s == loc.qualified())
}

/// Indexes one DEX file of the target bundle, found in part `dex.apk_part` as `dex.name`, and
/// makes it an audit source when a selector names it; a source must parse completely.
pub fn add_target_dex(index: &mut DefinitionIndex, selectors: &[String], dex: &crate::apk::DexBlob,
    matched: &mut Vec<String>, sources: &mut Vec<SourceDex>, stats: &mut AuditStats) -> (r: Result<()>)
    requires
        old(index).wf(),
    ensures
        final(index).wf(),
        final(stats).target_dex_files == bump(old(stats).target_dex_files),
        match crate::model::dex_parse_error(dex.bytes@) {
            Some(t) => r matches Err(e) && e@ == t,
            None => exists|p: ParsedDex| #[trigger] crate::model::parsed_from(dex.bytes@, p) && target_dex_added(*old(index),
                *final(index), p.raw, dex.apk_part@, dex.name@, strs(selectors@), strs(old(matched)@),
                strs(final(matched)@), old(sources)@, final(sources)@, *old(stats), *final(stats), r),
        },
{
    stats.target_dex_files = stats.target_dex_files.wrapping_add(1);
    let location = DexLocation::bundle(dex.apk_part.clone(), dex.name.clone());
    let parsed = crate::model::parse_for_model(dex.bytes.as_slice())?;
    index.add_dex(&parsed.raw, &location);
    let matching = matching_selectors(selectors, &location);
    proof {
        let f1 = |s: Seq<char>| s == location.dex_file@ || s == location.qualified();
        let f2 = |s: Seq<char>| s == dex.name@ || s == dex.apk_part@ + "!"@ + dex.name@;
        assert(f1 =~= f2);
        assert(strs(matching@) == strs(selectors@).filter(f2));
    }
    if matching.len() == 0 {
        assert(target_dex_added(*old(index), *index, parsed.raw, dex.apk_part@, dex.name@, strs(selectors@),
            strs(old(matched)@), strs(matched@), old(sources)@, sources@, *old(stats), *stats, Ok(())));
        return Ok(());
    }
    match validate_audit_source(&parsed.raw, &location) {
        Ok(()) => {},
        Err(e) => {
            assert(target_dex_added(*old(index), *index, parsed.raw, dex.apk_part@, dex.name@, strs(selectors@),
                strs(old(matched)@), strs(matched@), old(sources)@, sources@, *old(stats), *stats, Err(e)));
            return Err(e);
        },
    }
    let mut k: usize = 0;
    let ghost before = strs(matched@);
    while k < matching.len()
        invariant
            k <= matching.len(),
            strs(matched@) == before + strs(matching@).take(k as int),
        decreases matching.len() - k,
    {
        let ghost prev = strs(matched@);
        matched.push(matching[k].clone());
        assert(strs(matched@) =~= prev.push(matching@[k as int]@));
        assert(strs(matching@).take(k + 1) =~= strs(matching@).take(k as int).push(matching@[k as int]@));
        k = k + 1;
    }
    assert(strs(matching@).take(matching@.len() as int) =~= strs(matching@));
    let ghost raw = parsed.raw;
    let ghost old_sources = sources@;
    sources.push(SourceDex { location, raw: parsed.raw });
    stats.source_dex_files = stats.source_dex_files.wrapping_add(1);
    assert(sources@.take(old_sources.len() as int) =~= old_sources);
    assert(target_dex_added(*old(index), *index, raw, dex.apk_part@, dex.name@, strs(selectors@),
        strs(old(matched)@), strs(matched@), old(sources)@, sources@, *old(stats), *stats, Ok(())));
    Ok(())
}

/// What indexing one target DEX file did, given that it parsed to `raw`.
pub open spec fn target_dex_added(old_index: DefinitionIndex, new_index: DefinitionIndex, raw: RawDex, part: Seq<char>,
    name: Seq<char>, selectors: Seq<Seq<char>>, old_matched: Seq<Seq<char>>, new_matched: Seq<Seq<char>>,
    old_sources: Seq<SourceDex>, new_sources: Seq<SourceDex>, old_stats: AuditStats, new_stats: AuditStats,
    r: Result<()>) -> bool {
    let naming = selectors.filter(|s: Seq<char>| s == name || s == part + "!"@ + name);
    &&& new_index.entries() == add_classes(old_index.entries(), raw, old_index.locations().len() as usize, 0)
    &&& new_index.locations().len() == old_index.locations().len() + 1
    &&& new_index.locations().last().apk_part@ == part
    &&& new_index.locations().last().dex_file@ == name
    &&& !new_index.locations().last().standalone
    &&& if naming.len() == 0 {
        &&& r is Ok
        &&& new_matched == old_matched
        &&& new_sources == old_sources
        &&& new_stats.source_dex_files == old_stats.source_dex_files
    } else {
        match audit_source_problem(raw) {
            Some(t) => r matches Err(UnocRsError::IncompleteAuditSource { origin, reason }) && origin@ == part + "!"@
                + name && reason@ == t,
            None => {
                &&& r is Ok
                &&& new_matched == old_matched + naming
                &&& new_sources.len() == old_sources.len() + 1
                &&& new_sources.take(old_sources.len() as int) == old_sources
                &&& new_sources.last().raw == raw
                &&& new_sources.last().location.apk_part@ == part
                &&& new_sources.last().location.dex_file@ == name
                &&& !new_sources.last().location.standalone
                &&& new_stats.source_dex_files == bump(old_stats.source_dex_files)
            },
        }
    }
}


/// What adding one standalone reference DEX file did, given that it parsed to `raw`.
pub open spec fn standalone_dex_added(old_index: DefinitionIndex, new_index: DefinitionIndex, raw: RawDex,
    path: Seq<char>, old_sources: Seq<SourceDex>, new_sources: Seq<SourceDex>, old_stats: AuditStats,
    new_stats: AuditStats, r: Result<()>) -> bool {
    match audit_source_problem(raw) {
        Some(t) => r matches Err(UnocRsError::IncompleteAuditSource { origin, reason }) && origin@ == "standalone!"@
            + path && reason@ == t,
        None => {
            &&& r is Ok
            &&& new_index.entries() == add_classes(old_index.entries(), raw, old_index.locations().len() as usize, 0)
            &&& new_index.locations().len() == old_index.locations().len() + 1
            &&& new_index.locations().last().apk_part@ == "standalone"@
            &&& new_index.locations().last().dex_file@ == path
            &&& new_index.locations().last().standalone
            &&& new_sources.len() == old_sources.len() + 1
            &&& new_sources.take(old_sources.len() as int) == old_sources
            &&& new_sources.last().raw == raw
            &&& new_sources.last().location.apk_part@ == "standalone"@
            &&& new_sources.last().location.dex_file@ == path
            &&& new_sources.last().location.standalone
            &&& new_stats.standalone_reference_dex_files == bump(old_stats.standalone_reference_dex_files)
        },
    }
}

/// Indexes a standalone reference DEX file, shown as `path`, and makes it an audit source; it
/// must parse completely.
pub fn add_standalone_dex(index: &mut DefinitionIndex, path: &str, bytes: &[u8], sources: &mut Vec<SourceDex>,
    stats: &mut AuditStats) -> (r: Result<()>)
    requires
        old(index).wf(),
    ensures
        final(index).wf(),
        match crate::model::dex_parse_error(bytes@) {
            Some(t) => r matches Err(e) && e@ == t,
            None => exists|p: ParsedDex| #[trigger] crate::model::parsed_from(bytes@, p) && standalone_dex_added(
                *old(index), *final(index), p.raw, path@, old(sources)@, final(sources)@, *old(stats), *final(stats), r),
        },
{
    let parsed = crate::model::parse_for_model(bytes)?;
    let location = DexLocation::standalone(path);
    match validate_audit_source(&parsed.raw, &location) {
        Ok(()) => {},
        Err(e) => {
            proof {
                reveal_strlit("standalone");
                reveal_strlit("standalone!");
                reveal_strlit("!");
                assert("standalone"@ + "!"@ =~= "standalone!"@);
                assert(location.qualified() =~= "standalone!"@ + path@);
            }
            assert(standalone_dex_added(*old(index), *index, parsed.raw, path@, old(sources)@, sources@, *old(stats),
                *stats, Err(e)));
            return Err(e);
        },
    }
    index.add_dex(&parsed.raw, &location);
    let ghost raw = parsed.raw;
    let ghost old_sources = sources@;
    sources.push(SourceDex { location, raw: parsed.raw });
    stats.standalone_reference_dex_files = stats.standalone_reference_dex_files.wrapping_add(1);
    assert(sources@.take(old_sources.len() as int) =~= old_sources);
    assert(standalone_dex_added(*old(index), *index, raw, path@, old(sources)@, sources@, *old(stats), *stats, Ok(())));
    Ok(())
}

} // verus!
