//! The class model of an app: every class of every DEX file with its members and the summary
//! of each method body, in descriptor order.

use std::collections::BTreeMap;

use vstd::prelude::*;

use crate::apk::{ApkInput, DexBlob};
use crate::chars::{lex_lt, copy_opt_string, copy_string, copy_strings, decimal, join, join_strings, opt_str, push_decimal,
    push_str, strs};
use crate::dex::class_data::{EncodedField, EncodedMethod};
use crate::dex::raw::{code_item_matches, ClassDef, CodeItem, FieldId, FieldView, MethodId, MethodView,
    ParseWarning, ParseWarningKind, RawDex};
use crate::dex::{parse_dex, ParsedDex};
use crate::error::{ErrorView, Result};
use crate::order::compare_strings;
use crate::sorting::{lemma_stable_sort_map, stable_sort_of};

verus! {

broadcast use vstd::std_specs::btree::group_btree_axioms, vstd::laws_cmp::group_laws_cmp;

/// Where a class was defined.
#[derive(Debug, Clone, PartialEq, Eq)]
pub struct DexOrigin {
    pub apk_part: String,
    pub dex_file: String,
    pub dex_index: usize,
    pub class_def_index: Option<usize>,
}

/// Every class of an app.
#[derive(Debug, Clone, PartialEq, Eq)]
pub struct AppModel {
    pub apk_name: String,
    pub package_name: Option<String>,
    pub classes: Vec<ClassModel>,
    pub coverage: ParseCoverage,
}

/// How much of an app was parsed, and what went wrong.
#[derive(Debug, Clone, PartialEq, Eq)]
pub struct ParseCoverage {
    pub apk_parts: usize,
    pub dex_files: usize,
    pub parsed_classes: usize,
    pub parsed_methods: usize,
    pub parsed_fields: usize,
    pub warnings: Vec<ModelWarning>,
}

impl Default for ParseCoverage {
    fn default() -> (r: Self)
        ensures
            r.apk_parts == 0,
            r.dex_files == 0,
            r.parsed_classes == 0,
            r.parsed_methods == 0,
            r.parsed_fields == 0,
            r.warnings@ == Seq::<ModelWarning>::empty(),
    {
        ParseCoverage { apk_parts: 0, dex_files: 0, parsed_classes: 0, parsed_methods: 0, parsed_fields: 0,
            warnings: Vec::new() }
    }
}

/// A parse problem, with where it happened.
#[derive(Debug, Clone, PartialEq, Eq)]
pub struct ModelWarning {
    pub origin: String,
    pub kind: String,
    pub message: String,
}

/// One class and its members.
#[derive(Debug, Clone, PartialEq, Eq)]
pub struct ClassModel {
    pub id: usize,
    pub descriptor: String,
    pub access_flags: u32,
    pub superclass: Option<String>,
    pub interfaces: Vec<String>,
    pub methods: Vec<MethodModel>,
    pub fields: Vec<FieldModel>,
    pub origin: DexOrigin,
}

/// One method a class defines.
#[derive(Debug, Clone, PartialEq, Eq)]
pub struct MethodModel {
    pub id: usize,
    pub owner_class: String,
    pub name: String,
    pub return_type: String,
    pub parameters: Vec<String>,
    pub access_flags: u32,
    pub code: Option<MethodCodeSummary>,
}

/// The statistics of a method body, with its references spelled out.
#[derive(Debug, Clone, PartialEq, Eq)]
pub struct MethodCodeSummary {
    pub registers_size: u16,
    pub ins_size: u16,
    pub outs_size: u16,
    pub instruction_count: u32,
    pub opcode_histogram: BTreeMap<u8, u32>,
    pub string_refs: Vec<String>,
    pub method_refs: Vec<String>,
    pub field_refs: Vec<String>,
    pub branch_count: u32,
    pub return_count: u32,
    pub throw_count: u32,
    pub switch_count: u32,
}

/// One field a class defines.
#[derive(Debug, Clone, PartialEq, Eq)]
pub struct FieldModel {
    pub id: usize,
    pub owner_class: String,
    pub name: String,
    pub field_type: String,
    pub access_flags: u32,
}

// ----- views -----

pub struct OriginView {
    pub apk_part: Seq<char>,
    pub dex_file: Seq<char>,
    pub dex_index: usize,
    pub class_def_index: Option<usize>,
}

impl View for DexOrigin {
    type V = OriginView;

    open spec fn view(&self) -> OriginView {
        OriginView {
            apk_part: self.apk_part@,
            dex_file: self.dex_file@,
            dex_index: self.dex_index,
            class_def_index: self.class_def_index,
        }
    }
}

pub struct WarningModelView {
    pub origin: Seq<char>,
    pub kind: Seq<char>,
    pub message: Seq<char>,
}

impl View for ModelWarning {
    type V = WarningModelView;

    open spec fn view(&self) -> WarningModelView {
        WarningModelView { origin: self.origin@, kind: self.kind@, message: self.message@ }
    }
}

pub struct CodeSummaryView {
    pub registers_size: u16,
    pub ins_size: u16,
    pub outs_size: u16,
    pub instruction_count: u32,
    pub opcode_histogram: Map<u8, u32>,
    pub string_refs: Seq<Seq<char>>,
    pub method_refs: Seq<Seq<char>>,
    pub field_refs: Seq<Seq<char>>,
    pub branch_count: u32,
    pub return_count: u32,
    pub throw_count: u32,
    pub switch_count: u32,
}

impl View for MethodCodeSummary {
    type V = CodeSummaryView;

    open spec fn view(&self) -> CodeSummaryView {
        CodeSummaryView {
            registers_size: self.registers_size,
            ins_size: self.ins_size,
            outs_size: self.outs_size,
            instruction_count: self.instruction_count,
            opcode_histogram: self.opcode_histogram@,
            string_refs: strs(self.string_refs@),
            method_refs: strs(self.method_refs@),
            field_refs: strs(self.field_refs@),
            branch_count: self.branch_count,
            return_count: self.return_count,
            throw_count: self.throw_count,
            switch_count: self.switch_count,
        }
    }
}

pub struct FieldModelView {
    pub id: usize,
    pub owner_class: Seq<char>,
    pub name: Seq<char>,
    pub field_type: Seq<char>,
    pub access_flags: u32,
}

impl View for FieldModel {
    type V = FieldModelView;

    open spec fn view(&self) -> FieldModelView {
        FieldModelView {
            id: self.id,
            owner_class: self.owner_class@,
            name: self.name@,
            field_type: self.field_type@,
            access_flags: self.access_flags,
        }
    }
}

pub struct MethodModelView {
    pub id: usize,
    pub owner_class: Seq<char>,
    pub name: Seq<char>,
    pub return_type: Seq<char>,
    pub parameters: Seq<Seq<char>>,
    pub access_flags: u32,
    pub code: Option<CodeSummaryView>,
}

impl View for MethodModel {
    type V = MethodModelView;

    open spec fn view(&self) -> MethodModelView {
        MethodModelView {
            id: self.id,
            owner_class: self.owner_class@,
            name: self.name@,
            return_type: self.return_type@,
            parameters: strs(self.parameters@),
            access_flags: self.access_flags,
            code: match self.code {
                Some(c) => Some(c@),
                None => None,
            },
        }
    }
}

pub struct ClassModelView {
    pub id: usize,
    pub descriptor: Seq<char>,
    pub access_flags: u32,
    pub superclass: Option<Seq<char>>,
    pub interfaces: Seq<Seq<char>>,
    pub methods: Seq<MethodModelView>,
    pub fields: Seq<FieldModelView>,
    pub origin: OriginView,
}

impl View for ClassModel {
    type V = ClassModelView;

    open spec fn view(&self) -> ClassModelView {
        ClassModelView {
            id: self.id,
            descriptor: self.descriptor@,
            access_flags: self.access_flags,
            superclass: opt_str(self.superclass),
            interfaces: strs(self.interfaces@),
            methods: self.methods@.map_values(|m: MethodModel| m@),
            fields: self.fields@.map_values(|f: FieldModel| f@),
            origin: self.origin@,
        }
    }
}

pub open spec fn class_views(v: Seq<ClassModel>) -> Seq<ClassModelView> {
    v.map_values(|c: ClassModel| c@)
}

pub open spec fn model_warning_views(v: Seq<ModelWarning>) -> Seq<WarningModelView> {
    v.map_values(|w: ModelWarning| w@)
}

// ----- reference shapes -----

/// `Lowner;->name(P1,P2)->R`: how a method reference is spelled in a code summary.
pub open spec fn method_shape(m: MethodView) -> Seq<char> {
    m.class_type + "->"@ + m.name + "("@ + join(m.proto.parameters, ","@) + ")->"@ + m.proto.return_type
}

/// `Lowner;->name:T`: how a field reference is spelled in a code summary.
pub open spec fn field_shape(f: FieldView) -> Seq<char> {
    f.class_type + "->"@ + f.name + ":"@ + f.field_type
}

fn method_ref_shape(method: &MethodId) -> (r: String)
    ensures
        r@ == method_shape(method@),
{
    let mut s = String::new();
    push_str(&mut s, method.class_type.as_str());
    push_str(&mut s, "->");
    push_str(&mut s, method.name.as_str());
    push_str(&mut s, "(");
    let params = join_strings(method.proto.parameters.as_slice(), ",");
    push_str(&mut s, params.as_str());
    push_str(&mut s, ")->");
    push_str(&mut s, method.proto.return_type.as_str());
    s
}

fn field_ref_shape(field: &FieldId) -> (r: String)
    ensures
        r@ == field_shape(field@),
{
    let mut s = String::new();
    push_str(&mut s, field.class_type.as_str());
    push_str(&mut s, "->");
    push_str(&mut s, field.name.as_str());
    push_str(&mut s, ":");
    push_str(&mut s, field.field_type.as_str());
    s
}

// ----- code summaries -----

/// The strings the indices `ids` name, skipping indices past the end of the table.
pub open spec fn string_texts(ids: Seq<u32>, strings: Seq<Seq<char>>) -> Seq<Seq<char>>
    decreases ids.len(),
{
    if ids.len() == 0 {
        Seq::empty()
    } else {
        let rest = string_texts(ids.drop_last(), strings);
        if (ids.last() as int) < strings.len() {
            rest.push(strings[ids.last() as int])
        } else {
            rest
        }
    }
}

/// The shapes of the methods the indices `ids` name, skipping indices past the end.
pub open spec fn method_shapes(ids: Seq<u32>, methods: Seq<MethodView>) -> Seq<Seq<char>>
    decreases ids.len(),
{
    if ids.len() == 0 {
        Seq::empty()
    } else {
        let rest = method_shapes(ids.drop_last(), methods);
        if (ids.last() as int) < methods.len() {
            rest.push(method_shape(methods[ids.last() as int]))
        } else {
            rest
        }
    }
}

/// The shapes of the fields the indices `ids` name, skipping indices past the end.
pub open spec fn field_shapes(ids: Seq<u32>, fields: Seq<FieldView>) -> Seq<Seq<char>>
    decreases ids.len(),
{
    if ids.len() == 0 {
        Seq::empty()
    } else {
        let rest = field_shapes(ids.drop_last(), fields);
        if (ids.last() as int) < fields.len() {
            rest.push(field_shape(fields[ids.last() as int]))
        } else {
            rest
        }
    }
}

/// The summary of a method body whose code item is `c`, with references resolved in `raw`.
pub open spec fn code_summary(c: CodeItem, raw: RawDex) -> CodeSummaryView {
    CodeSummaryView {
        registers_size: c.registers_size,
        ins_size: c.ins_size,
        outs_size: c.outs_size,
        instruction_count: c.instruction_summary.instruction_count,
        opcode_histogram: c.instruction_summary.opcode_histogram@,
        string_refs: string_texts(c.instruction_summary.string_refs@, strs(raw.strings@)),
        method_refs: method_shapes(c.instruction_summary.method_refs@, crate::dex::raw::methods_view(raw.methods@)),
        field_refs: field_shapes(c.instruction_summary.field_refs@, crate::dex::raw::fields_view(raw.fields@)),
        branch_count: c.instruction_summary.branch_count,
        return_count: c.instruction_summary.return_count,
        throw_count: c.instruction_summary.throw_count,
        switch_count: c.instruction_summary.switch_count,
    }
}

fn resolve_strings(ids: &Vec<u32>, strings: &Vec<String>) -> (r: Vec<String>)
    ensures
        strs(r@) == string_texts(ids@, strs(strings@)),
{
    let mut r: Vec<String> = Vec::new();
    let mut i: usize = 0;
    while i < ids.len()
        invariant
            i <= ids.len(),
            strs(r@) == string_texts(ids@.take(i as int), strs(strings@)),
        decreases ids.len() - i,
    {
        let id = ids[i];
        proof {
            assert(ids@.take(i + 1).drop_last() =~= ids@.take(i as int));
        }
        if (id as usize) < strings.len() {
            let ghost prev = r@;
            r.push(copy_string(&strings[id as usize]));
            assert(strs(r@) =~= strs(prev).push(strs(strings@)[id as int]));
        }
        i = i + 1;
    }
    assert(ids@.take(ids@.len() as int) =~= ids@);
    r
}

fn resolve_methods(ids: &Vec<u32>, methods: &Vec<MethodId>) -> (r: Vec<String>)
    ensures
        strs(r@) == method_shapes(ids@, crate::dex::raw::methods_view(methods@)),
{
    let mut r: Vec<String> = Vec::new();
    let mut i: usize = 0;
    let ghost mv = crate::dex::raw::methods_view(methods@);
    while i < ids.len()
        invariant
            i <= ids.len(),
            mv == crate::dex::raw::methods_view(methods@),
            strs(r@) == method_shapes(ids@.take(i as int), mv),
        decreases ids.len() - i,
    {
        let id = ids[i];
        proof {
            assert(ids@.take(i + 1).drop_last() =~= ids@.take(i as int));
        }
        if (id as usize) < methods.len() {
            let ghost prev = r@;
            r.push(method_ref_shape(&methods[id as usize]));
            assert(strs(r@) =~= strs(prev).push(method_shape(mv[id as int])));
        }
        i = i + 1;
    }
    assert(ids@.take(ids@.len() as int) =~= ids@);
    r
}

fn resolve_fields(ids: &Vec<u32>, fields: &Vec<FieldId>) -> (r: Vec<String>)
    ensures
        strs(r@) == field_shapes(ids@, crate::dex::raw::fields_view(fields@)),
{
    let mut r: Vec<String> = Vec::new();
    let mut i: usize = 0;
    let ghost fv = crate::dex::raw::fields_view(fields@);
    while i < ids.len()
        invariant
            i <= ids.len(),
            fv == crate::dex::raw::fields_view(fields@),
            strs(r@) == field_shapes(ids@.take(i as int), fv),
        decreases ids.len() - i,
    {
        let id = ids[i];
        proof {
            assert(ids@.take(i + 1).drop_last() =~= ids@.take(i as int));
        }
        if (id as usize) < fields.len() {
            let ghost prev = r@;
            r.push(field_ref_shape(&fields[id as usize]));
            assert(strs(r@) =~= strs(prev).push(field_shape(fv[id as int])));
        }
        i = i + 1;
    }
    assert(ids@.take(ids@.len() as int) =~= ids@);
    r
}

fn method_code_summary_from_code_item(code_item: &CodeItem, raw: &RawDex) -> (r: MethodCodeSummary)
    ensures
        r@ == code_summary(*code_item, *raw),
{
    let s = &code_item.instruction_summary;
    MethodCodeSummary {
        registers_size: code_item.registers_size,
        ins_size: code_item.ins_size,
        outs_size: code_item.outs_size,
        instruction_count: s.instruction_count,
        opcode_histogram: s.opcode_histogram.clone(),
        string_refs: resolve_strings(&s.string_refs, &raw.strings),
        method_refs: resolve_methods(&s.method_refs, &raw.methods),
        field_refs: resolve_fields(&s.field_refs, &raw.fields),
        branch_count: s.branch_count,
        return_count: s.return_count,
        throw_count: s.throw_count,
        switch_count: s.switch_count,
    }
}


// ----- building the model -----

/// The counter after `n`, wrapping to 0 past `usize::MAX`.
pub open spec fn bump(n: usize) -> usize {
    if n == usize::MAX { 0 } else { (n + 1) as usize }
}

/// The field models for the encoded fields `enc[i..]` of class `owner`, numbered from `next`,
/// appended to `acc`; encoded fields naming no entry of `table` are skipped. Also the next number.
pub open spec fn field_models_from(owner: Seq<char>, table: Seq<FieldView>, enc: Seq<EncodedField>, i: nat,
    next: usize, acc: Seq<FieldModelView>) -> (Seq<FieldModelView>, usize)
    decreases enc.len() - i,
{
    if i >= enc.len() {
        (acc, next)
    } else if (enc[i as int].field_idx as int) < table.len() {
        let f = table[enc[i as int].field_idx as int];
        field_models_from(owner, table, enc, i + 1, bump(next), acc.push(FieldModelView {
            id: next,
            owner_class: owner,
            name: f.name,
            field_type: f.field_type,
            access_flags: enc[i as int].access_flags,
        }))
    } else {
        field_models_from(owner, table, enc, i + 1, next, acc)
    }
}

/// The summary of the method body at `code_off`, when `raw` holds a code item there.
pub open spec fn code_at(raw: RawDex, code_off: u32) -> Option<CodeSummaryView> {
    if raw.code_items@.dom().contains(code_off) {
        Some(code_summary(raw.code_items@[code_off], raw))
    } else {
        None
    }
}

/// The method models for the encoded methods `enc[i..]` of class `owner`, numbered from `next`,
/// appended to `acc`; encoded methods naming no entry of the method table are skipped.
pub open spec fn method_models_from(owner: Seq<char>, raw: RawDex, enc: Seq<EncodedMethod>, i: nat,
    next: usize, acc: Seq<MethodModelView>) -> (Seq<MethodModelView>, usize)
    decreases enc.len() - i,
{
    if i >= enc.len() {
        (acc, next)
    } else if (enc[i as int].method_idx as int) < raw.methods@.len() {
        let m = raw.methods@[enc[i as int].method_idx as int]@;
        method_models_from(owner, raw, enc, i + 1, bump(next), acc.push(MethodModelView {
            id: next,
            owner_class: owner,
            name: m.name,
            return_type: m.proto.return_type,
            parameters: m.proto.parameters,
            access_flags: enc[i as int].access_flags,
            code: code_at(raw, enc[i as int].code_off),
        }))
    } else {
        method_models_from(owner, raw, enc, i + 1, next, acc)
    }
}

/// What the model build has gathered: the classes in DEX order, the next method and field
/// numbers, and the warnings.
pub struct BuildView {
    pub classes: Seq<ClassModelView>,
    pub next_method: usize,
    pub next_field: usize,
    pub warnings: Seq<WarningModelView>,
}

/// The model of class definition `i` of `raw`, numbered `id`, with its members numbered from
/// `nm` and `nf`; also the next member numbers.
pub open spec fn class_model(raw: RawDex, i: int, part: Seq<char>, dex: Seq<char>, dex_index: usize, id: usize,
    nm: usize, nf: usize) -> (ClassModelView, usize, usize) {
    let c = raw.classes@[i];
    let owner = c.class_type@;
    let fv = crate::dex::raw::fields_view(raw.fields@);
    let (methods, fields, nm2, nf2) = match c.class_data {
        None => (Seq::empty(), Seq::empty(), nm, nf),
        Some(d) => {
            let (f1, nf1) = field_models_from(owner, fv, d.static_fields@, 0, nf, Seq::empty());
            let (f2, nf2) = field_models_from(owner, fv, d.instance_fields@, 0, nf1, f1);
            let (m1, nm1) = method_models_from(owner, raw, d.direct_methods@, 0, nm, Seq::empty());
            let (m2, nm2) = method_models_from(owner, raw, d.virtual_methods@, 0, nm1, m1);
            (m2, f2, nm2, nf2)
        },
    };
    (ClassModelView {
        id: id,
        descriptor: owner,
        access_flags: c.access_flags,
        superclass: opt_str(c.superclass),
        interfaces: strs(c.interfaces@),
        methods: methods,
        fields: fields,
        origin: OriginView { apk_part: part, dex_file: dex, dex_index: dex_index, class_def_index: Some(i as usize) },
    }, nm2, nf2)
}

/// The build after adding class definitions `i..` of `raw`.
pub open spec fn classes_from(raw: RawDex, part: Seq<char>, dex: Seq<char>, dex_index: usize, i: nat, st: BuildView)
    -> BuildView
    decreases raw.classes@.len() - i,
{
    if i >= raw.classes@.len() {
        st
    } else {
        let (c, nm, nf) = class_model(raw, i as int, part, dex, dex_index, st.classes.len() as usize,
            st.next_method, st.next_field);
        classes_from(raw, part, dex, dex_index, i + 1,
            BuildView { classes: st.classes.push(c), next_method: nm, next_field: nf, warnings: st.warnings })
    }
}

/// The name `{:?}` gives a warning kind.
pub open spec fn kind_name(k: ParseWarningKind) -> Seq<char> {
    match k {
        ParseWarningKind::DexSkipped => "DexSkipped"@,
        ParseWarningKind::ClassData => "ClassData"@,
        ParseWarningKind::CodeItem => "CodeItem"@,
        ParseWarningKind::Instruction => "Instruction"@,
        ParseWarningKind::Reference => "Reference"@,
    }
}

/// A parse warning of DEX `dex` in part `part`, as the model reports it: its origin prefixed
/// with `part!dex:`.
pub open spec fn model_warning(w: ParseWarning, part: Seq<char>, dex: Seq<char>) -> WarningModelView {
    WarningModelView { origin: part + "!"@ + dex + ":"@ + w.origin@, kind: kind_name(w.kind), message: w.message@ }
}

/// The build after adding one parsed DEX file: its warnings, then its classes.
pub open spec fn append_dex(st: BuildView, raw: RawDex, part: Seq<char>, dex: Seq<char>, dex_index: usize) -> BuildView {
    let w = st.warnings + raw.warnings@.map_values(|w: ParseWarning| model_warning(w, part, dex));
    classes_from(raw, part, dex, dex_index, 0,
        BuildView { classes: st.classes, next_method: st.next_method, next_field: st.next_field, warnings: w })
}

/// The empty build.
pub open spec fn build_start() -> BuildView {
    BuildView { classes: Seq::empty(), next_method: 0, next_field: 0, warnings: Seq::empty() }
}

struct ModelBuildState {
    classes: Vec<ClassModel>,
    next_class_id: usize,
    next_method_id: usize,
    next_field_id: usize,
    warnings: Vec<ModelWarning>,
}

impl ModelBuildState {
    spec fn wf(&self) -> bool {
        self.next_class_id == self.classes@.len()
    }

    spec fn view(&self) -> BuildView {
        BuildView {
            classes: class_views(self.classes@),
            next_method: self.next_method_id,
            next_field: self.next_field_id,
            warnings: model_warning_views(self.warnings@),
        }
    }

    fn new() -> (r: Self)
        ensures
            r.wf(),
            r.view() == build_start(),
    {
        let r = ModelBuildState { classes: Vec::new(), next_class_id: 0, next_method_id: 0, next_field_id: 0,
            warnings: Vec::new() };
        assert(r.view().classes =~= Seq::<ClassModelView>::empty());
        assert(r.view().warnings =~= Seq::<WarningModelView>::empty());
        r
    }
}

fn kind_text(k: ParseWarningKind) -> (r: String)
    ensures
        r@ == kind_name(k),
{
    let mut s = String::new();
    match k {
        ParseWarningKind::DexSkipped => push_str(&mut s, "DexSkipped"),
        ParseWarningKind::ClassData => push_str(&mut s, "ClassData"),
        ParseWarningKind::CodeItem => push_str(&mut s, "CodeItem"),
        ParseWarningKind::Instruction => push_str(&mut s, "Instruction"),
        ParseWarningKind::Reference => push_str(&mut s, "Reference"),
    }
    s
}

fn warning_for_model(w: &ParseWarning, apk_part: &str, dex_name: &str) -> (r: ModelWarning)
    ensures
        r@ == model_warning(*w, apk_part@, dex_name@),
{
    let mut origin = String::new();
    push_str(&mut origin, apk_part);
    push_str(&mut origin, "!");
    push_str(&mut origin, dex_name);
    push_str(&mut origin, ":");
    push_str(&mut origin, w.origin.as_str());
    ModelWarning { origin, kind: kind_text(w.kind), message: copy_string(&w.message) }
}

fn collect_fields(owner: &String, table: &Vec<FieldId>, enc: &Vec<EncodedField>, next: &mut usize,
    out: &mut Vec<FieldModel>)
    ensures
        (final(out)@.map_values(|f: FieldModel| f@), *final(next)) == field_models_from(owner@,
            crate::dex::raw::fields_view(table@), enc@, 0, *old(next), old(out)@.map_values(|f: FieldModel| f@)),
{
    let ghost fv = crate::dex::raw::fields_view(table@);
    let ghost start = (old(out)@.map_values(|f: FieldModel| f@), *old(next));
    let mut i: usize = 0;
    while i < enc.len()
        invariant
            i <= enc.len(),
            fv == crate::dex::raw::fields_view(table@),
            field_models_from(owner@, fv, enc@, 0, start.1, start.0) == field_models_from(owner@, fv, enc@, i as nat,
                *next, out@.map_values(|f: FieldModel| f@)),
        decreases enc.len() - i,
    {
        let e = enc[i];
        if (e.field_idx as usize) < table.len() {
            let f = &table[e.field_idx as usize];
            let ghost prev = out@;
            let cur = *next;
            out.push(FieldModel {
                id: cur,
                owner_class: copy_string(owner),
                name: copy_string(&f.name),
                field_type: copy_string(&f.field_type),
                access_flags: e.access_flags,
            });
            assert(out@.map_values(|f: FieldModel| f@) =~= prev.map_values(|f: FieldModel| f@).push(FieldModelView {
                id: cur,
                owner_class: owner@,
                name: fv[e.field_idx as int].name,
                field_type: fv[e.field_idx as int].field_type,
                access_flags: e.access_flags,
            }));
            *next = cur.wrapping_add(1);
            assert(*next == bump(cur));
        }
        i = i + 1;
    }
}


fn collect_methods(owner: &String, raw: &RawDex, enc: &Vec<EncodedMethod>, next: &mut usize,
    out: &mut Vec<MethodModel>)
    ensures
        (final(out)@.map_values(|m: MethodModel| m@), *final(next)) == method_models_from(owner@, *raw, enc@, 0,
            *old(next), old(out)@.map_values(|m: MethodModel| m@)),
{
    let ghost start = (old(out)@.map_values(|m: MethodModel| m@), *old(next));
    let mut i: usize = 0;
    while i < enc.len()
        invariant
            i <= enc.len(),
            method_models_from(owner@, *raw, enc@, 0, start.1, start.0) == method_models_from(owner@, *raw, enc@,
                i as nat, *next, out@.map_values(|m: MethodModel| m@)),
        decreases enc.len() - i,
    {
        let e = enc[i];
        if (e.method_idx as usize) < raw.methods.len() {
            let m = &raw.methods[e.method_idx as usize];
            let code = match raw.code_items.get(&e.code_off) {
                Some(code_item) => Some(method_code_summary_from_code_item(code_item, raw)),
                None => None,
            };
            let ghost prev = out@;
            let cur = *next;
            out.push(MethodModel {
                id: cur,
                owner_class: copy_string(owner),
                name: copy_string(&m.name),
                return_type: copy_string(&m.proto.return_type),
                parameters: copy_strings(&m.proto.parameters),
                access_flags: e.access_flags,
                code,
            });
            assert(out@.map_values(|m: MethodModel| m@) =~= prev.map_values(|m: MethodModel| m@).push(MethodModelView {
                id: cur,
                owner_class: owner@,
                name: m@.name,
                return_type: m@.proto.return_type,
                parameters: m@.proto.parameters,
                access_flags: e.access_flags,
                code: code_at(*raw, e.code_off),
            }));
            *next = cur.wrapping_add(1);
        }
        i = i + 1;
    }
}

impl ModelBuildState {
    fn append_parsed_dex(&mut self, parsed: &ParsedDex, apk_part: &str, dex_name: &str, dex_index: usize)
        requires
            old(self).wf(),
        ensures
            final(self).wf(),
            final(self).view() == append_dex(old(self).view(), parsed.raw, apk_part@, dex_name@, dex_index),
    {
        let raw = &parsed.raw;
        let ghost added = raw.warnings@.map_values(|w: ParseWarning| model_warning(w, apk_part@, dex_name@));
        let ghost before = model_warning_views(self.warnings@);
        let mut w: usize = 0;
        while w < raw.warnings.len()
            invariant
                w <= raw.warnings.len(),
                self.wf(),
                self.classes@ == old(self).classes@,
                self.next_method_id == old(self).next_method_id,
                self.next_field_id == old(self).next_field_id,
                before == model_warning_views(old(self).warnings@),
                added == raw.warnings@.map_values(|w: ParseWarning| model_warning(w, apk_part@, dex_name@)),
                model_warning_views(self.warnings@) == before + added.take(w as int),
            decreases raw.warnings.len() - w,
        {
            let ghost prev = self.warnings@;
            self.warnings.push(warning_for_model(&raw.warnings[w], apk_part, dex_name));
            assert(model_warning_views(self.warnings@) =~= model_warning_views(prev).push(added[w as int]));
            assert(added.take(w + 1) =~= added.take(w as int).push(added[w as int]));
            w = w + 1;
        }
        assert(added.take(added.len() as int) =~= added);
        let ghost start = self.view();
        assert(start == (BuildView { classes: old(self).view().classes, next_method: old(self).view().next_method,
            next_field: old(self).view().next_field, warnings: old(self).view().warnings + added }));
        let mut i: usize = 0;
        while i < raw.classes.len()
            invariant
                i <= raw.classes.len(),
                self.wf(),
                classes_from(*raw, apk_part@, dex_name@, dex_index, 0, start) == classes_from(*raw, apk_part@,
                    dex_name@, dex_index, i as nat, self.view()),
            decreases raw.classes.len() - i,
        {
            let class_def = &raw.classes[i];
            let mut fields: Vec<FieldModel> = Vec::new();
            let mut methods: Vec<MethodModel> = Vec::new();
            let mut next_field = self.next_field_id;
            let mut next_method = self.next_method_id;
            assert(fields@.map_values(|f: FieldModel| f@) =~= Seq::<FieldModelView>::empty());
            assert(methods@.map_values(|m: MethodModel| m@) =~= Seq::<MethodModelView>::empty());
            match &class_def.class_data {
                Some(class_data) => {
                    collect_fields(&class_def.class_type, &raw.fields, &class_data.static_fields, &mut next_field,
                        &mut fields);
                    collect_fields(&class_def.class_type, &raw.fields, &class_data.instance_fields, &mut next_field,
                        &mut fields);
                    collect_methods(&class_def.class_type, raw, &class_data.direct_methods, &mut next_method,
                        &mut methods);
                    collect_methods(&class_def.class_type, raw, &class_data.virtual_methods, &mut next_method,
                        &mut methods);
                },
                None => {},
            }
            let ghost prev = self.view();
            let model = ClassModel {
                id: self.next_class_id,
                descriptor: copy_string(&class_def.class_type),
                access_flags: class_def.access_flags,
                superclass: copy_opt_string(&class_def.superclass),
                interfaces: copy_strings(&class_def.interfaces),
                methods,
                fields,
                origin: DexOrigin {
                    apk_part: apk_part.to_owned(),
                    dex_file: dex_name.to_owned(),
                    dex_index,
                    class_def_index: Some(i),
                },
            };
            let ghost expected = class_model(*raw, i as int, apk_part@, dex_name@, dex_index, prev.classes.len() as usize,
                prev.next_method, prev.next_field);
            assert(model@.methods =~= expected.0.methods);
            assert(model@.fields =~= expected.0.fields);
            assert(model@ == expected.0);
            self.classes.push(model);
            self.next_class_id = self.classes.len();
            self.next_method_id = next_method;
            self.next_field_id = next_field;
            assert(self.view().classes =~= prev.classes.push(expected.0));
            i = i + 1;
        }
    }
}


// ----- finishing the model -----

/// Classes ordered by descriptor.
pub open spec fn descriptor_before() -> spec_fn(ClassModelView, ClassModelView) -> bool {
    |a: ClassModelView, b: ClassModelView| lex_lt(a.descriptor, b.descriptor)
}

/// Class models ordered by descriptor.
pub open spec fn class_descriptor_before() -> spec_fn(ClassModel, ClassModel) -> bool {
    |a: ClassModel, b: ClassModel| lex_lt(a.descriptor@, b.descriptor@)
}

/// Calls `slice::sort_by` with a comparator that compares descriptors with the verified
/// `compare_strings`, a total order. The documentation describes a stable sort: the result is a
/// rearrangement of the input in which no class comes after one whose descriptor is smaller,
/// and classes with equal descriptors keep their relative order.
#[verifier::external_body]
fn sort_classes_by_descriptor(classes: &mut Vec<ClassModel>)
    ensures
        exists|p: Seq<int>| stable_sort_of(old(classes)@, final(classes)@, p, class_descriptor_before()),
{
    classes.sort_by(|left, right| compare_strings(left.descriptor.as_str(), right.descriptor.as_str()));
}

/// `n` reduced to a `usize` the way wrapping addition reduces it.
pub open spec fn wrap(n: nat) -> usize {
    (n % (usize::MAX as nat + 1)) as usize
}

/// The number of methods of the classes `cs`.
pub open spec fn method_total(cs: Seq<ClassModelView>) -> nat
    decreases cs.len(),
{
    if cs.len() == 0 { 0 } else { method_total(cs.drop_last()) + cs.last().methods.len() }
}

/// The number of fields of the classes `cs`.
pub open spec fn field_total(cs: Seq<ClassModelView>) -> nat
    decreases cs.len(),
{
    if cs.len() == 0 { 0 } else { field_total(cs.drop_last()) + cs.last().fields.len() }
}

pub proof fn lemma_wrap_add(t: nat, l: usize)
    ensures
        wrap(t).wrapping_add(l) == wrap((t + l) as nat),
{
    let m = usize::MAX as nat + 1;
    vstd::arithmetic::div_mod::lemma_add_mod_noop(t as int, l as int, m as int);
    vstd::arithmetic::div_mod::lemma_small_mod(l as nat, m);
    let a = t % m;
    assert(a < m) by {
        vstd::arithmetic::div_mod::lemma_mod_bound(t as int, m as int);
    }
    if a + l >= m {
        vstd::arithmetic::div_mod::lemma_mod_sub_multiples_vanish((a + l) as int, m as int);
        vstd::arithmetic::div_mod::lemma_small_mod((a + l - m) as nat, m);
    } else {
        vstd::arithmetic::div_mod::lemma_small_mod((a + l) as nat, m);
    }
}

/// `m` is the model of an app named `apk_name` with package `package`, whose build gathered
/// `st`: its classes are those of `st` stably sorted by descriptor, and its coverage counts them.
pub open spec fn model_matches(m: AppModel, st: BuildView, apk_name: Seq<char>, package: Option<Seq<char>>,
    apk_parts: usize, dex_files: usize) -> bool {
    &&& m.apk_name@ == apk_name
    &&& opt_str(m.package_name) == package
    &&& exists|p: Seq<int>| #[trigger] stable_sort_of(st.classes, class_views(m.classes@), p, descriptor_before())
    &&& m.coverage.apk_parts == apk_parts
    &&& m.coverage.dex_files == dex_files
    &&& m.coverage.parsed_classes == st.classes.len()
    &&& m.coverage.parsed_methods == wrap(method_total(st.classes))
    &&& m.coverage.parsed_fields == wrap(field_total(st.classes))
    &&& model_warning_views(m.coverage.warnings@) == st.warnings
}

impl ModelBuildState {
    fn finish(self, apk_name: String, package_name: Option<String>, apk_parts: usize, dex_files: usize)
        -> (m: AppModel)
        requires
            self.wf(),
        ensures
            model_matches(m, self.view(), apk_name@, opt_str(package_name), apk_parts, dex_files),
    {
        let ghost st = self.view();
        let mut classes = self.classes;
        let mut methods: usize = 0;
        let mut fields: usize = 0;
        let mut i: usize = 0;
        assert(st.classes.take(0) =~= Seq::<ClassModelView>::empty());
        assert(wrap(0) == 0);
        while i < classes.len()
            invariant
                i <= classes.len(),
                st.classes == class_views(classes@),
                methods == wrap(method_total(st.classes.take(i as int))),
                fields == wrap(field_total(st.classes.take(i as int))),
            decreases classes.len() - i,
        {
            proof {
                assert(st.classes.take(i + 1).drop_last() =~= st.classes.take(i as int));
                lemma_wrap_add(method_total(st.classes.take(i as int)), classes[i as int].methods.len());
                lemma_wrap_add(field_total(st.classes.take(i as int)), classes[i as int].fields.len());
            }
            methods = methods.wrapping_add(classes[i].methods.len());
            fields = fields.wrapping_add(classes[i].fields.len());
            i = i + 1;
        }
        assert(st.classes.take(st.classes.len() as int) =~= st.classes);
        let count = classes.len();
        let ghost unsorted = classes@;
        sort_classes_by_descriptor(&mut classes);
        let ghost p = choose|p: Seq<int>| stable_sort_of(unsorted, classes@, p, class_descriptor_before());
        proof {
            let f = |c: ClassModel| c@;
            lemma_stable_sort_map(unsorted, classes@, p, class_descriptor_before(), f, descriptor_before());
            assert(unsorted.map_values(f) =~= class_views(unsorted));
            assert(classes@.map_values(f) =~= class_views(classes@));
            assert(stable_sort_of(st.classes, class_views(classes@), p, descriptor_before()));
        }
        let coverage = ParseCoverage {
            apk_parts,
            dex_files,
            parsed_classes: count,
            parsed_methods: methods,
            parsed_fields: fields,
            warnings: self.warnings,
        };
        let m = AppModel { apk_name, package_name, classes, coverage };
        assert(m.coverage.parsed_methods == wrap(method_total(st.classes)));
        assert(model_warning_views(m.coverage.warnings@) == st.warnings);
        assert(stable_sort_of(st.classes, class_views(m.classes@), p, descriptor_before()));
        assert(m.apk_name@ == apk_name@);
        assert(opt_str(m.package_name) == opt_str(package_name));
        m
    }
}


// ----- whole apps -----

/// The name classes of an unnamed DEX part are attributed to: the file name of the input, or
/// `input.apk`.
pub open spec fn origin_apk_name(input: ApkInput) -> Seq<char> {
    match input.file_name {
        Some(n) => n@,
        None => "input.apk"@,
    }
}

/// The name of the model of an input: the file name of the input, or `apk`.
pub open spec fn model_apk_name(input: ApkInput) -> Seq<char> {
    match input.file_name {
        Some(n) => n@,
        None => "apk"@,
    }
}

/// The DEX file name of parsed DEX `i`: that of the input's DEX file `i`, or `classes<i+1>.dex`.
pub open spec fn dex_name_at(input: ApkInput, i: int) -> Seq<char> {
    if i < input.dex_files@.len() {
        input.dex_files@[i].name@
    } else {
        "classes"@ + decimal((i + 1) as nat) + ".dex"@
    }
}

/// The APK part of parsed DEX `i`: that of the input's DEX file `i`, or the input's own name.
pub open spec fn dex_part_at(input: ApkInput, i: int) -> Seq<char> {
    if i < input.dex_files@.len() {
        input.dex_files@[i].apk_part@
    } else {
        origin_apk_name(input)
    }
}

/// The build after adding parsed DEX files `i..` of the input.
pub open spec fn dexes_from(input: ApkInput, parsed: Seq<ParsedDex>, i: nat, st: BuildView) -> BuildView
    decreases parsed.len() - i,
{
    if i >= parsed.len() {
        st
    } else {
        dexes_from(input, parsed, i + 1,
            append_dex(st, parsed[i as int].raw, dex_part_at(input, i as int), dex_name_at(input, i as int),
                i as usize))
    }
}

/// `m` is the model of `input` whose DEX files parsed to `parsed`.
pub open spec fn app_model_of(m: AppModel, input: ApkInput, parsed: Seq<ParsedDex>) -> bool {
    model_matches(m, dexes_from(input, parsed, 0, build_start()), model_apk_name(input),
        opt_str(input.package_name), input.apk_parts, input.dex_files@.len() as usize)
}

fn origin_name(input: &ApkInput) -> (r: String)
    ensures
        r@ == origin_apk_name(*input),
{
    match &input.file_name {
        Some(n) => copy_string(n),
        None => "input.apk".to_owned(),
    }
}

fn model_name(input: &ApkInput) -> (r: String)
    ensures
        r@ == model_apk_name(*input),
{
    match &input.file_name {
        Some(n) => copy_string(n),
        None => "apk".to_owned(),
    }
}

/// Builds the class model of `input` from its parsed DEX files.
pub fn build_app_model(input: &ApkInput, parsed_dex: &[ParsedDex]) -> (r: Result<AppModel>)
    ensures
        r matches Ok(m) && app_model_of(m, *input, parsed_dex@),
{
    let mut state = ModelBuildState::new();
    let ghost parsed = parsed_dex@;
    let mut i: usize = 0;
    while i < parsed_dex.len()
        invariant
            i <= parsed_dex.len(),
            parsed == parsed_dex@,
            state.wf(),
            dexes_from(*input, parsed, 0, build_start()) == dexes_from(*input, parsed, i as nat, state.view()),
        decreases parsed_dex.len() - i,
    {
        let (dex_name, apk_part) = if i < input.dex_files.len() {
            (copy_string(&input.dex_files[i].name), copy_string(&input.dex_files[i].apk_part))
        } else {
            let mut name = String::new();
            push_str(&mut name, "classes");
            push_decimal(&mut name, (i + 1) as u64);
            push_str(&mut name, ".dex");
            (name, origin_name(input))
        };
        state.append_parsed_dex(&parsed_dex[i], apk_part.as_str(), dex_name.as_str(), i);
        i = i + 1;
    }
    let apk_name = model_name(input);
    Ok(state.finish(apk_name, copy_opt_string(&input.package_name), input.apk_parts, input.dex_files.len()))
}

/// `p` is what parsing the DEX file `b` gives.
#[verifier::opaque]
pub open spec fn parsed_from(b: Seq<u8>, p: ParsedDex) -> bool {
    match crate::dex::raw::tables_at(b) {
        Ok(v) => crate::dex::raw::raw_matches(p.raw, v, b),
        Err(_) => false,
    }
}

/// The error parsing the DEX file `b` stops at, if it does.
#[verifier::opaque]
pub open spec fn dex_parse_error(b: Seq<u8>) -> Option<ErrorView> {
    match crate::dex::raw::tables_at(b) {
        Err(t) => Some(t),
        Ok(_) => None,
    }
}

/// What parsing the DEX files `dexes[i..]` gives: the first error, or nothing.
pub open spec fn first_parse_error(dexes: Seq<DexBlob>, i: nat) -> Option<ErrorView>
    decreases dexes.len() - i,
{
    if i >= dexes.len() {
        None
    } else {
        match dex_parse_error(dexes[i as int].bytes@) {
            Some(t) => Some(t),
            None => first_parse_error(dexes, i + 1),
        }
    }
}

pub(crate) fn parse_for_model(bytes: &[u8]) -> (r: Result<ParsedDex>)
    ensures
        match r {
            Ok(p) => parsed_from(bytes@, p) && dex_parse_error(bytes@) is None,
            Err(e) => dex_parse_error(bytes@) == Some(e@),
        },
{
    let r = parse_dex(bytes);
    proof {
        reveal(parsed_from);
        reveal(dex_parse_error);
    }
    r
}

#[verifier::rlimit(40)]
/// Builds the class model of `input`, parsing its DEX files one at a time and dropping each
/// after its classes are added.
pub fn build_app_model_streaming(input: ApkInput) -> (r: Result<AppModel>)
    ensures
        match first_parse_error(input.dex_files@, 0) {
            Some(t) => r matches Err(e) && e@ == t,
            None => r matches Ok(m) && exists|parsed: Seq<ParsedDex>| #[trigger] parsed.len() == input.dex_files@.len()
                && (forall|i: int| 0 <= i < parsed.len() ==> parsed_from(input.dex_files@[i].bytes@,
                    #[trigger] parsed[i]))
                && app_model_of(m, input, parsed),
        },
{
    let ghost original = input;
    let ApkInput { path, file_name, package_name, apk_parts, dex_files } = input;
    let apk_name = match &file_name {
        Some(n) => copy_string(n),
        None => "apk".to_owned(),
    };
    let dex_count = dex_files.len();
    let mut state = ModelBuildState::new();
    let ghost mut parsed: Seq<ParsedDex> = Seq::empty();
    let ghost all = dex_files@;
    let mut i: usize = 0;
    for dex in it: dex_files.into_iter()
        invariant
            it.seq() == all,
            all == original.dex_files@,
            original == input,
            all.len() == dex_count,
            i == it.index(),
            parsed.len() == i,
            state.wf(),
            first_parse_error(all, 0) == first_parse_error(all, i as nat),
            forall|k: int| 0 <= k < parsed.len() ==> parsed_from(all[k].bytes@, #[trigger] parsed[k]),
            dexes_from(original, parsed, 0, build_start()) == state.view(),
    {
        assert(dex == all[i as int]);
        let p = match parse_for_model(dex.bytes.as_slice()) {
            Ok(p) => p,
            Err(e) => {
                assert(first_parse_error(all, i as nat) == Some(e@));
                return Err(e);
            },
        };
        assert(first_parse_error(all, i as nat) == first_parse_error(all, (i + 1) as nat));
        state.append_parsed_dex(&p, dex.apk_part.as_str(), dex.name.as_str(), i);
        proof {
            lemma_dexes_push(original, parsed, p, build_start());
            parsed = parsed.push(p);
        }
        i = i + 1;
    }
    Ok(state.finish(apk_name, package_name, apk_parts, dex_count))
}

/// Adding one more parsed DEX file to the list extends the build by that file.
proof fn lemma_dexes_push(input: ApkInput, parsed: Seq<ParsedDex>, p: ParsedDex, st: BuildView)
    ensures
        dexes_from(input, parsed.push(p), 0, st) == append_dex(dexes_from(input, parsed, 0, st), p.raw,
            dex_part_at(input, parsed.len() as int), dex_name_at(input, parsed.len() as int), parsed.len() as usize),
{
    lemma_dexes_push_from(input, parsed, p, 0, st);
}

proof fn lemma_dexes_push_from(input: ApkInput, parsed: Seq<ParsedDex>, p: ParsedDex, i: nat, st: BuildView)
    requires
        i <= parsed.len(),
    ensures
        dexes_from(input, parsed.push(p), i, st) == append_dex(dexes_from(input, parsed, i, st), p.raw,
            dex_part_at(input, parsed.len() as int), dex_name_at(input, parsed.len() as int), parsed.len() as usize),
    decreases parsed.len() - i,
{
    if i < parsed.len() {
        let q = parsed.push(p);
        assert(q[i as int] == parsed[i as int]);
        lemma_dexes_push_from(input, parsed, p, i + 1, append_dex(st, parsed[i as int].raw,
            dex_part_at(input, i as int), dex_name_at(input, i as int), i as usize));
    } else {
        let q = parsed.push(p);
        assert(q[i as int] == p);
        reveal_with_fuel(dexes_from, 2);
    }
}


// ----- class-only models -----

/// The model of class definition `i` of `raw` without its members, numbered `id`.
pub open spec fn class_only_model(raw: RawDex, i: int, part: Seq<char>, dex: Seq<char>, dex_index: usize, id: usize)
    -> ClassModelView {
    let c = raw.classes@[i];
    ClassModelView {
        id: id,
        descriptor: c.class_type@,
        access_flags: c.access_flags,
        superclass: opt_str(c.superclass),
        interfaces: strs(c.interfaces@),
        methods: Seq::empty(),
        fields: Seq::empty(),
        origin: OriginView { apk_part: part, dex_file: dex, dex_index: dex_index, class_def_index: Some(i as usize) },
    }
}

/// The classes gathered after adding class definitions `i..` of `raw` without members.
pub open spec fn classes_only_from(raw: RawDex, part: Seq<char>, dex: Seq<char>, dex_index: usize, i: nat,
    acc: Seq<ClassModelView>) -> Seq<ClassModelView>
    decreases raw.classes@.len() - i,
{
    if i >= raw.classes@.len() {
        acc
    } else {
        classes_only_from(raw, part, dex, dex_index, i + 1,
            acc.push(class_only_model(raw, i as int, part, dex, dex_index, acc.len() as usize)))
    }
}

/// The class-only build after the parsed DEX files `parsed[i..]` of `dexes`.
pub open spec fn dexes_only_from(dexes: Seq<DexBlob>, parsed: Seq<ParsedDex>, i: nat, st: BuildView) -> BuildView
    decreases parsed.len() - i,
{
    if i >= parsed.len() || i >= dexes.len() {
        st
    } else {
        let d = dexes[i as int];
        let raw = parsed[i as int].raw;
        let part = d.apk_part@;
        let name = d.name@;
        let w = st.warnings + raw.warnings@.map_values(|w: ParseWarning| model_warning(w, part, name));
        dexes_only_from(dexes, parsed, i + 1, BuildView {
            classes: classes_only_from(raw, part, name, i as usize, 0, st.classes),
            next_method: 0,
            next_field: 0,
            warnings: w,
        })
    }
}

proof fn lemma_dexes_only_push(dexes: Seq<DexBlob>, parsed: Seq<ParsedDex>, p: ParsedDex, i: nat, st: BuildView)
    requires
        i <= parsed.len(),
        parsed.len() < dexes.len(),
    ensures
        ({
            let base = dexes_only_from(dexes, parsed, i, st);
            let k = parsed.len() as int;
            let d = dexes[k];
            dexes_only_from(dexes, parsed.push(p), i, st) == BuildView {
                classes: classes_only_from(p.raw, d.apk_part@, d.name@, k as usize, 0, base.classes),
                next_method: 0,
                next_field: 0,
                warnings: base.warnings + p.raw.warnings@.map_values(|w: ParseWarning| model_warning(w, d.apk_part@,
                    d.name@)),
            }
        }),
    decreases parsed.len() - i,
{
    let q = parsed.push(p);
    if i < parsed.len() {
        assert(q[i as int] == parsed[i as int]);
        let d = dexes[i as int];
        let raw = parsed[i as int].raw;
        let w = st.warnings + raw.warnings@.map_values(|w: ParseWarning| model_warning(w, d.apk_part@, d.name@));
        lemma_dexes_only_push(dexes, parsed, p, i + 1, BuildView {
            classes: classes_only_from(raw, d.apk_part@, d.name@, i as usize, 0, st.classes),
            next_method: 0,
            next_field: 0,
            warnings: w,
        });
    } else {
        assert(q[i as int] == p);
        reveal_with_fuel(dexes_only_from, 2);
    }
}

/// Builds the model of `input` with classes only, no members: parsing each DEX file in turn.
pub fn build_class_only_model(input: ApkInput) -> (r: Result<AppModel>)
    ensures
        match first_parse_error(input.dex_files@, 0) {
            Some(t) => r matches Err(e) && e@ == t,
            None => r matches Ok(m) && exists|parsed: Seq<ParsedDex>| #[trigger] parsed.len() == input.dex_files@.len()
                && (forall|i: int| 0 <= i < parsed.len() ==> parsed_from(input.dex_files@[i].bytes@, #[trigger] parsed[i]))
                && model_matches(m, dexes_only_from(input.dex_files@, parsed, 0, build_start()), model_apk_name(input),
                    opt_str(input.package_name), input.apk_parts, input.dex_files@.len() as usize),
        },
{
    let ghost original = input;
    let ApkInput { path, file_name, package_name, apk_parts, dex_files } = input;
    let apk_name = match &file_name {
        Some(n) => copy_string(n),
        None => "apk".to_owned(),
    };
    let dex_count = dex_files.len();
    let mut state = ModelBuildState::new();
    let ghost mut parsed: Seq<ParsedDex> = Seq::empty();
    let ghost all = dex_files@;
    let mut i: usize = 0;
    for dex in it: dex_files.into_iter()
        invariant
            it.seq() == all,
            all == original.dex_files@,
            original == input,
            all.len() == dex_count,
            i == it.index(),
            parsed.len() == i,
            state.wf(),
            state.next_method_id == 0,
            state.next_field_id == 0,
            first_parse_error(all, 0) == first_parse_error(all, i as nat),
            forall|k: int| 0 <= k < parsed.len() ==> parsed_from(all[k].bytes@, #[trigger] parsed[k]),
            dexes_only_from(all, parsed, 0, build_start()) == state.view(),
    {
        assert(dex == all[i as int]);
        let p = match parse_for_model(dex.bytes.as_slice()) {
            Ok(p) => p,
            Err(e) => {
                assert(first_parse_error(all, i as nat) == Some(e@));
                return Err(e);
            },
        };
        assert(first_parse_error(all, i as nat) == first_parse_error(all, (i + 1) as nat));
        let raw = &p.raw;
        let ghost base = state.view();
        let ghost classes_before = state.classes@;
        let ghost added = raw.warnings@.map_values(|w: ParseWarning| model_warning(w, dex.apk_part@, dex.name@));
        let mut w: usize = 0;
        let ghost before_w = model_warning_views(state.warnings@);
        while w < raw.warnings.len()
            invariant
                w <= raw.warnings.len(),
                state.wf(),
                state.classes@ == classes_before,
                state.next_method_id == 0,
                state.next_field_id == 0,
                added == raw.warnings@.map_values(|w: ParseWarning| model_warning(w, dex.apk_part@, dex.name@)),
                model_warning_views(state.warnings@) == before_w + added.take(w as int),
            decreases raw.warnings.len() - w,
        {
            let ghost prev = state.warnings@;
            state.warnings.push(warning_for_model(&raw.warnings[w], dex.apk_part.as_str(), dex.name.as_str()));
            assert(model_warning_views(state.warnings@) =~= model_warning_views(prev).push(added[w as int]));
            assert(added.take(w + 1) =~= added.take(w as int).push(added[w as int]));
            w = w + 1;
        }
        assert(added.take(added.len() as int) =~= added);
        let mut c: usize = 0;
        let ghost start_classes = class_views(state.classes@);
        while c < raw.classes.len()
            invariant
                c <= raw.classes.len(),
                state.wf(),
                state.next_method_id == 0,
                state.next_field_id == 0,
                model_warning_views(state.warnings@) == before_w + added,
                classes_only_from(*raw, dex.apk_part@, dex.name@, i, 0, start_classes) == classes_only_from(*raw,
                    dex.apk_part@, dex.name@, i, c as nat, class_views(state.classes@)),
            decreases raw.classes.len() - c,
        {
            let class_def = &raw.classes[c];
            let ghost prev = class_views(state.classes@);
            let model = ClassModel {
                id: state.classes.len(),
                descriptor: copy_string(&class_def.class_type),
                access_flags: class_def.access_flags,
                superclass: copy_opt_string(&class_def.superclass),
                interfaces: copy_strings(&class_def.interfaces),
                methods: Vec::new(),
                fields: Vec::new(),
                origin: DexOrigin {
                    apk_part: copy_string(&dex.apk_part),
                    dex_file: copy_string(&dex.name),
                    dex_index: i,
                    class_def_index: Some(c),
                },
            };
            assert(model@.methods =~= Seq::<MethodModelView>::empty());
            assert(model@.fields =~= Seq::<FieldModelView>::empty());
            assert(model@ == class_only_model(*raw, c as int, dex.apk_part@, dex.name@, i, prev.len() as usize));
            state.classes.push(model);
            state.next_class_id = state.classes.len();
            assert(class_views(state.classes@) =~= prev.push(model@));
            c = c + 1;
        }
        proof {
            lemma_dexes_only_push(all, parsed, p, 0, build_start());
            assert(start_classes == base.classes);
            assert(before_w == base.warnings);
            assert(class_views(state.classes@) == classes_only_from(*raw, dex.apk_part@, dex.name@, i, 0,
                base.classes));
            parsed = parsed.push(p);
        }
        assert(state.view() == dexes_only_from(all, parsed, 0, build_start()));
        i = i + 1;
    }
    Ok(state.finish(apk_name, package_name, apk_parts, dex_count))
}


/// A model's classes come in descriptor order, and its coverage counts every class it holds.
pub proof fn lemma_model_sorted(m: AppModel, st: BuildView, apk_name: Seq<char>, package: Option<Seq<char>>,
    apk_parts: usize, dex_files: usize)
    requires
        model_matches(m, st, apk_name, package, apk_parts, dex_files),
    ensures
        forall|i: int, j: int|
            0 <= i < j < m.classes@.len() ==> !lex_lt(m.classes@[j].descriptor@, m.classes@[i].descriptor@),
        m.coverage.parsed_classes == m.classes@.len(),
{
    let p = choose|p: Seq<int>| #[trigger] stable_sort_of(st.classes, class_views(m.classes@), p, descriptor_before());
    let v = class_views(m.classes@);
    assert forall|i: int, j: int| 0 <= i < j < m.classes@.len() implies !lex_lt(
        m.classes@[j].descriptor@,
        m.classes@[i].descriptor@,
    ) by {
        assert(!(descriptor_before())(v[j], v[i]));
        assert(v[j] == m.classes@[j]@);
        assert(v[i] == m.classes@[i]@);
    }
}

} // verus!
