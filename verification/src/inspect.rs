//! The inspection report: for each APK part of an input, its package and DEX files, whether
//! each DEX file parses, and the sizes of its tables.

use vstd::prelude::*;

use crate::apk::{ApkInput, DexBlob};
use crate::chars::{decimal, opt_str, push_decimal, push_str, strs};
use crate::error::{Result, UnocRsError};
use crate::input::InputKind;
use crate::model::{bump, dex_parse_error, lemma_wrap_add, parsed_from, wrap};

verus! {

/// The inspection of one input.
#[derive(Debug, Clone)]
pub struct InspectReport {
    pub input_path: String,
    pub input_kind: InputKind,
    pub parts: Vec<InspectPartReport>,
    pub totals: InspectTotals,
    pub warning_count: usize,
    pub warnings: Vec<String>,
    pub unresolved: Vec<InspectIssue>,
}

/// The inspection of one APK part.
#[derive(Debug, Clone)]
pub struct InspectPartReport {
    pub part_name: String,
    pub path: Option<String>,
    pub package_name: Option<String>,
    pub dex_files: Vec<InspectDexReport>,
    pub error: Option<String>,
}

/// The inspection of one DEX file.
#[derive(Debug, Clone)]
pub struct InspectDexReport {
    pub apk_part: String,
    pub dex_file: String,
    pub dex_index: usize,
    pub bytes: usize,
    pub parsed: bool,
    pub version: Option<String>,
    pub strings: usize,
    pub types: usize,
    pub protos: usize,
    pub fields: usize,
    pub methods: usize,
    pub classes: usize,
    pub error: Option<String>,
}

/// What all parts and DEX files of an input add up to.
#[derive(Debug, Clone, Copy, PartialEq, Eq, Default)]
pub struct InspectTotals {
    pub parts: usize,
    pub readable_parts: usize,
    pub dex_files: usize,
    pub parsed_dex_files: usize,
    pub failed_dex_files: usize,
    pub strings: usize,
    pub types: usize,
    pub protos: usize,
    pub fields: usize,
    pub methods: usize,
    pub classes: usize,
}

/// A part or DEX file that could not be read.
#[derive(Debug, Clone)]
pub struct InspectIssue {
    pub apk_part: String,
    pub dex_file: Option<String>,
    pub message: String,
}

/// An empty report for an input of `parts` parts.
pub fn new_inspect_report(input_path: String, input_kind: InputKind, parts: usize) -> (r: InspectReport)
    ensures
        r.input_path@ == input_path@,
        r.input_kind == input_kind,
        r.parts@.len() == 0,
        r.totals == (InspectTotals { parts, ..InspectTotals::default_spec() }),
        r.warning_count == 0,
        r.warnings@.len() == 0,
        r.unresolved@.len() == 0,
{
    InspectReport {
        input_path,
        input_kind,
        parts: Vec::new(),
        totals: InspectTotals {
            parts,
            readable_parts: 0,
            dex_files: 0,
            parsed_dex_files: 0,
            failed_dex_files: 0,
            strings: 0,
            types: 0,
            protos: 0,
            fields: 0,
            methods: 0,
            classes: 0,
        },
        warning_count: 0,
        warnings: Vec::new(),
        unresolved: Vec::new(),
    }
}

impl InspectTotals {
    /// All counters zero.
    pub open spec fn default_spec() -> InspectTotals {
        InspectTotals {
            parts: 0,
            readable_parts: 0,
            dex_files: 0,
            parsed_dex_files: 0,
            failed_dex_files: 0,
            strings: 0,
            types: 0,
            protos: 0,
            fields: 0,
            methods: 0,
            classes: 0,
        }
    }
}

/// `a + b` the way wrapping addition gives it.
pub open spec fn wrapping_sum(a: usize, b: usize) -> usize {
    if a + b > usize::MAX { (a + b - usize::MAX - 1) as usize } else { (a + b) as usize }
}

/// The totals after one more DEX file parsed into tables of these sizes.
pub open spec fn totals_after_parsed(t: InspectTotals, strings: usize, types: usize, protos: usize, fields: usize,
    methods: usize, classes: usize) -> InspectTotals {
    InspectTotals {
        parsed_dex_files: bump(t.parsed_dex_files),
        strings: wrapping_sum(t.strings, strings),
        types: wrapping_sum(t.types, types),
        protos: wrapping_sum(t.protos, protos),
        fields: wrapping_sum(t.fields, fields),
        methods: wrapping_sum(t.methods, methods),
        classes: wrapping_sum(t.classes, classes),
        ..t
    }
}

/// Inspects one DEX file of a readable part: its size, and whether it parses, with its table
/// sizes or the parse error, which is also recorded as an issue; the totals count it.
pub fn inspect_dex(totals: &mut InspectTotals, unresolved: &mut Vec<InspectIssue>, dex: DexBlob)
    -> (r: InspectDexReport)
    ensures
        r.apk_part@ == dex.apk_part@,
        r.dex_file@ == dex.name@,
        r.dex_index == dex.dex_index,
        r.bytes == dex.bytes@.len(),
        match dex_parse_error(dex.bytes@) {
            Some(t) => {
                &&& !r.parsed
                &&& r.version is None
                &&& r.strings == 0 && r.types == 0 && r.protos == 0 && r.fields == 0 && r.methods == 0 && r.classes == 0
                &&& opt_str(r.error) == Some(t.text())
                &&& *final(totals) == (InspectTotals {
                    dex_files: bump(old(totals).dex_files),
                    failed_dex_files: bump(old(totals).failed_dex_files),
                    ..*old(totals)
                })
                &&& final(unresolved)@.len() == old(unresolved)@.len() + 1
                &&& final(unresolved)@.take(old(unresolved)@.len() as int) == old(unresolved)@
                &&& final(unresolved)@.last().apk_part@ == dex.apk_part@
                &&& opt_str(final(unresolved)@.last().dex_file) == Some(dex.name@)
                &&& final(unresolved)@.last().message@ == t.text()
            },
            None => exists|p: crate::dex::ParsedDex| #[trigger] parsed_from(dex.bytes@, p) && {
                &&& r.parsed
                &&& opt_str(r.version) == Some(p.raw.header.version@)
                &&& r.strings == p.raw.strings@.len()
                &&& r.types == p.raw.types@.len()
                &&& r.protos == p.raw.protos@.len()
                &&& r.fields == p.raw.fields@.len()
                &&& r.methods == p.raw.methods@.len()
                &&& r.classes == p.raw.classes@.len()
                &&& r.error is None
                &&& *final(totals) == totals_after_parsed(InspectTotals {
                    dex_files: bump(old(totals).dex_files),
                    ..*old(totals)
                }, r.strings, r.types, r.protos, r.fields, r.methods, r.classes)
                &&& final(unresolved)@ == old(unresolved)@
            },
        },
{
    let DexBlob { apk_part, name, dex_index, bytes } = dex;
    totals.dex_files = totals.dex_files.wrapping_add(1);
    let size = bytes.len();
    match crate::model::parse_for_model(bytes.as_slice()) {
        Ok(parsed) => {
            let raw = parsed.raw;
            let report = InspectDexReport {
                apk_part,
                dex_file: name,
                dex_index,
                bytes: size,
                parsed: true,
                version: Some(raw.header.version),
                strings: raw.strings.len(),
                types: raw.types.len(),
                protos: raw.protos.len(),
                fields: raw.fields.len(),
                methods: raw.methods.len(),
                classes: raw.classes.len(),
                error: None,
            };
            totals.parsed_dex_files = totals.parsed_dex_files.wrapping_add(1);
            totals.strings = totals.strings.wrapping_add(report.strings);
            totals.types = totals.types.wrapping_add(report.types);
            totals.protos = totals.protos.wrapping_add(report.protos);
            totals.fields = totals.fields.wrapping_add(report.fields);
            totals.methods = totals.methods.wrapping_add(report.methods);
            totals.classes = totals.classes.wrapping_add(report.classes);
            report
        },
        Err(error) => {
            let message = error.message();
            totals.failed_dex_files = totals.failed_dex_files.wrapping_add(1);
            let ghost before = unresolved@;
            unresolved.push(InspectIssue {
                apk_part: apk_part.clone(),
                dex_file: Some(name.clone()),
                message: message.clone(),
            });
            assert(unresolved@.take(before.len() as int) =~= before);
            InspectDexReport {
                apk_part,
                dex_file: name,
                dex_index,
                bytes: size,
                parsed: false,
                version: None,
                strings: 0,
                types: 0,
                protos: 0,
                fields: 0,
                methods: 0,
                classes: 0,
                error: Some(message),
            }
        },
    }
}

/// The number of the DEX files `v` that parse.
pub open spec fn parsed_count(v: Seq<DexBlob>) -> nat
    decreases v.len(),
{
    if v.len() == 0 {
        0
    } else {
        parsed_count(v.drop_last()) + if dex_parse_error(v.last().bytes@) is None { 1nat } else { 0nat }
    }
}

pub proof fn lemma_parsed_count_bound(v: Seq<DexBlob>)
    ensures
        parsed_count(v) <= v.len(),
    decreases v.len(),
{
    if v.len() > 0 {
        lemma_parsed_count_bound(v.drop_last());
    }
}

/// The report of DEX file `d` names it as `d` does, and says whether it parsed.
pub open spec fn reports_dex(r: InspectDexReport, d: DexBlob) -> bool {
    &&& r.apk_part@ == d.apk_part@
    &&& r.dex_file@ == d.name@
    &&& r.dex_index == d.dex_index
    &&& r.bytes == d.bytes@.len()
    &&& r.parsed == (dex_parse_error(d.bytes@) is None)
    &&& match dex_parse_error(d.bytes@) {
        Some(t) => opt_str(r.error) == Some(t.text()),
        None => r.error is None,
    }
}

/// Adds one part to the report, given what reading it gave: a readable part's DEX files are
/// inspected in order; an unreadable part records its error as an issue.
pub fn inspect_part(report: &mut InspectReport, part_name: String, path: Option<String>, outcome: Result<ApkInput>)
    ensures
        final(report).parts@.len() == old(report).parts@.len() + 1,
        final(report).parts@.take(old(report).parts@.len() as int) == old(report).parts@,
        final(report).parts@.last().part_name@ == part_name@,
        opt_str(final(report).parts@.last().path) == opt_str(path),
        final(report).input_path@ == old(report).input_path@,
        final(report).input_kind == old(report).input_kind,
        final(report).totals.parts == old(report).totals.parts,
        match outcome {
            Err(e) => {
                &&& opt_str(final(report).parts@.last().error) == Some(e.text())
                &&& final(report).parts@.last().package_name is None
                &&& final(report).parts@.last().dex_files@.len() == 0
                &&& final(report).totals == old(report).totals
                &&& final(report).unresolved@.len() == old(report).unresolved@.len() + 1
                &&& final(report).unresolved@.last().apk_part@ == part_name@
                &&& final(report).unresolved@.last().dex_file is None
                &&& final(report).unresolved@.last().message@ == e.text()
            },
            Ok(apk) => {
                &&& final(report).parts@.last().error is None
                &&& opt_str(final(report).parts@.last().package_name) == opt_str(apk.package_name)
                &&& final(report).parts@.last().dex_files@.len() == apk.dex_files@.len()
                &&& forall|i: int|
                    0 <= i < apk.dex_files@.len() ==> reports_dex(
                        #[trigger] final(report).parts@.last().dex_files@[i],
                        apk.dex_files@[i],
                    )
                &&& final(report).totals.readable_parts == bump(old(report).totals.readable_parts)
                &&& final(report).totals.dex_files == wrap((old(report).totals.dex_files + apk.dex_files@.len()) as nat)
                &&& final(report).totals.parsed_dex_files == wrap(
                    (old(report).totals.parsed_dex_files + parsed_count(apk.dex_files@)) as nat,
                )
                &&& final(report).totals.failed_dex_files == wrap(
                    (old(report).totals.failed_dex_files + apk.dex_files@.len() - parsed_count(apk.dex_files@)) as nat,
                )
                &&& final(report).unresolved@.len() == old(report).unresolved@.len() + apk.dex_files@.len()
                    - parsed_count(apk.dex_files@)
                &&& final(report).unresolved@.take(old(report).unresolved@.len() as int) == old(report).unresolved@
            },
        },
{
    let mut part = InspectPartReport { part_name, path, package_name: None, dex_files: Vec::new(), error: None };
    let ghost before_parts = report.parts@;
    let ghost name = part.part_name@;
    let ghost at = part.path;
    match outcome {
        Ok(apk) => {
            report.totals.readable_parts = report.totals.readable_parts.wrapping_add(1);
            part.package_name = apk.package_name;
            let ghost package = part.package_name;
            let ghost all = apk.dex_files@;
            proof {
                let m = usize::MAX as nat + 1;
                vstd::arithmetic::div_mod::lemma_small_mod(report.totals.dex_files as nat, m);
                vstd::arithmetic::div_mod::lemma_small_mod(report.totals.parsed_dex_files as nat, m);
                vstd::arithmetic::div_mod::lemma_small_mod(report.totals.failed_dex_files as nat, m);
                assert(all.take(0) =~= Seq::<DexBlob>::empty());
                assert(report.unresolved@.take(report.unresolved@.len() as int) =~= report.unresolved@);
            }
            for dex in it: apk.dex_files.into_iter()
                invariant
                    it.seq() == all,
                    part.dex_files@.len() == it.index(),
                    report.parts@ == before_parts,
                    report.input_path@ == old(report).input_path@,
                    report.input_kind == old(report).input_kind,
                    report.totals.parts == old(report).totals.parts,
                    report.totals.readable_parts == bump(old(report).totals.readable_parts),
                    part.error is None,
                    part.part_name@ == name,
                    part.path == at,
                    part.package_name == package,
                    forall|i: int| 0 <= i < part.dex_files@.len() ==> reports_dex(#[trigger] part.dex_files@[i], all[i]),
                    report.totals.dex_files == wrap((old(report).totals.dex_files + it.index()) as nat),
                    report.totals.parsed_dex_files == wrap(
                        (old(report).totals.parsed_dex_files + parsed_count(all.take(it.index() as int))) as nat,
                    ),
                    report.totals.failed_dex_files == wrap(
                        (old(report).totals.failed_dex_files + it.index() - parsed_count(all.take(it.index() as int))) as nat,
                    ),
                    report.unresolved@.len() == old(report).unresolved@.len() + it.index() - parsed_count(
                        all.take(it.index() as int),
                    ),
                    report.unresolved@.take(old(report).unresolved@.len() as int) == old(report).unresolved@,
            {
                let ghost k = it.index();
                let ghost t0 = report.totals;
                let ghost u0 = report.unresolved@;
                proof {
                    assert(all.take(k + 1).drop_last() =~= all.take(k as int));
                    assert(all.take(k + 1).last() == dex);
                    lemma_parsed_count_bound(all.take(k as int));
                    lemma_wrap_add((old(report).totals.dex_files + k) as nat, 1);
                    lemma_wrap_add((old(report).totals.parsed_dex_files + parsed_count(all.take(k as int))) as nat, 1);
                    lemma_wrap_add(
                        (old(report).totals.failed_dex_files + k - parsed_count(all.take(k as int))) as nat,
                        1,
                    );
                }
                let d = inspect_dex(&mut report.totals, &mut report.unresolved, dex);
                proof {
                    assert(bump(t0.dex_files) == t0.dex_files.wrapping_add(1));
                    assert(bump(t0.parsed_dex_files) == t0.parsed_dex_files.wrapping_add(1));
                    assert(bump(t0.failed_dex_files) == t0.failed_dex_files.wrapping_add(1));
                    assert(report.unresolved@.take(u0.len() as int) == u0);
                    assert(report.unresolved@.take(old(report).unresolved@.len() as int) =~= u0.take(
                        old(report).unresolved@.len() as int,
                    ));
                }
                part.dex_files.push(d);
            }
            assert(all.take(all.len() as int) =~= all);
        },
        Err(error) => {
            let message = error.message();
            report.unresolved.push(InspectIssue {
                apk_part: part.part_name.clone(),
                dex_file: None,
                message: message.clone(),
            });
            part.error = Some(message);
        },
    }
    report.parts.push(part);
    assert(report.parts@.take(before_parts.len() as int) =~= before_parts);
}

/// How an issue reads in the warnings: `part!dex: message`, with `-` for a part-level issue.
pub open spec fn issue_text(i: InspectIssue) -> Seq<char> {
    i.apk_part@ + "!"@ + match i.dex_file {
        Some(d) => d@,
        None => "-"@,
    } + ": "@ + i.message@
}

fn issue_line(issue: &InspectIssue) -> (r: String)
    ensures
        r@ == issue_text(*issue),
{
    let mut s = String::new();
    push_str(&mut s, issue.apk_part.as_str());
    push_str(&mut s, "!");
    match &issue.dex_file {
        Some(d) => push_str(&mut s, d.as_str()),
        None => push_str(&mut s, "-"),
    }
    push_str(&mut s, ": ");
    push_str(&mut s, issue.message.as_str());
    s
}

/// Ends the report: every issue becomes a warning line, and they are counted.
pub fn finish_inspect_report(report: &mut InspectReport)
    ensures
        strs(final(report).warnings@) == old(report).unresolved@.map_values(|i: InspectIssue| issue_text(i)),
        final(report).warning_count == old(report).unresolved@.len(),
        final(report).unresolved@ == old(report).unresolved@,
        final(report).parts@ == old(report).parts@,
        final(report).totals == old(report).totals,
        final(report).input_path@ == old(report).input_path@,
        final(report).input_kind == old(report).input_kind,
{
    let mut warnings: Vec<String> = Vec::new();
    let mut i: usize = 0;
    let ghost target = report.unresolved@.map_values(|i: InspectIssue| issue_text(i));
    while i < report.unresolved.len()
        invariant
            i <= report.unresolved.len(),
            report.unresolved@ == old(report).unresolved@,
            target == report.unresolved@.map_values(|i: InspectIssue| issue_text(i)),
            strs(warnings@) == target.take(i as int),
        decreases report.unresolved.len() - i,
    {
        let ghost prev = strs(warnings@);
        warnings.push(issue_line(&report.unresolved[i]));
        assert(strs(warnings@) =~= prev.push(target[i as int]));
        assert(target.take(i + 1) =~= target.take(i as int).push(target[i as int]));
        i = i + 1;
    }
    assert(target.take(target.len() as int) =~= target);
    report.warning_count = warnings.len();
    report.warnings = warnings;
}

/// How `{:?}` spells an input kind.
pub open spec fn kind_name(k: InputKind) -> Seq<char> {
    match k {
        InputKind::ApkFile => "ApkFile"@,
        InputKind::BundleArchive => "BundleArchive"@,
        InputKind::SplitDirectory => "SplitDirectory"@,
    }
}

/// `true` or `false`.
pub open spec fn bool_text(b: bool) -> Seq<char> {
    if b { "true"@ } else { "false"@ }
}

/// The lines of one DEX file in the summary.
pub open spec fn dex_lines(d: InspectDexReport) -> Seq<char> {
    "  - "@ + d.dex_file@ + " #"@ + decimal(d.dex_index as nat) + ": "@ + decimal(d.bytes as nat) + " bytes, parsed="@
        + bool_text(d.parsed) + ", classes="@ + decimal(d.classes as nat) + ", methods="@ + decimal(d.methods as nat)
        + ", fields="@ + decimal(d.fields as nat) + "\n"@ + match d.error {
            Some(e) => "    Error: "@ + e@ + "\n"@,
            None => Seq::empty(),
        }
}

/// The lines of DEX files `v[i..]`.
pub open spec fn dexes_lines(v: Seq<InspectDexReport>, i: nat) -> Seq<char>
    decreases v.len() - i,
{
    if i >= v.len() { Seq::empty() } else { dex_lines(v[i as int]) + dexes_lines(v, i + 1) }
}

/// The lines of one part in the summary.
pub open spec fn part_lines(p: InspectPartReport) -> Seq<char> {
    part_head(p) + dexes_lines(p.dex_files@, 0) + "\n"@
}

/// The first lines of a part in the summary: its name, path, package and error.
pub open spec fn part_head(p: InspectPartReport) -> Seq<char> {
    "Part: "@ + p.part_name@ + "\n"@ + match p.path {
        Some(x) => "  Path: "@ + x@ + "\n"@,
        None => Seq::empty(),
    } + match p.package_name {
        Some(x) => "  Package: "@ + x@ + "\n"@,
        None => Seq::empty(),
    } + match p.error {
        Some(x) => "  Error: "@ + x@ + "\n"@,
        None => Seq::empty(),
    }
}

/// The lines of parts `v[i..]`.
pub open spec fn parts_lines(v: Seq<InspectPartReport>, i: nat) -> Seq<char>
    decreases v.len() - i,
{
    if i >= v.len() { Seq::empty() } else { part_lines(v[i as int]) + parts_lines(v, i + 1) }
}

/// The lines of issues `v[i..]`.
pub open spec fn issues_lines(v: Seq<InspectIssue>, i: nat) -> Seq<char>
    decreases v.len() - i,
{
    if i >= v.len() { Seq::empty() } else { issue_text(v[i as int]) + "\n"@ + issues_lines(v, i + 1) }
}

/// The text of `inspect-summary.txt`.
pub open spec fn inspect_summary_text(r: InspectReport) -> Seq<char> {
    let t = r.totals;
    "unoc-rs Inspect Report\n"@ + "======================\n\n"@ + "Input: "@ + r.input_path@ + "\n"@ + "Kind: "@
        + kind_name(r.input_kind) + "\n"@ + "Parts: "@ + decimal(t.parts as nat) + "\n"@ + "Readable parts: "@
        + decimal(t.readable_parts as nat) + "\n"@ + "DEX files: "@ + decimal(t.dex_files as nat) + "\n"@
        + "Parsed DEX: "@ + decimal(t.parsed_dex_files as nat) + "\n"@ + "Failed DEX: "@
        + decimal(t.failed_dex_files as nat) + "\n"@ + "warnings: "@ + decimal(r.warning_count as nat) + "\n"@
        + "Classes: "@ + decimal(t.classes as nat) + "\n"@ + "Methods: "@ + decimal(t.methods as nat) + "\n"@
        + "Fields: "@ + decimal(t.fields as nat) + "\n"@ + "\n"@ + parts_lines(r.parts@, 0) + "Unresolved\n"@
        + "----------\n"@ + if r.unresolved@.len() == 0 { "none\n"@ } else { issues_lines(r.unresolved@, 0) }
}

fn push_line(s: &mut String, label: &str, value: usize)
    ensures
        final(s)@ == old(s)@ + label@ + decimal(value as nat) + "\n"@,
{
    push_str(s, label);
    push_decimal(s, value as u64);
    push_str(s, "\n");
}

fn push_dex_lines(s: &mut String, d: &InspectDexReport)
    ensures
        final(s)@ == old(s)@ + dex_lines(*d),
{
    push_str(s, "  - ");
    push_str(s, d.dex_file.as_str());
    push_str(s, " #");
    push_decimal(s, d.dex_index as u64);
    push_str(s, ": ");
    push_decimal(s, d.bytes as u64);
    push_str(s, " bytes, parsed=");
    push_str(s, if d.parsed { "true" } else { "false" });
    push_str(s, ", classes=");
    push_decimal(s, d.classes as u64);
    push_str(s, ", methods=");
    push_decimal(s, d.methods as u64);
    push_str(s, ", fields=");
    push_decimal(s, d.fields as u64);
    push_str(s, "\n");
    if let Some(e) = &d.error {
        push_str(s, "    Error: ");
        push_str(s, e.as_str());
        push_str(s, "\n");
    }
}

fn push_part_head(s: &mut String, p: &InspectPartReport)
    ensures
        final(s)@ == old(s)@ + part_head(*p),
{
    push_str(s, "Part: ");
    push_str(s, p.part_name.as_str());
    push_str(s, "\n");
    if let Some(x) = &p.path {
        push_str(s, "  Path: ");
        push_str(s, x.as_str());
        push_str(s, "\n");
    }
    if let Some(x) = &p.package_name {
        push_str(s, "  Package: ");
        push_str(s, x.as_str());
        push_str(s, "\n");
    }
    if let Some(x) = &p.error {
        push_str(s, "  Error: ");
        push_str(s, x.as_str());
        push_str(s, "\n");
    }
}

fn push_part_lines(s: &mut String, p: &InspectPartReport)
    ensures
        final(s)@ == old(s)@ + part_lines(*p),
{
    push_part_head(s, p);
    let ghost head = s@;
    let mut i: usize = 0;
    while i < p.dex_files.len()
        invariant
            i <= p.dex_files.len(),
            head + dexes_lines(p.dex_files@, 0) == s@ + dexes_lines(p.dex_files@, i as nat),
        decreases p.dex_files.len() - i,
    {
        push_dex_lines(s, &p.dex_files[i]);
        i = i + 1;
    }
    push_str(s, "\n");
}

/// The text of `inspect-summary.txt`: the input, the totals, each part with its DEX files, and
/// the issues.
pub fn render_inspect_summary(report: &InspectReport) -> (r: String)
    ensures
        r@ == inspect_summary_text(*report),
{
    let t = &report.totals;
    let mut s = String::new();
    push_str(&mut s, "unoc-rs Inspect Report\n");
    push_str(&mut s, "======================\n\n");
    push_str(&mut s, "Input: ");
    push_str(&mut s, report.input_path.as_str());
    push_str(&mut s, "\n");
    push_str(&mut s, "Kind: ");
    match report.input_kind {
        InputKind::ApkFile => push_str(&mut s, "ApkFile"),
        InputKind::BundleArchive => push_str(&mut s, "BundleArchive"),
        InputKind::SplitDirectory => push_str(&mut s, "SplitDirectory"),
    }
    push_str(&mut s, "\n");
    push_line(&mut s, "Parts: ", t.parts);
    push_line(&mut s, "Readable parts: ", t.readable_parts);
    push_line(&mut s, "DEX files: ", t.dex_files);
    push_line(&mut s, "Parsed DEX: ", t.parsed_dex_files);
    push_line(&mut s, "Failed DEX: ", t.failed_dex_files);
    push_line(&mut s, "warnings: ", report.warning_count);
    push_line(&mut s, "Classes: ", t.classes);
    push_line(&mut s, "Methods: ", t.methods);
    push_line(&mut s, "Fields: ", t.fields);
    push_str(&mut s, "\n");
    let ghost head = s@;
    let mut i: usize = 0;
    while i < report.parts.len()
        invariant
            i <= report.parts.len(),
            head + parts_lines(report.parts@, 0) == s@ + parts_lines(report.parts@, i as nat),
        decreases report.parts.len() - i,
    {
        push_part_lines(&mut s, &report.parts[i]);
        i = i + 1;
    }
    push_str(&mut s, "Unresolved\n");
    push_str(&mut s, "----------\n");
    if report.unresolved.len() == 0 {
        push_str(&mut s, "none\n");
    } else {
        let ghost mid = s@;
        let mut k: usize = 0;
        while k < report.unresolved.len()
            invariant
                k <= report.unresolved.len(),
                mid + issues_lines(report.unresolved@, 0) == s@ + issues_lines(report.unresolved@, k as nat),
            decreases report.unresolved.len() - k,
        {
            let line = issue_line(&report.unresolved[k]);
            push_str(&mut s, line.as_str());
            push_str(&mut s, "\n");
            k = k + 1;
        }
    }
    s
}


/// Every DEX file inspected is counted once, as parsed or as failed: while the counters do not
/// wrap, the DEX files counted stay the parsed ones plus the failed ones, whichever way
/// `inspect_dex` goes.
pub proof fn lemma_dex_counts_balance(t: InspectTotals, strings: usize, types: usize, protos: usize, fields: usize,
    methods: usize, classes: usize)
    requires
        t.dex_files == t.parsed_dex_files + t.failed_dex_files,
        t.dex_files < usize::MAX,
    ensures
        ({
            let failed = InspectTotals {
                dex_files: bump(t.dex_files),
                failed_dex_files: bump(t.failed_dex_files),
                ..t
            };
            failed.dex_files == failed.parsed_dex_files + failed.failed_dex_files
        }),
        ({
            let parsed = totals_after_parsed(
                InspectTotals { dex_files: bump(t.dex_files), ..t },
                strings,
                types,
                protos,
                fields,
                methods,
                classes,
            );
            parsed.dex_files == parsed.parsed_dex_files + parsed.failed_dex_files
        }),
{
}

} // verus!
