//! Steps of the comparison run that decide rather than read: merging the parts of an input into
//! one app, and the report options.

use vstd::prelude::*;

use crate::apk::{ApkInput, DexBlob};
use crate::chars::{decimal, opt_str, push_decimal, push_str};
use crate::mapping::MatchStatus;
use crate::error::{Result, UnocRsError};

verus! {

/// The merge of the parts of an input, before any part is added.
pub fn start_merged_input(source_path: &str, file_name: Option<String>, parts: usize) -> (r: ApkInput)
    ensures
        r.path@ == source_path@,
        opt_str(r.file_name) == opt_str(file_name),
        r.package_name is None,
        r.apk_parts == parts,
        r.dex_files@.len() == 0,
{
    ApkInput { path: source_path.to_owned(), file_name, package_name: None, apk_parts: parts, dex_files: Vec::new() }
}

/// The name, part and data of a DEX file, which merging keeps.
pub open spec fn dex_content(d: DexBlob) -> (Seq<char>, Seq<char>, Seq<u8>) {
    (d.apk_part@, d.name@, d.bytes@)
}

/// The DEX files as names, parts and data.
pub open spec fn dex_contents(v: Seq<DexBlob>) -> Seq<(Seq<char>, Seq<char>, Seq<u8>)> {
    v.map_values(|d: DexBlob| dex_content(d))
}

/// Adds what reading one part gave to the merge: a part without DEX files is skipped, any other
/// error stops the merge; the first package name found is kept.
pub fn merge_part_input(merged: &mut ApkInput, part: Result<ApkInput>) -> (r: Result<()>)
    ensures
        final(merged).path@ == old(merged).path@,
        opt_str(final(merged).file_name) == opt_str(old(merged).file_name),
        final(merged).apk_parts == old(merged).apk_parts,
        match part {
            Err(UnocRsError::NoDexFiles(_)) => r is Ok && dex_contents(final(merged).dex_files@) == dex_contents(
                old(merged).dex_files@) && opt_str(final(merged).package_name) == opt_str(old(merged).package_name),
            Err(e) => r == Err::<(), UnocRsError>(e),
            Ok(p) => r is Ok && dex_contents(final(merged).dex_files@) == dex_contents(old(merged).dex_files@)
                + dex_contents(p.dex_files@) && opt_str(final(merged).package_name) == if old(
                merged).package_name is None {
                opt_str(p.package_name)
            } else {
                opt_str(old(merged).package_name)
            },
        },
{
    let p = match part {
        Ok(p) => p,
        Err(UnocRsError::NoDexFiles(path)) => return Ok(()),
        Err(e) => return Err(e),
    };
    if merged.package_name.is_none() {
        merged.package_name = p.package_name;
    }
    let ghost before = dex_contents(merged.dex_files@);
    let ghost added = dex_contents(p.dex_files@);
    let ghost all = p.dex_files@;
    let ghost pkg = opt_str(merged.package_name);
    for dex in it: p.dex_files.into_iter()
        invariant
            it.seq() == all,
            merged.path@ == old(merged).path@,
            opt_str(merged.file_name) == opt_str(old(merged).file_name),
            merged.apk_parts == old(merged).apk_parts,
            opt_str(merged.package_name) == pkg,
            added == dex_contents(all),
            dex_contents(merged.dex_files@) == before + added.take(it.index() as int),
    {
        let ghost prev = dex_contents(merged.dex_files@);
        let ghost k = it.index();
        merged.dex_files.push(dex);
        assert(dex_contents(merged.dex_files@) =~= prev.push(dex_content(dex)));
        assert(added.take(k + 1) =~= added.take(k as int).push(added[k as int]));
    }
    assert(added.take(added.len() as int) =~= added);
    Ok(())
}

/// Ends the merge: the DEX files numbered in order, or an error when no part had any.
pub fn finish_merged_input(merged: ApkInput) -> (r: Result<ApkInput>)
    ensures
        merged.dex_files@.len() == 0 ==> (r matches Err(UnocRsError::NoDexFiles(p)) && p@ == merged.path@),
        merged.dex_files@.len() > 0 ==> (r matches Ok(m) && m.path@ == merged.path@ && opt_str(m.file_name)
            == opt_str(merged.file_name) && opt_str(m.package_name) == opt_str(merged.package_name) && m.apk_parts
            == merged.apk_parts && dex_contents(m.dex_files@) == dex_contents(merged.dex_files@) && forall|i: int|
            0 <= i < m.dex_files@.len() ==> (#[trigger] m.dex_files@[i]).dex_index == i),
{
    if merged.dex_files.len() == 0 {
        return Err(UnocRsError::NoDexFiles(merged.path));
    }
    let ApkInput { path, file_name, package_name, apk_parts, dex_files } = merged;
    let ghost all = dex_files@;
    let mut numbered: Vec<DexBlob> = Vec::new();
    let mut k: usize = 0;
    let count = dex_files.len();
    for dex in it: dex_files.into_iter()
        invariant
            it.seq() == all,
            all.len() == count,
            k == it.index(),
            numbered@.len() == k,
            dex_contents(numbered@) == dex_contents(all).take(k as int),
            forall|i: int| 0 <= i < numbered@.len() ==> (#[trigger] numbered@[i]).dex_index == i,
    {
        let ghost prev = dex_contents(numbered@);
        numbered.push(DexBlob { apk_part: dex.apk_part, name: dex.name, dex_index: k, bytes: dex.bytes });
        assert(dex_contents(numbered@) =~= prev.push(dex_content(all[k as int])));
        assert(dex_contents(all).take(k + 1) =~= dex_contents(all).take(k as int).push(dex_content(all[k as int])));
        k = k + 1;
    }
    assert(dex_contents(all).take(all.len() as int) =~= dex_contents(all));
    Ok(ApkInput { path, file_name, package_name, apk_parts, dex_files: numbered })
}

/// A row limit of the text reports: `0` means none.
pub fn txt_row_limit(max_txt_rows: usize) -> (r: Option<usize>)
    ensures
        r == if max_txt_rows == 0 { None } else { Some(max_txt_rows) },
{
    if max_txt_rows == 0 {
        None
    } else {
        Some(max_txt_rows)
    }
}

/// The rows per chunk file of the text reports: `0` means no chunks.
pub fn txt_chunk_rows(rows: usize) -> (r: Option<usize>)
    ensures
        r == if rows == 0 { None } else { Some(rows) },
{
    if rows == 0 {
        None
    } else {
        Some(rows)
    }
}

/// How models are built, as the progress line says it.
pub fn model_build_mode(low_memory: bool) -> (r: String)
    ensures
        r@ == if low_memory { "low-memory mode: classes-only"@ } else { "full parser, streaming dex-by-dex"@ },
{
    let mut s = String::new();
    if low_memory {
        push_str(&mut s, "low-memory mode: classes-only");
    } else {
        push_str(&mut s, "full parser, streaming dex-by-dex");
    }
    s
}


/// Refuses to compare two apps whose package names are both known and differ, unless the
/// check is turned off.
pub fn check_package_names(strict: bool, old: &Option<String>, new: &Option<String>) -> (r: Result<()>)
    ensures
        match r {
            Ok(()) => !strict || old is None || new is None || old->0@ == new->0@,
            Err(e) => strict && old is Some && new is Some && old->0@ != new->0@ && (e matches
                UnocRsError::PackageMismatch { old: o, new: n } && o@ == old->0@ && n@ == new->0@),
        },
{
    if strict {
        if let (Some(o), Some(n)) = (old, new) {
            if !(*o == *n) {
                return Err(
                    UnocRsError::PackageMismatch {
                        old: crate::chars::copy_string(o),
                        new: crate::chars::copy_string(n),
                    },
                );
            }
        }
    }
    Ok(())
}

/// The number of candidates kept per class: at most 3 in low-memory mode.
pub fn candidate_limit(low_memory: bool, max_candidates: usize) -> (r: usize)
    ensures
        r == if low_memory && max_candidates > 3 { 3 } else { max_candidates },
{
    if low_memory && max_candidates > 3 {
        3
    } else {
        max_candidates
    }
}

/// The number of matches among `v` with status `s`.
pub open spec fn status_count(v: Seq<MatchStatus>, s: MatchStatus) -> nat
    decreases v.len(),
{
    if v.len() == 0 {
        0
    } else {
        status_count(v.drop_last(), s) + if v.last() == s { 1nat } else { 0nat }
    }
}

pub proof fn lemma_status_count_bound(v: Seq<MatchStatus>, s: MatchStatus)
    ensures
        status_count(v, s) <= v.len(),
    decreases v.len(),
{
    if v.len() > 0 {
        lemma_status_count_bound(v.drop_last(), s);
    }
}

/// The line that sums up class matches by status.
pub open spec fn match_stats_text(v: Seq<MatchStatus>) -> Seq<char> {
    "classes matched="@ + decimal(status_count(v, MatchStatus::Matched)) + " low="@ + decimal(
        status_count(v, MatchStatus::LowConfidence),
    ) + " conflict="@ + decimal(status_count(v, MatchStatus::Conflict)) + " semantic_break="@ + decimal(
        status_count(v, MatchStatus::SemanticBreak),
    ) + " unresolved_old="@ + decimal(status_count(v, MatchStatus::UnresolvedOld)) + " unresolved_new="@
        + decimal(status_count(v, MatchStatus::UnresolvedNew))
}

/// Counts the class matches by status and spells the counts out.
pub fn format_match_stats(statuses: &[MatchStatus]) -> (r: String)
    ensures
        r@ == match_stats_text(statuses@),
{
    let mut matched: usize = 0;
    let mut low: usize = 0;
    let mut conflict: usize = 0;
    let mut broken: usize = 0;
    let mut old_only: usize = 0;
    let mut new_only: usize = 0;
    let mut i: usize = 0;
    while i < statuses.len()
        invariant
            i <= statuses.len(),
            matched == status_count(statuses@.take(i as int), MatchStatus::Matched),
            low == status_count(statuses@.take(i as int), MatchStatus::LowConfidence),
            conflict == status_count(statuses@.take(i as int), MatchStatus::Conflict),
            broken == status_count(statuses@.take(i as int), MatchStatus::SemanticBreak),
            old_only == status_count(statuses@.take(i as int), MatchStatus::UnresolvedOld),
            new_only == status_count(statuses@.take(i as int), MatchStatus::UnresolvedNew),
        decreases statuses.len() - i,
    {
        proof {
            let t = statuses@.take(i + 1);
            assert(t.drop_last() =~= statuses@.take(i as int));
            lemma_status_count_bound(statuses@.take(i as int), MatchStatus::Matched);
            lemma_status_count_bound(statuses@.take(i as int), MatchStatus::LowConfidence);
            lemma_status_count_bound(statuses@.take(i as int), MatchStatus::Conflict);
            lemma_status_count_bound(statuses@.take(i as int), MatchStatus::SemanticBreak);
            lemma_status_count_bound(statuses@.take(i as int), MatchStatus::UnresolvedOld);
            lemma_status_count_bound(statuses@.take(i as int), MatchStatus::UnresolvedNew);
        }
        match statuses[i] {
            MatchStatus::Matched => matched = matched + 1,
            MatchStatus::LowConfidence => low = low + 1,
            MatchStatus::Conflict => conflict = conflict + 1,
            MatchStatus::SemanticBreak => broken = broken + 1,
            MatchStatus::UnresolvedOld => old_only = old_only + 1,
            MatchStatus::UnresolvedNew => new_only = new_only + 1,
        }
        i = i + 1;
    }
    assert(statuses@.take(statuses.len() as int) =~= statuses@);
    let mut s = String::new();
    push_str(&mut s, "classes matched=");
    push_decimal(&mut s, matched as u64);
    push_str(&mut s, " low=");
    push_decimal(&mut s, low as u64);
    push_str(&mut s, " conflict=");
    push_decimal(&mut s, conflict as u64);
    push_str(&mut s, " semantic_break=");
    push_decimal(&mut s, broken as u64);
    push_str(&mut s, " unresolved_old=");
    push_decimal(&mut s, old_only as u64);
    push_str(&mut s, " unresolved_new=");
    push_decimal(&mut s, new_only as u64);
    s
}

} // verus!
