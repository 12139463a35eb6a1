//! The lexicographic order of character sequences (the order of `str` and `String`).

use std::cmp::Ordering;

use vstd::prelude::*;

use crate::audit::{kind_rank, reason_rank, unresolved_lt, ReferenceKind, MissingReason, UnresolvedReference};
use crate::input::{is_base_part_name, part_lt};
use crate::remap::{pair_of, rename_before, Replacement};
use crate::chars::{utf8_length, chars_equal, lemma_lex_asymmetric, lemma_lex_irreflexive, lemma_lex_total, lex_less, lex_lt, str_chars};

verus! {

/// Compares two character sequences lexicographically.
pub fn compare_chars(a: &[char], b: &[char]) -> (r: Ordering)
    ensures
        r == Ordering::Less <==> lex_lt(a@, b@),
        r == Ordering::Equal <==> a@ == b@,
        r == Ordering::Greater <==> lex_lt(b@, a@),
{
    proof {
        lemma_lex_irreflexive(a@);
        lemma_lex_asymmetric(a@, b@);
        lemma_lex_total(a@, b@);
    }
    if chars_equal(a, b) {
        Ordering::Equal
    } else if lex_less(a, b) {
        Ordering::Less
    } else {
        Ordering::Greater
    }
}

/// Compares two strings lexicographically by their characters.
pub fn compare_strings(a: &str, b: &str) -> (r: Ordering)
    ensures
        r == Ordering::Less <==> lex_lt(a@, b@),
        r == Ordering::Equal <==> a@ == b@,
        r == Ordering::Greater <==> lex_lt(b@, a@),
{
    let x = str_chars(a);
    let y = str_chars(b);
    compare_chars(x.as_slice(), y.as_slice())
}


fn reason_position(r: MissingReason) -> (n: u8)
    ensures
        n == reason_rank(r),
{
    match r {
        MissingReason::MissingOwner => 0,
        MissingReason::MissingMethod => 1,
        MissingReason::MissingField => 2,
        MissingReason::ChangedPrototype => 3,
        MissingReason::ChangedDescriptor => 4,
        MissingReason::MemberKindMismatch => 5,
    }
}

fn kind_position(k: ReferenceKind) -> (n: u8)
    ensures
        n == kind_rank(k),
{
    match k {
        ReferenceKind::Class => 0,
        ReferenceKind::Field => 1,
        ReferenceKind::Method => 2,
    }
}

/// Compares two unresolved references in report order.
#[verifier::rlimit(30)]
pub fn compare_unresolved(a: &UnresolvedReference, b: &UnresolvedReference) -> (r: Ordering)
    ensures
        r == Ordering::Less <==> unresolved_lt(a@, b@),
        r == Ordering::Greater <==> unresolved_lt(b@, a@),
{
    proof {
        lemma_lex_asymmetric(a.reference@, b.reference@);
        lemma_lex_asymmetric(a.site.source.apk_part@, b.site.source.apk_part@);
        lemma_lex_asymmetric(a.site.source.dex_file@, b.site.source.dex_file@);
        lemma_lex_asymmetric(a.site.source_class@, b.site.source_class@);
        lemma_lex_asymmetric(a.site.source_method@, b.site.source_method@);
    }
    let ra = reason_position(a.reason);
    let rb = reason_position(b.reason);
    if ra != rb {
        return if ra < rb { Ordering::Less } else { Ordering::Greater };
    }
    assert(a.reason == b.reason);
    let ka = kind_position(a.kind);
    let kb = kind_position(b.kind);
    if ka != kb {
        return if ka < kb { Ordering::Less } else { Ordering::Greater };
    }
    assert(a.kind == b.kind);
    let c = compare_strings(a.reference.as_str(), b.reference.as_str());
    match c {
        Ordering::Equal => {},
        _ => return c,
    }
    assert(a.reference@ == b.reference@);
    let c = compare_strings(a.site.source.apk_part.as_str(), b.site.source.apk_part.as_str());
    match c {
        Ordering::Equal => {},
        _ => return c,
    }
    assert(a.site.source.apk_part@ == b.site.source.apk_part@);
    let c = compare_strings(a.site.source.dex_file.as_str(), b.site.source.dex_file.as_str());
    match c {
        Ordering::Equal => {},
        _ => return c,
    }
    assert(a.site.source.dex_file@ == b.site.source.dex_file@);
    let c = compare_strings(a.site.source_class.as_str(), b.site.source_class.as_str());
    match c {
        Ordering::Equal => {},
        _ => return c,
    }
    assert(a.site.source_class@ == b.site.source_class@);
    let c = compare_strings(a.site.source_method.as_str(), b.site.source_method.as_str());
    match c {
        Ordering::Equal => {},
        _ => return c,
    }
    assert(a.site.source_method@ == b.site.source_method@);
    match (a.site.offset_code_unit, b.site.offset_code_unit) {
        (None, None) => Ordering::Equal,
        (None, Some(_)) => Ordering::Less,
        (Some(_), None) => Ordering::Greater,
        (Some(x), Some(y)) => if x < y {
            Ordering::Less
        } else if x > y {
            Ordering::Greater
        } else {
            Ordering::Equal
        },
    }
}


/// Compares two part names: base APKs first, then by name.
pub fn compare_parts(a: &str, b: &str) -> (r: Ordering)
    ensures
        r == Ordering::Less <==> part_lt(a@, b@),
        r == Ordering::Greater <==> part_lt(b@, a@),
{
    let base_a = is_base_part_name(a);
    let base_b = is_base_part_name(b);
    if base_a && !base_b {
        Ordering::Less
    } else if !base_a && base_b {
        Ordering::Greater
    } else {
        compare_strings(a, b)
    }
}


/// Compares two renames in the order they are applied: longer old names (in UTF-8 bytes)
/// first, then old names in character order.
pub fn compare_replacements(a: &Replacement, b: &Replacement) -> (r: Ordering)
    ensures
        r == Ordering::Less <==> rename_before(pair_of(*a), pair_of(*b)),
        r == Ordering::Greater <==> rename_before(pair_of(*b), pair_of(*a)),
{
    let x = str_chars(a.old.as_str());
    let y = str_chars(b.old.as_str());
    let lx = utf8_length(x.as_slice());
    let ly = utf8_length(y.as_slice());
    if lx > ly {
        Ordering::Less
    } else if lx < ly {
        Ordering::Greater
    } else {
        compare_chars(x.as_slice(), y.as_slice())
    }
}

} // verus!
