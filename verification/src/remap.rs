//! Class renames read from a mapping, and the rewriting of source text with them.

use vstd::prelude::*;

use crate::chars::{has_prefix, lex_lt, occurs_at, push_chars, push_str, replace_char, replace_chars, str_chars,
    string_from_chars, strs, trim, utf8_len, trim_chars, trim_start, trim_start_chars};
use crate::dex::descriptor::{is_object_shape, java_name};
use crate::error::{Result, UnocRsError};
use crate::mapping::{descriptor_of_id, ClassLink, MappingApp, MatchStatus};
use crate::order::compare_replacements;
use crate::sorting::{lemma_stable_sort_map, stable_sort_of};
use crate::table::NameTable;

verus! {

broadcast use vstd::std_specs::btree::group_btree_axioms, vstd::laws_cmp::group_laws_cmp;

/// One class rename: every use of `old` becomes `new`.
#[derive(Debug, Clone)]
pub struct Replacement {
    pub old: String,
    pub new: String,
}

/// A rename as a pair of character sequences.
pub open spec fn pair_of(r: Replacement) -> (Seq<char>, Seq<char>) {
    (r.old@, r.new@)
}

/// The renames of `v` as pairs.
pub open spec fn pairs_of(v: Seq<Replacement>) -> Seq<(Seq<char>, Seq<char>)> {
    v.map_values(|r: Replacement| pair_of(r))
}

// ----- finding characters and text -----

/// The first position from `k` on where `s` holds `c`.
pub open spec fn find_char(s: Seq<char>, c: char, k: nat) -> Option<int>
    decreases s.len() - k,
{
    if k >= s.len() {
        None
    } else if s[k as int] == c {
        Some(k as int)
    } else {
        find_char(s, c, k + 1)
    }
}

pub proof fn lemma_find_char(s: Seq<char>, c: char, k: nat)
    ensures
        match find_char(s, c, k) {
            Some(j) => k <= j < s.len() && s[j] == c && forall|i: int| k <= i < j ==> s[i] != c,
            None => forall|i: int| k <= i < s.len() ==> s[i] != c,
        },
    decreases s.len() - k,
{
    if k < s.len() && s[k as int] != c {
        lemma_find_char(s, c, k + 1);
    }
}

fn find_char_from(s: &[char], c: char, k: usize) -> (r: Option<usize>)
    ensures
        match r {
            Some(j) => find_char(s@, c, k as nat) == Some(j as int),
            None => find_char(s@, c, k as nat) is None,
        },
{
    let mut i: usize = k;
    while i < s.len()
        invariant
            k <= i,
            find_char(s@, c, k as nat) == find_char(s@, c, i as nat),
        decreases s.len() - i,
    {
        if s[i] == c {
            return Some(i);
        }
        i = i + 1;
    }
    None
}

/// The first position from `k` on where `p` occurs in `s`.
pub open spec fn find_text(s: Seq<char>, p: Seq<char>, k: nat) -> Option<int>
    decreases s.len() + 1 - k,
{
    if k + p.len() > s.len() {
        None
    } else if occurs_at(s, p, k as int) {
        Some(k as int)
    } else {
        find_text(s, p, k + 1)
    }
}

pub proof fn lemma_find_text(s: Seq<char>, p: Seq<char>, k: nat)
    ensures
        match find_text(s, p, k) {
            Some(j) => k <= j && j + p.len() <= s.len() && occurs_at(s, p, j),
            None => true,
        },
    decreases s.len() + 1 - k,
{
    if k + p.len() <= s.len() && !occurs_at(s, p, k as int) {
        lemma_find_text(s, p, k + 1);
    }
}

pub(crate) fn find_text_from(s: &[char], p: &[char], k: usize) -> (r: Option<usize>)
    requires
        p.len() > 0,
    ensures
        match r {
            Some(j) => find_text(s@, p@, k as nat) == Some(j as int),
            None => find_text(s@, p@, k as nat) is None,
        },
{
    let mut i: usize = k;
    while p.len() <= s.len() && i <= s.len() - p.len()
        invariant
            k <= i,
            p.len() > 0,
            find_text(s@, p@, k as nat) == find_text(s@, p@, i as nat),
        decreases s.len() + 1 - i,
    {
        if crate::chars::chars_occur_at(s, p, i) {
            return Some(i);
        }
        i = i + 1;
    }
    None
}

pub(crate) fn copy_range(s: &[char], from: usize, to: usize) -> (r: Vec<char>)
    requires
        from <= to <= s.len(),
    ensures
        r@ == s@.subrange(from as int, to as int),
{
    let mut r: Vec<char> = Vec::new();
    let mut i: usize = from;
    while i < to
        invariant
            from <= i <= to <= s.len(),
            r@ == s@.subrange(from as int, i as int),
        decreases to - i,
    {
        r.push(s[i]);
        i = i + 1;
        assert(r@ =~= s@.subrange(from as int, i as int));
    }
    r
}

// ----- descriptor tokens and mapping lines -----

/// The descriptor tokens `L...;` of `s` from position `k` on, left to right: each `L` that has a
/// `;` after it starts one, which ends at the first such `;`.
pub open spec fn tokens_from(s: Seq<char>, k: nat) -> Seq<Seq<char>>
    decreases s.len() - k,
{
    if k >= s.len() {
        Seq::empty()
    } else if s[k as int] == 'L' && find_char(s, ';', k) is Some {
        let j = find_char(s, ';', k)->0;
        proof {
            lemma_find_char(s, ';', k);
        }
        seq![s.subrange(k as int, j + 1)] + tokens_from(s, (j + 1) as nat)
    } else {
        tokens_from(s, k + 1)
    }
}

/// The descriptor tokens of `value`, left to right.
pub fn descriptor_tokens(value: &str) -> (r: Vec<String>)
    ensures
        strs(r@) == tokens_from(value@, 0),
{
    let s = str_chars(value);
    let mut r: Vec<String> = Vec::new();
    let mut i: usize = 0;
    while i < s.len()
        invariant
            i <= s.len(),
            s@ == value@,
            tokens_from(s@, 0) == strs(r@) + tokens_from(s@, i as nat),
        decreases s.len() - i,
    {
        if s[i] == 'L' {
            match find_char_from(s.as_slice(), ';', i) {
                Some(j) => {
                    proof {
                        lemma_find_char(s@, ';', i as nat);
                    }
                    let t = copy_range(s.as_slice(), i, j + 1);
                    let ghost before = strs(r@);
                    r.push(string_from_chars(t.as_slice()));
                    assert(strs(r@) =~= before.push(t@));
                    assert(before + tokens_from(s@, i as nat) =~= strs(r@) + tokens_from(s@, (j + 1) as nat));
                    i = j + 1;
                    continue;
                },
                None => {},
            }
        }
        i = i + 1;
    }
    r
}

/// The rename a line of `mapping.txt` states: the last descriptor before ` -> ` becomes the first
/// one after it.
pub open spec fn descriptor_mapping(line: Seq<char>) -> Option<(Seq<char>, Seq<char>)> {
    match find_text(line, " -> "@, 0) {
        None => None,
        Some(k) => {
            let left = tokens_from(line.take(k), 0);
            let right = tokens_from(line.skip(k + 4), 0);
            if left.len() > 0 && right.len() > 0 {
                Some((left.last(), right[0]))
            } else {
                None
            }
        },
    }
}

fn arrow() -> (r: Vec<char>)
    ensures
        r@ == " -> "@,
        r@.len() == 4,
{
    proof {
        reveal_strlit(" -> ");
    }
    str_chars(" -> ")
}

/// Reads a line of the form `... La/Old; ... -> Lb/New; ...`.
pub fn parse_descriptor_mapping_line(line: &str) -> (r: Option<(String, String)>)
    ensures
        match r {
            Some((o, n)) => descriptor_mapping(line@) == Some((o@, n@)),
            None => descriptor_mapping(line@) is None,
        },
{
    let s = str_chars(line);
    let a = arrow();
    let k = match find_text_from(s.as_slice(), a.as_slice(), 0) {
        Some(k) => k,
        None => return None,
    };
    proof {
        lemma_find_text(s@, a@, 0);
        assert(find_text(s@, a@, 0) == Some(k as int));
        assert(k + 4 <= s@.len());
    }
    let left = copy_range(s.as_slice(), 0, k);
    assert(k + 4 <= s.len());
    let start: usize = k + 4;
    let right = copy_range(s.as_slice(), start, s.len());
    assert(left@ =~= s@.take(k as int));
    assert(right@ =~= s@.skip(k + 4));
    let lt = descriptor_tokens(string_from_chars(left.as_slice()).as_str());
    let rt = descriptor_tokens(string_from_chars(right.as_slice()).as_str());
    if lt.len() > 0 && rt.len() > 0 {
        let o = crate::chars::copy_string(&lt[lt.len() - 1]);
        let n = crate::chars::copy_string(&rt[0]);
        Some((o, n))
    } else {
        None
    }
}

/// `s` without the `c` characters it ends with.
pub open spec fn trim_end_char(s: Seq<char>, c: char) -> Seq<char>
    decreases s.len(),
{
    if s.len() > 0 && s.last() == c {
        trim_end_char(s.drop_last(), c)
    } else {
        s
    }
}

/// The rename a ProGuard class line `a.Old -> b.New:` states, in Java names.
pub open spec fn proguard_mapping(line: Seq<char>) -> Option<(Seq<char>, Seq<char>)> {
    let t = trim(line);
    if (t.len() > 0 && t[0] == '#') || !(t.len() > 0 && t.last() == ':') {
        None
    } else {
        let u = trim_end_char(t, ':');
        match find_text(u, " -> "@, 0) {
            None => None,
            Some(k) => {
                let old = u.take(k);
                let new = u.skip(k + 4);
                if old.contains(' ') || new.contains(' ') {
                    None
                } else {
                    Some((old, new))
                }
            },
        }
    }
}

fn has_space(s: &[char]) -> (r: bool)
    ensures
        r == s@.contains(' '),
{
    let mut i: usize = 0;
    while i < s.len()
        invariant
            i <= s.len(),
            forall|k: int| 0 <= k < i ==> s@[k] != ' ',
        decreases s.len() - i,
    {
        if s[i] == ' ' {
            assert(s@[i as int] == ' ');
            return true;
        }
        i = i + 1;
    }
    false
}

/// Reads a ProGuard class line `a.Old -> b.New:`; comments, member lines and names with spaces
/// are not renames.
pub fn parse_proguard_mapping_line(line: &str) -> (r: Option<(String, String)>)
    ensures
        match r {
            Some((o, n)) => proguard_mapping(line@) == Some((o@, n@)),
            None => proguard_mapping(line@) is None,
        },
{
    let v = str_chars(line);
    let t = trim_chars(v.as_slice());
    if (t.len() > 0 && t[0] == '#') || !(t.len() > 0 && t[t.len() - 1] == ':') {
        return None;
    }
    let mut end: usize = t.len();
    assert(t@.take(end as int) =~= t@);
    while end > 0 && t[end - 1] == ':'
        invariant
            end <= t.len(),
            trim_end_char(t@, ':') == trim_end_char(t@.take(end as int), ':'),
        decreases end,
    {
        assert(t@.take(end as int).drop_last() =~= t@.take(end - 1));
        end = end - 1;
    }
    let u = copy_range(t.as_slice(), 0, end);
    assert(t@.take(t@.len() as int) =~= t@);
    assert(u@ =~= t@.take(end as int));
    assert(trim_end_char(t@, ':') == u@);
    let a = arrow();
    let k = match find_text_from(u.as_slice(), a.as_slice(), 0) {
        Some(k) => k,
        None => return None,
    };
    proof {
        lemma_find_text(u@, a@, 0);
    }
    let old = copy_range(u.as_slice(), 0, k);
    let new = copy_range(u.as_slice(), k + 4, u.len());
    assert(old@ =~= u@.take(k as int));
    assert(new@ =~= u@.skip(k + 4));
    if has_space(old.as_slice()) || has_space(new.as_slice()) {
        return None;
    }
    Some((string_from_chars(old.as_slice()), string_from_chars(new.as_slice())))
}

/// The descriptor of a Java class name: `a.b.C` becomes `La/b/C;`.
pub open spec fn java_descriptor(name: Seq<char>) -> Seq<char> {
    seq!['L'] + replace_char(name, '.', '/') + seq![';']
}

/// Turns a Java class name into its descriptor.
pub fn java_name_to_descriptor(value: &str) -> (r: String)
    ensures
        r@ == java_descriptor(value@),
{
    let v = str_chars(value);
    let slashed = replace_chars(v.as_slice(), '.', '/');
    let mut s = String::new();
    s.push('L');
    push_chars(&mut s, slashed.as_slice());
    s.push(';');
    assert(s@ =~= java_descriptor(value@));
    s
}

/// The path form of a descriptor: `La/b/C;` becomes `a/b/C`; anything else is kept.
pub open spec fn smali_path(d: Seq<char>) -> Seq<char> {
    if is_object_shape(d) {
        d.subrange(1, d.len() - 1)
    } else {
        d
    }
}

/// Turns a class descriptor into the path smali files use for it.
pub fn descriptor_to_smali_path(value: &str) -> (r: String)
    ensures
        r@ == smali_path(value@),
{
    let v = str_chars(value);
    if v.len() >= 2 && v[0] == 'L' && v[v.len() - 1] == ';' {
        let inner = copy_range(v.as_slice(), 1, v.len() - 1);
        string_from_chars(inner.as_slice())
    } else {
        string_from_chars(v.as_slice())
    }
}

// ----- ordering and deduplicating renames -----

/// The order renames are applied in: longer old names (in UTF-8 bytes) first, then old names in
/// character order.
pub open spec fn rename_before(a: (Seq<char>, Seq<char>), b: (Seq<char>, Seq<char>)) -> bool {
    utf8_len(a.0) > utf8_len(b.0) || (utf8_len(a.0) == utf8_len(b.0) && lex_lt(a.0, b.0))
}

/// `rename_before` as a closure.
pub open spec fn rename_order() -> spec_fn((Seq<char>, Seq<char>), (Seq<char>, Seq<char>)) -> bool {
    |a: (Seq<char>, Seq<char>), b: (Seq<char>, Seq<char>)| rename_before(a, b)
}

/// `rename_before` on renames.
pub open spec fn replacement_order() -> spec_fn(Replacement, Replacement) -> bool {
    |a: Replacement, b: Replacement| rename_before(pair_of(a), pair_of(b))
}

/// Calls `slice::sort_by` with the verified comparator `compare_replacements`, a total order
/// that agrees with `rename_before`. The documentation describes a stable sort: the result is a
/// rearrangement of the input in which no rename comes after one that goes before it, and
/// renames neither of which goes before the other keep their relative order.
#[verifier::external_body]
fn sort_replacements(v: &mut Vec<Replacement>)
    ensures
        exists|p: Seq<int>| stable_sort_of(old(v)@, final(v)@, p, replacement_order()),
{
    v.sort_by(|a, b| compare_replacements(a, b));
}

/// The pairs of `s` that rename something: old differs from new.
pub open spec fn renames_only(s: Seq<(Seq<char>, Seq<char>)>) -> Seq<(Seq<char>, Seq<char>)>
    decreases s.len(),
{
    if s.len() == 0 {
        Seq::empty()
    } else if s.last().0 == s.last().1 {
        renames_only(s.drop_last())
    } else {
        renames_only(s.drop_last()).push(s.last())
    }
}

/// `s` with each run of equal neighbours cut to one.
pub open spec fn dedup_pairs(s: Seq<(Seq<char>, Seq<char>)>) -> Seq<(Seq<char>, Seq<char>)>
    decreases s.len(),
{
    if s.len() <= 1 {
        s
    } else if s.last() == s[s.len() - 2] {
        dedup_pairs(s.drop_last())
    } else {
        dedup_pairs(s.drop_last()).push(s.last())
    }
}

pub proof fn lemma_dedup_last(s: Seq<(Seq<char>, Seq<char>)>)
    requires
        s.len() > 0,
    ensures
        dedup_pairs(s).len() > 0,
        dedup_pairs(s).last() == s.last(),
    decreases s.len(),
{
    if s.len() > 1 && s.last() == s[s.len() - 2] {
        lemma_dedup_last(s.drop_last());
    }
}

/// What normalizing renames gives: those that rename something, sorted stably by
/// `rename_before`, with repeated neighbours dropped.
pub open spec fn normalized_renames(input: Seq<(Seq<char>, Seq<char>)>, r: Seq<(Seq<char>, Seq<char>)>) -> bool {
    exists|sorted: Seq<(Seq<char>, Seq<char>)>, p: Seq<int>|
        stable_sort_of(renames_only(input), sorted, p, rename_order()) && r == dedup_pairs(sorted)
}

/// Drops renames of a name to itself, orders the rest (longer old names first) and drops
/// repeats.
pub fn normalize_replacements(replacements: Vec<Replacement>) -> (r: Vec<Replacement>)
    ensures
        normalized_renames(pairs_of(replacements@), pairs_of(r@)),
{
    let mut kept: Vec<Replacement> = Vec::new();
    let mut i: usize = 0;
    while i < replacements.len()
        invariant
            i <= replacements.len(),
            pairs_of(kept@) == renames_only(pairs_of(replacements@.take(i as int))),
        decreases replacements.len() - i,
    {
        let item = &replacements[i];
        proof {
            let t = replacements@.take(i + 1);
            assert(pairs_of(t).drop_last() =~= pairs_of(replacements@.take(i as int)));
            assert(pairs_of(t).last() == pair_of(replacements@[i as int]));
        }
        if !(item.old == item.new) {
            let o = crate::chars::copy_string(&item.old);
            let n = crate::chars::copy_string(&item.new);
            kept.push(Replacement { old: o, new: n });
            assert(pairs_of(kept@) =~= renames_only(pairs_of(replacements@.take(i as int))).push(pair_of(*item)));
        }
        i = i + 1;
    }
    assert(replacements@.take(replacements.len() as int) =~= replacements@);
    let ghost unsorted = kept@;
    sort_replacements(&mut kept);
    let ghost p = choose|p: Seq<int>| stable_sort_of(unsorted, kept@, p, replacement_order());
    proof {
        let f = |x: Replacement| pair_of(x);
        lemma_stable_sort_map(unsorted, kept@, p, replacement_order(), f, rename_order());
        assert(unsorted.map_values(f) =~= pairs_of(unsorted));
        assert(kept@.map_values(f) =~= pairs_of(kept@));
    }
    let ghost sorted = pairs_of(kept@);
    let mut r: Vec<Replacement> = Vec::new();
    let mut k: usize = 0;
    while k < kept.len()
        invariant
            k <= kept.len(),
            sorted == pairs_of(kept@),
            pairs_of(r@) == dedup_pairs(sorted.take(k as int)),
            k > 0 ==> r@.len() > 0 && pair_of(r@.last()) == sorted[k - 1],
        decreases kept.len() - k,
    {
        let item = &kept[k];
        proof {
            let t = sorted.take(k + 1);
            assert(t.drop_last() =~= sorted.take(k as int));
            assert(t.last() == sorted[k as int]);
            if k > 0 {
                assert(t[t.len() - 2] == sorted[k - 1]);
            }
        }
        let repeat = r.len() > 0 && r[r.len() - 1].old == item.old && r[r.len() - 1].new == item.new;
        if !repeat {
            let o = crate::chars::copy_string(&item.old);
            let n = crate::chars::copy_string(&item.new);
            r.push(Replacement { old: o, new: n });
            assert(pairs_of(r@) =~= dedup_pairs(sorted.take(k as int)).push(sorted[k as int]));
        }
        k = k + 1;
    }
    assert(sorted.take(kept.len() as int) =~= sorted);
    r
}


// ----- reading renames -----

/// `l` without a final carriage return.
pub open spec fn strip_cr(l: Seq<char>) -> Seq<char> {
    if l.len() > 0 && l.last() == '\r' {
        l.drop_last()
    } else {
        l
    }
}

/// The lines of `s` from position `k` on, as `str::lines` gives them: split after each `\n`,
/// without the `\n` or a `\r` before it; a final empty line is not one.
pub open spec fn lines_from(s: Seq<char>, k: nat) -> Seq<Seq<char>>
    decreases s.len() - k,
{
    if k >= s.len() {
        Seq::empty()
    } else {
        match find_char(s, '\n', k) {
            Some(j) => {
                proof {
                    lemma_find_char(s, '\n', k);
                }
                seq![strip_cr(s.subrange(k as int, j))] + lines_from(s, (j + 1) as nat)
            },
            None => seq![s.subrange(k as int, s.len() as int)],
        }
    }
}

/// The lines of `s`.
pub open spec fn text_lines(s: Seq<char>) -> Seq<Seq<char>> {
    lines_from(s, 0)
}

/// The lines of the characters `s`.
pub fn lines_of(s: &[char]) -> (r: Vec<Vec<char>>)
    ensures
        r@.map_values(|l: Vec<char>| l@) == text_lines(s@),
{
    let mut r: Vec<Vec<char>> = Vec::new();
    let mut i: usize = 0;
    while i < s.len()
        invariant
            i <= s.len(),
            text_lines(s@) == r@.map_values(|l: Vec<char>| l@) + lines_from(s@, i as nat),
        decreases s.len() - i,
    {
        let ghost before = r@.map_values(|l: Vec<char>| l@);
        match find_char_from(s, '\n', i) {
            Some(j) => {
                proof {
                    lemma_find_char(s@, '\n', i as nat);
                }
                let mut line = copy_range(s, i, j);
                if line.len() > 0 && line[line.len() - 1] == '\r' {
                    line.pop();
                }
                assert(line@ =~= strip_cr(s@.subrange(i as int, j as int)));
                r.push(line);
                assert(r@.map_values(|l: Vec<char>| l@) =~= before.push(strip_cr(s@.subrange(i as int, j as int))));
                i = j + 1;
            },
            None => {
                let line = copy_range(s, i, s.len());
                r.push(line);
                assert(r@.map_values(|l: Vec<char>| l@) =~= before.push(s@.subrange(i as int, s@.len() as int)));
                i = s.len();
            },
        }
    }
    r
}

/// What reading one line does to the state of a text mapping: whether the next mapping is
/// skipped as unsafe, and the renames so far. A `# UNSAFE` line marks the next mapping as
/// unsafe unless unsafe mappings are wanted.
pub open spec fn load_step(include_unsafe: bool, skip: bool, acc: Seq<(Seq<char>, Seq<char>)>, line: Seq<char>) -> (
    bool,
    Seq<(Seq<char>, Seq<char>)>,
) {
    if has_prefix(trim_start(line), "# UNSAFE"@) {
        (!include_unsafe, acc)
    } else if skip {
        (descriptor_mapping(line) is None && proguard_mapping(line) is None, acc)
    } else {
        match descriptor_mapping(line) {
            Some(p) => (false, acc.push(p)),
            None => match proguard_mapping(line) {
                Some((o, n)) => (false, acc.push((java_descriptor(o), java_descriptor(n)))),
                None => (false, acc),
            },
        }
    }
}

/// The state after reading `lines`.
pub open spec fn load_lines(include_unsafe: bool, lines: Seq<Seq<char>>) -> (bool, Seq<(Seq<char>, Seq<char>)>)
    decreases lines.len(),
{
    if lines.len() == 0 {
        (false, Seq::empty())
    } else {
        let st = load_lines(include_unsafe, lines.drop_last());
        load_step(include_unsafe, st.0, st.1, lines.last())
    }
}

/// A `# UNSAFE` marker line.
pub open spec fn is_unsafe_marker(line: Seq<char>) -> bool {
    has_prefix(trim_start(line), "# UNSAFE"@)
}

/// A mapping line: not a marker, and either a descriptor mapping or a ProGuard class mapping.
pub open spec fn is_mapping_line(line: Seq<char>) -> bool {
    !is_unsafe_marker(line) && (descriptor_mapping(line) is Some || proguard_mapping(line) is Some)
}

/// The rename a mapping line states, as descriptors.
pub open spec fn mapping_line_rename(line: Seq<char>) -> (Seq<char>, Seq<char>) {
    match descriptor_mapping(line) {
        Some(p) => p,
        None => {
            let (o, n) = proguard_mapping(line)->0;
            (java_descriptor(o), java_descriptor(n))
        },
    }
}

/// Some marker line of `lines` has no mapping line after it: the next mapping line is the first
/// one after a marker.
pub open spec fn marker_pending(lines: Seq<Seq<char>>) -> bool {
    exists|j: int| 0 <= j < lines.len() && is_unsafe_marker(#[trigger] lines[j]) && forall|k: int| j < k
        < lines.len() ==> !is_mapping_line(#[trigger] lines[k])
}

/// The renames of the mapping lines of `lines` in order, leaving out, unless unsafe mappings
/// are wanted, each first mapping line after a marker.
pub open spec fn kept_renames(include_unsafe: bool, lines: Seq<Seq<char>>) -> Seq<(Seq<char>, Seq<char>)>
    decreases lines.len(),
{
    if lines.len() == 0 {
        Seq::empty()
    } else {
        let prev = kept_renames(include_unsafe, lines.drop_last());
        if is_mapping_line(lines.last()) && (include_unsafe || !marker_pending(lines.drop_last())) {
            prev.push(mapping_line_rename(lines.last()))
        } else {
            prev
        }
    }
}

/// Loading a text mapping keeps the rename of every mapping line, in order, except that a
/// `# UNSAFE` marker, unless unsafe mappings are wanted, removes the first mapping line after
/// it and only that one; every other line loads nothing.
pub proof fn lemma_unsafe_marker_skips_one(include_unsafe: bool, lines: Seq<Seq<char>>)
    ensures
        load_lines(include_unsafe, lines).1 == kept_renames(include_unsafe, lines),
        load_lines(include_unsafe, lines).0 == (!include_unsafe && marker_pending(lines)),
    decreases lines.len(),
{
    if lines.len() > 0 {
        let pre = lines.drop_last();
        let l = lines.last();
        lemma_unsafe_marker_skips_one(include_unsafe, pre);
        let n = lines.len() - 1;
        assert(lines[n] == l);
        assert forall|j: int| 0 <= j < n implies #[trigger] lines[j] == pre[j] by {}
        if is_unsafe_marker(l) {
            assert(marker_pending(lines)) by {
                assert(is_unsafe_marker(lines[n]));
            }
        } else if is_mapping_line(l) {
            if marker_pending(lines) {
                let j = choose|j: int| 0 <= j < lines.len() && is_unsafe_marker(#[trigger] lines[j]) && forall|k: int|
                    j < k < lines.len() ==> !is_mapping_line(#[trigger] lines[k]);
                assert(j != n);
                assert(!is_mapping_line(lines[n]));
            }
        } else {
            if marker_pending(lines) {
                let j = choose|j: int| 0 <= j < lines.len() && is_unsafe_marker(#[trigger] lines[j]) && forall|k: int|
                    j < k < lines.len() ==> !is_mapping_line(#[trigger] lines[k]);
                assert(j != n);
                assert(is_unsafe_marker(pre[j]));
                assert forall|k: int| j < k < pre.len() implies !is_mapping_line(#[trigger] pre[k]) by {
                    assert(lines[k] == pre[k]);
                }
            }
            if marker_pending(pre) {
                let j = choose|j: int| 0 <= j < pre.len() && is_unsafe_marker(#[trigger] pre[j]) && forall|k: int|
                    j < k < pre.len() ==> !is_mapping_line(#[trigger] pre[k]);
                assert(is_unsafe_marker(lines[j]));
                assert forall|k: int| j < k < lines.len() implies !is_mapping_line(#[trigger] lines[k]) by {
                    if k < n {
                        assert(lines[k] == pre[k]);
                    }
                }
            }
        }
    }
}

fn unsafe_marker() -> (r: Vec<char>)
    ensures
        r@ == "# UNSAFE"@,
{
    str_chars("# UNSAFE")
}

/// The renames a `mapping.txt` or ProGuard text states, normalized; a mapping after a
/// `# UNSAFE` line is left out unless `include_unsafe`.
pub fn replacements_from_text(text: &str, include_unsafe: bool) -> (r: Vec<Replacement>)
    ensures
        normalized_renames(load_lines(include_unsafe, text_lines(text@)).1, pairs_of(r@)),
{
    let chars = str_chars(text);
    let lines = lines_of(chars.as_slice());
    let ghost views = lines@.map_values(|l: Vec<char>| l@);
    let marker = unsafe_marker();
    let mut found: Vec<Replacement> = Vec::new();
    let mut skip = false;
    let mut i: usize = 0;
    while i < lines.len()
        invariant
            i <= lines.len(),
            views == lines@.map_values(|l: Vec<char>| l@),
            marker@ == "# UNSAFE"@,
            (skip, pairs_of(found@)) == load_lines(include_unsafe, views.take(i as int)),
        decreases lines.len() - i,
    {
        proof {
            let t = views.take(i + 1);
            assert(t.drop_last() =~= views.take(i as int));
            assert(t.last() == lines@[i as int]@);
        }
        let line = &lines[i];
        let ghost acc = pairs_of(found@);
        let head = trim_start_chars(line.as_slice());
        let text_line = string_from_chars(line.as_slice());
        if crate::chars::chars_start_with(head.as_slice(), marker.as_slice()) {
            skip = !include_unsafe;
        } else if skip {
            let d = parse_descriptor_mapping_line(text_line.as_str());
            let p = parse_proguard_mapping_line(text_line.as_str());
            skip = d.is_none() && p.is_none();
        } else {
            skip = false;
            match parse_descriptor_mapping_line(text_line.as_str()) {
                Some((o, n)) => {
                    found.push(Replacement { old: o, new: n });
                    assert(pairs_of(found@) =~= acc.push(descriptor_mapping(lines@[i as int]@)->0));
                },
                None => match parse_proguard_mapping_line(text_line.as_str()) {
                    Some((o, n)) => {
                        let od = java_name_to_descriptor(o.as_str());
                        let nd = java_name_to_descriptor(n.as_str());
                        found.push(Replacement { old: od, new: nd });
                        assert(pairs_of(found@) =~= acc.push((java_descriptor(o@), java_descriptor(n@))));
                    },
                    None => {},
                },
            }
        }
        i = i + 1;
    }
    assert(views.take(lines.len() as int) =~= views);
    normalize_replacements(found)
}

/// Whether a match's renaming is applied: matched ones always, low-confidence, conflicting and
/// semantically broken ones only when unsafe mappings are wanted.
pub open spec fn link_selected(status: MatchStatus, include_unsafe: bool) -> bool {
    status == MatchStatus::Matched || (include_unsafe && (status == MatchStatus::LowConfidence || status
        == MatchStatus::Conflict || status == MatchStatus::SemanticBreak))
}

/// Without unsafe mappings only matched classes are renamed; with them, every match that pairs
/// two classes is, so asking for unsafe mappings only ever adds renames.
pub proof fn lemma_link_selection(status: MatchStatus)
    ensures
        link_selected(status, false) <==> status == MatchStatus::Matched,
        link_selected(status, true) <==> crate::mapping::pairs_classes(status),
        link_selected(status, false) ==> link_selected(status, true),
{
}

/// The renames the selected matches of `links` give, where both classes are known.
pub open spec fn link_pairs(old: Seq<crate::mapping::MappingClass>, new: Seq<crate::mapping::MappingClass>, links: Seq<
    ClassLink,
>, include_unsafe: bool) -> Seq<(Seq<char>, Seq<char>)>
    decreases links.len(),
{
    if links.len() == 0 {
        Seq::empty()
    } else {
        let rest = link_pairs(old, new, links.drop_last(), include_unsafe);
        let l = links.last();
        if link_selected(l.status, include_unsafe) && l.old_class_id is Some && l.new_class_id is Some
            && descriptor_of_id(old, l.old_class_id->0) is Some && descriptor_of_id(new, l.new_class_id->0) is Some {
            rest.push((descriptor_of_id(old, l.old_class_id->0)->0, descriptor_of_id(new, l.new_class_id->0)->0))
        } else {
            rest
        }
    }
}

fn selected(status: MatchStatus, include_unsafe: bool) -> (r: bool)
    ensures
        r == link_selected(status, include_unsafe),
{
    match status {
        MatchStatus::Matched => true,
        MatchStatus::LowConfidence | MatchStatus::Conflict | MatchStatus::SemanticBreak => include_unsafe,
        _ => false,
    }
}

/// The renames a `mapping.json` report gives: for each selected match whose classes are both
/// known, the old class's descriptor becomes the new one's; normalized.
pub fn replacements_from_links(old_app: &MappingApp, new_app: &MappingApp, links: &[ClassLink], include_unsafe: bool) -> (r:
    Vec<Replacement>)
    ensures
        normalized_renames(link_pairs(old_app.classes@, new_app.classes@, links@, include_unsafe), pairs_of(r@)),
{
    let old_positions = crate::mapping::id_positions(&old_app.classes);
    let new_positions = crate::mapping::id_positions(&new_app.classes);
    let mut found: Vec<Replacement> = Vec::new();
    let mut i: usize = 0;
    while i < links.len()
        invariant
            i <= links.len(),
            pairs_of(found@) == link_pairs(old_app.classes@, new_app.classes@, links@.take(i as int), include_unsafe),
            forall|id: usize| #[trigger] old_positions@.contains_key(id) == (descriptor_of_id(old_app.classes@, id) is Some),
            forall|id: usize|
                #[trigger] old_positions@.contains_key(id) ==> old_positions@[id] < old_app.classes@.len()
                    && descriptor_of_id(old_app.classes@, id) == Some(old_app.classes@[old_positions@[id] as int].descriptor@),
            forall|id: usize| #[trigger] new_positions@.contains_key(id) == (descriptor_of_id(new_app.classes@, id) is Some),
            forall|id: usize|
                #[trigger] new_positions@.contains_key(id) ==> new_positions@[id] < new_app.classes@.len()
                    && descriptor_of_id(new_app.classes@, id) == Some(new_app.classes@[new_positions@[id] as int].descriptor@),
        decreases links.len() - i,
    {
        proof {
            let t = links@.take(i + 1);
            assert(t.drop_last() =~= links@.take(i as int));
            assert(t.last() == links@[i as int]);
        }
        let link = &links[i];
        let ghost acc = pairs_of(found@);
        if selected(link.status, include_unsafe) {
            match (link.old_class_id, link.new_class_id) {
                (Some(o), Some(n)) => match (old_positions.get(&o), new_positions.get(&n)) {
                    (Some(po), Some(pn)) => {
                        let od = crate::chars::copy_string(&old_app.classes[*po].descriptor);
                        let nd = crate::chars::copy_string(&new_app.classes[*pn].descriptor);
                        found.push(Replacement { old: od, new: nd });
                        assert(pairs_of(found@) =~= acc.push((od@, nd@)));
                    },
                    _ => {},
                },
                _ => {},
            }
        }
        i = i + 1;
    }
    assert(links@.take(links.len() as int) =~= links@);
    normalize_replacements(found)
}

/// Refuses a mapping that gives no renames.
pub fn usable_replacements(replacements: Vec<Replacement>, mapping: &str) -> (r: Result<Vec<Replacement>>)
    ensures
        match r {
            Ok(v) => replacements@.len() > 0 && v@ == replacements@,
            Err(e) => replacements@.len() == 0 && (e matches UnocRsError::Other(m) && m@ == "no usable mappings found in "@
                + mapping@),
        },
{
    if replacements.len() == 0 {
        let mut m = String::new();
        push_str(&mut m, "no usable mappings found in ");
        push_str(&mut m, mapping);
        Err(UnocRsError::Other(m))
    } else {
        Ok(replacements)
    }
}

/// The value the last pair with key `key` gives, as a map built by inserting the pairs in
/// order holds it.
pub open spec fn last_lookup(pairs: Seq<(Seq<char>, Seq<char>)>, key: Seq<char>) -> Option<Seq<char>>
    decreases pairs.len(),
{
    if pairs.len() == 0 {
        None
    } else if pairs.last().0 == key {
        Some(pairs.last().1)
    } else {
        last_lookup(pairs.drop_last(), key)
    }
}

/// The renames as the descriptor mapping the reference audit looks candidates up in: latest
/// first, so that the audit's first match is the last rename of a class.
pub fn descriptor_mappings(replacements: &[Replacement]) -> (r: Vec<(String, String)>)
    ensures
        r@.len() == replacements@.len(),
        forall|i: int| 0 <= i < r@.len() ==> (#[trigger] r@[i].0@, r@[i].1@) == pair_of(
            replacements@[replacements@.len() - 1 - i],
        ),
{
    let mut r: Vec<(String, String)> = Vec::new();
    let mut k: usize = replacements.len();
    while k > 0
        invariant
            k <= replacements.len(),
            r@.len() == replacements.len() - k,
            forall|i: int| 0 <= i < r@.len() ==> (#[trigger] r@[i].0@, r@[i].1@) == pair_of(
                replacements@[replacements@.len() - 1 - i],
            ),
        decreases k,
    {
        let item = &replacements[k - 1];
        r.push((crate::chars::copy_string(&item.old), crate::chars::copy_string(&item.new)));
        k = k - 1;
    }
    r
}

/// The reference audit, looking a class up in `descriptor_mappings(v)`, finds the rename that a
/// map built from `v` in order holds for it: the last one.
pub proof fn lemma_descriptor_mappings_lookup(v: Seq<Replacement>, m: Seq<(String, String)>, key: Seq<char>)
    requires
        m.len() == v.len(),
        forall|i: int| 0 <= i < m.len() ==> (#[trigger] m[i].0@, m[i].1@) == pair_of(v[v.len() - 1 - i]),
    ensures
        crate::audit::mapping_lookup(m, key) == last_lookup(pairs_of(v), key),
    decreases v.len(),
{
    if v.len() > 0 {
        let rest = v.drop_last();
        let tail = m.drop_first();
        assert forall|i: int| 0 <= i < tail.len() implies (#[trigger] tail[i].0@, tail[i].1@) == pair_of(
            rest[rest.len() - 1 - i],
        ) by {
            assert(tail[i] == m[i + 1]);
        }
        lemma_descriptor_mappings_lookup(rest, tail, key);
        assert(pairs_of(v).drop_last() =~= pairs_of(rest));
        assert((m[0].0@, m[0].1@) == pair_of(v[v.len() - 1]));
    }
}


// ----- rewriting text -----

/// A character that belongs to a class or member name in source text: ASCII letters and digits,
/// `_ $ / .`, and any non-ASCII character that is not white space.
pub open spec fn is_name_char(c: char) -> bool {
    ('0' <= c <= '9') || ('a' <= c <= 'z') || ('A' <= c <= 'Z') || c == '_' || c == '$' || c == '/' || c == '.'
        || ((c as u32) >= 0x80 && !crate::chars::is_white_space(c))
}

fn name_char(c: char) -> (r: bool)
    ensures
        r == is_name_char(c),
{
    ('0' <= c && c <= '9') || ('a' <= c && c <= 'z') || ('A' <= c && c <= 'Z') || c == '_' || c == '$' || c == '/'
        || c == '.' || ((c as u32) >= 0x80 && !crate::chars::white_space(c))
}

/// A primitive type code that may stand right before an object type in a signature.
pub open spec fn is_primitive_code(c: char) -> bool {
    c == 'B' || c == 'C' || c == 'D' || c == 'F' || c == 'I' || c == 'J' || c == 'S' || c == 'Z'
}

/// Where the run of name characters that starts at `k` ends.
pub open spec fn run_end(s: Seq<char>, k: nat) -> nat
    decreases s.len() - k,
{
    if k < s.len() && is_name_char(s[k as int]) {
        run_end(s, k + 1)
    } else {
        k
    }
}

pub proof fn lemma_run_end(s: Seq<char>, k: nat)
    requires
        k <= s.len(),
    ensures
        k <= run_end(s, k) <= s.len(),
    decreases s.len() - k,
{
    if k < s.len() && is_name_char(s[k as int]) {
        lemma_run_end(s, k + 1);
    }
}

/// Where the run of primitive codes that starts at `k` ends, at `end` at the latest.
pub open spec fn primitive_end(s: Seq<char>, k: nat, end: nat) -> nat
    decreases end - k,
{
    if k < end && k < s.len() && is_primitive_code(s[k as int]) {
        primitive_end(s, k + 1, end)
    } else {
        k
    }
}

pub proof fn lemma_primitive_end(s: Seq<char>, k: nat, end: nat)
    requires
        k <= end,
    ensures
        k <= primitive_end(s, k, end) <= end,
    decreases end - k,
{
    if k < end && k < s.len() && is_primitive_code(s[k as int]) {
        lemma_primitive_end(s, k + 1, end);
    }
}

/// The rightmost `.` at a position below `i` after which `name` ends in a member of a renamed
/// class: the position and the new class name.
pub open spec fn dotted_lookup(names: Seq<(Seq<char>, Seq<char>)>, name: Seq<char>, i: nat) -> Option<(int, Seq<char>)>
    decreases i,
{
    if i == 0 || i > name.len() {
        None
    } else if name[i - 1] == '.' && last_lookup(names, name.take(i - 1)) is Some {
        Some(((i - 1) as int, last_lookup(names, name.take(i - 1))->0))
    } else {
        dotted_lookup(names, name, (i - 1) as nat)
    }
}

/// What a name becomes: its rename; else, where a prefix before a `.` is a renamed class, the new
/// class name followed by the rest; else the name itself.
pub open spec fn renamed_name(names: Seq<(Seq<char>, Seq<char>)>, name: Seq<char>) -> Seq<char> {
    match last_lookup(names, name) {
        Some(r) => r,
        None => match dotted_lookup(names, name, name.len()) {
            Some((p, r)) => r + name.skip(p),
            None => name,
        },
    }
}

/// The rewriting of `s` from position `k` on. Text is read in runs of name characters and
/// single other characters. A run followed by `;` whose descriptor (after any primitive codes)
/// has a rename becomes that rename; any other run is renamed as a name.
pub open spec fn rewrite_from(descriptors: Seq<(Seq<char>, Seq<char>)>, names: Seq<(Seq<char>, Seq<char>)>, s: Seq<
    char,
>, k: nat) -> Seq<char>
    decreases s.len() - k,
{
    if k >= s.len() {
        Seq::empty()
    } else {
        let end = run_end(s, k);
        proof {
            lemma_run_end(s, k);
        }
        if end == k {
            seq![s[k as int]] + rewrite_from(descriptors, names, s, k + 1)
        } else {
            let pre = primitive_end(s, k, end);
            if end < s.len() && s[end as int] == ';' && last_lookup(descriptors, s.subrange(pre as int, end + 1int)) is Some {
                s.subrange(k as int, pre as int) + last_lookup(descriptors, s.subrange(pre as int, end + 1int))->0
                    + rewrite_from(descriptors, names, s, end + 1)
            } else {
                renamed_name(names, s.subrange(k as int, end as int)) + rewrite_from(descriptors, names, s, end)
            }
        }
    }
}

/// The rewriting of all of `s`.
pub open spec fn rewrite_text(descriptors: Seq<(Seq<char>, Seq<char>)>, names: Seq<(Seq<char>, Seq<char>)>, s: Seq<
    char,
>) -> Seq<char> {
    rewrite_from(descriptors, names, s, 0)
}

/// The names a rename is looked up by in text: its path form, then its Java name, for each
/// rename in order.
pub open spec fn index_names(pairs: Seq<(Seq<char>, Seq<char>)>) -> Seq<(Seq<char>, Seq<char>)>
    decreases pairs.len(),
{
    if pairs.len() == 0 {
        Seq::empty()
    } else {
        index_names(pairs.drop_last()) + seq![
            (smali_path(pairs.last().0), smali_path(pairs.last().1)),
            (java_name(pairs.last().0), java_name(pairs.last().1)),
        ]
    }
}


/// The renames by descriptor and by name that text is rewritten with, each kept as a map
/// from old to new in which a later rename of the same name replaces an earlier one.
pub struct ReplacementIndex {
    descriptors: NameTable,
    names: NameTable,
    descriptor_seq: Ghost<Seq<(Seq<char>, Seq<char>)>>,
    name_seq: Ghost<Seq<(Seq<char>, Seq<char>)>>,
}

impl ReplacementIndex {
    /// The tables are well formed and hold, for each name, the last rename given for it.
    #[verifier::type_invariant]
    spec fn consistent(self) -> bool {
        &&& self.descriptors.wf()
        &&& self.names.wf()
        &&& forall|n: Seq<char>| #[trigger] self.descriptors.value_of(n) == last_lookup(self.descriptor_seq@, n)
        &&& forall|n: Seq<char>| #[trigger] self.names.value_of(n) == last_lookup(self.name_seq@, n)
    }

    /// The descriptor renames, in insertion order.
    pub closed spec fn descriptor_pairs(&self) -> Seq<(Seq<char>, Seq<char>)> {
        self.descriptor_seq@
    }

    /// The name renames, in insertion order.
    pub closed spec fn name_pairs(&self) -> Seq<(Seq<char>, Seq<char>)> {
        self.name_seq@
    }

    /// The index of `replacements`: each rename by descriptor, and by path form and Java name.
    pub fn new(replacements: &[Replacement]) -> (r: Self)
        ensures
            r.descriptor_pairs() == pairs_of(replacements@),
            r.name_pairs() == index_names(pairs_of(replacements@)),
    {
        let mut descriptors = NameTable::new();
        let mut names = NameTable::new();
        let ghost mut dseq: Seq<(Seq<char>, Seq<char>)> = Seq::empty();
        let ghost mut nseq: Seq<(Seq<char>, Seq<char>)> = Seq::empty();
        let mut i: usize = 0;
        assert(replacements@.take(0) =~= Seq::<Replacement>::empty());
        while i < replacements.len()
            invariant
                i <= replacements.len(),
                descriptors.wf(),
                names.wf(),
                dseq == pairs_of(replacements@.take(i as int)),
                nseq == index_names(pairs_of(replacements@.take(i as int))),
                forall|n: Seq<char>| #[trigger] descriptors.value_of(n) == last_lookup(dseq, n),
                forall|n: Seq<char>| #[trigger] names.value_of(n) == last_lookup(nseq, n),
            decreases replacements.len() - i,
        {
            let item = &replacements[i];
            proof {
                let t = pairs_of(replacements@.take(i + 1));
                assert(t.drop_last() =~= pairs_of(replacements@.take(i as int)));
                assert(t.last() == pair_of(replacements@[i as int]));
            }
            descriptors.insert(str_chars(item.old.as_str()), str_chars(item.new.as_str()));
            let so = str_chars(descriptor_to_smali_path(item.old.as_str()).as_str());
            let sn = str_chars(descriptor_to_smali_path(item.new.as_str()).as_str());
            names.insert(so, sn);
            let jo = str_chars(crate::dex::descriptor::descriptor_to_java_name(item.old.as_str()).as_str());
            let jn = str_chars(crate::dex::descriptor::descriptor_to_java_name(item.new.as_str()).as_str());
            names.insert(jo, jn);
            proof {
                let a = (smali_path(item.old@), smali_path(item.new@));
                let b = (java_name(item.old@), java_name(item.new@));
                assert(nseq + seq![a, b] =~= nseq.push(a).push(b));
                assert(nseq.push(a).push(b).drop_last() =~= nseq.push(a));
                assert(nseq.push(a).drop_last() =~= nseq);
                assert(dseq.push((item.old@, item.new@)).drop_last() =~= dseq);
                assert forall|n: Seq<char>| #[trigger] names.value_of(n) == last_lookup(nseq + seq![a, b], n) by {
                    assert(last_lookup(nseq.push(a).push(b), n) == if b.0 == n {
                        Some(b.1)
                    } else {
                        last_lookup(nseq.push(a), n)
                    });
                    assert(last_lookup(nseq.push(a), n) == if a.0 == n {
                        Some(a.1)
                    } else {
                        last_lookup(nseq, n)
                    });
                }
                assert forall|n: Seq<char>| #[trigger] descriptors.value_of(n) == last_lookup(
                    dseq.push((item.old@, item.new@)),
                    n,
                ) by {
                    assert(last_lookup(dseq.push((item.old@, item.new@)), n) == if item.old@ == n {
                        Some(item.new@)
                    } else {
                        last_lookup(dseq, n)
                    });
                }
                dseq = dseq.push((item.old@, item.new@));
                nseq = nseq + seq![a, b];
            }
            i = i + 1;
        }
        assert(replacements@.take(replacements.len() as int) =~= replacements@);
        ReplacementIndex { descriptors, names, descriptor_seq: Ghost(dseq), name_seq: Ghost(nseq) }
    }

    /// Appends what `name` becomes to `out`.
    fn push_renamed(&self, out: &mut String, name: &[char])
        ensures
            final(out)@ == old(out)@ + renamed_name(self.name_pairs(), name@),
    {
        proof {
            use_type_invariant(self);
        }
        match self.names.get(name) {
            Some(v) => {
                push_chars(out, v.as_slice());
                return;
            },
            None => {},
        }
        let mut i: usize = name.len();
        while i > 0
            invariant
                i <= name.len(),
                self.names.wf(),
                forall|n: Seq<char>| #[trigger] self.names.value_of(n) == last_lookup(self.name_pairs(), n),
                last_lookup(self.name_pairs(), name@) is None,
                dotted_lookup(self.name_pairs(), name@, name@.len()) == dotted_lookup(
                    self.name_pairs(),
                    name@,
                    i as nat,
                ),
                *out == *old(out),
            decreases i,
        {
            if name[i - 1] == '.' {
                let prefix = copy_range(name, 0, i - 1);
                assert(prefix@ =~= name@.take(i - 1));
                match self.names.get(prefix.as_slice()) {
                    Some(v) => {
                        push_chars(out, v.as_slice());
                        let rest = copy_range(name, i - 1, name.len());
                        assert(rest@ =~= name@.skip(i - 1));
                        push_chars(out, rest.as_slice());
                        return;
                    },
                    None => {},
                }
            }
            i = i - 1;
        }
        push_chars(out, name);
    }

    /// Rewrites source text with the renames: descriptors `La/Old;` (also right after primitive
    /// codes in a signature), path forms `a/Old` and Java names `a.Old`, also before `.member`.
    pub fn rewrite(&self, text: &str) -> (r: String)
        ensures
            r@ == rewrite_text(self.descriptor_pairs(), self.name_pairs(), text@),
    {
        proof {
            use_type_invariant(self);
        }
        let s = str_chars(text);
        let mut out = String::new();
        let mut i: usize = 0;
        while i < s.len()
            invariant
                i <= s.len(),
                s@ == text@,
                self.descriptors.wf(),
                forall|n: Seq<char>| #[trigger] self.descriptors.value_of(n) == last_lookup(self.descriptor_pairs(), n),
                rewrite_text(self.descriptor_pairs(), self.name_pairs(), s@) == out@ + rewrite_from(
                    self.descriptor_pairs(),
                    self.name_pairs(),
                    s@,
                    i as nat,
                ),
            decreases s.len() - i,
        {
            let ghost before = out@;
            proof {
                lemma_run_end(s@, i as nat);
            }
            let mut end: usize = i;
            while end < s.len() && name_char(s[end])
                invariant
                    i <= end <= s.len(),
                    run_end(s@, i as nat) == run_end(s@, end as nat),
                decreases s.len() - end,
            {
                end = end + 1;
            }
            if end == i {
                out.push(s[i]);
                assert(out@ =~= before + seq![s@[i as int]]);
                i = i + 1;
                continue;
            }
            let mut pre: usize = i;
            while pre < end && is_primitive(s[pre])
                invariant
                    i <= pre <= end <= s.len(),
                    primitive_end(s@, i as nat, end as nat) == primitive_end(s@, pre as nat, end as nat),
                decreases end - pre,
            {
                pre = pre + 1;
            }
            if end < s.len() && s[end] == ';' {
                let key = copy_range(s.as_slice(), pre, end + 1);
                match self.descriptors.get(key.as_slice()) {
                    Some(v) => {
                        let lead = copy_range(s.as_slice(), i, pre);
                        push_chars(&mut out, lead.as_slice());
                        push_chars(&mut out, v.as_slice());
                        assert(out@ =~= before + s@.subrange(i as int, pre as int) + last_lookup(
                            self.descriptor_pairs(),
                            s@.subrange(pre as int, end + 1),
                        )->0);
                        i = end + 1;
                        continue;
                    },
                    None => {},
                }
            }
            let name = copy_range(s.as_slice(), i, end);
            self.push_renamed(&mut out, name.as_slice());
            i = end;
        }
        out
    }
}

fn is_primitive(c: char) -> (r: bool)
    ensures
        r == is_primitive_code(c),
{
    c == 'B' || c == 'C' || c == 'D' || c == 'F' || c == 'I' || c == 'J' || c == 'S' || c == 'Z'
}

/// Whether a file with this extension is rewritten as text; other files are copied as they are.
pub open spec fn is_text_extension(ext: Option<Seq<char>>) -> bool {
    match ext {
        Some(e) => e == "smali"@ || e == "java"@ || e == "kt"@ || e == "xml"@ || e == "txt"@ || e == "pro"@ || e
            == "cfg"@ || e == "properties"@,
        None => false,
    }
}

fn same_text(v: &[char], t: &str) -> (r: bool)
    ensures
        r == (v@ == t@),
{
    let w = str_chars(t);
    crate::chars::chars_equal(v, w.as_slice())
}

/// Whether a file with extension `ext` is rewritten as text.
pub fn is_text_like(ext: Option<&str>) -> (r: bool)
    ensures
        r == is_text_extension(match ext { Some(e) => Some(e@), None => None }),
{
    match ext {
        None => false,
        Some(e) => {
            let v = str_chars(e);
            same_text(v.as_slice(), "smali") || same_text(v.as_slice(), "java") || same_text(v.as_slice(), "kt")
                || same_text(v.as_slice(), "xml") || same_text(v.as_slice(), "txt") || same_text(v.as_slice(), "pro")
                || same_text(v.as_slice(), "cfg") || same_text(v.as_slice(), "properties")
        },
    }
}

/// `a` is a leading part of `b`, component by component.
pub open spec fn components_prefix(a: Seq<Seq<char>>, b: Seq<Seq<char>>) -> bool {
    a.len() <= b.len() && b.take(a.len() as int) == a
}

/// Input and output overlap: the same path, or, for a directory input, one inside the other.
pub open spec fn paths_overlap(source: Seq<Seq<char>>, destination: Seq<Seq<char>>, source_is_dir: bool) -> bool {
    source == destination || (source_is_dir && (components_prefix(source, destination) || components_prefix(
        destination,
        source,
    )))
}

fn components_start_with(b: &Vec<String>, a: &Vec<String>) -> (r: bool)
    ensures
        r == components_prefix(strs(a@), strs(b@)),
{
    if a.len() > b.len() {
        return false;
    }
    let mut i: usize = 0;
    while i < a.len()
        invariant
            i <= a.len() <= b.len(),
            strs(b@).take(i as int) == strs(a@).take(i as int),
        decreases a.len() - i,
    {
        if !(a[i] == b[i]) {
            assert(strs(b@).take(a.len() as int)[i as int] != strs(a@)[i as int]);
            return false;
        }
        assert(strs(b@).take(i + 1) =~= strs(a@).take(i + 1));
        i = i + 1;
    }
    assert(strs(a@).take(a.len() as int) =~= strs(a@));
    true
}

/// Refuses a rewrite whose output would overlap its input, given both paths resolved into
/// components.
pub fn check_remap_paths(source: &Vec<String>, destination: &Vec<String>, source_is_dir: bool, input: &str,
    output: &str) -> (r: Result<()>)
    ensures
        match r {
            Ok(()) => !paths_overlap(strs(source@), strs(destination@), source_is_dir),
            Err(e) => paths_overlap(strs(source@), strs(destination@), source_is_dir) && (e matches UnocRsError::Other(
                m,
            ) && m@ == "remap input and output must not overlap: "@ + input@ + " and "@ + output@),
        },
{
    let same = components_start_with(source, destination) && components_start_with(destination, source);
    proof {
        let a = strs(source@);
        let b = strs(destination@);
        if components_prefix(a, b) && components_prefix(b, a) {
            assert(a =~= b);
        }
        if a == b {
            assert(b.take(a.len() as int) =~= a);
        }
    }
    let overlap = same || (source_is_dir && (components_start_with(destination, source) || components_start_with(
        source,
        destination,
    )));
    if overlap {
        let mut m = String::new();
        push_str(&mut m, "remap input and output must not overlap: ");
        push_str(&mut m, input);
        push_str(&mut m, " and ");
        push_str(&mut m, output);
        Err(UnocRsError::Other(m))
    } else {
        Ok(())
    }
}


// ----- laws -----

pub proof fn lemma_no_dotted_lookup(name: Seq<char>, i: nat)
    ensures
        dotted_lookup(Seq::empty(), name, i) is None,
    decreases i,
{
    if i > 0 && i <= name.len() {
        lemma_no_dotted_lookup(name, (i - 1) as nat);
    }
}

/// Rewriting with no renames leaves text as it is, from any position on.
pub proof fn lemma_rewrite_from_identity(s: Seq<char>, k: nat)
    requires
        k <= s.len(),
    ensures
        rewrite_from(Seq::empty(), Seq::empty(), s, k) == s.skip(k as int),
    decreases s.len() - k,
{
    if k < s.len() {
        lemma_run_end(s, k);
        let end = run_end(s, k);
        if end == k {
            lemma_rewrite_from_identity(s, k + 1);
            assert(seq![s[k as int]] + s.skip(k + 1int) =~= s.skip(k as int));
        } else {
            let name = s.subrange(k as int, end as int);
            lemma_no_dotted_lookup(name, name.len());
            lemma_rewrite_from_identity(s, end);
            assert(name + s.skip(end as int) =~= s.skip(k as int));
        }
    } else {
        assert(s.skip(k as int) =~= Seq::<char>::empty());
    }
}

/// A mapping with no renames rewrites every text to itself.
pub proof fn lemma_rewrite_without_renames(s: Seq<char>)
    ensures
        rewrite_text(Seq::empty(), Seq::empty(), s) == s,
{
    lemma_rewrite_from_identity(s, 0);
    assert(s.skip(0) =~= s);
}

/// A Java class name without `/` comes back from its descriptor unchanged.
pub proof fn lemma_java_descriptor_round_trip(name: Seq<char>)
    requires
        !name.contains('/'),
    ensures
        java_name(java_descriptor(name)) == name,
{
    let d = java_descriptor(name);
    assert(d.subrange(1, d.len() - 1) =~= replace_char(name, '.', '/'));
    assert(replace_char(replace_char(name, '.', '/'), '/', '.') =~= name) by {
        assert forall|i: int| 0 <= i < name.len() implies replace_char(replace_char(name, '.', '/'), '/', '.')[i]
            == name[i] by {
            assert(name[i] != '/') by {
                if name[i] == '/' {
                    assert(name.contains('/'));
                }
            }
        }
    }
}

/// The path form of a descriptor, as a descriptor again, is the descriptor.
pub proof fn lemma_smali_path_round_trip(d: Seq<char>)
    requires
        is_object_shape(d),
    ensures
        seq!['L'] + smali_path(d) + seq![';'] == d,
{
    assert(seq!['L'] + d.subrange(1, d.len() - 1) + seq![';'] =~= d);
}

pub proof fn lemma_renames_only_differ(s: Seq<(Seq<char>, Seq<char>)>)
    ensures
        forall|i: int| 0 <= i < renames_only(s).len() ==> (#[trigger] renames_only(s)[i]).0 != renames_only(s)[i].1,
        forall|x: (Seq<char>, Seq<char>)| renames_only(s).contains(x) ==> s.contains(x),
    decreases s.len(),
{
    if s.len() > 0 {
        lemma_renames_only_differ(s.drop_last());
        let r = renames_only(s.drop_last());
        assert forall|x: (Seq<char>, Seq<char>)| renames_only(s).contains(x) implies s.contains(x) by {
            if r.contains(x) {
                let j = choose|j: int| 0 <= j < r.len() && r[j] == x;
                assert(s.drop_last().contains(x));
                let k = choose|k: int| 0 <= k < s.drop_last().len() && s.drop_last()[k] == x;
                assert(s[k] == x);
            } else {
                assert(x == s.last());
                assert(s[s.len() - 1] == x);
            }
        }
    }
}

pub proof fn lemma_dedup_subsequence(s: Seq<(Seq<char>, Seq<char>)>)
    ensures
        forall|i: int| 0 <= i < dedup_pairs(s).len() ==> s.contains(#[trigger] dedup_pairs(s)[i]),
        forall|i: int| 0 <= i < s.len() ==> dedup_pairs(s).contains(#[trigger] s[i]),
    decreases s.len(),
{
    if s.len() > 1 {
        let t = s.drop_last();
        lemma_dedup_subsequence(t);
        lemma_dedup_last(t);
        let d = dedup_pairs(s);
        assert forall|i: int| 0 <= i < d.len() implies s.contains(#[trigger] d[i]) by {
            if i < dedup_pairs(t).len() {
                assert(t.contains(dedup_pairs(t)[i]));
                let k = choose|k: int| 0 <= k < t.len() && t[k] == dedup_pairs(t)[i];
                assert(s[k] == d[i]);
            } else {
                assert(d[i] == s.last());
                assert(s[s.len() - 1] == d[i]);
            }
        }
        assert forall|i: int| 0 <= i < s.len() implies d.contains(#[trigger] s[i]) by {
            if i < t.len() {
                assert(t[i] == s[i]);
                assert(dedup_pairs(t).contains(t[i]));
                let k = choose|k: int| 0 <= k < dedup_pairs(t).len() && dedup_pairs(t)[k] == t[i];
                assert(d[k] == s[i]);
            } else {
                if s.last() == s[s.len() - 2] {
                    assert(t[t.len() - 1] == s[i]);
                    assert(dedup_pairs(t).contains(t[t.len() - 1]));
                    let k = choose|k: int| 0 <= k < dedup_pairs(t).len() && dedup_pairs(t)[k] == t[t.len() - 1];
                    assert(d[k] == s[i]);
                } else {
                    assert(d[d.len() - 1] == s[i]);
                }
            }
        }
    }
}

/// Normalized renames hold exactly the renames of the input that change a name, and none of
/// them maps a name to itself.
pub proof fn lemma_normalized_renames(input: Seq<(Seq<char>, Seq<char>)>, r: Seq<(Seq<char>, Seq<char>)>)
    requires
        normalized_renames(input, r),
    ensures
        forall|i: int| 0 <= i < r.len() ==> (#[trigger] r[i]).0 != r[i].1 && input.contains(r[i]),
        forall|x: (Seq<char>, Seq<char>)| input.contains(x) && x.0 != x.1 ==> r.contains(x),
{
    let (sorted, p) = choose|sorted: Seq<(Seq<char>, Seq<char>)>, p: Seq<int>|
        stable_sort_of(renames_only(input), sorted, p, rename_order()) && r == dedup_pairs(sorted);
    let f = renames_only(input);
    lemma_renames_only_differ(input);
    lemma_renames_only_complete(input);
    lemma_dedup_subsequence(sorted);
    assert forall|i: int| 0 <= i < r.len() implies (#[trigger] r[i]).0 != r[i].1 && input.contains(r[i]) by {
        assert(sorted.contains(r[i]));
        let k = choose|k: int| 0 <= k < sorted.len() && sorted[k] == r[i];
        assert(sorted[k] == f[p[k]]);
        assert(f.contains(f[p[k]]));
    }
    assert forall|x: (Seq<char>, Seq<char>)| input.contains(x) && x.0 != x.1 implies r.contains(x) by {
        assert(f.contains(x));
        let j = choose|j: int| 0 <= j < f.len() && f[j] == x;
        lemma_permutation_covers(p, f.len() as int, j);
        let k = choose|k: int| 0 <= k < p.len() && p[k] == j;
        assert(sorted[k] == x);
        assert(r.contains(sorted[k]));
    }
}

pub proof fn lemma_renames_only_complete(s: Seq<(Seq<char>, Seq<char>)>)
    ensures
        forall|x: (Seq<char>, Seq<char>)| s.contains(x) && x.0 != x.1 ==> renames_only(s).contains(x),
    decreases s.len(),
{
    if s.len() > 0 {
        lemma_renames_only_complete(s.drop_last());
        let r = renames_only(s.drop_last());
        assert forall|x: (Seq<char>, Seq<char>)| s.contains(x) && x.0 != x.1 implies renames_only(s).contains(x) by {
            let k = choose|k: int| 0 <= k < s.len() && s[k] == x;
            if k < s.len() - 1 {
                assert(s.drop_last()[k] == x);
                assert(s.drop_last().contains(x));
                let j = choose|j: int| 0 <= j < r.len() && r[j] == x;
                assert(renames_only(s)[j] == x);
            } else {
                assert(renames_only(s)[renames_only(s).len() - 1] == x);
            }
        }
    }
}

/// `n` distinct positions below `n` cover every position below `n`.
pub proof fn lemma_permutation_covers(p: Seq<int>, n: int, j: int)
    requires
        p.len() == n,
        forall|i: int| 0 <= i < p.len() ==> 0 <= #[trigger] p[i] < n,
        forall|a: int, b: int| 0 <= a < b < p.len() ==> p[a] != p[b],
        0 <= j < n,
    ensures
        exists|k: int| 0 <= k < p.len() && p[k] == j,
{
    if !(exists|k: int| 0 <= k < p.len() && p[k] == j) {
        let s = Set::new(|x: int| 0 <= x < n && x != j);
        let img = Set::new(|x: int| exists|k: int| 0 <= k < p.len() && p[k] == x);
        lemma_distinct_image_len(p);
        assert(img.subset_of(s));
        vstd::set_lib::lemma_int_range(0, n);
        let full = vstd::set_lib::set_int_range(0, n);
        assert(s =~= full.remove(j));
        vstd::set_lib::lemma_len_subset(img, s);
    }
}

/// The positions a sequence of distinct integers holds are as many as the sequence is long.
pub proof fn lemma_distinct_image_len(p: Seq<int>)
    requires
        forall|a: int, b: int| 0 <= a < b < p.len() ==> p[a] != p[b],
    ensures
        Set::new(|x: int| exists|k: int| 0 <= k < p.len() && p[k] == x).finite(),
        Set::new(|x: int| exists|k: int| 0 <= k < p.len() && p[k] == x).len() == p.len(),
    decreases p.len(),
{
    let img = Set::new(|x: int| exists|k: int| 0 <= k < p.len() && p[k] == x);
    if p.len() == 0 {
        assert(img =~= Set::empty());
    } else {
        let q = p.drop_last();
        lemma_distinct_image_len(q);
        let qi = Set::new(|x: int| exists|k: int| 0 <= k < q.len() && q[k] == x);
        assert(img =~= qi.insert(p.last())) by {
            assert forall|x: int| img.contains(x) <==> qi.insert(p.last()).contains(x) by {
                if img.contains(x) {
                    let k = choose|k: int| 0 <= k < p.len() && p[k] == x;
                    if k < p.len() - 1 {
                        assert(q[k] == x);
                    }
                }
                if qi.contains(x) {
                    let k = choose|k: int| 0 <= k < q.len() && q[k] == x;
                    assert(p[k] == x);
                }
                if x == p.last() {
                    assert(p[p.len() - 1] == x);
                }
            }
        }
        assert(!qi.contains(p.last())) by {
            if qi.contains(p.last()) {
                let k = choose|k: int| 0 <= k < q.len() && q[k] == p.last();
                assert(p[k] == p[p.len() - 1]);
            }
        }
    }
}

} // verus!
