//! What an input path holds: one APK, a bundle archive of APKs, or a directory of split APKs,
//! resolved into its APK parts.

use vstd::prelude::*;

use crate::apk::{zip_entry_data, zip_entry_names, ArchiveFault};
use crate::chars::{chars_end_with, chars_equal, has_suffix, opt_str, push_str, str_chars, strs};
use crate::error::{Result, UnocRsError};
use crate::sorting::stable_sort_of;

verus! {

/// The shape of an input.
#[derive(Debug, Clone, Copy, PartialEq, Eq)]
pub enum InputKind {
    ApkFile,
    BundleArchive,
    SplitDirectory,
}

/// An input with its APK parts in order, base first.
#[derive(Debug, Clone)]
pub struct ResolvedAppInput {
    pub source_path: String,
    pub kind: InputKind,
    pub parts: Vec<ApkPart>,
}

/// One APK of an input: a file, or the bytes of an archive entry.
#[derive(Debug, Clone)]
pub struct ApkPart {
    pub part_name: String,
    pub path: Option<String>,
    pub bytes: Vec<u8>,
}

/// `c` with ASCII letters lowered.
pub open spec fn ascii_lower_char(c: char) -> char {
    if 'A' <= c <= 'Z' { ((c as u32) + 32) as char } else { c }
}

/// `s` with ASCII letters lowered.
pub open spec fn ascii_lower(s: Seq<char>) -> Seq<char> {
    s.map_values(|c: char| ascii_lower_char(c))
}

fn lower_char(c: char) -> (r: char)
    ensures
        r == ascii_lower_char(c),
{
    if 'A' <= c && c <= 'Z' {
        ((c as u8) + 32) as char
    } else {
        c
    }
}

/// A file extension with ASCII letters lowered, as it is compared.
pub fn extension_lower(extension: &str) -> (r: String)
    ensures
        r@ == ascii_lower(extension@),
{
    let v = str_chars(extension);
    let mut r = String::new();
    let mut i: usize = 0;
    while i < v.len()
        invariant
            i <= v.len(),
            v@ == extension@,
            r@ == ascii_lower(v@.take(i as int)),
        decreases v.len() - i,
    {
        r.push(lower_char(v[i]));
        i = i + 1;
        assert(r@ =~= ascii_lower(v@.take(i as int)));
    }
    assert(v@.take(v@.len() as int) =~= v@);
    r
}

/// The extensions of bundle archives (lower case).
pub open spec fn is_bundle_ext(ext: Seq<char>) -> bool {
    ext == "apks"@ || ext == "xapk"@ || ext == "apkm"@
}

/// Whether a lower-case extension is that of a bundle archive of APKs.
pub fn is_bundle_extension(ext: &str) -> (r: bool)
    ensures
        r == is_bundle_ext(ext@),
{
    let e = str_chars(ext);
    let apks = vec!['a', 'p', 'k', 's'];
    let xapk = vec!['x', 'a', 'p', 'k'];
    let apkm = vec!['a', 'p', 'k', 'm'];
    proof {
        reveal_strlit("apks");
        reveal_strlit("xapk");
        reveal_strlit("apkm");
    }
    assert(apks@ =~= "apks"@);
    assert(xapk@ =~= "xapk"@);
    assert(apkm@ =~= "apkm"@);
    chars_equal(e.as_slice(), apks.as_slice()) || chars_equal(e.as_slice(), xapk.as_slice()) || chars_equal(
        e.as_slice(), apkm.as_slice())
}

fn is_apk_ext(ext: &str) -> (r: bool)
    ensures
        r == (ext@ == "apk"@),
{
    let apk = vec!['a', 'p', 'k'];
    proof {
        reveal_strlit("apk");
    }
    assert(apk@ =~= "apk"@);
    chars_equal(str_chars(ext).as_slice(), apk.as_slice())
}

/// What to do with an input path.
pub enum InputAction {
    /// The path is one APK, resolved.
    Resolved(ResolvedAppInput),
    /// The path is a directory: list its split APKs and bundles.
    ReadSplitDirectory,
    /// The path is a bundle archive: read its APK entries.
    ReadBundleArchive,
}

/// The lower-cased extension of a path, if it has one.
pub open spec fn lower_ext(extension: Option<Seq<char>>) -> Option<Seq<char>> {
    match extension {
        Some(e) => Some(ascii_lower(e)),
        None => None,
    }
}

/// Decides what an input path is from what the file system says of it: whether it exists,
/// whether it is a directory, and its extension; a single APK is resolved to its one part, named
/// after the file (or `input.apk`).
pub fn resolve_app_input(path: &str, file_name: Option<String>, exists: bool, is_dir: bool,
    extension: Option<String>) -> (r: Result<InputAction>)
    ensures
        !exists ==> (r matches Err(UnocRsError::MissingInput(p)) && p@ == path@),
        exists && is_dir ==> r matches Ok(InputAction::ReadSplitDirectory),
        exists && !is_dir ==> match lower_ext(opt_str(extension)) {
            Some(e) if e == "apk"@ => r matches Ok(InputAction::Resolved(input)) && input.source_path@ == path@
                && input.kind == InputKind::ApkFile && input.parts@.len() == 1
                && input.parts@[0].part_name@ == match file_name {
                    Some(n) => n@,
                    None => "input.apk"@,
                } && opt_str(input.parts@[0].path) == Some(path@) && input.parts@[0].bytes@.len() == 0,
            Some(e) if is_bundle_ext(e) => r matches Ok(InputAction::ReadBundleArchive),
            _ => r matches Err(UnocRsError::UnknownInputType(p)) && p@ == path@,
        },
{
    if !exists {
        return Err(UnocRsError::MissingInput(path.to_owned()));
    }
    if is_dir {
        return Ok(InputAction::ReadSplitDirectory);
    }
    let ext = match &extension {
        Some(e) => extension_lower(e.as_str()),
        None => return Err(UnocRsError::UnknownInputType(path.to_owned())),
    };
    if is_apk_ext(ext.as_str()) {
        let part_name = match file_name {
            Some(n) => n,
            None => "input.apk".to_owned(),
        };
        let parts = vec![ApkPart { part_name, path: Some(path.to_owned()), bytes: Vec::new() }];
        return Ok(InputAction::Resolved(ResolvedAppInput {
            source_path: path.to_owned(),
            kind: InputKind::ApkFile,
            parts,
        }));
    }
    if is_bundle_extension(ext.as_str()) {
        return Ok(InputAction::ReadBundleArchive);
    }
    Err(UnocRsError::UnknownInputType(path.to_owned()))
}

// ----- ordering parts -----

/// `name` is the base APK, on its own or inside a bundle.
pub open spec fn is_base_part(name: Seq<char>) -> bool {
    name == "base.apk"@ || has_suffix(name, "!base.apk"@)
}

/// The order of parts: base APKs first, then by name.
pub open spec fn part_lt(a: Seq<char>, b: Seq<char>) -> bool {
    if is_base_part(a) != is_base_part(b) {
        is_base_part(a)
    } else {
        crate::chars::lex_lt(a, b)
    }
}

/// Parts in the order of `part_lt`.
pub open spec fn part_before() -> spec_fn(ApkPart, ApkPart) -> bool {
    |a: ApkPart, b: ApkPart| part_lt(a.part_name@, b.part_name@)
}

/// Whether a part name is that of the base APK.
pub fn is_base_part_name(name: &str) -> (r: bool)
    ensures
        r == is_base_part(name@),
{
    let n = str_chars(name);
    let base = vec!['b', 'a', 's', 'e', '.', 'a', 'p', 'k'];
    let suffix = vec!['!', 'b', 'a', 's', 'e', '.', 'a', 'p', 'k'];
    proof {
        reveal_strlit("base.apk");
        reveal_strlit("!base.apk");
    }
    assert(base@ =~= "base.apk"@);
    assert(suffix@ =~= "!base.apk"@);
    chars_equal(n.as_slice(), base.as_slice()) || chars_end_with(n.as_slice(), suffix.as_slice())
}

/// Calls `slice::sort_by` with the verified comparator `compare_parts`, a total order that agrees
/// with `part_lt`. The documentation describes a stable sort: the result is a rearrangement of
/// the input in that order, parts with equal names keeping their relative order.
#[verifier::external_body]
pub(crate) fn sort_parts(parts: &mut Vec<ApkPart>)
    ensures
        exists|p: Seq<int>| stable_sort_of(old(parts)@, final(parts)@, p, part_before()),
{
    parts.sort_by(|left, right| crate::order::compare_parts(left.part_name.as_str(), right.part_name.as_str()));
}

// ----- bundle archives -----

/// The part name of an archive entry: its last path component.
pub open spec fn entry_file_name(name: Seq<char>) -> Seq<char>
    decreases name.len(),
{
    if name.len() == 0 {
        name
    } else if name.last() == '/' {
        Seq::empty()
    } else {
        entry_file_name(name.drop_last()).push(name.last())
    }
}

fn last_component(name: &str) -> (r: String)
    ensures
        r@ == entry_file_name(name@),
{
    let v = str_chars(name);
    let mut start: usize = 0;
    let mut i: usize = 0;
    assert(v@.take(0) =~= Seq::<char>::empty());
    while i < v.len()
        invariant
            i <= v.len(),
            v@ == name@,
            start <= i,
            entry_file_name(v@.take(i as int)) == v@.subrange(start as int, i as int),
        decreases v.len() - i,
    {
        proof {
            assert(v@.take(i + 1).drop_last() =~= v@.take(i as int));
        }
        if v[i] == '/' {
            start = i + 1;
            assert(v@.subrange(start as int, i + 1) =~= Seq::<char>::empty());
        } else {
            assert(v@.subrange(start as int, i + 1) =~= v@.subrange(start as int, i as int).push(v@[i as int]));
        }
        i = i + 1;
    }
    assert(v@.take(v@.len() as int) =~= v@);
    crate::chars::string_from_chars(&v.as_slice()[start..v.len()])
}

/// The parts a pass over archive entries `i..` has gathered: each entry whose name ends with
/// `.apk`, named by its last component, with its data.
pub open spec fn bundle_parts_from(bytes: Seq<u8>, names: Seq<Seq<char>>, i: nat, acc: Seq<(Seq<char>, Seq<u8>)>)
    -> core::result::Result<Seq<(Seq<char>, Seq<u8>)>, (ArchiveFault, Seq<char>)>
    decreases names.len() - i,
{
    if i >= names.len() {
        Ok(acc)
    } else if has_suffix(names[i as int], ".apk"@) {
        match zip_entry_data(bytes, i as int) {
            Err(e) => Err(e),
            Ok(d) => bundle_parts_from(bytes, names, i + 1, acc.push((entry_file_name(names[i as int]), d))),
        }
    } else {
        bundle_parts_from(bytes, names, i + 1, acc)
    }
}

/// The name and data of an archive part.
pub open spec fn part_entry(p: ApkPart) -> (Seq<char>, Seq<u8>) {
    (p.part_name@, p.bytes@)
}

/// Parts as names and data.
pub open spec fn part_entries(v: Seq<ApkPart>) -> Seq<(Seq<char>, Seq<u8>)> {
    v.map_values(|p: ApkPart| part_entry(p))
}

/// Parts as names and data, in part order.
pub open spec fn entry_before() -> spec_fn((Seq<char>, Seq<u8>), (Seq<char>, Seq<u8>)) -> bool {
    |a: (Seq<char>, Seq<u8>), b: (Seq<char>, Seq<u8>)| part_lt(a.0, b.0)
}

/// The outcome of resolving the bundle archive in `bytes`, read from `path`. The entries are
/// taken in index order, as for an APK archive.
pub open spec fn bundle_matches(r: Result<ResolvedAppInput>, path: Seq<char>, bytes: Seq<u8>) -> bool {
    let (names, stop) = zip_entry_names(bytes);
    match bundle_parts_from(bytes, names, 0, Seq::empty()) {
        Err((ArchiveFault::Archive, t)) => r matches Err(UnocRsError::InvalidApk { path: p, reason }) && p@ == path
            && reason@ == t,
        Err((ArchiveFault::Read, t)) => r matches Err(UnocRsError::Io(m)) && m@ == t,
        Ok(found) => match stop {
            Some(t) => r matches Err(UnocRsError::InvalidApk { path: p, reason }) && p@ == path && reason@ == t,
            None => if found.len() == 0 {
                r matches Err(UnocRsError::NoApkParts(p)) && p@ == path
            } else {
                r matches Ok(input) && input.source_path@ == path && input.kind == InputKind::BundleArchive
                    && (forall|i: int| 0 <= i < input.parts@.len() ==> (#[trigger] input.parts@[i]).path is None)
                    && exists|p: Seq<int>| #[trigger] stable_sort_of(found, part_entries(input.parts@), p,
                        entry_before())
            },
        },
    }
}

fn archive_error(path: &str, fault: ArchiveFault, text: String) -> (e: UnocRsError)
    ensures
        match fault {
            ArchiveFault::Archive => e matches UnocRsError::InvalidApk { path: p, reason } && p@ == path@
                && reason@ == text@,
            ArchiveFault::Read => e matches UnocRsError::Io(m) && m@ == text@,
        },
{
    match fault {
        ArchiveFault::Archive => UnocRsError::InvalidApk { path: path.to_owned(), reason: text },
        ArchiveFault::Read => UnocRsError::Io(text),
    }
}

/// Resolves a bundle archive held in `bytes`, read from `path`: its `.apk` entries, base first.
pub fn resolve_bundle_archive(path: &str, bytes: &[u8]) -> (r: Result<ResolvedAppInput>)
    ensures
        bundle_matches(r, path@, bytes@),
{
    let (names, stop) = crate::apk::archive_entry_names(bytes);
    let ghost nv = strs(names@);
    let mut parts: Vec<ApkPart> = Vec::new();
    let suffix = vec!['.', 'a', 'p', 'k'];
    proof {
        reveal_strlit(".apk");
    }
    assert(suffix@ =~= ".apk"@);
    assert(part_entries(parts@) =~= Seq::<(Seq<char>, Seq<u8>)>::empty());
    let mut i: usize = 0;
    while i < names.len()
        invariant
            i <= names.len(),
            nv == strs(names@),
            suffix@ == ".apk"@,
            zip_entry_names(bytes@).0 == nv,
            bundle_parts_from(bytes@, nv, 0, Seq::empty()) == bundle_parts_from(bytes@, nv, i as nat,
                part_entries(parts@)),
            forall|k: int| 0 <= k < parts@.len() ==> (#[trigger] parts@[k]).path is None,
        decreases names.len() - i,
    {
        assert(names@[i as int]@ == nv[i as int]);
        if chars_end_with(str_chars(names[i].as_str()).as_slice(), suffix.as_slice()) {
            match crate::apk::archive_entry_data(bytes, i) {
                Ok(data) => {
                    let ghost prev = part_entries(parts@);
                    let part_name = last_component(names[i].as_str());
                    parts.push(ApkPart { part_name, path: None, bytes: data });
                    assert(part_entries(parts@) =~= prev.push((entry_file_name(nv[i as int]), data@)));
                },
                Err((fault, text)) => {
                    assert(bundle_parts_from(bytes@, nv, i as nat, part_entries(parts@)) == Err::<
                        Seq<(Seq<char>, Seq<u8>)>, (ArchiveFault, Seq<char>)>((fault, text@)));
                    return Err(archive_error(path, fault, text));
                },
            }
        }
        i = i + 1;
    }
    let ghost found = part_entries(parts@);
    if let Some(t) = stop {
        return Err(UnocRsError::InvalidApk { path: path.to_owned(), reason: t });
    }
    if parts.len() == 0 {
        return Err(UnocRsError::NoApkParts(path.to_owned()));
    }
    let ghost unsorted = parts@;
    sort_parts(&mut parts);
    let ghost p = choose|p: Seq<int>| stable_sort_of(unsorted, parts@, p, part_before());
    proof {
        let f = |x: ApkPart| part_entry(x);
        crate::sorting::lemma_stable_sort_map(unsorted, parts@, p, part_before(), f, entry_before());
        assert(unsorted.map_values(f) =~= part_entries(unsorted));
        assert(parts@.map_values(f) =~= part_entries(parts@));
        assert forall|k: int| 0 <= k < parts@.len() implies (#[trigger] parts@[k]).path is None by {
            assert(parts@[k] == unsorted[p[k]]);
        }
    }
    assert(stable_sort_of(found, part_entries(parts@), p, entry_before()));
    Ok(ResolvedAppInput { source_path: path.to_owned(), kind: InputKind::BundleArchive, parts })
}

// ----- split directories -----

/// What a directory entry is to a split directory.
pub enum SplitEntry {
    /// A split APK.
    Apk,
    /// A bundle archive whose parts join the directory's.
    Bundle,
    /// Anything else, skipped.
    Other,
}

/// How a directory entry with this extension takes part in a split directory.
pub fn split_entry_kind(extension: Option<&str>) -> (r: SplitEntry)
    ensures
        match lower_ext(match extension {
            Some(e) => Some(e@),
            None => None,
        }) {
            Some(e) if e == "apk"@ => r is Apk,
            Some(e) if is_bundle_ext(e) => r is Bundle,
            _ => r is Other,
        },
{
    match extension {
        None => SplitEntry::Other,
        Some(e) => {
            let lower = extension_lower(e);
            if is_apk_ext(lower.as_str()) {
                SplitEntry::Apk
            } else if is_bundle_extension(lower.as_str()) {
                SplitEntry::Bundle
            } else {
                SplitEntry::Other
            }
        },
    }
}

/// The parts of a bundle found in a split directory, renamed `archive!part`.
pub fn prefix_bundle_parts(archive_name: &str, parts: Vec<ApkPart>) -> (r: Vec<ApkPart>)
    ensures
        r@.len() == parts@.len(),
        forall|i: int| 0 <= i < r@.len() ==> (#[trigger] r@[i]).part_name@ == archive_name@ + "!"@
            + parts@[i].part_name@ && r@[i].bytes@ == parts@[i].bytes@ && r@[i].path == parts@[i].path,
{
    let mut r: Vec<ApkPart> = Vec::new();
    let ghost all = parts@;
    for part in it: parts.into_iter()
        invariant
            it.seq() == all,
            r@.len() == it.index(),
            forall|i: int| 0 <= i < r@.len() ==> (#[trigger] r@[i]).part_name@ == archive_name@ + "!"@
                + all[i].part_name@ && r@[i].bytes@ == all[i].bytes@ && r@[i].path == all[i].path,
    {
        let mut name = String::new();
        push_str(&mut name, archive_name);
        push_str(&mut name, "!");
        push_str(&mut name, part.part_name.as_str());
        r.push(ApkPart { part_name: name, path: part.path, bytes: part.bytes });
    }
    r
}

/// Resolves a split directory from the parts found in it: base first, then by name; a directory
/// with none is an error.
pub fn finish_split_directory(path: &str, parts: Vec<ApkPart>) -> (r: Result<ResolvedAppInput>)
    ensures
        parts@.len() == 0 ==> (r matches Err(UnocRsError::NoApkParts(p)) && p@ == path@),
        parts@.len() > 0 ==> (r matches Ok(input) && input.source_path@ == path@ && input.kind
            == InputKind::SplitDirectory && exists|p: Seq<int>| #[trigger] stable_sort_of(parts@, input.parts@, p,
            part_before())),
{
    let ghost given = parts@;
    let mut sorted = parts;
    if sorted.len() == 0 {
        return Err(UnocRsError::NoApkParts(path.to_owned()));
    }
    sort_parts(&mut sorted);
    let ghost p = choose|p: Seq<int>| stable_sort_of(given, sorted@, p, part_before());
    assert(stable_sort_of(given, sorted@, p, part_before()));
    let r = ResolvedAppInput { source_path: path.to_owned(), kind: InputKind::SplitDirectory, parts: sorted };
    assert(r.parts@ == sorted@);
    Ok(r)
}

} // verus!
