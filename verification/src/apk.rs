//! The DEX files and package name of one APK.

use vstd::prelude::*;
use vstd::utf8::{decode_utf8, valid_utf8};

use crate::chars::{chars_end_with, chars_equal, chars_start_with, decode_strict, has_prefix, has_suffix, str_chars, strs,
    string_from_chars, utf8_len, utf8_length};
use crate::error::{Result, UnocRsError};
use crate::sorting::{seconds, sort_by_first, stable_sort_of, first_before};

verus! {

/// One APK (or one part of a split APK): where it came from and the DEX files it holds.
#[derive(Debug, Clone, PartialEq, Eq)]
pub struct ApkInput {
    pub path: String,
    /// The last component of `path`, as the platform reads it, when it has one.
    pub file_name: Option<String>,
    pub package_name: Option<String>,
    pub apk_parts: usize,
    pub dex_files: Vec<DexBlob>,
}

/// One DEX file of an APK.
#[derive(Debug, Clone, PartialEq, Eq)]
pub struct DexBlob {
    pub apk_part: String,
    pub name: String,
    pub dex_index: usize,
    pub bytes: Vec<u8>,
}

/// The characters `classes`.
pub open spec fn classes_prefix() -> Seq<char> {
    seq!['c', 'l', 'a', 's', 's', 'e', 's']
}

/// The characters `.dex`.
pub open spec fn dex_suffix() -> Seq<char> {
    seq!['.', 'd', 'e', 'x']
}

/// The characters `classes.dex`.
pub open spec fn primary_dex_name() -> Seq<char> {
    classes_prefix() + dex_suffix()
}

/// The part of a `classes<N>.dex` name between `classes` and `.dex`.
pub open spec fn dex_number_text(name: Seq<char>) -> Seq<char> {
    name.subrange(7, name.len() - 4)
}

/// All characters of `s` are ASCII digits.
pub open spec fn all_digits(s: Seq<char>) -> bool {
    forall|i: int| 0 <= i < s.len() ==> '0' <= #[trigger] s[i] <= '9'
}

/// An archive entry name of a DEX file at the archive root: `classes.dex` or `classes<N>.dex`
/// with `N` made of ASCII digits.
pub open spec fn is_dex_entry_name(name: Seq<char>) -> bool {
    name == primary_dex_name() || (has_prefix(name, classes_prefix()) && has_suffix(name, dex_suffix())
        && name.len() > 11 && all_digits(dex_number_text(name)))
}

fn all_ascii_digits(s: &[char]) -> (r: bool)
    ensures
        r == all_digits(s@),
{
    let mut i: usize = 0;
    while i < s.len()
        invariant
            i <= s.len(),
            forall|k: int| 0 <= k < i ==> '0' <= #[trigger] s@[k] <= '9',
        decreases s.len() - i,
    {
        if s[i] < '0' || s[i] > '9' {
            return false;
        }
        i = i + 1;
    }
    true
}

/// Whether an archive entry is a DEX file at the archive root.
pub fn is_classes_dex_name(name: &str) -> (r: bool)
    ensures
        r == is_dex_entry_name(name@),
{
    let n = str_chars(name);
    let prefix = ['c', 'l', 'a', 's', 's', 'e', 's'];
    let suffix = ['.', 'd', 'e', 'x'];
    let primary = ['c', 'l', 'a', 's', 's', 'e', 's', '.', 'd', 'e', 'x'];
    assert(primary@ =~= primary_dex_name());
    assert(prefix@ =~= classes_prefix());
    assert(suffix@ =~= dex_suffix());
    if chars_equal(n.as_slice(), &primary) {
        return true;
    }
    if !chars_start_with(n.as_slice(), &prefix) || !chars_end_with(n.as_slice(), &suffix) {
        return false;
    }
    if n.len() <= 11 {
        proof {
            if n@.len() == 11 {
                assert(n@ =~= n@.subrange(0, 7) + n@.subrange(7, 11));
            }
        }
        return false;
    }
    all_ascii_digits(&n.as_slice()[7..n.len() - 4])
}

/// The value of a string of decimal digits.
pub open spec fn digits_value(s: Seq<char>) -> nat
    decreases s.len(),
{
    if s.len() == 0 {
        0
    } else {
        10 * digits_value(s.drop_last()) + ((s.last() as nat) - 48) as nat
    }
}

/// The first `k`, from `from` on, such that the first `k` characters of `s` take `b` bytes of
/// UTF-8: where a character ends at byte `b`.
pub open spec fn char_at_byte_from(s: Seq<char>, b: nat, from: nat) -> Option<nat>
    decreases s.len() - from,
{
    if utf8_len(s.take(from as int)) == b {
        Some(from)
    } else if from >= s.len() {
        None
    } else {
        char_at_byte_from(s, b, from + 1)
    }
}

/// The number of characters of `s` that end at byte `b` of its UTF-8, if one does.
pub open spec fn char_at_byte(s: Seq<char>, b: nat) -> Option<nat> {
    char_at_byte_from(s, b, 0)
}

/// Whether the text between the first seven bytes and the last four of `name` can be taken:
/// the name has at least eleven bytes, and characters end at both places.
pub open spec fn dex_key_defined(name: Seq<char>) -> bool {
    name == primary_dex_name() || (utf8_len(name) >= 11 && char_at_byte(name, 7) is Some && char_at_byte(
        name,
        (utf8_len(name) - 4) as nat,
    ) is Some)
}

/// The text between the first seven bytes and the last four of `name`.
pub open spec fn dex_middle(name: Seq<char>) -> Seq<char> {
    name.subrange(char_at_byte(name, 7)->0 as int, char_at_byte(name, (utf8_len(name) - 4) as nat)->0 as int)
}

/// The `usize` that `usize::from_str` reads from `m` (an optional `+`, then at least one ASCII
/// digit), or `usize::MAX` where it reads none or the value does not fit.
pub open spec fn number_key(m: Seq<char>) -> usize {
    let digits = if m.len() > 0 && m[0] == '+' {
        m.drop_first()
    } else {
        m
    };
    if digits.len() == 0 || !all_digits(digits) || digits_value(digits) > usize::MAX {
        usize::MAX
    } else {
        digits_value(digits) as usize
    }
}

/// The sort key of a DEX entry: 1 for `classes.dex`; else the number between `classes` and
/// `.dex`, or `usize::MAX` when that is no number or too large for a `usize`.
pub open spec fn dex_key(name: Seq<char>) -> usize {
    if name == primary_dex_name() {
        1
    } else {
        number_key(dex_middle(name))
    }
}

/// Longer prefixes take more bytes.
proof fn lemma_utf8_len_monotone(s: Seq<char>, j: int, k: int)
    requires
        0 <= j <= k <= s.len(),
    ensures
        utf8_len(s.take(j)) <= utf8_len(s.take(k)),
        j < k ==> utf8_len(s.take(j)) < utf8_len(s.take(k)),
    decreases k - j,
{
    if j < k {
        lemma_utf8_len_monotone(s, j, k - 1);
        assert(s.take(k).drop_last() =~= s.take(k - 1));
    }
}

/// A search from `from` finds the first index at or after it.
proof fn lemma_char_at_byte_skip(s: Seq<char>, b: nat, from: nat, to: nat)
    requires
        from <= to <= s.len(),
        forall|k: nat| from <= k < to ==> utf8_len(#[trigger] s.take(k as int)) != b,
    ensures
        char_at_byte_from(s, b, from) == char_at_byte_from(s, b, to),
    decreases to - from,
{
    if from < to {
        lemma_char_at_byte_skip(s, b, from + 1, to);
    }
}

/// What a search finds ends where it was asked to, at or after where it began.
proof fn lemma_char_at_byte_found(s: Seq<char>, b: nat, from: nat)
    requires
        from <= s.len(),
    ensures
        char_at_byte_from(s, b, from) matches Some(k) ==> from <= k <= s.len() && utf8_len(s.take(k as int))
            == b,
    decreases s.len() - from,
{
    if utf8_len(s.take(from as int)) != b && from < s.len() {
        lemma_char_at_byte_found(s, b, from + 1);
    }
}

/// The bytes of two strings one after the other.
proof fn lemma_utf8_len_concat(a: Seq<char>, b: Seq<char>)
    ensures
        utf8_len(a + b) == utf8_len(a) + utf8_len(b),
    decreases b.len(),
{
    if b.len() > 0 {
        lemma_utf8_len_concat(a, b.drop_last());
        assert((a + b).drop_last() =~= a + b.drop_last());
    }
}

/// Every prefix ends at a character: the search for its byte count finds it.
proof fn lemma_char_at_byte_of_prefix(s: Seq<char>, k: nat)
    requires
        k <= s.len(),
    ensures
        char_at_byte(s, utf8_len(s.take(k as int))) == Some(k),
{
    let b = utf8_len(s.take(k as int));
    assert forall|j: nat| 0 <= j < k implies utf8_len(#[trigger] s.take(j as int)) != b by {
        lemma_utf8_len_monotone(s, j as int, k as int);
    }
    lemma_char_at_byte_skip(s, b, 0, k);
}

/// A DEX entry name has its number between whole characters.
pub proof fn lemma_dex_entry_key_defined(name: Seq<char>)
    requires
        is_dex_entry_name(name),
    ensures
        dex_key_defined(name),
{
    if name != primary_dex_name() {
        let n = name.len();
        assert(name.take(7) =~= classes_prefix());
        assert(name =~= name.take(n - 4) + dex_suffix());
        assert(utf8_len(classes_prefix()) == 7) by {
            reveal_with_fuel(utf8_len, 8);
        }
        assert(utf8_len(dex_suffix()) == 4) by {
            reveal_with_fuel(utf8_len, 5);
        }
        lemma_utf8_len_concat(name.take(n - 4), dex_suffix());
        lemma_utf8_len_monotone(name, 7, n - 4);
        lemma_char_at_byte_of_prefix(name, 7);
        lemma_char_at_byte_of_prefix(name, (n - 4) as nat);
    }
}

/// The value of the digits `digits`, or `usize::MAX` where it does not fit.
fn digits_key(digits: &[char]) -> (r: usize)
    requires
        all_digits(digits@),
    ensures
        r == (if digits_value(digits@) > usize::MAX {
            usize::MAX
        } else {
            digits_value(digits@) as usize
        }),
{
    let mut value: usize = 0;
    let mut i: usize = 0;
    assert(digits@.take(0) =~= Seq::<char>::empty());
    while i < digits.len()
        invariant
            i <= digits.len(),
            all_digits(digits@),
            value == digits_value(digits@.take(i as int)),
        decreases digits.len() - i,
    {
        let d = (digits[i] as u32 - 48) as usize;
        proof {
            assert(digits@.take(i + 1).drop_last() =~= digits@.take(i as int));
            assert('0' <= digits@[i as int] <= '9');
        }
        if value > (usize::MAX - d) / 10 {
            proof {
                assert(10 * value + d > usize::MAX) by (nonlinear_arith)
                    requires value > (usize::MAX - d) / 10, d <= 9;
                lemma_digits_grow(digits@, i as nat);
            }
            return usize::MAX;
        }
        value = 10 * value + d;
        i = i + 1;
    }
    assert(digits@.take(digits@.len() as int) =~= digits@);
    value
}

/// The position of a DEX entry in the multi-DEX order.
pub fn dex_sort_key(name: &str) -> (r: usize)
    requires
        dex_key_defined(name@),
    ensures
        r == dex_key(name@),
{
    let n = str_chars(name);
    let primary = ['c', 'l', 'a', 's', 's', 'e', 's', '.', 'd', 'e', 'x'];
    assert(primary@ =~= primary_dex_name());
    if chars_equal(n.as_slice(), &primary) {
        return 1;
    }
    let total = utf8_length(n.as_slice());
    let ghost sv = n@;
    // the characters that end at byte 7 and at four bytes before the end
    let mut start: usize = 0;
    let mut end: usize = 0;
    let mut found_start = false;
    let mut found_end = false;
    let mut bytes: u128 = 0;
    let mut k: usize = 0;
    proof {
        assert(sv.take(0) =~= Seq::<char>::empty());
    }
    while k < n.len()
        invariant
            k <= sv.len(),
            sv == n@,
            sv == name@,
            total == utf8_len(sv),
            total >= 11,
            bytes == utf8_len(sv.take(k as int)),
            dex_key_defined(sv),
            sv != primary_dex_name(),
            !found_start ==> forall|j: nat| j < k ==> utf8_len(#[trigger] sv.take(j as int)) != 7,
            found_start ==> start < k && char_at_byte(sv, 7) == Some(start as nat),
            !found_end ==> forall|j: nat| j < k ==> utf8_len(#[trigger] sv.take(j as int)) != total - 4,
            found_end ==> end < k && char_at_byte(sv, (total - 4) as nat) == Some(end as nat),
        decreases sv.len() - k,
    {
        if !found_start && bytes == 7 {
            proof {
                lemma_char_at_byte_skip(sv, 7, 0, k as nat);
            }
            found_start = true;
            start = k;
        }
        if !found_end && bytes == total - 4 {
            proof {
                lemma_char_at_byte_skip(sv, (total - 4) as nat, 0, k as nat);
            }
            found_end = true;
            end = k;
        }
        let c = n[k];
        proof {
            assert(sv.take(k + 1).drop_last() =~= sv.take(k as int));
            assert(sv.take(k + 1).last() == c);
            lemma_utf8_len_monotone(sv, k + 1, sv.len() as int);
            assert(sv.take(sv.len() as int) =~= sv);
        }
        let w: u128 = if (c as u32) < 0x80 {
            1
        } else if (c as u32) < 0x800 {
            2
        } else if (c as u32) < 0x10000 {
            3
        } else {
            4
        };
        bytes = bytes + w;
        k = k + 1;
    }
    proof {
        assert(sv.take(sv.len() as int) =~= sv);
    }
    if !found_start && bytes == 7 {
        proof {
            lemma_char_at_byte_skip(sv, 7, 0, k as nat);
        }
        found_start = true;
        start = k;
    }
    if !found_end && bytes == total - 4 {
        proof {
            lemma_char_at_byte_skip(sv, (total - 4) as nat, 0, k as nat);
        }
        found_end = true;
        end = k;
    }
    proof {
        if !found_start {
            lemma_char_at_byte_skip(sv, 7, 0, sv.len());
            assert(char_at_byte_from(sv, 7, sv.len()) is None);
        }
        if !found_end {
            lemma_char_at_byte_skip(sv, (total - 4) as nat, 0, sv.len());
            assert(char_at_byte_from(sv, (total - 4) as nat, sv.len()) is None);
        }
        lemma_char_at_byte_found(sv, 7, 0);
        lemma_char_at_byte_found(sv, (total - 4) as nat, 0);
        if start > end {
            lemma_utf8_len_monotone(sv, end as int, start as int);
        }
    }
    let middle = &n.as_slice()[start..end];
    assert(middle@ =~= dex_middle(name@));
    let digits = if middle.len() > 0 && middle[0] == '+' {
        &middle[1..middle.len()]
    } else {
        middle
    };
    proof {
        if middle@.len() > 0 && middle@[0] == '+' {
            assert(digits@ =~= middle@.drop_first());
        }
    }
    if digits.len() == 0 || !all_ascii_digits(digits) {
        return usize::MAX;
    }
    digits_key(digits)
}

/// A value that already exceeds `usize::MAX` on a prefix exceeds it on the whole digit string.
proof fn lemma_digits_grow(s: Seq<char>, i: nat)
    requires
        i < s.len(),
        all_digits(s),
        10 * digits_value(s.take(i as int)) + ((s[i as int] as nat) - 48) > usize::MAX,
    ensures
        digits_value(s) > usize::MAX,
    decreases s.len() - i,
{
    let j = i as int;
    if i + 1 == s.len() {
        assert(s.take(j + 1).drop_last() =~= s.take(j));
        assert(s.take(j + 1) =~= s);
    } else {
        assert(s.take(j + 1).drop_last() =~= s.take(j));
        let v = digits_value(s.take(j + 1));
        assert(v > usize::MAX);
        assert(s.take(j + 2).drop_last() =~= s.take(j + 1));
        let c = s[j + 1];
        assert(10 * v + ((c as nat) - 48) > usize::MAX) by (nonlinear_arith)
            requires v > usize::MAX, '0' <= c <= '9';
        lemma_digits_grow(s, (i + 1) as nat);
    }
}

/// `p` occurs in `s` at position `at`.
pub open spec fn occurs<A>(s: Seq<A>, p: Seq<A>, at: int) -> bool {
    0 <= at && at + p.len() <= s.len() && s.subrange(at, at + p.len()) == p
}

/// The first position at or after `i` where `p` occurs in `s`.
pub open spec fn first_from<A>(s: Seq<A>, p: Seq<A>, i: int) -> Option<int>
    decreases s.len() + 1 - i,
{
    if i < 0 || i + p.len() > s.len() {
        None
    } else if occurs(s, p, i) {
        Some(i)
    } else {
        first_from(s, p, i + 1)
    }
}

/// A first occurrence is an occurrence, and there is none before it.
pub proof fn lemma_first_from<A>(s: Seq<A>, p: Seq<A>, i: int)
    requires
        i >= 0,
    ensures
        first_from(s, p, i) matches Some(k) ==> occurs(s, p, k) && i <= k
            && forall|j: int| i <= j < k ==> !occurs(s, p, j),
        first_from(s, p, i) is None ==> forall|j: int| i <= j ==> !occurs(s, p, j),
    decreases s.len() + 1 - i,
{
    if i < 0 || i + p.len() > s.len() {
    } else if occurs(s, p, i) {
    } else {
        lemma_first_from(s, p, i + 1);
    }
}

fn bytes_equal(a: &[u8], b: &[u8]) -> (r: bool)
    ensures
        r == (a@ == b@),
{
    if a.len() != b.len() {
        return false;
    }
    let mut i: usize = 0;
    while i < a.len()
        invariant
            i <= a.len(),
            a.len() == b.len(),
            forall|k: int| 0 <= k < i ==> a@[k] == b@[k],
        decreases a.len() - i,
    {
        if a[i] != b[i] {
            return false;
        }
        i = i + 1;
    }
    assert(a@ =~= b@);
    true
}

fn find_bytes_from(s: &[u8], p: &[u8], start: usize) -> (r: Option<usize>)
    ensures
        match r {
            Some(k) => first_from(s@, p@, start as int) == Some(k as int),
            None => first_from(s@, p@, start as int) is None,
        },
{
    let mut i = start;
    while i <= s.len() && p.len() <= s.len() - i
        invariant
            start <= i,
            first_from(s@, p@, start as int) == first_from(s@, p@, i as int),
        decreases s.len() + 1 - i,
    {
        let mut k: usize = 0;
        let mut same = true;
        while k < p.len()
            invariant
                k <= p.len(),
                i + p.len() <= s.len(),
                same == forall|m: int| 0 <= m < k ==> s@[i + m] == p@[m],
            decreases p.len() - k,
        {
            if s[i + k] != p[k] {
                same = false;
            }
            k = k + 1;
        }
        proof {
            if same {
                assert(s@.subrange(i as int, i + p.len()) =~= p@);
            } else {
                if occurs(s@, p@, i as int) {
                    assert forall|m: int| 0 <= m < p.len() implies s@[i + m] == p@[m] by {
                        assert(s@.subrange(i as int, i + p.len())[m] == p@[m]);
                    }
                }
            }
        }
        if same {
            return Some(i);
        }
        i = i + 1;
    }
    None
}


fn find_chars_from(s: &[char], p: &[char], start: usize) -> (r: Option<usize>)
    ensures
        match r {
            Some(k) => first_from(s@, p@, start as int) == Some(k as int),
            None => first_from(s@, p@, start as int) is None,
        },
{
    let mut i = start;
    while i <= s.len() && p.len() <= s.len() - i
        invariant
            start <= i,
            first_from(s@, p@, start as int) == first_from(s@, p@, i as int),
        decreases s.len() + 1 - i,
    {
        let mut k: usize = 0;
        let mut same = true;
        while k < p.len()
            invariant
                k <= p.len(),
                i + p.len() <= s.len(),
                same == forall|m: int| 0 <= m < k ==> s@[i + m] == p@[m],
            decreases p.len() - k,
        {
            if s[i + k] != p[k] {
                same = false;
            }
            k = k + 1;
        }
        proof {
            if same {
                assert(s@.subrange(i as int, i + p.len()) =~= p@);
            } else {
                if occurs(s@, p@, i as int) {
                    assert forall|m: int| 0 <= m < p.len() implies s@[i + m] == p@[m] by {
                        assert(s@.subrange(i as int, i + p.len())[m] == p@[m]);
                    }
                }
            }
        }
        if same {
            return Some(i);
        }
        i = i + 1;
    }
    None
}

/// An ASCII letter or digit.
pub open spec fn is_alnum_byte(c: u8) -> bool {
    (0x30 <= c <= 0x39) || (0x41 <= c <= 0x5a) || (0x61 <= c <= 0x7a)
}

/// A byte that can continue a package name: ASCII alphanumerics, `.` and `_`.
pub open spec fn is_package_byte(c: u8) -> bool {
    is_alnum_byte(c) || c == 0x2e || c == 0x5f
}

/// The first position at or after `i` holding an ASCII alphanumeric byte.
pub open spec fn first_alnum_from(b: Seq<u8>, i: int) -> Option<int>
    decreases b.len() - i,
{
    if i < 0 || i >= b.len() {
        None
    } else if is_alnum_byte(b[i]) {
        Some(i)
    } else {
        first_alnum_from(b, i + 1)
    }
}

/// The first position at or after `i` whose byte cannot continue a package name, or the end.
pub open spec fn package_end_from(b: Seq<u8>, i: int) -> int
    decreases b.len() - i,
{
    if i < 0 || i >= b.len() {
        b.len() as int
    } else if !is_package_byte(b[i]) {
        i
    } else {
        package_end_from(b, i + 1)
    }
}

/// The bytes `<manifest`.
pub open spec fn manifest_tag() -> Seq<u8> {
    seq![0x3cu8, 0x6du8, 0x61u8, 0x6eu8, 0x69u8, 0x66u8, 0x65u8, 0x73u8, 0x74u8]
}

/// The bytes `package`.
pub open spec fn package_bytes() -> Seq<u8> {
    seq![0x70u8, 0x61u8, 0x63u8, 0x6bu8, 0x61u8, 0x67u8, 0x65u8]
}

/// The characters `package="`.
pub open spec fn package_attr() -> Seq<char> {
    seq!['p', 'a', 'c', 'k', 'a', 'g', 'e', '=', '"']
}

/// The package of a text manifest: the value of its first `package="..."` attribute.
pub open spec fn text_manifest_package(b: Seq<u8>) -> Option<Seq<char>> {
    if !valid_utf8(b) {
        None
    } else {
        let t = decode_utf8(b);
        match first_from(t, package_attr(), 0) {
            None => None,
            Some(pos) => match first_from(t, seq!['"'], pos + 9) {
                None => None,
                Some(end) => Some(t.subrange(pos + 9, end)),
            },
        }
    }
}

/// The package of a binary manifest, as a heuristic: after the first `package` bytes, the run
/// of name bytes starting at the next ASCII alphanumeric byte, accepted when it holds a dot.
/// The run is ASCII, so each byte is one character.
pub open spec fn binary_manifest_package(b: Seq<u8>) -> Option<Seq<char>> {
    match first_from(b, package_bytes(), 0) {
        None => None,
        Some(pos) => match first_alnum_from(b, pos + 7) {
            None => None,
            Some(start) => {
                let v = b.subrange(start, package_end_from(b, start));
                if v.contains(0x2eu8) {
                    Some(v.map_values(|c: u8| c as char))
                } else {
                    None
                }
            },
        },
    }
}

/// The package name a manifest declares.
pub open spec fn manifest_package(b: Seq<u8>) -> Option<Seq<char>> {
    if b.len() >= 9 && b.subrange(0, 9) == manifest_tag() {
        text_manifest_package(b)
    } else {
        binary_manifest_package(b)
    }
}

fn read_text_manifest_package(bytes: &[u8]) -> (r: Option<String>)
    ensures
        crate::chars::opt_str(r) == text_manifest_package(bytes@),
{
    let text = decode_strict(bytes)?;
    let t = str_chars(text.as_str());
    let attr: Vec<char> = vec!['p', 'a', 'c', 'k', 'a', 'g', 'e', '=', '"'];
    assert(attr@ =~= package_attr());
    let package_pos = find_chars_from(t.as_slice(), attr.as_slice(), 0)?;
    proof {
        lemma_first_from(t@, package_attr(), 0);
        assert(first_from(t@, package_attr(), 0) == Some(package_pos as int));
        assert(occurs(t@, package_attr(), package_pos as int));
        assert(package_attr().len() == 9);
        assert(package_pos + 9 <= t@.len());
        assert(t@.len() == t.len());
    }
    let quote: Vec<char> = vec!['"'];
    assert(quote@ =~= seq!['"']);
    let value_end = find_chars_from(t.as_slice(), quote.as_slice(), package_pos + 9)?;
    proof {
        lemma_first_from(t@, seq!['"'], package_pos + 9);
    }
    Some(string_from_chars(&t.as_slice()[package_pos + 9..value_end]))
}

fn read_binary_manifest_package(bytes: &[u8]) -> (r: Option<String>)
    ensures
        crate::chars::opt_str(r) == binary_manifest_package(bytes@),
{
    let needle: Vec<u8> = vec![0x70, 0x61, 0x63, 0x6b, 0x61, 0x67, 0x65];
    assert(needle@ =~= package_bytes());
    let pos = find_bytes_from(bytes, needle.as_slice(), 0)?;
    proof {
        lemma_first_from(bytes@, package_bytes(), 0);
        assert(first_from(bytes@, package_bytes(), 0) == Some(pos as int));
        assert(occurs(bytes@, package_bytes(), pos as int));
        assert(package_bytes().len() == 7);
        assert(pos + 7 <= bytes@.len());
        assert(bytes@.len() == bytes.len());
    }
    let mut start = pos + 7;
    while start < bytes.len() && !((0x30 <= bytes[start] && bytes[start] <= 0x39)
        || (0x41 <= bytes[start] && bytes[start] <= 0x5a) || (0x61 <= bytes[start] && bytes[start] <= 0x7a))
        invariant
            pos + 7 <= start,
            first_alnum_from(bytes@, pos + 7) == first_alnum_from(bytes@, start as int),
        decreases bytes.len() - start,
    {
        start = start + 1;
    }
    if start >= bytes.len() {
        return None;
    }
    let mut end = start;
    let mut has_dot = false;
    while end < bytes.len() && ((0x30 <= bytes[end] && bytes[end] <= 0x39) || (0x41 <= bytes[end] && bytes[end] <= 0x5a)
        || (0x61 <= bytes[end] && bytes[end] <= 0x7a) || bytes[end] == 0x2e || bytes[end] == 0x5f)
        invariant
            start <= end <= bytes@.len(),
            package_end_from(bytes@, start as int) == package_end_from(bytes@, end as int),
            has_dot == bytes@.subrange(start as int, end as int).contains(0x2eu8),
            forall|k: int| start <= k < end ==> is_package_byte(#[trigger] bytes@[k]),
        decreases bytes.len() - end,
    {
        let ghost prev = bytes@.subrange(start as int, end as int);
        if bytes[end] == 0x2e {
            has_dot = true;
        }
        end = end + 1;
        proof {
            let next = bytes@.subrange(start as int, end as int);
            assert(next =~= prev.push(bytes@[end - 1]));
            if !has_dot {
                assert forall|k: int| 0 <= k < next.len() implies next[k] != 0x2eu8 by {
                    if k < prev.len() {
                        assert(next[k] == prev[k]);
                    }
                }
            } else {
                if prev.contains(0x2eu8) {
                    let k = choose|k: int| 0 <= k < prev.len() && prev[k] == 0x2eu8;
                    assert(next[k] == 0x2eu8);
                } else {
                    assert(next[next.len() - 1] == 0x2eu8);
                }
            }
        }
    }
    if !has_dot {
        return None;
    }
    let mut value = String::new();
    let mut k = start;
    while k < end
        invariant
            start <= k <= end <= bytes@.len(),
            value@ == bytes@.subrange(start as int, k as int).map_values(|c: u8| c as char),
        decreases end - k,
    {
        value.push(bytes[k] as char);
        k = k + 1;
        assert(value@ =~= bytes@.subrange(start as int, k as int).map_values(|c: u8| c as char));
    }
    Some(value)
}

/// Reads the package name a manifest declares, from a text manifest (one starting with
/// `<manifest`) or, heuristically, from a binary one.
pub fn read_package_name(bytes: &[u8]) -> (r: Option<String>)
    ensures
        crate::chars::opt_str(r) == manifest_package(bytes@),
{
    let tag: [u8; 9] = [0x3c, 0x6d, 0x61, 0x6e, 0x69, 0x66, 0x65, 0x73, 0x74];
    assert(tag@ =~= manifest_tag());
    if bytes.len() >= 9 && bytes_equal(&bytes[0..9], &tag) {
        read_text_manifest_package(bytes)
    } else {
        read_binary_manifest_package(bytes)
    }
}


// ----- reading an archive -----

/// Which step of reading one archive entry failed: locating it in the archive, or reading
/// (and decompressing) its data.
#[derive(Debug, Clone, Copy, PartialEq, Eq)]
pub enum ArchiveFault {
    Archive,
    Read,
}

/// The names of the entries of the ZIP archive held in `bytes`, in index order, up to the first
/// entry that cannot be opened; with the text of the archive error that stopped the listing
/// there, if one did.
pub uninterp spec fn zip_entry_names(bytes: Seq<u8>) -> (Seq<Seq<char>>, Option<Seq<char>>);

/// The data of entry `index` of the ZIP archive held in `bytes`, or the step that failed and
/// the text of its error.
pub uninterp spec fn zip_entry_data(bytes: Seq<u8>, index: int) -> core::result::Result<Seq<u8>, (ArchiveFault, Seq<char>)>;

/// Opens `bytes` with `zip::ZipArchive::new` and calls `ZipArchive::by_index` for every entry
/// in index order, keeping `ZipFile::name`. The first `ZipError`, of the opening or of an entry,
/// ends the listing: the names taken so far are returned with its `Display` text. The contract
/// claims only that the outcome is a function of the bytes, named `zip_entry_names`.
#[verifier::external_body]
pub(crate) fn archive_entry_names(bytes: &[u8]) -> (r: (Vec<String>, Option<String>))
    ensures
        zip_entry_names(bytes@) == (strs(r.0@), match r.1 {
            Some(t) => Some(t@),
            None => None::<Seq<char>>,
        }),
{
    let mut names = Vec::new();
    let mut archive = match zip::ZipArchive::new(std::io::Cursor::new(bytes)) {
        Ok(archive) => archive,
        Err(e) => return (names, Some(e.to_string())),
    };
    for index in 0..archive.len() {
        match archive.by_index(index) {
            Ok(entry) => names.push(entry.name().to_string()),
            Err(e) => return (names, Some(e.to_string())),
        }
    }
    (names, None)
}

/// Opens `bytes` with `zip::ZipArchive::new`, takes entry `index` with `ZipArchive::by_index`
/// and reads it to the end with `std::io::Read::read_to_end`. A `ZipError` is reported as an
/// `Archive` fault, an I/O error of the read as a `Read` fault, each with its `Display` text.
/// The contract claims only that the outcome is a function of the bytes and the index, named
/// `zip_entry_data`.
#[verifier::external_body]
pub(crate) fn archive_entry_data(bytes: &[u8], index: usize) -> (r: core::result::Result<Vec<u8>, (ArchiveFault, String)>)
    ensures
        match r {
            Ok(data) => zip_entry_data(bytes@, index as int) == Ok::<Seq<u8>, (ArchiveFault, Seq<char>)>(data@),
            Err((fault, e)) => zip_entry_data(bytes@, index as int) == Err::<Seq<u8>, (ArchiveFault, Seq<char>)>((fault, e@)),
        },
{
    let archive_error = |e: zip::result::ZipError| (ArchiveFault::Archive, e.to_string());
    let mut archive = zip::ZipArchive::new(std::io::Cursor::new(bytes)).map_err(archive_error)?;
    let mut entry = archive.by_index(index).map_err(archive_error)?;
    let mut data = Vec::new();
    std::io::Read::read_to_end(&mut entry, &mut data).map_err(|e| (ArchiveFault::Read, e.to_string()))?;
    Ok(data)
}

/// The characters `AndroidManifest.xml`.
pub open spec fn manifest_entry_name() -> Seq<char> {
    seq!['A', 'n', 'd', 'r', 'o', 'i', 'd', 'M', 'a', 'n', 'i', 'f', 'e', 's', 't', '.', 'x', 'm', 'l']
}

/// What a pass over the archive entries has kept: the data of the last manifest entry, and the
/// name and data of each DEX entry in archive order.
pub struct EntryScan {
    pub manifest: Option<Seq<u8>>,
    pub dexes: Seq<(Seq<char>, Seq<u8>)>,
}

/// The pass over entries `i..` of the archive in `bytes`, whose entry names are `names`.
pub open spec fn scan_entries(bytes: Seq<u8>, names: Seq<Seq<char>>, i: nat, st: EntryScan)
    -> core::result::Result<EntryScan, (ArchiveFault, Seq<char>)>
    decreases names.len() - i,
{
    if i >= names.len() {
        Ok(st)
    } else if names[i as int] == manifest_entry_name() {
        match zip_entry_data(bytes, i as int) {
            Err(e) => Err(e),
            Ok(d) => scan_entries(bytes, names, i + 1, EntryScan { manifest: Some(d), dexes: st.dexes }),
        }
    } else if is_dex_entry_name(names[i as int]) {
        match zip_entry_data(bytes, i as int) {
            Err(e) => Err(e),
            Ok(d) => scan_entries(bytes, names, i + 1,
                EntryScan { manifest: st.manifest, dexes: st.dexes.push((names[i as int], d)) }),
        }
    } else {
        scan_entries(bytes, names, i + 1, st)
    }
}

/// The name and data of a DEX file.
pub open spec fn blob_entry(b: DexBlob) -> (Seq<char>, Seq<u8>) {
    (b.name@, b.bytes@)
}

/// The names and data of DEX files.
pub open spec fn blob_entries(v: Seq<DexBlob>) -> Seq<(Seq<char>, Seq<u8>)> {
    v.map_values(|b: DexBlob| blob_entry(b))
}

/// DEX entries paired with their multi-DEX sort key.
pub open spec fn keyed(s: Seq<(Seq<char>, Seq<u8>)>) -> Seq<(usize, (Seq<char>, Seq<u8>))> {
    s.map_values(|e: (Seq<char>, Seq<u8>)| (dex_key(e.0), e))
}

/// `a` is the APK read from `path` as part `part`, given what the pass over its entries kept:
/// its DEX files are the DEX entries stably sorted by their multi-DEX key and numbered in that
/// order, and its package is the one the last manifest entry declares.
pub open spec fn apk_from_scan(a: ApkInput, path: Seq<char>, file_name: Option<Seq<char>>, part: Seq<char>,
    st: EntryScan) -> bool {
    &&& a.path@ == path
    &&& crate::chars::opt_str(a.file_name) == file_name
    &&& a.apk_parts == 1
    &&& crate::chars::opt_str(a.package_name) == match st.manifest {
        Some(m) => manifest_package(m),
        None => None,
    }
    &&& a.dex_files@.len() == st.dexes.len()
    &&& forall|i: int| 0 <= i < a.dex_files@.len() ==> (#[trigger] a.dex_files@[i]).dex_index == i
        && a.dex_files@[i].apk_part@ == part
    &&& exists|p: Seq<int>| #[trigger] stable_sort_of(keyed(st.dexes),
        keyed(blob_entries(a.dex_files@)), p, first_before())
}

/// The error a failed entry read is reported with.
pub open spec fn entry_error_matches(e: UnocRsError, path: Seq<char>, fault: ArchiveFault, text: Seq<char>) -> bool {
    match fault {
        ArchiveFault::Archive => e matches UnocRsError::InvalidApk { path: p, reason } && p@ == path && reason@ == text,
        ArchiveFault::Read => e matches UnocRsError::Io(t) && t@ == text,
    }
}

/// The outcome of reading the APK archive in `bytes`, taken from `path`, as part `part`. The
/// entries are taken in index order: an entry that cannot be read fails the archive with its
/// error, and one that cannot be opened fails it after all entries before it were taken.
pub open spec fn apk_read_matches(r: Result<ApkInput>, path: Seq<char>, file_name: Option<Seq<char>>, part: Seq<char>,
    bytes: Seq<u8>) -> bool {
    let (names, stop) = zip_entry_names(bytes);
    match scan_entries(bytes, names, 0, EntryScan { manifest: None, dexes: Seq::empty() }) {
        Err((fault, t)) => r matches Err(e) && entry_error_matches(e, path, fault, t),
        Ok(st) => match stop {
            Some(t) => r matches Err(e) && e matches UnocRsError::InvalidApk { path: p, reason } && p@ == path
                && reason@ == t,
            None => if st.dexes.len() == 0 {
                r matches Err(e) && e matches UnocRsError::NoDexFiles(p) && p@ == path
            } else {
                r matches Ok(a) && apk_from_scan(a, path, file_name, part, st)
            },
        },
    }
}

fn entry_error(path: &str, fault: ArchiveFault, text: String) -> (e: UnocRsError)
    ensures
        entry_error_matches(e, path@, fault, text@),
{
    match fault {
        ArchiveFault::Archive => UnocRsError::InvalidApk { path: path.to_string(), reason: text },
        ArchiveFault::Read => UnocRsError::Io(text),
    }
}

/// A stable sort by the first component keeps its meaning when the second is mapped.
proof fn lemma_sort_maps<T, U>(old: Seq<(usize, T)>, new: Seq<(usize, T)>, p: Seq<int>, f: spec_fn(T) -> U)
    requires
        stable_sort_of(old, new, p, first_before::<T>()),
    ensures
        stable_sort_of(old.map_values(|e: (usize, T)| (e.0, f(e.1))), new.map_values(|e: (usize, T)| (e.0, f(e.1))),
            p, first_before::<U>()),
{
    let mo = old.map_values(|e: (usize, T)| (e.0, f(e.1)));
    let mn = new.map_values(|e: (usize, T)| (e.0, f(e.1)));
    assert forall|i: int| 0 <= i < mn.len() implies #[trigger] mn[i] == mo[p[i]] by {
        assert(new[i] == old[p[i]]);
    }
    assert forall|i: int, j: int| 0 <= i < j < mn.len() implies !(first_before::<U>())(mn[j], mn[i]) by {
        assert(!(first_before::<T>())(new[j], new[i]));
    }
    assert forall|i: int, j: int| 0 <= i < j < mn.len() && !(first_before::<U>())(mn[i], mn[j])
        && !(first_before::<U>())(mn[j], mn[i]) implies p[i] < p[j] by {
        assert(!(first_before::<T>())(new[i], new[j]));
        assert(!(first_before::<T>())(new[j], new[i]));
    }
}


/// The data of a manifest entry kept so far, as bytes.
pub open spec fn opt_bytes(o: Option<Vec<u8>>) -> Option<Seq<u8>> {
    match o {
        Some(v) => Some(v@),
        None => None,
    }
}

/// The entry scan that `manifest` and the keyed DEX files gathered so far amount to.
pub open spec fn scan_of(manifest: Option<Vec<u8>>, blobs: Seq<(usize, DexBlob)>) -> EntryScan {
    EntryScan { manifest: opt_bytes(manifest), dexes: blobs.map_values(|e: (usize, DexBlob)| blob_entry(e.1)) }
}

fn is_manifest_entry(name: &str) -> (r: bool)
    ensures
        r == (name@ == manifest_entry_name()),
{
    let n = str_chars(name);
    let m = ['A', 'n', 'd', 'r', 'o', 'i', 'd', 'M', 'a', 'n', 'i', 'f', 'e', 's', 't', '.', 'x', 'm', 'l'];
    assert(m@ =~= manifest_entry_name());
    chars_equal(n.as_slice(), &m)
}

/// Reads the APK archive held in `bytes`, taken from `source_path` (whose last component is
/// `file_name`), as the part named `part_name`: its DEX files at the archive root in multi-DEX
/// order, and the package its manifest declares.
pub fn read_apk_part_bytes(source_path: &str, file_name: Option<String>, part_name: &str, bytes: Vec<u8>)
    -> (r: Result<ApkInput>)
    ensures
        apk_read_matches(r, source_path@, crate::chars::opt_str(file_name), part_name@, bytes@),
{
    let (names, stop) = archive_entry_names(bytes.as_slice());
    let ghost names_view = strs(names@);
    let ghost init = EntryScan { manifest: None, dexes: Seq::empty() };
    let mut manifest: Option<Vec<u8>> = None;
    let mut blobs: Vec<(usize, DexBlob)> = Vec::new();
    assert(scan_of(manifest, blobs@).dexes =~= Seq::<(Seq<char>, Seq<u8>)>::empty());
    let mut i: usize = 0;
    while i < names.len()
        invariant
            i <= names.len(),
            names_view == strs(names@),
            zip_entry_names(bytes@).0 == names_view,
            init == (EntryScan { manifest: None, dexes: Seq::empty() }),
            scan_entries(bytes@, names_view, 0, init) == scan_entries(bytes@, names_view, i as nat,
                scan_of(manifest, blobs@)),
            forall|k: int| 0 <= k < blobs@.len() ==> (#[trigger] blobs@[k]).0 == dex_key(blobs@[k].1.name@)
                && blobs@[k].1.apk_part@ == part_name@,
        decreases names.len() - i,
    {
        let name = &names[i];
        assert(name@ == names_view[i as int]);
        if is_manifest_entry(name.as_str()) {
            match archive_entry_data(bytes.as_slice(), i) {
                Ok(data) => {
                    manifest = Some(data);
                    assert(scan_of(manifest, blobs@) =~= EntryScan { manifest: opt_bytes(manifest),
                        dexes: scan_of(None, blobs@).dexes });
                },
                Err((fault, text)) => {
                    assert(scan_entries(bytes@, names_view, i as nat, scan_of(manifest, blobs@))
                        == Err::<EntryScan, (ArchiveFault, Seq<char>)>((fault, text@)));
                    return Err(entry_error(source_path, fault, text));
                },
            }
        } else if is_classes_dex_name(name.as_str()) {
            match archive_entry_data(bytes.as_slice(), i) {
                Ok(data) => {
                    proof {
                        lemma_dex_entry_key_defined(name@);
                    }
                    let key = dex_sort_key(name.as_str());
                    let ghost prev = blobs@;
                    blobs.push((key, DexBlob { apk_part: part_name.to_owned(), name: name.clone(), dex_index: 0,
                        bytes: data }));
                    assert(scan_of(manifest, blobs@).dexes =~= scan_of(manifest, prev).dexes.push(
                        (names_view[i as int], data@)));
                },
                Err((fault, text)) => {
                    assert(scan_entries(bytes@, names_view, i as nat, scan_of(manifest, blobs@))
                        == Err::<EntryScan, (ArchiveFault, Seq<char>)>((fault, text@)));
                    return Err(entry_error(source_path, fault, text));
                },
            }
        }
        i = i + 1;
    }
    let ghost st = scan_of(manifest, blobs@);
    assert(scan_entries(bytes@, names_view, 0, init) == Ok::<EntryScan, (ArchiveFault, Seq<char>)>(st));
    if let Some(t) = stop {
        return Err(UnocRsError::InvalidApk { path: source_path.to_owned(), reason: t });
    }
    if blobs.len() == 0 {
        return Err(UnocRsError::NoDexFiles(source_path.to_owned()));
    }
    let ghost unsorted = blobs@;
    sort_by_first(&mut blobs);
    let ghost sorted = blobs@;
    let ordered = seconds(blobs);
    let mut dex_files: Vec<DexBlob> = Vec::new();
    let mut k: usize = 0;
    let count = ordered.len();
    let ghost all = ordered@;
    for blob in it: ordered.into_iter()
        invariant
            it.seq() == all,
            all == sorted.map_values(|e: (usize, DexBlob)| e.1),
            dex_files@.len() == it.index(),
            k == it.index(),
            all.len() == count,
            forall|j: int| 0 <= j < dex_files@.len() ==> blob_entry(#[trigger] dex_files@[j]) == blob_entry(all[j])
                && dex_files@[j].dex_index == j && dex_files@[j].apk_part@ == all[j].apk_part@,
    {
        dex_files.push(DexBlob { apk_part: blob.apk_part, name: blob.name, dex_index: k, bytes: blob.bytes });
        k = k + 1;
    }
    proof {
        let f = |b: DexBlob| blob_entry(b);
        let p = choose|p: Seq<int>| stable_sort_of(unsorted, sorted, p, first_before::<DexBlob>());
        lemma_sort_maps(unsorted, sorted, p, f);
        let mo = unsorted.map_values(|e: (usize, DexBlob)| (e.0, f(e.1)));
        let mn = sorted.map_values(|e: (usize, DexBlob)| (e.0, f(e.1)));
        assert(mo =~= keyed(st.dexes));
        let entries = blob_entries(dex_files@);
        assert forall|j: int| 0 <= j < sorted.len() implies (#[trigger] sorted[j]).0 == dex_key(sorted[j].1.name@) by {
            let q = p[j];
            assert(sorted[j] == unsorted[q]);
        }
        assert(mn =~= keyed(entries));
        assert forall|j: int| 0 <= j < dex_files@.len() implies (#[trigger] dex_files@[j]).apk_part@ == part_name@ by {
            let q = p[j];
            assert(sorted[j] == unsorted[q]);
            assert(all[j] == sorted[j].1);
        }
    }
    let package_name = match &manifest {
        Some(m) => read_package_name(m.as_slice()),
        None => None,
    };
    Ok(ApkInput { path: source_path.to_owned(), file_name, package_name, apk_parts: 1, dex_files })
}

/// Reads the APK archive held in `bytes`, taken from `path` (whose last component is
/// `file_name`), naming its part after `file_name`, or `input.apk` when the path has none.
pub fn read_apk(path: &str, file_name: Option<String>, bytes: Vec<u8>) -> (r: Result<ApkInput>)
    ensures
        apk_read_matches(r, path@, crate::chars::opt_str(file_name), match file_name {
            Some(n) => n@,
            None => "input.apk"@,
        }, bytes@),
{
    let part = match &file_name {
        Some(n) => n.clone(),
        None => "input.apk".to_owned(),
    };
    read_apk_part_bytes(path, file_name, part.as_str(), bytes)
}

} // verus!
