//! The process memory limit: how a limit reads on the command line, how it is shown, and the
//! checks made before the address-space limit is lowered.

use vstd::prelude::*;

use crate::chars::{decimal, has_suffix, push_decimal, push_str, str_chars, trim, trim_chars};
use crate::error::{Result, UnocRsError};
use crate::input::ascii_lower;

verus! {

pub const GIB: u64 = 1073741824;

pub const MIB: u64 = 1048576;

pub const KIB: u64 = 1024;

/// A cap on the process address space, or none.
#[derive(Debug, Clone, Copy, PartialEq, Eq, Structural)]
pub struct MemoryLimit {
    bytes: Option<u64>,
}

impl View for MemoryLimit {
    type V = Option<u64>;

    closed spec fn view(&self) -> Option<u64> {
        self.bytes
    }
}

impl MemoryLimit {
    /// No cap.
    pub fn disabled() -> (r: Self)
        ensures
            r@ == None::<u64>,
    {
        MemoryLimit { bytes: None }
    }

    /// A cap of `bytes` bytes.
    pub fn from_bytes(bytes: u64) -> (r: Self)
        ensures
            r@ == Some(bytes),
    {
        MemoryLimit { bytes: Some(bytes) }
    }

    /// The cap in bytes, if there is one.
    pub fn bytes(self) -> (r: Option<u64>)
        ensures
            r == self@,
    {
        self.bytes
    }

    /// How the limit is shown: its size, or `disabled`.
    pub fn text(&self) -> (r: String)
        ensures
            r@ == limit_text(self@),
    {
        match self.bytes {
            Some(bytes) => format_bytes(bytes),
            None => {
                let mut s = String::new();
                push_str(&mut s, "disabled");
                s
            },
        }
    }
}

/// A byte count in the largest of GiB, MiB or bytes that holds it whole: `12g`, `1536m`, `100b`.
pub open spec fn bytes_text(bytes: u64) -> Seq<char> {
    if bytes % GIB == 0 {
        decimal((bytes / GIB) as nat) + "g"@
    } else if bytes % MIB == 0 {
        decimal((bytes / MIB) as nat) + "m"@
    } else {
        decimal(bytes as nat) + "b"@
    }
}

/// How a memory limit is shown.
pub open spec fn limit_text(limit: Option<u64>) -> Seq<char> {
    match limit {
        Some(bytes) => bytes_text(bytes),
        None => "disabled"@,
    }
}

/// `bytes_text(bytes)` as a `String`.
pub fn format_bytes(bytes: u64) -> (r: String)
    ensures
        r@ == bytes_text(bytes),
{
    let mut s = String::new();
    if bytes % GIB == 0 {
        push_decimal(&mut s, bytes / GIB);
        push_str(&mut s, "g");
    } else if bytes % MIB == 0 {
        push_decimal(&mut s, bytes / MIB);
        push_str(&mut s, "m");
    } else {
        push_decimal(&mut s, bytes);
        push_str(&mut s, "b");
    }
    s
}

/// A hard limit as it is shown: `unlimited` for the platform's infinity, else its size.
pub open spec fn rlimit_text(value: u64, infinity: u64) -> Seq<char> {
    if value == infinity {
        "unlimited"@
    } else {
        bytes_text(value)
    }
}

/// `rlimit_text(value, infinity)` as a `String`.
pub fn format_rlimit(value: u64, infinity: u64) -> (r: String)
    ensures
        r@ == rlimit_text(value, infinity),
{
    if value == infinity {
        let mut s = String::new();
        push_str(&mut s, "unlimited");
        s
    } else {
        format_bytes(value)
    }
}

/// What a memory-limit argument asks for, before its number is read.
#[derive(Debug, Clone, PartialEq, Eq)]
pub enum MemoryRequest {
    /// `0`, `off`, `none`, `disabled` or `unlimited`: no cap.
    Disabled,
    /// A number of units of `multiplier` bytes each; the number is still text.
    Amount { number: String, multiplier: u64 },
}

/// `s` without its underscores.
pub open spec fn without_underscores(s: Seq<char>) -> Seq<char>
    decreases s.len(),
{
    if s.len() == 0 {
        Seq::empty()
    } else if s.last() == '_' {
        without_underscores(s.drop_last())
    } else {
        without_underscores(s.drop_last()).push(s.last())
    }
}

/// The argument as it is read: trimmed, lower-cased in ASCII, without underscores.
pub open spec fn normalized_limit(value: Seq<char>) -> Seq<char> {
    without_underscores(ascii_lower(trim(value)))
}

/// The words that turn the cap off.
pub open spec fn is_disabled_word(n: Seq<char>) -> bool {
    n == "0"@ || n == "off"@ || n == "none"@ || n == "disabled"@ || n == "unlimited"@
}

/// The unit suffixes, in the order they are tried.
pub open spec fn unit_suffix(k: int) -> Seq<char> {
    if k == 0 {
        "gib"@
    } else if k == 1 {
        "gb"@
    } else if k == 2 {
        "g"@
    } else if k == 3 {
        "mib"@
    } else if k == 4 {
        "mb"@
    } else if k == 5 {
        "m"@
    } else if k == 6 {
        "kib"@
    } else if k == 7 {
        "kb"@
    } else if k == 8 {
        "k"@
    } else {
        "b"@
    }
}

/// The bytes in one unit of suffix `k`.
pub open spec fn unit_multiplier(k: int) -> u64 {
    if k <= 2 {
        GIB
    } else if k <= 5 {
        MIB
    } else if k <= 8 {
        KIB
    } else {
        1
    }
}

/// The first unit, from `k` on, that `n` ends with.
pub open spec fn first_unit(n: Seq<char>, k: nat) -> Option<int>
    decreases 10 - k,
{
    if k >= 10 {
        None
    } else if has_suffix(n, unit_suffix(k as int)) {
        Some(k as int)
    } else {
        first_unit(n, k + 1)
    }
}

/// What a memory-limit argument asks for, or the message it is refused with.
pub open spec fn memory_request(value: Seq<char>) -> core::result::Result<(bool, Seq<char>, u64), Seq<char>> {
    let n = normalized_limit(value);
    if n.len() == 0 {
        Err("memory limit cannot be empty"@)
    } else if is_disabled_word(n) {
        Ok((true, Seq::empty(), 0))
    } else {
        let (number, multiplier) = match first_unit(n, 0) {
            Some(k) => (n.take(n.len() - unit_suffix(k).len()), unit_multiplier(k)),
            None => (n, 1u64),
        };
        if number.len() == 0 {
            Err("invalid memory limit: "@ + value)
        } else {
            Ok((false, number, multiplier))
        }
    }
}

fn unit_text(k: usize) -> (r: &'static str)
    requires
        k < 10,
    ensures
        r@ == unit_suffix(k as int),
{
    proof {
        reveal_strlit("gib");
        reveal_strlit("gb");
        reveal_strlit("g");
        reveal_strlit("mib");
        reveal_strlit("mb");
        reveal_strlit("m");
        reveal_strlit("kib");
        reveal_strlit("kb");
        reveal_strlit("k");
        reveal_strlit("b");
    }
    if k == 0 {
        "gib"
    } else if k == 1 {
        "gb"
    } else if k == 2 {
        "g"
    } else if k == 3 {
        "mib"
    } else if k == 4 {
        "mb"
    } else if k == 5 {
        "m"
    } else if k == 6 {
        "kib"
    } else if k == 7 {
        "kb"
    } else if k == 8 {
        "k"
    } else {
        "b"
    }
}

fn unit_bytes(k: usize) -> (r: u64)
    ensures
        r == unit_multiplier(k as int),
{
    if k <= 2 {
        GIB
    } else if k <= 5 {
        MIB
    } else if k <= 8 {
        KIB
    } else {
        1
    }
}

fn find_unit(n: &[char]) -> (r: Option<usize>)
    ensures
        match (r, first_unit(n@, 0)) {
            (Some(k), Some(j)) => k == j && k < 10 && has_suffix(n@, unit_suffix(k as int)),
            (None, None) => true,
            _ => false,
        },
{
    let mut k: usize = 0;
    while k < 10
        invariant
            k <= 10,
            first_unit(n@, 0) == first_unit(n@, k as nat),
        decreases 10 - k,
    {
        let suffix = str_chars(unit_text(k));
        if crate::chars::chars_end_with(n, suffix.as_slice()) {
            return Some(k);
        }
        k = k + 1;
    }
    None
}

fn equals_str(v: &[char], t: &str) -> (r: bool)
    ensures
        r == (v@ == t@),
{
    let w = str_chars(t);
    crate::chars::chars_equal(v, w.as_slice())
}

/// Reads a memory-limit argument up to its number: the cap is off, or it is a number of
/// units; an empty argument, or a unit with no number before it, is refused.
pub fn memory_limit_request(value: &str) -> (r: core::result::Result<MemoryRequest, String>)
    ensures
        match (r, memory_request(value@)) {
            (Ok(MemoryRequest::Disabled), Ok((true, _, _))) => true,
            (Ok(MemoryRequest::Amount { number, multiplier }), Ok((false, n, m))) => number@ == n
                && multiplier == m,
            (Err(e), Err(t)) => e@ == t,
            _ => false,
        },
{
    let v = str_chars(value);
    let t = trim_chars(v.as_slice());
    let mut n: Vec<char> = Vec::new();
    let mut i: usize = 0;
    while i < t.len()
        invariant
            i <= t.len(),
            n@ == without_underscores(ascii_lower(t@.take(i as int))),
        decreases t.len() - i,
    {
        let c = t[i];
        let lower = if 'A' <= c && c <= 'Z' { ((c as u8) + 32) as char } else { c };
        if lower != '_' {
            n.push(lower);
        }
        proof {
            let low = ascii_lower(t@.take(i + 1));
            assert(low.drop_last() =~= ascii_lower(t@.take(i as int)));
        }
        i = i + 1;
    }
    assert(t@.take(t@.len() as int) =~= t@);
    proof {
        reveal_strlit("0");
        reveal_strlit("off");
        reveal_strlit("none");
        reveal_strlit("disabled");
        reveal_strlit("unlimited");
        reveal_strlit("memory limit cannot be empty");
    }
    if n.len() == 0 {
        let mut e = String::new();
        push_str(&mut e, "memory limit cannot be empty");
        return Err(e);
    }
    if equals_str(n.as_slice(), "0") || equals_str(n.as_slice(), "off") || equals_str(n.as_slice(), "none")
        || equals_str(n.as_slice(), "disabled") || equals_str(n.as_slice(), "unlimited") {
        return Ok(MemoryRequest::Disabled);
    }
    let unit = find_unit(n.as_slice());
    let mut number: Vec<char> = Vec::new();
    let (end, multiplier): (usize, u64) = match unit {
        Some(k) => (n.len() - str_chars(unit_text(k)).len(), unit_bytes(k)),
        None => (n.len(), 1),
    };
    let mut j: usize = 0;
    while j < end
        invariant
            j <= end <= n.len(),
            number@ == n@.take(j as int),
        decreases end - j,
    {
        number.push(n[j]);
        j = j + 1;
        assert(number@ =~= n@.take(j as int));
    }
    if number.len() == 0 {
        let mut e = String::new();
        push_str(&mut e, "invalid memory limit: ");
        push_str(&mut e, value);
        return Err(e);
    }
    Ok(MemoryRequest::Amount { number: crate::chars::string_from_chars(number.as_slice()), multiplier })
}

/// The soft limit to ask for: `bytes` itself, unless it equals the platform's "no limit" value,
/// which cannot be asked for as a cap.
pub fn requested_rlimit(bytes: u64, infinity: u64) -> (r: Result<u64>)
    ensures
        match r {
            Ok(v) => bytes != infinity && v == bytes,
            Err(e) => bytes == infinity && (e matches UnocRsError::MemoryLimitTooLarge { limit }
                && limit@ == bytes_text(bytes)),
        },
{
    if bytes == infinity {
        Err(UnocRsError::MemoryLimitTooLarge { limit: format_bytes(bytes) })
    } else {
        Ok(bytes)
    }
}

/// Refuses a cap above the process's hard limit, unless that limit is the platform's
/// "no limit" value.
pub fn check_hard_limit(bytes: u64, hard_limit: u64, infinity: u64) -> (r: Result<()>)
    ensures
        match r {
            Ok(()) => hard_limit == infinity || bytes <= hard_limit,
            Err(e) => hard_limit != infinity && bytes > hard_limit && (e matches
                UnocRsError::MemoryLimitAboveHardLimit { limit, hard_limit: h } && limit@ == bytes_text(
                bytes,
            ) && h@ == rlimit_text(hard_limit, infinity)),
        },
{
    if hard_limit != infinity && bytes > hard_limit {
        Err(
            UnocRsError::MemoryLimitAboveHardLimit {
                limit: format_bytes(bytes),
                hard_limit: format_rlimit(hard_limit, infinity),
            },
        )
    } else {
        Ok(())
    }
}

} // verus!
