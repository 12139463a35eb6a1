//! The library's error type and the text each error is reported with.

use vstd::prelude::*;

use crate::chars::{decimal, hex_padded, push_decimal, push_hex_padded, push_str};

verus! {

/// Errors produced by the library.
#[derive(Debug, Clone, PartialEq, Eq)]
pub enum UnocRsError {
    MissingInput(String),
    MissingCompareInput,
    MissingOutput,
    InvalidThresholdOrder,
    MemoryLimitTooLarge { limit: String },
    MemoryLimitUnsupported,
    MemoryLimitAboveHardLimit { limit: String, hard_limit: String },
    MemoryLimitFailed { limit: String, reason: String },
    InvalidApk { path: String, reason: String },
    NoDexFiles(String),
    UnknownInputType(String),
    NoApkParts(String),
    MissingAuditSources,
    AuditSourceDexNotFound { selectors: String },
    IncompleteAuditSource { origin: String, reason: String },
    InvalidAuditPrefix { option: String, prefix: String },
    ReferenceAuditFailed { unresolved: usize, allowed: usize, output: String },
    UnexpectedEof { offset: usize, needed: usize, len: usize },
    InvalidDexMagic,
    UnsupportedDexVersion(String),
    InvalidDexHeader { reason: String },
    InvalidLeb128 { offset: usize },
    InvalidClassData { reason: String },
    InvalidInstruction { offset_code_unit: usize, opcode: u8 },
    PackageMismatch { old: String, new: String },
    Io(String),
    Other(String),
}

pub type Result<T> = core::result::Result<T, UnocRsError>;

/// An error as a value: its variant, with each string as its characters.
pub enum ErrorView {
    MissingInput(Seq<char>),
    MissingCompareInput,
    MissingOutput,
    InvalidThresholdOrder,
    MemoryLimitTooLarge { limit: Seq<char> },
    MemoryLimitUnsupported,
    MemoryLimitAboveHardLimit { limit: Seq<char>, hard_limit: Seq<char> },
    MemoryLimitFailed { limit: Seq<char>, reason: Seq<char> },
    InvalidApk { path: Seq<char>, reason: Seq<char> },
    NoDexFiles(Seq<char>),
    UnknownInputType(Seq<char>),
    NoApkParts(Seq<char>),
    MissingAuditSources,
    AuditSourceDexNotFound { selectors: Seq<char> },
    IncompleteAuditSource { origin: Seq<char>, reason: Seq<char> },
    InvalidAuditPrefix { option: Seq<char>, prefix: Seq<char> },
    ReferenceAuditFailed { unresolved: usize, allowed: usize, output: Seq<char> },
    UnexpectedEof { offset: usize, needed: usize, len: usize },
    InvalidDexMagic,
    UnsupportedDexVersion(Seq<char>),
    InvalidDexHeader { reason: Seq<char> },
    InvalidLeb128 { offset: usize },
    InvalidClassData { reason: Seq<char> },
    InvalidInstruction { offset_code_unit: usize, opcode: u8 },
    PackageMismatch { old: Seq<char>, new: Seq<char> },
    Io(Seq<char>),
    Other(Seq<char>),
}

impl View for UnocRsError {
    type V = ErrorView;

    open spec fn view(&self) -> ErrorView {
        match self {
            UnocRsError::MissingInput(path) => ErrorView::MissingInput(path@),
            UnocRsError::MissingCompareInput => ErrorView::MissingCompareInput,
            UnocRsError::MissingOutput => ErrorView::MissingOutput,
            UnocRsError::InvalidThresholdOrder => ErrorView::InvalidThresholdOrder,
            UnocRsError::MemoryLimitTooLarge { limit } => ErrorView::MemoryLimitTooLarge { limit: limit@ },
            UnocRsError::MemoryLimitUnsupported => ErrorView::MemoryLimitUnsupported,
            UnocRsError::MemoryLimitAboveHardLimit { limit, hard_limit } => ErrorView::MemoryLimitAboveHardLimit {
                limit: limit@,
                hard_limit: hard_limit@,
            },
            UnocRsError::MemoryLimitFailed { limit, reason } => ErrorView::MemoryLimitFailed {
                limit: limit@,
                reason: reason@,
            },
            UnocRsError::InvalidApk { path, reason } => ErrorView::InvalidApk { path: path@, reason: reason@ },
            UnocRsError::NoDexFiles(path) => ErrorView::NoDexFiles(path@),
            UnocRsError::UnknownInputType(path) => ErrorView::UnknownInputType(path@),
            UnocRsError::NoApkParts(path) => ErrorView::NoApkParts(path@),
            UnocRsError::MissingAuditSources => ErrorView::MissingAuditSources,
            UnocRsError::AuditSourceDexNotFound { selectors } => ErrorView::AuditSourceDexNotFound {
                selectors: selectors@,
            },
            UnocRsError::IncompleteAuditSource { origin, reason } => ErrorView::IncompleteAuditSource {
                origin: origin@,
                reason: reason@,
            },
            UnocRsError::InvalidAuditPrefix { option, prefix } => ErrorView::InvalidAuditPrefix {
                option: option@,
                prefix: prefix@,
            },
            UnocRsError::ReferenceAuditFailed { unresolved, allowed, output } => ErrorView::ReferenceAuditFailed {
                unresolved: *unresolved,
                allowed: *allowed,
                output: output@,
            },
            UnocRsError::UnexpectedEof { offset, needed, len } => ErrorView::UnexpectedEof {
                offset: *offset,
                needed: *needed,
                len: *len,
            },
            UnocRsError::InvalidDexMagic => ErrorView::InvalidDexMagic,
            UnocRsError::UnsupportedDexVersion(version) => ErrorView::UnsupportedDexVersion(version@),
            UnocRsError::InvalidDexHeader { reason } => ErrorView::InvalidDexHeader { reason: reason@ },
            UnocRsError::InvalidLeb128 { offset } => ErrorView::InvalidLeb128 { offset: *offset },
            UnocRsError::InvalidClassData { reason } => ErrorView::InvalidClassData { reason: reason@ },
            UnocRsError::InvalidInstruction { offset_code_unit, opcode } => ErrorView::InvalidInstruction {
                offset_code_unit: *offset_code_unit,
                opcode: *opcode,
            },
            UnocRsError::PackageMismatch { old, new } => ErrorView::PackageMismatch { old: old@, new: new@ },
            UnocRsError::Io(text) => ErrorView::Io(text@),
            UnocRsError::Other(text) => ErrorView::Other(text@),
        }
    }
}

/// The escaped form of one character inside `{value:?}` text: tab, newline, carriage return,
/// quote and backslash get a backslash escape.
pub open spec fn escaped_char(c: char) -> Seq<char> {
    if c == '\t' {
        seq!['\\', 't']
    } else if c == '\n' {
        seq!['\\', 'n']
    } else if c == '\r' {
        seq!['\\', 'r']
    } else if c == '"' {
        seq!['\\', '"']
    } else if c == '\\' {
        seq!['\\', '\\']
    } else {
        seq![c]
    }
}

/// The escaped characters of `value`.
pub open spec fn escaped(value: Seq<char>) -> Seq<char>
    decreases value.len(),
{
    if value.len() == 0 {
        Seq::empty()
    } else {
        escaped(value.drop_last()) + escaped_char(value.last())
    }
}

/// The text `{value:?}` gives for a string made of whitespace: quoted, with tab, newline and
/// carriage return escaped.
pub open spec fn quoted(value: Seq<char>) -> Seq<char> {
    seq!['"'] + escaped(value) + seq!['"']
}

/// An error's text is the text of its value.
pub broadcast proof fn lemma_text_of_view(e: UnocRsError)
    ensures
        #[trigger] e.text() == e@.text(),
{
}

impl ErrorView {
    /// The text an error of this value is reported with.
    pub open spec fn text(self) -> Seq<char> {
        match self {
            ErrorView::MissingInput(path) => "input APK path does not exist: "@ + path,
            ErrorView::MissingCompareInput => "compare mode requires OLD_APK and NEW_APK"@,
            ErrorView::MissingOutput => "compare mode requires -o/--output"@,
            ErrorView::InvalidThresholdOrder =>
                "min-confidence must be greater than or equal to low-confidence"@,
            ErrorView::MemoryLimitTooLarge { limit } =>
                "memory limit is too large for this platform: "@ + limit,
            ErrorView::MemoryLimitUnsupported =>
                "process memory limits are not supported on this platform; use --memory-limit 0"@,
            ErrorView::MemoryLimitAboveHardLimit { limit, hard_limit } =>
                "memory limit "@ + limit + " is above the process hard limit "@ + hard_limit,
            ErrorView::MemoryLimitFailed { limit, reason } =>
                "failed to set memory limit to "@ + limit + ": "@ + reason,
            ErrorView::InvalidApk { path, reason } => "file is not a readable APK/ZIP: "@ + path,
            ErrorView::NoDexFiles(path) => "no DEX files found in "@ + path,
            ErrorView::UnknownInputType(path) => "input type cannot be recognized: "@ + path,
            ErrorView::NoApkParts(path) => "no APK parts found in input: "@ + path,
            ErrorView::MissingAuditSources =>
                "audit-refs requires at least one --source-dex or --references input"@,
            ErrorView::AuditSourceDexNotFound { selectors } =>
                "audit source DEX selector(s) did not match the target bundle: "@ + selectors,
            ErrorView::IncompleteAuditSource { origin, reason } =>
                "cannot audit "@ + origin + ": incomplete DEX parsing: "@ + reason,
            ErrorView::InvalidAuditPrefix { option, prefix } =>
                "invalid empty "@ + option + " value: "@ + quoted(prefix),
            ErrorView::ReferenceAuditFailed { unresolved, allowed, output } =>
                "reference audit found "@ + decimal(unresolved as nat) + " unresolved site(s), allowed "@
                    + decimal(allowed as nat) + "; reports: "@ + output,
            ErrorView::UnexpectedEof { offset, needed, len } =>
                "unexpected end of DEX at offset "@ + decimal(offset as nat) + "; needed "@
                    + decimal(needed as nat) + " bytes, file length is "@ + decimal(len as nat),
            ErrorView::InvalidDexMagic => "invalid DEX magic"@,
            ErrorView::UnsupportedDexVersion(version) => "unsupported DEX version: "@ + version,
            ErrorView::InvalidDexHeader { reason } => "invalid DEX header: "@ + reason,
            ErrorView::InvalidLeb128 { offset } =>
                "invalid LEB128 value at offset "@ + decimal(offset as nat),
            ErrorView::InvalidClassData { reason } => "invalid encoded class data: "@ + reason,
            ErrorView::InvalidInstruction { offset_code_unit, opcode } =>
                "invalid instruction at code-unit offset "@ + decimal(offset_code_unit as nat)
                    + ", opcode 0x"@ + hex_padded(opcode as nat, 2),
            ErrorView::PackageMismatch { old, new } =>
                "package names differ: "@ + old + " vs "@ + new
                    + "\nhint: use --no-strict-package if these APKs are still related"@,
            ErrorView::Io(text) => text,
            ErrorView::Other(text) => text,
        }
    }
}

impl UnocRsError {
    /// The text this error is reported with.
    pub open spec fn text(&self) -> Seq<char> {
        match self {
            UnocRsError::MissingInput(path) => "input APK path does not exist: "@ + path@,
            UnocRsError::MissingCompareInput => "compare mode requires OLD_APK and NEW_APK"@,
            UnocRsError::MissingOutput => "compare mode requires -o/--output"@,
            UnocRsError::InvalidThresholdOrder =>
                "min-confidence must be greater than or equal to low-confidence"@,
            UnocRsError::MemoryLimitTooLarge { limit } =>
                "memory limit is too large for this platform: "@ + limit@,
            UnocRsError::MemoryLimitUnsupported =>
                "process memory limits are not supported on this platform; use --memory-limit 0"@,
            UnocRsError::MemoryLimitAboveHardLimit { limit, hard_limit } =>
                "memory limit "@ + limit@ + " is above the process hard limit "@ + hard_limit@,
            UnocRsError::MemoryLimitFailed { limit, reason } =>
                "failed to set memory limit to "@ + limit@ + ": "@ + reason@,
            UnocRsError::InvalidApk { path, reason } => "file is not a readable APK/ZIP: "@ + path@,
            UnocRsError::NoDexFiles(path) => "no DEX files found in "@ + path@,
            UnocRsError::UnknownInputType(path) => "input type cannot be recognized: "@ + path@,
            UnocRsError::NoApkParts(path) => "no APK parts found in input: "@ + path@,
            UnocRsError::MissingAuditSources =>
                "audit-refs requires at least one --source-dex or --references input"@,
            UnocRsError::AuditSourceDexNotFound { selectors } =>
                "audit source DEX selector(s) did not match the target bundle: "@ + selectors@,
            UnocRsError::IncompleteAuditSource { origin, reason } =>
                "cannot audit "@ + origin@ + ": incomplete DEX parsing: "@ + reason@,
            UnocRsError::InvalidAuditPrefix { option, prefix } =>
                "invalid empty "@ + option@ + " value: "@ + quoted(prefix@),
            UnocRsError::ReferenceAuditFailed { unresolved, allowed, output } =>
                "reference audit found "@ + decimal(*unresolved as nat) + " unresolved site(s), allowed "@
                    + decimal(*allowed as nat) + "; reports: "@ + output@,
            UnocRsError::UnexpectedEof { offset, needed, len } =>
                "unexpected end of DEX at offset "@ + decimal(*offset as nat) + "; needed "@
                    + decimal(*needed as nat) + " bytes, file length is "@ + decimal(*len as nat),
            UnocRsError::InvalidDexMagic => "invalid DEX magic"@,
            UnocRsError::UnsupportedDexVersion(version) => "unsupported DEX version: "@ + version@,
            UnocRsError::InvalidDexHeader { reason } => "invalid DEX header: "@ + reason@,
            UnocRsError::InvalidLeb128 { offset } =>
                "invalid LEB128 value at offset "@ + decimal(*offset as nat),
            UnocRsError::InvalidClassData { reason } => "invalid encoded class data: "@ + reason@,
            UnocRsError::InvalidInstruction { offset_code_unit, opcode } =>
                "invalid instruction at code-unit offset "@ + decimal(*offset_code_unit as nat)
                    + ", opcode 0x"@ + hex_padded(*opcode as nat, 2),
            UnocRsError::PackageMismatch { old, new } =>
                "package names differ: "@ + old@ + " vs "@ + new@
                    + "\nhint: use --no-strict-package if these APKs are still related"@,
            UnocRsError::Io(text) => text@,
            UnocRsError::Other(text) => text@,
        }
    }

    /// The text this error is reported with.
    pub fn message(&self) -> (r: String)
        ensures
            r@ == self.text(),
    {
        let mut s = String::new();
        match self {
            UnocRsError::MissingInput(path) => {
                push_str(&mut s, "input APK path does not exist: ");
                push_str(&mut s, path.as_str());
            },
            UnocRsError::MissingCompareInput => {
                push_str(&mut s, "compare mode requires OLD_APK and NEW_APK");
            },
            UnocRsError::MissingOutput => {
                push_str(&mut s, "compare mode requires -o/--output");
            },
            UnocRsError::InvalidThresholdOrder => {
                push_str(&mut s, "min-confidence must be greater than or equal to low-confidence");
            },
            UnocRsError::MemoryLimitTooLarge { limit } => {
                push_str(&mut s, "memory limit is too large for this platform: ");
                push_str(&mut s, limit.as_str());
            },
            UnocRsError::MemoryLimitUnsupported => {
                push_str(&mut s, "process memory limits are not supported on this platform; use --memory-limit 0");
            },
            UnocRsError::MemoryLimitAboveHardLimit { limit, hard_limit } => {
                push_str(&mut s, "memory limit ");
                push_str(&mut s, limit.as_str());
                push_str(&mut s, " is above the process hard limit ");
                push_str(&mut s, hard_limit.as_str());
            },
            UnocRsError::MemoryLimitFailed { limit, reason } => {
                push_str(&mut s, "failed to set memory limit to ");
                push_str(&mut s, limit.as_str());
                push_str(&mut s, ": ");
                push_str(&mut s, reason.as_str());
            },
            UnocRsError::InvalidApk { path, reason } => {
                push_str(&mut s, "file is not a readable APK/ZIP: ");
                push_str(&mut s, path.as_str());
            },
            UnocRsError::NoDexFiles(path) => {
                push_str(&mut s, "no DEX files found in ");
                push_str(&mut s, path.as_str());
            },
            UnocRsError::UnknownInputType(path) => {
                push_str(&mut s, "input type cannot be recognized: ");
                push_str(&mut s, path.as_str());
            },
            UnocRsError::NoApkParts(path) => {
                push_str(&mut s, "no APK parts found in input: ");
                push_str(&mut s, path.as_str());
            },
            UnocRsError::MissingAuditSources => {
                push_str(&mut s, "audit-refs requires at least one --source-dex or --references input");
            },
            UnocRsError::AuditSourceDexNotFound { selectors } => {
                push_str(&mut s, "audit source DEX selector(s) did not match the target bundle: ");
                push_str(&mut s, selectors.as_str());
            },
            UnocRsError::IncompleteAuditSource { origin, reason } => {
                push_str(&mut s, "cannot audit ");
                push_str(&mut s, origin.as_str());
                push_str(&mut s, ": incomplete DEX parsing: ");
                push_str(&mut s, reason.as_str());
            },
            UnocRsError::InvalidAuditPrefix { option, prefix } => {
                push_str(&mut s, "invalid empty ");
                push_str(&mut s, option.as_str());
                push_str(&mut s, " value: ");
                push_quoted(&mut s, prefix.as_str());
            },
            UnocRsError::ReferenceAuditFailed { unresolved, allowed, output } => {
                push_str(&mut s, "reference audit found ");
                push_decimal(&mut s, *unresolved as u64);
                push_str(&mut s, " unresolved site(s), allowed ");
                push_decimal(&mut s, *allowed as u64);
                push_str(&mut s, "; reports: ");
                push_str(&mut s, output.as_str());
            },
            UnocRsError::UnexpectedEof { offset, needed, len } => {
                push_str(&mut s, "unexpected end of DEX at offset ");
                push_decimal(&mut s, *offset as u64);
                push_str(&mut s, "; needed ");
                push_decimal(&mut s, *needed as u64);
                push_str(&mut s, " bytes, file length is ");
                push_decimal(&mut s, *len as u64);
            },
            UnocRsError::InvalidDexMagic => {
                push_str(&mut s, "invalid DEX magic");
            },
            UnocRsError::UnsupportedDexVersion(version) => {
                push_str(&mut s, "unsupported DEX version: ");
                push_str(&mut s, version.as_str());
            },
            UnocRsError::InvalidDexHeader { reason } => {
                push_str(&mut s, "invalid DEX header: ");
                push_str(&mut s, reason.as_str());
            },
            UnocRsError::InvalidLeb128 { offset } => {
                push_str(&mut s, "invalid LEB128 value at offset ");
                push_decimal(&mut s, *offset as u64);
            },
            UnocRsError::InvalidClassData { reason } => {
                push_str(&mut s, "invalid encoded class data: ");
                push_str(&mut s, reason.as_str());
            },
            UnocRsError::InvalidInstruction { offset_code_unit, opcode } => {
                push_str(&mut s, "invalid instruction at code-unit offset ");
                push_decimal(&mut s, *offset_code_unit as u64);
                push_str(&mut s, ", opcode 0x");
                push_hex_padded(&mut s, *opcode as u64, 2);
            },
            UnocRsError::PackageMismatch { old, new } => {
                push_str(&mut s, "package names differ: ");
                push_str(&mut s, old.as_str());
                push_str(&mut s, " vs ");
                push_str(&mut s, new.as_str());
                push_str(&mut s, "\nhint: use --no-strict-package if these APKs are still related");
            },
            UnocRsError::Io(text) => {
                push_str(&mut s, text.as_str());
            },
            UnocRsError::Other(text) => {
                push_str(&mut s, text.as_str());
            },
        }
        s
    }
}

/// Appends `quoted(value)` to `s`.
pub fn push_quoted(s: &mut String, value: &str)
    ensures
        final(s)@ == old(s)@ + quoted(value@),
{
    let v = crate::chars::str_chars(value);
    let ghost start = s@;
    s.push('"');
    let mut i: usize = 0;
    while i < v.len()
        invariant
            i <= v.len(),
            v@ == value@,
            s@ == start + seq!['"'] + escaped(v@.take(i as int)),
        decreases v.len() - i,
    {
        let c = v[i];
        if c == '\t' {
            s.push('\\');
            s.push('t');
        } else if c == '\n' {
            s.push('\\');
            s.push('n');
        } else if c == '\r' {
            s.push('\\');
            s.push('r');
        } else if c == '"' {
            s.push('\\');
            s.push('"');
        } else if c == '\\' {
            s.push('\\');
            s.push('\\');
        } else {
            s.push(c);
        }
        proof {
            let t = v@.take(i + 1);
            assert(t.drop_last() =~= v@.take(i as int));
        }
        i = i + 1;
    }
    s.push('"');
    assert(v@.take(v@.len() as int) =~= v@);
}

} // verus!
