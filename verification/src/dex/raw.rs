//! The raw tables of a DEX file: header, string, type, prototype, field, method and class
//! tables, and the code items of the methods classes define.

use std::collections::BTreeMap;

use vstd::prelude::*;

use crate::chars::{copy_string, copy_strings, decimal, decode_lossy, hex_padded, push_decimal,
    push_hex_padded, push_str, strs, utf8_lossy};
use crate::dex::class_data::{class_data_at, parse_class_data, EncodedClassData, EncodedField,
    EncodedMethod};
use crate::dex::instructions::{summarize_code_units, summary_of, walk_from, walk_start,
    InstructionSummary, Walk};
use crate::dex::leb128::{leb_at, read_uleb128};
use crate::dex::reader::{dex_magic_shape, in_bounds, read_dex_version, supported_version,
    u16_at, u32_at, version_bytes};
use crate::error::{ErrorView, Result, UnocRsError};

verus! {

broadcast use vstd::std_specs::btree::group_btree_axioms, vstd::laws_cmp::group_laws_cmp, crate::error::lemma_text_of_view;

/// A parse outcome in the specification: the value, or the error parsing stops at.
pub type Outcome<T> = core::result::Result<T, ErrorView>;

/// The DEX header fields this parser uses.
#[derive(Debug, Clone, PartialEq, Eq)]
pub struct DexHeader {
    pub version: String,
    pub file_size: u32,
    pub header_size: u32,
    pub endian_tag: u32,
    pub string_ids_size: u32,
    pub string_ids_off: u32,
    pub type_ids_size: u32,
    pub type_ids_off: u32,
    pub proto_ids_size: u32,
    pub proto_ids_off: u32,
    pub field_ids_size: u32,
    pub field_ids_off: u32,
    pub method_ids_size: u32,
    pub method_ids_off: u32,
    pub class_defs_size: u32,
    pub class_defs_off: u32,
}

/// A method prototype.
#[derive(Debug, Clone, PartialEq, Eq)]
pub struct ProtoId {
    pub shorty: String,
    pub return_type: String,
    pub parameters: Vec<String>,
}

/// A field reference.
#[derive(Debug, Clone, PartialEq, Eq)]
pub struct FieldId {
    pub class_type: String,
    pub field_type: String,
    pub name: String,
}

/// A method reference.
#[derive(Debug, Clone, PartialEq, Eq)]
pub struct MethodId {
    pub class_type: String,
    pub name: String,
    pub proto: ProtoId,
}

/// A class definition.
#[derive(Debug, Clone, PartialEq, Eq)]
pub struct ClassDef {
    pub class_type: String,
    pub access_flags: u32,
    pub superclass: Option<String>,
    pub interfaces: Vec<String>,
    pub source_file: Option<String>,
    pub class_data_off: u32,
    pub class_data: Option<EncodedClassData>,
}

/// A method body: its header and the summary of its instructions.
#[derive(Debug, Clone, PartialEq, Eq)]
pub struct CodeItem {
    pub registers_size: u16,
    pub ins_size: u16,
    pub outs_size: u16,
    pub tries_size: u16,
    pub debug_info_off: u32,
    pub insns_size: u32,
    pub instruction_summary: InstructionSummary,
}

/// What a code item that could not be parsed is reported as.
#[derive(Debug, Clone, PartialEq, Eq)]
pub struct ParseWarning {
    pub origin: String,
    pub kind: ParseWarningKind,
    pub message: String,
}

#[derive(Debug, Clone, Copy, PartialEq, Eq)]
pub enum ParseWarningKind {
    DexSkipped,
    ClassData,
    CodeItem,
    Instruction,
    Reference,
}

/// Every table of one DEX file.
#[derive(Debug, Clone, PartialEq, Eq)]
pub struct RawDex {
    pub header: DexHeader,
    pub strings: Vec<String>,
    pub types: Vec<String>,
    pub protos: Vec<ProtoId>,
    pub fields: Vec<FieldId>,
    pub methods: Vec<MethodId>,
    pub classes: Vec<ClassDef>,
    pub code_items: BTreeMap<u32, CodeItem>,
    pub warnings: Vec<ParseWarning>,
}

// ----- views -----

pub struct HeaderView {
    pub version: Seq<char>,
    pub file_size: u32,
    pub header_size: u32,
    pub endian_tag: u32,
    pub string_ids_size: u32,
    pub string_ids_off: u32,
    pub type_ids_size: u32,
    pub type_ids_off: u32,
    pub proto_ids_size: u32,
    pub proto_ids_off: u32,
    pub field_ids_size: u32,
    pub field_ids_off: u32,
    pub method_ids_size: u32,
    pub method_ids_off: u32,
    pub class_defs_size: u32,
    pub class_defs_off: u32,
}

impl View for DexHeader {
    type V = HeaderView;

    open spec fn view(&self) -> HeaderView {
        HeaderView {
            version: self.version@,
            file_size: self.file_size,
            header_size: self.header_size,
            endian_tag: self.endian_tag,
            string_ids_size: self.string_ids_size,
            string_ids_off: self.string_ids_off,
            type_ids_size: self.type_ids_size,
            type_ids_off: self.type_ids_off,
            proto_ids_size: self.proto_ids_size,
            proto_ids_off: self.proto_ids_off,
            field_ids_size: self.field_ids_size,
            field_ids_off: self.field_ids_off,
            method_ids_size: self.method_ids_size,
            method_ids_off: self.method_ids_off,
            class_defs_size: self.class_defs_size,
            class_defs_off: self.class_defs_off,
        }
    }
}

pub struct ProtoView {
    pub shorty: Seq<char>,
    pub return_type: Seq<char>,
    pub parameters: Seq<Seq<char>>,
}

impl View for ProtoId {
    type V = ProtoView;

    open spec fn view(&self) -> ProtoView {
        ProtoView { shorty: self.shorty@, return_type: self.return_type@, parameters: strs(self.parameters@) }
    }
}

pub struct FieldView {
    pub class_type: Seq<char>,
    pub field_type: Seq<char>,
    pub name: Seq<char>,
}

impl View for FieldId {
    type V = FieldView;

    open spec fn view(&self) -> FieldView {
        FieldView { class_type: self.class_type@, field_type: self.field_type@, name: self.name@ }
    }
}

pub struct MethodView {
    pub class_type: Seq<char>,
    pub name: Seq<char>,
    pub proto: ProtoView,
}

impl View for MethodId {
    type V = MethodView;

    open spec fn view(&self) -> MethodView {
        MethodView { class_type: self.class_type@, name: self.name@, proto: self.proto@ }
    }
}

/// The four member lists of a class data item.
pub type ClassDataView = (Seq<EncodedField>, Seq<EncodedField>, Seq<EncodedMethod>, Seq<EncodedMethod>);

impl View for EncodedClassData {
    type V = ClassDataView;

    open spec fn view(&self) -> ClassDataView {
        (self.static_fields@, self.instance_fields@, self.direct_methods@, self.virtual_methods@)
    }
}

pub struct ClassView {
    pub class_type: Seq<char>,
    pub access_flags: u32,
    pub superclass: Option<Seq<char>>,
    pub interfaces: Seq<Seq<char>>,
    pub source_file: Option<Seq<char>>,
    pub class_data_off: u32,
    pub class_data: Option<ClassDataView>,
}

impl View for ClassDef {
    type V = ClassView;

    open spec fn view(&self) -> ClassView {
        ClassView {
            class_type: self.class_type@,
            access_flags: self.access_flags,
            superclass: crate::chars::opt_str(self.superclass),
            interfaces: strs(self.interfaces@),
            source_file: crate::chars::opt_str(self.source_file),
            class_data_off: self.class_data_off,
            class_data: match self.class_data {
                Some(d) => Some(d@),
                None => None,
            },
        }
    }
}

/// The header fields of a code item, and the walk over its instructions.
pub struct CodeView {
    pub registers_size: u16,
    pub ins_size: u16,
    pub outs_size: u16,
    pub tries_size: u16,
    pub debug_info_off: u32,
    pub insns_size: u32,
    pub walk: Walk,
}

/// `c` holds the code item `v` describes.
pub open spec fn code_item_matches(c: CodeItem, v: CodeView) -> bool {
    &&& c.registers_size == v.registers_size
    &&& c.ins_size == v.ins_size
    &&& c.outs_size == v.outs_size
    &&& c.tries_size == v.tries_size
    &&& c.debug_info_off == v.debug_info_off
    &&& c.insns_size == v.insns_size
    &&& summary_of(c.instruction_summary, v.walk)
}

pub struct WarningView {
    pub origin: Seq<char>,
    pub kind: ParseWarningKind,
    pub message: Seq<char>,
}

impl View for ParseWarning {
    type V = WarningView;

    open spec fn view(&self) -> WarningView {
        WarningView { origin: self.origin@, kind: self.kind, message: self.message@ }
    }
}

pub open spec fn protos_view(v: Seq<ProtoId>) -> Seq<ProtoView> {
    v.map_values(|p: ProtoId| p@)
}

pub open spec fn fields_view(v: Seq<FieldId>) -> Seq<FieldView> {
    v.map_values(|p: FieldId| p@)
}

pub open spec fn methods_view(v: Seq<MethodId>) -> Seq<MethodView> {
    v.map_values(|p: MethodId| p@)
}

pub open spec fn classes_view(v: Seq<ClassDef>) -> Seq<ClassView> {
    v.map_values(|p: ClassDef| p@)
}

pub open spec fn warnings_view(v: Seq<ParseWarning>) -> Seq<WarningView> {
    v.map_values(|p: ParseWarning| p@)
}

// ----- reading at 64-bit offsets -----

/// The end-of-buffer error for a read of `len` bytes at `off`.
pub open spec fn eof_view(off: int, len: int, total: int) -> ErrorView {
    ErrorView::UnexpectedEof { offset: off as usize, needed: len as usize, len: total as usize }
}

/// Reading the `u16` at `off`.
pub open spec fn read16(b: Seq<u8>, off: int) -> Outcome<u16> {
    if in_bounds(b, off, 2) { Ok(u16_at(b, off)) } else { Err(eof_view(off, 2, b.len() as int)) }
}

/// Reading the `u32` at `off`.
pub open spec fn read32(b: Seq<u8>, off: int) -> Outcome<u32> {
    if in_bounds(b, off, 4) { Ok(u32_at(b, off)) } else { Err(eof_view(off, 4, b.len() as int)) }
}

fn eof(off: u64, len: u64, total: usize) -> (e: UnocRsError)
    ensures
        e@ == eof_view(off as int, len as int, total as int),
{
    UnocRsError::UnexpectedEof { offset: off as usize, needed: len as usize, len: total }
}

fn read16_at(bytes: &[u8], off: u64) -> (r: Result<u16>)
    ensures
        match read16(bytes@, off as int) {
            Ok(v) => r == Ok::<u16, UnocRsError>(v),
            Err(t) => r matches Err(e) && e@ == t,
        },
{
    let len = bytes.len() as u64;
    if len < 2 || off > len - 2 {
        return Err(eof(off, 2, bytes.len()));
    }
    let o = off as usize;
    let v: u16 = (bytes[o] as u16) + 256 * (bytes[o + 1] as u16);
    Ok(v)
}

fn read32_at(bytes: &[u8], off: u64) -> (r: Result<u32>)
    ensures
        match read32(bytes@, off as int) {
            Ok(v) => r == Ok::<u32, UnocRsError>(v),
            Err(t) => r matches Err(e) && e@ == t,
        },
{
    let len = bytes.len() as u64;
    if len < 4 || off > len - 4 {
        return Err(eof(off, 4, bytes.len()));
    }
    let o = off as usize;
    let v: u32 = (bytes[o] as u32) + 256 * (bytes[o + 1] as u32) + 65536 * (bytes[o + 2] as u32)
        + 16777216 * (bytes[o + 3] as u32);
    Ok(v)
}

} // verus!

verus! {

/// Checking the magic of a DEX buffer: the version text, or the error text.
pub open spec fn version_outcome(b: Seq<u8>) -> Outcome<Seq<char>> {
    if b.len() < 8 {
        Err(eof_view(0, 8, b.len() as int))
    } else if !dex_magic_shape(b) || !vstd::utf8::valid_utf8(version_bytes(b)) {
        Err(ErrorView::InvalidDexMagic)
    } else if supported_version(version_bytes(b)) {
        Ok(vstd::utf8::decode_utf8(version_bytes(b)))
    } else {
        Err(ErrorView::UnsupportedDexVersion(vstd::utf8::decode_utf8(version_bytes(b))))
    }
}

/// The offset of the first header field that does not fit in a buffer of `len` bytes, for
/// `8 <= len < 104`: the fields are read at 32, 36, 40 and 56 to 100.
pub open spec fn first_missing_header_field(len: int) -> int {
    if len < 36 {
        32
    } else if len < 40 {
        36
    } else if len < 44 {
        40
    } else if len < 60 {
        56
    } else {
        len - len % 4
    }
}

/// Parsing the DEX header: the header fields, or the error text.
pub open spec fn header_outcome(b: Seq<u8>) -> Outcome<HeaderView> {
    match version_outcome(b) {
        Err(t) => Err(t),
        Ok(v) => if b.len() < 104 {
            Err(eof_view(first_missing_header_field(b.len() as int), 4, b.len() as int))
        } else {
            let h = HeaderView {
                version: v,
                file_size: u32_at(b, 32),
                header_size: u32_at(b, 36),
                endian_tag: u32_at(b, 40),
                string_ids_size: u32_at(b, 56),
                string_ids_off: u32_at(b, 60),
                type_ids_size: u32_at(b, 64),
                type_ids_off: u32_at(b, 68),
                proto_ids_size: u32_at(b, 72),
                proto_ids_off: u32_at(b, 76),
                field_ids_size: u32_at(b, 80),
                field_ids_off: u32_at(b, 84),
                method_ids_size: u32_at(b, 88),
                method_ids_off: u32_at(b, 92),
                class_defs_size: u32_at(b, 96),
                class_defs_off: u32_at(b, 100),
            };
            if h.header_size != 112 {
                Err(ErrorView::InvalidDexHeader { reason: "header_size is "@ + decimal(h.header_size as nat) + ", expected 112"@ })
            } else if h.endian_tag != 0x12345678 {
                Err(ErrorView::InvalidDexHeader { reason: "unsupported endian tag 0x"@ + hex_padded(h.endian_tag as nat, 8) })
            } else if h.file_size > b.len() {
                Err(ErrorView::InvalidDexHeader {
                    reason: "file_size "@ + decimal(h.file_size as nat) + " exceeds buffer length "@ + decimal(b.len()),
                })
            } else {
                Ok(h)
            }
        },
    }
}

fn u32_le(bytes: &[u8], off: usize) -> (v: u32)
    requires
        off + 4 <= bytes@.len(),
    ensures
        v == u32_at(bytes@, off as int),
{
    (bytes[off] as u32) + 256 * (bytes[off + 1] as u32) + 65536 * (bytes[off + 2] as u32)
        + 16777216 * (bytes[off + 3] as u32)
}

fn header_error(reason: String) -> (e: UnocRsError)
    ensures
        e@ == (ErrorView::InvalidDexHeader { reason: reason@ }),
{
    UnocRsError::InvalidDexHeader { reason }
}

#[verifier::rlimit(40)]
fn parse_header(bytes: &[u8]) -> (r: Result<DexHeader>)
    ensures
        match header_outcome(bytes@) {
            Ok(h) => r matches Ok(v) && v@ == h,
            Err(t) => r matches Err(e) && e@ == t,
        },
{
    let version = match read_dex_version(bytes) {
        Ok(v) => v,
        Err(e) => {
            proof {
                reveal_strlit("invalid DEX magic");
            }
            return Err(e);
        },
    };
    assert(version_outcome(bytes@) == Ok::<Seq<char>, ErrorView>(version@));
    assert(bytes@.len() >= 8);
    if bytes.len() < 104 {
        let len = bytes.len();
        let off: u64 = if len < 36 {
            32
        } else if len < 40 {
            36
        } else if len < 44 {
            40
        } else if len < 60 {
            56
        } else {
            (len - len % 4) as u64
        };
        return Err(eof(off, 4, len));
    }
    let file_size = u32_le(bytes, 32);
    let header_size = u32_le(bytes, 36);
    let endian_tag = u32_le(bytes, 40);
    let string_ids_size = u32_le(bytes, 56);
    let string_ids_off = u32_le(bytes, 60);
    let type_ids_size = u32_le(bytes, 64);
    let type_ids_off = u32_le(bytes, 68);
    let proto_ids_size = u32_le(bytes, 72);
    let proto_ids_off = u32_le(bytes, 76);
    let field_ids_size = u32_le(bytes, 80);
    let field_ids_off = u32_le(bytes, 84);
    let method_ids_size = u32_le(bytes, 88);
    let method_ids_off = u32_le(bytes, 92);
    let class_defs_size = u32_le(bytes, 96);
    let class_defs_off = u32_le(bytes, 100);
    let header = DexHeader {
        version,
        file_size,
        header_size,
        endian_tag,
        string_ids_size,
        string_ids_off,
        type_ids_size,
        type_ids_off,
        proto_ids_size,
        proto_ids_off,
        field_ids_size,
        field_ids_off,
        method_ids_size,
        method_ids_off,
        class_defs_size,
        class_defs_off,
    };
    if header.header_size != 112 {
        let mut reason = String::new();
        push_str(&mut reason, "header_size is ");
        push_decimal(&mut reason, header.header_size as u64);
        push_str(&mut reason, ", expected 112");
        assert(reason@ =~= "header_size is "@ + decimal(header.header_size as nat) + ", expected 112"@);
        let e = header_error(reason);
        return Err(e);
    }
    if header.endian_tag != 0x12345678 {
        let mut reason = String::new();
        push_str(&mut reason, "unsupported endian tag 0x");
        push_hex_padded(&mut reason, header.endian_tag as u64, 8);
        assert(reason@ =~= "unsupported endian tag 0x"@ + hex_padded(header.endian_tag as nat, 8));
        let e = header_error(reason);
        return Err(e);
    }
    if header.file_size as usize > bytes.len() {
        let mut reason = String::new();
        push_str(&mut reason, "file_size ");
        push_decimal(&mut reason, header.file_size as u64);
        push_str(&mut reason, " exceeds buffer length ");
        push_decimal(&mut reason, bytes.len() as u64);
        assert(reason@ =~= "file_size "@ + decimal(header.file_size as nat) + " exceeds buffer length "@ + decimal(
            bytes@.len(),
        ));
        let e = header_error(reason);
        return Err(e);
    }
    Ok(header)
}

} // verus!

verus! {

/// The index of the first zero byte at or after `start`, or the buffer length when there is none.
pub open spec fn zero_from(b: Seq<u8>, start: int) -> int
    decreases b.len() - start,
{
    if start < 0 || start >= b.len() {
        b.len() as int
    } else if b[start] == 0 {
        start
    } else {
        zero_from(b, start + 1)
    }
}

/// The string table from entry `i` on, after the strings `acc`: entry `i` holds the offset of
/// the string data, a LEB128 length followed by the bytes up to the terminating zero byte,
/// which are decoded as UTF-8, replacing malformed sequences.
pub open spec fn strings_from(b: Seq<u8>, h: HeaderView, i: nat, acc: Seq<Seq<char>>) -> Outcome<Seq<Seq<char>>>
    decreases h.string_ids_size - i,
{
    if i >= h.string_ids_size {
        Ok(acc)
    } else {
        match read32(b, h.string_ids_off + 4 * i) {
            Err(t) => Err(t),
            Ok(data_off) => match leb_at(b, data_off as usize) {
                Err(e) => Err(e@),
                Ok(l) => {
                    let start = data_off + l.bytes_read;
                    strings_from(b, h, i + 1, acc.push(utf8_lossy(b.subrange(start, zero_from(b, start)))))
                },
            },
        }
    }
}

fn parse_strings(bytes: &[u8], header: &DexHeader) -> (r: Result<Vec<String>>)
    ensures
        match strings_from(bytes@, header@, 0, Seq::empty()) {
            Ok(v) => r matches Ok(s) && strs(s@) == v,
            Err(t) => r matches Err(e) && e@ == t,
        },
{
    let mut strings: Vec<String> = Vec::new();
    let mut index: u32 = 0;
    assert(strs(strings@) =~= Seq::<Seq<char>>::empty());
    while index < header.string_ids_size
        invariant
            index <= header.string_ids_size,
            strings_from(bytes@, header@, 0, Seq::empty()) == strings_from(bytes@, header@, index as nat, strs(strings@)),
        decreases header.string_ids_size - index,
    {
        let id_off: u64 = header.string_ids_off as u64 + 4 * (index as u64);
        let data_off = read32_at(bytes, id_off)?;
        let len = match read_uleb128(bytes, data_off as usize) {
            Ok(l) => l,
            Err(e) => return Err(e),
        };
        let n = bytes.len();
        assert(data_off as usize + len.bytes_read <= n);
        let start = data_off as usize + len.bytes_read;
        let mut end = start;
        while end < bytes.len() && bytes[end] != 0
            invariant
                start <= end <= bytes@.len(),
                zero_from(bytes@, start as int) == zero_from(bytes@, end as int),
            decreases bytes.len() - end,
        {
            end = end + 1;
        }
        let raw = &bytes[start..end];
        let s = decode_lossy(raw);
        let ghost before = strings@;
        strings.push(s);
        assert(strs(strings@) =~= strs(before).push(s@));
        index = index + 1;
    }
    Ok(strings)
}

/// The type table from entry `i` on, after `acc`: each entry is an index into the string table.
pub open spec fn types_from(b: Seq<u8>, h: HeaderView, strings: Seq<Seq<char>>, i: nat, acc: Seq<Seq<char>>)
    -> Outcome<Seq<Seq<char>>>
    decreases h.type_ids_size - i,
{
    if i >= h.type_ids_size {
        Ok(acc)
    } else {
        match read32(b, h.type_ids_off + 4 * i) {
            Err(t) => Err(t),
            Ok(idx) => if idx >= strings.len() {
                Err(ErrorView::InvalidDexHeader { reason: "type descriptor index "@ + decimal(idx as nat) + " is out of range"@ })
            } else {
                types_from(b, h, strings, i + 1, acc.push(strings[idx as int]))
            },
        }
    }
}

fn parse_types(bytes: &[u8], header: &DexHeader, strings: &Vec<String>) -> (r: Result<Vec<String>>)
    ensures
        match types_from(bytes@, header@, strs(strings@), 0, Seq::empty()) {
            Ok(v) => r matches Ok(s) && strs(s@) == v,
            Err(t) => r matches Err(e) && e@ == t,
        },
{
    let mut types: Vec<String> = Vec::new();
    let mut index: u32 = 0;
    assert(strs(types@) =~= Seq::<Seq<char>>::empty());
    while index < header.type_ids_size
        invariant
            index <= header.type_ids_size,
            types_from(bytes@, header@, strs(strings@), 0, Seq::empty())
                == types_from(bytes@, header@, strs(strings@), index as nat, strs(types@)),
        decreases header.type_ids_size - index,
    {
        let off: u64 = header.type_ids_off as u64 + 4 * (index as u64);
        let descriptor_idx = read32_at(bytes, off)?;
        if descriptor_idx as usize >= strings.len() {
            let mut reason = String::new();
            push_str(&mut reason, "type descriptor index ");
            push_decimal(&mut reason, descriptor_idx as u64);
            push_str(&mut reason, " is out of range");
            assert(reason@ =~= "type descriptor index "@ + decimal(descriptor_idx as nat) + " is out of range"@);
            let e = header_error(reason);
            return Err(e);
        }
        let s = copy_string(&strings[descriptor_idx as usize]);
        let ghost before = types@;
        types.push(s);
        assert(strs(types@) =~= strs(before).push(strs(strings@)[descriptor_idx as int]));
        index = index + 1;
    }
    Ok(types)
}

/// The entry `idx` of `table`, or the empty string when there is none.
pub open spec fn entry_or_empty(table: Seq<Seq<char>>, idx: int) -> Seq<char> {
    if 0 <= idx < table.len() { table[idx] } else { Seq::empty() }
}

fn entry_or_empty_of(table: &Vec<String>, idx: u64) -> (r: String)
    ensures
        r@ == entry_or_empty(strs(table@), idx as int),
{
    if idx < table.len() as u64 {
        copy_string(&table[idx as usize])
    } else {
        String::new()
    }
}

/// The type list items from `cursor` on, `n` more of them, after `acc`: `u16` type indices.
pub open spec fn type_items_from(b: Seq<u8>, types: Seq<Seq<char>>, cursor: int, n: nat, acc: Seq<Seq<char>>)
    -> Outcome<Seq<Seq<char>>>
    decreases n,
{
    if n == 0 {
        Ok(acc)
    } else {
        match read16(b, cursor) {
            Err(t) => Err(t),
            Ok(idx) => type_items_from(b, types, cursor + 2, (n - 1) as nat, acc.push(entry_or_empty(types, idx as int))),
        }
    }
}

/// The type list at `off`: empty for offset zero, otherwise a `u32` size and that many items.
pub open spec fn type_list_at(b: Seq<u8>, types: Seq<Seq<char>>, off: u32) -> Outcome<Seq<Seq<char>>> {
    if off == 0 {
        Ok(Seq::empty())
    } else {
        match read32(b, off as int) {
            Err(t) => Err(t),
            Ok(size) => type_items_from(b, types, off + 4, size as nat, Seq::empty()),
        }
    }
}

fn parse_type_list(bytes: &[u8], types: &Vec<String>, offset: u32) -> (r: Result<Vec<String>>)
    ensures
        match type_list_at(bytes@, strs(types@), offset) {
            Ok(v) => r matches Ok(s) && strs(s@) == v,
            Err(t) => r matches Err(e) && e@ == t,
        },
{
    if offset == 0 {
        let r: Vec<String> = Vec::new();
        assert(strs(r@) =~= Seq::<Seq<char>>::empty());
        return Ok(r);
    }
    let size = read32_at(bytes, offset as u64)?;
    let mut result: Vec<String> = Vec::new();
    let mut cursor: u64 = offset as u64 + 4;
    let mut i: u32 = 0;
    assert(strs(result@) =~= Seq::<Seq<char>>::empty());
    while i < size
        invariant
            i <= size,
            cursor == offset as int + 4 + 2 * i,
            type_list_at(bytes@, strs(types@), offset) == type_items_from(bytes@, strs(types@), offset + 4, size as nat, Seq::empty()),
            type_items_from(bytes@, strs(types@), offset + 4, size as nat, Seq::empty())
                == type_items_from(bytes@, strs(types@), cursor as int, (size - i) as nat, strs(result@)),
        decreases size - i,
    {
        let type_idx = match read16_at(bytes, cursor) {
            Ok(v) => v,
            Err(e) => {
                assert(read16(bytes@, cursor as int) is Err);
                assert(type_items_from(bytes@, strs(types@), cursor as int, (size - i) as nat, strs(result@))
                    == Err::<Seq<Seq<char>>, ErrorView>(e@));
                return Err(e);
            },
        };
        let s = entry_or_empty_of(types, type_idx as u64);
        let ghost before = result@;
        result.push(s);
        assert(strs(result@) =~= strs(before).push(s@));
        cursor = cursor + 2;
        i = i + 1;
    }
    assert(strs(result@) == strs(result@));
    Ok(result)
}

/// The prototype table from entry `i` on, after `acc`: each 12-byte entry holds the shorty
/// string index, the return type index and the offset of the parameter type list.
pub open spec fn protos_from(b: Seq<u8>, h: HeaderView, strings: Seq<Seq<char>>, types: Seq<Seq<char>>,
    i: nat, acc: Seq<ProtoView>) -> Outcome<Seq<ProtoView>>
    decreases h.proto_ids_size - i,
{
    if i >= h.proto_ids_size {
        Ok(acc)
    } else {
        let off = h.proto_ids_off + 12 * i;
        match read32(b, off) {
            Err(t) => Err(t),
            Ok(shorty_idx) => match read32(b, off + 4) {
                Err(t) => Err(t),
                Ok(return_idx) => match read32(b, off + 8) {
                    Err(t) => Err(t),
                    Ok(params_off) => match type_list_at(b, types, params_off) {
                        Err(t) => Err(t),
                        Ok(params) => protos_from(b, h, strings, types, i + 1, acc.push(ProtoView {
                            shorty: entry_or_empty(strings, shorty_idx as int),
                            return_type: entry_or_empty(types, return_idx as int),
                            parameters: params,
                        })),
                    },
                },
            },
        }
    }
}

fn parse_protos(bytes: &[u8], header: &DexHeader, strings: &Vec<String>, types: &Vec<String>)
    -> (r: Result<Vec<ProtoId>>)
    ensures
        match protos_from(bytes@, header@, strs(strings@), strs(types@), 0, Seq::empty()) {
            Ok(v) => r matches Ok(s) && protos_view(s@) == v,
            Err(t) => r matches Err(e) && e@ == t,
        },
{
    let mut protos: Vec<ProtoId> = Vec::new();
    let mut index: u32 = 0;
    assert(protos_view(protos@) =~= Seq::<ProtoView>::empty());
    while index < header.proto_ids_size
        invariant
            index <= header.proto_ids_size,
            protos_from(bytes@, header@, strs(strings@), strs(types@), 0, Seq::empty())
                == protos_from(bytes@, header@, strs(strings@), strs(types@), index as nat, protos_view(protos@)),
        decreases header.proto_ids_size - index,
    {
        let off: u64 = header.proto_ids_off as u64 + 12 * (index as u64);
        let shorty_idx = read32_at(bytes, off)?;
        let return_type_idx = read32_at(bytes, off + 4)?;
        let parameters_off = read32_at(bytes, off + 8)?;
        let shorty = entry_or_empty_of(strings, shorty_idx as u64);
        let return_type = entry_or_empty_of(types, return_type_idx as u64);
        let parameters = parse_type_list(bytes, types, parameters_off)?;
        let p = ProtoId { shorty, return_type, parameters };
        let ghost before = protos@;
        protos.push(p);
        assert(protos_view(protos@) =~= protos_view(before).push(p@));
        index = index + 1;
    }
    Ok(protos)
}

} // verus!

verus! {

/// The field table from entry `i` on, after `acc`: each 8-byte entry holds the class type
/// index, the field type index (both `u16`) and the name string index.
pub open spec fn fields_from(b: Seq<u8>, h: HeaderView, strings: Seq<Seq<char>>, types: Seq<Seq<char>>,
    i: nat, acc: Seq<FieldView>) -> Outcome<Seq<FieldView>>
    decreases h.field_ids_size - i,
{
    if i >= h.field_ids_size {
        Ok(acc)
    } else {
        let off = h.field_ids_off + 8 * i;
        match read16(b, off) {
            Err(t) => Err(t),
            Ok(class_idx) => match read16(b, off + 2) {
                Err(t) => Err(t),
                Ok(type_idx) => match read32(b, off + 4) {
                    Err(t) => Err(t),
                    Ok(name_idx) => fields_from(b, h, strings, types, i + 1, acc.push(FieldView {
                        class_type: entry_or_empty(types, class_idx as int),
                        field_type: entry_or_empty(types, type_idx as int),
                        name: entry_or_empty(strings, name_idx as int),
                    })),
                },
            },
        }
    }
}

fn parse_fields(bytes: &[u8], header: &DexHeader, strings: &Vec<String>, types: &Vec<String>)
    -> (r: Result<Vec<FieldId>>)
    ensures
        match fields_from(bytes@, header@, strs(strings@), strs(types@), 0, Seq::empty()) {
            Ok(v) => r matches Ok(s) && fields_view(s@) == v,
            Err(t) => r matches Err(e) && e@ == t,
        },
{
    let mut fields: Vec<FieldId> = Vec::new();
    let mut index: u32 = 0;
    assert(fields_view(fields@) =~= Seq::<FieldView>::empty());
    while index < header.field_ids_size
        invariant
            index <= header.field_ids_size,
            fields_from(bytes@, header@, strs(strings@), strs(types@), 0, Seq::empty())
                == fields_from(bytes@, header@, strs(strings@), strs(types@), index as nat, fields_view(fields@)),
        decreases header.field_ids_size - index,
    {
        let off: u64 = header.field_ids_off as u64 + 8 * (index as u64);
        let class_idx = read16_at(bytes, off)?;
        let type_idx = read16_at(bytes, off + 2)?;
        let name_idx = read32_at(bytes, off + 4)?;
        let f = FieldId {
            class_type: entry_or_empty_of(types, class_idx as u64),
            field_type: entry_or_empty_of(types, type_idx as u64),
            name: entry_or_empty_of(strings, name_idx as u64),
        };
        let ghost before = fields@;
        fields.push(f);
        assert(fields_view(fields@) =~= fields_view(before).push(f@));
        index = index + 1;
    }
    Ok(fields)
}

/// The prototype a method entry names, or the empty prototype when the index is out of range.
pub open spec fn proto_or_empty(protos: Seq<ProtoView>, idx: int) -> ProtoView {
    if 0 <= idx < protos.len() {
        protos[idx]
    } else {
        ProtoView { shorty: Seq::empty(), return_type: Seq::empty(), parameters: Seq::empty() }
    }
}

/// The method table from entry `i` on, after `acc`: each 8-byte entry holds the class type
/// index, the prototype index (both `u16`) and the name string index.
pub open spec fn methods_from(b: Seq<u8>, h: HeaderView, strings: Seq<Seq<char>>, types: Seq<Seq<char>>,
    protos: Seq<ProtoView>, i: nat, acc: Seq<MethodView>) -> Outcome<Seq<MethodView>>
    decreases h.method_ids_size - i,
{
    if i >= h.method_ids_size {
        Ok(acc)
    } else {
        let off = h.method_ids_off + 8 * i;
        match read16(b, off) {
            Err(t) => Err(t),
            Ok(class_idx) => match read16(b, off + 2) {
                Err(t) => Err(t),
                Ok(proto_idx) => match read32(b, off + 4) {
                    Err(t) => Err(t),
                    Ok(name_idx) => methods_from(b, h, strings, types, protos, i + 1, acc.push(MethodView {
                        class_type: entry_or_empty(types, class_idx as int),
                        name: entry_or_empty(strings, name_idx as int),
                        proto: proto_or_empty(protos, proto_idx as int),
                    })),
                },
            },
        }
    }
}

/// A copy of a prototype.
pub fn copy_proto(p: &ProtoId) -> (r: ProtoId)
    ensures
        r@ == p@,
{
    ProtoId {
        shorty: copy_string(&p.shorty),
        return_type: copy_string(&p.return_type),
        parameters: copy_strings(&p.parameters),
    }
}

fn parse_methods(bytes: &[u8], header: &DexHeader, strings: &Vec<String>, types: &Vec<String>,
    protos: &Vec<ProtoId>) -> (r: Result<Vec<MethodId>>)
    ensures
        match methods_from(bytes@, header@, strs(strings@), strs(types@), protos_view(protos@), 0, Seq::empty()) {
            Ok(v) => r matches Ok(s) && methods_view(s@) == v,
            Err(t) => r matches Err(e) && e@ == t,
        },
{
    let mut methods: Vec<MethodId> = Vec::new();
    let mut index: u32 = 0;
    assert(methods_view(methods@) =~= Seq::<MethodView>::empty());
    while index < header.method_ids_size
        invariant
            index <= header.method_ids_size,
            methods_from(bytes@, header@, strs(strings@), strs(types@), protos_view(protos@), 0, Seq::empty())
                == methods_from(bytes@, header@, strs(strings@), strs(types@), protos_view(protos@), index as nat,
                methods_view(methods@)),
        decreases header.method_ids_size - index,
    {
        let off: u64 = header.method_ids_off as u64 + 8 * (index as u64);
        let class_idx = read16_at(bytes, off)?;
        let proto_idx = read16_at(bytes, off + 2)?;
        let name_idx = read32_at(bytes, off + 4)?;
        let proto = if (proto_idx as usize) < protos.len() {
            copy_proto(&protos[proto_idx as usize])
        } else {
            let p = ProtoId { shorty: String::new(), return_type: String::new(), parameters: Vec::new() };
            assert(p@.parameters =~= Seq::<Seq<char>>::empty());
            p
        };
        let m = MethodId {
            class_type: entry_or_empty_of(types, class_idx as u64),
            name: entry_or_empty_of(strings, name_idx as u64),
            proto,
        };
        let ghost before = methods@;
        methods.push(m);
        assert(methods_view(methods@) =~= methods_view(before).push(m@));
        index = index + 1;
    }
    Ok(methods)
}

/// An optional table entry: index `u32::MAX` means none; an out-of-range index also yields
/// none.
pub open spec fn optional_entry(table: Seq<Seq<char>>, idx: u32) -> Option<Seq<char>> {
    if idx == u32::MAX || idx >= table.len() {
        None
    } else {
        Some(table[idx as int])
    }
}

fn optional_entry_of(table: &Vec<String>, index: u32) -> (r: Option<String>)
    ensures
        crate::chars::opt_str(r) == optional_entry(strs(table@), index),
{
    if index == u32::MAX || index as usize >= table.len() {
        None
    } else {
        Some(copy_string(&table[index as usize]))
    }
}

/// The class definition table from entry `i` on, after `acc`: each 32-byte entry holds the
/// class type index, access flags, superclass type index, interface list offset, source file
/// string index, annotations offset, class data offset and static values offset. The class
/// data is decoded before the interface list.
pub open spec fn classes_from(b: Seq<u8>, h: HeaderView, strings: Seq<Seq<char>>, types: Seq<Seq<char>>,
    i: nat, acc: Seq<ClassView>) -> Outcome<Seq<ClassView>>
    decreases h.class_defs_size - i,
{
    if i >= h.class_defs_size {
        Ok(acc)
    } else {
        let off = h.class_defs_off + 32 * i;
        match read32(b, off) {
            Err(t) => Err(t),
            Ok(class_idx) => match read32(b, off + 4) {
                Err(t) => Err(t),
                Ok(access_flags) => match read32(b, off + 8) {
                    Err(t) => Err(t),
                    Ok(superclass_idx) => match read32(b, off + 12) {
                        Err(t) => Err(t),
                        Ok(interfaces_off) => match read32(b, off + 16) {
                            Err(t) => Err(t),
                            Ok(source_idx) => match read32(b, off + 24) {
                                Err(t) => Err(t),
                                Ok(data_off) => {
                                    let data: Outcome<Option<ClassDataView>> = if data_off == 0 {
                                        Ok(None)
                                    } else {
                                        match class_data_at(b, data_off as usize) {
                                            Err(t) => Err(t),
                                            Ok(d) => Ok(Some(d)),
                                        }
                                    };
                                    match data {
                                        Err(t) => Err(t),
                                        Ok(d) => match type_list_at(b, types, interfaces_off) {
                                            Err(t) => Err(t),
                                            Ok(interfaces) => classes_from(b, h, strings, types, i + 1, acc.push(ClassView {
                                                class_type: entry_or_empty(types, class_idx as int),
                                                access_flags,
                                                superclass: optional_entry(types, superclass_idx),
                                                interfaces,
                                                source_file: optional_entry(strings, source_idx),
                                                class_data_off: data_off,
                                                class_data: d,
                                            })),
                                        },
                                    }
                                },
                            },
                        },
                    },
                },
            },
        }
    }
}

#[verifier::rlimit(40)]
fn parse_class(bytes: &[u8], off: u64, strings: &Vec<String>, types: &Vec<String>) -> (r: Result<ClassDef>)
    requires
        off <= 0x10000000000,
    ensures
        match read32(bytes@, off as int) {
            Err(t) => r matches Err(e) && e@ == t,
            Ok(class_idx) => match read32(bytes@, off + 4) {
                Err(t) => r matches Err(e) && e@ == t,
                Ok(access_flags) => match read32(bytes@, off + 8) {
                    Err(t) => r matches Err(e) && e@ == t,
                    Ok(superclass_idx) => match read32(bytes@, off + 12) {
                        Err(t) => r matches Err(e) && e@ == t,
                        Ok(interfaces_off) => match read32(bytes@, off + 16) {
                            Err(t) => r matches Err(e) && e@ == t,
                            Ok(source_idx) => match read32(bytes@, off + 24) {
                                Err(t) => r matches Err(e) && e@ == t,
                                Ok(data_off) => {
                                    let data: Outcome<Option<ClassDataView>> = if data_off == 0 {
                                        Ok(None)
                                    } else {
                                        match class_data_at(bytes@, data_off as usize) {
                                            Err(t) => Err(t),
                                            Ok(d) => Ok(Some(d)),
                                        }
                                    };
                                    match data {
                                        Err(t) => r matches Err(e) && e@ == t,
                                        Ok(d) => match type_list_at(bytes@, strs(types@), interfaces_off) {
                                            Err(t) => r matches Err(e) && e@ == t,
                                            Ok(interfaces) => r matches Ok(c) && c@ == (ClassView {
                                                class_type: entry_or_empty(strs(types@), class_idx as int),
                                                access_flags,
                                                superclass: optional_entry(strs(types@), superclass_idx),
                                                interfaces,
                                                source_file: optional_entry(strs(strings@), source_idx),
                                                class_data_off: data_off,
                                                class_data: d,
                                            }),
                                        },
                                    }
                                },
                            },
                        },
                    },
                },
            },
        },
{
    let class_idx = read32_at(bytes, off)?;
    let access_flags = read32_at(bytes, off + 4)?;
    let superclass_idx = read32_at(bytes, off + 8)?;
    let interfaces_off = read32_at(bytes, off + 12)?;
    let source_file_idx = read32_at(bytes, off + 16)?;
    let class_data_off = read32_at(bytes, off + 24)?;
    let class_data = if class_data_off == 0 {
        None
    } else {
        Some(parse_class_data(bytes, class_data_off)?)
    };
    let interfaces = parse_type_list(bytes, types, interfaces_off)?;
    Ok(ClassDef {
        class_type: entry_or_empty_of(types, class_idx as u64),
        access_flags,
        superclass: optional_entry_of(types, superclass_idx),
        interfaces,
        source_file: optional_entry_of(strings, source_file_idx),
        class_data_off,
        class_data,
    })
}

fn parse_classes(bytes: &[u8], header: &DexHeader, strings: &Vec<String>, types: &Vec<String>)
    -> (r: Result<Vec<ClassDef>>)
    ensures
        match classes_from(bytes@, header@, strs(strings@), strs(types@), 0, Seq::empty()) {
            Ok(v) => r matches Ok(s) && classes_view(s@) == v,
            Err(t) => r matches Err(e) && e@ == t,
        },
{
    let mut classes: Vec<ClassDef> = Vec::new();
    let mut index: u32 = 0;
    assert(classes_view(classes@) =~= Seq::<ClassView>::empty());
    while index < header.class_defs_size
        invariant
            index <= header.class_defs_size,
            classes_from(bytes@, header@, strs(strings@), strs(types@), 0, Seq::empty())
                == classes_from(bytes@, header@, strs(strings@), strs(types@), index as nat, classes_view(classes@)),
        decreases header.class_defs_size - index,
    {
        let off: u64 = header.class_defs_off as u64 + 32 * (index as u64);
        let c = parse_class(bytes, off, strings, types)?;
        let ghost before = classes@;
        classes.push(c);
        assert(classes_view(classes@) =~= classes_view(before).push(c@));
        index = index + 1;
    }
    Ok(classes)
}

} // verus!

verus! {

/// The `n` code units from `cursor` on, after `acc`.
pub open spec fn code_units_from(b: Seq<u8>, cursor: int, n: nat, acc: Seq<u16>) -> Outcome<Seq<u16>>
    decreases n,
{
    if n == 0 {
        Ok(acc)
    } else {
        match read16(b, cursor) {
            Err(t) => Err(t),
            Ok(u) => code_units_from(b, cursor + 2, (n - 1) as nat, acc.push(u)),
        }
    }
}

/// The code item at `code_off`: a 16-byte header (register, in, out and try counts, debug info
/// offset and instruction count) followed by the instruction code units, which are walked.
pub open spec fn code_item_at(b: Seq<u8>, code_off: u32) -> Outcome<CodeView> {
    let off = code_off as int;
    match read16(b, off) {
        Err(t) => Err(t),
        Ok(registers_size) => match read16(b, off + 2) {
            Err(t) => Err(t),
            Ok(ins_size) => match read16(b, off + 4) {
                Err(t) => Err(t),
                Ok(outs_size) => match read16(b, off + 6) {
                    Err(t) => Err(t),
                    Ok(tries_size) => match read32(b, off + 8) {
                        Err(t) => Err(t),
                        Ok(debug_info_off) => match read32(b, off + 12) {
                            Err(t) => Err(t),
                            Ok(insns_size) => match code_units_from(b, off + 16, insns_size as nat, Seq::empty()) {
                                Err(t) => Err(t),
                                Ok(units) => match walk_from(units, 0, walk_start()) {
                                    Err(e) => Err(e@),
                                    Ok(w) => Ok(CodeView {
                                        registers_size,
                                        ins_size,
                                        outs_size,
                                        tries_size,
                                        debug_info_off,
                                        insns_size,
                                        walk: w,
                                    }),
                                },
                            },
                        },
                    },
                },
            },
        },
    }
}

fn read_code_units(bytes: &[u8], start: u64, count: u32) -> (r: Result<Vec<u16>>)
    requires
        start <= 0x200000000,
    ensures
        match code_units_from(bytes@, start as int, count as nat, Seq::empty()) {
            Ok(v) => r matches Ok(u) && u@ == v,
            Err(t) => r matches Err(e) && e@ == t,
        },
        r matches Ok(u) ==> u@.len() == count,
{
    let mut units: Vec<u16> = Vec::new();
    let mut cursor: u64 = start;
    let mut i: u32 = 0;
    while i < count
        invariant
            i <= count,
            start <= 0x200000000,
            cursor == start + 2 * i,
            units@.len() == i,
            code_units_from(bytes@, start as int, count as nat, Seq::empty())
                == code_units_from(bytes@, cursor as int, (count - i) as nat, units@),
        decreases count - i,
    {
        let u = read16_at(bytes, cursor)?;
        units.push(u);
        cursor = cursor + 2;
        i = i + 1;
    }
    Ok(units)
}

/// Parses the code item at `code_off` and summarises its instructions.
pub fn parse_code_item(bytes: &[u8], code_off: u32) -> (r: Result<CodeItem>)
    ensures
        match code_item_at(bytes@, code_off) {
            Ok(v) => r matches Ok(c) && code_item_matches(c, v),
            Err(t) => r matches Err(e) && e@ == t,
        },
{
    let offset = code_off as u64;
    let registers_size = read16_at(bytes, offset)?;
    let ins_size = read16_at(bytes, offset + 2)?;
    let outs_size = read16_at(bytes, offset + 4)?;
    let tries_size = read16_at(bytes, offset + 6)?;
    let debug_info_off = read32_at(bytes, offset + 8)?;
    let insns_size = read32_at(bytes, offset + 12)?;
    let code_units = read_code_units(bytes, offset + 16, insns_size)?;
    let instruction_summary = match summarize_code_units(code_units.as_slice()) {
        Ok(s) => s,
        Err(e) => return Err(e),
    };
    Ok(CodeItem { registers_size, ins_size, outs_size, tries_size, debug_info_off, insns_size, instruction_summary })
}

/// The code items and warnings gathered so far.
pub struct CodeState {
    pub items: Map<u32, CodeView>,
    pub warnings: Seq<WarningView>,
}

/// The origin a code item warning names: the class and the code offset.
pub open spec fn code_warning_origin(class_type: Seq<char>, code_off: u32) -> Seq<char> {
    class_type + "@code_off="@ + decimal(code_off as nat)
}

/// Taking the method body at `code_off` of a class into account: offset zero and offsets seen
/// before are skipped; a body that fails to parse becomes a warning.
pub open spec fn code_step(b: Seq<u8>, class_type: Seq<char>, code_off: u32, st: CodeState) -> CodeState {
    if code_off == 0 || st.items.contains_key(code_off) {
        st
    } else {
        match code_item_at(b, code_off) {
            Ok(v) => CodeState { items: st.items.insert(code_off, v), warnings: st.warnings },
            Err(t) => CodeState {
                items: st.items,
                warnings: st.warnings.push(WarningView {
                    origin: code_warning_origin(class_type, code_off),
                    kind: ParseWarningKind::CodeItem,
                    message: t.text(),
                }),
            },
        }
    }
}

/// The code offsets of a class's direct methods, then its virtual methods.
pub open spec fn class_code_offsets(c: ClassView) -> Seq<u32> {
    match c.class_data {
        None => Seq::empty(),
        Some(d) => (d.2 + d.3).map_values(|m: EncodedMethod| m.code_off),
    }
}

/// Taking the code offsets `offs` of one class into account, in order.
pub open spec fn code_steps(b: Seq<u8>, class_type: Seq<char>, offs: Seq<u32>, st: CodeState) -> CodeState
    decreases offs.len(),
{
    if offs.len() == 0 {
        st
    } else {
        code_step(b, class_type, offs.last(), code_steps(b, class_type, offs.drop_last(), st))
    }
}

/// Taking the method bodies of `classes` into account, class by class.
pub open spec fn code_items_of(b: Seq<u8>, classes: Seq<ClassView>) -> CodeState
    decreases classes.len(),
{
    if classes.len() == 0 {
        CodeState { items: Map::empty(), warnings: Seq::empty() }
    } else {
        let c = classes.last();
        code_steps(b, c.class_type, class_code_offsets(c), code_items_of(b, classes.drop_last()))
    }
}

/// The code item map holds exactly the code items `v` describes.
pub open spec fn code_map_matches(m: Map<u32, CodeItem>, v: Map<u32, CodeView>) -> bool {
    &&& forall|k: u32| m.contains_key(k) <==> v.contains_key(k)
    &&& forall|k: u32| m.contains_key(k) ==> code_item_matches(m[k], v[k])
}

fn code_warning(class_type: &String, code_off: u32, error: &UnocRsError) -> (w: ParseWarning)
    ensures
        w@ == (WarningView {
            origin: code_warning_origin(class_type@, code_off),
            kind: ParseWarningKind::CodeItem,
            message: error.text(),
        }),
{
    let mut origin = String::new();
    push_str(&mut origin, class_type.as_str());
    push_str(&mut origin, "@code_off=");
    push_decimal(&mut origin, code_off as u64);
    ParseWarning { origin, kind: ParseWarningKind::CodeItem, message: error.message() }
}

fn collect_method_code(bytes: &[u8], class_type: &String, methods: &Vec<EncodedMethod>,
    code_items: &mut BTreeMap<u32, CodeItem>, warnings: &mut Vec<ParseWarning>, Ghost(prefix): Ghost<Seq<u32>>,
    Ghost(st0): Ghost<CodeState>)
    requires
        code_map_matches(old(code_items)@, code_steps(bytes@, class_type@, prefix, st0).items),
        warnings_view(old(warnings)@) == code_steps(bytes@, class_type@, prefix, st0).warnings,
    ensures
        code_map_matches(final(code_items)@, code_steps(bytes@, class_type@,
            prefix + methods@.map_values(|m: EncodedMethod| m.code_off), st0).items),
        warnings_view(final(warnings)@) == code_steps(bytes@, class_type@,
            prefix + methods@.map_values(|m: EncodedMethod| m.code_off), st0).warnings,
{
    let ghost offs = methods@.map_values(|m: EncodedMethod| m.code_off);
    let mut i: usize = 0;
    assert(prefix + offs.take(0) =~= prefix);
    while i < methods.len()
        invariant
            i <= methods.len(),
            offs == methods@.map_values(|m: EncodedMethod| m.code_off),
            code_map_matches(code_items@, code_steps(bytes@, class_type@, prefix + offs.take(i as int), st0).items),
            warnings_view(warnings@) == code_steps(bytes@, class_type@, prefix + offs.take(i as int), st0).warnings,
        decreases methods.len() - i,
    {
        let code_off = methods[i].code_off;
        let ghost before = code_steps(bytes@, class_type@, prefix + offs.take(i as int), st0);
        proof {
            assert((prefix + offs.take(i + 1)).drop_last() =~= prefix + offs.take(i as int));
            assert((prefix + offs.take(i + 1)).last() == code_off);
        }
        if code_off != 0 && !code_items.contains_key(&code_off) {
            match parse_code_item(bytes, code_off) {
                Ok(code_item) => {
                    code_items.insert(code_off, code_item);
                },
                Err(error) => {
                    let w = code_warning(class_type, code_off, &error);
                    let ghost wb = warnings@;
                    warnings.push(w);
                    assert(warnings_view(warnings@) =~= warnings_view(wb).push(w@));
                },
            }
        }
        i = i + 1;
    }
    assert(offs.take(methods@.len() as int) =~= offs);
}

fn parse_code_items_for_classes(bytes: &[u8], classes: &Vec<ClassDef>)
    -> (r: (BTreeMap<u32, CodeItem>, Vec<ParseWarning>))
    ensures
        code_map_matches(r.0@, code_items_of(bytes@, classes_view(classes@)).items),
        warnings_view(r.1@) == code_items_of(bytes@, classes_view(classes@)).warnings,
{
    let mut code_items: BTreeMap<u32, CodeItem> = BTreeMap::new();
    let mut warnings: Vec<ParseWarning> = Vec::new();
    let mut ci: usize = 0;
    assert(warnings_view(warnings@) =~= Seq::<WarningView>::empty());
    while ci < classes.len()
        invariant
            ci <= classes.len(),
            code_map_matches(code_items@, code_items_of(bytes@, classes_view(classes@.take(ci as int))).items),
            warnings_view(warnings@) == code_items_of(bytes@, classes_view(classes@.take(ci as int))).warnings,
        decreases classes.len() - ci,
    {
        let class = &classes[ci];
        let ghost st0 = code_items_of(bytes@, classes_view(classes@.take(ci as int)));
        proof {
            assert(classes_view(classes@.take(ci + 1)).drop_last() =~= classes_view(classes@.take(ci as int)));
            assert(code_steps(bytes@, class.class_type@, Seq::empty(), st0) == st0);
        }
        match &class.class_data {
            Some(data) => {
                collect_method_code(bytes, &class.class_type, &data.direct_methods, &mut code_items, &mut warnings,
                    Ghost(Seq::empty()), Ghost(st0));
                let ghost p = Seq::<u32>::empty() + data.direct_methods@.map_values(|m: EncodedMethod| m.code_off);
                collect_method_code(bytes, &class.class_type, &data.virtual_methods, &mut code_items, &mut warnings,
                    Ghost(p), Ghost(st0));
                proof {
                    assert(p + data.virtual_methods@.map_values(|m: EncodedMethod| m.code_off)
                        =~= class_code_offsets(class@));
                }
            },
            None => {
                assert(class_code_offsets(class@) =~= Seq::<u32>::empty());
            },
        }
        ci = ci + 1;
    }
    assert(classes@.take(classes@.len() as int) =~= classes@);
    (code_items, warnings)
}

} // verus!

verus! {

/// The tables of a DEX file.
pub struct TablesView {
    pub header: HeaderView,
    pub strings: Seq<Seq<char>>,
    pub types: Seq<Seq<char>>,
    pub protos: Seq<ProtoView>,
    pub fields: Seq<FieldView>,
    pub methods: Seq<MethodView>,
    pub classes: Seq<ClassView>,
}

/// Parsing the tables of a DEX buffer, in the order header, strings, types, prototypes,
/// fields, methods, classes; the first failure is the outcome.
pub open spec fn tables_at(b: Seq<u8>) -> Outcome<TablesView> {
    match header_outcome(b) {
        Err(t) => Err(t),
        Ok(h) => match strings_from(b, h, 0, Seq::empty()) {
            Err(t) => Err(t),
            Ok(strings) => match types_from(b, h, strings, 0, Seq::empty()) {
                Err(t) => Err(t),
                Ok(types) => match protos_from(b, h, strings, types, 0, Seq::empty()) {
                    Err(t) => Err(t),
                    Ok(protos) => match fields_from(b, h, strings, types, 0, Seq::empty()) {
                        Err(t) => Err(t),
                        Ok(fields) => match methods_from(b, h, strings, types, protos, 0, Seq::empty()) {
                            Err(t) => Err(t),
                            Ok(methods) => match classes_from(b, h, strings, types, 0, Seq::empty()) {
                                Err(t) => Err(t),
                                Ok(classes) => Ok(TablesView { header: h, strings, types, protos, fields, methods, classes }),
                            },
                        },
                    },
                },
            },
        },
    }
}

/// `d` holds the tables `v` of the buffer `b`, together with the code items of the methods its
/// classes define and the warnings for those that could not be parsed.
pub open spec fn raw_matches(d: RawDex, v: TablesView, b: Seq<u8>) -> bool {
    &&& d.header@ == v.header
    &&& strs(d.strings@) == v.strings
    &&& strs(d.types@) == v.types
    &&& protos_view(d.protos@) == v.protos
    &&& fields_view(d.fields@) == v.fields
    &&& methods_view(d.methods@) == v.methods
    &&& classes_view(d.classes@) == v.classes
    &&& code_map_matches(d.code_items@, code_items_of(b, v.classes).items)
    &&& warnings_view(d.warnings@) == code_items_of(b, v.classes).warnings
}

/// Parses every table of a DEX file and the code items of the methods its classes define. A
/// code item that cannot be parsed does not fail the parse; it becomes a warning.
pub fn parse_raw_dex(bytes: &[u8]) -> (r: Result<RawDex>)
    ensures
        match tables_at(bytes@) {
            Ok(v) => r matches Ok(d) && raw_matches(d, v, bytes@),
            Err(t) => r matches Err(e) && e@ == t,
        },
{
    let header = parse_header(bytes)?;
    let strings = parse_strings(bytes, &header)?;
    let types = parse_types(bytes, &header, &strings)?;
    let protos = parse_protos(bytes, &header, &strings, &types)?;
    let fields = parse_fields(bytes, &header, &strings, &types)?;
    let methods = parse_methods(bytes, &header, &strings, &types, &protos)?;
    let classes = parse_classes(bytes, &header, &strings, &types)?;
    let (code_items, warnings) = parse_code_items_for_classes(bytes, &classes);
    Ok(RawDex { header, strings, types, protos, fields, methods, classes, code_items, warnings })
}

impl RawDex {
    /// An empty DEX of version 035 with a 112-byte header and no tables.
    pub fn empty_for_test() -> (r: Self)
        ensures
            r.header.version@ == seq!['0', '3', '5'],
            r.header.file_size == 112,
            r.header.header_size == 112,
            r.header.endian_tag == 0x12345678,
            r.header.string_ids_size == 0 && r.header.string_ids_off == 0,
            r.header.type_ids_size == 0 && r.header.type_ids_off == 0,
            r.header.proto_ids_size == 0 && r.header.proto_ids_off == 0,
            r.header.field_ids_size == 0 && r.header.field_ids_off == 0,
            r.header.method_ids_size == 0 && r.header.method_ids_off == 0,
            r.header.class_defs_size == 0 && r.header.class_defs_off == 0,
            r.strings@.len() == 0,
            r.types@.len() == 0,
            r.protos@.len() == 0,
            r.fields@.len() == 0,
            r.methods@.len() == 0,
            r.classes@.len() == 0,
            r.code_items@ == Map::<u32, CodeItem>::empty(),
            r.warnings@.len() == 0,
    {
        Self {
            header: DexHeader {
                version: crate::chars::string_from_chars(&['0', '3', '5']),
                file_size: 112,
                header_size: 112,
                endian_tag: 0x12345678,
                string_ids_size: 0,
                string_ids_off: 0,
                type_ids_size: 0,
                type_ids_off: 0,
                proto_ids_size: 0,
                proto_ids_off: 0,
                field_ids_size: 0,
                field_ids_off: 0,
                method_ids_size: 0,
                method_ids_off: 0,
                class_defs_size: 0,
                class_defs_off: 0,
            },
            strings: Vec::new(),
            types: Vec::new(),
            protos: Vec::new(),
            fields: Vec::new(),
            methods: Vec::new(),
            classes: Vec::new(),
            code_items: BTreeMap::new(),
            warnings: Vec::new(),
        }
    }
}

/// The `n` little-endian code units stored from `cursor` on.
pub open spec fn units_at(b: Seq<u8>, cursor: int, n: nat) -> Seq<u16> {
    Seq::new(n, |i: int| u16_at(b, cursor + 2 * i))
}

/// Reading `n` code units from `cursor` succeeds exactly when they lie inside the buffer, and
/// gives the units stored there.
proof fn lemma_code_units_from(b: Seq<u8>, cursor: int, n: nat, acc: Seq<u16>)
    requires
        0 <= cursor <= b.len(),
    ensures
        code_units_from(b, cursor, n, acc) is Ok <==> cursor + 2 * n <= b.len(),
        cursor + 2 * n <= b.len() ==> code_units_from(b, cursor, n, acc) == Ok::<Seq<u16>, ErrorView>(acc
            + units_at(b, cursor, n)),
    decreases n,
{
    if n > 0 {
        if cursor + 2 <= b.len() {
            lemma_code_units_from(b, cursor + 2, (n - 1) as nat, acc.push(u16_at(b, cursor)));
            assert(read16(b, cursor) == Ok::<u16, ErrorView>(u16_at(b, cursor)));
            assert(code_units_from(b, cursor, n, acc) == code_units_from(b, cursor + 2, (n - 1) as nat, acc.push(
                u16_at(b, cursor),
            )));
        } else {
            assert(read16(b, cursor) is Err);
        }
        if cursor + 2 * n <= b.len() {
            assert(acc.push(u16_at(b, cursor)) + units_at(b, cursor + 2, (n - 1) as nat) =~= acc + units_at(
                b,
                cursor,
                n,
            ));
        }
    }
}

/// What a code item holds, read from its header: where its 16-byte header lies inside the
/// buffer, the item is read exactly when its `insns_size` code units lie inside the buffer too
/// and their walk succeeds; its four sizes and debug offset are then the values stored in the
/// header, its instruction count is `insns_size`, and its walk is the walk of those code units.
pub proof fn lemma_code_item_layout(b: Seq<u8>, code_off: u32)
    requires
        code_off + 16 <= b.len(),
    ensures
        ({
            let off = code_off as int;
            let n = u32_at(b, off + 12);
            let units = units_at(b, off + 16, n as nat);
            &&& code_item_at(b, code_off) is Ok <==> (off + 16 + 2 * n <= b.len() && walk_from(units, 0, walk_start())
                is Ok)
            &&& code_item_at(b, code_off) matches Ok(v) ==> v.registers_size == u16_at(b, off) && v.ins_size
                == u16_at(b, off + 2) && v.outs_size == u16_at(b, off + 4) && v.tries_size == u16_at(b, off + 6)
                && v.debug_info_off == u32_at(b, off + 8) && v.insns_size == n && walk_from(units, 0, walk_start())
                == Ok::<Walk, UnocRsError>(v.walk)
        }),
{
    let off = code_off as int;
    let n = u32_at(b, off + 12);
    lemma_code_units_from(b, off + 16, n as nat, Seq::empty());
    if off + 16 + 2 * n <= b.len() {
        assert(Seq::<u16>::empty() + units_at(b, off + 16, n as nat) =~= units_at(b, off + 16, n as nat));
    }
}

} // verus!
