use unoc_rs::dex::class_data::parse_class_data;
use unoc_rs::dex::descriptor::{descriptor_to_java_name, package_shape};
use unoc_rs::dex::instructions::summarize_code_units;
use unoc_rs::dex::leb128::read_uleb128;
use unoc_rs::dex::raw::{parse_code_item, parse_raw_dex};
use unoc_rs::dex::reader::{checked_slice, read_dex_version, read_u16, read_u32};
use unoc_rs::dex::parse_dex;

#[test]
fn reads_little_endian_values() {
    let bytes = [0x34, 0x12, 0x78, 0x56, 0x34, 0x12];
    assert_eq!(read_u16(&bytes, 0).expect("u16"), 0x1234);
    assert_eq!(read_u32(&bytes, 2).expect("u32"), 0x12345678);
}

#[test]
fn accepts_supported_dex_magic() {
    assert_eq!(read_dex_version(b"dex\n035\0rest").expect("version"), "035");
    assert_eq!(read_dex_version(b"dex\n040\0rest").expect("version"), "040");
}

#[test]
fn rejects_unsupported_dex_magic() {
    let err = read_dex_version(b"dex\n041\0rest").expect_err("unsupported");
    assert!(err.message().contains("unsupported DEX version"));
}

#[test]
fn rejects_bad_magic_and_short_buffers() {
    let err = read_dex_version(b"dey\n035\0").expect_err("magic");
    assert_eq!(err.message(), "invalid DEX magic");
    let err = read_dex_version(b"dex\n").expect_err("short");
    assert_eq!(err.message(), "unexpected end of DEX at offset 0; needed 8 bytes, file length is 4");
}

#[test]
fn reads_past_the_end_fail_with_offsets() {
    let bytes = [1u8, 2, 3];
    let err = read_u32(&bytes, 1).expect_err("eof");
    assert_eq!(err.message(), "unexpected end of DEX at offset 1; needed 4 bytes, file length is 3");
    assert_eq!(checked_slice(&bytes, 1, 2).expect("slice"), &[2u8, 3][..]);
    assert!(checked_slice(&bytes, usize::MAX, 2).is_err());
}

#[test]
fn reads_single_byte_uleb128() {
    let value = read_uleb128(&[0x7f], 0).expect("read");
    assert_eq!(value.value, 127);
    assert_eq!(value.bytes_read, 1);
}

#[test]
fn reads_multi_byte_uleb128() {
    let value = read_uleb128(&[0xe5, 0x8e, 0x26], 0).expect("read");
    assert_eq!(value.value, 624_485);
    assert_eq!(value.bytes_read, 3);
}

#[test]
fn rejects_overlong_uleb128() {
    let err = read_uleb128(&[0x80, 0x80, 0x80, 0x80, 0x80], 0).expect_err("error");
    assert!(err.message().contains("invalid LEB128"));
}

#[test]
fn uleb128_keeps_the_low_32_bits_of_a_five_byte_value() {
    let value = read_uleb128(&[0xff, 0xff, 0xff, 0xff, 0x7f], 0).expect("read");
    assert_eq!(value.value, u32::MAX);
    assert_eq!(value.bytes_read, 5);
    let err = read_uleb128(&[0x80, 0x80], 0).expect_err("eof");
    assert_eq!(err.message(), "unexpected end of DEX at offset 2; needed 1 bytes, file length is 2");
    let err = read_uleb128(&[0x00], 4).expect_err("eof");
    assert_eq!(err.message(), "unexpected end of DEX at offset 4; needed 1 bytes, file length is 1");
}

#[test]
fn parses_delta_encoded_methods() {
    let bytes = [0x00, 0x00, 0x02, 0x00, 0x03, 0x01, 0x20, 0x02, 0x09, 0x21];
    let data = parse_class_data(&bytes, 0).expect("class data");
    assert_eq!(data.direct_methods.len(), 2);
    assert_eq!(data.direct_methods[0].method_idx, 3);
    assert_eq!(data.direct_methods[1].method_idx, 5);
    assert_eq!(data.direct_methods[1].access_flags, 9);
    assert_eq!(data.direct_methods[1].code_off, 33);
}

#[test]
fn rejects_class_data_index_overflow() {
    let bytes = [0x02, 0x00, 0x00, 0x00, 0xff, 0xff, 0xff, 0xff, 0x0f, 0x00, 0x01, 0x00];
    let err = parse_class_data(&bytes, 0).expect_err("overflow");
    assert_eq!(err.message(), "invalid encoded class data: field index overflow");
}

#[test]
fn converts_class_descriptor_to_java_name() {
    assert_eq!(descriptor_to_java_name("La/b/C;"), "a.b.C");
    assert_eq!(descriptor_to_java_name("Ljava/lang/String;"), "java.lang.String");
    assert_eq!(descriptor_to_java_name("I"), "I");
}

#[test]
fn builds_package_shape_for_obfuscated_packages() {
    assert_eq!(package_shape("La/b/C;"), "*.*");
    assert_eq!(package_shape("Lcom/example/Foo;"), "com.example");
    assert_eq!(package_shape("LFoo;"), "");
    assert_eq!(package_shape("Lcom/ab/Xy/Foo;"), "com.*.Xy");
}

#[test]
fn extracts_string_method_and_field_refs() {
    let code_units = [0x001a, 7, 0x006e, 11, 0, 0x0052, 13, 0x000e];
    let summary = summarize_code_units(&code_units).expect("summary");
    assert_eq!(summary.string_refs, vec![7]);
    assert_eq!(summary.method_refs, vec![11]);
    assert_eq!(summary.field_refs, vec![13]);
    assert_eq!(summary.return_count, 1);
}

#[test]
fn records_reference_opcodes_and_offsets() {
    let code_units = [0x001c, 3, 0x0071, 5, 0, 0x0060, 7, 0x0018, 0, 0, 0, 0, 0x000e];
    let summary = summarize_code_units(&code_units).expect("summary");

    assert_eq!(summary.type_ref_uses[0].index, 3);
    assert_eq!(summary.type_ref_uses[0].offset_code_unit, 0);
    assert_eq!(summary.method_ref_uses[0].opcode, 0x71);
    assert_eq!(summary.method_ref_uses[0].offset_code_unit, 2);
    assert_eq!(summary.field_ref_uses[0].opcode, 0x60);
    assert_eq!(summary.field_ref_uses[0].offset_code_unit, 5);
    assert_eq!(summary.return_count, 1);
}

#[test]
fn keeps_alignment_after_move_result_instructions() {
    let code_units = [0x0038, 8, 0x0071, 5, 0, 0x000c, 0x001a, 7, 0x0012, 0x000e];
    let summary = summarize_code_units(&code_units).expect("summary");

    assert_eq!(summary.method_ref_uses.len(), 1);
    assert_eq!(summary.method_ref_uses[0].offset_code_unit, 2);
    assert!(summary.field_ref_uses.is_empty());
    assert_eq!(summary.return_count, 1);
}

#[test]
fn records_range_and_polymorphic_range_method_references() {
    let code_units = [0x0078, 11, 0, 0x00fb, 13, 0, 17, 0x000e];
    let summary = summarize_code_units(&code_units).expect("summary");

    assert_eq!(summary.method_ref_uses.len(), 2);
    assert_eq!(summary.method_ref_uses[0].index, 11);
    assert_eq!(summary.method_ref_uses[0].offset_code_unit, 0);
    assert_eq!(summary.method_ref_uses[1].index, 13);
    assert_eq!(summary.method_ref_uses[1].offset_code_unit, 3);
    assert_eq!(summary.return_count, 1);
}

#[test]
fn skips_switch_and_array_payload_data() {
    let code_units = [0x0100, 1, 0, 0, 0, 0, 0x0300, 1, 2, 0, 0x1234, 0x000e];
    let summary = summarize_code_units(&code_units).expect("summary");

    assert_eq!(summary.instruction_count, 3);
    assert_eq!(summary.return_count, 1);
}

#[test]
fn summary_sorts_and_deduplicates_references_and_counts_opcodes() {
    let code_units = [0x001a, 9, 0x001a, 2, 0x001a, 9, 0x001b, 1, 1, 0x0028, 0x002b, 0, 0, 0x0027];
    let summary = summarize_code_units(&code_units).expect("summary");
    assert_eq!(summary.string_refs, vec![2, 9, 0x10001]);
    assert_eq!(summary.opcode_histogram.get(&0x1a), Some(&3));
    assert_eq!(summary.branch_count, 2);
    assert_eq!(summary.switch_count, 1);
    assert_eq!(summary.throw_count, 1);
    assert_eq!(summary.instruction_count, 7);
}

#[test]
fn truncated_instruction_is_rejected() {
    let err = summarize_code_units(&[0x0000, 0x006e, 1]).expect_err("truncated");
    assert_eq!(err.message(), "invalid instruction at code-unit offset 1, opcode 0x6e");
    let err = summarize_code_units(&[0x0100]).expect_err("payload");
    assert_eq!(err.message(), "invalid instruction at code-unit offset 0, opcode 0x00");
}

fn empty_header() -> Vec<u8> {
    let mut bytes = vec![0u8; 112];
    bytes[0..8].copy_from_slice(b"dex\n035\0");
    bytes[32..36].copy_from_slice(&112u32.to_le_bytes());
    bytes[36..40].copy_from_slice(&112u32.to_le_bytes());
    bytes[40..44].copy_from_slice(&0x12345678u32.to_le_bytes());
    bytes[52..56].copy_from_slice(&112u32.to_le_bytes());
    bytes
}

#[test]
fn parses_empty_header() {
    let bytes = empty_header();
    let raw = parse_raw_dex(&bytes).expect("parse");
    assert_eq!(raw.header.version, "035");
    assert_eq!(raw.header.file_size, 112);
    assert!(raw.strings.is_empty());
    assert!(raw.classes.is_empty());
}

#[test]
fn rejects_bad_endian_tag() {
    let mut bytes = vec![0u8; 112];
    bytes[0..8].copy_from_slice(b"dex\n035\0");
    bytes[32..36].copy_from_slice(&112u32.to_le_bytes());
    bytes[36..40].copy_from_slice(&112u32.to_le_bytes());
    bytes[40..44].copy_from_slice(&0x78563412u32.to_le_bytes());

    let err = parse_raw_dex(&bytes).expect_err("bad endian");
    assert!(err.message().contains("unsupported endian tag"));
    assert_eq!(err.message(), "invalid DEX header: unsupported endian tag 0x78563412");
}

#[test]
fn header_errors_name_the_problem() {
    let mut bytes = empty_header();
    bytes[36..40].copy_from_slice(&100u32.to_le_bytes());
    assert_eq!(parse_dex(&bytes).expect_err("size").message(), "invalid DEX header: header_size is 100, expected 112");
    let mut bytes = empty_header();
    bytes[32..36].copy_from_slice(&500u32.to_le_bytes());
    assert_eq!(parse_dex(&bytes).expect_err("file").message(), "invalid DEX header: file_size 500 exceeds buffer length 112");
    let bytes = &empty_header()[..50];
    assert_eq!(parse_dex(bytes).expect_err("short").message(), "unexpected end of DEX at offset 56; needed 4 bytes, file length is 50");
}

#[test]
fn parses_string_and_type_tables() {
    let mut bytes = empty_header();
    // one string at 120: length 3, "La;" then zero
    bytes[56..60].copy_from_slice(&1u32.to_le_bytes());
    bytes[60..64].copy_from_slice(&112u32.to_le_bytes());
    bytes[64..68].copy_from_slice(&1u32.to_le_bytes());
    bytes[68..72].copy_from_slice(&116u32.to_le_bytes());
    bytes.extend_from_slice(&120u32.to_le_bytes());
    bytes.extend_from_slice(&0u32.to_le_bytes());
    bytes.extend_from_slice(&[3, b'L', b'a', b';', 0]);
    let len = bytes.len() as u32;
    bytes[32..36].copy_from_slice(&len.to_le_bytes());
    let raw = parse_raw_dex(&bytes).expect("parse");
    assert_eq!(raw.strings, vec!["La;".to_string()]);
    assert_eq!(raw.types, vec!["La;".to_string()]);

    bytes[116..120].copy_from_slice(&7u32.to_le_bytes());
    let err = parse_raw_dex(&bytes).expect_err("type index");
    assert_eq!(err.message(), "invalid DEX header: type descriptor index 7 is out of range");
}

#[test]
fn parses_a_code_item() {
    let mut bytes = vec![0u8; 4];
    bytes.extend_from_slice(&[2, 0, 1, 0, 0, 0, 0, 0, 0, 0, 0, 0, 1, 0, 0, 0, 0x0e, 0x00]);
    let code = parse_code_item(&bytes, 4).expect("code");
    assert_eq!(code.registers_size, 2);
    assert_eq!(code.ins_size, 1);
    assert_eq!(code.insns_size, 1);
    assert_eq!(code.instruction_summary.return_count, 1);
    let err = parse_code_item(&bytes, 10).expect_err("eof");
    assert!(err.message().starts_with("unexpected end of DEX"));
}

#[test]
fn shortest_uleb128_encodings_read_back_anywhere_in_a_buffer() {
    let bytes = [9, 9, 0xe5, 0x8e, 0x26, 7];
    let value = read_uleb128(&bytes, 2).expect("read");
    assert_eq!((value.value, value.bytes_read), (624_485, 3));
    let max = [0x55, 0xff, 0xff, 0xff, 0xff, 0x0f, 0x55];
    let value = read_uleb128(&max, 1).expect("read");
    assert_eq!((value.value, value.bytes_read), (u32::MAX, 5));
    let zero = [0x80, 0x00];
    let value = read_uleb128(&zero, 1).expect("read");
    assert_eq!((value.value, value.bytes_read), (0, 1));
}

#[test]
fn summary_uses_follow_the_code_units() {
    let code_units = [0x106e, 5, 0, 0x106e, 3, 0, 0x0052, 4, 0x0054, 4, 0x000e];
    let summary = summarize_code_units(&code_units).expect("summary");
    assert_eq!(summary.method_refs, vec![3, 5]);
    assert_eq!(summary.field_refs, vec![4]);
    let offsets: Vec<u32> = summary.method_ref_uses.iter().map(|r| r.offset_code_unit).collect();
    assert_eq!(offsets, vec![0, 3]);
    for reference in summary.method_ref_uses.iter().chain(&summary.field_ref_uses) {
        assert_eq!(code_units[reference.offset_code_unit as usize] & 0xff, reference.opcode as u16);
    }
    let total: u32 = summary.opcode_histogram.values().sum();
    assert_eq!(total, summary.instruction_count);
    assert_eq!(summary.instruction_count, 5);
}

#[test]
fn class_data_indices_are_running_sums_per_list() {
    // one static field, one instance field, two direct methods, no virtual method
    let bytes = [
        0x7f, 1, 1, 2, 0, //
        3, 0x08, //
        3, 0x01, //
        4, 0x01, 0x10, 2, 0x02, 0x00,
    ];
    let data = parse_class_data(&bytes, 1).expect("class data");
    assert_eq!(data.static_fields[0].field_idx, 3);
    assert_eq!(data.instance_fields[0].field_idx, 3);
    assert_eq!(data.instance_fields[0].access_flags, 1);
    let methods: Vec<(u32, u32, u32)> =
        data.direct_methods.iter().map(|m| (m.method_idx, m.access_flags, m.code_off)).collect();
    assert_eq!(methods, vec![(4, 1, 0x10), (6, 2, 0)]);
    assert!(data.virtual_methods.is_empty());
}

#[test]
fn code_item_reads_only_when_its_code_units_are_present() {
    let mut bytes = vec![0u8; 16];
    bytes[12] = 2;
    bytes.extend_from_slice(&[0x0e, 0x00]);
    let err = parse_code_item(&bytes, 0).expect_err("short");
    assert!(err.message().starts_with("unexpected end of DEX"));
    bytes.extend_from_slice(&[0x0e, 0x00]);
    let code = parse_code_item(&bytes, 0).expect("code");
    assert_eq!(code.insns_size, 2);
    assert_eq!(code.instruction_summary.return_count, 2);
}
