use std::collections::BTreeMap;
use std::io::{Cursor, Write};

use unoc_rs::apk::{dex_sort_key, is_classes_dex_name, read_apk, read_apk_part_bytes, read_package_name, ApkInput,
    DexBlob};
use unoc_rs::dex::class_data::{EncodedClassData, EncodedField, EncodedMethod};
use unoc_rs::dex::instructions::InstructionSummary;
use unoc_rs::dex::raw::{ClassDef, CodeItem, FieldId, MethodId, ParseWarning, ParseWarningKind, ProtoId, RawDex};
use unoc_rs::dex::ParsedDex;
use unoc_rs::error::UnocRsError;
use unoc_rs::model::{build_app_model, build_app_model_streaming};

fn zip_bytes(entries: &[(&str, &[u8])]) -> Vec<u8> {
    let mut zip = zip::ZipWriter::new(Cursor::new(Vec::new()));
    let options = zip::write::SimpleFileOptions::default();
    for (name, bytes) in entries {
        zip.start_file(*name, options).expect("start zip entry");
        zip.write_all(bytes).expect("write zip entry");
    }
    zip.finish().expect("finish zip").into_inner()
}

#[test]
fn identifies_classes_dex_entries() {
    assert!(is_classes_dex_name("classes.dex"));
    assert!(is_classes_dex_name("classes2.dex"));
    assert!(is_classes_dex_name("classes10.dex"));
    assert!(!is_classes_dex_name("classes.dex.bak"));
    assert!(!is_classes_dex_name("assets/classes.dex"));
}

#[test]
fn sorts_primary_dex_first() {
    assert_eq!(dex_sort_key("classes.dex"), 1);
    assert_eq!(dex_sort_key("classes2.dex"), 2);
    assert_eq!(dex_sort_key("classes10.dex"), 10);
}

#[test]
fn dex_entry_names_need_digits_between_prefix_and_suffix() {
    assert!(!is_classes_dex_name("classesA.dex"));
    assert!(!is_classes_dex_name("classes.de"));
    assert!(!is_classes_dex_name("Classes2.dex"));
    assert!(is_classes_dex_name("classes007.dex"));
    assert_eq!(dex_sort_key("classes007.dex"), 7);
    assert_eq!(dex_sort_key("classes99999999999999999999999.dex"), usize::MAX);
}

#[test]
fn dex_sort_key_reads_any_name_with_a_middle() {
    assert_eq!(dex_sort_key("classesX.dex"), usize::MAX);
    assert_eq!(dex_sort_key("classes+5.dex"), 5);
    assert_eq!(dex_sort_key("classes+.dex"), usize::MAX);
    assert_eq!(dex_sort_key("otherfile2.bin"), usize::MAX);
    assert_eq!(dex_sort_key("abcdefg12wxyz"), 12);
    assert_eq!(dex_sort_key("abcdefg12.wxyz"), usize::MAX);
    assert_eq!(dex_sort_key("classesé3.dex"), usize::MAX);
}

#[test]
fn finds_and_orders_multi_dex_entries() {
    let bytes = zip_bytes(&[
        ("classes3.dex", b"dex\n035\0third"),
        ("assets/readme.txt", b"ignored"),
        ("classes.dex", b"dex\n035\0first"),
        ("classes2.dex", b"dex\n035\0second"),
    ]);
    let input = read_apk("app.apk", Some("app.apk".to_string()), bytes).expect("read apk");
    let names: Vec<_> = input.dex_files.iter().map(|dex| dex.name.as_str()).collect();
    assert_eq!(names, vec!["classes.dex", "classes2.dex", "classes3.dex"]);
    assert_eq!(input.dex_files[0].dex_index, 0);
    assert_eq!(input.dex_files[1].dex_index, 1);
    assert_eq!(input.dex_files[2].dex_index, 2);
    assert_eq!(input.dex_files[0].bytes, b"dex\n035\0first".to_vec());
    assert_eq!(input.dex_files[0].apk_part, "app.apk");
    assert_eq!(input.apk_parts, 1);
}

#[test]
fn returns_error_when_apk_has_no_dex_entries() {
    let bytes = zip_bytes(&[("AndroidManifest.xml", b"manifest")]);
    let err = read_apk("empty.apk", Some("empty.apk".to_string()), bytes).expect_err("no dex error");
    assert!(err.message().contains("no DEX files found"));
    assert_eq!(err, UnocRsError::NoDexFiles("empty.apk".to_string()));
}

#[test]
fn dex_blob_records_apk_part_name() {
    let bytes = zip_bytes(&[("classes.dex", b"dex\n035\0first")]);
    let input = read_apk_part_bytes("dir/base.apk", Some("base.apk".to_string()), "base.apk", bytes)
        .expect("read apk part");
    assert_eq!(input.dex_files[0].apk_part, "base.apk");
    assert_eq!(input.dex_files[0].name, "classes.dex");
    assert_eq!(input.path, "dir/base.apk");
}

#[test]
fn unnamed_path_reads_as_input_apk_part() {
    let bytes = zip_bytes(&[("classes.dex", b"dex")]);
    let input = read_apk("..", None, bytes).expect("read apk");
    assert_eq!(input.dex_files[0].apk_part, "input.apk");
    assert_eq!(input.file_name, None);
}

#[test]
fn equal_dex_keys_keep_archive_order() {
    let bytes = zip_bytes(&[("classes02.dex", b"a"), ("classes2.dex", b"b"), ("classes.dex", b"c")]);
    let input = read_apk("x.apk", None, bytes).expect("read apk");
    let names: Vec<_> = input.dex_files.iter().map(|dex| dex.name.as_str()).collect();
    assert_eq!(names, vec!["classes.dex", "classes02.dex", "classes2.dex"]);
}

#[test]
fn reads_package_from_text_manifest_in_archive() {
    let bytes = zip_bytes(&[
        ("AndroidManifest.xml", b"<manifest package=\"com.example.app\">"),
        ("classes.dex", b"dex"),
    ]);
    let input = read_apk("x.apk", None, bytes).expect("read apk");
    assert_eq!(input.package_name, Some("com.example.app".to_string()));
}

#[test]
fn rejects_bytes_that_are_not_a_zip() {
    let err = read_apk("bad.apk", None, b"not a zip".to_vec()).expect_err("invalid apk");
    assert!(matches!(err, UnocRsError::InvalidApk { ref path, .. } if path == "bad.apk"));
    assert_eq!(err.message(), "file is not a readable APK/ZIP: bad.apk");
}

#[test]
fn reads_text_and_binary_manifest_packages() {
    assert_eq!(read_package_name(b"<manifest xmlns:a=\"x\" package=\"com.a.b\" >"), Some("com.a.b".to_string()));
    assert_eq!(read_package_name(b"<manifest package=\"unterminated"), None);
    assert_eq!(read_package_name(b"<manifest no package here"), None);
    assert_eq!(read_package_name(b"\x03\x00package\x00\x00com.bin.app\x00rest"), Some("com.bin.app".to_string()));
    assert_eq!(read_package_name(b"\x03\x00package\x00\x00nodots\x00"), None);
    assert_eq!(read_package_name(b"nothing"), None);
    assert_eq!(read_package_name(b"<manifest\xff package=\"a.b\""), None);
}

fn input_with(dex_name: &str) -> ApkInput {
    ApkInput {
        path: "old.apk".to_string(),
        file_name: Some("old.apk".to_string()),
        package_name: None,
        apk_parts: 1,
        dex_files: vec![DexBlob {
            apk_part: "base.apk".to_string(),
            name: dex_name.to_string(),
            dex_index: 0,
            bytes: Vec::new(),
        }],
    }
}

fn class(class_type: &str, class_data: Option<EncodedClassData>) -> ClassDef {
    ClassDef {
        class_type: class_type.to_string(),
        access_flags: 1,
        superclass: None,
        interfaces: Vec::new(),
        source_file: None,
        class_data_off: if class_data.is_some() { 1 } else { 0 },
        class_data,
    }
}

#[test]
fn preserves_class_dex_origin() {
    let mut input = input_with("classes2.dex");
    input.package_name = Some("com.example".to_string());
    let mut raw = RawDex::empty_for_test();
    raw.classes.push(ClassDef {
        class_type: "La/b/C;".to_string(),
        access_flags: 1,
        superclass: Some("Ljava/lang/Object;".to_string()),
        interfaces: Vec::new(),
        source_file: None,
        class_data_off: 0,
        class_data: None,
    });
    let model = build_app_model(&input, &[ParsedDex { raw }]).expect("model");
    assert_eq!(model.classes[0].origin.dex_file, "classes2.dex");
    assert_eq!(model.classes[0].origin.class_def_index, Some(0));
}

#[test]
fn model_keeps_empty_member_lists_for_classes_without_class_data() {
    let input = input_with("classes.dex");
    let mut raw = RawDex::empty_for_test();
    raw.classes.push(class("La/B;", None));
    let model = build_app_model(&input, &[ParsedDex { raw }]).expect("model");
    assert!(model.classes[0].methods.is_empty());
    assert!(model.classes[0].fields.is_empty());
}

#[test]
fn model_populates_members_from_class_data() {
    let input = input_with("classes.dex");
    let mut raw = RawDex::empty_for_test();
    raw.fields.push(FieldId { class_type: "La/B;".to_string(), field_type: "I".to_string(), name: "count".to_string() });
    raw.methods.push(MethodId {
        class_type: "La/B;".to_string(),
        name: "run".to_string(),
        proto: ProtoId { shorty: "V".to_string(), return_type: "V".to_string(), parameters: vec!["I".to_string()] },
    });
    raw.classes.push(class(
        "La/B;",
        Some(EncodedClassData {
            static_fields: vec![EncodedField { field_idx: 0, access_flags: 2 }],
            instance_fields: Vec::new(),
            direct_methods: vec![EncodedMethod { method_idx: 0, access_flags: 1, code_off: 0 }],
            virtual_methods: Vec::new(),
        }),
    ));
    let model = build_app_model(&input, &[ParsedDex { raw }]).expect("model");
    assert_eq!(model.classes[0].fields[0].name, "count");
    assert_eq!(model.classes[0].fields[0].field_type, "I");
    assert_eq!(model.classes[0].methods[0].name, "run");
    assert_eq!(model.classes[0].methods[0].parameters, vec!["I"]);
}

#[test]
fn method_model_keeps_code_summary_when_available() {
    let input = input_with("classes.dex");
    let mut raw = RawDex::empty_for_test();
    raw.methods.push(MethodId {
        class_type: "La/B;".to_string(),
        name: "run".to_string(),
        proto: ProtoId { shorty: "V".to_string(), return_type: "V".to_string(), parameters: Vec::new() },
    });
    let mut summary = InstructionSummary::default();
    summary.instruction_count = 1;
    summary.opcode_histogram = BTreeMap::from([(0x0e, 1)]);
    summary.return_count = 1;
    raw.code_items.insert(
        100,
        CodeItem {
            registers_size: 2,
            ins_size: 1,
            outs_size: 0,
            tries_size: 0,
            debug_info_off: 0,
            insns_size: 1,
            instruction_summary: summary,
        },
    );
    raw.classes.push(class(
        "La/B;",
        Some(EncodedClassData {
            static_fields: Vec::new(),
            instance_fields: Vec::new(),
            direct_methods: vec![EncodedMethod { method_idx: 0, access_flags: 1, code_off: 100 }],
            virtual_methods: Vec::new(),
        }),
    ));
    let model = build_app_model(&input, &[ParsedDex { raw }]).expect("model");
    let code = model.classes[0].methods[0].code.as_ref().expect("code");
    assert_eq!(code.instruction_count, 1);
    assert_eq!(code.return_count, 1);
}

#[test]
fn model_sorts_classes_numbers_members_and_counts_coverage() {
    let input = input_with("classes.dex");
    let mut raw = RawDex::empty_for_test();
    raw.strings.push("hello".to_string());
    raw.fields.push(FieldId { class_type: "La/Z;".to_string(), field_type: "I".to_string(), name: "f".to_string() });
    raw.methods.push(MethodId {
        class_type: "La/Z;".to_string(),
        name: "m".to_string(),
        proto: ProtoId {
            shorty: "VIJ".to_string(),
            return_type: "V".to_string(),
            parameters: vec!["I".to_string(), "J".to_string()],
        },
    });
    let mut summary = InstructionSummary::default();
    summary.string_refs = vec![0, 7];
    summary.method_refs = vec![0, 9];
    summary.field_refs = vec![0];
    raw.code_items.insert(
        40,
        CodeItem {
            registers_size: 3,
            ins_size: 1,
            outs_size: 2,
            tries_size: 0,
            debug_info_off: 0,
            insns_size: 4,
            instruction_summary: summary,
        },
    );
    let members = EncodedClassData {
        static_fields: vec![EncodedField { field_idx: 0, access_flags: 8 }, EncodedField { field_idx: 5, access_flags: 8 }],
        instance_fields: vec![EncodedField { field_idx: 0, access_flags: 2 }],
        direct_methods: vec![EncodedMethod { method_idx: 0, access_flags: 1, code_off: 40 }],
        virtual_methods: vec![EncodedMethod { method_idx: 3, access_flags: 1, code_off: 0 }],
    };
    raw.classes.push(class("La/Z;", Some(members)));
    raw.classes.push(class("La/A;", None));
    raw.warnings.push(ParseWarning {
        origin: "La/Z;@0x28".to_string(),
        kind: ParseWarningKind::CodeItem,
        message: "bad".to_string(),
    });
    let model = build_app_model(&input, &[ParsedDex { raw }]).expect("model");
    assert_eq!(model.apk_name, "old.apk");
    assert_eq!(model.classes[0].descriptor, "La/A;");
    assert_eq!(model.classes[0].id, 1);
    assert_eq!(model.classes[1].descriptor, "La/Z;");
    assert_eq!(model.classes[1].id, 0);
    assert_eq!(model.classes[1].fields.len(), 2);
    assert_eq!(model.classes[1].fields[0].id, 0);
    assert_eq!(model.classes[1].fields[1].id, 1);
    assert_eq!(model.classes[1].fields[1].access_flags, 2);
    assert_eq!(model.classes[1].methods.len(), 1);
    let code = model.classes[1].methods[0].code.as_ref().expect("code");
    assert_eq!(code.string_refs, vec!["hello"]);
    assert_eq!(code.method_refs, vec!["La/Z;->m(I,J)->V"]);
    assert_eq!(code.field_refs, vec!["La/Z;->f:I"]);
    assert_eq!(model.coverage.parsed_classes, 2);
    assert_eq!(model.coverage.parsed_methods, 1);
    assert_eq!(model.coverage.parsed_fields, 2);
    assert_eq!(model.coverage.dex_files, 1);
    assert_eq!(model.coverage.warnings[0].origin, "base.apk!classes.dex:La/Z;@0x28");
    assert_eq!(model.coverage.warnings[0].kind, "CodeItem");
}

#[test]
fn extra_parsed_dex_gets_a_generated_name() {
    let mut input = input_with("classes.dex");
    input.file_name = None;
    let mut first = RawDex::empty_for_test();
    first.classes.push(class("La/A;", None));
    let mut second = RawDex::empty_for_test();
    second.classes.push(class("La/B;", None));
    let model = build_app_model(&input, &[ParsedDex { raw: first }, ParsedDex { raw: second }]).expect("model");
    assert_eq!(model.apk_name, "apk");
    assert_eq!(model.classes[1].origin.dex_file, "classes2.dex");
    assert_eq!(model.classes[1].origin.apk_part, "input.apk");
    assert_eq!(model.classes[1].origin.dex_index, 1);
}

#[test]
fn streaming_model_reports_the_first_parse_error() {
    let mut input = input_with("classes.dex");
    input.dex_files[0].bytes = b"not a dex".to_vec();
    let err = build_app_model_streaming(input).expect_err("parse error");
    assert_eq!(err, UnocRsError::InvalidDexMagic);
}
