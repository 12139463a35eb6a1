use std::io::{Cursor, Write};

use unoc_rs::input::{
    finish_split_directory, prefix_bundle_parts, resolve_app_input, resolve_bundle_archive, split_entry_kind, ApkPart,
    InputAction, InputKind, SplitEntry,
};

fn zip_bytes(entries: &[(&str, &[u8])]) -> Vec<u8> {
    let mut zip = zip::ZipWriter::new(Cursor::new(Vec::new()));
    let options = zip::write::SimpleFileOptions::default();
    for (name, bytes) in entries {
        zip.start_file(*name, options).expect("start zip entry");
        zip.write_all(bytes).expect("write zip entry");
    }
    zip.finish().expect("finish zip").into_inner()
}

fn apk_part(name: &str) -> ApkPart {
    ApkPart { part_name: name.to_string(), path: Some(format!("splits/{name}")), bytes: Vec::new() }
}

fn names(parts: &[ApkPart]) -> Vec<&str> {
    parts.iter().map(|part| part.part_name.as_str()).collect()
}

#[test]
fn resolves_single_apk_as_one_part() {
    let action = resolve_app_input("tmp/app.apk", Some("app.apk".to_string()), true, false, Some("apk".to_string()))
        .expect("resolve");
    let InputAction::Resolved(resolved) = action else {
        panic!("expected a resolved APK");
    };

    assert_eq!(resolved.kind, InputKind::ApkFile);
    assert_eq!(resolved.parts.len(), 1);
    assert_eq!(resolved.parts[0].part_name, "app.apk");
    assert_eq!(resolved.parts[0].path.as_deref(), Some("tmp/app.apk"));
}

#[test]
fn resolves_apks_archive_entries() {
    let action = resolve_app_input("app.apks", Some("app.apks".to_string()), true, false, Some("APKS".to_string()))
        .expect("resolve");
    assert!(matches!(action, InputAction::ReadBundleArchive));
    let bytes = zip_bytes(&[
        ("splits/split_config.en.apk", b"PK fake apk bytes"),
        ("base.apk", b"PK fake base bytes"),
        ("toc.pb", b"ignored"),
    ]);

    let resolved = resolve_bundle_archive("app.apks", &bytes).expect("resolve");

    assert_eq!(resolved.kind, InputKind::BundleArchive);
    assert_eq!(names(&resolved.parts), vec!["base.apk", "split_config.en.apk"]);
    assert_eq!(resolved.parts[0].bytes, b"PK fake base bytes");
    assert_eq!(resolved.parts[0].path, None);
}

#[test]
fn resolves_split_directory_sorted_by_name_with_base_first() {
    let action = resolve_app_input("splits", Some("splits".to_string()), true, true, None).expect("resolve");
    assert!(matches!(action, InputAction::ReadSplitDirectory));
    let parts = vec![apk_part("split_config.arm64_v8a.apk"), apk_part("base.apk")];

    let resolved = finish_split_directory("splits", parts).expect("resolve");

    assert_eq!(resolved.kind, InputKind::SplitDirectory);
    assert_eq!(names(&resolved.parts), vec!["base.apk", "split_config.arm64_v8a.apk"]);
}

#[test]
fn resolves_bundle_archive_inside_split_directory() {
    assert!(matches!(split_entry_kind(Some("xapk")), SplitEntry::Bundle));
    assert!(matches!(split_entry_kind(Some("Apk")), SplitEntry::Apk));
    assert!(matches!(split_entry_kind(Some("txt")), SplitEntry::Other));
    assert!(matches!(split_entry_kind(None), SplitEntry::Other));
    let bytes = zip_bytes(&[
        ("splits/split_config.en.apk", b"PK fake apk bytes"),
        ("base.apk", b"PK fake base bytes"),
    ]);
    let bundle = resolve_bundle_archive("download/app.xapk", &bytes).expect("bundle");

    let resolved = finish_split_directory("download", prefix_bundle_parts("app.xapk", bundle.parts)).expect("resolve");

    assert_eq!(resolved.kind, InputKind::SplitDirectory);
    assert_eq!(names(&resolved.parts), vec!["app.xapk!base.apk", "app.xapk!split_config.en.apk"]);
}

#[test]
fn missing_input_error_is_actionable() {
    let error = match resolve_app_input("missing-old.apk", None, false, false, Some("apk".to_string())) {
        Err(error) => error,
        Ok(_) => panic!("expected an error"),
    };
    assert!(error.message().contains("input APK path does not exist"));
}

#[test]
fn empty_inputs_and_unknown_types_are_refused() {
    match finish_split_directory("empty", Vec::new()) {
        Err(error) => assert_eq!(error.message(), "no APK parts found in input: empty"),
        Ok(_) => panic!("expected an error"),
    }
    match resolve_app_input("notes.txt", None, true, false, Some("txt".to_string())) {
        Err(error) => assert_eq!(error.message(), "input type cannot be recognized: notes.txt"),
        Ok(_) => panic!("expected an error"),
    }
}
