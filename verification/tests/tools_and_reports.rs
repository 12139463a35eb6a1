use std::collections::BTreeMap;
use std::io::{Cursor, Write};

use unoc_rs::apk::read_apk;
use unoc_rs::cli::{subcommand_config, text_row_limits, AuditRefsArgs, CliCommand, InspectArgs, ToolCommand};
use unoc_rs::error::UnocRsError;
use unoc_rs::fingerprint::fingerprint_app;
use unoc_rs::input::InputKind;
use unoc_rs::inspect::{finish_inspect_report, inspect_part, new_inspect_report, render_inspect_summary};
use unoc_rs::labels::{class_label, ClassLabelIndex};
use unoc_rs::chunks::{chunk_file_name, chunk_ranges, chunking_needed, preview_rows};
use unoc_rs::mapping::{class_in_tier, unsafe_reason, ClassLink, MappingTier, MatchStatus};
use unoc_rs::memory::{
    check_hard_limit, format_bytes, memory_limit_request, requested_rlimit, MemoryLimit, MemoryRequest, GIB, KIB, MIB,
};
use unoc_rs::model::{AppModel, ClassModel, DexOrigin, FieldModel, MethodCodeSummary, MethodModel, ParseCoverage};
use unoc_rs::pipeline::{candidate_limit, check_package_names, format_match_stats};
use unoc_rs::progress::Progress;

fn test_app_with_one_class() -> AppModel {
    AppModel {
        apk_name: "app.apk".to_string(),
        package_name: None,
        classes: vec![ClassModel {
            id: 1,
            descriptor: "La/b/C;".to_string(),
            access_flags: 1,
            superclass: Some("Ljava/lang/Object;".to_string()),
            interfaces: vec!["Ljava/io/Serializable;".to_string()],
            methods: vec![MethodModel {
                id: 1,
                owner_class: "La/b/C;".to_string(),
                name: "a".to_string(),
                return_type: "V".to_string(),
                parameters: vec!["I".to_string()],
                access_flags: 1,
                code: None,
            }],
            fields: vec![FieldModel {
                id: 1,
                owner_class: "La/b/C;".to_string(),
                name: "b".to_string(),
                field_type: "I".to_string(),
                access_flags: 2,
            }],
            origin: DexOrigin {
                apk_part: "base.apk".to_string(),
                dex_file: "classes.dex".to_string(),
                dex_index: 0,
                class_def_index: Some(0),
            },
        }],
        coverage: ParseCoverage::default(),
    }
}

fn has(v: &[String], s: &str) -> bool {
    v.iter().any(|x| x == s)
}

#[test]
fn fingerprints_are_sorted_and_deterministic() {
    let app = test_app_with_one_class();

    let fp = fingerprint_app(&app);
    assert_eq!(fp.classes[0].package_shape, "*.*");
    assert!(has(&fp.classes[0].method_shapes, "a(I)->V"));
    assert!(has(&fp.classes[0].method_proto_shapes, "(I)->V"));
    assert!(has(&fp.classes[0].field_shapes, "b:I"));
    assert!(has(&fp.classes[0].field_type_shapes, "I"));
    assert_eq!(fingerprint_app(&app), fp);
}

#[test]
fn fingerprints_include_method_code_refs() {
    let mut app = test_app_with_one_class();
    app.classes[0].methods[0].code = Some(MethodCodeSummary {
        registers_size: 3,
        ins_size: 1,
        outs_size: 2,
        instruction_count: 10,
        opcode_histogram: BTreeMap::from([(0x0e, 1)]),
        string_refs: vec!["login".to_string()],
        method_refs: vec!["sdk:android/view/View->setOnClickListener".to_string()],
        field_refs: vec!["local:int".to_string()],
        branch_count: 1,
        return_count: 1,
        throw_count: 0,
        switch_count: 0,
    });

    let fp = fingerprint_app(&app);

    assert_eq!(fp.classes[0].instruction_count, 10);
    assert!(has(&fp.classes[0].strings, "login"));
    assert!(has(&fp.classes[0].method_ref_shapes, "sdk:android/view/View->setOnClickListener"));
    assert!(has(&fp.classes[0].field_ref_shapes, "local:int"));
}

#[test]
fn fingerprints_include_class_reference_shapes() {
    let mut app = test_app_with_one_class();
    app.classes[0].superclass = Some("Lpkg/Base;".to_string());
    app.classes[0].interfaces = vec!["Lpkg/Interface;".to_string()];
    app.classes[0].methods[0].code = Some(MethodCodeSummary {
        registers_size: 3,
        ins_size: 1,
        outs_size: 2,
        instruction_count: 10,
        opcode_histogram: BTreeMap::from([(0x6e, 1), (0x52, 1)]),
        string_refs: Vec::new(),
        method_refs: vec!["Lpkg/Service;->call(I)->V".to_string()],
        field_refs: vec!["Lpkg/State;->value:I".to_string()],
        branch_count: 0,
        return_count: 1,
        throw_count: 0,
        switch_count: 0,
    });

    let fp = fingerprint_app(&app);
    let refs = &fp.classes[0].class_ref_shapes;

    assert!(has(refs, "Lpkg/Base;"));
    assert!(has(refs, "Lpkg/Interface;"));
    assert!(has(refs, "Lpkg/Service;"));
    assert!(has(refs, "Lpkg/State;"));
}

#[test]
fn fingerprint_counts_add_up_and_classes_sort_by_descriptor() {
    let mut app = test_app_with_one_class();
    let mut second = app.classes[0].clone();
    second.id = 2;
    second.descriptor = "La/A;".to_string();
    let summary = |count: u32, hist: &[(u8, u32)]| MethodCodeSummary {
        registers_size: 1,
        ins_size: 0,
        outs_size: 0,
        instruction_count: count,
        opcode_histogram: hist.iter().cloned().collect(),
        string_refs: Vec::new(),
        method_refs: Vec::new(),
        field_refs: Vec::new(),
        branch_count: 0,
        return_count: 0,
        throw_count: 0,
        switch_count: 0,
    };
    let mut other = second.methods[0].clone();
    other.name = "b".to_string();
    second.methods[0].code = Some(summary(3, &[(0x0e, 2), (0x12, 1)]));
    other.code = Some(summary(u32::MAX, &[(0x0e, 5)]));
    second.methods.push(other);
    app.classes.push(second);

    let fp = fingerprint_app(&app);
    assert_eq!(fp.classes[0].descriptor, "La/A;");
    assert_eq!(fp.classes[1].descriptor, "La/b/C;");
    assert_eq!(fp.classes[0].instruction_count, 2);
    assert_eq!(fp.classes[0].opcode_histogram, BTreeMap::from([(0x0e, 7), (0x12, 1)]));
    assert_eq!(fp.classes[0].method_shapes, vec!["a(I)->V".to_string(), "b(I)->V".to_string()]);
    assert_eq!(fp.classes[0].method_proto_shapes, vec!["(I)->V".to_string()]);
}

#[test]
fn class_labels_name_descriptor_and_origin() {
    let mut app = test_app_with_one_class();
    assert_eq!(class_label(&app, Some(1)), "La/b/C; (base.apk!classes.dex#0)");
    assert_eq!(class_label(&app, Some(9)), "#9");
    assert_eq!(class_label(&app, None), "");
    app.classes[0].origin.class_def_index = None;
    let index = ClassLabelIndex::new(&app);
    assert_eq!(index.label(Some(1)), "La/b/C; (base.apk!classes.dex#?)");
    assert_eq!(index.label(Some(2)), "#2");
    assert_eq!(index.label(None), "");
    assert_eq!(index.label(Some(1)), class_label(&app, Some(1)));
}

#[test]
fn memory_limits_show_their_size() {
    assert_eq!(MemoryLimit::from_bytes(12 * GIB).text(), "12g");
    assert_eq!(MemoryLimit::from_bytes(3 * MIB).text(), "3m");
    assert_eq!(MemoryLimit::from_bytes(1536 * KIB).text(), "1572864b");
    assert_eq!(MemoryLimit::disabled().text(), "disabled");
    assert_eq!(MemoryLimit::from_bytes(7).bytes(), Some(7));
    assert_eq!(MemoryLimit::disabled().bytes(), None);
    assert_eq!(format_bytes(0), "0g");
}

#[test]
fn memory_arguments_split_into_number_and_unit() {
    let amount = |n: &str, m: u64| Ok(MemoryRequest::Amount { number: n.to_string(), multiplier: m });
    assert_eq!(memory_limit_request("12g"), amount("12", GIB));
    assert_eq!(memory_limit_request(" 12_G "), amount("12", GIB));
    assert_eq!(memory_limit_request("1.5m"), amount("1.5", MIB));
    assert_eq!(memory_limit_request("2KiB"), amount("2", KIB));
    assert_eq!(memory_limit_request("3mb"), amount("3", MIB));
    assert_eq!(memory_limit_request("5b"), amount("5", 1));
    assert_eq!(memory_limit_request("4096"), amount("4096", 1));
    assert_eq!(memory_limit_request("-1g"), amount("-1", GIB));
    assert_eq!(memory_limit_request("wat"), amount("wat", 1));
    assert_eq!(memory_limit_request("0"), Ok(MemoryRequest::Disabled));
    assert_eq!(memory_limit_request("off"), Ok(MemoryRequest::Disabled));
    assert_eq!(memory_limit_request("Unlimited"), Ok(MemoryRequest::Disabled));
    assert_eq!(memory_limit_request("  "), Err("memory limit cannot be empty".to_string()));
    assert_eq!(memory_limit_request("g"), Err("invalid memory limit: g".to_string()));
}

#[test]
fn memory_caps_are_checked_against_the_platform() {
    assert_eq!(requested_rlimit(5, u64::MAX).ok(), Some(5));
    match requested_rlimit(u64::MAX, u64::MAX) {
        Err(e) => assert_eq!(e.message(), "memory limit is too large for this platform: 18446744073709551615b"),
        Ok(_) => panic!("expected an error"),
    }
    assert!(check_hard_limit(4 * GIB, u64::MAX, u64::MAX).is_ok());
    assert!(check_hard_limit(2 * GIB, 2 * GIB, u64::MAX).is_ok());
    match check_hard_limit(4 * GIB, 2 * GIB, u64::MAX) {
        Err(e) => assert_eq!(e.message(), "memory limit 4g is above the process hard limit 2g"),
        Ok(()) => panic!("expected an error"),
    }
}

#[test]
fn progress_lines_show_bar_percent_and_stats() {
    let mut progress = Progress::new(true);
    progress.set_total(4);
    assert_eq!(
        progress.stage_stats("resolve input", "output: out", 0).expect("line"),
        "[#####---------------] 25% done | 75% left | stage: resolve input (1 of 4) | elapsed: 0s | avg 0s/stage | output: out"
    );
    assert_eq!(
        progress.stage("parse dex", 9).expect("line"),
        "[##########----------] 50% done | 50% left | stage: parse dex (2 of 4) | elapsed: 9s | avg 4s/stage"
    );
    progress.stage("a", 9);
    progress.stage("b", 9);
    assert!(progress.stage("extra", 10).expect("line").starts_with("[####################] 100% done | 0% left"));
    let mut quiet = Progress::new(false);
    quiet.set_total(3);
    assert_eq!(quiet.stage("x", 1), None);
}

#[test]
fn subcommands_carry_their_arguments_and_the_progress_switch() {
    let args = AuditRefsArgs {
        target: "patched.xapk".to_string(),
        source_dexes: vec!["classes37.dex".to_string()],
        references: vec!["bridge.dex".to_string()],
        ignore_prefixes: vec!["Ldev/fotok/".to_string()],
        include_prefixes: vec!["Ljava/".to_string()],
        mapping: None,
        allow_missing: 2,
        output: "report".to_string(),
    };
    match subcommand_config(CliCommand::AuditRefs(args), true, false) {
        ToolCommand::AuditRefs(config) => {
            assert_eq!(config.source_dexes, ["classes37.dex"]);
            assert_eq!(config.references, ["bridge.dex"]);
            assert_eq!(config.ignore_prefixes, ["Ldev/fotok/"]);
            assert_eq!(config.include_prefixes, ["Ljava/"]);
            assert_eq!(config.allow_missing, 2);
            assert!(config.progress);
        },
        _ => panic!("expected audit command"),
    }
    match subcommand_config(CliCommand::Inspect(InspectArgs { input: "a".into(), output: "b".into() }), true, true) {
        ToolCommand::Inspect(config) => assert!(!config.progress),
        _ => panic!("expected inspect command"),
    }
    assert_eq!(text_row_limits(true, 2000, 10000), (0, 0));
    assert_eq!(text_row_limits(false, 2000, 10000), (2000, 10000));
}

#[test]
fn compare_run_checks_packages_and_counts_statuses() {
    let a = Some("com.a".to_string());
    let b = Some("com.b".to_string());
    assert!(check_package_names(true, &a, &a).is_ok());
    assert!(check_package_names(false, &a, &b).is_ok());
    assert!(check_package_names(true, &None, &b).is_ok());
    match check_package_names(true, &a, &b) {
        Err(UnocRsError::PackageMismatch { old, new }) => {
            assert_eq!(old, "com.a");
            assert_eq!(new, "com.b");
        },
        other => panic!("unexpected {other:?}"),
    }
    assert_eq!(candidate_limit(true, 10), 3);
    assert_eq!(candidate_limit(true, 2), 2);
    assert_eq!(candidate_limit(false, 10), 10);
    assert_eq!(
        format_match_stats(&[MatchStatus::Matched, MatchStatus::Conflict, MatchStatus::Matched, MatchStatus::UnresolvedNew]),
        "classes matched=2 low=0 conflict=1 semantic_break=0 unresolved_old=0 unresolved_new=1"
    );
}

fn zip_bytes(entries: &[(&str, &[u8])]) -> Vec<u8> {
    let mut zip = zip::ZipWriter::new(Cursor::new(Vec::new()));
    let options = zip::write::SimpleFileOptions::default();
    for (name, bytes) in entries {
        zip.start_file(*name, options).expect("start zip entry");
        zip.write_all(bytes).expect("write zip entry");
    }
    zip.finish().expect("finish zip").into_inner()
}

fn empty_dex_header(version: &str) -> Vec<u8> {
    let mut bytes = vec![0u8; 112];
    bytes[0..4].copy_from_slice(b"dex\n");
    bytes[4..7].copy_from_slice(version.as_bytes());
    bytes[32..36].copy_from_slice(&112u32.to_le_bytes());
    bytes[36..40].copy_from_slice(&112u32.to_le_bytes());
    bytes[40..44].copy_from_slice(&0x12345678u32.to_le_bytes());
    bytes[52..56].copy_from_slice(&112u32.to_le_bytes());
    bytes
}

#[test]
fn inspect_writes_summary_and_json() {
    let bytes = zip_bytes(&[("classes.dex", &empty_dex_header("035")), ("classes2.dex", b"not a dex")]);
    let mut report = new_inspect_report("app.apk".to_string(), InputKind::ApkFile, 2);
    let apk = read_apk("app.apk", Some("app.apk".to_string()), bytes);
    inspect_part(&mut report, "app.apk".to_string(), Some("app.apk".to_string()), apk);
    inspect_part(&mut report, "split.apk".to_string(), None, Err(UnocRsError::NoDexFiles("split.apk".to_string())));
    finish_inspect_report(&mut report);

    assert_eq!(report.totals.parts, 2);
    assert_eq!(report.totals.readable_parts, 1);
    assert_eq!(report.totals.dex_files, 2);
    assert_eq!(report.totals.parsed_dex_files, 1);
    assert_eq!(report.totals.failed_dex_files, 1);
    assert_eq!(report.warning_count, 2);
    assert_eq!(report.warnings[0], "app.apk!classes2.dex: invalid DEX magic");
    assert_eq!(report.warnings[1], "split.apk!-: no DEX files found in split.apk");

    let summary = render_inspect_summary(&report);
    assert!(summary.starts_with("unoc-rs Inspect Report\n======================\n\nInput: app.apk\nKind: ApkFile\nParts: 2\n"));
    assert!(summary.contains("warnings: 2\n"));
    assert!(summary.contains("Part: app.apk\n  Path: app.apk\n"));
    assert!(summary.contains("  - classes.dex #0: 112 bytes, parsed=true, classes=0, methods=0, fields=0\n"));
    assert!(summary.contains("    Error: invalid DEX magic\n"));
    assert!(summary.contains("Part: split.apk\n  Error: no DEX files found in split.apk\n"));
    assert!(summary.ends_with("Unresolved\n----------\napp.apk!classes2.dex: invalid DEX magic\nsplit.apk!-: no DEX files found in split.apk\n"));
}

#[test]
fn inspect_summary_says_none_without_issues() {
    let mut report = new_inspect_report("dir".to_string(), InputKind::SplitDirectory, 0);
    finish_inspect_report(&mut report);
    let summary = render_inspect_summary(&report);
    assert!(summary.contains("Kind: SplitDirectory\n"));
    assert!(summary.ends_with("\nUnresolved\n----------\nnone\n"));
}

#[test]
fn mapping_chunks_cover_every_row_once() {
    assert_eq!(chunk_ranges(0, 3), Vec::<(usize, usize)>::new());
    assert_eq!(chunk_ranges(7, 3), vec![(1, 3), (4, 6), (7, 7)]);
    assert_eq!(chunk_ranges(6, 3), vec![(1, 3), (4, 6)]);
    assert_eq!(chunk_ranges(2, 10), vec![(1, 2)]);
    assert_eq!(chunk_file_name("matched-classes", 1), "matched-classes-0001.txt");
    assert_eq!(chunk_file_name("conflicts", 12345), "conflicts-12345.txt");
    assert!(chunking_needed(&[1, 5, 2], 4));
    assert!(!chunking_needed(&[1, 4, 2], 4));
    assert_eq!(preview_rows(5, Some(3)), (3, true));
    assert_eq!(preview_rows(2, Some(3)), (2, false));
    assert_eq!(preview_rows(9, None), (9, false));
}

#[test]
fn tier_files_sort_matches_by_verdict_and_reasons() {
    let link = |status: MatchStatus, reasons: &[&str]| ClassLink {
        old_class_id: Some(1),
        new_class_id: Some(2),
        status,
        reasons: reasons.iter().map(|r| r.to_string()).collect(),
    };
    let verified = link(MatchStatus::Matched, &["verified: exact class fingerprint"]);
    let name_only = link(MatchStatus::LowConfidence, &["same descriptor"]);
    let weak = link(MatchStatus::Matched, &["same descriptor", "unsafe same descriptor: weak method shape overlap"]);
    let conflict = link(MatchStatus::Conflict, &[]);
    assert!(class_in_tier(&verified, MappingTier::Verified));
    assert!(!class_in_tier(&verified, MappingTier::NameOnly));
    assert!(class_in_tier(&name_only, MappingTier::NameOnly));
    assert!(!class_in_tier(&name_only, MappingTier::Verified));
    assert!(class_in_tier(&weak, MappingTier::NameOnly));
    assert!(class_in_tier(&weak, MappingTier::Unsafe));
    assert!(class_in_tier(&conflict, MappingTier::Unsafe));
    assert_eq!(unsafe_reason(&weak), "weak same-descriptor match");
    assert_eq!(unsafe_reason(&conflict), "Conflict");
    assert_eq!(unsafe_reason(&link(MatchStatus::SemanticBreak, &[])), "semantic break");
}
