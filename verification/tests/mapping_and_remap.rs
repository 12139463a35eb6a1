use unoc_rs::error::UnocRsError;
use unoc_rs::mapping::{
    is_safe_match, normalize_class_query, ClassLink, MappingApp, MappingClass, MappingCoverage, MatchStatus, QuerySide,
};
use unoc_rs::model::DexOrigin;
use unoc_rs::remap::{
    check_remap_paths, descriptor_mappings, descriptor_to_smali_path, descriptor_tokens, is_text_like,
    java_name_to_descriptor, normalize_replacements, parse_descriptor_mapping_line, parse_proguard_mapping_line,
    replacements_from_links, replacements_from_text, usable_replacements, Replacement, ReplacementIndex,
};

fn origin(dex: &str, index: Option<usize>) -> DexOrigin {
    DexOrigin { apk_part: "base.apk".to_string(), dex_file: dex.to_string(), dex_index: 0, class_def_index: index }
}

fn mapping_app(name: &str, classes: &[(usize, &str)]) -> MappingApp {
    MappingApp {
        apk_name: name.to_string(),
        package_name: None,
        classes: classes
            .iter()
            .map(|(id, d)| MappingClass { id: *id, descriptor: d.to_string(), origin: origin("classes.dex", Some(*id)) })
            .collect(),
        coverage: MappingCoverage::default(),
    }
}

fn link(old: Option<usize>, new: Option<usize>, status: MatchStatus, reasons: &[&str]) -> ClassLink {
    ClassLink {
        old_class_id: old,
        new_class_id: new,
        status,
        reasons: reasons.iter().map(|r| r.to_string()).collect(),
    }
}

fn pairs(v: &[Replacement]) -> Vec<(String, String)> {
    v.iter().map(|r| (r.old.clone(), r.new.clone())).collect()
}

fn rename(old: &str, new: &str) -> Replacement {
    Replacement { old: old.to_string(), new: new.to_string() }
}

#[test]
fn normalizes_descriptor_queries() {
    assert_eq!(normalize_class_query("LX/0hp4;"), "LX/0hp4;");
    assert_eq!(normalize_class_query("X/0hp4"), "LX/0hp4;");
    assert_eq!(normalize_class_query("com.example.Foo"), "Lcom/example/Foo;");
}

#[test]
fn query_normalization_keeps_a_leading_l_and_is_idempotent() {
    assert_eq!(normalize_class_query("Lcom.example.Foo"), "Lcom/example/Foo;");
    assert_eq!(normalize_class_query(""), "L;");
    let once = normalize_class_query("a.b.C");
    assert_eq!(normalize_class_query(&once), once);
}

#[test]
fn parses_human_mapping_descriptor_line() {
    let line = "[0.96] La/Old; (base.apk!classes.dex#1) -> Lb/New; (base.apk!classes.dex#2)";
    let parsed = parse_descriptor_mapping_line(line).expect("mapping");
    assert_eq!(parsed.0, "La/Old;");
    assert_eq!(parsed.1, "Lb/New;");
}

#[test]
fn descriptor_lines_need_an_arrow_and_tokens_on_both_sides() {
    assert_eq!(parse_descriptor_mapping_line("La/Old; Lb/New;"), None);
    assert_eq!(parse_descriptor_mapping_line("nothing -> Lb/New;"), None);
    assert_eq!(
        parse_descriptor_mapping_line("La/X; La/Old; -> Lb/New; Lb/Y;"),
        Some(("La/Old;".to_string(), "Lb/New;".to_string()))
    );
    assert_eq!(descriptor_tokens("xLa/B;Lc;L"), vec!["La/B;".to_string(), "Lc;".to_string()]);
}

#[test]
fn parses_proguard_class_lines_only() {
    assert_eq!(
        parse_proguard_mapping_line("  a.Safe -> b.Safe:  "),
        Some(("a.Safe".to_string(), "b.Safe".to_string()))
    );
    assert_eq!(parse_proguard_mapping_line("a.B -> c.D::"), Some(("a.B".to_string(), "c.D".to_string())));
    assert_eq!(parse_proguard_mapping_line("# a.B -> c.D:"), None);
    assert_eq!(parse_proguard_mapping_line("a.B -> c.D"), None);
    assert_eq!(parse_proguard_mapping_line("    int field -> a:"), None);
}

#[test]
fn converts_between_java_names_descriptors_and_paths() {
    assert_eq!(java_name_to_descriptor("a.b.C"), "La/b/C;");
    assert_eq!(descriptor_to_smali_path("La/b/C;"), "a/b/C");
    assert_eq!(descriptor_to_smali_path("L;"), "");
    assert_eq!(descriptor_to_smali_path("I"), "I");
}

#[test]
fn skips_unsafe_proguard_mapping_by_default() {
    let text = "a.Safe -> b.Safe:\n# UNSAFE: semantic break\na.Bad -> b.Bad:\n";
    let safe = replacements_from_text(text, false);
    assert_eq!(safe.len(), 1);
    assert_eq!(safe[0].old, "La/Safe;");

    let unsafe_included = replacements_from_text(text, true);
    assert_eq!(unsafe_included.len(), 2);
}

#[test]
fn normalizing_drops_identity_renames_orders_longest_first_and_dedups() {
    let normalized = normalize_replacements(vec![
        rename("La/B;", "La/C;"),
        rename("La/Same;", "La/Same;"),
        rename("La/Long;", "Lb/L;"),
        rename("La/A;", "La/X;"),
        rename("La/B;", "La/C;"),
    ]);
    assert_eq!(
        pairs(&normalized),
        vec![
            ("La/Long;".to_string(), "Lb/L;".to_string()),
            ("La/A;".to_string(), "La/X;".to_string()),
            ("La/B;".to_string(), "La/C;".to_string()),
        ]
    );
}

#[test]
fn replacements_from_matched_links() {
    let old_app = mapping_app("old.apk", &[(1, "La/Old;"), (3, "La/Low;")]);
    let new_app = mapping_app("new.apk", &[(2, "Lb/New;"), (4, "Lb/Low;")]);
    let links = vec![
        link(Some(1), Some(2), MatchStatus::Matched, &["verified: fixture"]),
        link(Some(3), Some(4), MatchStatus::LowConfidence, &[]),
        link(Some(1), None, MatchStatus::UnresolvedOld, &[]),
    ];
    let safe = replacements_from_links(&old_app, &new_app, &links, false);
    assert_eq!(pairs(&safe), vec![("La/Old;".to_string(), "Lb/New;".to_string())]);
    let all = replacements_from_links(&old_app, &new_app, &links, true);
    assert_eq!(all.len(), 2);
}

#[test]
fn an_empty_mapping_is_not_usable() {
    match usable_replacements(Vec::new(), "m.txt") {
        Err(e) => assert_eq!(e.message(), "no usable mappings found in m.txt"),
        Ok(_) => panic!("expected an error"),
    }
    assert!(usable_replacements(vec![rename("La;", "Lb;")], "m.txt").is_ok());
}

#[test]
fn audit_mappings_put_the_latest_rename_first() {
    let m = descriptor_mappings(&[rename("La;", "Lb;"), rename("La;", "Lc;")]);
    assert_eq!(m, vec![("La;".to_string(), "Lc;".to_string()), ("La;".to_string(), "Lb;".to_string())]);
}

fn remap_text(mapping_text: &str, input: &str) -> String {
    let replacements = replacements_from_text(mapping_text, false);
    let index = ReplacementIndex::new(&replacements);
    index.rewrite(input)
}

#[test]
fn remap_applies_chains_and_swaps_once_without_changing_other_names() {
    for (mapping_text, input_text, expected) in [
        (
            "La/A; -> La/B;\nLa/B; -> La/C;\n",
            "La/A; La/B; La/Ab; La/A$Inner; a/A a/Ab a.A a.Ab a.A.run() a.A\u{301}\n(ILa/A;[La/B;ZLa/A;)V",
            "La/B; La/C; La/Ab; La/A$Inner; a/B a/Ab a.B a.Ab a.B.run() a.A\u{301}\n(ILa/B;[La/C;ZLa/B;)V",
        ),
        ("La/A; -> La/B;\nLa/B; -> La/A;\n", "La/A; La/B; a.A a.B", "La/B; La/A; a.B a.A"),
        ("La/A; -> La/AA;\n", "La/A; a/A a.A", "La/AA; a/AA a.AA"),
        (
            "Lпример/Класс; -> Lновый/Класс;\n",
            "Lпример/Класс; пример.Класс.run()",
            "Lновый/Класс; новый.Класс.run()",
        ),
    ] {
        assert_eq!(remap_text(mapping_text, input_text), expected);
    }
}

#[test]
fn remap_rewrites_smali_descriptors_from_mapping_txt() {
    let remapped = remap_text(
        "[0.96] La/Old; (base.apk!classes.dex#1) -> Lb/New; (base.apk!classes.dex#2)\n",
        ".class public La/Old;\n.super Ljava/lang/Object;\n\ninvoke-static {}, La/Old;->run()V\n",
    );
    assert!(remapped.contains("Lb/New;"));
    assert!(!remapped.contains("La/Old;"));
}

#[test]
fn rewriting_with_no_renames_changes_nothing() {
    let index = ReplacementIndex::new(&[]);
    let text = "La/A; a.b.C (IJ)V\t\u{301} x";
    assert_eq!(index.rewrite(text), text);
}

#[test]
fn only_source_like_files_are_rewritten() {
    assert!(is_text_like(Some("smali")));
    assert!(is_text_like(Some("properties")));
    assert!(!is_text_like(Some("SMALI")));
    assert!(!is_text_like(Some("png")));
    assert!(!is_text_like(None));
}

fn comps(v: &[&str]) -> Vec<String> {
    v.iter().map(|s| s.to_string()).collect()
}

#[test]
fn remap_refuses_overlapping_input_and_output() {
    let input = comps(&["/", "tmp", "in"]);
    for output in [comps(&["/", "tmp", "in"]), comps(&["/", "tmp", "in", "nested"]), comps(&["/", "tmp"])] {
        match check_remap_paths(&input, &output, true, "in", "out") {
            Err(e) => assert_eq!(e.message(), "remap input and output must not overlap: in and out"),
            Ok(()) => panic!("expected an overlap"),
        }
    }
    assert!(check_remap_paths(&input, &comps(&["/", "tmp", "out"]), true, "in", "out").is_ok());
    assert!(check_remap_paths(&input, &comps(&["/", "tmp", "in", "x"]), false, "in", "out").is_ok());
    assert!(check_remap_paths(&input, &input, false, "in", "in").is_err());
}

#[test]
fn mapping_labels_name_the_first_class_with_an_id() {
    let app = mapping_app("old.apk", &[(1, "La/Old;"), (1, "La/Dup;")]);
    assert_eq!(app.class_label(Some(1)), "La/Old; (base.apk!classes.dex#1)");
    assert_eq!(app.class_label(Some(7)), "#7");
    assert_eq!(app.class_label(None), "");
    assert_eq!(app.id_of("La/Dup;"), Some(1));
    assert_eq!(app.descriptor_of(1).map(|s| s.as_str()), Some("La/Dup;"));
}

#[test]
fn query_finds_matches_on_both_sides() {
    let old_app = mapping_app("old.apk", &[(1, "La/A;")]);
    let new_app = mapping_app("new.apk", &[(2, "La/A;"), (3, "La/B;")]);
    let links = vec![
        link(Some(1), Some(3), MatchStatus::Matched, &["verified: anchors"]),
        link(None, Some(2), MatchStatus::UnresolvedNew, &[]),
    ];
    let hits = unoc_rs::mapping::find_class_matches(&old_app, &new_app, &links, "a.A").expect("hits");
    assert_eq!(hits, vec![(0, QuerySide::Old), (1, QuerySide::New)]);
    match unoc_rs::mapping::find_class_matches(&old_app, &new_app, &links, "LX/0hp4;") {
        Err(UnocRsError::Other(m)) => assert_eq!(m, "class not found in mapping: LX/0hp4;"),
        other => panic!("unexpected {other:?}"),
    }
    assert!(is_safe_match(&links[0]));
    assert!(!is_safe_match(&links[1]));
    assert!(!is_safe_match(&link(Some(1), Some(3), MatchStatus::Matched, &["name: same"])));
}

#[test]
fn embedded_json_escapes_markup_bytes() {
    let escaped = unoc_rs::markup::escape_markup(b"</script>&x");
    assert_eq!(escaped, b"\\u003c/script\\u003e\\u0026x".to_vec());
    let json = unoc_rs::markup::escape_markup("\"Lreview/</ScRiPt>&Класс;\"".as_bytes());
    assert!(!json.iter().any(|b| *b == b'<' || *b == b'>' || *b == b'&'));
    let back: String = serde_json::from_slice(&json).expect("still JSON");
    assert_eq!(back, "Lreview/</ScRiPt>&Класс;");
}
