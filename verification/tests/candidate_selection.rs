use std::collections::BTreeMap;

use unoc_rs::anchors::{is_useful_anchor, AnchorIndex, AnchorKind, AnchorStats};
use unoc_rs::candidates::{candidate_scan_limit, cheap_bucket_compatible, ClassCandidateIndex};
use unoc_rs::fingerprint::{AppFingerprint, ClassFingerprint};
use unoc_rs::mapping::{mark_shared_new_classes, unpaired_ids, ClassLink, MatchStatus};
use unoc_rs::proguard::mapping_file_text;
use unoc_rs::members::{member_candidate_scan_limit, FieldCandidateIndex, MethodCandidateIndex};
use unoc_rs::model::{FieldModel, MethodCodeSummary, MethodModel};
use unoc_rs::patterns::{
    class_kind_changed, exact_class_fingerprint_match, exact_descriptor_stable_api_match,
    has_substantial_class_signal, renamed_exact_behavior_match,
};
use unoc_rs::sets::{is_sorted_set, shared_count, str_less};
use unoc_rs::summary::{count_reason, summary_text};
use unoc_rs::table::KeyTable;

fn sorted(items: Vec<String>) -> Vec<String> {
    let mut items = items;
    items.sort();
    items.dedup();
    items
}

fn fp(id: usize, descriptor: &str, methods: &[&str]) -> ClassFingerprint {
    ClassFingerprint {
        class_id: id,
        descriptor: descriptor.to_string(),
        package_shape: "*.*".to_string(),
        superclass: Some("Ljava/lang/Object;".to_string()),
        interfaces: Vec::new(),
        access_flags: 1,
        method_shapes: sorted(methods.iter().map(|item| item.to_string()).collect()),
        method_proto_shapes: sorted(
            methods
                .iter()
                .map(|item| {
                    item.split_once('(')
                        .map(|(_, proto)| format!("({proto}"))
                        .unwrap_or_else(|| item.to_string())
                })
                .collect(),
        ),
        field_shapes: Vec::new(),
        field_type_shapes: Vec::new(),
        strings: Vec::new(),
        method_ref_shapes: Vec::new(),
        field_ref_shapes: Vec::new(),
        class_ref_shapes: Vec::new(),
        instruction_count: 0,
        opcode_histogram: BTreeMap::new(),
    }
}

fn with_strings(mut class: ClassFingerprint, strings: &[&str]) -> ClassFingerprint {
    class.strings = sorted(strings.iter().map(|item| item.to_string()).collect());
    class
}

#[test]
fn anchor_stats_mark_values_rare_only_when_rare_in_both_apps() {
    let old_rare = with_strings(fp(1, "Lo/Rare;", &["a()->V"]), &["rare-login-token"]);
    let new_rare = with_strings(fp(2, "Ln/Rare;", &["a()->V"]), &["rare-login-token"]);
    let old_common_a = with_strings(fp(3, "Lo/CommonA;", &["a()->V"]), &["shared-common-value"]);
    let old_common_b = with_strings(fp(4, "Lo/CommonB;", &["a()->V"]), &["shared-common-value"]);
    let old_common_c = with_strings(fp(5, "Lo/CommonC;", &["a()->V"]), &["shared-common-value"]);
    let old_common_d = with_strings(fp(6, "Lo/CommonD;", &["a()->V"]), &["shared-common-value"]);

    let old = AppFingerprint {
        classes: vec![old_rare, old_common_a, old_common_b, old_common_c, old_common_d],
    };
    let new = AppFingerprint { classes: vec![new_rare] };

    let stats = AnchorStats::build(&old, &new);

    assert!(stats.is_rare(AnchorKind::Str, &"rare-login-token".to_string()));
    assert!(!stats.is_rare(AnchorKind::Str, &"shared-common-value".to_string()));
}

#[test]
fn anchor_stats_count_shared_anchor_kinds() {
    let mut old_class = with_strings(fp(1, "Lo/A;", &["a(I)->V"]), &["rare-text"]);
    old_class.method_ref_shapes = vec!["Lapi/Auth;->check()->Z".to_string()];
    let mut new_class = with_strings(fp(2, "Ln/A;", &["b(I)->V"]), &["rare-text"]);
    new_class.method_ref_shapes = vec!["Lapi/Auth;->check()->Z".to_string()];

    let old = AppFingerprint { classes: vec![old_class.clone()] };
    let new = AppFingerprint { classes: vec![new_class.clone()] };
    let stats = AnchorStats::build(&old, &new);
    let evidence = stats.rare_evidence(&old_class, &new_class);

    assert_eq!(evidence.total, 3);
    assert_eq!(evidence.kind_count, 3);
    assert_eq!(evidence.method_ref, 1);
    assert_eq!(evidence.method_proto, 1);
    assert_eq!(evidence.string, 1);
}

#[test]
fn useful_anchors_are_long_and_not_all_digits() {
    assert!(is_useful_anchor("abcd"));
    assert!(is_useful_anchor("12a4"));
    assert!(!is_useful_anchor("abc"));
    assert!(!is_useful_anchor("1234"));
    assert!(!is_useful_anchor(""));
    // four bytes of UTF-8 in two characters
    assert!(is_useful_anchor("éé"));
    assert!(!is_useful_anchor("é"));
}

#[test]
fn rare_anchors_need_useful_values_and_few_holders() {
    let old = AppFingerprint {
        classes: vec![with_strings(fp(1, "La;", &[]), &["abc", "rare-value"])],
    };
    let new = AppFingerprint {
        classes: vec![with_strings(fp(2, "Lb;", &[]), &["abc", "rare-value"])],
    };
    let stats = AnchorStats::build(&old, &new);
    assert!(stats.is_rare(AnchorKind::Str, &"rare-value".to_string()));
    // too short to tell classes apart
    assert!(!stats.is_rare(AnchorKind::Str, &"abc".to_string()));
    // absent from the new app
    assert!(!stats.is_rare(AnchorKind::MethodRef, &"rare-value".to_string()));
}

#[test]
fn anchor_index_lists_positions_per_occurrence() {
    let classes = vec![
        with_strings(fp(10, "La;", &[]), &["token-one", "token-two"]),
        with_strings(fp(11, "Lb;", &[]), &["token-two"]),
        with_strings(fp(12, "Lc;", &[]), &["token-one"]),
    ];
    let index = AnchorIndex::new(&classes);
    assert_eq!(index.positions(AnchorKind::Str, &"token-one".to_string()), Some(&vec![0, 2]));
    assert_eq!(index.positions(AnchorKind::Str, &"token-two".to_string()), Some(&vec![0, 1]));
    assert_eq!(index.positions(AnchorKind::Str, &"missing".to_string()), None);
    assert_eq!(index.count(AnchorKind::Str, &"token-one".to_string()), 2);
    assert_eq!(index.count(AnchorKind::MethodRef, &"token-one".to_string()), 0);
}

#[test]
fn key_table_appends_to_each_key_list() {
    let mut table: KeyTable<Vec<usize>> = KeyTable::new();
    table.push_to(&"a".to_string(), 1);
    table.push_to(&"b".to_string(), 2);
    table.push_to(&"a".to_string(), 3);
    assert_eq!(table.list(&"a".to_string()), Some(&vec![1, 3]));
    assert_eq!(table.list(&"b".to_string()), Some(&vec![2]));
    assert_eq!(table.list(&"c".to_string()), None);
}

#[test]
fn candidates_come_from_rare_anchors_first_then_size() {
    let old_class = with_strings(fp(1, "Lo/Login;", &["a()->V", "b()->V"]), &["rare-login-token"]);
    let new_classes = vec![
        fp(20, "Ln/Other;", &["a()->V", "b()->V"]),
        fp(21, "Ln/Big;", &["a(J)->J", "b(J)->J", "c(J)->J", "d(J)->J", "e(J)->J", "f(J)->J", "g(J)->J"]),
        with_strings(fp(22, "Ln/Login;", &["x()->V"]), &["rare-login-token"]),
    ];
    let old = AppFingerprint { classes: vec![old_class.clone()] };
    let new = AppFingerprint { classes: new_classes.clone() };
    let stats = AnchorStats::build(&old, &new);
    let index = ClassCandidateIndex::new(&new_classes);
    let candidates = index.compatible_candidates(&old_class, &stats, 4096);
    // the rare anchor's class first; then classes of about the same size, by size order
    assert_eq!(candidates, vec![2, 0]);
    let one = index.compatible_candidates(&old_class, &stats, 1);
    assert_eq!(one, vec![2]);
}

#[test]
fn size_candidates_come_in_method_then_field_count_order() {
    let old_class = fp(1, "Lo/A;", &["a()->V", "b()->V", "c()->V", "d()->V"]);
    let new_classes = vec![
        fp(30, "Ln/Five;", &["a(I)->I", "b(I)->I", "c(I)->I", "d(I)->I", "e(I)->I"]),
        fp(31, "Ln/Three;", &["a(I)->I", "b(I)->I", "c(I)->I"]),
        fp(
            32,
            "Ln/Ten;",
            &["a(I)->I", "b(I)->I", "c(I)->I", "d(I)->I", "e(I)->I", "f(I)->I", "g(I)->I", "h(I)->I", "i(I)->I", "j(I)->I"],
        ),
        fp(33, "Ln/Four;", &["a(I)->I", "b(I)->I", "c(I)->I", "d(I)->I"]),
    ];
    let old = AppFingerprint { classes: vec![old_class.clone()] };
    let new = AppFingerprint { classes: new_classes.clone() };
    let stats = AnchorStats::build(&old, &new);
    let index = ClassCandidateIndex::new(&new_classes);
    assert_eq!(index.compatible_candidates(&old_class, &stats, 4096), vec![1, 3, 0]);
}

#[test]
fn exact_candidate_is_the_last_class_with_the_descriptor() {
    let new_classes = vec![fp(1, "La/B;", &[]), fp(2, "La/C;", &[]), fp(3, "La/B;", &[])];
    let index = ClassCandidateIndex::new(&new_classes);
    assert_eq!(index.exact_candidate(&"La/B;".to_string()), Some(2));
    assert_eq!(index.exact_candidate(&"La/C;".to_string()), Some(1));
    assert_eq!(index.exact_candidate(&"La/D;".to_string()), None);
    assert_eq!(index.fallback_candidates(2), vec![0, 1]);
    assert_eq!(index.fallback_candidates(10), vec![0, 1, 2]);
}

#[test]
fn scan_limits_follow_the_candidate_count() {
    assert_eq!(candidate_scan_limit(0), 4096);
    assert_eq!(candidate_scan_limit(5), 4096);
    assert_eq!(candidate_scan_limit(10), 5120);
    assert_eq!(member_candidate_scan_limit(0), 128);
    assert_eq!(member_candidate_scan_limit(10), 320);
}

#[test]
fn size_windows_allow_half_or_two() {
    let old_class = fp(1, "Lo/A;", &["a()->V"]);
    assert!(cheap_bucket_compatible(&old_class, &fp(2, "Ln/B;", &["a()->V", "b()->V", "c()->V"])));
    assert!(!cheap_bucket_compatible(&old_class, &fp(2, "Ln/B;", &["a()->V", "b()->V", "c()->V", "d()->V"])));
}

fn method(id: usize, name: &str, params: &[&str], ret: &str, strings: &[&str]) -> MethodModel {
    MethodModel {
        id,
        owner_class: "La/B;".to_string(),
        name: name.to_string(),
        return_type: ret.to_string(),
        parameters: params.iter().map(|item| item.to_string()).collect(),
        access_flags: 1,
        code: Some(MethodCodeSummary {
            registers_size: 1,
            ins_size: 0,
            outs_size: 0,
            instruction_count: 1,
            opcode_histogram: BTreeMap::new(),
            string_refs: strings.iter().map(|item| item.to_string()).collect(),
            method_refs: Vec::new(),
            field_refs: Vec::new(),
            branch_count: 0,
            return_count: 1,
            throw_count: 0,
            switch_count: 0,
        }),
    }
}

#[test]
fn method_candidates_come_by_name_then_prototype_then_references() {
    let new_methods = vec![
        method(10, "x", &["I"], "V", &[]),
        method(11, "run", &[], "Z", &[]),
        method(12, "y", &[], "V", &["hello"]),
    ];
    let index = MethodCandidateIndex::new(&new_methods);
    let old = method(1, "run", &["I"], "V", &["hello"]);
    assert_eq!(index.candidates(&old, 128), vec![1, 0, 2]);
    let unrelated = method(2, "zzz", &["J"], "J", &[]);
    assert_eq!(index.candidates(&unrelated, 2), vec![0, 1]);
}

#[test]
fn field_candidates_come_by_name_then_type() {
    let field = |id: usize, name: &str, field_type: &str| FieldModel {
        id,
        owner_class: "La/B;".to_string(),
        name: name.to_string(),
        field_type: field_type.to_string(),
        access_flags: 1,
    };
    let new_fields = vec![field(10, "a", "I"), field(11, "count", "J"), field(12, "b", "J")];
    let index = FieldCandidateIndex::new(&new_fields);
    assert_eq!(index.candidates(&field(1, "count", "I"), 128), vec![1, 0]);
    assert_eq!(index.candidates(&field(2, "zz", "Z"), 128), vec![0, 1, 2]);
}

fn link(old: Option<usize>, new: Option<usize>, status: MatchStatus, reasons: &[&str]) -> ClassLink {
    ClassLink {
        old_class_id: old,
        new_class_id: new,
        status,
        reasons: reasons.iter().map(|item| item.to_string()).collect(),
    }
}

#[test]
fn shared_new_classes_become_conflicts() {
    let mut links = vec![
        link(Some(1), Some(10), MatchStatus::Matched, &["verified: exact class fingerprint", "same descriptor"]),
        link(Some(2), Some(10), MatchStatus::LowConfidence, &["method shape overlap 0.50"]),
        link(Some(3), Some(11), MatchStatus::Matched, &["verified: exact class fingerprint"]),
        link(Some(4), Some(11), MatchStatus::SemanticBreak, &[]),
        link(None, Some(10), MatchStatus::UnresolvedNew, &[]),
    ];
    mark_shared_new_classes(&mut links);
    assert_eq!(links[0].status, MatchStatus::Conflict);
    assert_eq!(
        links[0].reasons,
        vec!["same descriptor".to_string(), "conflict: multiple old classes select the same new class".to_string()]
    );
    assert_eq!(links[1].status, MatchStatus::Conflict);
    assert_eq!(links[2].status, MatchStatus::Matched);
    assert_eq!(links[2].reasons, vec!["verified: exact class fingerprint".to_string()]);
    assert_eq!(links[3].status, MatchStatus::SemanticBreak);
    assert_eq!(links[4].status, MatchStatus::UnresolvedNew);
}

#[test]
fn exact_patterns_compare_whole_fingerprints() {
    let mut a = fp(1, "La/B;", &["a()->V", "b(I)->I"]);
    a.opcode_histogram.insert(0x0e, 2);
    let mut b = a.clone();
    b.class_id = 2;
    assert!(exact_class_fingerprint_match(&a, &b));
    assert!(exact_descriptor_stable_api_match(&a, &b));
    assert!(!renamed_exact_behavior_match(&a, &b));
    b.opcode_histogram.insert(0x0e, 3);
    assert!(!exact_class_fingerprint_match(&a, &b));
    assert!(exact_descriptor_stable_api_match(&a, &b));
    let mut c = a.clone();
    c.descriptor = "Lx/Y;".to_string();
    assert!(renamed_exact_behavior_match(&a, &c));
    assert!(has_substantial_class_signal(&a));
    assert!(!has_substantial_class_signal(&fp(3, "La;", &["a()->V"])));
    let mut interface = a.clone();
    interface.access_flags = 0x0200 | 0x0400;
    assert!(class_kind_changed(&a, &interface));
    assert!(!class_kind_changed(&a, &b));
}

#[test]
fn shared_counts_follow_sorted_sets() {
    let a: Vec<String> = vec!["a".into(), "b".into(), "d".into(), "x".into()];
    let b: Vec<String> = vec!["b".into(), "c".into(), "d".into()];
    assert!(is_sorted_set(&a));
    assert!(is_sorted_set(&b));
    assert_eq!(shared_count(&a, &b), 2);
    assert_eq!(shared_count(&a, &[]), 0);
    assert!(!is_sorted_set(&["b".to_string(), "a".to_string()]));
    assert!(!is_sorted_set(&["a".to_string(), "a".to_string()]));
    assert!(str_less("ab", "b"));
    assert!(str_less("a", "ab"));
    assert!(!str_less("ab", "ab"));
    assert!(!str_less("é", "z"));
}

#[test]
fn summary_counts_statuses_and_verified_reasons() {
    let app = |name: &str, classes: usize| unoc_rs::model::AppModel {
        apk_name: name.to_string(),
        package_name: None,
        classes: (0..classes)
            .map(|id| unoc_rs::model::ClassModel {
                id,
                descriptor: format!("LC{id};"),
                access_flags: 1,
                superclass: None,
                interfaces: Vec::new(),
                methods: Vec::new(),
                fields: Vec::new(),
                origin: unoc_rs::model::DexOrigin {
                    apk_part: "base.apk".to_string(),
                    dex_file: "classes.dex".to_string(),
                    dex_index: 0,
                    class_def_index: None,
                },
            })
            .collect(),
        coverage: unoc_rs::model::ParseCoverage::default(),
    };
    let links = vec![
        link(Some(1), Some(2), MatchStatus::Matched, &["verified: exact class fingerprint"]),
        link(Some(3), None, MatchStatus::UnresolvedOld, &[]),
        link(None, Some(4), MatchStatus::UnresolvedNew, &[]),
    ];
    let text = summary_text(&app("old.apk", 2), &app("new.apk", 3), &links, 2);
    assert!(text.starts_with("old_apk: old.apk\nnew_apk: new.apk\nold_classes: 2\nnew_classes: 3\n"));
    assert!(text.contains("\nmatched_classes: 1\nlow_confidence_classes: 0\n"));
    assert!(text.contains("\nunresolved_old_classes: 1\nunresolved_new_classes: 1\n"));
    assert!(text.contains("\nverified_exact_class_fingerprint: 1\nverified_exact_descriptor_stable_api_shape: 0\n"));
    assert!(text.ends_with("\ncall_graph_verify_passes: 2\nrare_anchor_max_frequency: 3\n"));
    assert_eq!(count_reason(&links, "verified: exact class fingerprint"), 1);
}

#[test]
fn unpaired_ids_keep_the_new_entities_no_match_pairs() {
    let matches = vec![
        (MatchStatus::Matched, Some(10)),
        (MatchStatus::UnresolvedOld, Some(11)),
        (MatchStatus::SemanticBreak, Some(12)),
        (MatchStatus::Conflict, None),
    ];
    assert_eq!(unpaired_ids(&matches, &[10, 11, 12, 13]), vec![11, 13]);
}

fn model_class(id: usize, descriptor: &str) -> unoc_rs::model::ClassModel {
    unoc_rs::model::ClassModel {
        id,
        descriptor: descriptor.to_string(),
        access_flags: 1,
        superclass: None,
        interfaces: Vec::new(),
        methods: Vec::new(),
        fields: Vec::new(),
        origin: unoc_rs::model::DexOrigin {
            apk_part: "base.apk".to_string(),
            dex_file: "classes.dex".to_string(),
            dex_index: 0,
            class_def_index: None,
        },
    }
}

#[test]
fn proguard_mappings_name_both_sides_and_flag_unsafe_lines() {
    let old_classes = vec![model_class(1, "La/b/C;"), model_class(2, "La/b/D;")];
    let new_classes = vec![model_class(7, "Lx/y;"), model_class(8, "Lx/z;")];
    let links = vec![
        link(Some(1), Some(7), MatchStatus::Matched, &["verified: exact class fingerprint"]),
        link(Some(2), Some(8), MatchStatus::LowConfidence, &["method shape overlap 0.50"]),
        link(Some(2), None, MatchStatus::UnresolvedOld, &[]),
    ];
    assert_eq!(
        mapping_file_text(&old_classes, &new_classes, &links, true),
        "a.b.C -> x.y:\n# UNSAFE: LowConfidence\na.b.D -> x.z:\n"
    );
    assert_eq!(
        mapping_file_text(&old_classes, &new_classes, &links, false),
        "x.y -> a.b.C:\n# UNSAFE: LowConfidence\nx.z -> a.b.D:\n"
    );
}
