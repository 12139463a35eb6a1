use unoc_rs::audit::{
    audit_outcome, audit_sources, check_selectors_matched, format_method_reference, object_descriptor,
    render_summary, tsv_cell, unresolved_tsv_row, validate_audit_source, AuditContext, AuditReport, AuditStats,
    DefinitionIndex, DexLocation, MemberResolution, MethodDispatch, MissingReason, PrefixPolicy, ReferenceKind,
    SourceDex,
};
use unoc_rs::dex::class_data::{EncodedClassData, EncodedField, EncodedMethod};
use unoc_rs::dex::raw::{ClassDef, FieldId, MethodId, ParseWarning, ParseWarningKind, ProtoId, RawDex};
use unoc_rs::error::UnocRsError;

#[test]
fn platform_prefixes_are_ignored_unless_included() {
    let default = PrefixPolicy::new(&[], &[]).expect("default policy");
    assert!(default.excludes("Ljava/lang/String;"));

    let included = PrefixPolicy::new(&[], &["Ljava/".to_string()]).expect("included policy");
    assert!(!included.excludes("Ljava/lang/String;"));
}

#[test]
fn array_descriptors_resolve_their_object_component() {
    assert_eq!(object_descriptor("[[Lexample/Value;"), Some("Lexample/Value;"));
    assert_eq!(object_descriptor("[I"), None);
}

#[test]
fn blank_prefixes_are_rejected_naming_their_option() {
    let err = PrefixPolicy::new(&[" \t".to_string()], &[]).expect_err("blank ignore prefix");
    assert_eq!(err.message(), "invalid empty --ignore-prefix value: \" \\t\"");
    let err = PrefixPolicy::new(&["Lcom/".to_string()], &["".to_string()]).expect_err("blank include prefix");
    assert!(matches!(err, UnocRsError::InvalidAuditPrefix { ref option, .. } if option == "--include-prefix"));
    let custom = PrefixPolicy::new(&["Lcom/ads/".to_string()], &[]).expect("policy");
    assert!(custom.excludes("[Lcom/ads/Tracker;"));
    assert!(!custom.excludes("Lcom/app/Main;"));
    assert!(custom.excludes("I"));
}

fn method(owner: &str, name: &str, params: &[&str], ret: &str) -> MethodId {
    MethodId {
        class_type: owner.to_string(),
        name: name.to_string(),
        proto: ProtoId {
            shorty: String::new(),
            return_type: ret.to_string(),
            parameters: params.iter().map(|p| p.to_string()).collect(),
        },
    }
}

fn class(class_type: &str, superclass: Option<&str>, data: Option<EncodedClassData>) -> ClassDef {
    ClassDef {
        class_type: class_type.to_string(),
        access_flags: 1,
        superclass: superclass.map(|s| s.to_string()),
        interfaces: Vec::new(),
        source_file: None,
        class_data_off: 0,
        class_data: data,
    }
}

fn target_dex() -> RawDex {
    let mut raw = RawDex::empty_for_test();
    raw.methods.push(method("La/Base;", "run", &["I"], "V"));
    raw.methods.push(method("La/Base;", "make", &[], "La/Base;"));
    raw.fields.push(FieldId { class_type: "La/Base;".to_string(), field_type: "I".to_string(), name: "count".to_string() });
    raw.classes.push(class(
        "La/Base;",
        Some("Ljava/lang/Object;"),
        Some(EncodedClassData {
            static_fields: Vec::new(),
            instance_fields: vec![EncodedField { field_idx: 0, access_flags: 1 }],
            direct_methods: vec![EncodedMethod { method_idx: 1, access_flags: 0x8, code_off: 0 }],
            virtual_methods: vec![EncodedMethod { method_idx: 0, access_flags: 1, code_off: 0 }],
        }),
    ));
    raw.classes.push(class("La/Child;", Some("La/Base;"), None));
    raw
}

#[test]
fn resolves_inherited_members_and_reports_missing_ones() {
    let mut index = DefinitionIndex::new();
    index.add_dex(&target_dex(), &DexLocation::bundle("base.apk".to_string(), "classes.dex".to_string()));
    assert_eq!(index.class_count(), 2);
    assert_eq!(index.method_count(), 2);
    assert_eq!(index.field_count(), 1);

    let inherited = index.resolve_method(&method("La/Child;", "run", &["I"], "V"), MethodDispatch::Virtual);
    assert!(matches!(inherited, MemberResolution::Resolved(Some(0))));

    let changed = index.resolve_method(&method("La/Child;", "run", &["J"], "V"), MethodDispatch::Virtual);
    match changed {
        MemberResolution::Missing { reason, candidates } => {
            assert_eq!(reason, MissingReason::ChangedPrototype);
            assert_eq!(candidates, vec!["La/Base;->run(I)V".to_string()]);
        }
        other => panic!("unexpected {other:?}"),
    }

    let static_on_child = index.resolve_method(&method("La/Child;", "make", &[], "La/Base;"), MethodDispatch::Static);
    assert!(matches!(static_on_child, MemberResolution::Missing { reason: MissingReason::MissingMethod, .. }));

    let wrong_kind = index.resolve_method(&method("La/Base;", "make", &[], "La/Base;"), MethodDispatch::Virtual);
    assert!(matches!(wrong_kind, MemberResolution::Missing { reason: MissingReason::MemberKindMismatch, .. }));

    let field = FieldId { class_type: "La/Child;".to_string(), field_type: "I".to_string(), name: "count".to_string() };
    assert!(matches!(index.resolve_field(&field, false), MemberResolution::Resolved(Some(0))));
    assert!(matches!(
        index.resolve_field(&field, true),
        MemberResolution::Missing { reason: MissingReason::MissingField, .. }
    ));
    let unknown = method("La/Gone;", "x", &[], "V");
    assert!(matches!(
        index.resolve_method(&unknown, MethodDispatch::Direct),
        MemberResolution::Missing { reason: MissingReason::MissingOwner, .. }
    ));
    assert_eq!(
        index.member_search_order("La/Child;", false),
        vec!["La/Child;".to_string(), "La/Base;".to_string(), "Ljava/lang/Object;".to_string()]
    );
    assert!(matches!(index.resolve_class("[[La/Base;"), MemberResolution::Resolved(Some(0))));
    assert!(matches!(index.resolve_class("I"), MemberResolution::Resolved(None)));
}

#[test]
fn a_class_defined_twice_keeps_its_first_origin_and_merges_members() {
    let mut index = DefinitionIndex::new();
    index.add_dex(&target_dex(), &DexLocation::bundle("base.apk".to_string(), "classes.dex".to_string()));
    let mut split = RawDex::empty_for_test();
    split.methods.push(method("La/Base;", "extra", &[], "V"));
    split.methods.push(method("La/Base;", "run", &["I"], "V"));
    split.classes.push(class(
        "La/Base;",
        None,
        Some(EncodedClassData {
            static_fields: Vec::new(),
            instance_fields: Vec::new(),
            direct_methods: Vec::new(),
            virtual_methods: vec![
                EncodedMethod { method_idx: 0, access_flags: 1, code_off: 0 },
                EncodedMethod { method_idx: 1, access_flags: 1, code_off: 0 },
            ],
        }),
    ));
    index.add_dex(&split, &DexLocation::bundle("split.apk".to_string(), "classes.dex".to_string()));
    assert_eq!(index.class_count(), 2);
    assert_eq!(index.method_count(), 3);
    assert!(matches!(
        index.resolve_method(&method("La/Base;", "extra", &[], "V"), MethodDispatch::Virtual),
        MemberResolution::Resolved(Some(1))
    ));
    assert!(matches!(
        index.resolve_method(&method("La/Base;", "run", &["I"], "V"), MethodDispatch::Virtual),
        MemberResolution::Resolved(Some(0))
    ));
}

#[test]
fn audit_counts_references_and_orders_unresolved_ones() {
    let mut index = DefinitionIndex::new();
    index.add_dex(&target_dex(), &DexLocation::bundle("base.apk".to_string(), "classes.dex".to_string()));
    let mut source = RawDex::empty_for_test();
    source.methods.push(method("La/Ext;", "go", &["La/Missing;"], "La/Base;"));
    source.classes.push(class(
        "La/Ext;",
        Some("La/Base;"),
        Some(EncodedClassData {
            static_fields: Vec::new(),
            instance_fields: Vec::new(),
            direct_methods: vec![EncodedMethod { method_idx: 0, access_flags: 1, code_off: 0 }],
            virtual_methods: Vec::new(),
        }),
    ));
    let sources = vec![SourceDex { location: DexLocation::standalone("bridge.dex"), raw: source }];
    let policy = PrefixPolicy::new(&[], &[]).expect("policy");
    let mappings = vec![("La/Missing;".to_string(), "La/Found;".to_string())];
    let ctx = AuditContext { index: &index, policy: &policy, mappings: &mappings };
    let mut stats = AuditStats::default();
    let unresolved = audit_sources(&ctx, &sources, &mut stats);
    assert_eq!(stats.references_scanned, 3);
    assert_eq!(stats.references_resolved, 2);
    assert_eq!(unresolved.len(), 1);
    assert_eq!(unresolved[0].kind, ReferenceKind::Class);
    assert_eq!(unresolved[0].reference, "La/Missing;");
    assert_eq!(unresolved[0].reason, MissingReason::MissingOwner);
    assert_eq!(unresolved[0].candidates, vec!["mapped_owner=La/Found;".to_string()]);
    assert_eq!(
        unresolved_tsv_row(&unresolved[0]),
        "class\tLa/Missing;\tmissing_owner\tstandalone\tbridge.dex\tLa/Ext;\tLa/Ext;->go(La/Missing;)La/Base;\t-\tmapped_owner=La/Found;\n"
    );
    let report = AuditReport { target: "app.apk".to_string(), allow_missing: 0, stats, unresolved };
    let summary = render_summary(&report);
    assert!(summary.starts_with("unoc-rs Reference Audit\n=======================\n\ntarget: app.apk\n"));
    assert!(summary.contains("references_scanned: 3\n"));
    assert!(summary.contains("status: FAIL\n"));
    assert!(summary.ends_with("Unresolved by reason\n--------------------\nmissing_owner: 1\n"));
    let err = audit_outcome(&report, "out").expect_err("fails");
    assert_eq!(err.message(), "reference audit found 1 unresolved site(s), allowed 0; reports: out");
}

#[test]
fn incomplete_sources_are_refused() {
    let mut raw = RawDex::empty_for_test();
    raw.warnings.push(ParseWarning {
        origin: "La/B;@0x10".to_string(),
        kind: ParseWarningKind::CodeItem,
        message: "bad".to_string(),
    });
    let err = validate_audit_source(&raw, &DexLocation::standalone("x.dex")).expect_err("warning");
    assert_eq!(err.message(), "cannot audit standalone!x.dex: incomplete DEX parsing: 1 warning(s); La/B;@0x10: bad");
    let mut raw = RawDex::empty_for_test();
    raw.classes.push(class(
        "La/B;",
        None,
        Some(EncodedClassData {
            static_fields: Vec::new(),
            instance_fields: Vec::new(),
            direct_methods: vec![EncodedMethod { method_idx: 0, access_flags: 1, code_off: 0 }],
            virtual_methods: Vec::new(),
        }),
    ));
    let err = validate_audit_source(&raw, &DexLocation::bundle("base.apk".to_string(), "classes.dex".to_string()))
        .expect_err("index");
    assert_eq!(
        err.message(),
        "cannot audit base.apk!classes.dex: incomplete DEX parsing: La/B;: declared method index 0 is out of range"
    );
}

#[test]
fn unmatched_selectors_are_named() {
    let selectors = vec!["classes2.dex".to_string(), "base.apk!classes.dex".to_string(), "x".to_string()];
    let err = check_selectors_matched(&selectors, &["base.apk!classes.dex".to_string()]).expect_err("missing");
    assert_eq!(
        err.message(),
        "audit source DEX selector(s) did not match the target bundle: classes2.dex, x"
    );
    assert!(check_selectors_matched(&selectors, &selectors).is_ok());
}

#[test]
fn references_are_spelled_for_reports() {
    assert_eq!(format_method_reference("La/B;", "f", &["I".to_string(), "J".to_string()], "V"), "La/B;->f(IJ)V");
    assert_eq!(tsv_cell("a\tb\nc\rd"), "a b c d");
}
