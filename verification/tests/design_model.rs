use adashi::design::{
    DesignBindingRecord, DesignChange, DesignCorrection, DesignDiagramRecord, DesignElementRecord,
    DesignRelationshipRecord,
};
use adashi::model::{has_tag, normalized_element_type, validate_model};
use adashi::save::{plan_change, precheck_save, rejected_save, sort_corrections, ChangePlan};

fn element(id: &str, kind: &str, parent: Option<&str>, tags: &str) -> DesignElementRecord {
    DesignElementRecord {
        external_id: id.to_string(),
        parent_external_id: parent.map(str::to_string),
        element_type: kind.to_string(),
        name: format!("{id} name"),
        description: String::new(),
        technology: String::new(),
        tags: tags.to_string(),
    }
}

fn relationship(id: &str, source: &str, destination: &str, description: &str) -> DesignRelationshipRecord {
    DesignRelationshipRecord {
        external_id: id.to_string(),
        source_external_id: source.to_string(),
        destination_external_id: destination.to_string(),
        description: description.to_string(),
        technology: String::new(),
        tags: String::new(),
    }
}

fn codes(errors: &[DesignCorrection]) -> Vec<&str> {
    errors.iter().map(|error| error.code.as_str()).collect()
}

fn change(op: &str) -> DesignChange {
    DesignChange {
        op: op.to_string(),
        external_id: None,
        parent_external_id: None,
        element_type: None,
        name: None,
        description: None,
        technology: None,
        tags: None,
        source_external_id: None,
        destination_external_id: None,
        key: None,
        title: None,
        language: None,
        diagram_type: None,
        attached_to_external_id: None,
        source: None,
        design_external_id: None,
        target_type: None,
        target: None,
        viewport_width: None,
        viewport_height: None,
        screen: None,
        mockup_state: None,
        fidelity: None,
        schema_version: None,
        accepted_svg: None,
        base_revision: None,
        proposed_svg: None,
        proposed_manifest: None,
    }
}

#[test]
fn a_well_formed_model_needs_no_corrections() {
    let elements = vec![
        element("sys", "Software System", None, ""),
        element("web", "Container", Some("sys"), ""),
        element("api", "component", Some("web"), ""),
        element("user", "Person", None, ""),
        element("mail", "Software System", None, "External, Mail"),
    ];
    let relationships = vec![relationship("r1", "user", "web", "Uses")];
    let diagrams = vec![DesignDiagramRecord {
        key: "seq-1".to_string(),
        language: "mermaid".to_string(),
        title: "Login".to_string(),
        diagram_type: "sequence".to_string(),
        artifact_role: String::new(),
        artifact_label: String::new(),
        artifact_rank: 0,
        attached_to_external_id: Some("r1".to_string()),
        attached_to_target_type: None,
        sort_order: 1,
        source: "sequenceDiagram\n  A->>B: hi".to_string(),
    }];
    let bindings = vec![DesignBindingRecord {
        design_external_id: "api".to_string(),
        target_type: "file".to_string(),
        target: "src/api.rs".to_string(),
    }];
    let errors = validate_model(&elements, &relationships, &diagrams, &bindings, &[]);
    assert!(errors.is_empty(), "{:?}", codes(&errors));
}

#[test]
fn every_problem_becomes_one_correction_in_the_order_found() {
    let elements = vec![
        element("web", "Container", None, ""),
        element("odd", "Queue", None, ""),
        element("cmp", "Component", Some("missing"), ""),
    ];
    let relationships = vec![relationship("r1", "web", "web", " ")];
    let bindings = vec![DesignBindingRecord {
        design_external_id: "nowhere".to_string(),
        target_type: "folder".to_string(),
        target: "src".to_string(),
    }];
    let errors = validate_model(&elements, &relationships, &[], &bindings, &[]);
    assert_eq!(
        codes(&errors),
        vec![
            "c4.system_root_count",
            "c4.missing_parent",
            "c4.invalid_element_type",
            "c4.missing_parent",
            "c4.empty_relationship_description",
            "c4.self_relationship",
            "binding.invalid_target_type",
            "binding.unknown_design_id",
        ]
    );
    assert_eq!(errors[0].message, "Expected exactly one internal Software System, found 0.");
    assert_eq!(errors[1].message, "Element 'web' has no parent.");
    assert_eq!(errors[1].request, "Set parentExternalId to a valid Software System id.");
    assert_eq!(errors[3].message, "Element 'cmp' references unknown parent 'missing'.");

    let sorted = sort_corrections(errors);
    assert_eq!(
        codes(&sorted),
        vec![
            "binding.invalid_target_type",
            "binding.unknown_design_id",
            "c4.empty_relationship_description",
            "c4.invalid_element_type",
            "c4.missing_parent",
            "c4.missing_parent",
            "c4.self_relationship",
            "c4.system_root_count",
        ]
    );
    // Equal codes keep the order they were found in.
    assert_eq!(sorted[4].message, "Element 'web' has no parent.");
    assert_eq!(sorted[5].message, "Element 'cmp' references unknown parent 'missing'.");
}

#[test]
fn a_contained_element_needs_a_parent_of_the_right_type() {
    let elements = vec![
        element("sys", "Software System", None, ""),
        element("cmp", "Component", Some("sys"), ""),
    ];
    let errors = validate_model(&elements, &[], &[], &[], &[]);
    assert_eq!(codes(&errors), vec!["c4.invalid_parent_type"]);
    assert_eq!(errors[0].message, "Element 'cmp' is a 'Component' but parent 'sys' is 'Software System'.");
    assert_eq!(errors[0].request, "Move this element under a Container.");
}

#[test]
fn diagrams_must_be_mermaid_renderable_and_attached() {
    let elements = vec![element("sys", "Software System", None, "")];
    let diagram = |key: &str, language: &str, source: &str, attached: Option<&str>| DesignDiagramRecord {
        key: key.to_string(),
        language: language.to_string(),
        title: key.to_string(),
        diagram_type: String::new(),
        artifact_role: String::new(),
        artifact_label: String::new(),
        artifact_rank: 0,
        attached_to_external_id: attached.map(str::to_string),
        attached_to_target_type: None,
        sort_order: 0,
        source: source.to_string(),
    };
    let diagrams = vec![
        diagram("projection", "structurizr", "{}", None),
        diagram("d1", "plantuml", "@startuml", Some("sys")),
        diagram("d2", "Mermaid", "", Some("ghost")),
        diagram("d3", "mermaid", "classDiagram", None),
    ];
    let errors = validate_model(&elements, &[], &diagrams, &[], &[]);
    assert_eq!(
        codes(&errors),
        vec!["uml.unsupported_language", "uml.syntax_error", "uml.invalid_attachment", "uml.missing_attachment"]
    );
    assert_eq!(errors[1].message, "Diagram 'd2': source is empty");
}

#[test]
fn tags_and_types_compare_trimmed_and_case_insensitively() {
    assert!(has_tag("Internal, external ,Mail", "External"));
    assert!(!has_tag("Externals", "External"));
    assert!(!has_tag("", "External"));
    assert_eq!(normalized_element_type("  softwaresystem "), Some("Software System".to_string()));
    assert_eq!(normalized_element_type("COMPONENT"), Some("Component".to_string()));
    assert_eq!(normalized_element_type("Queue"), None);
}

#[test]
fn a_change_plans_only_with_its_required_fields() {
    let mut upsert = change("upsert_element");
    upsert.external_id = Some(" web ".to_string());
    upsert.element_type = Some("Container".to_string());
    assert_eq!(
        plan_change(&upsert).unwrap_err(),
        "Design save field 'name' is required"
    );
    upsert.name = Some("Web".to_string());
    upsert.parent_external_id = Some("   ".to_string());
    match plan_change(&upsert).unwrap() {
        ChangePlan::UpsertElement { external_id, parent_external_id, description, .. } => {
            assert_eq!(external_id, "web");
            assert_eq!(parent_external_id, None);
            assert_eq!(description, "");
        }
        other => panic!("unexpected plan {other:?}"),
    }

    assert_eq!(
        plan_change(&change("delete_everything")).unwrap_err(),
        "Unknown design save op: delete_everything"
    );
    let mut mockup = change("upsert_mockup");
    mockup.external_id = Some("m".to_string());
    mockup.title = Some("Home".to_string());
    mockup.attached_to_external_id = Some("web".to_string());
    assert_eq!(
        plan_change(&mockup).unwrap_err(),
        "Design save field 'viewportWidth' is required"
    );
}

#[test]
fn a_save_is_refused_before_anything_is_written() {
    let stale = precheck_save(7, 6, "intent", 1).unwrap();
    assert!(!stale.ok && !stale.stored && stale.correction_required);
    assert_eq!(stale.revision, 7);
    assert_eq!(stale.errors[0].code, "revision.stale");
    assert_eq!(stale.errors[0].message, "Expected revision 6, but current revision is 7.");
    assert_eq!(precheck_save(7, 7, "  ", 1).unwrap().errors[0].code, "save.missing_intent");
    assert_eq!(precheck_save(7, 7, "intent", 0).unwrap().errors[0].code, "save.empty_changeset");
    assert!(precheck_save(7, 7, "intent", 2).is_none());

    let rejected = rejected_save(
        3,
        vec![
            DesignCorrection { code: "c4.b".into(), message: "second".into(), request: String::new() },
            DesignCorrection { code: "c4.a".into(), message: "first".into(), request: String::new() },
        ],
    );
    assert_eq!(codes(&rejected.errors), vec!["c4.a", "c4.b"]);
    assert!(rejected.structurizr_dsl.is_none());
}
