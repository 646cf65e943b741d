use adashi::design::{
    DesignBindingRecord, DesignDiagramRecord, DesignElementRecord, DesignRelationshipRecord,
    MockupSummary,
};
use adashi::scope::{
    collect_descendants, element_depth, filter_elements_by_depth, load_scope, plan_subtree_deletion,
};

fn element(id: &str, parent: Option<&str>) -> DesignElementRecord {
    DesignElementRecord {
        external_id: id.to_string(),
        parent_external_id: parent.map(str::to_string),
        element_type: "Container".to_string(),
        name: id.to_uppercase(),
        description: String::new(),
        technology: String::new(),
        tags: String::new(),
    }
}

fn model() -> Vec<DesignElementRecord> {
    vec![
        element("sys", None),
        element("web", Some("sys")),
        element("api", Some("sys")),
        element("handler", Some("api")),
        element("other", None),
    ]
}

fn sorted(mut ids: Vec<String>) -> Vec<String> {
    ids.sort();
    ids
}

#[test]
fn depth_counts_ancestors() {
    let elements = model();
    assert_eq!(element_depth(&elements[0], &elements), 0);
    assert_eq!(element_depth(&elements[2], &elements), 1);
    assert_eq!(element_depth(&elements[3], &elements), 2);
    // A parent that is not stored still counts as one level.
    assert_eq!(element_depth(&element("loose", Some("missing")), &elements), 1);
}

#[test]
fn depth_filter_keeps_shallow_elements_in_order() {
    let kept = filter_elements_by_depth(model(), Some(1));
    let ids: Vec<&str> = kept.iter().map(|e| e.external_id.as_str()).collect();
    assert_eq!(ids, vec!["sys", "web", "api", "other"]);
    assert_eq!(filter_elements_by_depth(model(), None).len(), 5);
    assert_eq!(filter_elements_by_depth(model(), Some(0)).len(), 2);
}

#[test]
fn descendants_are_collected_level_by_level() {
    let elements = model();
    assert_eq!(sorted(collect_descendants(&elements, "sys", Some(0))), vec!["sys"]);
    assert_eq!(
        sorted(collect_descendants(&elements, "sys", Some(1))),
        vec!["api", "sys", "web"]
    );
    assert_eq!(
        sorted(collect_descendants(&elements, "sys", None)),
        vec!["api", "handler", "sys", "web"]
    );
    assert_eq!(sorted(collect_descendants(&elements, "api", None)), vec!["api", "handler"]);
}

#[test]
fn a_scope_holds_the_subtree_its_ancestors_and_what_touches_it() {
    let elements = model();
    let relationships = vec![
        DesignRelationshipRecord {
            external_id: "r1".into(),
            source_external_id: "web".into(),
            destination_external_id: "other".into(),
            description: "Calls".into(),
            technology: String::new(),
            tags: String::new(),
        },
        DesignRelationshipRecord {
            external_id: "r2".into(),
            source_external_id: "other".into(),
            destination_external_id: "sys".into(),
            description: String::new(),
            technology: String::new(),
            tags: String::new(),
        },
    ];
    let diagrams = vec![DesignDiagramRecord {
        key: "flow".into(),
        language: "mermaid".into(),
        title: "Flow".into(),
        diagram_type: "flow".into(),
        artifact_role: "workflow".into(),
        artifact_label: "Flow".into(),
        artifact_rank: 30,
        attached_to_external_id: Some("handler".into()),
        attached_to_target_type: Some("element".into()),
        sort_order: 0,
        source: "flowchart TD".into(),
    }];
    let bindings = vec![
        DesignBindingRecord {
            design_external_id: "api".into(),
            target_type: "file".into(),
            target: "src/api.rs".into(),
        },
        DesignBindingRecord {
            design_external_id: "sys".into(),
            target_type: "file".into(),
            target: "src/main.rs".into(),
        },
    ];
    let mockups = vec![MockupSummary {
        external_id: "screen".into(),
        title: "Screen".into(),
        attached_to_external_id: "web".into(),
        screen: "Home".into(),
        state: "default".into(),
        fidelity: "wireframe".into(),
        status: "accepted".into(),
    }];
    let scope = load_scope(
        4, "workspace", &elements, &relationships, &diagrams, &bindings, &mockups, "api", true, None,
        false,
    )
    .unwrap();
    assert_eq!(scope.root_external_id, "api");
    assert_eq!(scope.revision, 4);
    let ids: Vec<&str> = scope.elements.iter().map(|e| e.external_id.as_str()).collect();
    assert_eq!(ids, vec!["api", "handler"]);
    let ancestors: Vec<&str> = scope.ancestors.iter().map(|e| e.external_id.as_str()).collect();
    assert_eq!(ancestors, vec!["sys"]);
    assert!(scope.relationships.is_empty());
    assert_eq!(scope.diagrams.len(), 1);
    assert_eq!(scope.bindings.len(), 1);
    assert!(scope.mockups.is_empty());
    assert_eq!(scope.structurizr_dsl, None);
    assert_eq!(scope.uml_artifact_types.len(), 4);

    let whole = load_scope(
        4, "workspace", &elements, &relationships, &diagrams, &bindings, &mockups, "sys", false,
        Some(1), true,
    )
    .unwrap();
    let ids: Vec<&str> = whole.elements.iter().map(|e| e.external_id.as_str()).collect();
    assert_eq!(ids, vec!["api", "sys", "web"]);
    assert!(whole.ancestors.is_empty());
    assert_eq!(whole.relationships.len(), 2);
    assert!(whole.diagrams.is_empty());
    assert_eq!(whole.bindings.len(), 2);
    assert_eq!(whole.mockups.len(), 1);
    assert_eq!(whole.structurizr_dsl.as_deref(), Some("workspace"));
}

#[test]
fn an_unknown_element_has_no_scope() {
    let error = load_scope(1, "", &model(), &[], &[], &[], &[], "nope", true, None, false).unwrap_err();
    assert_eq!(error, "Unknown design element id: nope");
}

#[test]
fn deleting_an_element_takes_its_subtree_and_every_touching_relationship() {
    let elements = model();
    let relationships = vec![
        DesignRelationshipRecord {
            external_id: "r1".into(),
            source_external_id: "web".into(),
            destination_external_id: "handler".into(),
            description: String::new(),
            technology: String::new(),
            tags: String::new(),
        },
        DesignRelationshipRecord {
            external_id: "r2".into(),
            source_external_id: "web".into(),
            destination_external_id: "other".into(),
            description: String::new(),
            technology: String::new(),
            tags: String::new(),
        },
    ];
    let plan = plan_subtree_deletion(&elements, &relationships, "api").unwrap();
    assert_eq!(sorted(plan.element_ids), vec!["api", "handler"]);
    assert_eq!(plan.relationship_ids, vec!["r1"]);
    assert_eq!(
        plan_subtree_deletion(&elements, &relationships, "ghost").unwrap_err(),
        "Cannot delete unknown C4 element 'ghost'."
    );
}
