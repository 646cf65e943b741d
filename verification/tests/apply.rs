use adashi::apply::{apply_change, finish_save, save_change, DesignState};
use adashi::design::{
    DesignChange, DesignBindingRecord, DesignDiagramRecord, DesignElementRecord, DesignRelationshipRecord,
};
use adashi::save::ChangePlan;

fn element(id: &str, parent: Option<&str>) -> DesignElementRecord {
    DesignElementRecord {
        external_id: id.to_string(),
        parent_external_id: parent.map(str::to_string),
        element_type: "container".to_string(),
        name: id.to_string(),
        description: String::new(),
        technology: String::new(),
        tags: String::new(),
    }
}

fn diagram(key: &str, language: &str, attached: Option<&str>) -> DesignDiagramRecord {
    DesignDiagramRecord {
        key: key.to_string(),
        language: language.to_string(),
        title: key.to_string(),
        diagram_type: "sequence".to_string(),
        artifact_role: "behavior".to_string(),
        artifact_label: "Sequence".to_string(),
        artifact_rank: 1,
        attached_to_external_id: attached.map(str::to_string),
        attached_to_target_type: None,
        sort_order: 0,
        source: String::new(),
    }
}

fn binding(design: &str, target: &str) -> DesignBindingRecord {
    DesignBindingRecord {
        design_external_id: design.to_string(),
        target_type: "file".to_string(),
        target: target.to_string(),
    }
}

fn relationship(id: &str, source: &str, destination: &str) -> DesignRelationshipRecord {
    DesignRelationshipRecord {
        external_id: id.to_string(),
        source_external_id: source.to_string(),
        destination_external_id: destination.to_string(),
        description: "uses".to_string(),
        technology: String::new(),
        tags: String::new(),
    }
}

fn state() -> DesignState {
    DesignState {
        elements: vec![element("sys", None), element("api", Some("sys")), element("db", None)],
        relationships: vec![relationship("api-db", "api", "db")],
        diagrams: vec![
            diagram("api-flow", "mermaid", Some("api")),
            diagram("call", "mermaid", Some("api-db")),
            diagram("structurizr", "structurizr", Some("api")),
        ],
        bindings: vec![binding("api", "src/api.rs"), binding("call", "docs/call.md"), binding("db", "src/db.rs")],
    }
}

fn ids<T>(items: &[T], id: impl Fn(&T) -> &str) -> Vec<String> {
    items.iter().map(|item| id(item).to_string()).collect()
}

#[test]
fn upsert_replaces_in_place_or_appends() {
    let mut s = state();
    let plan = ChangePlan::UpsertElement {
        external_id: "api".to_string(),
        parent_external_id: Some("sys".to_string()),
        element_type: "container".to_string(),
        name: "Api v2".to_string(),
        description: String::new(),
        technology: String::new(),
        tags: String::new(),
    };
    apply_change(&mut s, &plan).unwrap();
    assert_eq!(ids(&s.elements, |e| &e.external_id), vec!["sys", "api", "db"]);
    assert_eq!(s.elements[1].name, "Api v2");
    let plan = ChangePlan::UpsertBinding {
        design_external_id: "db".to_string(),
        target_type: "file".to_string(),
        target: "src/db.rs".to_string(),
    };
    apply_change(&mut s, &plan).unwrap();
    assert_eq!(s.bindings.len(), 3);
}

#[test]
fn deleting_an_element_takes_its_subtree_and_what_hangs_on_it() {
    let mut s = state();
    apply_change(&mut s, &ChangePlan::DeleteElement { external_id: "sys".to_string() }).unwrap();
    assert_eq!(ids(&s.elements, |e| &e.external_id), vec!["db"]);
    assert!(s.relationships.is_empty());
    // The generated Structurizr artifact is never removed by a cascade.
    assert_eq!(ids(&s.diagrams, |d| &d.key), vec!["structurizr"]);
    assert_eq!(ids(&s.bindings, |b| &b.design_external_id), vec!["db"]);
}

#[test]
fn deleting_a_relationship_takes_its_artifacts_and_bindings() {
    let mut s = state();
    apply_change(&mut s, &ChangePlan::DeleteRelationship { external_id: "api-db".to_string() })
        .unwrap();
    assert!(s.relationships.is_empty());
    assert_eq!(ids(&s.diagrams, |d| &d.key), vec!["api-flow", "structurizr"]);
    assert_eq!(ids(&s.bindings, |b| &b.design_external_id), vec!["api", "db"]);
}

#[test]
fn refused_deletion_leaves_the_records_alone() {
    let mut s = state();
    let refused = apply_change(&mut s, &ChangePlan::DeleteUml { key: "structurizr".to_string() });
    assert_eq!(
        refused,
        Err("Cannot delete generated Structurizr artifact 'structurizr' through delete_uml.".to_string())
    );
    assert_eq!(s.diagrams.len(), 3);
    let refused = apply_change(&mut s, &ChangePlan::DeleteElement { external_id: "web".to_string() });
    assert_eq!(refused, Err("Cannot delete unknown C4 element 'web'.".to_string()));
    assert_eq!(s.elements.len(), 3);
    apply_change(
        &mut s,
        &ChangePlan::DeleteBinding {
            design_external_id: "api".to_string(),
            target_type: "file".to_string(),
            target: "src/api.rs".to_string(),
        },
    )
    .unwrap();
    assert_eq!(ids(&s.bindings, |b| &b.design_external_id), vec!["call", "db"]);
}

fn change(op: &str) -> DesignChange {
    DesignChange {
        op: op.to_string(),
        external_id: None,
        parent_external_id: None,
        element_type: None,
        name: None,
        description: None,
        technology: None,
        tags: None,
        source_external_id: None,
        destination_external_id: None,
        key: None,
        title: None,
        language: None,
        diagram_type: None,
        attached_to_external_id: None,
        source: None,
        design_external_id: None,
        target_type: None,
        target: None,
        viewport_width: None,
        viewport_height: None,
        screen: None,
        mockup_state: None,
        fidelity: None,
        schema_version: None,
        accepted_svg: None,
        base_revision: None,
        proposed_svg: None,
        proposed_manifest: None,
    }
}

#[test]
fn a_refused_change_stores_nothing_at_the_same_revision() {
    let mut s = state();
    let mut unknown = change("delete_relationship");
    unknown.external_id = Some("web-api".to_string());
    let refused = save_change(&mut s, &unknown, 12).unwrap_err();
    assert!(!refused.ok && !refused.stored && refused.correction_required);
    assert_eq!(refused.revision, 12);
    assert_eq!(refused.errors[0].code, "save.invalid_changeset");
    assert_eq!(refused.errors[0].message, "Cannot delete unknown C4 relationship 'web-api'.");
    assert_eq!(s.relationships.len(), 1);

    let missing = change("upsert_element");
    let refused = save_change(&mut s, &missing, 12).unwrap_err();
    assert_eq!(refused.errors[0].message, "Design save field 'externalId' is required");

    let unknown_op = change("rename_element");
    let refused = save_change(&mut s, &unknown_op, 12).unwrap_err();
    assert_eq!(refused.errors[0].message, "Unknown design save op: rename_element");
}

#[test]
fn an_accepted_change_is_applied_and_a_broken_model_is_refused_at_the_end() {
    let mut s = state();
    let mut delete = change("delete_relationship");
    delete.external_id = Some(" api-db ".to_string());
    assert!(matches!(save_change(&mut s, &delete, 3), Ok(ChangePlan::DeleteRelationship { .. })));
    assert!(s.relationships.is_empty());
    let mut dangling = change("upsert_relationship");
    dangling.external_id = Some("api-ghost".to_string());
    dangling.source_external_id = Some("api".to_string());
    dangling.destination_external_id = Some("ghost".to_string());
    dangling.description = Some("calls".to_string());
    save_change(&mut s, &dangling, 3).unwrap();
    let refused = finish_save(&s, &[], 3).unwrap();
    assert!(!refused.ok && !refused.stored);
    assert_eq!(refused.revision, 3);
    assert!(!refused.errors.is_empty());
}
