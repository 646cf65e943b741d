use adashi::design::{
    DesignBindingRecord, DesignDiagramRecord, DesignElementRecord, DesignRelationshipRecord,
};
use adashi::save::{check_deletion, ChangePlan};

fn element(id: &str) -> DesignElementRecord {
    DesignElementRecord {
        external_id: id.to_string(),
        parent_external_id: None,
        element_type: "container".to_string(),
        name: id.to_string(),
        description: String::new(),
        technology: String::new(),
        tags: String::new(),
    }
}

fn diagram(key: &str, language: &str) -> DesignDiagramRecord {
    DesignDiagramRecord {
        key: key.to_string(),
        language: language.to_string(),
        title: key.to_string(),
        diagram_type: "sequence".to_string(),
        artifact_role: "behavior".to_string(),
        artifact_label: "Sequence".to_string(),
        artifact_rank: 1,
        attached_to_external_id: None,
        attached_to_target_type: None,
        sort_order: 0,
        source: String::new(),
    }
}

struct Workspace {
    elements: Vec<DesignElementRecord>,
    relationships: Vec<DesignRelationshipRecord>,
    diagrams: Vec<DesignDiagramRecord>,
    bindings: Vec<DesignBindingRecord>,
}

fn workspace() -> Workspace {
    Workspace {
        elements: vec![element("api"), element("db")],
        relationships: vec![DesignRelationshipRecord {
            external_id: "api-db".to_string(),
            source_external_id: "api".to_string(),
            destination_external_id: "db".to_string(),
            description: "Reads".to_string(),
            technology: String::new(),
            tags: String::new(),
        }],
        diagrams: vec![diagram("flow", "mermaid"), diagram("structurizr", "structurizr")],
        bindings: vec![DesignBindingRecord {
            design_external_id: "api".to_string(),
            target_type: "file".to_string(),
            target: "src/api.rs".to_string(),
        }],
    }
}

fn check(plan: ChangePlan) -> Result<(), String> {
    let w = workspace();
    check_deletion(&plan, &w.elements, &w.relationships, &w.diagrams, &w.bindings)
}

#[test]
fn deleting_what_exists_is_allowed() {
    assert!(check(ChangePlan::DeleteElement { external_id: "api".to_string() }).is_ok());
    assert!(check(ChangePlan::DeleteRelationship { external_id: "api-db".to_string() }).is_ok());
    assert!(check(ChangePlan::DeleteUml { key: "flow".to_string() }).is_ok());
    assert!(check(ChangePlan::DeleteBinding {
        design_external_id: "api".to_string(),
        target_type: "file".to_string(),
        target: "src/api.rs".to_string(),
    })
    .is_ok());
}

#[test]
fn deleting_what_is_missing_is_refused_by_name() {
    assert_eq!(
        check(ChangePlan::DeleteElement { external_id: "web".to_string() }),
        Err("Cannot delete unknown C4 element 'web'.".to_string())
    );
    assert_eq!(
        check(ChangePlan::DeleteRelationship { external_id: "web-api".to_string() }),
        Err("Cannot delete unknown C4 relationship 'web-api'.".to_string())
    );
    assert_eq!(
        check(ChangePlan::DeleteUml { key: "gone".to_string() }),
        Err("Cannot delete unknown UML artifact 'gone'.".to_string())
    );
    assert_eq!(
        check(ChangePlan::DeleteBinding {
            design_external_id: "api".to_string(),
            target_type: "file".to_string(),
            target: "src/db.rs".to_string(),
        }),
        Err("Cannot delete unknown binding 'api' -> file 'src/db.rs'.".to_string())
    );
}

#[test]
fn generated_structurizr_artifact_cannot_be_deleted_as_uml() {
    assert_eq!(
        check(ChangePlan::DeleteUml { key: "structurizr".to_string() }),
        Err("Cannot delete generated Structurizr artifact 'structurizr' through delete_uml."
            .to_string())
    );
}
