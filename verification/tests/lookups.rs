use adashi::design::{
    DesignBindingRecord, DesignDiagramRecord, DesignElementRecord, DesignRelationshipRecord,
    MockupSummary,
};
use adashi::lookups::{
    load_by_bindings, load_by_ids, load_overview, matches_terms, search, split_words,
};

fn element(id: &str, name: &str, description: &str) -> DesignElementRecord {
    DesignElementRecord {
        external_id: id.into(),
        parent_external_id: None,
        element_type: "Container".into(),
        name: name.into(),
        description: description.into(),
        technology: String::new(),
        tags: String::new(),
    }
}

fn relationship(id: &str, source: &str, destination: &str, description: &str) -> DesignRelationshipRecord {
    DesignRelationshipRecord {
        external_id: id.into(),
        source_external_id: source.into(),
        destination_external_id: destination.into(),
        description: description.into(),
        technology: String::new(),
        tags: String::new(),
    }
}

fn diagram(key: &str, title: &str, attached: Option<&str>) -> DesignDiagramRecord {
    DesignDiagramRecord {
        key: key.into(),
        language: "mermaid".into(),
        title: title.into(),
        diagram_type: "flow".into(),
        artifact_role: "workflow".into(),
        artifact_label: "Flow".into(),
        artifact_rank: 30,
        attached_to_external_id: attached.map(str::to_string),
        attached_to_target_type: None,
        sort_order: 0,
        source: "flowchart TD".into(),
    }
}

fn mockup(id: &str, title: &str) -> MockupSummary {
    MockupSummary {
        external_id: id.into(),
        title: title.into(),
        attached_to_external_id: "web".into(),
        screen: "Login".into(),
        state: "default".into(),
        fidelity: "wireframe".into(),
        status: "accepted".into(),
    }
}

fn binding(design: &str, target_type: &str, target: &str) -> DesignBindingRecord {
    DesignBindingRecord {
        design_external_id: design.into(),
        target_type: target_type.into(),
        target: target.into(),
    }
}

fn chars(s: &str) -> Vec<char> {
    s.chars().collect()
}

#[test]
fn words_split_on_any_whitespace() {
    let words: Vec<String> = split_words(&chars("  Auth\tflow \n login "))
        .into_iter()
        .map(|w| w.into_iter().collect())
        .collect();
    assert_eq!(words, vec!["Auth", "flow", "login"]);
    assert!(split_words(&chars("   ")).is_empty());
}

#[test]
fn every_term_must_occur() {
    let terms = vec![chars("auth"), chars("token")];
    assert!(matches_terms(&chars("auth token store"), &terms));
    assert!(!matches_terms(&chars("auth store"), &terms));
    assert!(matches_terms(&chars("anything"), &vec![]));
}

#[test]
fn search_matches_all_words_across_kinds_in_order() {
    let elements = vec![element("auth", "Auth Service", "Issues tokens"), element("web", "Web", "UI")];
    let relationships = vec![relationship("r1", "web", "auth", "Requests a token")];
    let diagrams = vec![diagram("login-flow", "Login Token Flow", None)];
    let mockups = vec![mockup("login", "Login token screen")];
    let result = search(7, "TOKEN", &[], 20, &elements, &relationships, &diagrams, &mockups);
    assert_eq!(result.revision, 7);
    let hits: Vec<(&str, &str, &str, &str)> = result
        .hits
        .iter()
        .map(|h| (h.kind.as_str(), h.id.as_str(), h.title.as_str(), h.summary.as_str()))
        .collect();
    assert_eq!(
        hits,
        vec![
            ("element", "auth", "Auth Service", "Issues tokens"),
            ("relationship", "r1", "web -> auth", "Requests a token"),
            ("uml", "login-flow", "Login Token Flow", "unattached"),
            ("mockup", "login", "Login token screen", "accepted - web"),
        ]
    );
    let only_uml = search(7, "token flow", &["source".to_string()], 20, &elements, &relationships, &diagrams, &mockups);
    assert_eq!(only_uml.hits.len(), 1);
    assert_eq!(only_uml.hits[0].kind, "uml");
    let limited = search(7, "", &[], 0, &elements, &relationships, &diagrams, &mockups);
    assert_eq!(limited.hits.len(), 1);
    assert_eq!(limited.hits[0].id, "auth");
}

#[test]
fn records_are_read_by_their_ids() {
    let elements = vec![element("auth", "Auth", ""), element("web", "Web", "")];
    let relationships = vec![relationship("r1", "web", "auth", "")];
    let diagrams = vec![diagram("flow", "Flow", Some("auth"))];
    let bindings = vec![binding("auth", "file", "src/auth.rs"), binding("web", "file", "src/web.rs")];
    let mockups = vec![mockup("login", "Login")];
    let ids = vec!["auth".to_string(), "flow".to_string(), "login".to_string()];
    let result = load_by_ids(3, &ids, &elements, &relationships, &diagrams, &bindings, &mockups);
    assert_eq!(result.elements.len(), 1);
    assert!(result.relationships.is_empty());
    assert_eq!(result.diagrams.len(), 1);
    assert_eq!(result.bindings.len(), 1);
    assert_eq!(result.bindings[0].target, "src/auth.rs");
    assert_eq!(result.mockups.len(), 1);
    assert_eq!(result.uml_artifact_types.len(), 4);
}

#[test]
fn bound_code_leads_to_the_records_it_binds() {
    let elements = vec![element("auth", "Auth", ""), element("web", "Web", "")];
    let bindings = vec![
        binding("auth", "file", "src/auth.rs"),
        binding("web", "symbol", "render"),
        binding("web", "file", "render"),
    ];
    let result = load_by_bindings(
        1,
        &["src/auth.rs".to_string()],
        &["render".to_string()],
        &elements,
        &[],
        &[],
        &bindings,
        &[],
    );
    assert_eq!(result.bindings.len(), 2);
    let ids: Vec<&str> = result.elements.iter().map(|e| e.external_id.as_str()).collect();
    assert_eq!(ids, vec!["auth", "web"]);
}

#[test]
fn the_overview_keeps_the_top_levels_and_everything_else() {
    let mut child = element("api", "API", "");
    child.parent_external_id = Some("sys".into());
    let mut grandchild = element("handler", "Handler", "");
    grandchild.parent_external_id = Some("api".into());
    let elements = vec![element("sys", "System", ""), child, grandchild];
    let overview = load_overview(
        2,
        "Shop".into(),
        "An online shop".into(),
        "workspace {}".into(),
        elements.clone(),
        vec![relationship("r1", "api", "sys", "")],
        vec![],
        vec![],
        vec![mockup("login", "Login")],
        Some(1),
    );
    let ids: Vec<&str> = overview.elements.iter().map(|e| e.external_id.as_str()).collect();
    assert_eq!(ids, vec!["sys", "api"]);
    assert_eq!(overview.relationships.len(), 1);
    assert_eq!(overview.mockups.len(), 1);
    assert_eq!(overview.workspace_name, "Shop");
    let all = load_overview(2, "".into(), "".into(), "".into(), elements, vec![], vec![], vec![], vec![], None);
    assert_eq!(all.elements.len(), 3);
}
