use adashi::design::{DesignElementRecord, DesignRelationshipRecord};
use adashi::structurizr::build_structurizr_model;

fn element(id: &str, kind: &str, parent: Option<&str>, tags: &str) -> DesignElementRecord {
    DesignElementRecord {
        external_id: id.to_string(),
        parent_external_id: parent.map(str::to_string),
        element_type: kind.to_string(),
        name: format!("{id} name"),
        description: String::new(),
        technology: String::new(),
        tags: tags.to_string(),
    }
}

fn relationship(id: &str, source: &str, destination: &str) -> DesignRelationshipRecord {
    DesignRelationshipRecord {
        external_id: id.to_string(),
        source_external_id: source.to_string(),
        destination_external_id: destination.to_string(),
        description: String::new(),
        technology: String::new(),
        tags: String::new(),
    }
}

#[test]
fn systems_carry_their_nested_elements_depth_first() {
    let elements = vec![
        element("user", "Person", None, ""),
        element("sys", "Software System", None, ""),
        element("api", "Container", Some("sys"), ""),
        element("db", "Component", Some("api"), ""),
        element("ext", "software system", None, "External"),
        element("note", "Widget", None, ""),
    ];
    let relationships = vec![relationship("r1", "user", "sys"), relationship("r2", "api", "db")];
    let model = build_structurizr_model(&elements, &relationships);
    assert_eq!(model.people.len(), 1);
    assert_eq!(model.people[0].element.external_id, "user");
    assert_eq!(model.people[0].relationships[0].external_id, "r1");
    let systems: Vec<(usize, &str, usize)> = model
        .systems
        .iter()
        .map(|e| (e.depth, e.element.external_id.as_str(), e.relationships.len()))
        .collect();
    assert_eq!(systems, vec![(0, "sys", 0), (1, "api", 1), (2, "db", 0), (0, "ext", 0)]);
    assert_eq!(model.root_system_id, "sys");
    let views: Vec<(&str, Vec<String>)> = model
        .view_elements
        .iter()
        .map(|v| (v.id.as_str(), v.relationship_ids.clone()))
        .collect();
    assert_eq!(views[0], ("user", vec!["r1".to_string()]));
    assert_eq!(views[2], ("api", vec!["r2".to_string()]));
    assert_eq!(views.len(), 6);
}

#[test]
fn an_element_taken_twice_is_a_plain_copy_the_second_time() {
    let elements = vec![
        element("p", "Person", None, ""),
        element("sys", "Software System", None, ""),
        element("p", "Container", Some("sys"), ""),
    ];
    let relationships = vec![relationship("r", "p", "sys")];
    let model = build_structurizr_model(&elements, &relationships);
    // The person takes the stored JSON of id "p": the last element with that id.
    assert_eq!(model.people[0].element.element_type, "Container");
    assert_eq!(model.people[0].relationships.len(), 1);
    assert_eq!(model.systems[1].element.element_type, "Container");
    assert!(model.systems[1].relationships.is_empty());
}

#[test]
fn without_an_internal_system_the_view_has_no_root() {
    let elements = vec![element("ext", "Software System", None, "External")];
    assert_eq!(build_structurizr_model(&elements, &[]).root_system_id, "");
}
