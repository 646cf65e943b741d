use adashi::design::{DesignElementRecord, DesignRelationshipRecord};
use adashi::dsl::{build_structurizr_dsl, descent_exhausts_exec, dsl_identifier, dsl_tags, escape_dsl};

fn element(id: &str, kind: &str, parent: Option<&str>, tags: &str) -> DesignElementRecord {
    DesignElementRecord {
        external_id: id.to_string(),
        parent_external_id: parent.map(str::to_string),
        element_type: kind.to_string(),
        name: format!("{id} name"),
        description: String::new(),
        technology: String::new(),
        tags: tags.to_string(),
    }
}

fn relationship(source: &str, destination: &str, description: &str) -> DesignRelationshipRecord {
    DesignRelationshipRecord {
        external_id: format!("{source}-{destination}"),
        source_external_id: source.to_string(),
        destination_external_id: destination.to_string(),
        description: description.to_string(),
        technology: String::new(),
        tags: String::new(),
    }
}

#[test]
fn identifiers_replace_every_non_alphanumeric_character() {
    assert_eq!(dsl_identifier("api-gateway.v2"), "e_api_gateway_v2");
    assert_eq!(dsl_identifier(""), "e_");
    assert_eq!(dsl_identifier("é1"), "e__1");
}

#[test]
fn escaping_protects_quotes_and_backslashes() {
    assert_eq!(escape_dsl(r#"say "hi" \ bye"#), r#"say \"hi\" \\ bye"#);
    assert_eq!(escape_dsl("plain"), "plain");
}

#[test]
fn tags_are_trimmed_quoted_or_left_out() {
    assert_eq!(dsl_tags("  "), "");
    assert_eq!(dsl_tags(" External, Db "), " \"External, Db\"");
}

#[test]
fn workspace_nests_children_and_views_the_internal_system() {
    let elements = vec![
        element("user", "person", None, ""),
        element("sys", "Software System", None, ""),
        element("api", "Container", Some("sys"), "Api"),
    ];
    let relationships = vec![relationship("user", "sys", "Uses")];
    let dsl = build_structurizr_dsl("Shop", "An \"online\" shop", &elements, &relationships);
    let expected = [
        "workspace \"Shop\" \"An \\\"online\\\" shop\" {\n",
        "    model {\n",
        "        e_user = person \"user name\" \"\" \"\"\n",
        "        e_sys = softwareSystem \"sys name\" \"\" \"\" {\n",
        "            e_api = container \"api name\" \"\" \"\" \"Api\"\n",
        "        }\n",
        "\n",
        "        e_user -> e_sys \"Uses\" \"\"\n",
        "    }\n",
        "\n",
        "    views {\n",
        "        container e_sys \"AdashiContainers\" {\n",
        "            include *\n",
        "            autolayout lr\n",
        "        }\n",
        "    }\n",
        "}",
    ]
    .join("");
    assert_eq!(dsl, expected);
}

#[test]
fn an_external_system_is_not_the_viewed_one_and_unknown_types_become_systems() {
    let elements = vec![
        element("ext", "software system", None, "External"),
        element("odd", "widget", None, ""),
    ];
    let dsl = build_structurizr_dsl("W", "", &elements, &[]);
    assert!(dsl.contains("        e_odd = softwareSystem \"odd name\" \"\" \"\"\n"));
    assert!(dsl.contains("        e_ext = softwareSystem \"ext name\" \"\" \"\" \"External\"\n"));
    assert!(dsl.contains("        container e_ext \"AdashiContainers\" {\n"));
}

#[test]
fn an_empty_model_has_no_view() {
    let dsl = build_structurizr_dsl("W", "D", &[], &[]);
    assert_eq!(
        dsl,
        "workspace \"W\" \"D\" {\n    model {\n\n    }\n\n    views {\n    }\n}"
    );
}

#[test]
fn a_containment_cycle_exhausts_any_descent() {
    let elements = vec![
        element("root", "Software System", None, ""),
        element("a", "Container", Some("root"), ""),
        element("a", "Container", Some("a"), ""),
    ];
    assert!(descent_exhausts_exec(&elements, &elements[0], elements.len()));
    let acyclic = vec![
        element("root", "Software System", None, ""),
        element("a", "Container", Some("root"), ""),
        element("b", "Component", Some("a"), ""),
    ];
    assert!(!descent_exhausts_exec(&acyclic, &acyclic[0], acyclic.len()));
}
