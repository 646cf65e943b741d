use adashi::health::{DesignHealthResult, ElementFinding, ElementHealth};
use adashi::scan::{
    checked_scan, contains_word, inside_literal_or_comment, looks_like_path, scan, split_symbol,
    FileProbe,
    HealthModel, ModelBinding, ModelElement,
};

fn model(
    elements: &[(&str, &str, &str, Option<&str>)],
    bindings: &[(&str, &str, &str)],
    relationships: &[(&str, &str)],
) -> HealthModel {
    let elements = elements
        .iter()
        .map(|(id, name, kind, parent)| ModelElement {
            external_id: id.to_string(),
            name: name.to_string(),
            element_type: kind.to_string(),
            parent_external_id: parent.map(str::to_string),
        })
        .collect();
    let bindings = bindings
        .iter()
        .map(|(id, kind, target)| ModelBinding {
            design_external_id: id.to_string(),
            target_type: kind.to_string(),
            target: target.to_string(),
        })
        .collect();
    let relationships = relationships
        .iter()
        .map(|(a, b)| (a.to_string(), b.to_string()))
        .collect::<Vec<_>>();
    HealthModel::new(elements, bindings, &relationships)
}

/// A file that exists inside the project folder, as the caller probes it.
fn file(path: &str, contents: &str) -> FileProbe {
    FileProbe {
        query: path.to_string(),
        display: Some(path.to_string()),
        contents: Some(contents.to_string()),
    }
}

/// A path that resolves to nothing inside the project folder.
fn missing(path: &str) -> FileProbe {
    FileProbe { query: path.to_string(), display: None, contents: None }
}

fn finding<'a>(result: &'a DesignHealthResult, id: &str) -> &'a ElementFinding {
    result
        .elements
        .iter()
        .find(|element| element.design_external_id == id)
        .unwrap_or_else(|| panic!("{id} missing"))
}

#[test]
fn an_element_with_no_parent_and_no_relationship_is_orphaned() {
    let result = scan(
        &model(&[("a", "A", "Component", None)], &[("a", "file", "src/a.rs")], &[]),
        &[file("src/a.rs", "fn thing() {}\n")],
    );
    let element = finding(&result, "a");
    assert_eq!(element.state, ElementHealth::Orphaned);
    // Its binding still resolves; the problem is the model, not the code.
    assert_eq!(element.files, vec!["src/a.rs".to_string()]);
    assert!(element.next_action.contains("Attach it to the model"));
}

#[test]
fn a_parent_or_a_relationship_is_enough_to_be_attached() {
    let result = scan(
        &model(
            &[
                ("root", "Root", "Software System", None),
                ("child", "Child", "Container", Some("root")),
                ("peer", "Peer", "Component", None),
            ],
            &[
                ("root", "file", "src/root.rs"),
                ("child", "file", "src/a.rs"),
                ("peer", "file", "src/b.rs"),
            ],
            &[("root", "peer")],
        ),
        &[
            file("src/a.rs", "fn thing() {}\n"),
            file("src/b.rs", "fn other() {}\n"),
            file("src/root.rs", "fn root() {}\n"),
        ],
    );
    for id in ["root", "child", "peer"] {
        assert_eq!(finding(&result, id).state, ElementHealth::Resolved, "{id}");
    }
}

#[test]
fn an_attached_element_without_bindings_is_unmapped_not_unimplemented() {
    let result = scan(&model(&[("a", "A", "Component", Some("root"))], &[], &[]), &[]);
    let element = finding(&result, "a");
    assert_eq!(element.state, ElementHealth::Unmapped);
    assert!(
        element.detail.contains("nothing is claimed about where its code lives"),
        "{}",
        element.detail
    );
    assert!(!element.detail.contains("not implemented"), "the state must not read as absent work");
    assert!(element.next_action.contains("Bind it to the file"));
}

#[test]
fn a_binding_that_names_a_missing_file_is_broken() {
    let result = scan(
        &model(&[("a", "A", "Component", Some("root"))], &[("a", "file", "src/gone.rs")], &[]),
        &[missing("src/gone.rs")],
    );
    let element = finding(&result, "a");
    assert_eq!(element.state, ElementHealth::Broken);
    assert_eq!(element.broken.len(), 1);
    assert!(element.broken[0].detail.contains("file not found"));
    assert_eq!(result.counts.broken, 1);
    assert_eq!(result.counts.broken_bindings, 1);
}

#[test]
fn one_broken_binding_among_good_ones_is_still_broken() {
    let result = scan(
        &model(
            &[("a", "A", "Component", Some("root"))],
            &[("a", "file", "src/a.rs"), ("a", "file", "src/gone.rs")],
            &[],
        ),
        &[file("src/a.rs", "fn thing() {}\n")],
    );
    let element = finding(&result, "a");
    assert_eq!(element.state, ElementHealth::Broken);
    assert_eq!(element.files, vec!["src/a.rs".to_string()]);
    assert_eq!(element.broken.len(), 1);
    assert_eq!(element.detail, "1 binding(s) do not resolve: src/gone.rs");
}

#[test]
fn a_symbol_binding_resolves_against_its_named_file() {
    let probes = [file("src/a.rs", "pub struct Thing;\n")];
    let resolved = scan(
        &model(
            &[("a", "A", "Component", Some("root"))],
            &[("a", "file", "src/a.rs"), ("a", "symbol", "src/a.rs::Thing")],
            &[],
        ),
        &probes,
    );
    assert_eq!(finding(&resolved, "a").state, ElementHealth::Resolved);

    let absent = scan(
        &model(
            &[("a", "A", "Component", Some("root"))],
            &[("a", "file", "src/a.rs"), ("a", "symbol", "src/a.rs::Absent")],
            &[],
        ),
        &probes,
    );
    assert_eq!(finding(&absent, "a").state, ElementHealth::Broken);
    assert!(finding(&absent, "a").broken[0].detail.contains("symbol not found"));
}

#[test]
fn a_bare_symbol_name_is_checked_against_the_elements_files() {
    let result = scan(
        &model(
            &[("a", "A", "Component", Some("root"))],
            &[("a", "file", "src/a.rs"), ("a", "symbol", "helper")],
            &[],
        ),
        &[file("src/a.rs", "fn helper() {}\n")],
    );
    assert_eq!(finding(&result, "a").state, ElementHealth::Resolved);
}

#[test]
fn a_symbol_named_only_as_data_is_not_a_definition() {
    let result = scan(
        &model(
            &[("a", "A", "Component", Some("root"))],
            &[("a", "file", "src/a.rs"), ("a", "symbol", "src/a.rs::Absent")],
            &[],
        ),
        &[file("src/a.rs", "const RETIRED: &[&str] = &[\"Absent\"];\n// Absent in a comment too\n")],
    );
    assert_eq!(finding(&result, "a").state, ElementHealth::Broken);
}

#[test]
fn a_binding_cannot_escape_the_project_folder() {
    // The caller's resolution refuses a path outside the folder; the scan reports it broken.
    let result = scan(
        &model(
            &[("a", "A", "Component", Some("root"))],
            &[("a", "file", "../outside-health-secret.rs")],
            &[],
        ),
        &[missing("../outside-health-secret.rs")],
    );
    assert_eq!(finding(&result, "a").state, ElementHealth::Broken);
}

#[test]
fn findings_are_ordered_most_actionable_first() {
    let result = scan(
        &model(
            &[
                ("root", "Root", "Software System", None),
                ("ok", "Ok", "Component", Some("root")),
                ("unmapped", "Unmapped", "Component", Some("root")),
                ("dead", "Dead", "Component", Some("root")),
                ("float", "Float", "Component", None),
            ],
            &[("ok", "file", "src/ok.rs"), ("dead", "file", "src/nope.rs")],
            &[],
        ),
        &[file("src/ok.rs", "fn ok() {}\n")],
    );
    let order = result
        .elements
        .iter()
        .map(|element| (element.design_external_id.as_str(), element.state))
        .collect::<Vec<_>>();
    assert_eq!(
        order,
        vec![
            ("dead", ElementHealth::Broken),
            ("float", ElementHealth::Orphaned),
            ("root", ElementHealth::Unmapped),
            ("unmapped", ElementHealth::Unmapped),
            ("ok", ElementHealth::Resolved),
        ]
    );
    assert_eq!(
        result.summary,
        "5 element(s): 1 resolved, 2 unmapped, 1 orphaned, 1 broken (1 broken binding(s))."
    );
}

#[test]
fn the_result_states_what_it_does_not_check() {
    let result = scan(&model(&[], &[], &[]), &[]);
    assert!(result.not_checked.contains("do not check"));
    assert!(result.summary.contains("0 element(s)"));
}

#[test]
fn a_whole_word_outside_literals_and_comments_is_found() {
    assert!(contains_word("fn helper() {}", "helper"));
    assert!(!contains_word("fn helpers() {}", "helper"));
    assert!(!contains_word("let s = \"helper\";", "helper"));
    assert!(!contains_word("/* helper */ fn x() {}", "helper"));
    assert!(contains_word("// helper\nfn helper() {}", "helper"));
    assert!(!contains_word("anything", ""));
    assert!(inside_literal_or_comment("a /* b", 6));
    assert!(!inside_literal_or_comment("a /* b */ c", 10));
    assert!(inside_literal_or_comment("x = 'a", 6));
}

#[test]
fn a_symbol_splits_from_its_file_only_when_the_file_reads_as_a_path() {
    assert!(looks_like_path("src/a.rs"));
    assert!(looks_like_path("a.rs"));
    assert!(!looks_like_path("module"));
    assert!(!looks_like_path("a.toolong"));
    assert_eq!(split_symbol("src/a.rs::Thing"), (Some("src/a.rs".to_string()), "Thing".to_string()));
    assert_eq!(split_symbol("crate::module::Thing"), (None, "crate::module::Thing".to_string()));
    assert_eq!(split_symbol("  helper "), (None, "helper".to_string()));
}

#[test]
fn a_checked_scan_of_a_countable_design_is_the_scan() {
    let m = model(&[("a", "A", "Component", Some("root"))], &[("a", "file", "src/gone.rs")], &[]);
    let probes = [missing("src/gone.rs")];
    let checked = checked_scan(&m, &probes).unwrap();
    let plain = scan(&m, &probes);
    assert_eq!(checked.counts, plain.counts);
    assert_eq!(checked.elements.len(), plain.elements.len());
    assert_eq!(finding(&checked, "a").state, ElementHealth::Broken);
}
