use adashi::documents::WRITE_PROTOCOL;
use adashi::help::{
    prune_definitions, reachable_definitions, select_help, tool_operations, workflow, DefinitionRefs,
    HelpOutcome, HelpParams,
};

fn params(tool: &str, operation: Option<&str>, changes: Option<Vec<&str>>) -> HelpParams {
    HelpParams {
        tool: tool.into(),
        operation: operation.map(str::to_owned),
        change_types: changes.map(|v| v.into_iter().map(str::to_owned).collect()),
    }
}

#[test]
fn catalogs_are_small_and_invalid_selectors_explain_the_valid_choices() {
    let catalog = select_help(&params("adashi_qa", None, None));
    match &catalog {
        HelpOutcome::Catalog { operations, .. } => {
            assert!(operations.contains(&"create_job".to_string()));
        }
        other => panic!("expected a catalog, got {other:?}"),
    }
    assert!(catalog.error_detail_key().is_none());
    for (tool, op, changes, detail) in [
        ("wrong", None, None, "availableTools"),
        ("adashi_qa", Some("wrong"), None, "availableOperations"),
        ("adashi_grep", Some("search"), None, "availableOperations"),
        ("adashi_design", Some("save"), Some(vec![]), "availableChangeTypes"),
        ("adashi_design", Some("save"), Some(vec!["wrong"]), "availableChangeTypes"),
        ("adashi_qa", Some("create_job"), Some(vec!["upsert_uml"]), "exampleArguments"),
    ] {
        let outcome = select_help(&params(tool, op, changes));
        assert_eq!(outcome.error_detail_key(), Some(detail));
    }
}

#[test]
fn refusals_name_what_was_wrong() {
    match select_help(&params("wrong", None, None)) {
        HelpOutcome::UnknownTool { message, available_tools } => {
            assert_eq!(message, "Unknown tool 'wrong'. Choose one of availableTools.");
            assert_eq!(available_tools.len(), 7);
        }
        other => panic!("unexpected {other:?}"),
    }
    match select_help(&params("adashi_grep", Some("search"), None)) {
        HelpOutcome::UnknownOperation { message, available_operations } => {
            assert_eq!(
                message,
                "Unknown operation 'search' for adashi_grep. Omit operation for this tool."
            );
            assert!(available_operations.is_empty());
        }
        other => panic!("unexpected {other:?}"),
    }
    match select_help(&params("adashi_qa", Some("wrong"), None)) {
        HelpOutcome::UnknownOperation { message, .. } => assert_eq!(
            message,
            "Unknown operation 'wrong' for adashi_qa. Choose one of availableOperations."
        ),
        other => panic!("unexpected {other:?}"),
    }
}

#[test]
fn a_design_save_contract_keeps_the_selected_change_types_in_catalog_order() {
    match select_help(&params(
        "adashi_design",
        Some("save"),
        Some(vec!["delete_uml", "upsert_uml"]),
    )) {
        HelpOutcome::Contract { change_types, .. } => {
            assert_eq!(change_types, Some(vec!["upsert_uml".to_string(), "delete_uml".to_string()]));
        }
        other => panic!("unexpected {other:?}"),
    }
    match select_help(&params("adashi_design", Some("save"), None)) {
        HelpOutcome::Contract { change_types, .. } => assert_eq!(change_types.unwrap().len(), 11),
        other => panic!("unexpected {other:?}"),
    }
    match select_help(&params("adashi_grep", None, None)) {
        HelpOutcome::Contract { operation, change_types, .. } => {
            assert_eq!(operation, None);
            assert_eq!(change_types, None);
        }
        other => panic!("unexpected {other:?}"),
    }
}

#[test]
fn tools_list_their_operations() {
    assert_eq!(tool_operations("adashi_intents"), Some(vec!["publish", "list"]));
    assert_eq!(tool_operations("adashi_grep"), Some(vec![]));
    assert_eq!(tool_operations("nope"), None);
}

#[test]
fn workflow_notes_follow_the_tool_and_operation() {
    let save = workflow("adashi_design", "save");
    assert_eq!(save.len(), 5);
    assert_eq!(save[2], WRITE_PROTOCOL);
    let create = workflow("adashi_tasks", "create");
    assert_eq!(create.len(), 3);
    assert!(create[1].starts_with("Use a unique operationId per mutation"));
    let list = workflow("adashi_qa", "list_jobs");
    assert_eq!(list.len(), 3);
    assert!(list[2].starts_with("query is an object"));
    assert_eq!(workflow("unknown", "get").len(), 1);
}

fn definition(name: &str, refs: &[&str]) -> DefinitionRefs {
    DefinitionRefs {
        name: name.to_string(),
        refs: refs.iter().map(|r| r.to_string()).collect(),
    }
}

#[test]
fn pruning_keeps_exactly_the_transitively_referenced_definitions() {
    let definitions = vec![
        definition("A", &["B"]),
        definition("B", &[]),
        definition("C", &["D"]),
        definition("D", &["C", "B"]),
        definition("E", &["A"]),
    ];
    assert_eq!(prune_definitions(&["A".to_string()], &definitions), vec!["A", "B"]);
    assert_eq!(prune_definitions(&["D".to_string()], &definitions), vec!["B", "C", "D"]);
    assert!(prune_definitions(&[], &definitions).is_empty());
    let mut reached = reachable_definitions(&["E".to_string(), "X".to_string()], &definitions);
    reached.sort();
    assert_eq!(reached, vec!["A", "B", "E", "X"]);
}

#[test]
fn change_types_refusal_shows_the_selection_that_takes_them() {
    match select_help(&params("adashi_qa", Some("create_job"), Some(vec!["upsert_uml"]))) {
        HelpOutcome::ChangeTypesUnsupported { message, example_arguments } => {
            assert_eq!(
                message,
                "changeTypes is only supported for tool=adashi_design, operation=save."
            );
            assert_eq!(example_arguments.tool, "adashi_design");
            assert_eq!(example_arguments.operation.as_deref(), Some("save"));
            assert_eq!(example_arguments.change_types, Some(vec!["upsert_uml".to_string()]));
        }
        other => panic!("unexpected {other:?}"),
    }
}
