use adashi::repair::{
    lifted_detail_keys, parameter_report, passes_through, read_token_instructions, relayed_reason,
    report_guidance, ArgumentField, GUIDANCE_DESIGN_WRITE, GUIDANCE_VERSIONS,
};

fn strings(v: &[&str]) -> Vec<String> {
    v.iter().map(|s| s.to_string()).collect()
}

fn argument(name: &str, is_null: bool) -> ArgumentField {
    ArgumentField { name: name.to_string(), is_null }
}

#[test]
fn missing_and_unused_parameters_are_reported_in_order() {
    let report = parameter_report(
        &strings(&["operation", "projectName", "name", "command"]),
        &strings(&["operation", "projectName", "name", "command", "tags"]),
        &[
            argument("operation", false),
            argument("name", true),
            argument("query", false),
            argument("projectName", false),
            argument("jobIds", false),
        ],
    );
    assert_eq!(report.missing, vec!["name", "command"]);
    assert_eq!(report.unused, vec!["query", "jobIds"]);
}

#[test]
fn a_generic_failure_relays_what_its_details_say() {
    assert_eq!(
        relayed_reason("Adashi MCP request failed", Some("Unknown project"), Some("{...}")),
        "Unknown project"
    );
    assert_eq!(
        relayed_reason("Adashi MCP server failed", None, Some("{\"code\":1}")),
        "{\"code\":1}"
    );
    assert_eq!(relayed_reason("Adashi MCP server failed", None, None), "Adashi MCP server failed");
    assert_eq!(relayed_reason("taskId is required", Some("x"), Some("y")), "taskId is required");
}

#[test]
fn only_failures_are_repaired() {
    assert!(passes_through("adashi_grep", None, None));
    assert!(passes_through("adashi_grep", Some(false), Some(false)));
    assert!(passes_through("adashi_design", Some(false), Some(true)));
    assert!(!passes_through("adashi_grep", Some(true), None));
    assert!(!passes_through("adashi_design", None, Some(false)));
}

#[test]
fn design_writes_get_the_document_protocol_guidance() {
    let qa = report_guidance("adashi_qa", "run_jobs");
    assert_eq!(qa.len(), 3);
    assert_eq!(qa[2], GUIDANCE_VERSIONS);
    let save = report_guidance("adashi_design", "save");
    assert_eq!(save[2], GUIDANCE_DESIGN_WRITE);
    assert_eq!(save[..2], qa[..2]);
    assert!(read_token_instructions("adashi_design", "set_element_descriptions").is_some());
    assert!(read_token_instructions("adashi_design", "get_scope").is_none());
}

#[test]
fn stale_design_writes_lift_their_details() {
    let keys = lifted_detail_keys("adashi_design", "save", Some("out_of_date")).unwrap();
    assert_eq!(
        keys,
        vec![
            "code",
            "message",
            "stored",
            "request",
            "conflicts",
            "documentId",
            "currentDocument",
            "readToken"
        ]
    );
    assert!(lifted_detail_keys("adashi_design", "save", Some("read_required")).is_some());
    assert!(lifted_detail_keys("adashi_design", "save", Some("invalid")).is_none());
    assert!(lifted_detail_keys("adashi_design", "save", None).is_none());
    assert!(lifted_detail_keys("adashi_tasks", "update", Some("out_of_date")).is_none());
}
