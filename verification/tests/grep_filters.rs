use adashi::corpus::{candidates, ProjectContent};
use adashi::design::{DesignBindingRecord, DesignDiagramRecord, DesignElementRecord, MockupSummary};
use adashi::grep::{parse_query, GrepDomain};

fn content() -> ProjectContent {
    ProjectContent {
        elements: vec![DesignElementRecord {
            external_id: "api".to_string(),
            parent_external_id: None,
            element_type: "container".to_string(),
            name: "Api".to_string(),
            description: "Serves requests".to_string(),
            technology: "Rust".to_string(),
            tags: String::new(),
        }],
        relationships: vec![],
        diagrams: vec![DesignDiagramRecord {
            key: "flow".to_string(),
            language: "mermaid".to_string(),
            title: "Checkout flow".to_string(),
            diagram_type: "sequence".to_string(),
            artifact_role: "behavior".to_string(),
            artifact_label: "Sequence".to_string(),
            artifact_rank: 1,
            attached_to_external_id: Some("api".to_string()),
            attached_to_target_type: Some("element".to_string()),
            sort_order: 0,
            source: "sequenceDiagram".to_string(),
        }],
        bindings: vec![DesignBindingRecord {
            design_external_id: "api".to_string(),
            target_type: "file".to_string(),
            target: "src/api.rs".to_string(),
        }],
        mockups: vec![MockupSummary {
            external_id: "checkout-screen".to_string(),
            title: "Checkout screen".to_string(),
            attached_to_external_id: "api".to_string(),
            screen: "checkout".to_string(),
            state: "default".to_string(),
            fidelity: "low".to_string(),
            status: "draft".to_string(),
        }],
        tasks: vec![],
        memory_summary: String::new(),
        notes: vec![],
    }
}

#[test]
fn file_filter_keeps_only_design_hits_bound_to_the_file() {
    let content = content();
    let unfiltered = candidates(&content, &parse_query("checkout in:design").unwrap());
    assert!(unfiltered.iter().any(|c| c.text == "Checkout flow"));
    assert!(unfiltered.iter().any(|c| c.text == "Checkout screen"));

    let filtered = candidates(&content, &parse_query("checkout in:design file:src/api.rs").unwrap());
    assert!(filtered.iter().all(|c| c.domain == GrepDomain::Design));
    assert!(filtered.iter().all(|c| c.text != "Checkout flow" && c.text != "Checkout screen"));
    assert!(filtered.iter().any(|c| c.text == "Serves requests"));

    let other = candidates(&content, &parse_query("checkout in:design file:src/db.rs").unwrap());
    assert!(other.is_empty());
}

fn element(id: &str, name: &str, description: &str) -> DesignElementRecord {
    DesignElementRecord {
        external_id: id.to_string(),
        parent_external_id: None,
        element_type: "Component".to_string(),
        name: name.to_string(),
        description: description.to_string(),
        technology: String::new(),
        tags: String::new(),
    }
}

fn binding(design: &str, target: &str) -> DesignBindingRecord {
    DesignBindingRecord {
        design_external_id: design.to_string(),
        target_type: "file".to_string(),
        target: target.to_string(),
    }
}

fn task(id: i64, title: &str, changed: &[&str]) -> adashi::corpus::TaskFields {
    adashi::corpus::TaskFields {
        id,
        title: title.to_string(),
        description: String::new(),
        state: "active".to_string(),
        completion_memo: String::new(),
        created_files: vec![],
        changed_files: changed.iter().map(|f| f.to_string()).collect(),
    }
}

fn empty() -> ProjectContent {
    ProjectContent {
        elements: vec![],
        relationships: vec![],
        diagrams: vec![],
        bindings: vec![],
        mockups: vec![],
        tasks: vec![],
        memory_summary: String::new(),
        notes: vec![],
    }
}

fn search(content: &ProjectContent, pattern: &str) -> adashi::report::GrepResult {
    adashi::search::search_content(content, &parse_query(pattern).unwrap())
}

#[test]
fn a_broad_single_letter_query_stays_inside_the_budget() {
    let mut content = empty();
    for index in 0..800 {
        content.elements.push(element(
            &format!("e{index}"),
            &format!("Element {index}"),
            &"e".repeat(400),
        ));
    }
    let result = search(&content, "e");
    assert!(result.total > 1_000, "fixture matched only {}", result.total);
    assert!(result.truncated, "{}", result.output);
    assert!(result.output_bytes <= adashi::grep::GREP_REPLY_BUDGET);
    assert_eq!(result.output_bytes, result.output.len());
    assert!(
        result.output.contains(&format!("showing {} of {} ", result.shown, result.total)),
        "{}",
        result.output
    );
    assert!(result.output.contains("narrow the query"));
}

#[test]
fn artifact_source_is_matched_but_only_returned_as_a_window() {
    let mut content = empty();
    content.elements.push(element("store", "Store", "Keeps the records"));
    let huge = format!("sequenceDiagram\n{}participant Store\n", "  A->>B: filler\n".repeat(2_000));
    content.diagrams.push(DesignDiagramRecord {
        key: "uml-save".to_string(),
        language: "mermaid".to_string(),
        title: "Save".to_string(),
        diagram_type: "sequence".to_string(),
        artifact_role: "behavior".to_string(),
        artifact_label: "Sequence".to_string(),
        artifact_rank: 1,
        attached_to_external_id: Some("store".to_string()),
        attached_to_target_type: Some("element".to_string()),
        sort_order: 1,
        source: huge.clone(),
    });
    let result = search(&content, "in:design participant");
    assert!(result.total > 0, "{}", result.output);
    assert!(result.output_bytes <= adashi::grep::GREP_REPLY_BUDGET);
    assert!(result.output.len() < huge.len() / 4, "a whole artifact was returned");
}

#[test]
fn the_file_filter_surfaces_the_owner_and_the_tasks_that_touched_it() {
    let mut content = empty();
    content.elements.push(element("mcp-server", "MCP server", "Serves the tools"));
    content.elements.push(element("concurrency-guard", "Concurrency guard", "Guards mcp.rs writes"));
    content.elements.push(element("6", "Six", "Mentions mcp.rs too"));
    content.bindings.push(binding("mcp-server", "src-tauri/src/mcp.rs"));
    content.bindings.push(binding("concurrency-guard", "src-tauri/src/concurrency.rs"));
    content.bindings.push(binding("6", "src-tauri/src/other.rs"));
    content.tasks.push(task(1, "Split the server", &["src-tauri/src/mcp.rs"]));
    content.tasks.push(task(2, "Tidy mcp.rs docs", &["docs/readme.md"]));

    let result = search(&content, "mcp.rs file:src-tauri/src/mcp.rs");
    assert_eq!(result.pattern_terms, 1, "the file clause is a scope, not a term");
    assert!(result.output.contains("design:mcp-server"), "{}", result.output);
    assert_eq!(
        result.output.matches("src-tauri/src/mcp.rs").count(),
        1,
        "the same sentence must be returned once:\n{}",
        result.output
    );
    assert!(!result.output.contains("task:2"), "{}", result.output);
    assert!(!result.output.contains("design:concurrency-guard"), "{}", result.output);
    assert!(!result.output.contains("design:6:"), "{}", result.output);
}
