use adashi::design::{
    diagram_artifact_label, diagram_artifact_rank, diagram_artifact_role,
    supported_uml_artifact_types, validate_mermaid,
};

#[test]
fn validate_mermaid_rejects_sequence_note_raw_semicolon_text() {
    let source = "sequenceDiagram
    participant Pipeline
    participant Session
    Note over Pipeline,Session: The subsystem never serializes a parallel model; Save delegates to the live USD stage session.";

    let error = validate_mermaid(source).unwrap();

    assert!(error.contains("line 4"));
    assert!(error.contains("raw semicolon"));
}

#[test]
fn validate_mermaid_accepts_sequence_note_escaped_semicolon_text() {
    let source = "sequenceDiagram
    participant Pipeline
    participant Session
    Note over Pipeline,Session: The subsystem never serializes a parallel model#59; Save delegates to the live USD stage session.";

    assert_eq!(validate_mermaid(source), None);
}

#[test]
fn validate_mermaid_accepts_sequence_semicolon_statement_separator() {
    let source = "sequenceDiagram
    A->>B: one; B-->>A: two";

    assert_eq!(validate_mermaid(source), None);
}

#[test]
fn validate_mermaid_names_each_structural_problem() {
    assert_eq!(validate_mermaid("   \n "), Some("source is empty".to_string()));
    assert_eq!(
        validate_mermaid("pie title Pets\n  \"Dogs\" : 3"),
        Some("first line 'pie title Pets' is not a supported Mermaid UML diagram header".to_string())
    );
    assert_eq!(
        validate_mermaid("flowchart TD\n  A[Start --> B"),
        Some("unbalanced '[' and ']' delimiters".to_string())
    );
    assert_eq!(validate_mermaid("flowchart TD\n  A[Start] --> B(End)"), None);
    assert_eq!(validate_mermaid("classDiagram\n  note for A \"x; y\""), None);
}

#[test]
fn artifact_roles_labels_and_ranks_follow_the_normalized_type() {
    assert_eq!(diagram_artifact_role(" Sequence-Diagram "), "reference");
    assert_eq!(diagram_artifact_role(" SequenceDiagram "), "interaction");
    assert_eq!(diagram_artifact_role("stateDiagram-v2"), "lifecycle");
    assert_eq!(diagram_artifact_label("flowchart"), "Flow");
    assert_eq!(diagram_artifact_rank("C4"), 90);
    assert_eq!(diagram_artifact_rank("pie"), 80);
    assert_eq!(diagram_artifact_label("pie"), "Artifact");
}

#[test]
fn supported_types_agree_with_the_type_functions() {
    let types = supported_uml_artifact_types();
    assert_eq!(types.len(), 4);
    for record in &types {
        assert_eq!(diagram_artifact_role(&record.diagram_type), record.artifact_role);
        assert_eq!(diagram_artifact_label(&record.diagram_type), record.artifact_label);
        assert_eq!(diagram_artifact_rank(&record.diagram_type), record.artifact_rank);
    }
    assert_eq!(types[1].mermaid_header, "sequenceDiagram");
}
