use adashi::concurrency::{MutationGuard, ResourceExpectation};
use adashi::design::{
    DesignBindingRecord, DesignDiagramRecord, DesignElementRecord, DesignRelationshipRecord,
};
use adashi::documents::{
    binding_json, check_tokens, diagram_json, element_json, load_documents, read_token,
    relationship_json, requested_document_ids, result_tokens, valid_document_id, with_documents,
    workspace_snapshots, DocumentGuard, DocumentReadToken, ResourceChangeTarget,
};

fn api() -> DesignElementRecord {
    DesignElementRecord {
        external_id: "api".into(),
        parent_external_id: Some("sys".into()),
        element_type: "Container".into(),
        name: "API".into(),
        description: "Serves \"orders\"".into(),
        technology: "Rust".into(),
        tags: String::new(),
    }
}

fn diagram(key: &str, language: &str) -> DesignDiagramRecord {
    DesignDiagramRecord {
        key: key.into(),
        language: language.into(),
        title: "Flow".into(),
        diagram_type: "flow".into(),
        artifact_role: "behavior".into(),
        artifact_label: "Flow".into(),
        artifact_rank: 3,
        attached_to_external_id: None,
        attached_to_target_type: Some("element".into()),
        sort_order: 7,
        source: "flowchart TD\n  A --> B".into(),
    }
}

fn guard(ids: &[&str]) -> MutationGuard {
    MutationGuard {
        operation_id: "op".into(),
        read_set: vec![],
        write_set: ids
            .iter()
            .map(|id| ResourceExpectation {
                resource_kind: "design.element".into(),
                resource_id: id.to_string(),
                expected_version: 1,
            })
            .collect(),
    }
}

fn tokens(pairs: &[(&str, &str)]) -> DocumentGuard {
    DocumentGuard {
        operation_id: "op".into(),
        read_tokens: pairs
            .iter()
            .map(|(id, token)| DocumentReadToken {
                document_id: id.to_string(),
                read_token: token.to_string(),
            })
            .collect(),
    }
}

#[test]
fn documents_are_canonical_json_with_sorted_keys() {
    assert_eq!(
        element_json(&api()),
        r#"{"description":"Serves \"orders\"","elementType":"Container","externalId":"api","name":"API","parentExternalId":"sys","tags":"","technology":"Rust"}"#
    );
    let relationship = DesignRelationshipRecord {
        external_id: "r1".into(),
        source_external_id: "a".into(),
        destination_external_id: "b".into(),
        description: "Calls".into(),
        technology: String::new(),
        tags: "x".into(),
    };
    assert_eq!(
        relationship_json(&relationship),
        r#"{"description":"Calls","destinationExternalId":"b","externalId":"r1","sourceExternalId":"a","tags":"x","technology":""}"#
    );
    assert_eq!(
        diagram_json(&diagram("flow-1", "mermaid")),
        r#"{"attachedToExternalId":null,"diagramType":"flow","key":"flow-1","language":"mermaid","source":"flowchart TD\n  A --> B","title":"Flow"}"#
    );
    let binding = DesignBindingRecord {
        design_external_id: "api".into(),
        target_type: "file".into(),
        target: "src/main.rs".into(),
    };
    assert_eq!(
        binding_json(&binding),
        r#"{"designExternalId":"api","target":"src/main.rs","targetType":"file"}"#
    );
}

#[test]
fn a_read_token_is_the_sha256_of_the_tagged_document() {
    let token = read_token("element:api", &element_json(&api()));
    assert_eq!(
        token,
        "sha256:8de953824031f1f6628fefa2beee1723fcc611a86f09e7bc8d17756d5106550d"
    );
    assert_eq!(
        read_token("element:gone", "null"),
        "sha256:b417c4d1ed98eaf89de9cb41970622bbaa11e467f766a268947865d81cb66712"
    );
    assert_ne!(token, read_token("element:api2", &element_json(&api())));
}

#[test]
fn requested_ids_are_sorted_and_unique() {
    let ids: Vec<String> = ["uml:b", "element:z", "uml:b", "binding:a|file|x", "element:a"]
        .iter()
        .map(|s| s.to_string())
        .collect();
    assert_eq!(
        requested_document_ids(&ids),
        vec!["binding:a|file|x", "element:a", "element:z", "uml:b"]
    );
}

#[test]
fn document_ids_need_a_known_kind_and_an_identity() {
    assert!(valid_document_id("element:api"));
    assert!(valid_document_id("binding:a|file|b:c"));
    assert!(valid_document_id("mockup:screen"));
    assert!(!valid_document_id("element:"));
    assert!(!valid_document_id("widget:api"));
    assert!(!valid_document_id("api"));
}

#[test]
fn loading_reads_current_snapshots_and_nulls_for_missing_ones() {
    let snapshots = workspace_snapshots(
        &[api()],
        &[],
        &[diagram("flow-1", "mermaid"), diagram("plant", "plantuml")],
        &[],
    );
    assert_eq!(snapshots.len(), 2);
    let ids: Vec<String> = ["uml:plant", "element:api", "uml:flow-1"]
        .iter()
        .map(|s| s.to_string())
        .collect();
    let documents = load_documents(&ids, &snapshots).unwrap();
    let found: Vec<&str> = documents.iter().map(|d| d.document_id.as_str()).collect();
    assert_eq!(found, vec!["element:api", "uml:flow-1", "uml:plant"]);
    assert_eq!(documents[0].document, element_json(&api()));
    assert_eq!(documents[2].document, "null");
    assert_eq!(
        documents[0].read_token,
        "sha256:8de953824031f1f6628fefa2beee1723fcc611a86f09e7bc8d17756d5106550d"
    );
    let error = load_documents(&["nonsense".to_string()], &snapshots).unwrap_err();
    assert_eq!(
        error,
        "Invalid documentId 'nonsense'. Copy documentId from a design read response."
    );
}

#[test]
fn a_fresh_token_admits_the_write() {
    let snapshots = workspace_snapshots(&[api()], &[], &[], &[]);
    let token = read_token("element:api", &element_json(&api()));
    assert!(check_tokens(&tokens(&[("element:api", &token)]), &guard(&["api"]), &snapshots).is_ok());
    // A new document needs no token.
    assert!(check_tokens(&tokens(&[]), &guard(&["brand-new"]), &snapshots).is_ok());
}

#[test]
fn an_unread_existing_document_requires_a_read() {
    let snapshots = workspace_snapshots(&[api()], &[], &[], &[]);
    let error = check_tokens(&tokens(&[]), &guard(&["api"]), &snapshots).unwrap_err();
    let value: serde_json::Value = serde_json::from_str(&error).unwrap();
    assert_eq!(value["code"], "read_required");
    assert_eq!(value["stored"], false);
    assert_eq!(value["documentId"], "element:api");
    assert_eq!(value["currentDocument"]["externalId"], "api");
    assert_eq!(
        value["readToken"],
        "sha256:8de953824031f1f6628fefa2beee1723fcc611a86f09e7bc8d17756d5106550d"
    );
}

#[test]
fn a_stale_token_is_refused_with_every_conflict_listed() {
    let mut other = api();
    other.external_id = "web".into();
    let snapshots = workspace_snapshots(&[api(), other], &[], &[], &[]);
    let error = check_tokens(
        &tokens(&[("element:api", "sha256:old")]),
        &guard(&["web", "api"]),
        &snapshots,
    )
    .unwrap_err();
    let value: serde_json::Value = serde_json::from_str(&error).unwrap();
    assert_eq!(value["code"], "out_of_date");
    let conflicts = value["conflicts"].as_array().unwrap();
    assert_eq!(conflicts.len(), 2);
    assert_eq!(conflicts[0]["documentId"], "element:api");
    assert_eq!(conflicts[0]["code"], "out_of_date");
    assert_eq!(conflicts[1]["documentId"], "element:web");
    assert_eq!(conflicts[1]["code"], "read_required");
}

#[test]
fn malformed_token_lists_are_refused_first() {
    let snapshots = workspace_snapshots(&[api()], &[], &[], &[]);
    let message = "Each readTokens entry needs a non-empty readToken and a unique documentId copied from retrieval.";
    assert_eq!(
        check_tokens(&tokens(&[("element:api", "")]), &guard(&["api"]), &snapshots).unwrap_err(),
        message
    );
    assert_eq!(
        check_tokens(
            &tokens(&[("element:api", "a"), ("element:api", "b")]),
            &guard(&["api"]),
            &snapshots
        )
        .unwrap_err(),
        message
    );
}

#[test]
fn a_retrieval_carries_each_named_document_once() {
    let snapshots = workspace_snapshots(&[api()], &[], &[diagram("flow-1", "mermaid")], &[]);
    let documents = with_documents(
        &[api()],
        &[api()],
        &[],
        &[diagram("flow-1", "mermaid"), diagram("plant", "plantuml")],
        &[],
        &[DesignBindingRecord {
            design_external_id: "api".into(),
            target_type: "file".into(),
            target: "src/api.rs".into(),
        }],
        &snapshots,
    )
    .unwrap();
    let ids: Vec<&str> = documents.iter().map(|d| d.document_id.as_str()).collect();
    assert_eq!(ids, vec!["binding:api|file|src/api.rs", "element:api", "uml:flow-1"]);
    assert_eq!(documents[0].document, "null");
    assert_eq!(documents[1].document, element_json(&api()));
}

#[test]
fn a_change_reports_the_tokens_of_what_it_touched() {
    let snapshots = workspace_snapshots(&[api()], &[], &[], &[]);
    let targets = vec![
        ResourceChangeTarget { kind: "design.element".into(), id: "api".into() },
        ResourceChangeTarget { kind: "design.element".into(), id: "api".into() },
    ];
    let tokens = result_tokens(&targets, &snapshots).unwrap();
    assert_eq!(tokens.len(), 1);
    assert_eq!(tokens[0].document_id, "element:api");
    assert_eq!(
        tokens[0].read_token,
        "sha256:8de953824031f1f6628fefa2beee1723fcc611a86f09e7bc8d17756d5106550d"
    );
    let bad = vec![ResourceChangeTarget { kind: "task".into(), id: "1".into() }];
    assert!(result_tokens(&bad, &snapshots).is_err());
}

#[test]
fn canonical_json_escapes_as_serde_json_does() {
    let element = adashi::design::DesignElementRecord {
        external_id: "api".to_string(),
        parent_external_id: None,
        element_type: "container".to_string(),
        name: "Api\\Gateway".to_string(),
        description: "say \"hi\"\n\t\u{1}\u{1f}é".to_string(),
        technology: String::new(),
        tags: String::new(),
    };
    assert_eq!(
        adashi::documents::element_json(&element),
        "{\"description\":\"say \\\"hi\\\"\\n\\t\\u0001\\u001fé\",\"elementType\":\"container\",\"externalId\":\"api\",\"name\":\"Api\\\\Gateway\",\"parentExternalId\":null,\"tags\":\"\",\"technology\":\"\"}"
    );
}

#[test]
fn an_accepted_mockup_reads_as_its_document() {
    let mockup = adashi::documents::MockupDocument {
        external_id: "checkout".to_string(),
        document: "{\"externalId\":\"checkout\",\"title\":\"Checkout\"}".to_string(),
    };
    let snapshots = adashi::documents::design_snapshots(&[api()], &[], &[], &[], &[mockup.clone()]);
    let docs = load_documents(
        &["mockup:checkout".to_string(), "mockup:gone".to_string()],
        &snapshots,
    )
    .unwrap();
    assert_eq!(docs[0].document_id, "mockup:checkout");
    assert_eq!(docs[0].document, mockup.document);
    assert_eq!(docs[0].read_token, read_token("mockup:checkout", &mockup.document));
    assert_eq!(docs[1].document, "null");
}
