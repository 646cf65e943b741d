use adashi::concurrency::{
    document_id, require_write_target, validate_guard, validate_guard_identities,
    validate_identity, MutationGuard, ResourceExpectation,
};

fn expectation(kind: &str, id: &str, expected_version: i64) -> ResourceExpectation {
    ResourceExpectation {
        resource_kind: kind.into(),
        resource_id: id.into(),
        expected_version,
    }
}

fn writes(operation_id: &str, write_set: Vec<ResourceExpectation>) -> MutationGuard {
    MutationGuard {
        operation_id: operation_id.into(),
        read_set: vec![],
        write_set,
    }
}

#[test]
fn disjoint_resources_do_not_conflict() {
    // task 1 and task 2 were each written once.
    let guard = writes("op-a", vec![expectation("task", "1", 1)]);
    validate_guard(&guard, &[1]).unwrap();
    // task 2 moves on; the guard only names task 1.
    validate_guard(&guard, &[1]).unwrap();
}

#[test]
fn same_resource_returns_precise_conflict() {
    let guard = writes("op-a", vec![expectation("task", "1", 0)]);
    let error = validate_guard(&guard, &[1]).unwrap_err();
    let value: serde_json::Value = serde_json::from_str(&error).unwrap();
    assert_eq!(value["code"], "resource.conflict");
    assert_eq!(value["conflicts"][0]["resourceKind"], "task");
    assert_eq!(value["conflicts"][0]["resourceId"], "1");
    assert_eq!(value["conflicts"][0]["expectedVersion"], 0);
    assert_eq!(value["conflicts"][0]["currentVersion"], 1);
}

#[test]
fn every_mutable_family_allows_disjoint_progress() {
    for kind in [
        "task",
        "qa.job",
        "rule",
        "design.element",
        "design.relationship",
        "design.uml",
        "design.binding",
        "mockup.accepted",
        "mockup.working",
    ] {
        let guard = writes(&format!("{kind}-a"), vec![expectation(kind, "a", 1)]);
        // "a" stays at version 1 while "b" moves on.
        validate_guard(&guard, &[1]).unwrap();
    }
}

#[test]
fn unique_creates_are_independent_and_duplicate_identity_conflicts() {
    let create = |id: &str, operation: &str| writes(operation, vec![expectation("task", id, 0)]);
    validate_guard(&create("a", "create-a"), &[0]).unwrap();
    // "a" now exists at version 1; "b" does not exist yet.
    validate_guard(&create("b", "create-b"), &[0]).unwrap();
    assert!(validate_guard(&create("a", "duplicate-a"), &[1]).is_err());
    // A deleted "a" leaves a tombstone at version 2.
    assert!(validate_guard(&create("a", "recreate-a"), &[2]).is_err());
}

#[test]
fn conflicts_are_listed_in_entry_order_with_trimmed_identities() {
    let guard = MutationGuard {
        operation_id: "op".into(),
        read_set: vec![expectation(" rule ", " 7 ", 3)],
        write_set: vec![expectation("task", "1", 2), expectation("task", "2", 5)],
    };
    let error = validate_guard(&guard, &[4, 2, -1]).unwrap_err();
    assert_eq!(
        error,
        r#"{"code":"resource.conflict","conflicts":[{"resourceKind":"rule","resourceId":"7","expectedVersion":3,"currentVersion":4},{"resourceKind":"task","resourceId":"2","expectedVersion":5,"currentVersion":-1}]}"#
    );
}

#[test]
fn guard_identities_are_checked_before_versions() {
    let blank = writes("  ", vec![expectation("task", "1", 0)]);
    assert_eq!(validate_guard(&blank, &[0]).unwrap_err(), "operationId is required");
    let no_kind = writes("op", vec![expectation(" ", "1", 0)]);
    assert_eq!(validate_guard_identities(&no_kind).unwrap_err(), "resourceKind is required");
    let repeated = MutationGuard {
        operation_id: "op".into(),
        read_set: vec![expectation("task", "1", 0)],
        write_set: vec![expectation(" task", "1 ", 0)],
    };
    assert_eq!(
        validate_guard(&repeated, &[9, 9]).unwrap_err(),
        "Resource ' task:1 ' occurs more than once in the mutation guard"
    );
}

#[test]
fn identities_need_a_kind_and_an_id() {
    assert_eq!(validate_identity("", "1").unwrap_err(), "resourceKind is required");
    assert_eq!(validate_identity("task", " ").unwrap_err(), "resourceId is required");
    assert!(validate_identity("task", "1").is_ok());
}

#[test]
fn a_mutation_may_only_write_what_its_guard_names() {
    let guard = writes("op", vec![expectation(" task ", "1", 0)]);
    assert!(require_write_target(&guard, "task", "1").is_ok());
    assert_eq!(
        require_write_target(&guard, "task", "2").unwrap_err(),
        "writeSet must contain resource 'task:2'"
    );
}

#[test]
fn document_ids_drop_the_design_prefix_and_merge_mockup_variants() {
    assert_eq!(document_id("design.element", "api"), "element:api");
    assert_eq!(document_id("mockup.working", "home"), "mockup:home");
    assert_eq!(document_id("task", "4"), "task:4");
}

#[test]
fn intents_need_an_agent_run_and_a_bounded_lifetime() {
    let request = adashi::concurrency::intent_request(" run-1 ", " task ", " 7 ", 600).unwrap();
    assert_eq!(request.agent_run_id, "run-1");
    assert_eq!(request.resource_kind, "task");
    assert_eq!(request.resource_id, "7");
    assert_eq!(request.expiry_modifier, "+600 seconds");
    let refused = |agent: &str, kind: &str, id: &str, ttl: i64| {
        adashi::concurrency::intent_request(agent, kind, id, ttl).err().unwrap()
    };
    assert_eq!(refused("run", " ", "7", 600), "resourceKind is required");
    assert_eq!(refused("run", "task", "", 600), "resourceId is required");
    assert_eq!(refused("  ", "task", "7", 600), "agentRunId is required");
    assert_eq!(refused("run", "task", "7", 0), "ttlSeconds must be between 1 and 86400");
    assert_eq!(refused("run", "task", "7", 86401), "ttlSeconds must be between 1 and 86400");
    assert!(adashi::concurrency::intent_request("run", "task", "7", 86400).is_ok());
}
