use adashi::context::{
    assemble_injection, content_version, design_index_text, memory_body, AppliedRule, IndexRow,
    MemoryContext, MemoryRecord, RuleInjectionResult, DESIGN_INDEX_BUDGET,
};
use adashi::fixed_hooks::{fixed_hook_definitions, initial_prompt, DESIGN_AUTHORING_HOOK_KEY};

fn empty_result() -> RuleInjectionResult {
    RuleInjectionResult::new("p".into(), "P".into(), "general", "task.start")
}

#[test]
fn sections_address_one_exact_unicode_body_and_stable_versions() {
    let mut result = empty_result();
    result.push("a", "rule", Some(1), "Required 🦀 instruction.");
    result.push("b", "memory", Some(1), "Unique memory.");
    for section in &result.sections {
        let body = &result.injection_prompt[section.start_byte as usize..section.end_byte as usize];
        assert_eq!(section.content_version, content_version(body));
    }
    // The body is held once: sections carry ranges and versions, never a copy of the text.
    let held = result.injection_prompt.matches("Unique memory.").count()
        + result
            .sections
            .iter()
            .map(|section| {
                section.id.matches("Unique memory.").count()
                    + section.content_version.matches("Unique memory.").count()
            })
            .sum::<usize>();
    assert_eq!(held, 1);
    assert_ne!(content_version("a"), content_version("b"));
}

#[test]
fn a_blank_body_adds_no_section_and_bodies_are_separated_by_a_blank_line() {
    let mut result = empty_result();
    result.push("blank", "rule", None, "   \n ");
    assert!(result.sections.is_empty());
    assert_eq!(result.status, "empty");
    result.push("a", "rule", None, "  first ");
    result.push("b", "rule", None, "second");
    assert_eq!(result.injection_prompt, "first\n\nsecond");
    assert_eq!((result.sections[1].start_byte, result.sections[1].end_byte), (7, 13));
    assert_eq!(result.status, "apply");
}

#[test]
fn content_versions_are_fnv1a_over_the_utf8_bytes() {
    // FNV-1a 64 of the empty input is the offset basis; of "a" it is the published test vector.
    assert_eq!(content_version(""), "v2-fnv1a64-cbf29ce484222325");
    assert_eq!(content_version("a"), "v2-fnv1a64-af63dc4c8601ec8c");
}

#[test]
fn the_memory_summary_is_carried_whole_only_within_its_budget() {
    assert!(memory_body("  ").contains("No current summary is recorded."));
    assert!(memory_body(" keep this ").starts_with("# Project memory\nCurrent summary:\nkeep this\n"));
    let long = "x".repeat(2001);
    assert!(memory_body(&long).contains("omitted in full"));
    assert!(memory_body(&"y".repeat(2000)).contains(&"y".repeat(2000)));
}

#[test]
fn the_design_index_never_exceeds_its_budget() {
    let rows = (0..200)
        .map(|index| IndexRow {
            external_id: format!("element-{index}"),
            parent_external_id: if index == 0 { None } else { Some("element-0".into()) },
            element_type: "Container".into(),
            name: format!("Name \"{index}\"\nwith a newline"),
            version: index,
        })
        .collect::<Vec<_>>();
    let text = design_index_text(&rows, 200);
    assert!(text.len() <= DESIGN_INDEX_BUDGET, "{}", text.len());
    assert!(text.contains("\n- \"element-0\" Container \"Name \\\"0\\\"\\nwith a newline\" parent=null v0"));
    assert!(text.contains(" of 200 elements."));
    assert!(text.ends_with("require explicit retrieval."));
}

#[test]
fn a_run_start_body_carries_memory_the_fixed_prompt_and_the_index() {
    let rules = vec![AppliedRule { id: 4, version: 2, prompt: "Rule text.".into() }];
    let memory = MemoryRecord {
        rule: "Protocol.".into(),
        protocol_version: 3,
        memory: "Summary.".into(),
        memory_version: 5,
    };
    let result = assemble_injection(
        "p".into(),
        "P".into(),
        "design",
        "run.start",
        MemoryContext::Summary,
        &rules,
        &memory,
        Some((7, "Fixed.")),
        "# Index",
    );
    let ids = result.sections.iter().map(|section| section.id.as_str()).collect::<Vec<_>>();
    assert_eq!(
        ids,
        vec!["rule:4", "memory.protocol", "memory.summary", DESIGN_AUTHORING_HOOK_KEY, "design.index"]
    );
    assert_eq!(result.rules.len(), 1);

    let other_hook = assemble_injection(
        "p".into(),
        "P".into(),
        "design",
        "task.start",
        MemoryContext::ProtocolOnly,
        &rules,
        &memory,
        None,
        "# Index",
    );
    assert_eq!(other_hook.sections.len(), 1);
}

#[test]
fn the_fixed_slots_start_empty_unless_a_legacy_design_rule_exists() {
    let definitions = fixed_hook_definitions();
    assert_eq!(definitions.len(), 2);
    assert_eq!(initial_prompt(&definitions[0], Some("Legacy rule.")), "Legacy rule.");
    assert_eq!(initial_prompt(&definitions[0], Some("  ")), "");
    assert_eq!(initial_prompt(&definitions[1], Some("Legacy rule.")), "");
}
