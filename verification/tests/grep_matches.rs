use adashi::grep::{
    collect_matches, drop_duplicate_excerpts, parse_query, Candidate, GrepDomain, Term,
    GREP_REPLY_BUDGET, MAX_LIMIT, WEIGHT_BINDING, WEIGHT_DESCRIPTION, WEIGHT_MEMORY_BODY,
    WEIGHT_NAME,
};
use adashi::report::{header, omission, render_matches, GrepCounts};

fn terms(query: &str) -> Vec<Term> {
    parse_query(query).unwrap().terms
}

fn candidate(domain: GrepDomain, locator: &str, kind: &str, weight: u16, text: &str) -> Candidate {
    Candidate::new(domain, locator, kind, weight, text)
}

#[test]
fn ordering_is_domain_then_weight_then_locator_never_relevance() {
    let pool = vec![
        candidate(GrepDomain::Memory, "memory:note-2", "note", WEIGHT_MEMORY_BODY, "revision memory note"),
        candidate(GrepDomain::Design, "design:9", "description", WEIGHT_DESCRIPTION, "revision in a description"),
        candidate(GrepDomain::Design, "design:9", "name", WEIGHT_NAME, "revision in a component name"),
        candidate(GrepDomain::Tasks, "task:4", "title", WEIGHT_NAME, "revision in a task title"),
        candidate(GrepDomain::Design, "design:10", "name", WEIGHT_NAME, "revision in another name"),
    ];

    let ordered = collect_matches(&pool, &terms("revision"))
        .into_iter()
        .map(|hit| format!("{}:{}", hit.locator, hit.kind))
        .collect::<Vec<_>>();
    assert_eq!(
        ordered,
        vec![
            "design:10:name",
            "design:9:name",
            "design:9:description",
            "task:4:title",
            "memory:note-2:note",
        ]
    );

    // The same query over the same content is byte-identical every time.
    let again = collect_matches(&pool, &terms("revision"));
    assert_eq!(ordered.len(), again.len());
}

#[test]
fn deduplication_returns_a_repeated_sentence_once_at_its_best_locator() {
    let pool = vec![
        candidate(GrepDomain::Design, "design:5", "description", WEIGHT_DESCRIPTION, "Shared sentence about revision."),
        candidate(GrepDomain::Design, "design:6", "description", WEIGHT_DESCRIPTION, "Shared sentence about revision."),
        candidate(GrepDomain::Design, "design:5", "file", WEIGHT_BINDING, "Shared sentence about revision."),
        candidate(GrepDomain::Tasks, "task:1", "title", WEIGHT_NAME, "Shared sentence about revision."),
    ];
    let matched = drop_duplicate_excerpts(collect_matches(&pool, &terms("revision")), &terms("revision"));
    assert_eq!(matched.len(), 1, "{matched:#?}");
    assert_eq!(matched[0].locator, "design:5");
    assert_eq!(matched[0].kind, "description");
}

#[test]
fn the_header_states_the_true_total_and_the_per_domain_split() {
    let counts = GrepCounts { design: 318, tasks: 82, memory: 12 };
    assert_eq!(
        header(&counts, 412),
        "412 matches — design(318), tasks(82), memory(12)"
    );
}

#[test]
fn no_result_set_can_exceed_the_reply_budget() {
    // A single common character matches nearly everything.
    let pool = (0..4_000)
        .map(|index| {
            Candidate::new(
                GrepDomain::Design,
                &format!("design:element-{index}"),
                "description",
                WEIGHT_DESCRIPTION,
                &format!(
                    "revision element-{index} with a long tail {}{}",
                    "x".repeat(300),
                    "y".repeat(300)
                ),
            )
        })
        .collect::<Vec<_>>();

    let matched = collect_matches(&pool, &terms("e"));
    assert!(matched.len() > 1_000, "fixture must match broadly");
    let counts = GrepCounts { design: matched.len(), tasks: 0, memory: 0 };

    let (output, shown, truncated) = render_matches(&matched, &terms("e"), &counts, matched.len(), MAX_LIMIT);
    assert!(truncated, "the budget must have left matches out");
    assert!(shown < matched.len());
    assert!(
        output.len() <= GREP_REPLY_BUDGET,
        "output was {} bytes, budget is {GREP_REPLY_BUDGET}",
        output.len()
    );
    assert!(output.starts_with(&format!("{} matches — ", matched.len())));
    assert!(output.contains(&format!("showing {shown} of {}", matched.len())));
    assert!(output.contains("narrow the query"));
}

#[test]
fn the_limit_is_reported_as_truncation_without_breaking_the_budget() {
    // Identical text under one locator is one field, so it is returned once.
    let same_artifact = vec![
        candidate(GrepDomain::Tasks, "task:1", "title", WEIGHT_NAME, "revision guard"),
        candidate(GrepDomain::Tasks, "task:1", "createdFiles", WEIGHT_BINDING, "revision guard"),
    ];
    assert_eq!(collect_matches(&same_artifact, &terms("revision")).len(), 1);

    let pool = (0..200)
        .map(|index| {
            Candidate::new(
                GrepDomain::Tasks,
                &format!("task:{index}"),
                "title",
                WEIGHT_NAME,
                &format!("revision guard {index}"),
            )
        })
        .collect::<Vec<_>>();
    let matched = collect_matches(&pool, &terms("revision"));
    let counts = GrepCounts { design: 0, tasks: matched.len(), memory: 0 };
    let (output, shown, truncated) = render_matches(&matched, &terms("revision"), &counts, matched.len(), 10);
    assert_eq!(shown, 10);
    assert!(truncated);
    assert!(output.contains(&format!("showing 10 of {}", matched.len())));
    assert!(output.len() <= GREP_REPLY_BUDGET);
}

#[test]
fn blank_text_and_partial_term_sets_are_never_matches() {
    let pool = vec![
        candidate(GrepDomain::Design, "design:1", "description", WEIGHT_DESCRIPTION, "   "),
        candidate(GrepDomain::Design, "design:2", "description", WEIGHT_DESCRIPTION, "only revision here"),
        candidate(GrepDomain::Design, "design:3", "description", WEIGHT_DESCRIPTION, "Revision GUARD together"),
    ];
    let matched = collect_matches(&pool, &terms("revision guard"));
    assert_eq!(matched.len(), 1);
    assert_eq!(matched[0].locator, "design:3");
}

#[test]
fn a_short_list_is_shown_whole_and_not_truncated() {
    let pool = vec![
        candidate(GrepDomain::Design, "design:1", "name", WEIGHT_NAME, "Revision guard"),
        candidate(GrepDomain::Memory, "memory:summary", "summary", 100, "the revision rule"),
    ];
    let matched = collect_matches(&pool, &terms("revision"));
    let counts = GrepCounts::of(&matched);
    assert_eq!(counts, GrepCounts { design: 1, tasks: 0, memory: 1 });
    let (output, shown, truncated) = render_matches(&matched, &terms("revision"), &counts, matched.len(), 50);
    assert_eq!(shown, 2);
    assert!(!truncated);
    assert_eq!(
        output,
        "2 matches — design(1), tasks(0), memory(1)\ndesign:1: Revision guard\nmemory:summary: the revision rule"
    );
}

#[test]
fn the_omission_notice_counts_what_was_left_out() {
    assert_eq!(omission(3, 10), "\n… showing 3 of 10 — narrow the query (7 omitted)");
    assert_eq!(omission(12, 10), "\n… showing 12 of 10 — narrow the query (0 omitted)");
}
