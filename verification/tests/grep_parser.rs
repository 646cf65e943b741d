use adashi::grep::{
    matches_all, parse_query, render_excerpt, GrepScope, GrepTaskState, Term, MAX_PATTERN_CHARS,
    WINDOW_CAP,
};

fn term(needle: &str) -> Term {
    Term {
        needle: needle.to_string(),
        display: needle.to_string(),
    }
}

fn terms(query: &str) -> Vec<Term> {
    parse_query(query).unwrap().terms
}

#[test]
fn parser_separates_terms_phrases_and_known_clauses() {
    let query = parse_query("Concurrency Guard in:design state:active limit:7").unwrap();
    let needles = query
        .terms
        .iter()
        .map(|term| term.needle.as_str())
        .collect::<Vec<_>>();
    assert_eq!(needles, vec!["concurrency", "guard"]);
    assert_eq!(query.scope(), GrepScope::Design);
    assert_eq!(query.task_state(), Some(GrepTaskState::Active));
    assert_eq!(query.limit(), 7);
}

#[test]
fn parser_is_case_insensitive_for_terms_and_clauses() {
    let query = parse_query("REVISION IN:Memory").unwrap();
    assert_eq!(query.terms[0].needle, "revision");
    assert_eq!(query.scope(), GrepScope::Memory);
}

#[test]
fn parser_keeps_quoted_phrases_whole_and_records_them_verbatim() {
    let query = parse_query("\"concurrency guard\" revision").unwrap();
    assert_eq!(
        query.terms,
        vec![
            Term {
                needle: "concurrency guard".into(),
                display: "\"concurrency guard\"".into()
            },
            term("revision"),
        ]
    );
    // A phrase only matches when the words are adjacent.
    assert!(matches_all("a concurrency guard here", &query.terms[..1]));
    assert!(!matches_all("concurrency, then guard", &query.terms[..1]));
}

#[test]
fn parser_only_opens_a_phrase_at_a_token_boundary() {
    let query = parse_query("it's project's").unwrap();
    let needles = query
        .terms
        .iter()
        .map(|term| term.needle.as_str())
        .collect::<Vec<_>>();
    assert_eq!(needles, vec!["it's", "project's"]);

    let query = parse_query("say\"hello world").unwrap();
    let needles = query
        .terms
        .iter()
        .map(|term| term.needle.as_str())
        .collect::<Vec<_>>();
    assert_eq!(needles, vec!["say\"hello", "world"]);
}

#[test]
fn parser_treats_an_unknown_key_as_a_literal_term_and_never_errors() {
    for pattern in ["sha:abc123", "port:8080", "http://example.com/x", "risk:high"] {
        let query = parse_query(pattern)
            .unwrap_or_else(|error| panic!("{pattern} must not be an error: {error}"));
        assert_eq!(query.terms.len(), 1, "{pattern}");
        assert_eq!(query.terms[0].needle, pattern.to_lowercase());
        assert!(query.clauses.is_empty(), "{pattern}");
    }

    let query = parse_query("sha:abc123").unwrap();
    assert!(matches_all("commit sha:abc123 landed", &query.terms));
}

#[test]
fn parser_widens_whitespace_separated_terms_to_and() {
    let query = parse_query("revision guard").unwrap();
    assert!(matches_all("the revision guard holds", &query.terms));
    assert!(!matches_all("the revision holds", &query.terms));
    assert!(!matches_all("the guard holds", &query.terms));
}

#[test]
fn parser_rejects_a_malformed_value_on_a_recognised_clause() {
    assert!(parse_query("in:nope").unwrap_err().contains("invalid_scope"));
    let error = parse_query("state:nope").unwrap_err();
    assert!(error.contains("nope"), "{error}");
    assert!(error.contains("todo"), "the error must name the accepted values: {error}");
    assert!(error.contains("closed"), "{error}");
    assert!(parse_query("limit:many").unwrap_err().contains("invalid_limit"));
    assert!(parse_query("limit:0").unwrap_err().contains("invalid_limit"));
    assert!(parse_query(&"x".repeat(MAX_PATTERN_CHARS + 1))
        .unwrap_err()
        .contains("pattern_too_long"));
}

#[test]
fn parser_has_nothing_to_search_for_when_the_pattern_is_blank() {
    for pattern in ["", "   ", "\"\"", "\t\n"] {
        let query = parse_query(pattern).unwrap();
        assert!(query.terms.is_empty(), "{pattern:?}");
    }
}

#[test]
fn file_and_type_clauses_carry_their_values() {
    let query = parse_query("file:src-tauri/src/mcp.rs type:Container").unwrap();
    assert_eq!(query.file(), Some("src-tauri/src/mcp.rs"));
    assert_eq!(query.element_type(), Some("Container"));
    assert!(query.terms.is_empty());
}

#[test]
fn excerpt_keeps_the_match_visible_and_never_cuts_a_word_at_the_tail() {
    let text = format!("{} NEEDLE {}", "alpha ".repeat(60), "omega ".repeat(60));
    let excerpt = render_excerpt(&text, &terms("needle"), "description", 120).unwrap();
    assert!(excerpt.contains("NEEDLE"), "{excerpt}");
    assert!(excerpt.len() <= 120 + 6 + "NEEDLE".len(), "{} bytes: {excerpt}", excerpt.len());
    let body = excerpt
        .trim_start_matches('…')
        .trim_end_matches('…')
        .trim();
    assert!(
        body.starts_with("alpha") || body.starts_with("NEEDLE"),
        "{body:?}"
    );
    assert!(body.ends_with("omega") || body.ends_with("NEEDLE"), "{body:?}");
    assert!(!body.ends_with("omeg") && !body.ends_with("alph"), "{body:?}");
}

#[test]
fn excerpt_windows_a_long_source_instead_of_returning_it_whole() {
    let head = "structurizr dsl header line\n".repeat(200);
    let text = format!("{head}needle-token{head}");
    let excerpt = render_excerpt(&text, &terms("needle-token"), "source", WINDOW_CAP).unwrap();
    assert!(excerpt.contains("needle-token"), "{excerpt}");
    assert!(
        excerpt.len() <= WINDOW_CAP + 8,
        "source window was {} bytes",
        excerpt.len()
    );
    assert!(text.len() > 5_000, "fixture must be far larger than the window");
}

#[test]
fn excerpt_positions_a_match_at_the_end_of_a_long_field() {
    let text = format!("{}revision guard", "filler ".repeat(4_000));
    let excerpt = render_excerpt(&text, &terms("revision guard"), "body", 120).unwrap();
    assert!(excerpt.contains("revision guard"), "{excerpt}");
    assert!(excerpt.starts_with('…'), "head-truncation must be marked");
    assert!(excerpt.len() <= 130, "{} bytes", excerpt.len());
}

#[test]
fn excerpt_collapses_stored_newlines_to_spaces() {
    let text = "first line\nsecond\tline\n  revision  \nfourth".to_string();
    let excerpt = render_excerpt(&text, &terms("revision"), "body", 200).unwrap();
    assert!(!excerpt.contains('\n'), "{excerpt}");
    assert!(excerpt.contains("second line"), "{excerpt}");
}

#[test]
fn excerpt_handles_unicode_without_splitting_characters() {
    let text = format!("{} 版 revision 界 {}", "🦀".repeat(80), "🦀".repeat(80));
    let excerpt = render_excerpt(&text, &terms("revision"), "description", 60).unwrap();
    assert!(excerpt.contains("revision"), "{excerpt}");
    assert!(excerpt.chars().count() <= 70, "{} chars", excerpt.chars().count());
}

#[test]
fn unclosed_quote_stays_in_its_token() {
    let needles = |pattern: &str| -> Vec<String> {
        parse_query(pattern)
            .unwrap()
            .terms
            .iter()
            .map(|term| term.needle.clone())
            .collect()
    };
    assert_eq!(needles("\"hello world"), vec!["\"hello", "world"]);
    assert_eq!(needles("'a \"b c"), vec!["'a", "\"b", "c"]);
    assert_eq!(needles("\"closed phrase\" \"open Phrase"), vec!["closed phrase", "\"open", "phrase"]);
    // A filter after an unclosed quote is still read as a filter.
    let query = parse_query("\"hello in:tasks").unwrap();
    assert_eq!(query.scope(), GrepScope::Tasks);
    assert!(parse_query("\"hello in:nowhere").is_err());
    assert!(parse_query("\"hello limit:0").is_err());
}

#[test]
fn excerpt_tail_is_never_cut_mid_word() {
    let text = format!("{}NEEDLE {}", "alpha ".repeat(60), "omega ".repeat(60));
    let terms = parse_query("needle").unwrap().terms;
    for budget in [40usize, 80, 121, 150] {
        let excerpt = render_excerpt(&text, &terms, "description", budget).unwrap();
        assert!(excerpt.contains("NEEDLE"), "{budget}: {excerpt}");
        let body = excerpt.trim_start_matches('…').trim_end_matches('…').trim();
        assert!(body.ends_with("omega") || body.ends_with("NEEDLE"), "{budget}: {excerpt}");
    }
}

#[test]
fn limit_values_read_as_whole_numbers() {
    assert_eq!(parse_query("x limit:+7").unwrap().limit(), 7);
    assert_eq!(parse_query("x limit:007").unwrap().limit(), 7);
    assert_eq!(parse_query("x limit:200").unwrap().limit(), 200);
    assert_eq!(
        parse_query("x limit:-1").err().unwrap(),
        "grep.invalid_limit: '-1' is not a whole number"
    );
    assert_eq!(
        parse_query("x limit:99999999999999999999999").err().unwrap(),
        "grep.invalid_limit: '99999999999999999999999' is not a whole number"
    );
    assert_eq!(
        parse_query("x limit:201").err().unwrap(),
        "grep.invalid_limit: limit must be 1..=200"
    );
    assert_eq!(
        parse_query("x limit:+").err().unwrap(),
        "grep.invalid_limit: '+' is not a whole number"
    );
}
