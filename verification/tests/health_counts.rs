use adashi::health::{counts_from_rows, recorded_summary, StateCount};

fn row(state: &str, count: i64) -> StateCount {
    StateCount { state: state.to_string(), count }
}

#[test]
fn recorded_rows_add_up_per_state() {
    let counts = counts_from_rows(
        &[row("resolved", 4), row("broken", 1), row("unmapped", 2), row("legacy", 3)],
        5,
        1,
    );
    assert_eq!(counts.resolved, 4);
    assert_eq!(counts.broken, 1);
    assert_eq!(counts.unmapped, 2);
    assert_eq!(counts.orphaned, 0);
    assert_eq!(counts.elements, 10);
    assert_eq!(counts.broken_bindings, 5);
    assert_eq!(counts.waivers, 1);
    assert_eq!(
        recorded_summary(&counts),
        "4 resolved, 2 unmapped, 0 orphaned, 1 broken (5 broken binding(s))."
    );
}

#[test]
fn nothing_recorded_means_not_scanned() {
    let counts = counts_from_rows(&[], 0, 0);
    assert_eq!(
        recorded_summary(&counts),
        "Design health has not been scanned for this project yet."
    );
}
