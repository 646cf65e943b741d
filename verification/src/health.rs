//! Design-to-code correspondence: whether each element is attached to the model, and whether
//! the files and symbols it claims exist.
//!
//! | Attached | File links | State | Next action |
//! | --- | --- | --- | --- |
//! | no | any | `orphaned` | attach it to the model |
//! | yes | none | `unmapped` | bind it to the code that implements it |
//! | yes | any broken | `broken` | fix the binding |
//! | yes | all resolve | `resolved` | nothing |
//!
//! The scan reads the project folder only through a table of probed paths, so every verdict
//! here is a function of the model and that table.
use vstd::prelude::*;

use crate::text::{
    chars_eq, chars_of, contains, decimal, dec, eq_lit, find_from, find_from_exec, is_alnum,
    is_alphanumeric, is_ascii_alnum, lemma_find_from_sound, occurs_at, occurs_at_exec, owned,
    push_chars, push_str_chars, seq_order, order_str, slice_chars, string_of, str_eq, trim,
    trim_chars,
};

verus! {

broadcast use vstd::string::group_string_axioms;

/// The health of one design element.
#[derive(Clone, Copy, Debug, PartialEq, Eq, PartialOrd, Ord, Hash, Structural)]
pub enum ElementHealth {
    /// Attached to the model, but no binding: its code cannot be located.
    Unmapped,
    /// No parent and no relationship names it: floating in the hierarchy.
    Orphaned,
    /// Attached, with at least one binding that does not resolve.
    Broken,
    /// Attached, with bindings that all resolve.
    Resolved,
}

pub open spec fn health_name(h: ElementHealth) -> Seq<char> {
    match h {
        ElementHealth::Unmapped => "unmapped"@,
        ElementHealth::Orphaned => "orphaned"@,
        ElementHealth::Broken => "broken"@,
        ElementHealth::Resolved => "resolved"@,
    }
}

pub open spec fn health_of_name(v: Seq<char>) -> Option<ElementHealth> {
    if v == "unmapped"@ {
        Some(ElementHealth::Unmapped)
    } else if v == "orphaned"@ {
        Some(ElementHealth::Orphaned)
    } else if v == "broken"@ {
        Some(ElementHealth::Broken)
    } else if v == "resolved"@ {
        Some(ElementHealth::Resolved)
    } else {
        None
    }
}

/// Most actionable first: broken, orphaned, unmapped, resolved.
pub open spec fn health_weight(h: ElementHealth) -> u8 {
    match h {
        ElementHealth::Broken => 0,
        ElementHealth::Orphaned => 1,
        ElementHealth::Unmapped => 2,
        ElementHealth::Resolved => 3,
    }
}

pub open spec fn next_action_text(h: ElementHealth) -> Seq<char> {
    match h {
        ElementHealth::Orphaned => "Attach it to the model: give it a parent or a relationship."@,
        ElementHealth::Unmapped => "Bind it to the file that implements it."@,
        ElementHealth::Broken => "Fix the binding: what it names is not there."@,
        ElementHealth::Resolved => "Nothing to do."@,
    }
}

impl ElementHealth {
    pub fn as_str(self) -> (r: &'static str)
        ensures
            r@ == health_name(self),
    {
        match self {
            ElementHealth::Unmapped => "unmapped",
            ElementHealth::Orphaned => "orphaned",
            ElementHealth::Broken => "broken",
            ElementHealth::Resolved => "resolved",
        }
    }

    pub fn parse(value: &str) -> (r: Option<ElementHealth>)
        ensures
            r == health_of_name(value@),
    {
        let v = chars_of(value);
        if eq_lit(v.as_slice(), "unmapped") {
            Some(ElementHealth::Unmapped)
        } else if eq_lit(v.as_slice(), "orphaned") {
            Some(ElementHealth::Orphaned)
        } else if eq_lit(v.as_slice(), "broken") {
            Some(ElementHealth::Broken)
        } else if eq_lit(v.as_slice(), "resolved") {
            Some(ElementHealth::Resolved)
        } else {
            None
        }
    }

    /// Whether the model's claim is currently unsupported by the code.
    pub fn needs_attention(self) -> (b: bool)
        ensures
            b == (self != ElementHealth::Resolved),
    {
        !matches!(self, ElementHealth::Resolved)
    }

    /// Position in the work queue.
    pub fn weight(self) -> (w: u8)
        ensures
            w == health_weight(self),
    {
        match self {
            ElementHealth::Broken => 0,
            ElementHealth::Orphaned => 1,
            ElementHealth::Unmapped => 2,
            ElementHealth::Resolved => 3,
        }
    }

    /// The next action, in words.
    pub fn next_action(self) -> (r: &'static str)
        ensures
            r@ == next_action_text(self),
    {
        match self {
            ElementHealth::Orphaned => "Attach it to the model: give it a parent or a relationship.",
            ElementHealth::Unmapped => "Bind it to the file that implements it.",
            ElementHealth::Broken => "Fix the binding: what it names is not there.",
            ElementHealth::Resolved => "Nothing to do.",
        }
    }
}

/// Every state's name parses back to that state.
pub proof fn law_health_name_round_trip(h: ElementHealth)
    ensures
        health_of_name(health_name(h)) == Some(h),
{
    reveal_strlit("unmapped");
    reveal_strlit("orphaned");
    reveal_strlit("broken");
    reveal_strlit("resolved");
    assert("unmapped"@[0] != "orphaned"@[0]);
    assert("unmapped"@.len() != "broken"@.len());
    assert("unmapped"@[0] != "resolved"@[0]);
    assert("orphaned"@.len() != "broken"@.len());
    assert("orphaned"@[0] != "resolved"@[0]);
    assert("broken"@.len() != "resolved"@.len());
}

/// A binding that names something that is not there.
#[derive(Clone, Debug)]
pub struct BrokenBinding {
    pub design_external_id: String,
    pub target_type: String,
    pub target: String,
    pub detail: String,
}

/// A finding that was reviewed and knowingly kept.
#[derive(Clone, Debug)]
pub struct HealthWaiver {
    pub id: i64,
    pub state: String,
    pub reason: String,
    pub task_id: Option<i64>,
    pub created_by: String,
    pub created_at: String,
}

/// The verdict on one element.
#[derive(Clone, Debug)]
pub struct ElementFinding {
    pub design_external_id: String,
    pub name: String,
    pub element_type: String,
    pub state: ElementHealth,
    /// What to do about it, in one line.
    pub next_action: String,
    /// Files the element's bindings resolve to.
    pub files: Vec<String>,
    /// Bindings that name something that is not there.
    pub broken: Vec<BrokenBinding>,
    /// Why the element is in this state.
    pub detail: String,
    /// Findings reviewed and knowingly kept, with their reasons.
    pub waivers: Vec<HealthWaiver>,
}

/// Counts per state.
#[derive(Clone, Debug, Default, PartialEq, Eq)]
pub struct HealthCounts {
    pub orphaned: u32,
    pub unmapped: u32,
    pub broken: u32,
    pub resolved: u32,
    /// Individual bindings that do not resolve, which can exceed the number of broken elements.
    pub broken_bindings: u32,
    pub waivers: u32,
    pub elements: u32,
}

impl HealthCounts {
    /// Elements whose claim is not currently supported by the code.
    pub fn needs_attention(&self) -> (n: u32)
        requires
            self.orphaned + self.unmapped + self.broken <= u32::MAX,
        ensures
            n == self.orphaned + self.unmapped + self.broken,
    {
        self.orphaned + self.unmapped + self.broken
    }
}

/// The whole scan result.
#[derive(Clone, Debug)]
pub struct DesignHealthResult {
    pub counts: HealthCounts,
    /// Every element, most actionable first.
    pub elements: Vec<ElementFinding>,
    /// One line stating what the numbers mean.
    pub summary: String,
    /// What these checks do not establish.
    pub not_checked: String,
}

pub open spec fn recorded_summary_spec(c: HealthCounts) -> Seq<char> {
    if c.elements == 0 {
        "Design health has not been scanned for this project yet."@
    } else {
        dec(c.resolved as nat) + " resolved, "@ + dec(c.unmapped as nat) + " unmapped, "@ + dec(
            c.orphaned as nat,
        ) + " orphaned, "@ + dec(c.broken as nat) + " broken ("@ + dec(
            c.broken_bindings as nat,
        ) + " broken binding(s))."@
    }
}

/// One line describing the recorded state.
pub fn recorded_summary(counts: &HealthCounts) -> (r: String)
    ensures
        r@ == recorded_summary_spec(*counts),
{
    if counts.elements == 0 {
        return owned("Design health has not been scanned for this project yet.");
    }
    let mut m = String::new();
    push_chars(&mut m, decimal(counts.resolved as u64).as_slice());
    push_str_chars(&mut m, " resolved, ");
    push_chars(&mut m, decimal(counts.unmapped as u64).as_slice());
    push_str_chars(&mut m, " unmapped, ");
    push_chars(&mut m, decimal(counts.orphaned as u64).as_slice());
    push_str_chars(&mut m, " orphaned, ");
    push_chars(&mut m, decimal(counts.broken as u64).as_slice());
    push_str_chars(&mut m, " broken (");
    push_chars(&mut m, decimal(counts.broken_bindings as u64).as_slice());
    push_str_chars(&mut m, " broken binding(s)).");
    assert(m@ =~= recorded_summary_spec(*counts));
    m
}

pub open spec fn waiver_reason_error(reason: Seq<char>) -> Option<Seq<char>> {
    if trim(reason).len() == 0 {
        Some("A kept finding needs a reason. Without one it is a silence."@)
    } else {
        None
    }
}

/// The reason a kept finding is stored with: it is required, so keeping a finding without one
/// is refused.
pub fn waiver_reason(reason: &str) -> (r: Result<String, String>)
    ensures
        match r {
            Ok(t) => waiver_reason_error(reason@) is None && t@ == trim(reason@),
            Err(m) => waiver_reason_error(reason@) == Some(m@),
        },
{
    let v = chars_of(reason);
    let t = trim_chars(v.as_slice());
    if t.len() == 0 {
        return Err(owned("A kept finding needs a reason. Without one it is a silence."));
    }
    Ok(string_of(t.as_slice()))
}

/// One recorded row: a state name and how many elements were recorded in it.
#[derive(Clone, Debug)]
pub struct StateCount {
    pub state: String,
    pub count: i64,
}

/// The counts per state the rows give (a state's count as its low 32 bits, a later row of the
/// same state replacing an earlier one) and the number of elements they add up to.
pub open spec fn tally(rows: Seq<StateCount>) -> (u32, u32, u32, u32, int)
    decreases rows.len(),
{
    if rows.len() == 0 {
        (0, 0, 0, 0, 0)
    } else {
        let (o, u, b, r, n) = tally(rows.drop_last());
        let s = rows.last().state@;
        let c = rows.last().count as u32;
        if s == "orphaned"@ {
            (c, u, b, r, n + c)
        } else if s == "unmapped"@ {
            (o, c, b, r, n + c)
        } else if s == "broken"@ {
            (o, u, c, r, n + c)
        } else if s == "resolved"@ {
            (o, u, b, c, n + c)
        } else {
            (o, u, b, r, n + c)
        }
    }
}

proof fn lemma_tally_grows(rows: Seq<StateCount>, k: int)
    requires
        0 <= k <= rows.len(),
    ensures
        tally(rows.take(k)).4 <= tally(rows).4,
        tally(rows).4 >= 0,
    decreases rows.len(),
{
    if rows.len() > 0 {
        if k == rows.len() {
            assert(rows.take(k) =~= rows);
            lemma_tally_grows(rows.drop_last(), 0);
        } else {
            assert(rows.take(k) =~= rows.drop_last().take(k));
            lemma_tally_grows(rows.drop_last(), k);
        }
    }
}

/// The recorded counts: the elements per state from the grouped rows, the broken bindings and
/// the kept findings (each taken as its low 32 bits).
pub fn counts_from_rows(rows: &[StateCount], broken_bindings: i64, waivers: i64) -> (c: HealthCounts)
    requires
        tally(rows@).4 <= u32::MAX,
    ensures
        (c.orphaned, c.unmapped, c.broken, c.resolved, c.elements as int) == tally(rows@),
        c.broken_bindings == broken_bindings as u32,
        c.waivers == waivers as u32,
{
    let mut c = HealthCounts {
        orphaned: 0,
        unmapped: 0,
        broken: 0,
        resolved: 0,
        broken_bindings: 0,
        waivers: 0,
        elements: 0,
    };
    let mut i: usize = 0;
    assert(rows@.take(0) =~= Seq::<StateCount>::empty());
    while i < rows.len()
        invariant
            i <= rows@.len(),
            tally(rows@).4 <= u32::MAX,
            (c.orphaned, c.unmapped, c.broken, c.resolved, c.elements as int) == tally(rows@.take(i as int)),
        decreases rows.len() - i,
    {
        proof {
            assert(rows@.take(i + 1).drop_last() =~= rows@.take(i as int));
            assert(rows@.take(i + 1).last() == rows@[i as int]);
            lemma_tally_grows(rows@, i + 1);
        }
        let count = rows[i].count as u32;
        let s = rows[i].state.as_str();
        if str_eq(s, "orphaned") {
            c.orphaned = count;
        } else if str_eq(s, "unmapped") {
            c.unmapped = count;
        } else if str_eq(s, "broken") {
            c.broken = count;
        } else if str_eq(s, "resolved") {
            c.resolved = count;
        }
        c.elements = c.elements + count;
        i += 1;
    }
    assert(rows@.take(rows@.len() as int) =~= rows@);
    c.broken_bindings = broken_bindings as u32;
    c.waivers = waivers as u32;
    c
}


// ---------------------------------------------------------------- laws of the recorded counts

spec fn state_name(i: int) -> Seq<char> {
    if i == 0 {
        "orphaned"@
    } else if i == 1 {
        "unmapped"@
    } else if i == 2 {
        "broken"@
    } else {
        "resolved"@
    }
}

spec fn component(t: (u32, u32, u32, u32, int), i: int) -> u32 {
    if i == 0 {
        t.0
    } else if i == 1 {
        t.1
    } else if i == 2 {
        t.2
    } else {
        t.3
    }
}

/// The index of the last row naming `s`, or -1.
spec fn last_with(rows: Seq<StateCount>, s: Seq<char>) -> int
    decreases rows.len(),
{
    if rows.len() == 0 {
        -1
    } else if rows.last().state@ == s {
        rows.len() - 1
    } else {
        last_with(rows.drop_last(), s)
    }
}

proof fn lemma_state_names_differ()
    ensures
        forall|i: int, j: int| 0 <= i < 4 && 0 <= j < 4 && i != j ==> state_name(i) != state_name(j),
{
    reveal_strlit("orphaned");
    reveal_strlit("unmapped");
    reveal_strlit("broken");
    reveal_strlit("resolved");
    assert("orphaned"@[0] != "unmapped"@[0]);
    assert("orphaned"@[0] != "broken"@[0]);
    assert("orphaned"@[0] != "resolved"@[0]);
    assert("unmapped"@[0] != "broken"@[0]);
    assert("unmapped"@[0] != "resolved"@[0]);
    assert("broken"@[0] != "resolved"@[0]);
}

proof fn lemma_last_with(rows: Seq<StateCount>, s: Seq<char>)
    ensures
        -1 <= last_with(rows, s) < rows.len(),
        last_with(rows, s) >= 0 ==> rows[last_with(rows, s)].state@ == s && forall|j: int|
            last_with(rows, s) < j < rows.len() ==> (#[trigger] rows[j]).state@ != s,
        last_with(rows, s) == -1 ==> forall|j: int| 0 <= j < rows.len() ==> (#[trigger] rows[j]).state@
            != s,
    decreases rows.len(),
{
    if rows.len() > 0 {
        let p = rows.drop_last();
        lemma_last_with(p, s);
        assert(rows[rows.len() - 1] == rows.last());
        assert forall|j: int| 0 <= j < p.len() implies #[trigger] p[j] == rows[j] by {}
        if rows.last().state@ != s {
            let l = last_with(p, s);
            assert(last_with(rows, s) == l);
            assert forall|j: int| l < j < rows.len() implies (#[trigger] rows[j]).state@ != s by {
                if j < p.len() {
                    assert(p[j] == rows[j]);
                }
            }
        }
    }
}

proof fn lemma_component(rows: Seq<StateCount>, i: int)
    requires
        0 <= i < 4,
    ensures
        component(tally(rows), i) == if last_with(rows, state_name(i)) >= 0 {
            rows[last_with(rows, state_name(i))].count as u32
        } else {
            0u32
        },
    decreases rows.len(),
{
    lemma_state_names_differ();
    if rows.len() > 0 {
        let p = rows.drop_last();
        lemma_component(p, i);
        lemma_last_with(p, state_name(i));
        let s = rows.last().state@;
        let t = tally(p);
        let c = rows.last().count as u32;
        assert(rows[rows.len() - 1] == rows.last());
        if s == "orphaned"@ {
            assert(tally(rows) == (c, t.1, t.2, t.3, t.4 + c));
        } else if s == "unmapped"@ {
            assert(tally(rows) == (t.0, c, t.2, t.3, t.4 + c));
        } else if s == "broken"@ {
            assert(tally(rows) == (t.0, t.1, c, t.3, t.4 + c));
        } else if s == "resolved"@ {
            assert(tally(rows) == (t.0, t.1, t.2, c, t.4 + c));
        } else {
            assert(tally(rows) == (t.0, t.1, t.2, t.3, t.4 + c));
        }
        assert(state_name(0) == "orphaned"@);
        assert(state_name(1) == "unmapped"@);
        assert(state_name(2) == "broken"@);
        assert(state_name(3) == "resolved"@);
        if s == state_name(i) {
            assert(last_with(rows, state_name(i)) == rows.len() - 1);
            if i == 0 {
                assert(component(tally(rows), i) == c);
            } else if i == 1 {
                assert(s != "orphaned"@);
                assert(component(tally(rows), i) == c);
            } else if i == 2 {
                assert(s != "orphaned"@ && s != "unmapped"@);
                assert(component(tally(rows), i) == c);
            } else {
                assert(s != "orphaned"@ && s != "unmapped"@ && s != "broken"@);
                assert(component(tally(rows), i) == c);
            }
        } else {
            let l = last_with(p, state_name(i));
            assert(last_with(rows, state_name(i)) == l);
            if l >= 0 {
                assert(rows[l] == p[l]);
            }
        }
    }
}

/// Law: the recorded count of a state is the count of the last row naming it, and zero when no
/// row names it.
pub proof fn law_state_count_is_its_row(rows: Seq<StateCount>, k: int)
    requires
        0 <= k < rows.len(),
    ensures
        rows[k].state@ == "orphaned"@ && (forall|j: int| k < j < rows.len() ==> (#[trigger] rows[j]).state@
            != "orphaned"@) ==> tally(rows).0 == rows[k].count as u32,
        rows[k].state@ == "unmapped"@ && (forall|j: int| k < j < rows.len() ==> (#[trigger] rows[j]).state@
            != "unmapped"@) ==> tally(rows).1 == rows[k].count as u32,
        rows[k].state@ == "broken"@ && (forall|j: int| k < j < rows.len() ==> (#[trigger] rows[j]).state@
            != "broken"@) ==> tally(rows).2 == rows[k].count as u32,
        rows[k].state@ == "resolved"@ && (forall|j: int| k < j < rows.len() ==> (#[trigger] rows[j]).state@
            != "resolved"@) ==> tally(rows).3 == rows[k].count as u32,
{
    lemma_state_names_differ();
    assert(state_name(0) == "orphaned"@);
    assert(state_name(1) == "unmapped"@);
    assert(state_name(2) == "broken"@);
    assert(state_name(3) == "resolved"@);
    lemma_component(rows, 0);
    lemma_component(rows, 1);
    lemma_component(rows, 2);
    lemma_component(rows, 3);
    lemma_last_with(rows, "orphaned"@);
    lemma_last_with(rows, "unmapped"@);
    lemma_last_with(rows, "broken"@);
    lemma_last_with(rows, "resolved"@);
    let x = rows[k];
    assert(rows[k] == x);
}

/// Law: a state no row names is recorded as zero.
pub proof fn law_unnamed_state_is_zero(rows: Seq<StateCount>)
    ensures
        (forall|j: int| 0 <= j < rows.len() ==> (#[trigger] rows[j]).state@ != "orphaned"@) ==> tally(
            rows,
        ).0 == 0,
        (forall|j: int| 0 <= j < rows.len() ==> (#[trigger] rows[j]).state@ != "unmapped"@) ==> tally(
            rows,
        ).1 == 0,
        (forall|j: int| 0 <= j < rows.len() ==> (#[trigger] rows[j]).state@ != "broken"@) ==> tally(
            rows,
        ).2 == 0,
        (forall|j: int| 0 <= j < rows.len() ==> (#[trigger] rows[j]).state@ != "resolved"@) ==> tally(
            rows,
        ).3 == 0,
{
    lemma_component(rows, 0);
    lemma_component(rows, 1);
    lemma_component(rows, 2);
    lemma_component(rows, 3);
    lemma_last_with(rows, "orphaned"@);
    lemma_last_with(rows, "unmapped"@);
    lemma_last_with(rows, "broken"@);
    lemma_last_with(rows, "resolved"@);
}

pub open spec fn known_states_once(rows: Seq<StateCount>) -> bool {
    &&& forall|j: int|
        0 <= j < rows.len() ==> (#[trigger] rows[j]).state@ == "orphaned"@ || rows[j].state@
            == "unmapped"@ || rows[j].state@ == "broken"@ || rows[j].state@ == "resolved"@
    &&& forall|i: int, j: int| 0 <= i < j < rows.len() ==> (#[trigger] rows[i]).state@ != (#[trigger] rows[j]).state@
}

/// Law: when every row names a known state, each at most once, the per-state counts add up
/// to the elements.
pub proof fn law_states_add_up(rows: Seq<StateCount>)
    requires
        known_states_once(rows),
    ensures
        tally(rows).0 + tally(rows).1 + tally(rows).2 + tally(rows).3 == tally(rows).4,
    decreases rows.len(),
{
    if rows.len() > 0 {
        let p = rows.drop_last();
        assert forall|j: int| 0 <= j < p.len() implies #[trigger] p[j] == rows[j] by {}
        law_states_add_up(p);
        let s = rows.last().state@;
        assert(rows[rows.len() - 1].state@ == s);
        assert forall|j: int| 0 <= j < p.len() implies (#[trigger] p[j]).state@ != s by {
            assert(rows[j].state@ != rows[rows.len() - 1].state@);
        }
        law_unnamed_state_is_zero(p);
        lemma_state_names_differ();
        assert(state_name(0) == "orphaned"@);
        assert(state_name(1) == "unmapped"@);
        assert(state_name(2) == "broken"@);
        assert(state_name(3) == "resolved"@);
    }
}

} // verus!
