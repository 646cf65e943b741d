//! Running a grep over loaded project content: the request parameters, the overview an empty
//! pattern returns, and the pipeline from candidates to the rendered reply.
use vstd::prelude::*;

use crate::corpus::{
    all_in_domain, candidates, content_hits, law_hits_are_project_content, locator_in_domain,
    ProjectContent, RelationshipFields, TaskFields,
};
use crate::design::DesignElementRecord;
use crate::grep::{
    clause_views, collect_matches, collect_spec, drop_dup_excerpts_spec, drop_duplicate_excerpts,
    law_matches_are_the_hits,
    last_file, last_limit, last_scope, last_type, match_views, needles_of, parse_query,
    parse_spec, scope_includes, string_views, term_views, Clause, ClauseSpec, GrepDomain, GrepScope,
    GrepTaskState, Query, GREP_REPLY_BUDGET, MAX_LIMIT, OVERVIEW_BOUNDARY_LINES,
};
use crate::report::{
    count_domain, header_spec, law_render_within_budget, law_reply_opens_with_header,
    render_matches, render_spec, GrepCounts, GrepResult,
};
use crate::text::{
    blen, byte_len, chars_of, collapse, collapse_chars, dec, eq_lit, lemma_blen_append,
    lemma_blen_bounds, lemma_blen_dec, lemma_dec_len_bound, lemma_dec_len_usize, owned, pow10,
    push_chars, push_dec, push_str_chars, slice_chars, str_eq, string_of, trim, trim_chars,
};

verus! {

broadcast use vstd::string::group_string_axioms;

/// The parameters of one grep request.
#[derive(Clone, Debug)]
pub struct GrepParams {
    /// Configured project name (case-insensitive) or project id.
    pub project_name: String,
    /// What to look for: bare terms, `"quoted phrases"` and `key:value` clauses. An empty
    /// pattern returns the top-layer overview with counts.
    pub pattern: Option<String>,
    /// Domain scope: all (default), design, tasks, memory.
    pub scope: Option<GrepScope>,
    /// Restrict design hits to elements bound to this file, and task hits to tasks whose
    /// created or changed file lists contain it.
    pub file: Option<String>,
    /// Restrict design hits to one element type.
    pub element_type: Option<String>,
    /// Restrict task hits to one state.
    pub state: Option<GrepTaskState>,
    /// Maximum matches returned (default 50, maximum 200); the reply budget can lower it.
    pub limit: Option<usize>,
}

pub open spec fn invalid_limit_message() -> Seq<char> {
    "grep.invalid_limit: limit must be 1..=200"@
}

/// A parameter with blank text is no parameter.
pub open spec fn present_text(o: Option<String>) -> Option<Seq<char>> {
    match o {
        Some(s) => if trim(s@).len() > 0 {
            Some(trim(s@))
        } else {
            None
        },
        None => None,
    }
}

/// Explicit parameters, appended after the pattern's own clauses so that they win.
pub open spec fn param_clauses(p: GrepParams) -> Seq<ClauseSpec> {
    (match p.scope {
        Some(s) => seq![ClauseSpec::In(s)],
        None => Seq::empty(),
    }) + (match present_text(p.file) {
        Some(f) => seq![ClauseSpec::File(f)],
        None => Seq::empty(),
    }) + (match present_text(p.element_type) {
        Some(t) => seq![ClauseSpec::Type(t)],
        None => Seq::empty(),
    }) + (match p.state {
        Some(s) => seq![ClauseSpec::State(s)],
        None => Seq::empty(),
    }) + (match p.limit {
        Some(l) => seq![ClauseSpec::Limit(l)],
        None => Seq::empty(),
    })
}

pub open spec fn pattern_text(p: GrepParams) -> Seq<char> {
    match p.pattern {
        Some(s) => trim(s@),
        None => Seq::empty(),
    }
}

/// The query a request asks for: the pattern's terms and clauses, then the explicit
/// parameters; a pattern error comes first, then an out-of-range limit.
pub open spec fn prepare_spec(p: GrepParams) -> Result<
    (Seq<(Seq<char>, Seq<char>)>, Seq<ClauseSpec>),
    Seq<char>,
> {
    match parse_spec(pattern_text(p)) {
        Err(m) => Err(m),
        Ok((ts, cs)) => match p.limit {
            Some(l) if !(1 <= l <= MAX_LIMIT) => Err(invalid_limit_message()),
            _ => Ok((ts, cs + param_clauses(p))),
        },
    }
}

fn present_text_exec(o: &Option<String>) -> (r: Option<String>)
    ensures
        match r {
            Some(s) => present_text(*o) == Some(s@),
            None => present_text(*o) is None,
        },
{
    match o {
        Some(s) => {
            let v = chars_of(s.as_str());
            let t = trim_chars(v.as_slice());
            if t.len() > 0 {
                Some(string_of(t.as_slice()))
            } else {
                None
            }
        },
        None => None,
    }
}

/// Appends the explicit parameters to a parsed query, or reports an out-of-range limit.
#[verifier::rlimit(40)]
fn apply_params(query: &mut Query, params: &GrepParams) -> (r: Result<(), String>)
    ensures
        final(query).terms@ == old(query).terms@,
        match r {
            Ok(()) => (match params.limit {
                Some(l) => 1 <= l <= MAX_LIMIT,
                None => true,
            }) && clause_views(final(query).clauses@) == clause_views(old(query).clauses@)
                + param_clauses(*params),
            Err(m) => (match params.limit {
                Some(l) => !(1 <= l <= MAX_LIMIT),
                None => false,
            }) && m@ == invalid_limit_message(),
        },
{
    let ghost base = clause_views(query.clauses@);
    let ghost mut extra: Seq<ClauseSpec> = Seq::empty();
    assert(clause_views(query.clauses@) =~= base + extra);
    if let Some(s) = params.scope {
        query.clauses.push(Clause::In(s));
        proof {
            extra = extra.push(ClauseSpec::In(s));
        }
        assert(clause_views(query.clauses@) =~= base + extra);
    }
    if let Some(f) = present_text_exec(&params.file) {
        let ghost fv = f@;
        query.clauses.push(Clause::File(f));
        proof {
            extra = extra.push(ClauseSpec::File(fv));
        }
        assert(clause_views(query.clauses@) =~= base + extra);
    }
    if let Some(t) = present_text_exec(&params.element_type) {
        let ghost tv = t@;
        query.clauses.push(Clause::Type(t));
        proof {
            extra = extra.push(ClauseSpec::Type(tv));
        }
        assert(clause_views(query.clauses@) =~= base + extra);
    }
    if let Some(s) = params.state {
        query.clauses.push(Clause::State(s));
        proof {
            extra = extra.push(ClauseSpec::State(s));
        }
        assert(clause_views(query.clauses@) =~= base + extra);
    }
    if let Some(l) = params.limit {
        if !(1 <= l && l <= MAX_LIMIT) {
            return Err(owned("grep.invalid_limit: limit must be 1..=200"));
        }
        query.clauses.push(Clause::Limit(l));
        proof {
            extra = extra.push(ClauseSpec::Limit(l));
        }
        assert(clause_views(query.clauses@) =~= base + extra);
    }
    assert(extra =~= param_clauses(*params));
    Ok(())
}

/// Parses the pattern and merges the explicit parameters. Explicit parameters win over
/// clauses: a caller using the documented schema should not have to know the pattern grammar.
pub fn prepare_query(params: &GrepParams) -> (r: Result<Query, String>)
    ensures
        match r {
            Ok(q) => prepare_spec(*params) == Ok::<
                (Seq<(Seq<char>, Seq<char>)>, Seq<ClauseSpec>),
                Seq<char>,
            >((term_views(q.terms@), clause_views(q.clauses@))),
            Err(m) => prepare_spec(*params) == Err::<
                (Seq<(Seq<char>, Seq<char>)>, Seq<ClauseSpec>),
                Seq<char>,
            >(m@),
        },
{
    let pattern: String = match &params.pattern {
        Some(p) => {
            let v = chars_of(p.as_str());
            let t = trim_chars(v.as_slice());
            string_of(t.as_slice())
        },
        None => String::new(),
    };
    assert(pattern@ == pattern_text(*params));
    let mut query = match parse_query(pattern.as_str()) {
        Ok(q) => q,
        Err(m) => {
            return Err(m);
        },
    };
    match apply_params(&mut query, params) {
        Ok(()) => Ok(query),
        Err(m) => Err(m),
    }
}

// ---------------------------------------------------------------- the overview

/// One line of stored text, whitespace-collapsed, at most 160 characters and an ellipsis.
pub open spec fn one_line_spec(t: Seq<char>) -> Seq<char> {
    let c = collapse(t);
    if c.len() > 160 {
        c.take(160) + "…"@
    } else {
        c
    }
}

/// One line of stored text, for overview lines.
pub fn one_line(text: &str) -> (r: String)
    ensures
        r@ == one_line_spec(text@),
{
    let v = chars_of(text);
    let c = collapse_chars(v.as_slice());
    if c.len() > 160 {
        let head = slice_chars(c.as_slice(), 0, 160);
        let mut s = string_of(head.as_slice());
        push_str_chars(&mut s, "…");
        assert(head@ =~= c@.take(160));
        s
    } else {
        string_of(c.as_slice())
    }
}

pub open spec fn is_top_layer(e: DesignElementRecord) -> bool {
    e.element_type@ == "Software System"@ || e.element_type@ == "Container"@
}

pub open spec fn element_line(e: DesignElementRecord) -> Seq<char> {
    "design:"@ + e.external_id@ + ": "@ + e.element_type@ + " \""@ + e.name@ + "\" — "@
        + one_line_spec(e.description@)
}

/// The Software System and the Containers, in stored order.
pub open spec fn top_layer_lines(es: Seq<DesignElementRecord>) -> Seq<Seq<char>>
    decreases es.len(),
{
    if es.len() == 0 {
        Seq::empty()
    } else if is_top_layer(es.last()) {
        top_layer_lines(es.drop_last()).push(element_line(es.last()))
    } else {
        top_layer_lines(es.drop_last())
    }
}

/// Relationships with a description: the boundaries between components.
pub open spec fn boundaries(rs: Seq<RelationshipFields>) -> Seq<RelationshipFields>
    decreases rs.len(),
{
    if rs.len() == 0 {
        Seq::empty()
    } else if trim(rs.last().description@).len() > 0 {
        boundaries(rs.drop_last()).push(rs.last())
    } else {
        boundaries(rs.drop_last())
    }
}

pub open spec fn boundary_line(r: RelationshipFields) -> Seq<char> {
    "design:"@ + r.external_id@ + ": "@ + r.source_name@ + " -> "@ + r.destination_name@ + ": "@
        + one_line_spec(r.description@)
}

pub open spec fn boundary_lines(bs: Seq<RelationshipFields>) -> Seq<Seq<char>> {
    bs.map_values(|r: RelationshipFields| boundary_line(r))
}

pub open spec fn design_summary_line(c: ProjectContent) -> Seq<char> {
    "design: "@ + dec(c.elements@.len()) + " elements, "@ + dec(c.relationships@.len())
        + " relationships, "@ + dec(c.diagrams@.len()) + " diagrams, "@ + dec(c.mockups@.len())
        + " mockups, "@ + dec(c.bindings@.len()) + " bindings"@
}

pub open spec fn design_lines(c: ProjectContent) -> Seq<Seq<char>> {
    let b = boundaries(c.relationships@);
    let shown = if b.len() > OVERVIEW_BOUNDARY_LINES {
        b.take(OVERVIEW_BOUNDARY_LINES as int)
    } else {
        b
    };
    top_layer_lines(c.elements@) + (if b.len() > 0 {
        seq!["Boundaries:"@] + boundary_lines(shown) + if b.len() > OVERVIEW_BOUNDARY_LINES {
            seq![
                dec((b.len() - OVERVIEW_BOUNDARY_LINES) as nat)
                    + " further boundaries — grep a concept or use a locator above"@,
            ]
        } else {
            Seq::empty()
        }
    } else {
        Seq::empty()
    }) + seq![design_summary_line(c)]
}

/// Number of tasks in one state.
pub open spec fn count_state(ts: Seq<TaskFields>, state: Seq<char>) -> nat
    decreases ts.len(),
{
    if ts.len() == 0 {
        0
    } else {
        count_state(ts.drop_last(), state) + if ts.last().state@ == state {
            1nat
        } else {
            0nat
        }
    }
}

pub open spec fn tasks_line(c: ProjectContent) -> Seq<char> {
    "tasks: "@ + dec(c.tasks@.len()) + " — todo("@ + dec(count_state(c.tasks@, "todo"@))
        + "), active("@ + dec(count_state(c.tasks@, "active"@)) + "), finished("@ + dec(
        count_state(c.tasks@, "finished"@),
    ) + ")"@
}

pub open spec fn memory_line(c: ProjectContent) -> Seq<char> {
    "memory: summary "@ + dec(c.memory_summary@.len()) + " characters, "@ + dec(c.notes@.len())
        + " active notes"@
}

pub open spec fn closing_line() -> Seq<char> {
    "Retrieve detail with a locator address, or narrow with in:, file:, type:, state: and limit:."@
}

/// The overview lines of the domains in scope.
pub open spec fn overview_lines(c: ProjectContent, scope: GrepScope) -> Seq<Seq<char>> {
    (if scope_includes(scope, GrepDomain::Design) {
        design_lines(c)
    } else {
        Seq::empty()
    }) + (if scope_includes(scope, GrepDomain::Tasks) {
        seq![tasks_line(c)]
    } else {
        Seq::empty()
    }) + (if scope_includes(scope, GrepDomain::Memory) {
        seq![memory_line(c)]
    } else {
        Seq::empty()
    }) + seq![closing_line()]
}

/// Bytes held back for the trailing notice.
pub const OVERVIEW_RESERVE: usize = 120;

/// Writes lines while they fit and the limit allows, stopping at the first that does not.
pub open spec fn overview_take(lines: Seq<Seq<char>>, out: Seq<char>, room: nat) -> (Seq<char>, nat)
    decreases lines.len(),
{
    if lines.len() == 0 || room == 0 || blen(out) + blen(lines[0]) + 1 + OVERVIEW_RESERVE
        > GREP_REPLY_BUDGET {
        (out, 0)
    } else {
        let r = overview_take(lines.drop_first(), out + lines[0] + "\n"@, (room - 1) as nat);
        (r.0, r.1 + 1)
    }
}

pub open spec fn overview_notice(shown: nat, total: nat) -> Seq<char> {
    "…"@ + " showing "@ + dec(shown) + " of "@ + dec(total) + " overview lines "@ + "—"@
        + " narrow with in: or drill with a locator\n"@
}

/// The rendered overview: output, lines shown, and whether lines were left out.
pub open spec fn overview_render(lines: Seq<Seq<char>>, limit: nat) -> (Seq<char>, nat, bool) {
    let room = if limit > 1 {
        limit
    } else {
        1
    };
    let r = overview_take(lines, "Project content overview\n\n"@, room);
    if r.1 < lines.len() {
        (r.0 + overview_notice(r.1, lines.len()), r.1, true)
    } else {
        (r.0, r.1, false)
    }
}

/// The per-domain counts the overview reports.
pub open spec fn overview_counts(c: ProjectContent, scope: GrepScope) -> GrepCounts {
    GrepCounts {
        design: if scope_includes(scope, GrepDomain::Design) {
            (c.elements@.len() + c.relationships@.len() + c.diagrams@.len() + c.mockups@.len()
                + c.bindings@.len()) as usize
        } else {
            0
        },
        tasks: if scope_includes(scope, GrepDomain::Tasks) {
            c.tasks@.len() as usize
        } else {
            0
        },
        memory: if scope_includes(scope, GrepDomain::Memory) {
            (c.notes@.len() + 1) as usize
        } else {
            0
        },
    }
}

/// Lengths of the content that the overview counts fit in a `usize`.
pub open spec fn overview_countable(c: ProjectContent) -> bool {
    &&& c.elements@.len() + c.relationships@.len() + c.diagrams@.len() + c.mockups@.len()
        + c.bindings@.len() <= usize::MAX
    &&& c.notes@.len() + 1 <= usize::MAX
}

fn element_line_exec(e: &DesignElementRecord) -> (r: String)
    ensures
        r@ == element_line(*e),
{
    let mut s = owned("design:");
    push_str_chars(&mut s, e.external_id.as_str());
    push_str_chars(&mut s, ": ");
    push_str_chars(&mut s, e.element_type.as_str());
    push_str_chars(&mut s, " \"");
    push_str_chars(&mut s, e.name.as_str());
    push_str_chars(&mut s, "\" — ");
    let d = one_line(e.description.as_str());
    push_str_chars(&mut s, d.as_str());
    s
}

fn boundary_line_exec(r: &RelationshipFields) -> (s: String)
    ensures
        s@ == boundary_line(*r),
{
    let mut s = owned("design:");
    push_str_chars(&mut s, r.external_id.as_str());
    push_str_chars(&mut s, ": ");
    push_str_chars(&mut s, r.source_name.as_str());
    push_str_chars(&mut s, " -> ");
    push_str_chars(&mut s, r.destination_name.as_str());
    push_str_chars(&mut s, ": ");
    let d = one_line(r.description.as_str());
    push_str_chars(&mut s, d.as_str());
    s
}

fn push_line(lines: &mut Vec<String>, line: String)
    ensures
        string_views(final(lines)@) == string_views(old(lines)@).push(line@),
{
    let ghost v = line@;
    lines.push(line);
    assert(string_views(lines@) =~= string_views(old(lines)@).push(v));
}

fn push_design_lines(lines: &mut Vec<String>, c: &ProjectContent)
    ensures
        string_views(final(lines)@) == string_views(old(lines)@) + design_lines(*c),
{
    let ghost start = string_views(lines@);
    let mut i: usize = 0;
    assert(start + top_layer_lines(c.elements@.take(0)) =~= start);
    while i < c.elements.len()
        invariant
            i <= c.elements@.len(),
            string_views(lines@) == start + top_layer_lines(c.elements@.take(i as int)),
        decreases c.elements.len() - i,
    {
        let e = &c.elements[i];
        proof {
            assert(c.elements@.take(i + 1).drop_last() =~= c.elements@.take(i as int));
            assert(c.elements@.take(i + 1).last() == *e);
        }
        let t = chars_of(e.element_type.as_str());
        if eq_lit(t.as_slice(), "Software System") || eq_lit(t.as_slice(), "Container") {
            push_line(lines, element_line_exec(e));
        }
        assert(string_views(lines@) =~= start + top_layer_lines(c.elements@.take(i + 1)));
        i += 1;
    }
    assert(c.elements@.take(c.elements@.len() as int) =~= c.elements@);
    let ghost s1 = string_views(lines@);
    let mut bounds: Vec<usize> = Vec::new();
    let mut i: usize = 0;
    let ghost rs = c.relationships@;
    while i < c.relationships.len()
        invariant
            i <= rs.len(),
            rs == c.relationships@,
            bounds@.len() == boundaries(rs.take(i as int)).len(),
            forall|k: int|
                0 <= k < bounds@.len() ==> (#[trigger] bounds@[k]) < i && rs[bounds@[k] as int]
                    == boundaries(rs.take(i as int))[k],
        decreases rs.len() - i,
    {
        let r = &c.relationships[i];
        proof {
            assert(rs.take(i + 1).drop_last() =~= rs.take(i as int));
            assert(rs.take(i + 1).last() == *r);
        }
        let d = chars_of(r.description.as_str());
        let t = trim_chars(d.as_slice());
        if t.len() > 0 {
            bounds.push(i);
        }
        i += 1;
    }
    assert(rs.take(rs.len() as int) =~= rs);
    let ghost b = boundaries(rs);
    if bounds.len() > 0 {
        push_line(lines, owned("Boundaries:"));
        let shown: usize = if bounds.len() > OVERVIEW_BOUNDARY_LINES {
            OVERVIEW_BOUNDARY_LINES
        } else {
            bounds.len()
        };
        let ghost s2 = string_views(lines@);
        let mut k: usize = 0;
        while k < shown
            invariant
                k <= shown <= bounds@.len(),
                rs == c.relationships@,
                b == boundaries(rs),
                bounds@.len() == b.len(),
                forall|q: int|
                    0 <= q < bounds@.len() ==> (#[trigger] bounds@[q]) < rs.len() && rs[bounds@[q] as int] == b[q],
                string_views(lines@) == s2 + boundary_lines(b.take(k as int)),
            decreases shown - k,
        {
            let r = &c.relationships[bounds[k]];
            push_line(lines, boundary_line_exec(r));
            assert(boundary_lines(b.take(k + 1)) =~= boundary_lines(b.take(k as int)).push(boundary_line(b[k as int])));
            k += 1;
        }
        let ghost bshown = if b.len() > OVERVIEW_BOUNDARY_LINES {
            b.take(OVERVIEW_BOUNDARY_LINES as int)
        } else {
            b
        };
        assert(b.take(shown as int) =~= bshown);
        if bounds.len() > OVERVIEW_BOUNDARY_LINES {
            let mut m = String::new();
            push_dec(&mut m, bounds.len() - OVERVIEW_BOUNDARY_LINES);
            push_str_chars(&mut m, " further boundaries — grep a concept or use a locator above");
            push_line(lines, m);
        }
    }
    let mut m = owned("design: ");
    push_dec(&mut m, c.elements.len());
    push_str_chars(&mut m, " elements, ");
    push_dec(&mut m, c.relationships.len());
    push_str_chars(&mut m, " relationships, ");
    push_dec(&mut m, c.diagrams.len());
    push_str_chars(&mut m, " diagrams, ");
    push_dec(&mut m, c.mockups.len());
    push_str_chars(&mut m, " mockups, ");
    push_dec(&mut m, c.bindings.len());
    push_str_chars(&mut m, " bindings");
    push_line(lines, m);
    assert(string_views(lines@) =~= start + design_lines(*c));
}

fn count_state_exec(ts: &[TaskFields], state: &str) -> (n: usize)
    ensures
        n == count_state(ts@, state@),
{
    let mut n: usize = 0;
    let mut i: usize = 0;
    while i < ts.len()
        invariant
            i <= ts@.len(),
            n == count_state(ts@.take(i as int), state@),
            n <= i,
        decreases ts.len() - i,
    {
        proof {
            assert(ts@.take(i + 1).drop_last() =~= ts@.take(i as int));
            assert(ts@.take(i + 1).last() == ts@[i as int]);
        }
        if str_eq(ts[i].state.as_str(), state) {
            n += 1;
        }
        i += 1;
    }
    assert(ts@.take(ts@.len() as int) =~= ts@);
    n
}

fn tasks_line_exec(c: &ProjectContent) -> (r: String)
    ensures
        r@ == tasks_line(*c),
{
    let mut s = owned("tasks: ");
    push_dec(&mut s, c.tasks.len());
    push_str_chars(&mut s, " — todo(");
    push_dec(&mut s, count_state_exec(c.tasks.as_slice(), "todo"));
    push_str_chars(&mut s, "), active(");
    push_dec(&mut s, count_state_exec(c.tasks.as_slice(), "active"));
    push_str_chars(&mut s, "), finished(");
    push_dec(&mut s, count_state_exec(c.tasks.as_slice(), "finished"));
    push_str_chars(&mut s, ")");
    s
}

fn memory_line_exec(c: &ProjectContent) -> (r: String)
    ensures
        r@ == memory_line(*c),
{
    let summary = chars_of(c.memory_summary.as_str());
    let mut s = owned("memory: summary ");
    push_dec(&mut s, summary.len());
    push_str_chars(&mut s, " characters, ");
    push_dec(&mut s, c.notes.len());
    push_str_chars(&mut s, " active notes");
    s
}

/// The overview lines of the domains in scope.
pub fn overview_lines_exec(c: &ProjectContent, scope: GrepScope) -> (r: Vec<String>)
    ensures
        string_views(r@) == overview_lines(*c, scope),
{
    let mut lines: Vec<String> = Vec::new();
    assert(string_views(lines@) =~= Seq::<Seq<char>>::empty());
    if scope.includes(GrepDomain::Design) {
        push_design_lines(&mut lines, c);
    }
    let ghost s1 = string_views(lines@);
    if scope.includes(GrepDomain::Tasks) {
        push_line(&mut lines, tasks_line_exec(c));
    }
    if scope.includes(GrepDomain::Memory) {
        push_line(&mut lines, memory_line_exec(c));
    }
    push_line(&mut lines, owned("Retrieve detail with a locator address, or narrow with in:, file:, type:, state: and limit:."));
    assert(string_views(lines@) =~= overview_lines(*c, scope));
    lines
}

proof fn lemma_notice_pieces()
    ensures
        blen("…"@) == 3,
        blen("—"@) == 3,
        blen(" showing "@) == 9,
        blen(" of "@) == 4,
        blen(" overview lines "@) == 16,
        blen(" narrow with in: or drill with a locator\n"@) == 41,
{
    reveal_strlit("…");
    reveal_strlit("—");
    reveal_strlit(" showing ");
    reveal_strlit(" of ");
    reveal_strlit(" overview lines ");
    reveal_strlit(" narrow with in: or drill with a locator\n");
    reveal_with_fuel(blen, 42);
}

/// Appending overview lines never passes the budget less the reserve, and each takes a byte.
proof fn lemma_overview_take(lines: Seq<Seq<char>>, out: Seq<char>, room: nat)
    requires
        blen(out) + OVERVIEW_RESERVE <= GREP_REPLY_BUDGET,
    ensures
        blen(overview_take(lines, out, room).0) + OVERVIEW_RESERVE <= GREP_REPLY_BUDGET,
        blen(overview_take(lines, out, room).0) >= blen(out) + overview_take(lines, out, room).1,
        overview_take(lines, out, room).1 <= lines.len(),
    decreases lines.len(),
{
    if !(lines.len() == 0 || room == 0 || blen(out) + blen(lines[0]) + 1 + OVERVIEW_RESERVE
        > GREP_REPLY_BUDGET) {
        reveal_strlit("\n");
        assert(blen("\n"@) == 1) by {
            reveal_with_fuel(blen, 2);
        }
        lemma_blen_append(out, lines[0]);
        lemma_blen_append(out + lines[0], "\n"@);
        lemma_overview_take(lines.drop_first(), out + lines[0] + "\n"@, (room - 1) as nat);
    }
}

/// Law: the overview never exceeds the reply budget, and it is truncated exactly when it
/// shows fewer lines than it has.
pub proof fn law_overview_within_budget(lines: Seq<Seq<char>>, limit: nat)
    requires
        lines.len() <= usize::MAX,
    ensures
        blen(overview_render(lines, limit).0) <= GREP_REPLY_BUDGET,
        overview_render(lines, limit).2 <==> overview_render(lines, limit).1 < lines.len(),
{
    let room: nat = if limit > 1 {
        limit
    } else {
        1
    };
    let head = "Project content overview\n\n"@;
    reveal_strlit("Project content overview\n\n");
    lemma_blen_bounds(head);
    lemma_overview_take(lines, head, room);
    let r = overview_take(lines, head, room);
    let shown = r.1;
    let total = lines.len();
    if shown < total {
        assert(shown < 10000);
        assert(pow10(4) == 10000) by {
            reveal_with_fuel(pow10, 5);
        }
        lemma_dec_len_bound(shown, 4);
        lemma_dec_len_usize(total as usize);
        lemma_blen_dec(shown);
        lemma_blen_dec(total);
        lemma_notice_pieces();
        let n = overview_notice(shown, total);
        lemma_blen_append("…"@, " showing "@);
        lemma_blen_append("…"@ + " showing "@, dec(shown));
        lemma_blen_append("…"@ + " showing "@ + dec(shown), " of "@);
        lemma_blen_append("…"@ + " showing "@ + dec(shown) + " of "@, dec(total));
        lemma_blen_append("…"@ + " showing "@ + dec(shown) + " of "@ + dec(total), " overview lines "@);
        lemma_blen_append(
            "…"@ + " showing "@ + dec(shown) + " of "@ + dec(total) + " overview lines "@,
            "—"@,
        );
        lemma_blen_append(
            "…"@ + " showing "@ + dec(shown) + " of "@ + dec(total) + " overview lines "@ + "—"@,
            " narrow with in: or drill with a locator\n"@,
        );
        assert(blen(n) <= OVERVIEW_RESERVE);
        lemma_blen_append(r.0, n);
    }
}

/// Renders the overview lines under the reply budget.
fn render_overview(lines: &[String], limit: usize) -> (r: (String, usize, bool))
    ensures
        (r.0@, r.1 as nat, r.2) == overview_render(string_views(lines@), limit as nat),
{
    let ghost ls = string_views(lines@);
    let room: usize = if limit > 1 {
        limit
    } else {
        1
    };
    let mut out = owned("Project content overview\n\n");
    let ghost head = out@;
    let mut out_bytes: u128 = byte_len(out.as_str());
    let mut shown: usize = 0;
    let mut stop = false;
    assert(ls.skip(0) =~= ls);
    proof {
        reveal_strlit("Project content overview\n\n");
        lemma_blen_bounds(out@);
    }
    while !stop && shown < lines.len()
        invariant
            shown <= lines@.len(),
            ls == string_views(lines@),
            out_bytes == blen(out@),
            out_bytes + 120 <= 8192,
            room >= 1,
            head == "Project content overview\n\n"@,
            shown <= room,
            ({
                let whole = overview_take(ls, head, room as nat);
                let rest = overview_take(ls.skip(shown as int), out@, (room - shown) as nat);
                &&& whole == (rest.0, (rest.1 + shown) as nat)
                &&& stop ==> rest == (out@, 0nat)
            }),
        decreases lines.len() - shown, if stop { 0int } else { 1int },
    {
        let ghost rest = ls.skip(shown as int);
        proof {
            assert(rest[0] == lines@[shown as int]@);
            assert(rest.drop_first() =~= ls.skip(shown + 1));
        }
        let line_bytes = byte_len(lines[shown].as_str());
        if shown >= room || out_bytes + line_bytes + 1 + 120 > 8192 {
            stop = true;
        } else {
            let ghost before = out@;
            push_str_chars(&mut out, lines[shown].as_str());
            push_str_chars(&mut out, "\n");
            proof {
                reveal_strlit("\n");
                assert(blen("\n"@) == 1) by {
                    reveal_with_fuel(blen, 2);
                }
                lemma_blen_append(before, lines@[shown as int]@);
                lemma_blen_append(before + lines@[shown as int]@, "\n"@);
            }
            out_bytes = out_bytes + line_bytes + 1;
            shown += 1;
        }
    }
    proof {
        if !stop {
            assert(ls.skip(shown as int).len() == 0);
        }
    }
    let total = lines.len();
    if shown < total {
        push_str_chars(&mut out, "…");
        push_str_chars(&mut out, " showing ");
        push_dec(&mut out, shown);
        push_str_chars(&mut out, " of ");
        push_dec(&mut out, total);
        push_str_chars(&mut out, " overview lines ");
        push_str_chars(&mut out, "—");
        push_str_chars(&mut out, " narrow with in: or drill with a locator\n");
        return (out, shown, true);
    }
    (out, shown, false)
}

// ---------------------------------------------------------------- the reply

/// The character-level content of a grep reply.
pub struct GrepResultView {
    pub output: Seq<char>,
    pub total: nat,
    pub counts: GrepCounts,
    pub shown: nat,
    pub truncated: bool,
    pub output_bytes: nat,
    pub pattern_terms: nat,
}

pub open spec fn result_view(r: GrepResult) -> GrepResultView {
    GrepResultView {
        output: r.output@,
        total: r.total as nat,
        counts: r.counts,
        shown: r.shown as nat,
        truncated: r.truncated,
        output_bytes: r.output_bytes as nat,
        pattern_terms: r.pattern_terms as nat,
    }
}

/// The reply to an empty pattern.
pub open spec fn overview_spec(c: ProjectContent, scope: GrepScope, limit: nat) -> GrepResultView {
    let lines = overview_lines(c, scope);
    let r = overview_render(lines, limit);
    GrepResultView {
        output: r.0,
        total: lines.len(),
        counts: overview_counts(c, scope),
        shown: r.1,
        truncated: r.2,
        output_bytes: blen(r.0),
        pattern_terms: 0,
    }
}

/// An empty pattern returns the top-layer overview with counts: the Software System, the
/// Containers and a bounded sample of the boundaries that connect them.
pub fn overview(content: &ProjectContent, scope: GrepScope, limit: usize) -> (r: GrepResult)
    requires
        overview_countable(*content),
    ensures
        result_view(r) == overview_spec(*content, scope, limit as nat),
        r.output_bytes <= GREP_REPLY_BUDGET,
{
    let lines = overview_lines_exec(content, scope);
    let (output, shown, truncated) = render_overview(lines.as_slice(), limit);
    let count = lines.len();
    proof {
        assert(string_views(lines@).len() == count);
        law_overview_within_budget(string_views(lines@), limit as nat);
    }
    let output_bytes = byte_len(output.as_str());
    let design: usize = if scope.includes(GrepDomain::Design) {
        content.elements.len() + content.relationships.len() + content.diagrams.len()
            + content.mockups.len() + content.bindings.len()
    } else {
        0
    };
    let tasks: usize = if scope.includes(GrepDomain::Tasks) {
        content.tasks.len()
    } else {
        0
    };
    let memory: usize = if scope.includes(GrepDomain::Memory) {
        content.notes.len() + 1
    } else {
        0
    };
    GrepResult {
        output,
        total: lines.len(),
        counts: GrepCounts { design, tasks, memory },
        shown,
        truncated,
        output_bytes: output_bytes as usize,
        pattern_terms: 0,
    }
}

/// The matches of a query: candidates filtered, ordered, deduplicated within an artifact and
/// then across excerpts.
pub open spec fn query_matches(
    c: ProjectContent,
    terms: Seq<Seq<char>>,
    clauses: Seq<ClauseSpec>,
) -> Seq<crate::grep::HitView> {
    drop_dup_excerpts_spec(
        collect_spec(
            content_hits(c, last_scope(clauses), last_file(clauses), last_type(clauses)),
            terms,
        ),
        terms,
    )
}

/// The reply to a pattern with terms.
pub open spec fn matches_spec(c: ProjectContent, terms: Seq<Seq<char>>, clauses: Seq<ClauseSpec>) -> GrepResultView {
    let ms = query_matches(c, terms, clauses);
    let counts = GrepCounts {
        design: count_domain(ms, GrepDomain::Design) as usize,
        tasks: count_domain(ms, GrepDomain::Tasks) as usize,
        memory: count_domain(ms, GrepDomain::Memory) as usize,
    };
    let r = render_spec(ms, terms, counts, ms.len(), last_limit(clauses) as nat);
    GrepResultView {
        output: r.0,
        total: ms.len(),
        counts,
        shown: r.1,
        truncated: r.2,
        output_bytes: blen(r.0),
        pattern_terms: terms.len(),
    }
}

/// Runs a parsed query over loaded content: the overview for an empty pattern, else the
/// budget-bounded match list.
pub fn search_content(content: &ProjectContent, query: &Query) -> (r: GrepResult)
    requires
        overview_countable(*content),
    ensures
        query.terms@.len() == 0 ==> result_view(r) == overview_spec(
            *content,
            last_scope(clause_views(query.clauses@)),
            last_limit(clause_views(query.clauses@)) as nat,
        ),
        query.terms@.len() > 0 ==> result_view(r) == matches_spec(
            *content,
            needles_of(query.terms@),
            clause_views(query.clauses@),
        ),
        result_view(r) == search_spec(*content, needles_of(query.terms@), clause_views(query.clauses@)),
        r.output_bytes <= GREP_REPLY_BUDGET,
{
    let scope = query.scope();
    let limit = query.limit();
    if query.terms.len() == 0 {
        return overview(content, scope, limit);
    }
    let pool = candidates(content, query);
    let collected = collect_matches(pool.as_slice(), query.terms.as_slice());
    let matches = drop_duplicate_excerpts(collected, query.terms.as_slice());
    let counts = GrepCounts::of(matches.as_slice());
    let total = matches.len();
    let (output, shown, truncated) = render_matches(
        matches.as_slice(),
        query.terms.as_slice(),
        &counts,
        total,
        limit,
    );
    let output_bytes = byte_len(output.as_str());
    GrepResult {
        output,
        total,
        counts,
        shown,
        truncated,
        output_bytes: output_bytes as usize,
        pattern_terms: query.terms.len(),
    }
}


// ---------------------------------------------------------------- laws of the reply

/// Every match belongs to exactly one of the three domains.
pub proof fn lemma_counts_split(s: Seq<crate::grep::HitView>)
    ensures
        count_domain(s, GrepDomain::Design) + count_domain(s, GrepDomain::Tasks) + count_domain(
            s,
            GrepDomain::Memory,
        ) == s.len(),
    decreases s.len(),
{
    if s.len() > 0 {
        lemma_counts_split(s.drop_last());
    }
}

/// Dropping repeated excerpts only removes matches.
proof fn lemma_drop_dup_within(s: Seq<crate::grep::HitView>, needles: Seq<Seq<char>>)
    ensures
        forall|i: int|
            0 <= i < drop_dup_excerpts_spec(s, needles).len() ==> s.contains(
                #[trigger] drop_dup_excerpts_spec(s, needles)[i],
            ),
    decreases s.len(),
{
    if s.len() > 0 {
        lemma_drop_dup_within(s.drop_last(), needles);
        let d = drop_dup_excerpts_spec(s.drop_last(), needles);
        let r = drop_dup_excerpts_spec(s, needles);
        assert forall|i: int| 0 <= i < r.len() implies s.contains(#[trigger] r[i]) by {
            if i < d.len() {
                assert(r[i] == d[i]);
                let k = choose|k: int| 0 <= k < s.drop_last().len() && s.drop_last()[k] == d[i];
                assert(s[k] == d[i]);
            } else {
                assert(r[i] == s.last());
                assert(s[s.len() - 1] == s.last());
            }
        }
    }
}

/// Every match of a query is a hit of the searched content.
proof fn lemma_matches_are_project_content(c: ProjectContent, terms: Seq<Seq<char>>, clauses: Seq<ClauseSpec>)
    ensures
        all_in_domain(query_matches(c, terms, clauses)),
{
    let ms = query_matches(c, terms, clauses);
    let hits = content_hits(c, last_scope(clauses), last_file(clauses), last_type(clauses));
    let collected = collect_spec(hits, terms);
    law_hits_are_project_content(c, last_scope(clauses), last_file(clauses), last_type(clauses));
    law_matches_are_the_hits(hits, terms);
    lemma_drop_dup_within(collected, terms);
    assert forall|i: int| 0 <= i < ms.len() implies locator_in_domain(#[trigger] ms[i]) by {
        assert(collected.contains(ms[i]));
        let k = choose|k: int| 0 <= k < collected.len() && collected[k] == ms[i];
        assert(hits.contains(collected[k]));
        let j = choose|j: int| 0 <= j < hits.len() && hits[j] == collected[k];
        assert(locator_in_domain(hits[j]));
    }
}

/// Law: the reply to a pattern with terms stays within the reply budget and reports its own
/// size, shows no more matches than it found, splits its total exactly over the three
/// domains, opens with that total, and lists only project content, each match under a
/// locator of its own domain.
pub proof fn law_grep_reply(c: ProjectContent, terms: Seq<Seq<char>>, clauses: Seq<ClauseSpec>)
    requires
        query_matches(c, terms, clauses).len() <= usize::MAX,
    ensures
        all_in_domain(query_matches(c, terms, clauses)),
        ({
            let v = matches_spec(c, terms, clauses);
            &&& v.output_bytes == blen(v.output)
            &&& v.output_bytes <= GREP_REPLY_BUDGET
            &&& v.shown <= v.total
            &&& v.total == v.counts.design + v.counts.tasks + v.counts.memory
            &&& (dec(v.total) + " matches — "@).is_prefix_of(v.output)
        }),
{
    let ms = query_matches(c, terms, clauses);
    lemma_matches_are_project_content(c, terms, clauses);
    let counts = GrepCounts {
        design: count_domain(ms, GrepDomain::Design) as usize,
        tasks: count_domain(ms, GrepDomain::Tasks) as usize,
        memory: count_domain(ms, GrepDomain::Memory) as usize,
    };
    let limit = last_limit(clauses) as nat;
    lemma_counts_split(ms);
    law_render_within_budget(ms, terms, counts, ms.len() as usize, limit);
    law_reply_opens_with_header(ms, terms, counts, ms.len(), limit);
    let v = matches_spec(c, terms, clauses);
    let head = header_spec(counts, ms.len());
    let lead = dec(ms.len()) + " matches — "@;
    reveal_strlit(" matches — design(");
    reveal_strlit(" matches — ");
    assert forall|i: int| 0 <= i < lead.len() implies v.output[i] == lead[i] by {
        assert(v.output[i] == head[i]);
        if i >= dec(ms.len()).len() {
            assert(lead[i] == " matches — "@[i - dec(ms.len()).len()]);
        }
    }
}


/// The reply to a parsed query over loaded content: the overview for a pattern without terms,
/// else the match list.
pub open spec fn search_spec(c: ProjectContent, terms: Seq<Seq<char>>, clauses: Seq<ClauseSpec>) -> GrepResultView {
    if terms.len() == 0 {
        overview_spec(c, last_scope(clauses), last_limit(clauses) as nat)
    } else {
        matches_spec(c, terms, clauses)
    }
}

proof fn lemma_overview_take_count(lines: Seq<Seq<char>>, out: Seq<char>, room: nat)
    ensures
        overview_take(lines, out, room).1 <= lines.len(),
    decreases lines.len(),
{
    if !(lines.len() == 0 || room == 0 || blen(out) + blen(lines[0]) + 1 + OVERVIEW_RESERVE
        > GREP_REPLY_BUDGET) {
        lemma_overview_take_count(lines.drop_first(), out + lines[0] + "\n"@, (room - 1) as nat);
    }
}

/// Law: every grep reply, overview or match list, stays within the reply budget and reports
/// its own size, and shows no more than it found; a reply to terms also splits its total
/// exactly over the three domains, opens with that total, and lists only project content under
/// locators of its own domain. The reply is a function of the content and the query alone, so
/// the same content and query give the same reply.
pub proof fn law_search_reply(c: ProjectContent, terms: Seq<Seq<char>>, clauses: Seq<ClauseSpec>)
    requires
        overview_lines(c, last_scope(clauses)).len() <= usize::MAX,
        query_matches(c, terms, clauses).len() <= usize::MAX,
    ensures
        ({
            let v = search_spec(c, terms, clauses);
            &&& v.output_bytes == blen(v.output)
            &&& v.output_bytes <= GREP_REPLY_BUDGET
            &&& v.shown <= v.total
            &&& v.pattern_terms == terms.len()
            &&& terms.len() > 0 ==> {
                &&& v.total == v.counts.design + v.counts.tasks + v.counts.memory
                &&& (dec(v.total) + " matches — "@).is_prefix_of(v.output)
                &&& all_in_domain(query_matches(c, terms, clauses))
            }
        }),
{
    if terms.len() == 0 {
        let lines = overview_lines(c, last_scope(clauses));
        let limit = last_limit(clauses) as nat;
        law_overview_within_budget(lines, limit);
        let room = if limit > 1 {
            limit
        } else {
            1
        };
        lemma_overview_take_count(lines, "Project content overview\n\n"@, room);
    } else {
        law_grep_reply(c, terms, clauses);
    }
}

} // verus!
