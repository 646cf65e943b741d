//! The formal design model: C4 records, UML artifact types, Mermaid source checks and the
//! whole-model validation that a save must pass before anything is stored.
use vstd::prelude::*;

use crate::text::{
    ascii_lower_chars, chars_of, contains_lit, count_char, count_char_exec, ends_with,
    ends_with_chars, eq_lit, find_from, find_from_exec, is_ws, lemma_find_from_sound,
    lower_ascii_seq, owned, push_chars, push_str_chars, slice_chars, starts_lit, starts_with,
    string_of, trim, trim_chars,
};

verus! {

broadcast use vstd::string::group_string_axioms;

/// A C4 element.
#[derive(Clone, Debug)]
pub struct DesignElementRecord {
    pub external_id: String,
    pub parent_external_id: Option<String>,
    pub element_type: String,
    pub name: String,
    pub description: String,
    pub technology: String,
    pub tags: String,
}

/// A C4 relationship between two elements.
#[derive(Clone, Debug)]
pub struct DesignRelationshipRecord {
    pub external_id: String,
    pub source_external_id: String,
    pub destination_external_id: String,
    pub description: String,
    pub technology: String,
    pub tags: String,
}

/// A stored diagram: Mermaid UML or the generated Structurizr source.
#[derive(Clone, Debug)]
pub struct DesignDiagramRecord {
    pub key: String,
    pub language: String,
    pub title: String,
    pub diagram_type: String,
    pub artifact_role: String,
    pub artifact_label: String,
    pub artifact_rank: i64,
    pub attached_to_external_id: Option<String>,
    pub attached_to_target_type: Option<String>,
    pub sort_order: i64,
    pub source: String,
}

/// One supported UML artifact type.
#[derive(Clone, Debug)]
pub struct DesignArtifactTypeRecord {
    pub diagram_type: String,
    pub artifact_role: String,
    pub artifact_label: String,
    pub artifact_rank: i64,
    pub mermaid_header: String,
    pub description: String,
}

/// A file or symbol bound to a design id.
#[derive(Clone, Debug)]
pub struct DesignBindingRecord {
    pub design_external_id: String,
    pub target_type: String,
    pub target: String,
}

/// The manifest proposed with a mockup revision.
#[derive(Clone, Debug)]
pub struct MockupManifest {
    pub schema_version: i64,
    pub key: String,
    pub attached_to_external_id: String,
    pub viewport_width: i64,
    pub viewport_height: i64,
    pub screen: String,
    pub state: String,
    pub fidelity: String,
}

/// A mockup as listings and search see it.
#[derive(Clone, Debug)]
pub struct MockupSummary {
    pub external_id: String,
    pub title: String,
    pub attached_to_external_id: String,
    pub screen: String,
    pub state: String,
    pub fidelity: String,
    pub status: String,
}

/// One change of a design save.
#[derive(Clone, Debug)]
pub struct DesignChange {
    pub op: String,
    pub external_id: Option<String>,
    pub parent_external_id: Option<String>,
    pub element_type: Option<String>,
    pub name: Option<String>,
    pub description: Option<String>,
    pub technology: Option<String>,
    pub tags: Option<String>,
    pub source_external_id: Option<String>,
    pub destination_external_id: Option<String>,
    pub key: Option<String>,
    pub title: Option<String>,
    pub language: Option<String>,
    pub diagram_type: Option<String>,
    pub attached_to_external_id: Option<String>,
    pub source: Option<String>,
    pub design_external_id: Option<String>,
    pub target_type: Option<String>,
    pub target: Option<String>,
    pub viewport_width: Option<i64>,
    pub viewport_height: Option<i64>,
    pub screen: Option<String>,
    pub mockup_state: Option<String>,
    pub fidelity: Option<String>,
    pub schema_version: Option<i64>,
    pub accepted_svg: Option<String>,
    pub base_revision: Option<i64>,
    pub proposed_svg: Option<String>,
    pub proposed_manifest: Option<MockupManifest>,
}

#[derive(Clone, Debug)]
pub struct DesignOverviewResult {
    pub revision: i64,
    pub workspace_name: String,
    pub workspace_description: String,
    pub structurizr_dsl: String,
    pub uml_artifact_types: Vec<DesignArtifactTypeRecord>,
    pub elements: Vec<DesignElementRecord>,
    pub relationships: Vec<DesignRelationshipRecord>,
    pub diagrams: Vec<DesignDiagramRecord>,
    pub bindings: Vec<DesignBindingRecord>,
    pub mockups: Vec<MockupSummary>,
}

#[derive(Clone, Debug)]
pub struct DesignScopeResult {
    pub revision: i64,
    pub root_external_id: String,
    pub uml_artifact_types: Vec<DesignArtifactTypeRecord>,
    pub ancestors: Vec<DesignElementRecord>,
    pub elements: Vec<DesignElementRecord>,
    pub relationships: Vec<DesignRelationshipRecord>,
    pub diagrams: Vec<DesignDiagramRecord>,
    pub bindings: Vec<DesignBindingRecord>,
    pub mockups: Vec<MockupSummary>,
    pub structurizr_dsl: Option<String>,
}

#[derive(Clone, Debug)]
pub struct DesignSearchResult {
    pub revision: i64,
    pub hits: Vec<DesignSearchHit>,
}

#[derive(Clone, Debug)]
pub struct DesignSearchHit {
    pub kind: String,
    pub id: String,
    pub title: String,
    pub summary: String,
}

#[derive(Clone, Debug)]
pub struct DesignByIdsResult {
    pub revision: i64,
    pub uml_artifact_types: Vec<DesignArtifactTypeRecord>,
    pub elements: Vec<DesignElementRecord>,
    pub relationships: Vec<DesignRelationshipRecord>,
    pub diagrams: Vec<DesignDiagramRecord>,
    pub bindings: Vec<DesignBindingRecord>,
    pub mockups: Vec<MockupSummary>,
}

#[derive(Clone, Debug)]
pub struct DesignBindingsResult {
    pub revision: i64,
    pub uml_artifact_types: Vec<DesignArtifactTypeRecord>,
    pub bindings: Vec<DesignBindingRecord>,
    pub elements: Vec<DesignElementRecord>,
    pub relationships: Vec<DesignRelationshipRecord>,
    pub diagrams: Vec<DesignDiagramRecord>,
    pub mockups: Vec<MockupSummary>,
}

/// The outcome of a save: stored, or a list of corrections with nothing stored.
#[derive(Clone, Debug)]
pub struct DesignSaveResult {
    pub ok: bool,
    pub stored: bool,
    pub correction_required: bool,
    pub revision: i64,
    pub errors: Vec<DesignCorrection>,
    pub structurizr_dsl: Option<String>,
}

/// One correction: what is wrong and what to do about it.
#[derive(Clone, Debug)]
pub struct DesignCorrection {
    pub code: String,
    pub message: String,
    pub request: String,
}

// ---------------------------------------------------------------- Mermaid source checks

/// A line without a trailing carriage return (what `str::lines` strips before a newline).
pub open spec fn strip_cr(l: Seq<char>) -> Seq<char> {
    if l.len() > 0 && l.last() == '\r' {
        l.drop_last()
    } else {
        l
    }
}

/// The line of `s` that starts at `i` (up to the next newline, carriage return removed).
pub open spec fn line_at(s: Seq<char>, i: int) -> Seq<char> {
    let nl = find_from(s, seq!['\n'], i);
    if nl == -1 {
        strip_cr(s.subrange(i, s.len() as int))
    } else {
        strip_cr(s.subrange(i, nl))
    }
}

/// The statement after the semicolon at `p`, up to the next semicolon, trimmed.
pub open spec fn following_statement(line: Seq<char>, p: int) -> Seq<char> {
    let next = find_from(line, seq![';'], p + 1);
    let stop = if next == -1 {
        line.len() as int
    } else {
        next
    };
    trim(line.subrange(p + 1, stop))
}

/// The first whitespace-separated word.
pub open spec fn first_word(s: Seq<char>) -> Seq<char> {
    let t = crate::text::trim_start(s);
    let stop = first_ws(t, 0);
    t.take(stop)
}

/// Position of the first whitespace character at or after `i`, or the length.
pub open spec fn first_ws(s: Seq<char>, i: int) -> int
    decreases s.len() - i,
{
    if i >= s.len() || i < 0 {
        s.len() as int
    } else if is_ws(s[i]) {
        i
    } else {
        first_ws(s, i + 1)
    }
}

pub open spec fn is_sequence_keyword(w: Seq<char>) -> bool {
    ||| w == "actor"@
    ||| w == "and"@
    ||| w == "alt"@
    ||| w == "autonumber"@
    ||| w == "activate"@
    ||| w == "box"@
    ||| w == "break"@
    ||| w == "critical"@
    ||| w == "create"@
    ||| w == "deactivate"@
    ||| w == "destroy"@
    ||| w == "else"@
    ||| w == "end"@
    ||| w == "loop"@
    ||| w == "note"@
    ||| w == "opt"@
    ||| w == "option"@
    ||| w == "par"@
    ||| w == "participant"@
    ||| w == "rect"@
}

/// A statement that Mermaid's sequence grammar would read as a statement: a keyword first, or
/// an arrow.
pub open spec fn looks_like_statement_spec(statement: Seq<char>) -> bool {
    ||| is_sequence_keyword(first_word(lower_ascii_seq(statement)))
    ||| crate::text::contains(statement, "->"@)
    ||| crate::text::contains(statement, "-->"@)
    ||| crate::text::contains(statement, "-->>"@)
    ||| crate::text::contains(statement, "-x"@)
    ||| crate::text::contains(statement, "--x"@)
    ||| crate::text::contains(statement, "-)"@)
    ||| crate::text::contains(statement, "--)"@)
}

/// A semicolon written as the `#59` entity (or `&#59`) is text, not a separator.
pub open spec fn is_entity_semicolon(line: Seq<char>, p: int) -> bool {
    ends_with(line.take(p), "#59"@) || ends_with(line.take(p), "&#59"@)
}

/// A raw semicolon at `p` that is followed by text Mermaid cannot read as a statement.
pub open spec fn raw_semicolon_at(line: Seq<char>, p: int) -> bool {
    &&& 0 <= p < line.len()
    &&& line[p] == ';'
    &&& !is_entity_semicolon(line, p)
    &&& following_statement(line, p).len() > 0
    &&& !looks_like_statement_spec(following_statement(line, p))
}

pub open spec fn line_has_raw_semicolon(line: Seq<char>) -> bool {
    exists|p: int| raw_semicolon_at(line, p)
}

/// The index of the first line, counted from `k` at position `i`, that holds a raw semicolon.
pub open spec fn first_raw_semicolon_line(s: Seq<char>, i: int, k: nat) -> Option<nat>
    decreases s.len() - i,
{
    if i < 0 || i >= s.len() {
        None
    } else if line_has_raw_semicolon(line_at(s, i)) {
        Some(k)
    } else {
        let nl = find_from(s, seq!['\n'], i);
        if nl < i || nl >= s.len() {
            None
        } else {
            first_raw_semicolon_line(s, nl + 1, k + 1)
        }
    }
}

pub open spec fn raw_semicolon_message(line_number: nat) -> Seq<char> {
    "line "@ + crate::text::dec(line_number)
        + " contains a raw semicolon in sequence text; Mermaid treats ';' as a statement separator, so replace it with a period or escape it as #59;"@
}

/// Whether the statement reads as a sequence-diagram statement.
pub fn looks_like_sequence_diagram_statement(statement: &[char]) -> (b: bool)
    ensures
        b == looks_like_statement_spec(statement@),
{
    let lower = ascii_lower_chars(statement);
    let t = crate::text::trim_start_chars(lower.as_slice());
    let mut stop: usize = 0;
    while stop < t.len() && !crate::text::is_whitespace(t[stop])
        invariant
            stop <= t@.len(),
            first_ws(t@, 0) == first_ws(t@, stop as int),
        decreases t.len() - stop,
    {
        stop += 1;
    }
    let word = slice_chars(t.as_slice(), 0, stop);
    assert(word@ =~= first_word(lower_ascii_seq(statement@)));
    let w = word.as_slice();
    let keyword = eq_lit(w, "actor") || eq_lit(w, "and") || eq_lit(w, "alt") || eq_lit(
        w,
        "autonumber",
    ) || eq_lit(w, "activate") || eq_lit(w, "box") || eq_lit(w, "break") || eq_lit(
        w,
        "critical",
    ) || eq_lit(w, "create") || eq_lit(w, "deactivate") || eq_lit(w, "destroy") || eq_lit(
        w,
        "else",
    ) || eq_lit(w, "end") || eq_lit(w, "loop") || eq_lit(w, "note") || eq_lit(w, "opt")
        || eq_lit(w, "option") || eq_lit(w, "par") || eq_lit(w, "participant") || eq_lit(
        w,
        "rect",
    );
    keyword || contains_lit(statement, "->") || contains_lit(statement, "-->") || contains_lit(
        statement,
        "-->>",
    ) || contains_lit(statement, "-x") || contains_lit(statement, "--x") || contains_lit(
        statement,
        "-)",
    ) || contains_lit(statement, "--)")
}



/// Whether the semicolon at `p` is written as an entity.
pub fn is_mermaid_semicolon_entity(line: &[char], p: usize) -> (b: bool)
    requires
        p <= line@.len(),
    ensures
        b == is_entity_semicolon(line@, p as int),
{
    let prefix = slice_chars(line, 0, p);
    assert(prefix@ =~= line@.take(p as int));
    let a = chars_of("#59");
    let b2 = chars_of("&#59");
    ends_with_chars(prefix.as_slice(), a.as_slice()) || ends_with_chars(
        prefix.as_slice(),
        b2.as_slice(),
    )
}

/// Whether one line holds a raw semicolon.
fn line_has_raw_semicolon_exec(line: &[char]) -> (b: bool)
    ensures
        b == line_has_raw_semicolon(line@),
{
    let mut p: usize = 0;
    let semi = vec![';'];
    assert(semi@ =~= seq![';']);
    while p < line.len()
        invariant
            p <= line@.len(),
            semi@ == seq![';'],
            forall|q: int| 0 <= q < p ==> !raw_semicolon_at(line@, q),
        decreases line.len() - p,
    {
        if line[p] == ';' && !is_mermaid_semicolon_entity(line, p) {
            let next = find_from_exec(line, semi.as_slice(), p + 1);
            proof {
                lemma_find_from_sound(line@, seq![';'], p + 1);
            }
            let stop = match next {
                Some(n) => n,
                None => line.len(),
            };
            let seg = slice_chars(line, p + 1, stop);
            let following = trim_chars(seg.as_slice());
            assert(following@ == following_statement(line@, p as int));
            if following.len() > 0 && !looks_like_sequence_diagram_statement(
                following.as_slice(),
            ) {
                assert(raw_semicolon_at(line@, p as int));
                return true;
            }
        }
        p += 1;
    }
    false
}

/// Checks that every semicolon in a sequence diagram separates statements: a raw semicolon
/// inside message or note text would silently split it.
pub fn validate_sequence_diagram_statement_separators(source: &str) -> (r: Option<String>)
    ensures
        match r {
            None => first_raw_semicolon_line(source@, 0, 0) is None,
            Some(m) => first_raw_semicolon_line(source@, 0, 0) matches Some(k) && m@
                == raw_semicolon_message(k + 1),
        },
{
    let s = chars_of(source);
    let nl_pat = vec!['\n'];
    assert(nl_pat@ =~= seq!['\n']);
    let mut i: usize = 0;
    let mut k: usize = 0;
    while i < s.len()
        invariant
            i <= s@.len(),
            k <= i,
            s@ == source@,
            nl_pat@ == seq!['\n'],
            first_raw_semicolon_line(s@, 0, 0) == first_raw_semicolon_line(
                s@,
                i as int,
                k as nat,
            ),
        decreases s.len() - i,
    {
        let next = find_from_exec(s.as_slice(), nl_pat.as_slice(), i);
        proof {
            lemma_find_from_sound(s@, seq!['\n'], i as int);
        }
        let stop = match next {
            Some(n) => n,
            None => s.len(),
        };
        let raw = slice_chars(s.as_slice(), i, stop);
        let line = if raw.len() > 0 && raw[raw.len() - 1] == '\r' {
            slice_chars(raw.as_slice(), 0, raw.len() - 1)
        } else {
            raw
        };
        proof {
            if line@.len() != strip_cr(s@.subrange(i as int, stop as int)).len() {
            }
            assert(line@ =~= line_at(s@, i as int));
        }
        if line_has_raw_semicolon_exec(line.as_slice()) {
            let mut m = owned("line ");
            let n = crate::text::decimal((k + 1) as u64);
            push_chars(&mut m, n.as_slice());
            push_str_chars(
                &mut m,
                " contains a raw semicolon in sequence text; Mermaid treats ';' as a statement separator, so replace it with a period or escape it as #59;",
            );
            return Some(m);
        }
        match next {
            Some(n) => {
                i = n + 1;
                k = k + 1;
            },
            None => {
                return None;
            },
        }
    }
    None
}

/// The first line of `s` (its text before the first newline).
pub open spec fn first_line(s: Seq<char>) -> Seq<char> {
    line_at(s, 0)
}

pub open spec fn is_supported_header(l: Seq<char>) -> bool {
    ||| starts_with(l, "sequenceDiagram"@)
    ||| starts_with(l, "flowchart "@)
    ||| starts_with(l, "graph "@)
    ||| starts_with(l, "classDiagram"@)
    ||| starts_with(l, "stateDiagram"@)
    ||| starts_with(l, "erDiagram"@)
    ||| starts_with(l, "journey"@)
    ||| starts_with(l, "gantt"@)
}

/// Why a Mermaid UML source cannot be stored, or `None` when it passes: it must be nonempty,
/// start with a supported diagram header, balance its delimiters, and (for a sequence diagram)
/// use semicolons only between statements.
pub open spec fn mermaid_error(source: Seq<char>) -> Option<Seq<char>> {
    let t = trim(source);
    let fl = trim(first_line(t));
    if t.len() == 0 {
        Some("source is empty"@)
    } else if !is_supported_header(fl) {
        Some("first line '"@ + fl + "' is not a supported Mermaid UML diagram header"@)
    } else if count_char(t, '(') != count_char(t, ')') {
        Some("unbalanced '(' and ')' delimiters"@)
    } else if count_char(t, '[') != count_char(t, ']') {
        Some("unbalanced '[' and ']' delimiters"@)
    } else if count_char(t, '{') != count_char(t, '}') {
        Some("unbalanced '{' and '}' delimiters"@)
    } else if starts_with(fl, "sequenceDiagram"@) {
        match first_raw_semicolon_line(t, 0, 0) {
            Some(k) => Some(raw_semicolon_message(k + 1)),
            None => None,
        }
    } else {
        None
    }
}

/// Checks Mermaid UML source before it can be stored.
pub fn validate_mermaid(source: &str) -> (r: Option<String>)
    ensures
        match r {
            None => mermaid_error(source@) is None,
            Some(m) => mermaid_error(source@) == Some(m@),
        },
{
    let s = chars_of(source);
    let t = trim_chars(s.as_slice());
    if t.len() == 0 {
        return Some(owned("source is empty"));
    }
    let nl_pat = vec!['\n'];
    assert(nl_pat@ =~= seq!['\n']);
    let next = find_from_exec(t.as_slice(), nl_pat.as_slice(), 0);
    proof {
        lemma_find_from_sound(t@, seq!['\n'], 0);
    }
    let stop = match next {
        Some(n) => n,
        None => t.len(),
    };
    let raw = slice_chars(t.as_slice(), 0, stop);
    let line = if raw.len() > 0 && raw[raw.len() - 1] == '\r' {
        slice_chars(raw.as_slice(), 0, raw.len() - 1)
    } else {
        raw
    };
    assert(line@ =~= first_line(t@));
    let fl = trim_chars(line.as_slice());
    let f = fl.as_slice();
    let is_sequence = starts_lit(f, "sequenceDiagram");
    let valid_start = is_sequence || starts_lit(f, "flowchart ") || starts_lit(f, "graph ")
        || starts_lit(f, "classDiagram") || starts_lit(f, "stateDiagram") || starts_lit(
        f,
        "erDiagram",
    ) || starts_lit(f, "journey") || starts_lit(f, "gantt");
    if !valid_start {
        let mut m = owned("first line '");
        push_chars(&mut m, f);
        push_str_chars(&mut m, "' is not a supported Mermaid UML diagram header");
        return Some(m);
    }
    if count_char_exec(t.as_slice(), '(') != count_char_exec(t.as_slice(), ')') {
        return Some(owned("unbalanced '(' and ')' delimiters"));
    }
    if count_char_exec(t.as_slice(), '[') != count_char_exec(t.as_slice(), ']') {
        return Some(owned("unbalanced '[' and ']' delimiters"));
    }
    if count_char_exec(t.as_slice(), '{') != count_char_exec(t.as_slice(), '}') {
        return Some(owned("unbalanced '{' and '}' delimiters"));
    }
    if is_sequence {
        let ts = string_of(t.as_slice());
        return validate_sequence_diagram_statement_separators(ts.as_str());
    }
    None
}



// ---------------------------------------------------------------- UML artifact types

/// ASCII letters, digits and `-` survive type normalisation.
pub open spec fn keep_type_chars(s: Seq<char>) -> Seq<char>
    decreases s.len(),
{
    if s.len() == 0 {
        Seq::empty()
    } else {
        let rest = keep_type_chars(s.drop_last());
        let c = s.last();
        if crate::text::is_ascii_alnum(c) || c == '-' {
            rest.push(c)
        } else {
            rest
        }
    }
}

/// A diagram type trimmed, ASCII-lower-cased and stripped of punctuation other than `-`.
pub open spec fn normalized_diagram_type_spec(t: Seq<char>) -> Seq<char> {
    keep_type_chars(lower_ascii_seq(trim(t)))
}

pub open spec fn role_of(n: Seq<char>) -> Seq<char> {
    if n == "class"@ || n == "classdiagram"@ || n == "package"@ || n == "component"@ || n
        == "structure"@ {
        "primary-structure"@
    } else if n == "sequence"@ || n == "sequencediagram"@ {
        "interaction"@
    } else if n == "flow"@ || n == "flowchart"@ || n == "graph"@ || n == "activity"@ {
        "workflow"@
    } else if n == "state"@ || n == "statediagram"@ || n == "statediagram-v2"@ {
        "lifecycle"@
    } else if n == "structurizr"@ || n == "c4"@ {
        "architecture-source"@
    } else {
        "reference"@
    }
}

pub open spec fn label_of_role(r: Seq<char>) -> Seq<char> {
    if r == "primary-structure"@ {
        "Structure"@
    } else if r == "interaction"@ {
        "Sequence"@
    } else if r == "workflow"@ {
        "Flow"@
    } else if r == "lifecycle"@ {
        "State"@
    } else if r == "architecture-source"@ {
        "C4 Source"@
    } else {
        "Artifact"@
    }
}

pub open spec fn rank_of_role(r: Seq<char>) -> i64 {
    if r == "primary-structure"@ {
        10
    } else if r == "interaction"@ {
        20
    } else if r == "workflow"@ {
        30
    } else if r == "lifecycle"@ {
        40
    } else if r == "architecture-source"@ {
        90
    } else {
        80
    }
}

/// The normalised form of a diagram type.
pub fn normalized_diagram_type(diagram_type: &str) -> (r: Vec<char>)
    ensures
        r@ == normalized_diagram_type_spec(diagram_type@),
{
    let s = chars_of(diagram_type);
    let t = trim_chars(s.as_slice());
    let l = ascii_lower_chars(t.as_slice());
    let mut out: Vec<char> = Vec::new();
    let mut i: usize = 0;
    while i < l.len()
        invariant
            i <= l@.len(),
            out@ == keep_type_chars(l@.take(i as int)),
        decreases l.len() - i,
    {
        proof {
            assert(l@.take(i + 1).drop_last() =~= l@.take(i as int));
        }
        let c = l[i];
        if crate::text::ascii_alnum(c) || c == '-' {
            out.push(c);
        }
        i += 1;
    }
    assert(l@.take(l@.len() as int) =~= l@);
    out
}

/// The role of a diagram type: structure, interaction, workflow, lifecycle, architecture
/// source, or a plain reference.
pub fn diagram_artifact_role(diagram_type: &str) -> (r: &'static str)
    ensures
        r@ == role_of(normalized_diagram_type_spec(diagram_type@)),
{
    let n = normalized_diagram_type(diagram_type);
    let v = n.as_slice();
    if eq_lit(v, "class") || eq_lit(v, "classdiagram") || eq_lit(v, "package") || eq_lit(
        v,
        "component",
    ) || eq_lit(v, "structure") {
        "primary-structure"
    } else if eq_lit(v, "sequence") || eq_lit(v, "sequencediagram") {
        "interaction"
    } else if eq_lit(v, "flow") || eq_lit(v, "flowchart") || eq_lit(v, "graph") || eq_lit(
        v,
        "activity",
    ) {
        "workflow"
    } else if eq_lit(v, "state") || eq_lit(v, "statediagram") || eq_lit(v, "statediagram-v2") {
        "lifecycle"
    } else if eq_lit(v, "structurizr") || eq_lit(v, "c4") {
        "architecture-source"
    } else {
        "reference"
    }
}

/// The display label of a diagram type's role.
pub fn diagram_artifact_label(diagram_type: &str) -> (r: &'static str)
    ensures
        r@ == label_of_role(role_of(normalized_diagram_type_spec(diagram_type@))),
{
    let role = chars_of(diagram_artifact_role(diagram_type));
    let v = role.as_slice();
    if eq_lit(v, "primary-structure") {
        "Structure"
    } else if eq_lit(v, "interaction") {
        "Sequence"
    } else if eq_lit(v, "workflow") {
        "Flow"
    } else if eq_lit(v, "lifecycle") {
        "State"
    } else if eq_lit(v, "architecture-source") {
        "C4 Source"
    } else {
        "Artifact"
    }
}

/// The sort rank of a diagram type's role.
pub fn diagram_artifact_rank(diagram_type: &str) -> (r: i64)
    ensures
        r == rank_of_role(role_of(normalized_diagram_type_spec(diagram_type@))),
{
    let role = chars_of(diagram_artifact_role(diagram_type));
    let v = role.as_slice();
    if eq_lit(v, "primary-structure") {
        10
    } else if eq_lit(v, "interaction") {
        20
    } else if eq_lit(v, "workflow") {
        30
    } else if eq_lit(v, "lifecycle") {
        40
    } else if eq_lit(v, "architecture-source") {
        90
    } else {
        80
    }
}

pub open spec fn artifact_record_is(
    r: DesignArtifactTypeRecord,
    diagram_type: Seq<char>,
    role: Seq<char>,
    label: Seq<char>,
    rank: i64,
    header: Seq<char>,
    description: Seq<char>,
) -> bool {
    &&& r.diagram_type@ == diagram_type
    &&& r.artifact_role@ == role
    &&& r.artifact_label@ == label
    &&& r.artifact_rank == rank
    &&& r.mermaid_header@ == header
    &&& r.description@ == description
}

/// Builds one artifact type record.
pub fn artifact_type_record(
    diagram_type: &str,
    artifact_role: &str,
    artifact_label: &str,
    artifact_rank: i64,
    mermaid_header: &str,
    description: &str,
) -> (r: DesignArtifactTypeRecord)
    ensures
        artifact_record_is(
            r,
            diagram_type@,
            artifact_role@,
            artifact_label@,
            artifact_rank,
            mermaid_header@,
            description@,
        ),
{
    DesignArtifactTypeRecord {
        diagram_type: owned(diagram_type),
        artifact_role: owned(artifact_role),
        artifact_label: owned(artifact_label),
        artifact_rank,
        mermaid_header: owned(mermaid_header),
        description: owned(description),
    }
}

/// The four UML artifact types, in rank order, as `supported_uml_artifact_types` lists them.
pub open spec fn is_supported_type_list(r: Seq<DesignArtifactTypeRecord>) -> bool {
    &&& r.len() == 4
    &&& artifact_record_is(
        r[0],
        "class"@,
        "primary-structure"@,
        "Structure"@,
        10,
        "classDiagram"@,
        "Static classes, interfaces, packages, domain contracts, and internal component structure."@,
    )
    &&& artifact_record_is(
        r[1],
        "sequence"@,
        "interaction"@,
        "Sequence"@,
        20,
        "sequenceDiagram"@,
        "Time-ordered interactions between components, APIs, actors, and storage."@,
    )
    &&& artifact_record_is(
        r[2],
        "flow"@,
        "workflow"@,
        "Flow"@,
        30,
        "flowchart"@,
        "Workflow, process, decision, and activity-style behavior."@,
    )
    &&& artifact_record_is(
        r[3],
        "state"@,
        "lifecycle"@,
        "State"@,
        40,
        "stateDiagram-v2"@,
        "Lifecycle states and transitions for stateful components or entities."@,
    )
}

/// The four UML artifact types a design can store, in rank order.
pub fn supported_uml_artifact_types() -> (r: Vec<DesignArtifactTypeRecord>)
    ensures
        is_supported_type_list(r@),
        r@.len() == 4,
        artifact_record_is(
            r@[0],
            "class"@,
            "primary-structure"@,
            "Structure"@,
            10,
            "classDiagram"@,
            "Static classes, interfaces, packages, domain contracts, and internal component structure."@,
        ),
        artifact_record_is(
            r@[1],
            "sequence"@,
            "interaction"@,
            "Sequence"@,
            20,
            "sequenceDiagram"@,
            "Time-ordered interactions between components, APIs, actors, and storage."@,
        ),
        artifact_record_is(
            r@[2],
            "flow"@,
            "workflow"@,
            "Flow"@,
            30,
            "flowchart"@,
            "Workflow, process, decision, and activity-style behavior."@,
        ),
        artifact_record_is(
            r@[3],
            "state"@,
            "lifecycle"@,
            "State"@,
            40,
            "stateDiagram-v2"@,
            "Lifecycle states and transitions for stateful components or entities."@,
        ),
{
    let mut r = Vec::new();
    r.push(
        artifact_type_record(
            "class",
            "primary-structure",
            "Structure",
            10,
            "classDiagram",
            "Static classes, interfaces, packages, domain contracts, and internal component structure.",
        ),
    );
    r.push(
        artifact_type_record(
            "sequence",
            "interaction",
            "Sequence",
            20,
            "sequenceDiagram",
            "Time-ordered interactions between components, APIs, actors, and storage.",
        ),
    );
    r.push(
        artifact_type_record(
            "flow",
            "workflow",
            "Flow",
            30,
            "flowchart",
            "Workflow, process, decision, and activity-style behavior.",
        ),
    );
    r.push(
        artifact_type_record(
            "state",
            "lifecycle",
            "State",
            40,
            "stateDiagram-v2",
            "Lifecycle states and transitions for stateful components or entities.",
        ),
    );
    r
}


/// One of the four supported artifact type records.
pub open spec fn is_supported_type_record(r: DesignArtifactTypeRecord) -> bool {
    ||| artifact_record_is(
        r,
        "class"@,
        "primary-structure"@,
        "Structure"@,
        10,
        "classDiagram"@,
        "Static classes, interfaces, packages, domain contracts, and internal component structure."@,
    )
    ||| artifact_record_is(
        r,
        "sequence"@,
        "interaction"@,
        "Sequence"@,
        20,
        "sequenceDiagram"@,
        "Time-ordered interactions between components, APIs, actors, and storage."@,
    )
    ||| artifact_record_is(
        r,
        "flow"@,
        "workflow"@,
        "Flow"@,
        30,
        "flowchart"@,
        "Workflow, process, decision, and activity-style behavior."@,
    )
    ||| artifact_record_is(
        r,
        "state"@,
        "lifecycle"@,
        "State"@,
        40,
        "stateDiagram-v2"@,
        "Lifecycle states and transitions for stateful components or entities."@,
    )
}

proof fn lemma_plain_type_normalizes(s: Seq<char>)
    requires
        forall|i: int| 0 <= i < s.len() ==> ('a' <= #[trigger] s[i] && s[i] <= 'z') || s[i] == '-',
    ensures
        normalized_diagram_type_spec(s) == s,
{
    if s.len() > 0 {
        assert(!is_ws(s[0]));
        assert(!is_ws(s.last()));
        assert(crate::text::trim_start(s) == s);
        assert(crate::text::trim_end(s) == s);
    } else {
        assert(crate::text::trim_start(s) == s);
        assert(crate::text::trim_end(s) == s);
    }
    assert(lower_ascii_seq(s) =~= s);
    lemma_keep_all(s);
}

proof fn lemma_keep_all(s: Seq<char>)
    requires
        forall|i: int| 0 <= i < s.len() ==> ('a' <= #[trigger] s[i] && s[i] <= 'z') || s[i] == '-',
    ensures
        keep_type_chars(s) == s,
    decreases s.len(),
{
    if s.len() > 0 {
        lemma_keep_all(s.drop_last());
        assert(s.drop_last().push(s.last()) =~= s);
    }
}

/// Each supported UML artifact type is labelled and ranked exactly as the type functions
/// label and rank a diagram of that type.
pub proof fn law_supported_types_agree_with_type_functions(r: DesignArtifactTypeRecord)
    requires
        is_supported_type_record(r),
    ensures
        role_of(normalized_diagram_type_spec(r.diagram_type@)) == r.artifact_role@,
        label_of_role(r.artifact_role@) == r.artifact_label@,
        rank_of_role(r.artifact_role@) == r.artifact_rank,
{
    reveal_strlit("class");
    reveal_strlit("sequence");
    reveal_strlit("flow");
    reveal_strlit("state");
    reveal_strlit("primary-structure");
    reveal_strlit("interaction");
    reveal_strlit("workflow");
    reveal_strlit("lifecycle");
    reveal_strlit("classdiagram");
    reveal_strlit("package");
    reveal_strlit("component");
    reveal_strlit("structure");
    reveal_strlit("sequencediagram");
    reveal_strlit("flowchart");
    reveal_strlit("graph");
    reveal_strlit("activity");
    reveal_strlit("statediagram");
    reveal_strlit("statediagram-v2");
    reveal_strlit("structurizr");
    reveal_strlit("c4");
    reveal_strlit("architecture-source");
    lemma_plain_type_normalizes("class"@);
    lemma_plain_type_normalizes("sequence"@);
    lemma_plain_type_normalizes("flow"@);
    lemma_plain_type_normalizes("state"@);
}

/// A copy of an element.
pub fn clone_element(e: &DesignElementRecord) -> (r: DesignElementRecord)
    ensures
        r == *e,
{
    DesignElementRecord {
        external_id: e.external_id.clone(),
        parent_external_id: match &e.parent_external_id {
            Some(p) => Some(p.clone()),
            None => None,
        },
        element_type: e.element_type.clone(),
        name: e.name.clone(),
        description: e.description.clone(),
        technology: e.technology.clone(),
        tags: e.tags.clone(),
    }
}

/// A copy of a relationship.
pub fn clone_relationship(r: &DesignRelationshipRecord) -> (c: DesignRelationshipRecord)
    ensures
        c == *r,
{
    DesignRelationshipRecord {
        external_id: r.external_id.clone(),
        source_external_id: r.source_external_id.clone(),
        destination_external_id: r.destination_external_id.clone(),
        description: r.description.clone(),
        technology: r.technology.clone(),
        tags: r.tags.clone(),
    }
}

/// A copy of a diagram.
pub fn clone_diagram(d: &DesignDiagramRecord) -> (c: DesignDiagramRecord)
    ensures
        c == *d,
{
    DesignDiagramRecord {
        key: d.key.clone(),
        language: d.language.clone(),
        title: d.title.clone(),
        diagram_type: d.diagram_type.clone(),
        artifact_role: d.artifact_role.clone(),
        artifact_label: d.artifact_label.clone(),
        artifact_rank: d.artifact_rank,
        attached_to_external_id: match &d.attached_to_external_id {
            Some(a) => Some(a.clone()),
            None => None,
        },
        attached_to_target_type: match &d.attached_to_target_type {
            Some(a) => Some(a.clone()),
            None => None,
        },
        sort_order: d.sort_order,
        source: d.source.clone(),
    }
}

/// A copy of a binding.
pub fn clone_binding(b: &DesignBindingRecord) -> (c: DesignBindingRecord)
    ensures
        c == *b,
{
    DesignBindingRecord {
        design_external_id: b.design_external_id.clone(),
        target_type: b.target_type.clone(),
        target: b.target.clone(),
    }
}

/// A copy of a mockup summary.
pub fn clone_mockup(m: &MockupSummary) -> (c: MockupSummary)
    ensures
        c == *m,
{
    MockupSummary {
        external_id: m.external_id.clone(),
        title: m.title.clone(),
        attached_to_external_id: m.attached_to_external_id.clone(),
        screen: m.screen.clone(),
        state: m.state.clone(),
        fidelity: m.fidelity.clone(),
        status: m.status.clone(),
    }
}

} // verus!
