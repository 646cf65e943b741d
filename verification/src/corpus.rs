//! The searchable project content and the flat list of candidates a grep matches against.
//!
//! Every searchable field of every in-scope artifact becomes one candidate with a drillable
//! locator, a field kind and a field weight. File and type filters decide which artifacts take
//! part; they never change what a field holds.
use vstd::prelude::*;

use crate::design::{DesignBindingRecord, DesignDiagramRecord, DesignElementRecord, DesignRelationshipRecord, MockupSummary};
use crate::grep::{
    candidate_view, candidate_views, clause_views, file_matches, file_matches_spec, last_file,
    last_scope, last_type, scope_includes, string_views, Candidate, Query, GrepDomain, GrepScope, HitView, WEIGHT_ARTIFACT, WEIGHT_BINDING, WEIGHT_DEFAULT,
    WEIGHT_DESCRIPTION, WEIGHT_MEMORY_BODY, WEIGHT_MEMORY_SUMMARY, WEIGHT_NAME,
};
use crate::text::{
    chars_of, dec, eq_lit, lower_chars, lowercase, owned, push_chars, push_str_chars, signed_dec,
    signed_decimal, str_eq, string_of, trim, trim_chars,
};

verus! {

broadcast use vstd::string::group_string_axioms;

/// A relationship row plus the names of both endpoints, so a relationship is searchable by the
/// component names an agent actually knows.
#[derive(Clone, Debug)]
pub struct RelationshipFields {
    pub external_id: String,
    pub source_id: String,
    pub source_name: String,
    pub destination_id: String,
    pub destination_name: String,
    pub description: String,
    pub technology: String,
    pub tags: String,
}

/// The searchable fields of one task.
#[derive(Clone, Debug)]
pub struct TaskFields {
    pub id: i64,
    pub title: String,
    pub description: String,
    pub state: String,
    pub completion_memo: String,
    pub created_files: Vec<String>,
    pub changed_files: Vec<String>,
}

/// The in-scope content of one project, as loaded for a search.
#[derive(Clone, Debug)]
pub struct ProjectContent {
    pub elements: Vec<DesignElementRecord>,
    pub relationships: Vec<RelationshipFields>,
    pub diagrams: Vec<DesignDiagramRecord>,
    pub bindings: Vec<DesignBindingRecord>,
    pub mockups: Vec<MockupSummary>,
    pub tasks: Vec<TaskFields>,
    pub memory_summary: String,
    /// Active notes: `(note id, body)`.
    pub notes: Vec<(String, String)>,
}

// ---------------------------------------------------------------- relationship names

/// The name of the last element with this external id, or the id itself when none has it.
pub open spec fn endpoint_name(elements: Seq<DesignElementRecord>, id: Seq<char>) -> Seq<char>
    decreases elements.len(),
{
    if elements.len() == 0 {
        id
    } else if elements.last().external_id@ == id {
        elements.last().name@
    } else {
        endpoint_name(elements.drop_last(), id)
    }
}

fn find_endpoint_name(elements: &[DesignElementRecord], id: &str) -> (r: String)
    ensures
        r@ == endpoint_name(elements@, id@),
{
    let mut i = elements.len();
    assert(elements@.take(i as int) =~= elements@);
    while i > 0
        invariant
            i <= elements@.len(),
            endpoint_name(elements@, id@) == endpoint_name(elements@.take(i as int), id@),
        decreases i,
    {
        assert(elements@.take(i as int).drop_last() =~= elements@.take(i - 1));
        if str_eq(elements[i - 1].external_id.as_str(), id) {
            return elements[i - 1].name.clone();
        }
        i -= 1;
    }
    owned(id)
}

/// Relationship rows plus the names of both endpoints.
pub fn relationship_fields(
    relationships: Vec<DesignRelationshipRecord>,
    elements: &[DesignElementRecord],
) -> (r: Vec<RelationshipFields>)
    ensures
        r@.len() == relationships@.len(),
        forall|i: int|
            0 <= i < r@.len() ==> {
                let f = #[trigger] r@[i];
                let rel = relationships@[i];
                &&& f.external_id@ == rel.external_id@
                &&& f.source_id@ == rel.source_external_id@
                &&& f.source_name@ == endpoint_name(elements@, rel.source_external_id@)
                &&& f.destination_id@ == rel.destination_external_id@
                &&& f.destination_name@ == endpoint_name(
                    elements@,
                    rel.destination_external_id@,
                )
                &&& f.description@ == rel.description@
                &&& f.technology@ == rel.technology@
                &&& f.tags@ == rel.tags@
            },
{
    let mut out: Vec<RelationshipFields> = Vec::new();
    let mut i: usize = 0;
    while i < relationships.len()
        invariant
            i <= relationships@.len(),
            out@.len() == i,
            forall|j: int|
                0 <= j < i ==> {
                    let f = #[trigger] out@[j];
                    let rel = relationships@[j];
                    &&& f.external_id@ == rel.external_id@
                    &&& f.source_id@ == rel.source_external_id@
                    &&& f.source_name@ == endpoint_name(elements@, rel.source_external_id@)
                    &&& f.destination_id@ == rel.destination_external_id@
                    &&& f.destination_name@ == endpoint_name(
                        elements@,
                        rel.destination_external_id@,
                    )
                    &&& f.description@ == rel.description@
                    &&& f.technology@ == rel.technology@
                    &&& f.tags@ == rel.tags@
                },
        decreases relationships.len() - i,
    {
        let rel = &relationships[i];
        let f = RelationshipFields {
            external_id: rel.external_id.clone(),
            source_id: rel.source_external_id.clone(),
            source_name: find_endpoint_name(elements, rel.source_external_id.as_str()),
            destination_id: rel.destination_external_id.clone(),
            destination_name: find_endpoint_name(elements, rel.destination_external_id.as_str()),
            description: rel.description.clone(),
            technology: rel.technology.clone(),
            tags: rel.tags.clone(),
        };
        out.push(f);
        i += 1;
    }
    out
}

// ---------------------------------------------------------------- the candidate list

/// A candidate that is returned in full.
pub open spec fn hv(d: GrepDomain, loc: Seq<char>, kind: Seq<char>, w: u16, text: Seq<char>) -> HitView {
    HitView { domain: d, locator: loc, kind, weight: w, text, windowed: false }
}

pub open spec fn design_loc(id: Seq<char>) -> Seq<char> {
    "design:"@ + id
}

/// Targets bound to one design element, in binding order.
pub open spec fn bound_targets(bs: Seq<DesignBindingRecord>, id: Seq<char>) -> Seq<Seq<char>>
    decreases bs.len(),
{
    if bs.len() == 0 {
        Seq::empty()
    } else {
        let rest = bound_targets(bs.drop_last(), id);
        if bs.last().design_external_id@ == id {
            rest.push(bs.last().target@)
        } else {
            rest
        }
    }
}

/// Whether an element takes part under the file filter: without one, every element does.
pub open spec fn bound_to_file(
    bs: Seq<DesignBindingRecord>,
    file: Option<Seq<char>>,
    id: Seq<char>,
) -> bool {
    match file {
        None => true,
        Some(f) => file_matches_spec(bound_targets(bs, id), f),
    }
}

pub open spec fn element_hits(e: DesignElementRecord) -> Seq<HitView> {
    let l = design_loc(e.external_id@);
    seq![
        hv(GrepDomain::Design, l, "name"@, WEIGHT_NAME, e.name@),
        hv(GrepDomain::Design, l, "type"@, WEIGHT_ARTIFACT, e.element_type@),
        hv(GrepDomain::Design, l, "description"@, WEIGHT_DESCRIPTION, e.description@),
        hv(GrepDomain::Design, l, "technology"@, WEIGHT_DESCRIPTION, e.technology@),
        hv(GrepDomain::Design, l, "tags"@, WEIGHT_DESCRIPTION, e.tags@),
        hv(GrepDomain::Design, l, "id"@, WEIGHT_DEFAULT, e.external_id@),
    ]
}

/// An element takes part when it has the wanted type (compared lower-cased) and is bound to
/// the filtered file.
pub open spec fn element_selected(
    e: DesignElementRecord,
    bs: Seq<DesignBindingRecord>,
    file: Option<Seq<char>>,
    wanted: Option<Seq<char>>,
) -> bool {
    (match wanted {
        Some(w) => lowercase(e.element_type@) == w,
        None => true,
    }) && bound_to_file(bs, file, e.external_id@)
}

pub open spec fn elements_hits(
    es: Seq<DesignElementRecord>,
    bs: Seq<DesignBindingRecord>,
    file: Option<Seq<char>>,
    wanted: Option<Seq<char>>,
) -> Seq<HitView>
    decreases es.len(),
{
    if es.len() == 0 {
        Seq::empty()
    } else {
        elements_hits(es.drop_last(), bs, file, wanted) + if element_selected(
            es.last(),
            bs,
            file,
            wanted,
        ) {
            element_hits(es.last())
        } else {
            Seq::empty()
        }
    }
}

/// Each target preceded by a space.
pub open spec fn spaced(ts: Seq<Seq<char>>) -> Seq<char>
    decreases ts.len(),
{
    if ts.len() == 0 {
        Seq::empty()
    } else {
        spaced(ts.drop_last()) + " "@ + ts.last()
    }
}

/// One line per relationship: the endpoints and, when present, its description; under a file
/// filter, the files bound to both endpoints follow.
pub open spec fn relationship_text(
    r: RelationshipFields,
    bs: Seq<DesignBindingRecord>,
    file: Option<Seq<char>>,
) -> Seq<char> {
    let ends = r.source_name@ + " -> "@ + r.destination_name@;
    let base = if trim(r.description@).len() == 0 {
        ends
    } else {
        ends + ": "@ + r.description@
    };
    if file is Some {
        base + spaced(bound_targets(bs, r.source_id@) + bound_targets(bs, r.destination_id@))
    } else {
        base
    }
}

pub open spec fn relationship_hits(
    r: RelationshipFields,
    bs: Seq<DesignBindingRecord>,
    file: Option<Seq<char>>,
) -> Seq<HitView> {
    let l = design_loc(r.external_id@);
    seq![
        hv(GrepDomain::Design, l, "relationship"@, WEIGHT_DESCRIPTION, relationship_text(r, bs, file)),
        hv(GrepDomain::Design, l, "technology"@, WEIGHT_DESCRIPTION, r.technology@),
        hv(GrepDomain::Design, l, "tags"@, WEIGHT_DESCRIPTION, r.tags@),
        hv(GrepDomain::Design, l, "id"@, WEIGHT_DEFAULT, r.external_id@),
    ]
}

/// A relationship takes part when either endpoint is bound to the filtered file.
pub open spec fn relationship_selected(
    r: RelationshipFields,
    bs: Seq<DesignBindingRecord>,
    file: Option<Seq<char>>,
) -> bool {
    bound_to_file(bs, file, r.source_id@) || bound_to_file(bs, file, r.destination_id@)
}

pub open spec fn relationships_hits(
    rs: Seq<RelationshipFields>,
    bs: Seq<DesignBindingRecord>,
    file: Option<Seq<char>>,
) -> Seq<HitView>
    decreases rs.len(),
{
    if rs.len() == 0 {
        Seq::empty()
    } else {
        relationships_hits(rs.drop_last(), bs, file) + if relationship_selected(rs.last(), bs, file) {
            relationship_hits(rs.last(), bs, file)
        } else {
            Seq::empty()
        }
    }
}

/// Diagram fields; the Mermaid source is matched, and only ever returned as a short window.
pub open spec fn diagram_hits(d: DesignDiagramRecord) -> Seq<HitView> {
    let l = design_loc(d.key@);
    seq![
        hv(GrepDomain::Design, l, "title"@, WEIGHT_NAME, d.title@),
        hv(GrepDomain::Design, l, "diagramType"@, WEIGHT_ARTIFACT, d.diagram_type@),
        hv(GrepDomain::Design, l, "artifactLabel"@, WEIGHT_ARTIFACT, d.artifact_label@),
        hv(GrepDomain::Design, l, "key"@, WEIGHT_DEFAULT, d.key@),
        HitView { windowed: true, ..hv(GrepDomain::Design, l, "source"@, WEIGHT_DEFAULT, d.source@) },
    ]
}

pub open spec fn diagrams_hits(ds: Seq<DesignDiagramRecord>) -> Seq<HitView>
    decreases ds.len(),
{
    if ds.len() == 0 {
        Seq::empty()
    } else {
        diagrams_hits(ds.drop_last()) + diagram_hits(ds.last())
    }
}

pub open spec fn mockup_hits(m: MockupSummary) -> Seq<HitView> {
    let l = design_loc(m.external_id@);
    seq![
        hv(GrepDomain::Design, l, "title"@, WEIGHT_NAME, m.title@),
        hv(GrepDomain::Design, l, "attachedTo"@, WEIGHT_BINDING, m.attached_to_external_id@),
        hv(GrepDomain::Design, l, "screen"@, WEIGHT_ARTIFACT, m.screen@),
        hv(GrepDomain::Design, l, "state"@, WEIGHT_ARTIFACT, m.state@),
        hv(GrepDomain::Design, l, "fidelity"@, WEIGHT_ARTIFACT, m.fidelity@),
        hv(GrepDomain::Design, l, "externalId"@, WEIGHT_DEFAULT, m.external_id@),
    ]
}

pub open spec fn mockups_hits(ms: Seq<MockupSummary>) -> Seq<HitView>
    decreases ms.len(),
{
    if ms.len() == 0 {
        Seq::empty()
    } else {
        mockups_hits(ms.drop_last()) + mockup_hits(ms.last())
    }
}

/// Under a file filter only file bindings that name the file take part: a symbol binding has
/// no path to match.
pub open spec fn binding_selected(b: DesignBindingRecord, file: Option<Seq<char>>) -> bool {
    match file {
        None => true,
        Some(f) => b.target_type@ == "file"@ && file_matches_spec(seq![b.target@], f),
    }
}

/// A binding is the bridge between the codebase and the model: its locator is the component
/// that owns the file.
pub open spec fn binding_hit(b: DesignBindingRecord) -> HitView {
    hv(GrepDomain::Design, design_loc(b.design_external_id@), b.target_type@, WEIGHT_BINDING, b.target@)
}

pub open spec fn bindings_hits(bs: Seq<DesignBindingRecord>, file: Option<Seq<char>>) -> Seq<HitView>
    decreases bs.len(),
{
    if bs.len() == 0 {
        Seq::empty()
    } else {
        bindings_hits(bs.drop_last(), file) + if binding_selected(bs.last(), file) {
            seq![binding_hit(bs.last())]
        } else {
            Seq::empty()
        }
    }
}

pub open spec fn design_hits(c: ProjectContent, file: Option<Seq<char>>, wanted: Option<Seq<char>>) -> Seq<HitView> {
    elements_hits(c.elements@, c.bindings@, file, wanted) + relationships_hits(
        c.relationships@,
        c.bindings@,
        file,
    ) + (if file is None {
        diagrams_hits(c.diagrams@) + mockups_hits(c.mockups@)
    } else {
        Seq::empty()
    }) + bindings_hits(c.bindings@, file)
}

pub open spec fn task_loc(id: i64) -> Seq<char> {
    "task:"@ + signed_dec(id as int)
}

/// The file entries of one list that take part under the file filter.
pub open spec fn file_entry_hits(
    loc: Seq<char>,
    kind: Seq<char>,
    entries: Seq<Seq<char>>,
    file: Option<Seq<char>>,
) -> Seq<HitView>
    decreases entries.len(),
{
    if entries.len() == 0 {
        Seq::empty()
    } else {
        file_entry_hits(loc, kind, entries.drop_last(), file) + if match file {
            None => true,
            Some(f) => file_matches_spec(seq![entries.last()], f),
        } {
            seq![hv(GrepDomain::Tasks, loc, kind, WEIGHT_BINDING, entries.last())]
        } else {
            Seq::empty()
        }
    }
}

pub open spec fn task_hits(t: TaskFields, file: Option<Seq<char>>) -> Seq<HitView> {
    let l = task_loc(t.id);
    seq![
        hv(GrepDomain::Tasks, l, "title"@, WEIGHT_NAME, t.title@),
        hv(GrepDomain::Tasks, l, "description"@, WEIGHT_DESCRIPTION, t.description@),
        hv(GrepDomain::Tasks, l, "completionMemo"@, WEIGHT_DESCRIPTION, t.completion_memo@),
    ] + file_entry_hits(l, "createdFiles"@, string_views(t.created_files@), file) + file_entry_hits(
        l,
        "changedFiles"@,
        string_views(t.changed_files@),
        file,
    )
}

/// A task takes part when it created or changed the filtered file.
pub open spec fn task_selected(t: TaskFields, file: Option<Seq<char>>) -> bool {
    match file {
        None => true,
        Some(f) => file_matches_spec(string_views(t.created_files@), f) || file_matches_spec(
            string_views(t.changed_files@),
            f,
        ),
    }
}

pub open spec fn tasks_hits(ts: Seq<TaskFields>, file: Option<Seq<char>>) -> Seq<HitView>
    decreases ts.len(),
{
    if ts.len() == 0 {
        Seq::empty()
    } else {
        tasks_hits(ts.drop_last(), file) + if task_selected(ts.last(), file) {
            task_hits(ts.last(), file)
        } else {
            Seq::empty()
        }
    }
}

pub open spec fn notes_hits(ns: Seq<(String, String)>) -> Seq<HitView>
    decreases ns.len(),
{
    if ns.len() == 0 {
        Seq::empty()
    } else {
        notes_hits(ns.drop_last()).push(
            hv(GrepDomain::Memory, "memory:"@ + ns.last().0@, "note"@, WEIGHT_MEMORY_BODY, ns.last().1@),
        )
    }
}

pub open spec fn memory_hits(c: ProjectContent) -> Seq<HitView> {
    seq![hv(GrepDomain::Memory, "memory:summary"@, "summary"@, WEIGHT_MEMORY_SUMMARY, c.memory_summary@)]
        + notes_hits(c.notes@)
}

/// Every searchable field of every in-scope artifact, in domain order.
pub open spec fn content_hits(
    c: ProjectContent,
    scope: GrepScope,
    file: Option<Seq<char>>,
    element_type: Option<Seq<char>>,
) -> Seq<HitView> {
    let wanted = match element_type {
        Some(t) => Some(lowercase(t)),
        None => None,
    };
    (if scope_includes(scope, GrepDomain::Design) {
        design_hits(c, file, wanted)
    } else {
        Seq::empty()
    }) + (if scope_includes(scope, GrepDomain::Tasks) {
        tasks_hits(c.tasks@, file)
    } else {
        Seq::empty()
    }) + (if scope_includes(scope, GrepDomain::Memory) {
        memory_hits(c)
    } else {
        Seq::empty()
    })
}

// ---------------------------------------------------------------- building the list

pub open spec fn opt_view(o: Option<&str>) -> Option<Seq<char>> {
    match o {
        Some(s) => Some(s@),
        None => None,
    }
}

fn push_hit(out: &mut Vec<Candidate>, d: GrepDomain, loc: &str, kind: &str, w: u16, text: &str)
    ensures
        candidate_views(final(out)@) == candidate_views(old(out)@).push(hv(d, loc@, kind@, w, text@)),
{
    let c = Candidate::new(d, loc, kind, w, text);
    let ghost cv = candidate_view(c);
    out.push(c);
    assert(candidate_views(out@) =~= candidate_views(old(out)@).push(cv));
}

fn prefixed(prefix: &str, id: &str) -> (r: String)
    ensures
        r@ == prefix@ + id@,
{
    let mut s = owned(prefix);
    push_str_chars(&mut s, id);
    s
}

/// Targets bound to one design element, in binding order.
fn bound_targets_exec(bs: &[DesignBindingRecord], id: &str) -> (r: Vec<String>)
    ensures
        string_views(r@) == bound_targets(bs@, id@),
{
    let mut r: Vec<String> = Vec::new();
    let mut i: usize = 0;
    while i < bs.len()
        invariant
            i <= bs@.len(),
            string_views(r@) == bound_targets(bs@.take(i as int), id@),
        decreases bs.len() - i,
    {
        assert(bs@.take(i + 1).drop_last() =~= bs@.take(i as int));
        assert(bs@.take(i + 1).last() == bs@[i as int]);
        if str_eq(bs[i].design_external_id.as_str(), id) {
            let ghost before = r@;
            r.push(bs[i].target.clone());
            assert(string_views(r@) =~= string_views(before).push(bs@[i as int].target@));
        }
        i += 1;
    }
    assert(bs@.take(bs@.len() as int) =~= bs@);
    r
}

fn bound_to_file_exec(bs: &[DesignBindingRecord], file: Option<&str>, id: &str) -> (b: bool)
    ensures
        b == bound_to_file(bs@, opt_view(file), id@),
{
    match file {
        None => true,
        Some(f) => {
            let ts = bound_targets_exec(bs, id);
            file_matches(ts.as_slice(), f)
        },
    }
}

fn push_element(out: &mut Vec<Candidate>, e: &DesignElementRecord)
    ensures
        candidate_views(final(out)@) == candidate_views(old(out)@) + element_hits(*e),
{
    let ghost start = candidate_views(out@);
    let loc = prefixed("design:", e.external_id.as_str());
    push_hit(out, GrepDomain::Design, loc.as_str(), "name", WEIGHT_NAME, e.name.as_str());
    push_hit(out, GrepDomain::Design, loc.as_str(), "type", WEIGHT_ARTIFACT, e.element_type.as_str());
    push_hit(out, GrepDomain::Design, loc.as_str(), "description", WEIGHT_DESCRIPTION, e.description.as_str());
    push_hit(out, GrepDomain::Design, loc.as_str(), "technology", WEIGHT_DESCRIPTION, e.technology.as_str());
    push_hit(out, GrepDomain::Design, loc.as_str(), "tags", WEIGHT_DESCRIPTION, e.tags.as_str());
    push_hit(out, GrepDomain::Design, loc.as_str(), "id", WEIGHT_DEFAULT, e.external_id.as_str());
    assert(candidate_views(out@) =~= start + element_hits(*e));
}

proof fn lemma_spaced_append(a: Seq<Seq<char>>, b: Seq<Seq<char>>)
    ensures
        spaced(a + b) == spaced(a) + spaced(b),
    decreases b.len(),
{
    if b.len() == 0 {
        assert(a + b =~= a);
        assert(spaced(a) + spaced(b) =~= spaced(a));
    } else {
        lemma_spaced_append(a, b.drop_last());
        assert((a + b).drop_last() =~= a + b.drop_last());
        assert(spaced(a) + spaced(b.drop_last()) + " "@ + b.last() =~= spaced(a) + (spaced(
            b.drop_last(),
        ) + " "@ + b.last()));
    }
}

fn push_spaced(text: &mut String, ts: &[String])
    ensures
        final(text)@ == old(text)@ + spaced(string_views(ts@)),
{
    let ghost start = text@;
    let mut i: usize = 0;
    while i < ts.len()
        invariant
            i <= ts@.len(),
            text@ == start + spaced(string_views(ts@.take(i as int))),
        decreases ts.len() - i,
    {
        proof {
            assert(string_views(ts@.take(i + 1)).drop_last() =~= string_views(ts@.take(i as int)));
            assert(string_views(ts@.take(i + 1)).last() == ts@[i as int]@);
        }
        push_str_chars(text, " ");
        push_str_chars(text, ts[i].as_str());
        i += 1;
        assert(text@ =~= start + spaced(string_views(ts@.take(i as int))));
    }
    assert(ts@.take(ts@.len() as int) =~= ts@);
}

fn relationship_text_exec(
    r: &RelationshipFields,
    bs: &[DesignBindingRecord],
    file: Option<&str>,
) -> (t: String)
    ensures
        t@ == relationship_text(*r, bs@, opt_view(file)),
{
    let mut text = owned(r.source_name.as_str());
    push_str_chars(&mut text, " -> ");
    push_str_chars(&mut text, r.destination_name.as_str());
    let d = chars_of(r.description.as_str());
    let trimmed = trim_chars(d.as_slice());
    if trimmed.len() > 0 {
        push_str_chars(&mut text, ": ");
        push_str_chars(&mut text, r.description.as_str());
    }
    if file.is_some() {
        let a = bound_targets_exec(bs, r.source_id.as_str());
        let b = bound_targets_exec(bs, r.destination_id.as_str());
        push_spaced(&mut text, a.as_slice());
        push_spaced(&mut text, b.as_slice());
        proof {
            lemma_spaced_append(string_views(a@), string_views(b@));
        }
    }
    text
}

fn push_relationship(
    out: &mut Vec<Candidate>,
    r: &RelationshipFields,
    bs: &[DesignBindingRecord],
    file: Option<&str>,
)
    ensures
        candidate_views(final(out)@) == candidate_views(old(out)@) + relationship_hits(
            *r,
            bs@,
            opt_view(file),
        ),
{
    let ghost start = candidate_views(out@);
    let loc = prefixed("design:", r.external_id.as_str());
    let text = relationship_text_exec(r, bs, file);
    push_hit(out, GrepDomain::Design, loc.as_str(), "relationship", WEIGHT_DESCRIPTION, text.as_str());
    push_hit(out, GrepDomain::Design, loc.as_str(), "technology", WEIGHT_DESCRIPTION, r.technology.as_str());
    push_hit(out, GrepDomain::Design, loc.as_str(), "tags", WEIGHT_DESCRIPTION, r.tags.as_str());
    push_hit(out, GrepDomain::Design, loc.as_str(), "id", WEIGHT_DEFAULT, r.external_id.as_str());
    assert(candidate_views(out@) =~= start + relationship_hits(*r, bs@, opt_view(file)));
}

fn push_diagram(out: &mut Vec<Candidate>, d: &DesignDiagramRecord)
    ensures
        candidate_views(final(out)@) == candidate_views(old(out)@) + diagram_hits(*d),
{
    let ghost start = candidate_views(out@);
    let loc = prefixed("design:", d.key.as_str());
    push_hit(out, GrepDomain::Design, loc.as_str(), "title", WEIGHT_NAME, d.title.as_str());
    push_hit(out, GrepDomain::Design, loc.as_str(), "diagramType", WEIGHT_ARTIFACT, d.diagram_type.as_str());
    push_hit(out, GrepDomain::Design, loc.as_str(), "artifactLabel", WEIGHT_ARTIFACT, d.artifact_label.as_str());
    push_hit(out, GrepDomain::Design, loc.as_str(), "key", WEIGHT_DEFAULT, d.key.as_str());
    let c = Candidate::new(GrepDomain::Design, loc.as_str(), "source", WEIGHT_DEFAULT, d.source.as_str()).windowed();
    let ghost cv = candidate_view(c);
    let ghost mid = candidate_views(out@);
    out.push(c);
    assert(candidate_views(out@) =~= mid.push(cv));
    assert(candidate_views(out@) =~= start + diagram_hits(*d));
}

fn push_mockup(out: &mut Vec<Candidate>, m: &MockupSummary)
    ensures
        candidate_views(final(out)@) == candidate_views(old(out)@) + mockup_hits(*m),
{
    let ghost start = candidate_views(out@);
    let loc = prefixed("design:", m.external_id.as_str());
    push_hit(out, GrepDomain::Design, loc.as_str(), "title", WEIGHT_NAME, m.title.as_str());
    push_hit(out, GrepDomain::Design, loc.as_str(), "attachedTo", WEIGHT_BINDING, m.attached_to_external_id.as_str());
    push_hit(out, GrepDomain::Design, loc.as_str(), "screen", WEIGHT_ARTIFACT, m.screen.as_str());
    push_hit(out, GrepDomain::Design, loc.as_str(), "state", WEIGHT_ARTIFACT, m.state.as_str());
    push_hit(out, GrepDomain::Design, loc.as_str(), "fidelity", WEIGHT_ARTIFACT, m.fidelity.as_str());
    push_hit(out, GrepDomain::Design, loc.as_str(), "externalId", WEIGHT_DEFAULT, m.external_id.as_str());
    assert(candidate_views(out@) =~= start + mockup_hits(*m));
}

/// Whether one entry is involved with the filtered file.
fn entry_matches(entry: &String, file: &str) -> (b: bool)
    ensures
        b == file_matches_spec(seq![entry@], file@),
{
    let one = vec![entry.clone()];
    assert(string_views(one@) =~= seq![entry@]);
    file_matches(one.as_slice(), file)
}

fn push_file_entries(
    out: &mut Vec<Candidate>,
    loc: &str,
    kind: &str,
    entries: &[String],
    file: Option<&str>,
)
    ensures
        candidate_views(final(out)@) == candidate_views(old(out)@) + file_entry_hits(
            loc@,
            kind@,
            string_views(entries@),
            opt_view(file),
        ),
{
    let ghost start = candidate_views(out@);
    let mut i: usize = 0;
    assert(file_entry_hits(loc@, kind@, string_views(entries@.take(0)), opt_view(file)) =~= Seq::<HitView>::empty());
    assert(candidate_views(out@) =~= start + Seq::<HitView>::empty());
    while i < entries.len()
        invariant
            i <= entries@.len(),
            candidate_views(out@) == start + file_entry_hits(
                loc@,
                kind@,
                string_views(entries@.take(i as int)),
                opt_view(file),
            ),
        decreases entries.len() - i,
    {
        let ghost before = candidate_views(out@);
        proof {
            assert(string_views(entries@.take(i + 1)).drop_last() =~= string_views(entries@.take(i as int)));
            assert(string_views(entries@.take(i + 1)).last() == entries@[i as int]@);
        }
        let keep = match file {
            None => true,
            Some(f) => entry_matches(&entries[i], f),
        };
        if keep {
            push_hit(out, GrepDomain::Tasks, loc, kind, WEIGHT_BINDING, entries[i].as_str());
            assert(candidate_views(out@) =~= start + file_entry_hits(
                loc@,
                kind@,
                string_views(entries@.take(i + 1)),
                opt_view(file),
            ));
        } else {
            assert(candidate_views(out@) =~= start + file_entry_hits(
                loc@,
                kind@,
                string_views(entries@.take(i + 1)),
                opt_view(file),
            ));
        }
        i += 1;
    }
    assert(entries@.take(entries@.len() as int) =~= entries@);
}

fn push_task(out: &mut Vec<Candidate>, t: &TaskFields, file: Option<&str>)
    ensures
        candidate_views(final(out)@) == candidate_views(old(out)@) + task_hits(*t, opt_view(file)),
{
    let ghost start = candidate_views(out@);
    let digits = signed_decimal(t.id);
    let mut loc = owned("task:");
    push_chars(&mut loc, digits.as_slice());
    push_hit(out, GrepDomain::Tasks, loc.as_str(), "title", WEIGHT_NAME, t.title.as_str());
    push_hit(out, GrepDomain::Tasks, loc.as_str(), "description", WEIGHT_DESCRIPTION, t.description.as_str());
    push_hit(out, GrepDomain::Tasks, loc.as_str(), "completionMemo", WEIGHT_DESCRIPTION, t.completion_memo.as_str());
    let ghost mid = candidate_views(out@);
    push_file_entries(out, loc.as_str(), "createdFiles", t.created_files.as_slice(), file);
    push_file_entries(out, loc.as_str(), "changedFiles", t.changed_files.as_slice(), file);
    assert(candidate_views(out@) =~= start + task_hits(*t, opt_view(file)));
}

fn task_selected_exec(t: &TaskFields, file: Option<&str>) -> (b: bool)
    ensures
        b == task_selected(*t, opt_view(file)),
{
    match file {
        None => true,
        Some(f) => file_matches(t.created_files.as_slice(), f) || file_matches(
            t.changed_files.as_slice(),
            f,
        ),
    }
}

/// The design part of the candidate list.
fn design_candidates(
    out: &mut Vec<Candidate>,
    c: &ProjectContent,
    file: Option<&str>,
    wanted: Option<&Vec<char>>,
)
    ensures
        candidate_views(final(out)@) == candidate_views(old(out)@) + design_hits(
            *c,
            opt_view(file),
            match wanted {
                Some(w) => Some(w@),
                None => None,
            },
        ),
{
    let ghost start = candidate_views(out@);
    let ghost w = match wanted {
        Some(w) => Some(w@),
        None => None,
    };
    let ghost f = opt_view(file);
    let bs = c.bindings.as_slice();
    let mut i: usize = 0;
    assert(elements_hits(c.elements@.take(0), bs@, f, w) =~= Seq::<HitView>::empty());
    assert(start + Seq::<HitView>::empty() =~= start);
    while i < c.elements.len()
        invariant
            i <= c.elements@.len(),
            bs@ == c.bindings@,
            f == opt_view(file),
            w == (match wanted {
                Some(w) => Some(w@),
                None => None,
            }),
            candidate_views(out@) == start + elements_hits(c.elements@.take(i as int), bs@, f, w),
        decreases c.elements.len() - i,
    {
        let e = &c.elements[i];
        proof {
            assert(c.elements@.take(i + 1).drop_last() =~= c.elements@.take(i as int));
            assert(c.elements@.take(i + 1).last() == *e);
        }
        let type_ok = match wanted {
            None => true,
            Some(wv) => {
                let et = chars_of(e.element_type.as_str());
                let lt = lower_chars(et.as_slice());
                crate::text::chars_eq(lt.as_slice(), wv.as_slice())
            },
        };
        let selected = type_ok && bound_to_file_exec(bs, file, e.external_id.as_str());
        let ghost before = candidate_views(out@);
        if selected {
            push_element(out, e);
        }
        assert(candidate_views(out@) =~= start + elements_hits(c.elements@.take(i + 1), bs@, f, w));
        i += 1;
    }
    assert(c.elements@.take(c.elements@.len() as int) =~= c.elements@);
    let ghost s1 = candidate_views(out@);
    let mut i: usize = 0;
    assert(relationships_hits(c.relationships@.take(0), bs@, f) =~= Seq::<HitView>::empty());
    assert(s1 + Seq::<HitView>::empty() =~= s1);
    while i < c.relationships.len()
        invariant
            i <= c.relationships@.len(),
            bs@ == c.bindings@,
            f == opt_view(file),
            candidate_views(out@) == s1 + relationships_hits(c.relationships@.take(i as int), bs@, f),
        decreases c.relationships.len() - i,
    {
        let r = &c.relationships[i];
        proof {
            assert(c.relationships@.take(i + 1).drop_last() =~= c.relationships@.take(i as int));
            assert(c.relationships@.take(i + 1).last() == *r);
        }
        let selected = bound_to_file_exec(bs, file, r.source_id.as_str()) || bound_to_file_exec(
            bs,
            file,
            r.destination_id.as_str(),
        );
        if selected {
            push_relationship(out, r, bs, file);
        }
        assert(candidate_views(out@) =~= s1 + relationships_hits(c.relationships@.take(i + 1), bs@, f));
        i += 1;
    }
    assert(c.relationships@.take(c.relationships@.len() as int) =~= c.relationships@);
    let ghost s2 = candidate_views(out@);
    if file.is_none() {
        let mut i: usize = 0;
        assert(diagrams_hits(c.diagrams@.take(0)) =~= Seq::<HitView>::empty());
        assert(s2 + Seq::<HitView>::empty() =~= s2);
        while i < c.diagrams.len()
            invariant
                i <= c.diagrams@.len(),
                candidate_views(out@) == s2 + diagrams_hits(c.diagrams@.take(i as int)),
            decreases c.diagrams.len() - i,
        {
            proof {
                assert(c.diagrams@.take(i + 1).drop_last() =~= c.diagrams@.take(i as int));
                assert(c.diagrams@.take(i + 1).last() == c.diagrams@[i as int]);
            }
            push_diagram(out, &c.diagrams[i]);
            assert(candidate_views(out@) =~= s2 + diagrams_hits(c.diagrams@.take(i + 1)));
            i += 1;
        }
        assert(c.diagrams@.take(c.diagrams@.len() as int) =~= c.diagrams@);
        let ghost s3 = candidate_views(out@);
        let mut i: usize = 0;
        assert(mockups_hits(c.mockups@.take(0)) =~= Seq::<HitView>::empty());
        assert(s3 + Seq::<HitView>::empty() =~= s3);
        while i < c.mockups.len()
            invariant
                i <= c.mockups@.len(),
                candidate_views(out@) == s3 + mockups_hits(c.mockups@.take(i as int)),
            decreases c.mockups.len() - i,
        {
            proof {
                assert(c.mockups@.take(i + 1).drop_last() =~= c.mockups@.take(i as int));
                assert(c.mockups@.take(i + 1).last() == c.mockups@[i as int]);
            }
            push_mockup(out, &c.mockups[i]);
            assert(candidate_views(out@) =~= s3 + mockups_hits(c.mockups@.take(i + 1)));
            i += 1;
        }
        assert(c.mockups@.take(c.mockups@.len() as int) =~= c.mockups@);
        assert(candidate_views(out@) =~= s2 + (diagrams_hits(c.diagrams@) + mockups_hits(c.mockups@)));
    } else {
        assert(candidate_views(out@) =~= s2 + Seq::<HitView>::empty());
    }
    let ghost s4 = candidate_views(out@);
    let mut i: usize = 0;
    assert(bindings_hits(bs@.take(0), f) =~= Seq::<HitView>::empty());
    assert(s4 + Seq::<HitView>::empty() =~= s4);
    while i < bs.len()
        invariant
            i <= bs@.len(),
            f == opt_view(file),
            candidate_views(out@) == s4 + bindings_hits(bs@.take(i as int), f),
        decreases bs.len() - i,
    {
        let b = &bs[i];
        proof {
            assert(bs@.take(i + 1).drop_last() =~= bs@.take(i as int));
            assert(bs@.take(i + 1).last() == *b);
        }
        let selected = match file {
            None => true,
            Some(fl) => {
                let tt = chars_of(b.target_type.as_str());
                eq_lit(tt.as_slice(), "file") && entry_matches(&b.target, fl)
            },
        };
        if selected {
            let loc = prefixed("design:", b.design_external_id.as_str());
            push_hit(out, GrepDomain::Design, loc.as_str(), b.target_type.as_str(), WEIGHT_BINDING, b.target.as_str());
        }
        assert(candidate_views(out@) =~= s4 + bindings_hits(bs@.take(i + 1), f));
        i += 1;
    }
    assert(bs@.take(bs@.len() as int) =~= bs@);
    assert(candidate_views(out@) =~= start + design_hits(*c, f, w));
}

/// Every searchable field of every in-scope artifact, as a flat list of candidates.
pub fn candidates(content: &ProjectContent, query: &Query) -> (r: Vec<Candidate>)
    ensures
        candidate_views(r@) == content_hits(
            *content,
            last_scope(clause_views(query.clauses@)),
            last_file(clause_views(query.clauses@)),
            last_type(clause_views(query.clauses@)),
        ),
{
    let file = query.file();
    let element_type = query.element_type();
    let scope = query.scope();
    let wanted: Option<Vec<char>> = match element_type {
        Some(t) => {
            let v = chars_of(t);
            Some(lower_chars(v.as_slice()))
        },
        None => None,
    };
    let mut out: Vec<Candidate> = Vec::new();
    if scope.includes(GrepDomain::Design) {
        design_candidates(&mut out, content, file, wanted.as_ref());
    }
    let ghost s1 = candidate_views(out@);
    if scope.includes(GrepDomain::Tasks) {
        let mut i: usize = 0;
        assert(tasks_hits(content.tasks@.take(0), opt_view(file)) =~= Seq::<HitView>::empty());
        assert(s1 + Seq::<HitView>::empty() =~= s1);
        while i < content.tasks.len()
            invariant
                i <= content.tasks@.len(),
                candidate_views(out@) == s1 + tasks_hits(content.tasks@.take(i as int), opt_view(file)),
            decreases content.tasks.len() - i,
        {
            let t = &content.tasks[i];
            proof {
                assert(content.tasks@.take(i + 1).drop_last() =~= content.tasks@.take(i as int));
                assert(content.tasks@.take(i + 1).last() == *t);
            }
            if task_selected_exec(t, file) {
                push_task(&mut out, t, file);
            }
            assert(candidate_views(out@) =~= s1 + tasks_hits(content.tasks@.take(i + 1), opt_view(file)));
            i += 1;
        }
        assert(content.tasks@.take(content.tasks@.len() as int) =~= content.tasks@);
    }
    let ghost s2 = candidate_views(out@);
    if scope.includes(GrepDomain::Memory) {
        push_hit(
            &mut out,
            GrepDomain::Memory,
            "memory:summary",
            "summary",
            WEIGHT_MEMORY_SUMMARY,
            content.memory_summary.as_str(),
        );
        let ghost s3 = candidate_views(out@);
        let mut i: usize = 0;
        assert(notes_hits(content.notes@.take(0)) =~= Seq::<HitView>::empty());
        assert(s3 + Seq::<HitView>::empty() =~= s3);
        while i < content.notes.len()
            invariant
                i <= content.notes@.len(),
                candidate_views(out@) == s3 + notes_hits(content.notes@.take(i as int)),
            decreases content.notes.len() - i,
        {
            let n = &content.notes[i];
            proof {
                assert(content.notes@.take(i + 1).drop_last() =~= content.notes@.take(i as int));
                assert(content.notes@.take(i + 1).last() == *n);
            }
            let loc = prefixed("memory:", n.0.as_str());
            push_hit(&mut out, GrepDomain::Memory, loc.as_str(), "note", WEIGHT_MEMORY_BODY, n.1.as_str());
            assert(candidate_views(out@) =~= s3 + notes_hits(content.notes@.take(i + 1)));
            i += 1;
        }
        assert(content.notes@.take(content.notes@.len() as int) =~= content.notes@);
    }
    proof {
        let f = last_file(clause_views(query.clauses@));
        assert(opt_view(file) == f);
    }
    assert(candidate_views(out@) =~= content_hits(
        *content,
        last_scope(clause_views(query.clauses@)),
        last_file(clause_views(query.clauses@)),
        last_type(clause_views(query.clauses@)),
    ));
    out
}


// ---------------------------------------------------------------- every hit is project content

/// A hit's locator names its own domain: `design:`, `task:` or `memory:`. Project tooling,
/// such as rules or QA runs, has no domain and so never becomes a hit.
pub open spec fn locator_in_domain(h: HitView) -> bool {
    match h.domain {
        GrepDomain::Design => "design:"@.is_prefix_of(h.locator),
        GrepDomain::Tasks => "task:"@.is_prefix_of(h.locator),
        GrepDomain::Memory => "memory:"@.is_prefix_of(h.locator),
    }
}

pub open spec fn all_in_domain(s: Seq<HitView>) -> bool {
    forall|i: int| 0 <= i < s.len() ==> locator_in_domain(#[trigger] s[i])
}

proof fn lemma_all_in_domain_concat(a: Seq<HitView>, b: Seq<HitView>)
    requires
        all_in_domain(a),
        all_in_domain(b),
    ensures
        all_in_domain(a + b),
{
    assert forall|i: int| 0 <= i < (a + b).len() implies locator_in_domain(#[trigger] (a + b)[i]) by {
        if i < a.len() {
            assert((a + b)[i] == a[i]);
        } else {
            assert((a + b)[i] == b[i - a.len()]);
        }
    }
}

proof fn lemma_prefix_concat(a: Seq<char>, b: Seq<char>)
    ensures
        a.is_prefix_of(a + b),
{
    assert(a =~= (a + b).subrange(0, a.len() as int));
}

proof fn lemma_elements_in_domain(
    es: Seq<DesignElementRecord>,
    bs: Seq<DesignBindingRecord>,
    file: Option<Seq<char>>,
    wanted: Option<Seq<char>>,
)
    ensures
        all_in_domain(elements_hits(es, bs, file, wanted)),
    decreases es.len(),
{
    if es.len() > 0 {
        lemma_elements_in_domain(es.drop_last(), bs, file, wanted);
        lemma_prefix_concat("design:"@, es.last().external_id@);
        let tail = if element_selected(es.last(), bs, file, wanted) {
            element_hits(es.last())
        } else {
            Seq::empty()
        };
        assert(all_in_domain(tail));
        lemma_all_in_domain_concat(elements_hits(es.drop_last(), bs, file, wanted), tail);
    }
}

proof fn lemma_relationships_in_domain(
    rs: Seq<RelationshipFields>,
    bs: Seq<DesignBindingRecord>,
    file: Option<Seq<char>>,
)
    ensures
        all_in_domain(relationships_hits(rs, bs, file)),
    decreases rs.len(),
{
    if rs.len() > 0 {
        lemma_relationships_in_domain(rs.drop_last(), bs, file);
        lemma_prefix_concat("design:"@, rs.last().external_id@);
        let tail = if relationship_selected(rs.last(), bs, file) {
            relationship_hits(rs.last(), bs, file)
        } else {
            Seq::empty()
        };
        assert(all_in_domain(tail));
        lemma_all_in_domain_concat(relationships_hits(rs.drop_last(), bs, file), tail);
    }
}

proof fn lemma_diagrams_in_domain(ds: Seq<DesignDiagramRecord>)
    ensures
        all_in_domain(diagrams_hits(ds)),
    decreases ds.len(),
{
    if ds.len() > 0 {
        lemma_diagrams_in_domain(ds.drop_last());
        lemma_prefix_concat("design:"@, ds.last().key@);
        assert(all_in_domain(diagram_hits(ds.last())));
        lemma_all_in_domain_concat(diagrams_hits(ds.drop_last()), diagram_hits(ds.last()));
    }
}

proof fn lemma_mockups_in_domain(ms: Seq<MockupSummary>)
    ensures
        all_in_domain(mockups_hits(ms)),
    decreases ms.len(),
{
    if ms.len() > 0 {
        lemma_mockups_in_domain(ms.drop_last());
        lemma_prefix_concat("design:"@, ms.last().external_id@);
        assert(all_in_domain(mockup_hits(ms.last())));
        lemma_all_in_domain_concat(mockups_hits(ms.drop_last()), mockup_hits(ms.last()));
    }
}

proof fn lemma_bindings_in_domain(bs: Seq<DesignBindingRecord>, file: Option<Seq<char>>)
    ensures
        all_in_domain(bindings_hits(bs, file)),
    decreases bs.len(),
{
    if bs.len() > 0 {
        lemma_bindings_in_domain(bs.drop_last(), file);
        lemma_prefix_concat("design:"@, bs.last().design_external_id@);
        let tail = if binding_selected(bs.last(), file) {
            seq![binding_hit(bs.last())]
        } else {
            Seq::empty()
        };
        assert(all_in_domain(tail));
        lemma_all_in_domain_concat(bindings_hits(bs.drop_last(), file), tail);
    }
}

proof fn lemma_file_entries_in_domain(
    loc: Seq<char>,
    kind: Seq<char>,
    entries: Seq<Seq<char>>,
    file: Option<Seq<char>>,
)
    requires
        "task:"@.is_prefix_of(loc),
    ensures
        all_in_domain(file_entry_hits(loc, kind, entries, file)),
    decreases entries.len(),
{
    if entries.len() > 0 {
        lemma_file_entries_in_domain(loc, kind, entries.drop_last(), file);
        let tail = if match file {
            None => true,
            Some(f) => file_matches_spec(seq![entries.last()], f),
        } {
            seq![hv(GrepDomain::Tasks, loc, kind, WEIGHT_BINDING, entries.last())]
        } else {
            Seq::empty()
        };
        assert(all_in_domain(tail));
        lemma_all_in_domain_concat(file_entry_hits(loc, kind, entries.drop_last(), file), tail);
    }
}

proof fn lemma_tasks_in_domain(ts: Seq<TaskFields>, file: Option<Seq<char>>)
    ensures
        all_in_domain(tasks_hits(ts, file)),
    decreases ts.len(),
{
    if ts.len() > 0 {
        lemma_tasks_in_domain(ts.drop_last(), file);
        let t = ts.last();
        let l = task_loc(t.id);
        lemma_prefix_concat("task:"@, signed_dec(t.id as int));
        let head = seq![
            hv(GrepDomain::Tasks, l, "title"@, WEIGHT_NAME, t.title@),
            hv(GrepDomain::Tasks, l, "description"@, WEIGHT_DESCRIPTION, t.description@),
            hv(GrepDomain::Tasks, l, "completionMemo"@, WEIGHT_DESCRIPTION, t.completion_memo@),
        ];
        assert(all_in_domain(head));
        let created = file_entry_hits(l, "createdFiles"@, string_views(t.created_files@), file);
        let changed = file_entry_hits(l, "changedFiles"@, string_views(t.changed_files@), file);
        lemma_file_entries_in_domain(l, "createdFiles"@, string_views(t.created_files@), file);
        lemma_file_entries_in_domain(l, "changedFiles"@, string_views(t.changed_files@), file);
        lemma_all_in_domain_concat(head, created);
        lemma_all_in_domain_concat(head + created, changed);
        assert(task_hits(t, file) == head + created + changed);
        let tail = if task_selected(t, file) {
            task_hits(t, file)
        } else {
            Seq::empty()
        };
        assert(all_in_domain(tail));
        lemma_all_in_domain_concat(tasks_hits(ts.drop_last(), file), tail);
    }
}

proof fn lemma_notes_in_domain(ns: Seq<(String, String)>)
    ensures
        all_in_domain(notes_hits(ns)),
    decreases ns.len(),
{
    if ns.len() > 0 {
        lemma_notes_in_domain(ns.drop_last());
        lemma_prefix_concat("memory:"@, ns.last().0@);
        let h = hv(GrepDomain::Memory, "memory:"@ + ns.last().0@, "note"@, WEIGHT_MEMORY_BODY, ns.last().1@);
        assert(notes_hits(ns) == notes_hits(ns.drop_last()) + seq![h]);
        assert(all_in_domain(seq![h]));
        lemma_all_in_domain_concat(notes_hits(ns.drop_last()), seq![h]);
    }
}

/// Law: every candidate of a search is project content, and its locator names the domain it
/// belongs to; nothing outside the three domains is ever searched.
pub proof fn law_hits_are_project_content(
    c: ProjectContent,
    scope: GrepScope,
    file: Option<Seq<char>>,
    element_type: Option<Seq<char>>,
)
    ensures
        all_in_domain(content_hits(c, scope, file, element_type)),
{
    let wanted = match element_type {
        Some(t) => Some(lowercase(t)),
        None => None,
    };
    lemma_elements_in_domain(c.elements@, c.bindings@, file, wanted);
    lemma_relationships_in_domain(c.relationships@, c.bindings@, file);
    lemma_diagrams_in_domain(c.diagrams@);
    lemma_mockups_in_domain(c.mockups@);
    lemma_bindings_in_domain(c.bindings@, file);
    lemma_all_in_domain_concat(diagrams_hits(c.diagrams@), mockups_hits(c.mockups@));
    let dm: Seq<HitView> = if file is None {
        diagrams_hits(c.diagrams@) + mockups_hits(c.mockups@)
    } else {
        Seq::empty()
    };
    assert(all_in_domain(dm));
    let e = elements_hits(c.elements@, c.bindings@, file, wanted);
    let r = relationships_hits(c.relationships@, c.bindings@, file);
    lemma_all_in_domain_concat(e, r);
    lemma_all_in_domain_concat(e + r, dm);
    lemma_all_in_domain_concat(e + r + dm, bindings_hits(c.bindings@, file));
    lemma_tasks_in_domain(c.tasks@, file);
    lemma_notes_in_domain(c.notes@);
    let summary = seq![hv(GrepDomain::Memory, "memory:summary"@, "summary"@, WEIGHT_MEMORY_SUMMARY, c.memory_summary@)];
    reveal_strlit("memory:summary");
    reveal_strlit("memory:");
    assert("memory:"@.is_prefix_of("memory:summary"@));
    assert(all_in_domain(summary));
    lemma_all_in_domain_concat(summary, notes_hits(c.notes@));
    let d: Seq<HitView> = if scope_includes(scope, GrepDomain::Design) {
        design_hits(c, file, wanted)
    } else {
        Seq::empty()
    };
    let t: Seq<HitView> = if scope_includes(scope, GrepDomain::Tasks) {
        tasks_hits(c.tasks@, file)
    } else {
        Seq::empty()
    };
    let m: Seq<HitView> = if scope_includes(scope, GrepDomain::Memory) {
        memory_hits(c)
    } else {
        Seq::empty()
    };
    assert(all_in_domain(d));
    assert(all_in_domain(t));
    assert(all_in_domain(m));
    lemma_all_in_domain_concat(d, t);
    lemma_all_in_domain_concat(d + t, m);
}


// ---------------------------------------------------------------- the type filter

proof fn lemma_selected_element_hits(
    es: Seq<DesignElementRecord>,
    bs: Seq<DesignBindingRecord>,
    file: Option<Seq<char>>,
    wanted: Option<Seq<char>>,
    k: int,
)
    requires
        0 <= k < es.len(),
        element_selected(es[k], bs, file, wanted),
    ensures
        elements_hits(es, bs, file, wanted).contains(element_hits(es[k])[0]),
    decreases es.len(),
{
    let p = elements_hits(es.drop_last(), bs, file, wanted);
    if k < es.len() - 1 {
        assert(es.drop_last()[k] == es[k]);
        lemma_selected_element_hits(es.drop_last(), bs, file, wanted, k);
        let j = choose|j: int| 0 <= j < p.len() && p[j] == element_hits(es[k])[0];
        assert(elements_hits(es, bs, file, wanted)[j] == p[j]);
    } else {
        assert(es.last() == es[k]);
        assert(elements_hits(es, bs, file, wanted)[p.len() as int] == element_hits(es[k])[0]);
    }
}

/// Law: the type filter compares an element's type and the filter value ignoring case: an
/// element of the design bound to the filtered file (or under no file filter) whose type
/// equals the filter ignoring case has its name among the candidates of a design search.
pub proof fn law_type_filter_ignores_case(
    c: ProjectContent,
    scope: GrepScope,
    file: Option<Seq<char>>,
    t: Seq<char>,
    k: int,
)
    requires
        0 <= k < c.elements@.len(),
        scope_includes(scope, GrepDomain::Design),
        lowercase(c.elements@[k].element_type@) == lowercase(t),
        bound_to_file(c.bindings@, file, c.elements@[k].external_id@),
    ensures
        content_hits(c, scope, file, Some(t)).contains(
            hv(
                GrepDomain::Design,
                design_loc(c.elements@[k].external_id@),
                "name"@,
                WEIGHT_NAME,
                c.elements@[k].name@,
            ),
        ),
{
    let es = c.elements@;
    let wanted = Some(lowercase(t));
    lemma_selected_element_hits(es, c.bindings@, file, wanted, k);
    let eh = elements_hits(es, c.bindings@, file, wanted);
    let x = element_hits(es[k])[0];
    let j = choose|j: int| 0 <= j < eh.len() && eh[j] == x;
    let d = design_hits(c, file, wanted);
    assert(d[j] == x);
    assert(content_hits(c, scope, file, Some(t))[j] == x);
}

/// Law: under a type filter an element takes part exactly when its type equals the filter
/// ignoring case (and it is bound to the filtered file).
pub proof fn law_type_filter_selects_by_lowercase(
    e: DesignElementRecord,
    bs: Seq<DesignBindingRecord>,
    file: Option<Seq<char>>,
    t: Seq<char>,
)
    ensures
        element_selected(e, bs, file, Some(lowercase(t))) <==> (lowercase(e.element_type@)
            == lowercase(t) && bound_to_file(bs, file, e.external_id@)),
{
}

} // verus!
