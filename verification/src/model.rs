//! Validation of a stored C4 design model: one internal software system, a well-typed
//! containment tree, resolvable relationships, renderable and attached UML artifacts, and
//! bindings that name existing design ids. Every problem becomes one correction that says
//! what is wrong and what to do about it.
use vstd::prelude::*;

use crate::design::{
    mermaid_error, validate_mermaid, DesignBindingRecord, DesignCorrection, DesignDiagramRecord,
    DesignElementRecord, DesignRelationshipRecord,
};
use crate::settings::{chars_eq_ignore_ascii_case, eq_ignore_ascii_case};
use crate::text::{
    ascii_lower_chars, chars_of, dec, eq_lit, is_ws, lower_ascii_seq, owned, push_dec,
    push_str_chars, str_eq, trim, trim_chars,
};

verus! {

broadcast use vstd::string::group_string_axioms;

// ---------------------------------------------------------------- element types and tags

/// The canonical C4 element type a stored type names, compared trimmed and ASCII
/// case-insensitively.
pub open spec fn normalized_type_spec(t: Seq<char>) -> Option<Seq<char>> {
    let l = lower_ascii_seq(trim(t));
    if l == "person"@ {
        Some("Person"@)
    } else if l == "software system"@ || l == "softwaresystem"@ {
        Some("Software System"@)
    } else if l == "container"@ {
        Some("Container"@)
    } else if l == "component"@ {
        Some("Component"@)
    } else {
        None
    }
}

/// The canonical C4 element type, if the stored type names one.
pub fn normalized_element_type(element_type: &str) -> (r: Option<String>)
    ensures
        match r {
            Some(s) => normalized_type_spec(element_type@) == Some(s@),
            None => normalized_type_spec(element_type@) is None,
        },
{
    let v = chars_of(element_type);
    let t = trim_chars(v.as_slice());
    let l = ascii_lower_chars(t.as_slice());
    if eq_lit(l.as_slice(), "person") {
        Some(owned("Person"))
    } else if eq_lit(l.as_slice(), "software system") || eq_lit(l.as_slice(), "softwaresystem") {
        Some(owned("Software System"))
    } else if eq_lit(l.as_slice(), "container") {
        Some(owned("Container"))
    } else if eq_lit(l.as_slice(), "component") {
        Some(owned("Component"))
    } else {
        None
    }
}

/// The pieces of `s` between separators (what `str::split` yields: one more than there are
/// separators).
pub open spec fn split_on(s: Seq<char>, sep: char) -> Seq<Seq<char>>
    decreases s.len(),
{
    if s.len() == 0 {
        seq![Seq::empty()]
    } else {
        let parts = split_on(s.drop_last(), sep);
        if s.last() == sep {
            parts.push(Seq::empty())
        } else {
            parts.update(parts.len() - 1, parts.last().push(s.last()))
        }
    }
}

proof fn lemma_split_nonempty(s: Seq<char>, sep: char)
    ensures
        split_on(s, sep).len() >= 1,
    decreases s.len(),
{
    if s.len() > 0 {
        lemma_split_nonempty(s.drop_last(), sep);
    }
}

/// Whether a comma-separated tag list holds a tag, compared trimmed and ASCII
/// case-insensitively.
pub open spec fn has_tag_spec(tags: Seq<char>, tag: Seq<char>) -> bool {
    exists|i: int|
        0 <= i < split_on(tags, ',').len() && eq_ignore_ascii_case(
            trim(#[trigger] split_on(tags, ',')[i]),
            tag,
        )
}

/// Whether a comma-separated tag list holds a tag.
pub fn has_tag(tags: &str, tag: &str) -> (b: bool)
    ensures
        b == has_tag_spec(tags@, tag@),
{
    let v = chars_of(tags);
    let want = chars_of(tag);
    let mut piece: Vec<char> = Vec::new();
    let mut found = false;
    let mut i: usize = 0;
    proof {
        lemma_split_nonempty(v@.take(0), ',');
        assert(v@.take(0) =~= Seq::<char>::empty());
        assert(piece@ =~= split_on(v@.take(0), ',').last());
    }
    while i < v.len()
        invariant
            i <= v@.len(),
            v@ == tags@,
            want@ == tag@,
            split_on(v@.take(i as int), ',').len() >= 1,
            piece@ == split_on(v@.take(i as int), ',').last(),
            found == exists|k: int|
                0 <= k < split_on(v@.take(i as int), ',').len() - 1 && eq_ignore_ascii_case(
                    trim(#[trigger] split_on(v@.take(i as int), ',')[k]),
                    tag@,
                ),
        decreases v.len() - i,
    {
        let ghost before = split_on(v@.take(i as int), ',');
        proof {
            assert(v@.take(i + 1).drop_last() =~= v@.take(i as int));
            assert(v@.take(i + 1).last() == v@[i as int]);
        }
        if v[i] == ',' {
            let t = trim_chars(piece.as_slice());
            let here = chars_eq_ignore_ascii_case(t.as_slice(), want.as_slice());
            let ghost was = found;
            found = found || here;
            piece = Vec::new();
            proof {
                let after = split_on(v@.take(i + 1), ',');
                assert(after == before.push(Seq::<char>::empty()));
                assert(piece@ =~= after.last());
                if found {
                    if was {
                        let k = choose|k: int|
                            0 <= k < before.len() - 1 && eq_ignore_ascii_case(
                                trim(#[trigger] before[k]),
                                tag@,
                            );
                        assert(after[k] == before[k]);
                    } else {
                        assert(after[before.len() - 1] == before.last());
                    }
                } else {
                    assert forall|k: int| 0 <= k < after.len() - 1 implies !eq_ignore_ascii_case(
                        trim(#[trigger] after[k]),
                        tag@,
                    ) by {
                        assert(after[k] == before[k]);
                    }
                }
            }
        } else {
            piece.push(v[i]);
            proof {
                let after = split_on(v@.take(i + 1), ',');
                assert(after == before.update(before.len() - 1, before.last().push(v@[i as int])));
                if found {
                    let k = choose|k: int|
                        0 <= k < before.len() - 1 && eq_ignore_ascii_case(
                            trim(#[trigger] before[k]),
                            tag@,
                        );
                    assert(after[k] == before[k]);
                } else {
                    assert forall|k: int| 0 <= k < after.len() - 1 implies !eq_ignore_ascii_case(
                        trim(#[trigger] after[k]),
                        tag@,
                    ) by {
                        assert(after[k] == before[k]);
                    }
                }
            }
        }
        i += 1;
    }
    let t = trim_chars(piece.as_slice());
    let last = chars_eq_ignore_ascii_case(t.as_slice(), want.as_slice());
    proof {
        assert(v@.take(v@.len() as int) =~= v@);
        let parts = split_on(tags@, ',');
        if last && !found {
            assert(eq_ignore_ascii_case(trim(parts[parts.len() - 1]), tag@));
        }
        if !(found || last) {
            assert forall|k: int| 0 <= k < parts.len() implies !eq_ignore_ascii_case(
                trim(#[trigger] parts[k]),
                tag@,
            ) by {
                if k < parts.len() - 1 {
                }
            }
        }
    }
    found || last
}

// ---------------------------------------------------------------- corrections

/// The character content of a correction.
pub struct CorrectionView {
    pub code: Seq<char>,
    pub message: Seq<char>,
    pub request: Seq<char>,
}

pub open spec fn correction_view(c: DesignCorrection) -> CorrectionView {
    CorrectionView { code: c.code@, message: c.message@, request: c.request@ }
}

pub open spec fn correction_views(cs: Seq<DesignCorrection>) -> Seq<CorrectionView> {
    cs.map_values(|c: DesignCorrection| correction_view(c))
}

pub open spec fn corr(code: Seq<char>, message: Seq<char>, request: Seq<char>) -> CorrectionView {
    CorrectionView { code, message, request }
}

/// A correction: what is wrong and what to do about it.
pub fn correction(code: &str, message: String, request: String) -> (c: DesignCorrection)
    ensures
        correction_view(c) == corr(code@, message@, request@),
{
    DesignCorrection { code: owned(code), message, request }
}

fn push_correction(out: &mut Vec<DesignCorrection>, code: &str, message: String, request: String)
    ensures
        correction_views(final(out)@) == correction_views(old(out)@).push(
            corr(code@, message@, request@),
        ),
{
    let c = correction(code, message, request);
    let ghost cv = correction_view(c);
    out.push(c);
    assert(correction_views(out@) =~= correction_views(old(out)@).push(cv));
}

/// `a + b + c` as a string.
fn join3(a: &str, b: &str, c: &str) -> (r: String)
    ensures
        r@ == a@ + b@ + c@,
{
    let mut s = owned(a);
    push_str_chars(&mut s, b);
    push_str_chars(&mut s, c);
    s
}

/// `a + b + c + d + e` as a string.
fn join5(a: &str, b: &str, c: &str, d: &str, e: &str) -> (r: String)
    ensures
        r@ == a@ + b@ + c@ + d@ + e@,
{
    let mut s = join3(a, b, c);
    push_str_chars(&mut s, d);
    push_str_chars(&mut s, e);
    s
}

// ---------------------------------------------------------------- lookups

/// The last element with this external id (the one an id-keyed map keeps).
pub open spec fn element_by_id(es: Seq<DesignElementRecord>, id: Seq<char>) -> Option<DesignElementRecord>
    decreases es.len(),
{
    if es.len() == 0 {
        None
    } else if es.last().external_id@ == id {
        Some(es.last())
    } else {
        element_by_id(es.drop_last(), id)
    }
}

fn find_element<'a>(es: &'a [DesignElementRecord], id: &str) -> (r: Option<&'a DesignElementRecord>)
    ensures
        match r {
            Some(e) => element_by_id(es@, id@) == Some(*e),
            None => element_by_id(es@, id@) is None,
        },
{
    let mut i = es.len();
    assert(es@.take(i as int) =~= es@);
    while i > 0
        invariant
            i <= es@.len(),
            element_by_id(es@, id@) == element_by_id(es@.take(i as int), id@),
        decreases i,
    {
        assert(es@.take(i as int).drop_last() =~= es@.take(i - 1));
        if str_eq(es[i - 1].external_id.as_str(), id) {
            return Some(&es[i - 1]);
        }
        i -= 1;
    }
    None
}

pub open spec fn has_relationship(rs: Seq<DesignRelationshipRecord>, id: Seq<char>) -> bool {
    exists|i: int| 0 <= i < rs.len() && (#[trigger] rs[i]).external_id@ == id
}

pub(crate) fn find_relationship(rs: &[DesignRelationshipRecord], id: &str) -> (b: bool)
    ensures
        b == has_relationship(rs@, id@),
{
    let mut i: usize = 0;
    while i < rs.len()
        invariant
            i <= rs@.len(),
            forall|k: int| 0 <= k < i ==> (#[trigger] rs@[k]).external_id@ != id@,
        decreases rs.len() - i,
    {
        if str_eq(rs[i].external_id.as_str(), id) {
            return true;
        }
        i += 1;
    }
    false
}

pub open spec fn has_diagram(ds: Seq<DesignDiagramRecord>, key: Seq<char>) -> bool {
    exists|i: int| 0 <= i < ds.len() && (#[trigger] ds[i]).key@ == key
}

fn find_diagram(ds: &[DesignDiagramRecord], key: &str) -> (b: bool)
    ensures
        b == has_diagram(ds@, key@),
{
    let mut i: usize = 0;
    while i < ds.len()
        invariant
            i <= ds@.len(),
            forall|k: int| 0 <= k < i ==> (#[trigger] ds@[k]).key@ != key@,
        decreases ds.len() - i,
    {
        if str_eq(ds[i].key.as_str(), key) {
            return true;
        }
        i += 1;
    }
    false
}

pub open spec fn has_text(ms: Seq<String>, id: Seq<char>) -> bool {
    exists|i: int| 0 <= i < ms.len() && (#[trigger] ms[i])@ == id
}

pub fn find_text(ms: &[String], id: &str) -> (b: bool)
    ensures
        b == has_text(ms@, id@),
{
    let mut i: usize = 0;
    while i < ms.len()
        invariant
            i <= ms@.len(),
            forall|k: int| 0 <= k < i ==> (#[trigger] ms@[k])@ != id@,
        decreases ms.len() - i,
    {
        if str_eq(ms[i].as_str(), id) {
            return true;
        }
        i += 1;
    }
    false
}

// ---------------------------------------------------------------- what the model must satisfy

/// Corrections for an element's parent: a contained element needs an existing parent of the
/// required type.
pub open spec fn parent_corrections(
    es: Seq<DesignElementRecord>,
    e: DesignElementRecord,
    required: Seq<char>,
) -> Seq<CorrectionView> {
    match e.parent_external_id {
        None => seq![
            corr(
                "c4.missing_parent"@,
                "Element '"@ + e.external_id@ + "' has no parent."@,
                "Set parentExternalId to a valid "@ + required + " id."@,
            ),
        ],
        Some(pid) => match element_by_id(es, pid@) {
            None => seq![
                corr(
                    "c4.missing_parent"@,
                    "Element '"@ + e.external_id@ + "' references unknown parent '"@ + pid@
                        + "'."@,
                    "Create the parent element or correct parentExternalId."@,
                ),
            ],
            Some(parent) => if normalized_type_spec(parent.element_type@) != Some(required) {
                seq![
                    corr(
                        "c4.invalid_parent_type"@,
                        "Element '"@ + e.external_id@ + "' is a '"@ + e.element_type@
                            + "' but parent '"@ + parent.external_id@ + "' is '"@
                            + parent.element_type@ + "'."@,
                        "Move this element under a "@ + required + "."@,
                    ),
                ]
            } else {
                Seq::empty()
            },
        },
    }
}

/// Corrections for one element.
pub open spec fn element_corrections(
    es: Seq<DesignElementRecord>,
    e: DesignElementRecord,
) -> Seq<CorrectionView> {
    (if trim(e.external_id@).len() == 0 {
        seq![
            corr(
                "c4.empty_element_id"@,
                "A C4 element has an empty external id."@,
                "Assign every element a stable non-empty externalId."@,
            ),
        ]
    } else {
        Seq::empty()
    }) + (if trim(e.name@).len() == 0 {
        seq![
            corr(
                "c4.empty_element_name"@,
                "Element '"@ + e.external_id@ + "' has no name."@,
                "Provide a human-readable name for every C4 element."@,
            ),
        ]
    } else {
        Seq::empty()
    }) + match normalized_type_spec(e.element_type@) {
        Some(t) => if t == "Person"@ || t == "Software System"@ {
            if e.parent_external_id is Some {
                seq![
                    corr(
                        "c4.invalid_parent"@,
                        "Top-level element '"@ + e.external_id@ + "' must not have a parent."@,
                        "Move this element to the top level or change it to a valid contained C4 type."@,
                    ),
                ]
            } else {
                Seq::empty()
            }
        } else if t == "Container"@ {
            parent_corrections(es, e, "Software System"@)
        } else {
            parent_corrections(es, e, "Container"@)
        },
        None => seq![
            corr(
                "c4.invalid_element_type"@,
                "Element '"@ + e.external_id@ + "' has unsupported type '"@ + e.element_type@
                    + "'."@,
                "Use one of: Person, Software System, Container, Component."@,
            ),
        ],
    }
}

/// An internal software system: the system the design describes, as opposed to an external
/// one it talks to.
pub open spec fn is_internal_system(e: DesignElementRecord) -> bool {
    eq_ignore_ascii_case(e.element_type@, "Software System"@) && !has_tag_spec(
        e.tags@,
        "External"@,
    )
}

pub open spec fn internal_systems(es: Seq<DesignElementRecord>) -> nat
    decreases es.len(),
{
    if es.len() == 0 {
        0
    } else {
        internal_systems(es.drop_last()) + if is_internal_system(es.last()) {
            1nat
        } else {
            0nat
        }
    }
}

pub open spec fn root_corrections(es: Seq<DesignElementRecord>) -> Seq<CorrectionView> {
    if internal_systems(es) != 1 {
        seq![
            corr(
                "c4.system_root_count"@,
                "Expected exactly one internal Software System, found "@ + dec(
                    internal_systems(es),
                ) + "."@,
                "Resubmit the model with one internal top-level software system and mark other systems as External if needed."@,
            ),
        ]
    } else {
        Seq::empty()
    }
}

pub open spec fn elements_corrections(
    all: Seq<DesignElementRecord>,
    es: Seq<DesignElementRecord>,
) -> Seq<CorrectionView>
    decreases es.len(),
{
    if es.len() == 0 {
        Seq::empty()
    } else {
        elements_corrections(all, es.drop_last()) + element_corrections(all, es.last())
    }
}

/// Corrections for one relationship.
pub open spec fn relationship_corrections(
    es: Seq<DesignElementRecord>,
    r: DesignRelationshipRecord,
) -> Seq<CorrectionView> {
    (if trim(r.external_id@).len() == 0 {
        seq![
            corr(
                "c4.empty_relationship_id"@,
                "A C4 relationship has an empty external id."@,
                "Assign every relationship a stable non-empty externalId."@,
            ),
        ]
    } else {
        Seq::empty()
    }) + (if trim(r.description@).len() == 0 {
        seq![
            corr(
                "c4.empty_relationship_description"@,
                "Relationship '"@ + r.external_id@ + "' has no description."@,
                "Describe the relationship and resubmit the full changeset."@,
            ),
        ]
    } else {
        Seq::empty()
    }) + (if element_by_id(es, r.source_external_id@) is None {
        seq![
            corr(
                "c4.unresolved_relationship_source"@,
                "Relationship '"@ + r.external_id@ + "' references unknown source '"@
                    + r.source_external_id@ + "'."@,
                "Create the source element or correct sourceExternalId."@,
            ),
        ]
    } else {
        Seq::empty()
    }) + (if element_by_id(es, r.destination_external_id@) is None {
        seq![
            corr(
                "c4.unresolved_relationship_destination"@,
                "Relationship '"@ + r.external_id@ + "' references unknown destination '"@
                    + r.destination_external_id@ + "'."@,
                "Create the destination element or correct destinationExternalId."@,
            ),
        ]
    } else {
        Seq::empty()
    }) + (if r.source_external_id@ == r.destination_external_id@ {
        seq![
            corr(
                "c4.self_relationship"@,
                "Relationship '"@ + r.external_id@ + "' connects an element to itself."@,
                "Connect two different elements or remove the relationship."@,
            ),
        ]
    } else {
        Seq::empty()
    })
}

pub open spec fn relationships_corrections(
    es: Seq<DesignElementRecord>,
    rs: Seq<DesignRelationshipRecord>,
) -> Seq<CorrectionView>
    decreases rs.len(),
{
    if rs.len() == 0 {
        Seq::empty()
    } else {
        relationships_corrections(es, rs.drop_last()) + relationship_corrections(es, rs.last())
    }
}

/// Corrections for one diagram. The generated Structurizr projection is not a UML artifact
/// and is skipped.
pub open spec fn diagram_corrections(
    es: Seq<DesignElementRecord>,
    rs: Seq<DesignRelationshipRecord>,
    d: DesignDiagramRecord,
) -> Seq<CorrectionView> {
    if d.language@ == "structurizr"@ {
        Seq::empty()
    } else if !eq_ignore_ascii_case(d.language@, "mermaid"@) {
        seq![
            corr(
                "uml.unsupported_language"@,
                "Diagram '"@ + d.key@ + "' uses unsupported language '"@ + d.language@ + "'."@,
                "Use Mermaid UML for stored UML artifacts."@,
            ),
        ]
    } else {
        (match mermaid_error(d.source@) {
            Some(err) => seq![
                corr(
                    "uml.syntax_error"@,
                    "Diagram '"@ + d.key@ + "': "@ + err,
                    "Correct the Mermaid UML source and resubmit the full diagram."@,
                ),
            ],
            None => Seq::empty(),
        }) + match d.attached_to_external_id {
            Some(id) => if element_by_id(es, id@) is Some || has_relationship(rs, id@) {
                Seq::empty()
            } else {
                seq![
                    corr(
                        "uml.invalid_attachment"@,
                        "Diagram '"@ + d.key@ + "' is attached to unknown design id '"@ + id@
                            + "'."@,
                        "Attach the UML artifact to an existing C4 element or relationship id."@,
                    ),
                ]
            },
            None => seq![
                corr(
                    "uml.missing_attachment"@,
                    "Diagram '"@ + d.key@
                        + "' is not attached to a C4 element or relationship."@,
                    "Attach the UML artifact to the C4 element or relationship it specifies."@,
                ),
            ],
        }
    }
}

pub open spec fn diagrams_corrections(
    es: Seq<DesignElementRecord>,
    rs: Seq<DesignRelationshipRecord>,
    ds: Seq<DesignDiagramRecord>,
) -> Seq<CorrectionView>
    decreases ds.len(),
{
    if ds.len() == 0 {
        Seq::empty()
    } else {
        diagrams_corrections(es, rs, ds.drop_last()) + diagram_corrections(es, rs, ds.last())
    }
}

/// Corrections for one binding: a file or symbol target, bound to an existing element,
/// relationship, UML artifact or mockup.
pub open spec fn binding_corrections(
    es: Seq<DesignElementRecord>,
    rs: Seq<DesignRelationshipRecord>,
    ds: Seq<DesignDiagramRecord>,
    mockups: Seq<String>,
    b: DesignBindingRecord,
) -> Seq<CorrectionView> {
    (if b.target_type@ != "file"@ && b.target_type@ != "symbol"@ {
        seq![
            corr(
                "binding.invalid_target_type"@,
                "Binding '"@ + b.design_external_id@ + "' uses invalid target type '"@
                    + b.target_type@ + "'."@,
                "Use targetType 'file' or 'symbol'."@,
            ),
        ]
    } else {
        Seq::empty()
    }) + (if element_by_id(es, b.design_external_id@) is None && !has_relationship(
        rs,
        b.design_external_id@,
    ) && !has_diagram(ds, b.design_external_id@) && !has_text(mockups, b.design_external_id@) {
        seq![
            corr(
                "binding.unknown_design_id"@,
                "Binding points to unknown design id '"@ + b.design_external_id@ + "'."@,
                "Bind files or symbols only to existing element, relationship, or UML ids."@,
            ),
        ]
    } else {
        Seq::empty()
    })
}

pub open spec fn bindings_corrections(
    es: Seq<DesignElementRecord>,
    rs: Seq<DesignRelationshipRecord>,
    ds: Seq<DesignDiagramRecord>,
    mockups: Seq<String>,
    bs: Seq<DesignBindingRecord>,
) -> Seq<CorrectionView>
    decreases bs.len(),
{
    if bs.len() == 0 {
        Seq::empty()
    } else {
        bindings_corrections(es, rs, ds, mockups, bs.drop_last()) + binding_corrections(
            es,
            rs,
            ds,
            mockups,
            bs.last(),
        )
    }
}

/// Every correction a stored model needs, in the order they are found.
pub open spec fn model_corrections(
    es: Seq<DesignElementRecord>,
    rs: Seq<DesignRelationshipRecord>,
    ds: Seq<DesignDiagramRecord>,
    bs: Seq<DesignBindingRecord>,
    mockups: Seq<String>,
) -> Seq<CorrectionView> {
    root_corrections(es) + elements_corrections(es, es) + relationships_corrections(es, rs)
        + diagrams_corrections(es, rs, ds) + bindings_corrections(es, rs, ds, mockups, bs)
}

// ---------------------------------------------------------------- checking a model

/// Checks that a contained element has an existing parent of the required type.
pub fn validate_parent_type(
    errors: &mut Vec<DesignCorrection>,
    elements: &[DesignElementRecord],
    element: &DesignElementRecord,
    required_type: &str,
)
    ensures
        correction_views(final(errors)@) == correction_views(old(errors)@) + parent_corrections(
            elements@,
            *element,
            required_type@,
        ),
{
    let ghost start = correction_views(errors@);
    match &element.parent_external_id {
        None => {
            push_correction(
                errors,
                "c4.missing_parent",
                join3("Element '", element.external_id.as_str(), "' has no parent."),
                join3("Set parentExternalId to a valid ", required_type, " id."),
            );
        },
        Some(pid) => match find_element(elements, pid.as_str()) {
            None => {
                push_correction(
                    errors,
                    "c4.missing_parent",
                    join5(
                        "Element '",
                        element.external_id.as_str(),
                        "' references unknown parent '",
                        pid.as_str(),
                        "'.",
                    ),
                    owned("Create the parent element or correct parentExternalId."),
                );
            },
            Some(parent) => {
                let fits = match normalized_element_type(parent.element_type.as_str()) {
                    Some(t) => str_eq(t.as_str(), required_type),
                    None => false,
                };
                if !fits {
                    let mut m = join5(
                        "Element '",
                        element.external_id.as_str(),
                        "' is a '",
                        element.element_type.as_str(),
                        "' but parent '",
                    );
                    push_str_chars(&mut m, parent.external_id.as_str());
                    push_str_chars(&mut m, "' is '");
                    push_str_chars(&mut m, parent.element_type.as_str());
                    push_str_chars(&mut m, "'.");
                    push_correction(
                        errors,
                        "c4.invalid_parent_type",
                        m,
                        join3("Move this element under a ", required_type, "."),
                    );
                }
            },
        },
    }
    assert(correction_views(errors@) =~= start + parent_corrections(
        elements@,
        *element,
        required_type@,
    ));
}

fn check_element(errors: &mut Vec<DesignCorrection>, elements: &[DesignElementRecord], element: &DesignElementRecord)
    ensures
        correction_views(final(errors)@) == correction_views(old(errors)@) + element_corrections(
            elements@,
            *element,
        ),
{
    let ghost start = correction_views(errors@);
    let id = chars_of(element.external_id.as_str());
    if trim_chars(id.as_slice()).len() == 0 {
        push_correction(
            errors,
            "c4.empty_element_id",
            owned("A C4 element has an empty external id."),
            owned("Assign every element a stable non-empty externalId."),
        );
    }
    let ghost s1 = correction_views(errors@);
    let name = chars_of(element.name.as_str());
    if trim_chars(name.as_slice()).len() == 0 {
        push_correction(
            errors,
            "c4.empty_element_name",
            join3("Element '", element.external_id.as_str(), "' has no name."),
            owned("Provide a human-readable name for every C4 element."),
        );
    }
    let ghost s2 = correction_views(errors@);
    match normalized_element_type(element.element_type.as_str()) {
        Some(t) => {
            let tv = chars_of(t.as_str());
            if eq_lit(tv.as_slice(), "Person") || eq_lit(tv.as_slice(), "Software System") {
                if element.parent_external_id.is_some() {
                    push_correction(
                        errors,
                        "c4.invalid_parent",
                        join3(
                            "Top-level element '",
                            element.external_id.as_str(),
                            "' must not have a parent.",
                        ),
                        owned(
                            "Move this element to the top level or change it to a valid contained C4 type.",
                        ),
                    );
                }
            } else if eq_lit(tv.as_slice(), "Container") {
                validate_parent_type(errors, elements, element, "Software System");
            } else {
                proof {
                    reveal_strlit("Component");
                    reveal_strlit("Container");
                    reveal_strlit("Person");
                    reveal_strlit("Software System");
                }
                validate_parent_type(errors, elements, element, "Container");
            }
        },
        None => {
            let m = join5(
                "Element '",
                element.external_id.as_str(),
                "' has unsupported type '",
                element.element_type.as_str(),
                "'.",
            );
            push_correction(
                errors,
                "c4.invalid_element_type",
                m,
                owned("Use one of: Person, Software System, Container, Component."),
            );
        },
    }
    assert(correction_views(errors@) =~= start + element_corrections(elements@, *element));
}

fn check_relationship(
    errors: &mut Vec<DesignCorrection>,
    elements: &[DesignElementRecord],
    r: &DesignRelationshipRecord,
)
    ensures
        correction_views(final(errors)@) == correction_views(old(errors)@)
            + relationship_corrections(elements@, *r),
{
    let ghost start = correction_views(errors@);
    let id = chars_of(r.external_id.as_str());
    if trim_chars(id.as_slice()).len() == 0 {
        push_correction(
            errors,
            "c4.empty_relationship_id",
            owned("A C4 relationship has an empty external id."),
            owned("Assign every relationship a stable non-empty externalId."),
        );
    }
    let d = chars_of(r.description.as_str());
    if trim_chars(d.as_slice()).len() == 0 {
        push_correction(
            errors,
            "c4.empty_relationship_description",
            join3("Relationship '", r.external_id.as_str(), "' has no description."),
            owned("Describe the relationship and resubmit the full changeset."),
        );
    }
    if find_element(elements, r.source_external_id.as_str()).is_none() {
        push_correction(
            errors,
            "c4.unresolved_relationship_source",
            join5(
                "Relationship '",
                r.external_id.as_str(),
                "' references unknown source '",
                r.source_external_id.as_str(),
                "'.",
            ),
            owned("Create the source element or correct sourceExternalId."),
        );
    }
    if find_element(elements, r.destination_external_id.as_str()).is_none() {
        push_correction(
            errors,
            "c4.unresolved_relationship_destination",
            join5(
                "Relationship '",
                r.external_id.as_str(),
                "' references unknown destination '",
                r.destination_external_id.as_str(),
                "'.",
            ),
            owned("Create the destination element or correct destinationExternalId."),
        );
    }
    if str_eq(r.source_external_id.as_str(), r.destination_external_id.as_str()) {
        push_correction(
            errors,
            "c4.self_relationship",
            join3("Relationship '", r.external_id.as_str(), "' connects an element to itself."),
            owned("Connect two different elements or remove the relationship."),
        );
    }
    assert(correction_views(errors@) =~= start + relationship_corrections(elements@, *r));
}

fn check_diagram(
    errors: &mut Vec<DesignCorrection>,
    elements: &[DesignElementRecord],
    relationships: &[DesignRelationshipRecord],
    d: &DesignDiagramRecord,
)
    ensures
        correction_views(final(errors)@) == correction_views(old(errors)@) + diagram_corrections(
            elements@,
            relationships@,
            *d,
        ),
{
    let ghost start = correction_views(errors@);
    let lang = chars_of(d.language.as_str());
    if eq_lit(lang.as_slice(), "structurizr") {
        assert(correction_views(errors@) =~= start + diagram_corrections(elements@, relationships@, *d));
        return;
    }
    let mermaid = chars_of("mermaid");
    if !chars_eq_ignore_ascii_case(lang.as_slice(), mermaid.as_slice()) {
        push_correction(
            errors,
            "uml.unsupported_language",
            join5("Diagram '", d.key.as_str(), "' uses unsupported language '", d.language.as_str(), "'."),
            owned("Use Mermaid UML for stored UML artifacts."),
        );
        assert(correction_views(errors@) =~= start + diagram_corrections(elements@, relationships@, *d));
        return;
    }
    if let Some(err) = validate_mermaid(d.source.as_str()) {
        let mut m = join3("Diagram '", d.key.as_str(), "': ");
        push_str_chars(&mut m, err.as_str());
        push_correction(
            errors,
            "uml.syntax_error",
            m,
            owned("Correct the Mermaid UML source and resubmit the full diagram."),
        );
    }
    let ghost s1 = correction_views(errors@);
    match &d.attached_to_external_id {
        Some(id) => {
            if find_element(elements, id.as_str()).is_none() && !find_relationship(
                relationships,
                id.as_str(),
            ) {
                push_correction(
                    errors,
                    "uml.invalid_attachment",
                    join5(
                        "Diagram '",
                        d.key.as_str(),
                        "' is attached to unknown design id '",
                        id.as_str(),
                        "'.",
                    ),
                    owned("Attach the UML artifact to an existing C4 element or relationship id."),
                );
            }
        },
        None => {
            push_correction(
                errors,
                "uml.missing_attachment",
                join3(
                    "Diagram '",
                    d.key.as_str(),
                    "' is not attached to a C4 element or relationship.",
                ),
                owned("Attach the UML artifact to the C4 element or relationship it specifies."),
            );
        },
    }
    assert(correction_views(errors@) =~= start + diagram_corrections(elements@, relationships@, *d));
}

fn check_binding(
    errors: &mut Vec<DesignCorrection>,
    elements: &[DesignElementRecord],
    relationships: &[DesignRelationshipRecord],
    diagrams: &[DesignDiagramRecord],
    mockup_ids: &[String],
    b: &DesignBindingRecord,
)
    ensures
        correction_views(final(errors)@) == correction_views(old(errors)@) + binding_corrections(
            elements@,
            relationships@,
            diagrams@,
            mockup_ids@,
            *b,
        ),
{
    let ghost start = correction_views(errors@);
    let tt = chars_of(b.target_type.as_str());
    if !eq_lit(tt.as_slice(), "file") && !eq_lit(tt.as_slice(), "symbol") {
        push_correction(
            errors,
            "binding.invalid_target_type",
            join5(
                "Binding '",
                b.design_external_id.as_str(),
                "' uses invalid target type '",
                b.target_type.as_str(),
                "'.",
            ),
            owned("Use targetType 'file' or 'symbol'."),
        );
    }
    let id = b.design_external_id.as_str();
    if find_element(elements, id).is_none() && !find_relationship(relationships, id) && !find_diagram(
        diagrams,
        id,
    ) && !find_text(mockup_ids, id) {
        push_correction(
            errors,
            "binding.unknown_design_id",
            join3("Binding points to unknown design id '", id, "'."),
            owned("Bind files or symbols only to existing element, relationship, or UML ids."),
        );
    }
    assert(correction_views(errors@) =~= start + binding_corrections(
        elements@,
        relationships@,
        diagrams@,
        mockup_ids@,
        *b,
    ));
}

fn count_internal_systems(elements: &[DesignElementRecord]) -> (n: usize)
    ensures
        n == internal_systems(elements@),
{
    let want = chars_of("Software System");
    let mut n: usize = 0;
    let mut i: usize = 0;
    while i < elements.len()
        invariant
            i <= elements@.len(),
            want@ == "Software System"@,
            n == internal_systems(elements@.take(i as int)),
            n <= i,
        decreases elements.len() - i,
    {
        proof {
            assert(elements@.take(i + 1).drop_last() =~= elements@.take(i as int));
            assert(elements@.take(i + 1).last() == elements@[i as int]);
        }
        let t = chars_of(elements[i].element_type.as_str());
        if chars_eq_ignore_ascii_case(t.as_slice(), want.as_slice()) && !has_tag(
            elements[i].tags.as_str(),
            "External",
        ) {
            n += 1;
        }
        i += 1;
    }
    assert(elements@.take(elements@.len() as int) =~= elements@);
    n
}

/// Every correction a stored model needs: the root system count, then each element,
/// relationship, UML artifact and binding in stored order.
pub fn validate_model(
    elements: &[DesignElementRecord],
    relationships: &[DesignRelationshipRecord],
    diagrams: &[DesignDiagramRecord],
    bindings: &[DesignBindingRecord],
    mockup_ids: &[String],
) -> (r: Vec<DesignCorrection>)
    ensures
        correction_views(r@) == model_corrections(
            elements@,
            relationships@,
            diagrams@,
            bindings@,
            mockup_ids@,
        ),
{
    let mut errors: Vec<DesignCorrection> = Vec::new();
    let systems = count_internal_systems(elements);
    if systems != 1 {
        let mut m = owned("Expected exactly one internal Software System, found ");
        push_dec(&mut m, systems);
        push_str_chars(&mut m, ".");
        push_correction(
            &mut errors,
            "c4.system_root_count",
            m,
            owned(
                "Resubmit the model with one internal top-level software system and mark other systems as External if needed.",
            ),
        );
    }
    assert(correction_views(errors@) =~= root_corrections(elements@));
    let ghost s0 = correction_views(errors@);
    let mut i: usize = 0;
    assert(s0 + elements_corrections(elements@, elements@.take(0)) =~= s0);
    while i < elements.len()
        invariant
            i <= elements@.len(),
            correction_views(errors@) == s0 + elements_corrections(elements@, elements@.take(i as int)),
        decreases elements.len() - i,
    {
        proof {
            assert(elements@.take(i + 1).drop_last() =~= elements@.take(i as int));
            assert(elements@.take(i + 1).last() == elements@[i as int]);
        }
        check_element(&mut errors, elements, &elements[i]);
        assert(correction_views(errors@) =~= s0 + elements_corrections(elements@, elements@.take(i + 1)));
        i += 1;
    }
    assert(elements@.take(elements@.len() as int) =~= elements@);
    let ghost s1 = correction_views(errors@);
    let mut i: usize = 0;
    assert(s1 + relationships_corrections(elements@, relationships@.take(0)) =~= s1);
    while i < relationships.len()
        invariant
            i <= relationships@.len(),
            correction_views(errors@) == s1 + relationships_corrections(
                elements@,
                relationships@.take(i as int),
            ),
        decreases relationships.len() - i,
    {
        proof {
            assert(relationships@.take(i + 1).drop_last() =~= relationships@.take(i as int));
            assert(relationships@.take(i + 1).last() == relationships@[i as int]);
        }
        check_relationship(&mut errors, elements, &relationships[i]);
        assert(correction_views(errors@) =~= s1 + relationships_corrections(
            elements@,
            relationships@.take(i + 1),
        ));
        i += 1;
    }
    assert(relationships@.take(relationships@.len() as int) =~= relationships@);
    let ghost s2 = correction_views(errors@);
    let mut i: usize = 0;
    assert(s2 + diagrams_corrections(elements@, relationships@, diagrams@.take(0)) =~= s2);
    while i < diagrams.len()
        invariant
            i <= diagrams@.len(),
            correction_views(errors@) == s2 + diagrams_corrections(
                elements@,
                relationships@,
                diagrams@.take(i as int),
            ),
        decreases diagrams.len() - i,
    {
        proof {
            assert(diagrams@.take(i + 1).drop_last() =~= diagrams@.take(i as int));
            assert(diagrams@.take(i + 1).last() == diagrams@[i as int]);
        }
        check_diagram(&mut errors, elements, relationships, &diagrams[i]);
        assert(correction_views(errors@) =~= s2 + diagrams_corrections(
            elements@,
            relationships@,
            diagrams@.take(i + 1),
        ));
        i += 1;
    }
    assert(diagrams@.take(diagrams@.len() as int) =~= diagrams@);
    let ghost s3 = correction_views(errors@);
    let mut i: usize = 0;
    assert(s3 + bindings_corrections(elements@, relationships@, diagrams@, mockup_ids@, bindings@.take(0)) =~= s3);
    while i < bindings.len()
        invariant
            i <= bindings@.len(),
            correction_views(errors@) == s3 + bindings_corrections(
                elements@,
                relationships@,
                diagrams@,
                mockup_ids@,
                bindings@.take(i as int),
            ),
        decreases bindings.len() - i,
    {
        proof {
            assert(bindings@.take(i + 1).drop_last() =~= bindings@.take(i as int));
            assert(bindings@.take(i + 1).last() == bindings@[i as int]);
        }
        check_binding(&mut errors, elements, relationships, diagrams, mockup_ids, &bindings[i]);
        assert(correction_views(errors@) =~= s3 + bindings_corrections(
            elements@,
            relationships@,
            diagrams@,
            mockup_ids@,
            bindings@.take(i + 1),
        ));
        i += 1;
    }
    assert(bindings@.take(bindings@.len() as int) =~= bindings@);
    assert(correction_views(errors@) =~= model_corrections(
        elements@,
        relationships@,
        diagrams@,
        bindings@,
        mockup_ids@,
    ));
    errors
}

} // verus!
