//! The decisions of a design save: the prechecks that refuse a save before anything is
//! written, the plan each change turns into, and the outcome reported back.
//!
//! A save either stores the whole changeset or nothing: every refusal carries the revision the
//! caller must resubmit against and corrections ordered by code.
use vstd::prelude::*;

use crate::design::{
    DesignBindingRecord, DesignChange, DesignCorrection, DesignDiagramRecord, DesignElementRecord,
    DesignRelationshipRecord, DesignSaveResult, MockupManifest,
};
use crate::scope::{lookup, lookup_exec, unknown_deletion_message};
use crate::model::{
    corr, correction, correction_view, correction_views, find_relationship, has_relationship,
    CorrectionView,
};
use crate::text::{
    chars_of, eq_lit, lemma_seq_order_antisym, lemma_seq_order_eq, lemma_seq_order_trans, owned,
    order_str, push_str_chars, seq_order, signed_dec, signed_decimal, push_chars, string_of,
    str_eq, trim, trim_chars,
};

verus! {

broadcast use vstd::string::group_string_axioms;

// ---------------------------------------------------------------- fields of a change

pub open spec fn opt_text(o: Option<String>) -> Seq<char> {
    match o {
        Some(s) => s@,
        None => Seq::empty(),
    }
}

pub open spec fn missing_field_message(field: Seq<char>) -> Seq<char> {
    "Design save field '"@ + field + "' is required"@
}

/// A required field: present and not blank, trimmed.
pub open spec fn required_spec(o: Option<String>, field: Seq<char>) -> Result<Seq<char>, Seq<char>> {
    let t = trim(opt_text(o));
    if t.len() == 0 {
        Err(missing_field_message(field))
    } else {
        Ok(t)
    }
}

/// An optional field: trimmed, and absent when blank.
pub open spec fn optional_trim_spec(o: Option<String>) -> Option<Seq<char>> {
    let t = trim(opt_text(o));
    if t.len() == 0 {
        None
    } else {
        Some(t)
    }
}

fn text_of(o: &Option<String>) -> (r: Vec<char>)
    ensures
        r@ == opt_text(*o),
{
    match o {
        Some(s) => chars_of(s.as_str()),
        None => Vec::new(),
    }
}

/// A required field of a change, trimmed.
pub fn required(value: &Option<String>, field: &str) -> (r: Result<String, String>)
    ensures
        match r {
            Ok(v) => required_spec(*value, field@) == Ok::<Seq<char>, Seq<char>>(v@),
            Err(m) => required_spec(*value, field@) == Err::<Seq<char>, Seq<char>>(m@),
        },
{
    let v = text_of(value);
    let t = trim_chars(v.as_slice());
    if t.len() == 0 {
        let mut m = owned("Design save field '");
        push_str_chars(&mut m, field);
        push_str_chars(&mut m, "' is required");
        Err(m)
    } else {
        Ok(string_of(t.as_slice()))
    }
}

/// An optional field of a change, trimmed; blank is absent.
pub fn optional_trim(value: &Option<String>) -> (r: Option<String>)
    ensures
        match r {
            Some(v) => optional_trim_spec(*value) == Some(v@),
            None => optional_trim_spec(*value) is None,
        },
{
    let v = text_of(value);
    let t = trim_chars(v.as_slice());
    if t.len() == 0 {
        None
    } else {
        Some(string_of(t.as_slice()))
    }
}

/// An optional free-text field, trimmed; blank when absent.
fn trimmed_text(value: &Option<String>) -> (r: String)
    ensures
        r@ == trim(opt_text(*value)),
{
    let v = text_of(value);
    let t = trim_chars(v.as_slice());
    string_of(t.as_slice())
}

/// An optional field, unchanged; blank when absent.
fn plain_text(value: &Option<String>) -> (r: String)
    ensures
        r@ == opt_text(*value),
{
    let v = text_of(value);
    string_of(v.as_slice())
}

// ---------------------------------------------------------------- plans

/// What one change asks the store to do, with every value already checked and trimmed.
#[derive(Debug)]
pub enum ChangePlan {
    UpsertElement {
        external_id: String,
        parent_external_id: Option<String>,
        element_type: String,
        name: String,
        description: String,
        technology: String,
        tags: String,
    },
    UpsertRelationship {
        external_id: String,
        source_external_id: String,
        destination_external_id: String,
        description: String,
        technology: String,
        tags: String,
    },
    UpsertUml {
        key: String,
        title: String,
        language: String,
        source: String,
        diagram_type: String,
        attached_to_external_id: Option<String>,
    },
    UpsertBinding { design_external_id: String, target_type: String, target: String },
    UpsertMockup {
        external_id: String,
        title: String,
        attached_to_external_id: String,
        viewport_width: i64,
        viewport_height: i64,
        screen: String,
        state: String,
        fidelity: String,
        schema_version: Option<i64>,
        accepted_svg: String,
    },
    ProposeMockup {
        external_id: String,
        base_revision: i64,
        proposed_svg: String,
        proposed_manifest: MockupManifest,
    },
    DeleteElement { external_id: String },
    DeleteRelationship { external_id: String },
    DeleteUml { key: String },
    DeleteBinding { design_external_id: String, target_type: String, target: String },
    DeleteMockup { external_id: String },
}

/// The character content of a mockup manifest.
pub struct ManifestView {
    pub schema_version: i64,
    pub key: Seq<char>,
    pub attached_to_external_id: Seq<char>,
    pub viewport_width: i64,
    pub viewport_height: i64,
    pub screen: Seq<char>,
    pub state: Seq<char>,
    pub fidelity: Seq<char>,
}

pub open spec fn manifest_view(m: MockupManifest) -> ManifestView {
    ManifestView {
        schema_version: m.schema_version,
        key: m.key@,
        attached_to_external_id: m.attached_to_external_id@,
        viewport_width: m.viewport_width,
        viewport_height: m.viewport_height,
        screen: m.screen@,
        state: m.state@,
        fidelity: m.fidelity@,
    }
}

/// A copy of a manifest.
pub fn clone_manifest(m: &MockupManifest) -> (r: MockupManifest)
    ensures
        manifest_view(r) == manifest_view(*m),
{
    MockupManifest {
        schema_version: m.schema_version,
        key: m.key.clone(),
        attached_to_external_id: m.attached_to_external_id.clone(),
        viewport_width: m.viewport_width,
        viewport_height: m.viewport_height,
        screen: m.screen.clone(),
        state: m.state.clone(),
        fidelity: m.fidelity.clone(),
    }
}

/// The character content of a plan.
pub enum PlanView {
    UpsertElement {
        external_id: Seq<char>,
        parent_external_id: Option<Seq<char>>,
        element_type: Seq<char>,
        name: Seq<char>,
        description: Seq<char>,
        technology: Seq<char>,
        tags: Seq<char>,
    },
    UpsertRelationship {
        external_id: Seq<char>,
        source_external_id: Seq<char>,
        destination_external_id: Seq<char>,
        description: Seq<char>,
        technology: Seq<char>,
        tags: Seq<char>,
    },
    UpsertUml {
        key: Seq<char>,
        title: Seq<char>,
        language: Seq<char>,
        source: Seq<char>,
        diagram_type: Seq<char>,
        attached_to_external_id: Option<Seq<char>>,
    },
    UpsertBinding { design_external_id: Seq<char>, target_type: Seq<char>, target: Seq<char> },
    UpsertMockup {
        external_id: Seq<char>,
        title: Seq<char>,
        attached_to_external_id: Seq<char>,
        viewport_width: i64,
        viewport_height: i64,
        screen: Seq<char>,
        state: Seq<char>,
        fidelity: Seq<char>,
        schema_version: Option<i64>,
        accepted_svg: Seq<char>,
    },
    ProposeMockup {
        external_id: Seq<char>,
        base_revision: i64,
        proposed_svg: Seq<char>,
        proposed_manifest: ManifestView,
    },
    DeleteElement { external_id: Seq<char> },
    DeleteRelationship { external_id: Seq<char> },
    DeleteUml { key: Seq<char> },
    DeleteBinding { design_external_id: Seq<char>, target_type: Seq<char>, target: Seq<char> },
    DeleteMockup { external_id: Seq<char> },
}

pub open spec fn opt_view(o: Option<String>) -> Option<Seq<char>> {
    match o {
        Some(s) => Some(s@),
        None => None,
    }
}

pub open spec fn plan_view(p: ChangePlan) -> PlanView {
    match p {
        ChangePlan::UpsertElement {
            external_id,
            parent_external_id,
            element_type,
            name,
            description,
            technology,
            tags,
        } => PlanView::UpsertElement {
            external_id: external_id@,
            parent_external_id: opt_view(parent_external_id),
            element_type: element_type@,
            name: name@,
            description: description@,
            technology: technology@,
            tags: tags@,
        },
        ChangePlan::UpsertRelationship {
            external_id,
            source_external_id,
            destination_external_id,
            description,
            technology,
            tags,
        } => PlanView::UpsertRelationship {
            external_id: external_id@,
            source_external_id: source_external_id@,
            destination_external_id: destination_external_id@,
            description: description@,
            technology: technology@,
            tags: tags@,
        },
        ChangePlan::UpsertUml { key, title, language, source, diagram_type, attached_to_external_id } =>
            PlanView::UpsertUml {
            key: key@,
            title: title@,
            language: language@,
            source: source@,
            diagram_type: diagram_type@,
            attached_to_external_id: opt_view(attached_to_external_id),
        },
        ChangePlan::UpsertBinding { design_external_id, target_type, target } =>
            PlanView::UpsertBinding {
            design_external_id: design_external_id@,
            target_type: target_type@,
            target: target@,
        },
        ChangePlan::UpsertMockup {
            external_id,
            title,
            attached_to_external_id,
            viewport_width,
            viewport_height,
            screen,
            state,
            fidelity,
            schema_version,
            accepted_svg,
        } => PlanView::UpsertMockup {
            external_id: external_id@,
            title: title@,
            attached_to_external_id: attached_to_external_id@,
            viewport_width,
            viewport_height,
            screen: screen@,
            state: state@,
            fidelity: fidelity@,
            schema_version,
            accepted_svg: accepted_svg@,
        },
        ChangePlan::ProposeMockup { external_id, base_revision, proposed_svg, proposed_manifest } =>
            PlanView::ProposeMockup {
            external_id: external_id@,
            base_revision,
            proposed_svg: proposed_svg@,
            proposed_manifest: manifest_view(proposed_manifest),
        },
        ChangePlan::DeleteElement { external_id } => PlanView::DeleteElement {
            external_id: external_id@,
        },
        ChangePlan::DeleteRelationship { external_id } => PlanView::DeleteRelationship {
            external_id: external_id@,
        },
        ChangePlan::DeleteUml { key } => PlanView::DeleteUml { key: key@ },
        ChangePlan::DeleteBinding { design_external_id, target_type, target } =>
            PlanView::DeleteBinding {
            design_external_id: design_external_id@,
            target_type: target_type@,
            target: target@,
        },
        ChangePlan::DeleteMockup { external_id } => PlanView::DeleteMockup {
            external_id: external_id@,
        },
    }
}

pub open spec fn plan_upsert_element(c: DesignChange) -> Result<PlanView, Seq<char>> {
    match required_spec(c.external_id, "externalId"@) {
        Err(m) => Err(m),
        Ok(id) => match required_spec(c.element_type, "elementType"@) {
            Err(m) => Err(m),
            Ok(t) => match required_spec(c.name, "name"@) {
                Err(m) => Err(m),
                Ok(n) => Ok(
                    PlanView::UpsertElement {
                        external_id: id,
                        parent_external_id: optional_trim_spec(c.parent_external_id),
                        element_type: t,
                        name: n,
                        description: trim(opt_text(c.description)),
                        technology: trim(opt_text(c.technology)),
                        tags: trim(opt_text(c.tags)),
                    },
                ),
            },
        },
    }
}

pub open spec fn plan_upsert_relationship(c: DesignChange) -> Result<PlanView, Seq<char>> {
    match required_spec(c.external_id, "externalId"@) {
        Err(m) => Err(m),
        Ok(id) => match required_spec(c.source_external_id, "sourceExternalId"@) {
            Err(m) => Err(m),
            Ok(s) => match required_spec(c.destination_external_id, "destinationExternalId"@) {
                Err(m) => Err(m),
                Ok(d) => match required_spec(c.description, "description"@) {
                    Err(m) => Err(m),
                    Ok(desc) => Ok(
                        PlanView::UpsertRelationship {
                            external_id: id,
                            source_external_id: s,
                            destination_external_id: d,
                            description: desc,
                            technology: trim(opt_text(c.technology)),
                            tags: trim(opt_text(c.tags)),
                        },
                    ),
                },
            },
        },
    }
}

pub open spec fn plan_upsert_uml(c: DesignChange) -> Result<PlanView, Seq<char>> {
    match required_spec(c.key, "key"@) {
        Err(m) => Err(m),
        Ok(k) => match required_spec(c.title, "title"@) {
            Err(m) => Err(m),
            Ok(t) => match required_spec(c.language, "language"@) {
                Err(m) => Err(m),
                Ok(l) => match required_spec(c.source, "source"@) {
                    Err(m) => Err(m),
                    Ok(s) => Ok(
                        PlanView::UpsertUml {
                            key: k,
                            title: t,
                            language: l,
                            source: s,
                            diagram_type: trim(opt_text(c.diagram_type)),
                            attached_to_external_id: optional_trim_spec(c.attached_to_external_id),
                        },
                    ),
                },
            },
        },
    }
}

pub open spec fn plan_binding_fields(c: DesignChange) -> Result<(Seq<char>, Seq<char>, Seq<char>), Seq<char>> {
    match required_spec(c.design_external_id, "designExternalId"@) {
        Err(m) => Err(m),
        Ok(d) => match required_spec(c.target_type, "targetType"@) {
            Err(m) => Err(m),
            Ok(tt) => match required_spec(c.target, "target"@) {
                Err(m) => Err(m),
                Ok(t) => Ok((d, tt, t)),
            },
        },
    }
}

pub open spec fn plan_upsert_mockup(c: DesignChange) -> Result<PlanView, Seq<char>> {
    match required_spec(c.external_id, "externalId"@) {
        Err(m) => Err(m),
        Ok(id) => match required_spec(c.title, "title"@) {
            Err(m) => Err(m),
            Ok(t) => match required_spec(c.attached_to_external_id, "attachedToExternalId"@) {
                Err(m) => Err(m),
                Ok(a) => match c.viewport_width {
                    None => Err(missing_field_message("viewportWidth"@)),
                    Some(w) => match c.viewport_height {
                        None => Err(missing_field_message("viewportHeight"@)),
                        Some(h) => match required_spec(c.accepted_svg, "acceptedSvg"@) {
                            Err(m) => Err(m),
                            Ok(svg) => Ok(
                                PlanView::UpsertMockup {
                                    external_id: id,
                                    title: t,
                                    attached_to_external_id: a,
                                    viewport_width: w,
                                    viewport_height: h,
                                    screen: opt_text(c.screen),
                                    state: opt_text(c.mockup_state),
                                    fidelity: opt_text(c.fidelity),
                                    schema_version: c.schema_version,
                                    accepted_svg: svg,
                                },
                            ),
                        },
                    },
                },
            },
        },
    }
}

pub open spec fn plan_propose_mockup(c: DesignChange) -> Result<PlanView, Seq<char>> {
    match required_spec(c.external_id, "externalId"@) {
        Err(m) => Err(m),
        Ok(id) => match c.base_revision {
            None => Err(missing_field_message("baseRevision"@)),
            Some(b) => match required_spec(c.proposed_svg, "proposedSvg"@) {
                Err(m) => Err(m),
                Ok(svg) => match c.proposed_manifest {
                    None => Err(missing_field_message("proposedManifest"@)),
                    Some(mf) => Ok(
                        PlanView::ProposeMockup {
                            external_id: id,
                            base_revision: b,
                            proposed_svg: svg,
                            proposed_manifest: manifest_view(mf),
                        },
                    ),
                },
            },
        },
    }
}

/// What a change asks the store to do, or why it cannot: the first missing required field in
/// the op's field order, or an unknown op.
pub open spec fn plan_spec(c: DesignChange) -> Result<PlanView, Seq<char>> {
    let op = c.op@;
    if op == "upsert_element"@ {
        plan_upsert_element(c)
    } else if op == "upsert_relationship"@ {
        plan_upsert_relationship(c)
    } else if op == "upsert_uml"@ {
        plan_upsert_uml(c)
    } else if op == "upsert_binding"@ {
        match plan_binding_fields(c) {
            Err(m) => Err(m),
            Ok((d, tt, t)) => Ok(PlanView::UpsertBinding { design_external_id: d, target_type: tt, target: t }),
        }
    } else if op == "upsert_mockup"@ {
        plan_upsert_mockup(c)
    } else if op == "upsert_mockup_proposal"@ {
        plan_propose_mockup(c)
    } else if op == "delete_element"@ {
        match required_spec(c.external_id, "externalId"@) {
            Err(m) => Err(m),
            Ok(id) => Ok(PlanView::DeleteElement { external_id: id }),
        }
    } else if op == "delete_relationship"@ {
        match required_spec(c.external_id, "externalId"@) {
            Err(m) => Err(m),
            Ok(id) => Ok(PlanView::DeleteRelationship { external_id: id }),
        }
    } else if op == "delete_uml"@ {
        match required_spec(c.key, "key"@) {
            Err(m) => Err(m),
            Ok(k) => Ok(PlanView::DeleteUml { key: k }),
        }
    } else if op == "delete_binding"@ {
        match plan_binding_fields(c) {
            Err(m) => Err(m),
            Ok((d, tt, t)) => Ok(PlanView::DeleteBinding { design_external_id: d, target_type: tt, target: t }),
        }
    } else if op == "delete_mockup"@ {
        match required_spec(c.external_id, "externalId"@) {
            Err(m) => Err(m),
            Ok(id) => Ok(PlanView::DeleteMockup { external_id: id }),
        }
    } else {
        Err("Unknown design save op: "@ + op)
    }
}

pub open spec fn plan_result_view(r: Result<ChangePlan, String>) -> Result<PlanView, Seq<char>> {
    match r {
        Ok(p) => Ok(plan_view(p)),
        Err(m) => Err(m@),
    }
}

fn missing(field: &str) -> (m: String)
    ensures
        m@ == missing_field_message(field@),
{
    let mut m = owned("Design save field '");
    push_str_chars(&mut m, field);
    push_str_chars(&mut m, "' is required");
    m
}

fn plan_element(c: &DesignChange) -> (r: Result<ChangePlan, String>)
    ensures
        plan_result_view(r) == plan_upsert_element(*c),
{
    let id = match required(&c.external_id, "externalId") {
        Ok(v) => v,
        Err(m) => return Err(m),
    };
    let t = match required(&c.element_type, "elementType") {
        Ok(v) => v,
        Err(m) => return Err(m),
    };
    let n = match required(&c.name, "name") {
        Ok(v) => v,
        Err(m) => return Err(m),
    };
    Ok(
        ChangePlan::UpsertElement {
            external_id: id,
            parent_external_id: optional_trim(&c.parent_external_id),
            element_type: t,
            name: n,
            description: trimmed_text(&c.description),
            technology: trimmed_text(&c.technology),
            tags: trimmed_text(&c.tags),
        },
    )
}

fn plan_relationship(c: &DesignChange) -> (r: Result<ChangePlan, String>)
    ensures
        plan_result_view(r) == plan_upsert_relationship(*c),
{
    let id = match required(&c.external_id, "externalId") {
        Ok(v) => v,
        Err(m) => return Err(m),
    };
    let s = match required(&c.source_external_id, "sourceExternalId") {
        Ok(v) => v,
        Err(m) => return Err(m),
    };
    let d = match required(&c.destination_external_id, "destinationExternalId") {
        Ok(v) => v,
        Err(m) => return Err(m),
    };
    let desc = match required(&c.description, "description") {
        Ok(v) => v,
        Err(m) => return Err(m),
    };
    Ok(
        ChangePlan::UpsertRelationship {
            external_id: id,
            source_external_id: s,
            destination_external_id: d,
            description: desc,
            technology: trimmed_text(&c.technology),
            tags: trimmed_text(&c.tags),
        },
    )
}

fn plan_uml(c: &DesignChange) -> (r: Result<ChangePlan, String>)
    ensures
        plan_result_view(r) == plan_upsert_uml(*c),
{
    let k = match required(&c.key, "key") {
        Ok(v) => v,
        Err(m) => return Err(m),
    };
    let t = match required(&c.title, "title") {
        Ok(v) => v,
        Err(m) => return Err(m),
    };
    let l = match required(&c.language, "language") {
        Ok(v) => v,
        Err(m) => return Err(m),
    };
    let s = match required(&c.source, "source") {
        Ok(v) => v,
        Err(m) => return Err(m),
    };
    Ok(
        ChangePlan::UpsertUml {
            key: k,
            title: t,
            language: l,
            source: s,
            diagram_type: trimmed_text(&c.diagram_type),
            attached_to_external_id: optional_trim(&c.attached_to_external_id),
        },
    )
}

fn binding_fields(c: &DesignChange) -> (r: Result<(String, String, String), String>)
    ensures
        match r {
            Ok((d, tt, t)) => plan_binding_fields(*c) == Ok::<
                (Seq<char>, Seq<char>, Seq<char>),
                Seq<char>,
            >((d@, tt@, t@)),
            Err(m) => plan_binding_fields(*c) == Err::<(Seq<char>, Seq<char>, Seq<char>), Seq<char>>(
                m@,
            ),
        },
{
    let d = match required(&c.design_external_id, "designExternalId") {
        Ok(v) => v,
        Err(m) => return Err(m),
    };
    let tt = match required(&c.target_type, "targetType") {
        Ok(v) => v,
        Err(m) => return Err(m),
    };
    let t = match required(&c.target, "target") {
        Ok(v) => v,
        Err(m) => return Err(m),
    };
    Ok((d, tt, t))
}

fn plan_mockup(c: &DesignChange) -> (r: Result<ChangePlan, String>)
    ensures
        plan_result_view(r) == plan_upsert_mockup(*c),
{
    let id = match required(&c.external_id, "externalId") {
        Ok(v) => v,
        Err(m) => return Err(m),
    };
    let t = match required(&c.title, "title") {
        Ok(v) => v,
        Err(m) => return Err(m),
    };
    let a = match required(&c.attached_to_external_id, "attachedToExternalId") {
        Ok(v) => v,
        Err(m) => return Err(m),
    };
    let w = match c.viewport_width {
        Some(v) => v,
        None => return Err(missing("viewportWidth")),
    };
    let h = match c.viewport_height {
        Some(v) => v,
        None => return Err(missing("viewportHeight")),
    };
    let svg = match required(&c.accepted_svg, "acceptedSvg") {
        Ok(v) => v,
        Err(m) => return Err(m),
    };
    Ok(
        ChangePlan::UpsertMockup {
            external_id: id,
            title: t,
            attached_to_external_id: a,
            viewport_width: w,
            viewport_height: h,
            screen: plain_text(&c.screen),
            state: plain_text(&c.mockup_state),
            fidelity: plain_text(&c.fidelity),
            schema_version: c.schema_version,
            accepted_svg: svg,
        },
    )
}

fn plan_proposal(c: &DesignChange) -> (r: Result<ChangePlan, String>)
    ensures
        plan_result_view(r) == plan_propose_mockup(*c),
{
    let id = match required(&c.external_id, "externalId") {
        Ok(v) => v,
        Err(m) => return Err(m),
    };
    let b = match c.base_revision {
        Some(v) => v,
        None => return Err(missing("baseRevision")),
    };
    let svg = match required(&c.proposed_svg, "proposedSvg") {
        Ok(v) => v,
        Err(m) => return Err(m),
    };
    let mf = match &c.proposed_manifest {
        Some(v) => clone_manifest(v),
        None => return Err(missing("proposedManifest")),
    };
    Ok(ChangePlan::ProposeMockup { external_id: id, base_revision: b, proposed_svg: svg, proposed_manifest: mf })
}

/// What a change asks the store to do, with every required field checked and trimmed.
pub fn plan_change(change: &DesignChange) -> (r: Result<ChangePlan, String>)
    ensures
        plan_result_view(r) == plan_spec(*change),
{
    let op = chars_of(change.op.as_str());
    if eq_lit(op.as_slice(), "upsert_element") {
        plan_element(change)
    } else if eq_lit(op.as_slice(), "upsert_relationship") {
        plan_relationship(change)
    } else if eq_lit(op.as_slice(), "upsert_uml") {
        plan_uml(change)
    } else if eq_lit(op.as_slice(), "upsert_binding") {
        match binding_fields(change) {
            Ok((d, tt, t)) => Ok(ChangePlan::UpsertBinding { design_external_id: d, target_type: tt, target: t }),
            Err(m) => Err(m),
        }
    } else if eq_lit(op.as_slice(), "upsert_mockup") {
        plan_mockup(change)
    } else if eq_lit(op.as_slice(), "upsert_mockup_proposal") {
        plan_proposal(change)
    } else if eq_lit(op.as_slice(), "delete_element") {
        match required(&change.external_id, "externalId") {
            Ok(id) => Ok(ChangePlan::DeleteElement { external_id: id }),
            Err(m) => Err(m),
        }
    } else if eq_lit(op.as_slice(), "delete_relationship") {
        match required(&change.external_id, "externalId") {
            Ok(id) => Ok(ChangePlan::DeleteRelationship { external_id: id }),
            Err(m) => Err(m),
        }
    } else if eq_lit(op.as_slice(), "delete_uml") {
        match required(&change.key, "key") {
            Ok(k) => Ok(ChangePlan::DeleteUml { key: k }),
            Err(m) => Err(m),
        }
    } else if eq_lit(op.as_slice(), "delete_binding") {
        match binding_fields(change) {
            Ok((d, tt, t)) => Ok(ChangePlan::DeleteBinding { design_external_id: d, target_type: tt, target: t }),
            Err(m) => Err(m),
        }
    } else if eq_lit(op.as_slice(), "delete_mockup") {
        match required(&change.external_id, "externalId") {
            Ok(id) => Ok(ChangePlan::DeleteMockup { external_id: id }),
            Err(m) => Err(m),
        }
    } else {
        let mut m = owned("Unknown design save op: ");
        push_str_chars(&mut m, change.op.as_str());
        Err(m)
    }
}

// ---------------------------------------------------------------- outcomes

/// The character content of a save outcome.
pub struct SaveView {
    pub ok: bool,
    pub stored: bool,
    pub correction_required: bool,
    pub revision: i64,
    pub errors: Seq<CorrectionView>,
    pub structurizr_dsl: Option<Seq<char>>,
}

pub open spec fn save_view(r: DesignSaveResult) -> SaveView {
    SaveView {
        ok: r.ok,
        stored: r.stored,
        correction_required: r.correction_required,
        revision: r.revision,
        errors: correction_views(r.errors@),
        structurizr_dsl: opt_view(r.structurizr_dsl),
    }
}

/// A refused save: nothing stored, one correction, the revision to resubmit against.
pub open spec fn failed_spec(revision: i64, code: Seq<char>, message: Seq<char>, request: Seq<char>) -> SaveView {
    SaveView {
        ok: false,
        stored: false,
        correction_required: true,
        revision,
        errors: seq![corr(code, message, request)],
        structurizr_dsl: None,
    }
}

/// A refused save with one correction.
pub fn failed_save(revision: i64, code: &str, message: String, request: String) -> (r: DesignSaveResult)
    ensures
        save_view(r) == failed_spec(revision, code@, message@, request@),
{
    let c = correction(code, message, request);
    let errors = vec![c];
    let r = DesignSaveResult {
        ok: false,
        stored: false,
        correction_required: true,
        revision,
        errors,
        structurizr_dsl: None,
    };
    assert(correction_views(r.errors@) =~= seq![correction_view(c)]);
    r
}

/// The refusals decided before anything is written: a stale revision, a blank change intent,
/// an empty changeset, in that order.
pub open spec fn precheck_spec(current: i64, expected: i64, intent: Seq<char>, count: nat) -> Option<SaveView> {
    if current != expected {
        Some(
            failed_spec(
                current,
                "revision.stale"@,
                "Expected revision "@ + signed_dec(expected as int) + ", but current revision is "@
                    + signed_dec(current as int) + "."@,
                "Reload the design overview and resubmit the full changeset against the current revision."@,
            ),
        )
    } else if trim(intent).len() == 0 {
        Some(
            failed_spec(
                current,
                "save.missing_intent"@,
                "Design save requires a non-empty changeIntent."@,
                "Describe the design change intent and resubmit the full changeset."@,
            ),
        )
    } else if count == 0 {
        Some(
            failed_spec(
                current,
                "save.empty_changeset"@,
                "Design save requires at least one change."@,
                "Submit the C4, UML, or binding changes that make up the completed design update."@,
            ),
        )
    } else {
        None
    }
}

/// Refuses a save before anything is written, or lets it proceed.
pub fn precheck_save(
    current_revision: i64,
    expected_revision: i64,
    change_intent: &str,
    change_count: usize,
) -> (r: Option<DesignSaveResult>)
    ensures
        match r {
            Some(s) => precheck_spec(current_revision, expected_revision, change_intent@, change_count as nat)
                == Some(save_view(s)),
            None => precheck_spec(current_revision, expected_revision, change_intent@, change_count as nat) is None,
        },
{
    if current_revision != expected_revision {
        let mut m = owned("Expected revision ");
        let e = signed_decimal(expected_revision);
        push_chars(&mut m, e.as_slice());
        push_str_chars(&mut m, ", but current revision is ");
        let c = signed_decimal(current_revision);
        push_chars(&mut m, c.as_slice());
        push_str_chars(&mut m, ".");
        return Some(
            failed_save(
                current_revision,
                "revision.stale",
                m,
                owned("Reload the design overview and resubmit the full changeset against the current revision."),
            ),
        );
    }
    let intent = chars_of(change_intent);
    if trim_chars(intent.as_slice()).len() == 0 {
        return Some(
            failed_save(
                current_revision,
                "save.missing_intent",
                owned("Design save requires a non-empty changeIntent."),
                owned("Describe the design change intent and resubmit the full changeset."),
            ),
        );
    }
    if change_count == 0 {
        return Some(
            failed_save(
                current_revision,
                "save.empty_changeset",
                owned("Design save requires at least one change."),
                owned("Submit the C4, UML, or binding changes that make up the completed design update."),
            ),
        );
    }
    None
}

/// A change the store refused to apply: the whole changeset is refused with its message.
pub fn invalid_changeset(current_revision: i64, message: String) -> (r: DesignSaveResult)
    ensures
        save_view(r) == failed_spec(
            current_revision,
            "save.invalid_changeset"@,
            message@,
            "Correct the design_save changeset fields and resubmit the full changeset."@,
        ),
{
    failed_save(
        current_revision,
        "save.invalid_changeset",
        message,
        owned("Correct the design_save changeset fields and resubmit the full changeset."),
    )
}

// ---------------------------------------------------------------- corrections ordered by code

/// Where a stable insertion by code puts `x`.
pub open spec fn code_insert_pos(s: Seq<CorrectionView>, x: CorrectionView) -> int
    decreases s.len(),
{
    if s.len() == 0 {
        0
    } else if seq_order(x.code, s.last().code) < 0 {
        code_insert_pos(s.drop_last(), x)
    } else {
        s.len() as int
    }
}

/// Corrections ordered by code, keeping the found order among equal codes.
pub open spec fn sort_by_code(s: Seq<CorrectionView>) -> Seq<CorrectionView>
    decreases s.len(),
{
    if s.len() == 0 {
        Seq::empty()
    } else {
        let sorted = sort_by_code(s.drop_last());
        sorted.insert(code_insert_pos(sorted, s.last()), s.last())
    }
}

pub open spec fn sorted_by_code(s: Seq<CorrectionView>) -> bool {
    forall|i: int, j: int| 0 <= i < j < s.len() ==> seq_order(#[trigger] s[i].code, #[trigger] s[j].code) <= 0
}

proof fn lemma_code_insert_pos(s: Seq<CorrectionView>, x: CorrectionView)
    ensures
        0 <= code_insert_pos(s, x) <= s.len(),
        forall|q: int| code_insert_pos(s, x) <= q < s.len() ==> seq_order(x.code, #[trigger] s[q].code) < 0,
        code_insert_pos(s, x) > 0 ==> seq_order(x.code, s[code_insert_pos(s, x) - 1].code) >= 0,
    decreases s.len(),
{
    if s.len() > 0 && seq_order(x.code, s.last().code) < 0 {
        let t = s.drop_last();
        lemma_code_insert_pos(t, x);
        assert forall|q: int| code_insert_pos(s, x) <= q < s.len() implies seq_order(x.code, #[trigger] s[q].code) < 0 by {
            if q < t.len() {
                assert(s[q] == t[q]);
            }
        }
        if code_insert_pos(s, x) > 0 {
            assert(s[code_insert_pos(s, x) - 1] == t[code_insert_pos(t, x) - 1]);
        }
    }
}

/// Law: ordering corrections by code leaves them ordered, and neither loses nor invents one.
pub proof fn law_corrections_sorted_by_code(s: Seq<CorrectionView>)
    ensures
        sorted_by_code(sort_by_code(s)),
        sort_by_code(s).to_multiset() == s.to_multiset(),
    decreases s.len(),
{
    broadcast use vstd::seq_lib::group_to_multiset_ensures;

    if s.len() > 0 {
        let t = s.drop_last();
        let x = s.last();
        law_corrections_sorted_by_code(t);
        let sorted = sort_by_code(t);
        let p = code_insert_pos(sorted, x);
        lemma_code_insert_pos(sorted, x);
        let r = sorted.insert(p, x);
        sorted.insert_ensures(p, x);
        assert forall|i: int, j: int| 0 <= i < j < r.len() implies seq_order(
            #[trigger] r[i].code,
            #[trigger] r[j].code,
        ) <= 0 by {
            if j < p {
            } else if j == p {
                lemma_seq_order_antisym(x.code, sorted[p - 1].code);
                if i < p - 1 {
                    lemma_seq_order_trans(sorted[i].code, sorted[p - 1].code, x.code);
                }
            } else if i == p {
                assert(r[j] == sorted[j - 1]);
            } else if i < p {
                assert(r[j] == sorted[j - 1]);
                lemma_seq_order_antisym(x.code, sorted[j - 1].code);
            } else {
                assert(r[j] == sorted[j - 1]);
                assert(r[i] == sorted[i - 1]);
            }
        }
        assert(s =~= t.push(x));
    }
}

/// Inserts a correction at its stable position in a list already ordered by code.
fn insert_correction(out: &mut Vec<DesignCorrection>, x: DesignCorrection)
    ensures
        correction_views(final(out)@) == correction_views(old(out)@).insert(
            code_insert_pos(correction_views(old(out)@), correction_view(x)),
            correction_view(x),
        ),
{
    let ghost s = correction_views(out@);
    let ghost xv = correction_view(x);
    let mut j = out.len();
    assert(s.take(j as int) =~= s);
    while j > 0 && order_str(x.code.as_str(), out[j - 1].code.as_str()) < 0
        invariant
            j <= out@.len(),
            s == correction_views(out@),
            xv == correction_view(x),
            code_insert_pos(s, xv) == code_insert_pos(s.take(j as int), xv),
        decreases j,
    {
        proof {
            assert(s.take(j as int).drop_last() =~= s.take(j - 1));
            assert(s.take(j as int).last() == s[j - 1]);
        }
        j -= 1;
    }
    proof {
        if j > 0 {
            assert(s.take(j as int).last() == s[j - 1]);
        }
        assert(code_insert_pos(s.take(j as int), xv) == j);
    }
    out.insert(j, x);
    proof {
        assert(correction_views(out@) =~= s.insert(j as int, xv));
    }
}

/// Orders corrections by code, keeping the found order among equal codes.
pub fn sort_corrections(errors: Vec<DesignCorrection>) -> (r: Vec<DesignCorrection>)
    ensures
        correction_views(r@) == sort_by_code(correction_views(errors@)),
{
    let ghost all = correction_views(errors@);
    let mut out: Vec<DesignCorrection> = Vec::new();
    let mut i: usize = 0;
    assert(all.take(0) =~= Seq::<CorrectionView>::empty());
    assert(correction_views(out@) =~= Seq::<CorrectionView>::empty());
    while i < errors.len()
        invariant
            i <= errors@.len(),
            all == correction_views(errors@),
            correction_views(out@) == sort_by_code(all.take(i as int)),
        decreases errors.len() - i,
    {
        proof {
            assert(all.take(i + 1).drop_last() =~= all.take(i as int));
            assert(all.take(i + 1).last() == correction_view(errors@[i as int]));
        }
        let c = &errors[i];
        let copy = DesignCorrection {
            code: c.code.clone(),
            message: c.message.clone(),
            request: c.request.clone(),
        };
        insert_correction(&mut out, copy);
        i += 1;
    }
    assert(all.take(errors@.len() as int) =~= all);
    out
}

/// A save the model validation refused: nothing stored, corrections ordered by code.
pub fn rejected_save(current_revision: i64, errors: Vec<DesignCorrection>) -> (r: DesignSaveResult)
    ensures
        save_view(r) == (SaveView {
            ok: false,
            stored: false,
            correction_required: true,
            revision: current_revision,
            errors: sort_by_code(correction_views(errors@)),
            structurizr_dsl: None,
        }),
{
    DesignSaveResult {
        ok: false,
        stored: false,
        correction_required: true,
        revision: current_revision,
        errors: sort_corrections(errors),
        structurizr_dsl: None,
    }
}

/// A stored save: the new revision and the regenerated Structurizr DSL.
pub fn stored_save(revision: i64, structurizr_dsl: String) -> (r: DesignSaveResult)
    ensures
        save_view(r) == (SaveView {
            ok: true,
            stored: true,
            correction_required: false,
            revision,
            errors: Seq::empty(),
            structurizr_dsl: Some(structurizr_dsl@),
        }),
{
    let r = DesignSaveResult {
        ok: true,
        stored: true,
        correction_required: false,
        revision,
        errors: Vec::new(),
        structurizr_dsl: Some(structurizr_dsl),
    };
    assert(correction_views(r.errors@) =~= Seq::<CorrectionView>::empty());
    r
}


// ---------------------------------------------------------------- refusing unknown deletions

pub open spec fn unknown_relationship_message(id: Seq<char>) -> Seq<char> {
    "Cannot delete unknown C4 relationship '"@ + id + "'."@
}

pub open spec fn unknown_uml_message(key: Seq<char>) -> Seq<char> {
    "Cannot delete unknown UML artifact '"@ + key + "'."@
}

pub open spec fn generated_uml_message(key: Seq<char>) -> Seq<char> {
    "Cannot delete generated Structurizr artifact '"@ + key + "' through delete_uml."@
}

pub open spec fn unknown_binding_message(d: Seq<char>, tt: Seq<char>, t: Seq<char>) -> Seq<char> {
    "Cannot delete unknown binding '"@ + d + "' -> "@ + tt + " '"@ + t + "'."@
}

/// The language (the stored kind) of the diagram with this key; keys are unique in a
/// workspace, and the last record wins if a list repeats one.
pub open spec fn diagram_language(ds: Seq<DesignDiagramRecord>, key: Seq<char>) -> Option<Seq<char>>
    decreases ds.len(),
{
    if ds.len() == 0 {
        None
    } else if ds.last().key@ == key {
        Some(ds.last().language@)
    } else {
        diagram_language(ds.drop_last(), key)
    }
}

pub open spec fn has_binding(
    bs: Seq<DesignBindingRecord>,
    d: Seq<char>,
    tt: Seq<char>,
    t: Seq<char>,
) -> bool {
    exists|i: int|
        0 <= i < bs.len() && (#[trigger] bs[i]).design_external_id@ == d && bs[i].target_type@ == tt
            && bs[i].target@ == t
}

/// Why a planned deletion is refused against the loaded workspace, if it is: an element,
/// relationship, UML artifact or binding that is not there, or a generated Structurizr
/// artifact, which only the model itself may replace.
pub open spec fn deletion_refusal(
    p: PlanView,
    es: Seq<DesignElementRecord>,
    rs: Seq<DesignRelationshipRecord>,
    ds: Seq<DesignDiagramRecord>,
    bs: Seq<DesignBindingRecord>,
) -> Option<Seq<char>> {
    match p {
        PlanView::DeleteElement { external_id } => if lookup(es, external_id) is None {
            Some(unknown_deletion_message(external_id))
        } else {
            None
        },
        PlanView::DeleteRelationship { external_id } => if !has_relationship(rs, external_id) {
            Some(unknown_relationship_message(external_id))
        } else {
            None
        },
        PlanView::DeleteUml { key } => match diagram_language(ds, key) {
            None => Some(unknown_uml_message(key)),
            Some(l) => if l == "structurizr"@ {
                Some(generated_uml_message(key))
            } else {
                None
            },
        },
        PlanView::DeleteBinding { design_external_id, target_type, target } => if !has_binding(
            bs,
            design_external_id,
            target_type,
            target,
        ) {
            Some(unknown_binding_message(design_external_id, target_type, target))
        } else {
            None
        },
        _ => None,
    }
}

fn find_diagram_language(ds: &[DesignDiagramRecord], key: &str) -> (r: Option<String>)
    ensures
        match r {
            Some(l) => diagram_language(ds@, key@) == Some(l@),
            None => diagram_language(ds@, key@) is None,
        },
{
    let mut i = ds.len();
    assert(ds@.take(i as int) =~= ds@);
    while i > 0
        invariant
            i <= ds@.len(),
            diagram_language(ds@, key@) == diagram_language(ds@.take(i as int), key@),
        decreases i,
    {
        assert(ds@.take(i as int).drop_last() =~= ds@.take(i - 1));
        if str_eq(ds[i - 1].key.as_str(), key) {
            return Some(owned(ds[i - 1].language.as_str()));
        }
        i -= 1;
    }
    None
}

pub(crate) fn find_binding(bs: &[DesignBindingRecord], d: &str, tt: &str, t: &str) -> (b: bool)
    ensures
        b == has_binding(bs@, d@, tt@, t@),
{
    let mut i: usize = 0;
    while i < bs.len()
        invariant
            i <= bs@.len(),
            forall|k: int|
                0 <= k < i ==> !((#[trigger] bs@[k]).design_external_id@ == d@ && bs@[k].target_type@
                    == tt@ && bs@[k].target@ == t@),
        decreases bs.len() - i,
    {
        if str_eq(bs[i].design_external_id.as_str(), d) && str_eq(bs[i].target_type.as_str(), tt)
            && str_eq(bs[i].target.as_str(), t) {
            return true;
        }
        i += 1;
    }
    false
}

/// Checks a planned deletion against the loaded workspace before anything is removed: a
/// deletion of something that is not there is refused with a message naming it. Upserts, and
/// mockup deletions, whose store this library does not hold, pass.
pub fn check_deletion(
    plan: &ChangePlan,
    elements: &[DesignElementRecord],
    relationships: &[DesignRelationshipRecord],
    diagrams: &[DesignDiagramRecord],
    bindings: &[DesignBindingRecord],
) -> (r: Result<(), String>)
    ensures
        match deletion_refusal(plan_view(*plan), elements@, relationships@, diagrams@, bindings@) {
            Some(m) => r matches Err(e) && e@ == m,
            None => r is Ok,
        },
{
    match plan {
        ChangePlan::DeleteElement { external_id } => {
            if lookup_exec(elements, external_id.as_str()).is_none() {
                let mut m = owned("Cannot delete unknown C4 element '");
                push_str_chars(&mut m, external_id.as_str());
                push_str_chars(&mut m, "'.");
                return Err(m);
            }
            Ok(())
        },
        ChangePlan::DeleteRelationship { external_id } => {
            if !find_relationship(relationships, external_id.as_str()) {
                let mut m = owned("Cannot delete unknown C4 relationship '");
                push_str_chars(&mut m, external_id.as_str());
                push_str_chars(&mut m, "'.");
                return Err(m);
            }
            Ok(())
        },
        ChangePlan::DeleteUml { key } => {
            match find_diagram_language(diagrams, key.as_str()) {
                None => {
                    let mut m = owned("Cannot delete unknown UML artifact '");
                    push_str_chars(&mut m, key.as_str());
                    push_str_chars(&mut m, "'.");
                    Err(m)
                },
                Some(l) => {
                    if str_eq(l.as_str(), "structurizr") {
                        let mut m = owned("Cannot delete generated Structurizr artifact '");
                        push_str_chars(&mut m, key.as_str());
                        push_str_chars(&mut m, "' through delete_uml.");
                        Err(m)
                    } else {
                        Ok(())
                    }
                },
            }
        },
        ChangePlan::DeleteBinding { design_external_id, target_type, target } => {
            if !find_binding(
                bindings,
                design_external_id.as_str(),
                target_type.as_str(),
                target.as_str(),
            ) {
                let mut m = owned("Cannot delete unknown binding '");
                push_str_chars(&mut m, design_external_id.as_str());
                push_str_chars(&mut m, "' -> ");
                push_str_chars(&mut m, target_type.as_str());
                push_str_chars(&mut m, " '");
                push_str_chars(&mut m, target.as_str());
                push_str_chars(&mut m, "'.");
                return Err(m);
            }
            Ok(())
        },
        _ => Ok(()),
    }
}

} // verus!
