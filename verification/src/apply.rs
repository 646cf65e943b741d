//! What a checked change does to the loaded design records: upserts by identity, and
//! deletions with the cascade the store performs, so the model a save leaves can be validated
//! before it is kept.
use vstd::prelude::*;

use crate::design::{
    clone_binding, clone_diagram, clone_element, clone_relationship, DesignBindingRecord,
    DesignDiagramRecord, DesignElementRecord, DesignRelationshipRecord,
};
use crate::documents::strings_view;
use crate::design::{DesignChange, DesignSaveResult};
use crate::model::{model_corrections, validate_model};
use crate::save::{
    check_deletion, deletion_refusal, failed_spec, has_binding, invalid_changeset, plan_change,
    plan_spec, plan_view, precheck_spec, rejected_save, save_view, sort_by_code,
    ChangePlan, PlanView, SaveView,
};
use crate::scope::{
    depth_limit, id_in, lookup, plan_subtree_deletion, reach, relationships_touching,
};
use crate::text::str_eq;

verus! {

broadcast use vstd::string::group_string_axioms;

/// The design records of a workspace, as loaded from the store.
#[derive(Debug)]
pub struct DesignState {
    pub elements: Vec<DesignElementRecord>,
    pub relationships: Vec<DesignRelationshipRecord>,
    pub diagrams: Vec<DesignDiagramRecord>,
    pub bindings: Vec<DesignBindingRecord>,
}

pub struct StateView {
    pub es: Seq<DesignElementRecord>,
    pub rs: Seq<DesignRelationshipRecord>,
    pub ds: Seq<DesignDiagramRecord>,
    pub bs: Seq<DesignBindingRecord>,
}

pub open spec fn state_view(s: DesignState) -> StateView {
    StateView { es: s.elements@, rs: s.relationships@, ds: s.diagrams@, bs: s.bindings@ }
}

// ---------------------------------------------------------------- upserts

/// Index of the last element with this id, or -1.
pub open spec fn element_index(es: Seq<DesignElementRecord>, id: Seq<char>) -> int
    decreases es.len(),
{
    if es.len() == 0 {
        -1
    } else if es.last().external_id@ == id {
        es.len() - 1
    } else {
        element_index(es.drop_last(), id)
    }
}

/// Index of the last relationship with this id, or -1.
pub open spec fn relationship_index(rs: Seq<DesignRelationshipRecord>, id: Seq<char>) -> int
    decreases rs.len(),
{
    if rs.len() == 0 {
        -1
    } else if rs.last().external_id@ == id {
        rs.len() - 1
    } else {
        relationship_index(rs.drop_last(), id)
    }
}

/// An upsert replaces the record with the same id in place, or adds it at the end.
pub open spec fn upsert_element(es: Seq<DesignElementRecord>, e: DesignElementRecord) -> Seq<
    DesignElementRecord,
> {
    let i = element_index(es, e.external_id@);
    if i >= 0 {
        es.update(i, e)
    } else {
        es.push(e)
    }
}

pub open spec fn upsert_relationship(
    rs: Seq<DesignRelationshipRecord>,
    r: DesignRelationshipRecord,
) -> Seq<DesignRelationshipRecord> {
    let i = relationship_index(rs, r.external_id@);
    if i >= 0 {
        rs.update(i, r)
    } else {
        rs.push(r)
    }
}

/// A binding is its own identity: upserting one that exists changes nothing.
pub open spec fn upsert_binding(bs: Seq<DesignBindingRecord>, b: DesignBindingRecord) -> Seq<
    DesignBindingRecord,
> {
    if has_binding(bs, b.design_external_id@, b.target_type@, b.target@) {
        bs
    } else {
        bs.push(b)
    }
}

// ---------------------------------------------------------------- deletions

pub open spec fn elements_outside(es: Seq<DesignElementRecord>, g: Set<Seq<char>>) -> Seq<
    DesignElementRecord,
>
    decreases es.len(),
{
    if es.len() == 0 {
        Seq::empty()
    } else if g.contains(es.last().external_id@) {
        elements_outside(es.drop_last(), g)
    } else {
        elements_outside(es.drop_last(), g).push(es.last())
    }
}

pub open spec fn relationships_outside(rs: Seq<DesignRelationshipRecord>, g: Set<Seq<char>>) -> Seq<
    DesignRelationshipRecord,
>
    decreases rs.len(),
{
    if rs.len() == 0 {
        Seq::empty()
    } else if g.contains(rs.last().external_id@) {
        relationships_outside(rs.drop_last(), g)
    } else {
        relationships_outside(rs.drop_last(), g).push(rs.last())
    }
}

pub open spec fn diagrams_outside(ds: Seq<DesignDiagramRecord>, g: Set<Seq<char>>) -> Seq<
    DesignDiagramRecord,
>
    decreases ds.len(),
{
    if ds.len() == 0 {
        Seq::empty()
    } else if g.contains(ds.last().key@) {
        diagrams_outside(ds.drop_last(), g)
    } else {
        diagrams_outside(ds.drop_last(), g).push(ds.last())
    }
}

pub open spec fn bindings_outside(bs: Seq<DesignBindingRecord>, g: Set<Seq<char>>) -> Seq<
    DesignBindingRecord,
>
    decreases bs.len(),
{
    if bs.len() == 0 {
        Seq::empty()
    } else if g.contains(bs.last().design_external_id@) {
        bindings_outside(bs.drop_last(), g)
    } else {
        bindings_outside(bs.drop_last(), g).push(bs.last())
    }
}

pub open spec fn bindings_without(
    bs: Seq<DesignBindingRecord>,
    d: Seq<char>,
    tt: Seq<char>,
    t: Seq<char>,
) -> Seq<DesignBindingRecord>
    decreases bs.len(),
{
    if bs.len() == 0 {
        Seq::empty()
    } else if bs.last().design_external_id@ == d && bs.last().target_type@ == tt
        && bs.last().target@ == t {
        bindings_without(bs.drop_last(), d, tt, t)
    } else {
        bindings_without(bs.drop_last(), d, tt, t).push(bs.last())
    }
}

/// A UML artifact goes with the record it is attached to; the generated Structurizr artifact
/// never does.
pub open spec fn attached_gone(d: DesignDiagramRecord, g: Set<Seq<char>>) -> bool {
    match d.attached_to_external_id {
        Some(a) => g.contains(a@) && d.language@ != "structurizr"@,
        None => false,
    }
}

/// The keys of the UML artifacts attached to removed records.
pub open spec fn attached_keys(ds: Seq<DesignDiagramRecord>, g: Set<Seq<char>>) -> Seq<Seq<char>>
    decreases ds.len(),
{
    if ds.len() == 0 {
        Seq::empty()
    } else if attached_gone(ds.last(), g) {
        attached_keys(ds.drop_last(), g).push(ds.last().key@)
    } else {
        attached_keys(ds.drop_last(), g)
    }
}

pub open spec fn as_set(s: Seq<Seq<char>>) -> Set<Seq<char>> {
    Set::new(|x: Seq<char>| s.contains(x))
}

pub open spec fn either(a: Set<Seq<char>>, b: Set<Seq<char>>) -> Set<Seq<char>> {
    Set::new(|x: Seq<char>| a.contains(x) || b.contains(x))
}

/// Removing records with the ids `g` also removes the UML artifacts attached to them, and the
/// bindings of every removed record and artifact.
pub open spec fn drop_attached(v: StateView, g: Set<Seq<char>>) -> StateView {
    let keys = as_set(attached_keys(v.ds, g));
    StateView {
        ds: diagrams_outside(v.ds, keys),
        bs: bindings_outside(v.bs, either(g, keys)),
        ..v
    }
}

/// The ids a deleted element takes with it: its subtree and every relationship with an end in
/// it.
pub open spec fn subtree_gone(v: StateView, id: Seq<char>) -> (Set<Seq<char>>, Set<Seq<char>>) {
    let s = reach(v.es, id, depth_limit(None));
    let t = relationships_touching(v.rs, s).map_values(|r: DesignRelationshipRecord| r.external_id@);
    (s, as_set(t))
}

/// Whether a planned change touches only records this state holds; UML sources and mockups
/// are written by their own stores and read back.
pub open spec fn held_plan(p: PlanView) -> bool {
    !(p is UpsertUml || p is UpsertMockup || p is ProposeMockup || p is DeleteMockup)
}

pub open spec fn held_change(p: ChangePlan) -> bool {
    held_plan(plan_view(p))
}

/// The records after a change the store accepted.
pub open spec fn apply_spec(v: StateView, p: ChangePlan) -> StateView {
    match p {
        ChangePlan::UpsertElement {
            external_id,
            parent_external_id,
            element_type,
            name,
            description,
            technology,
            tags,
        } => StateView {
            es: upsert_element(
                v.es,
                DesignElementRecord {
                    external_id,
                    parent_external_id,
                    element_type,
                    name,
                    description,
                    technology,
                    tags,
                },
            ),
            ..v
        },
        ChangePlan::UpsertRelationship {
            external_id,
            source_external_id,
            destination_external_id,
            description,
            technology,
            tags,
        } => StateView {
            rs: upsert_relationship(
                v.rs,
                DesignRelationshipRecord {
                    external_id,
                    source_external_id,
                    destination_external_id,
                    description,
                    technology,
                    tags,
                },
            ),
            ..v
        },
        ChangePlan::UpsertBinding { design_external_id, target_type, target } => StateView {
            bs: upsert_binding(v.bs, DesignBindingRecord { design_external_id, target_type, target }),
            ..v
        },
        ChangePlan::DeleteElement { external_id } => {
            let (s, t) = subtree_gone(v, external_id@);
            drop_attached(
                StateView { es: elements_outside(v.es, s), rs: relationships_outside(v.rs, t), ..v },
                either(s, t),
            )
        },
        ChangePlan::DeleteRelationship { external_id } => drop_attached(
            StateView { rs: relationships_outside(v.rs, set![external_id@]), ..v },
            set![external_id@],
        ),
        ChangePlan::DeleteUml { key } => StateView {
            ds: diagrams_outside(v.ds, set![key@]),
            bs: bindings_outside(v.bs, set![key@]),
            ..v
        },
        ChangePlan::DeleteBinding { design_external_id, target_type, target } => StateView {
            bs: bindings_without(v.bs, design_external_id@, target_type@, target@),
            ..v
        },
        _ => v,
    }
}


// ---------------------------------------------------------------- applying a change

fn element_index_exec(es: &Vec<DesignElementRecord>, id: &str) -> (r: Option<usize>)
    ensures
        match r {
            Some(i) => i == element_index(es@, id@) && i < es@.len(),
            None => element_index(es@, id@) == -1,
        },
{
    let mut i = es.len();
    assert(es@.take(i as int) =~= es@);
    while i > 0
        invariant
            i <= es@.len(),
            element_index(es@, id@) == element_index(es@.take(i as int), id@),
        decreases i,
    {
        assert(es@.take(i as int).drop_last() =~= es@.take(i - 1));
        if str_eq(es[i - 1].external_id.as_str(), id) {
            return Some(i - 1);
        }
        i -= 1;
    }
    None
}

fn relationship_index_exec(rs: &Vec<DesignRelationshipRecord>, id: &str) -> (r: Option<usize>)
    ensures
        match r {
            Some(i) => i == relationship_index(rs@, id@) && i < rs@.len(),
            None => relationship_index(rs@, id@) == -1,
        },
{
    let mut i = rs.len();
    assert(rs@.take(i as int) =~= rs@);
    while i > 0
        invariant
            i <= rs@.len(),
            relationship_index(rs@, id@) == relationship_index(rs@.take(i as int), id@),
        decreases i,
    {
        assert(rs@.take(i as int).drop_last() =~= rs@.take(i - 1));
        if str_eq(rs[i - 1].external_id.as_str(), id) {
            return Some(i - 1);
        }
        i -= 1;
    }
    None
}

fn elements_outside_exec(
    es: &Vec<DesignElementRecord>,
    gone: &Vec<String>,
    Ghost(g): Ghost<Set<Seq<char>>>,
) -> (r: Vec<DesignElementRecord>)
    requires
        forall|x: Seq<char>| #[trigger] strings_view(gone@).contains(x) <==> g.contains(x),
    ensures
        r@ == elements_outside(es@, g),
{
    let mut out: Vec<DesignElementRecord> = Vec::new();
    let mut i: usize = 0;
    assert(es@.take(0) =~= Seq::<DesignElementRecord>::empty());
    while i < es.len()
        invariant
            i <= es@.len(),
            forall|x: Seq<char>| #[trigger] strings_view(gone@).contains(x) <==> g.contains(x),
            out@ == elements_outside(es@.take(i as int), g),
        decreases es.len() - i,
    {
        assert(es@.take(i + 1).drop_last() =~= es@.take(i as int));
        if !id_in(gone, es[i].external_id.as_str()) {
            out.push(clone_element(&es[i]));
        }
        i += 1;
    }
    assert(es@.take(es@.len() as int) =~= es@);
    out
}

fn relationships_outside_exec(
    rs: &Vec<DesignRelationshipRecord>,
    gone: &Vec<String>,
    Ghost(g): Ghost<Set<Seq<char>>>,
) -> (r: Vec<DesignRelationshipRecord>)
    requires
        forall|x: Seq<char>| #[trigger] strings_view(gone@).contains(x) <==> g.contains(x),
    ensures
        r@ == relationships_outside(rs@, g),
{
    let mut out: Vec<DesignRelationshipRecord> = Vec::new();
    let mut i: usize = 0;
    assert(rs@.take(0) =~= Seq::<DesignRelationshipRecord>::empty());
    while i < rs.len()
        invariant
            i <= rs@.len(),
            forall|x: Seq<char>| #[trigger] strings_view(gone@).contains(x) <==> g.contains(x),
            out@ == relationships_outside(rs@.take(i as int), g),
        decreases rs.len() - i,
    {
        assert(rs@.take(i + 1).drop_last() =~= rs@.take(i as int));
        if !id_in(gone, rs[i].external_id.as_str()) {
            out.push(clone_relationship(&rs[i]));
        }
        i += 1;
    }
    assert(rs@.take(rs@.len() as int) =~= rs@);
    out
}

fn diagrams_outside_exec(
    ds: &Vec<DesignDiagramRecord>,
    gone: &Vec<String>,
    Ghost(g): Ghost<Set<Seq<char>>>,
) -> (r: Vec<DesignDiagramRecord>)
    requires
        forall|x: Seq<char>| #[trigger] strings_view(gone@).contains(x) <==> g.contains(x),
    ensures
        r@ == diagrams_outside(ds@, g),
{
    let mut out: Vec<DesignDiagramRecord> = Vec::new();
    let mut i: usize = 0;
    assert(ds@.take(0) =~= Seq::<DesignDiagramRecord>::empty());
    while i < ds.len()
        invariant
            i <= ds@.len(),
            forall|x: Seq<char>| #[trigger] strings_view(gone@).contains(x) <==> g.contains(x),
            out@ == diagrams_outside(ds@.take(i as int), g),
        decreases ds.len() - i,
    {
        assert(ds@.take(i + 1).drop_last() =~= ds@.take(i as int));
        if !id_in(gone, ds[i].key.as_str()) {
            out.push(clone_diagram(&ds[i]));
        }
        i += 1;
    }
    assert(ds@.take(ds@.len() as int) =~= ds@);
    out
}

/// Bindings whose record is in neither list.
fn bindings_outside_exec(
    bs: &Vec<DesignBindingRecord>,
    a: &Vec<String>,
    b: &Vec<String>,
    Ghost(g): Ghost<Set<Seq<char>>>,
) -> (r: Vec<DesignBindingRecord>)
    requires
        forall|x: Seq<char>|
            (#[trigger] strings_view(a@).contains(x) || strings_view(b@).contains(x)) <==> g.contains(
                x,
            ),
    ensures
        r@ == bindings_outside(bs@, g),
{
    let mut out: Vec<DesignBindingRecord> = Vec::new();
    let mut i: usize = 0;
    assert(bs@.take(0) =~= Seq::<DesignBindingRecord>::empty());
    while i < bs.len()
        invariant
            i <= bs@.len(),
            forall|x: Seq<char>|
                (#[trigger] strings_view(a@).contains(x) || strings_view(b@).contains(x)) <==> g.contains(
                    x,
                ),
            out@ == bindings_outside(bs@.take(i as int), g),
        decreases bs.len() - i,
    {
        assert(bs@.take(i + 1).drop_last() =~= bs@.take(i as int));
        let id = bs[i].design_external_id.as_str();
        let ia = id_in(a, id);
        let ib = id_in(b, id);
        assert((ia || ib) == g.contains(id@));
        if !(ia || ib) {
            out.push(clone_binding(&bs[i]));
        }
        i += 1;
    }
    assert(bs@.take(bs@.len() as int) =~= bs@);
    out
}

fn bindings_without_exec(bs: &Vec<DesignBindingRecord>, d: &str, tt: &str, t: &str) -> (r: Vec<
    DesignBindingRecord,
>)
    ensures
        r@ == bindings_without(bs@, d@, tt@, t@),
{
    let mut out: Vec<DesignBindingRecord> = Vec::new();
    let mut i: usize = 0;
    assert(bs@.take(0) =~= Seq::<DesignBindingRecord>::empty());
    while i < bs.len()
        invariant
            i <= bs@.len(),
            out@ == bindings_without(bs@.take(i as int), d@, tt@, t@),
        decreases bs.len() - i,
    {
        assert(bs@.take(i + 1).drop_last() =~= bs@.take(i as int));
        let same = str_eq(bs[i].design_external_id.as_str(), d) && str_eq(
            bs[i].target_type.as_str(),
            tt,
        ) && str_eq(bs[i].target.as_str(), t);
        if !same {
            out.push(clone_binding(&bs[i]));
        }
        i += 1;
    }
    assert(bs@.take(bs@.len() as int) =~= bs@);
    out
}

fn attached_keys_exec(
    ds: &Vec<DesignDiagramRecord>,
    gone: &Vec<String>,
    Ghost(g): Ghost<Set<Seq<char>>>,
) -> (r: Vec<String>)
    requires
        forall|x: Seq<char>| #[trigger] strings_view(gone@).contains(x) <==> g.contains(x),
    ensures
        strings_view(r@) == attached_keys(ds@, g),
{
    let mut out: Vec<String> = Vec::new();
    let mut i: usize = 0;
    assert(ds@.take(0) =~= Seq::<DesignDiagramRecord>::empty());
    assert(strings_view(out@) =~= Seq::<Seq<char>>::empty());
    while i < ds.len()
        invariant
            i <= ds@.len(),
            forall|x: Seq<char>| #[trigger] strings_view(gone@).contains(x) <==> g.contains(x),
            strings_view(out@) == attached_keys(ds@.take(i as int), g),
        decreases ds.len() - i,
    {
        assert(ds@.take(i + 1).drop_last() =~= ds@.take(i as int));
        let d = &ds[i];
        let hit = match &d.attached_to_external_id {
            Some(a) => id_in(gone, a.as_str()) && !str_eq(d.language.as_str(), "structurizr"),
            None => false,
        };
        if hit {
            let ghost before = strings_view(out@);
            out.push(d.key.clone());
            assert(strings_view(out@) =~= before.push(d.key@));
        }
        i += 1;
    }
    assert(ds@.take(ds@.len() as int) =~= ds@);
    out
}

/// Removes the UML artifacts attached to the removed records `gone`, and the bindings of all
/// of them.
fn drop_attached_exec(state: &mut DesignState, gone: &Vec<String>, Ghost(g): Ghost<Set<Seq<char>>>)
    requires
        forall|x: Seq<char>| #[trigger] strings_view(gone@).contains(x) <==> g.contains(x),
    ensures
        state_view(*final(state)) == drop_attached(state_view(*old(state)), g),
{
    let keys = attached_keys_exec(&state.diagrams, gone, Ghost(g));
    let ghost ks = as_set(attached_keys(state.diagrams@, g));
    assert forall|x: Seq<char>| #[trigger] strings_view(keys@).contains(x) <==> ks.contains(x) by {}
    let ds = diagrams_outside_exec(&state.diagrams, &keys, Ghost(ks));
    assert forall|x: Seq<char>|
        (#[trigger] strings_view(gone@).contains(x) || strings_view(keys@).contains(x)) <==> either(
            g,
            ks,
        ).contains(x) by {}
    let bs = bindings_outside_exec(&state.bindings, gone, &keys, Ghost(either(g, ks)));
    state.diagrams = ds;
    state.bindings = bs;
}

/// Applies a change the store accepted to the loaded records: an upsert replaces the record
/// with the same identity or adds it, and a deletion removes its record together with what
/// the store removes with it. A deletion that the store would refuse is refused here with the
/// same message, and leaves the records as they were.
pub fn apply_change(state: &mut DesignState, plan: &ChangePlan) -> (r: Result<(), String>)
    requires
        held_change(*plan),
    ensures
        match deletion_refusal(
            plan_view(*plan),
            old(state).elements@,
            old(state).relationships@,
            old(state).diagrams@,
            old(state).bindings@,
        ) {
            Some(m) => r matches Err(e) && e@ == m && state_view(*final(state)) == state_view(
                *old(state),
            ),
            None => r is Ok && state_view(*final(state)) == apply_spec(
                state_view(*old(state)),
                *plan,
            ),
        },
{
    let checked = check_deletion(
        plan,
        state.elements.as_slice(),
        state.relationships.as_slice(),
        state.diagrams.as_slice(),
        state.bindings.as_slice(),
    );
    if let Err(m) = checked {
        return Err(m);
    }
    match plan {
        ChangePlan::UpsertElement {
            external_id,
            parent_external_id,
            element_type,
            name,
            description,
            technology,
            tags,
        } => {
            let e = DesignElementRecord {
                external_id: external_id.clone(),
                parent_external_id: match parent_external_id {
                    Some(p) => Some(p.clone()),
                    None => None,
                },
                element_type: element_type.clone(),
                name: name.clone(),
                description: description.clone(),
                technology: technology.clone(),
                tags: tags.clone(),
            };
            match element_index_exec(&state.elements, external_id.as_str()) {
                Some(i) => {
                    state.elements.set(i, e);
                },
                None => {
                    state.elements.push(e);
                },
            }
            Ok(())
        },
        ChangePlan::UpsertRelationship {
            external_id,
            source_external_id,
            destination_external_id,
            description,
            technology,
            tags,
        } => {
            let rel = DesignRelationshipRecord {
                external_id: external_id.clone(),
                source_external_id: source_external_id.clone(),
                destination_external_id: destination_external_id.clone(),
                description: description.clone(),
                technology: technology.clone(),
                tags: tags.clone(),
            };
            match relationship_index_exec(&state.relationships, external_id.as_str()) {
                Some(i) => {
                    state.relationships.set(i, rel);
                },
                None => {
                    state.relationships.push(rel);
                },
            }
            Ok(())
        },
        ChangePlan::UpsertBinding { design_external_id, target_type, target } => {
            if !crate::save::find_binding(
                state.bindings.as_slice(),
                design_external_id.as_str(),
                target_type.as_str(),
                target.as_str(),
            ) {
                state.bindings.push(
                    DesignBindingRecord {
                        design_external_id: design_external_id.clone(),
                        target_type: target_type.clone(),
                        target: target.clone(),
                    },
                );
            }
            Ok(())
        },
        ChangePlan::DeleteElement { external_id } => {
            let ghost v = state_view(*state);
            let ghost (s, t) = subtree_gone(v, external_id@);
            let deletion = match plan_subtree_deletion(
                state.elements.as_slice(),
                state.relationships.as_slice(),
                external_id.as_str(),
            ) {
                Ok(d) => d,
                Err(m) => return Err(m),
            };
            assert forall|x: Seq<char>| #[trigger]
                strings_view(deletion.relationship_ids@).contains(x) <==> t.contains(x) by {}
            let es = elements_outside_exec(&state.elements, &deletion.element_ids, Ghost(s));
            let rs = relationships_outside_exec(
                &state.relationships,
                &deletion.relationship_ids,
                Ghost(t),
            );
            state.elements = es;
            state.relationships = rs;
            let mut gone = deletion.element_ids;
            let mut i: usize = 0;
            let ghost base = strings_view(gone@);
            assert(deletion.relationship_ids@.take(0) =~= Seq::<String>::empty());
            assert(base + strings_view(deletion.relationship_ids@.take(0)) =~= base);
            while i < deletion.relationship_ids.len()
                invariant
                    i <= deletion.relationship_ids@.len(),
                    strings_view(gone@) == base + strings_view(
                        deletion.relationship_ids@.take(i as int),
                    ),
                decreases deletion.relationship_ids.len() - i,
            {
                let ghost before = strings_view(gone@);
                gone.push(deletion.relationship_ids[i].clone());
                assert(strings_view(gone@) =~= before.push(deletion.relationship_ids@[i as int]@));
                assert(strings_view(deletion.relationship_ids@.take(i + 1)) =~= strings_view(
                    deletion.relationship_ids@.take(i as int),
                ).push(deletion.relationship_ids@[i as int]@));
                assert(strings_view(gone@) =~= base + strings_view(
                    deletion.relationship_ids@.take(i + 1),
                ));
                i += 1;
            }
            assert(deletion.relationship_ids@.take(deletion.relationship_ids@.len() as int)
                =~= deletion.relationship_ids@);
            assert forall|x: Seq<char>| #[trigger]
                strings_view(gone@).contains(x) <==> either(s, t).contains(x) by {
                if strings_view(gone@).contains(x) {
                    let k = choose|k: int| 0 <= k < strings_view(gone@).len() && strings_view(gone@)[k] == x;
                    if k < base.len() {
                        assert(base[k] == x);
                        assert(base.contains(x));
                    } else {
                        assert(strings_view(deletion.relationship_ids@)[k - base.len()] == x);
                        assert(strings_view(deletion.relationship_ids@).contains(x));
                    }
                }
                if base.contains(x) {
                    let k = choose|k: int| 0 <= k < base.len() && base[k] == x;
                    assert(strings_view(gone@)[k] == x);
                }
                if strings_view(deletion.relationship_ids@).contains(x) {
                    let k = choose|k: int|
                        0 <= k < strings_view(deletion.relationship_ids@).len() && strings_view(
                            deletion.relationship_ids@,
                        )[k] == x;
                    assert(strings_view(gone@)[base.len() + k] == x);
                }
            }
            drop_attached_exec(state, &gone, Ghost(either(s, t)));
            Ok(())
        },
        ChangePlan::DeleteRelationship { external_id } => {
            let mut gone: Vec<String> = Vec::new();
            gone.push(external_id.clone());
            let ghost g = set![external_id@];
            assert(strings_view(gone@) =~= seq![external_id@]);
            assert forall|x: Seq<char>| #[trigger] strings_view(gone@).contains(x) <==> g.contains(x) by {
                if strings_view(gone@).contains(x) {
                    let k = choose|k: int| 0 <= k < strings_view(gone@).len() && strings_view(gone@)[k] == x;
                }
                if g.contains(x) {
                    assert(strings_view(gone@)[0] == x);
                }
            }
            let rs = relationships_outside_exec(&state.relationships, &gone, Ghost(g));
            state.relationships = rs;
            drop_attached_exec(state, &gone, Ghost(g));
            Ok(())
        },
        ChangePlan::DeleteUml { key } => {
            let mut gone: Vec<String> = Vec::new();
            gone.push(key.clone());
            let ghost g = set![key@];
            assert(strings_view(gone@) =~= seq![key@]);
            assert forall|x: Seq<char>| #[trigger] strings_view(gone@).contains(x) <==> g.contains(x) by {
                if strings_view(gone@).contains(x) {
                    let k = choose|k: int| 0 <= k < strings_view(gone@).len() && strings_view(gone@)[k] == x;
                }
                if g.contains(x) {
                    assert(strings_view(gone@)[0] == x);
                }
            }
            let none: Vec<String> = Vec::new();
            assert(strings_view(none@) =~= Seq::<Seq<char>>::empty());
            let ds = diagrams_outside_exec(&state.diagrams, &gone, Ghost(g));
            let bs = bindings_outside_exec(&state.bindings, &gone, &none, Ghost(g));
            state.diagrams = ds;
            state.bindings = bs;
            Ok(())
        },
        ChangePlan::DeleteBinding { design_external_id, target_type, target } => {
            let bs = bindings_without_exec(
                &state.bindings,
                design_external_id.as_str(),
                target_type.as_str(),
                target.as_str(),
            );
            state.bindings = bs;
            Ok(())
        },
        _ => Ok(()),
    }
}


// ---------------------------------------------------------------- laws

proof fn lemma_elements_outside(es: Seq<DesignElementRecord>, g: Set<Seq<char>>)
    ensures
        forall|i: int|
            0 <= i < elements_outside(es, g).len() ==> !g.contains(
                (#[trigger] elements_outside(es, g)[i]).external_id@,
            ) && es.contains(elements_outside(es, g)[i]),
    decreases es.len(),
{
    if es.len() > 0 {
        lemma_elements_outside(es.drop_last(), g);
        let r = elements_outside(es, g);
        let p = elements_outside(es.drop_last(), g);
        assert forall|i: int| 0 <= i < r.len() implies !g.contains((#[trigger] r[i]).external_id@)
            && es.contains(r[i]) by {
            if i < p.len() {
                assert(r[i] == p[i]);
                let k = choose|k: int| 0 <= k < es.drop_last().len() && es.drop_last()[k] == p[i];
                assert(es[k] == p[i]);
            } else {
                assert(r[i] == es[es.len() - 1]);
            }
        }
    }
}

proof fn lemma_relationships_outside(rs: Seq<DesignRelationshipRecord>, g: Set<Seq<char>>)
    ensures
        forall|i: int|
            0 <= i < relationships_outside(rs, g).len() ==> !g.contains(
                (#[trigger] relationships_outside(rs, g)[i]).external_id@,
            ) && rs.contains(relationships_outside(rs, g)[i]),
    decreases rs.len(),
{
    if rs.len() > 0 {
        lemma_relationships_outside(rs.drop_last(), g);
        let r = relationships_outside(rs, g);
        let p = relationships_outside(rs.drop_last(), g);
        assert forall|i: int| 0 <= i < r.len() implies !g.contains((#[trigger] r[i]).external_id@)
            && rs.contains(r[i]) by {
            if i < p.len() {
                assert(r[i] == p[i]);
                let k = choose|k: int| 0 <= k < rs.drop_last().len() && rs.drop_last()[k] == p[i];
                assert(rs[k] == p[i]);
            } else {
                assert(r[i] == rs[rs.len() - 1]);
            }
        }
    }
}

proof fn lemma_diagrams_outside(ds: Seq<DesignDiagramRecord>, g: Set<Seq<char>>)
    ensures
        forall|i: int|
            0 <= i < diagrams_outside(ds, g).len() ==> !g.contains(
                (#[trigger] diagrams_outside(ds, g)[i]).key@,
            ) && ds.contains(diagrams_outside(ds, g)[i]),
    decreases ds.len(),
{
    if ds.len() > 0 {
        lemma_diagrams_outside(ds.drop_last(), g);
        let r = diagrams_outside(ds, g);
        let p = diagrams_outside(ds.drop_last(), g);
        assert forall|i: int| 0 <= i < r.len() implies !g.contains((#[trigger] r[i]).key@)
            && ds.contains(r[i]) by {
            if i < p.len() {
                assert(r[i] == p[i]);
                let k = choose|k: int| 0 <= k < ds.drop_last().len() && ds.drop_last()[k] == p[i];
                assert(ds[k] == p[i]);
            } else {
                assert(r[i] == ds[ds.len() - 1]);
            }
        }
    }
}

proof fn lemma_bindings_outside(bs: Seq<DesignBindingRecord>, g: Set<Seq<char>>)
    ensures
        forall|i: int|
            0 <= i < bindings_outside(bs, g).len() ==> !g.contains(
                (#[trigger] bindings_outside(bs, g)[i]).design_external_id@,
            ),
    decreases bs.len(),
{
    if bs.len() > 0 {
        lemma_bindings_outside(bs.drop_last(), g);
        let r = bindings_outside(bs, g);
        let p = bindings_outside(bs.drop_last(), g);
        assert forall|i: int| 0 <= i < r.len() implies !g.contains(
            (#[trigger] r[i]).design_external_id@,
        ) by {
            if i < p.len() {
                assert(r[i] == p[i]);
            }
        }
    }
}

proof fn lemma_bindings_without(bs: Seq<DesignBindingRecord>, d: Seq<char>, tt: Seq<char>, t: Seq<char>)
    ensures
        !has_binding(bindings_without(bs, d, tt, t), d, tt, t),
    decreases bs.len(),
{
    if bs.len() > 0 {
        lemma_bindings_without(bs.drop_last(), d, tt, t);
        let r = bindings_without(bs, d, tt, t);
        let p = bindings_without(bs.drop_last(), d, tt, t);
        assert forall|i: int| 0 <= i < r.len() implies !((#[trigger] r[i]).design_external_id@ == d
            && r[i].target_type@ == tt && r[i].target@ == t) by {
            if i < p.len() {
                assert(r[i] == p[i]);
            }
        }
    }
}

proof fn lemma_attached_keys(ds: Seq<DesignDiagramRecord>, g: Set<Seq<char>>, k: int)
    requires
        0 <= k < ds.len(),
        attached_gone(ds[k], g),
    ensures
        attached_keys(ds, g).contains(ds[k].key@),
    decreases ds.len(),
{
    if k < ds.len() - 1 {
        lemma_attached_keys(ds.drop_last(), g, k);
        assert(ds.drop_last()[k] == ds[k]);
        let p = attached_keys(ds.drop_last(), g);
        let j = choose|j: int| 0 <= j < p.len() && p[j] == ds[k].key@;
        assert(attached_keys(ds, g)[j] == ds[k].key@);
    } else {
        assert(attached_keys(ds, g).last() == ds[k].key@);
    }
}

proof fn lemma_touching_ids(rs: Seq<DesignRelationshipRecord>, s: Set<Seq<char>>, k: int)
    requires
        0 <= k < rs.len(),
        s.contains(rs[k].source_external_id@) || s.contains(rs[k].destination_external_id@),
    ensures
        relationships_touching(rs, s).map_values(|r: DesignRelationshipRecord| r.external_id@).contains(
            rs[k].external_id@,
        ),
    decreases rs.len(),
{
    let m = relationships_touching(rs, s).map_values(|r: DesignRelationshipRecord| r.external_id@);
    if k < rs.len() - 1 {
        lemma_touching_ids(rs.drop_last(), s, k);
        assert(rs.drop_last()[k] == rs[k]);
        let p = relationships_touching(rs.drop_last(), s).map_values(
            |r: DesignRelationshipRecord| r.external_id@,
        );
        let j = choose|j: int| 0 <= j < p.len() && p[j] == rs[k].external_id@;
        assert(m[j] == rs[k].external_id@);
    } else {
        assert(m[m.len() - 1] == rs[k].external_id@);
    }
}

proof fn lemma_element_index(es: Seq<DesignElementRecord>, id: Seq<char>)
    ensures
        -1 <= element_index(es, id) < es.len(),
    decreases es.len(),
{
    if es.len() > 0 {
        lemma_element_index(es.drop_last(), id);
    }
}

proof fn lemma_lookup_upsert(es: Seq<DesignElementRecord>, e: DesignElementRecord, id: Seq<char>)
    ensures
        lookup(upsert_element(es, e), id) == if id == e.external_id@ {
            Some(e)
        } else {
            lookup(es, id)
        },
    decreases es.len(),
{
    let i = element_index(es, e.external_id@);
    lemma_element_index(es, e.external_id@);
    if i < 0 {
        assert(es.push(e).drop_last() =~= es);
    } else if es.last().external_id@ != e.external_id@ {
        lemma_element_index(es.drop_last(), e.external_id@);
        assert(i == element_index(es.drop_last(), e.external_id@));
        assert(i < es.len() - 1);
        lemma_lookup_upsert(es.drop_last(), e, id);
        assert(es.update(i, e).drop_last() =~= es.drop_last().update(i, e));
        assert(es.update(i, e).last() == es.last());
    } else {
        assert(es.update(i, e).drop_last() =~= es.drop_last());
    }
}

/// Law: after an element upsert, reading its id gives the upserted record, and every other id
/// reads as before.
pub proof fn law_upsert_element_reads_back(v: StateView, e: DesignElementRecord, id: Seq<char>)
    ensures
        lookup(upsert_element(v.es, e), e.external_id@) == Some(e),
        id != e.external_id@ ==> lookup(upsert_element(v.es, e), id) == lookup(v.es, id),
{
    lemma_lookup_upsert(v.es, e, e.external_id@);
    lemma_lookup_upsert(v.es, e, id);
}

/// Law: after a binding upsert the binding exists.
pub proof fn law_upsert_binding_holds(bs: Seq<DesignBindingRecord>, b: DesignBindingRecord)
    ensures
        has_binding(upsert_binding(bs, b), b.design_external_id@, b.target_type@, b.target@),
{
    if !has_binding(bs, b.design_external_id@, b.target_type@, b.target@) {
        assert(bs.push(b)[bs.len() as int] == b);
    }
}

/// Law: deleting a relationship leaves no relationship under its id, no binding of it, and no
/// UML artifact attached to it.
pub proof fn law_relationship_deletion_cascades(v: StateView, external_id: String)
    ensures
        ({
            let w = apply_spec(v, ChangePlan::DeleteRelationship { external_id });
            &&& forall|i: int| 0 <= i < w.rs.len() ==> (#[trigger] w.rs[i]).external_id@ != external_id@
            &&& forall|i: int|
                0 <= i < w.bs.len() ==> (#[trigger] w.bs[i]).design_external_id@ != external_id@
            &&& forall|i: int| 0 <= i < w.ds.len() ==> !attached_gone(#[trigger] w.ds[i], set![external_id@])
        }),
{
    let g = set![external_id@];
    let keys = as_set(attached_keys(v.ds, g));
    lemma_relationships_outside(v.rs, g);
    lemma_diagrams_outside(v.ds, keys);
    lemma_bindings_outside(v.bs, either(g, keys));
    let w = apply_spec(v, ChangePlan::DeleteRelationship { external_id });
    assert forall|i: int| 0 <= i < w.ds.len() implies !attached_gone(#[trigger] w.ds[i], g) by {
        let k = choose|k: int| 0 <= k < v.ds.len() && v.ds[k] == w.ds[i];
        if attached_gone(w.ds[i], g) {
            lemma_attached_keys(v.ds, g, k);
        }
    }
    assert forall|i: int| 0 <= i < w.bs.len() implies (#[trigger] w.bs[i]).design_external_id@
        != external_id@ by {
        assert(!either(g, keys).contains(w.bs[i].design_external_id@));
    }
}

/// Law: deleting an element removes it and everything under it, every relationship with an
/// end among them, the bindings of all of them and the UML artifacts attached to them.
pub proof fn law_element_deletion_cascades(v: StateView, external_id: String)
    ensures
        ({
            let w = apply_spec(v, ChangePlan::DeleteElement { external_id });
            let s = reach(v.es, external_id@, depth_limit(None));
            &&& lookup(w.es, external_id@) is None
            &&& forall|i: int| 0 <= i < w.es.len() ==> !s.contains((#[trigger] w.es[i]).external_id@)
            &&& forall|i: int|
                0 <= i < w.rs.len() ==> !s.contains((#[trigger] w.rs[i]).source_external_id@)
                    && !s.contains(w.rs[i].destination_external_id@)
            &&& forall|i: int|
                0 <= i < w.bs.len() ==> !s.contains((#[trigger] w.bs[i]).design_external_id@)
            &&& forall|i: int| 0 <= i < w.ds.len() ==> !attached_gone(#[trigger] w.ds[i], s)
        }),
{
    let (s, t) = subtree_gone(v, external_id@);
    let g = either(s, t);
    let es1 = elements_outside(v.es, s);
    let rs1 = relationships_outside(v.rs, t);
    let keys = as_set(attached_keys(v.ds, g));
    crate::scope::law_root_in_scope(v.es, external_id@, depth_limit(None));
    lemma_elements_outside(v.es, s);
    lemma_relationships_outside(v.rs, t);
    lemma_diagrams_outside(v.ds, keys);
    lemma_bindings_outside(v.bs, either(g, keys));
    let w = apply_spec(v, ChangePlan::DeleteElement { external_id });
    assert(w.es == es1);
    lemma_lookup_none(es1, s, external_id@);
    assert forall|i: int| 0 <= i < w.rs.len() implies !s.contains(
        (#[trigger] w.rs[i]).source_external_id@,
    ) && !s.contains(w.rs[i].destination_external_id@) by {
        let k = choose|k: int| 0 <= k < v.rs.len() && v.rs[k] == w.rs[i];
        if s.contains(v.rs[k].source_external_id@) || s.contains(v.rs[k].destination_external_id@) {
            lemma_touching_ids(v.rs, s, k);
        }
    }
    assert forall|i: int| 0 <= i < w.ds.len() implies !attached_gone(#[trigger] w.ds[i], s) by {
        let k = choose|k: int| 0 <= k < v.ds.len() && v.ds[k] == w.ds[i];
        if attached_gone(w.ds[i], s) {
            assert(attached_gone(v.ds[k], g));
            lemma_attached_keys(v.ds, g, k);
        }
    }
    assert forall|i: int| 0 <= i < w.bs.len() implies !s.contains(
        (#[trigger] w.bs[i]).design_external_id@,
    ) by {
        assert(!either(g, keys).contains(w.bs[i].design_external_id@));
    }
}

proof fn lemma_lookup_none(es: Seq<DesignElementRecord>, s: Set<Seq<char>>, id: Seq<char>)
    requires
        s.contains(id),
        forall|i: int| 0 <= i < es.len() ==> !s.contains((#[trigger] es[i]).external_id@),
    ensures
        lookup(es, id) is None,
    decreases es.len(),
{
    if es.len() > 0 {
        assert(!s.contains(es[es.len() - 1].external_id@));
        let p = es.drop_last();
        assert forall|i: int| 0 <= i < p.len() implies !s.contains((#[trigger] p[i]).external_id@) by {
            assert(p[i] == es[i]);
        }
        lemma_lookup_none(p, s, id);
    }
}

/// Law: deleting a binding leaves no such binding; deleting a UML artifact leaves no artifact
/// under its key and no binding of it.
pub proof fn law_binding_and_uml_deletions(
    v: StateView,
    design_external_id: String,
    target_type: String,
    target: String,
    key: String,
)
    ensures
        !has_binding(
            apply_spec(v, ChangePlan::DeleteBinding { design_external_id, target_type, target }).bs,
            design_external_id@,
            target_type@,
            target@,
        ),
        ({
            let w = apply_spec(v, ChangePlan::DeleteUml { key });
            &&& forall|i: int| 0 <= i < w.ds.len() ==> (#[trigger] w.ds[i]).key@ != key@
            &&& forall|i: int| 0 <= i < w.bs.len() ==> (#[trigger] w.bs[i]).design_external_id@ != key@
        }),
{
    lemma_bindings_without(v.bs, design_external_id@, target_type@, target@);
    lemma_diagrams_outside(v.ds, set![key@]);
    lemma_bindings_outside(v.bs, set![key@]);
}


// ---------------------------------------------------------------- saving a changeset

/// The refusal of a change that cannot be planned or applied: nothing is stored.
pub open spec fn invalid_spec(current: i64, message: Seq<char>) -> SaveView {
    failed_spec(
        current,
        "save.invalid_changeset"@,
        message,
        "Correct the design_save changeset fields and resubmit the full changeset."@,
    )
}

/// One change of a save, in order: it is planned, a planned deletion of something missing is
/// refused, and a change to records this state holds is applied to it. A refusal is the
/// save's result; otherwise the plan goes to the store. Changes to UML sources and mockups
/// leave the state as it is: the store writes them and the records are read back.
pub fn save_change(state: &mut DesignState, change: &DesignChange, current_revision: i64) -> (r:
    Result<ChangePlan, DesignSaveResult>)
    ensures
        match plan_spec(*change) {
            Err(m) => r matches Err(s) && save_view(s) == invalid_spec(current_revision, m)
                && state_view(*final(state)) == state_view(*old(state)),
            Ok(pv) => if !held_plan(pv) {
                r matches Ok(p) && plan_view(p) == pv && state_view(*final(state)) == state_view(
                    *old(state),
                )
            } else {
                match deletion_refusal(
                    pv,
                    old(state).elements@,
                    old(state).relationships@,
                    old(state).diagrams@,
                    old(state).bindings@,
                ) {
                    Some(m) => r matches Err(s) && save_view(s) == invalid_spec(current_revision, m)
                        && state_view(*final(state)) == state_view(*old(state)),
                    None => r matches Ok(p) && plan_view(p) == pv && state_view(*final(state))
                        == apply_spec(state_view(*old(state)), p),
                }
            },
        },
{
    let plan = match plan_change(change) {
        Ok(p) => p,
        Err(m) => return Err(invalid_changeset(current_revision, m)),
    };
    let held = match &plan {
        ChangePlan::UpsertUml { .. } => false,
        ChangePlan::UpsertMockup { .. } => false,
        ChangePlan::ProposeMockup { .. } => false,
        ChangePlan::DeleteMockup { .. } => false,
        _ => true,
    };
    if !held {
        return Ok(plan);
    }
    match apply_change(state, &plan) {
        Ok(()) => Ok(plan),
        Err(m) => Err(invalid_changeset(current_revision, m)),
    }
}

/// The end of a save: the model the changes leave is validated, and a model that needs
/// corrections is refused with them, ordered by code, at the unchanged revision. `None` means
/// the save is stored.
pub fn finish_save(state: &DesignState, mockup_ids: &[String], current_revision: i64) -> (r: Option<
    DesignSaveResult,
>)
    ensures
        ({
            let cs = model_corrections(
                state.elements@,
                state.relationships@,
                state.diagrams@,
                state.bindings@,
                mockup_ids@,
            );
            match r {
                Some(s) => cs.len() > 0 && save_view(s) == (SaveView {
                    ok: false,
                    stored: false,
                    correction_required: true,
                    revision: current_revision,
                    errors: sort_by_code(cs),
                    structurizr_dsl: None,
                }),
                None => cs.len() == 0,
            }
        }),
{
    let corrections = validate_model(
        state.elements.as_slice(),
        state.relationships.as_slice(),
        state.diagrams.as_slice(),
        state.bindings.as_slice(),
        mockup_ids,
    );
    if corrections.len() == 0 {
        None
    } else {
        Some(rejected_save(current_revision, corrections))
    }
}

/// Law: every refusal of a save, before the changes, at a change or after validation, says
/// that nothing was stored and leaves the revision where it was.
pub proof fn law_refused_save_stores_nothing(
    current: i64,
    expected: i64,
    intent: Seq<char>,
    count: nat,
    message: Seq<char>,
)
    ensures
        precheck_spec(current, expected, intent, count) matches Some(v) ==> !v.ok && !v.stored
            && v.revision == current,
        ({
            let v = invalid_spec(current, message);
            !v.ok && !v.stored && v.revision == current
        }),
{
}

} // verus!
