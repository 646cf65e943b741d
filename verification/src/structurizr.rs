//! The Structurizr JSON model of a workspace: people, software systems with their containers
//! and components nested under them, and the container view of the internal system.
//!
//! Each element's JSON is made once, with the relationships that leave it; the first place
//! that takes an element gets that JSON, and any later place gets a plain copy of the element
//! without relationships.
use vstd::prelude::*;

use crate::design::{clone_element, clone_relationship, DesignElementRecord, DesignRelationshipRecord};
use crate::documents::strings_view;
use crate::dsl::{descent_exhausts, is_child_of};
use crate::model::is_internal_system;
use crate::scope::{id_in, lookup, lookup_exec};
use crate::settings::{chars_eq_ignore_ascii_case, eq_ignore_ascii_case};
use crate::text::{chars_of, owned, str_eq};

verus! {

broadcast use vstd::string::group_string_axioms;

/// One element of the model at its nesting depth (0 for a person or a software system), with
/// the relationships listed on it.
#[derive(Clone, Debug)]
pub struct StructurizrEntry {
    pub depth: usize,
    pub element: DesignElementRecord,
    pub relationships: Vec<DesignRelationshipRecord>,
}

/// An element of the container view and the ids of the relationships that leave it.
#[derive(Clone, Debug)]
pub struct ViewElement {
    pub id: String,
    pub relationship_ids: Vec<String>,
}

/// The model of a workspace. `systems` lists each software system followed by everything
/// nested under it, depth first; an entry one level deeper than the one before it starts that
/// entry's children.
#[derive(Clone, Debug)]
pub struct StructurizrModel {
    pub people: Vec<StructurizrEntry>,
    pub systems: Vec<StructurizrEntry>,
    pub root_system_id: String,
    pub view_elements: Vec<ViewElement>,
}

pub open spec fn entry_view(x: StructurizrEntry) -> (nat, DesignElementRecord, Seq<DesignRelationshipRecord>) {
    (x.depth as nat, x.element, x.relationships@)
}

pub open spec fn entries_view(v: Seq<StructurizrEntry>) -> Seq<(nat, DesignElementRecord, Seq<DesignRelationshipRecord>)> {
    v.map_values(|x: StructurizrEntry| entry_view(x))
}

/// The relationships that leave an id, in stored order.
pub open spec fn outgoing(rs: Seq<DesignRelationshipRecord>, id: Seq<char>) -> Seq<DesignRelationshipRecord>
    decreases rs.len(),
{
    if rs.len() == 0 {
        Seq::empty()
    } else if rs.last().source_external_id@ == id {
        outgoing(rs.drop_last(), id).push(rs.last())
    } else {
        outgoing(rs.drop_last(), id)
    }
}

pub open spec fn is_person(e: DesignElementRecord) -> bool {
    eq_ignore_ascii_case(e.element_type@, "Person"@)
}

pub open spec fn is_system(e: DesignElementRecord) -> bool {
    eq_ignore_ascii_case(e.element_type@, "Software System"@)
}

/// Takes an element at a depth: its stored JSON (the last element with its id, with the
/// relationships that leave the id) the first time the id is taken, else a plain copy.
pub open spec fn take(
    es: Seq<DesignElementRecord>,
    rs: Seq<DesignRelationshipRecord>,
    e: DesignElementRecord,
    depth: nat,
    taken: Set<Seq<char>>,
) -> ((nat, DesignElementRecord, Seq<DesignRelationshipRecord>), Set<Seq<char>>) {
    if taken.contains(e.external_id@) {
        ((depth, e, Seq::empty()), taken)
    } else {
        (
            (depth, lookup(es, e.external_id@).unwrap(), outgoing(rs, e.external_id@)),
            taken.insert(e.external_id@),
        )
    }
}

/// An element and, depth first, everything nested under it.
pub open spec fn subtree(
    es: Seq<DesignElementRecord>,
    rs: Seq<DesignRelationshipRecord>,
    e: DesignElementRecord,
    depth: nat,
    taken: Set<Seq<char>>,
    fuel: nat,
) -> (Seq<(nat, DesignElementRecord, Seq<DesignRelationshipRecord>)>, Set<Seq<char>>)
    decreases fuel, 0nat,
{
    let (entry, t1) = take(es, rs, e, depth, taken);
    if fuel == 0 {
        (seq![entry], t1)
    } else {
        let (kids, t2) = nested(es, rs, es, e.external_id@, depth + 1, t1, (fuel - 1) as nat);
        (seq![entry] + kids, t2)
    }
}

/// The subtrees of the elements of `scan` that sit under `parent`, in stored order.
pub open spec fn nested(
    es: Seq<DesignElementRecord>,
    rs: Seq<DesignRelationshipRecord>,
    scan: Seq<DesignElementRecord>,
    parent: Seq<char>,
    depth: nat,
    taken: Set<Seq<char>>,
    fuel: nat,
) -> (Seq<(nat, DesignElementRecord, Seq<DesignRelationshipRecord>)>, Set<Seq<char>>)
    decreases fuel, scan.len() + 1,
{
    if scan.len() == 0 {
        (Seq::empty(), taken)
    } else {
        let (before, t) = nested(es, rs, scan.drop_last(), parent, depth, taken, fuel);
        if is_child_of(scan.last(), parent) {
            let (sub, t2) = subtree(es, rs, scan.last(), depth, t, fuel);
            (before + sub, t2)
        } else {
            (before, t)
        }
    }
}

/// People and software systems at the top of the model, in stored order, with the ids taken
/// so far. A person already taken is left out.
pub open spec fn model_tops(
    es: Seq<DesignElementRecord>,
    rs: Seq<DesignRelationshipRecord>,
    scan: Seq<DesignElementRecord>,
) -> (
    Seq<(nat, DesignElementRecord, Seq<DesignRelationshipRecord>)>,
    Seq<(nat, DesignElementRecord, Seq<DesignRelationshipRecord>)>,
    Set<Seq<char>>,
)
    decreases scan.len(),
{
    if scan.len() == 0 {
        (Seq::empty(), Seq::empty(), Set::empty())
    } else {
        let (people, systems, t) = model_tops(es, rs, scan.drop_last());
        let e = scan.last();
        if e.parent_external_id is Some {
            (people, systems, t)
        } else if is_person(e) {
            if t.contains(e.external_id@) {
                (people, systems, t)
            } else {
                (
                    people.push((0, lookup(es, e.external_id@).unwrap(), outgoing(rs, e.external_id@))),
                    systems,
                    t.insert(e.external_id@),
                )
            }
        } else if is_system(e) {
            let (sub, t2) = subtree(es, rs, e, 0, t, es.len());
            (people, systems + sub, t2)
        } else {
            (people, systems, t)
        }
    }
}

/// The descent from every top-level software system ends.
pub open spec fn system_descents_end(es: Seq<DesignElementRecord>) -> bool {
    forall|i: int|
        0 <= i < es.len() && (#[trigger] es[i]).parent_external_id is None && is_system(es[i])
            ==> !descent_exhausts(es, es[i], es.len())
}

proof fn lemma_lookup_member(es: Seq<DesignElementRecord>, i: int)
    requires
        0 <= i < es.len(),
    ensures
        lookup(es, es[i].external_id@) is Some,
    decreases es.len(),
{
    if es.last().external_id@ != es[i].external_id@ {
        assert(i < es.len() - 1);
        assert(es.drop_last()[i] == es[i]);
        lemma_lookup_member(es.drop_last(), i);
    }
}

fn outgoing_exec(rs: &[DesignRelationshipRecord], id: &str) -> (r: Vec<DesignRelationshipRecord>)
    ensures
        r@ == outgoing(rs@, id@),
{
    let mut out: Vec<DesignRelationshipRecord> = Vec::new();
    let mut i: usize = 0;
    assert(rs@.take(0) =~= Seq::<DesignRelationshipRecord>::empty());
    while i < rs.len()
        invariant
            i <= rs@.len(),
            out@ == outgoing(rs@.take(i as int), id@),
        decreases rs.len() - i,
    {
        proof {
            assert(rs@.take(i + 1).drop_last() =~= rs@.take(i as int));
            assert(rs@.take(i + 1).last() == rs@[i as int]);
        }
        if str_eq(rs[i].source_external_id.as_str(), id) {
            out.push(clone_relationship(&rs[i]));
        }
        i += 1;
    }
    assert(rs@.take(rs@.len() as int) =~= rs@);
    out
}

fn take_exec(
    out: &mut Vec<StructurizrEntry>,
    taken: &mut Vec<String>,
    es: &[DesignElementRecord],
    rs: &[DesignRelationshipRecord],
    e: &DesignElementRecord,
    depth: usize,
    Ghost(t): Ghost<Set<Seq<char>>>,
)
    requires
        lookup(es@, e.external_id@) is Some,
        forall|x: Seq<char>| #[trigger] strings_view(old(taken)@).contains(x) <==> t.contains(x),
    ensures
        entries_view(final(out)@) == entries_view(old(out)@).push(
            take(es@, rs@, *e, depth as nat, t).0,
        ),
        forall|x: Seq<char>| #[trigger]
            strings_view(final(taken)@).contains(x) <==> take(es@, rs@, *e, depth as nat, t).1.contains(x),
{
    let ghost before = entries_view(out@);
    if id_in(taken, e.external_id.as_str()) {
        let entry = StructurizrEntry { depth, element: clone_element(e), relationships: Vec::new() };
        out.push(entry);
        assert(entries_view(out@) =~= before.push(entry_view(entry)));
    } else {
        let stored = match lookup_exec(es, e.external_id.as_str()) {
            Some(s) => clone_element(s),
            None => clone_element(e),
        };
        let entry = StructurizrEntry {
            depth,
            element: stored,
            relationships: outgoing_exec(rs, e.external_id.as_str()),
        };
        out.push(entry);
        assert(entries_view(out@) =~= before.push(entry_view(entry)));
        let ghost tb = strings_view(taken@);
        taken.push(owned(e.external_id.as_str()));
        assert(strings_view(taken@) =~= tb.push(e.external_id@));
        assert forall|x: Seq<char>| #[trigger] strings_view(taken@).contains(x) <==> t.insert(
            e.external_id@,
        ).contains(x) by {
            if tb.contains(x) {
                let q = choose|q: int| 0 <= q < tb.len() && tb[q] == x;
                assert(strings_view(taken@)[q] == x);
            }
            if x == e.external_id@ {
                assert(strings_view(taken@)[tb.len() as int] == x);
            }
            if strings_view(taken@).contains(x) {
                let q = choose|q: int| 0 <= q < strings_view(taken@).len() && strings_view(taken@)[q] == x;
                if q < tb.len() {
                    assert(tb[q] == x);
                }
            }
        }
    }
}

fn push_subtree(
    out: &mut Vec<StructurizrEntry>,
    taken: &mut Vec<String>,
    es: &[DesignElementRecord],
    rs: &[DesignRelationshipRecord],
    e: &DesignElementRecord,
    depth: usize,
    fuel: usize,
    Ghost(t): Ghost<Set<Seq<char>>>,
)
    requires
        lookup(es@, e.external_id@) is Some,
        depth + fuel <= usize::MAX,
        forall|x: Seq<char>| #[trigger] strings_view(old(taken)@).contains(x) <==> t.contains(x),
    ensures
        entries_view(final(out)@) == entries_view(old(out)@) + subtree(
            es@,
            rs@,
            *e,
            depth as nat,
            t,
            fuel as nat,
        ).0,
        forall|x: Seq<char>| #[trigger]
            strings_view(final(taken)@).contains(x) <==> subtree(
                es@,
                rs@,
                *e,
                depth as nat,
                t,
                fuel as nat,
            ).1.contains(x),
    decreases fuel, 0nat,
{
    let ghost start = entries_view(out@);
    take_exec(out, taken, es, rs, e, depth, Ghost(t));
    let ghost t1 = take(es@, rs@, *e, depth as nat, t).1;
    let ghost entry = take(es@, rs@, *e, depth as nat, t).0;
    if fuel == 0 {
        assert(entries_view(out@) =~= start + seq![entry]);
        return;
    }
    let ghost s1 = entries_view(out@);
    assert(s1 =~= start + seq![entry]);
    let mut i: usize = 0;
    assert(es@.take(0) =~= Seq::<DesignElementRecord>::empty());
    assert(s1 + Seq::<(nat, DesignElementRecord, Seq<DesignRelationshipRecord>)>::empty() =~= s1);
    while i < es.len()
        invariant
            i <= es@.len(),
            fuel > 0,
            depth + fuel <= usize::MAX,
            entries_view(out@) == s1 + nested(
                es@,
                rs@,
                es@.take(i as int),
                e.external_id@,
                (depth + 1) as nat,
                t1,
                (fuel - 1) as nat,
            ).0,
            forall|x: Seq<char>| #[trigger]
                strings_view(taken@).contains(x) <==> nested(
                    es@,
                    rs@,
                    es@.take(i as int),
                    e.external_id@,
                    (depth + 1) as nat,
                    t1,
                    (fuel - 1) as nat,
                ).1.contains(x),
        decreases es.len() - i,
    {
        proof {
            assert(es@.take(i + 1).drop_last() =~= es@.take(i as int));
            assert(es@.take(i + 1).last() == es@[i as int]);
        }
        let ghost prev = nested(
            es@,
            rs@,
            es@.take(i as int),
            e.external_id@,
            (depth + 1) as nat,
            t1,
            (fuel - 1) as nat,
        );
        let child = &es[i];
        let under = match &child.parent_external_id {
            Some(p) => str_eq(p.as_str(), e.external_id.as_str()),
            None => false,
        };
        if under {
            proof {
                lemma_lookup_member(es@, i as int);
            }
            push_subtree(out, taken, es, rs, child, depth + 1, fuel - 1, Ghost(prev.1));
            assert(entries_view(out@) =~= s1 + nested(
                es@,
                rs@,
                es@.take(i + 1),
                e.external_id@,
                (depth + 1) as nat,
                t1,
                (fuel - 1) as nat,
            ).0);
        }
        i += 1;
    }
    assert(es@.take(es@.len() as int) =~= es@);
}

/// The id of the first internal software system, or empty.
pub open spec fn root_system_id_spec(es: Seq<DesignElementRecord>) -> Seq<char> {
    if exists|i: int| 0 <= i < es.len() && is_internal_system(#[trigger] es[i]) {
        es[crate::dsl::first_index(es, |e: DesignElementRecord| is_internal_system(e))].external_id@
    } else {
        Seq::empty()
    }
}

pub open spec fn view_element_spec(rs: Seq<DesignRelationshipRecord>, e: DesignElementRecord) -> (
    Seq<char>,
    Seq<Seq<char>>,
) {
    (e.external_id@, outgoing(rs, e.external_id@).map_values(|r: DesignRelationshipRecord| r.external_id@))
}

pub open spec fn view_element_view(v: ViewElement) -> (Seq<char>, Seq<Seq<char>>) {
    (v.id@, strings_view(v.relationship_ids@))
}

fn is_type(e: &DesignElementRecord, name: &str) -> (b: bool)
    ensures
        b == eq_ignore_ascii_case(e.element_type@, name@),
{
    let t = chars_of(e.element_type.as_str());
    let n = chars_of(name);
    chars_eq_ignore_ascii_case(t.as_slice(), n.as_slice())
}

fn root_system_id(es: &[DesignElementRecord]) -> (r: String)
    ensures
        r@ == root_system_id_spec(es@),
{
    let mut i: usize = 0;
    while i < es.len()
        invariant
            i <= es@.len(),
            forall|j: int| 0 <= j < i ==> !is_internal_system(#[trigger] es@[j]),
        decreases es.len() - i,
    {
        if is_type(&es[i], "Software System") && !crate::model::has_tag(es[i].tags.as_str(), "External") {
            proof {
                crate::dsl::lemma_first_index(
                    es@,
                    |e: DesignElementRecord| is_internal_system(e),
                    i as int,
                );
            }
            return owned(es[i].external_id.as_str());
        }
        i += 1;
    }
    String::new()
}

/// The Structurizr model of a workspace: its people, its software systems with everything
/// nested under them, the id of the internal system the container view shows, and each
/// element of that view with the relationships that leave it.
pub fn build_structurizr_model(
    elements: &[DesignElementRecord],
    relationships: &[DesignRelationshipRecord],
) -> (r: StructurizrModel)
    requires
        system_descents_end(elements@),
        elements@.len() < usize::MAX,
    ensures
        entries_view(r.people@) == model_tops(elements@, relationships@, elements@).0,
        entries_view(r.systems@) == model_tops(elements@, relationships@, elements@).1,
        r.root_system_id@ == root_system_id_spec(elements@),
        r.view_elements@.map_values(|v: ViewElement| view_element_view(v)) == elements@.map_values(
            |e: DesignElementRecord| view_element_spec(relationships@, e),
        ),
{
    let n = elements.len();
    let mut people: Vec<StructurizrEntry> = Vec::new();
    let mut systems: Vec<StructurizrEntry> = Vec::new();
    let mut taken: Vec<String> = Vec::new();
    let mut i: usize = 0;
    assert(elements@.take(0) =~= Seq::<DesignElementRecord>::empty());
    assert(entries_view(people@) =~= Seq::<(nat, DesignElementRecord, Seq<DesignRelationshipRecord>)>::empty());
    assert(entries_view(systems@) =~= Seq::<(nat, DesignElementRecord, Seq<DesignRelationshipRecord>)>::empty());
    while i < n
        invariant
            i <= n,
            n == elements@.len(),
            n < usize::MAX,
            entries_view(people@) == model_tops(elements@, relationships@, elements@.take(i as int)).0,
            entries_view(systems@) == model_tops(elements@, relationships@, elements@.take(i as int)).1,
            forall|x: Seq<char>| #[trigger]
                strings_view(taken@).contains(x) <==> model_tops(
                    elements@,
                    relationships@,
                    elements@.take(i as int),
                ).2.contains(x),
        decreases n - i,
    {
        proof {
            assert(elements@.take(i + 1).drop_last() =~= elements@.take(i as int));
            assert(elements@.take(i + 1).last() == elements@[i as int]);
            lemma_lookup_member(elements@, i as int);
        }
        let ghost prev = model_tops(elements@, relationships@, elements@.take(i as int));
        let e = &elements[i];
        if e.parent_external_id.is_none() {
            if is_type(e, "Person") {
                if !id_in(&taken, e.external_id.as_str()) {
                    take_exec(&mut people, &mut taken, elements, relationships, e, 0, Ghost(prev.2));
                }
            } else if is_type(e, "Software System") {
                let ghost before = entries_view(systems@);
                push_subtree(&mut systems, &mut taken, elements, relationships, e, 0, n, Ghost(prev.2));
            }
        }
        i += 1;
    }
    assert(elements@.take(n as int) =~= elements@);
    let mut view_elements: Vec<ViewElement> = Vec::new();
    let mut k: usize = 0;
    while k < n
        invariant
            k <= n,
            n == elements@.len(),
            view_elements@.map_values(|v: ViewElement| view_element_view(v)) == elements@.take(
                k as int,
            ).map_values(|e: DesignElementRecord| view_element_spec(relationships@, e)),
        decreases n - k,
    {
        let e = &elements[k];
        let outs = outgoing_exec(relationships, e.external_id.as_str());
        let mut ids: Vec<String> = Vec::new();
        let mut j: usize = 0;
        while j < outs.len()
            invariant
                j <= outs@.len(),
                strings_view(ids@) == outs@.take(j as int).map_values(
                    |r: DesignRelationshipRecord| r.external_id@,
                ),
            decreases outs.len() - j,
        {
            let ghost b = strings_view(ids@);
            ids.push(owned(outs[j].external_id.as_str()));
            assert(strings_view(ids@) =~= b.push(outs@[j as int].external_id@));
            assert(outs@.take(j + 1).map_values(|r: DesignRelationshipRecord| r.external_id@)
                =~= outs@.take(j as int).map_values(|r: DesignRelationshipRecord| r.external_id@).push(
                outs@[j as int].external_id@,
            ));
            j += 1;
        }
        assert(outs@.take(outs@.len() as int) =~= outs@);
        let v = ViewElement { id: owned(e.external_id.as_str()), relationship_ids: ids };
        let ghost before = view_elements@.map_values(|v: ViewElement| view_element_view(v));
        view_elements.push(v);
        assert(view_elements@.map_values(|v: ViewElement| view_element_view(v)) =~= before.push(
            view_element_view(v),
        ));
        assert(elements@.take(k + 1).map_values(
            |e: DesignElementRecord| view_element_spec(relationships@, e),
        ) =~= elements@.take(k as int).map_values(
            |e: DesignElementRecord| view_element_spec(relationships@, e),
        ).push(view_element_spec(relationships@, elements@[k as int])));
        k += 1;
    }
    assert(elements@.take(n as int) =~= elements@);
    StructurizrModel {
        people,
        systems,
        root_system_id: root_system_id(elements),
        view_elements,
    }
}

/// Whether the descent from every top-level software system ends.
pub fn system_descents_end_exec(elements: &[DesignElementRecord]) -> (b: bool)
    ensures
        b == system_descents_end(elements@),
{
    let mut i: usize = 0;
    while i < elements.len()
        invariant
            i <= elements@.len(),
            forall|j: int|
                0 <= j < i && (#[trigger] elements@[j]).parent_external_id is None && is_system(elements@[j])
                    ==> !descent_exhausts(elements@, elements@[j], elements@.len()),
        decreases elements.len() - i,
    {
        if elements[i].parent_external_id.is_none() && is_type(&elements[i], "Software System")
            && crate::dsl::descent_exhausts_exec(elements, &elements[i], elements.len()) {
            return false;
        }
        i += 1;
    }
    true
}

} // verus!
