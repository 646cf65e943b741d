//! Navigating the element tree: depth, ancestors, the scope under an element, and the
//! records a scope holds.
use vstd::prelude::*;

use crate::design::{
    is_supported_type_list, DesignBindingRecord, DesignDiagramRecord, DesignElementRecord,
    DesignRelationshipRecord, DesignScopeResult, MockupSummary,
};
use crate::documents::strings_view;
use crate::text::{owned, seq_order, str_eq};

verus! {

broadcast use vstd::string::group_string_axioms;

// ---------------------------------------------------------------- looking elements up

/// The element an id resolves to: the last stored element with that id.
pub open spec fn lookup(es: Seq<DesignElementRecord>, id: Seq<char>) -> Option<DesignElementRecord>
    decreases es.len(),
{
    if es.len() == 0 {
        None
    } else if es.last().external_id@ == id {
        Some(es.last())
    } else {
        lookup(es.drop_last(), id)
    }
}

pub open spec fn parent_view(e: DesignElementRecord) -> Option<Seq<char>> {
    match e.parent_external_id {
        Some(p) => Some(p@),
        None => None,
    }
}

/// The parent of the element an id resolves to; an unknown id has none.
pub open spec fn parent_of(es: Seq<DesignElementRecord>, id: Seq<char>) -> Option<Seq<char>> {
    match lookup(es, id) {
        Some(e) => parent_view(e),
        None => None,
    }
}

/// The ids met walking up from `p`: `p`, its parent, and so on, until an element without a
/// parent or an unknown id. `None` when the walk is longer than `fuel`.
pub open spec fn chain(es: Seq<DesignElementRecord>, p: Option<Seq<char>>, fuel: nat) -> Option<
    Seq<Seq<char>>,
>
    decreases fuel,
{
    match p {
        None => Some(Seq::empty()),
        Some(id) => if fuel == 0 {
            None
        } else {
            match chain(es, parent_of(es, id), (fuel - 1) as nat) {
                Some(rest) => Some(seq![id] + rest),
                None => None,
            }
        },
    }
}

/// The walk up from `p` ends. An acyclic walk meets each element at most once, so it ends
/// within one step more than there are elements; a walk that does not ends never.
pub open spec fn chain_ends(es: Seq<DesignElementRecord>, p: Option<Seq<char>>) -> bool {
    chain(es, p, es.len() + 1) is Some
}

/// How many ancestors an element has.
pub open spec fn depth_of(es: Seq<DesignElementRecord>, e: DesignElementRecord) -> nat {
    chain(es, parent_view(e), es.len() + 1).unwrap().len()
}

pub(crate) fn lookup_exec<'a>(es: &'a [DesignElementRecord], id: &str) -> (r: Option<&'a DesignElementRecord>)
    ensures
        match r {
            Some(e) => lookup(es@, id@) == Some(*e),
            None => lookup(es@, id@) is None,
        },
{
    let mut i = es.len();
    assert(es@.take(i as int) =~= es@);
    while i > 0
        invariant
            i <= es@.len(),
            lookup(es@, id@) == lookup(es@.take(i as int), id@),
        decreases i,
    {
        proof {
            assert(es@.take(i as int).drop_last() =~= es@.take(i - 1));
            assert(es@.take(i as int).last() == es@[i - 1]);
        }
        if str_eq(es[i - 1].external_id.as_str(), id) {
            return Some(&es[i - 1]);
        }
        i -= 1;
    }
    None
}

fn parent_exec<'a>(es: &'a [DesignElementRecord], id: &str) -> (r: Option<&'a str>)
    ensures
        match r {
            Some(p) => parent_of(es@, id@) == Some(p@),
            None => parent_of(es@, id@) is None,
        },
{
    match lookup_exec(es, id) {
        Some(e) => match &e.parent_external_id {
            Some(p) => Some(p.as_str()),
            None => None,
        },
        None => None,
    }
}

/// How many ancestors an element has, walking up through the elements ids resolve to.
pub fn element_depth(element: &DesignElementRecord, elements: &[DesignElementRecord]) -> (d: usize)
    requires
        chain_ends(elements@, parent_view(*element)),
        elements@.len() < usize::MAX,
    ensures
        d == depth_of(elements@, *element),
{
    let ghost n = (elements@.len() + 1) as nat;
    let mut depth: usize = 0;
    let mut current: Option<&str> = match &element.parent_external_id {
        Some(p) => Some(p.as_str()),
        None => None,
    };
    let ghost cur: Option<Seq<char>> = parent_view(*element);
    loop
        invariant
            depth <= n,
            n == elements@.len() + 1,
            elements@.len() < usize::MAX,
            cur == match current {
                Some(c) => Some(c@),
                None => None,
            },
            chain(elements@, cur, (n - depth) as nat) is Some,
            chain(elements@, parent_view(*element), n).unwrap().len() == depth + chain(
                elements@,
                cur,
                (n - depth) as nat,
            ).unwrap().len(),
        decreases n - depth,
    {
        match current {
            None => {
                return depth;
            },
            Some(c) => {
                let next = parent_exec(elements, c);
                proof {
                    cur = parent_of(elements@, c@);
                }
                current = next;
                depth += 1;
            },
        }
    }
}
/// The elements at most `max_depth` levels below the top, in stored order; all of them
/// without a limit.
pub open spec fn shallow_elements(
    es: Seq<DesignElementRecord>,
    scan: Seq<DesignElementRecord>,
    max_depth: Option<usize>,
) -> Seq<DesignElementRecord>
    decreases scan.len(),
{
    if scan.len() == 0 {
        Seq::empty()
    } else {
        let rest = shallow_elements(es, scan.drop_last(), max_depth);
        match max_depth {
            Some(d) => if depth_of(es, scan.last()) <= d {
                rest.push(scan.last())
            } else {
                rest
            },
            None => rest.push(scan.last()),
        }
    }
}

/// Every element's walk up ends.
pub open spec fn chains_end(es: Seq<DesignElementRecord>) -> bool {
    forall|i: int| 0 <= i < es.len() ==> chain_ends(es, parent_view(#[trigger] es[i]))
}

/// Keeps the elements at most `max_depth` levels below the top.
pub fn filter_elements_by_depth(elements: Vec<DesignElementRecord>, max_depth: Option<usize>) -> (r:
    Vec<DesignElementRecord>)
    requires
        max_depth is Some ==> chains_end(elements@),
        elements@.len() < usize::MAX,
    ensures
        r@ == shallow_elements(elements@, elements@, max_depth),
{
    let d = match max_depth {
        None => {
            proof {
                lemma_shallow_all(elements@, elements@);
            }
            return elements;
        },
        Some(d) => d,
    };
    let mut out: Vec<DesignElementRecord> = Vec::new();
    let mut i: usize = 0;
    assert(elements@.take(0) =~= Seq::<DesignElementRecord>::empty());
    while i < elements.len()
        invariant
            i <= elements@.len(),
            max_depth == Some(d),
            chains_end(elements@),
            elements@.len() < usize::MAX,
            out@ == shallow_elements(elements@, elements@.take(i as int), max_depth),
        decreases elements.len() - i,
    {
        proof {
            assert(elements@.take(i + 1).drop_last() =~= elements@.take(i as int));
            assert(elements@.take(i + 1).last() == elements@[i as int]);
            assert(chain_ends(elements@, parent_view(elements@[i as int])));
        }
        if element_depth(&elements[i], elements.as_slice()) <= d {
            out.push(crate::design::clone_element(&elements[i]));
        }
        i += 1;
    }
    assert(elements@.take(elements@.len() as int) =~= elements@);
    out
}

proof fn lemma_shallow_all(es: Seq<DesignElementRecord>, scan: Seq<DesignElementRecord>)
    ensures
        shallow_elements(es, scan, None) == scan,
    decreases scan.len(),
{
    if scan.len() > 0 {
        lemma_shallow_all(es, scan.drop_last());
        assert(scan.drop_last().push(scan.last()) =~= scan);
    }
}

/// Whether the walk up from an element's parent ends, so that its ancestors can be listed.
pub fn ancestry_ends(elements: &[DesignElementRecord], element_id: &str) -> (b: bool)
    requires
        elements@.len() < usize::MAX,
    ensures
        b == chain_ends(elements@, parent_of(elements@, element_id@)),
{
    let ghost n = (elements@.len() + 1) as nat;
    let mut current: Option<&str> = parent_exec(elements, element_id);
    let ghost cur: Option<Seq<char>> = parent_of(elements@, element_id@);
    let mut steps: usize = 0;
    loop
        invariant
            steps <= n,
            n == elements@.len() + 1,
            elements@.len() < usize::MAX,
            cur == match current {
                Some(c) => Some(c@),
                None => None,
            },
            chain(elements@, parent_of(elements@, element_id@), n) is Some <==> chain(
                elements@,
                cur,
                (n - steps) as nat,
            ) is Some,
        decreases n - steps,
    {
        match current {
            None => {
                return true;
            },
            Some(c) => {
                if steps == elements.len() + 1 {
                    return false;
                }
                let next = parent_exec(elements, c);
                proof {
                    cur = parent_of(elements@, c@);
                }
                current = next;
                steps += 1;
            },
        }
    }
}

/// Whether every element's walk up ends, so that every depth is defined.
pub fn all_chains_end(elements: &[DesignElementRecord]) -> (b: bool)
    requires
        elements@.len() < usize::MAX,
    ensures
        b == chains_end(elements@),
{
    let mut i: usize = 0;
    while i < elements.len()
        invariant
            i <= elements@.len(),
            elements@.len() < usize::MAX,
            forall|j: int| 0 <= j < i ==> chain_ends(elements@, parent_view(#[trigger] elements@[j])),
        decreases elements.len() - i,
    {
        let e = &elements[i];
        let ends = match &e.parent_external_id {
            None => true,
            Some(p) => {
                let ghost n = (elements@.len() + 1) as nat;
                let mut current: Option<&str> = Some(p.as_str());
                let ghost cur: Option<Seq<char>> = parent_view(*e);
                let mut steps: usize = 0;
                let mut result = true;
                loop
                    invariant
                        steps <= n,
                        n == elements@.len() + 1,
                        elements@.len() < usize::MAX,
                        cur == match current {
                            Some(c) => Some(c@),
                            None => None,
                        },
                        chain(elements@, parent_view(*e), n) is Some <==> chain(
                            elements@,
                            cur,
                            (n - steps) as nat,
                        ) is Some,
                    ensures
                        result == (chain(elements@, parent_view(*e), n) is Some),
                    decreases n - steps,
                {
                    match current {
                        None => {
                            result = true;
                            break;
                        },
                        Some(c) => {
                            if steps == elements.len() + 1 {
                                result = false;
                                break;
                            }
                            let next = parent_exec(elements, c);
                            proof {
                                cur = parent_of(elements@, c@);
                            }
                            current = next;
                            steps += 1;
                        },
                    }
                }
                result
            },
        };
        if !ends {
            return false;
        }
        i += 1;
    }
    true
}

// ---------------------------------------------------------------- the scope under an element

/// An element sits under one of the ids in `s`.
pub open spec fn child_of_any(e: DesignElementRecord, s: Set<Seq<char>>) -> bool {
    match parent_view(e) {
        Some(p) => s.contains(p),
        None => false,
    }
}

/// The ids of the elements under any id in `s`.
pub open spec fn children_ids(es: Seq<DesignElementRecord>, s: Set<Seq<char>>) -> Set<Seq<char>> {
    Set::new(
        |id: Seq<char>|
            exists|i: int|
                0 <= i < es.len() && (#[trigger] es[i]).external_id@ == id && child_of_any(es[i], s),
    )
}

/// The ids at most `r` levels below the root, the root included.
pub open spec fn reach(es: Seq<DesignElementRecord>, root: Seq<char>, r: nat) -> Set<Seq<char>>
    decreases r,
{
    if r == 0 {
        set![root]
    } else {
        let s = reach(es, root, (r - 1) as nat);
        s.union(children_ids(es, s))
    }
}

/// How many levels a scope reaches down: all of them when no depth is given.
pub open spec fn depth_limit(children_depth: Option<usize>) -> nat {
    match children_depth {
        Some(d) => d as nat,
        None => usize::MAX as nat,
    }
}

proof fn lemma_reach_fixpoint(es: Seq<DesignElementRecord>, root: Seq<char>, r: nat, s: nat)
    requires
        reach(es, root, r + 1) == reach(es, root, r),
        r <= s,
    ensures
        reach(es, root, s) == reach(es, root, r),
    decreases s - r,
{
    if s > r {
        lemma_reach_fixpoint(es, root, r, (s - 1) as nat);
        assert(reach(es, root, s) == reach(es, root, (s - 1) as nat).union(
            children_ids(es, reach(es, root, (s - 1) as nat)),
        ));
    }
}

pub open spec fn added_by(es: Seq<DesignElementRecord>, s: Set<Seq<char>>, k: int, x: Seq<char>) -> bool {
    exists|q: int| 0 <= q < k && (#[trigger] es[q]).external_id@ == x && child_of_any(es[q], s)
}

fn contains_id(ids: &Vec<String>, upto: usize, x: &str) -> (b: bool)
    requires
        upto <= ids@.len(),
    ensures
        b == strings_view(ids@).take(upto as int).contains(x@),
{
    let mut j: usize = 0;
    while j < upto
        invariant
            j <= upto <= ids@.len(),
            forall|q: int| 0 <= q < j ==> ids@[q]@ != x@,
        decreases upto - j,
    {
        if str_eq(ids[j].as_str(), x) {
            assert(strings_view(ids@).take(upto as int)[j as int] == x@);
            return true;
        }
        j += 1;
    }
    assert(!strings_view(ids@).take(upto as int).contains(x@)) by {
        if strings_view(ids@).take(upto as int).contains(x@) {
            let q = choose|q: int| 0 <= q < upto && strings_view(ids@).take(upto as int)[q] == x@;
            assert(ids@[q]@ == x@);
        }
    }
    false
}

/// The ids of an element and of everything at most `children_depth` levels below it (all
/// levels when no depth is given). Each level is taken whole before the next one.
pub fn collect_descendants(
    elements: &[DesignElementRecord],
    root_id: &str,
    children_depth: Option<usize>,
) -> (r: Vec<String>)
    ensures
        forall|x: Seq<char>| #[trigger]
            strings_view(r@).contains(x) <==> reach(elements@, root_id@, depth_limit(children_depth)).contains(x),
{
    let max_depth: usize = match children_depth {
        Some(d) => d,
        None => usize::MAX,
    };
    let mut ids: Vec<String> = Vec::new();
    ids.push(owned(root_id));
    let ghost es = elements@;
    let ghost root = root_id@;
    assert forall|x: Seq<char>| #[trigger] strings_view(ids@).contains(x) <==> reach(es, root, 0).contains(x) by {
        if strings_view(ids@).contains(x) {
            let q = choose|q: int| 0 <= q < strings_view(ids@).len() && strings_view(ids@)[q] == x;
        }
        if x == root {
            assert(strings_view(ids@)[0] == x);
        }
    }
    let mut depth: usize = 0;
    while depth < max_depth
        invariant
            es == elements@,
            root == root_id@,
            max_depth == depth_limit(children_depth),
            depth <= max_depth,
            forall|x: Seq<char>| #[trigger]
                strings_view(ids@).contains(x) <==> reach(es, root, depth as nat).contains(x),
        decreases max_depth - depth,
    {
        let ghost rset = reach(es, root, depth as nat);
        let m = ids.len();
        let ghost start = strings_view(ids@);
        assert(start.take(m as int) =~= start);
        let mut added = false;
        let mut k: usize = 0;
        while k < elements.len()
            invariant
                es == elements@,
                m <= ids@.len(),
                k <= es.len(),
                strings_view(ids@).take(m as int) == start,
                forall|x: Seq<char>| #[trigger] start.contains(x) <==> rset.contains(x),
                forall|x: Seq<char>| #[trigger]
                    strings_view(ids@).contains(x) <==> (rset.contains(x) || added_by(es, rset, k as int, x)),
                !added ==> ids@.len() == m,
                added ==> ids@.len() > m,
            decreases elements.len() - k,
        {
            let e = &elements[k];
            let under = match &e.parent_external_id {
                Some(p) => contains_id(&ids, m, p.as_str()),
                None => false,
            };
            assert(under == child_of_any(es[k as int], rset));
            let ghost before = strings_view(ids@);
            if under && !contains_id(&ids, ids.len(), e.external_id.as_str()) {
                proof {
                    assert(strings_view(ids@).take(ids@.len() as int) =~= strings_view(ids@));
                }
                ids.push(owned(e.external_id.as_str()));
                added = true;
                proof {
                    assert(strings_view(ids@) =~= before.push(es[k as int].external_id@));
                    assert(strings_view(ids@).take(m as int) =~= before.take(m as int));
                }
            } else {
                proof {
                    assert(strings_view(ids@).take(ids@.len() as int) =~= strings_view(ids@));
                }
            }
            assert forall|x: Seq<char>| #[trigger]
                strings_view(ids@).contains(x) <==> (rset.contains(x) || added_by(es, rset, k + 1, x)) by {
                if added_by(es, rset, k + 1, x) && !added_by(es, rset, k as int, x) {
                    let q = choose|q: int|
                        0 <= q < k + 1 && (#[trigger] es[q]).external_id@ == x && child_of_any(es[q], rset);
                    assert(q == k);
                }
                if added_by(es, rset, k as int, x) {
                    let q = choose|q: int|
                        0 <= q < k && (#[trigger] es[q]).external_id@ == x && child_of_any(es[q], rset);
                    assert(added_by(es, rset, k + 1, x));
                }
                if strings_view(ids@).contains(x) && !before.contains(x) {
                    assert(x == es[k as int].external_id@);
                    assert(added_by(es, rset, k + 1, x));
                }
                if before.contains(x) {
                    let q = choose|q: int| 0 <= q < before.len() && before[q] == x;
                    assert(strings_view(ids@)[q] == x);
                }
                if x == es[k as int].external_id@ && child_of_any(es[k as int], rset) {
                    if !before.contains(x) {
                        assert(strings_view(ids@)[before.len() as int] == x);
                    }
                }
            }
            k += 1;
        }
        proof {
            let next = reach(es, root, (depth + 1) as nat);
            assert(next == rset.union(children_ids(es, rset)));
            assert forall|x: Seq<char>| added_by(es, rset, es.len() as int, x) <==> #[trigger] children_ids(
                es,
                rset,
            ).contains(x) by {}
        }
        if !added {
            proof {
                let next = reach(es, root, (depth + 1) as nat);
                assert(strings_view(ids@).take(m as int) =~= strings_view(ids@));
                assert(strings_view(ids@) =~= start);
                assert forall|x: Seq<char>| next.contains(x) <==> rset.contains(x) by {
                    if children_ids(es, rset).contains(x) {
                        assert(added_by(es, rset, es.len() as int, x));
                        assert(strings_view(ids@).contains(x));
                        assert(start.contains(x));
                    }
                }
                assert(next =~= rset);
                lemma_reach_fixpoint(es, root, depth as nat, max_depth as nat);
            }
            assert forall|x: Seq<char>| #[trigger]
                strings_view(ids@).contains(x) <==> reach(es, root, depth_limit(children_depth)).contains(x) by {}
            return ids;
        }
        depth += 1;
    }
    ids
}

// ---------------------------------------------------------------- what a scope holds

/// The elements whose id is in `s`, in stored order.
pub open spec fn elements_in(es: Seq<DesignElementRecord>, s: Set<Seq<char>>) -> Seq<DesignElementRecord>
    decreases es.len(),
{
    if es.len() == 0 {
        Seq::empty()
    } else if s.contains(es.last().external_id@) {
        elements_in(es.drop_last(), s).push(es.last())
    } else {
        elements_in(es.drop_last(), s)
    }
}

/// The relationships with an end in `s`, in stored order.
pub open spec fn relationships_touching(rs: Seq<DesignRelationshipRecord>, s: Set<Seq<char>>) -> Seq<
    DesignRelationshipRecord,
>
    decreases rs.len(),
{
    if rs.len() == 0 {
        Seq::empty()
    } else if s.contains(rs.last().source_external_id@) || s.contains(
        rs.last().destination_external_id@,
    ) {
        relationships_touching(rs.drop_last(), s).push(rs.last())
    } else {
        relationships_touching(rs.drop_last(), s)
    }
}

pub open spec fn attached_in(a: Option<String>, s: Set<Seq<char>>) -> bool {
    match a {
        Some(id) => s.contains(id@),
        None => false,
    }
}

/// The diagrams attached to an id in `s`, in stored order.
pub open spec fn diagrams_attached(ds: Seq<DesignDiagramRecord>, s: Set<Seq<char>>) -> Seq<
    DesignDiagramRecord,
>
    decreases ds.len(),
{
    if ds.len() == 0 {
        Seq::empty()
    } else if attached_in(ds.last().attached_to_external_id, s) {
        diagrams_attached(ds.drop_last(), s).push(ds.last())
    } else {
        diagrams_attached(ds.drop_last(), s)
    }
}

/// The bindings of an id in `s`, in stored order.
pub open spec fn bindings_of(bs: Seq<DesignBindingRecord>, s: Set<Seq<char>>) -> Seq<
    DesignBindingRecord,
>
    decreases bs.len(),
{
    if bs.len() == 0 {
        Seq::empty()
    } else if s.contains(bs.last().design_external_id@) {
        bindings_of(bs.drop_last(), s).push(bs.last())
    } else {
        bindings_of(bs.drop_last(), s)
    }
}

/// The mockups attached to an id in `s`, in stored order.
pub open spec fn mockups_attached(ms: Seq<MockupSummary>, s: Set<Seq<char>>) -> Seq<MockupSummary>
    decreases ms.len(),
{
    if ms.len() == 0 {
        Seq::empty()
    } else if s.contains(ms.last().attached_to_external_id@) {
        mockups_attached(ms.drop_last(), s).push(ms.last())
    } else {
        mockups_attached(ms.drop_last(), s)
    }
}

/// Inserts an element after every element whose id does not sort after its own.
pub open spec fn insert_by_id(s: Seq<DesignElementRecord>, e: DesignElementRecord) -> Seq<
    DesignElementRecord,
>
    decreases s.len(),
{
    if s.len() == 0 {
        seq![e]
    } else if seq_order(e.external_id@, s.last().external_id@) >= 0 {
        s.push(e)
    } else {
        insert_by_id(s.drop_last(), e).push(s.last())
    }
}

/// The elements ordered by id; elements with equal ids keep their order.
pub open spec fn sort_by_id(s: Seq<DesignElementRecord>) -> Seq<DesignElementRecord>
    decreases s.len(),
{
    if s.len() == 0 {
        Seq::empty()
    } else {
        insert_by_id(sort_by_id(s.drop_last()), s.last())
    }
}

proof fn lemma_insert_by_id_at(s: Seq<DesignElementRecord>, e: DesignElementRecord, i: int)
    requires
        0 <= i <= s.len(),
        forall|j: int| i <= j < s.len() ==> seq_order(e.external_id@, (#[trigger] s[j]).external_id@) < 0,
        i > 0 ==> seq_order(e.external_id@, s[i - 1].external_id@) >= 0,
    ensures
        insert_by_id(s, e) == s.take(i) + seq![e] + s.skip(i),
    decreases s.len() - i,
{
    if s.len() == 0 {
        assert(s.take(i) + seq![e] + s.skip(i) =~= seq![e]);
    } else if i == s.len() {
        assert(s.take(i) + seq![e] + s.skip(i) =~= s.push(e));
    } else {
        let t = s.drop_last();
        assert forall|j: int| i <= j < t.len() implies seq_order(
            e.external_id@,
            (#[trigger] t[j]).external_id@,
        ) < 0 by {
            assert(t[j] == s[j]);
        }
        lemma_insert_by_id_at(t, e, i);
        assert(t.take(i) + seq![e] + t.skip(i) + seq![s.last()] =~= s.take(i) + seq![e] + s.skip(i));
    }
}

fn sorted_by_id(v: Vec<DesignElementRecord>) -> (r: Vec<DesignElementRecord>)
    ensures
        r@ == sort_by_id(v@),
{
    let mut out: Vec<DesignElementRecord> = Vec::new();
    let mut k: usize = 0;
    assert(v@.take(0) =~= Seq::<DesignElementRecord>::empty());
    while k < v.len()
        invariant
            k <= v@.len(),
            out@ == sort_by_id(v@.take(k as int)),
        decreases v.len() - k,
    {
        proof {
            assert(v@.take(k + 1).drop_last() =~= v@.take(k as int));
            assert(v@.take(k + 1).last() == v@[k as int]);
        }
        let e = crate::design::clone_element(&v[k]);
        let mut i = out.len();
        while i > 0 && crate::text::order_str(e.external_id.as_str(), out[i - 1].external_id.as_str()) < 0
            invariant
                i <= out@.len(),
                forall|j: int| i <= j < out@.len() ==> seq_order(
                    e.external_id@,
                    (#[trigger] out@[j]).external_id@,
                ) < 0,
            decreases i,
        {
            i -= 1;
        }
        proof {
            lemma_insert_by_id_at(out@, e, i as int);
        }
        let ghost before = out@;
        out.insert(i, e);
        assert(out@ =~= before.take(i as int) + seq![e] + before.skip(i as int));
        k += 1;
    }
    assert(v@.take(v@.len() as int) =~= v@);
    out
}

pub(crate) fn id_in(ids: &Vec<String>, x: &str) -> (b: bool)
    ensures
        b == strings_view(ids@).contains(x@),
{
    let b = contains_id(ids, ids.len(), x);
    assert(strings_view(ids@).take(ids@.len() as int) =~= strings_view(ids@));
    b
}

pub open spec fn unknown_element_message(id: Seq<char>) -> Seq<char> {
    "Unknown design element id: "@ + id
}

/// The ids of an element's ancestors: its parent, the parent's parent, and so on.
pub open spec fn ancestor_ids(es: Seq<DesignElementRecord>, id: Seq<char>) -> Set<Seq<char>> {
    Set::new(|x: Seq<char>| chain(es, parent_of(es, id), es.len() + 1).unwrap().contains(x))
}

fn ancestor_chain(elements: &[DesignElementRecord], element_id: &str) -> (r: Vec<String>)
    requires
        chain_ends(elements@, parent_of(elements@, element_id@)),
        elements@.len() < usize::MAX,
    ensures
        strings_view(r@) == chain(elements@, parent_of(elements@, element_id@), elements@.len() + 1).unwrap(),
{
    let ghost n = (elements@.len() + 1) as nat;
    let ghost full = chain(elements@, parent_of(elements@, element_id@), n).unwrap();
    let mut out: Vec<String> = Vec::new();
    let mut current: Option<&str> = parent_exec(elements, element_id);
    let ghost cur: Option<Seq<char>> = parent_of(elements@, element_id@);
    let mut steps: usize = 0;
    loop
        invariant
            steps <= n,
            n == elements@.len() + 1,
            elements@.len() < usize::MAX,
            out@.len() == steps,
            full == chain(elements@, parent_of(elements@, element_id@), n).unwrap(),
            cur == match current {
                Some(c) => Some(c@),
                None => None,
            },
            chain(elements@, cur, (n - steps) as nat) is Some,
            full == strings_view(out@) + chain(elements@, cur, (n - steps) as nat).unwrap(),
        decreases n - steps,
    {
        match current {
            None => {
                assert(full =~= strings_view(out@));
                return out;
            },
            Some(c) => {
                let ghost before = strings_view(out@);
                out.push(owned(c));
                let next = parent_exec(elements, c);
                proof {
                    assert(strings_view(out@) =~= before.push(c@));
                    assert(full =~= strings_view(out@) + chain(
                        elements@,
                        parent_of(elements@, c@),
                        (n - steps - 1) as nat,
                    ).unwrap());
                    cur = parent_of(elements@, c@);
                }
                current = next;
                steps += 1;
            },
        }
    }
}

/// The parts of a design scope: the element, everything under it (ordered by id), its
/// ancestors, and the relationships, diagrams, bindings and mockups that touch the scope.
pub open spec fn scope_holds(
    r: DesignScopeResult,
    revision: i64,
    structurizr_dsl: Seq<char>,
    es: Seq<DesignElementRecord>,
    rs: Seq<DesignRelationshipRecord>,
    ds: Seq<DesignDiagramRecord>,
    bs: Seq<DesignBindingRecord>,
    ms: Seq<MockupSummary>,
    id: Seq<char>,
    include_ancestors: bool,
    children_depth: Option<usize>,
    include_source: bool,
) -> bool {
    let scope = reach(es, id, depth_limit(children_depth));
    &&& r.revision == revision
    &&& r.root_external_id@ == id
    &&& is_supported_type_list(r.uml_artifact_types@)
    &&& r.elements@ == sort_by_id(elements_in(es, scope))
    &&& r.ancestors@ == if include_ancestors {
        elements_in(es, ancestor_ids(es, id))
    } else {
        Seq::empty()
    }
    &&& r.relationships@ == relationships_touching(rs, scope)
    &&& r.diagrams@ == diagrams_attached(ds, scope)
    &&& r.bindings@ == bindings_of(bs, scope)
    &&& r.mockups@ == mockups_attached(ms, scope)
    &&& match r.structurizr_dsl {
        Some(d) => include_source && d@ == structurizr_dsl,
        None => !include_source,
    }
}

fn select_elements(es: &[DesignElementRecord], ids: &Vec<String>, Ghost(s): Ghost<Set<Seq<char>>>) -> (r: Vec<
    DesignElementRecord,
>)
    requires
        forall|x: Seq<char>| #[trigger] strings_view(ids@).contains(x) <==> s.contains(x),
    ensures
        r@ == elements_in(es@, s),
{
    let mut out: Vec<DesignElementRecord> = Vec::new();
    let mut i: usize = 0;
    assert(es@.take(0) =~= Seq::<DesignElementRecord>::empty());
    while i < es.len()
        invariant
            i <= es@.len(),
            forall|x: Seq<char>| #[trigger] strings_view(ids@).contains(x) <==> s.contains(x),
            out@ == elements_in(es@.take(i as int), s),
        decreases es.len() - i,
    {
        proof {
            assert(es@.take(i + 1).drop_last() =~= es@.take(i as int));
            assert(es@.take(i + 1).last() == es@[i as int]);
        }
        if id_in(ids, es[i].external_id.as_str()) {
            out.push(crate::design::clone_element(&es[i]));
        }
        i += 1;
    }
    assert(es@.take(es@.len() as int) =~= es@);
    out
}

fn select_relationships(
    rs: &[DesignRelationshipRecord],
    ids: &Vec<String>,
    Ghost(s): Ghost<Set<Seq<char>>>,
) -> (r: Vec<DesignRelationshipRecord>)
    requires
        forall|x: Seq<char>| #[trigger] strings_view(ids@).contains(x) <==> s.contains(x),
    ensures
        r@ == relationships_touching(rs@, s),
{
    let mut out: Vec<DesignRelationshipRecord> = Vec::new();
    let mut i: usize = 0;
    assert(rs@.take(0) =~= Seq::<DesignRelationshipRecord>::empty());
    while i < rs.len()
        invariant
            i <= rs@.len(),
            forall|x: Seq<char>| #[trigger] strings_view(ids@).contains(x) <==> s.contains(x),
            out@ == relationships_touching(rs@.take(i as int), s),
        decreases rs.len() - i,
    {
        proof {
            assert(rs@.take(i + 1).drop_last() =~= rs@.take(i as int));
            assert(rs@.take(i + 1).last() == rs@[i as int]);
        }
        if id_in(ids, rs[i].source_external_id.as_str()) || id_in(
            ids,
            rs[i].destination_external_id.as_str(),
        ) {
            out.push(crate::design::clone_relationship(&rs[i]));
        }
        i += 1;
    }
    assert(rs@.take(rs@.len() as int) =~= rs@);
    out
}

fn select_diagrams(ds: &[DesignDiagramRecord], ids: &Vec<String>, Ghost(s): Ghost<Set<Seq<char>>>) -> (r: Vec<
    DesignDiagramRecord,
>)
    requires
        forall|x: Seq<char>| #[trigger] strings_view(ids@).contains(x) <==> s.contains(x),
    ensures
        r@ == diagrams_attached(ds@, s),
{
    let mut out: Vec<DesignDiagramRecord> = Vec::new();
    let mut i: usize = 0;
    assert(ds@.take(0) =~= Seq::<DesignDiagramRecord>::empty());
    while i < ds.len()
        invariant
            i <= ds@.len(),
            forall|x: Seq<char>| #[trigger] strings_view(ids@).contains(x) <==> s.contains(x),
            out@ == diagrams_attached(ds@.take(i as int), s),
        decreases ds.len() - i,
    {
        proof {
            assert(ds@.take(i + 1).drop_last() =~= ds@.take(i as int));
            assert(ds@.take(i + 1).last() == ds@[i as int]);
        }
        let attached = match &ds[i].attached_to_external_id {
            Some(a) => id_in(ids, a.as_str()),
            None => false,
        };
        if attached {
            out.push(crate::design::clone_diagram(&ds[i]));
        }
        i += 1;
    }
    assert(ds@.take(ds@.len() as int) =~= ds@);
    out
}

fn select_bindings(bs: &[DesignBindingRecord], ids: &Vec<String>, Ghost(s): Ghost<Set<Seq<char>>>) -> (r: Vec<
    DesignBindingRecord,
>)
    requires
        forall|x: Seq<char>| #[trigger] strings_view(ids@).contains(x) <==> s.contains(x),
    ensures
        r@ == bindings_of(bs@, s),
{
    let mut out: Vec<DesignBindingRecord> = Vec::new();
    let mut i: usize = 0;
    assert(bs@.take(0) =~= Seq::<DesignBindingRecord>::empty());
    while i < bs.len()
        invariant
            i <= bs@.len(),
            forall|x: Seq<char>| #[trigger] strings_view(ids@).contains(x) <==> s.contains(x),
            out@ == bindings_of(bs@.take(i as int), s),
        decreases bs.len() - i,
    {
        proof {
            assert(bs@.take(i + 1).drop_last() =~= bs@.take(i as int));
            assert(bs@.take(i + 1).last() == bs@[i as int]);
        }
        if id_in(ids, bs[i].design_external_id.as_str()) {
            out.push(crate::design::clone_binding(&bs[i]));
        }
        i += 1;
    }
    assert(bs@.take(bs@.len() as int) =~= bs@);
    out
}

fn select_mockups(ms: &[MockupSummary], ids: &Vec<String>, Ghost(s): Ghost<Set<Seq<char>>>) -> (r: Vec<
    MockupSummary,
>)
    requires
        forall|x: Seq<char>| #[trigger] strings_view(ids@).contains(x) <==> s.contains(x),
    ensures
        r@ == mockups_attached(ms@, s),
{
    let mut out: Vec<MockupSummary> = Vec::new();
    let mut i: usize = 0;
    assert(ms@.take(0) =~= Seq::<MockupSummary>::empty());
    while i < ms.len()
        invariant
            i <= ms@.len(),
            forall|x: Seq<char>| #[trigger] strings_view(ids@).contains(x) <==> s.contains(x),
            out@ == mockups_attached(ms@.take(i as int), s),
        decreases ms.len() - i,
    {
        proof {
            assert(ms@.take(i + 1).drop_last() =~= ms@.take(i as int));
            assert(ms@.take(i + 1).last() == ms@[i as int]);
        }
        if id_in(ids, ms[i].attached_to_external_id.as_str()) {
            out.push(crate::design::clone_mockup(&ms[i]));
        }
        i += 1;
    }
    assert(ms@.take(ms@.len() as int) =~= ms@);
    out
}

/// The scope under an element: the element and everything at most `children_depth` levels
/// below it (ordered by id), optionally its ancestors, and the relationships, diagrams,
/// bindings and mockups that touch the scope. An unknown element is refused.
pub fn load_scope(
    revision: i64,
    structurizr_dsl: &str,
    elements: &[DesignElementRecord],
    relationships: &[DesignRelationshipRecord],
    diagrams: &[DesignDiagramRecord],
    bindings: &[DesignBindingRecord],
    mockups: &[MockupSummary],
    element_id: &str,
    include_ancestors: bool,
    children_depth: Option<usize>,
    include_source: bool,
) -> (r: Result<DesignScopeResult, String>)
    requires
        include_ancestors ==> chain_ends(elements@, parent_of(elements@, element_id@)),
        elements@.len() < usize::MAX,
    ensures
        r is Err <==> lookup(elements@, element_id@) is None,
        r matches Err(m) ==> m@ == unknown_element_message(element_id@),
        r matches Ok(s) ==> scope_holds(
            s,
            revision,
            structurizr_dsl@,
            elements@,
            relationships@,
            diagrams@,
            bindings@,
            mockups@,
            element_id@,
            include_ancestors,
            children_depth,
            include_source,
        ),
{
    if lookup_exec(elements, element_id).is_none() {
        let mut m = owned("Unknown design element id: ");
        crate::text::push_str_chars(&mut m, element_id);
        return Err(m);
    }
    let ghost scope = reach(elements@, element_id@, depth_limit(children_depth));
    let scope_ids = collect_descendants(elements, element_id, children_depth);
    let in_scope = select_elements(elements, &scope_ids, Ghost(scope));
    let scoped_elements = sorted_by_id(in_scope);
    let ancestors = if include_ancestors {
        let chain_ids = ancestor_chain(elements, element_id);
        let ghost anc = ancestor_ids(elements@, element_id@);
        assert forall|x: Seq<char>| #[trigger] strings_view(chain_ids@).contains(x) <==> anc.contains(x) by {}
        select_elements(elements, &chain_ids, Ghost(anc))
    } else {
        Vec::new()
    };
    Ok(DesignScopeResult {
        revision,
        root_external_id: owned(element_id),
        uml_artifact_types: crate::design::supported_uml_artifact_types(),
        ancestors,
        elements: scoped_elements,
        relationships: select_relationships(relationships, &scope_ids, Ghost(scope)),
        diagrams: select_diagrams(diagrams, &scope_ids, Ghost(scope)),
        bindings: select_bindings(bindings, &scope_ids, Ghost(scope)),
        mockups: select_mockups(mockups, &scope_ids, Ghost(scope)),
        structurizr_dsl: if include_source {
            Some(owned(structurizr_dsl))
        } else {
            None
        },
    })
}

// ---------------------------------------------------------------- deleting a subtree

/// What deleting an element removes: the element and everything under it, and every
/// relationship with an end among them.
#[derive(Clone, Debug)]
pub struct SubtreeDeletion {
    pub element_ids: Vec<String>,
    pub relationship_ids: Vec<String>,
}

pub open spec fn unknown_deletion_message(id: Seq<char>) -> Seq<char> {
    "Cannot delete unknown C4 element '"@ + id + "'."@
}

/// Plans the deletion of an element with its whole subtree. An unknown element is refused.
pub fn plan_subtree_deletion(
    elements: &[DesignElementRecord],
    relationships: &[DesignRelationshipRecord],
    external_id: &str,
) -> (r: Result<SubtreeDeletion, String>)
    ensures
        r is Err <==> lookup(elements@, external_id@) is None,
        r matches Err(m) ==> m@ == unknown_deletion_message(external_id@),
        r matches Ok(d) ==> {
            let subtree = reach(elements@, external_id@, depth_limit(None));
            &&& forall|x: Seq<char>| #[trigger] strings_view(d.element_ids@).contains(x) <==> subtree.contains(x)
            &&& strings_view(d.relationship_ids@) == relationships_touching(relationships@, subtree).map_values(
                |x: DesignRelationshipRecord| x.external_id@,
            )
        },
{
    if lookup_exec(elements, external_id).is_none() {
        let mut m = owned("Cannot delete unknown C4 element '");
        crate::text::push_str_chars(&mut m, external_id);
        crate::text::push_str_chars(&mut m, "'.");
        return Err(m);
    }
    let ghost subtree = reach(elements@, external_id@, depth_limit(None));
    let element_ids = collect_descendants(elements, external_id, None);
    let touching = select_relationships(relationships, &element_ids, Ghost(subtree));
    let mut relationship_ids: Vec<String> = Vec::new();
    let mut i: usize = 0;
    while i < touching.len()
        invariant
            i <= touching@.len(),
            strings_view(relationship_ids@) == touching@.take(i as int).map_values(
                |x: DesignRelationshipRecord| x.external_id@,
            ),
        decreases touching.len() - i,
    {
        let ghost before = strings_view(relationship_ids@);
        relationship_ids.push(owned(touching[i].external_id.as_str()));
        assert(strings_view(relationship_ids@) =~= before.push(touching@[i as int].external_id@));
        assert(touching@.take(i + 1).map_values(|x: DesignRelationshipRecord| x.external_id@)
            =~= touching@.take(i as int).map_values(|x: DesignRelationshipRecord| x.external_id@).push(
            touching@[i as int].external_id@,
        ));
        i += 1;
    }
    assert(touching@.take(touching@.len() as int) =~= touching@);
    Ok(SubtreeDeletion { element_ids, relationship_ids })
}

// ---------------------------------------------------------------- laws

/// An element is always in its own scope, at every depth.
pub proof fn law_root_in_scope(es: Seq<DesignElementRecord>, root: Seq<char>, depth: nat)
    ensures
        reach(es, root, depth).contains(root),
    decreases depth,
{
    if depth > 0 {
        law_root_in_scope(es, root, (depth - 1) as nat);
    }
}

/// A scope only grows with its depth.
pub proof fn law_scope_grows_with_depth(es: Seq<DesignElementRecord>, root: Seq<char>, a: nat, b: nat)
    requires
        a <= b,
    ensures
        reach(es, root, a).subset_of(reach(es, root, b)),
    decreases b,
{
    if a < b {
        law_scope_grows_with_depth(es, root, a, (b - 1) as nat);
    }
}

/// Ids in non-decreasing order.
pub open spec fn ordered_by_id(s: Seq<DesignElementRecord>) -> bool {
    forall|i: int, j: int|
        0 <= i < j < s.len() ==> seq_order((#[trigger] s[i]).external_id@, (#[trigger] s[j]).external_id@)
            <= 0
}

proof fn lemma_insert_by_id(s: Seq<DesignElementRecord>, e: DesignElementRecord)
    requires
        ordered_by_id(s),
    ensures
        ordered_by_id(insert_by_id(s, e)),
        insert_by_id(s, e).len() == s.len() + 1,
        forall|x: DesignElementRecord| #[trigger] insert_by_id(s, e).contains(x) <==> (s.contains(x) || x == e),
    decreases s.len(),
{
    let r = insert_by_id(s, e);
    if s.len() == 0 {
        assert forall|x: DesignElementRecord| #[trigger] r.contains(x) <==> (s.contains(x) || x == e) by {
            if r.contains(x) {
                let k = choose|k: int| 0 <= k < r.len() && r[k] == x;
            }
            if x == e {
                assert(r[0] == x);
            }
        }
    } else if seq_order(e.external_id@, s.last().external_id@) >= 0 {
        crate::text::lemma_seq_order_antisym(e.external_id@, s.last().external_id@);
        assert forall|i: int, j: int| 0 <= i < j < r.len() implies seq_order(
            (#[trigger] r[i]).external_id@,
            (#[trigger] r[j]).external_id@,
        ) <= 0 by {
            if j == s.len() && i < s.len() - 1 {
                crate::text::lemma_seq_order_trans(
                    s[i].external_id@,
                    s.last().external_id@,
                    e.external_id@,
                );
            }
        }
        assert forall|x: DesignElementRecord| #[trigger] r.contains(x) <==> (s.contains(x) || x == e) by {
            if r.contains(x) {
                let k = choose|k: int| 0 <= k < r.len() && r[k] == x;
                if k < s.len() {
                    assert(s[k] == x);
                }
            }
            if s.contains(x) {
                let k = choose|k: int| 0 <= k < s.len() && s[k] == x;
                assert(r[k] == x);
            }
            if x == e {
                assert(r[s.len() as int] == x);
            }
        }
    } else {
        let t = s.drop_last();
        assert(ordered_by_id(t)) by {
            assert forall|i: int, j: int| 0 <= i < j < t.len() implies seq_order(
                (#[trigger] t[i]).external_id@,
                (#[trigger] t[j]).external_id@,
            ) <= 0 by {
                assert(t[i] == s[i] && t[j] == s[j]);
            }
        }
        lemma_insert_by_id(t, e);
        let u = insert_by_id(t, e);
        assert(r == u.push(s.last()));
        assert forall|i: int, j: int| 0 <= i < j < r.len() implies seq_order(
            (#[trigger] r[i]).external_id@,
            (#[trigger] r[j]).external_id@,
        ) <= 0 by {
            if j == u.len() {
                assert(u.contains(u[i]));
                if t.contains(u[i]) {
                    let k = choose|k: int| 0 <= k < t.len() && t[k] == u[i];
                    assert(s[k] == t[k]);
                } else {
                    assert(u[i] == e);
                }
            } else {
                assert(r[i] == u[i] && r[j] == u[j]);
            }
        }
        assert forall|x: DesignElementRecord| #[trigger] r.contains(x) <==> (s.contains(x) || x == e) by {
            if r.contains(x) {
                let k = choose|k: int| 0 <= k < r.len() && r[k] == x;
                if k < u.len() {
                    assert(u[k] == x);
                    assert(u.contains(x));
                    if t.contains(x) {
                        let q = choose|q: int| 0 <= q < t.len() && t[q] == x;
                        assert(s[q] == x);
                    }
                } else {
                    assert(s[s.len() - 1] == x);
                }
            }
            if s.contains(x) {
                let k = choose|k: int| 0 <= k < s.len() && s[k] == x;
                if k < t.len() {
                    assert(t[k] == x);
                    assert(t.contains(x));
                    assert(u.contains(x));
                    let q = choose|q: int| 0 <= q < u.len() && u[q] == x;
                    assert(r[q] == x);
                } else {
                    assert(r[u.len() as int] == x);
                }
            }
            if x == e {
                assert(u.contains(e));
                let q = choose|q: int| 0 <= q < u.len() && u[q] == e;
                assert(r[q] == e);
            }
        }
    }
}

/// The elements of a scope come out ordered by id, as many as were selected, with every selected
/// element among them and no other.
pub proof fn law_scope_elements_ordered_by_id(s: Seq<DesignElementRecord>)
    ensures
        ordered_by_id(sort_by_id(s)),
        sort_by_id(s).len() == s.len(),
        forall|x: DesignElementRecord| #[trigger] sort_by_id(s).contains(x) <==> s.contains(x),
    decreases s.len(),
{
    if s.len() > 0 {
        let p = s.drop_last();
        law_scope_elements_ordered_by_id(p);
        lemma_insert_by_id(sort_by_id(p), s.last());
        assert forall|x: DesignElementRecord| #[trigger] sort_by_id(s).contains(x) <==> s.contains(x) by {
            assert(s == p.push(s.last()));
            if p.contains(x) {
                let k = choose|k: int| 0 <= k < p.len() && p[k] == x;
                assert(s[k] == x);
            }
            if s.contains(x) {
                let k = choose|k: int| 0 <= k < s.len() && s[k] == x;
                if k < p.len() {
                    assert(p[k] == x);
                }
            }
        }
    }
}

/// Every id a scope can reach: the root, and the ids of the elements.
pub open spec fn reachable_universe(es: Seq<DesignElementRecord>, root: Seq<char>) -> Set<Seq<char>> {
    set![root].union(es.map_values(|e: DesignElementRecord| e.external_id@).to_set())
}

proof fn lemma_reach_in_universe(es: Seq<DesignElementRecord>, root: Seq<char>, r: nat)
    ensures
        reach(es, root, r).subset_of(reachable_universe(es, root)),
    decreases r,
{
    if r > 0 {
        lemma_reach_in_universe(es, root, (r - 1) as nat);
        let s = reach(es, root, (r - 1) as nat);
        assert forall|x: Seq<char>| children_ids(es, s).contains(x) implies reachable_universe(
            es,
            root,
        ).contains(x) by {
            let i = choose|i: int|
                0 <= i < es.len() && (#[trigger] es[i]).external_id@ == x && child_of_any(es[i], s);
            assert(es.map_values(|e: DesignElementRecord| e.external_id@)[i] == x);
        }
    }
}

pub open spec fn stable_at(es: Seq<DesignElementRecord>, root: Seq<char>, k: nat) -> bool {
    reach(es, root, k + 1) == reach(es, root, k)
}

proof fn lemma_reach_grows(es: Seq<DesignElementRecord>, root: Seq<char>, r: nat)
    ensures
        reach(es, root, r).finite(),
        (exists|k: nat| k < r && #[trigger] stable_at(es, root, k)) || reach(es, root, r).len() >= r + 1,
    decreases r,
{
    let u = reachable_universe(es, root);
    vstd::seq_lib::seq_to_set_is_finite(es.map_values(|e: DesignElementRecord| e.external_id@));
    assert(u.finite());
    lemma_reach_in_universe(es, root, r);
    vstd::set_lib::lemma_len_subset(reach(es, root, r), u);
    if r == 0 {
        assert(reach(es, root, 0).contains(root));
        assert(reach(es, root, 0).len() == 1);
    } else {
        let p = (r - 1) as nat;
        lemma_reach_grows(es, root, p);
        if !(exists|k: nat| k < p && #[trigger] stable_at(es, root, k)) {
            if stable_at(es, root, p) {
                assert(exists|k: nat| k < r && #[trigger] stable_at(es, root, k));
            } else {
                let s = reach(es, root, p);
                let t = reach(es, root, r);
                assert(s.subset_of(t));
                assert(!(t =~= s));
                let x = choose|x: Seq<char>| !(t.contains(x) <==> s.contains(x));
                assert(t.contains(x) && !s.contains(x));
                s.lemma_subset_not_in_lt(t, x);
            }
        } else {
            let k = choose|k: nat| k < p && #[trigger] stable_at(es, root, k);
            assert(k < r && stable_at(es, root, k));
        }
    }
}

/// A scope without a depth limit holds every element under anything it holds: the level by
/// level descent reaches a fixed point before the limit runs out.
pub proof fn law_unlimited_scope_is_closed(es: Seq<DesignElementRecord>, root: Seq<char>)
    requires
        es.len() < usize::MAX,
    ensures
        forall|x: Seq<char>|
            #[trigger] children_ids(es, reach(es, root, depth_limit(None))).contains(x) ==> reach(
                es,
                root,
                depth_limit(None),
            ).contains(x),
{
    let n = es.len();
    let u = reachable_universe(es, root);
    let ids = es.map_values(|e: DesignElementRecord| e.external_id@);
    ids.lemma_cardinality_of_set();
    vstd::seq_lib::seq_to_set_is_finite(ids);
    vstd::set_lib::lemma_len_union(set![root], ids.to_set());
    assert(u.len() <= n + 1);
    lemma_reach_grows(es, root, n + 1);
    lemma_reach_in_universe(es, root, n + 1);
    vstd::set_lib::lemma_len_subset(reach(es, root, n + 1), u);
    let k = choose|k: nat| k < n + 1 && #[trigger] stable_at(es, root, k);
    lemma_reach_fixpoint(es, root, k, depth_limit(None));
    assert(reach(es, root, k + 1) == reach(es, root, k).union(children_ids(es, reach(es, root, k))));
}

} // verus!
