//! Reading parts of a design: by text, by ids, and by the code bound to it.
use vstd::prelude::*;

use crate::design::{
    clone_binding, clone_diagram, clone_element, clone_relationship, is_supported_type_list,
    DesignBindingRecord, DesignBindingsResult, DesignByIdsResult, DesignDiagramRecord,
    DesignOverviewResult,
    DesignElementRecord, DesignRelationshipRecord, DesignSearchHit, DesignSearchResult, MockupSummary,
};
use crate::documents::strings_view;
use crate::scope::{chains_end, filter_elements_by_depth, shallow_elements};
use crate::text::{
    chars_of, contains, contains_chars, is_whitespace, is_ws, lower_chars, lowercase, owned,
    push_str_chars, str_eq, string_of,
};

verus! {

broadcast use vstd::string::group_string_axioms;

// ---------------------------------------------------------------- words and terms

/// The words found so far and the word being read.
pub open spec fn split_state(s: Seq<char>) -> (Seq<Seq<char>>, Seq<char>)
    decreases s.len(),
{
    if s.len() == 0 {
        (Seq::empty(), Seq::empty())
    } else {
        let (ws, cur) = split_state(s.drop_last());
        if is_ws(s.last()) {
            if cur.len() > 0 {
                (ws.push(cur), Seq::empty())
            } else {
                (ws, Seq::empty())
            }
        } else {
            (ws, cur.push(s.last()))
        }
    }
}

/// The maximal runs of non-whitespace characters (`split_whitespace`).
pub open spec fn words(s: Seq<char>) -> Seq<Seq<char>> {
    let (ws, cur) = split_state(s);
    if cur.len() > 0 {
        ws.push(cur)
    } else {
        ws
    }
}

/// The words of a text.
pub fn split_words(v: &[char]) -> (r: Vec<Vec<char>>)
    ensures
        r@.map_values(|w: Vec<char>| w@) == words(v@),
{
    let mut ws: Vec<Vec<char>> = Vec::new();
    let mut cur: Vec<char> = Vec::new();
    let mut i: usize = 0;
    assert(v@.take(0) =~= Seq::<char>::empty());
    while i < v.len()
        invariant
            i <= v@.len(),
            (ws@.map_values(|w: Vec<char>| w@), cur@) == split_state(v@.take(i as int)),
        decreases v.len() - i,
    {
        proof {
            assert(v@.take(i + 1).drop_last() =~= v@.take(i as int));
            assert(v@.take(i + 1).last() == v@[i as int]);
        }
        let c = v[i];
        if is_whitespace(c) {
            if cur.len() > 0 {
                let ghost before = ws@.map_values(|w: Vec<char>| w@);
                let done = cur;
                cur = Vec::new();
                ws.push(done);
                assert(ws@.map_values(|w: Vec<char>| w@) =~= before.push(done@));
            } else {
                cur = Vec::new();
            }
        } else {
            cur.push(c);
        }
        assert(cur@ =~= split_state(v@.take(i + 1)).1);
        i += 1;
    }
    assert(v@.take(v@.len() as int) =~= v@);
    if cur.len() > 0 {
        let ghost before = ws@.map_values(|w: Vec<char>| w@);
        let done = cur;
        ws.push(done);
        assert(ws@.map_values(|w: Vec<char>| w@) =~= before.push(done@));
    }
    ws
}

/// A text matches when it contains every term; no terms match everything.
pub open spec fn matches_terms_spec(haystack: Seq<char>, terms: Seq<Seq<char>>) -> bool {
    forall|i: int| 0 <= i < terms.len() ==> contains(haystack, #[trigger] terms[i])
}

/// Whether a text contains every term.
pub fn matches_terms(haystack: &[char], terms: &Vec<Vec<char>>) -> (b: bool)
    ensures
        b == matches_terms_spec(haystack@, terms@.map_values(|w: Vec<char>| w@)),
{
    let ghost tv = terms@.map_values(|w: Vec<char>| w@);
    let mut i: usize = 0;
    while i < terms.len()
        invariant
            i <= terms@.len(),
            tv == terms@.map_values(|w: Vec<char>| w@),
            forall|j: int| 0 <= j < i ==> contains(haystack@, #[trigger] tv[j]),
        decreases terms.len() - i,
    {
        if !contains_chars(haystack, terms[i].as_slice()) {
            assert(!contains(haystack@, tv[i as int]));
            return false;
        }
        i += 1;
    }
    true
}

// ---------------------------------------------------------------- searching a design

pub open spec fn hit_view(h: DesignSearchHit) -> (Seq<char>, Seq<char>, Seq<char>, Seq<char>) {
    (h.kind@, h.id@, h.title@, h.summary@)
}

pub open spec fn hits_view(v: Seq<DesignSearchHit>) -> Seq<(Seq<char>, Seq<char>, Seq<char>, Seq<char>)> {
    v.map_values(|h: DesignSearchHit| hit_view(h))
}

pub open spec fn element_haystack(e: DesignElementRecord) -> Seq<char> {
    lowercase(
        e.external_id@ + " "@ + e.name@ + " "@ + e.description@ + " "@ + e.technology@ + " "@
            + e.tags@,
    )
}

pub open spec fn relationship_haystack(r: DesignRelationshipRecord) -> Seq<char> {
    lowercase(
        r.external_id@ + " "@ + r.source_external_id@ + " "@ + r.destination_external_id@ + " "@
            + r.description@ + " "@ + r.technology@ + " "@ + r.tags@,
    )
}

pub open spec fn diagram_haystack(d: DesignDiagramRecord) -> Seq<char> {
    lowercase(
        d.key@ + " "@ + d.language@ + " "@ + d.title@ + " "@ + d.diagram_type@ + " "@ + d.source@,
    )
}

pub open spec fn mockup_haystack(m: MockupSummary) -> Seq<char> {
    lowercase(
        m.external_id@ + " "@ + m.title@ + " "@ + m.attached_to_external_id@ + " "@ + m.screen@
            + " "@ + m.state@ + " "@ + m.fidelity@,
    )
}

pub open spec fn element_hits(es: Seq<DesignElementRecord>, terms: Seq<Seq<char>>) -> Seq<
    (Seq<char>, Seq<char>, Seq<char>, Seq<char>),
>
    decreases es.len(),
{
    if es.len() == 0 {
        Seq::empty()
    } else if matches_terms_spec(element_haystack(es.last()), terms) {
        element_hits(es.drop_last(), terms).push(
            ("element"@, es.last().external_id@, es.last().name@, es.last().description@),
        )
    } else {
        element_hits(es.drop_last(), terms)
    }
}

pub open spec fn relationship_hits(rs: Seq<DesignRelationshipRecord>, terms: Seq<Seq<char>>) -> Seq<
    (Seq<char>, Seq<char>, Seq<char>, Seq<char>),
>
    decreases rs.len(),
{
    if rs.len() == 0 {
        Seq::empty()
    } else if matches_terms_spec(relationship_haystack(rs.last()), terms) {
        relationship_hits(rs.drop_last(), terms).push(
            (
                "relationship"@,
                rs.last().external_id@,
                rs.last().source_external_id@ + " -> "@ + rs.last().destination_external_id@,
                rs.last().description@,
            ),
        )
    } else {
        relationship_hits(rs.drop_last(), terms)
    }
}

pub open spec fn diagram_hits(ds: Seq<DesignDiagramRecord>, terms: Seq<Seq<char>>) -> Seq<
    (Seq<char>, Seq<char>, Seq<char>, Seq<char>),
>
    decreases ds.len(),
{
    if ds.len() == 0 {
        Seq::empty()
    } else if matches_terms_spec(diagram_haystack(ds.last()), terms) {
        diagram_hits(ds.drop_last(), terms).push(
            (
                "uml"@,
                ds.last().key@,
                ds.last().title@,
                match ds.last().attached_to_external_id {
                    Some(a) => a@,
                    None => "unattached"@,
                },
            ),
        )
    } else {
        diagram_hits(ds.drop_last(), terms)
    }
}

pub open spec fn mockup_hits(ms: Seq<MockupSummary>, terms: Seq<Seq<char>>) -> Seq<
    (Seq<char>, Seq<char>, Seq<char>, Seq<char>),
>
    decreases ms.len(),
{
    if ms.len() == 0 {
        Seq::empty()
    } else if matches_terms_spec(mockup_haystack(ms.last()), terms) {
        mockup_hits(ms.drop_last(), terms).push(
            (
                "mockup"@,
                ms.last().external_id@,
                ms.last().title@,
                ms.last().status@ + " - "@ + ms.last().attached_to_external_id@,
            ),
        )
    } else {
        mockup_hits(ms.drop_last(), terms)
    }
}

/// A kind of record is searched when no kinds are named, or when it is named.
pub open spec fn kind_allowed(kinds: Seq<Seq<char>>, k: Seq<char>) -> bool {
    kinds.len() == 0 || kinds.contains(k)
}

/// Every hit of a search, before the limit: elements, relationships, diagrams (searched as
/// `uml` or `source`), then mockups, each in stored order.
pub open spec fn all_hits(
    terms: Seq<Seq<char>>,
    kinds: Seq<Seq<char>>,
    es: Seq<DesignElementRecord>,
    rs: Seq<DesignRelationshipRecord>,
    ds: Seq<DesignDiagramRecord>,
    ms: Seq<MockupSummary>,
) -> Seq<(Seq<char>, Seq<char>, Seq<char>, Seq<char>)> {
    (if kind_allowed(kinds, "element"@) {
        element_hits(es, terms)
    } else {
        Seq::empty()
    }) + (if kind_allowed(kinds, "relationship"@) {
        relationship_hits(rs, terms)
    } else {
        Seq::empty()
    }) + (if kind_allowed(kinds, "uml"@) || kind_allowed(kinds, "source"@) {
        diagram_hits(ds, terms)
    } else {
        Seq::empty()
    }) + if kind_allowed(kinds, "mockup"@) {
        mockup_hits(ms, terms)
    } else {
        Seq::empty()
    }
}

fn kind_named(kinds: &[String], k: &str) -> (b: bool)
    ensures
        b == kind_allowed(strings_view(kinds@), k@),
{
    if kinds.len() == 0 {
        return true;
    }
    let mut i: usize = 0;
    while i < kinds.len()
        invariant
            i <= kinds@.len(),
            forall|j: int| 0 <= j < i ==> kinds@[j]@ != k@,
        decreases kinds.len() - i,
    {
        if str_eq(kinds[i].as_str(), k) {
            assert(strings_view(kinds@)[i as int] == k@);
            return true;
        }
        i += 1;
    }
    assert(!strings_view(kinds@).contains(k@)) by {
        if strings_view(kinds@).contains(k@) {
            let j = choose|j: int| 0 <= j < strings_view(kinds@).len() && strings_view(kinds@)[j] == k@;
            assert(kinds@[j]@ == k@);
        }
    }
    false
}

fn spaced(s: &mut String, part: &str)
    ensures
        final(s)@ == old(s)@ + " "@ + part@,
{
    push_str_chars(s, " ");
    push_str_chars(s, part);
}

fn lower_string(s: &String) -> (r: Vec<char>)
    ensures
        r@ == lowercase(s@),
{
    let v = chars_of(s.as_str());
    lower_chars(v.as_slice())
}

fn push_hit(hits: &mut Vec<DesignSearchHit>, kind: &str, id: &str, title: String, summary: &str)
    ensures
        hits_view(final(hits)@) == hits_view(old(hits)@).push((kind@, id@, title@, summary@)),
{
    let h = DesignSearchHit { kind: owned(kind), id: owned(id), title, summary: owned(summary) };
    let ghost before = hits_view(hits@);
    hits.push(h);
    assert(hits_view(hits@) =~= before.push(hit_view(h)));
}

/// Searches a design for records whose text contains every word of the query, ignoring case;
/// `kinds` narrows the search to some kinds of record. At most `limit` hits are returned, and
/// never fewer than one when there is one.
pub fn search(
    revision: i64,
    query: &str,
    kinds: &[String],
    limit: usize,
    elements: &[DesignElementRecord],
    relationships: &[DesignRelationshipRecord],
    diagrams: &[DesignDiagramRecord],
    mockups: &[MockupSummary],
) -> (r: DesignSearchResult)
    ensures
        r.revision == revision,
        ({
            let hits = all_hits(
                words(lowercase(query@)),
                strings_view(kinds@),
                elements@,
                relationships@,
                diagrams@,
                mockups@,
            );
            let n = if limit < 1 {
                1
            } else {
                limit as int
            };
            hits_view(r.hits@) == if hits.len() <= n {
                hits
            } else {
                hits.take(n)
            }
        }),
{
    let q = chars_of(query);
    let lq = lower_chars(q.as_slice());
    let terms = split_words(lq.as_slice());
    let ghost tv = terms@.map_values(|w: Vec<char>| w@);
    let mut hits: Vec<DesignSearchHit> = Vec::new();
    let ghost kv = strings_view(kinds@);
    if kind_named(kinds, "element") {
        let mut i: usize = 0;
        assert(elements@.take(0) =~= Seq::<DesignElementRecord>::empty());
        assert(hits_view(hits@) =~= element_hits(elements@.take(0), tv));
        while i < elements.len()
            invariant
                i <= elements@.len(),
                tv == terms@.map_values(|w: Vec<char>| w@),
                hits_view(hits@) == element_hits(elements@.take(i as int), tv),
            decreases elements.len() - i,
        {
            proof {
                assert(elements@.take(i + 1).drop_last() =~= elements@.take(i as int));
                assert(elements@.take(i + 1).last() == elements@[i as int]);
            }
            let e = &elements[i];
            let mut text = owned(e.external_id.as_str());
            spaced(&mut text, e.name.as_str());
            spaced(&mut text, e.description.as_str());
            spaced(&mut text, e.technology.as_str());
            spaced(&mut text, e.tags.as_str());
            assert(text@ =~= e.external_id@ + " "@ + e.name@ + " "@ + e.description@ + " "@
                + e.technology@ + " "@ + e.tags@);
            let hay = lower_string(&text);
            if matches_terms(hay.as_slice(), &terms) {
                push_hit(&mut hits, "element", e.external_id.as_str(), owned(e.name.as_str()), e.description.as_str());
            }
            i += 1;
        }
        assert(elements@.take(elements@.len() as int) =~= elements@);
    }
    let ghost h1 = hits_view(hits@);
    if kind_named(kinds, "relationship") {
        let mut i: usize = 0;
        assert(relationships@.take(0) =~= Seq::<DesignRelationshipRecord>::empty());
        assert(hits_view(hits@) =~= h1 + relationship_hits(relationships@.take(0), tv));
        while i < relationships.len()
            invariant
                i <= relationships@.len(),
                tv == terms@.map_values(|w: Vec<char>| w@),
                hits_view(hits@) == h1 + relationship_hits(relationships@.take(i as int), tv),
            decreases relationships.len() - i,
        {
            proof {
                assert(relationships@.take(i + 1).drop_last() =~= relationships@.take(i as int));
                assert(relationships@.take(i + 1).last() == relationships@[i as int]);
            }
            let r = &relationships[i];
            let mut text = owned(r.external_id.as_str());
            spaced(&mut text, r.source_external_id.as_str());
            spaced(&mut text, r.destination_external_id.as_str());
            spaced(&mut text, r.description.as_str());
            spaced(&mut text, r.technology.as_str());
            spaced(&mut text, r.tags.as_str());
            assert(text@ =~= r.external_id@ + " "@ + r.source_external_id@ + " "@
                + r.destination_external_id@ + " "@ + r.description@ + " "@ + r.technology@ + " "@
                + r.tags@);
            let hay = lower_string(&text);
            if matches_terms(hay.as_slice(), &terms) {
                let mut title = owned(r.source_external_id.as_str());
                push_str_chars(&mut title, " -> ");
                push_str_chars(&mut title, r.destination_external_id.as_str());
                push_hit(&mut hits, "relationship", r.external_id.as_str(), title, r.description.as_str());
                assert(hits_view(hits@) =~= h1 + relationship_hits(relationships@.take(i + 1), tv));
            }
            i += 1;
        }
        assert(relationships@.take(relationships@.len() as int) =~= relationships@);
    } else {
        assert(hits_view(hits@) =~= h1 + Seq::<(Seq<char>, Seq<char>, Seq<char>, Seq<char>)>::empty());
    }
    let ghost h2 = hits_view(hits@);
    if kind_named(kinds, "uml") || kind_named(kinds, "source") {
        let mut i: usize = 0;
        assert(diagrams@.take(0) =~= Seq::<DesignDiagramRecord>::empty());
        assert(hits_view(hits@) =~= h2 + diagram_hits(diagrams@.take(0), tv));
        while i < diagrams.len()
            invariant
                i <= diagrams@.len(),
                tv == terms@.map_values(|w: Vec<char>| w@),
                hits_view(hits@) == h2 + diagram_hits(diagrams@.take(i as int), tv),
            decreases diagrams.len() - i,
        {
            proof {
                assert(diagrams@.take(i + 1).drop_last() =~= diagrams@.take(i as int));
                assert(diagrams@.take(i + 1).last() == diagrams@[i as int]);
            }
            let d = &diagrams[i];
            let mut text = owned(d.key.as_str());
            spaced(&mut text, d.language.as_str());
            spaced(&mut text, d.title.as_str());
            spaced(&mut text, d.diagram_type.as_str());
            spaced(&mut text, d.source.as_str());
            assert(text@ =~= d.key@ + " "@ + d.language@ + " "@ + d.title@ + " "@
                + d.diagram_type@ + " "@ + d.source@);
            let hay = lower_string(&text);
            if matches_terms(hay.as_slice(), &terms) {
                let summary = match &d.attached_to_external_id {
                    Some(a) => a.as_str(),
                    None => "unattached",
                };
                push_hit(&mut hits, "uml", d.key.as_str(), owned(d.title.as_str()), summary);
                assert(hits_view(hits@) =~= h2 + diagram_hits(diagrams@.take(i + 1), tv));
            }
            i += 1;
        }
        assert(diagrams@.take(diagrams@.len() as int) =~= diagrams@);
    } else {
        assert(hits_view(hits@) =~= h2 + Seq::<(Seq<char>, Seq<char>, Seq<char>, Seq<char>)>::empty());
    }
    let ghost h3 = hits_view(hits@);
    if kind_named(kinds, "mockup") {
        let mut i: usize = 0;
        assert(mockups@.take(0) =~= Seq::<MockupSummary>::empty());
        assert(hits_view(hits@) =~= h3 + mockup_hits(mockups@.take(0), tv));
        while i < mockups.len()
            invariant
                i <= mockups@.len(),
                tv == terms@.map_values(|w: Vec<char>| w@),
                hits_view(hits@) == h3 + mockup_hits(mockups@.take(i as int), tv),
            decreases mockups.len() - i,
        {
            proof {
                assert(mockups@.take(i + 1).drop_last() =~= mockups@.take(i as int));
                assert(mockups@.take(i + 1).last() == mockups@[i as int]);
            }
            let m = &mockups[i];
            let mut text = owned(m.external_id.as_str());
            spaced(&mut text, m.title.as_str());
            spaced(&mut text, m.attached_to_external_id.as_str());
            spaced(&mut text, m.screen.as_str());
            spaced(&mut text, m.state.as_str());
            spaced(&mut text, m.fidelity.as_str());
            assert(text@ =~= m.external_id@ + " "@ + m.title@ + " "@
                + m.attached_to_external_id@ + " "@ + m.screen@ + " "@ + m.state@ + " "@
                + m.fidelity@);
            let hay = lower_string(&text);
            if matches_terms(hay.as_slice(), &terms) {
                let mut summary = owned(m.status.as_str());
                push_str_chars(&mut summary, " - ");
                push_str_chars(&mut summary, m.attached_to_external_id.as_str());
                push_hit(&mut hits, "mockup", m.external_id.as_str(), owned(m.title.as_str()), summary.as_str());
                assert(hits_view(hits@) =~= h3 + mockup_hits(mockups@.take(i + 1), tv));
            }
            i += 1;
        }
        assert(mockups@.take(mockups@.len() as int) =~= mockups@);
    } else {
        assert(hits_view(hits@) =~= h3 + Seq::<(Seq<char>, Seq<char>, Seq<char>, Seq<char>)>::empty());
    }
    let ghost all = hits_view(hits@);
    assert(all =~= all_hits(tv, kv, elements@, relationships@, diagrams@, mockups@));
    let n = if limit < 1 {
        1
    } else {
        limit
    };
    hits.truncate(n);
    assert(hits_view(hits@) =~= if all.len() <= n {
        all
    } else {
        all.take(n as int)
    });
    DesignSearchResult { revision, hits }
}

// ---------------------------------------------------------------- reading by ids and by code

/// The items of `s` that satisfy `f`, in order.
pub open spec fn keep<T>(s: Seq<T>, f: spec_fn(T) -> bool) -> Seq<T>
    decreases s.len(),
{
    if s.len() == 0 {
        Seq::empty()
    } else if f(s.last()) {
        keep(s.drop_last(), f).push(s.last())
    } else {
        keep(s.drop_last(), f)
    }
}

fn named_in(ids: &[String], x: &str) -> (b: bool)
    ensures
        b == strings_view(ids@).contains(x@),
{
    let mut i: usize = 0;
    while i < ids.len()
        invariant
            i <= ids@.len(),
            forall|j: int| 0 <= j < i ==> ids@[j]@ != x@,
        decreases ids.len() - i,
    {
        if str_eq(ids[i].as_str(), x) {
            assert(strings_view(ids@)[i as int] == x@);
            return true;
        }
        i += 1;
    }
    assert(!strings_view(ids@).contains(x@)) by {
        if strings_view(ids@).contains(x@) {
            let j = choose|j: int| 0 <= j < strings_view(ids@).len() && strings_view(ids@)[j] == x@;
            assert(ids@[j]@ == x@);
        }
    }
    false
}

fn elements_named(es: &[DesignElementRecord], ids: &[String]) -> (r: Vec<DesignElementRecord>)
    ensures
        r@ == keep(es@, |e: DesignElementRecord| strings_view(ids@).contains(e.external_id@)),
{
    let mut out: Vec<DesignElementRecord> = Vec::new();
    let mut i: usize = 0;
    assert(es@.take(0) =~= Seq::<DesignElementRecord>::empty());
    while i < es.len()
        invariant
            i <= es@.len(),
            out@ == keep(es@.take(i as int), |e: DesignElementRecord| strings_view(ids@).contains(e.external_id@)),
        decreases es.len() - i,
    {
        proof {
            assert(es@.take(i + 1).drop_last() =~= es@.take(i as int));
            assert(es@.take(i + 1).last() == es@[i as int]);
        }
        if named_in(ids, es[i].external_id.as_str()) {
            out.push(clone_element(&es[i]));
        }
        i += 1;
    }
    assert(es@.take(es@.len() as int) =~= es@);
    out
}

fn relationships_named(rs: &[DesignRelationshipRecord], ids: &[String]) -> (r: Vec<DesignRelationshipRecord>)
    ensures
        r@ == keep(rs@, |x: DesignRelationshipRecord| strings_view(ids@).contains(x.external_id@)),
{
    let mut out: Vec<DesignRelationshipRecord> = Vec::new();
    let mut i: usize = 0;
    assert(rs@.take(0) =~= Seq::<DesignRelationshipRecord>::empty());
    while i < rs.len()
        invariant
            i <= rs@.len(),
            out@ == keep(rs@.take(i as int), |x: DesignRelationshipRecord| strings_view(ids@).contains(x.external_id@)),
        decreases rs.len() - i,
    {
        proof {
            assert(rs@.take(i + 1).drop_last() =~= rs@.take(i as int));
            assert(rs@.take(i + 1).last() == rs@[i as int]);
        }
        if named_in(ids, rs[i].external_id.as_str()) {
            out.push(clone_relationship(&rs[i]));
        }
        i += 1;
    }
    assert(rs@.take(rs@.len() as int) =~= rs@);
    out
}

fn diagrams_named(ds: &[DesignDiagramRecord], ids: &[String]) -> (r: Vec<DesignDiagramRecord>)
    ensures
        r@ == keep(ds@, |d: DesignDiagramRecord| strings_view(ids@).contains(d.key@)),
{
    let mut out: Vec<DesignDiagramRecord> = Vec::new();
    let mut i: usize = 0;
    assert(ds@.take(0) =~= Seq::<DesignDiagramRecord>::empty());
    while i < ds.len()
        invariant
            i <= ds@.len(),
            out@ == keep(ds@.take(i as int), |d: DesignDiagramRecord| strings_view(ids@).contains(d.key@)),
        decreases ds.len() - i,
    {
        proof {
            assert(ds@.take(i + 1).drop_last() =~= ds@.take(i as int));
            assert(ds@.take(i + 1).last() == ds@[i as int]);
        }
        if named_in(ids, ds[i].key.as_str()) {
            out.push(clone_diagram(&ds[i]));
        }
        i += 1;
    }
    assert(ds@.take(ds@.len() as int) =~= ds@);
    out
}

fn bindings_named(bs: &[DesignBindingRecord], ids: &[String]) -> (r: Vec<DesignBindingRecord>)
    ensures
        r@ == keep(bs@, |b: DesignBindingRecord| strings_view(ids@).contains(b.design_external_id@)),
{
    let mut out: Vec<DesignBindingRecord> = Vec::new();
    let mut i: usize = 0;
    assert(bs@.take(0) =~= Seq::<DesignBindingRecord>::empty());
    while i < bs.len()
        invariant
            i <= bs@.len(),
            out@ == keep(bs@.take(i as int), |b: DesignBindingRecord| strings_view(ids@).contains(b.design_external_id@)),
        decreases bs.len() - i,
    {
        proof {
            assert(bs@.take(i + 1).drop_last() =~= bs@.take(i as int));
            assert(bs@.take(i + 1).last() == bs@[i as int]);
        }
        if named_in(ids, bs[i].design_external_id.as_str()) {
            out.push(clone_binding(&bs[i]));
        }
        i += 1;
    }
    assert(bs@.take(bs@.len() as int) =~= bs@);
    out
}

fn mockups_named(ms: &[MockupSummary], ids: &[String]) -> (r: Vec<MockupSummary>)
    ensures
        r@ == keep(ms@, |m: MockupSummary| strings_view(ids@).contains(m.external_id@)),
{
    let mut out: Vec<MockupSummary> = Vec::new();
    let mut i: usize = 0;
    assert(ms@.take(0) =~= Seq::<MockupSummary>::empty());
    while i < ms.len()
        invariant
            i <= ms@.len(),
            out@ == keep(ms@.take(i as int), |m: MockupSummary| strings_view(ids@).contains(m.external_id@)),
        decreases ms.len() - i,
    {
        proof {
            assert(ms@.take(i + 1).drop_last() =~= ms@.take(i as int));
            assert(ms@.take(i + 1).last() == ms@[i as int]);
        }
        if named_in(ids, ms[i].external_id.as_str()) {
            out.push(crate::design::clone_mockup(&ms[i]));
        }
        i += 1;
    }
    assert(ms@.take(ms@.len() as int) =~= ms@);
    out
}

/// The records named by the given ids: elements, relationships and mockups by their id,
/// diagrams by their key, and bindings by the element they bind.
pub fn load_by_ids(
    revision: i64,
    ids: &[String],
    elements: &[DesignElementRecord],
    relationships: &[DesignRelationshipRecord],
    diagrams: &[DesignDiagramRecord],
    bindings: &[DesignBindingRecord],
    mockups: &[MockupSummary],
) -> (r: DesignByIdsResult)
    ensures
        r.revision == revision,
        is_supported_type_list(r.uml_artifact_types@),
        r.elements@ == keep(elements@, |e: DesignElementRecord| strings_view(ids@).contains(e.external_id@)),
        r.relationships@ == keep(
            relationships@,
            |x: DesignRelationshipRecord| strings_view(ids@).contains(x.external_id@),
        ),
        r.diagrams@ == keep(diagrams@, |d: DesignDiagramRecord| strings_view(ids@).contains(d.key@)),
        r.bindings@ == keep(
            bindings@,
            |b: DesignBindingRecord| strings_view(ids@).contains(b.design_external_id@),
        ),
        r.mockups@ == keep(mockups@, |m: MockupSummary| strings_view(ids@).contains(m.external_id@)),
{
    DesignByIdsResult {
        revision,
        uml_artifact_types: crate::design::supported_uml_artifact_types(),
        elements: elements_named(elements, ids),
        relationships: relationships_named(relationships, ids),
        diagrams: diagrams_named(diagrams, ids),
        bindings: bindings_named(bindings, ids),
        mockups: mockups_named(mockups, ids),
    }
}

/// A binding targets one of the named files, or one of the named symbols.
pub open spec fn binding_targeted(b: DesignBindingRecord, files: Seq<Seq<char>>, symbols: Seq<Seq<char>>) -> bool {
    (b.target_type@ == "file"@ && files.contains(b.target@)) || (b.target_type@ == "symbol"@
        && symbols.contains(b.target@))
}

/// The bindings of the named files and symbols, and the records they bind: elements,
/// relationships and mockups by id, diagrams by key.
pub fn load_by_bindings(
    revision: i64,
    files: &[String],
    symbols: &[String],
    elements: &[DesignElementRecord],
    relationships: &[DesignRelationshipRecord],
    diagrams: &[DesignDiagramRecord],
    bindings: &[DesignBindingRecord],
    mockups: &[MockupSummary],
) -> (r: DesignBindingsResult)
    ensures
        r.revision == revision,
        is_supported_type_list(r.uml_artifact_types@),
        r.bindings@ == keep(
            bindings@,
            |b: DesignBindingRecord| binding_targeted(b, strings_view(files@), strings_view(symbols@)),
        ),
        ({
            let bound = r.bindings@.map_values(|b: DesignBindingRecord| b.design_external_id@);
            &&& r.elements@ == keep(elements@, |e: DesignElementRecord| bound.contains(e.external_id@))
            &&& r.relationships@ == keep(
                relationships@,
                |x: DesignRelationshipRecord| bound.contains(x.external_id@),
            )
            &&& r.diagrams@ == keep(diagrams@, |d: DesignDiagramRecord| bound.contains(d.key@))
            &&& r.mockups@ == keep(mockups@, |m: MockupSummary| bound.contains(m.external_id@))
        }),
{
    let mut kept: Vec<DesignBindingRecord> = Vec::new();
    let mut i: usize = 0;
    assert(bindings@.take(0) =~= Seq::<DesignBindingRecord>::empty());
    while i < bindings.len()
        invariant
            i <= bindings@.len(),
            kept@ == keep(
                bindings@.take(i as int),
                |b: DesignBindingRecord| binding_targeted(b, strings_view(files@), strings_view(symbols@)),
            ),
        decreases bindings.len() - i,
    {
        proof {
            assert(bindings@.take(i + 1).drop_last() =~= bindings@.take(i as int));
            assert(bindings@.take(i + 1).last() == bindings@[i as int]);
        }
        let b = &bindings[i];
        let targeted = (str_eq(b.target_type.as_str(), "file") && named_in(files, b.target.as_str())) || (
        str_eq(b.target_type.as_str(), "symbol") && named_in(symbols, b.target.as_str()));
        if targeted {
            kept.push(clone_binding(b));
        }
        i += 1;
    }
    assert(bindings@.take(bindings@.len() as int) =~= bindings@);
    let mut design_ids: Vec<String> = Vec::new();
    let mut k: usize = 0;
    while k < kept.len()
        invariant
            k <= kept@.len(),
            strings_view(design_ids@) == kept@.take(k as int).map_values(
                |b: DesignBindingRecord| b.design_external_id@,
            ),
        decreases kept.len() - k,
    {
        let ghost before = strings_view(design_ids@);
        design_ids.push(owned(kept[k].design_external_id.as_str()));
        assert(strings_view(design_ids@) =~= before.push(kept@[k as int].design_external_id@));
        assert(kept@.take(k + 1).map_values(|b: DesignBindingRecord| b.design_external_id@)
            =~= kept@.take(k as int).map_values(|b: DesignBindingRecord| b.design_external_id@).push(
            kept@[k as int].design_external_id@,
        ));
        k += 1;
    }
    assert(kept@.take(kept@.len() as int) =~= kept@);
    let elements_out = elements_named(elements, design_ids.as_slice());
    let relationships_out = relationships_named(relationships, design_ids.as_slice());
    let diagrams_out = diagrams_named(diagrams, design_ids.as_slice());
    let mockups_out = mockups_named(mockups, design_ids.as_slice());
    DesignBindingsResult {
        revision,
        uml_artifact_types: crate::design::supported_uml_artifact_types(),
        bindings: kept,
        elements: elements_out,
        relationships: relationships_out,
        diagrams: diagrams_out,
        mockups: mockups_out,
    }
}

/// The overview of a design: the workspace, the elements at most `max_depth` levels below the
/// top (all of them without a limit), and every relationship, diagram, binding and mockup.
pub fn load_overview(
    revision: i64,
    workspace_name: String,
    workspace_description: String,
    structurizr_dsl: String,
    elements: Vec<DesignElementRecord>,
    relationships: Vec<DesignRelationshipRecord>,
    diagrams: Vec<DesignDiagramRecord>,
    bindings: Vec<DesignBindingRecord>,
    mockups: Vec<MockupSummary>,
    max_depth: Option<usize>,
) -> (r: DesignOverviewResult)
    requires
        max_depth is Some ==> chains_end(elements@),
        elements@.len() < usize::MAX,
    ensures
        r.revision == revision,
        r.workspace_name@ == workspace_name@,
        r.workspace_description@ == workspace_description@,
        r.structurizr_dsl@ == structurizr_dsl@,
        is_supported_type_list(r.uml_artifact_types@),
        r.elements@ == shallow_elements(elements@, elements@, max_depth),
        r.relationships@ == relationships@,
        r.diagrams@ == diagrams@,
        r.bindings@ == bindings@,
        r.mockups@ == mockups@,
{
    DesignOverviewResult {
        revision,
        workspace_name,
        workspace_description,
        structurizr_dsl,
        uml_artifact_types: crate::design::supported_uml_artifact_types(),
        elements: filter_elements_by_depth(elements, max_depth),
        relationships,
        diagrams,
        bindings,
        mockups,
    }
}


// ---------------------------------------------------------------- laws of the design search

/// `f` is one space-separated part of the text that `hay` lower-cases.
pub open spec fn reads_part(hay: Seq<char>, f: Seq<char>) -> bool {
    exists|pre: Seq<char>, post: Seq<char>|
        hay == lowercase(pre + f + post) && (pre.len() == 0 || pre.last() == ' ') && (post.len() == 0
            || post[0] == ' ')
}

/// Law: an element is searched by all of its text: its id, name, description, technology and
/// tags are each a space-separated part of what its search reads, ignoring case.
pub proof fn law_element_search_reads_every_field(e: DesignElementRecord)
    ensures
        reads_part(element_haystack(e), e.external_id@),
        reads_part(element_haystack(e), e.name@),
        reads_part(element_haystack(e), e.description@),
        reads_part(element_haystack(e), e.technology@),
        reads_part(element_haystack(e), e.tags@),
{
    let sp = " "@;
    reveal_strlit(" ");
    let (i, n, d, t, g) = (e.external_id@, e.name@, e.description@, e.technology@, e.tags@);
    let whole = i + sp + n + sp + d + sp + t + sp + g;
    assert(element_haystack(e) == lowercase(whole));
    let e0 = Seq::<char>::empty();
    assert(whole =~= e0 + i + (sp + n + sp + d + sp + t + sp + g));
    assert((sp + n + sp + d + sp + t + sp + g)[0] == ' ');
    assert(whole =~= (i + sp) + n + (sp + d + sp + t + sp + g));
    assert((sp + d + sp + t + sp + g)[0] == ' ');
    assert((i + sp).last() == ' ');
    assert(whole =~= (i + sp + n + sp) + d + (sp + t + sp + g));
    assert((sp + t + sp + g)[0] == ' ');
    assert((i + sp + n + sp).last() == ' ');
    assert(whole =~= (i + sp + n + sp + d + sp) + t + (sp + g));
    assert((sp + g)[0] == ' ');
    assert((i + sp + n + sp + d + sp).last() == ' ');
    assert(whole =~= (i + sp + n + sp + d + sp + t + sp) + g + e0);
    assert((i + sp + n + sp + d + sp + t + sp).last() == ' ');
}

/// Law: an element is a hit exactly when what its search reads contains every term; its hit
/// names it by id, with its name and description.
pub proof fn law_element_hits_are_the_matching_elements(es: Seq<DesignElementRecord>, terms: Seq<Seq<char>>)
    ensures
        forall|k: int|
            0 <= k < es.len() && (forall|i: int|
                0 <= i < terms.len() ==> contains(element_haystack(es[k]), #[trigger] terms[i]))
                ==> element_hits(es, terms).contains(
                ("element"@, es[k].external_id@, es[k].name@, es[k].description@),
            ),
        forall|j: int|
            0 <= j < element_hits(es, terms).len() ==> exists|k: int|
                0 <= k < es.len() && #[trigger] element_hits(es, terms)[j] == (
                    "element"@,
                    es[k].external_id@,
                    es[k].name@,
                    es[k].description@,
                ) && forall|i: int|
                    0 <= i < terms.len() ==> contains(element_haystack(es[k]), #[trigger] terms[i]),
    decreases es.len(),
{
    if es.len() > 0 {
        let p = es.drop_last();
        law_element_hits_are_the_matching_elements(p, terms);
        let h = element_hits(es, terms);
        let hp = element_hits(p, terms);
        assert forall|k: int|
            0 <= k < es.len() && (forall|i: int|
                0 <= i < terms.len() ==> contains(element_haystack(es[k]), #[trigger] terms[i]))
            implies h.contains(("element"@, es[k].external_id@, es[k].name@, es[k].description@)) by {
            if k < p.len() {
                assert(p[k] == es[k]);
                let x = ("element"@, es[k].external_id@, es[k].name@, es[k].description@);
                let j = choose|j: int| 0 <= j < hp.len() && hp[j] == x;
                assert(h[j] == hp[j]);
            } else {
                assert(es.last() == es[k]);
                assert(matches_terms_spec(element_haystack(es.last()), terms));
                assert(h[hp.len() as int] == ("element"@, es[k].external_id@, es[k].name@, es[k].description@));
            }
        }
        assert forall|j: int| 0 <= j < h.len() implies exists|k: int|
            0 <= k < es.len() && #[trigger] h[j] == (
                "element"@,
                es[k].external_id@,
                es[k].name@,
                es[k].description@,
            ) && forall|i: int|
                0 <= i < terms.len() ==> contains(element_haystack(es[k]), #[trigger] terms[i]) by {
            if j < hp.len() {
                assert(h[j] == hp[j]);
                let k = choose|k: int|
                    0 <= k < p.len() && #[trigger] hp[j] == (
                        "element"@,
                        p[k].external_id@,
                        p[k].name@,
                        p[k].description@,
                    ) && forall|i: int|
                        0 <= i < terms.len() ==> contains(element_haystack(p[k]), #[trigger] terms[i]);
                assert(p[k] == es[k]);
            } else {
                let k = es.len() - 1;
                assert(es[k] == es.last());
            }
        }
    }
}


/// Parts joined by single spaces.
pub open spec fn join_spaced(fs: Seq<Seq<char>>) -> Seq<char>
    decreases fs.len(),
{
    if fs.len() == 0 {
        Seq::empty()
    } else if fs.len() == 1 {
        fs[0]
    } else {
        join_spaced(fs.drop_last()) + " "@ + fs.last()
    }
}

proof fn lemma_join_parts(fs: Seq<Seq<char>>, k: int)
    requires
        0 <= k < fs.len(),
    ensures
        exists|pre: Seq<char>, post: Seq<char>|
            join_spaced(fs) == pre + fs[k] + post && (pre.len() == 0 || pre.last() == ' ') && (post.len()
                == 0 || post[0] == ' '),
    decreases fs.len(),
{
    reveal_strlit(" ");
    if fs.len() == 1 {
        assert(join_spaced(fs) =~= Seq::<char>::empty() + fs[k] + Seq::<char>::empty());
    } else if k == fs.len() - 1 {
        let pre = join_spaced(fs.drop_last()) + " "@;
        assert(join_spaced(fs) =~= pre + fs[k] + Seq::<char>::empty());
    } else {
        let p = fs.drop_last();
        lemma_join_parts(p, k);
        assert(p[k] == fs[k]);
        let (pre, post) = choose|pre: Seq<char>, post: Seq<char>|
            join_spaced(p) == pre + p[k] + post && (pre.len() == 0 || pre.last() == ' ') && (post.len()
                == 0 || post[0] == ' ');
        let post2 = post + " "@ + fs.last();
        assert(join_spaced(fs) =~= pre + fs[k] + post2);
        assert(post2[0] == ' ') by {
            if post.len() > 0 {
                assert(post2[0] == post[0]);
            }
        }
    }
}

proof fn lemma_reads_every_part(hay: Seq<char>, fs: Seq<Seq<char>>)
    requires
        hay == lowercase(join_spaced(fs)),
    ensures
        forall|k: int| 0 <= k < fs.len() ==> reads_part(hay, #[trigger] fs[k]),
{
    assert forall|k: int| 0 <= k < fs.len() implies reads_part(hay, #[trigger] fs[k]) by {
        lemma_join_parts(fs, k);
        let (pre, post) = choose|pre: Seq<char>, post: Seq<char>|
            join_spaced(fs) == pre + fs[k] + post && (pre.len() == 0 || pre.last() == ' ') && (post.len()
                == 0 || post[0] == ' ');
        assert(hay == lowercase(pre + fs[k] + post));
    }
}

/// Law: a relationship is searched by its id, both ends, description, technology and tags.
pub proof fn law_relationship_search_reads_every_field(r: DesignRelationshipRecord)
    ensures
        reads_part(relationship_haystack(r), r.external_id@),
        reads_part(relationship_haystack(r), r.source_external_id@),
        reads_part(relationship_haystack(r), r.destination_external_id@),
        reads_part(relationship_haystack(r), r.description@),
        reads_part(relationship_haystack(r), r.technology@),
        reads_part(relationship_haystack(r), r.tags@),
{
    let fs = seq![
        r.external_id@,
        r.source_external_id@,
        r.destination_external_id@,
        r.description@,
        r.technology@,
        r.tags@,
    ];
    reveal_with_fuel(join_spaced, 7);
    assert(join_spaced(fs) =~= r.external_id@ + " "@ + r.source_external_id@ + " "@
        + r.destination_external_id@ + " "@ + r.description@ + " "@ + r.technology@ + " "@ + r.tags@);
    lemma_reads_every_part(relationship_haystack(r), fs);
    assert(fs[0] == r.external_id@ && fs[1] == r.source_external_id@ && fs[2]
        == r.destination_external_id@ && fs[3] == r.description@ && fs[4] == r.technology@ && fs[5]
        == r.tags@);
}

/// Law: a UML artifact is searched by its key, language, title, type and source.
pub proof fn law_diagram_search_reads_every_field(d: DesignDiagramRecord)
    ensures
        reads_part(diagram_haystack(d), d.key@),
        reads_part(diagram_haystack(d), d.language@),
        reads_part(diagram_haystack(d), d.title@),
        reads_part(diagram_haystack(d), d.diagram_type@),
        reads_part(diagram_haystack(d), d.source@),
{
    let fs = seq![d.key@, d.language@, d.title@, d.diagram_type@, d.source@];
    reveal_with_fuel(join_spaced, 6);
    assert(join_spaced(fs) =~= d.key@ + " "@ + d.language@ + " "@ + d.title@ + " "@ + d.diagram_type@
        + " "@ + d.source@);
    lemma_reads_every_part(diagram_haystack(d), fs);
    assert(fs[0] == d.key@ && fs[1] == d.language@ && fs[2] == d.title@ && fs[3] == d.diagram_type@
        && fs[4] == d.source@);
}

/// Law: a mockup is searched by its id, title, attachment, screen, state and fidelity.
pub proof fn law_mockup_search_reads_every_field(m: MockupSummary)
    ensures
        reads_part(mockup_haystack(m), m.external_id@),
        reads_part(mockup_haystack(m), m.title@),
        reads_part(mockup_haystack(m), m.attached_to_external_id@),
        reads_part(mockup_haystack(m), m.screen@),
        reads_part(mockup_haystack(m), m.state@),
        reads_part(mockup_haystack(m), m.fidelity@),
{
    let fs = seq![m.external_id@, m.title@, m.attached_to_external_id@, m.screen@, m.state@, m.fidelity@];
    reveal_with_fuel(join_spaced, 7);
    assert(join_spaced(fs) =~= m.external_id@ + " "@ + m.title@ + " "@ + m.attached_to_external_id@
        + " "@ + m.screen@ + " "@ + m.state@ + " "@ + m.fidelity@);
    lemma_reads_every_part(mockup_haystack(m), fs);
    assert(fs[0] == m.external_id@ && fs[1] == m.title@ && fs[2] == m.attached_to_external_id@ && fs[3]
        == m.screen@ && fs[4] == m.state@ && fs[5] == m.fidelity@);
}


/// Law: when elements are searched (no kinds named, or `element` among them), the element hits
/// come first among all hits, in stored order.
pub proof fn law_element_hits_lead(
    terms: Seq<Seq<char>>,
    kinds: Seq<Seq<char>>,
    es: Seq<DesignElementRecord>,
    rs: Seq<DesignRelationshipRecord>,
    ds: Seq<DesignDiagramRecord>,
    ms: Seq<MockupSummary>,
)
    requires
        kinds.len() == 0 || kinds.contains("element"@),
    ensures
        element_hits(es, terms).is_prefix_of(all_hits(terms, kinds, es, rs, ds, ms)),
{
    let a = all_hits(terms, kinds, es, rs, ds, ms);
    let e = element_hits(es, terms);
    assert(a.subrange(0, e.len() as int) =~= e);
}

} // verus!
