//! Complete editable design documents and the read tokens that guard their edits.
//!
//! A document is the canonical JSON of one stored record: keys in sorted order, no
//! whitespace. Its read token is the SHA-256 of the JSON array of a schema tag, the document id
//! and the document, so the token is a function of the document id and the document alone.
use sha2::{Digest, Sha256};
use vstd::prelude::*;

use vstd::utf8::encode_utf8;

use crate::concurrency::{document_id, document_id_spec, MutationGuard, ResourceExpectation};
use crate::context::{hex_digit, json_text, json_text_of};
use crate::design::{
    DesignBindingRecord, DesignDiagramRecord, DesignElementRecord, DesignRelationshipRecord,
    MockupSummary,
};
use crate::text::{
    chars_of, eq_lit, find_from, find_from_exec, lemma_seq_order_antisym, lemma_seq_order_eq, lemma_seq_order_trans, owned, push_str_chars,
    seq_order, slice_chars, str_eq,
};

verus! {

broadcast use vstd::string::group_string_axioms;

/// The design write contract, as a workflow note.
pub const WRITE_PROTOCOL: &'static str = "# Current design write contract\nThe current API supersedes any older expectedRevision or guard/readSet/writeSet examples in saved guidance. Read existing documents with adashi_design get_by_ids, get_scope, get_bindings, or get_documents. Each documents entry includes documentId, full document, and readToken. Save using operationId, changeIntent, changes, and readTokens copied as {documentId,readToken} pairs for all existing documents being changed or deleted. New identities need no token. Referenced parents/endpoints need no token unless modified. Adashi checks dependencies atomically. On out_of_date nothing is saved: merge intended edits into the returned currentDocument and retry with its readToken and a new operationId. Never only replace the token on an old payload. Deletes also protect dependent documents they remove. Overview/search/index entries are navigation, not editable snapshots.";

/// A document id and the read token of the snapshot it was read in.
#[derive(Clone, Debug)]
pub struct DocumentReadToken {
    pub document_id: String,
    pub read_token: String,
}

/// One complete editable document: its canonical JSON (`null` when it no longer exists) and
/// its read token.
#[derive(Clone, Debug)]
pub struct DesignDocument {
    pub document_id: String,
    pub document: String,
    pub read_token: String,
}

/// The tokens a write carries for the documents it read.
#[derive(Clone, Debug)]
pub struct DocumentGuard {
    pub operation_id: String,
    pub read_tokens: Vec<DocumentReadToken>,
}

// ---------------------------------------------------------------- digests

/// The SHA-256 digest of a byte string.
pub uninterp spec fn sha256_of(data: Seq<u8>) -> Seq<u8>;

/// `Sha256::digest` from sha2. The digest is named, not restated; it is 32 bytes long, the
/// output size sha2 declares for SHA-256.
#[verifier::external_body]
fn sha256(data: &[u8]) -> (r: Vec<u8>)
    ensures
        r@ == sha256_of(data@),
        r@.len() == 32,
{
    Sha256::digest(data).to_vec()
}

/// Lowercase hexadecimal, two digits per byte, most significant digit first.
pub open spec fn hex_bytes(b: Seq<u8>) -> Seq<char>
    decreases b.len(),
{
    if b.len() == 0 {
        Seq::empty()
    } else {
        hex_bytes(b.drop_last()) + seq![
            hex_digit((b.last() / 16) as nat),
            hex_digit((b.last() % 16) as nat),
        ]
    }
}

fn hex_char(d: u8) -> (c: char)
    requires
        d < 16,
    ensures
        c == hex_digit(d as nat),
{
    if d < 10 {
        (48u8 + d) as char
    } else {
        (87u8 + d) as char
    }
}

fn push_hex(s: &mut String, bytes: &[u8])
    ensures
        final(s)@ == old(s)@ + hex_bytes(bytes@),
{
    let ghost start = s@;
    let mut i: usize = 0;
    assert(bytes@.take(0) =~= Seq::<u8>::empty());
    assert(start + Seq::<char>::empty() =~= start);
    while i < bytes.len()
        invariant
            i <= bytes@.len(),
            s@ == start + hex_bytes(bytes@.take(i as int)),
        decreases bytes.len() - i,
    {
        proof {
            assert(bytes@.take(i + 1).drop_last() =~= bytes@.take(i as int));
            assert(bytes@.take(i + 1).last() == bytes@[i as int]);
        }
        let b = bytes[i];
        s.push(hex_char(b / 16));
        s.push(hex_char(b % 16));
        assert(s@ =~= start + hex_bytes(bytes@.take(i + 1)));
        i += 1;
    }
    assert(bytes@.take(bytes@.len() as int) =~= bytes@);
}

/// What a read token digests: the JSON array of the schema tag, the document id and the
/// document.
pub open spec fn token_text(id: Seq<char>, document: Seq<char>) -> Seq<char> {
    "["@ + json_text_of(Some("adashi.design-document.v1"@)) + ","@ + json_text_of(Some(id))
        + ","@ + document + "]"@
}

/// The read token of a document.
pub open spec fn read_token_spec(id: Seq<char>, document: Seq<char>) -> Seq<char> {
    "sha256:"@ + hex_bytes(sha256_of(encode_utf8(token_text(id, document))))
}

/// The read token of a document, given its id and canonical JSON.
pub fn read_token(document_id: &str, document: &str) -> (r: String)
    ensures
        r@ == read_token_spec(document_id@, document@),
{
    let mut text = owned("[");
    let tag = json_text(Some("adashi.design-document.v1"));
    push_str_chars(&mut text, tag.as_str());
    push_str_chars(&mut text, ",");
    let id = json_text(Some(document_id));
    push_str_chars(&mut text, id.as_str());
    push_str_chars(&mut text, ",");
    push_str_chars(&mut text, document);
    push_str_chars(&mut text, "]");
    assert(text@ =~= token_text(document_id@, document@));
    let digest = sha256(text.as_str().as_bytes());
    let mut token = owned("sha256:");
    push_hex(&mut token, digest.as_slice());
    token
}

// ---------------------------------------------------------------- canonical documents

/// A string as a JSON literal.
pub open spec fn jstr(s: Seq<char>) -> Seq<char> {
    json_text_of(Some(s))
}

/// An optional string as a JSON literal or `null`.
pub open spec fn jopt(o: Option<String>) -> Seq<char> {
    json_text_of(
        match o {
            Some(s) => Some(s@),
            None => None,
        },
    )
}

/// The canonical JSON of an element.
pub open spec fn element_document(e: DesignElementRecord) -> Seq<char> {
    "{\"description\":"@ + jstr(e.description@) + ",\"elementType\":"@ + jstr(e.element_type@)
        + ",\"externalId\":"@ + jstr(e.external_id@) + ",\"name\":"@ + jstr(e.name@)
        + ",\"parentExternalId\":"@ + jopt(e.parent_external_id) + ",\"tags\":"@ + jstr(e.tags@)
        + ",\"technology\":"@ + jstr(e.technology@) + "}"@
}

/// The canonical JSON of a relationship.
pub open spec fn relationship_document(r: DesignRelationshipRecord) -> Seq<char> {
    "{\"description\":"@ + jstr(r.description@) + ",\"destinationExternalId\":"@ + jstr(
        r.destination_external_id@,
    ) + ",\"externalId\":"@ + jstr(r.external_id@) + ",\"sourceExternalId\":"@ + jstr(
        r.source_external_id@,
    ) + ",\"tags\":"@ + jstr(r.tags@) + ",\"technology\":"@ + jstr(r.technology@) + "}"@
}

/// The canonical JSON of a diagram: what an author edits, without the role, label and rank
/// derived from its type, the target type derived from its attachment, or its position.
pub open spec fn diagram_document(d: DesignDiagramRecord) -> Seq<char> {
    "{\"attachedToExternalId\":"@ + jopt(d.attached_to_external_id) + ",\"diagramType\":"@ + jstr(
        d.diagram_type@,
    ) + ",\"key\":"@ + jstr(d.key@) + ",\"language\":"@ + jstr(d.language@) + ",\"source\":"@
        + jstr(d.source@) + ",\"title\":"@ + jstr(d.title@) + "}"@
}

/// The canonical JSON of a binding.
pub open spec fn binding_document(b: DesignBindingRecord) -> Seq<char> {
    "{\"designExternalId\":"@ + jstr(b.design_external_id@) + ",\"target\":"@ + jstr(b.target@)
        + ",\"targetType\":"@ + jstr(b.target_type@) + "}"@
}

fn push_json(s: &mut String, value: &str)
    ensures
        final(s)@ == old(s)@ + jstr(value@),
{
    let v = json_text(Some(value));
    push_str_chars(s, v.as_str());
}

fn push_json_opt(s: &mut String, value: &Option<String>)
    ensures
        final(s)@ == old(s)@ + jopt(*value),
{
    let v = json_text(
        match value {
            Some(p) => Some(p.as_str()),
            None => None,
        },
    );
    push_str_chars(s, v.as_str());
}

/// The canonical JSON of an element.
pub fn element_json(e: &DesignElementRecord) -> (r: String)
    ensures
        r@ == element_document(*e),
{
    let mut s = owned("{\"description\":");
    push_json(&mut s, e.description.as_str());
    push_str_chars(&mut s, ",\"elementType\":");
    push_json(&mut s, e.element_type.as_str());
    push_str_chars(&mut s, ",\"externalId\":");
    push_json(&mut s, e.external_id.as_str());
    push_str_chars(&mut s, ",\"name\":");
    push_json(&mut s, e.name.as_str());
    push_str_chars(&mut s, ",\"parentExternalId\":");
    push_json_opt(&mut s, &e.parent_external_id);
    push_str_chars(&mut s, ",\"tags\":");
    push_json(&mut s, e.tags.as_str());
    push_str_chars(&mut s, ",\"technology\":");
    push_json(&mut s, e.technology.as_str());
    push_str_chars(&mut s, "}");
    assert(s@ =~= element_document(*e));
    s
}

/// The canonical JSON of a relationship.
pub fn relationship_json(r: &DesignRelationshipRecord) -> (out: String)
    ensures
        out@ == relationship_document(*r),
{
    let mut s = owned("{\"description\":");
    push_json(&mut s, r.description.as_str());
    push_str_chars(&mut s, ",\"destinationExternalId\":");
    push_json(&mut s, r.destination_external_id.as_str());
    push_str_chars(&mut s, ",\"externalId\":");
    push_json(&mut s, r.external_id.as_str());
    push_str_chars(&mut s, ",\"sourceExternalId\":");
    push_json(&mut s, r.source_external_id.as_str());
    push_str_chars(&mut s, ",\"tags\":");
    push_json(&mut s, r.tags.as_str());
    push_str_chars(&mut s, ",\"technology\":");
    push_json(&mut s, r.technology.as_str());
    push_str_chars(&mut s, "}");
    assert(s@ =~= relationship_document(*r));
    s
}

/// The canonical JSON of a diagram.
pub fn diagram_json(d: &DesignDiagramRecord) -> (r: String)
    ensures
        r@ == diagram_document(*d),
{
    let mut s = owned("{\"attachedToExternalId\":");
    push_json_opt(&mut s, &d.attached_to_external_id);
    push_str_chars(&mut s, ",\"diagramType\":");
    push_json(&mut s, d.diagram_type.as_str());
    push_str_chars(&mut s, ",\"key\":");
    push_json(&mut s, d.key.as_str());
    push_str_chars(&mut s, ",\"language\":");
    push_json(&mut s, d.language.as_str());
    push_str_chars(&mut s, ",\"source\":");
    push_json(&mut s, d.source.as_str());
    push_str_chars(&mut s, ",\"title\":");
    push_json(&mut s, d.title.as_str());
    push_str_chars(&mut s, "}");
    assert(s@ =~= diagram_document(*d));
    s
}

/// The canonical JSON of a binding.
pub fn binding_json(b: &DesignBindingRecord) -> (r: String)
    ensures
        r@ == binding_document(*b),
{
    let mut s = owned("{\"designExternalId\":");
    push_json(&mut s, b.design_external_id.as_str());
    push_str_chars(&mut s, ",\"target\":");
    push_json(&mut s, b.target.as_str());
    push_str_chars(&mut s, ",\"targetType\":");
    push_json(&mut s, b.target_type.as_str());
    push_str_chars(&mut s, "}");
    assert(s@ =~= binding_document(*b));
    s
}

// ---------------------------------------------------------------- snapshots

/// A stored document under its document id.
#[derive(Clone, Debug)]
pub struct DocumentSnapshot {
    pub document_id: String,
    pub document: String,
}

pub open spec fn snapshot_view(s: DocumentSnapshot) -> (Seq<char>, Seq<char>) {
    (s.document_id@, s.document@)
}

pub open spec fn snapshots_view(v: Seq<DocumentSnapshot>) -> Seq<(Seq<char>, Seq<char>)> {
    v.map_values(|s: DocumentSnapshot| snapshot_view(s))
}

pub open spec fn element_snapshot(e: DesignElementRecord) -> (Seq<char>, Seq<char>) {
    ("element:"@ + e.external_id@, element_document(e))
}

pub open spec fn relationship_snapshot(r: DesignRelationshipRecord) -> (Seq<char>, Seq<char>) {
    ("relationship:"@ + r.external_id@, relationship_document(r))
}

pub open spec fn diagram_snapshot(d: DesignDiagramRecord) -> (Seq<char>, Seq<char>) {
    ("uml:"@ + d.key@, diagram_document(d))
}

/// A binding's identity is its element, target type and target, joined by `|`.
pub open spec fn binding_snapshot(b: DesignBindingRecord) -> (Seq<char>, Seq<char>) {
    (
        "binding:"@ + b.design_external_id@ + "|"@ + b.target_type@ + "|"@ + b.target@,
        binding_document(b),
    )
}

/// Only Mermaid diagrams are editable documents.
pub open spec fn diagram_snapshots(ds: Seq<DesignDiagramRecord>) -> Seq<(Seq<char>, Seq<char>)>
    decreases ds.len(),
{
    if ds.len() == 0 {
        Seq::empty()
    } else if ds.last().language@ == "mermaid"@ {
        diagram_snapshots(ds.drop_last()).push(diagram_snapshot(ds.last()))
    } else {
        diagram_snapshots(ds.drop_last())
    }
}

/// Every editable document of a workspace: elements, relationships, Mermaid diagrams and
/// bindings, each in stored order.
pub open spec fn workspace_snapshots_spec(
    es: Seq<DesignElementRecord>,
    rs: Seq<DesignRelationshipRecord>,
    ds: Seq<DesignDiagramRecord>,
    bs: Seq<DesignBindingRecord>,
) -> Seq<(Seq<char>, Seq<char>)> {
    es.map_values(|e: DesignElementRecord| element_snapshot(e)) + rs.map_values(
        |r: DesignRelationshipRecord| relationship_snapshot(r),
    ) + diagram_snapshots(ds) + bs.map_values(|b: DesignBindingRecord| binding_snapshot(b))
}

/// The editable documents of a workspace.
pub fn workspace_snapshots(
    elements: &[DesignElementRecord],
    relationships: &[DesignRelationshipRecord],
    diagrams: &[DesignDiagramRecord],
    bindings: &[DesignBindingRecord],
) -> (r: Vec<DocumentSnapshot>)
    ensures
        snapshots_view(r@) == workspace_snapshots_spec(elements@, relationships@, diagrams@, bindings@),
{
    let mut out: Vec<DocumentSnapshot> = Vec::new();
    let mut i: usize = 0;
    while i < elements.len()
        invariant
            i <= elements@.len(),
            snapshots_view(out@) == elements@.take(i as int).map_values(
                |e: DesignElementRecord| element_snapshot(e),
            ),
        decreases elements.len() - i,
    {
        let mut id = owned("element:");
        push_str_chars(&mut id, elements[i].external_id.as_str());
        let snap = DocumentSnapshot { document_id: id, document: element_json(&elements[i]) };
        let ghost before = out@;
        out.push(snap);
        assert(snapshots_view(out@) =~= snapshots_view(before).push(snapshot_view(snap)));
        assert(elements@.take(i + 1) =~= elements@.take(i as int).push(elements@[i as int]));
        assert(elements@.take(i + 1).map_values(|e: DesignElementRecord| element_snapshot(e))
            =~= elements@.take(i as int).map_values(|e: DesignElementRecord| element_snapshot(e)).push(
            element_snapshot(elements@[i as int])));
        i += 1;
    }
    assert(elements@.take(elements@.len() as int) =~= elements@);
    let ghost p1 = snapshots_view(out@);
    let mut i: usize = 0;
    assert(relationships@.take(0).map_values(|r: DesignRelationshipRecord| relationship_snapshot(r))
        =~= Seq::<(Seq<char>, Seq<char>)>::empty());
    assert(p1 + Seq::<(Seq<char>, Seq<char>)>::empty() =~= p1);
    while i < relationships.len()
        invariant
            i <= relationships@.len(),
            snapshots_view(out@) == p1 + relationships@.take(i as int).map_values(
                |r: DesignRelationshipRecord| relationship_snapshot(r),
            ),
        decreases relationships.len() - i,
    {
        let mut id = owned("relationship:");
        push_str_chars(&mut id, relationships[i].external_id.as_str());
        let snap = DocumentSnapshot {
            document_id: id,
            document: relationship_json(&relationships[i]),
        };
        let ghost before = out@;
        out.push(snap);
        assert(snapshots_view(out@) =~= snapshots_view(before).push(snapshot_view(snap)));
        assert(relationships@.take(i + 1) =~= relationships@.take(i as int).push(relationships@[i as int]));
        assert(relationships@.take(i + 1).map_values(
            |r: DesignRelationshipRecord| relationship_snapshot(r),
        ) =~= relationships@.take(i as int).map_values(
            |r: DesignRelationshipRecord| relationship_snapshot(r),
        ).push(relationship_snapshot(relationships@[i as int])));
        i += 1;
    }
    assert(relationships@.take(relationships@.len() as int) =~= relationships@);
    let ghost p2 = snapshots_view(out@);
    let mut i: usize = 0;
    assert(diagram_snapshots(diagrams@.take(0)) =~= Seq::<(Seq<char>, Seq<char>)>::empty());
    assert(p2 + Seq::<(Seq<char>, Seq<char>)>::empty() =~= p2);
    while i < diagrams.len()
        invariant
            i <= diagrams@.len(),
            snapshots_view(out@) == p2 + diagram_snapshots(diagrams@.take(i as int)),
        decreases diagrams.len() - i,
    {
        proof {
            assert(diagrams@.take(i + 1).drop_last() =~= diagrams@.take(i as int));
            assert(diagrams@.take(i + 1).last() == diagrams@[i as int]);
        }
        let d = &diagrams[i];
        if str_eq(d.language.as_str(), "mermaid") {
            let mut id = owned("uml:");
            push_str_chars(&mut id, d.key.as_str());
            let snap = DocumentSnapshot { document_id: id, document: diagram_json(d) };
            let ghost before = out@;
            out.push(snap);
            assert(snapshots_view(out@) =~= snapshots_view(before).push(snapshot_view(snap)));
        }
        assert(snapshots_view(out@) =~= p2 + diagram_snapshots(diagrams@.take(i + 1)));
        i += 1;
    }
    assert(diagrams@.take(diagrams@.len() as int) =~= diagrams@);
    let ghost p3 = snapshots_view(out@);
    let mut i: usize = 0;
    assert(bindings@.take(0).map_values(|b: DesignBindingRecord| binding_snapshot(b))
        =~= Seq::<(Seq<char>, Seq<char>)>::empty());
    assert(p3 + Seq::<(Seq<char>, Seq<char>)>::empty() =~= p3);
    while i < bindings.len()
        invariant
            i <= bindings@.len(),
            snapshots_view(out@) == p3 + bindings@.take(i as int).map_values(
                |b: DesignBindingRecord| binding_snapshot(b),
            ),
        decreases bindings.len() - i,
    {
        let b = &bindings[i];
        let mut id = owned("binding:");
        push_str_chars(&mut id, b.design_external_id.as_str());
        push_str_chars(&mut id, "|");
        push_str_chars(&mut id, b.target_type.as_str());
        push_str_chars(&mut id, "|");
        push_str_chars(&mut id, b.target.as_str());
        let snap = DocumentSnapshot { document_id: id, document: binding_json(b) };
        let ghost before = out@;
        out.push(snap);
        assert(snapshots_view(out@) =~= snapshots_view(before).push(snapshot_view(snap)));
        assert(bindings@.take(i + 1) =~= bindings@.take(i as int).push(bindings@[i as int]));
        assert(bindings@.take(i + 1).map_values(|b: DesignBindingRecord| binding_snapshot(b))
            =~= bindings@.take(i as int).map_values(|b: DesignBindingRecord| binding_snapshot(b)).push(
            binding_snapshot(bindings@[i as int])));
        i += 1;
    }
    assert(bindings@.take(bindings@.len() as int) =~= bindings@);
    out
}

// ---------------------------------------------------------------- mockup documents

/// The accepted revision of a mockup as an editable document: its canonical JSON, as the
/// mockup store writes it.
#[derive(Clone, Debug)]
pub struct MockupDocument {
    pub external_id: String,
    pub document: String,
}

pub open spec fn mockup_snapshot(m: MockupDocument) -> (Seq<char>, Seq<char>) {
    ("mockup:"@ + m.external_id@, m.document@)
}

/// Every editable document of a design: the workspace's own, then each accepted mockup.
pub open spec fn design_snapshots_spec(
    es: Seq<DesignElementRecord>,
    rs: Seq<DesignRelationshipRecord>,
    ds: Seq<DesignDiagramRecord>,
    bs: Seq<DesignBindingRecord>,
    ms: Seq<MockupDocument>,
) -> Seq<(Seq<char>, Seq<char>)> {
    workspace_snapshots_spec(es, rs, ds, bs) + ms.map_values(|m: MockupDocument| mockup_snapshot(m))
}

/// The editable documents of a design, accepted mockups included.
pub fn design_snapshots(
    elements: &[DesignElementRecord],
    relationships: &[DesignRelationshipRecord],
    diagrams: &[DesignDiagramRecord],
    bindings: &[DesignBindingRecord],
    mockups: &[MockupDocument],
) -> (r: Vec<DocumentSnapshot>)
    ensures
        snapshots_view(r@) == design_snapshots_spec(
            elements@,
            relationships@,
            diagrams@,
            bindings@,
            mockups@,
        ),
{
    let mut out = workspace_snapshots(elements, relationships, diagrams, bindings);
    let ghost p = snapshots_view(out@);
    let mut i: usize = 0;
    assert(mockups@.take(0).map_values(|m: MockupDocument| mockup_snapshot(m)) =~= Seq::<
        (Seq<char>, Seq<char>),
    >::empty());
    assert(p + Seq::<(Seq<char>, Seq<char>)>::empty() =~= p);
    while i < mockups.len()
        invariant
            i <= mockups@.len(),
            snapshots_view(out@) == p + mockups@.take(i as int).map_values(
                |m: MockupDocument| mockup_snapshot(m),
            ),
        decreases mockups.len() - i,
    {
        let mut id = owned("mockup:");
        push_str_chars(&mut id, mockups[i].external_id.as_str());
        let snap = DocumentSnapshot { document_id: id, document: mockups[i].document.clone() };
        let ghost before = out@;
        out.push(snap);
        assert(snapshots_view(out@) =~= snapshots_view(before).push(snapshot_view(snap)));
        assert(mockups@.take(i + 1) =~= mockups@.take(i as int).push(mockups@[i as int]));
        assert(mockups@.take(i + 1).map_values(|m: MockupDocument| mockup_snapshot(m))
            =~= mockups@.take(i as int).map_values(|m: MockupDocument| mockup_snapshot(m)).push(
            mockup_snapshot(mockups@[i as int])));
        i += 1;
    }
    assert(mockups@.take(mockups@.len() as int) =~= mockups@);
    out
}

// ---------------------------------------------------------------- requested documents

pub open spec fn strings_view(v: Seq<String>) -> Seq<Seq<char>> {
    v.map_values(|s: String| s@)
}

/// Inserts `x` into an ordered list of ids unless it is already there.
pub open spec fn insert_sorted(r: Seq<Seq<char>>, x: Seq<char>) -> Seq<Seq<char>>
    decreases r.len(),
{
    if r.len() == 0 {
        seq![x]
    } else if seq_order(x, r[0]) == 0 {
        r
    } else if seq_order(x, r[0]) < 0 {
        seq![x] + r
    } else {
        seq![r[0]] + insert_sorted(r.drop_first(), x)
    }
}

/// The requested ids in order, each once.
pub open spec fn requested_ids(ids: Seq<Seq<char>>) -> Seq<Seq<char>>
    decreases ids.len(),
{
    if ids.len() == 0 {
        Seq::empty()
    } else {
        insert_sorted(requested_ids(ids.drop_last()), ids.last())
    }
}

proof fn lemma_insert_at(r: Seq<Seq<char>>, x: Seq<char>, i: int)
    requires
        0 <= i <= r.len(),
        forall|j: int| 0 <= j < i ==> seq_order(x, #[trigger] r[j]) > 0,
        i < r.len() ==> seq_order(x, r[i]) <= 0,
    ensures
        insert_sorted(r, x) == if i < r.len() && seq_order(x, r[i]) == 0 {
            r
        } else {
            r.take(i) + seq![x] + r.skip(i)
        },
    decreases i,
{
    if i == 0 {
        if r.len() == 0 {
            assert(r.take(0) + seq![x] + r.skip(0) =~= seq![x]);
        } else {
            assert(r.take(0) + seq![x] + r.skip(0) =~= seq![x] + r);
        }
    } else {
        assert(seq_order(x, r[0]) > 0);
        let t = r.drop_first();
        assert forall|j: int| 0 <= j < i - 1 implies seq_order(x, #[trigger] t[j]) > 0 by {
            assert(t[j] == r[j + 1]);
        }
        lemma_insert_at(t, x, i - 1);
        if i < r.len() && seq_order(x, r[i]) == 0 {
            assert(seq![r[0]] + t =~= r);
        } else {
            assert(seq![r[0]] + (t.take(i - 1) + seq![x] + t.skip(i - 1)) =~= r.take(i) + seq![x]
                + r.skip(i));
        }
    }
}

fn insert_id(r: &mut Vec<String>, x: &str)
    ensures
        strings_view(final(r)@) == insert_sorted(strings_view(old(r)@), x@),
{
    let ghost v = strings_view(r@);
    let mut i: usize = 0;
    while i < r.len() && crate::text::order_str(x, r[i].as_str()) > 0
        invariant
            i <= r@.len(),
            v == strings_view(r@),
            forall|j: int| 0 <= j < i ==> seq_order(x@, #[trigger] v[j]) > 0,
        decreases r.len() - i,
    {
        i += 1;
    }
    proof {
        lemma_insert_at(v, x@, i as int);
    }
    if i < r.len() && crate::text::order_str(x, r[i].as_str()) == 0 {
        return;
    }
    r.insert(i, owned(x));
    assert(strings_view(r@) =~= v.take(i as int) + seq![x@] + v.skip(i as int));
}

/// The requested ids, in order and each once.
pub fn requested_document_ids(ids: &[String]) -> (r: Vec<String>)
    ensures
        strings_view(r@) == requested_ids(strings_view(ids@)),
{
    let mut r: Vec<String> = Vec::new();
    let mut i: usize = 0;
    assert(strings_view(ids@).take(0) =~= Seq::<Seq<char>>::empty());
    assert(strings_view(r@) =~= Seq::<Seq<char>>::empty());
    while i < ids.len()
        invariant
            i <= ids@.len(),
            strings_view(r@) == requested_ids(strings_view(ids@).take(i as int)),
        decreases ids.len() - i,
    {
        proof {
            assert(strings_view(ids@).take(i + 1).drop_last() =~= strings_view(ids@).take(i as int));
            assert(strings_view(ids@).take(i + 1).last() == ids@[i as int]@);
        }
        insert_id(&mut r, ids[i].as_str());
        i += 1;
    }
    assert(strings_view(ids@).take(ids@.len() as int) =~= strings_view(ids@));
    r
}

/// Ids in strictly increasing order: sorted, and none twice.
pub open spec fn strictly_ordered(r: Seq<Seq<char>>) -> bool {
    forall|i: int, j: int| 0 <= i < j < r.len() ==> seq_order(#[trigger] r[i], #[trigger] r[j]) < 0
}

proof fn lemma_lt_trans(a: Seq<char>, b: Seq<char>, c: Seq<char>)
    requires
        seq_order(a, b) < 0,
        seq_order(b, c) < 0,
    ensures
        seq_order(a, c) < 0,
{
    lemma_seq_order_trans(a, b, c);
    lemma_seq_order_eq(a, c);
    if seq_order(a, c) == 0 {
        lemma_seq_order_antisym(a, b);
    }
}

proof fn lemma_insert_sorted(r: Seq<Seq<char>>, x: Seq<char>)
    requires
        strictly_ordered(r),
    ensures
        strictly_ordered(insert_sorted(r, x)),
        forall|y: Seq<char>| #[trigger] insert_sorted(r, x).contains(y) <==> (r.contains(y) || y == x),
    decreases r.len(),
{
    let s = insert_sorted(r, x);
    lemma_seq_order_eq(x, x);
    if r.len() == 0 {
        assert forall|y: Seq<char>| s.contains(y) <==> (r.contains(y) || y == x) by {
            if s.contains(y) {
                let k = choose|k: int| 0 <= k < s.len() && s[k] == y;
                assert(k == 0);
            }
            if y == x {
                assert(s[0] == y);
            }
        }
    } else if seq_order(x, r[0]) == 0 {
        lemma_seq_order_eq(x, r[0]);
        assert(r.contains(x));
    } else if seq_order(x, r[0]) < 0 {
        assert forall|i: int, j: int| 0 <= i < j < s.len() implies seq_order(
            #[trigger] s[i],
            #[trigger] s[j],
        ) < 0 by {
            if i == 0 {
                if j > 1 {
                    assert(s[j] == r[j - 1]);
                    lemma_lt_trans(x, r[0], r[j - 1]);
                }
            } else {
                assert(s[i] == r[i - 1] && s[j] == r[j - 1]);
            }
        }
        assert forall|y: Seq<char>| s.contains(y) <==> (r.contains(y) || y == x) by {
            if r.contains(y) {
                let k = choose|k: int| 0 <= k < r.len() && r[k] == y;
                assert(s[k + 1] == y);
            }
            if y == x {
                assert(s[0] == y);
            }
        }
    } else {
        let t = r.drop_first();
        assert(strictly_ordered(t)) by {
            assert forall|i: int, j: int| 0 <= i < j < t.len() implies seq_order(
                #[trigger] t[i],
                #[trigger] t[j],
            ) < 0 by {
                assert(t[i] == r[i + 1] && t[j] == r[j + 1]);
            }
        }
        lemma_insert_sorted(t, x);
        let u = insert_sorted(t, x);
        assert(s == seq![r[0]] + u);
        lemma_seq_order_antisym(x, r[0]);
        assert forall|i: int, j: int| 0 <= i < j < s.len() implies seq_order(
            #[trigger] s[i],
            #[trigger] s[j],
        ) < 0 by {
            if i == 0 {
                assert(s[j] == u[j - 1]);
                assert(u.contains(u[j - 1]));
                if t.contains(u[j - 1]) {
                    let k = choose|k: int| 0 <= k < t.len() && t[k] == u[j - 1];
                    assert(r[k + 1] == t[k]);
                    assert(seq_order(r[0], r[k + 1]) < 0);
                }
            } else {
                assert(s[i] == u[i - 1] && s[j] == u[j - 1]);
            }
        }
        assert forall|y: Seq<char>| s.contains(y) <==> (r.contains(y) || y == x) by {
            if s.contains(y) {
                let k = choose|k: int| 0 <= k < s.len() && s[k] == y;
                if k > 0 {
                    assert(u[k - 1] == y);
                    assert(u.contains(y));
                    if t.contains(y) {
                        let m = choose|m: int| 0 <= m < t.len() && t[m] == y;
                        assert(r[m + 1] == y);
                    }
                } else {
                    assert(r[0] == y);
                }
            }
            if r.contains(y) {
                let k = choose|k: int| 0 <= k < r.len() && r[k] == y;
                if k == 0 {
                    assert(s[0] == y);
                } else {
                    assert(t[k - 1] == y);
                    assert(t.contains(y));
                    assert(u.contains(y));
                    let m = choose|m: int| 0 <= m < u.len() && u[m] == y;
                    assert(s[m + 1] == y);
                }
            }
            if y == x {
                assert(u.contains(x));
                let m = choose|m: int| 0 <= m < u.len() && u[m] == x;
                assert(s[m + 1] == x);
            }
        }
    }
}

/// Documents are read in id order and each once: the requested ids come out strictly
/// increasing, and an id comes out exactly when it was asked for.
pub proof fn law_requested_ids_ordered_and_complete(ids: Seq<Seq<char>>)
    ensures
        strictly_ordered(requested_ids(ids)),
        forall|x: Seq<char>| #[trigger] requested_ids(ids).contains(x) <==> ids.contains(x),
    decreases ids.len(),
{
    if ids.len() > 0 {
        let p = ids.drop_last();
        law_requested_ids_ordered_and_complete(p);
        lemma_insert_sorted(requested_ids(p), ids.last());
        assert forall|x: Seq<char>| #[trigger] requested_ids(ids).contains(x) <==> ids.contains(x) by {
            assert(ids == p.push(ids.last()));
            if p.contains(x) {
                let k = choose|k: int| 0 <= k < p.len() && p[k] == x;
                assert(ids[k] == x);
            }
            if ids.contains(x) {
                let k = choose|k: int| 0 <= k < ids.len() && ids[k] == x;
                if k < ids.len() - 1 {
                    assert(p[k] == x);
                }
            }
        }
    }
}

/// A document kind that editable documents come in.
pub open spec fn is_document_kind(k: Seq<char>) -> bool {
    k == "element"@ || k == "relationship"@ || k == "uml"@ || k == "binding"@ || k == "mockup"@
}

/// A document id is a known kind, `:`, and a nonempty identity.
pub open spec fn document_id_valid(id: Seq<char>) -> bool {
    let k = find_from(id, ":"@, 0);
    k != -1 && k + 1 < id.len() && is_document_kind(id.take(k))
}

pub open spec fn invalid_document_id_message(id: Seq<char>) -> Seq<char> {
    "Invalid documentId '"@ + id + "'. Copy documentId from a design read response."@
}

/// Whether a document id names a known kind and a nonempty identity.
pub fn valid_document_id(id: &str) -> (b: bool)
    ensures
        b == document_id_valid(id@),
{
    let v = chars_of(id);
    let colon = chars_of(":");
    match find_from_exec(v.as_slice(), colon.as_slice(), 0) {
        None => false,
        Some(k) => {
            proof {
                crate::text::lemma_find_from_sound(id@, ":"@, 0);
            }
            if v.len() - k <= 1 {
                return false;
            }
            let kind = slice_chars(v.as_slice(), 0, k);
            assert(kind@ =~= id@.take(k as int));
            eq_lit(kind.as_slice(), "element") || eq_lit(kind.as_slice(), "relationship") || eq_lit(
                kind.as_slice(),
                "uml",
            ) || eq_lit(kind.as_slice(), "binding") || eq_lit(kind.as_slice(), "mockup")
        },
    }
}

/// The stored document under an id: the last snapshot with that id, else `null`.
pub open spec fn current_document(snaps: Seq<(Seq<char>, Seq<char>)>, id: Seq<char>) -> Seq<char>
    decreases snaps.len(),
{
    if snaps.len() == 0 {
        "null"@
    } else if snaps.last().0 == id {
        snaps.last().1
    } else {
        current_document(snaps.drop_last(), id)
    }
}

fn find_document(snapshots: &[DocumentSnapshot], id: &str) -> (r: String)
    ensures
        r@ == current_document(snapshots_view(snapshots@), id@),
{
    let ghost sv = snapshots_view(snapshots@);
    let mut i = snapshots.len();
    assert(sv.take(i as int) =~= sv);
    while i > 0
        invariant
            i <= snapshots@.len(),
            sv == snapshots_view(snapshots@),
            current_document(sv, id@) == current_document(sv.take(i as int), id@),
        decreases i,
    {
        proof {
            assert(sv.take(i as int).drop_last() =~= sv.take(i - 1));
            assert(sv.take(i as int).last() == snapshot_view(snapshots@[i - 1]));
        }
        if str_eq(snapshots[i - 1].document_id.as_str(), id) {
            return snapshots[i - 1].document.clone();
        }
        i -= 1;
    }
    owned("null")
}

pub open spec fn document_view(d: DesignDocument) -> (Seq<char>, Seq<char>, Seq<char>) {
    (d.document_id@, d.document@, d.read_token@)
}

/// The document a requested id reads: the id, its stored document or `null`, and its token.
pub open spec fn read_document(snaps: Seq<(Seq<char>, Seq<char>)>, id: Seq<char>) -> (
    Seq<char>,
    Seq<char>,
    Seq<char>,
) {
    (id, current_document(snaps, id), read_token_spec(id, current_document(snaps, id)))
}

/// Reads the requested documents from a workspace's snapshots, in id order and each once. An id
/// of an unknown kind or without an identity is refused; an id of a document that no longer
/// exists reads as `null` with its own token.
pub fn load_documents(ids: &[String], snapshots: &[DocumentSnapshot]) -> (r: Result<
    Vec<DesignDocument>,
    String,
>)
    ensures
        r is Ok <==> forall|i: int|
            0 <= i < requested_ids(strings_view(ids@)).len() ==> document_id_valid(
                #[trigger] requested_ids(strings_view(ids@))[i],
            ),
        r matches Ok(docs) ==> docs@.len() == requested_ids(strings_view(ids@)).len() && forall|
            i: int,
        |
            0 <= i < docs@.len() ==> document_view(#[trigger] docs@[i]) == read_document(
                snapshots_view(snapshots@),
                requested_ids(strings_view(ids@))[i],
            ),
        r matches Err(m) ==> exists|i: int|
            0 <= i < requested_ids(strings_view(ids@)).len() && !document_id_valid(
                #[trigger] requested_ids(strings_view(ids@))[i],
            ) && (forall|j: int|
                0 <= j < i ==> document_id_valid(#[trigger] requested_ids(strings_view(ids@))[j]))
                && m@ == invalid_document_id_message(requested_ids(strings_view(ids@))[i]),
{
    let requested = requested_document_ids(ids);
    let ghost req = requested_ids(strings_view(ids@));
    let ghost sv = snapshots_view(snapshots@);
    let mut docs: Vec<DesignDocument> = Vec::new();
    let mut i: usize = 0;
    while i < requested.len()
        invariant
            i <= requested@.len(),
            req == strings_view(requested@),
            req == requested_ids(strings_view(ids@)),
            sv == snapshots_view(snapshots@),
            docs@.len() == i,
            forall|j: int| 0 <= j < i ==> document_id_valid(#[trigger] req[j]),
            forall|j: int| 0 <= j < i ==> document_view(#[trigger] docs@[j]) == read_document(sv, req[j]),
        decreases requested.len() - i,
    {
        let id = requested[i].as_str();
        assert(req[i as int] == id@);
        if !valid_document_id(id) {
            let mut m = owned("Invalid documentId '");
            push_str_chars(&mut m, id);
            push_str_chars(&mut m, "'. Copy documentId from a design read response.");
            assert(m@ =~= invalid_document_id_message(req[i as int]));
            assert(!document_id_valid(req[i as int]));
            assert(!(forall|j: int| 0 <= j < req.len() ==> document_id_valid(#[trigger] req[j])));
            assert(0 <= i < req.len() && !document_id_valid(req[i as int]) && (forall|j: int|
                0 <= j < i ==> document_id_valid(#[trigger] req[j])));
            return Err(m);
        }
        let document = find_document(snapshots, id);
        let token = read_token(id, document.as_str());
        docs.push(DesignDocument { document_id: owned(id), document, read_token: token });
        i += 1;
    }
    Ok(docs)
}

// ---------------------------------------------------------------- guarding a write

pub open spec fn tokens_message() -> Seq<char> {
    "Each readTokens entry needs a non-empty readToken and a unique documentId copied from retrieval."@
}

/// Every submitted token is nonempty and names a different document.
pub open spec fn tokens_well_formed(tokens: Seq<DocumentReadToken>) -> bool {
    &&& forall|i: int| 0 <= i < tokens.len() ==> (#[trigger] tokens[i]).read_token@.len() > 0
    &&& forall|i: int, j: int|
        0 <= i < j < tokens.len() ==> (#[trigger] tokens[i]).document_id@ != (
        #[trigger] tokens[j]).document_id@
}

/// The token submitted for a document, if any.
pub open spec fn supplied_token(tokens: Seq<DocumentReadToken>, id: Seq<char>) -> Option<Seq<char>>
    decreases tokens.len(),
{
    if tokens.len() == 0 {
        None
    } else if tokens.last().document_id@ == id {
        Some(tokens.last().read_token@)
    } else {
        supplied_token(tokens.drop_last(), id)
    }
}

/// Why a write may not go ahead on a document it touches: its token is stale, or an existing
/// document was not read at all.
pub open spec fn conflict_code(
    tokens: Seq<DocumentReadToken>,
    d: (Seq<char>, Seq<char>, Seq<char>),
) -> Option<Seq<char>> {
    match supplied_token(tokens, d.0) {
        Some(t) => if t != d.2 {
            Some("out_of_date"@)
        } else {
            None
        },
        None => if d.1 != "null"@ {
            Some("read_required"@)
        } else {
            None
        },
    }
}

/// The conflicts among the current documents, in document order.
pub open spec fn conflicts_of(
    tokens: Seq<DocumentReadToken>,
    docs: Seq<(Seq<char>, Seq<char>, Seq<char>)>,
) -> Seq<(Seq<char>, (Seq<char>, Seq<char>, Seq<char>))>
    decreases docs.len(),
{
    if docs.len() == 0 {
        Seq::empty()
    } else {
        let rest = conflicts_of(tokens, docs.drop_last());
        match conflict_code(tokens, docs.last()) {
            Some(c) => rest.push((c, docs.last())),
            None => rest,
        }
    }
}

pub open spec fn stale_message() -> Seq<char> {
    "The design document changed since you read it. Nothing was saved."@
}

pub open spec fn unread_message() -> Seq<char> {
    "Existing documents require the readToken from a complete read. Nothing was saved. The response includes every target missing a token, including dependent documents a delete would remove."@
}

pub open spec fn retry_request() -> Seq<char> {
    "Merge your intended changes into each returned currentDocument, then retry with its readToken in readTokens and a new operationId. Do not only replace the token on an old payload. A null currentDocument means it was deleted; reconsider the edit before explicitly recreating it. Every retry is checked again."@
}

/// One conflict as a JSON object, keys in sorted order.
pub open spec fn conflict_json(c: (Seq<char>, (Seq<char>, Seq<char>, Seq<char>))) -> Seq<char> {
    "{\"code\":\""@ + c.0 + "\",\"currentDocument\":"@ + c.1.1 + ",\"documentId\":"@ + jstr(c.1.0)
        + ",\"readToken\":"@ + jstr(c.1.2) + "}"@
}

pub open spec fn conflicts_json(cs: Seq<(Seq<char>, (Seq<char>, Seq<char>, Seq<char>))>) -> Seq<char>
    decreases cs.len(),
{
    if cs.len() == 0 {
        Seq::empty()
    } else if cs.len() == 1 {
        conflict_json(cs[0])
    } else {
        conflicts_json(cs.drop_last()) + ","@ + conflict_json(cs.last())
    }
}

pub open spec fn any_stale(cs: Seq<(Seq<char>, (Seq<char>, Seq<char>, Seq<char>))>) -> bool {
    exists|i: int| 0 <= i < cs.len() && (#[trigger] cs[i]).0 == "out_of_date"@
}

/// The refusal of a write: stale when any token is stale, else a missing read; one conflict is
/// inlined, several are listed. Keys are in sorted order, as serde_json writes an object.
pub open spec fn refusal_json(cs: Seq<(Seq<char>, (Seq<char>, Seq<char>, Seq<char>))>) -> Seq<char> {
    let code = if any_stale(cs) {
        "out_of_date"@
    } else {
        "read_required"@
    };
    let message = if any_stale(cs) {
        stale_message()
    } else {
        unread_message()
    };
    if cs.len() == 1 {
        "{\"code\":\""@ + code + "\",\"currentDocument\":"@ + cs[0].1.1 + ",\"documentId\":"@ + jstr(
            cs[0].1.0,
        ) + ",\"message\":\""@ + message + "\",\"readToken\":"@ + jstr(cs[0].1.2)
            + ",\"request\":\""@ + retry_request() + "\",\"stored\":false}"@
    } else {
        "{\"code\":\""@ + code + "\",\"conflicts\":["@ + conflicts_json(cs) + "],\"message\":\""@
            + message + "\",\"request\":\""@ + retry_request() + "\",\"stored\":false}"@
    }
}

/// The document ids a guard writes.
pub open spec fn written_ids(write_set: Seq<ResourceExpectation>) -> Seq<Seq<char>> {
    write_set.map_values(
        |w: ResourceExpectation| document_id_spec(w.resource_kind@, w.resource_id@),
    )
}

fn tokens_check(tokens: &[DocumentReadToken]) -> (b: bool)
    ensures
        b == tokens_well_formed(tokens@),
{
    let mut i: usize = 0;
    while i < tokens.len()
        invariant
            i <= tokens@.len(),
            forall|k: int| 0 <= k < i ==> (#[trigger] tokens@[k]).read_token@.len() > 0,
            forall|k: int, j: int|
                0 <= k < j < i ==> (#[trigger] tokens@[k]).document_id@ != (
                #[trigger] tokens@[j]).document_id@,
        decreases tokens.len() - i,
    {
        if tokens[i].read_token.as_str().is_empty() {
            return false;
        }
        let mut j: usize = 0;
        while j < i
            invariant
                j <= i < tokens@.len(),
                forall|k: int| 0 <= k < j ==> (#[trigger] tokens@[k]).document_id@ != tokens@[i as int].document_id@,
            decreases i - j,
        {
            if str_eq(tokens[j].document_id.as_str(), tokens[i].document_id.as_str()) {
                return false;
            }
            j += 1;
        }
        i += 1;
    }
    true
}

fn find_supplied<'a>(tokens: &'a [DocumentReadToken], id: &str) -> (r: Option<&'a str>)
    ensures
        match r {
            Some(t) => supplied_token(tokens@, id@) == Some(t@),
            None => supplied_token(tokens@, id@) is None,
        },
{
    let mut i = tokens.len();
    assert(tokens@.take(i as int) =~= tokens@);
    while i > 0
        invariant
            i <= tokens@.len(),
            supplied_token(tokens@, id@) == supplied_token(tokens@.take(i as int), id@),
        decreases i,
    {
        proof {
            assert(tokens@.take(i as int).drop_last() =~= tokens@.take(i - 1));
            assert(tokens@.take(i as int).last() == tokens@[i - 1]);
        }
        if str_eq(tokens[i - 1].document_id.as_str(), id) {
            return Some(tokens[i - 1].read_token.as_str());
        }
        i -= 1;
    }
    None
}

fn push_conflict(s: &mut String, code: &str, d: &DesignDocument)
    ensures
        final(s)@ == old(s)@ + conflict_json((code@, document_view(*d))),
{
    let ghost start = s@;
    push_str_chars(s, "{\"code\":\"");
    push_str_chars(s, code);
    push_str_chars(s, "\",\"currentDocument\":");
    push_str_chars(s, d.document.as_str());
    push_str_chars(s, ",\"documentId\":");
    push_json(s, d.document_id.as_str());
    push_str_chars(s, ",\"readToken\":");
    push_json(s, d.read_token.as_str());
    push_str_chars(s, "}");
    assert(s@ =~= start + conflict_json((code@, document_view(*d))));
}

/// Checks the tokens a write carries against the current documents of every resource it
/// writes. A malformed token list is refused first; an unreadable document id next; then the
/// write goes ahead only when every existing document it touches was read and is unchanged.
pub fn check_tokens(
    input: &DocumentGuard,
    guard: &MutationGuard,
    snapshots: &[DocumentSnapshot],
) -> (r: Result<(), String>)
    ensures
        !tokens_well_formed(input.read_tokens@) ==> (r matches Err(m) && m@ == tokens_message()),
        tokens_well_formed(input.read_tokens@) ==> {
            let req = requested_ids(written_ids(guard.write_set@));
            &&& (exists|i: int| 0 <= i < req.len() && !document_id_valid(#[trigger] req[i])) ==> (
            r matches Err(m) && exists|i: int|
                0 <= i < req.len() && !document_id_valid(#[trigger] req[i]) && (forall|j: int|
                    0 <= j < i ==> document_id_valid(#[trigger] req[j])) && m@
                    == invalid_document_id_message(req[i]))
            &&& (forall|i: int| 0 <= i < req.len() ==> document_id_valid(#[trigger] req[i])) ==> {
                let cs = conflicts_of(
                    input.read_tokens@,
                    req.map_values(
                        |id: Seq<char>| read_document(snapshots_view(snapshots@), id),
                    ),
                );
                &&& r is Ok <==> cs.len() == 0
                &&& r matches Err(m) ==> m@ == refusal_json(cs)
            }
        },
{
    if !tokens_check(input.read_tokens.as_slice()) {
        return Err(owned("Each readTokens entry needs a non-empty readToken and a unique documentId copied from retrieval."));
    }
    let mut ids: Vec<String> = Vec::new();
    let mut i: usize = 0;
    while i < guard.write_set.len()
        invariant
            i <= guard.write_set@.len(),
            strings_view(ids@) == written_ids(guard.write_set@).take(i as int),
        decreases guard.write_set.len() - i,
    {
        let w = &guard.write_set[i];
        let id = document_id(w.resource_kind.as_str(), w.resource_id.as_str());
        let ghost before = strings_view(ids@);
        ids.push(id);
        assert(strings_view(ids@) =~= before.push(id@));
        assert(written_ids(guard.write_set@).take(i + 1) =~= written_ids(guard.write_set@).take(
            i as int,
        ).push(id@));
        i += 1;
    }
    assert(written_ids(guard.write_set@).take(guard.write_set@.len() as int) =~= written_ids(
        guard.write_set@,
    ));
    let current = match load_documents(ids.as_slice(), snapshots) {
        Ok(docs) => docs,
        Err(m) => {
            return Err(m);
        },
    };
    let ghost req = requested_ids(written_ids(guard.write_set@));
    let ghost docs = req.map_values(|id: Seq<char>| read_document(snapshots_view(snapshots@), id));
    assert(current@.map_values(|d: DesignDocument| document_view(d)) =~= docs);
    let mut body = String::new();
    let mut count: usize = 0;
    let mut stale = false;
    let mut first: Option<usize> = None;
    let mut k: usize = 0;
    assert(docs.take(0) =~= Seq::<(Seq<char>, Seq<char>, Seq<char>)>::empty());
    while k < current.len()
        invariant
            k <= current@.len(),
            current@.len() == docs.len(),
            forall|j: int| 0 <= j < docs.len() ==> document_view(#[trigger] current@[j]) == docs[j],
            count == conflicts_of(input.read_tokens@, docs.take(k as int)).len(),
            body@ == conflicts_json(conflicts_of(input.read_tokens@, docs.take(k as int))),
            stale == any_stale(conflicts_of(input.read_tokens@, docs.take(k as int))),
            count <= k,
            count == 0 <==> first is None,
            first matches Some(f) ==> f < k && conflicts_of(input.read_tokens@, docs.take(k as int))[0]
                == (conflicts_of(input.read_tokens@, docs.take(k as int))[0].0, docs[f as int]),
        decreases current.len() - k,
    {
        let ghost before = conflicts_of(input.read_tokens@, docs.take(k as int));
        proof {
            assert(docs.take(k + 1).drop_last() =~= docs.take(k as int));
            assert(docs.take(k + 1).last() == docs[k as int]);
        }
        let d = &current[k];
        let code: Option<&str> = match find_supplied(input.read_tokens.as_slice(), d.document_id.as_str()) {
            Some(t) => if str_eq(t, d.read_token.as_str()) {
                None
            } else {
                Some("out_of_date")
            },
            None => if str_eq(d.document.as_str(), "null") {
                None
            } else {
                Some("read_required")
            },
        };
        proof {
            reveal_strlit("out_of_date");
        }
        match code {
            Some(c) => {
                assert(conflict_code(input.read_tokens@, docs[k as int]) == Some(c@));
                let ghost after = before.push((c@, docs[k as int]));
                assert(conflicts_of(input.read_tokens@, docs.take(k + 1)) == after);
                if count > 0 {
                    push_str_chars(&mut body, ",");
                }
                push_conflict(&mut body, c, d);
                assert(after.drop_last() =~= before);
                assert(document_view(*d) == docs[k as int]);
                assert(body@ =~= conflicts_json(after));
                if str_eq(c, "out_of_date") {
                    stale = true;
                }
                assert(stale == any_stale(after)) by {
                    if any_stale(before) {
                        let w = choose|w: int| 0 <= w < before.len() && (#[trigger] before[w]).0 == "out_of_date"@;
                        assert(after[w] == before[w]);
                    }
                    if any_stale(after) {
                        let w = choose|w: int| 0 <= w < after.len() && (#[trigger] after[w]).0 == "out_of_date"@;
                        if w < before.len() {
                            assert(after[w] == before[w]);
                        }
                    }
                    if c@ == "out_of_date"@ {
                        assert(after[before.len() as int].0 == "out_of_date"@);
                    }
                }
                if count == 0 {
                    first = Some(k);
                }
                count += 1;
            },
            None => {
                assert(conflict_code(input.read_tokens@, docs[k as int]) is None);
                assert(conflicts_of(input.read_tokens@, docs.take(k + 1)) == before);
            },
        }
        k += 1;
    }
    assert(docs.take(docs.len() as int) =~= docs);
    let ghost cs = conflicts_of(input.read_tokens@, docs);
    if count == 0 {
        return Ok(());
    }
    let mut out = owned("{\"code\":\"");
    if stale {
        push_str_chars(&mut out, "out_of_date");
    } else {
        push_str_chars(&mut out, "read_required");
    }
    if count == 1 {
        let f = match first {
            Some(f) => f,
            None => 0,
        };
        let d = &current[f];
        push_str_chars(&mut out, "\",\"currentDocument\":");
        push_str_chars(&mut out, d.document.as_str());
        push_str_chars(&mut out, ",\"documentId\":");
        push_json(&mut out, d.document_id.as_str());
        push_str_chars(&mut out, ",\"message\":\"");
    } else {
        push_str_chars(&mut out, "\",\"conflicts\":[");
        push_str_chars(&mut out, body.as_str());
        push_str_chars(&mut out, "],\"message\":\"");
    }
    if stale {
        push_str_chars(&mut out, "The design document changed since you read it. Nothing was saved.");
    } else {
        push_str_chars(&mut out, "Existing documents require the readToken from a complete read. Nothing was saved. The response includes every target missing a token, including dependent documents a delete would remove.");
    }
    if count == 1 {
        let f = match first {
            Some(f) => f,
            None => 0,
        };
        push_str_chars(&mut out, "\",\"readToken\":");
        push_json(&mut out, current[f].read_token.as_str());
        push_str_chars(&mut out, ",\"request\":\"");
    } else {
        push_str_chars(&mut out, "\",\"request\":\"");
    }
    push_str_chars(&mut out, "Merge your intended changes into each returned currentDocument, then retry with its readToken in readTokens and a new operationId. Do not only replace the token on an old payload. A null currentDocument means it was deleted; reconsider the edit before explicitly recreating it. Every retry is checked again.");
    push_str_chars(&mut out, "\",\"stored\":false}");
    assert(out@ =~= refusal_json(cs));
    Err(out)
}

/// A write goes ahead exactly when no document it touches is flagged, and it is refused as
/// stale exactly when some submitted token differs from the current one.
pub proof fn law_refusal_is_exactly_the_flagged_documents(
    tokens: Seq<DocumentReadToken>,
    docs: Seq<(Seq<char>, Seq<char>, Seq<char>)>,
)
    ensures
        conflicts_of(tokens, docs).len() == 0 <==> forall|i: int|
            0 <= i < docs.len() ==> conflict_code(tokens, #[trigger] docs[i]) is None,
        any_stale(conflicts_of(tokens, docs)) <==> exists|i: int|
            0 <= i < docs.len() && conflict_code(tokens, #[trigger] docs[i]) == Some(
                "out_of_date"@,
            ),
    decreases docs.len(),
{
    if docs.len() > 0 {
        let p = docs.drop_last();
        law_refusal_is_exactly_the_flagged_documents(tokens, p);
        let before = conflicts_of(tokens, p);
        let now = conflicts_of(tokens, docs);
        assert forall|i: int| 0 <= i < p.len() implies p[i] == docs[i] by {}
        if forall|i: int| 0 <= i < docs.len() ==> conflict_code(tokens, #[trigger] docs[i]) is None {
            assert(conflict_code(tokens, docs[docs.len() - 1]) is None);
            assert forall|i: int| 0 <= i < p.len() implies conflict_code(tokens, #[trigger] p[i]) is None by {
                assert(p[i] == docs[i]);
            }
        }
        if now.len() == 0 {
            if conflict_code(tokens, docs.last()) is None {
                assert forall|i: int| 0 <= i < docs.len() implies conflict_code(
                    tokens,
                    #[trigger] docs[i],
                ) is None by {
                    if i < p.len() {
                        assert(p[i] == docs[i]);
                    }
                }
            }
        }
        if any_stale(now) {
            let w = choose|w: int| 0 <= w < now.len() && (#[trigger] now[w]).0 == "out_of_date"@;
            if w < before.len() {
                assert(now[w] == before[w]);
                assert(any_stale(before));
                let i = choose|i: int|
                    0 <= i < p.len() && conflict_code(tokens, #[trigger] p[i]) == Some("out_of_date"@);
                assert(docs[i] == p[i]);
            } else {
                assert(conflict_code(tokens, docs[docs.len() - 1]) == Some("out_of_date"@));
            }
        }
        if exists|i: int|
            0 <= i < docs.len() && conflict_code(tokens, #[trigger] docs[i]) == Some("out_of_date"@) {
            let i = choose|i: int|
                0 <= i < docs.len() && conflict_code(tokens, #[trigger] docs[i]) == Some("out_of_date"@);
            if i < p.len() {
                assert(p[i] == docs[i]);
                assert(any_stale(before));
                let w = choose|w: int| 0 <= w < before.len() && (#[trigger] before[w]).0 == "out_of_date"@;
                assert(now[w] == before[w]);
            } else {
                assert(now[now.len() - 1].0 == "out_of_date"@);
            }
        }
    }
}

// ---------------------------------------------------------------- documents of a retrieval

/// The document ids a retrieval result names: its elements and ancestors, relationships,
/// Mermaid diagrams, mockups and bindings.
pub open spec fn retrieval_ids(
    elements: Seq<DesignElementRecord>,
    ancestors: Seq<DesignElementRecord>,
    relationships: Seq<DesignRelationshipRecord>,
    diagrams: Seq<DesignDiagramRecord>,
    mockups: Seq<MockupSummary>,
    bindings: Seq<DesignBindingRecord>,
) -> Seq<Seq<char>> {
    elements.map_values(|e: DesignElementRecord| element_snapshot(e).0) + ancestors.map_values(
        |e: DesignElementRecord| element_snapshot(e).0,
    ) + relationships.map_values(|r: DesignRelationshipRecord| relationship_snapshot(r).0)
        + diagram_snapshots(diagrams).map_values(|s: (Seq<char>, Seq<char>)| s.0) + mockups.map_values(
        |m: MockupSummary| "mockup:"@ + m.external_id@,
    ) + bindings.map_values(|b: DesignBindingRecord| binding_snapshot(b).0)
}

fn push_id(ids: &mut Vec<String>, prefix: &str, id: &str)
    ensures
        strings_view(final(ids)@) == strings_view(old(ids)@).push(prefix@ + id@),
{
    let mut s = owned(prefix);
    push_str_chars(&mut s, id);
    let ghost before = strings_view(ids@);
    ids.push(s);
    assert(strings_view(ids@) =~= before.push(prefix@ + id@));
}

/// The ids a retrieval result names, as `retrieval_ids` lists them.
pub fn retrieval_document_ids(
    elements: &[DesignElementRecord],
    ancestors: &[DesignElementRecord],
    relationships: &[DesignRelationshipRecord],
    diagrams: &[DesignDiagramRecord],
    mockups: &[MockupSummary],
    bindings: &[DesignBindingRecord],
) -> (r: Vec<String>)
    ensures
        strings_view(r@) == retrieval_ids(
            elements@,
            ancestors@,
            relationships@,
            diagrams@,
            mockups@,
            bindings@,
        ),
{
    let mut ids: Vec<String> = Vec::new();
    let mut i: usize = 0;
    while i < elements.len()
        invariant
            i <= elements@.len(),
            strings_view(ids@) == elements@.take(i as int).map_values(
                |e: DesignElementRecord| element_snapshot(e).0,
            ),
        decreases elements.len() - i,
    {
        push_id(&mut ids, "element:", elements[i].external_id.as_str());
        assert(elements@.take(i + 1).map_values(|e: DesignElementRecord| element_snapshot(e).0)
            =~= elements@.take(i as int).map_values(|e: DesignElementRecord| element_snapshot(e).0).push(
            element_snapshot(elements@[i as int]).0,
        ));
        i += 1;
    }
    assert(elements@.take(elements@.len() as int) =~= elements@);
    let ghost p1 = strings_view(ids@);
    let mut i: usize = 0;
    assert(p1 + ancestors@.take(0).map_values(|e: DesignElementRecord| element_snapshot(e).0) =~= p1);
    while i < ancestors.len()
        invariant
            i <= ancestors@.len(),
            strings_view(ids@) == p1 + ancestors@.take(i as int).map_values(
                |e: DesignElementRecord| element_snapshot(e).0,
            ),
        decreases ancestors.len() - i,
    {
        push_id(&mut ids, "element:", ancestors[i].external_id.as_str());
        assert(ancestors@.take(i + 1).map_values(|e: DesignElementRecord| element_snapshot(e).0)
            =~= ancestors@.take(i as int).map_values(|e: DesignElementRecord| element_snapshot(e).0).push(
            element_snapshot(ancestors@[i as int]).0,
        ));
        i += 1;
    }
    assert(ancestors@.take(ancestors@.len() as int) =~= ancestors@);
    let ghost p2 = strings_view(ids@);
    let mut i: usize = 0;
    assert(p2 + relationships@.take(0).map_values(
        |r: DesignRelationshipRecord| relationship_snapshot(r).0,
    ) =~= p2);
    while i < relationships.len()
        invariant
            i <= relationships@.len(),
            strings_view(ids@) == p2 + relationships@.take(i as int).map_values(
                |r: DesignRelationshipRecord| relationship_snapshot(r).0,
            ),
        decreases relationships.len() - i,
    {
        push_id(&mut ids, "relationship:", relationships[i].external_id.as_str());
        assert(relationships@.take(i + 1).map_values(
            |r: DesignRelationshipRecord| relationship_snapshot(r).0,
        ) =~= relationships@.take(i as int).map_values(
            |r: DesignRelationshipRecord| relationship_snapshot(r).0,
        ).push(relationship_snapshot(relationships@[i as int]).0));
        i += 1;
    }
    assert(relationships@.take(relationships@.len() as int) =~= relationships@);
    let ghost p3 = strings_view(ids@);
    let mut i: usize = 0;
    assert(diagram_snapshots(diagrams@.take(0)) =~= Seq::<(Seq<char>, Seq<char>)>::empty());
    assert(p3 + diagram_snapshots(diagrams@.take(0)).map_values(|s: (Seq<char>, Seq<char>)| s.0)
        =~= p3);
    while i < diagrams.len()
        invariant
            i <= diagrams@.len(),
            strings_view(ids@) == p3 + diagram_snapshots(diagrams@.take(i as int)).map_values(
                |s: (Seq<char>, Seq<char>)| s.0,
            ),
        decreases diagrams.len() - i,
    {
        proof {
            assert(diagrams@.take(i + 1).drop_last() =~= diagrams@.take(i as int));
            assert(diagrams@.take(i + 1).last() == diagrams@[i as int]);
        }
        let ghost before = diagram_snapshots(diagrams@.take(i as int));
        if str_eq(diagrams[i].language.as_str(), "mermaid") {
            push_id(&mut ids, "uml:", diagrams[i].key.as_str());
            assert(before.push(diagram_snapshot(diagrams@[i as int])).map_values(
                |s: (Seq<char>, Seq<char>)| s.0,
            ) =~= before.map_values(|s: (Seq<char>, Seq<char>)| s.0).push(
                diagram_snapshot(diagrams@[i as int]).0,
            ));
        }
        i += 1;
    }
    assert(diagrams@.take(diagrams@.len() as int) =~= diagrams@);
    let ghost p4 = strings_view(ids@);
    let mut i: usize = 0;
    assert(p4 + mockups@.take(0).map_values(|m: MockupSummary| "mockup:"@ + m.external_id@) =~= p4);
    while i < mockups.len()
        invariant
            i <= mockups@.len(),
            strings_view(ids@) == p4 + mockups@.take(i as int).map_values(
                |m: MockupSummary| "mockup:"@ + m.external_id@,
            ),
        decreases mockups.len() - i,
    {
        push_id(&mut ids, "mockup:", mockups[i].external_id.as_str());
        assert(mockups@.take(i + 1).map_values(|m: MockupSummary| "mockup:"@ + m.external_id@)
            =~= mockups@.take(i as int).map_values(|m: MockupSummary| "mockup:"@ + m.external_id@).push(
            "mockup:"@ + mockups@[i as int].external_id@,
        ));
        i += 1;
    }
    assert(mockups@.take(mockups@.len() as int) =~= mockups@);
    let ghost p5 = strings_view(ids@);
    let mut i: usize = 0;
    assert(p5 + bindings@.take(0).map_values(|b: DesignBindingRecord| binding_snapshot(b).0) =~= p5);
    while i < bindings.len()
        invariant
            i <= bindings@.len(),
            strings_view(ids@) == p5 + bindings@.take(i as int).map_values(
                |b: DesignBindingRecord| binding_snapshot(b).0,
            ),
        decreases bindings.len() - i,
    {
        let b = &bindings[i];
        let mut s = owned("binding:");
        push_str_chars(&mut s, b.design_external_id.as_str());
        push_str_chars(&mut s, "|");
        push_str_chars(&mut s, b.target_type.as_str());
        push_str_chars(&mut s, "|");
        push_str_chars(&mut s, b.target.as_str());
        let ghost before = strings_view(ids@);
        ids.push(s);
        assert(strings_view(ids@) =~= before.push(binding_snapshot(bindings@[i as int]).0));
        assert(bindings@.take(i + 1).map_values(|b: DesignBindingRecord| binding_snapshot(b).0)
            =~= bindings@.take(i as int).map_values(|b: DesignBindingRecord| binding_snapshot(b).0).push(
            binding_snapshot(bindings@[i as int]).0,
        ));
        i += 1;
    }
    assert(bindings@.take(bindings@.len() as int) =~= bindings@);
    ids
}

/// The complete documents a retrieval result carries: one per document it names, in id order,
/// each with its read token.
pub fn with_documents(
    elements: &[DesignElementRecord],
    ancestors: &[DesignElementRecord],
    relationships: &[DesignRelationshipRecord],
    diagrams: &[DesignDiagramRecord],
    mockups: &[MockupSummary],
    bindings: &[DesignBindingRecord],
    snapshots: &[DocumentSnapshot],
) -> (r: Result<Vec<DesignDocument>, String>)
    ensures
        ({
            let req = requested_ids(
                retrieval_ids(elements@, ancestors@, relationships@, diagrams@, mockups@, bindings@),
            );
            &&& r is Ok <==> forall|i: int| 0 <= i < req.len() ==> document_id_valid(#[trigger] req[i])
            &&& r matches Ok(docs) ==> docs@.len() == req.len() && forall|i: int|
                0 <= i < docs@.len() ==> document_view(#[trigger] docs@[i]) == read_document(
                    snapshots_view(snapshots@),
                    req[i],
                )
        }),
{
    let ids = retrieval_document_ids(elements, ancestors, relationships, diagrams, mockups, bindings);
    load_documents(ids.as_slice(), snapshots)
}

/// A resource a change touched: its kind and id.
#[derive(Clone, Debug)]
pub struct ResourceChangeTarget {
    pub kind: String,
    pub id: String,
}

/// The read tokens of the documents a change touched, as they stand after it, in id order.
pub fn result_tokens(targets: &[ResourceChangeTarget], snapshots: &[DocumentSnapshot]) -> (r: Result<
    Vec<DocumentReadToken>,
    String,
>)
    ensures
        ({
            let req = requested_ids(
                targets@.map_values(|t: ResourceChangeTarget| document_id_spec(t.kind@, t.id@)),
            );
            &&& r is Ok <==> forall|i: int| 0 <= i < req.len() ==> document_id_valid(#[trigger] req[i])
            &&& r matches Ok(tokens) ==> tokens@.len() == req.len() && forall|i: int|
                0 <= i < tokens@.len() ==> (#[trigger] tokens@[i]).document_id@ == req[i]
                    && tokens@[i].read_token@ == read_document(snapshots_view(snapshots@), req[i]).2
        }),
{
    let mut ids: Vec<String> = Vec::new();
    let mut i: usize = 0;
    while i < targets.len()
        invariant
            i <= targets@.len(),
            strings_view(ids@) == targets@.take(i as int).map_values(
                |t: ResourceChangeTarget| document_id_spec(t.kind@, t.id@),
            ),
        decreases targets.len() - i,
    {
        let id = document_id(targets[i].kind.as_str(), targets[i].id.as_str());
        let ghost before = strings_view(ids@);
        ids.push(id);
        assert(strings_view(ids@) =~= before.push(id@));
        assert(targets@.take(i + 1).map_values(
            |t: ResourceChangeTarget| document_id_spec(t.kind@, t.id@),
        ) =~= targets@.take(i as int).map_values(
            |t: ResourceChangeTarget| document_id_spec(t.kind@, t.id@),
        ).push(document_id_spec(targets@[i as int].kind@, targets@[i as int].id@)));
        i += 1;
    }
    assert(targets@.take(targets@.len() as int) =~= targets@);
    let docs = load_documents(ids.as_slice(), snapshots)?;
    let mut tokens: Vec<DocumentReadToken> = Vec::new();
    let mut k: usize = 0;
    while k < docs.len()
        invariant
            k <= docs@.len(),
            tokens@.len() == k,
            forall|j: int|
                0 <= j < k ==> (#[trigger] tokens@[j]).document_id@ == docs@[j].document_id@
                    && tokens@[j].read_token@ == docs@[j].read_token@,
        decreases docs.len() - k,
    {
        tokens.push(
            DocumentReadToken {
                document_id: owned(docs[k].document_id.as_str()),
                read_token: owned(docs[k].read_token.as_str()),
            },
        );
        k += 1;
    }
    Ok(tokens)
}


// ---------------------------------------------------------------- laws of a read

proof fn lemma_current_document_null(snaps: Seq<(Seq<char>, Seq<char>)>, id: Seq<char>)
    requires
        forall|k: int| 0 <= k < snaps.len() ==> (#[trigger] snaps[k]).1 != "null"@,
    ensures
        current_document(snaps, id) == "null"@ <==> !(exists|k: int|
            0 <= k < snaps.len() && (#[trigger] snaps[k]).0 == id),
    decreases snaps.len(),
{
    if snaps.len() > 0 {
        let rest = snaps.drop_last();
        assert forall|k: int| 0 <= k < rest.len() implies (#[trigger] rest[k]).1 != "null"@ by {
            assert(rest[k] == snaps[k]);
        }
        lemma_current_document_null(rest, id);
        if snaps.last().0 == id {
            assert(snaps[snaps.len() - 1].0 == id);
            assert(snaps[snaps.len() - 1].1 != "null"@);
        } else {
            if exists|k: int| 0 <= k < snaps.len() && (#[trigger] snaps[k]).0 == id {
                let k = choose|k: int| 0 <= k < snaps.len() && (#[trigger] snaps[k]).0 == id;
                assert(k < snaps.len() - 1);
                assert(rest[k] == snaps[k]);
            }
            if exists|k: int| 0 <= k < rest.len() && (#[trigger] rest[k]).0 == id {
                let k = choose|k: int| 0 <= k < rest.len() && (#[trigger] rest[k]).0 == id;
                assert(snaps[k] == rest[k]);
            }
        }
    }
}

/// Law: a read gives `null` exactly for an id that no snapshot holds (stored documents are
/// JSON objects, never `null`), and its token carries the `sha256:` scheme and depends on the
/// id and the document alone, so a document that has not changed keeps its token.
pub proof fn law_read_document(
    snaps: Seq<(Seq<char>, Seq<char>)>,
    later: Seq<(Seq<char>, Seq<char>)>,
    id: Seq<char>,
)
    requires
        forall|k: int| 0 <= k < snaps.len() ==> (#[trigger] snaps[k]).1 != "null"@,
    ensures
        read_document(snaps, id).1 == "null"@ <==> !(exists|k: int|
            0 <= k < snaps.len() && (#[trigger] snaps[k]).0 == id),
        "sha256:"@.is_prefix_of(read_document(snaps, id).2),
        read_document(snaps, id).2 == read_token_spec(id, read_document(snaps, id).1),
        current_document(later, id) == current_document(snaps, id) ==> read_document(later, id)
            == read_document(snaps, id),
{
    lemma_current_document_null(snaps, id);
    let t = read_document(snaps, id).2;
    let h = hex_bytes(sha256_of(encode_utf8(token_text(id, current_document(snaps, id)))));
    assert("sha256:"@ =~= ("sha256:"@ + h).subrange(0, "sha256:"@.len() as int));
}


proof fn lemma_object_not_null(open: Seq<char>, rest: Seq<char>)
    requires
        open.len() > 0,
        open[0] == '{',
    ensures
        open + rest != "null"@,
{
    reveal_strlit("null");
    assert((open + rest)[0] == '{');
}

proof fn lemma_diagram_snapshots_not_null(ds: Seq<DesignDiagramRecord>)
    ensures
        forall|k: int|
            0 <= k < diagram_snapshots(ds).len() ==> (#[trigger] diagram_snapshots(ds)[k]).1
                != "null"@,
    decreases ds.len(),
{
    if ds.len() > 0 {
        lemma_diagram_snapshots_not_null(ds.drop_last());
        let d = ds.last();
        reveal_strlit("{\"attachedToExternalId\":");
        lemma_object_not_null(
            "{\"attachedToExternalId\":"@,
            diagram_document(d).subrange("{\"attachedToExternalId\":"@.len() as int, diagram_document(d).len() as int),
        );
        assert(diagram_document(d) =~= "{\"attachedToExternalId\":"@ + diagram_document(d).subrange(
            "{\"attachedToExternalId\":"@.len() as int,
            diagram_document(d).len() as int,
        ));
        let prev = diagram_snapshots(ds.drop_last());
        let all = diagram_snapshots(ds);
        assert forall|k: int| 0 <= k < all.len() implies (#[trigger] all[k]).1 != "null"@ by {
            if k < prev.len() {
                assert(all[k] == prev[k]);
            }
        }
    }
}

/// The documents of a workspace are JSON objects, so none of them is `null`.
pub proof fn lemma_workspace_documents_not_null(
    es: Seq<DesignElementRecord>,
    rs: Seq<DesignRelationshipRecord>,
    ds: Seq<DesignDiagramRecord>,
    bs: Seq<DesignBindingRecord>,
)
    ensures
        forall|k: int|
            0 <= k < workspace_snapshots_spec(es, rs, ds, bs).len() ==> (
            #[trigger] workspace_snapshots_spec(es, rs, ds, bs)[k]).1 != "null"@,
{
    let a = es.map_values(|e: DesignElementRecord| element_snapshot(e));
    let b = rs.map_values(|r: DesignRelationshipRecord| relationship_snapshot(r));
    let c = diagram_snapshots(ds);
    let d = bs.map_values(|b: DesignBindingRecord| binding_snapshot(b));
    let w = workspace_snapshots_spec(es, rs, ds, bs);
    lemma_diagram_snapshots_not_null(ds);
    let eo = "{\"description\":"@;
    let bo = "{\"designExternalId\":"@;
    reveal_strlit("{\"description\":");
    reveal_strlit("{\"designExternalId\":");
    assert forall|k: int| 0 <= k < w.len() implies (#[trigger] w[k]).1 != "null"@ by {
        if k < a.len() {
            let doc = element_document(es[k]);
            assert(w[k] == a[k]);
            assert(doc =~= eo + doc.subrange(eo.len() as int, doc.len() as int));
            lemma_object_not_null(eo, doc.subrange(eo.len() as int, doc.len() as int));
        } else if k < a.len() + b.len() {
            let doc = relationship_document(rs[k - a.len()]);
            assert(w[k] == b[k - a.len()]);
            assert(doc =~= eo + doc.subrange(eo.len() as int, doc.len() as int));
            lemma_object_not_null(eo, doc.subrange(eo.len() as int, doc.len() as int));
        } else if k < a.len() + b.len() + c.len() {
            assert(w[k] == c[k - a.len() - b.len()]);
        } else {
            let doc = binding_document(bs[k - a.len() - b.len() - c.len()]);
            assert(w[k] == d[k - a.len() - b.len() - c.len()]);
            assert(doc =~= bo + doc.subrange(bo.len() as int, doc.len() as int));
            lemma_object_not_null(bo, doc.subrange(bo.len() as int, doc.len() as int));
        }
    }
}


/// Law: reading a workspace gives `null` for an id exactly when the workspace holds no
/// document under it.
pub proof fn law_workspace_read_null(
    es: Seq<DesignElementRecord>,
    rs: Seq<DesignRelationshipRecord>,
    ds: Seq<DesignDiagramRecord>,
    bs: Seq<DesignBindingRecord>,
    id: Seq<char>,
)
    ensures
        ({
            let snaps = workspace_snapshots_spec(es, rs, ds, bs);
            read_document(snaps, id).1 == "null"@ <==> !(exists|k: int|
                0 <= k < snaps.len() && (#[trigger] snaps[k]).0 == id)
        }),
{
    let snaps = workspace_snapshots_spec(es, rs, ds, bs);
    lemma_workspace_documents_not_null(es, rs, ds, bs);
    law_read_document(snaps, snaps, id);
}


/// Law: reading a design gives `null` for an id exactly when neither the workspace nor an
/// accepted mockup holds a document under it (stored mockup documents are JSON objects).
pub proof fn law_design_read_null(
    es: Seq<DesignElementRecord>,
    rs: Seq<DesignRelationshipRecord>,
    ds: Seq<DesignDiagramRecord>,
    bs: Seq<DesignBindingRecord>,
    ms: Seq<MockupDocument>,
    id: Seq<char>,
)
    requires
        forall|k: int| 0 <= k < ms.len() ==> (#[trigger] ms[k]).document@ != "null"@,
    ensures
        ({
            let snaps = design_snapshots_spec(es, rs, ds, bs, ms);
            read_document(snaps, id).1 == "null"@ <==> !(exists|k: int|
                0 <= k < snaps.len() && (#[trigger] snaps[k]).0 == id)
        }),
{
    let w = workspace_snapshots_spec(es, rs, ds, bs);
    let m = ms.map_values(|m: MockupDocument| mockup_snapshot(m));
    let snaps = design_snapshots_spec(es, rs, ds, bs, ms);
    lemma_workspace_documents_not_null(es, rs, ds, bs);
    assert forall|k: int| 0 <= k < snaps.len() implies (#[trigger] snaps[k]).1 != "null"@ by {
        if k < w.len() {
            assert(snaps[k] == w[k]);
        } else {
            assert(snaps[k] == m[k - w.len()]);
        }
    }
    law_read_document(snaps, snaps, id);
}

} // verus!
