//! Optimistic concurrency records: the resources a mutation reads and writes, with the
//! versions it expects, and the checks on their identities.
use vstd::prelude::*;

use crate::context::json_text_of;
use crate::text::{
    chars_eq, chars_of, owned, push_chars, push_str_chars, signed_dec, signed_decimal, string_of, trim,
    trim_chars,
};

verus! {

broadcast use vstd::string::group_string_axioms;

/// A resource and the version the caller last read.
#[derive(Clone, Debug)]
pub struct ResourceExpectation {
    pub resource_kind: String,
    pub resource_id: String,
    pub expected_version: i64,
}

/// What a mutation read and what it writes, under one operation id.
#[derive(Clone, Debug)]
pub struct MutationGuard {
    pub operation_id: String,
    pub read_set: Vec<ResourceExpectation>,
    pub write_set: Vec<ResourceExpectation>,
}

/// The current version of a resource.
#[derive(Clone, Debug)]
pub struct ResourceVersion {
    pub resource_kind: String,
    pub resource_id: String,
    pub version: i64,
}

/// A resource whose version moved since it was read.
#[derive(Clone, Debug)]
pub struct ResourceConflict {
    pub resource_kind: String,
    pub resource_id: String,
    pub expected_version: i64,
    pub current_version: i64,
}

/// An advisory marker that an agent run intends to change a resource.
#[derive(Clone, Debug)]
pub struct ResourceIntent {
    pub agent_run_id: String,
    pub resource_kind: String,
    pub resource_id: String,
    pub expires_at: String,
}

/// The write set names the resource (its kind and id compared after trimming).
pub open spec fn writes(write_set: Seq<ResourceExpectation>, kind: Seq<char>, id: Seq<char>) -> bool {
    exists|i: int|
        0 <= i < write_set.len() && trim(#[trigger] write_set[i].resource_kind@) == kind && trim(
            write_set[i].resource_id@,
        ) == id
}

pub open spec fn write_target_message(kind: Seq<char>, id: Seq<char>) -> Seq<char> {
    "writeSet must contain resource '"@ + kind + ":"@ + id + "'"@
}

/// A mutation may only touch a resource its write set names.
pub fn require_write_target(guard: &MutationGuard, resource_kind: &str, resource_id: &str) -> (r:
    Result<(), String>)
    ensures
        r is Ok <==> writes(guard.write_set@, resource_kind@, resource_id@),
        r matches Err(m) ==> m@ == write_target_message(resource_kind@, resource_id@),
{
    let kind = chars_of(resource_kind);
    let id = chars_of(resource_id);
    let mut i: usize = 0;
    while i < guard.write_set.len()
        invariant
            i <= guard.write_set@.len(),
            kind@ == resource_kind@,
            id@ == resource_id@,
            forall|j: int|
                0 <= j < i ==> !(trim(#[trigger] guard.write_set@[j].resource_kind@) == kind@
                    && trim(guard.write_set@[j].resource_id@) == id@),
        decreases guard.write_set.len() - i,
    {
        let k = chars_of(guard.write_set[i].resource_kind.as_str());
        let tk = trim_chars(k.as_slice());
        let d = chars_of(guard.write_set[i].resource_id.as_str());
        let td = trim_chars(d.as_slice());
        if chars_eq(tk.as_slice(), kind.as_slice()) && chars_eq(td.as_slice(), id.as_slice()) {
            return Ok(());
        }
        i += 1;
    }
    let mut m = owned("writeSet must contain resource '");
    push_chars(&mut m, kind.as_slice());
    push_str_chars(&mut m, ":");
    push_chars(&mut m, id.as_slice());
    push_str_chars(&mut m, "'");
    Err(m)
}

pub open spec fn identity_error(kind: Seq<char>, id: Seq<char>) -> Option<Seq<char>> {
    if trim(kind).len() == 0 {
        Some("resourceKind is required"@)
    } else if trim(id).len() == 0 {
        Some("resourceId is required"@)
    } else {
        None
    }
}

/// A resource identity needs a nonblank kind and a nonblank id.
pub fn validate_identity(resource_kind: &str, resource_id: &str) -> (r: Result<(), String>)
    ensures
        match r {
            Ok(()) => identity_error(resource_kind@, resource_id@) is None,
            Err(m) => identity_error(resource_kind@, resource_id@) == Some(m@),
        },
{
    let k = chars_of(resource_kind);
    if trim_chars(k.as_slice()).len() == 0 {
        return Err(owned("resourceKind is required"));
    }
    let d = chars_of(resource_id);
    if trim_chars(d.as_slice()).len() == 0 {
        return Err(owned("resourceId is required"));
    }
    Ok(())
}

/// A guard that writes exactly one resource at an expected version and reads nothing else.
pub fn single_resource_guard(
    operation_id: String,
    resource_kind: &str,
    resource_id: String,
    expected_version: i64,
) -> (g: MutationGuard)
    ensures
        g.operation_id@ == operation_id@,
        g.read_set@.len() == 0,
        g.write_set@.len() == 1,
        g.write_set@[0].resource_kind@ == resource_kind@,
        g.write_set@[0].resource_id@ == resource_id@,
        g.write_set@[0].expected_version == expected_version,
{
    let mut write_set = Vec::new();
    write_set.push(
        ResourceExpectation {
            resource_kind: owned(resource_kind),
            resource_id,
            expected_version,
        },
    );
    MutationGuard { operation_id, read_set: Vec::new(), write_set }
}

/// The guard a desktop edit of one numbered resource carries.
pub fn desktop_guard(operation_id: String, kind: &str, id: i64, expected_version: i64) -> (g:
    MutationGuard)
    ensures
        g.operation_id@ == operation_id@,
        g.read_set@.len() == 0,
        g.write_set@.len() == 1,
        g.write_set@[0].resource_kind@ == kind@,
        g.write_set@[0].resource_id@ == crate::text::signed_dec(id as int),
        g.write_set@[0].expected_version == expected_version,
{
    let digits = crate::text::signed_decimal(id);
    let resource_id = crate::text::string_of(digits.as_slice());
    single_resource_guard(operation_id, kind, resource_id, expected_version)
}

/// The document id of a versioned resource: its kind without the `design.` prefix (both mockup
/// variants share `mockup`), then `:` and the resource id.
pub open spec fn document_id_spec(kind: Seq<char>, id: Seq<char>) -> Seq<char> {
    let k = if kind == "mockup.accepted"@ || kind == "mockup.working"@ {
        "mockup"@
    } else if crate::text::starts_with(kind, "design."@) {
        kind.skip(7)
    } else {
        kind
    };
    k + ":"@ + id
}

/// The document id of a resource.
pub fn document_id(kind: &str, id: &str) -> (r: String)
    ensures
        r@ == document_id_spec(kind@, id@),
{
    let k = chars_of(kind);
    let mut out = if crate::text::eq_lit(k.as_slice(), "mockup.accepted") || crate::text::eq_lit(
        k.as_slice(),
        "mockup.working",
    ) {
        owned("mockup")
    } else if crate::text::starts_lit(k.as_slice(), "design.") {
        proof {
            reveal_strlit("design.");
        }
        let rest = crate::text::slice_chars(k.as_slice(), 7, k.len());
        assert(rest@ =~= kind@.skip(7));
        crate::text::string_of(rest.as_slice())
    } else {
        owned(kind)
    };
    push_str_chars(&mut out, ":");
    push_str_chars(&mut out, id);
    out
}

// ---------------------------------------------------------------- validating a guard

/// A resource as the guard compares it: kind and id, trimmed.
pub open spec fn identity(e: ResourceExpectation) -> (Seq<char>, Seq<char>) {
    (trim(e.resource_kind@), trim(e.resource_id@))
}

/// Everything a guard names: what it reads, then what it writes.
pub open spec fn guard_entries(g: MutationGuard) -> Seq<ResourceExpectation> {
    g.read_set@ + g.write_set@
}

pub open spec fn duplicate_message(e: ResourceExpectation) -> Seq<char> {
    "Resource '"@ + e.resource_kind@ + ":"@ + e.resource_id@
        + "' occurs more than once in the mutation guard"@
}

/// The first problem among the entries from `i` on: an entry without an identity, or one that
/// repeats an earlier entry's identity.
pub open spec fn entries_error(es: Seq<ResourceExpectation>, i: int) -> Option<Seq<char>>
    decreases es.len() - i,
{
    if i < 0 || i >= es.len() {
        None
    } else if identity_error(es[i].resource_kind@, es[i].resource_id@) is Some {
        identity_error(es[i].resource_kind@, es[i].resource_id@)
    } else if exists|j: int| 0 <= j < i && identity(#[trigger] es[j]) == identity(es[i]) {
        Some(duplicate_message(es[i]))
    } else {
        entries_error(es, i + 1)
    }
}

/// The first problem with a guard's identities, if any.
pub open spec fn guard_identity_error(g: MutationGuard) -> Option<Seq<char>> {
    if trim(g.operation_id@).len() == 0 {
        Some("operationId is required"@)
    } else {
        entries_error(guard_entries(g), 0)
    }
}

fn entry_at(guard: &MutationGuard, i: usize) -> (e: &ResourceExpectation)
    requires
        i < guard_entries(*guard).len(),
    ensures
        *e == guard_entries(*guard)[i as int],
{
    if i < guard.read_set.len() {
        &guard.read_set[i]
    } else {
        &guard.write_set[i - guard.read_set.len()]
    }
}

/// A guard needs an operation id, and each resource it names needs an identity that no other
/// entry repeats.
pub fn validate_guard_identities(guard: &MutationGuard) -> (r: Result<(), String>)
    requires
        guard.read_set@.len() + guard.write_set@.len() <= usize::MAX,
    ensures
        match r {
            Ok(()) => guard_identity_error(*guard) is None,
            Err(m) => guard_identity_error(*guard) == Some(m@),
        },
{
    let op = chars_of(guard.operation_id.as_str());
    if trim_chars(op.as_slice()).len() == 0 {
        return Err(owned("operationId is required"));
    }
    let ghost es = guard_entries(*guard);
    let n = guard.read_set.len() + guard.write_set.len();
    let mut kinds: Vec<Vec<char>> = Vec::new();
    let mut ids: Vec<Vec<char>> = Vec::new();
    let mut i: usize = 0;
    while i < n
        invariant
            es == guard_entries(*guard),
            trim(guard.operation_id@).len() > 0,
            n == es.len(),
            i <= n,
            kinds@.len() == i,
            ids@.len() == i,
            forall|j: int| 0 <= j < i ==> (#[trigger] kinds@[j])@ == identity(es[j]).0,
            forall|j: int| 0 <= j < i ==> (#[trigger] ids@[j])@ == identity(es[j]).1,
            entries_error(es, 0) == entries_error(es, i as int),
        decreases n - i,
    {
        let e = entry_at(guard, i);
        match validate_identity(e.resource_kind.as_str(), e.resource_id.as_str()) {
            Err(m) => {
                assert(entries_error(es, i as int) == Some(m@));
                return Err(m);
            },
            Ok(()) => {},
        }
        let k = chars_of(e.resource_kind.as_str());
        let tk = trim_chars(k.as_slice());
        let d = chars_of(e.resource_id.as_str());
        let td = trim_chars(d.as_slice());
        let mut j: usize = 0;
        while j < i
            invariant
                j <= i,
                i < n,
                es == guard_entries(*guard),
                trim(guard.operation_id@).len() > 0,
                entries_error(es, 0) == entries_error(es, i as int),
                identity_error(es[i as int].resource_kind@, es[i as int].resource_id@) is None,
                n == es.len(),
                *e == es[i as int],
                tk@ == identity(es[i as int]).0,
                td@ == identity(es[i as int]).1,
                kinds@.len() == i,
                ids@.len() == i,
                forall|q: int| 0 <= q < i ==> (#[trigger] kinds@[q])@ == identity(es[q]).0,
                forall|q: int| 0 <= q < i ==> (#[trigger] ids@[q])@ == identity(es[q]).1,
                forall|q: int| 0 <= q < j ==> !((#[trigger] kinds@[q])@ == tk@ && ids@[q]@ == td@),
            decreases i - j,
        {
            if chars_eq(kinds[j].as_slice(), tk.as_slice()) && chars_eq(ids[j].as_slice(), td.as_slice()) {
                let mut m = owned("Resource '");
                push_str_chars(&mut m, e.resource_kind.as_str());
                push_str_chars(&mut m, ":");
                push_str_chars(&mut m, e.resource_id.as_str());
                push_str_chars(&mut m, "' occurs more than once in the mutation guard");
                assert(identity(es[j as int]) == identity(es[i as int]));
                assert(m@ =~= duplicate_message(es[i as int]));
                assert(entries_error(es, i as int) == Some(m@));
                return Err(m);
            }
            j += 1;
        }
        assert(!exists|q: int| 0 <= q < i && identity(#[trigger] es[q]) == identity(es[i as int])) by {
            if exists|q: int| 0 <= q < i && identity(#[trigger] es[q]) == identity(es[i as int]) {
                let q = choose|q: int| 0 <= q < i && identity(#[trigger] es[q]) == identity(es[i as int]);
                assert(kinds@[q]@ == tk@ && ids@[q]@ == td@);
            }
        }
        kinds.push(tk);
        ids.push(td);
        i += 1;
    }
    Ok(())
}

/// The conflicts of a guard against the current version of each entry, in entry order.
pub open spec fn guard_conflicts(es: Seq<ResourceExpectation>, current: Seq<i64>) -> Seq<
    (Seq<char>, Seq<char>, i64, i64),
>
    decreases es.len(),
{
    if es.len() == 0 || current.len() != es.len() {
        Seq::empty()
    } else {
        let rest = guard_conflicts(es.drop_last(), current.drop_last());
        if current.last() != es.last().expected_version {
            rest.push(
                (
                    identity(es.last()).0,
                    identity(es.last()).1,
                    es.last().expected_version,
                    current.last(),
                ),
            )
        } else {
            rest
        }
    }
}

pub open spec fn conflict_view(c: ResourceConflict) -> (Seq<char>, Seq<char>, i64, i64) {
    (c.resource_kind@, c.resource_id@, c.expected_version, c.current_version)
}

/// One conflict as serde writes `ResourceConflict`: its fields in declaration order.
pub open spec fn resource_conflict_json(c: (Seq<char>, Seq<char>, i64, i64)) -> Seq<char> {
    "{\"resourceKind\":"@ + json_text_of(Some(c.0)) + ",\"resourceId\":"@ + json_text_of(Some(c.1))
        + ",\"expectedVersion\":"@ + signed_dec(c.2 as int) + ",\"currentVersion\":"@ + signed_dec(
        c.3 as int,
    ) + "}"@
}

pub open spec fn resource_conflicts_json(cs: Seq<(Seq<char>, Seq<char>, i64, i64)>) -> Seq<char>
    decreases cs.len(),
{
    if cs.len() == 0 {
        Seq::empty()
    } else if cs.len() == 1 {
        resource_conflict_json(cs[0])
    } else {
        resource_conflicts_json(cs.drop_last()) + ","@ + resource_conflict_json(cs.last())
    }
}

/// The refusal of a guard whose versions moved.
pub open spec fn conflict_envelope(cs: Seq<(Seq<char>, Seq<char>, i64, i64)>) -> Seq<char> {
    "{\"code\":\"resource.conflict\",\"conflicts\":["@ + resource_conflicts_json(cs) + "]}"@
}

fn render_conflicts(guard: &MutationGuard, current_versions: &[i64]) -> (r: (String, usize))
    requires
        current_versions@.len() == guard_entries(*guard).len(),
    ensures
        r.0@ == resource_conflicts_json(guard_conflicts(guard_entries(*guard), current_versions@)),
        r.1 == guard_conflicts(guard_entries(*guard), current_versions@).len(),
{
    let ghost es = guard_entries(*guard);
    let n = current_versions.len();
    let mut body = String::new();
    let mut count: usize = 0;
    let mut i: usize = 0;
    assert(es.take(0) =~= Seq::<ResourceExpectation>::empty());
    while i < n
        invariant
            es == guard_entries(*guard),
            n == es.len(),
            n == current_versions@.len(),
            i <= n,
            count <= i,
            count == guard_conflicts(es.take(i as int), current_versions@.take(i as int)).len(),
            body@ == resource_conflicts_json(
                guard_conflicts(es.take(i as int), current_versions@.take(i as int)),
            ),
        decreases n - i,
    {
        let ghost before = guard_conflicts(es.take(i as int), current_versions@.take(i as int));
        proof {
            assert(es.take(i + 1).drop_last() =~= es.take(i as int));
            assert(current_versions@.take(i + 1).drop_last() =~= current_versions@.take(i as int));
        }
        let e = entry_at(guard, i);
        let current = current_versions[i];
        if current != e.expected_version {
            let k = chars_of(e.resource_kind.as_str());
            let tk = trim_chars(k.as_slice());
            let d = chars_of(e.resource_id.as_str());
            let td = trim_chars(d.as_slice());
            let ghost c = (tk@, td@, e.expected_version, current);
            let ghost after = before.push(c);
            assert(guard_conflicts(es.take(i + 1), current_versions@.take(i + 1)) == after);
            if count > 0 {
                push_str_chars(&mut body, ",");
            }
            push_str_chars(&mut body, "{\"resourceKind\":");
            let ks = string_of(tk.as_slice());
            let kj = crate::context::json_text(Some(ks.as_str()));
            push_str_chars(&mut body, kj.as_str());
            push_str_chars(&mut body, ",\"resourceId\":");
            let ds = string_of(td.as_slice());
            let dj = crate::context::json_text(Some(ds.as_str()));
            push_str_chars(&mut body, dj.as_str());
            push_str_chars(&mut body, ",\"expectedVersion\":");
            let ev = signed_decimal(e.expected_version);
            push_chars(&mut body, ev.as_slice());
            push_str_chars(&mut body, ",\"currentVersion\":");
            let cv = signed_decimal(current);
            push_chars(&mut body, cv.as_slice());
            push_str_chars(&mut body, "}");
            assert(after.drop_last() =~= before);
            assert(body@ =~= resource_conflicts_json(after));
            count += 1;
        } else {
            assert(guard_conflicts(es.take(i + 1), current_versions@.take(i + 1)) == before);
        }
        i += 1;
    }
    assert(es.take(n as int) =~= es);
    assert(current_versions@.take(n as int) =~= current_versions@);
    (body, count)
}

/// Checks a guard: its identities first, then each entry's expected version against the
/// current one (`current_versions` holds them in entry order: reads, then writes). It passes
/// when no version moved; otherwise it is refused with every moved resource.
pub fn validate_guard(guard: &MutationGuard, current_versions: &[i64]) -> (r: Result<(), String>)
    requires
        current_versions@.len() == guard_entries(*guard).len(),
    ensures
        guard_identity_error(*guard) matches Some(m) ==> (r matches Err(e) && e@ == m),
        guard_identity_error(*guard) is None ==> (r is Ok <==> guard_conflicts(
            guard_entries(*guard),
            current_versions@,
        ).len() == 0),
        guard_identity_error(*guard) is None ==> (r matches Err(e) ==> e@ == conflict_envelope(
            guard_conflicts(guard_entries(*guard), current_versions@),
        )),
{
    let n = current_versions.len();
    assert(n == guard.read_set@.len() + guard.write_set@.len());
    match validate_guard_identities(guard) {
        Err(m) => {
            return Err(m);
        },
        Ok(()) => {},
    }
    let (body, count) = render_conflicts(guard, current_versions);
    if count == 0 {
        return Ok(());
    }
    let mut out = owned("{\"code\":\"resource.conflict\",\"conflicts\":[");
    push_str_chars(&mut out, body.as_str());
    push_str_chars(&mut out, "]}");
    assert(out@ =~= conflict_envelope(guard_conflicts(guard_entries(*guard), current_versions@)));
    Err(out)
}
/// A guard conflicts exactly on the entries whose version moved: it has no conflict when every
/// current version is the expected one, whatever happened to resources it does not name.
pub proof fn law_guard_conflicts_exactly_on_moved_versions(es: Seq<ResourceExpectation>, current: Seq<i64>)
    requires
        current.len() == es.len(),
    ensures
        guard_conflicts(es, current).len() == 0 <==> forall|i: int|
            0 <= i < es.len() ==> #[trigger] current[i] == es[i].expected_version,
    decreases es.len(),
{
    if es.len() > 0 {
        law_guard_conflicts_exactly_on_moved_versions(es.drop_last(), current.drop_last());
        if forall|i: int| 0 <= i < es.len() ==> #[trigger] current[i] == es[i].expected_version {
            assert(current.last() == es.last().expected_version);
            assert forall|i: int| 0 <= i < es.len() - 1 implies #[trigger] current.drop_last()[i]
                == es.drop_last()[i].expected_version by {
                assert(current[i] == es[i].expected_version);
            }
        }
        if guard_conflicts(es, current).len() == 0 {
            assert forall|i: int| 0 <= i < es.len() implies #[trigger] current[i]
                == es[i].expected_version by {
                if i < es.len() - 1 {
                    assert(current.drop_last()[i] == es.drop_last()[i].expected_version);
                }
            }
        }
    }
}


// ---------------------------------------------------------------- publishing an intent

/// What an accepted intent records: trimmed identities, and how long it lives as the store's
/// expiry modifier (`+<ttl> seconds`).
#[derive(Clone, Debug)]
pub struct IntentRequest {
    pub agent_run_id: String,
    pub resource_kind: String,
    pub resource_id: String,
    pub expiry_modifier: String,
}

/// Why an intent is refused: a blank resource identity, then a blank agent run id, then a
/// lifetime outside one second to one day.
pub open spec fn intent_error(agent: Seq<char>, kind: Seq<char>, id: Seq<char>, ttl: i64) -> Option<
    Seq<char>,
> {
    if identity_error(kind, id) is Some {
        identity_error(kind, id)
    } else if trim(agent).len() == 0 {
        Some("agentRunId is required"@)
    } else if !(1 <= ttl && ttl <= 86400) {
        Some("ttlSeconds must be between 1 and 86400"@)
    } else {
        None
    }
}

/// Checks an intent before it is published, and gives what the store records for it.
pub fn intent_request(agent_run_id: &str, resource_kind: &str, resource_id: &str, ttl_seconds: i64) -> (r:
    Result<IntentRequest, String>)
    ensures
        match r {
            Ok(q) => intent_error(agent_run_id@, resource_kind@, resource_id@, ttl_seconds) is None
                && q.agent_run_id@ == trim(agent_run_id@) && q.resource_kind@ == trim(resource_kind@)
                && q.resource_id@ == trim(resource_id@) && q.expiry_modifier@ == "+"@ + signed_dec(
                ttl_seconds as int,
            ) + " seconds"@,
            Err(m) => intent_error(agent_run_id@, resource_kind@, resource_id@, ttl_seconds) == Some(
                m@,
            ),
        },
{
    if let Err(m) = validate_identity(resource_kind, resource_id) {
        return Err(m);
    }
    let agent = trim_chars(chars_of(agent_run_id).as_slice());
    if agent.len() == 0 {
        return Err(owned("agentRunId is required"));
    }
    if !(1 <= ttl_seconds && ttl_seconds <= 86400) {
        return Err(owned("ttlSeconds must be between 1 and 86400"));
    }
    let mut modifier = owned("+");
    let digits = signed_decimal(ttl_seconds);
    push_chars(&mut modifier, digits.as_slice());
    push_str_chars(&mut modifier, " seconds");
    Ok(IntentRequest {
        agent_run_id: string_of(agent.as_slice()),
        resource_kind: string_of(trim_chars(chars_of(resource_kind).as_slice()).as_slice()),
        resource_id: string_of(trim_chars(chars_of(resource_id).as_slice()).as_slice()),
        expiry_modifier: modifier,
    })
}

} // verus!
