//! Repairing a failed tool call: which parameters are missing or unused, and the reason worth
//! relaying.
use vstd::prelude::*;

use crate::documents::strings_view;
use crate::text::{owned, str_eq};

verus! {

broadcast use vstd::string::group_string_axioms;

/// One argument of a call: its name, and whether its value is JSON `null`.
#[derive(Clone, Debug)]
pub struct ArgumentField {
    pub name: String,
    pub is_null: bool,
}

/// The parameters a repair report names: required ones the call left out or set to `null`,
/// and supplied ones the operation does not use.
#[derive(Clone, Debug)]
pub struct ParameterReport {
    pub missing: Vec<String>,
    pub unused: Vec<String>,
}

/// An argument supplies `name` with a value other than `null`.
pub open spec fn supplied(args: Seq<ArgumentField>, name: Seq<char>) -> bool {
    exists|i: int| 0 <= i < args.len() && (#[trigger] args[i]).name@ == name && !args[i].is_null
}

pub open spec fn missing_spec(required: Seq<Seq<char>>, args: Seq<ArgumentField>) -> Seq<Seq<char>>
    decreases required.len(),
{
    if required.len() == 0 {
        Seq::empty()
    } else if !supplied(args, required.last()) {
        missing_spec(required.drop_last(), args).push(required.last())
    } else {
        missing_spec(required.drop_last(), args)
    }
}

pub open spec fn unused_spec(properties: Seq<Seq<char>>, args: Seq<ArgumentField>) -> Seq<Seq<char>>
    decreases args.len(),
{
    if args.len() == 0 {
        Seq::empty()
    } else if !properties.contains(args.last().name@) {
        unused_spec(properties, args.drop_last()).push(args.last().name@)
    } else {
        unused_spec(properties, args.drop_last())
    }
}

fn supplied_exec(args: &[ArgumentField], name: &str) -> (b: bool)
    ensures
        b == supplied(args@, name@),
{
    let mut i: usize = 0;
    while i < args.len()
        invariant
            i <= args@.len(),
            forall|j: int| 0 <= j < i ==> !((#[trigger] args@[j]).name@ == name@ && !args@[j].is_null),
        decreases args.len() - i,
    {
        if !args[i].is_null && str_eq(args[i].name.as_str(), name) {
            return true;
        }
        i += 1;
    }
    false
}

fn listed(v: &[String], x: &str) -> (b: bool)
    ensures
        b == strings_view(v@).contains(x@),
{
    let mut i: usize = 0;
    while i < v.len()
        invariant
            i <= v@.len(),
            forall|j: int| 0 <= j < i ==> v@[j]@ != x@,
        decreases v.len() - i,
    {
        if str_eq(v[i].as_str(), x) {
            assert(strings_view(v@)[i as int] == x@);
            return true;
        }
        i += 1;
    }
    assert(!strings_view(v@).contains(x@)) by {
        if strings_view(v@).contains(x@) {
            let j = choose|j: int| 0 <= j < strings_view(v@).len() && strings_view(v@)[j] == x@;
            assert(v@[j]@ == x@);
        }
    }
    false
}

/// Which required parameters a call misses and which of its arguments the operation does
/// not use, each in the order given.
pub fn parameter_report(required: &[String], properties: &[String], arguments: &[ArgumentField]) -> (r:
    ParameterReport)
    ensures
        strings_view(r.missing@) == missing_spec(strings_view(required@), arguments@),
        strings_view(r.unused@) == unused_spec(strings_view(properties@), arguments@),
{
    let mut missing: Vec<String> = Vec::new();
    let mut i: usize = 0;
    assert(strings_view(required@).take(0) =~= Seq::<Seq<char>>::empty());
    while i < required.len()
        invariant
            i <= required@.len(),
            strings_view(missing@) == missing_spec(strings_view(required@).take(i as int), arguments@),
        decreases required.len() - i,
    {
        proof {
            assert(strings_view(required@).take(i + 1).drop_last() =~= strings_view(required@).take(
                i as int,
            ));
            assert(strings_view(required@).take(i + 1).last() == required@[i as int]@);
        }
        if !supplied_exec(arguments, required[i].as_str()) {
            let ghost before = strings_view(missing@);
            missing.push(owned(required[i].as_str()));
            assert(strings_view(missing@) =~= before.push(required@[i as int]@));
        }
        i += 1;
    }
    assert(strings_view(required@).take(required@.len() as int) =~= strings_view(required@));
    let mut unused: Vec<String> = Vec::new();
    let mut k: usize = 0;
    assert(arguments@.take(0) =~= Seq::<ArgumentField>::empty());
    while k < arguments.len()
        invariant
            k <= arguments@.len(),
            strings_view(unused@) == unused_spec(strings_view(properties@), arguments@.take(k as int)),
        decreases arguments.len() - k,
    {
        proof {
            assert(arguments@.take(k + 1).drop_last() =~= arguments@.take(k as int));
            assert(arguments@.take(k + 1).last() == arguments@[k as int]);
        }
        if !listed(properties, arguments[k].name.as_str()) {
            let ghost before = strings_view(unused@);
            unused.push(owned(arguments[k].name.as_str()));
            assert(strings_view(unused@) =~= before.push(arguments@[k as int].name@));
        }
        k += 1;
    }
    assert(arguments@.take(arguments@.len() as int) =~= arguments@);
    ParameterReport { missing, unused }
}

/// A generic failure says nothing the caller can act on.
pub open spec fn is_generic_failure(reason: Seq<char>) -> bool {
    reason == "Adashi MCP request failed"@ || reason == "Adashi MCP server failed"@
}

/// The reason a repair report relays: a generic failure is replaced by the message its
/// details carry, or by the details themselves; any other reason stands.
pub open spec fn relayed_reason_spec(
    reason: Seq<char>,
    details_message: Option<Seq<char>>,
    details_text: Option<Seq<char>>,
) -> Seq<char> {
    if is_generic_failure(reason) && details_text is Some {
        match details_message {
            Some(m) => m,
            None => details_text->0,
        }
    } else {
        reason
    }
}

/// The reason a repair report relays. `details_text` is the failure's details, when it has
/// any, and `details_message` their `message` string, when they have one.
pub fn relayed_reason(reason: &str, details_message: Option<&str>, details_text: Option<&str>) -> (r:
    String)
    ensures
        r@ == relayed_reason_spec(
            reason@,
            match details_message {
                Some(m) => Some(m@),
                None => None,
            },
            match details_text {
                Some(t) => Some(t@),
                None => None,
            },
        ),
{
    let generic = str_eq(reason, "Adashi MCP request failed") || str_eq(reason, "Adashi MCP server failed");
    if generic {
        if let Some(text) = details_text {
            return match details_message {
                Some(m) => owned(m),
                None => owned(text),
            };
        }
    }
    owned(reason)
}


// ---------------------------------------------------------------- which results are repaired

/// A design save the store refused: its reply says `"ok": false`.
pub open spec fn design_rejected(tool: Seq<char>, ok: Option<bool>) -> bool {
    tool == "adashi_design"@ && ok == Some(false)
}

/// Whether a completed call goes back unchanged: only failures are repaired, so a result
/// passes unless it is flagged as an error or is a refused design save. `ok` is the boolean
/// `ok` field of the structured reply, where it has one.
pub fn passes_through(tool: &str, is_error: Option<bool>, ok: Option<bool>) -> (b: bool)
    ensures
        b == (is_error != Some(true) && !design_rejected(tool@, ok)),
{
    let flagged = match is_error {
        Some(e) => e,
        None => false,
    };
    let rejected = str_eq(tool, "adashi_design") && match ok {
        Some(v) => !v,
        None => false,
    };
    !flagged && !rejected
}


// ---------------------------------------------------------------- the report's guidance

pub const GUIDANCE_CORRECT: &'static str = "Correct the reported parameters and submit a new tool call. This is a terminal tool error, not a transport timeout.";

pub const GUIDANCE_SCHEMA: &'static str = "parameterSchema is the complete schema for this operation: required fields, optional fields, types, enums and nested definitions. Do not add fields from a different operation; omit unused optional fields.";

pub const GUIDANCE_VERSIONS: &'static str = "Use a unique operationId per mutation; reuse it only for an identical retry. expectedVersion is the resource version returned by retrieval, never the project revision. Read and review the resource again before changing a stale expectedVersion.";

pub const GUIDANCE_DESIGN_WRITE: &'static str = "Use a unique operationId for each design mutation. Copy readTokens from the documents you read; creates need no token. On an out_of_date response merge the intended changes into currentDocument and use a new operationId. An identical retry with the same operationId returns the original receipt.";

pub const READ_TOKEN_INSTRUCTIONS: &'static str = "Read complete documents with get_by_ids/get_scope/get_bindings/get_documents. Copy their documentId/readToken pairs into readTokens for existing targets, including documents removed by a cascade. New identities need no token. Adashi owns dependency checks; omit legacy guard/readSet/writeSet. On out_of_date, merge intended edits into currentDocument before retrying with its readToken and a new operationId. Nothing is automatically retried.";

/// A design write: a save or a description update, which follow the document protocol.
pub open spec fn is_design_write(tool: Seq<char>, operation: Seq<char>) -> bool {
    tool == "adashi_design"@ && (operation == "save"@ || operation == "set_element_descriptions"@)
}

pub open spec fn guidance_spec(tool: Seq<char>, operation: Seq<char>) -> Seq<Seq<char>> {
    seq![
        GUIDANCE_CORRECT@,
        GUIDANCE_SCHEMA@,
        if is_design_write(tool, operation) {
            GUIDANCE_DESIGN_WRITE@
        } else {
            GUIDANCE_VERSIONS@
        },
    ]
}

fn design_write(tool: &str, operation: &str) -> (b: bool)
    ensures
        b == is_design_write(tool@, operation@),
{
    str_eq(tool, "adashi_design") && (str_eq(operation, "save") || str_eq(
        operation,
        "set_element_descriptions",
    ))
}

/// The guidance of a repair report: how to correct the call and read the schema, and how to
/// retry, which for a design write follows the document protocol.
pub fn report_guidance(tool: &str, operation: &str) -> (r: Vec<String>)
    ensures
        strings_view(r@) == guidance_spec(tool@, operation@),
{
    let mut r: Vec<String> = Vec::new();
    r.push(owned(GUIDANCE_CORRECT));
    r.push(owned(GUIDANCE_SCHEMA));
    if design_write(tool, operation) {
        r.push(owned(GUIDANCE_DESIGN_WRITE));
    } else {
        r.push(owned(GUIDANCE_VERSIONS));
    }
    assert(strings_view(r@) =~= guidance_spec(tool@, operation@));
    r
}

/// The read-token instructions a design write's report carries; other reports have none.
pub fn read_token_instructions(tool: &str, operation: &str) -> (r: Option<String>)
    ensures
        match r {
            Some(t) => is_design_write(tool@, operation@) && t@ == READ_TOKEN_INSTRUCTIONS@,
            None => !is_design_write(tool@, operation@),
        },
{
    if design_write(tool, operation) {
        Some(owned(READ_TOKEN_INSTRUCTIONS))
    } else {
        None
    }
}

/// The detail fields a stale or unread design write lifts to the top of its report, in order.
pub open spec fn lifted_keys_spec() -> Seq<Seq<char>> {
    seq![
        "code"@,
        "message"@,
        "stored"@,
        "request"@,
        "conflicts"@,
        "documentId"@,
        "currentDocument"@,
        "readToken"@,
    ]
}

/// Whether a report lifts its details: a design write refused as `out_of_date` or
/// `read_required` keeps the actionable snapshot once, at the top, instead of nested.
pub open spec fn lifts_details(tool: Seq<char>, operation: Seq<char>, code: Option<Seq<char>>) -> bool {
    is_design_write(tool, operation) && (code == Some("out_of_date"@) || code == Some(
        "read_required"@,
    ))
}

/// The detail keys to lift to the top of the report, which then drops its nested details; or
/// `None` when the details stay as they are. `code` is the details' `code` string, when they
/// have one.
pub fn lifted_detail_keys(tool: &str, operation: &str, code: Option<&str>) -> (r: Option<Vec<String>>)
    ensures
        match r {
            Some(keys) => lifts_details(
                tool@,
                operation@,
                match code {
                    Some(c) => Some(c@),
                    None => None,
                },
            ) && strings_view(keys@) == lifted_keys_spec(),
            None => !lifts_details(
                tool@,
                operation@,
                match code {
                    Some(c) => Some(c@),
                    None => None,
                },
            ),
        },
{
    let stale = match code {
        Some(c) => str_eq(c, "out_of_date") || str_eq(c, "read_required"),
        None => false,
    };
    if !(design_write(tool, operation) && stale) {
        return None;
    }
    let mut keys: Vec<String> = Vec::new();
    keys.push(owned("code"));
    keys.push(owned("message"));
    keys.push(owned("stored"));
    keys.push(owned("request"));
    keys.push(owned("conflicts"));
    keys.push(owned("documentId"));
    keys.push(owned("currentDocument"));
    keys.push(owned("readToken"));
    assert(strings_view(keys@) =~= lifted_keys_spec());
    Some(keys)
}

} // verus!
