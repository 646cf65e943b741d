//! On-demand help for the MCP tools: which selectors are valid, what a catalog lists, and the
//! workflow notes that accompany an operation's contract.
use vstd::prelude::*;

use crate::documents::{strings_view, WRITE_PROTOCOL};
use crate::text::{owned, push_str_chars, str_eq};

verus! {

broadcast use vstd::string::group_string_axioms;

// ---------------------------------------------------------------- the catalog

/// The tools the server exposes.
pub open spec fn tool_names_spec() -> Seq<Seq<char>> {
    seq![
        "adashi_design"@,
        "adashi_grep"@,
        "adashi_tasks"@,
        "adashi_qa"@,
        "adashi_memory"@,
        "adashi_rules"@,
        "adashi_intents"@,
    ]
}

/// The operations of a tool, in the order its operation enum declares them; a tool without
/// operations has an empty list; an unknown tool has none.
pub open spec fn tool_operations_spec(tool: Seq<char>) -> Option<Seq<Seq<char>>> {
    if tool == "adashi_design"@ {
        Some(
            seq![
                "save"@,
                "get_scope"@,
                "get_by_ids"@,
                "get_documents"@,
                "search"@,
                "get_overview"@,
                "get_bindings"@,
                "set_element_descriptions"@,
                "health"@,
                "mockup_list_pending_revisions"@,
                "mockup_get_revision_context"@,
            ],
        )
    } else if tool == "adashi_grep"@ {
        Some(Seq::empty())
    } else if tool == "adashi_tasks"@ {
        Some(seq!["create"@, "list"@, "update"@, "finish"@, "close"@, "delete"@, "get"@])
    } else if tool == "adashi_qa"@ {
        Some(
            seq![
                "create_job"@,
                "update_job"@,
                "delete_job"@,
                "list_jobs"@,
                "run_jobs"@,
                "list_runs"@,
                "get_job"@,
                "get_run"@,
            ],
        )
    } else if tool == "adashi_memory"@ {
        Some(seq!["get"@, "append"@, "update"@, "update_rule"@])
    } else if tool == "adashi_rules"@ {
        Some(seq!["list"@, "create"@, "update"@, "delete"@, "get_rule_injections"@])
    } else if tool == "adashi_intents"@ {
        Some(seq!["publish"@, "list"@])
    } else {
        None
    }
}

/// The change types a design save takes.
pub open spec fn change_types_spec() -> Seq<Seq<char>> {
    seq![
        "upsert_element"@,
        "upsert_relationship"@,
        "upsert_uml"@,
        "upsert_binding"@,
        "upsert_mockup"@,
        "upsert_mockup_proposal"@,
        "delete_element"@,
        "delete_relationship"@,
        "delete_uml"@,
        "delete_binding"@,
        "delete_mockup"@,
    ]
}

pub open spec fn strs_view(v: Seq<&str>) -> Seq<Seq<char>> {
    v.map_values(|s: &str| s@)
}

/// The tools the server exposes.
pub fn tool_names() -> (r: Vec<&'static str>)
    ensures
        strs_view(r@) == tool_names_spec(),
{
    let r = vec![
        "adashi_design",
        "adashi_grep",
        "adashi_tasks",
        "adashi_qa",
        "adashi_memory",
        "adashi_rules",
        "adashi_intents",
    ];
    assert(strs_view(r@) =~= tool_names_spec());
    r
}

/// The operations of a tool; `None` for an unknown tool.
pub fn tool_operations(tool: &str) -> (r: Option<Vec<&'static str>>)
    ensures
        match r {
            Some(v) => tool_operations_spec(tool@) == Some(strs_view(v@)),
            None => tool_operations_spec(tool@) is None,
        },
{
    let r = if str_eq(tool, "adashi_design") {
        Some(
            vec![
                "save",
                "get_scope",
                "get_by_ids",
                "get_documents",
                "search",
                "get_overview",
                "get_bindings",
                "set_element_descriptions",
                "health",
                "mockup_list_pending_revisions",
                "mockup_get_revision_context",
            ],
        )
    } else if str_eq(tool, "adashi_grep") {
        Some(Vec::new())
    } else if str_eq(tool, "adashi_tasks") {
        Some(vec!["create", "list", "update", "finish", "close", "delete", "get"])
    } else if str_eq(tool, "adashi_qa") {
        Some(
            vec![
                "create_job",
                "update_job",
                "delete_job",
                "list_jobs",
                "run_jobs",
                "list_runs",
                "get_job",
                "get_run",
            ],
        )
    } else if str_eq(tool, "adashi_memory") {
        Some(vec!["get", "append", "update", "update_rule"])
    } else if str_eq(tool, "adashi_rules") {
        Some(vec!["list", "create", "update", "delete", "get_rule_injections"])
    } else if str_eq(tool, "adashi_intents") {
        Some(vec!["publish", "list"])
    } else {
        None
    };
    proof {
        if r is Some {
            assert(tool_operations_spec(tool@)->0 =~= strs_view(r->0@));
        }
    }
    r
}

/// The change types a design save takes.
pub fn change_types() -> (r: Vec<&'static str>)
    ensures
        strs_view(r@) == change_types_spec(),
{
    let r = vec![
        "upsert_element",
        "upsert_relationship",
        "upsert_uml",
        "upsert_binding",
        "upsert_mockup",
        "upsert_mockup_proposal",
        "delete_element",
        "delete_relationship",
        "delete_uml",
        "delete_binding",
        "delete_mockup",
    ];
    assert(strs_view(r@) =~= change_types_spec());
    r
}

// ---------------------------------------------------------------- selecting help

/// What help was asked for: a tool, optionally one of its operations, and for a design save
/// optionally some of its change types.
#[derive(Clone, Debug)]
pub struct HelpParams {
    pub tool: String,
    pub operation: Option<String>,
    pub change_types: Option<Vec<String>>,
}

/// What help answers: a refusal that names the valid choices, a tool's catalog of operations,
/// or the contract of one selection.
#[derive(Clone, Debug)]
pub enum HelpOutcome {
    UnknownTool { message: String, available_tools: Vec<String> },
    UnknownOperation { message: String, available_operations: Vec<String> },
    /// The example arguments show the one selection that takes change types.
    ChangeTypesUnsupported { message: String, example_arguments: HelpParams },
    InvalidChangeTypes { message: String, available_change_types: Vec<String> },
    Catalog { tool: String, operations: Vec<String>, next: String },
    Contract { tool: String, operation: Option<String>, change_types: Option<Vec<String>> },
}

/// The character content of a help answer.
pub enum HelpView {
    UnknownTool { message: Seq<char>, available_tools: Seq<Seq<char>> },
    UnknownOperation { message: Seq<char>, available_operations: Seq<Seq<char>> },
    ChangeTypesUnsupported {
        message: Seq<char>,
        example_arguments: (Seq<char>, Option<Seq<char>>, Option<Seq<Seq<char>>>),
    },
    InvalidChangeTypes { message: Seq<char>, available_change_types: Seq<Seq<char>> },
    Catalog { tool: Seq<char>, operations: Seq<Seq<char>>, next: Seq<char> },
    Contract { tool: Seq<char>, operation: Option<Seq<char>>, change_types: Option<Seq<Seq<char>>> },
}

pub open spec fn opt_view(o: Option<String>) -> Option<Seq<char>> {
    match o {
        Some(s) => Some(s@),
        None => None,
    }
}

/// Help parameters by their characters.
pub open spec fn params_view(p: HelpParams) -> (Seq<char>, Option<Seq<char>>, Option<Seq<Seq<char>>>) {
    (
        p.tool@,
        opt_view(p.operation),
        match p.change_types {
            Some(v) => Some(strings_view(v@)),
            None => None,
        },
    )
}

/// The selection that takes change types, as an example: a design save asking for UML.
pub open spec fn change_types_example() -> (Seq<char>, Option<Seq<char>>, Option<Seq<Seq<char>>>) {
    ("adashi_design"@, Some("save"@), Some(seq!["upsert_uml"@]))
}

pub open spec fn help_view(h: HelpOutcome) -> HelpView {
    match h {
        HelpOutcome::UnknownTool { message, available_tools } => HelpView::UnknownTool {
            message: message@,
            available_tools: strings_view(available_tools@),
        },
        HelpOutcome::UnknownOperation { message, available_operations } => HelpView::UnknownOperation {
            message: message@,
            available_operations: strings_view(available_operations@),
        },
        HelpOutcome::ChangeTypesUnsupported { message, example_arguments } => HelpView::ChangeTypesUnsupported {
            message: message@,
            example_arguments: params_view(example_arguments),
        },
        HelpOutcome::InvalidChangeTypes { message, available_change_types } => HelpView::InvalidChangeTypes {
            message: message@,
            available_change_types: strings_view(available_change_types@),
        },
        HelpOutcome::Catalog { tool, operations, next } => HelpView::Catalog {
            tool: tool@,
            operations: strings_view(operations@),
            next: next@,
        },
        HelpOutcome::Contract { tool, operation, change_types } => HelpView::Contract {
            tool: tool@,
            operation: opt_view(operation),
            change_types: match change_types {
                Some(v) => Some(strings_view(v@)),
                None => None,
            },
        },
    }
}

/// The allowed change types that were selected, in the allowed order.
pub open spec fn keep_selected(allowed: Seq<Seq<char>>, selected: Seq<Seq<char>>) -> Seq<Seq<char>>
    decreases allowed.len(),
{
    if allowed.len() == 0 {
        Seq::empty()
    } else if selected.contains(allowed.last()) {
        keep_selected(allowed.drop_last(), selected).push(allowed.last())
    } else {
        keep_selected(allowed.drop_last(), selected)
    }
}

/// A selection of change types is valid when it is nonempty and names only allowed types.
pub open spec fn selection_valid(allowed: Seq<Seq<char>>, selected: Seq<Seq<char>>) -> bool {
    selected.len() > 0 && forall|i: int| 0 <= i < selected.len() ==> allowed.contains(#[trigger] selected[i])
}

pub open spec fn unknown_operation_message(tool: Seq<char>, op: Seq<char>, available: Seq<Seq<char>>) -> Seq<
    char,
> {
    "Unknown operation '"@ + op + "' for "@ + tool + ". "@ + if available.len() == 0 {
        "Omit operation for this tool."@
    } else {
        "Choose one of availableOperations."@
    }
}

/// The answer to a help request. An unknown tool is refused first, then an operation the tool
/// does not have, then change types outside a design save. Without an operation, a tool that
/// has operations answers with its catalog; otherwise the contract of the selection follows,
/// with the selected change types of a design save (all of them when none were named).
pub open spec fn help_spec(tool: Seq<char>, op: Option<Seq<char>>, cts: Option<Seq<Seq<char>>>) -> HelpView {
    match tool_operations_spec(tool) {
        None => HelpView::UnknownTool {
            message: "Unknown tool '"@ + tool + "'. Choose one of availableTools."@,
            available_tools: tool_names_spec(),
        },
        Some(available) => if op is Some && !available.contains(op->0) {
            HelpView::UnknownOperation {
                message: unknown_operation_message(tool, op->0, available),
                available_operations: available,
            }
        } else if cts is Some && !(tool == "adashi_design"@ && op == Some("save"@)) {
            HelpView::ChangeTypesUnsupported {
                message: "changeTypes is only supported for tool=adashi_design, operation=save."@,
                example_arguments: change_types_example(),
            }
        } else if op is None && available.len() > 0 {
            HelpView::Catalog {
                tool,
                operations: available,
                next: "Call adashi_help with tool and one operation for its exact schema, examples and workflow."@,
            }
        } else if tool == "adashi_design"@ && op == Some("save"@) {
            match cts {
                Some(selected) => if !selection_valid(change_types_spec(), selected) {
                    HelpView::InvalidChangeTypes {
                        message: "changeTypes must be a nonempty subset of availableChangeTypes."@,
                        available_change_types: change_types_spec(),
                    }
                } else {
                    HelpView::Contract {
                        tool,
                        operation: op,
                        change_types: Some(keep_selected(change_types_spec(), selected)),
                    }
                },
                None => HelpView::Contract { tool, operation: op, change_types: Some(change_types_spec()) },
            }
        } else {
            HelpView::Contract { tool, operation: op, change_types: None }
        },
    }
}

fn owned_all(v: &Vec<&'static str>) -> (r: Vec<String>)
    ensures
        strings_view(r@) == strs_view(v@),
{
    let mut r: Vec<String> = Vec::new();
    let mut i: usize = 0;
    while i < v.len()
        invariant
            i <= v@.len(),
            strings_view(r@) == strs_view(v@).take(i as int),
        decreases v.len() - i,
    {
        let ghost before = strings_view(r@);
        r.push(owned(v[i]));
        assert(strings_view(r@) =~= before.push(v@[i as int]@));
        assert(strs_view(v@).take(i + 1) =~= strs_view(v@).take(i as int).push(v@[i as int]@));
        i += 1;
    }
    assert(strs_view(v@).take(v@.len() as int) =~= strs_view(v@));
    r
}

fn listed(v: &Vec<&'static str>, x: &str) -> (b: bool)
    ensures
        b == strs_view(v@).contains(x@),
{
    let mut i: usize = 0;
    while i < v.len()
        invariant
            i <= v@.len(),
            forall|j: int| 0 <= j < i ==> v@[j]@ != x@,
        decreases v.len() - i,
    {
        if str_eq(v[i], x) {
            assert(strs_view(v@)[i as int] == x@);
            return true;
        }
        i += 1;
    }
    assert(!strs_view(v@).contains(x@)) by {
        if strs_view(v@).contains(x@) {
            let j = choose|j: int| 0 <= j < strs_view(v@).len() && strs_view(v@)[j] == x@;
            assert(v@[j]@ == x@);
        }
    }
    false
}

fn named(v: &Vec<String>, x: &str) -> (b: bool)
    ensures
        b == strings_view(v@).contains(x@),
{
    let mut i: usize = 0;
    while i < v.len()
        invariant
            i <= v@.len(),
            forall|j: int| 0 <= j < i ==> v@[j]@ != x@,
        decreases v.len() - i,
    {
        if str_eq(v[i].as_str(), x) {
            assert(strings_view(v@)[i as int] == x@);
            return true;
        }
        i += 1;
    }
    assert(!strings_view(v@).contains(x@)) by {
        if strings_view(v@).contains(x@) {
            let j = choose|j: int| 0 <= j < strings_view(v@).len() && strings_view(v@)[j] == x@;
            assert(v@[j]@ == x@);
        }
    }
    false
}

/// Answers a help request.
pub fn select_help(params: &HelpParams) -> (r: HelpOutcome)
    ensures
        help_view(r) == help_spec(
            params.tool@,
            opt_view(params.operation),
            match params.change_types {
                Some(v) => Some(strings_view(v@)),
                None => None,
            },
        ),
{
    let tool = params.tool.as_str();
    let available = match tool_operations(tool) {
        None => {
            let mut message = owned("Unknown tool '");
            push_str_chars(&mut message, tool);
            push_str_chars(&mut message, "'. Choose one of availableTools.");
            let names = tool_names();
            return HelpOutcome::UnknownTool { message, available_tools: owned_all(&names) };
        },
        Some(v) => v,
    };
    let op: Option<&str> = match &params.operation {
        Some(o) => Some(o.as_str()),
        None => None,
    };
    if let Some(o) = op {
        if !listed(&available, o) {
            let mut message = owned("Unknown operation '");
            push_str_chars(&mut message, o);
            push_str_chars(&mut message, "' for ");
            push_str_chars(&mut message, tool);
            push_str_chars(&mut message, ". ");
            if available.len() == 0 {
                push_str_chars(&mut message, "Omit operation for this tool.");
            } else {
                push_str_chars(&mut message, "Choose one of availableOperations.");
            }
            let ghost av = strs_view(available@);
            assert(message@ =~= unknown_operation_message(tool@, o@, av));
            return HelpOutcome::UnknownOperation {
                message,
                available_operations: owned_all(&available),
            };
        }
    }
    let is_design_save = str_eq(tool, "adashi_design") && match op {
        Some(o) => str_eq(o, "save"),
        None => false,
    };
    assert(is_design_save == (tool@ == "adashi_design"@ && opt_view(params.operation) == Some("save"@)));
    if params.change_types.is_some() && !is_design_save {
        let mut example_types: Vec<String> = Vec::new();
        example_types.push(owned("upsert_uml"));
        let example_arguments = HelpParams {
            tool: owned("adashi_design"),
            operation: Some(owned("save")),
            change_types: Some(example_types),
        };
        assert(strings_view(example_types@) =~= seq!["upsert_uml"@]) by {
            assert(strings_view(example_types@)[0] == "upsert_uml"@);
        };
        return HelpOutcome::ChangeTypesUnsupported {
            message: owned("changeTypes is only supported for tool=adashi_design, operation=save."),
            example_arguments,
        };
    }
    if op.is_none() && available.len() > 0 {
        return HelpOutcome::Catalog {
            tool: owned(tool),
            operations: owned_all(&available),
            next: owned(
                "Call adashi_help with tool and one operation for its exact schema, examples and workflow.",
            ),
        };
    }
    let operation = match &params.operation {
        Some(o) => Some(owned(o.as_str())),
        None => None,
    };
    if !is_design_save {
        return HelpOutcome::Contract { tool: owned(tool), operation, change_types: None };
    }
    let allowed = change_types();
    match &params.change_types {
        None => HelpOutcome::Contract {
            tool: owned(tool),
            operation,
            change_types: Some(owned_all(&allowed)),
        },
        Some(selected) => {
            let mut valid = selected.len() > 0;
            let mut i: usize = 0;
            while i < selected.len()
                invariant
                    i <= selected@.len(),
                    strs_view(allowed@) == change_types_spec(),
                    valid == (selected@.len() > 0 && forall|j: int|
                        0 <= j < i ==> change_types_spec().contains(#[trigger] strings_view(selected@)[j])),
                decreases selected.len() - i,
            {
                let ok = listed(&allowed, selected[i].as_str());
                assert(strings_view(selected@)[i as int] == selected@[i as int]@);
                if !ok {
                    valid = false;
                }
                assert(valid == (selected@.len() > 0 && forall|j: int|
                    0 <= j < i + 1 ==> change_types_spec().contains(#[trigger] strings_view(selected@)[j]))) by {
                    if !ok {
                        assert(!change_types_spec().contains(strings_view(selected@)[i as int]));
                    }
                }
                i += 1;
            }
            if !valid {
                return HelpOutcome::InvalidChangeTypes {
                    message: owned("changeTypes must be a nonempty subset of availableChangeTypes."),
                    available_change_types: owned_all(&allowed),
                };
            }
            let mut kept: Vec<String> = Vec::new();
            let mut k: usize = 0;
            assert(change_types_spec().take(0) =~= Seq::<Seq<char>>::empty());
            while k < allowed.len()
                invariant
                    k <= allowed@.len(),
                    strs_view(allowed@) == change_types_spec(),
                    strings_view(kept@) == keep_selected(
                        change_types_spec().take(k as int),
                        strings_view(selected@),
                    ),
                decreases allowed.len() - k,
            {
                proof {
                    assert(change_types_spec().take(k + 1).drop_last() =~= change_types_spec().take(
                        k as int,
                    ));
                    assert(change_types_spec().take(k + 1).last() == allowed@[k as int]@);
                }
                if named(selected, allowed[k]) {
                    let ghost before = strings_view(kept@);
                    kept.push(owned(allowed[k]));
                    assert(strings_view(kept@) =~= before.push(allowed@[k as int]@));
                }
                k += 1;
            }
            assert(change_types_spec().take(allowed@.len() as int) =~= change_types_spec());
            HelpOutcome::Contract { tool: owned(tool), operation, change_types: Some(kept) }
        },
    }
}

impl HelpOutcome {
    /// The detail a refusal carries for the caller to choose from, by its field name.
    pub fn error_detail_key(&self) -> (r: Option<&'static str>)
        ensures
            match *self {
                HelpOutcome::UnknownTool { .. } => r matches Some(k) && k@ == "availableTools"@,
                HelpOutcome::UnknownOperation { .. } => r matches Some(k) && k@
                    == "availableOperations"@,
                HelpOutcome::ChangeTypesUnsupported { .. } => r matches Some(k) && k@
                    == "exampleArguments"@,
                HelpOutcome::InvalidChangeTypes { .. } => r matches Some(k) && k@
                    == "availableChangeTypes"@,
                _ => r is None,
            },
    {
        match self {
            HelpOutcome::UnknownTool { .. } => Some("availableTools"),
            HelpOutcome::UnknownOperation { .. } => Some("availableOperations"),
            HelpOutcome::ChangeTypesUnsupported { .. } => Some("exampleArguments"),
            HelpOutcome::InvalidChangeTypes { .. } => Some("availableChangeTypes"),
            HelpOutcome::Catalog { .. } => None,
            HelpOutcome::Contract { .. } => None,
        }
    }
}

// ---------------------------------------------------------------- workflow notes

pub const NOTE_PARAMETERS: &'static str = "parameterSchema lists the selected operation's required and optional fields, types, enums and nested definitions. Omit fields belonging to other operations. Omitted optional values use server defaults; do not supply guessed values.";

pub const NOTE_MUTATIONS: &'static str = "Use a unique operationId per mutation; reuse it only for an identical retry. For expectedVersion, copy the resource's version from its read response, never the project revision. Reread and reconcile a stale resource before retrying with a new operationId.";

pub const NOTE_DESIGN: &'static str = "Overview, search and the startup index are navigation. get_by_ids/get_scope/get_bindings return complete editable documents with documentId/readToken; get_documents takes those opaque documentIds. A scope includes ancestors by default; childrenDepth omitted is unlimited and includeSource defaults false. Search kinds are element, relationship, uml, source, mockup; limit defaults 20.";

pub const NOTE_DESCRIPTIONS: &'static str = "This narrow operation requires projectName, operation, operationId, readTokens and updates. Each update contains externalId and a nonempty description; it preserves other element fields. Read the complete elements first and copy their documentId/readToken pairs. Use a unique operationId; reuse it only for an identical retry. On out_of_date nothing is saved: merge the intended descriptions with currentDocument, then retry using the new tokens and a new operationId. Do not send changes, changeIntent, expectedRevision or guard to this operation.";

pub const NOTE_SAVE_CHANGES: &'static str = "Each changes item has an op tag. Upserts replace whole documents: preserve fields you intend to keep. C4 elementType is Person, Software System, Container or Component. Container requires a Software System parent; Component requires a Container parent. Relationship endpoints, diagram attachments and each binding's designExternalId must exist in the resulting model. Binding targetType is file or symbol. Save validates the complete resulting model atomically; ok=false means nothing was stored.";

pub const NOTE_SAVE_UML: &'static str = "UML uses language=mermaid and diagramType=class, sequence, flow or state with a matching header (classDiagram, sequenceDiagram, flowchart, stateDiagram-v2). Attach it to an existing C4 element or relationship. Source must parse and round-trip through the supported semantic model; rejected source includes correction details. Mockups are separate SVG artifacts; viewport dimensions must be positive, visual elements need stable data-adashi-id attributes, and external resources/scripts are forbidden. Before proposing a mockup revision, read mockup_get_revision_context and copy mockup.acceptedRevision into baseRevision.";

pub const NOTE_TASKS: &'static str = "create starts in todo. update may set active from any state, including reopening closed work. Returning to todo is forbidden. finish records active -> finished with a nonempty completionMemo; close records finished -> closed after review. A state may be re-set to itself. Lists default to todo/active/finished, limit 25 (1..100); states=[] selects nothing. Copy version from get/list. get returns full evidence; linked scopes are opt-in with includeDesignScopes. Design links use targetType element, relationship, uml or mockup and an existing target id.";

pub const NOTE_QA: &'static str = "create_job stores a definition; run_jobs executes it. name and command must be nonempty. workingDirectory defaults to the project folder; relative paths resolve under it. shell defaults to the platform shell. timeoutSeconds defaults 120, allowed 1..86400. enabled defaults true. Lists return metadata; get_job/get_run return full evidence. Job lists default limit 25 (1..100); preserve query when following a cursor. Copy expectedVersion from job.version.";

pub const NOTE_QA_QUERY: &'static str = "query is an object, not a string. run_jobs requires it: {jobIds:[1]} selects matching enabled jobs; {} selects all enabled jobs. No matches is an error for execution. Check list_jobs before a broad run. Query filters combine with AND: jobIds is membership (an empty list matches nothing); states is any listed derived state (green, red, running, needs-rerun); tags, taskIds and designExternalIds must all be present on the job (empty lists impose no restriction). States and tags are case-insensitive. enabled filters definitions but run_jobs always excludes disabled jobs.";

pub const NOTE_MEMORY: &'static str = "get supports exact noteId/runId/taskId filters and a case-insensitive literal query. Historical notes are dated evidence; superseded notes are hidden unless includeSuperseded=true. Append only useful durable handovers, at most 1000 characters; runId defaults to operationId when omitted/null/blank. Retention is at most 20 notes and 12000 total characters; oldest notes are removed first. Only an authorized coordinator may replace the summary (at most 4000 characters) and supersede reviewed note ids, using memory.memoryVersion. update_rule changes optional project-specific instructions using memory.protocolVersion; an empty rule disables them.";

pub const NOTE_RULES: &'static str = "intend is exactly general, design or implementation. hook is exactly run.start, task.start, task.end or run.end. Call every lifecycle hook and apply each nonempty injectionPrompt even when rules is empty; rules and sections are metadata. status=empty means no instructions. Startup includes project-specific rules/context; shared Adashi instructions belong in agents_template.md. memoryContext defaults summary; protocolOnly omits the summary. update requires a full rule body and the rule version from list.";

pub const NOTE_INTENTS: &'static str = "publish creates/renews an expiring advisory marker, never a lock or write authority. agentRunId, resourceKind and resourceId must be nonempty; ttlSeconds is 1..86400. list returns live intents.";

pub const NOTE_GREP: &'static str = "Searches design, tasks and memory, not QA or rules. Pattern is case-insensitive; whitespace-separated terms are AND; quoted phrases are exact substrings. in:, file:, type:, state: and limit: filter; unknown keys are literal text. Empty text returns a top-layer overview. Pair file: with a search term. Results are bounded snippets: drill into design:<externalId> with design get_scope, task:<id> with tasks get, memory:<noteId> with memory get/noteId before acting.";

/// The operations that change something, for every tool but the design tool, whose writes
/// follow the document protocol instead.
pub open spec fn is_guarded_mutation(op: Seq<char>) -> bool {
    op == "save"@ || op == "set_element_descriptions"@ || op == "create"@ || op == "update"@ || op
        == "finish"@ || op == "close"@ || op == "delete"@ || op == "create_job"@ || op
        == "update_job"@ || op == "delete_job"@ || op == "run_jobs"@ || op == "append"@ || op
        == "update_rule"@
}

/// The notes specific to a tool and operation.
pub open spec fn tool_notes(tool: Seq<char>, op: Seq<char>) -> Seq<Seq<char>> {
    if tool == "adashi_design"@ {
        seq![NOTE_DESIGN@] + (if op == "set_element_descriptions"@ {
            seq![NOTE_DESCRIPTIONS@]
        } else {
            Seq::empty()
        }) + if op == "save"@ {
            seq![WRITE_PROTOCOL@, NOTE_SAVE_CHANGES@, NOTE_SAVE_UML@]
        } else {
            Seq::empty()
        }
    } else if tool == "adashi_tasks"@ {
        seq![NOTE_TASKS@]
    } else if tool == "adashi_qa"@ {
        seq![NOTE_QA@] + if op == "run_jobs"@ || op == "list_jobs"@ {
            seq![NOTE_QA_QUERY@]
        } else {
            Seq::empty()
        }
    } else if tool == "adashi_memory"@ {
        seq![NOTE_MEMORY@]
    } else if tool == "adashi_rules"@ {
        seq![NOTE_RULES@]
    } else if tool == "adashi_intents"@ {
        seq![NOTE_INTENTS@]
    } else if tool == "adashi_grep"@ {
        seq![NOTE_GREP@]
    } else {
        Seq::empty()
    }
}

/// The workflow notes of an operation's contract: how to read the schema, how to retry a
/// guarded mutation, and what the tool and operation expect.
pub open spec fn workflow_spec(tool: Seq<char>, op: Seq<char>) -> Seq<Seq<char>> {
    seq![NOTE_PARAMETERS@] + (if tool != "adashi_design"@ && is_guarded_mutation(op) {
        seq![NOTE_MUTATIONS@]
    } else {
        Seq::empty()
    }) + tool_notes(tool, op)
}

fn guarded_mutation(op: &str) -> (b: bool)
    ensures
        b == is_guarded_mutation(op@),
{
    str_eq(op, "save") || str_eq(op, "set_element_descriptions") || str_eq(op, "create") || str_eq(
        op,
        "update",
    ) || str_eq(op, "finish") || str_eq(op, "close") || str_eq(op, "delete") || str_eq(
        op,
        "create_job",
    ) || str_eq(op, "update_job") || str_eq(op, "delete_job") || str_eq(op, "run_jobs") || str_eq(
        op,
        "append",
    ) || str_eq(op, "update_rule")
}

/// The workflow notes of an operation's contract.
pub fn workflow(tool: &str, operation: &str) -> (r: Vec<&'static str>)
    ensures
        strs_view(r@) == workflow_spec(tool@, operation@),
{
    let mut notes: Vec<&'static str> = Vec::new();
    notes.push(NOTE_PARAMETERS);
    let design = str_eq(tool, "adashi_design");
    if !design && guarded_mutation(operation) {
        notes.push(NOTE_MUTATIONS);
    }
    let ghost head = strs_view(notes@);
    if design {
        notes.push(NOTE_DESIGN);
        if str_eq(operation, "set_element_descriptions") {
            notes.push(NOTE_DESCRIPTIONS);
        }
        if str_eq(operation, "save") {
            notes.push(WRITE_PROTOCOL);
            notes.push(NOTE_SAVE_CHANGES);
            notes.push(NOTE_SAVE_UML);
        }
    } else if str_eq(tool, "adashi_tasks") {
        notes.push(NOTE_TASKS);
    } else if str_eq(tool, "adashi_qa") {
        notes.push(NOTE_QA);
        if str_eq(operation, "run_jobs") || str_eq(operation, "list_jobs") {
            notes.push(NOTE_QA_QUERY);
        }
    } else if str_eq(tool, "adashi_memory") {
        notes.push(NOTE_MEMORY);
    } else if str_eq(tool, "adashi_rules") {
        notes.push(NOTE_RULES);
    } else if str_eq(tool, "adashi_intents") {
        notes.push(NOTE_INTENTS);
    } else if str_eq(tool, "adashi_grep") {
        notes.push(NOTE_GREP);
    }
    assert(strs_view(notes@) =~= workflow_spec(tool@, operation@));
    notes
}

// ---------------------------------------------------------------- pruning schema definitions

/// A schema definition and the local definitions it refers to.
#[derive(Clone, Debug)]
pub struct DefinitionRefs {
    pub name: String,
    pub refs: Vec<String>,
}

/// The definitions a definition refers to; an unknown name refers to none.
pub open spec fn def_refs(defs: Seq<DefinitionRefs>, name: Seq<char>) -> Seq<Seq<char>>
    decreases defs.len(),
{
    if defs.len() == 0 {
        Seq::empty()
    } else if defs[0].name@ == name {
        strings_view(defs[0].refs@)
    } else {
        def_refs(defs.drop_first(), name)
    }
}

/// Every definition in `s` refers only to definitions in `s`: nothing dangles.
pub open spec fn closed_under(defs: Seq<DefinitionRefs>, s: Set<Seq<char>>) -> bool {
    forall|n: Seq<char>, r: Seq<char>|
        #![trigger s.contains(n), def_refs(defs, n).contains(r)]
        s.contains(n) && def_refs(defs, n).contains(r) ==> s.contains(r)
}

/// `s` holds the roots and is closed.
pub open spec fn covers(defs: Seq<DefinitionRefs>, roots: Seq<Seq<char>>, s: Set<Seq<char>>) -> bool {
    roots.to_set().subset_of(s) && closed_under(defs, s)
}

/// Every reference that occurs anywhere: the roots' and every definition's.
pub open spec fn all_refs(defs: Seq<DefinitionRefs>) -> Seq<Seq<char>>
    decreases defs.len(),
{
    if defs.len() == 0 {
        Seq::empty()
    } else {
        strings_view(defs[0].refs@) + all_refs(defs.drop_first())
    }
}

proof fn lemma_refs_in_all(defs: Seq<DefinitionRefs>, n: Seq<char>, r: Seq<char>)
    requires
        def_refs(defs, n).contains(r),
    ensures
        all_refs(defs).contains(r),
    decreases defs.len(),
{
    if defs[0].name@ == n {
        let k = choose|k: int| 0 <= k < def_refs(defs, n).len() && def_refs(defs, n)[k] == r;
        assert(all_refs(defs)[k] == r);
    } else {
        lemma_refs_in_all(defs.drop_first(), n, r);
        let rest = all_refs(defs.drop_first());
        let k = choose|k: int| 0 <= k < rest.len() && rest[k] == r;
        assert(all_refs(defs)[strings_view(defs[0].refs@).len() + k] == r);
    }
}

fn refs_exec<'a>(defs: &'a [DefinitionRefs], name: &str) -> (r: &'a Vec<String>)
    requires
        exists|k: int| 0 <= k < defs@.len() && defs@[k].name@ == name@,
    ensures
        strings_view(r@) == def_refs(defs@, name@),
{
    let mut i: usize = 0;
    assert(defs@.skip(0) =~= defs@);
    while i < defs.len()
        invariant
            i <= defs@.len(),
            def_refs(defs@, name@) == def_refs(defs@.skip(i as int), name@),
            exists|k: int| i <= k < defs@.len() && defs@[k].name@ == name@,
        decreases defs.len() - i,
    {
        if str_eq(defs[i].name.as_str(), name) {
            return &defs[i].refs;
        }
        assert(defs@.skip(i as int).drop_first() =~= defs@.skip(i + 1));
        i += 1;
    }
    &defs[0].refs
}

fn has_def(defs: &[DefinitionRefs], name: &str) -> (b: bool)
    ensures
        b == exists|k: int| 0 <= k < defs@.len() && defs@[k].name@ == name@,
{
    let mut i: usize = 0;
    while i < defs.len()
        invariant
            i <= defs@.len(),
            forall|k: int| 0 <= k < i ==> defs@[k].name@ != name@,
        decreases defs.len() - i,
    {
        if str_eq(defs[i].name.as_str(), name) {
            return true;
        }
        i += 1;
    }
    false
}

proof fn lemma_no_def_no_refs(defs: Seq<DefinitionRefs>, name: Seq<char>)
    requires
        forall|k: int| 0 <= k < defs.len() ==> defs[k].name@ != name,
    ensures
        def_refs(defs, name) == Seq::<Seq<char>>::empty(),
    decreases defs.len(),
{
    if defs.len() > 0 {
        assert forall|k: int| 0 <= k < defs.drop_first().len() implies defs.drop_first()[k].name@ != name by {
            assert(defs.drop_first()[k] == defs[k + 1]);
        }
        lemma_no_def_no_refs(defs.drop_first(), name);
    }
}

/// The reached names: no name twice, every one drawn from the references that occur, the
/// roots among them, and all of them in any covering set.
pub open spec fn reach_ok(
    defs: Seq<DefinitionRefs>,
    roots: Seq<Seq<char>>,
    reached: Seq<Seq<char>>,
    done: int,
) -> bool {
    &&& reached.no_duplicates()
    &&& forall|x: Seq<char>| #[trigger] reached.contains(x) ==> (roots + all_refs(defs)).contains(x)
    &&& forall|t: Set<Seq<char>>| #[trigger] covers(defs, roots, t) ==> reached.to_set().subset_of(t)
    &&& forall|j: int, r: Seq<char>|
        #![trigger reached[j], def_refs(defs, reached[j]).contains(r)]
        0 <= j < done && def_refs(defs, reached[j]).contains(r) ==> reached.contains(r)
}

fn add_name(reached: &mut Vec<String>, x: &str)
    ensures
        strings_view(old(reached)@).contains(x@) ==> final(reached)@ == old(reached)@,
        !strings_view(old(reached)@).contains(x@) ==> strings_view(final(reached)@) == strings_view(
            old(reached)@,
        ).push(x@),
{
    let mut i: usize = 0;
    while i < reached.len()
        invariant
            i <= reached@.len(),
            forall|k: int| 0 <= k < i ==> reached@[k]@ != x@,
        decreases reached.len() - i,
    {
        if str_eq(reached[i].as_str(), x) {
            assert(strings_view(reached@)[i as int] == x@);
            return;
        }
        i += 1;
    }
    assert(!strings_view(reached@).contains(x@)) by {
        if strings_view(reached@).contains(x@) {
            let k = choose|k: int| 0 <= k < strings_view(reached@).len() && strings_view(reached@)[k] == x@;
            assert(reached@[k]@ == x@);
        }
    }
    let ghost before = strings_view(reached@);
    reached.push(owned(x));
    assert(strings_view(reached@) =~= before.push(x@));
}

/// The definitions reachable from the roots, following references until nothing new is
/// found: the least set that holds the roots and in which no reference dangles.
pub fn reachable_definitions(roots: &[String], definitions: &[DefinitionRefs]) -> (r: Vec<String>)
    ensures
        covers(definitions@, strings_view(roots@), strings_view(r@).to_set()),
        forall|t: Set<Seq<char>>| #[trigger]
            covers(definitions@, strings_view(roots@), t) ==> strings_view(r@).to_set().subset_of(t),
        strings_view(r@).no_duplicates(),
{
    let ghost defs = definitions@;
    let ghost rv = strings_view(roots@);
    let ghost universe = (rv + all_refs(defs)).to_set();
    proof {
        vstd::seq_lib::seq_to_set_is_finite(rv + all_refs(defs));
    }
    let mut reached: Vec<String> = Vec::new();
    let mut k: usize = 0;
    while k < roots.len()
        invariant
            k <= roots@.len(),
            rv == strings_view(roots@),
            defs == definitions@,
            reach_ok(defs, rv, strings_view(reached@), 0),
            forall|q: int| 0 <= q < k ==> strings_view(reached@).contains(#[trigger] rv[q]),
        decreases roots.len() - k,
    {
        let ghost before = strings_view(reached@);
        add_name(&mut reached, roots[k].as_str());
        proof {
            let now = strings_view(reached@);
            assert(rv[k as int] == roots@[k as int]@);
            assert((rv + all_refs(defs))[k as int] == rv[k as int]);
            if !before.contains(rv[k as int]) {
                assert forall|x: Seq<char>| #[trigger] now.contains(x) implies (rv + all_refs(defs)).contains(x) by {
                    if x != rv[k as int] {
                        let q = choose|q: int| 0 <= q < now.len() && now[q] == x;
                        assert(before[q] == x);
                        assert(before.contains(x));
                    } else {
                        assert((rv + all_refs(defs))[k as int] == x);
                    }
                }
                assert forall|t: Set<Seq<char>>| #[trigger] covers(defs, rv, t) implies now.to_set().subset_of(t) by {
                    assert(before.to_set().subset_of(t));
                    assert(rv.to_set().contains(rv[k as int]));
                    assert forall|x: Seq<char>| now.to_set().contains(x) implies t.contains(x) by {
                        if x != rv[k as int] {
                            let q = choose|q: int| 0 <= q < now.len() && now[q] == x;
                            assert(before[q] == x);
                            assert(before.to_set().contains(x));
                        }
                    }
                }
                assert forall|q: int| 0 <= q < k + 1 implies now.contains(#[trigger] rv[q]) by {
                    if q < k {
                        let w = choose|w: int| 0 <= w < before.len() && before[w] == rv[q];
                        assert(now[w] == rv[q]);
                    } else {
                        assert(now[before.len() as int] == rv[q]);
                    }
                }
            }
        }
        k += 1;
    }
    let mut i: usize = 0;
    while i < reached.len()
        invariant
            i <= reached@.len(),
            rv == strings_view(roots@),
            defs == definitions@,
            universe == (rv + all_refs(defs)).to_set(),
            universe.finite(),
            reach_ok(defs, rv, strings_view(reached@), i as int),
            forall|q: int| 0 <= q < rv.len() ==> strings_view(reached@).contains(#[trigger] rv[q]),
        decreases universe.len() - i,
    {
        proof {
            let rs = strings_view(reached@);
            assert(rs.to_set().subset_of(universe));
            vstd::set_lib::lemma_len_subset(rs.to_set(), universe);
            rs.unique_seq_to_set();
        }
        let name = reached[i].clone();
        let ghost nm = name@;
        assert(strings_view(reached@)[i as int] == nm);
        if has_def(definitions, name.as_str()) {
            let refs = refs_exec(definitions, name.as_str());
            let mut m: usize = 0;
            while m < refs.len()
                invariant
                    m <= refs@.len(),
                    i < reached@.len(),
                    rv == strings_view(roots@),
                    defs == definitions@,
                    strings_view(refs@) == def_refs(defs, nm),
                    strings_view(reached@)[i as int] == nm,
                    reach_ok(defs, rv, strings_view(reached@), i as int),
                    forall|q: int| 0 <= q < rv.len() ==> strings_view(reached@).contains(#[trigger] rv[q]),
                    forall|q: int| 0 <= q < m ==> strings_view(reached@).contains(#[trigger] strings_view(refs@)[q]),
                decreases refs.len() - m,
            {
                let ghost before = strings_view(reached@);
                let ghost x = strings_view(refs@)[m as int];
                assert(refs@[m as int]@ == x);
                add_name(&mut reached, refs[m].as_str());
                proof {
                    let now = strings_view(reached@);
                    assert(def_refs(defs, nm).contains(x));
                    if !before.contains(x) {
                        assert(now =~= before.push(x));
                        lemma_refs_in_all(defs, nm, x);
                        assert forall|y: Seq<char>| #[trigger] now.contains(y) implies (rv + all_refs(defs)).contains(y) by {
                            if y != x {
                                let q = choose|q: int| 0 <= q < now.len() && now[q] == y;
                                assert(before[q] == y);
                                assert(before.contains(y));
                            } else {
                                let q = choose|q: int| 0 <= q < all_refs(defs).len() && all_refs(defs)[q] == x;
                                assert((rv + all_refs(defs))[rv.len() + q] == x);
                            }
                        }
                        assert forall|t: Set<Seq<char>>| #[trigger] covers(defs, rv, t) implies now.to_set().subset_of(t) by {
                            assert(before.to_set().subset_of(t));
                            assert(before.to_set().contains(nm));
                            assert(t.contains(nm));
                            assert(t.contains(x));
                            assert forall|y: Seq<char>| now.to_set().contains(y) implies t.contains(y) by {
                                if y != x {
                                    let q = choose|q: int| 0 <= q < now.len() && now[q] == y;
                                    assert(before[q] == y);
                                    assert(before.to_set().contains(y));
                                }
                            }
                        }
                        assert forall|j: int, r: Seq<char>|
                            0 <= j < i && def_refs(defs, now[j]).contains(r) implies now.contains(r) by {
                            assert(now[j] == before[j]);
                            assert(before.contains(r));
                            let q = choose|q: int| 0 <= q < before.len() && before[q] == r;
                            assert(now[q] == r);
                        }
                        assert forall|q: int| 0 <= q < rv.len() implies now.contains(#[trigger] rv[q]) by {
                            assert(before.contains(rv[q]));
                            let w = choose|w: int| 0 <= w < before.len() && before[w] == rv[q];
                            assert(now[w] == rv[q]);
                        }
                        assert forall|q: int| 0 <= q < m + 1 implies now.contains(#[trigger] strings_view(refs@)[q]) by {
                            if q < m {
                                assert(before.contains(strings_view(refs@)[q]));
                                let w = choose|w: int| 0 <= w < before.len() && before[w] == strings_view(refs@)[q];
                                assert(now[w] == strings_view(refs@)[q]);
                            } else {
                                assert(now[before.len() as int] == x);
                            }
                        }
                        assert(now[i as int] == nm);
                    }
                }
                m += 1;
            }
            proof {
                let now = strings_view(reached@);
                assert forall|j: int, r: Seq<char>|
                    0 <= j < i + 1 && def_refs(defs, now[j]).contains(r) implies now.contains(r) by {
                    if j == i {
                        let q = choose|q: int| 0 <= q < def_refs(defs, nm).len() && def_refs(defs, nm)[q] == r;
                        assert(strings_view(refs@)[q] == r);
                    }
                }
            }
        } else {
            proof {
                lemma_no_def_no_refs(defs, nm);
            }
        }
        i += 1;
    }
    proof {
        let rs = strings_view(reached@);
        assert forall|q: int| 0 <= q < rv.len() implies rs.to_set().contains(#[trigger] rv[q]) by {}
        assert(rv.to_set().subset_of(rs.to_set()));
        assert forall|n: Seq<char>, r: Seq<char>|
            #![trigger rs.to_set().contains(n), def_refs(defs, n).contains(r)]
            rs.to_set().contains(n) && def_refs(defs, n).contains(r) implies rs.to_set().contains(r) by {
            let j = choose|j: int| 0 <= j < rs.len() && rs[j] == n;
            assert(def_refs(defs, rs[j]).contains(r));
        }
    }
    reached
}

/// The least set that holds the roots and in which no reference dangles.
pub open spec fn least_cover(defs: Seq<DefinitionRefs>, roots: Seq<Seq<char>>) -> Set<Seq<char>> {
    choose|s: Set<Seq<char>>|
        covers(defs, roots, s) && forall|t: Set<Seq<char>>| #[trigger] covers(defs, roots, t) ==> s.subset_of(t)
}

/// The definitions kept after pruning, by name, in their given order.
pub open spec fn kept_definitions(defs: Seq<DefinitionRefs>, roots: Seq<Seq<char>>) -> Seq<Seq<char>> {
    keep_names(defs, least_cover(defs, roots))
}

pub open spec fn keep_names(defs: Seq<DefinitionRefs>, s: Set<Seq<char>>) -> Seq<Seq<char>>
    decreases defs.len(),
{
    if defs.len() == 0 {
        Seq::empty()
    } else if s.contains(defs.last().name@) {
        keep_names(defs.drop_last(), s).push(defs.last().name@)
    } else {
        keep_names(defs.drop_last(), s)
    }
}

/// Keeps the definitions the schema reaches through its references, directly or through other
/// kept definitions, so that a filtered schema carries no dangling reference and nothing
/// unrelated.
pub fn prune_definitions(root_refs: &[String], definitions: &[DefinitionRefs]) -> (r: Vec<String>)
    ensures
        strings_view(r@) == kept_definitions(definitions@, strings_view(root_refs@)),
{
    let reached = reachable_definitions(root_refs, definitions);
    let ghost rs = strings_view(reached@).to_set();
    let ghost least = least_cover(definitions@, strings_view(root_refs@));
    proof {
        assert(covers(definitions@, strings_view(root_refs@), rs) && forall|t: Set<Seq<char>>| #[trigger]
            covers(definitions@, strings_view(root_refs@), t) ==> rs.subset_of(t));
        assert(covers(definitions@, strings_view(root_refs@), least));
        assert(rs.subset_of(least));
        assert(least.subset_of(rs));
        assert(least =~= rs);
    }
    let mut out: Vec<String> = Vec::new();
    let mut i: usize = 0;
    assert(definitions@.take(0) =~= Seq::<DefinitionRefs>::empty());
    while i < definitions.len()
        invariant
            i <= definitions@.len(),
            least == rs,
            rs == strings_view(reached@).to_set(),
            least == least_cover(definitions@, strings_view(root_refs@)),
            strings_view(out@) == keep_names(definitions@.take(i as int), least),
        decreases definitions.len() - i,
    {
        proof {
            assert(definitions@.take(i + 1).drop_last() =~= definitions@.take(i as int));
            assert(definitions@.take(i + 1).last() == definitions@[i as int]);
        }
        if id_named(&reached, definitions[i].name.as_str()) {
            let ghost before = strings_view(out@);
            out.push(owned(definitions[i].name.as_str()));
            assert(strings_view(out@) =~= before.push(definitions@[i as int].name@));
        }
        i += 1;
    }
    assert(definitions@.take(definitions@.len() as int) =~= definitions@);
    out
}

fn id_named(v: &Vec<String>, x: &str) -> (b: bool)
    ensures
        b == strings_view(v@).to_set().contains(x@),
{
    named(v, x)
}

} // verus!
