//! The rule-injection body: one executable prompt with addressable, content-versioned
//! sections.
//!
//! Each section names the exact UTF-8 byte range of the prompt that holds its body, and a
//! content version that changes whenever that body does.
use vstd::prelude::*;

use vstd::utf8::encode_utf8;

use crate::text::{
    blen, byte_len, chars_of, dec, lemma_blen_encode, owned, push_str_chars, string_of, trim,
    trim_chars,
};

verus! {

broadcast use vstd::string::group_string_axioms;

/// Characters of project memory the startup summary may carry in full.
pub const SUMMARY_BUDGET: usize = 2000;
/// Bytes of the design index a startup prompt may carry.
pub const DESIGN_INDEX_BUDGET: usize = 3000;

/// How much project memory a run-start body carries.
#[derive(Clone, Copy, Debug, Default, PartialEq, Eq, Structural)]
pub enum MemoryContext {
    #[default]
    Summary,
    ProtocolOnly,
}

/// A rule that applied, by id and version.
#[derive(Clone, Debug)]
pub struct RuleMetadata {
    pub id: i64,
    pub version: i64,
}

/// One addressable part of the injection prompt.
#[derive(Clone, Debug)]
pub struct Section {
    pub id: String,
    pub kind: String,
    /// Resource version where one exists; `content_version` identifies the exact projection.
    pub version: Option<i64>,
    pub content_version: String,
    /// UTF-8 byte offsets in the injection prompt; the end is exclusive.
    pub start_byte: u32,
    pub end_byte: u32,
}

/// The injection body for one hook.
#[derive(Clone, Debug)]
pub struct RuleInjectionResult {
    pub contract_version: u32,
    pub project_id: String,
    pub project_name: String,
    pub intend: String,
    pub hook: String,
    pub status: String,
    pub rules: Vec<RuleMetadata>,
    pub sections: Vec<Section>,
    pub injection_prompt: String,
}

// ---------------------------------------------------------------- content versions

pub const FNV_OFFSET: u64 = 0xcbf29ce484222325;
pub const FNV_PRIME: u64 = 0x100000001b3;

/// FNV-1a over a byte sequence.
pub open spec fn fnv1a(bs: Seq<u8>) -> u64
    decreases bs.len(),
{
    if bs.len() == 0 {
        FNV_OFFSET
    } else {
        (fnv1a(bs.drop_last()) ^ (bs.last() as u64)).wrapping_mul(FNV_PRIME)
    }
}

pub open spec fn hex_digit(d: nat) -> char {
    if d < 10 {
        (('0' as u32) + d) as char
    } else {
        (('a' as u32) + d - 10) as char
    }
}

/// The low `k` hexadecimal digits of `h`, most significant first, zero-padded.
pub open spec fn hex_low(h: nat, k: nat) -> Seq<char>
    decreases k,
{
    if k == 0 {
        Seq::empty()
    } else {
        hex_low(h / 16, (k - 1) as nat).push(hex_digit(h % 16))
    }
}

fn hex_low_exec(h: u64, k: usize) -> (r: Vec<char>)
    ensures
        r@ == hex_low(h as nat, k as nat),
    decreases k,
{
    if k == 0 {
        Vec::new()
    } else {
        let mut v = hex_low_exec(h / 16, k - 1);
        let d = (h % 16) as u8;
        let c = if d < 10 {
            (48u8 + d) as char
        } else {
            (87u8 + d) as char
        };
        proof {
            assert(c == hex_digit((h % 16) as nat));
        }
        v.push(c);
        v
    }
}

/// An exact-content cache key: stable across processes and platforms, not a security hash.
pub open spec fn content_version_spec(body: Seq<char>) -> Seq<char> {
    "v2-fnv1a64-"@ + hex_low(fnv1a(encode_utf8(body)) as nat, 16)
}

/// The content version of a body.
pub fn content_version(body: &str) -> (r: String)
    ensures
        r@ == content_version_spec(body@),
{
    let bytes = body.as_bytes();
    let mut hash: u64 = FNV_OFFSET;
    let mut i: usize = 0;
    while i < bytes.len()
        invariant
            i <= bytes@.len(),
            bytes@ == encode_utf8(body@),
            hash == fnv1a(bytes@.take(i as int)),
        decreases bytes.len() - i,
    {
        proof {
            assert(bytes@.take(i + 1).drop_last() =~= bytes@.take(i as int));
            assert(bytes@.take(i + 1).last() == bytes@[i as int]);
        }
        hash = (hash ^ (bytes[i] as u64)).wrapping_mul(FNV_PRIME);
        i += 1;
    }
    assert(bytes@.take(bytes@.len() as int) =~= bytes@);
    let digits = hex_low_exec(hash, 16);
    let mut s = owned("v2-fnv1a64-");
    crate::text::push_chars(&mut s, digits.as_slice());
    s
}

// ---------------------------------------------------------------- sections

/// The character content of a section.
pub struct SectionView {
    pub id: Seq<char>,
    pub kind: Seq<char>,
    pub version: Option<i64>,
    pub content_version: Seq<char>,
    pub start_byte: u32,
    pub end_byte: u32,
}

pub open spec fn section_view(s: Section) -> SectionView {
    SectionView {
        id: s.id@,
        kind: s.kind@,
        version: s.version,
        content_version: s.content_version@,
        start_byte: s.start_byte,
        end_byte: s.end_byte,
    }
}

pub open spec fn section_views(ss: Seq<Section>) -> Seq<SectionView> {
    ss.map_values(|s: Section| section_view(s))
}

/// Bodies are separated by a blank line.
pub open spec fn separator(prompt: Seq<char>) -> Seq<char> {
    if prompt.len() > 0 {
        "\n\n"@
    } else {
        Seq::empty()
    }
}

pub proof fn lemma_encode_append(a: Seq<char>, b: Seq<char>)
    ensures
        encode_utf8(a + b) == encode_utf8(a) + encode_utf8(b),
    decreases a.len(),
{
    if a.len() == 0 {
        assert(a + b =~= b);
        assert(encode_utf8(a) =~= Seq::<u8>::empty());
        assert(encode_utf8(a) + encode_utf8(b) =~= encode_utf8(b));
    } else {
        lemma_encode_append(a.drop_first(), b);
        assert((a + b).drop_first() =~= a.drop_first() + b);
        assert((a + b)[0] == a[0]);
        assert(encode_utf8(a + b) =~= encode_utf8(a) + encode_utf8(b));
    }
}

/// The character content of an injection body.
pub struct InjectionView {
    pub contract_version: u32,
    pub project_id: Seq<char>,
    pub project_name: Seq<char>,
    pub intend: Seq<char>,
    pub hook: Seq<char>,
    pub status: Seq<char>,
    pub rules: Seq<(i64, i64)>,
    pub sections: Seq<SectionView>,
    pub prompt: Seq<char>,
}

pub open spec fn injection_view(r: RuleInjectionResult) -> InjectionView {
    InjectionView {
        contract_version: r.contract_version,
        project_id: r.project_id@,
        project_name: r.project_name@,
        intend: r.intend@,
        hook: r.hook@,
        status: r.status@,
        rules: r.rules@.map_values(|m: RuleMetadata| (m.id, m.version)),
        sections: section_views(r.sections@),
        prompt: r.injection_prompt@,
    }
}

/// What appending one section does to a body: nothing for a blank body; otherwise the trimmed
/// body follows a blank line, and the section records its byte range and content version.
pub open spec fn push_spec(
    v: InjectionView,
    id: Seq<char>,
    kind: Seq<char>,
    version: Option<i64>,
    body: Seq<char>,
) -> InjectionView {
    let t = trim(body);
    if t.len() == 0 {
        v
    } else {
        let head = v.prompt + separator(v.prompt);
        let prompt = head + t;
        InjectionView {
            status: "apply"@,
            sections: v.sections.push(
                SectionView {
                    id,
                    kind,
                    version,
                    content_version: content_version_spec(t),
                    start_byte: blen(head) as u32,
                    end_byte: blen(prompt) as u32,
                },
            ),
            prompt,
            ..v
        }
    }
}

/// The bytes of `head + body` from the end of `head` on are exactly the bytes of `body`.
pub proof fn lemma_section_range(head: Seq<char>, body: Seq<char>)
    ensures
        encode_utf8(head + body).subrange(blen(head) as int, blen(head + body) as int)
            == encode_utf8(body),
{
    lemma_encode_append(head, body);
    lemma_blen_encode(head);
    lemma_blen_encode(head + body);
    assert(encode_utf8(head + body).subrange(blen(head) as int, blen(head + body) as int)
        =~= encode_utf8(body));
}

impl RuleInjectionResult {
    /// An empty body for one hook of one project.
    pub fn new(project_id: String, project_name: String, intend: &str, hook: &str) -> (r: RuleInjectionResult)
        ensures
            r.contract_version == 2,
            r.project_id@ == project_id@,
            r.project_name@ == project_name@,
            r.intend@ == intend@,
            r.hook@ == hook@,
            r.status@ == "empty"@,
            r.rules@.len() == 0,
            r.sections@.len() == 0,
            r.injection_prompt@.len() == 0,
    {
        RuleInjectionResult {
            contract_version: 2,
            project_id,
            project_name,
            intend: owned(intend),
            hook: owned(hook),
            status: owned("empty"),
            rules: Vec::new(),
            sections: Vec::new(),
            injection_prompt: String::new(),
        }
    }

    /// Appends one section. A blank body adds nothing; otherwise the trimmed body follows a
    /// blank line, and the section records its exact byte range and content version.
    pub fn push(&mut self, id: &str, kind: &str, version: Option<i64>, body: &str)
        ensures
            injection_view(*final(self)) == push_spec(injection_view(*old(self)), id@, kind@, version, body@),
            trim(body@).len() > 0 ==> {
                let head = old(self).injection_prompt@ + separator(old(self).injection_prompt@);
                let prompt = head + trim(body@);
                blen(prompt) <= u32::MAX ==> encode_utf8(prompt).subrange(
                    blen(head) as int,
                    blen(prompt) as int,
                ) == encode_utf8(trim(body@))
            },
    {
        let v = chars_of(body);
        let t = trim_chars(v.as_slice());
        if t.len() == 0 {
            return;
        }
        let trimmed = string_of(t.as_slice());
        if !self.injection_prompt.as_str().is_empty() {
            push_str_chars(&mut self.injection_prompt, "\n\n");
        }
        let ghost head = self.injection_prompt@;
        let start = byte_len(self.injection_prompt.as_str());
        push_str_chars(&mut self.injection_prompt, trimmed.as_str());
        let end = byte_len(self.injection_prompt.as_str());
        let section = Section {
            id: owned(id),
            kind: owned(kind),
            version,
            content_version: content_version(trimmed.as_str()),
            start_byte: start as u32,
            end_byte: end as u32,
        };
        let ghost sv = section_view(section);
        let ghost before = section_views(self.sections@);
        self.sections.push(section);
        self.status = owned("apply");
        proof {
            assert(section_views(self.sections@) =~= before.push(sv));
            lemma_section_range(head, trimmed@);
            assert(injection_view(*self) =~= push_spec(injection_view(*old(self)), id@, kind@, version, body@));
        }
    }
}

// ---------------------------------------------------------------- run-start bodies

/// Whether a hook carries project memory and the design index.
pub open spec fn is_run_start(hook: Seq<char>) -> bool {
    hook == "run.start"@
}

/// The memory section body: the summary in full when it fits the startup budget, a pointer
/// to it when it does not, and a note when none is recorded.
pub open spec fn memory_body_spec(memory: Seq<char>) -> Seq<char> {
    let summary = if trim(memory).len() == 0 {
        "No current summary is recorded."@
    } else if memory.len() <= SUMMARY_BUDGET {
        "Current summary:\n"@ + trim(memory)
    } else {
        "Current summary omitted in full: exceeds the 2000-character startup budget. Retrieve it with adashi_memory operation get before work that needs project constraints."@
    };
    "# Project memory\n"@ + summary
        + "\nHistorical handovers are not current state and are not injected. Use adashi_memory operation get with query, runId or taskId when relevant; superseded notes require includeSuperseded=true."@
}

/// The memory section body.
pub fn memory_body(memory: &str) -> (r: String)
    ensures
        r@ == memory_body_spec(memory@),
{
    let v = chars_of(memory);
    let t = trim_chars(v.as_slice());
    let mut s = owned("# Project memory\n");
    if t.len() == 0 {
        push_str_chars(&mut s, "No current summary is recorded.");
    } else if v.len() <= SUMMARY_BUDGET {
        push_str_chars(&mut s, "Current summary:\n");
        crate::text::push_chars(&mut s, t.as_slice());
    } else {
        push_str_chars(
            &mut s,
            "Current summary omitted in full: exceeds the 2000-character startup budget. Retrieve it with adashi_memory operation get before work that needs project constraints.",
        );
    }
    push_str_chars(
        &mut s,
        "\nHistorical handovers are not current state and are not injected. Use adashi_memory operation get with query, runId or taskId when relevant; superseded notes require includeSuperseded=true.",
    );
    s
}

// ---------------------------------------------------------------- the design index

/// One character inside a JSON string literal: `"` and `\` are escaped, control characters
/// below U+0020 take the short forms `\b \t \n \f \r` where JSON has them and `\u00xx` with
/// lowercase hex digits otherwise, and every other character is written as itself.
pub open spec fn json_escape_char(c: char) -> Seq<char> {
    let n = c as u32;
    if c == '"' {
        seq!['\\', '"']
    } else if c == '\\' {
        seq!['\\', '\\']
    } else if n == 8 {
        seq!['\\', 'b']
    } else if n == 9 {
        seq!['\\', 't']
    } else if n == 10 {
        seq!['\\', 'n']
    } else if n == 12 {
        seq!['\\', 'f']
    } else if n == 13 {
        seq!['\\', 'r']
    } else if n < 32 {
        seq!['\\', 'u', '0', '0', hex_digit((n / 16) as nat), hex_digit((n % 16) as nat)]
    } else {
        seq![c]
    }
}

/// The characters of a string, each escaped for a JSON string literal.
pub open spec fn json_escape(s: Seq<char>) -> Seq<char>
    decreases s.len(),
{
    if s.len() == 0 {
        Seq::empty()
    } else {
        json_escape(s.drop_last()) + json_escape_char(s.last())
    }
}

/// What `serde_json::to_string` makes of an optional string: a JSON string literal, or `null`.
pub open spec fn json_text_of(value: Option<Seq<char>>) -> Seq<char> {
    match value {
        Some(s) => seq!['"'] + json_escape(s) + seq!['"'],
        None => "null"@,
    }
}

/// `serde_json::to_string` of an optional string slice: `null` for `None`, as serde_json writes
/// a unit, and otherwise the string in quotes, escaped as serde_json's compact formatter
/// escapes it.
#[verifier::external_body]
pub(crate) fn json_text(value: Option<&str>) -> (r: String)
    ensures
        r@ == json_text_of(
            match value {
                Some(s) => Some(s@),
                None => None,
            },
        ),
{
    serde_json::to_string(&value).unwrap_or_default()
}

/// One element as the design index lists it.
#[derive(Clone, Debug)]
pub struct IndexRow {
    pub external_id: String,
    pub parent_external_id: Option<String>,
    pub element_type: String,
    pub name: String,
    pub version: i64,
}

pub open spec fn index_head() -> Seq<char> {
    "# Formal design index\nRetrieve relevant guidance with adashi_design operations get_bindings(files/symbols), get_scope(elementId) or get_by_ids(ids). Use the search operation(query) for entries absent here. UML types: class, sequence, flow, state; UI mockups are separate.\n"@
}

pub open spec fn index_footer() -> Seq<char> {
    "\nIndex only: descriptions, relationships, artifacts, bindings and source require explicit retrieval."@
}

/// One index line; ids, names and parents are JSON-quoted so embedded newlines cannot become
/// index entries.
pub open spec fn index_line(r: IndexRow) -> Seq<char> {
    "\n- "@ + json_text_of(Some(r.external_id@)) + " "@ + r.element_type@ + " "@ + json_text_of(
        Some(r.name@),
    ) + " parent="@ + json_text_of(
        match r.parent_external_id {
            Some(p) => Some(p@),
            None => None,
        },
    ) + " v"@ + crate::text::signed_dec(r.version as int)
}

/// Takes every line that still leaves room for the footer and the count; a line that does not
/// fit is skipped and later, shorter ones are still considered.
pub open spec fn index_take(rows: Seq<IndexRow>, out: Seq<char>) -> (Seq<char>, nat)
    decreases rows.len(),
{
    if rows.len() == 0 {
        (out, 0)
    } else {
        let line = index_line(rows[0]);
        if blen(out) + blen(line) + blen(index_footer()) + 100 > DESIGN_INDEX_BUDGET {
            index_take(rows.drop_first(), out)
        } else {
            let r = index_take(rows.drop_first(), out + line);
            (r.0, r.1 + 1)
        }
    }
}

pub open spec fn design_index_spec(rows: Seq<IndexRow>, total: i64) -> Seq<char> {
    let r = index_take(rows, index_head());
    r.0 + "\nShowing "@ + dec(r.1) + " of "@ + crate::text::signed_dec(total as int) + " elements."@
        + index_footer()
}

/// The metadata-only design index of a run-start body.
pub fn design_index_text(rows: &[IndexRow], total: i64) -> (r: String)
    ensures
        r@ == design_index_spec(rows@, total),
        blen(r@) <= DESIGN_INDEX_BUDGET,
{
    let count = rows.len();
    proof {
        law_design_index_within_budget(rows@, total);
    }
    let mut out = owned(
        "# Formal design index\nRetrieve relevant guidance with adashi_design operations get_bindings(files/symbols), get_scope(elementId) or get_by_ids(ids). Use the search operation(query) for entries absent here. UML types: class, sequence, flow, state; UI mockups are separate.\n",
    );
    let footer = "\nIndex only: descriptions, relationships, artifacts, bindings and source require explicit retrieval.";
    let footer_bytes = byte_len(footer);
    let mut out_bytes = byte_len(out.as_str());
    let ghost head = out@;
    let mut included: usize = 0;
    let mut i: usize = 0;
    assert(rows@.skip(0) =~= rows@);
    proof {
        reveal_strlit(
            "# Formal design index\nRetrieve relevant guidance with adashi_design operations get_bindings(files/symbols), get_scope(elementId) or get_by_ids(ids). Use the search operation(query) for entries absent here. UML types: class, sequence, flow, state; UI mockups are separate.\n",
        );
        reveal_strlit(
            "\nIndex only: descriptions, relationships, artifacts, bindings and source require explicit retrieval.",
        );
        crate::text::lemma_blen_bounds(head);
        crate::text::lemma_blen_bounds(index_footer());
    }
    while i < rows.len()
        invariant
            i <= rows@.len(),
            included <= i,
            out_bytes == blen(out@),
            footer_bytes == blen(index_footer()),
            out_bytes + footer_bytes + 100 <= 3000,
            footer@ == index_footer(),
            head == index_head(),
            ({
                let whole = index_take(rows@, head);
                let rest = index_take(rows@.skip(i as int), out@);
                whole == (rest.0, (rest.1 + included) as nat)
            }),
        decreases rows.len() - i,
    {
        let ghost rest = rows@.skip(i as int);
        proof {
            assert(rest[0] == rows@[i as int]);
            assert(rest.drop_first() =~= rows@.skip(i + 1));
        }
        let row = &rows[i];
        let mut line = owned("\n- ");
        let id = json_text(Some(row.external_id.as_str()));
        push_str_chars(&mut line, id.as_str());
        push_str_chars(&mut line, " ");
        push_str_chars(&mut line, row.element_type.as_str());
        push_str_chars(&mut line, " ");
        let name = json_text(Some(row.name.as_str()));
        push_str_chars(&mut line, name.as_str());
        push_str_chars(&mut line, " parent=");
        let parent = json_text(
            match &row.parent_external_id {
                Some(p) => Some(p.as_str()),
                None => None,
            },
        );
        push_str_chars(&mut line, parent.as_str());
        push_str_chars(&mut line, " v");
        let v = crate::text::signed_decimal(row.version);
        crate::text::push_chars(&mut line, v.as_slice());
        proof {
            assert(line@ =~= index_line(rows@[i as int]));
        }
        let line_bytes = byte_len(line.as_str());
        if out_bytes + line_bytes + footer_bytes + 100 <= 3000 {
            let ghost before = out@;
            push_str_chars(&mut out, line.as_str());
            proof {
                crate::text::lemma_blen_append(before, line@);
            }
            out_bytes = out_bytes + line_bytes;
            included += 1;
        }
        i += 1;
    }
    proof {
        assert(rows@.skip(i as int).len() == 0);
    }
    push_str_chars(&mut out, "\nShowing ");
    crate::text::push_dec(&mut out, included);
    push_str_chars(&mut out, " of ");
    let t = crate::text::signed_decimal(total);
    crate::text::push_chars(&mut out, t.as_slice());
    push_str_chars(&mut out, " elements.");
    push_str_chars(&mut out, footer);
    out
}

proof fn lemma_index_take(rows: Seq<IndexRow>, out: Seq<char>)
    requires
        blen(out) + blen(index_footer()) + 100 <= DESIGN_INDEX_BUDGET,
    ensures
        blen(index_take(rows, out).0) + blen(index_footer()) + 100 <= DESIGN_INDEX_BUDGET,
        index_take(rows, out).1 <= rows.len(),
    decreases rows.len(),
{
    if rows.len() > 0 {
        let line = index_line(rows[0]);
        if blen(out) + blen(line) + blen(index_footer()) + 100 > DESIGN_INDEX_BUDGET {
            lemma_index_take(rows.drop_first(), out);
        } else {
            crate::text::lemma_blen_append(out, line);
            lemma_index_take(rows.drop_first(), out + line);
        }
    }
}

proof fn lemma_signed_dec_short(n: i64)
    ensures
        crate::text::signed_dec(n as int).len() <= 20,
        blen(crate::text::signed_dec(n as int)) == crate::text::signed_dec(n as int).len(),
{
    assert(crate::text::pow10(19) == 10000000000000000000nat) by {
        reveal_with_fuel(crate::text::pow10, 20);
    }
    if n < 0 {
        let m = (-(n as int)) as nat;
        crate::text::lemma_dec_len_bound(m, 19);
        crate::text::lemma_blen_dec(m);
        crate::text::lemma_blen_append(seq!['-'], dec(m));
        assert(blen(seq!['-']) == 1) by {
            reveal_with_fuel(blen, 2);
        }
    } else {
        crate::text::lemma_dec_len_bound(n as nat, 19);
        crate::text::lemma_blen_dec(n as nat);
    }
}

/// Law: the design index of a run-start body never exceeds its budget, however many elements
/// the model holds.
pub proof fn law_design_index_within_budget(rows: Seq<IndexRow>, total: i64)
    requires
        rows.len() <= usize::MAX,
    ensures
        blen(design_index_spec(rows, total)) <= DESIGN_INDEX_BUDGET,
{
    reveal_strlit(
        "# Formal design index\nRetrieve relevant guidance with adashi_design operations get_bindings(files/symbols), get_scope(elementId) or get_by_ids(ids). Use the search operation(query) for entries absent here. UML types: class, sequence, flow, state; UI mockups are separate.\n",
    );
    reveal_strlit(
        "\nIndex only: descriptions, relationships, artifacts, bindings and source require explicit retrieval.",
    );
    crate::text::lemma_blen_bounds(index_head());
    crate::text::lemma_blen_bounds(index_footer());
    lemma_index_take(rows, index_head());
    let r = index_take(rows, index_head());
    crate::text::lemma_dec_len_usize(r.1 as usize);
    crate::text::lemma_blen_dec(r.1);
    lemma_signed_dec_short(total);
    let a = "\nShowing "@;
    let b = " of "@;
    let c = " elements."@;
    reveal_strlit("\nShowing ");
    reveal_strlit(" of ");
    reveal_strlit(" elements.");
    assert(blen(a) == 9 && blen(b) == 4 && blen(c) == 10) by {
        reveal_with_fuel(blen, 11);
    }
    let t = crate::text::signed_dec(total as int);
    crate::text::lemma_blen_append(r.0, a);
    crate::text::lemma_blen_append(r.0 + a, dec(r.1));
    crate::text::lemma_blen_append(r.0 + a + dec(r.1), b);
    crate::text::lemma_blen_append(r.0 + a + dec(r.1) + b, t);
    crate::text::lemma_blen_append(r.0 + a + dec(r.1) + b + t, c);
    crate::text::lemma_blen_append(r.0 + a + dec(r.1) + b + t + c, index_footer());
}

// ---------------------------------------------------------------- assembling a body

/// A rule that applies to the hook, as loaded.
#[derive(Clone, Debug)]
pub struct AppliedRule {
    pub id: i64,
    pub version: i64,
    pub prompt: String,
}

/// The project memory a run-start body draws on, as loaded.
#[derive(Clone, Debug)]
pub struct MemoryRecord {
    pub rule: String,
    pub protocol_version: i64,
    pub memory: String,
    pub memory_version: i64,
}

/// The fixed prompt a run-start body of this intend carries, if any.
pub open spec fn fixed_hook_key_spec(intend: Seq<char>) -> Option<Seq<char>> {
    if intend == "design"@ {
        Some(crate::fixed_hooks::DESIGN_AUTHORING_HOOK_KEY@)
    } else if intend == "implementation"@ {
        Some(crate::fixed_hooks::IMPLEMENTATION_GUIDANCE_HOOK_KEY@)
    } else {
        None
    }
}

/// The key of the fixed prompt a run-start body of this intend carries, if any.
pub fn fixed_hook_key(intend: &str) -> (r: Option<&'static str>)
    ensures
        match r {
            Some(k) => fixed_hook_key_spec(intend@) == Some(k@),
            None => fixed_hook_key_spec(intend@) is None,
        },
{
    let v = chars_of(intend);
    if crate::text::eq_lit(v.as_slice(), "design") {
        Some(crate::fixed_hooks::DESIGN_AUTHORING_HOOK_KEY)
    } else if crate::text::eq_lit(v.as_slice(), "implementation") {
        Some(crate::fixed_hooks::IMPLEMENTATION_GUIDANCE_HOOK_KEY)
    } else {
        None
    }
}

/// Whether a hook's body carries project memory and the design index.
pub fn is_run_start_hook(hook: &str) -> (b: bool)
    ensures
        b == is_run_start(hook@),
{
    let v = chars_of(hook);
    crate::text::eq_lit(v.as_slice(), "run.start")
}

/// Appending the rules: one section and one metadata entry per rule, in order.
pub open spec fn rules_fold(v: InjectionView, rules: Seq<AppliedRule>) -> InjectionView
    decreases rules.len(),
{
    if rules.len() == 0 {
        v
    } else {
        let before = rules_fold(v, rules.drop_last());
        let r = rules.last();
        let pushed = push_spec(
            before,
            "rule:"@ + crate::text::signed_dec(r.id as int),
            "rule"@,
            Some(r.version),
            r.prompt@,
        );
        InjectionView { rules: pushed.rules.push((r.id, r.version)), ..pushed }
    }
}

pub open spec fn new_view(project_id: Seq<char>, project_name: Seq<char>, intend: Seq<char>, hook: Seq<char>) -> InjectionView {
    InjectionView {
        contract_version: 2,
        project_id,
        project_name,
        intend,
        hook,
        status: "empty"@,
        rules: Seq::empty(),
        sections: Seq::empty(),
        prompt: Seq::empty(),
    }
}

/// The body for one hook: the applicable rules, and for a run start the memory protocol, the
/// memory summary unless only the protocol was asked for, and for design or implementation
/// runs the fixed prompt (when the project has one) and the design index.
pub open spec fn assemble_spec(
    project_id: Seq<char>,
    project_name: Seq<char>,
    intend: Seq<char>,
    hook: Seq<char>,
    memory_context: MemoryContext,
    rules: Seq<AppliedRule>,
    memory: MemoryRecord,
    fixed_prompt: Option<(i64, Seq<char>)>,
    design_index: Seq<char>,
) -> InjectionView {
    let v1 = rules_fold(new_view(project_id, project_name, intend, hook), rules);
    if !is_run_start(hook) {
        v1
    } else {
        let v2 = push_spec(v1, "memory.protocol"@, "protocol"@, Some(memory.protocol_version), memory.rule@);
        let v3 = if memory_context == MemoryContext::Summary {
            push_spec(v2, "memory.summary"@, "memory"@, Some(memory.memory_version), memory_body_spec(memory.memory@))
        } else {
            v2
        };
        match fixed_hook_key_spec(intend) {
            Some(key) => {
                let v4 = match fixed_prompt {
                    Some((version, prompt)) => push_spec(v3, key, "fixedPrompt"@, Some(version), prompt),
                    None => v3,
                };
                push_spec(v4, "design.index"@, "designIndex"@, None, design_index)
            },
            None => v3,
        }
    }
}

fn push_rules(result: &mut RuleInjectionResult, rules: &[AppliedRule])
    ensures
        injection_view(*final(result)) == rules_fold(injection_view(*old(result)), rules@),
{
    let ghost start = injection_view(*result);
    let mut i: usize = 0;
    assert(rules@.take(0) =~= Seq::<AppliedRule>::empty());
    while i < rules.len()
        invariant
            i <= rules@.len(),
            injection_view(*result) == rules_fold(start, rules@.take(i as int)),
        decreases rules.len() - i,
    {
        proof {
            assert(rules@.take(i + 1).drop_last() =~= rules@.take(i as int));
            assert(rules@.take(i + 1).last() == rules@[i as int]);
        }
        let rule = &rules[i];
        let mut id = owned("rule:");
        let d = crate::text::signed_decimal(rule.id);
        crate::text::push_chars(&mut id, d.as_slice());
        result.push(id.as_str(), "rule", Some(rule.version), rule.prompt.as_str());
        let ghost mid = injection_view(*result);
        result.rules.push(RuleMetadata { id: rule.id, version: rule.version });
        proof {
            assert(result.rules@.map_values(|m: RuleMetadata| (m.id, m.version)) =~= mid.rules.push(
                (rule.id, rule.version),
            ));
            assert(injection_view(*result) == InjectionView { rules: mid.rules.push((rule.id, rule.version)), ..mid });
        }
        i += 1;
    }
    assert(rules@.take(rules@.len() as int) =~= rules@);
}

/// Assembles the injection body for one hook from what was loaded.
pub fn assemble_injection(
    project_id: String,
    project_name: String,
    intend: &str,
    hook: &str,
    memory_context: MemoryContext,
    rules: &[AppliedRule],
    memory: &MemoryRecord,
    fixed_prompt: Option<(i64, &str)>,
    design_index: &str,
) -> (r: RuleInjectionResult)
    ensures
        injection_view(r) == assemble_spec(
            project_id@,
            project_name@,
            intend@,
            hook@,
            memory_context,
            rules@,
            *memory,
            match fixed_prompt {
                Some((v, p)) => Some((v, p@)),
                None => None,
            },
            design_index@,
        ),
{
    let mut result = RuleInjectionResult::new(project_id, project_name, intend, hook);
    proof {
        let v = injection_view(result);
        assert(v.rules =~= Seq::<(i64, i64)>::empty());
        assert(v.sections =~= Seq::<SectionView>::empty());
        assert(v.prompt =~= Seq::<char>::empty());
        assert(v == new_view(project_id@, project_name@, intend@, hook@));
    }
    push_rules(&mut result, rules);
    if !is_run_start_hook(hook) {
        return result;
    }
    result.push("memory.protocol", "protocol", Some(memory.protocol_version), memory.rule.as_str());
    if memory_context == MemoryContext::Summary {
        let body = memory_body(memory.memory.as_str());
        result.push("memory.summary", "memory", Some(memory.memory_version), body.as_str());
    }
    if let Some(key) = fixed_hook_key(intend) {
        if let Some((version, prompt)) = fixed_prompt {
            result.push(key, "fixedPrompt", Some(version), prompt);
        }
        result.push("design.index", "designIndex", None, design_index);
    }
    result
}


// ---------------------------------------------------------------- laws of the body

pub open spec fn has_section(v: InjectionView, id: Seq<char>) -> bool {
    exists|i: int| 0 <= i < v.sections.len() && (#[trigger] v.sections[i]).id == id
}

proof fn lemma_push_keeps_absent(v: InjectionView, id: Seq<char>, kind: Seq<char>, version: Option<i64>, body: Seq<char>, x: Seq<char>)
    requires
        !has_section(v, x),
        id != x,
    ensures
        !has_section(push_spec(v, id, kind, version, body), x),
{
    let w = push_spec(v, id, kind, version, body);
    if trim(body).len() > 0 {
        assert forall|i: int| 0 <= i < w.sections.len() implies (#[trigger] w.sections[i]).id != x by {
            if i < v.sections.len() {
                assert(w.sections[i] == v.sections[i]);
            }
        }
    }
}

proof fn lemma_push_keeps_present(v: InjectionView, id: Seq<char>, kind: Seq<char>, version: Option<i64>, body: Seq<char>, x: Seq<char>)
    requires
        has_section(v, x),
    ensures
        has_section(push_spec(v, id, kind, version, body), x),
{
    let w = push_spec(v, id, kind, version, body);
    let i = choose|i: int| 0 <= i < v.sections.len() && (#[trigger] v.sections[i]).id == x;
    if trim(body).len() > 0 {
        assert(w.sections[i] == v.sections[i]);
    }
}

proof fn lemma_rules_never_memory(v: InjectionView, rules: Seq<AppliedRule>)
    requires
        !has_section(v, "memory.summary"@),
    ensures
        !has_section(rules_fold(v, rules), "memory.summary"@),
    decreases rules.len(),
{
    if rules.len() > 0 {
        lemma_rules_never_memory(v, rules.drop_last());
        let before = rules_fold(v, rules.drop_last());
        let r = rules.last();
        let id = "rule:"@ + crate::text::signed_dec(r.id as int);
        reveal_strlit("rule:");
        reveal_strlit("memory.summary");
        assert(id[0] == 'r');
        assert(id != "memory.summary"@);
        lemma_push_keeps_absent(before, id, "rule"@, Some(r.version), r.prompt@, "memory.summary"@);
    }
}

proof fn lemma_trim_keeps_leading(s: Seq<char>)
    requires
        s.len() > 0,
        !is_ws_char(s[0]),
    ensures
        trim(s).len() > 0,
{
    assert(crate::text::trim_start(s) == s);
    lemma_trim_end_nonempty(s);
}

spec fn is_ws_char(c: char) -> bool {
    crate::text::is_ws(c)
}

proof fn lemma_trim_end_nonempty(s: Seq<char>)
    requires
        s.len() > 0,
        !crate::text::is_ws(s[0]),
    ensures
        crate::text::trim_end(s).len() > 0,
    decreases s.len(),
{
    if s.len() > 1 && crate::text::is_ws(s.last()) {
        assert(s.drop_last()[0] == s[0]);
        lemma_trim_end_nonempty(s.drop_last());
    }
}

/// Law: a body asked for the memory protocol only never carries the memory summary.
pub proof fn law_protocol_only_has_no_summary(
    project_id: Seq<char>,
    project_name: Seq<char>,
    intend: Seq<char>,
    hook: Seq<char>,
    rules: Seq<AppliedRule>,
    memory: MemoryRecord,
    fixed_prompt: Option<(i64, Seq<char>)>,
    design_index: Seq<char>,
)
    ensures
        !has_section(
            assemble_spec(
                project_id,
                project_name,
                intend,
                hook,
                MemoryContext::ProtocolOnly,
                rules,
                memory,
                fixed_prompt,
                design_index,
            ),
            "memory.summary"@,
        ),
{
    let x = "memory.summary"@;
    let v0 = new_view(project_id, project_name, intend, hook);
    lemma_rules_never_memory(v0, rules);
    let v1 = rules_fold(v0, rules);
    reveal_strlit("memory.summary");
    reveal_strlit("memory.protocol");
    reveal_strlit("design.index");
    reveal_strlit("design.run.start.authoring");
    reveal_strlit("implementation.run.start.design-guide");
    assert("memory.protocol"@[7] != x[7]);
    assert("design.index"@[0] != x[0]);
    assert(crate::fixed_hooks::DESIGN_AUTHORING_HOOK_KEY@[0] != x[0]);
    assert(crate::fixed_hooks::IMPLEMENTATION_GUIDANCE_HOOK_KEY@[0] != x[0]);
    if is_run_start(hook) {
        let v2 = push_spec(v1, "memory.protocol"@, "protocol"@, Some(memory.protocol_version), memory.rule@);
        lemma_push_keeps_absent(v1, "memory.protocol"@, "protocol"@, Some(memory.protocol_version), memory.rule@, x);
        match fixed_hook_key_spec(intend) {
            Some(key) => {
                let v4 = match fixed_prompt {
                    Some((version, prompt)) => {
                        lemma_push_keeps_absent(v2, key, "fixedPrompt"@, Some(version), prompt, x);
                        push_spec(v2, key, "fixedPrompt"@, Some(version), prompt)
                    },
                    None => v2,
                };
                lemma_push_keeps_absent(v4, "design.index"@, "designIndex"@, None, design_index, x);
            },
            None => {},
        }
    }
}

/// Law: a run-start body asked for the summary carries the memory summary section.
pub proof fn law_summary_is_injected(
    project_id: Seq<char>,
    project_name: Seq<char>,
    intend: Seq<char>,
    rules: Seq<AppliedRule>,
    memory: MemoryRecord,
    fixed_prompt: Option<(i64, Seq<char>)>,
    design_index: Seq<char>,
)
    ensures
        has_section(
            assemble_spec(
                project_id,
                project_name,
                intend,
                "run.start"@,
                MemoryContext::Summary,
                rules,
                memory,
                fixed_prompt,
                design_index,
            ),
            "memory.summary"@,
        ),
{
    let x = "memory.summary"@;
    let hook = "run.start"@;
    let v1 = rules_fold(new_view(project_id, project_name, intend, hook), rules);
    let v2 = push_spec(v1, "memory.protocol"@, "protocol"@, Some(memory.protocol_version), memory.rule@);
    let body = memory_body_spec(memory.memory@);
    reveal_strlit("# Project memory\n");
    assert(body[0] == '#');
    lemma_trim_keeps_leading(body);
    let v3 = push_spec(v2, x, "memory"@, Some(memory.memory_version), body);
    assert(v3.sections[v3.sections.len() - 1].id == x);
    assert(has_section(v3, x));
    match fixed_hook_key_spec(intend) {
        Some(key) => {
            let v4 = match fixed_prompt {
                Some((version, prompt)) => {
                    lemma_push_keeps_present(v3, key, "fixedPrompt"@, Some(version), prompt, x);
                    push_spec(v3, key, "fixedPrompt"@, Some(version), prompt)
                },
                None => v3,
            };
            lemma_push_keeps_present(v4, "design.index"@, "designIndex"@, None, design_index, x);
        },
        None => {},
    }
}

} // verus!
