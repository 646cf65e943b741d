//! The design-to-code scan: whether each element is attached to the model and whether the
//! files and symbols it binds to exist.
//!
//! The filesystem is read at the edge: the caller resolves every path the scan asks about and
//! hands in a table of probes. Everything from there on (whole-word symbol search that skips
//! string literals and comments, each element's state, the ordering, the counts) is decided
//! here.
use vstd::prelude::*;

use crate::grep::{chars_below, count_below};
use crate::health::{
    health_weight, next_action_text, BrokenBinding, DesignHealthResult, ElementFinding,
    ElementHealth, HealthCounts,
};
use crate::text::{
    ascii_alnum, blen, chars_of, lemma_seq_order_antisym, lemma_seq_order_trans, order_str,
    seq_order, contains, dec, find_from, find_from_exec, has_char, is_alnum,
    is_alphanumeric, is_ascii_alnum, lemma_find_from_sound, occurs_at, slice_chars, str_eq,
    string_of, trim, trim_chars,
};

verus! {

broadcast use vstd::string::group_string_axioms;

// ---------------------------------------------------------------- literals and comments

/// Where the literal and comment scanner stands.
pub struct LexState {
    pub quote: Option<char>,
    pub line_comment: bool,
    pub block_depth: nat,
}

pub open spec fn lex_start() -> LexState {
    LexState { quote: None, line_comment: false, block_depth: 0 }
}

pub open spec fn is_quote(c: char) -> bool {
    c == '"' || c == '\'' || c == '`'
}

/// One step of the scanner at `i`: the next state and how many characters it consumed.
/// Line comments run to the newline, block comments nest, and a backslash inside a literal
/// escapes the character after it.
pub open spec fn lex_step(s: Seq<char>, i: int, st: LexState) -> (LexState, int) {
    let c = s[i];
    let next_is_slash = i + 1 < s.len() && s[i + 1] == '/';
    let next_is_star = i + 1 < s.len() && s[i + 1] == '*';
    if st.line_comment {
        if c == '\n' {
            (LexState { line_comment: false, ..st }, 1)
        } else {
            (st, 1)
        }
    } else if st.block_depth > 0 {
        if c == '*' && next_is_slash {
            (LexState { block_depth: (st.block_depth - 1) as nat, ..st }, 2)
        } else if c == '/' && next_is_star {
            (LexState { block_depth: st.block_depth + 1, ..st }, 2)
        } else {
            (st, 1)
        }
    } else if st.quote is Some {
        if c == '\\' {
            (st, 2)
        } else if st.quote == Some(c) {
            (LexState { quote: None, ..st }, 1)
        } else {
            (st, 1)
        }
    } else if c == '/' && next_is_slash {
        (LexState { line_comment: true, ..st }, 2)
    } else if c == '/' && next_is_star {
        (LexState { block_depth: st.block_depth + 1, ..st }, 2)
    } else if is_quote(c) {
        (LexState { quote: Some(c), ..st }, 1)
    } else {
        (st, 1)
    }
}

pub open spec fn lex_from(s: Seq<char>, i: int, st: LexState) -> LexState
    decreases s.len() + 1 - i,
{
    if i < 0 || i >= s.len() {
        st
    } else {
        let r = lex_step(s, i, st);
        proof {
            lemma_lex_step_advances(s, i, st);
        }
        lex_from(s, i + r.1, r.0)
    }
}

pub proof fn lemma_lex_step_advances(s: Seq<char>, i: int, st: LexState)
    ensures
        1 <= lex_step(s, i, st).1 <= 2,
{
}

/// Whether the end of `prefix` sits inside a string literal or a comment.
pub open spec fn inside_spec(prefix: Seq<char>) -> bool {
    let st = lex_from(prefix, 0, lex_start());
    st.quote is Some || st.line_comment || st.block_depth > 0
}

/// Whether the first `k` characters end inside a string literal or a comment.
fn inside_prefix(cs: &[char], k: usize) -> (b: bool)
    requires
        k <= cs@.len(),
    ensures
        b == inside_spec(cs@.take(k as int)),
{
    let ghost s = cs@.take(k as int);
    let mut quote: Option<char> = None;
    let mut line_comment = false;
    let mut block_depth: usize = 0;
    let mut i: usize = 0;
    while i < k
        invariant
            k <= cs@.len(),
            s == cs@.take(k as int),
            i <= k + 1,
            block_depth <= i,
            lex_from(s, 0, lex_start()) == lex_from(
                s,
                i as int,
                LexState { quote, line_comment, block_depth: block_depth as nat },
            ),
        decreases k + 1 - i,
    {
        let c = cs[i];
        let next: Option<char> = if i + 1 < k {
            Some(cs[i + 1])
        } else {
            None
        };
        assert(s[i as int] == c);
        assert(i + 1 < k ==> s[i + 1] == cs@[i + 1]);
        let ghost cur = LexState { quote, line_comment, block_depth: block_depth as nat };
        let ghost step = lex_step(s, i as int, cur);
        let ghost i0 = i as int;
        proof {
            lemma_lex_step_advances(s, i as int, cur);
            assert(lex_from(s, i0, cur) == lex_from(s, i0 + step.1, step.0));
        }
        if line_comment {
            if c == '\n' {
                line_comment = false;
            }
            i += 1;
        } else if block_depth > 0 {
            if c == '*' && next == Some('/') {
                block_depth -= 1;
                i += 2;
            } else if c == '/' && next == Some('*') {
                block_depth += 1;
                i += 2;
            } else {
                i += 1;
            }
        } else if quote.is_some() {
            if c == '\\' {
                if next.is_some() {
                    i += 2;
                } else {
                    i += 1;
                }
            } else if quote == Some(c) {
                quote = None;
                i += 1;
            } else {
                i += 1;
            }
        } else if c == '/' && next == Some('/') {
            line_comment = true;
            i += 2;
        } else if c == '/' && next == Some('*') {
            block_depth += 1;
            i += 2;
        } else if c == '"' || c == '\'' || c == '`' {
            quote = Some(c);
            i += 1;
        } else {
            i += 1;
        }
        proof {
            assert(LexState { quote, line_comment, block_depth: block_depth as nat } == step.0);
            assert(i0 + step.1 >= s.len() ==> i >= s.len());
            assert(i0 + step.1 < s.len() ==> i == i0 + step.1);
        }
    }
    quote.is_some() || line_comment || block_depth > 0
}

/// Whether a byte offset of `contents` sits inside a string literal or a comment.
pub fn inside_literal_or_comment(contents: &str, offset: usize) -> (b: bool)
    ensures
        b == inside_spec(contents@.take(count_below(contents@, offset as int) as int)),
{
    let cs = chars_of(contents);
    let k = chars_below(cs.as_slice(), offset as u128);
    proof {
        crate::grep::lemma_count_below_le(cs@, offset as int);
    }
    inside_prefix(cs.as_slice(), k)
}

// ---------------------------------------------------------------- whole words

/// A character that continues a word.
pub open spec fn word_char(c: char) -> bool {
    is_alnum(c) || c == '_'
}

/// The occurrence of `nd` at `start` is a whole word outside literals and comments.
pub open spec fn whole_word_at(cs: Seq<char>, nd: Seq<char>, start: int) -> bool {
    let end = start + nd.len();
    &&& (start == 0 || !word_char(cs[start - 1]))
    &&& (end >= cs.len() || !word_char(cs[end]))
    &&& !inside_spec(cs.take(start))
}

/// Searches occurrences from `from` on; after a rejected occurrence the search resumes at its
/// end.
pub open spec fn word_from(cs: Seq<char>, nd: Seq<char>, from: int) -> bool
    decreases cs.len() + 1 - from,
{
    if nd.len() == 0 || from < 0 {
        false
    } else {
        let f = find_from(cs, nd, from);
        if f == -1 {
            false
        } else if whole_word_at(cs, nd, f) {
            true
        } else {
            let end = f + nd.len();
            if end >= cs.len() {
                false
            } else {
                proof {
                    lemma_find_from_sound(cs, nd, from);
                }
                word_from(cs, nd, end)
            }
        }
    }
}

/// A whole-word occurrence of a non-empty needle outside string literals and comments.
pub open spec fn contains_word_spec(cs: Seq<char>, nd: Seq<char>) -> bool {
    nd.len() > 0 && word_from(cs, nd, 0)
}

/// A whole-word occurrence, skipping occurrences inside string literals and comments so a file
/// that holds a name as data is not mistaken for one that defines it.
pub fn contains_word(contents: &str, needle: &str) -> (b: bool)
    ensures
        b == contains_word_spec(contents@, needle@),
{
    let cs = chars_of(contents);
    let nd = chars_of(needle);
    if nd.len() == 0 {
        return false;
    }
    let mut from: usize = 0;
    while from <= cs.len()
        invariant
            cs@ == contents@,
            nd@ == needle@,
            nd@.len() > 0,
            contains_word_spec(contents@, needle@) == word_from(cs@, nd@, from as int),
        decreases cs.len() + 1 - from,
    {
        let found = find_from_exec(cs.as_slice(), nd.as_slice(), from);
        proof {
            lemma_find_from_sound(cs@, nd@, from as int);
        }
        let start = match found {
            None => {
                return false;
            },
            Some(p) => p,
        };
        let end = start + nd.len();
        let before_ok = start == 0 || {
            let c = cs[start - 1];
            !is_alphanumeric(c) && c != '_'
        };
        let after_ok = end >= cs.len() || {
            let c = cs[end];
            !is_alphanumeric(c) && c != '_'
        };
        if before_ok && after_ok && !inside_prefix(cs.as_slice(), start) {
            return true;
        }
        if end >= cs.len() {
            return false;
        }
        from = end;
    }
    false
}

// ---------------------------------------------------------------- symbol bindings

/// The last position at or before `i` where `pat` occurs, or -1.
pub open spec fn last_occurrence_from(t: Seq<char>, pat: Seq<char>, i: int) -> int
    decreases i + 1,
{
    if i < 0 {
        -1
    } else if occurs_at(t, pat, i) {
        i
    } else {
        last_occurrence_from(t, pat, i - 1)
    }
}

/// The last position where `pat` occurs, or -1.
pub open spec fn last_occurrence(t: Seq<char>, pat: Seq<char>) -> int {
    last_occurrence_from(t, pat, t.len() - pat.len())
}

fn last_occurrence_exec(t: &[char], pat: &[char]) -> (r: Option<usize>)
    ensures
        match r {
            Some(p) => p == last_occurrence(t@, pat@) && p + pat@.len() <= t@.len(),
            None => last_occurrence(t@, pat@) == -1,
        },
{
    if pat.len() > t.len() {
        return None;
    }
    let mut i = t.len() - pat.len();
    loop
        invariant
            pat@.len() <= t@.len(),
            i <= t@.len() - pat@.len(),
            last_occurrence(t@, pat@) == last_occurrence_from(t@, pat@, i as int),
        decreases i,
    {
        if crate::text::occurs_at_exec(t, pat, i) {
            return Some(i);
        }
        if i == 0 {
            assert(last_occurrence_from(t@, pat@, -1) == -1);
            return None;
        }
        i -= 1;
    }
}

/// A file-like value: it holds a path separator, or ends in a short alphanumeric extension.
pub open spec fn looks_like_path_spec(value: Seq<char>) -> bool {
    let v = trim(value);
    let d = last_occurrence(v, seq!['.']);
    v.contains('/') || v.contains('\\') || (d >= 0 && {
        let ext = v.skip(d + 1);
        &&& ext.len() > 0
        &&& ext.len() <= 4
        &&& forall|i: int| 0 <= i < ext.len() ==> is_ascii_alnum(#[trigger] ext[i])
    })
}

/// Whether a value reads as a file path.
pub fn looks_like_path(value: &str) -> (b: bool)
    ensures
        b == looks_like_path_spec(value@),
{
    let v = chars_of(value);
    let t = trim_chars(v.as_slice());
    if has_char(t.as_slice(), '/') || has_char(t.as_slice(), '\\') {
        return true;
    }
    let dot = vec!['.'];
    assert(dot@ =~= seq!['.']);
    match last_occurrence_exec(t.as_slice(), dot.as_slice()) {
        None => false,
        Some(d) => {
            let n = t.len() - (d + 1);
            if n == 0 || n > 4 {
                return false;
            }
            let mut i = d + 1;
            while i < t.len()
                invariant
                    d + 1 <= i <= t@.len(),
                    t@ == trim(value@),
                    d == last_occurrence(t@, seq!['.']),
                    !t@.contains('/'),
                    !t@.contains('\\'),
                    1 <= t@.len() - (d + 1) <= 4,
                    forall|j: int| d + 1 <= j < i ==> is_ascii_alnum(#[trigger] t@[j]),
                decreases t.len() - i,
            {
                if !ascii_alnum(t[i]) {
                    assert(t@.skip(d + 1)[i - (d + 1)] == t@[i as int]);
                    assert(!is_ascii_alnum(t@.skip(d + 1)[i - (d + 1)]));
                    return false;
                }
                i += 1;
            }
            assert forall|j: int| 0 <= j < t@.skip(d + 1).len() implies is_ascii_alnum(
                #[trigger] t@.skip(d + 1)[j],
            ) by {
                assert(t@.skip(d + 1)[j] == t@[d + 1 + j]);
            }
            true
        },
    }
}

/// Splits `path::symbol` into an optional file hint and the symbol name: the split is at the
/// last `::`, and only when the symbol is not blank and the hint reads as a path.
pub open spec fn split_symbol_spec(target: Seq<char>) -> (Option<Seq<char>>, Seq<char>) {
    let t = trim(target);
    let p = last_occurrence(t, seq![':', ':']);
    if p >= 0 && trim(t.skip(p + 2)).len() > 0 && looks_like_path_spec(t.take(p)) {
        (Some(trim(t.take(p))), trim(t.skip(p + 2)))
    } else {
        (None, t)
    }
}

/// Splits `path::symbol` into an optional file hint and the symbol name.
pub fn split_symbol(target: &str) -> (r: (Option<String>, String))
    ensures
        (match r.0 {
            Some(h) => Some(h@),
            None => None,
        }, r.1@) == split_symbol_spec(target@),
{
    let v = chars_of(target);
    let t = trim_chars(v.as_slice());
    let sep = vec![':', ':'];
    assert(sep@ =~= seq![':', ':']);
    match last_occurrence_exec(t.as_slice(), sep.as_slice()) {
        Some(p) => {
            assert(p + 2 <= t.len());
            let symbol = slice_chars(t.as_slice(), p + 2, t.len());
            let symbol_trimmed = trim_chars(symbol.as_slice());
            let file = slice_chars(t.as_slice(), 0, p);
            assert(symbol@ =~= t@.skip(p + 2));
            assert(file@ =~= t@.take(p as int));
            if symbol_trimmed.len() > 0 {
                let file_str = string_of(file.as_slice());
                if looks_like_path(file_str.as_str()) {
                    let file_trimmed = trim_chars(file.as_slice());
                    return (Some(string_of(file_trimmed.as_slice())), string_of(symbol_trimmed.as_slice()));
                }
            }
            (None, string_of(t.as_slice()))
        },
        None => (None, string_of(t.as_slice())),
    }
}

/// The name after the last `::`, or the whole symbol.
pub open spec fn symbol_tail(s: Seq<char>) -> Seq<char> {
    let p = last_occurrence(s, seq![':', ':']);
    if p >= 0 {
        s.skip(p + 2)
    } else {
        s
    }
}

fn symbol_tail_exec(s: &[char]) -> (r: Vec<char>)
    ensures
        r@ == symbol_tail(s@),
{
    let sep = vec![':', ':'];
    assert(sep@ =~= seq![':', ':']);
    match last_occurrence_exec(s, sep.as_slice()) {
        Some(p) => {
            assert(p + 2 <= s.len());
            let r = slice_chars(s, p + 2, s.len());
            assert(r@ =~= s@.skip(p + 2));
            r
        },
        None => slice_chars(s, 0, s.len()),
    }
}

// ---------------------------------------------------------------- the model and the files

/// An element as the scan needs it.
#[derive(Clone, Debug)]
pub struct ModelElement {
    pub external_id: String,
    pub name: String,
    pub element_type: String,
    pub parent_external_id: Option<String>,
}

/// A binding as the scan needs it.
#[derive(Clone, Debug)]
pub struct ModelBinding {
    pub design_external_id: String,
    pub target_type: String,
    pub target: String,
}

/// What the model says, as the scan needs it.
#[derive(Clone, Debug)]
pub struct HealthModel {
    pub elements: Vec<ModelElement>,
    pub bindings: Vec<ModelBinding>,
    /// Every external id named by a relationship, either end, plus every id that holds
    /// children.
    pub connected: Vec<String>,
}

/// What the filesystem says about one path the scan asks about: where it resolves inside the
/// project folder (as a display path), and what the file holds.
#[derive(Clone, Debug)]
pub struct FileProbe {
    pub query: String,
    pub display: Option<String>,
    pub contents: Option<String>,
}

pub open spec fn text_in(ms: Seq<String>, id: Seq<char>) -> bool {
    exists|i: int| 0 <= i < ms.len() && (#[trigger] ms[i])@ == id
}

/// Whether an element's parent is `id`.
pub open spec fn parent_is(e: ModelElement, id: Seq<char>) -> bool {
    match e.parent_external_id {
        Some(p) => p@ == id,
        None => false,
    }
}

/// A relationship among the first `n` names `id` at either end.
pub open spec fn rel_named(rels: Seq<(String, String)>, n: int, id: Seq<char>) -> bool {
    exists|k: int| 0 <= k < n && ((#[trigger] rels[k]).0@ == id || rels[k].1@ == id)
}

/// An element among the first `n` has `id` as its parent.
pub open spec fn parent_named(els: Seq<ModelElement>, n: int, id: Seq<char>) -> bool {
    exists|k: int| 0 <= k < n && parent_is(#[trigger] els[k], id)
}

/// The ids a model counts as connected: relationship endpoints and parents.
pub open spec fn connected_spec(
    relationships: Seq<(String, String)>,
    elements: Seq<ModelElement>,
    id: Seq<char>,
) -> bool {
    rel_named(relationships, relationships.len() as int, id) || parent_named(
        elements,
        elements.len() as int,
        id,
    )
}

proof fn lemma_text_in_push(s: Seq<String>, x: String)
    ensures
        forall|id: Seq<char>| #[trigger] text_in(s.push(x), id) == (text_in(s, id) || x@ == id),
{
    assert forall|id: Seq<char>| #[trigger] text_in(s.push(x), id) == (text_in(s, id) || x@ == id) by {
        if text_in(s.push(x), id) {
            let j = choose|j: int| 0 <= j < s.push(x).len() && (#[trigger] s.push(x)[j])@ == id;
            if j < s.len() {
                assert(s[j] == s.push(x)[j]);
            }
        }
        if text_in(s, id) {
            let j = choose|j: int| 0 <= j < s.len() && (#[trigger] s[j])@ == id;
            assert(s.push(x)[j] == s[j]);
        }
        if x@ == id {
            assert(s.push(x)[s.len() as int] == x);
        }
    }
}

proof fn lemma_rel_named_step(rels: Seq<(String, String)>, n: int)
    requires
        0 <= n < rels.len(),
    ensures
        forall|id: Seq<char>|
            #[trigger] rel_named(rels, n + 1, id) == (rel_named(rels, n, id) || rels[n].0@ == id
                || rels[n].1@ == id),
{
    assert forall|id: Seq<char>| #[trigger] rel_named(rels, n + 1, id) == (rel_named(rels, n, id)
        || rels[n].0@ == id || rels[n].1@ == id) by {
        if rel_named(rels, n + 1, id) {
            let k = choose|k: int| 0 <= k < n + 1 && ((#[trigger] rels[k]).0@ == id || rels[k].1@ == id);
            if k < n {
                assert(rel_named(rels, n, id));
            }
        }
    }
}

proof fn lemma_parent_named_step(els: Seq<ModelElement>, n: int)
    requires
        0 <= n < els.len(),
    ensures
        forall|id: Seq<char>|
            #[trigger] parent_named(els, n + 1, id) == (parent_named(els, n, id) || parent_is(
                els[n],
                id,
            )),
{
    assert forall|id: Seq<char>| #[trigger] parent_named(els, n + 1, id) == (parent_named(els, n, id)
        || parent_is(els[n], id)) by {
        if parent_named(els, n + 1, id) {
            let k = choose|k: int| 0 <= k < n + 1 && parent_is(#[trigger] els[k], id);
            if k < n {
                assert(parent_named(els, n, id));
            }
        }
    }
}

impl HealthModel {
    /// The model from its elements, bindings and relationship endpoints.
    pub fn new(
        elements: Vec<ModelElement>,
        bindings: Vec<ModelBinding>,
        relationships: &[(String, String)],
    ) -> (m: HealthModel)
        ensures
            m.elements@ == elements@,
            m.bindings@ == bindings@,
            forall|id: Seq<char>|
                #[trigger] text_in(m.connected@, id) == connected_spec(relationships@, elements@, id),
    {
        let mut connected: Vec<String> = Vec::new();
        let mut i: usize = 0;
        while i < relationships.len()
            invariant
                i <= relationships@.len(),
                forall|id: Seq<char>|
                    #[trigger] text_in(connected@, id) == rel_named(relationships@, i as int, id),
            decreases relationships.len() - i,
        {
            let ghost c0 = connected@;
            let a = relationships[i].0.clone();
            let ghost av = a;
            connected.push(a);
            let ghost c1 = connected@;
            let b = relationships[i].1.clone();
            let ghost bv = b;
            connected.push(b);
            proof {
                lemma_text_in_push(c0, av);
                lemma_text_in_push(c1, bv);
                lemma_rel_named_step(relationships@, i as int);
                assert(c1 == c0.push(av));
                assert(connected@ == c1.push(bv));
            }
            i += 1;
        }
        let mut j: usize = 0;
        while j < elements.len()
            invariant
                j <= elements@.len(),
                forall|id: Seq<char>|
                    #[trigger] text_in(connected@, id) == (rel_named(
                        relationships@,
                        relationships@.len() as int,
                        id,
                    ) || parent_named(elements@, j as int, id)),
            decreases elements.len() - j,
        {
            let ghost c0 = connected@;
            proof {
                lemma_parent_named_step(elements@, j as int);
            }
            if let Some(p) = &elements[j].parent_external_id {
                let q = p.clone();
                let ghost qv = q;
                connected.push(q);
                proof {
                    lemma_text_in_push(c0, qv);
                }
            }
            j += 1;
        }
        HealthModel { elements, bindings, connected }
    }
}

// ---------------------------------------------------------------- one element

/// The first probe for a path, if the caller supplied one.
pub open spec fn probe_of(ps: Seq<FileProbe>, q: Seq<char>) -> Option<FileProbe>
    decreases ps.len(),
{
    if ps.len() == 0 {
        None
    } else {
        match probe_of(ps.drop_last(), q) {
            Some(p) => Some(p),
            None => if ps.last().query@ == q {
                Some(ps.last())
            } else {
                None
            },
        }
    }
}

pub open spec fn str_opt(o: Option<String>) -> Option<Seq<char>> {
    match o {
        Some(s) => Some(s@),
        None => None,
    }
}

/// Where a path resolves inside the project folder; a path nobody probed resolves nowhere.
pub open spec fn display_of(ps: Seq<FileProbe>, q: Seq<char>) -> Option<Seq<char>> {
    match probe_of(ps, q) {
        Some(p) => str_opt(p.display),
        None => None,
    }
}

/// What the file at a path holds, if it resolves and reads.
pub open spec fn contents_of(ps: Seq<FileProbe>, q: Seq<char>) -> Option<Seq<char>> {
    match probe_of(ps, q) {
        Some(p) => str_opt(p.contents),
        None => None,
    }
}

fn find_probe<'a>(ps: &'a [FileProbe], q: &str) -> (r: Option<&'a FileProbe>)
    ensures
        match r {
            Some(p) => probe_of(ps@, q@) == Some(*p),
            None => probe_of(ps@, q@) is None,
        },
{
    let mut i: usize = 0;
    while i < ps.len()
        invariant
            i <= ps@.len(),
            probe_of(ps@.take(i as int), q@) is None,
        decreases ps.len() - i,
    {
        proof {
            assert(ps@.take(i + 1).drop_last() =~= ps@.take(i as int));
            assert(ps@.take(i + 1).last() == ps@[i as int]);
        }
        if str_eq(ps[i].query.as_str(), q) {
            proof {
                lemma_probe_prefix(ps@, i as int + 1, q@);
            }
            return Some(&ps[i]);
        }
        i += 1;
    }
    assert(ps@.take(ps@.len() as int) =~= ps@);
    None
}

proof fn lemma_probe_prefix(ps: Seq<FileProbe>, n: int, q: Seq<char>)
    requires
        0 <= n <= ps.len(),
        probe_of(ps.take(n), q) is Some,
    ensures
        probe_of(ps, q) == probe_of(ps.take(n), q),
    decreases ps.len() - n,
{
    if n < ps.len() {
        assert(ps.take(n + 1).drop_last() =~= ps.take(n));
        lemma_probe_prefix(ps, n + 1, q);
    } else {
        assert(ps.take(n) =~= ps);
    }
}

/// The trimmed targets of one element's bindings of one kind, in binding order.
pub open spec fn own_targets(bs: Seq<ModelBinding>, id: Seq<char>, kind: Seq<char>) -> Seq<Seq<char>>
    decreases bs.len(),
{
    if bs.len() == 0 {
        Seq::empty()
    } else {
        let rest = own_targets(bs.drop_last(), id, kind);
        let b = bs.last();
        if b.design_external_id@ == id && b.target_type@ == kind {
            rest.push(trim(b.target@))
        } else {
            rest
        }
    }
}

/// The display paths of the file targets that resolve.
pub open spec fn resolved_files(ps: Seq<FileProbe>, fts: Seq<Seq<char>>) -> Seq<Seq<char>>
    decreases fts.len(),
{
    if fts.len() == 0 {
        Seq::empty()
    } else {
        let rest = resolved_files(ps, fts.drop_last());
        match display_of(ps, fts.last()) {
            Some(d) => rest.push(d),
            None => rest,
        }
    }
}

/// The character content of a broken binding.
pub struct BrokenView {
    pub design_external_id: Seq<char>,
    pub target_type: Seq<char>,
    pub target: Seq<char>,
    pub detail: Seq<char>,
}

pub open spec fn broken_view(b: BrokenBinding) -> BrokenView {
    BrokenView {
        design_external_id: b.design_external_id@,
        target_type: b.target_type@,
        target: b.target@,
        detail: b.detail@,
    }
}

pub open spec fn broken_views(bs: Seq<BrokenBinding>) -> Seq<BrokenView> {
    bs.map_values(|b: BrokenBinding| broken_view(b))
}

/// File targets that resolve nowhere inside the project folder.
pub open spec fn broken_files(ps: Seq<FileProbe>, id: Seq<char>, fts: Seq<Seq<char>>) -> Seq<BrokenView>
    decreases fts.len(),
{
    if fts.len() == 0 {
        Seq::empty()
    } else {
        let rest = broken_files(ps, id, fts.drop_last());
        if display_of(ps, fts.last()) is None {
            rest.push(
                BrokenView {
                    design_external_id: id,
                    target_type: "file"@,
                    target: fts.last(),
                    detail: "file not found inside the project folder"@,
                },
            )
        } else {
            rest
        }
    }
}

/// The file at a path holds the symbol as a whole word.
pub open spec fn file_has_symbol(ps: Seq<FileProbe>, file: Seq<char>, symbol: Seq<char>) -> bool {
    match contents_of(ps, file) {
        Some(c) => contains_word_spec(c, symbol),
        None => false,
    }
}

/// A symbol binding resolves when its file exists and holds the name as a whole word: a
/// binding that names its file is checked against that file, a bare name against the
/// element's resolved files.
pub open spec fn symbol_resolves_spec(
    ps: Seq<FileProbe>,
    target: Seq<char>,
    fts: Seq<Seq<char>>,
    files: Seq<Seq<char>>,
) -> bool {
    let (hint, name) = split_symbol_spec(target);
    let symbol = symbol_tail(name);
    if symbol.len() == 0 {
        false
    } else {
        match hint {
            Some(h) => file_has_symbol(ps, h, symbol),
            None => fts.len() > 0 && exists|i: int|
                0 <= i < files.len() && file_has_symbol(ps, #[trigger] files[i], symbol),
        }
    }
}

/// Symbol targets that do not resolve.
pub open spec fn broken_symbols(
    ps: Seq<FileProbe>,
    id: Seq<char>,
    sts: Seq<Seq<char>>,
    fts: Seq<Seq<char>>,
    files: Seq<Seq<char>>,
) -> Seq<BrokenView>
    decreases sts.len(),
{
    if sts.len() == 0 {
        Seq::empty()
    } else {
        let rest = broken_symbols(ps, id, sts.drop_last(), fts, files);
        if !symbol_resolves_spec(ps, sts.last(), fts, files) {
            rest.push(
                BrokenView {
                    design_external_id: id,
                    target_type: "symbol"@,
                    target: sts.last(),
                    detail: "symbol not found in its file"@,
                },
            )
        } else {
            rest
        }
    }
}

/// Targets joined by `", "`.
pub open spec fn join_targets(bs: Seq<BrokenView>) -> Seq<char>
    decreases bs.len(),
{
    if bs.len() == 0 {
        Seq::empty()
    } else if bs.len() == 1 {
        bs[0].target
    } else {
        join_targets(bs.drop_last()) + ", "@ + bs.last().target
    }
}

/// The character content of a finding.
pub struct FindingView {
    pub design_external_id: Seq<char>,
    pub name: Seq<char>,
    pub element_type: Seq<char>,
    pub state: ElementHealth,
    pub next_action: Seq<char>,
    pub files: Seq<Seq<char>>,
    pub broken: Seq<BrokenView>,
    pub detail: Seq<char>,
    pub waivers: nat,
}

pub open spec fn finding_view(f: ElementFinding) -> FindingView {
    FindingView {
        design_external_id: f.design_external_id@,
        name: f.name@,
        element_type: f.element_type@,
        state: f.state,
        next_action: f.next_action@,
        files: f.files@.map_values(|s: String| s@),
        broken: broken_views(f.broken@),
        detail: f.detail@,
        waivers: f.waivers@.len(),
    }
}

pub open spec fn finding_views(fs: Seq<ElementFinding>) -> Seq<FindingView> {
    fs.map_values(|f: ElementFinding| finding_view(f))
}

/// The state of one element and why: floating, unbound, pointing at something missing, or
/// resolved.
pub open spec fn state_and_detail(
    attached: bool,
    bound: bool,
    broken: Seq<BrokenView>,
) -> (ElementHealth, Seq<char>) {
    if !attached {
        (ElementHealth::Orphaned, "No parent and no relationship names it, so the model cannot place it."@)
    } else if !bound {
        (
            ElementHealth::Unmapped,
            "No file or symbol binding, so nothing is claimed about where its code lives."@,
        )
    } else if broken.len() > 0 {
        (
            ElementHealth::Broken,
            dec(broken.len()) + " binding(s) do not resolve: "@ + join_targets(broken),
        )
    } else {
        (ElementHealth::Resolved, "Attached, and every binding resolves."@)
    }
}

/// The verdict on one element.
pub open spec fn finding_spec(m: HealthModel, ps: Seq<FileProbe>, e: ModelElement) -> FindingView {
    let id = e.external_id@;
    let attached = e.parent_external_id is Some || text_in(m.connected@, id);
    let fts = own_targets(m.bindings@, id, "file"@);
    let sts = own_targets(m.bindings@, id, "symbol"@);
    let files = resolved_files(ps, fts);
    let broken = broken_files(ps, id, fts) + broken_symbols(ps, id, sts, fts, files);
    let sd = state_and_detail(attached, fts.len() > 0 || sts.len() > 0, broken);
    FindingView {
        design_external_id: id,
        name: e.name@,
        element_type: e.element_type@,
        state: sd.0,
        next_action: next_action_text(sd.0),
        files,
        broken,
        detail: sd.1,
        waivers: 0,
    }
}

pub open spec fn views(s: Seq<String>) -> Seq<Seq<char>> {
    s.map_values(|x: String| x@)
}

fn own_targets_exec(bs: &[ModelBinding], id: &str, kind: &str) -> (r: Vec<String>)
    ensures
        views(r@) == own_targets(bs@, id@, kind@),
{
    let mut r: Vec<String> = Vec::new();
    let mut i: usize = 0;
    while i < bs.len()
        invariant
            i <= bs@.len(),
            views(r@) == own_targets(bs@.take(i as int), id@, kind@),
        decreases bs.len() - i,
    {
        proof {
            assert(bs@.take(i + 1).drop_last() =~= bs@.take(i as int));
            assert(bs@.take(i + 1).last() == bs@[i as int]);
        }
        let b = &bs[i];
        if str_eq(b.design_external_id.as_str(), id) && str_eq(b.target_type.as_str(), kind) {
            let v = chars_of(b.target.as_str());
            let t = trim_chars(v.as_slice());
            let ghost before = r@;
            r.push(string_of(t.as_slice()));
            assert(views(r@) =~= views(before).push(trim(b.target@)));
        }
        i += 1;
    }
    assert(bs@.take(bs@.len() as int) =~= bs@);
    r
}

fn broken_binding(id: &str, target_type: &str, target: &str, detail: &str) -> (b: BrokenBinding)
    ensures
        broken_view(b) == (BrokenView {
            design_external_id: id@,
            target_type: target_type@,
            target: target@,
            detail: detail@,
        }),
{
    BrokenBinding {
        design_external_id: crate::text::owned(id),
        target_type: crate::text::owned(target_type),
        target: crate::text::owned(target),
        detail: crate::text::owned(detail),
    }
}

fn push_broken(out: &mut Vec<BrokenBinding>, b: BrokenBinding)
    ensures
        broken_views(final(out)@) == broken_views(old(out)@).push(broken_view(b)),
{
    let ghost v = broken_view(b);
    out.push(b);
    assert(broken_views(out@) =~= broken_views(old(out)@).push(v));
}

/// Resolves the file targets: display paths of those that resolve, broken bindings for the rest.
fn resolve_files(ps: &[FileProbe], id: &str, fts: &[String]) -> (r: (Vec<String>, Vec<BrokenBinding>))
    ensures
        views(r.0@) == resolved_files(ps@, views(fts@)),
        broken_views(r.1@) == broken_files(ps@, id@, views(fts@)),
{
    let mut files: Vec<String> = Vec::new();
    let mut broken: Vec<BrokenBinding> = Vec::new();
    let mut i: usize = 0;
    while i < fts.len()
        invariant
            i <= fts@.len(),
            views(files@) == resolved_files(ps@, views(fts@.take(i as int))),
            broken_views(broken@) == broken_files(ps@, id@, views(fts@.take(i as int))),
        decreases fts.len() - i,
    {
        proof {
            assert(views(fts@.take(i + 1)).drop_last() =~= views(fts@.take(i as int)));
            assert(views(fts@.take(i + 1)).last() == fts@[i as int]@);
        }
        match find_probe(ps, fts[i].as_str()) {
            Some(p) => match &p.display {
                Some(d) => {
                    let ghost before = files@;
                    files.push(d.clone());
                    assert(views(files@) =~= views(before).push(d@));
                },
                None => {
                    push_broken(
                        &mut broken,
                        broken_binding(id, "file", fts[i].as_str(), "file not found inside the project folder"),
                    );
                },
            },
            None => {
                push_broken(
                    &mut broken,
                    broken_binding(id, "file", fts[i].as_str(), "file not found inside the project folder"),
                );
            },
        }
        i += 1;
    }
    assert(fts@.take(fts@.len() as int) =~= fts@);
    (files, broken)
}

fn file_has_symbol_exec(ps: &[FileProbe], file: &str, symbol: &str) -> (b: bool)
    ensures
        b == file_has_symbol(ps@, file@, symbol@),
{
    match find_probe(ps, file) {
        Some(p) => match &p.contents {
            Some(c) => contains_word(c.as_str(), symbol),
            None => false,
        },
        None => false,
    }
}

/// Whether a symbol binding resolves against the probed files.
pub fn symbol_resolves(ps: &[FileProbe], target: &str, file_targets: &[String], files: &[String]) -> (b: bool)
    ensures
        b == symbol_resolves_spec(ps@, target@, views(file_targets@), views(files@)),
{
    let (hint, name) = split_symbol(target);
    let n = chars_of(name.as_str());
    let sym = symbol_tail_exec(n.as_slice());
    if sym.len() == 0 {
        return false;
    }
    let symbol = string_of(sym.as_slice());
    match hint {
        Some(h) => file_has_symbol_exec(ps, h.as_str(), symbol.as_str()),
        None => {
            if file_targets.len() == 0 {
                return false;
            }
            let mut i: usize = 0;
            while i < files.len()
                invariant
                    i <= files@.len(),
                    split_symbol_spec(target@).0 is None,
                    symbol@ == symbol_tail(split_symbol_spec(target@).1),
                    symbol@.len() > 0,
                    file_targets@.len() > 0,
                    forall|j: int| 0 <= j < i ==> !file_has_symbol(ps@, #[trigger] views(files@)[j], symbol@),
                decreases files.len() - i,
            {
                if file_has_symbol_exec(ps, files[i].as_str(), symbol.as_str()) {
                    assert(views(files@)[i as int] == files@[i as int]@);
                    return true;
                }
                assert(views(files@)[i as int] == files@[i as int]@);
                i += 1;
            }
            false
        },
    }
}

fn check_symbols(
    ps: &[FileProbe],
    id: &str,
    sts: &[String],
    fts: &[String],
    files: &[String],
    broken: &mut Vec<BrokenBinding>,
)
    ensures
        broken_views(final(broken)@) == broken_views(old(broken)@) + broken_symbols(
            ps@,
            id@,
            views(sts@),
            views(fts@),
            views(files@),
        ),
{
    let ghost start = broken_views(broken@);
    let mut i: usize = 0;
    assert(start + broken_symbols(ps@, id@, views(sts@.take(0)), views(fts@), views(files@)) =~= start);
    while i < sts.len()
        invariant
            i <= sts@.len(),
            broken_views(broken@) == start + broken_symbols(
                ps@,
                id@,
                views(sts@.take(i as int)),
                views(fts@),
                views(files@),
            ),
        decreases sts.len() - i,
    {
        proof {
            assert(views(sts@.take(i + 1)).drop_last() =~= views(sts@.take(i as int)));
            assert(views(sts@.take(i + 1)).last() == sts@[i as int]@);
        }
        if !symbol_resolves(ps, sts[i].as_str(), fts, files) {
            push_broken(broken, broken_binding(id, "symbol", sts[i].as_str(), "symbol not found in its file"));
        }
        assert(broken_views(broken@) =~= start + broken_symbols(
            ps@,
            id@,
            views(sts@.take(i + 1)),
            views(fts@),
            views(files@),
        ));
        i += 1;
    }
    assert(sts@.take(sts@.len() as int) =~= sts@);
}

fn join_broken_targets(bs: &[BrokenBinding]) -> (r: String)
    ensures
        r@ == join_targets(broken_views(bs@)),
{
    let mut s = String::new();
    let mut i: usize = 0;
    while i < bs.len()
        invariant
            i <= bs@.len(),
            s@ == join_targets(broken_views(bs@.take(i as int))),
        decreases bs.len() - i,
    {
        proof {
            assert(broken_views(bs@.take(i + 1)).drop_last() =~= broken_views(bs@.take(i as int)));
            assert(broken_views(bs@.take(i + 1)).last() == broken_view(bs@[i as int]));
        }
        if i > 0 {
            crate::text::push_str_chars(&mut s, ", ");
        }
        crate::text::push_str_chars(&mut s, bs[i].target.as_str());
        proof {
            if i == 0 {
                assert(s@ =~= broken_views(bs@.take(1))[0].target);
            }
        }
        i += 1;
    }
    assert(bs@.take(bs@.len() as int) =~= bs@);
    s
}

/// The verdict on one element.
fn element_finding(m: &HealthModel, ps: &[FileProbe], e: &ModelElement) -> (f: ElementFinding)
    ensures
        finding_view(f) == finding_spec(*m, ps@, *e),
{
    let id = e.external_id.as_str();
    let attached = e.parent_external_id.is_some() || crate::model::find_text(
        m.connected.as_slice(),
        id,
    );
    let fts = own_targets_exec(m.bindings.as_slice(), id, "file");
    let sts = own_targets_exec(m.bindings.as_slice(), id, "symbol");
    let (files, mut broken) = resolve_files(ps, id, fts.as_slice());
    check_symbols(ps, id, sts.as_slice(), fts.as_slice(), files.as_slice(), &mut broken);
    let (state, detail) = if !attached {
        (ElementHealth::Orphaned, crate::text::owned("No parent and no relationship names it, so the model cannot place it."))
    } else if fts.len() == 0 && sts.len() == 0 {
        (
            ElementHealth::Unmapped,
            crate::text::owned("No file or symbol binding, so nothing is claimed about where its code lives."),
        )
    } else if broken.len() > 0 {
        let mut d = String::new();
        crate::text::push_dec(&mut d, broken.len());
        crate::text::push_str_chars(&mut d, " binding(s) do not resolve: ");
        let j = join_broken_targets(broken.as_slice());
        crate::text::push_str_chars(&mut d, j.as_str());
        (ElementHealth::Broken, d)
    } else {
        (ElementHealth::Resolved, crate::text::owned("Attached, and every binding resolves."))
    };
    let f = ElementFinding {
        design_external_id: e.external_id.clone(),
        name: e.name.clone(),
        element_type: e.element_type.clone(),
        state,
        next_action: crate::text::owned(state.next_action()),
        files,
        broken,
        detail,
        waivers: Vec::new(),
    };
    proof {
        let fv = finding_view(f);
        assert(fv.files =~= views(f.files@));
    }
    f
}

// ---------------------------------------------------------------- the whole scan

/// Most actionable first, then by external id.
pub open spec fn finding_lt(a: FindingView, b: FindingView) -> bool {
    if health_weight(a.state) != health_weight(b.state) {
        health_weight(a.state) < health_weight(b.state)
    } else {
        seq_order(a.design_external_id, b.design_external_id) < 0
    }
}

pub open spec fn finding_insert_pos(s: Seq<FindingView>, x: FindingView) -> int
    decreases s.len(),
{
    if s.len() == 0 {
        0
    } else if finding_lt(x, s.last()) {
        finding_insert_pos(s.drop_last(), x)
    } else {
        s.len() as int
    }
}

/// Stable sort by `finding_lt`.
pub open spec fn sort_findings(s: Seq<FindingView>) -> Seq<FindingView>
    decreases s.len(),
{
    if s.len() == 0 {
        Seq::empty()
    } else {
        let sorted = sort_findings(s.drop_last());
        sorted.insert(finding_insert_pos(sorted, s.last()), s.last())
    }
}

/// The findings of every element, in stored order.
pub open spec fn element_findings(m: HealthModel, ps: Seq<FileProbe>, n: int) -> Seq<FindingView>
    decreases n,
{
    if n <= 0 {
        Seq::empty()
    } else {
        element_findings(m, ps, n - 1).push(finding_spec(m, ps, m.elements@[n - 1]))
    }
}

pub open spec fn count_in_state(fs: Seq<FindingView>, st: ElementHealth) -> nat
    decreases fs.len(),
{
    if fs.len() == 0 {
        0
    } else {
        count_in_state(fs.drop_last(), st) + if fs.last().state == st {
            1nat
        } else {
            0nat
        }
    }
}

/// Broken bindings over all findings, each finding's count taken as a `u32`.
pub open spec fn total_broken(fs: Seq<FindingView>) -> nat
    decreases fs.len(),
{
    if fs.len() == 0 {
        0
    } else {
        total_broken(fs.drop_last()) + (fs.last().broken.len() as u32) as nat
    }
}

pub open spec fn counts_spec(fs: Seq<FindingView>) -> HealthCounts {
    HealthCounts {
        orphaned: count_in_state(fs, ElementHealth::Orphaned) as u32,
        unmapped: count_in_state(fs, ElementHealth::Unmapped) as u32,
        broken: count_in_state(fs, ElementHealth::Broken) as u32,
        resolved: count_in_state(fs, ElementHealth::Resolved) as u32,
        broken_bindings: total_broken(fs) as u32,
        waivers: 0,
        elements: fs.len() as u32,
    }
}

pub open spec fn scan_summary(c: HealthCounts) -> Seq<char> {
    dec(c.elements as nat) + " element(s): "@ + dec(c.resolved as nat) + " resolved, "@ + dec(
        c.unmapped as nat,
    ) + " unmapped, "@ + dec(c.orphaned as nat) + " orphaned, "@ + dec(c.broken as nat)
        + " broken ("@ + dec(c.broken_bindings as nat) + " broken binding(s))."@
}

pub open spec fn not_checked_text() -> Seq<char> {
    "These checks prove that an element is attached and that what it binds to exists. They do not check whether a bound file is a correct implementation of the element's responsibility."@
}

/// The character content of a scan result.
pub struct ScanView {
    pub counts: HealthCounts,
    pub elements: Seq<FindingView>,
    pub summary: Seq<char>,
    pub not_checked: Seq<char>,
}

pub open spec fn scan_view(r: DesignHealthResult) -> ScanView {
    ScanView {
        counts: r.counts,
        elements: finding_views(r.elements@),
        summary: r.summary@,
        not_checked: r.not_checked@,
    }
}

/// The scan of a model against the probed files.
pub open spec fn scan_spec(m: HealthModel, ps: Seq<FileProbe>) -> ScanView {
    let fs = sort_findings(element_findings(m, ps, m.elements@.len() as int));
    let c = counts_spec(fs);
    ScanView { counts: c, elements: fs, summary: scan_summary(c), not_checked: not_checked_text() }
}

fn finding_before(a: &ElementFinding, b: &ElementFinding) -> (r: bool)
    ensures
        r == finding_lt(finding_view(*a), finding_view(*b)),
{
    let wa = a.state.weight();
    let wb = b.state.weight();
    if wa != wb {
        return wa < wb;
    }
    order_str(a.design_external_id.as_str(), b.design_external_id.as_str()) < 0
}

fn insert_finding(out: &mut Vec<ElementFinding>, x: ElementFinding)
    ensures
        finding_views(final(out)@) == finding_views(old(out)@).insert(
            finding_insert_pos(finding_views(old(out)@), finding_view(x)),
            finding_view(x),
        ),
{
    let ghost s = finding_views(out@);
    let ghost xv = finding_view(x);
    let mut j = out.len();
    assert(s.take(j as int) =~= s);
    while j > 0 && finding_before(&x, &out[j - 1])
        invariant
            j <= out@.len(),
            s == finding_views(out@),
            xv == finding_view(x),
            finding_insert_pos(s, xv) == finding_insert_pos(s.take(j as int), xv),
        decreases j,
    {
        proof {
            assert(s.take(j as int).drop_last() =~= s.take(j - 1));
            assert(s.take(j as int).last() == s[j - 1]);
        }
        j -= 1;
    }
    proof {
        if j > 0 {
            assert(s.take(j as int).last() == s[j - 1]);
        }
        assert(finding_insert_pos(s.take(j as int), xv) == j);
    }
    out.insert(j, x);
    proof {
        assert(finding_views(out@) =~= s.insert(j as int, xv));
    }
}

/// The pure scan: model plus probed files in, findings out, most actionable first.
pub fn scan(model: &HealthModel, probes: &[FileProbe]) -> (r: DesignHealthResult)
    requires
        total_broken(sort_findings(element_findings(*model, probes@, model.elements@.len() as int)))
            <= u32::MAX,
    ensures
        scan_view(r) == scan_spec(*model, probes@),
{
    let ghost all = element_findings(*model, probes@, model.elements@.len() as int);
    let mut findings: Vec<ElementFinding> = Vec::new();
    let mut i: usize = 0;
    assert(finding_views(findings@) =~= Seq::<FindingView>::empty());
    while i < model.elements.len()
        invariant
            i <= model.elements@.len(),
            finding_views(findings@) == sort_findings(element_findings(*model, probes@, i as int)),
        decreases model.elements.len() - i,
    {
        let f = element_finding(model, probes, &model.elements[i]);
        proof {
            let e = element_findings(*model, probes@, i + 1);
            assert(e.drop_last() =~= element_findings(*model, probes@, i as int));
            assert(e.last() == finding_view(f));
        }
        insert_finding(&mut findings, f);
        i += 1;
    }
    let ghost fs = finding_views(findings@);
    let mut orphaned: usize = 0;
    let mut unmapped: usize = 0;
    let mut broken: usize = 0;
    let mut resolved: usize = 0;
    let mut broken_bindings: u32 = 0;
    let mut k: usize = 0;
    proof {
        lemma_total_broken_prefix(fs, fs.len() as int);
    }
    while k < findings.len()
        invariant
            k <= findings@.len(),
            fs == finding_views(findings@),
            total_broken(fs) <= u32::MAX,
            orphaned == count_in_state(fs.take(k as int), ElementHealth::Orphaned),
            unmapped == count_in_state(fs.take(k as int), ElementHealth::Unmapped),
            broken == count_in_state(fs.take(k as int), ElementHealth::Broken),
            resolved == count_in_state(fs.take(k as int), ElementHealth::Resolved),
            orphaned + unmapped + broken + resolved == k,
            broken_bindings == total_broken(fs.take(k as int)),
        decreases findings.len() - k,
    {
        proof {
            let t = fs.take(k + 1);
            assert(t.drop_last() =~= fs.take(k as int));
            assert(t.last() == finding_view(findings@[k as int]));
            lemma_total_broken_prefix(fs, k + 1);
        }
        let f = &findings[k];
        match f.state {
            ElementHealth::Orphaned => orphaned += 1,
            ElementHealth::Unmapped => unmapped += 1,
            ElementHealth::Broken => broken += 1,
            ElementHealth::Resolved => resolved += 1,
        }
        broken_bindings = broken_bindings + (f.broken.len() as u32);
        k += 1;
    }
    assert(fs.take(findings@.len() as int) =~= fs);
    let counts = HealthCounts {
        orphaned: orphaned as u32,
        unmapped: unmapped as u32,
        broken: broken as u32,
        resolved: resolved as u32,
        broken_bindings,
        waivers: 0,
        elements: findings.len() as u32,
    };
    let mut summary = String::new();
    crate::text::push_dec(&mut summary, counts.elements as usize);
    crate::text::push_str_chars(&mut summary, " element(s): ");
    crate::text::push_dec(&mut summary, counts.resolved as usize);
    crate::text::push_str_chars(&mut summary, " resolved, ");
    crate::text::push_dec(&mut summary, counts.unmapped as usize);
    crate::text::push_str_chars(&mut summary, " unmapped, ");
    crate::text::push_dec(&mut summary, counts.orphaned as usize);
    crate::text::push_str_chars(&mut summary, " orphaned, ");
    crate::text::push_dec(&mut summary, counts.broken as usize);
    crate::text::push_str_chars(&mut summary, " broken (");
    crate::text::push_dec(&mut summary, counts.broken_bindings as usize);
    crate::text::push_str_chars(&mut summary, " broken binding(s)).");
    DesignHealthResult {
        counts,
        elements: findings,
        summary,
        not_checked: crate::text::owned(
            "These checks prove that an element is attached and that what it binds to exists. They do not check whether a bound file is a correct implementation of the element's responsibility.",
        ),
    }
}

proof fn lemma_total_broken_prefix(fs: Seq<FindingView>, n: int)
    requires
        0 <= n <= fs.len(),
    ensures
        total_broken(fs.take(n)) <= total_broken(fs),
    decreases fs.len() - n,
{
    if n < fs.len() {
        lemma_total_broken_prefix(fs, n + 1);
        assert(fs.take(n + 1).drop_last() =~= fs.take(n));
    } else {
        assert(fs.take(n) =~= fs);
    }
}


// ---------------------------------------------------------------- laws of the scan

/// No later finding is more actionable than an earlier one.
pub open spec fn findings_sorted(s: Seq<FindingView>) -> bool {
    forall|i: int, j: int| 0 <= i < j < s.len() ==> !finding_lt(#[trigger] s[j], #[trigger] s[i])
}

proof fn lemma_finding_le_trans(a: FindingView, b: FindingView, c: FindingView)
    requires
        !finding_lt(b, a),
        !finding_lt(c, b),
    ensures
        !finding_lt(c, a),
{
    lemma_seq_order_antisym(a.design_external_id, b.design_external_id);
    lemma_seq_order_antisym(b.design_external_id, c.design_external_id);
    lemma_seq_order_antisym(a.design_external_id, c.design_external_id);
    if seq_order(a.design_external_id, b.design_external_id) <= 0 && seq_order(
        b.design_external_id,
        c.design_external_id,
    ) <= 0 {
        lemma_seq_order_trans(a.design_external_id, b.design_external_id, c.design_external_id);
    }
}

proof fn lemma_finding_insert_pos(s: Seq<FindingView>, x: FindingView)
    ensures
        0 <= finding_insert_pos(s, x) <= s.len(),
        forall|q: int| finding_insert_pos(s, x) <= q < s.len() ==> finding_lt(x, #[trigger] s[q]),
        finding_insert_pos(s, x) > 0 ==> !finding_lt(x, s[finding_insert_pos(s, x) - 1]),
    decreases s.len(),
{
    if s.len() > 0 && finding_lt(x, s.last()) {
        let t = s.drop_last();
        lemma_finding_insert_pos(t, x);
        assert forall|q: int| finding_insert_pos(s, x) <= q < s.len() implies finding_lt(x, #[trigger] s[q]) by {
            if q < t.len() {
                assert(s[q] == t[q]);
            }
        }
        if finding_insert_pos(s, x) > 0 {
            assert(s[finding_insert_pos(s, x) - 1] == t[finding_insert_pos(t, x) - 1]);
        }
    }
}

/// Law: findings come most actionable first (broken, orphaned, unmapped, resolved), then by
/// external id, and ordering them neither loses nor invents one.
pub proof fn law_findings_ordered(s: Seq<FindingView>)
    ensures
        findings_sorted(sort_findings(s)),
        sort_findings(s).to_multiset() == s.to_multiset(),
    decreases s.len(),
{
    broadcast use vstd::seq_lib::group_to_multiset_ensures;

    if s.len() > 0 {
        let t = s.drop_last();
        let x = s.last();
        law_findings_ordered(t);
        let sorted = sort_findings(t);
        let p = finding_insert_pos(sorted, x);
        lemma_finding_insert_pos(sorted, x);
        let r = sorted.insert(p, x);
        sorted.insert_ensures(p, x);
        assert forall|i: int, j: int| 0 <= i < j < r.len() implies !finding_lt(
            #[trigger] r[j],
            #[trigger] r[i],
        ) by {
            if j < p {
            } else if j == p {
                if i < p - 1 {
                    lemma_finding_le_trans(sorted[i], sorted[p - 1], x);
                }
            } else if i == p {
                assert(r[j] == sorted[j - 1]);
                lemma_seq_order_antisym(x.design_external_id, sorted[j - 1].design_external_id);
            } else if i < p {
                assert(r[j] == sorted[j - 1]);
            } else {
                assert(r[j] == sorted[j - 1]);
                assert(r[i] == sorted[i - 1]);
            }
        }
        assert(s =~= t.push(x));
    }
}

proof fn lemma_state_counts_partition(fs: Seq<FindingView>)
    ensures
        count_in_state(fs, ElementHealth::Orphaned) + count_in_state(fs, ElementHealth::Unmapped)
            + count_in_state(fs, ElementHealth::Broken) + count_in_state(fs, ElementHealth::Resolved)
            == fs.len(),
    decreases fs.len(),
{
    if fs.len() > 0 {
        lemma_state_counts_partition(fs.drop_last());
    }
}

/// Law: every element gets exactly one finding, the findings are ordered most actionable
/// first, and the four state counts add up to the element count.
pub proof fn law_scan_accounts_for_every_element(m: HealthModel, ps: Seq<FileProbe>)
    requires
        m.elements@.len() <= u32::MAX,
    ensures
        scan_spec(m, ps).elements.len() == m.elements@.len(),
        findings_sorted(scan_spec(m, ps).elements),
        scan_spec(m, ps).counts.orphaned + scan_spec(m, ps).counts.unmapped + scan_spec(
            m,
            ps,
        ).counts.broken + scan_spec(m, ps).counts.resolved == scan_spec(m, ps).counts.elements,
{
    let all = element_findings(m, ps, m.elements@.len() as int);
    lemma_element_findings_len(m, ps, m.elements@.len() as int);
    law_findings_ordered(all);
    let fs = sort_findings(all);
    lemma_sort_findings_len(all);
    lemma_state_counts_partition(fs);
}

proof fn lemma_element_findings_len(m: HealthModel, ps: Seq<FileProbe>, n: int)
    requires
        n >= 0,
    ensures
        element_findings(m, ps, n).len() == n,
    decreases n,
{
    if n > 0 {
        lemma_element_findings_len(m, ps, n - 1);
    }
}

proof fn lemma_sort_findings_len(s: Seq<FindingView>)
    ensures
        sort_findings(s).len() == s.len(),
    decreases s.len(),
{
    if s.len() > 0 {
        lemma_sort_findings_len(s.drop_last());
        lemma_finding_insert_pos(sort_findings(s.drop_last()), s.last());
    }
}


// ---------------------------------------------------------------- bounding the broken bindings

proof fn lemma_broken_files_len(ps: Seq<FileProbe>, id: Seq<char>, fts: Seq<Seq<char>>)
    ensures
        broken_files(ps, id, fts).len() <= fts.len(),
    decreases fts.len(),
{
    if fts.len() > 0 {
        lemma_broken_files_len(ps, id, fts.drop_last());
    }
}

proof fn lemma_broken_symbols_len(
    ps: Seq<FileProbe>,
    id: Seq<char>,
    sts: Seq<Seq<char>>,
    fts: Seq<Seq<char>>,
    files: Seq<Seq<char>>,
)
    ensures
        broken_symbols(ps, id, sts, fts, files).len() <= sts.len(),
    decreases sts.len(),
{
    if sts.len() > 0 {
        lemma_broken_symbols_len(ps, id, sts.drop_last(), fts, files);
    }
}

proof fn lemma_own_targets_len(bs: Seq<ModelBinding>, id: Seq<char>)
    ensures
        own_targets(bs, id, "file"@).len() + own_targets(bs, id, "symbol"@).len() <= bs.len(),
    decreases bs.len(),
{
    reveal_strlit("file");
    reveal_strlit("symbol");
    if bs.len() > 0 {
        lemma_own_targets_len(bs.drop_last(), id);
        assert("file"@ != "symbol"@) by {
            assert("file"@.len() != "symbol"@.len());
        }
    }
}

/// No element has more broken bindings than the design has bindings.
proof fn lemma_finding_broken_len(m: HealthModel, ps: Seq<FileProbe>, e: ModelElement)
    ensures
        finding_spec(m, ps, e).broken.len() <= m.bindings@.len(),
{
    let id = e.external_id@;
    let fts = own_targets(m.bindings@, id, "file"@);
    let sts = own_targets(m.bindings@, id, "symbol"@);
    let files = resolved_files(ps, fts);
    lemma_broken_files_len(ps, id, fts);
    lemma_broken_symbols_len(ps, id, sts, fts, files);
    lemma_own_targets_len(m.bindings@, id);
}

proof fn lemma_element_findings_total(m: HealthModel, ps: Seq<FileProbe>, n: int)
    requires
        0 <= n <= m.elements@.len(),
        m.bindings@.len() <= u32::MAX,
    ensures
        total_broken(element_findings(m, ps, n)) <= n * m.bindings@.len(),
    decreases n,
{
    if n > 0 {
        lemma_element_findings_total(m, ps, n - 1);
        lemma_finding_broken_len(m, ps, m.elements@[n - 1]);
        let fs = element_findings(m, ps, n);
        assert(fs.drop_last() == element_findings(m, ps, n - 1));
        let b = m.bindings@.len() as int;
        assert((n - 1) * b + b == n * b) by (nonlinear_arith);
    }
}

proof fn lemma_total_broken_insert(s: Seq<FindingView>, i: int, x: FindingView)
    requires
        0 <= i <= s.len(),
    ensures
        total_broken(s.insert(i, x)) == total_broken(s) + (x.broken.len() as u32) as nat,
    decreases s.len(),
{
    if i == s.len() {
        assert(s.insert(i, x).drop_last() =~= s);
    } else {
        lemma_total_broken_insert(s.drop_last(), i, x);
        assert(s.insert(i, x).drop_last() =~= s.drop_last().insert(i, x));
        assert(s.insert(i, x).last() == s.last());
    }
}

proof fn lemma_sort_keeps_total(s: Seq<FindingView>)
    ensures
        total_broken(sort_findings(s)) == total_broken(s),
    decreases s.len(),
{
    if s.len() > 0 {
        lemma_sort_keeps_total(s.drop_last());
        let sorted = sort_findings(s.drop_last());
        lemma_finding_insert_pos(sorted, s.last());
        lemma_total_broken_insert(sorted, finding_insert_pos(sorted, s.last()), s.last());
    }
}

/// Law: a scan reports no more broken bindings than every element could have with every
/// binding broken.
pub proof fn law_broken_bounded_by_bindings(m: HealthModel, ps: Seq<FileProbe>)
    requires
        m.bindings@.len() <= u32::MAX,
    ensures
        total_broken(sort_findings(element_findings(m, ps, m.elements@.len() as int)))
            <= m.elements@.len() * m.bindings@.len(),
{
    let fs = element_findings(m, ps, m.elements@.len() as int);
    lemma_element_findings_total(m, ps, m.elements@.len() as int);
    lemma_sort_keeps_total(fs);
}

/// Scans when the design is small enough for every count to fit: `None` when its elements
/// times its bindings exceed what the counts can hold.
pub fn checked_scan(model: &HealthModel, probes: &[FileProbe]) -> (r: Option<DesignHealthResult>)
    ensures
        match r {
            Some(res) => model.elements@.len() * model.bindings@.len() <= u32::MAX && scan_view(res)
                == scan_spec(*model, probes@),
            None => model.elements@.len() * model.bindings@.len() > u32::MAX,
        },
{
    let e: u128 = model.elements.len() as u128;
    let b: u128 = model.bindings.len() as u128;
    assert(e * b <= u64::MAX * u64::MAX) by (nonlinear_arith)
        requires
            e <= u64::MAX,
            b <= u64::MAX,
    ;
    if e * b > 4294967295u128 {
        return None;
    }
    proof {
        if model.bindings@.len() <= u32::MAX {
            law_broken_bounded_by_bindings(*model, probes@);
        } else if e >= 1 {
            assert(e * b >= b) by (nonlinear_arith)
                requires
                    e >= 1,
            ;
        } else {
            assert(element_findings(*model, probes@, 0) =~= Seq::<FindingView>::empty());
            assert(sort_findings(Seq::<FindingView>::empty()) =~= Seq::<FindingView>::empty());
        }
    }
    Some(scan(model, probes))
}

} // verus!
