//! Grep-shaped search across project content: the tolerant pattern parser, match windows,
//! deterministic ordering and deduplication, and budget-bounded rendering.
//!
//! Every leniency rule is mechanical and ordering is domain, then field weight, then locator,
//! so the same query over the same content always produces the same output.
use vstd::prelude::*;

use crate::text::{
    ascii_lower_chars, blen, chars_eq, chars_of, collapse, collapse_chars, contains,
    contains_chars, eq_lit, find_from, find_from_exec, is_alnum, is_alphanumeric, is_whitespace, is_ws,
    lemma_find_from_sound, lower_ascii_seq, lower_chars, lowercase, order_str, owned, push_chars,
    push_str_chars, seq_order, slice_chars, str_eq, string_of, trim, trim_chars, utf8_width,
    lemma_seq_order_eq, lemma_seq_order_antisym, lemma_seq_order_trans,
};

verus! {

broadcast use vstd::string::group_string_axioms;

/// Budget for the whole rendered response, in bytes.
pub const GREP_REPLY_BUDGET: usize = 8192;
/// Smallest excerpt that still shows the matched text rather than only its neighbourhood.
pub const MIN_PREVIEW_BUDGET: usize = 40;
/// Characters of context kept on each side of the match inside an excerpt.
pub const EXCERPT_CONTEXT_CHARS: usize = 60;
/// Hard cap for a matched artifact source: it may be matched, never returned whole.
pub const WINDOW_CAP: usize = 160;
/// Boundaries shown by the empty-pattern overview before it summarises the rest.
pub const OVERVIEW_BOUNDARY_LINES: usize = 12;
pub const DEFAULT_LIMIT: usize = 50;
pub const MAX_LIMIT: usize = 200;
pub const MAX_PATTERN_CHARS: usize = 4096;

pub const WEIGHT_NAME: u16 = 100;
pub const WEIGHT_DESCRIPTION: u16 = 200;
pub const WEIGHT_ARTIFACT: u16 = 250;
pub const WEIGHT_BINDING: u16 = 300;
pub const WEIGHT_DEFAULT: u16 = 400;
pub const WEIGHT_MEMORY_SUMMARY: u16 = 100;
pub const WEIGHT_MEMORY_BODY: u16 = 200;

/// A content domain. The declaration order is the output order.
#[derive(Clone, Copy, Debug, PartialEq, Eq, PartialOrd, Ord, Hash, Structural)]
pub enum GrepDomain {
    Design,
    Tasks,
    Memory,
}

pub open spec fn domain_rank(d: GrepDomain) -> int {
    match d {
        GrepDomain::Design => 0,
        GrepDomain::Tasks => 1,
        GrepDomain::Memory => 2,
    }
}

pub open spec fn domain_name(d: GrepDomain) -> Seq<char> {
    match d {
        GrepDomain::Design => "design"@,
        GrepDomain::Tasks => "tasks"@,
        GrepDomain::Memory => "memory"@,
    }
}

impl GrepDomain {
    pub fn as_str(self) -> (r: &'static str)
        ensures
            r@ == domain_name(self),
    {
        match self {
            GrepDomain::Design => "design",
            GrepDomain::Tasks => "tasks",
            GrepDomain::Memory => "memory",
        }
    }

    /// Position in the output order.
    pub fn rank(self) -> (r: u8)
        ensures
            r == domain_rank(self),
    {
        match self {
            GrepDomain::Design => 0,
            GrepDomain::Tasks => 1,
            GrepDomain::Memory => 2,
        }
    }
}

/// Domain scope of a search.
#[derive(Clone, Copy, Debug, PartialEq, Eq, Structural)]
pub enum GrepScope {
    /// Every project-content domain.
    All,
    Design,
    Tasks,
    Memory,
}

pub open spec fn scope_includes(s: GrepScope, d: GrepDomain) -> bool {
    match s {
        GrepScope::All => true,
        GrepScope::Design => d == GrepDomain::Design,
        GrepScope::Tasks => d == GrepDomain::Tasks,
        GrepScope::Memory => d == GrepDomain::Memory,
    }
}

pub open spec fn scope_domains(s: GrepScope) -> Seq<GrepDomain> {
    match s {
        GrepScope::All => seq![GrepDomain::Design, GrepDomain::Tasks, GrepDomain::Memory],
        GrepScope::Design => seq![GrepDomain::Design],
        GrepScope::Tasks => seq![GrepDomain::Tasks],
        GrepScope::Memory => seq![GrepDomain::Memory],
    }
}

/// The scope a word names, compared ASCII-case-insensitively.
pub open spec fn scope_of_word(w: Seq<char>) -> Option<GrepScope> {
    let l = lower_ascii_seq(w);
    if l == "all"@ {
        Some(GrepScope::All)
    } else if l == "design"@ {
        Some(GrepScope::Design)
    } else if l == "tasks"@ {
        Some(GrepScope::Tasks)
    } else if l == "memory"@ {
        Some(GrepScope::Memory)
    } else {
        None
    }
}


impl GrepScope {
    /// The domains this scope selects, in output order.
    pub fn domains(self) -> (r: Vec<GrepDomain>)
        ensures
            r@ == scope_domains(self),
    {
        let r = match self {
            GrepScope::All => vec![GrepDomain::Design, GrepDomain::Tasks, GrepDomain::Memory],
            GrepScope::Design => vec![GrepDomain::Design],
            GrepScope::Tasks => vec![GrepDomain::Tasks],
            GrepScope::Memory => vec![GrepDomain::Memory],
        };
        assert(r@ =~= scope_domains(self));
        r
    }

    /// Whether the scope selects a domain.
    pub fn includes(self, d: GrepDomain) -> (b: bool)
        ensures
            b == scope_includes(self, d),
    {
        match self {
            GrepScope::All => true,
            GrepScope::Design => d == GrepDomain::Design,
            GrepScope::Tasks => d == GrepDomain::Tasks,
            GrepScope::Memory => d == GrepDomain::Memory,
        }
    }

    pub fn from_word(word: &str) -> (r: Option<GrepScope>)
        ensures
            r == scope_of_word(word@),
    {
        let w = chars_of(word);
        let l = ascii_lower_chars(w.as_slice());
        if eq_lit(l.as_slice(), "all") {
            Some(GrepScope::All)
        } else if eq_lit(l.as_slice(), "design") {
            Some(GrepScope::Design)
        } else if eq_lit(l.as_slice(), "tasks") {
            Some(GrepScope::Tasks)
        } else if eq_lit(l.as_slice(), "memory") {
            Some(GrepScope::Memory)
        } else {
            None
        }
    }
}

/// Task state filter for a grep, in the task lifecycle's own vocabulary.
#[derive(Clone, Copy, Debug, PartialEq, Eq, Structural)]
pub enum GrepTaskState {
    Todo,
    Active,
    Finished,
    Closed,
}

pub open spec fn task_state_of_word(w: Seq<char>) -> Option<GrepTaskState> {
    let l = lower_ascii_seq(w);
    if l == "todo"@ {
        Some(GrepTaskState::Todo)
    } else if l == "active"@ {
        Some(GrepTaskState::Active)
    } else if l == "finished"@ {
        Some(GrepTaskState::Finished)
    } else if l == "closed"@ {
        Some(GrepTaskState::Closed)
    } else {
        None
    }
}

pub open spec fn invalid_state_message(w: Seq<char>) -> Seq<char> {
    "tasks.invalid_state: '"@ + w + "' is not a task state; use todo, active, finished or closed"@
}

pub open spec fn task_state_name(s: GrepTaskState) -> Seq<char> {
    match s {
        GrepTaskState::Todo => "todo"@,
        GrepTaskState::Active => "active"@,
        GrepTaskState::Finished => "finished"@,
        GrepTaskState::Closed => "closed"@,
    }
}

/// Builds `a + b + c` from three literal or borrowed pieces.
pub fn concat3(a: &str, b: &[char], c: &str) -> (r: String)
    ensures
        r@ == a@ + b@ + c@,
{
    let mut s = owned(a);
    push_chars(&mut s, b);
    push_str_chars(&mut s, c);
    s
}

impl GrepTaskState {
    /// A task state is closed vocabulary: an unrecognised word is reported with the accepted
    /// values rather than searched as text.
    pub fn from_word(word: &str) -> (r: Result<GrepTaskState, String>)
        ensures
            match r {
                Ok(s) => task_state_of_word(word@) == Some(s),
                Err(m) => task_state_of_word(word@) is None && m@ == invalid_state_message(
                    word@,
                ),
            },
    {
        let w = chars_of(word);
        let l = ascii_lower_chars(w.as_slice());
        if eq_lit(l.as_slice(), "todo") {
            Ok(GrepTaskState::Todo)
        } else if eq_lit(l.as_slice(), "active") {
            Ok(GrepTaskState::Active)
        } else if eq_lit(l.as_slice(), "finished") {
            Ok(GrepTaskState::Finished)
        } else if eq_lit(l.as_slice(), "closed") {
            Ok(GrepTaskState::Closed)
        } else {
            Err(
                concat3(
                    "tasks.invalid_state: '",
                    w.as_slice(),
                    "' is not a task state; use todo, active, finished or closed",
                ),
            )
        }
    }

    /// The lifecycle word for this state.
    pub fn as_str(self) -> (r: &'static str)
        ensures
            r@ == task_state_name(self),
    {
        match self {
            GrepTaskState::Todo => "todo",
            GrepTaskState::Active => "active",
            GrepTaskState::Finished => "finished",
            GrepTaskState::Closed => "closed",
        }
    }
}

/// One search term. `display` keeps the text as the caller wrote it; `needle` is what is
/// matched, always lower-cased.
#[derive(Clone, Debug, PartialEq, Eq)]
pub struct Term {
    pub needle: String,
    pub display: String,
}

/// A recognised filter clause.
#[derive(Clone, Debug, PartialEq, Eq)]
pub enum Clause {
    In(GrepScope),
    File(String),
    Type(String),
    State(GrepTaskState),
    Limit(usize),
}

/// The character-level meaning of a clause.
pub enum ClauseSpec {
    In(GrepScope),
    File(Seq<char>),
    Type(Seq<char>),
    State(GrepTaskState),
    Limit(usize),
}

impl View for Clause {
    type V = ClauseSpec;

    open spec fn view(&self) -> ClauseSpec {
        match self {
            Clause::In(s) => ClauseSpec::In(*s),
            Clause::File(f) => ClauseSpec::File(f@),
            Clause::Type(t) => ClauseSpec::Type(t@),
            Clause::State(s) => ClauseSpec::State(*s),
            Clause::Limit(l) => ClauseSpec::Limit(*l),
        }
    }
}

/// A parsed pattern: the AND-ed terms plus the clauses recognised as filters.
#[derive(Clone, Debug, PartialEq, Eq)]
pub struct Query {
    pub terms: Vec<Term>,
    pub clauses: Vec<Clause>,
}

pub open spec fn term_views(ts: Seq<Term>) -> Seq<(Seq<char>, Seq<char>)> {
    ts.map_values(|t: Term| (t.needle@, t.display@))
}

pub open spec fn clause_views(cs: Seq<Clause>) -> Seq<ClauseSpec> {
    cs.map_values(|c: Clause| c@)
}

/// The scope named by the last `in:` clause, else every domain.
pub open spec fn last_scope(cs: Seq<ClauseSpec>) -> GrepScope
    decreases cs.len(),
{
    if cs.len() == 0 {
        GrepScope::All
    } else {
        match cs.last() {
            ClauseSpec::In(s) => s,
            _ => last_scope(cs.drop_last()),
        }
    }
}

pub open spec fn last_file(cs: Seq<ClauseSpec>) -> Option<Seq<char>>
    decreases cs.len(),
{
    if cs.len() == 0 {
        None
    } else {
        match cs.last() {
            ClauseSpec::File(f) => Some(f),
            _ => last_file(cs.drop_last()),
        }
    }
}

pub open spec fn last_type(cs: Seq<ClauseSpec>) -> Option<Seq<char>>
    decreases cs.len(),
{
    if cs.len() == 0 {
        None
    } else {
        match cs.last() {
            ClauseSpec::Type(t) => Some(t),
            _ => last_type(cs.drop_last()),
        }
    }
}

pub open spec fn last_state(cs: Seq<ClauseSpec>) -> Option<GrepTaskState>
    decreases cs.len(),
{
    if cs.len() == 0 {
        None
    } else {
        match cs.last() {
            ClauseSpec::State(s) => Some(s),
            _ => last_state(cs.drop_last()),
        }
    }
}

pub open spec fn last_limit(cs: Seq<ClauseSpec>) -> usize
    decreases cs.len(),
{
    if cs.len() == 0 {
        DEFAULT_LIMIT
    } else {
        match cs.last() {
            ClauseSpec::Limit(l) => l,
            _ => last_limit(cs.drop_last()),
        }
    }
}

proof fn lemma_views_drop_last(cs: Seq<Clause>)
    requires
        cs.len() > 0,
    ensures
        clause_views(cs).drop_last() == clause_views(cs.drop_last()),
        clause_views(cs).last() == cs.last()@,
{
    assert(clause_views(cs).drop_last() =~= clause_views(cs.drop_last()));
}

impl Query {
    /// The last `in:` clause wins; without one every domain is searched.
    pub fn scope(&self) -> (r: GrepScope)
        ensures
            r == last_scope(clause_views(self.clauses@)),
    {
        let mut i = self.clauses.len();
        assert(self.clauses@.take(i as int) =~= self.clauses@);
        while i > 0
            invariant
                i <= self.clauses@.len(),
                last_scope(clause_views(self.clauses@)) == last_scope(
                    clause_views(self.clauses@.take(i as int)),
                ),
            decreases i,
        {
            proof {
                lemma_views_drop_last(self.clauses@.take(i as int));
                assert(self.clauses@.take(i as int).drop_last() =~= self.clauses@.take(i - 1));
            }
            if let Clause::In(s) = &self.clauses[i - 1] {
                return *s;
            }
            i -= 1;
        }
        GrepScope::All
    }

    /// The last `file:` clause.
    pub fn file(&self) -> (r: Option<&str>)
        ensures
            match r {
                Some(f) => last_file(clause_views(self.clauses@)) == Some(f@),
                None => last_file(clause_views(self.clauses@)) is None,
            },
    {
        let mut i = self.clauses.len();
        assert(self.clauses@.take(i as int) =~= self.clauses@);
        while i > 0
            invariant
                i <= self.clauses@.len(),
                last_file(clause_views(self.clauses@)) == last_file(
                    clause_views(self.clauses@.take(i as int)),
                ),
            decreases i,
        {
            proof {
                lemma_views_drop_last(self.clauses@.take(i as int));
                assert(self.clauses@.take(i as int).drop_last() =~= self.clauses@.take(i - 1));
            }
            if let Clause::File(f) = &self.clauses[i - 1] {
                return Some(f.as_str());
            }
            i -= 1;
        }
        None
    }

    /// The last `type:` clause.
    pub fn element_type(&self) -> (r: Option<&str>)
        ensures
            match r {
                Some(t) => last_type(clause_views(self.clauses@)) == Some(t@),
                None => last_type(clause_views(self.clauses@)) is None,
            },
    {
        let mut i = self.clauses.len();
        assert(self.clauses@.take(i as int) =~= self.clauses@);
        while i > 0
            invariant
                i <= self.clauses@.len(),
                last_type(clause_views(self.clauses@)) == last_type(
                    clause_views(self.clauses@.take(i as int)),
                ),
            decreases i,
        {
            proof {
                lemma_views_drop_last(self.clauses@.take(i as int));
                assert(self.clauses@.take(i as int).drop_last() =~= self.clauses@.take(i - 1));
            }
            if let Clause::Type(t) = &self.clauses[i - 1] {
                return Some(t.as_str());
            }
            i -= 1;
        }
        None
    }

    /// The last `state:` clause.
    pub fn task_state(&self) -> (r: Option<GrepTaskState>)
        ensures
            r == last_state(clause_views(self.clauses@)),
    {
        let mut i = self.clauses.len();
        assert(self.clauses@.take(i as int) =~= self.clauses@);
        while i > 0
            invariant
                i <= self.clauses@.len(),
                last_state(clause_views(self.clauses@)) == last_state(
                    clause_views(self.clauses@.take(i as int)),
                ),
            decreases i,
        {
            proof {
                lemma_views_drop_last(self.clauses@.take(i as int));
                assert(self.clauses@.take(i as int).drop_last() =~= self.clauses@.take(i - 1));
            }
            if let Clause::State(s) = &self.clauses[i - 1] {
                return Some(*s);
            }
            i -= 1;
        }
        None
    }

    /// The last `limit:` clause, else the default limit.
    pub fn limit(&self) -> (r: usize)
        ensures
            r == last_limit(clause_views(self.clauses@)),
    {
        let mut i = self.clauses.len();
        assert(self.clauses@.take(i as int) =~= self.clauses@);
        while i > 0
            invariant
                i <= self.clauses@.len(),
                last_limit(clause_views(self.clauses@)) == last_limit(
                    clause_views(self.clauses@.take(i as int)),
                ),
            decreases i,
        {
            proof {
                lemma_views_drop_last(self.clauses@.take(i as int));
                assert(self.clauses@.take(i as int).drop_last() =~= self.clauses@.take(i - 1));
            }
            if let Clause::Limit(l) = &self.clauses[i - 1] {
                return *l;
            }
            i -= 1;
        }
        DEFAULT_LIMIT
    }
}


// ---------------------------------------------------------------- the tolerant parser

/// What `str::parse::<usize>` accepts: an optional `+`, then one or more ASCII digits whose
/// value fits in `usize`.
pub open spec fn parse_usize_spec(s: Seq<char>) -> Option<usize> {
    let body = if s.len() > 0 && s[0] == '+' {
        s.drop_first()
    } else {
        s
    };
    if body.len() > 0 && all_digits(body) && digits_value(body) <= usize::MAX {
        Some(digits_value(body) as usize)
    } else {
        None
    }
}

pub open spec fn all_digits(s: Seq<char>) -> bool {
    forall|i: int| 0 <= i < s.len() ==> '0' <= #[trigger] s[i] && s[i] <= '9'
}

pub open spec fn digits_value(s: Seq<char>) -> nat
    decreases s.len(),
{
    if s.len() == 0 {
        0
    } else {
        digits_value(s.drop_last()) * 10 + ((s.last() as u32) - ('0' as u32)) as nat
    }
}

/// A prefix of a digit string is worth no more than the whole.
proof fn lemma_digits_value_prefix(s: Seq<char>, j: int)
    requires
        0 <= j <= s.len(),
        all_digits(s),
    ensures
        digits_value(s.take(j)) <= digits_value(s),
    decreases s.len() - j,
{
    if j < s.len() {
        lemma_digits_value_prefix(s, j + 1);
        assert(s.take(j + 1).drop_last() =~= s.take(j));
        assert(s.take(j + 1).last() == s[j]);
    } else {
        assert(s.take(j) =~= s);
    }
}

/// Reads a whole number the way `str::parse::<usize>` does: an optional `+`, then one or
/// more ASCII digits whose value fits in `usize`.
fn parse_usize(s: &str) -> (r: Option<usize>)
    ensures
        r == parse_usize_spec(s@),
{
    let cs = chars_of(s);
    let start: usize = if cs.len() > 0 && cs[0] == '+' {
        1
    } else {
        0
    };
    let ghost body = cs@.subrange(start as int, cs@.len() as int);
    assert(body =~= (if s@.len() > 0 && s@[0] == '+' {
        s@.drop_first()
    } else {
        s@
    }));
    if start >= cs.len() {
        return None;
    }
    let mut v: usize = 0;
    let mut i: usize = start;
    assert(body.take(0) =~= Seq::<char>::empty());
    while i < cs.len()
        invariant
            start <= i <= cs@.len(),
            start < cs@.len(),
            cs@ == s@,
            body == cs@.subrange(start as int, cs@.len() as int),
            body == (if s@.len() > 0 && s@[0] == '+' {
                s@.drop_first()
            } else {
                s@
            }),
            all_digits(body.take(i - start)),
            v == digits_value(body.take(i - start)),
        decreases cs.len() - i,
    {
        let c = cs[i];
        assert(body[i - start] == c);
        if !('0' <= c && c <= '9') {
            assert(!all_digits(body));
            return None;
        }
        let d: usize = ((c as u32) - ('0' as u32)) as usize;
        let ghost next = body.take(i - start + 1);
        assert(next.drop_last() =~= body.take(i - start));
        assert(next.last() == c);
        assert(all_digits(next));
        assert(digits_value(next) == v * 10 + d);
        if v > (usize::MAX - d) / 10 {
            assert(v * 10 + d > usize::MAX) by (nonlinear_arith)
                requires
                    v > (usize::MAX - d) / 10,
                    d <= 9,
            ;
            proof {
                if all_digits(body) {
                    lemma_digits_value_prefix(body, (i - start + 1) as int);
                }
            }
            return None;
        }
        assert(v * 10 + d <= usize::MAX) by (nonlinear_arith)
            requires
                v <= (usize::MAX - d) / 10,
                d <= 9,
        ;
        v = v * 10 + d;
        i += 1;
    }
    assert(body.take(i - start) =~= body);
    Some(v)
}

pub open spec fn invalid_scope_message(v: Seq<char>) -> Seq<char> {
    "grep.invalid_scope: '"@ + v + "' is not a scope; use all, design, tasks or memory"@
}

pub open spec fn not_whole_message(v: Seq<char>) -> Seq<char> {
    "grep.invalid_limit: '"@ + v + "' is not a whole number"@
}

pub open spec fn limit_range_message() -> Seq<char> {
    "grep.invalid_limit: limit must be 1..=200"@
}

pub open spec fn too_long_message() -> Seq<char> {
    "grep.pattern_too_long: patterns are limited to 4096 characters"@
}

/// What one whitespace-delimited token contributes to a query.
pub enum TokenEffect {
    Skip,
    Term(Seq<char>, Seq<char>),
    Clause(ClauseSpec),
    Error(Seq<char>),
}

/// The meaning of one token: an empty token is nothing; a quoted token or one without a
/// recognised `key:value` shape is a term; `in`, `file`, `type`, `state` and `limit` are
/// filters, and a malformed value on one of those is an error.
pub open spec fn token_effect(token: Seq<char>, quoted: bool) -> TokenEffect {
    if token.len() == 0 {
        TokenEffect::Skip
    } else {
        let display = if quoted {
            seq!['"'] + token + seq!['"']
        } else {
            token
        };
        let plain = TokenEffect::Term(lowercase(token), display);
        let colon = find_from(token, seq![':'], 0);
        if quoted || colon <= 0 {
            plain
        } else {
            let key = lower_ascii_seq(token.subrange(0, colon));
            let value = trim(token.subrange(colon + 1, token.len() as int));
            if value.len() == 0 {
                plain
            } else if key == "in"@ {
                match scope_of_word(value) {
                    Some(sc) => TokenEffect::Clause(ClauseSpec::In(sc)),
                    None => TokenEffect::Error(invalid_scope_message(value)),
                }
            } else if key == "file"@ {
                TokenEffect::Clause(ClauseSpec::File(value))
            } else if key == "type"@ {
                TokenEffect::Clause(ClauseSpec::Type(value))
            } else if key == "state"@ {
                match task_state_of_word(value) {
                    Some(st) => TokenEffect::Clause(ClauseSpec::State(st)),
                    None => TokenEffect::Error(invalid_state_message(value)),
                }
            } else if key == "limit"@ {
                match parse_usize_spec(value) {
                    None => TokenEffect::Error(not_whole_message(value)),
                    Some(n) => if 1 <= n && n <= MAX_LIMIT {
                        TokenEffect::Clause(ClauseSpec::Limit(n))
                    } else {
                        TokenEffect::Error(limit_range_message())
                    },
                }
            } else {
                plain
            }
        }
    }
}

/// Tokeniser state after a prefix of the pattern.
pub struct ScanState {
    pub quote: Option<char>,
    pub current: Seq<char>,
    pub was_quoted: bool,
    pub terms: Seq<(Seq<char>, Seq<char>)>,
    pub clauses: Seq<ClauseSpec>,
    pub error: Option<Seq<char>>,
}

pub open spec fn apply_effect(st: ScanState, e: TokenEffect) -> ScanState {
    match e {
        TokenEffect::Skip => st,
        TokenEffect::Term(n, d) => ScanState { terms: st.terms.push((n, d)), ..st },
        TokenEffect::Clause(c) => ScanState { clauses: st.clauses.push(c), ..st },
        TokenEffect::Error(m) => ScanState { error: Some(m), ..st },
    }
}

/// One character of the tokeniser. A quote opens a phrase only at a token boundary; inside a
/// word it is part of the word.
pub open spec fn scan_step(st: ScanState, c: char) -> ScanState {
    if st.error is Some {
        st
    } else {
        match st.quote {
            Some(active) => if c == active {
                ScanState { quote: None, was_quoted: true, ..st }
            } else {
                ScanState { current: st.current.push(c), ..st }
            },
            None => if c == '"' || c == '\'' {
                if st.current.len() == 0 {
                    ScanState { quote: Some(c), ..st }
                } else {
                    ScanState { current: st.current.push(c), ..st }
                }
            } else if is_ws(c) {
                apply_effect(
                    ScanState { current: Seq::empty(), was_quoted: false, ..st },
                    token_effect(st.current, st.was_quoted),
                )
            } else {
                ScanState { current: st.current.push(c), ..st }
            },
        }
    }
}

pub open spec fn scan_init() -> ScanState {
    ScanState {
        quote: None,
        current: Seq::empty(),
        was_quoted: false,
        terms: Seq::empty(),
        clauses: Seq::empty(),
        error: None,
    }
}

/// The tokeniser run over `s`, starting from `st`.
pub open spec fn scan_from(st: ScanState, s: Seq<char>) -> ScanState
    decreases s.len(),
{
    if s.len() == 0 {
        st
    } else {
        scan_step(scan_from(st, s.drop_last()), s.last())
    }
}

/// The state in which a still-open quote was met, with that quote taken as an ordinary
/// character. While a quote is open no token is completed, so everything but the token is
/// as it was then, and the characters after the quote are the open token itself.
pub open spec fn reopen(st: ScanState) -> ScanState {
    ScanState { quote: None, current: seq![st.quote->0], ..st }
}

/// Once the pattern is read: a quote that never closed is an ordinary character of its
/// token, and what followed it is tokenised again, so it cannot swallow the rest.
pub open spec fn settle(st: ScanState) -> ScanState
    decreases st.current.len(),
{
    if st.error is None && st.quote is Some {
        let next = scan_from(reopen(st), st.current);
        if next.error is None && next.quote is Some {
            proof {
                lemma_open_quote_shrinks(reopen(st), st.current);
            }
            settle(next)
        } else {
            next
        }
    } else {
        st
    }
}

/// The parsed pattern: its terms `(needle, display)` and clauses, or the first error.
pub open spec fn parse_spec(p: Seq<char>) -> Result<
    (Seq<(Seq<char>, Seq<char>)>, Seq<ClauseSpec>),
    Seq<char>,
> {
    if p.len() > MAX_PATTERN_CHARS {
        Err(too_long_message())
    } else {
        let st = settle(scan_from(scan_init(), p));
        match st.error {
            Some(m) => Err(m),
            None => {
                let fin = apply_effect(st, token_effect(st.current, st.was_quoted));
                match fin.error {
                    Some(m) => Err(m),
                    None => Ok((fin.terms, fin.clauses)),
                }
            },
        }
    }
}

/// A quote still open after `s` opened inside `s`, so its token is shorter than `s`.
pub proof fn lemma_open_quote_shrinks(st: ScanState, s: Seq<char>)
    requires
        st.quote is None,
    ensures
        scan_from(st, s).quote is Some ==> scan_from(st, s).current.len() < s.len(),
    decreases s.len(),
{
    if s.len() > 0 {
        lemma_open_quote_shrinks(st, s.drop_last());
    }
}

proof fn lemma_scan_error_sticky(st: ScanState, s: Seq<char>, i: int)
    requires
        0 <= i <= s.len(),
        scan_from(st, s.take(i)).error is Some,
    ensures
        scan_from(st, s).error == scan_from(st, s.take(i)).error,
    decreases s.len() - i,
{
    if i < s.len() {
        assert(s.take(i + 1).drop_last() =~= s.take(i));
        lemma_scan_error_sticky(st, s, i + 1);
    } else {
        assert(s.take(i) =~= s);
    }
}

/// Applies one token to the query being built.
fn push_token(
    token: Vec<char>,
    quoted: bool,
    terms: &mut Vec<Term>,
    clauses: &mut Vec<Clause>,
) -> (r: Result<(), String>)
    ensures
        match token_effect(token@, quoted) {
            TokenEffect::Skip => r is Ok && final(terms)@ == old(terms)@ && final(clauses)@ == old(
                clauses,
            )@,
            TokenEffect::Term(n, d) => r is Ok && term_views(final(terms)@) == term_views(
                old(terms)@,
            ).push((n, d)) && final(clauses)@ == old(clauses)@,
            TokenEffect::Clause(c) => r is Ok && final(terms)@ == old(terms)@ && clause_views(
                final(clauses)@,
            ) == clause_views(old(clauses)@).push(c),
            TokenEffect::Error(m) => r matches Err(e) && e@ == m && final(terms)@ == old(terms)@
                && final(clauses)@ == old(clauses)@,
        },
{
    if token.len() == 0 {
        return Ok(());
    }
    let display = if quoted {
        let mut d = String::new();
        d.push('"');
        push_chars(&mut d, token.as_slice());
        d.push('"');
        assert(d@ =~= seq!['"'] + token@ + seq!['"']);
        d
    } else {
        string_of(token.as_slice())
    };
    let ghost plain = TokenEffect::Term(lowercase(token@), display@);
    let colon_pattern = vec![':'];
    assert(colon_pattern@ =~= seq![':']);
    let found = find_from_exec(token.as_slice(), colon_pattern.as_slice(), 0);
    if !quoted {
        if let Some(colon) = found {
            proof {
                lemma_find_from_sound(token@, seq![':'], 0);
            }
            let key = slice_chars(token.as_slice(), 0, colon);
            let after = slice_chars(token.as_slice(), colon + 1, token.len());
            let value = trim_chars(after.as_slice());
            if key.len() > 0 && value.len() > 0 {
                let lkey = ascii_lower_chars(key.as_slice());
                if eq_lit(lkey.as_slice(), "in") {
                    let value_s = string_of(value.as_slice());
                    match GrepScope::from_word(value_s.as_str()) {
                        Some(sc) => {
                            clauses.push(Clause::In(sc));
                            proof {
                                assert(clause_views(clauses@) =~= clause_views(old(clauses)@).push(
                                    ClauseSpec::In(sc),
                                ));
                            }
                            return Ok(());
                        },
                        None => {
                            return Err(
                                concat3(
                                    "grep.invalid_scope: '",
                                    value.as_slice(),
                                    "' is not a scope; use all, design, tasks or memory",
                                ),
                            );
                        },
                    }
                } else if eq_lit(lkey.as_slice(), "file") {
                    let v = string_of(value.as_slice());
                    clauses.push(Clause::File(v));
                    proof {
                        assert(clause_views(clauses@) =~= clause_views(old(clauses)@).push(
                            ClauseSpec::File(value@),
                        ));
                    }
                    return Ok(());
                } else if eq_lit(lkey.as_slice(), "type") {
                    let v = string_of(value.as_slice());
                    clauses.push(Clause::Type(v));
                    proof {
                        assert(clause_views(clauses@) =~= clause_views(old(clauses)@).push(
                            ClauseSpec::Type(value@),
                        ));
                    }
                    return Ok(());
                } else if eq_lit(lkey.as_slice(), "state") {
                    let value_s = string_of(value.as_slice());
                    match GrepTaskState::from_word(value_s.as_str()) {
                        Ok(st) => {
                            clauses.push(Clause::State(st));
                            proof {
                                assert(clause_views(clauses@) =~= clause_views(old(clauses)@).push(
                                    ClauseSpec::State(st),
                                ));
                            }
                            return Ok(());
                        },
                        Err(m) => {
                            return Err(m);
                        },
                    }
                } else if eq_lit(lkey.as_slice(), "limit") {
                    let value_s = string_of(value.as_slice());
                    match parse_usize(value_s.as_str()) {
                        None => {
                            return Err(
                                concat3(
                                    "grep.invalid_limit: '",
                                    value.as_slice(),
                                    "' is not a whole number",
                                ),
                            );
                        },
                        Some(n) => {
                            if 1 <= n && n <= MAX_LIMIT {
                                clauses.push(Clause::Limit(n));
                                proof {
                                    assert(clause_views(clauses@) =~= clause_views(
                                        old(clauses)@,
                                    ).push(ClauseSpec::Limit(n)));
                                }
                                return Ok(());
                            } else {
                                return Err(owned("grep.invalid_limit: limit must be 1..=200"));
                            }
                        },
                    }
                }
            }
        }
    }
    let needle_chars = lower_chars(token.as_slice());
    let needle = string_of(needle_chars.as_slice());
    terms.push(Term { needle, display });
    proof {
        assert(term_views(terms@) =~= term_views(old(terms)@).push((lowercase(token@), display@)));
    }
    Ok(())
}

/// The tokeniser's working state.
struct Tokens {
    quote: Option<char>,
    current: Vec<char>,
    was_quoted: bool,
    terms: Vec<Term>,
    clauses: Vec<Clause>,
}

impl Tokens {
    spec fn state(&self) -> ScanState {
        ScanState {
            quote: self.quote,
            current: self.current@,
            was_quoted: self.was_quoted,
            terms: term_views(self.terms@),
            clauses: clause_views(self.clauses@),
            error: None,
        }
    }
}

/// Runs the tokeniser over `s`.
fn scan_chars(tk: &mut Tokens, s: &[char]) -> (r: Result<(), String>)
    ensures
        match r {
            Ok(()) => final(tk).state() == scan_from(old(tk).state(), s@),
            Err(m) => scan_from(old(tk).state(), s@).error == Some(m@),
        },
{
    let ghost st0 = tk.state();
    let mut i: usize = 0;
    assert(s@.take(0) =~= Seq::<char>::empty());
    while i < s.len()
        invariant
            i <= s@.len(),
            st0 == old(tk).state(),
            tk.state() == scan_from(st0, s@.take(i as int)),
        decreases s.len() - i,
    {
        let c = s[i];
        proof {
            assert(s@.take(i + 1).drop_last() =~= s@.take(i as int));
        }
        match tk.quote {
            Some(active) => {
                if c == active {
                    tk.quote = None;
                    tk.was_quoted = true;
                } else {
                    tk.current.push(c);
                }
            },
            None => {
                if c == '"' || c == '\'' {
                    if tk.current.len() == 0 {
                        tk.quote = Some(c);
                    } else {
                        tk.current.push(c);
                    }
                } else if is_whitespace(c) {
                    let ghost before = tk.state();
                    let mut token: Vec<char> = Vec::new();
                    std::mem::swap(&mut token, &mut tk.current);
                    let quoted = tk.was_quoted;
                    tk.was_quoted = false;
                    let pushed = push_token(token, quoted, &mut tk.terms, &mut tk.clauses);
                    if let Err(m) = pushed {
                        proof {
                            assert(token_effect(before.current, before.was_quoted)
                                == TokenEffect::Error(m@));
                            assert(scan_from(st0, s@.take(i + 1)).error == Some(m@));
                            lemma_scan_error_sticky(st0, s@, i + 1);
                            assert(s@.take(s@.len() as int) =~= s@);
                        }
                        return Err(m);
                    }
                } else {
                    tk.current.push(c);
                }
            },
        }
        i += 1;
    }
    assert(s@.take(s@.len() as int) =~= s@);
    Ok(())
}

/// Parses the tolerant pattern into terms and clauses.
///
/// Bare words, whitespace-separated terms, `"quoted phrases"` and `key:value` clauses all
/// tokenise the same way; a token that is not a recognised filter is searched as text, and a
/// malformed value on a recognised filter is reported rather than searched. A quote that is
/// never closed stays in its token.
pub fn parse_query(pattern: &str) -> (r: Result<Query, String>)
    ensures
        match r {
            Ok(q) => parse_spec(pattern@) == Ok::<
                (Seq<(Seq<char>, Seq<char>)>, Seq<ClauseSpec>),
                Seq<char>,
            >((term_views(q.terms@), clause_views(q.clauses@))),
            Err(m) => parse_spec(pattern@) == Err::<
                (Seq<(Seq<char>, Seq<char>)>, Seq<ClauseSpec>),
                Seq<char>,
            >(m@),
        },
{
    let p = chars_of(pattern);
    if p.len() > MAX_PATTERN_CHARS {
        return Err(owned("grep.pattern_too_long: patterns are limited to 4096 characters"));
    }
    let mut tk = Tokens {
        quote: None,
        current: Vec::new(),
        was_quoted: false,
        terms: Vec::new(),
        clauses: Vec::new(),
    };
    assert(term_views(tk.terms@) =~= Seq::empty());
    assert(clause_views(tk.clauses@) =~= Seq::empty());
    assert(tk.state() == scan_init());
    let scanned = scan_chars(&mut tk, p.as_slice());
    if let Err(m) = scanned {
        return Err(m);
    }
    while tk.quote.is_some()
        invariant
            p@ == pattern@,
            p@.len() <= MAX_PATTERN_CHARS,
            settle(tk.state()) == settle(scan_from(scan_init(), p@)),
        decreases (if tk.quote is Some {
            tk.current@.len() + 1
        } else {
            0
        }),
    {
        let ghost st = tk.state();
        let q = match tk.quote {
            Some(q) => q,
            None => ' ',
        };
        let mut rest: Vec<char> = Vec::new();
        rest.push(q);
        std::mem::swap(&mut rest, &mut tk.current);
        tk.quote = None;
        assert(tk.state() == reopen(st));
        let rescanned = scan_chars(&mut tk, rest.as_slice());
        proof {
            lemma_open_quote_shrinks(reopen(st), st.current);
        }
        if let Err(m) = rescanned {
            return Err(m);
        }
    }
    let token = tk.current;
    let quoted = tk.was_quoted;
    let mut terms = tk.terms;
    let mut clauses = tk.clauses;
    let pushed = push_token(token, quoted, &mut terms, &mut clauses);
    if let Err(m) = pushed {
        return Err(m);
    }
    Ok(Query { terms, clauses })
}

// ---------------------------------------------------------------- matching and windows

pub open spec fn needles_of(ts: Seq<Term>) -> Seq<Seq<char>> {
    ts.map_values(|t: Term| t.needle@)
}

/// Every term occurs in the lower-cased haystack; an empty term list matches nothing.
pub open spec fn matches_all_spec(hay: Seq<char>, needles: Seq<Seq<char>>) -> bool {
    needles.len() > 0 && forall|i: int|
        0 <= i < needles.len() ==> #[trigger] contains(lowercase(hay), needles[i])
}

/// Whether every term occurs in the haystack, case-insensitively.
pub fn matches_all(haystack: &str, terms: &[Term]) -> (b: bool)
    ensures
        b == matches_all_spec(haystack@, needles_of(terms@)),
{
    if terms.len() == 0 {
        return false;
    }
    let h = chars_of(haystack);
    let lowered = lower_chars(h.as_slice());
    let mut i: usize = 0;
    while i < terms.len()
        invariant
            i <= terms@.len(),
            lowered@ == lowercase(haystack@),
            forall|j: int| 0 <= j < i ==> #[trigger] contains(lowercase(haystack@), needles_of(terms@)[j]),
        decreases terms.len() - i,
    {
        let n = chars_of(terms[i].needle.as_str());
        if !contains_chars(lowered.as_slice(), n.as_slice()) {
            assert(!contains(lowercase(haystack@), needles_of(terms@)[i as int]));
            return false;
        }
        i += 1;
    }
    true
}

/// `(a.0, a.1)` precedes `(b.0, b.1)`: an earlier byte position, or the same position and a
/// longer needle.
pub open spec fn hit_less(a: (nat, nat), b: (nat, nat)) -> bool {
    a.0 < b.0 || (a.0 == b.0 && a.1 > b.1)
}

/// The earliest match over the needles, as `(byte position in the lower-cased text, needle
/// length in characters)`; among equal keys the first needle wins.
pub open spec fn best_hit(lowered: Seq<char>, needles: Seq<Seq<char>>) -> Option<(nat, nat)>
    decreases needles.len(),
{
    if needles.len() == 0 {
        None
    } else {
        let prev = best_hit(lowered, needles.drop_last());
        let n = needles.last();
        let at = find_from(lowered, n, 0);
        if at == -1 {
            prev
        } else {
            let cand = (blen(lowered.take(at)), n.len());
            match prev {
                None => Some(cand),
                Some(b) => if hit_less(cand, b) {
                    Some(cand)
                } else {
                    prev
                },
            }
        }
    }
}

/// Number of characters of `s` that start before byte offset `b`.
pub open spec fn count_below(s: Seq<char>, b: int) -> nat
    decreases s.len(),
{
    if s.len() == 0 {
        0
    } else {
        count_below(s.drop_last(), b) + if blen(s.drop_last()) < b {
            1nat
        } else {
            0nat
        }
    }
}

pub open spec fn sat_sub(a: int, b: int) -> int {
    if a >= b {
        a - b
    } else {
        0
    }
}

pub open spec fn min_int(a: int, b: int) -> int {
    if a <= b {
        a
    } else {
        b
    }
}

pub open spec fn max_int(a: int, b: int) -> int {
    if a >= b {
        a
    } else {
        b
    }
}

/// Moves a window start left while it sits inside a word.
pub open spec fn widen_left(cs: Seq<char>, f: int) -> int
    decreases f,
{
    if 0 < f < cs.len() && is_alnum(cs[f]) {
        widen_left(cs, f - 1)
    } else {
        f
    }
}

/// Moves a window end right while it cuts a word.
pub open spec fn widen_right(cs: Seq<char>, t: int) -> int
    decreases cs.len() - t,
{
    if 0 < t < cs.len() && is_alnum(cs[t - 1]) {
        widen_right(cs, t + 1)
    } else {
        t
    }
}

/// End of the matched text, in characters.
pub open spec fn match_end(len: int, start: int, nchars: int) -> int {
    min_int(start + max_int(nchars, 1), len)
}

/// The window `[from, to)` around a match at `start` of `nchars` characters: context on both
/// sides, widened to word boundaries, then fitted to the budget without losing the match.
pub open spec fn excerpt_window(cs: Seq<char>, start: int, nchars: int, budget: int) -> (int, int) {
    let len = cs.len() as int;
    let end = match_end(len, start, nchars);
    let from1 = widen_left(cs, sat_sub(start, EXCERPT_CONTEXT_CHARS as int));
    let to1 = widen_right(cs, min_int(end + EXCERPT_CONTEXT_CHARS, len));
    if to1 - from1 > budget {
        let w = fitted_window(len, start, end, from1, budget);
        (w.0, back_off(cs, w.1, end))
    } else {
        (from1, to1)
    }
}

/// Moves a window end left, never past the end of the match, while it cuts a word.
pub open spec fn back_off(cs: Seq<char>, t: int, end: int) -> int
    decreases t,
{
    if 0 <= end < t < cs.len() && is_alnum(cs[t - 1]) && is_alnum(cs[t]) {
        back_off(cs, t - 1, end)
    } else {
        t
    }
}

/// The window `[from, to)` does not end inside a word, unless that word is the match's own.
pub open spec fn tail_at_word_boundary(cs: Seq<char>, to: int, end: int) -> bool {
    to == cs.len() || to == end || !is_alnum(cs[to - 1]) || !is_alnum(cs[to])
}

/// A window that is wider than the budget keeps the match and spends what is left on the two
/// sides: two thirds before it where there is room.
pub open spec fn fitted_window(len: int, start: int, end: int, from1: int, budget: int) -> (
    int,
    int,
) {
    let fit = max_int(sat_sub(budget, 3), MIN_PREVIEW_BUDGET as int);
    let head0 = min_int(fit * 2 / 3, start - from1);
    let tail0 = sat_sub(fit, head0);
    let head = if tail0 > len - end {
        min_int(sat_sub(fit, len - end), start)
    } else {
        head0
    };
    let tail = if tail0 > len - end {
        len - end
    } else {
        tail0
    };
    let from2 = sat_sub(start, head);
    let to2 = min_int(end + tail, len);
    let to3 = if to2 - from2 > fit {
        from2 + fit
    } else {
        to2
    };
    if start < from2 || end > to3 {
        (start, end)
    } else {
        (from2, to3)
    }
}

/// The excerpt text for a window: ellipses mark cut ends, whitespace is collapsed, and a
/// window of only whitespace is named instead.
pub open spec fn excerpt_text(cs: Seq<char>, from: int, to: int, kind: Seq<char>) -> Seq<char> {
    let pre = if from > 0 {
        seq!['…']
    } else {
        Seq::empty()
    };
    let post = if to < cs.len() {
        seq!['…']
    } else {
        Seq::empty()
    };
    let collapsed = collapse(pre + cs.subrange(from, to) + post);
    if collapsed.len() == 0 {
        "(whitespace match in "@ + kind + ")"@
    } else {
        collapsed
    }
}

/// The excerpt of `text` around the earliest match of any needle, or `None` when no needle
/// occurs.
pub open spec fn excerpt_spec(
    text: Seq<char>,
    needles: Seq<Seq<char>>,
    kind: Seq<char>,
    budget: int,
) -> Option<Seq<char>> {
    match best_hit(lowercase(text), needles) {
        None => None,
        Some(hit) => {
            let start = count_below(text, hit.0 as int) as int;
            let w = excerpt_window(text, start, hit.1 as int, budget);
            Some(excerpt_text(text, w.0, w.1, kind))
        },
    }
}

proof fn lemma_widen_left(cs: Seq<char>, f: int)
    requires
        0 <= f,
    ensures
        0 <= widen_left(cs, f) <= f,
    decreases f,
{
    if 0 < f < cs.len() && is_alnum(cs[f]) {
        lemma_widen_left(cs, f - 1);
    }
}

proof fn lemma_widen_right(cs: Seq<char>, t: int)
    requires
        t <= cs.len(),
    ensures
        t <= widen_right(cs, t) <= cs.len(),
        widen_right(cs, t) == cs.len() || widen_right(cs, t) <= 0 || !is_alnum(
            cs[widen_right(cs, t) - 1],
        ),
    decreases cs.len() - t,
{
    if 0 < t < cs.len() && is_alnum(cs[t - 1]) {
        lemma_widen_right(cs, t + 1);
    }
}

proof fn lemma_back_off(cs: Seq<char>, t: int, end: int)
    requires
        0 <= end <= t <= cs.len(),
    ensures
        end <= back_off(cs, t, end) <= t,
        tail_at_word_boundary(cs, back_off(cs, t, end), end),
    decreases t,
{
    if 0 <= end < t < cs.len() && is_alnum(cs[t - 1]) && is_alnum(cs[t]) {
        lemma_back_off(cs, t - 1, end);
    }
}

pub proof fn lemma_count_below_le(s: Seq<char>, b: int)
    ensures
        count_below(s, b) <= s.len(),
    decreases s.len(),
{
    if s.len() > 0 {
        lemma_count_below_le(s.drop_last(), b);
    }
}

/// The window always holds the whole match, stays inside the text, and never ends inside a
/// word other than the match's own.
pub proof fn law_window_keeps_match(cs: Seq<char>, start: int, nchars: int, budget: int)
    requires
        0 <= start <= cs.len(),
        0 <= nchars,
    ensures
        ({
            let w = excerpt_window(cs, start, nchars, budget);
            let end = match_end(cs.len() as int, start, nchars);
            &&& 0 <= w.0 <= start
            &&& end <= w.1 <= cs.len()
            &&& tail_at_word_boundary(cs, w.1, end)
        }),
{
    let len = cs.len() as int;
    let end = match_end(len, start, nchars);
    let from1 = widen_left(cs, sat_sub(start, EXCERPT_CONTEXT_CHARS as int));
    lemma_widen_left(cs, sat_sub(start, EXCERPT_CONTEXT_CHARS as int));
    lemma_widen_right(cs, min_int(end + EXCERPT_CONTEXT_CHARS, len));
    let w = fitted_window(len, start, end, from1, budget);
    if end <= w.1 <= len {
        lemma_back_off(cs, w.1, end);
    }
}

/// Number of UTF-8 bytes of the first `k` characters.
fn prefix_blen(v: &[char], k: usize) -> (n: u128)
    requires
        k <= v@.len(),
    ensures
        n == blen(v@.take(k as int)),
{
    let mut n: u128 = 0;
    let mut i: usize = 0;
    while i < k
        invariant
            i <= k <= v@.len(),
            n == blen(v@.take(i as int)),
            n <= 4 * i,
        decreases k - i,
    {
        proof {
            assert(v@.take(i + 1).drop_last() =~= v@.take(i as int));
        }
        n = n + utf8_width(v[i]) as u128;
        i += 1;
    }
    n
}

/// Number of characters that start before byte offset `b`.
pub fn chars_below(v: &[char], b: u128) -> (r: usize)
    ensures
        r == count_below(v@, b as int),
{
    let mut r: usize = 0;
    let mut off: u128 = 0;
    let mut i: usize = 0;
    while i < v.len()
        invariant
            i <= v@.len(),
            off == blen(v@.take(i as int)),
            off <= 4 * i,
            r == count_below(v@.take(i as int), b as int),
            r <= i,
        decreases v.len() - i,
    {
        proof {
            assert(v@.take(i + 1).drop_last() =~= v@.take(i as int));
        }
        if off < b {
            r += 1;
        }
        off = off + utf8_width(v[i]) as u128;
        i += 1;
    }
    assert(v@.take(v@.len() as int) =~= v@);
    r
}

/// The best hit over the needles, computed as `best_hit` describes.
fn best_hit_exec(lowered: &[char], terms: &[Term]) -> (r: Option<(u128, usize)>)
    ensures
        match r {
            None => best_hit(lowered@, needles_of(terms@)) is None,
            Some(h) => best_hit(lowered@, needles_of(terms@)) == Some((h.0 as nat, h.1 as nat)),
        },
{
    let mut best: Option<(u128, usize)> = None;
    let mut i: usize = 0;
    while i < terms.len()
        invariant
            i <= terms@.len(),
            match best {
                None => best_hit(lowered@, needles_of(terms@).take(i as int)) is None,
                Some(h) => best_hit(lowered@, needles_of(terms@).take(i as int)) == Some(
                    (h.0 as nat, h.1 as nat),
                ),
            },
        decreases terms.len() - i,
    {
        proof {
            assert(needles_of(terms@).take(i + 1).drop_last() =~= needles_of(terms@).take(
                i as int,
            ));
        }
        let n = chars_of(terms[i].needle.as_str());
        match find_from_exec(lowered, n.as_slice(), 0) {
            None => {},
            Some(at) => {
                proof {
                    lemma_find_from_sound(lowered@, n@, 0);
                }
                let bytes = prefix_blen(lowered, at);
                let nlen = n.len();
                best = match best {
                    None => Some((bytes, nlen)),
                    Some(b) => {
                        if bytes < b.0 || (bytes == b.0 && nlen > b.1) {
                            Some((bytes, nlen))
                        } else {
                            Some(b)
                        }
                    },
                };
            },
        }
        i += 1;
    }
    assert(needles_of(terms@).take(terms@.len() as int) =~= needles_of(terms@));
    best
}

/// Computes `widen_left`.
fn widen_left_exec(cs: &[char], f0: usize) -> (r: usize)
    ensures
        r == widen_left(cs@, f0 as int),
{
    let mut f = f0;
    while 0 < f && f < cs.len() && is_alphanumeric(cs[f])
        invariant
            widen_left(cs@, f as int) == widen_left(cs@, f0 as int),
        decreases f,
    {
        f -= 1;
    }
    f
}

/// Computes `widen_right`.
fn widen_right_exec(cs: &[char], t0: usize) -> (r: usize)
    requires
        t0 <= cs@.len(),
    ensures
        r == widen_right(cs@, t0 as int),
{
    let mut t = t0;
    while 0 < t && t < cs.len() && is_alphanumeric(cs[t - 1])
        invariant
            t <= cs@.len(),
            widen_right(cs@, t as int) == widen_right(cs@, t0 as int),
        decreases cs.len() - t,
    {
        t += 1;
    }
    t
}

/// Computes `excerpt_window`.
fn excerpt_window_exec(cs: &[char], start: usize, nchars: usize, budget: usize) -> (r: (
    usize,
    usize,
))
    requires
        start <= cs@.len(),
    ensures
        (r.0 as int, r.1 as int) == excerpt_window(cs@, start as int, nchars as int, budget as int),
{
    let len = cs.len();
    let width = if nchars > 1 {
        nchars
    } else {
        1
    };
    let end = if width > len - start {
        len
    } else {
        start + width
    };
    let from0 = if start >= EXCERPT_CONTEXT_CHARS {
        start - EXCERPT_CONTEXT_CHARS
    } else {
        0
    };
    let to0 = if EXCERPT_CONTEXT_CHARS > len - end {
        len
    } else {
        end + EXCERPT_CONTEXT_CHARS
    };
    proof {
        lemma_widen_left(cs@, from0 as int);
    }
    let from1 = widen_left_exec(cs, from0);
    let to1 = widen_right_exec(cs, to0);
    proof {
        lemma_widen_right(cs@, to0 as int);
    }
    if to1 - from1 > budget {
        let w = fitted_window_exec(len, start, end, from1, budget);
        let to = back_off_exec(cs, w.1, end);
        (w.0, to)
    } else {
        (from1, to1)
    }
}

/// Computes `back_off`.
fn back_off_exec(cs: &[char], t0: usize, end: usize) -> (r: usize)
    ensures
        r == back_off(cs@, t0 as int, end as int),
{
    let mut t = t0;
    while end < t && t < cs.len() && is_alphanumeric(cs[t - 1]) && is_alphanumeric(cs[t])
        invariant
            back_off(cs@, t as int, end as int) == back_off(cs@, t0 as int, end as int),
        decreases t,
    {
        t -= 1;
    }
    t
}

/// Computes `fitted_window`.
#[verifier::spinoff_prover]
#[verifier::rlimit(30)]
fn fitted_window_exec(len: usize, start: usize, end: usize, from1: usize, budget: usize) -> (r: (
    usize,
    usize,
))
    requires
        from1 <= start <= end <= len,
    ensures
        (r.0 as int, r.1 as int) == fitted_window(
            len as int,
            start as int,
            end as int,
            from1 as int,
            budget as int,
        ),
{
    let fit = if budget >= 3 && budget - 3 > MIN_PREVIEW_BUDGET {
        budget - 3
    } else {
        MIN_PREVIEW_BUDGET
    };
    assert(fit == max_int(sat_sub(budget as int, 3), MIN_PREVIEW_BUDGET as int));
    let two_thirds = fit / 3 * 2 + (fit % 3) * 2 / 3;
    assert(two_thirds == fit * 2 / 3) by (nonlinear_arith)
        requires
            two_thirds == fit / 3 * 2 + (fit % 3) * 2 / 3,
    ;
    let head0 = if two_thirds <= start - from1 {
        two_thirds
    } else {
        start - from1
    };
    let tail0 = if fit >= head0 {
        fit - head0
    } else {
        0
    };
    let rest = len - end;
    let ghost g_head0 = min_int(fit * 2 / 3, start - from1);
    assert(head0 == g_head0);
    assert(tail0 == sat_sub(fit as int, g_head0));
    let mut head = head0;
    let mut tail = tail0;
    if tail0 > rest {
        let h = if fit >= rest {
            fit - rest
        } else {
            0
        };
        head = if h <= start {
            h
        } else {
            start
        };
        tail = rest;
    }
    let from2 = if start >= head {
        start - head
    } else {
        0
    };
    let to2 = if tail > len - end {
        len
    } else {
        end + tail
    };
    let to3 = if to2 - from2 > fit {
        from2 + fit
    } else {
        to2
    };
    if start < from2 || end > to3 {
        (start, end)
    } else {
        (from2, to3)
    }
}

/// Window around the earliest match, never cut mid-word at the tail, and never losing the
/// match to the budget.
pub fn render_excerpt(text: &str, terms: &[Term], kind: &str, budget: usize) -> (r: Option<
    String,
>)
    ensures
        match r {
            None => excerpt_spec(text@, needles_of(terms@), kind@, budget as int) is None,
            Some(e) => excerpt_spec(text@, needles_of(terms@), kind@, budget as int) == Some(e@),
        },
{
    let cs = chars_of(text);
    let lowered = lower_chars(cs.as_slice());
    let hit = best_hit_exec(lowered.as_slice(), terms);
    let (byte_start, nchars) = match hit {
        None => {
            return None;
        },
        Some(h) => h,
    };
    let start = chars_below(cs.as_slice(), byte_start);
    proof {
        lemma_count_below_le(cs@, byte_start as int);
    }
    let (from, to) = excerpt_window_exec(cs.as_slice(), start, nchars, budget);
    proof {
        law_window_keeps_match(cs@, start as int, nchars as int, budget as int);
    }
    let mut excerpt: Vec<char> = Vec::new();
    if from > 0 {
        excerpt.push('…');
    }
    let mut i = from;
    while i < to
        invariant
            from <= i <= to <= cs@.len(),
            excerpt@ == (if from > 0 {
                seq!['…']
            } else {
                Seq::<char>::empty()
            }) + cs@.subrange(from as int, i as int),
        decreases to - i,
    {
        excerpt.push(cs[i]);
        i += 1;
        proof {
            let pre = if from > 0 {
                seq!['…']
            } else {
                Seq::<char>::empty()
            };
            assert(excerpt@ =~= pre + cs@.subrange(from as int, i as int));
        }
    }
    if to < cs.len() {
        excerpt.push('…');
    }
    proof {
        let pre = if from > 0 {
            seq!['…']
        } else {
            Seq::<char>::empty()
        };
        let post = if to < cs@.len() {
            seq!['…']
        } else {
            Seq::<char>::empty()
        };
        assert(excerpt@ =~= pre + cs@.subrange(from as int, to as int) + post);
    }
    let collapsed = collapse_chars(excerpt.as_slice());
    if collapsed.len() == 0 {
        let k = chars_of(kind);
        return Some(concat3("(whitespace match in ", k.as_slice(), ")"));
    }
    Some(string_of(collapsed.as_slice()))
}


// ---------------------------------------------------------------- candidates and matches

/// One searchable field of one artifact.
#[derive(Clone, Debug)]
pub struct Candidate {
    pub domain: GrepDomain,
    /// The drillable address, rendered exactly as it appears in the output.
    pub locator: String,
    pub kind: String,
    pub weight: u16,
    /// The whole searchable text of this one field.
    pub text: String,
    /// Artifact source and other open-ended values: matched, and only ever returned as a
    /// short window.
    pub windowed: bool,
}

/// A candidate whose field matched every term.
#[derive(Clone, Debug)]
pub struct Match {
    pub domain: GrepDomain,
    pub locator: String,
    pub kind: String,
    pub weight: u16,
    pub text: String,
    pub windowed: bool,
}

/// The character-level content of a candidate or match.
pub struct HitView {
    pub domain: GrepDomain,
    pub locator: Seq<char>,
    pub kind: Seq<char>,
    pub weight: u16,
    pub text: Seq<char>,
    pub windowed: bool,
}

pub open spec fn candidate_view(c: Candidate) -> HitView {
    HitView {
        domain: c.domain,
        locator: c.locator@,
        kind: c.kind@,
        weight: c.weight,
        text: c.text@,
        windowed: c.windowed,
    }
}

pub open spec fn match_view(m: Match) -> HitView {
    HitView {
        domain: m.domain,
        locator: m.locator@,
        kind: m.kind@,
        weight: m.weight,
        text: m.text@,
        windowed: m.windowed,
    }
}

pub open spec fn candidate_views(cs: Seq<Candidate>) -> Seq<HitView> {
    cs.map_values(|c: Candidate| candidate_view(c))
}

pub open spec fn match_views(ms: Seq<Match>) -> Seq<HitView> {
    ms.map_values(|m: Match| match_view(m))
}

impl Candidate {
    pub fn new(domain: GrepDomain, locator: &str, kind: &str, weight: u16, text: &str) -> (c:
        Candidate)
        ensures
            candidate_view(c) == (HitView {
                domain,
                locator: locator@,
                kind: kind@,
                weight,
                text: text@,
                windowed: false,
            }),
    {
        Candidate {
            domain,
            locator: owned(locator),
            kind: owned(kind),
            weight,
            text: owned(text),
            windowed: false,
        }
    }

    /// The same candidate, marked as an open-ended source that is only returned as a window.
    pub fn windowed(self) -> (c: Candidate)
        ensures
            candidate_view(c) == (HitView { windowed: true, ..candidate_view(self) }),
    {
        let mut c = self;
        c.windowed = true;
        c
    }
}

/// The deterministic output order: domain, then field weight, then locator, then field kind.
pub open spec fn hit_lt(a: HitView, b: HitView) -> bool {
    if domain_rank(a.domain) != domain_rank(b.domain) {
        domain_rank(a.domain) < domain_rank(b.domain)
    } else if a.weight != b.weight {
        a.weight < b.weight
    } else if seq_order(a.locator, b.locator) != 0 {
        seq_order(a.locator, b.locator) < 0
    } else {
        seq_order(a.kind, b.kind) < 0
    }
}

/// Where a stable insertion puts `x`: after every element it does not precede.
pub open spec fn insert_pos(s: Seq<HitView>, x: HitView) -> int
    decreases s.len(),
{
    if s.len() == 0 {
        0
    } else if hit_lt(x, s.last()) {
        insert_pos(s.drop_last(), x)
    } else {
        s.len() as int
    }
}

/// Stable sort by `hit_lt`.
pub open spec fn sort_hits(s: Seq<HitView>) -> Seq<HitView>
    decreases s.len(),
{
    if s.len() == 0 {
        Seq::empty()
    } else {
        let sorted = sort_hits(s.drop_last());
        sorted.insert(insert_pos(sorted, s.last()), s.last())
    }
}

/// Identity used for deduplication: whitespace collapsed, then lower-cased.
pub open spec fn dedup_key_spec(text: Seq<char>) -> Seq<char> {
    lowercase(collapse(text))
}

pub open spec fn same_hit_key(a: HitView, b: HitView) -> bool {
    a.locator == b.locator && dedup_key_spec(a.text) == dedup_key_spec(b.text)
}

/// Keeps the first of every `(locator, dedup key)`.
pub open spec fn dedup_hits(s: Seq<HitView>) -> Seq<HitView>
    decreases s.len(),
{
    if s.len() == 0 {
        Seq::empty()
    } else {
        let d = dedup_hits(s.drop_last());
        if exists|k: int| 0 <= k < s.len() - 1 && same_hit_key(#[trigger] s[k], s.last()) {
            d
        } else {
            d.push(s.last())
        }
    }
}

/// A candidate is a hit when its text is not blank and holds every term.
pub open spec fn keep_candidate(c: HitView, needles: Seq<Seq<char>>) -> bool {
    trim(c.text).len() > 0 && matches_all_spec(c.text, needles)
}

pub open spec fn filter_hits(s: Seq<HitView>, needles: Seq<Seq<char>>) -> Seq<HitView>
    decreases s.len(),
{
    if s.len() == 0 {
        Seq::empty()
    } else {
        let f = filter_hits(s.drop_last(), needles);
        if keep_candidate(s.last(), needles) {
            f.push(s.last())
        } else {
            f
        }
    }
}

/// Filters, orders and deduplicates candidates into the final match list.
pub open spec fn collect_spec(cs: Seq<HitView>, needles: Seq<Seq<char>>) -> Seq<HitView> {
    dedup_hits(sort_hits(filter_hits(cs, needles)))
}

/// The deduplication key of a text.
pub fn dedup_key(text: &str) -> (r: String)
    ensures
        r@ == dedup_key_spec(text@),
{
    let v = chars_of(text);
    let c = collapse_chars(v.as_slice());
    let l = lower_chars(c.as_slice());
    string_of(l.as_slice())
}

/// Whether `a` precedes `b` in the output order.
fn hit_before(a: &Match, b: &Match) -> (r: bool)
    ensures
        r == hit_lt(match_view(*a), match_view(*b)),
{
    let ra = a.domain.rank();
    let rb = b.domain.rank();
    if ra != rb {
        return ra < rb;
    }
    if a.weight != b.weight {
        return a.weight < b.weight;
    }
    let l = order_str(a.locator.as_str(), b.locator.as_str());
    if l != 0 {
        return l < 0;
    }
    order_str(a.kind.as_str(), b.kind.as_str()) < 0
}

/// Inserts a match at its stable position in an already ordered list.
fn insert_match(out: &mut Vec<Match>, x: Match)
    ensures
        match_views(final(out)@) == match_views(old(out)@).insert(
            insert_pos(match_views(old(out)@), match_view(x)),
            match_view(x),
        ),
{
    let ghost s = match_views(out@);
    let mut j = out.len();
    assert(s.take(j as int) =~= s);
    while j > 0 && hit_before(&x, &out[j - 1])
        invariant
            j <= out@.len(),
            s == match_views(out@),
            insert_pos(s, match_view(x)) == insert_pos(s.take(j as int), match_view(x)),
        decreases j,
    {
        proof {
            assert(s.take(j as int).drop_last() =~= s.take(j - 1));
        }
        j -= 1;
    }
    proof {
        if j > 0 {
            assert(s.take(j as int).last() == s[j - 1]);
        }
        assert(insert_pos(s.take(j as int), match_view(x)) == j);
    }
    out.insert(j, x);
    proof {
        assert(match_views(out@) =~= s.insert(j as int, match_view(x)));
    }
}

/// Filters, orders and deduplicates candidates into the final match list.
///
/// Text that repeats inside one artifact collapses to its best field, so a description that
/// also matches a binding is not reported twice.
pub fn collect_matches(candidates: &[Candidate], terms: &[Term]) -> (r: Vec<Match>)
    ensures
        match_views(r@) == collect_spec(candidate_views(candidates@), needles_of(terms@)),
{
    let ghost needles = needles_of(terms@);
    let ghost cv = candidate_views(candidates@);
    let mut sorted: Vec<Match> = Vec::new();
    let mut i: usize = 0;
    while i < candidates.len()
        invariant
            i <= candidates@.len(),
            needles == needles_of(terms@),
            cv == candidate_views(candidates@),
            match_views(sorted@) == sort_hits(filter_hits(cv.take(i as int), needles)),
        decreases candidates.len() - i,
    {
        let ghost f = filter_hits(cv.take(i as int), needles);
        proof {
            assert(cv.take(i + 1).drop_last() =~= cv.take(i as int));
            assert(cv.take(i + 1).last() == cv[i as int]);
            assert(cv[i as int] == candidate_view(candidates@[i as int]));
        }
        let c = &candidates[i];
        let t = chars_of(c.text.as_str());
        let tt = trim_chars(t.as_slice());
        let keep = tt.len() > 0 && matches_all(c.text.as_str(), terms);
        proof {
            assert(keep == keep_candidate(cv[i as int], needles));
        }
        if keep {
            let m = Match {
                domain: c.domain,
                locator: c.locator.clone(),
                kind: c.kind.clone(),
                weight: c.weight,
                text: c.text.clone(),
                windowed: c.windowed,
            };
            assert(match_view(m) == cv[i as int]);
            insert_match(&mut sorted, m);
            proof {
                let x = cv[i as int];
                assert(filter_hits(cv.take(i + 1), needles) == f.push(x));
                assert(f.push(x).drop_last() =~= f);
                assert(f.push(x).last() == x);
            }
        } else {
            assert(filter_hits(cv.take(i + 1), needles) == f);
        }
        i += 1;
    }
    assert(cv.take(candidates@.len() as int) =~= cv);
    let ghost sv = match_views(sorted@);
    let mut keys: Vec<Vec<char>> = Vec::new();
    let mut out: Vec<Match> = Vec::new();
    let mut k: usize = 0;
    assert(match_views(out@) =~= dedup_hits(sv.take(0)));
    while k < sorted.len()
        invariant
            k <= sorted@.len(),
            sv == match_views(sorted@),
            keys@.len() == k,
            forall|j: int| 0 <= j < k ==> (#[trigger] keys@[j])@ == dedup_key_spec(sv[j].text),
            match_views(out@) == dedup_hits(sv.take(k as int)),
        decreases sorted.len() - k,
    {
        let hit = &sorted[k];
        let key = chars_of(dedup_key(hit.text.as_str()).as_str());
        assert(match_view(*hit) == sv[k as int]);
        let mut seen = false;
        let mut j: usize = 0;
        while j < k
            invariant
                j <= k,
                k < sorted@.len(),
                sv == match_views(sorted@),
                keys@.len() == k,
                forall|q: int| 0 <= q < k ==> (#[trigger] keys@[q])@ == dedup_key_spec(sv[q].text),
                key@ == dedup_key_spec(sv[k as int].text),
                match_view(*hit) == sv[k as int],
                seen == exists|q: int| 0 <= q < j && same_hit_key(#[trigger] sv[q], sv[k as int]),
            decreases k - j,
        {
            let eq_key = chars_eq(keys[j].as_slice(), key.as_slice());
            let eq_loc = eq_key && str_eq(sorted[j].locator.as_str(), hit.locator.as_str());
            proof {
                assert(sv[j as int] == match_view(sorted@[j as int]));
                assert(sv[k as int] == match_view(sorted@[k as int]));
                assert((eq_loc && eq_key) == same_hit_key(sv[j as int], sv[k as int]));
            }
            let ghost was = seen;
            if eq_loc && eq_key {
                seen = true;
            }
            proof {
                if seen {
                    if !was {
                        assert(same_hit_key(sv[j as int], sv[k as int]));
                    }
                } else {
                    assert forall|q: int| 0 <= q < j + 1 implies !same_hit_key(
                        #[trigger] sv[q],
                        sv[k as int],
                    ) by {
                        if q < j {
                        }
                    }
                }
            }
            j += 1;
        }
        proof {
            let t = sv.take(k + 1);
            assert(t.drop_last() =~= sv.take(k as int));
            assert(t.last() == sv[k as int]);
            assert forall|q: int| 0 <= q < t.len() - 1 implies t[q] == sv[q] by {}
            if seen {
                let q = choose|q: int| 0 <= q < k && same_hit_key(#[trigger] sv[q], sv[k as int]);
                assert(same_hit_key(t[q], t.last()));
            } else {
                assert(!(exists|q: int| 0 <= q < t.len() - 1 && same_hit_key(#[trigger] t[q], t.last())));
            }
        }
        if !seen {
            out.push(hit.clone_match());
            proof {
                assert(match_views(out@) =~= dedup_hits(sv.take(k as int)).push(sv[k as int]));
            }
        }
        keys.push(key);
        k += 1;
    }
    assert(sv.take(sorted@.len() as int) =~= sv);
    out
}

// ---------------------------------------------------------------- laws of the match list

/// No later hit precedes an earlier one.
pub open spec fn hits_sorted(s: Seq<HitView>) -> bool {
    forall|i: int, j: int| 0 <= i < j < s.len() ==> !hit_lt(#[trigger] s[j], #[trigger] s[i])
}

proof fn lemma_hit_lt_asym(a: HitView, b: HitView)
    ensures
        hit_lt(a, b) ==> !hit_lt(b, a),
{
    lemma_seq_order_antisym(a.locator, b.locator);
    lemma_seq_order_antisym(a.kind, b.kind);
}

proof fn lemma_hit_le_trans(a: HitView, b: HitView, c: HitView)
    requires
        !hit_lt(b, a),
        !hit_lt(c, b),
    ensures
        !hit_lt(c, a),
{
    lemma_seq_order_eq(a.locator, b.locator);
    lemma_seq_order_eq(b.locator, c.locator);
    lemma_seq_order_eq(a.locator, c.locator);
    lemma_seq_order_antisym(a.locator, b.locator);
    lemma_seq_order_antisym(b.locator, c.locator);
    lemma_seq_order_antisym(a.locator, c.locator);
    lemma_seq_order_antisym(a.kind, b.kind);
    lemma_seq_order_antisym(b.kind, c.kind);
    lemma_seq_order_antisym(a.kind, c.kind);
    if seq_order(a.locator, b.locator) <= 0 && seq_order(b.locator, c.locator) <= 0 {
        lemma_seq_order_trans(a.locator, b.locator, c.locator);
    }
    if seq_order(a.kind, b.kind) <= 0 && seq_order(b.kind, c.kind) <= 0 {
        lemma_seq_order_trans(a.kind, b.kind, c.kind);
    }
}

proof fn lemma_insert_pos_props(s: Seq<HitView>, x: HitView)
    ensures
        0 <= insert_pos(s, x) <= s.len(),
        forall|q: int| insert_pos(s, x) <= q < s.len() ==> hit_lt(x, #[trigger] s[q]),
        insert_pos(s, x) > 0 ==> !hit_lt(x, s[insert_pos(s, x) - 1]),
    decreases s.len(),
{
    if s.len() > 0 && hit_lt(x, s.last()) {
        let t = s.drop_last();
        lemma_insert_pos_props(t, x);
        assert forall|q: int| insert_pos(s, x) <= q < s.len() implies hit_lt(x, #[trigger] s[q]) by {
            if q < t.len() {
                assert(s[q] == t[q]);
            }
        }
        if insert_pos(s, x) > 0 {
            assert(s[insert_pos(s, x) - 1] == t[insert_pos(t, x) - 1]);
        }
    }
}

/// The stable sort orders its input and neither loses nor invents a hit.
proof fn lemma_sort_hits(s: Seq<HitView>)
    ensures
        hits_sorted(sort_hits(s)),
        sort_hits(s).to_multiset() == s.to_multiset(),
        sort_hits(s).len() == s.len(),
    decreases s.len(),
{
    broadcast use vstd::seq_lib::group_to_multiset_ensures;

    if s.len() > 0 {
        let t = s.drop_last();
        let x = s.last();
        lemma_sort_hits(t);
        let sorted = sort_hits(t);
        let p = insert_pos(sorted, x);
        lemma_insert_pos_props(sorted, x);
        let r = sorted.insert(p, x);
        sorted.insert_ensures(p, x);
        assert(r == sort_hits(s));
        assert forall|i: int, j: int| 0 <= i < j < r.len() implies !hit_lt(
            #[trigger] r[j],
            #[trigger] r[i],
        ) by {
            if j < p {
            } else if j == p {
                if i < p - 1 {
                    lemma_hit_le_trans(sorted[i], sorted[p - 1], x);
                }
            } else if i == p {
                assert(r[j] == sorted[j - 1]);
                lemma_hit_lt_asym(x, sorted[j - 1]);
            } else if i < p {
                assert(r[j] == sorted[j - 1]);
            } else {
                assert(r[j] == sorted[j - 1]);
                assert(r[i] == sorted[i - 1]);
            }
        }
        assert(s =~= t.push(x));
    }
}

/// Deduplication keeps hits of the input only.
proof fn lemma_dedup_sound(s: Seq<HitView>)
    ensures
        forall|i: int| 0 <= i < dedup_hits(s).len() ==> s.contains(#[trigger] dedup_hits(s)[i]),
    decreases s.len(),
{
    if s.len() > 0 {
        let t = s.drop_last();
        let d = dedup_hits(t);
        let r = dedup_hits(s);
        lemma_dedup_sound(t);
        assert forall|i: int| 0 <= i < r.len() implies s.contains(#[trigger] r[i]) by {
            if i < d.len() {
                assert(r[i] == d[i]);
                let k = choose|k: int| 0 <= k < t.len() && t[k] == d[i];
                assert(s[k] == t[k]);
            } else {
                assert(r[i] == s[s.len() - 1]);
            }
        }
    }
}

/// Deduplication keeps at most one hit per key.
proof fn lemma_dedup_distinct(s: Seq<HitView>)
    ensures
        forall|i: int, j: int|
            0 <= i < j < dedup_hits(s).len() ==> !same_hit_key(
                #[trigger] dedup_hits(s)[i],
                #[trigger] dedup_hits(s)[j],
            ),
    decreases s.len(),
{
    if s.len() > 0 {
        let t = s.drop_last();
        let d = dedup_hits(t);
        let r = dedup_hits(s);
        lemma_dedup_distinct(t);
        lemma_dedup_sound(t);
        if r != d {
            assert(r == d.push(s.last()));
            assert forall|i: int, j: int| 0 <= i < j < r.len() implies !same_hit_key(
                #[trigger] r[i],
                #[trigger] r[j],
            ) by {
                assert(r[i] == d[i]);
                if j == d.len() {
                    let k = choose|k: int| 0 <= k < t.len() && t[k] == d[i];
                    assert(s[k] == t[k]);
                    assert(!same_hit_key(s[k], s.last()));
                } else {
                    assert(r[j] == d[j]);
                }
            }
        }
    }
}

/// Every key of the input keeps a representative.
proof fn lemma_dedup_complete(s: Seq<HitView>)
    ensures
        forall|j: int|
            0 <= j < s.len() ==> exists|i: int|
                0 <= i < dedup_hits(s).len() && same_hit_key(
                    #[trigger] dedup_hits(s)[i],
                    #[trigger] s[j],
                ),
    decreases s.len(),
{
    if s.len() > 0 {
        let t = s.drop_last();
        let d = dedup_hits(t);
        let r = dedup_hits(s);
        lemma_dedup_complete(t);
        assert(r == d || r == d.push(s.last()));
        assert forall|j: int| 0 <= j < s.len() implies exists|i: int|
            0 <= i < r.len() && same_hit_key(#[trigger] r[i], #[trigger] s[j]) by {
            if j == s.len() - 1 {
                if r == d {
                    let k = choose|k: int|
                        0 <= k < s.len() - 1 && same_hit_key(#[trigger] s[k], s.last());
                    assert(t[k] == s[k]);
                    let i = choose|i: int|
                        0 <= i < d.len() && same_hit_key(#[trigger] d[i], #[trigger] t[k]);
                    assert(same_hit_key(r[i], s[j]));
                } else {
                    assert(same_hit_key(r[d.len() as int], s[j]));
                }
            } else {
                assert(t[j] == s[j]);
                let i = choose|i: int|
                    0 <= i < d.len() && same_hit_key(#[trigger] d[i], #[trigger] t[j]);
                assert(r[i] == d[i]);
                assert(same_hit_key(r[i], s[j]));
            }
        }
    }
}

/// Deduplication keeps the input's order.
proof fn lemma_dedup_sorted(s: Seq<HitView>)
    requires
        hits_sorted(s),
    ensures
        hits_sorted(dedup_hits(s)),
    decreases s.len(),
{
    if s.len() > 0 {
        let t = s.drop_last();
        let d = dedup_hits(t);
        let r = dedup_hits(s);
        assert forall|i: int, j: int| 0 <= i < j < t.len() implies !hit_lt(
            #[trigger] t[j],
            #[trigger] t[i],
        ) by {
            assert(t[j] == s[j] && t[i] == s[i]);
        }
        lemma_dedup_sorted(t);
        lemma_dedup_sound(t);
        if r != d {
            assert(r == d.push(s.last()));
            assert forall|i: int, j: int| 0 <= i < j < r.len() implies !hit_lt(
                #[trigger] r[j],
                #[trigger] r[i],
            ) by {
                assert(r[i] == d[i]);
                if j == d.len() {
                    let k = choose|k: int| 0 <= k < t.len() && t[k] == d[i];
                    assert(s[k] == t[k]);
                    assert(!hit_lt(s[s.len() - 1], s[k]));
                } else {
                    assert(r[j] == d[j]);
                }
            }
        }
    }
}

/// The filter keeps exactly the candidates that hold every term, in their order.
proof fn lemma_filter_hits(s: Seq<HitView>, needles: Seq<Seq<char>>)
    ensures
        forall|i: int|
            0 <= i < filter_hits(s, needles).len() ==> s.contains(
                #[trigger] filter_hits(s, needles)[i],
            ) && keep_candidate(filter_hits(s, needles)[i], needles),
        forall|j: int|
            0 <= j < s.len() && keep_candidate(#[trigger] s[j], needles) ==> filter_hits(
                s,
                needles,
            ).contains(s[j]),
    decreases s.len(),
{
    if s.len() > 0 {
        let t = s.drop_last();
        let f = filter_hits(t, needles);
        lemma_filter_hits(t, needles);
        assert forall|j: int| 0 <= j < t.len() implies s[j] == t[j] by {}
        assert forall|i: int| 0 <= i < f.len() implies s.contains(#[trigger] f[i]) by {
            let k = choose|k: int| 0 <= k < t.len() && t[k] == f[i];
            assert(s[k] == t[k]);
        }
        if keep_candidate(s.last(), needles) {
            let r = f.push(s.last());
            assert(r == filter_hits(s, needles));
            assert forall|i: int| 0 <= i < r.len() implies s.contains(#[trigger] r[i])
                && keep_candidate(r[i], needles) by {
                if i == f.len() {
                    assert(s[s.len() - 1] == s.last());
                } else {
                    assert(r[i] == f[i]);
                }
            }
            assert forall|j: int| 0 <= j < s.len() && keep_candidate(#[trigger] s[j], needles)
                implies r.contains(s[j]) by {
                if j == s.len() - 1 {
                    assert(r[f.len() as int] == s[j]);
                } else {
                    assert(t[j] == s[j]);
                    let i = choose|i: int| 0 <= i < f.len() && f[i] == t[j];
                    assert(r[i] == f[i]);
                }
            }
        }
    }
}

/// Law: the match list follows the deterministic order (domain, then field weight, then
/// locator, then field kind), whatever the candidates' order of arrival.
pub proof fn law_matches_are_ordered(cs: Seq<HitView>, needles: Seq<Seq<char>>)
    ensures
        hits_sorted(collect_spec(cs, needles)),
{
    let f = filter_hits(cs, needles);
    lemma_sort_hits(f);
    lemma_dedup_sorted(sort_hits(f));
}

/// Law: no two matches share a locator and a deduplication key.
pub proof fn law_matches_are_distinct(cs: Seq<HitView>, needles: Seq<Seq<char>>)
    ensures
        forall|i: int, j: int|
            0 <= i < j < collect_spec(cs, needles).len() ==> !same_hit_key(
                #[trigger] collect_spec(cs, needles)[i],
                #[trigger] collect_spec(cs, needles)[j],
            ),
{
    lemma_dedup_distinct(sort_hits(filter_hits(cs, needles)));
}

/// Law: every match is one of the candidates, with non-blank text holding every term; and
/// every such candidate is represented by a match with its locator and deduplication key.
pub proof fn law_matches_are_the_hits(cs: Seq<HitView>, needles: Seq<Seq<char>>)
    ensures
        forall|i: int|
            0 <= i < collect_spec(cs, needles).len() ==> cs.contains(
                #[trigger] collect_spec(cs, needles)[i],
            ) && keep_candidate(collect_spec(cs, needles)[i], needles),
        forall|j: int|
            0 <= j < cs.len() && keep_candidate(#[trigger] cs[j], needles) ==> exists|i: int|
                0 <= i < collect_spec(cs, needles).len() && same_hit_key(
                    #[trigger] collect_spec(cs, needles)[i],
                    cs[j],
                ),
{
    broadcast use vstd::seq_lib::group_to_multiset_ensures;

    let f = filter_hits(cs, needles);
    let sorted = sort_hits(f);
    let r = collect_spec(cs, needles);
    lemma_filter_hits(cs, needles);
    lemma_sort_hits(f);
    lemma_dedup_sound(sorted);
    lemma_dedup_complete(sorted);
    assert forall|i: int| 0 <= i < r.len() implies cs.contains(#[trigger] r[i]) && keep_candidate(
        r[i],
        needles,
    ) by {
        assert(sorted.contains(r[i]));
        assert(sorted.to_multiset().count(r[i]) > 0);
        assert(f.contains(r[i]));
        let k = choose|k: int| 0 <= k < f.len() && f[k] == r[i];
        assert(cs.contains(f[k]) && keep_candidate(f[k], needles));
    }
    assert forall|j: int| 0 <= j < cs.len() && keep_candidate(#[trigger] cs[j], needles) implies exists|
        i: int,
    | 0 <= i < r.len() && same_hit_key(#[trigger] r[i], cs[j]) by {
        assert(f.contains(cs[j]));
        assert(f.to_multiset().count(cs[j]) > 0);
        assert(sorted.contains(cs[j]));
        let k = choose|k: int| 0 <= k < sorted.len() && sorted[k] == cs[j];
        let i = choose|i: int| 0 <= i < r.len() && same_hit_key(#[trigger] r[i], #[trigger] sorted[k]);
        assert(same_hit_key(r[i], cs[j]));
    }
}

impl Match {
    /// A copy of the match.
    pub fn clone_match(&self) -> (m: Match)
        ensures
            match_view(m) == match_view(*self),
    {
        Match {
            domain: self.domain,
            locator: self.locator.clone(),
            kind: self.kind.clone(),
            weight: self.weight,
            text: self.text.clone(),
            windowed: self.windowed,
        }
    }
}

/// The excerpt a match renders as for deduplication.
pub open spec fn dedup_excerpt(h: HitView, needles: Seq<Seq<char>>) -> Option<Seq<char>> {
    excerpt_spec(h.text, needles, h.kind, 240)
}

/// Keeps a match when it has an excerpt and no earlier match rendered the same excerpt.
pub open spec fn drop_dup_excerpts_spec(s: Seq<HitView>, needles: Seq<Seq<char>>) -> Seq<HitView>
    decreases s.len(),
{
    if s.len() == 0 {
        Seq::empty()
    } else {
        let d = drop_dup_excerpts_spec(s.drop_last(), needles);
        match dedup_excerpt(s.last(), needles) {
            None => d,
            Some(e) => if exists|k: int|
                0 <= k < s.len() - 1 && #[trigger] dedup_excerpt(s[k], needles) == Some(e) {
                d
            } else {
                d.push(s.last())
            },
        }
    }
}

/// Drops a match whose excerpt duplicates an earlier one: the same sentence reachable through
/// several fields is returned once, at its first locator under the deterministic ordering.
pub fn drop_duplicate_excerpts(matches: Vec<Match>, terms: &[Term]) -> (r: Vec<Match>)
    ensures
        match_views(r@) == drop_dup_excerpts_spec(match_views(matches@), needles_of(terms@)),
{
    let ghost sv = match_views(matches@);
    let ghost needles = needles_of(terms@);
    let mut excerpts: Vec<Option<String>> = Vec::new();
    let mut out: Vec<Match> = Vec::new();
    let mut k: usize = 0;
    assert(match_views(out@) =~= drop_dup_excerpts_spec(sv.take(0), needles));
    while k < matches.len()
        invariant
            k <= matches@.len(),
            sv == match_views(matches@),
            needles == needles_of(terms@),
            excerpts@.len() == k,
            forall|j: int|
                0 <= j < k ==> match #[trigger] excerpts@[j] {
                    Some(e) => dedup_excerpt(sv[j], needles) == Some(e@),
                    None => dedup_excerpt(sv[j], needles) is None,
                },
            match_views(out@) == drop_dup_excerpts_spec(sv.take(k as int), needles),
        decreases matches.len() - k,
    {
        let hit = &matches[k];
        let excerpt = render_excerpt(hit.text.as_str(), terms, hit.kind.as_str(), 240);
        proof {
            let t = sv.take(k + 1);
            assert(t.drop_last() =~= sv.take(k as int));
            assert(t.last() == sv[k as int]);
            assert forall|q: int| 0 <= q < t.len() - 1 implies t[q] == sv[q] by {}
        }
        match &excerpt {
            None => {},
            Some(e) => {
                let mut seen = false;
                let mut j: usize = 0;
                while j < k
                    invariant
                        j <= k,
                        k < matches@.len(),
                        sv == match_views(matches@),
                        needles == needles_of(terms@),
                        excerpts@.len() == k,
                        forall|q: int|
                            0 <= q < k ==> match #[trigger] excerpts@[q] {
                                Some(e) => dedup_excerpt(sv[q], needles) == Some(e@),
                                None => dedup_excerpt(sv[q], needles) is None,
                            },
                        dedup_excerpt(sv[k as int], needles) == Some(e@),
                        seen == exists|q: int|
                            0 <= q < j && #[trigger] dedup_excerpt(sv[q], needles) == Some(e@),
                    decreases k - j,
                {
                    if !seen {
                        if let Some(prev) = &excerpts[j] {
                            if str_eq(prev.as_str(), e.as_str()) {
                                seen = true;
                            }
                        }
                    }
                    proof {
                        if !seen {
                            assert forall|q: int| 0 <= q < j + 1 implies #[trigger] dedup_excerpt(
                                sv[q],
                                needles,
                            ) != Some(e@) by {
                                if q == j {
                                }
                            }
                        }
                    }
                    j += 1;
                }
                if !seen {
                    out.push(hit.clone_match());
                    proof {
                        assert(match_views(out@) =~= drop_dup_excerpts_spec(
                            sv.take(k as int),
                            needles,
                        ).push(sv[k as int]));
                    }
                }
            },
        }
        excerpts.push(excerpt);
        k += 1;
    }
    assert(sv.take(matches@.len() as int) =~= sv);
    out
}

/// A stored file entry as the file filter compares it: trimmed, forward slashes, lower-cased.
pub open spec fn normalize_file_spec(entry: Seq<char>) -> Seq<char> {
    lowercase(backslash_to_slash(trim(entry)))
}

pub open spec fn backslash_to_slash(s: Seq<char>) -> Seq<char> {
    Seq::new(s.len(), |i: int| if s[i] == '\\' { '/' } else { s[i] })
}

/// The normalised form of a file entry.
pub fn normalize_file(entry: &str) -> (r: Vec<char>)
    ensures
        r@ == normalize_file_spec(entry@),
{
    let v = chars_of(entry);
    let t = trim_chars(v.as_slice());
    let mut s: Vec<char> = Vec::new();
    let mut i: usize = 0;
    while i < t.len()
        invariant
            i <= t@.len(),
            s@.len() == i,
            forall|j: int| 0 <= j < i ==> s@[j] == (if t@[j] == '\\' { '/' } else { t@[j] }),
        decreases t.len() - i,
    {
        s.push(if t[i] == '\\' { '/' } else { t[i] });
        i += 1;
    }
    assert(s@ =~= backslash_to_slash(t@));
    lower_chars(s.as_slice())
}

/// The character content of a list of strings.
pub open spec fn string_views(s: Seq<String>) -> Seq<Seq<char>> {
    s.map_values(|x: String| x@)
}

/// A file filter asks about involvement: a short needle matches its enclosing path and a
/// full-path needle matches the stored entry it names. A blank needle matches everything.
pub open spec fn file_matches_spec(entries: Seq<Seq<char>>, needle: Seq<char>) -> bool {
    let n = normalize_file_spec(needle);
    n.len() == 0 || exists|i: int|
        0 <= i < entries.len() && (contains(normalize_file_spec(#[trigger] entries[i]), n)
            || contains(n, normalize_file_spec(entries[i])))
}

/// Whether any entry is involved with the filtered file.
pub fn file_matches(entries: &[String], needle: &str) -> (b: bool)
    ensures
        b == file_matches_spec(string_views(entries@), needle@),
{
    let ghost es = string_views(entries@);
    let n = normalize_file(needle);
    if n.len() == 0 {
        return true;
    }
    let mut i: usize = 0;
    while i < entries.len()
        invariant
            i <= entries@.len(),
            es == string_views(entries@),
            n@ == normalize_file_spec(needle@),
            forall|j: int|
                0 <= j < i ==> !(contains(normalize_file_spec(#[trigger] es[j]), n@) || contains(
                    n@,
                    normalize_file_spec(es[j]),
                )),
        decreases entries.len() - i,
    {
        assert(es[i as int] == entries@[i as int]@);
        let e = normalize_file(entries[i].as_str());
        if contains_chars(e.as_slice(), n.as_slice()) || contains_chars(n.as_slice(), e.as_slice()) {
            return true;
        }
        i += 1;
    }
    false
}

} // verus!
