//! Grep reports: the header that states the true total, the omission notice, and rendering a
//! match list under the reply budget.
//!
//! The budget is the point of this module: whatever the match list, the rendered output never
//! exceeds `GREP_REPLY_BUDGET` bytes, because the omission notice is reserved before any line
//! is written.
use vstd::prelude::*;

use crate::grep::{
    excerpt_spec, match_view, match_views, needles_of, render_excerpt, GrepDomain, HitView,
    Match, Term, GREP_REPLY_BUDGET, MIN_PREVIEW_BUDGET, WINDOW_CAP,
};
use crate::text::{
    blen, byte_len, dec, lemma_blen_append, lemma_blen_bounds, lemma_blen_dec,
    lemma_dec_len_bound, lemma_dec_len_monotone, lemma_dec_len_pos, lemma_dec_len_usize, owned,
    pow10, push_dec, push_str_chars,
};

verus! {

broadcast use vstd::string::group_string_axioms;

/// Per-domain split of a grep total.
#[derive(Clone, Copy, Debug, Default, PartialEq, Eq, Structural)]
pub struct GrepCounts {
    pub design: usize,
    pub tasks: usize,
    pub memory: usize,
}

/// Rendered grep output plus the accounting an agent needs in order to narrow deliberately.
#[derive(Clone, Debug)]
pub struct GrepResult {
    /// The complete grep-shaped output, bounded by the reply budget.
    pub output: String,
    /// True total over every selected domain, before the limit and the budget apply.
    pub total: usize,
    /// Per-domain split of `total`.
    pub counts: GrepCounts,
    /// Matches actually rendered.
    pub shown: usize,
    /// True when the limit or the reply budget left matches out.
    pub truncated: bool,
    /// Bytes of `output`; never larger than the reply budget.
    pub output_bytes: usize,
    /// How many terms the pattern held.
    pub pattern_terms: usize,
}

/// Number of hits of one domain.
pub open spec fn count_domain(s: Seq<HitView>, d: GrepDomain) -> nat
    decreases s.len(),
{
    if s.len() == 0 {
        0
    } else {
        count_domain(s.drop_last(), d) + if s.last().domain == d {
            1nat
        } else {
            0nat
        }
    }
}

impl GrepCounts {
    /// The per-domain split of a match list.
    pub fn of(matches: &[Match]) -> (c: GrepCounts)
        ensures
            c.design == count_domain(match_views(matches@), GrepDomain::Design),
            c.tasks == count_domain(match_views(matches@), GrepDomain::Tasks),
            c.memory == count_domain(match_views(matches@), GrepDomain::Memory),
    {
        let ghost ms = match_views(matches@);
        let mut c = GrepCounts { design: 0, tasks: 0, memory: 0 };
        let mut i: usize = 0;
        while i < matches.len()
            invariant
                i <= matches@.len(),
                ms == match_views(matches@),
                c.design == count_domain(ms.take(i as int), GrepDomain::Design),
                c.tasks == count_domain(ms.take(i as int), GrepDomain::Tasks),
                c.memory == count_domain(ms.take(i as int), GrepDomain::Memory),
                c.design + c.tasks + c.memory == i,
            decreases matches.len() - i,
        {
            proof {
                assert(ms.take(i + 1).drop_last() =~= ms.take(i as int));
                assert(ms.take(i + 1).last() == match_view(matches@[i as int]));
            }
            match matches[i].domain {
                GrepDomain::Design => c.design += 1,
                GrepDomain::Tasks => c.tasks += 1,
                GrepDomain::Memory => c.memory += 1,
            }
            i += 1;
        }
        assert(ms.take(matches@.len() as int) =~= ms);
        c
    }
}

/// `a - b`, or zero when `b` is larger.
pub open spec fn sat_sub(a: int, b: int) -> int {
    if a >= b {
        a - b
    } else {
        0
    }
}

/// The first line of every grep reply: the true total and its per-domain split.
pub open spec fn header_spec(c: GrepCounts, total: nat) -> Seq<char> {
    dec(total) + " matches — design("@ + dec(c.design as nat) + "), tasks("@ + dec(
        c.tasks as nat,
    ) + "), memory("@ + dec(c.memory as nat) + ")"@
}

/// The trailing notice that says how much was left out.
pub open spec fn omission_spec(shown: nat, total: nat) -> Seq<char> {
    "\n… showing "@ + dec(shown) + " of "@ + dec(total) + " — narrow the query ("@ + dec(
        sat_sub(total as int, shown as int) as nat,
    ) + " omitted)"@
}

/// The header line.
pub fn header(counts: &GrepCounts, total: usize) -> (r: String)
    ensures
        r@ == header_spec(*counts, total as nat),
{
    let mut s = String::new();
    push_dec(&mut s, total);
    push_str_chars(&mut s, " matches — design(");
    push_dec(&mut s, counts.design);
    push_str_chars(&mut s, "), tasks(");
    push_dec(&mut s, counts.tasks);
    push_str_chars(&mut s, "), memory(");
    push_dec(&mut s, counts.memory);
    push_str_chars(&mut s, ")");
    assert(s@ =~= header_spec(*counts, total as nat));
    s
}

/// The omission notice.
pub fn omission(shown: usize, total: usize) -> (r: String)
    ensures
        r@ == omission_spec(shown as nat, total as nat),
{
    let mut s = owned("\n… showing ");
    push_dec(&mut s, shown);
    push_str_chars(&mut s, " of ");
    push_dec(&mut s, total);
    push_str_chars(&mut s, " — narrow the query (");
    let omitted: usize = if total >= shown {
        total - shown
    } else {
        0
    };
    push_dec(&mut s, omitted);
    push_str_chars(&mut s, " omitted)");
    assert(s@ =~= omission_spec(shown as nat, total as nat));
    s
}

/// Bytes held back for the omission notice before any line is written.
pub open spec fn reserve_spec(total: nat) -> int {
    blen(omission_spec(total, total)) + 8int
}

/// Room left for one match line's excerpt.
pub open spec fn line_budget(body: Seq<char>, reserve: int, locator: Seq<char>) -> int {
    sat_sub(sat_sub(GREP_REPLY_BUDGET - blen(body), reserve), blen(locator) + 3int)
}

/// A source-class field is never returned whole, and no single line may take more than its
/// share of the budget.
pub open spec fn allowance(h: HitView) -> int {
    if h.windowed {
        WINDOW_CAP as int
    } else {
        (GREP_REPLY_BUDGET / 2) as int
    }
}

/// The line a match renders as under an excerpt budget.
pub open spec fn match_line(h: HitView, needles: Seq<Seq<char>>, budget: int) -> Seq<char> {
    let ex = match excerpt_spec(h.text, needles, h.kind, budget) {
        Some(e) => e,
        None => Seq::empty(),
    };
    "\n"@ + h.locator + ": "@ + ex
}

/// Appends match lines to `body` while they fit, at most `limit` of them. The result is the
/// body, how many lines it took, and whether the budget stopped it early.
pub open spec fn render_lines(
    ms: Seq<HitView>,
    needles: Seq<Seq<char>>,
    reserve: int,
    body: Seq<char>,
    limit: nat,
) -> (Seq<char>, nat, bool)
    decreases ms.len(),
{
    if ms.len() == 0 || limit == 0 {
        (body, 0, false)
    } else {
        let h = ms[0];
        let lb = line_budget(body, reserve, h.locator);
        if lb < MIN_PREVIEW_BUDGET {
            (body, 0, true)
        } else {
            let b = if lb < allowance(h) {
                lb
            } else {
                allowance(h)
            };
            let line = match_line(h, needles, b);
            if blen(body) + blen(line) + reserve > GREP_REPLY_BUDGET {
                (body, 0, true)
            } else {
                let r = render_lines(ms.drop_first(), needles, reserve, body + line, (limit - 1) as nat);
                (r.0, r.1 + 1, r.2)
            }
        }
    }
}

/// The rendered reply: output, lines shown, and whether anything was left out.
pub open spec fn render_spec(
    ms: Seq<HitView>,
    needles: Seq<Seq<char>>,
    c: GrepCounts,
    total: nat,
    limit: nat,
) -> (Seq<char>, nat, bool) {
    let r = render_lines(ms, needles, reserve_spec(total), header_spec(c, total), limit);
    let listed = if ms.len() < limit {
        ms.len()
    } else {
        limit
    };
    if r.2 || listed < total {
        (r.0 + omission_spec(r.1, total), r.1, true)
    } else {
        (r.0, r.1, false)
    }
}

/// Renders grep output under the reply budget, reporting what it had to leave out: the header
/// states the true total, and the body shows as much as the budget allows.
pub fn render_matches(
    matches: &[Match],
    terms: &[Term],
    counts: &GrepCounts,
    total: usize,
    limit: usize,
) -> (r: (String, usize, bool))
    ensures
        (r.0@, r.1 as nat, r.2) == render_spec(
            match_views(matches@),
            needles_of(terms@),
            *counts,
            total as nat,
            limit as nat,
        ),
        blen(r.0@) <= GREP_REPLY_BUDGET,
{
    let ghost ms = match_views(matches@);
    let ghost needles = needles_of(terms@);
    let full = omission(total, total);
    let reserve: u128 = byte_len(full.as_str()) + 8;
    let mut body = header(counts, total);
    let ghost head = body@;
    let mut body_bytes: u128 = byte_len(body.as_str());
    proof {
        law_render_within_budget(ms, needles, *counts, total, limit as nat);
        lemma_header_fits(*counts, total);
    }
    let listed: usize = if matches.len() < limit {
        matches.len()
    } else {
        limit
    };
    let mut i: usize = 0;
    assert(ms.skip(0) =~= ms);
    while i < listed
        invariant
            listed as int == (if matches@.len() < limit {
                matches@.len() as int
            } else {
                limit as int
            }),
            i <= listed,
            ms == match_views(matches@),
            needles == needles_of(terms@),
            reserve == reserve_spec(total as nat),
            head == header_spec(*counts, total as nat),
            body_bytes == blen(body@),
            body_bytes + reserve <= GREP_REPLY_BUDGET,
            blen(
                render_spec(ms, needles, *counts, total as nat, limit as nat).0,
            ) <= GREP_REPLY_BUDGET,
            ({
                let whole = render_lines(ms, needles, reserve as int, head, limit as nat);
                let rest = render_lines(
                    ms.skip(i as int),
                    needles,
                    reserve as int,
                    body@,
                    (limit - i) as nat,
                );
                whole == (rest.0, (rest.1 + i) as nat, rest.2)
            }),
        decreases listed - i,
    {
        let ghost rest = ms.skip(i as int);
        proof {
            assert(rest[0] == match_view(matches@[i as int]));
            assert(rest.drop_first() =~= ms.skip(i + 1));
        }
        let hit = &matches[i];
        let loc_bytes = byte_len(hit.locator.as_str());
        let room: u128 = if 8192 >= body_bytes {
            8192 - body_bytes
        } else {
            0
        };
        let room: u128 = if room >= reserve {
            room - reserve
        } else {
            0
        };
        let lb: u128 = if room >= loc_bytes + 3 {
            room - (loc_bytes + 3)
        } else {
            0
        };
        assert(lb == line_budget(body@, reserve as int, rest[0].locator));
        if lb < 40 {
            let om = omission(i, total);
            push_str_chars(&mut body, om.as_str());
            return (body, i, true);
        }
        let cap: u128 = if hit.windowed {
            160
        } else {
            4096
        };
        let b: u128 = if lb < cap {
            lb
        } else {
            cap
        };
        let excerpt = render_excerpt(hit.text.as_str(), terms, hit.kind.as_str(), b as usize);
        let mut line = owned("\n");
        push_str_chars(&mut line, hit.locator.as_str());
        push_str_chars(&mut line, ": ");
        match &excerpt {
            Some(e) => push_str_chars(&mut line, e.as_str()),
            None => {},
        }
        proof {
            assert(line@ =~= match_line(rest[0], needles, b as int));
        }
        let line_bytes = byte_len(line.as_str());
        if body_bytes + line_bytes + reserve > 8192 {
            let om = omission(i, total);
            push_str_chars(&mut body, om.as_str());
            return (body, i, true);
        }
        proof {
            lemma_blen_append(body@, line@);
        }
        push_str_chars(&mut body, line.as_str());
        body_bytes = body_bytes + line_bytes;
        i += 1;
    }
    proof {
        let rest = ms.skip(i as int);
        if i < limit {
            assert(rest.len() == 0);
        }
    }
    if listed < total {
        let om = omission(i, total);
        push_str_chars(&mut body, om.as_str());
        return (body, i, true);
    }
    (body, i, false)
}

// ---------------------------------------------------------------- the budget

/// Byte length of the omission notice: its fixed text plus its three numbers.
proof fn lemma_omission_blen(s: nat, t: nat)
    ensures
        blen(omission_spec(s, t)) == blen("\n… showing "@) + blen(" of "@) + blen(
            " — narrow the query ("@,
        ) + blen(" omitted)"@) + dec(s).len() + dec(t).len() + dec(
            sat_sub(t as int, s as int) as nat,
        ).len(),
{
    let a = "\n… showing "@;
    let b = " of "@;
    let c = " — narrow the query ("@;
    let d = " omitted)"@;
    let o = sat_sub(t as int, s as int) as nat;
    lemma_blen_dec(s);
    lemma_blen_dec(t);
    lemma_blen_dec(o);
    lemma_blen_append(a, dec(s));
    lemma_blen_append(a + dec(s), b);
    lemma_blen_append(a + dec(s) + b, dec(t));
    lemma_blen_append(a + dec(s) + b + dec(t), c);
    lemma_blen_append(a + dec(s) + b + dec(t) + c, dec(o));
    lemma_blen_append(a + dec(s) + b + dec(t) + c + dec(o), d);
}

/// The header and the reserved notice leave most of the budget for lines.
proof fn lemma_header_fits(c: GrepCounts, total: usize)
    ensures
        blen(header_spec(c, total as nat)) + reserve_spec(total as nat) <= 1024,
{
    let h1 = " matches — design("@;
    let h2 = "), tasks("@;
    let h3 = "), memory("@;
    let h4 = ")"@;
    reveal_strlit(" matches — design(");
    reveal_strlit("), tasks(");
    reveal_strlit("), memory(");
    reveal_strlit(")");
    reveal_strlit("\n… showing ");
    reveal_strlit(" of ");
    reveal_strlit(" — narrow the query (");
    reveal_strlit(" omitted)");
    lemma_blen_bounds(h1);
    lemma_blen_bounds(h2);
    lemma_blen_bounds(h3);
    lemma_blen_bounds(h4);
    lemma_blen_bounds("\n… showing "@);
    lemma_blen_bounds(" of "@);
    lemma_blen_bounds(" — narrow the query ("@);
    lemma_blen_bounds(" omitted)"@);
    lemma_dec_len_usize(total);
    lemma_dec_len_usize(c.design);
    lemma_dec_len_usize(c.tasks);
    lemma_dec_len_usize(c.memory);
    lemma_blen_dec(total as nat);
    lemma_blen_dec(c.design as nat);
    lemma_blen_dec(c.tasks as nat);
    lemma_blen_dec(c.memory as nat);
    let t = total as nat;
    lemma_blen_append(dec(t), h1);
    lemma_blen_append(dec(t) + h1, dec(c.design as nat));
    lemma_blen_append(dec(t) + h1 + dec(c.design as nat), h2);
    lemma_blen_append(dec(t) + h1 + dec(c.design as nat) + h2, dec(c.tasks as nat));
    lemma_blen_append(dec(t) + h1 + dec(c.design as nat) + h2 + dec(c.tasks as nat), h3);
    lemma_blen_append(
        dec(t) + h1 + dec(c.design as nat) + h2 + dec(c.tasks as nat) + h3,
        dec(c.memory as nat),
    );
    lemma_blen_append(
        dec(t) + h1 + dec(c.design as nat) + h2 + dec(c.tasks as nat) + h3 + dec(c.memory as nat),
        h4,
    );
    lemma_omission_blen(t, t);
    assert(sat_sub(t as int, t as int) == 0);
    assert(dec(0).len() == 1);
}

/// Appending lines never passes the budget less the reserve, and every line takes at least
/// three bytes.
proof fn lemma_render_lines(
    ms: Seq<HitView>,
    needles: Seq<Seq<char>>,
    reserve: int,
    body: Seq<char>,
    limit: nat,
)
    requires
        reserve >= 0,
        blen(body) + reserve <= GREP_REPLY_BUDGET,
    ensures
        blen(render_lines(ms, needles, reserve, body, limit).0) + reserve <= GREP_REPLY_BUDGET,
        blen(render_lines(ms, needles, reserve, body, limit).0) >= blen(body) + 3
            * render_lines(ms, needles, reserve, body, limit).1,
    decreases ms.len(),
{
    if ms.len() > 0 && limit > 0 {
        let h = ms[0];
        let lb = line_budget(body, reserve, h.locator);
        if lb >= MIN_PREVIEW_BUDGET {
            let b = if lb < allowance(h) {
                lb
            } else {
                allowance(h)
            };
            let line = match_line(h, needles, b);
            if blen(body) + blen(line) + reserve <= GREP_REPLY_BUDGET {
                let ex = match excerpt_spec(h.text, needles, h.kind, b) {
                    Some(e) => e,
                    None => Seq::empty(),
                };
                reveal_strlit("\n");
                reveal_strlit(": ");
                assert(blen("\n"@) == 1) by {
                    reveal_with_fuel(blen, 2);
                }
                assert(blen(": "@) == 2) by {
                    reveal_with_fuel(blen, 3);
                }
                lemma_blen_append("\n"@, h.locator);
                lemma_blen_append("\n"@ + h.locator, ": "@);
                lemma_blen_append("\n"@ + h.locator + ": "@, ex);
                lemma_blen_append(body, line);
                lemma_render_lines(ms.drop_first(), needles, reserve, body + line, (limit - 1) as nat);
            }
        }
    }
}

/// Law: no match list, however broad, renders past the reply budget, and the reply is
/// truncated exactly when it shows fewer lines than the total it states.
pub proof fn law_render_within_budget(
    ms: Seq<HitView>,
    needles: Seq<Seq<char>>,
    c: GrepCounts,
    total: usize,
    limit: nat,
)
    ensures
        blen(render_spec(ms, needles, c, total as nat, limit).0) <= GREP_REPLY_BUDGET,
        ms.len() <= total ==> (render_spec(ms, needles, c, total as nat, limit).2 <==> render_spec(
            ms,
            needles,
            c,
            total as nat,
            limit,
        ).1 < total),
{
    let t = total as nat;
    let head = header_spec(c, t);
    let reserve = reserve_spec(t);
    lemma_header_fits(c, total);
    lemma_render_lines_count(ms, needles, reserve, head, limit);
    lemma_render_lines(ms, needles, reserve, head, limit);
    let r = render_lines(ms, needles, reserve, head, limit);
    let shown = r.1;
    assert(shown < 10000);
    assert(pow10(4) == 10000) by {
        reveal_with_fuel(pow10, 5);
    }
    lemma_dec_len_bound(shown, 4);
    lemma_omission_blen(shown, t);
    lemma_omission_blen(t, t);
    assert(dec(0).len() == 1);
    lemma_dec_len_monotone(sat_sub(t as int, shown as int) as nat, t);
    lemma_blen_append(r.0, omission_spec(shown, t));
}

/// How many lines the rendering takes: all that were asked for, unless the budget stopped it.
pub proof fn lemma_render_lines_count(
    ms: Seq<HitView>,
    needles: Seq<Seq<char>>,
    reserve: int,
    body: Seq<char>,
    limit: nat,
)
    ensures
        ({
            let r = render_lines(ms, needles, reserve, body, limit);
            let listed = if ms.len() < limit {
                ms.len()
            } else {
                limit
            };
            &&& r.2 ==> r.1 < listed
            &&& !r.2 ==> r.1 == listed
        }),
    decreases ms.len(),
{
    if ms.len() > 0 && limit > 0 {
        let lb = line_budget(body, reserve, ms[0].locator);
        let b = if lb < allowance(ms[0]) {
            lb
        } else {
            allowance(ms[0])
        };
        let line = match_line(ms[0], needles, b);
        lemma_render_lines_count(ms.drop_first(), needles, reserve, body + line, (limit - 1) as nat);
    }
}


/// Rendering only appends to the body it starts from.
pub proof fn lemma_render_lines_prefix(
    ms: Seq<HitView>,
    needles: Seq<Seq<char>>,
    reserve: int,
    body: Seq<char>,
    limit: nat,
)
    ensures
        body.is_prefix_of(render_lines(ms, needles, reserve, body, limit).0),
    decreases ms.len(),
{
    if ms.len() > 0 && limit > 0 {
        let lb = line_budget(body, reserve, ms[0].locator);
        let b = if lb < allowance(ms[0]) {
            lb
        } else {
            allowance(ms[0])
        };
        let line = match_line(ms[0], needles, b);
        lemma_render_lines_prefix(ms.drop_first(), needles, reserve, body + line, (limit - 1) as nat);
        let out = render_lines(ms.drop_first(), needles, reserve, body + line, (limit - 1) as nat).0;
        assert forall|i: int| 0 <= i < body.len() implies out[i] == body[i] by {
            assert((body + line)[i] == body[i]);
        }
    }
}

/// Law: a reply opens with its header line, stating the true total and its split, and shows
/// no more lines than the list and the limit allow.
pub proof fn law_reply_opens_with_header(
    ms: Seq<HitView>,
    needles: Seq<Seq<char>>,
    c: GrepCounts,
    total: nat,
    limit: nat,
)
    ensures
        header_spec(c, total).is_prefix_of(render_spec(ms, needles, c, total, limit).0),
        render_spec(ms, needles, c, total, limit).1 <= ms.len(),
        render_spec(ms, needles, c, total, limit).1 <= limit,
{
    let head = header_spec(c, total);
    let reserve = reserve_spec(total);
    lemma_render_lines_prefix(ms, needles, reserve, head, limit);
    lemma_render_lines_count(ms, needles, reserve, head, limit);
    let r = render_lines(ms, needles, reserve, head, limit);
    let out = r.0 + omission_spec(r.1, total);
    assert forall|i: int| 0 <= i < head.len() implies out[i] == head[i] by {
        assert(out[i] == r.0[i]);
    }
}

} // verus!
