//! The canonical Structurizr DSL of a stored C4 model: every top-level element with its
//! contained elements nested under it, every relationship, and a container view of the
//! internal software system.
use vstd::prelude::*;

use crate::design::{DesignElementRecord, DesignRelationshipRecord};
use crate::model::{has_tag, has_tag_spec, normalized_element_type, normalized_type_spec};
use crate::settings::{chars_eq_ignore_ascii_case, eq_ignore_ascii_case};
use crate::text::{
    ascii_alnum, chars_of, eq_lit, is_ascii_alnum, owned, push_chars, push_str_chars, str_eq, trim,
    trim_chars,
};

verus! {

broadcast use vstd::string::group_string_axioms;

// ---------------------------------------------------------------- names and text

/// A DSL identifier: `e_` and the id with every non-alphanumeric character replaced by `_`.
pub open spec fn dsl_identifier_spec(id: Seq<char>) -> Seq<char> {
    "e_"@ + Seq::new(id.len(), |i: int| if is_ascii_alnum(id[i]) { id[i] } else { '_' })
}

pub fn dsl_identifier(external_id: &str) -> (r: String)
    ensures
        r@ == dsl_identifier_spec(external_id@),
{
    let v = chars_of(external_id);
    let mut s: Vec<char> = Vec::new();
    let mut i: usize = 0;
    while i < v.len()
        invariant
            i <= v@.len(),
            s@.len() == i,
            forall|j: int| 0 <= j < i ==> s@[j] == (if is_ascii_alnum(v@[j]) { v@[j] } else { '_' }),
        decreases v.len() - i,
    {
        s.push(if ascii_alnum(v[i]) { v[i] } else { '_' });
        i += 1;
    }
    let mut r = owned("e_");
    push_chars(&mut r, s.as_slice());
    assert(s@ =~= Seq::new(v@.len(), |i: int| if is_ascii_alnum(v@[i]) { v@[i] } else { '_' }));
    r
}

/// One character escaped for a DSL string: a backslash or a double quote gets a backslash.
pub open spec fn escape_char(c: char) -> Seq<char> {
    if c == '\\' {
        seq!['\\', '\\']
    } else if c == '"' {
        seq!['\\', '"']
    } else {
        seq![c]
    }
}

pub open spec fn escape_dsl_spec(v: Seq<char>) -> Seq<char>
    decreases v.len(),
{
    if v.len() == 0 {
        Seq::empty()
    } else {
        escape_dsl_spec(v.drop_last()) + escape_char(v.last())
    }
}

fn escape_chars(v: &[char]) -> (r: Vec<char>)
    ensures
        r@ == escape_dsl_spec(v@),
{
    let mut r: Vec<char> = Vec::new();
    let mut i: usize = 0;
    while i < v.len()
        invariant
            i <= v@.len(),
            r@ == escape_dsl_spec(v@.take(i as int)),
        decreases v.len() - i,
    {
        proof {
            assert(v@.take(i + 1).drop_last() =~= v@.take(i as int));
            assert(v@.take(i + 1).last() == v@[i as int]);
        }
        let c = v[i];
        let ghost before = r@;
        if c == '\\' {
            r.push('\\');
            r.push('\\');
        } else if c == '"' {
            r.push('\\');
            r.push('"');
        } else {
            r.push(c);
        }
        assert(r@ =~= before + escape_char(c));
        i += 1;
    }
    assert(v@.take(v@.len() as int) =~= v@);
    r
}

/// A value escaped for a DSL string.
pub fn escape_dsl(value: &str) -> (r: String)
    ensures
        r@ == escape_dsl_spec(value@),
{
    let v = chars_of(value);
    let e = escape_chars(v.as_slice());
    crate::text::string_of(e.as_slice())
}

/// The tags clause: nothing for blank tags, else the trimmed tags as an escaped string.
pub open spec fn dsl_tags_spec(tags: Seq<char>) -> Seq<char> {
    if trim(tags).len() == 0 {
        Seq::empty()
    } else {
        " \""@ + escape_dsl_spec(trim(tags)) + "\""@
    }
}

pub fn dsl_tags(tags: &str) -> (r: String)
    ensures
        r@ == dsl_tags_spec(tags@),
{
    let v = chars_of(tags);
    let t = trim_chars(v.as_slice());
    if t.len() == 0 {
        String::new()
    } else {
        let mut s = owned(" \"");
        let e = escape_chars(t.as_slice());
        push_chars(&mut s, e.as_slice());
        push_str_chars(&mut s, "\"");
        s
    }
}

/// The DSL keyword of an element type; anything unrecognised is declared a software system.
pub open spec fn declaration_spec(element_type: Seq<char>) -> Seq<char> {
    match normalized_type_spec(element_type) {
        Some(t) => if t == "Person"@ {
            "person"@
        } else if t == "Container"@ {
            "container"@
        } else if t == "Component"@ {
            "component"@
        } else {
            "softwareSystem"@
        },
        None => "softwareSystem"@,
    }
}

fn declaration(element_type: &str) -> (r: &'static str)
    ensures
        r@ == declaration_spec(element_type@),
{
    match normalized_element_type(element_type) {
        Some(t) => {
            let v = chars_of(t.as_str());
            if eq_lit(v.as_slice(), "Person") {
                "person"
            } else if eq_lit(v.as_slice(), "Container") {
                "container"
            } else if eq_lit(v.as_slice(), "Component") {
                "component"
            } else {
                "softwareSystem"
            }
        },
        None => "softwareSystem",
    }
}

/// Four spaces per level.
pub open spec fn spaces(indent: nat) -> Seq<char>
    decreases indent,
{
    if indent == 0 {
        Seq::empty()
    } else {
        spaces((indent - 1) as nat) + "    "@
    }
}

fn push_spaces(s: &mut String, indent: usize)
    ensures
        final(s)@ == old(s)@ + spaces(indent as nat),
{
    let ghost start = s@;
    let mut i: usize = 0;
    assert(start + spaces(0) =~= start);
    while i < indent
        invariant
            i <= indent,
            s@ == start + spaces(i as nat),
        decreases indent - i,
    {
        push_str_chars(s, "    ");
        i += 1;
        assert(s@ =~= start + spaces(i as nat));
    }
}

// ---------------------------------------------------------------- the element tree

/// Whether an element sits directly under the element with id `parent`.
pub open spec fn is_child_of(e: DesignElementRecord, parent: Seq<char>) -> bool {
    match e.parent_external_id {
        Some(p) => p@ == parent,
        None => false,
    }
}

/// The declaration line of an element; `open` when its children follow in a block.
pub open spec fn element_line(e: DesignElementRecord, indent: nat, open: bool) -> Seq<char> {
    spaces(indent) + dsl_identifier_spec(e.external_id@) + " = "@ + declaration_spec(e.element_type@)
        + " \""@ + escape_dsl_spec(e.name@) + "\" \""@ + escape_dsl_spec(e.description@)
        + "\" \""@ + escape_dsl_spec(e.technology@) + "\""@ + dsl_tags_spec(e.tags@) + if open {
        " {\n"@
    } else {
        "\n"@
    }
}

/// Whether any element sits under `id`.
pub open spec fn has_children(es: Seq<DesignElementRecord>, id: Seq<char>) -> bool {
    exists|i: int| 0 <= i < es.len() && is_child_of(#[trigger] es[i], id)
}

/// The DSL of one element and, nested, everything under it. `fuel` bounds the depth of the
/// descent; a model whose descent from the top fits in its element count never runs out.
pub open spec fn element_dsl(
    es: Seq<DesignElementRecord>,
    e: DesignElementRecord,
    indent: nat,
    fuel: nat,
) -> Seq<char>
    decreases fuel, 0nat,
{
    if !has_children(es, e.external_id@) || fuel == 0 {
        element_line(e, indent, false)
    } else {
        element_line(e, indent, true) + children_dsl(
            es,
            es,
            e.external_id@,
            indent + 1,
            (fuel - 1) as nat,
        ) + spaces(indent) + "}\n"@
    }
}

/// The DSL of the elements of `scan` that sit under `parent`, in stored order.
pub open spec fn children_dsl(
    es: Seq<DesignElementRecord>,
    scan: Seq<DesignElementRecord>,
    parent: Seq<char>,
    indent: nat,
    fuel: nat,
) -> Seq<char>
    decreases fuel, scan.len() + 1,
{
    if scan.len() == 0 {
        Seq::empty()
    } else {
        children_dsl(es, scan.drop_last(), parent, indent, fuel) + if is_child_of(
            scan.last(),
            parent,
        ) {
            element_dsl(es, scan.last(), indent, fuel)
        } else {
            Seq::empty()
        }
    }
}

/// The descent from `e` runs out of fuel: it meets more levels than the fuel allows.
pub open spec fn descent_exhausts(es: Seq<DesignElementRecord>, e: DesignElementRecord, fuel: nat) -> bool
    decreases fuel,
{
    has_children(es, e.external_id@) && (fuel == 0 || exists|i: int|
        0 <= i < es.len() && is_child_of(#[trigger] es[i], e.external_id@) && descent_exhausts(
            es,
            es[i],
            (fuel - 1) as nat,
        ))
}

fn has_children_exec(es: &[DesignElementRecord], id: &str) -> (b: bool)
    ensures
        b == has_children(es@, id@),
{
    let mut i: usize = 0;
    while i < es.len()
        invariant
            i <= es@.len(),
            forall|j: int| 0 <= j < i ==> !is_child_of(#[trigger] es@[j], id@),
        decreases es.len() - i,
    {
        if let Some(p) = &es[i].parent_external_id {
            if str_eq(p.as_str(), id) {
                return true;
            }
        }
        i += 1;
    }
    false
}

fn push_element_line(dsl: &mut String, e: &DesignElementRecord, indent: usize, open: bool)
    ensures
        final(dsl)@ == old(dsl)@ + element_line(*e, indent as nat, open),
{
    let ghost start = dsl@;
    push_spaces(dsl, indent);
    let id = dsl_identifier(e.external_id.as_str());
    push_str_chars(dsl, id.as_str());
    push_str_chars(dsl, " = ");
    push_str_chars(dsl, declaration(e.element_type.as_str()));
    push_str_chars(dsl, " \"");
    let n = escape_dsl(e.name.as_str());
    push_str_chars(dsl, n.as_str());
    push_str_chars(dsl, "\" \"");
    let d = escape_dsl(e.description.as_str());
    push_str_chars(dsl, d.as_str());
    push_str_chars(dsl, "\" \"");
    let t = escape_dsl(e.technology.as_str());
    push_str_chars(dsl, t.as_str());
    push_str_chars(dsl, "\"");
    let tags = dsl_tags(e.tags.as_str());
    push_str_chars(dsl, tags.as_str());
    if open {
        push_str_chars(dsl, " {\n");
    } else {
        push_str_chars(dsl, "\n");
    }
    assert(dsl@ =~= start + element_line(*e, indent as nat, open));
}

/// Writes an element and, nested, everything under it.
pub fn push_element_dsl(
    dsl: &mut String,
    elements: &[DesignElementRecord],
    element: &DesignElementRecord,
    indent: usize,
    fuel: usize,
)
    requires
        indent + fuel <= usize::MAX,
    ensures
        final(dsl)@ == old(dsl)@ + element_dsl(elements@, *element, indent as nat, fuel as nat),
    decreases fuel, 0nat,
{
    if !has_children_exec(elements, element.external_id.as_str()) || fuel == 0 {
        push_element_line(dsl, element, indent, false);
        return;
    }
    let ghost start = dsl@;
    push_element_line(dsl, element, indent, true);
    let ghost s1 = dsl@;
    let mut i: usize = 0;
    assert(children_dsl(
        elements@,
        elements@.take(0),
        element.external_id@,
        (indent + 1) as nat,
        (fuel - 1) as nat,
    ) =~= Seq::<char>::empty());
    assert(s1 + Seq::<char>::empty() =~= s1);
    while i < elements.len()
        invariant
            i <= elements@.len(),
            fuel > 0,
            indent + fuel <= usize::MAX,
            dsl@ == s1 + children_dsl(
                elements@,
                elements@.take(i as int),
                element.external_id@,
                (indent + 1) as nat,
                (fuel - 1) as nat,
            ),
        decreases elements.len() - i,
    {
        proof {
            assert(elements@.take(i + 1).drop_last() =~= elements@.take(i as int));
            assert(elements@.take(i + 1).last() == elements@[i as int]);
        }
        let child = &elements[i];
        let under = match &child.parent_external_id {
            Some(p) => str_eq(p.as_str(), element.external_id.as_str()),
            None => false,
        };
        let ghost before = dsl@;
        if under {
            push_element_dsl(dsl, elements, child, indent + 1, fuel - 1);
        }
        assert(dsl@ =~= s1 + children_dsl(
            elements@,
            elements@.take(i + 1),
            element.external_id@,
            (indent + 1) as nat,
            (fuel - 1) as nat,
        ));
        i += 1;
    }
    assert(elements@.take(elements@.len() as int) =~= elements@);
    push_spaces(dsl, indent);
    push_str_chars(dsl, "}\n");
}

/// Whether the descent from an element runs out of levels before it ends.
pub fn descent_exhausts_exec(elements: &[DesignElementRecord], element: &DesignElementRecord, fuel: usize) -> (b: bool)
    ensures
        b == descent_exhausts(elements@, *element, fuel as nat),
    decreases fuel,
{
    if !has_children_exec(elements, element.external_id.as_str()) {
        return false;
    }
    if fuel == 0 {
        return true;
    }
    let mut i: usize = 0;
    while i < elements.len()
        invariant
            i <= elements@.len(),
            fuel > 0,
            forall|j: int|
                0 <= j < i ==> !(is_child_of(#[trigger] elements@[j], element.external_id@)
                    && descent_exhausts(elements@, elements@[j], (fuel - 1) as nat)),
        decreases elements.len() - i,
    {
        let child = &elements[i];
        let under = match &child.parent_external_id {
            Some(p) => str_eq(p.as_str(), element.external_id.as_str()),
            None => false,
        };
        if under && descent_exhausts_exec(elements, child, fuel - 1) {
            return true;
        }
        i += 1;
    }
    false
}

// ---------------------------------------------------------------- the workspace

/// The top-level elements, in stored order.
pub open spec fn roots_dsl(es: Seq<DesignElementRecord>, scan: Seq<DesignElementRecord>) -> Seq<char>
    decreases scan.len(),
{
    if scan.len() == 0 {
        Seq::empty()
    } else {
        roots_dsl(es, scan.drop_last()) + if scan.last().parent_external_id is None {
            element_dsl(es, scan.last(), 2, es.len())
        } else {
            Seq::empty()
        }
    }
}

pub open spec fn relationship_line(r: DesignRelationshipRecord) -> Seq<char> {
    "        "@ + dsl_identifier_spec(r.source_external_id@) + " -> "@ + dsl_identifier_spec(
        r.destination_external_id@,
    ) + " \""@ + escape_dsl_spec(r.description@) + "\" \""@ + escape_dsl_spec(r.technology@)
        + "\""@ + dsl_tags_spec(r.tags@) + "\n"@
}

pub open spec fn relationships_dsl(rs: Seq<DesignRelationshipRecord>) -> Seq<char>
    decreases rs.len(),
{
    if rs.len() == 0 {
        Seq::empty()
    } else {
        relationships_dsl(rs.drop_last()) + relationship_line(rs.last())
    }
}

/// The first internal software system, else the first top-level element.
pub open spec fn root_system(es: Seq<DesignElementRecord>) -> Option<DesignElementRecord> {
    if exists|i: int| 0 <= i < es.len() && crate::model::is_internal_system(#[trigger] es[i]) {
        Some(es[first_index(es, |e: DesignElementRecord| crate::model::is_internal_system(e))])
    } else if exists|i: int| 0 <= i < es.len() && (#[trigger] es[i]).parent_external_id is None {
        Some(es[first_index(es, |e: DesignElementRecord| e.parent_external_id is None)])
    } else {
        None
    }
}

/// The first index whose element satisfies `p`.
pub open spec fn first_index(es: Seq<DesignElementRecord>, p: spec_fn(DesignElementRecord) -> bool) -> int
    decreases es.len(),
{
    if es.len() == 0 {
        0
    } else if p(es[0]) {
        0
    } else {
        1 + first_index(es.drop_first(), p)
    }
}

pub open spec fn view_block(system: Option<DesignElementRecord>) -> Seq<char> {
    match system {
        Some(s) => "        container "@ + dsl_identifier_spec(s.external_id@)
            + " \"AdashiContainers\" {\n"@ + "            include *\n"@
            + "            autolayout lr\n"@ + "        }\n"@,
        None => Seq::empty(),
    }
}

/// The whole workspace DSL.
pub open spec fn workspace_dsl_spec(
    name: Seq<char>,
    description: Seq<char>,
    es: Seq<DesignElementRecord>,
    rs: Seq<DesignRelationshipRecord>,
) -> Seq<char> {
    "workspace \""@ + escape_dsl_spec(name) + "\" \""@ + escape_dsl_spec(description) + "\" {\n"@
        + "    model {\n"@ + roots_dsl(es, es) + "\n"@ + relationships_dsl(rs) + "    }\n\n"@
        + "    views {\n"@ + view_block(root_system(es)) + "    }\n"@ + "}"@
}

/// The descent from every top-level element ends: no containment cycle is reachable.
pub open spec fn descent_ends(es: Seq<DesignElementRecord>) -> bool {
    forall|i: int|
        0 <= i < es.len() && (#[trigger] es[i]).parent_external_id is None ==> !descent_exhausts(
            es,
            es[i],
            es.len(),
        )
}

pub(crate) proof fn lemma_first_index(es: Seq<DesignElementRecord>, p: spec_fn(DesignElementRecord) -> bool, k: int)
    requires
        0 <= k < es.len(),
        p(es[k]),
        forall|j: int| 0 <= j < k ==> !p(#[trigger] es[j]),
    ensures
        first_index(es, p) == k,
    decreases k,
{
    if k > 0 {
        assert forall|j: int| 0 <= j < k - 1 implies !p(#[trigger] es.drop_first()[j]) by {
            assert(es.drop_first()[j] == es[j + 1]);
        }
        lemma_first_index(es.drop_first(), p, k - 1);
    }
}

fn find_root_system(es: &[DesignElementRecord]) -> (r: Option<&DesignElementRecord>)
    ensures
        match r {
            Some(e) => root_system(es@) == Some(*e),
            None => root_system(es@) is None,
        },
{
    let want = chars_of("Software System");
    let mut i: usize = 0;
    while i < es.len()
        invariant
            i <= es@.len(),
            want@ == "Software System"@,
            forall|j: int| 0 <= j < i ==> !crate::model::is_internal_system(#[trigger] es@[j]),
        decreases es.len() - i,
    {
        let t = chars_of(es[i].element_type.as_str());
        if chars_eq_ignore_ascii_case(t.as_slice(), want.as_slice()) && !has_tag(es[i].tags.as_str(), "External") {
            proof {
                lemma_first_index(es@, |e: DesignElementRecord| crate::model::is_internal_system(e), i as int);
            }
            return Some(&es[i]);
        }
        i += 1;
    }
    let mut i: usize = 0;
    while i < es.len()
        invariant
            i <= es@.len(),
            forall|j: int| 0 <= j < es@.len() ==> !crate::model::is_internal_system(#[trigger] es@[j]),
            forall|j: int| 0 <= j < i ==> (#[trigger] es@[j]).parent_external_id is Some,
        decreases es.len() - i,
    {
        if es[i].parent_external_id.is_none() {
            proof {
                lemma_first_index(es@, |e: DesignElementRecord| e.parent_external_id is None, i as int);
            }
            return Some(&es[i]);
        }
        i += 1;
    }
    None
}

fn push_escaped(s: &mut String, v: &str)
    ensures
        final(s)@ == old(s)@ + escape_dsl_spec(v@),
{
    let e = escape_dsl(v);
    push_str_chars(s, e.as_str());
}

/// The canonical Structurizr DSL of a workspace.
pub fn build_structurizr_dsl(
    workspace_name: &str,
    workspace_description: &str,
    elements: &[DesignElementRecord],
    relationships: &[DesignRelationshipRecord],
) -> (r: String)
    requires
        descent_ends(elements@),
        elements@.len() + 2 <= usize::MAX,
    ensures
        r@ == workspace_dsl_spec(workspace_name@, workspace_description@, elements@, relationships@),
{
    let mut dsl = owned("workspace \"");
    push_escaped(&mut dsl, workspace_name);
    push_str_chars(&mut dsl, "\" \"");
    push_escaped(&mut dsl, workspace_description);
    push_str_chars(&mut dsl, "\" {\n");
    push_str_chars(&mut dsl, "    model {\n");
    let ghost s0 = dsl@;
    let n = elements.len();
    let mut i: usize = 0;
    assert(roots_dsl(elements@, elements@.take(0)) =~= Seq::<char>::empty());
    assert(s0 + Seq::<char>::empty() =~= s0);
    while i < n
        invariant
            i <= n,
            n == elements@.len(),
            n + 2 <= usize::MAX,
            dsl@ == s0 + roots_dsl(elements@, elements@.take(i as int)),
        decreases n - i,
    {
        proof {
            assert(elements@.take(i + 1).drop_last() =~= elements@.take(i as int));
            assert(elements@.take(i + 1).last() == elements@[i as int]);
        }
        if elements[i].parent_external_id.is_none() {
            push_element_dsl(&mut dsl, elements, &elements[i], 2, n);
        }
        assert(dsl@ =~= s0 + roots_dsl(elements@, elements@.take(i + 1)));
        i += 1;
    }
    assert(elements@.take(n as int) =~= elements@);
    push_str_chars(&mut dsl, "\n");
    let ghost s1 = dsl@;
    let mut k: usize = 0;
    assert(relationships_dsl(relationships@.take(0)) =~= Seq::<char>::empty());
    assert(s1 + Seq::<char>::empty() =~= s1);
    while k < relationships.len()
        invariant
            k <= relationships@.len(),
            dsl@ == s1 + relationships_dsl(relationships@.take(k as int)),
        decreases relationships.len() - k,
    {
        proof {
            assert(relationships@.take(k + 1).drop_last() =~= relationships@.take(k as int));
            assert(relationships@.take(k + 1).last() == relationships@[k as int]);
        }
        let r = &relationships[k];
        let ghost before = dsl@;
        push_str_chars(&mut dsl, "        ");
        let a = dsl_identifier(r.source_external_id.as_str());
        push_str_chars(&mut dsl, a.as_str());
        push_str_chars(&mut dsl, " -> ");
        let b = dsl_identifier(r.destination_external_id.as_str());
        push_str_chars(&mut dsl, b.as_str());
        push_str_chars(&mut dsl, " \"");
        push_escaped(&mut dsl, r.description.as_str());
        push_str_chars(&mut dsl, "\" \"");
        push_escaped(&mut dsl, r.technology.as_str());
        push_str_chars(&mut dsl, "\"");
        let t = dsl_tags(r.tags.as_str());
        push_str_chars(&mut dsl, t.as_str());
        push_str_chars(&mut dsl, "\n");
        assert(dsl@ =~= before + relationship_line(*r));
        assert(dsl@ =~= s1 + relationships_dsl(relationships@.take(k + 1)));
        k += 1;
    }
    assert(relationships@.take(relationships@.len() as int) =~= relationships@);
    push_str_chars(&mut dsl, "    }\n\n");
    push_str_chars(&mut dsl, "    views {\n");
    let ghost s2 = dsl@;
    if let Some(system) = find_root_system(elements) {
        push_str_chars(&mut dsl, "        container ");
        let id = dsl_identifier(system.external_id.as_str());
        push_str_chars(&mut dsl, id.as_str());
        push_str_chars(&mut dsl, " \"AdashiContainers\" {\n");
        push_str_chars(&mut dsl, "            include *\n");
        push_str_chars(&mut dsl, "            autolayout lr\n");
        push_str_chars(&mut dsl, "        }\n");
    }
    assert(dsl@ =~= s2 + view_block(root_system(elements@)));
    push_str_chars(&mut dsl, "    }\n");
    push_str_chars(&mut dsl, "}");
    dsl
}

/// Whether the descent from every top-level element ends.
pub fn descents_end(elements: &[DesignElementRecord]) -> (b: bool)
    ensures
        b == descent_ends(elements@),
{
    let mut i: usize = 0;
    while i < elements.len()
        invariant
            i <= elements@.len(),
            forall|j: int|
                0 <= j < i && (#[trigger] elements@[j]).parent_external_id is None ==> !descent_exhausts(
                    elements@,
                    elements@[j],
                    elements@.len(),
                ),
        decreases elements.len() - i,
    {
        if elements[i].parent_external_id.is_none() && descent_exhausts_exec(elements, &elements[i], elements.len()) {
            return false;
        }
        i += 1;
    }
    true
}


// ---------------------------------------------------------------- laws of the declarations

proof fn lemma_line_starts_with(e: DesignElementRecord, indent: nat, open: bool)
    ensures
        (spaces(indent) + dsl_identifier_spec(e.external_id@) + " = "@ + declaration_spec(e.element_type@)
            + " \""@).is_prefix_of(element_line(e, indent, open)),
{
    let p = spaces(indent) + dsl_identifier_spec(e.external_id@) + " = "@ + declaration_spec(
        e.element_type@,
    ) + " \""@;
    let line = element_line(e, indent, open);
    assert(line.subrange(0, p.len() as int) =~= p);
}

/// Law: an element is declared with the DSL keyword of its type, read ignoring ASCII case and
/// surrounding whitespace: a person as `person`, a container as `container`, a component as
/// `component`, and anything else as `softwareSystem`.
pub proof fn law_declaration_keyword(e: DesignElementRecord, indent: nat, open: bool)
    ensures
        ({
            let l = crate::text::lower_ascii_seq(trim(e.element_type@));
            let head = spaces(indent) + dsl_identifier_spec(e.external_id@) + " = "@;
            let line = element_line(e, indent, open);
            &&& l == "person"@ ==> (head + "person \""@).is_prefix_of(line)
            &&& l == "container"@ ==> (head + "container \""@).is_prefix_of(line)
            &&& l == "component"@ ==> (head + "component \""@).is_prefix_of(line)
            &&& !(l == "person"@ || l == "container"@ || l == "component"@) ==> (head
                + "softwareSystem \""@).is_prefix_of(line)
        }),
{
    let head = spaces(indent) + dsl_identifier_spec(e.external_id@) + " = "@;
    let kw = declaration_spec(e.element_type@);
    lemma_line_starts_with(e, indent, open);
    reveal_strlit("person");
    reveal_strlit("container");
    reveal_strlit("component");
    reveal_strlit("software system");
    reveal_strlit("softwaresystem");
    reveal_strlit("Person");
    reveal_strlit("Container");
    reveal_strlit("Component");
    reveal_strlit("Software System");
    reveal_strlit(" \"");
    reveal_strlit("person \"");
    reveal_strlit("container \"");
    reveal_strlit("component \"");
    reveal_strlit("softwareSystem \"");
    reveal_strlit("softwareSystem");
    assert(head + kw + " \""@ =~= head + (kw + " \""@));
    let l = crate::text::lower_ascii_seq(trim(e.element_type@));
    if l == "person"@ {
        assert(normalized_type_spec(e.element_type@) == Some("Person"@));
        assert(kw == "person"@);
        assert(kw + " \""@ =~= "person \""@);
    } else if l == "container"@ {
        assert("container"@.len() != "person"@.len());
        assert("container"@.len() != "software system"@.len());
        assert("container"@.len() != "softwaresystem"@.len());
        assert(normalized_type_spec(e.element_type@) == Some("Container"@));
        assert("Container"@.len() != "Person"@.len());
        assert(kw == "container"@);
        assert(kw + " \""@ =~= "container \""@);
    } else if l == "component"@ {
        assert("component"@.len() != "person"@.len());
        assert("component"@.len() != "software system"@.len());
        assert("component"@.len() != "softwaresystem"@.len());
        assert("component"@[3] != "container"@[3]);
        assert(normalized_type_spec(e.element_type@) == Some("Component"@));
        assert("Component"@.len() != "Person"@.len());
        assert("Component"@[3] != "Container"@[3]);
        assert(kw == "component"@);
        assert(kw + " \""@ =~= "component \""@);
    } else {
        assert("Software System"@.len() != "Person"@.len());
        assert("Software System"@.len() != "Container"@.len());
        assert("Software System"@.len() != "Component"@.len());
        assert(kw == "softwareSystem"@);
        assert(kw + " \""@ =~= "softwareSystem \""@);
    }
}

} // verus!
