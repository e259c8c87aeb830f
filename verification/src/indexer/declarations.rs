//! Which nodes of a syntax tree become snippets, and what each snippet holds.
//!
//! The tree is given as its nodes in pre-order with their depths. A node is
//! collected when it is a declaration (or compound statement) and no declaration
//! encloses it: the search stops descending at each declaration it reports.
use crate::indexer::code_parser::{
    python_snippet_type, RawSnippet, RawSnippetView, SnippetType, SnippetTypeMapper,
};
use crate::indexer::syntax::{nodes_view, NodeView, SyntaxNode};
use crate::indexer::text::{
    bytes_to_string, bytes_to_string_checked, char_boundary, copy_range, str_equal,
};
use vstd::prelude::*;
use vstd::utf8::*;

verus! {

broadcast use vstd::utf8::group_utf8_lib;

/// Node kinds that are reported as snippets.
pub open spec fn is_declaration_kind(k: Seq<char>) -> bool {
    ||| k == "function_definition"@
    ||| k == "lambda"@
    ||| k == "async_function_def"@
    ||| k == "if_statement"@
    ||| k == "for_statement"@
    ||| k == "while_statement"@
    ||| k == "try_statement"@
    ||| k == "with_statement"@
}

pub fn is_declaration(kind: &str) -> (r: bool)
    ensures
        r == is_declaration_kind(kind@),
{
    str_equal(kind, "function_definition") || str_equal(kind, "lambda") || str_equal(
        kind,
        "async_function_def",
    ) || str_equal(kind, "if_statement") || str_equal(kind, "for_statement") || str_equal(
        kind,
        "while_statement",
    ) || str_equal(kind, "try_statement") || str_equal(kind, "with_statement")
}

/// Node `j` is a proper ancestor of node `i` (in a pre-order listing with depths,
/// every node from `j`'s successor up to `i` lies deeper than `j`).
pub open spec fn encloses(ns: Seq<NodeView>, j: int, i: int) -> bool {
    &&& 0 <= j < i < ns.len()
    &&& forall|k: int| j < k <= i ==> #[trigger] ns[k].depth > ns[j].depth
}

/// Some declaration encloses node `i`.
pub open spec fn inside_declaration(ns: Seq<NodeView>, i: int) -> bool {
    exists|j: int| #[trigger] encloses(ns, j, i) && is_declaration_kind(ns[j].kind)
}

/// Node `i` is reported: a declaration not enclosed by another declaration.
pub open spec fn is_collected(ns: Seq<NodeView>, i: int) -> bool {
    is_declaration_kind(ns[i].kind) && !inside_declaration(ns, i)
}

/// The last node before `end` that is shallower than `depth`.
pub open spec fn last_shallower(ns: Seq<NodeView>, depth: usize, end: int) -> Option<int>
    decreases end,
{
    if end <= 0 {
        None
    } else if ns[end - 1].depth < depth {
        Some(end - 1)
    } else {
        last_shallower(ns, depth, end - 1)
    }
}

/// The parent of node `i`: the closest preceding node that is shallower.
pub open spec fn parent_of(ns: Seq<NodeView>, i: int) -> Option<int> {
    last_shallower(ns, ns[i].depth, i)
}

/// The text of a node's name, or "anonymous" when it has no name or the name's
/// bytes are not valid UTF-8.
pub open spec fn name_text(b: Seq<u8>, r: Option<(usize, usize)>) -> Seq<char> {
    match r {
        Some((s, e)) => if valid_utf8(b.subrange(s as int, e as int)) {
            decode_utf8(b.subrange(s as int, e as int))
        } else {
            "anonymous"@
        },
        None => "anonymous"@,
    }
}

/// Node `p`, or its parent when `p` is of the given kind and has a parent.
pub open spec fn look_through(ns: Seq<NodeView>, p: int, kind: Seq<char>) -> int {
    if ns[p].kind == kind && parent_of(ns, p) is Some {
        parent_of(ns, p).unwrap()
    } else {
        p
    }
}

/// The kind of the node that decides a snippet's type: the parent's kind, looking
/// through a decorator wrapper (`decorated_definition`) and then a body
/// (`block`) to the node that owns them; so a function defined in a class body,
/// decorated or not, has the context `class_definition`.
pub open spec fn context_kind(ns: Seq<NodeView>, i: int) -> Seq<char> {
    let p = parent_of(ns, i).unwrap();
    ns[look_through(ns, look_through(ns, p, "decorated_definition"@), "block"@)].kind
}

/// `look_through` on the nodes.
pub fn look_through_exec(nodes: &Vec<SyntaxNode>, p: usize, kind: &str) -> (r: usize)
    requires
        p < nodes@.len(),
    ensures
        r == look_through(nodes_view(nodes@), p as int, kind@),
        r < nodes@.len(),
{
    let ghost ns = nodes_view(nodes@);
    assert(ns[p as int] == nodes@[p as int]@);
    if str_equal(nodes[p].kind.as_str(), kind) {
        match find_parent(nodes, p) {
            Some(g) => g,
            None => p,
        }
    } else {
        p
    }
}

/// The snippet reported for node `i` of a source with bytes `b`.
pub open spec fn snippet_at(b: Seq<u8>, ns: Seq<NodeView>, i: int) -> RawSnippetView {
    let n = ns[i];
    RawSnippetView {
        original_code: decode_utf8(b.subrange(n.start_byte as int, n.end_byte as int)),
        start_line: n.start_row as u32,
        end_line: n.end_row as u32,
        name: Some(name_text(b, n.name_range)),
        snippet_type: python_snippet_type(n.kind, Some(context_kind(ns, i))),
    }
}

/// The snippets of the nodes before index `n` that are reported, in order.
pub open spec fn collected(b: Seq<u8>, ns: Seq<NodeView>, n: int) -> Seq<RawSnippetView>
    decreases n,
{
    if n <= 0 {
        Seq::empty()
    } else if is_collected(ns, n - 1) {
        collected(b, ns, n - 1).push(snippet_at(b, ns, n - 1))
    } else {
        collected(b, ns, n - 1)
    }
}

/// A node whose snippet can be taken from the source: its range lies between
/// character boundaries, its rows fit in `u32`, its name range lies in the source.
pub open spec fn node_ok(b: Seq<u8>, n: NodeView) -> bool {
    &&& n.start_byte <= n.end_byte
    &&& is_char_boundary(b, n.start_byte as int)
    &&& is_char_boundary(b, n.end_byte as int)
    &&& n.start_row <= u32::MAX
    &&& n.end_row <= u32::MAX
    &&& (n.name_range matches Some(r) ==> r.0 <= r.1 <= b.len())
}

/// Every reported node can be turned into a snippet and has a parent.
pub open spec fn collectable(b: Seq<u8>, ns: Seq<NodeView>) -> bool {
    &&& valid_utf8(b)
    &&& forall|i: int|
        0 <= i < ns.len() && #[trigger] is_collected(ns, i) ==> node_ok(b, ns[i]) && parent_of(
            ns,
            i,
        ) is Some
}

/// The bytes between two character boundaries of valid UTF-8 are valid UTF-8.
pub proof fn lemma_subrange_valid(b: Seq<u8>, s: int, e: int)
    requires
        valid_utf8(b),
        s <= e,
        is_char_boundary(b, s),
        is_char_boundary(b, e),
    ensures
        valid_utf8(b.subrange(s, e)),
        e <= b.len(),
{
    reveal_with_fuel(is_char_boundary, 1);
    assert(0 <= s && e <= b.len());
    valid_utf8_split(b, s);
    let t = b.subrange(s, b.len() as int);
    if e == b.len() {
        is_char_boundary_start_end_of_seq(t);
    } else {
        is_char_boundary_iff_not_is_continuation_byte(b, e);
        is_char_boundary_iff_not_is_continuation_byte(t, e - s);
        assert(t[e - s] == b[e]);
    }
    valid_utf8_split(t, e - s);
    assert(t.subrange(0, e - s) =~= b.subrange(s, e));
}

/// The index of the parent of node `i`.
pub fn find_parent(nodes: &Vec<SyntaxNode>, i: usize) -> (r: Option<usize>)
    requires
        i < nodes@.len(),
    ensures
        match parent_of(nodes_view(nodes@), i as int) {
            Some(p) => r == Some(p as usize) && 0 <= p < i,
            None => r is None,
        },
{
    let ghost ns = nodes_view(nodes@);
    let d = nodes[i].depth;
    let mut j: usize = i;
    while j > 0
        invariant
            j <= i < nodes@.len(),
            ns == nodes_view(nodes@),
            d == ns[i as int].depth,
            last_shallower(ns, d, i as int) == last_shallower(ns, d, j as int),
        decreases j,
    {
        if nodes[j - 1].depth < d {
            return Some(j - 1);
        }
        j = j - 1;
    }
    None
}

/// The characters of `bytes[start..end]`.
pub fn range_text(bytes: &Vec<u8>, start: usize, end: usize) -> (r: String)
    requires
        valid_utf8(bytes@),
        start <= end,
        is_char_boundary(bytes@, start as int),
        is_char_boundary(bytes@, end as int),
    ensures
        r@ == decode_utf8(bytes@.subrange(start as int, end as int)),
{
    proof {
        lemma_subrange_valid(bytes@, start as int, end as int);
    }
    bytes_to_string(copy_range(bytes, start, end))
}

/// The name of a node: the text of its name range, or "anonymous".
pub fn name_of(bytes: &Vec<u8>, range: Option<(usize, usize)>) -> (r: String)
    requires
        range matches Some(x) ==> x.0 <= x.1 <= bytes@.len(),
    ensures
        r@ == name_text(bytes@, range),
{
    match range {
        Some((s, e)) => match bytes_to_string_checked(copy_range(bytes, s, e)) {
            Some(t) => t,
            None => "anonymous".to_owned(),
        },
        None => "anonymous".to_owned(),
    }
}

/// The snippet of node `i`, whose parent is node `parent`.
pub fn snippet_for(bytes: &Vec<u8>, nodes: &Vec<SyntaxNode>, i: usize, parent: usize) -> (r:
    RawSnippet)
    requires
        valid_utf8(bytes@),
        i < nodes@.len(),
        node_ok(bytes@, nodes_view(nodes@)[i as int]),
        parent_of(nodes_view(nodes@), i as int) == Some(parent as int),
    ensures
        r@ == snippet_at(bytes@, nodes_view(nodes@), i as int),
{
    let ghost ns = nodes_view(nodes@);
    assert(ns[i as int] == nodes@[i as int]@);
    let n = &nodes[i];
    let original_code = range_text(bytes, n.start_byte, n.end_byte);
    let name = name_of(bytes, n.name_range);
    proof {
        reveal_with_fuel(last_shallower, 1);
    }
    assert(0 <= parent < i) by {
        lemma_last_shallower_range(ns, ns[i as int].depth, i as int);
    }
    assert(ns[parent as int] == nodes@[parent as int]@);
    let owner = look_through_exec(nodes, parent, "decorated_definition");
    let owner = look_through_exec(nodes, owner, "block");
    assert(ns[owner as int] == nodes@[owner as int]@);
    let context: &str = nodes[owner].kind.as_str();
    let snippet_type = SnippetTypeMapper::from_python_node(n.kind.as_str(), Some(context));
    RawSnippet {
        original_code,
        start_line: n.start_row as u32,
        end_line: n.end_row as u32,
        name: Some(name),
        snippet_type,
    }
}

pub proof fn lemma_last_shallower_range(ns: Seq<NodeView>, depth: usize, end: int)
    ensures
        last_shallower(ns, depth, end) matches Some(p) ==> 0 <= p < end && ns[p].depth < depth,
    decreases end,
{
    if end > 0 {
        lemma_last_shallower_range(ns, depth, end - 1);
    }
}

/// Node `j` is a declaration whose subtree extends over every node up to `i` (excluded).
pub open spec fn open_at(ns: Seq<NodeView>, j: int, i: int) -> bool {
    &&& is_declaration_kind(ns[j].kind)
    &&& forall|k: int| j < k < i ==> #[trigger] ns[k].depth > ns[j].depth
}

/// The state of the search before node `i`: `skip` holds the depth of the
/// outermost open declaration, below which nodes are skipped.
pub open spec fn skip_inv(ns: Seq<NodeView>, i: int, skip: Option<usize>) -> bool {
    &&& forall|j: int|
        0 <= j < i && #[trigger] open_at(ns, j, i) ==> (skip matches Some(sd) && ns[j].depth >= sd)
    &&& skip matches Some(sd) ==> exists|j: int|
        0 <= j < i && #[trigger] open_at(ns, j, i) && ns[j].depth == sd
}

/// Node `i` lies below the skip depth.
pub open spec fn skips(ns: Seq<NodeView>, i: int, skip: Option<usize>) -> bool {
    skip matches Some(sd) && ns[i].depth > sd
}

pub open spec fn next_skip(ns: Seq<NodeView>, i: int, skip: Option<usize>) -> Option<usize> {
    if skips(ns, i, skip) {
        skip
    } else if is_declaration_kind(ns[i].kind) {
        Some(ns[i].depth)
    } else {
        None
    }
}

/// A node is skipped exactly when a declaration encloses it, and the search
/// state carries over to the next node.
pub proof fn lemma_skip_step(ns: Seq<NodeView>, i: int, skip: Option<usize>)
    requires
        0 <= i < ns.len(),
        skip_inv(ns, i, skip),
    ensures
        skips(ns, i, skip) == inside_declaration(ns, i),
        skip_inv(ns, i + 1, next_skip(ns, i, skip)),
{
    if skips(ns, i, skip) {
        let sd = skip->0;
        let j = choose|j: int| 0 <= j < i && #[trigger] open_at(ns, j, i) && ns[j].depth == sd;
        assert(encloses(ns, j, i));
    } else {
        if inside_declaration(ns, i) {
            let j = choose|j: int| #[trigger] encloses(ns, j, i) && is_declaration_kind(ns[j].kind);
            assert(open_at(ns, j, i));
            assert(ns[i].depth > ns[j].depth);
        }
    }
    let nskip = next_skip(ns, i, skip);
    assert forall|j: int| 0 <= j < i + 1 && #[trigger] open_at(ns, j, i + 1) implies (
    nskip matches Some(sd) && ns[j].depth >= sd) by {
        if j < i {
            assert(open_at(ns, j, i));
            assert(ns[i].depth > ns[j].depth);
        }
    }
    if skips(ns, i, skip) {
        let sd = skip->0;
        let j = choose|j: int| 0 <= j < i && #[trigger] open_at(ns, j, i) && ns[j].depth == sd;
        assert(open_at(ns, j, i + 1));
    } else if is_declaration_kind(ns[i].kind) {
        assert(open_at(ns, i, i + 1));
    }
}

/// A node enclosed by a node that is itself enclosed lies inside the outer one too.
pub proof fn lemma_encloses_trans(ns: Seq<NodeView>, a: int, b: int, c: int)
    requires
        encloses(ns, a, b),
        encloses(ns, b, c),
    ensures
        encloses(ns, a, c),
{
    assert forall|k: int| a < k <= c implies #[trigger] ns[k].depth > ns[a].depth by {
        if k > b {
            assert(ns[k].depth > ns[b].depth);
            assert(ns[b].depth > ns[a].depth);
        }
    }
}

/// A declaration enclosing node `i` lies inside (or is) a reported declaration
/// that encloses `i`.
pub proof fn lemma_enclosing_collected(ns: Seq<NodeView>, j: int, i: int)
    requires
        encloses(ns, j, i),
        is_declaration_kind(ns[j].kind),
    ensures
        exists|c: int| #[trigger] encloses(ns, c, i) && is_collected(ns, c),
    decreases j,
{
    if is_collected(ns, j) {
        assert(encloses(ns, j, i) && is_collected(ns, j));
    } else {
        let k = choose|k: int| #[trigger] encloses(ns, k, j) && is_declaration_kind(ns[k].kind);
        lemma_encloses_trans(ns, k, j, i);
        lemma_enclosing_collected(ns, k, i);
    }
}

/// Law: every declaration node is reported, or lies inside a reported declaration.
pub proof fn law_declaration_reported_or_inside_reported(ns: Seq<NodeView>, i: int)
    requires
        0 <= i < ns.len(),
        is_declaration_kind(ns[i].kind),
    ensures
        is_collected(ns, i) || exists|c: int| #[trigger] encloses(ns, c, i) && is_collected(ns, c),
{
    if !is_collected(ns, i) {
        let j = choose|j: int| #[trigger] encloses(ns, j, i) && is_declaration_kind(ns[j].kind);
        lemma_enclosing_collected(ns, j, i);
    }
}

/// Law: no reported node lies inside another reported node.
pub proof fn law_reported_not_nested(ns: Seq<NodeView>, j: int, i: int)
    requires
        is_collected(ns, j),
        is_collected(ns, i),
    ensures
        !encloses(ns, j, i),
{
    if encloses(ns, j, i) {
        assert(inside_declaration(ns, i));
    }
}

/// Law: the snippets are those of the reported nodes, one each, in tree order:
/// the `k`-th snippet is that of the `k`-th reported node.
pub proof fn law_one_snippet_per_reported_node(b: Seq<u8>, ns: Seq<NodeView>, n: int)
    requires
        0 <= n <= ns.len(),
    ensures
        collected(b, ns, n) == reported_nodes(ns, n).map_values(|i: int| snippet_at(b, ns, i)),
    decreases n,
{
    if n > 0 {
        law_one_snippet_per_reported_node(b, ns, n - 1);
        assert(collected(b, ns, n) =~= reported_nodes(ns, n).map_values(
            |i: int| snippet_at(b, ns, i),
        ));
    }
}

/// The indices of the reported nodes before index `n`, increasing.
pub open spec fn reported_nodes(ns: Seq<NodeView>, n: int) -> Seq<int>
    decreases n,
{
    if n <= 0 {
        Seq::empty()
    } else if is_collected(ns, n - 1) {
        reported_nodes(ns, n - 1).push(n - 1)
    } else {
        reported_nodes(ns, n - 1)
    }
}

/// Whether every reported node can be turned into a snippet and has a parent.
pub fn check_collectable(bytes: &Vec<u8>, nodes: &Vec<SyntaxNode>) -> (r: bool)
    requires
        valid_utf8(bytes@),
    ensures
        r == collectable(bytes@, nodes_view(nodes@)),
{
    let ghost ns = nodes_view(nodes@);
    let mut skip: Option<usize> = None;
    let mut i: usize = 0;
    while i < nodes.len()
        invariant
            i <= nodes@.len(),
            ns == nodes_view(nodes@),
            valid_utf8(bytes@),
            skip_inv(ns, i as int, skip),
            forall|k: int|
                0 <= k < i && #[trigger] is_collected(ns, k) ==> node_ok(bytes@, ns[k]) && parent_of(
                    ns,
                    k,
                ) is Some,
        decreases nodes@.len() - i,
    {
        proof {
            lemma_skip_step(ns, i as int, skip);
        }
        assert(ns[i as int] == nodes@[i as int]@);
        let n = &nodes[i];
        let covered = match skip {
            Some(sd) => n.depth > sd,
            None => false,
        };
        assert(covered == skips(ns, i as int, skip));
        if !covered {
            if is_declaration(n.kind.as_str()) {
                assert(is_collected(ns, i as int));
                let name_fits = match n.name_range {
                    Some(r) => r.0 <= r.1 && r.1 <= bytes.len(),
                    None => true,
                };
                if !(n.start_byte <= n.end_byte && char_boundary(bytes, n.start_byte)
                    && char_boundary(bytes, n.end_byte) && n.start_row <= 0xffff_ffff
                    && n.end_row <= 0xffff_ffff && name_fits) {
                    assert(!node_ok(bytes@, ns[i as int]));
                    return false;
                }
                if find_parent(nodes, i).is_none() {
                    return false;
                }
                skip = Some(n.depth);
            } else {
                assert(!is_collected(ns, i as int));
                skip = None;
            }
        } else {
            assert(!is_collected(ns, i as int));
        }
        i = i + 1;
    }
    true
}

/// Law (which nodes become snippets): exactly the nodes of the eight kinds
/// `function_definition`, `lambda`, `async_function_def`, `if_statement`,
/// `for_statement`, `while_statement`, `try_statement` and `with_statement` are
/// declarations; imports, classes, expressions and the rest are not.
pub proof fn law_declaration_kinds(k: Seq<char>)
    ensures
        is_declaration_kind(k) <==> (k == "function_definition"@ || k == "lambda"@ || k
            == "async_function_def"@ || k == "if_statement"@ || k == "for_statement"@ || k
            == "while_statement"@ || k == "try_statement"@ || k == "with_statement"@),
{
}

/// Law: every node that can become a snippet gets a known snippet type, whatever
/// its parent: a function, method, lambda, async function, loop, `if`, `try` or
/// `with` block, never `Unknown` nor `Class`.
pub proof fn law_declarations_have_known_types(k: Seq<char>, p: Option<Seq<char>>)
    requires
        is_declaration_kind(k),
    ensures
        python_snippet_type(k, p) != SnippetType::Unknown,
        python_snippet_type(k, p) != SnippetType::Class,
{
    reveal_strlit("function_definition");
    assert("function_definition"@.len() == 19 && "function_definition"@[0] == 'f');
    reveal_strlit("lambda");
    assert("lambda"@.len() == 6 && "lambda"@[0] == 'l');
    reveal_strlit("async_function_def");
    assert("async_function_def"@.len() == 18 && "async_function_def"@[0] == 'a');
    reveal_strlit("if_statement");
    assert("if_statement"@.len() == 12 && "if_statement"@[0] == 'i');
    reveal_strlit("for_statement");
    assert("for_statement"@.len() == 13 && "for_statement"@[0] == 'f');
    reveal_strlit("while_statement");
    assert("while_statement"@.len() == 15 && "while_statement"@[0] == 'w');
    reveal_strlit("try_statement");
    assert("try_statement"@.len() == 13 && "try_statement"@[0] == 't');
    reveal_strlit("with_statement");
    assert("with_statement"@.len() == 14 && "with_statement"@[0] == 'w');
    reveal_strlit("class_definition");
    assert("class_definition"@.len() == 16 && "class_definition"@[0] == 'c');
}

/// Law (a node inside the text can become a snippet): a node whose byte range is
/// ordered and starts and ends on character boundaries of the text (the end of
/// the text included), whose rows fit in `u32` and whose name range lies within
/// the text, is a node a snippet can be made of.
pub proof fn law_node_within_text_is_ok(b: Seq<u8>, n: NodeView)
    requires
        n.start_byte <= n.end_byte,
        is_char_boundary(b, n.start_byte as int),
        is_char_boundary(b, n.end_byte as int),
        n.start_row <= u32::MAX,
        n.end_row <= u32::MAX,
        n.name_range matches Some(r) ==> r.0 <= r.1 <= b.len(),
    ensures
        node_ok(b, n),
{
}

/// Law: a node spanning the whole of a valid UTF-8 text, from its first byte to
/// its end, is a node a snippet can be made of.
pub proof fn law_whole_text_node_is_ok(b: Seq<u8>, n: NodeView)
    requires
        valid_utf8(b),
        n.start_byte == 0,
        n.end_byte == b.len(),
        n.start_row <= u32::MAX,
        n.end_row <= u32::MAX,
        n.name_range is None,
    ensures
        node_ok(b, n),
{
    is_char_boundary_start_end_of_seq(b);
}

/// The reported nodes before index `n` are reported nodes below `n`.
pub proof fn lemma_reported_nodes_collected(ns: Seq<NodeView>, n: int)
    ensures
        forall|k: int|
            0 <= k < reported_nodes(ns, n).len() ==> 0 <= #[trigger] reported_nodes(ns, n)[k] < n
                && is_collected(ns, reported_nodes(ns, n)[k]),
    decreases n,
{
    if n > 0 {
        lemma_reported_nodes_collected(ns, n - 1);
        let r = reported_nodes(ns, n - 1);
        assert forall|k: int| 0 <= k < reported_nodes(ns, n).len() implies 0
            <= #[trigger] reported_nodes(ns, n)[k] < n && is_collected(ns, reported_nodes(ns, n)[k]) by {
            if k < r.len() {
                assert(reported_nodes(ns, n)[k] == r[k]);
            }
        }
    }
}

/// Law (what each snippet holds): every snippet of a collectable tree comes from
/// a reported node of one of the declaration kinds; its code is exactly the
/// source bytes of the node's range, its lines are the node's rows, and its type
/// is a known one (never `Unknown` nor `Class`).
pub proof fn law_snippet_is_its_node(b: Seq<u8>, ns: Seq<NodeView>, k: int)
    requires
        collectable(b, ns),
        0 <= k < collected(b, ns, ns.len() as int).len(),
    ensures
        exists|i: int|
            0 <= i < ns.len() && is_collected(ns, i) && is_declaration_kind(ns[i].kind) && encode_utf8(
                #[trigger] collected(b, ns, ns.len() as int)[k].original_code,
            ) == b.subrange(ns[i].start_byte as int, ns[i].end_byte as int) && collected(
                b,
                ns,
                ns.len() as int,
            )[k].start_line == ns[i].start_row && collected(b, ns, ns.len() as int)[k].end_line
                == ns[i].end_row && collected(b, ns, ns.len() as int)[k].snippet_type
                != SnippetType::Unknown && collected(b, ns, ns.len() as int)[k].snippet_type
                != SnippetType::Class,
{
    let n = ns.len() as int;
    law_one_snippet_per_reported_node(b, ns, n);
    lemma_reported_nodes_collected(ns, n);
    let i = reported_nodes(ns, n)[k];
    assert(is_collected(ns, i));
    assert(node_ok(b, ns[i]));
    let s = collected(b, ns, n)[k];
    assert(s == snippet_at(b, ns, i));
    lemma_subrange_valid(b, ns[i].start_byte as int, ns[i].end_byte as int);
    decode_utf8_encode_utf8(b.subrange(ns[i].start_byte as int, ns[i].end_byte as int));
    law_declarations_have_known_types(ns[i].kind, Some(context_kind(ns, i)));
}

} // verus!
