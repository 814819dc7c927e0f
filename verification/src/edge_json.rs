//! The JSON form of edges.

use crate::graph::{EdgeResolution, EdgeType, GraphEdge, SourceSpan, SourceType};
use crate::hex::{array16, array32};
use crate::ids::{IdentityId, NodeRevisionId};
use crate::json;
use crate::json::{
    JsonTree, field, list_value, number_value, object_value, text_value, value_items,
    value_member, value_number, value_text,
};
use crate::text::same_text;
use vstd::prelude::*;

verus! {

/// Bytes as a list of numbers.
pub open spec fn bytes_tree(b: Seq<u8>) -> JsonTree {
    JsonTree::List(b.map_values(|x: u8| JsonTree::Number(x as u64)))
}

/// The sixteen bytes that a list of numbers stands for.
pub open spec fn tree_array16(t: JsonTree) -> Option<[u8; 16]> {
    if exists|a: [u8; 16]| #[trigger] bytes_tree(a@) == t {
        Some(choose|a: [u8; 16]| #[trigger] bytes_tree(a@) == t)
    } else {
        None
    }
}

/// The thirty-two bytes that a list of numbers stands for.
pub open spec fn tree_array32(t: JsonTree) -> Option<[u8; 32]> {
    if exists|a: [u8; 32]| #[trigger] bytes_tree(a@) == t {
        Some(choose|a: [u8; 32]| #[trigger] bytes_tree(a@) == t)
    } else {
        None
    }
}

/// The number of a tree, if it has one that small.
pub open spec fn tree_u32(t: JsonTree) -> Option<u32> {
    match t {
        JsonTree::Number(n) => if n <= u32::MAX {
            Some(n as u32)
        } else {
            None
        },
        _ => None,
    }
}

/// One of the parts of a value: the member of that name, or the item at that place where the value
/// is a list of as many items as there are parts.
pub open spec fn part_of(t: JsonTree, name: Seq<char>, place: int, parts: nat) -> Option<JsonTree> {
    match t {
        JsonTree::Object(m) => if m.contains_key(name) {
            Some(m[name])
        } else {
            None
        },
        JsonTree::List(s) => if s.len() == parts {
            Some(s[place])
        } else {
            None
        },
        _ => None,
    }
}

/// The name of an edge type.
pub open spec fn edge_type_name(ty: EdgeType) -> Seq<char> {
    match ty {
        EdgeType::Calls => "Calls"@,
        EdgeType::Imports => "Imports"@,
        EdgeType::Extends => "Extends"@,
        EdgeType::Uses => "Uses"@,
        EdgeType::Configures => "Configures"@,
        EdgeType::CoLocated => "CoLocated"@,
        EdgeType::TestOf => "TestOf"@,
        EdgeType::RenamedFrom => "RenamedFrom"@,
    }
}

/// The edge type of a name.
pub open spec fn edge_type_named(s: Seq<char>) -> Option<EdgeType> {
    if s == "Calls"@ {
        Some(EdgeType::Calls)
    } else if s == "Imports"@ {
        Some(EdgeType::Imports)
    } else if s == "Extends"@ {
        Some(EdgeType::Extends)
    } else if s == "Uses"@ {
        Some(EdgeType::Uses)
    } else if s == "Configures"@ {
        Some(EdgeType::Configures)
    } else if s == "CoLocated"@ {
        Some(EdgeType::CoLocated)
    } else if s == "TestOf"@ {
        Some(EdgeType::TestOf)
    } else if s == "RenamedFrom"@ {
        Some(EdgeType::RenamedFrom)
    } else {
        None
    }
}

/// The name of a resolver.
pub open spec fn resolver_name(s: SourceType) -> Seq<char> {
    match s {
        SourceType::Ast => "Ast"@,
        SourceType::Lsp => "Lsp"@,
        SourceType::Heuristic => "Heuristic"@,
    }
}

/// The resolver of a name.
pub open spec fn resolver_named(s: Seq<char>) -> Option<SourceType> {
    if s == "Ast"@ {
        Some(SourceType::Ast)
    } else if s == "Lsp"@ {
        Some(SourceType::Lsp)
    } else if s == "Heuristic"@ {
        Some(SourceType::Heuristic)
    } else {
        None
    }
}

/// The fields of a span.
pub open spec fn span_fields(s: SourceSpan) -> Seq<(Seq<char>, JsonTree)> {
    seq![
        ("start_line"@, JsonTree::Number(s.start_line as u64)),
        ("start_col"@, JsonTree::Number(s.start_col as u64)),
        ("end_line"@, JsonTree::Number(s.end_line as u64)),
        ("end_col"@, JsonTree::Number(s.end_col as u64)),
    ]
}

/// The fields of a resolution.
pub open spec fn resolution_fields(r: EdgeResolution) -> Seq<(Seq<char>, JsonTree)> {
    seq![
        ("target_signature_hash"@, bytes_tree(r.target_signature_hash@)),
        ("resolver"@, JsonTree::Text(resolver_name(r.resolver))),
        ("last_validation_ms"@, JsonTree::Number(r.last_validation_ms)),
    ]
}

/// The fields of an edge.
pub open spec fn edge_fields(e: GraphEdge) -> Seq<(Seq<char>, JsonTree)> {
    seq![
        ("edge_id"@, bytes_tree(e.edge_id@)),
        ("ty"@, JsonTree::Text(edge_type_name(e.ty))),
        ("source_revision_id"@, bytes_tree(e.source_revision_id.0@)),
        ("target_identity_id"@, bytes_tree(e.target_identity_id.0@)),
        ("resolution"@, JsonTree::Object(json::members(resolution_fields(e.resolution)))),
        ("anchor"@, JsonTree::Object(json::members(span_fields(e.anchor)))),
    ]
}

/// An edge as a JSON value.
pub open spec fn edge_tree(e: GraphEdge) -> JsonTree {
    JsonTree::Object(json::members(edge_fields(e)))
}

/// Edges as a JSON value.
pub open spec fn edges_tree(s: Seq<GraphEdge>) -> JsonTree {
    JsonTree::List(s.map_values(|e: GraphEdge| edge_tree(e)))
}

/// A part that has to be there, read as it should be.
pub open spec fn then_read<A>(t: Option<JsonTree>, read: spec_fn(JsonTree) -> Option<A>) -> Option<
    A,
> {
    match t {
        Some(x) => read(x),
        None => None,
    }
}

/// The span that a JSON value stands for.
pub open spec fn tree_span(t: JsonTree) -> Option<SourceSpan> {
    let num = |x: JsonTree| tree_u32(x);
    match (
        then_read(part_of(t, "start_line"@, 0, 4), num),
        then_read(part_of(t, "start_col"@, 1, 4), num),
        then_read(part_of(t, "end_line"@, 2, 4), num),
        then_read(part_of(t, "end_col"@, 3, 4), num),
    ) {
        (Some(start_line), Some(start_col), Some(end_line), Some(end_col)) => Some(
            SourceSpan { start_line, start_col, end_line, end_col },
        ),
        _ => None,
    }
}

/// The resolver that a JSON value names.
pub open spec fn tree_resolver(t: JsonTree) -> Option<SourceType> {
    match t {
        JsonTree::Text(s) => resolver_named(s),
        _ => None,
    }
}

/// The edge type that a JSON value names.
pub open spec fn tree_edge_type(t: JsonTree) -> Option<EdgeType> {
    match t {
        JsonTree::Text(s) => edge_type_named(s),
        _ => None,
    }
}

/// The number of a tree.
pub open spec fn tree_u64(t: JsonTree) -> Option<u64> {
    match t {
        JsonTree::Number(n) => Some(n),
        _ => None,
    }
}

/// The resolution that a JSON value stands for.
pub open spec fn tree_resolution(t: JsonTree) -> Option<EdgeResolution> {
    match (
        then_read(part_of(t, "target_signature_hash"@, 0, 3), |x: JsonTree| tree_array32(x)),
        then_read(part_of(t, "resolver"@, 1, 3), |x: JsonTree| tree_resolver(x)),
        then_read(part_of(t, "last_validation_ms"@, 2, 3), |x: JsonTree| tree_u64(x)),
    ) {
        (Some(target_signature_hash), Some(resolver), Some(last_validation_ms)) => Some(
            EdgeResolution { target_signature_hash, resolver, last_validation_ms },
        ),
        _ => None,
    }
}

/// The edge that a JSON value stands for.
pub open spec fn tree_edge(t: JsonTree) -> Option<GraphEdge> {
    match (
        then_read(part_of(t, "edge_id"@, 0, 6), |x: JsonTree| tree_array16(x)),
        then_read(part_of(t, "ty"@, 1, 6), |x: JsonTree| tree_edge_type(x)),
        then_read(part_of(t, "source_revision_id"@, 2, 6), |x: JsonTree| tree_array16(x)),
        then_read(part_of(t, "target_identity_id"@, 3, 6), |x: JsonTree| tree_array16(x)),
        then_read(part_of(t, "resolution"@, 4, 6), |x: JsonTree| tree_resolution(x)),
        then_read(part_of(t, "anchor"@, 5, 6), |x: JsonTree| tree_span(x)),
    ) {
        (Some(edge_id), Some(ty), Some(source), Some(target), Some(resolution), Some(anchor)) => Some(
            GraphEdge {
                edge_id,
                ty,
                source_revision_id: NodeRevisionId(source),
                target_identity_id: IdentityId(target),
                resolution,
                anchor,
            },
        ),
        _ => None,
    }
}

/// The edges that a JSON value stands for, if every item of it is one.
pub open spec fn tree_edges(t: JsonTree) -> Option<Seq<GraphEdge>> {
    match t {
        JsonTree::List(s) => if forall|i: int|
            0 <= i < s.len() ==> tree_edge(#[trigger] s[i]) is Some {
            Some(s.map_values(|x: JsonTree| tree_edge(x)->0))
        } else {
            None
        },
        _ => None,
    }
}

/// Bytes are settled by their list of numbers.
proof fn lemma_bytes_tree(a: Seq<u8>, b: Seq<u8>)
    requires
        bytes_tree(a) == bytes_tree(b),
    ensures
        a == b,
{
    let x = a.map_values(|x: u8| JsonTree::Number(x as u64));
    let y = b.map_values(|x: u8| JsonTree::Number(x as u64));
    assert(x.len() == y.len());
    assert forall|i: int| 0 <= i < a.len() implies a[i] == b[i] by {
        assert(x[i] == y[i]);
    }
    assert(a =~= b);
}

/// Sixteen bytes are read as they were written.
pub proof fn lemma_array16_read(a: [u8; 16])
    ensures
        tree_array16(bytes_tree(a@)) == Some(a),
{
    let t = bytes_tree(a@);
    assert(exists|c: [u8; 16]| #[trigger] bytes_tree(c@) == t);
    let c = choose|c: [u8; 16]| #[trigger] bytes_tree(c@) == t;
    lemma_bytes_tree(c@, a@);
    assert(c =~= a);
}

/// Thirty-two bytes are read as they were written.
proof fn lemma_array32_read(a: [u8; 32])
    ensures
        tree_array32(bytes_tree(a@)) == Some(a),
{
    let t = bytes_tree(a@);
    assert(exists|c: [u8; 32]| #[trigger] bytes_tree(c@) == t);
    let c = choose|c: [u8; 32]| #[trigger] bytes_tree(c@) == t;
    lemma_bytes_tree(c@, a@);
    assert(c =~= a);
}

/// Names of edge types and of resolvers are read as they were written.
proof fn lemma_names_read(ty: EdgeType, s: SourceType)
    ensures
        edge_type_named(edge_type_name(ty)) == Some(ty),
        resolver_named(resolver_name(s)) == Some(s),
{
    reveal_strlit("Calls");
    reveal_strlit("Imports");
    reveal_strlit("Extends");
    reveal_strlit("Uses");
    reveal_strlit("Configures");
    reveal_strlit("CoLocated");
    reveal_strlit("TestOf");
    reveal_strlit("RenamedFrom");
    reveal_strlit("Ast");
    reveal_strlit("Lsp");
    reveal_strlit("Heuristic");
    assert("Imports"@[0] == 'I' && "Extends"@[0] == 'E');
    assert("Calls"@.len() == 5);
    assert("Imports"@.len() == 7);
    assert("Extends"@.len() == 7);
    assert("Uses"@.len() == 4);
    assert("Configures"@.len() == 10);
    assert("CoLocated"@.len() == 9);
    assert("TestOf"@.len() == 6);
    assert("RenamedFrom"@.len() == 11);
    assert("Heuristic"@.len() == 9);
    assert("Ast"@[0] == 'A' && "Lsp"@[0] == 'L');
}

/// A span is read as it was written.
proof fn lemma_span_read(s: SourceSpan)
    ensures
        tree_span(JsonTree::Object(json::members(span_fields(s)))) == Some(s),
{
    let f = span_fields(s);
    reveal_strlit("start_line");
    reveal_strlit("start_col");
    reveal_strlit("end_line");
    reveal_strlit("end_col");
    assert(f[0].0.len() == 10);
    assert(f[1].0.len() == 9);
    assert(f[2].0.len() == 8);
    assert(f[3].0.len() == 7);
    assert forall|i: int, j: int| 0 <= i < j < f.len() implies (#[trigger] f[i]).0 != (
    #[trigger] f[j]).0 by {
        assert(i == 0 || i == 1 || i == 2);
    }
    json::lemma_member_found(f, 0);
    json::lemma_member_found(f, 1);
    json::lemma_member_found(f, 2);
    json::lemma_member_found(f, 3);
}

/// A resolution is read as it was written.
proof fn lemma_resolution_read(r: EdgeResolution)
    ensures
        tree_resolution(JsonTree::Object(json::members(resolution_fields(r)))) == Some(r),
{
    let f = resolution_fields(r);
    reveal_strlit("target_signature_hash");
    reveal_strlit("resolver");
    reveal_strlit("last_validation_ms");
    assert(f[0].0.len() == 21);
    assert(f[1].0.len() == 8);
    assert(f[2].0.len() == 18);
    assert forall|i: int, j: int| 0 <= i < j < f.len() implies (#[trigger] f[i]).0 != (
    #[trigger] f[j]).0 by {
        assert(i == 0 || i == 1);
    }
    json::lemma_member_found(f, 0);
    json::lemma_member_found(f, 1);
    json::lemma_member_found(f, 2);
    lemma_array32_read(r.target_signature_hash);
    lemma_names_read(EdgeType::Calls, r.resolver);
}

/// An edge is read as it was written.
pub proof fn law_edge_reads_back(e: GraphEdge)
    ensures
        tree_edge(edge_tree(e)) == Some(e),
{
    let f = edge_fields(e);
    reveal_strlit("edge_id");
    reveal_strlit("ty");
    reveal_strlit("source_revision_id");
    reveal_strlit("target_identity_id");
    reveal_strlit("resolution");
    reveal_strlit("anchor");
    assert("source_revision_id"@[0] == 's' && "target_identity_id"@[0] == 't');
    assert(f[0].0.len() == 7);
    assert(f[1].0.len() == 2);
    assert(f[2].0.len() == 18);
    assert(f[3].0.len() == 18);
    assert(f[4].0.len() == 10);
    assert(f[5].0.len() == 6);
    assert forall|i: int, j: int| 0 <= i < j < f.len() implies (#[trigger] f[i]).0 != (
    #[trigger] f[j]).0 by {
        assert(i == 0 || i == 1 || i == 2 || i == 3 || i == 4);
    }
    json::lemma_member_found(f, 0);
    json::lemma_member_found(f, 1);
    json::lemma_member_found(f, 2);
    json::lemma_member_found(f, 3);
    json::lemma_member_found(f, 4);
    json::lemma_member_found(f, 5);
    lemma_array16_read(e.edge_id);
    lemma_array16_read(e.source_revision_id.0);
    lemma_array16_read(e.target_identity_id.0);
    lemma_names_read(e.ty, SourceType::Ast);
    lemma_resolution_read(e.resolution);
    lemma_span_read(e.anchor);
}

/// Edges are read as they were written.
pub proof fn lemma_edges_read(s: Seq<GraphEdge>)
    ensures
        tree_edges(edges_tree(s)) == Some(s),
{
    let t = s.map_values(|e: GraphEdge| edge_tree(e));
    assert forall|i: int| 0 <= i < t.len() implies tree_edge(#[trigger] t[i]) == Some(s[i]) by {
        law_edge_reads_back(s[i]);
    }
    assert(t.map_values(|x: JsonTree| tree_edge(x)->0) =~= s);
}

/// The JSON value of edges is plain.
pub proof fn lemma_edges_plain(s: Seq<GraphEdge>)
    ensures
        json::plain(edges_tree(s), 6),
{
    let t = s.map_values(|e: GraphEdge| edge_tree(e));
    assert forall|i: int| 0 <= i < t.len() implies json::plain(#[trigger] t[i], 5) by {
        lemma_edge_plain(s[i]);
    }
}

/// The JSON value of bytes is plain.
pub proof fn lemma_bytes_plain(b: Seq<u8>, depth: nat)
    requires
        depth >= 2,
    ensures
        json::plain(bytes_tree(b), depth),
{
    reveal_with_fuel(json::plain, 2);
}

/// The JSON value of an edge is plain.
proof fn lemma_edge_plain(e: GraphEdge)
    ensures
        json::plain(edge_tree(e), 5),
{
    lemma_bytes_plain(e.resolution.target_signature_hash@, 2);
    lemma_bytes_plain(e.edge_id@, 4);
    lemma_bytes_plain(e.source_revision_id.0@, 4);
    lemma_bytes_plain(e.target_identity_id.0@, 4);
    json::lemma_plain_object(resolution_fields(e.resolution), 2);
    json::lemma_plain_object(span_fields(e.anchor), 2);
    let r = JsonTree::Object(json::members(resolution_fields(e.resolution)));
    let a = JsonTree::Object(json::members(span_fields(e.anchor)));
    json::lemma_plain_deeper(r, 3, 4);
    json::lemma_plain_deeper(a, 3, 4);
    json::lemma_plain_object(edge_fields(e), 4);
}

/// Writes bytes as a list of numbers.
pub(crate) fn bytes_value(b: &[u8]) -> (r: serde_json::Value)
    ensures
        json::value_tree(r) == bytes_tree(b@),
{
    let mut items: Vec<serde_json::Value> = Vec::new();
    let mut i: usize = 0;
    while i < b.len()
        invariant
            i <= b.len(),
            json::value_trees(items@) == b@.take(i as int).map_values(
                |x: u8| JsonTree::Number(x as u64),
            ),
        decreases b.len() - i,
    {
        let ghost before = json::value_trees(items@);
        items.push(number_value(b[i] as u64));
        assert(json::value_trees(items@) =~= before.push(JsonTree::Number(b@[i as int] as u64)));
        assert(b@.take(i + 1) =~= b@.take(i as int).push(b@[i as int]));
        assert(json::value_trees(items@) =~= b@.take(i + 1).map_values(
            |x: u8| JsonTree::Number(x as u64),
        ));
        i = i + 1;
    }
    assert(b@.take(b@.len() as int) =~= b@);
    list_value(items)
}

/// Writes a span.
fn span_value(s: &SourceSpan) -> (r: serde_json::Value)
    ensures
        json::value_tree(r) == JsonTree::Object(json::members(span_fields(*s))),
{
    let fields = vec![
        field("start_line", number_value(s.start_line as u64)),
        field("start_col", number_value(s.start_col as u64)),
        field("end_line", number_value(s.end_line as u64)),
        field("end_col", number_value(s.end_col as u64)),
    ];
    assert(json::field_trees(fields@) =~= span_fields(*s));
    object_value(fields)
}

/// Writes a resolution.
fn resolution_value(r: &EdgeResolution) -> (v: serde_json::Value)
    ensures
        json::value_tree(v) == JsonTree::Object(json::members(resolution_fields(*r))),
{
    let resolver = match r.resolver {
        SourceType::Ast => "Ast",
        SourceType::Lsp => "Lsp",
        SourceType::Heuristic => "Heuristic",
    };
    let fields = vec![
        field("target_signature_hash", bytes_value(&r.target_signature_hash)),
        field("resolver", text_value(resolver)),
        field("last_validation_ms", number_value(r.last_validation_ms)),
    ];
    assert(json::field_trees(fields@) =~= resolution_fields(*r));
    object_value(fields)
}

/// Writes an edge.
fn edge_value(e: &GraphEdge) -> (r: serde_json::Value)
    ensures
        json::value_tree(r) == edge_tree(*e),
{
    let ty = match e.ty {
        EdgeType::Calls => "Calls",
        EdgeType::Imports => "Imports",
        EdgeType::Extends => "Extends",
        EdgeType::Uses => "Uses",
        EdgeType::Configures => "Configures",
        EdgeType::CoLocated => "CoLocated",
        EdgeType::TestOf => "TestOf",
        EdgeType::RenamedFrom => "RenamedFrom",
    };
    let fields = vec![
        field("edge_id", bytes_value(&e.edge_id)),
        field("ty", text_value(ty)),
        field("source_revision_id", bytes_value(&e.source_revision_id.0)),
        field("target_identity_id", bytes_value(&e.target_identity_id.0)),
        field("resolution", resolution_value(&e.resolution)),
        field("anchor", span_value(&e.anchor)),
    ];
    assert(json::field_trees(fields@) =~= edge_fields(*e));
    object_value(fields)
}

/// Writes edges.
pub(crate) fn edges_value(v: &Vec<GraphEdge>) -> (r: serde_json::Value)
    ensures
        json::value_tree(r) == edges_tree(v@),
{
    let mut items: Vec<serde_json::Value> = Vec::new();
    let mut i: usize = 0;
    while i < v.len()
        invariant
            i <= v.len(),
            items.len() == i,
            forall|j: int| 0 <= j < i ==> json::value_tree(#[trigger] items@[j]) == edge_tree(v@[j]),
        decreases v.len() - i,
    {
        items.push(edge_value(&v[i]));
        i = i + 1;
    }
    assert(json::value_trees(items@) =~= v@.map_values(|e: GraphEdge| edge_tree(e)));
    list_value(items)
}

/// Finds one of the parts of a value.
pub(crate) fn value_part<'a>(v: &'a serde_json::Value, name: &str, place: usize, parts: usize) -> (r:
    Option<&'a serde_json::Value>)
    requires
        place < parts,
    ensures
        match r {
            Some(x) => part_of(json::value_tree(*v), name@, place as int, parts as nat) == Some(
                json::value_tree(*x),
            ),
            None => part_of(json::value_tree(*v), name@, place as int, parts as nat) is None,
        },
{
    match value_items(v) {
        Some(items) => {
            if items.len() == parts {
                assert(json::value_trees(items@)[place as int] == json::value_tree(
                    items@[place as int],
                ));
                Some(&items[place])
            } else {
                None
            }
        },
        None => value_member(v, name),
    }
}

/// Reads a number of thirty-two bits.
pub(crate) fn read_u32(v: &serde_json::Value) -> (r: Option<u32>)
    ensures
        r == tree_u32(json::value_tree(*v)),
{
    match value_number(v) {
        Some(n) => if n <= u32::MAX as u64 {
            Some(n as u32)
        } else {
            None
        },
        None => None,
    }
}

/// Reads as many bytes as wanted.
fn read_bytes(v: &serde_json::Value, n: usize) -> (r: Option<Vec<u8>>)
    ensures
        match r {
            Some(b) => b@.len() == n && bytes_tree(b@) == json::value_tree(*v),
            None => forall|b: Seq<u8>|
                b.len() == n ==> #[trigger] bytes_tree(b) != json::value_tree(*v),
        },
{
    let items = match value_items(v) {
        Some(items) => items,
        None => {
            return None;
        },
    };
    let ghost s = json::value_trees(items@);
    if items.len() != n {
        proof {
            assert forall|b: Seq<u8>| b.len() == n implies #[trigger] bytes_tree(b)
                != json::value_tree(*v) by {
                assert(b.map_values(|x: u8| JsonTree::Number(x as u64)).len() == n);
            }
        }
        return None;
    }
    let mut out: Vec<u8> = Vec::new();
    let mut i: usize = 0;
    while i < n
        invariant
            i <= n,
            items.len() == n,
            s == json::value_trees(items@),
            json::value_tree(*v) == JsonTree::List(s),
            out.len() == i,
            forall|j: int| 0 <= j < i ==> s[j] == JsonTree::Number(#[trigger] out@[j] as u64),
        decreases n - i,
    {
        assert(s[i as int] == json::value_tree(items@[i as int]));
        let small = match value_number(&items[i]) {
            Some(k) => k <= 255,
            None => false,
        };
        if !small {
            proof {
                assert forall|b: Seq<u8>| b.len() == n implies #[trigger] bytes_tree(b)
                    != json::value_tree(*v) by {
                    assert(b.map_values(|x: u8| JsonTree::Number(x as u64))[i as int]
                        == JsonTree::Number(b[i as int] as u64));
                }
            }
            return None;
        }
        if let Some(k) = value_number(&items[i]) {
            out.push(k as u8);
        }
        i = i + 1;
    }
    assert(s =~= out@.map_values(|x: u8| JsonTree::Number(x as u64)));
    Some(out)
}

/// Reads sixteen bytes.
pub(crate) fn read_array16(v: &serde_json::Value) -> (r: Option<[u8; 16]>)
    ensures
        r == tree_array16(json::value_tree(*v)),
{
    match read_bytes(v, 16) {
        Some(b) => {
            let a = array16(&b);
            proof {
                lemma_array16_read(a);
            }
            Some(a)
        },
        None => {
            assert forall|a: [u8; 16]| #[trigger] bytes_tree(a@) != json::value_tree(*v) by {
                assert(a@.len() == 16);
            }
            None
        },
    }
}

/// Reads thirty-two bytes.
fn read_array32(v: &serde_json::Value) -> (r: Option<[u8; 32]>)
    ensures
        r == tree_array32(json::value_tree(*v)),
{
    match read_bytes(v, 32) {
        Some(b) => {
            let a = array32(&b);
            proof {
                lemma_array32_read(a);
            }
            Some(a)
        },
        None => {
            assert forall|a: [u8; 32]| #[trigger] bytes_tree(a@) != json::value_tree(*v) by {
                assert(a@.len() == 32);
            }
            None
        },
    }
}

/// Reads a number of thirty-two bits that is one of the parts of a value.
fn part_u32(v: &serde_json::Value, name: &str, place: usize, parts: usize) -> (r: Option<u32>)
    requires
        place < parts,
    ensures
        r == then_read(
            part_of(json::value_tree(*v), name@, place as int, parts as nat),
            |x: JsonTree| tree_u32(x),
        ),
{
    match value_part(v, name, place, parts) {
        Some(x) => read_u32(x),
        None => None,
    }
}

/// Reads a span.
fn read_span(v: &serde_json::Value) -> (r: Option<SourceSpan>)
    ensures
        r == tree_span(json::value_tree(*v)),
{
    match (
        part_u32(v, "start_line", 0, 4),
        part_u32(v, "start_col", 1, 4),
        part_u32(v, "end_line", 2, 4),
        part_u32(v, "end_col", 3, 4),
    ) {
        (Some(start_line), Some(start_col), Some(end_line), Some(end_col)) => Some(
            SourceSpan { start_line, start_col, end_line, end_col },
        ),
        _ => None,
    }
}

/// Reads the name of a resolver.
fn read_resolver(v: &serde_json::Value) -> (r: Option<SourceType>)
    ensures
        r == tree_resolver(json::value_tree(*v)),
{
    match value_text(v) {
        Some(s) => if same_text(s, "Ast") {
            Some(SourceType::Ast)
        } else if same_text(s, "Lsp") {
            Some(SourceType::Lsp)
        } else if same_text(s, "Heuristic") {
            Some(SourceType::Heuristic)
        } else {
            None
        },
        None => None,
    }
}

/// Reads the name of an edge type.
fn read_edge_type(v: &serde_json::Value) -> (r: Option<EdgeType>)
    ensures
        r == tree_edge_type(json::value_tree(*v)),
{
    let s = match value_text(v) {
        Some(s) => s,
        None => {
            return None;
        },
    };
    if same_text(s, "Calls") {
        Some(EdgeType::Calls)
    } else if same_text(s, "Imports") {
        Some(EdgeType::Imports)
    } else if same_text(s, "Extends") {
        Some(EdgeType::Extends)
    } else if same_text(s, "Uses") {
        Some(EdgeType::Uses)
    } else if same_text(s, "Configures") {
        Some(EdgeType::Configures)
    } else if same_text(s, "CoLocated") {
        Some(EdgeType::CoLocated)
    } else if same_text(s, "TestOf") {
        Some(EdgeType::TestOf)
    } else if same_text(s, "RenamedFrom") {
        Some(EdgeType::RenamedFrom)
    } else {
        None
    }
}

/// Reads a resolution.
fn read_resolution(v: &serde_json::Value) -> (r: Option<EdgeResolution>)
    ensures
        r == tree_resolution(json::value_tree(*v)),
{
    let hash = match value_part(v, "target_signature_hash", 0, 3) {
        Some(x) => read_array32(x),
        None => None,
    };
    let resolver = match value_part(v, "resolver", 1, 3) {
        Some(x) => read_resolver(x),
        None => None,
    };
    let at = match value_part(v, "last_validation_ms", 2, 3) {
        Some(x) => value_number(x),
        None => None,
    };
    match (hash, resolver, at) {
        (Some(target_signature_hash), Some(resolver), Some(last_validation_ms)) => Some(
            EdgeResolution { target_signature_hash, resolver, last_validation_ms },
        ),
        _ => None,
    }
}

/// Reads sixteen bytes that are one of the parts of an edge.
fn edge_part16(v: &serde_json::Value, name: &str, place: usize) -> (r: Option<[u8; 16]>)
    requires
        place < 6,
    ensures
        r == then_read(
            part_of(json::value_tree(*v), name@, place as int, 6),
            |x: JsonTree| tree_array16(x),
        ),
{
    match value_part(v, name, place, 6) {
        Some(x) => read_array16(x),
        None => None,
    }
}

/// Reads an edge.
fn read_edge(v: &serde_json::Value) -> (r: Option<GraphEdge>)
    ensures
        r == tree_edge(json::value_tree(*v)),
{
    let ty = match value_part(v, "ty", 1, 6) {
        Some(x) => read_edge_type(x),
        None => None,
    };
    let resolution = match value_part(v, "resolution", 4, 6) {
        Some(x) => read_resolution(x),
        None => None,
    };
    let anchor = match value_part(v, "anchor", 5, 6) {
        Some(x) => read_span(x),
        None => None,
    };
    match (
        edge_part16(v, "edge_id", 0),
        ty,
        edge_part16(v, "source_revision_id", 2),
        edge_part16(v, "target_identity_id", 3),
        resolution,
        anchor,
    ) {
        (Some(edge_id), Some(ty), Some(source), Some(target), Some(resolution), Some(anchor)) => Some(
            GraphEdge {
                edge_id,
                ty,
                source_revision_id: NodeRevisionId(source),
                target_identity_id: IdentityId(target),
                resolution,
                anchor,
            },
        ),
        _ => None,
    }
}

/// Reads edges.
pub(crate) fn read_edges(v: &serde_json::Value) -> (r: Option<Vec<GraphEdge>>)
    ensures
        match r {
            Some(e) => tree_edges(json::value_tree(*v)) == Some(e@),
            None => tree_edges(json::value_tree(*v)) is None,
        },
{
    let items = match value_items(v) {
        Some(items) => items,
        None => {
            return None;
        },
    };
    let ghost s = json::value_trees(items@);
    let mut out: Vec<GraphEdge> = Vec::new();
    let mut i: usize = 0;
    while i < items.len()
        invariant
            i <= items.len(),
            s == json::value_trees(items@),
            json::value_tree(*v) == JsonTree::List(s),
            out.len() == i,
            forall|j: int| 0 <= j < i ==> tree_edge(#[trigger] s[j]) == Some(out@[j]),
        decreases items.len() - i,
    {
        assert(s[i as int] == json::value_tree(items@[i as int]));
        match read_edge(&items[i]) {
            Some(e) => {
                out.push(e);
            },
            None => {
                assert(tree_edge(s[i as int]) is None);
                return None;
            },
        }
        i = i + 1;
    }
    assert(s.map_values(|x: JsonTree| tree_edge(x)->0) =~= out@);
    Some(out)
}

} // verus!
