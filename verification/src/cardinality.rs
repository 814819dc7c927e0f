//! Bounds on how many edges of a type a revision may have.

use crate::graph::{EdgeType, GraphEdge};
use crate::hex;
use crate::hex::decimal_text;
use crate::text::{append_text, owned};
use vstd::prelude::*;

verus! {

/// At least `min` and at most `max` edges of a type.
#[derive(Debug, Clone, Copy)]
pub struct EdgeLimit {
    pub ty: EdgeType,
    pub min: usize,
    pub max: usize,
}

/// A bound that edges do not keep.
#[derive(Debug, Clone, Copy)]
pub struct CardinalityViolation {
    pub ty: EdgeType,
    pub count: usize,
    pub min: usize,
    pub max: usize,
}

/// How many edges are of a type.
pub open spec fn edges_of_type(edges: Seq<GraphEdge>, ty: EdgeType) -> nat
    decreases edges.len(),
{
    if edges.len() == 0 {
        0
    } else {
        edges_of_type(edges.drop_last(), ty) + (if edges.last().ty == ty {
            1nat
        } else {
            0nat
        })
    }
}

/// The edges keep a bound.
pub open spec fn keeps(edges: Seq<GraphEdge>, l: EdgeLimit) -> bool {
    l.min <= edges_of_type(edges, l.ty) <= l.max
}

/// Counts the edges of a type.
fn count_type(edges: &Vec<GraphEdge>, ty: EdgeType) -> (n: usize)
    ensures
        n == edges_of_type(edges@, ty),
{
    let mut n: usize = 0;
    let mut i: usize = 0;
    assert(edges@.take(0) =~= Seq::<GraphEdge>::empty());
    while i < edges.len()
        invariant
            i <= edges.len(),
            n <= i,
            n == edges_of_type(edges@.take(i as int), ty),
        decreases edges.len() - i,
    {
        proof {
            assert(edges@.take(i + 1).drop_last() =~= edges@.take(i as int));
        }
        if edges[i].ty == ty {
            n = n + 1;
        }
        i = i + 1;
    }
    assert(edges@.take(edges@.len() as int) =~= edges@);
    n
}

/// The first bound that edges do not keep.
pub open spec fn first_violation(edges: Seq<GraphEdge>, limits: Seq<EdgeLimit>) -> Option<
    CardinalityViolation,
>
    decreases limits.len(),
{
    if limits.len() == 0 {
        None
    } else if !keeps(edges, limits[0]) {
        Some(
            CardinalityViolation {
                ty: limits[0].ty,
                count: edges_of_type(edges, limits[0].ty) as usize,
                min: limits[0].min,
                max: limits[0].max,
            },
        )
    } else {
        first_violation(edges, limits.skip(1))
    }
}

/// Holds edges to bounds.
pub fn validate_edge_cardinality(edges: &Vec<GraphEdge>, limits: &Vec<EdgeLimit>) -> (r: Result<
    (),
    CardinalityViolation,
>)
    ensures
        r == (match first_violation(edges@, limits@) {
            Some(v) => Err::<(), CardinalityViolation>(v),
            None => Ok(()),
        }),
        r is Ok <==> forall|i: int| 0 <= i < limits@.len() ==> keeps(edges@, #[trigger] limits@[i]),
{
    let mut i: usize = 0;
    assert(limits@.skip(0) =~= limits@);
    while i < limits.len()
        invariant
            i <= limits.len(),
            first_violation(edges@, limits@.skip(i as int)) == first_violation(edges@, limits@),
            forall|j: int| 0 <= j < i ==> keeps(edges@, #[trigger] limits@[j]),
        decreases limits.len() - i,
    {
        let l = limits[i];
        let n = count_type(edges, l.ty);
        assert(limits@.skip(i as int)[0] == l);
        assert(limits@.skip(i as int).skip(1) =~= limits@.skip(i + 1));
        if n < l.min || l.max < n {
            assert(!keeps(edges@, limits@[i as int]));
            return Err(CardinalityViolation { ty: l.ty, count: n, min: l.min, max: l.max });
        }
        i = i + 1;
    }
    Ok(())
}

/// The name of an edge type.
pub open spec fn name_of_type(ty: EdgeType) -> Seq<char> {
    match ty {
        EdgeType::Calls => "Calls"@,
        EdgeType::Imports => "Imports"@,
        EdgeType::Extends => "Extends"@,
        EdgeType::Uses => "Uses"@,
        EdgeType::Configures => "Configures"@,
        EdgeType::CoLocated => "CoLocated"@,
        EdgeType::TestOf => "TestOf"@,
        EdgeType::RenamedFrom => "RenamedFrom"@,
    }
}

/// Names an edge type.
pub fn edge_type_text(ty: EdgeType) -> (r: &'static str)
    ensures
        r@ == name_of_type(ty),
{
    match ty {
        EdgeType::Calls => "Calls",
        EdgeType::Imports => "Imports",
        EdgeType::Extends => "Extends",
        EdgeType::Uses => "Uses",
        EdgeType::Configures => "Configures",
        EdgeType::CoLocated => "CoLocated",
        EdgeType::TestOf => "TestOf",
        EdgeType::RenamedFrom => "RenamedFrom",
    }
}

/// How a broken bound is reported for a revision of a given name.
pub open spec fn violation_text(name: Seq<char>, v: CardinalityViolation) -> Seq<char> {
    name + ": "@ + name_of_type(v.ty) + " count="@ + hex::decimal(v.count as nat) + " (min="@ + hex::decimal(
        v.min as nat,
    ) + ", max="@ + hex::decimal(v.max as nat) + ")"@
}

/// Reports a broken bound.
pub fn describe_violation(name: &str, v: &CardinalityViolation) -> (r: String)
    ensures
        r@ == violation_text(name@, *v),
{
    let mut out = owned(name);
    append_text(&mut out, ": ");
    append_text(&mut out, edge_type_text(v.ty));
    append_text(&mut out, " count=");
    append_text(&mut out, decimal_text(v.count as u64).as_str());
    append_text(&mut out, " (min=");
    append_text(&mut out, decimal_text(v.min as u64).as_str());
    append_text(&mut out, ", max=");
    append_text(&mut out, decimal_text(v.max as u64).as_str());
    append_text(&mut out, ")");
    out
}

} // verus!
