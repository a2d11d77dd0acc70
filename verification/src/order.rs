//! The priority order of frontier entries and vertices: the smaller the
//! distance, the greater the entry.

use std::cmp::Ordering;
use vstd::prelude::*;
use vstd::std_specs::cmp::PartialOrdSpecImpl;
use vstd::std_specs::cmp::PartialOrdSpec;

use crate::graph;
use crate::vertex::Vertex;

verus! {

/// Larger distances order first: `Less` when `a` is farther than `b`.
pub open spec fn by_priority(a: i64, b: i64) -> Option<Ordering> {
    if b < a {
        Some(Ordering::Less)
    } else if b == a {
        Some(Ordering::Equal)
    } else {
        Some(Ordering::Greater)
    }
}

/// Orders by priority, and vertices of equal distance by id.
pub open spec fn vertex_order(a: Vertex, b: Vertex) -> Option<Ordering> {
    if b.best_distance < a.best_distance {
        Some(Ordering::Less)
    } else if b.best_distance > a.best_distance {
        Some(Ordering::Greater)
    } else if a.id < b.id {
        Some(Ordering::Less)
    } else if a.id == b.id {
        Some(Ordering::Equal)
    } else {
        Some(Ordering::Greater)
    }
}

fn priority(a: i64, b: i64) -> (r: Option<Ordering>)
    ensures
        r == by_priority(a, b),
        r == Some(Ordering::Greater) <==> a < b,
        r == Some(Ordering::Equal) <==> a == b,
        r == Some(Ordering::Less) <==> a > b,
{
    if b < a {
        Some(Ordering::Less)
    } else if b == a {
        Some(Ordering::Equal)
    } else {
        Some(Ordering::Greater)
    }
}

impl PartialOrd for graph::SmallVertex {
    fn partial_cmp(&self, other: &graph::SmallVertex) -> (r: Option<Ordering>) {
        priority(self.best_distance, other.best_distance)
    }
}

impl PartialOrdSpecImpl for graph::SmallVertex {
    open spec fn obeys_partial_cmp_spec() -> bool {
        true
    }

    open spec fn partial_cmp_spec(&self, other: &graph::SmallVertex) -> Option<Ordering> {
        by_priority(self.best_distance, other.best_distance)
    }
}

impl PartialOrd for Vertex {
    fn partial_cmp(&self, other: &Vertex) -> (r: Option<Ordering>)
        ensures
            self.best_distance < other.best_distance ==> r == Some(Ordering::Greater),
            self.best_distance > other.best_distance ==> r == Some(Ordering::Less),
            self.best_distance == other.best_distance ==> (r == Some(Ordering::Less) <==> self.id < other.id),
            self.best_distance == other.best_distance ==> (r == Some(Ordering::Equal) <==> self.id == other.id),
            self.best_distance == other.best_distance ==> (r == Some(Ordering::Greater) <==> self.id > other.id),
    {
        if other.best_distance < self.best_distance {
            Some(Ordering::Less)
        } else if other.best_distance > self.best_distance {
            Some(Ordering::Greater)
        } else if self.id < other.id {
            Some(Ordering::Less)
        } else if self.id == other.id {
            Some(Ordering::Equal)
        } else {
            Some(Ordering::Greater)
        }
    }
}

impl PartialOrdSpecImpl for Vertex {
    open spec fn obeys_partial_cmp_spec() -> bool {
        true
    }

    open spec fn partial_cmp_spec(&self, other: &Vertex) -> Option<Ordering> {
        vertex_order(*self, *other)
    }
}

/// Frontier entries order by priority: the nearer entry is the greater,
/// negative distances included, and entries at the same distance order equal,
/// whatever their ids.
pub proof fn law_entry_priority(a: graph::SmallVertex, b: graph::SmallVertex)
    ensures
        PartialOrdSpec::partial_cmp_spec(&a, &b) == Some(Ordering::Greater) <==> a.best_distance < b.best_distance,
        PartialOrdSpec::partial_cmp_spec(&a, &b) == Some(Ordering::Equal) <==> a.best_distance == b.best_distance,
        PartialOrdSpec::partial_cmp_spec(&a, &b) == Some(Ordering::Less) <==> a.best_distance > b.best_distance,
        PartialOrdSpec::partial_cmp_spec(&a, &b) is Some,
{
}

/// Vertices order by priority: the nearer vertex is the greater whatever the
/// ids; only at equal distance does the smaller id order first.
pub proof fn law_vertex_priority(a: Vertex, b: Vertex)
    ensures
        a.best_distance < b.best_distance ==> PartialOrdSpec::partial_cmp_spec(&a, &b) == Some(Ordering::Greater),
        a.best_distance > b.best_distance ==> PartialOrdSpec::partial_cmp_spec(&a, &b) == Some(Ordering::Less),
        a.best_distance == b.best_distance ==> (PartialOrdSpec::partial_cmp_spec(&a, &b) == Some(Ordering::Less) <==> a.id < b.id),
        a.best_distance == b.best_distance ==> (PartialOrdSpec::partial_cmp_spec(&a, &b) == Some(Ordering::Equal) <==> a.id == b.id),
        a.best_distance == b.best_distance ==> (PartialOrdSpec::partial_cmp_spec(&a, &b) == Some(Ordering::Greater) <==> a.id > b.id),
{
}

/// Comparing two vertices the other way round gives the opposite answer.
pub proof fn law_vertex_order_flips(a: Vertex, b: Vertex)
    ensures
        PartialOrdSpec::partial_cmp_spec(&a, &b) == Some(Ordering::Less) <==> PartialOrdSpec::partial_cmp_spec(&b, &a) == Some(Ordering::Greater),
        PartialOrdSpec::partial_cmp_spec(&a, &b) == Some(Ordering::Equal) <==> PartialOrdSpec::partial_cmp_spec(&b, &a) == Some(Ordering::Equal),
{
}

} // verus!
