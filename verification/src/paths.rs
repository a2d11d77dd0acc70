//! Laws of the distances a search leaves behind.

use vstd::prelude::*;

use crate::graph::{
    UNREACHED,
    arcs_of,
    has_route_of,
    same_shape,
    lemma_pred_steps_succ,
    pred_steps,
    preds,
    search_ends_with,
    search_run,
    search_step,
    is_path,
    is_route,
    no_shorter_route,
    nonnegative_arcs,
    path_weight,
    prefix_weight,
    prefixes_below_max,
    routes_bounded_below,
    search_result,
};
use crate::search::{lemma_path_tail, lemma_prefix_step, lemma_prefix_whole, lemma_same_shape_arcs};
use crate::vertex::Arc;

verus! {

/// With no negative arc, no path weighs less than nothing.
proof fn lemma_weight_nonneg(g_arcs: Seq<Seq<Arc>>, vs: Seq<int>, ks: Seq<int>)
    requires
        is_path(g_arcs, vs, ks),
        forall|i: int, k: int|
            0 <= i < g_arcs.len() && 0 <= k < g_arcs[i].len() ==> (#[trigger] g_arcs[i][k]).distance >= 0,
    ensures
        path_weight(g_arcs, vs, ks) >= 0,
    decreases ks.len(),
{
    if ks.len() > 0 {
        lemma_path_tail(g_arcs, vs, ks);
        lemma_weight_nonneg(g_arcs, vs.drop_first(), ks.drop_first());
    }
}

/// With no negative arc, the first `j` steps of a path weigh no more than the
/// whole path.
proof fn lemma_prefix_below_whole(g_arcs: Seq<Seq<Arc>>, vs: Seq<int>, ks: Seq<int>, j: int)
    requires
        is_path(g_arcs, vs, ks),
        0 <= j <= ks.len(),
        forall|i: int, k: int|
            0 <= i < g_arcs.len() && 0 <= k < g_arcs[i].len() ==> (#[trigger] g_arcs[i][k]).distance >= 0,
    ensures
        prefix_weight(g_arcs, vs, ks, j) <= path_weight(g_arcs, vs, ks),
    decreases ks.len() - j,
{
    if j == ks.len() {
        lemma_prefix_whole(g_arcs, vs, ks);
    } else {
        lemma_prefix_below_whole(g_arcs, vs, ks, j + 1);
        lemma_prefix_step(g_arcs, vs, ks, j);
        assert(g_arcs[vs[j]][ks[j]].distance >= 0);
    }
}

proof fn lemma_arcs_nonneg(g: Seq<crate::vertex::Vertex>)
    requires
        nonnegative_arcs(g),
    ensures
        forall|i: int, k: int|
            0 <= i < arcs_of(g).len() && 0 <= k < arcs_of(g)[i].len() ==> (#[trigger] arcs_of(g)[i][k]).distance
                >= 0,
{
    assert forall|i: int, k: int|
        0 <= i < arcs_of(g).len() && 0 <= k < arcs_of(g)[i].len() implies (#[trigger] arcs_of(g)[i][k]).distance
        >= 0 by {
        assert(arcs_of(g)[i] == g[i].arcs@);
        assert(g[i].arcs@[k].distance >= 0);
    }
}

/// A graph without negative arcs meets what `shortest` asks of the paths from
/// any source: none weighs less than `i64::MIN`.
pub proof fn law_nonnegative_routes_bounded(g: Seq<crate::vertex::Vertex>, s: int)
    requires
        nonnegative_arcs(g),
    ensures
        routes_bounded_below(arcs_of(g), s),
{
    let adj = arcs_of(g);
    lemma_arcs_nonneg(g);
    assert forall|vs: Seq<int>, ks: Seq<int>| #[trigger] is_path(adj, vs, ks) && vs[0] == s implies path_weight(
        adj,
        vs,
        ks,
    ) >= i64::MIN by {
        lemma_weight_nonneg(adj, vs, ks);
    }
}

/// Without negative arcs, the distance a search leaves in a vertex is no longer
/// than any path from the source to it, whatever the path weighs.
pub proof fn law_nonnegative_search_is_shortest(
    g: Seq<crate::vertex::Vertex>,
    s: int,
    v: int,
    vs: Seq<int>,
    ks: Seq<int>,
)
    requires
        0 <= s < g.len(),
        0 <= v < g.len(),
        nonnegative_arcs(g),
        search_result(g, s),
        is_route(arcs_of(g), vs, ks, s, v),
    ensures
        g[v].best_distance <= path_weight(arcs_of(g), vs, ks),
{
    let adj = arcs_of(g);
    lemma_arcs_nonneg(g);
    let w = path_weight(adj, vs, ks);
    if w < UNREACHED {
        assert forall|j: int| 0 <= j < ks.len() implies #[trigger] prefix_weight(adj, vs, ks, j) < UNREACHED by {
            lemma_prefix_below_whole(adj, vs, ks, j);
        }
        assert(prefixes_below_max(adj, vs, ks));
        assert(no_shorter_route(adj, s, v, g[v].best_distance as int));
    }
}

/// The distances of a search depend on the arcs and the source alone: two
/// searches from the same source over the same vertices, whatever they held
/// before, leave the same distance in every vertex.
pub proof fn law_search_distances_unique(g1: Seq<crate::vertex::Vertex>, g2: Seq<crate::vertex::Vertex>, s: int)
    requires
        0 <= s < g1.len(),
        same_shape(g1, g2),
        search_result(g1, s),
        search_result(g2, s),
    ensures
        forall|v: int| 0 <= v < g1.len() ==> #[trigger] g1[v].best_distance == g2[v].best_distance,
{
    lemma_same_shape_arcs(g1, g2);
    let adj = arcs_of(g1);
    assert forall|v: int| 0 <= v < g1.len() implies #[trigger] g1[v].best_distance == g2[v].best_distance by {
        assert(no_shorter_route(adj, s, v, g1[v].best_distance as int));
        assert(no_shorter_route(adj, s, v, g2[v].best_distance as int));
        if g1[v].best_distance < UNREACHED {
            assert(has_route_of(adj, s, v, g1[v].best_distance as int));
            let (vs, ks) = choose|vs: Seq<int>, ks: Seq<int>|
                is_route(adj, vs, ks, s, v) && prefixes_below_max(adj, vs, ks) && path_weight(adj, vs, ks)
                    == g1[v].best_distance;
            assert(is_route(adj, vs, ks, s, v));
        }
        if g2[v].best_distance < UNREACHED {
            assert(has_route_of(adj, s, v, g2[v].best_distance as int));
            let (vs, ks) = choose|vs: Seq<int>, ks: Seq<int>|
                is_route(adj, vs, ks, s, v) && prefixes_below_max(adj, vs, ks) && path_weight(adj, vs, ks)
                    == g2[v].best_distance;
            assert(is_route(adj, vs, ks, s, v));
        }
    }
}

/// Once a search has nothing left to do, further steps change nothing.
pub(crate) proof fn lemma_run_stays(adj: Seq<Seq<Arc>>, s: int, k: nat, j: nat)
    requires
        k <= j,
        search_run(adj, s, k).2.len() == 0,
        search_run(adj, s, k).3 is None,
    ensures
        search_run(adj, s, j) == search_run(adj, s, k),
    decreases j - k,
{
    if j > k {
        lemma_run_stays(adj, s, k, (j - 1) as nat);
        assert(search_run(adj, s, j) == search_step(adj, search_run(adj, s, (j - 1) as nat)));
    }
}

/// A search runs the same way every time: two searches from the same source
/// over the same arcs end with the same distances and the same predecessors,
/// whatever the vertices held before.
pub proof fn law_search_deterministic(
    adj: Seq<Seq<Arc>>,
    s: int,
    k1: nat,
    k2: nat,
    d1: Seq<i64>,
    p1: Seq<u64>,
    d2: Seq<i64>,
    p2: Seq<u64>,
)
    requires
        search_ends_with(adj, s, k1, d1, p1),
        search_ends_with(adj, s, k2, d2, p2),
    ensures
        d1 == d2,
        p1 == p2,
{
    if k1 <= k2 {
        lemma_run_stays(adj, s, k1, k2);
    } else {
        lemma_run_stays(adj, s, k2, k1);
    }
}

/// Following predecessors depends on the predecessors alone: over vertices
/// that name the same predecessors, `k` steps from `v` lead to the same vertex,
/// as long as the steps before stay in the graph.
pub proof fn law_same_predecessors_same_steps(
    g1: Seq<crate::vertex::Vertex>,
    g2: Seq<crate::vertex::Vertex>,
    v: int,
    k: nat,
)
    requires
        preds(g1) == preds(g2),
        0 <= v < g1.len(),
        forall|j: nat| j < k ==> 0 <= #[trigger] pred_steps(g1, v, j) < g1.len(),
    ensures
        pred_steps(g1, v, k) == pred_steps(g2, v, k),
    decreases k,
{
    if k > 0 {
        law_same_predecessors_same_steps(g1, g2, v, (k - 1) as nat);
        lemma_pred_steps_succ(g1, v, (k - 1) as nat);
        lemma_pred_steps_succ(g2, v, (k - 1) as nat);
        let x = pred_steps(g1, v, (k - 1) as nat);
        assert(preds(g1).len() == g1.len() && preds(g2).len() == g2.len());
        assert(preds(g1)[x] == g1[x].best_verticie);
        assert(preds(g2)[x] == g2[x].best_verticie);
    }
}

} // verus!
