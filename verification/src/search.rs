//! The invariant of the shortest-path search and the lemmas that carry it
//! from step to step.

use vstd::prelude::*;

use crate::graph::{
    lemma_push_position_bound,
    SmallVertex,
    UNREACHED,
    arcs_of,
    has_route_of,
    is_path,
    is_route,
    no_shorter_route,
    path_step,
    path_weight,
    predecessor_on_shortest,
    prefix_weight,
    prefixes_below_max,
    push_position,
    routes_bounded_below,
    indexed_from,
    lemma_pred_steps_succ,
    pred_steps,
    same_shape,
    search_result,
    arcs_inside,
    vertex_laid_out,
};
use crate::vertex::{Arc, Vertex};

verus! {

/// The search has reached `v`: it holds a distance below `UNREACHED`.
pub(crate) open spec fn reached(g: Seq<Vertex>, v: int) -> bool {
    g[v].best_distance < UNREACHED
}

/// Arc `k` of vertex `u` is relaxed: it cannot shorten the distance of its end.
pub(crate) open spec fn arc_relaxed(g: Seq<Vertex>, u: int, k: int) -> bool {
    let a = g[u].arcs@[k];
    a.to == u || !reached(g, u) || g[a.to as int].best_distance <= g[u].best_distance + a.distance
}

/// Every arc of `u` is relaxed.
pub(crate) open spec fn settled(g: Seq<Vertex>, u: int) -> bool {
    forall|k: int| 0 <= k < g[u].arcs@.len() ==> #[trigger] arc_relaxed(g, u, k)
}

/// The frontier holds an entry for `u` at distance `d`.
pub(crate) open spec fn has_entry(q: Seq<SmallVertex>, u: int, d: int) -> bool {
    exists|j: int| 0 <= j < q.len() && (#[trigger] q[j]).id == u && q[j].best_distance == d
}

/// Every frontier entry names a vertex, at a distance no better than the
/// vertex holds and below `UNREACHED`.
pub(crate) open spec fn entries_ok(g: Seq<Vertex>, q: Seq<SmallVertex>) -> bool {
    forall|j: int| 0 <= j < q.len() ==> {
        &&& (#[trigger] q[j]).id < g.len()
        &&& q[j].best_distance >= g[q[j].id as int].best_distance
        &&& q[j].best_distance < UNREACHED
    }
}

/// `u` still waits in the frontier at its current distance, or all its arcs
/// are relaxed.
pub(crate) open spec fn pending_or_settled(g: Seq<Vertex>, q: Seq<SmallVertex>, u: int) -> bool {
    has_entry(q, u, g[u].best_distance as int) || settled(g, u)
}

/// The predecessor of a reached vertex `v` other than the source is reached,
/// and its arc `pa[v]` leads to `v` and gives it at most its distance.
pub(crate) open spec fn pred_ok(g: Seq<Vertex>, source: int, pa: Seq<int>, v: int) -> bool {
    let p = g[v].best_verticie as int;
    v != source && reached(g, v) ==> {
        &&& 0 <= p < g.len()
        &&& reached(g, p)
        &&& 0 <= pa[v] < g[p].arcs@.len()
        &&& g[p].arcs@[pa[v]].to == v
        &&& g[v].best_distance >= g[p].best_distance + g[p].arcs@[pa[v]].distance
    }
}

/// As `pred_ok`, with the arc to the predecessor giving exactly the distance.
pub(crate) open spec fn pred_final(g: Seq<Vertex>, source: int, pa: Seq<int>, v: int) -> bool {
    let p = g[v].best_verticie as int;
    v != source && reached(g, v) ==> {
        &&& 0 <= p < g.len()
        &&& reached(g, p)
        &&& 0 <= pa[v] < g[p].arcs@.len()
        &&& g[p].arcs@[pa[v]].to == v
        &&& g[v].best_distance == g[p].best_distance + g[p].arcs@[pa[v]].distance
    }
}

/// `ch[v]` lists the vertices met when following predecessors from a reached
/// `v` back to the source: the predecessors never run in a circle.
pub(crate) open spec fn chain_ok(g: Seq<Vertex>, source: int, ch: Seq<Seq<int>>, v: int) -> bool {
    reached(g, v) ==> {
        &&& ch[v].len() >= 1
        &&& ch[v][0] == v
        &&& ch[v].last() == source
        &&& v == source ==> ch[v] == seq![source]
        &&& v != source ==> ch[v] == seq![v] + ch[g[v].best_verticie as int]
    }
}

/// A reached vertex has a recorded path from the source of its length, one
/// that a search can follow.
pub(crate) open spec fn witness_ok(
    adj: Seq<Seq<Arc>>,
    g: Seq<Vertex>,
    source: int,
    wv: Seq<Seq<int>>,
    wk: Seq<Seq<int>>,
    v: int,
) -> bool {
    reached(g, v) ==> {
        &&& is_route(adj, wv[v], wk[v], source, v)
        &&& prefixes_below_max(adj, wv[v], wk[v])
        &&& path_weight(adj, wv[v], wk[v]) == g[v].best_distance
    }
}

/// How far the distances the vertices hold lie above `i64::MIN`, summed.
pub(crate) open spec fn total_best(g: Seq<Vertex>) -> int
    decreases g.len(),
{
    if g.len() == 0 {
        0
    } else {
        total_best(g.drop_last()) + (g.last().best_distance - i64::MIN)
    }
}

pub(crate) proof fn lemma_total_update(a: Seq<Vertex>, b: Seq<Vertex>, v: int)
    requires
        a.len() == b.len(),
        0 <= v < a.len(),
        forall|j: int| 0 <= j < a.len() && j != v ==> a[j].best_distance == b[j].best_distance,
    ensures
        total_best(b) == total_best(a) - a[v].best_distance + b[v].best_distance,
    decreases a.len(),
{
    if v < a.len() - 1 {
        lemma_total_update(a.drop_last(), b.drop_last(), v);
    } else {
        lemma_total_same(a.drop_last(), b.drop_last());
    }
}

pub(crate) proof fn lemma_total_same(a: Seq<Vertex>, b: Seq<Vertex>)
    requires
        a.len() == b.len(),
        forall|j: int| 0 <= j < a.len() ==> a[j].best_distance == b[j].best_distance,
    ensures
        total_best(b) == total_best(a),
    decreases a.len(),
{
    if a.len() > 0 {
        lemma_total_same(a.drop_last(), b.drop_last());
    }
}

pub(crate) proof fn lemma_total_nonneg(g: Seq<Vertex>)
    ensures
        total_best(g) >= 0,
    decreases g.len(),
{
    if g.len() > 0 {
        lemma_total_nonneg(g.drop_last());
    }
}

/// A path without its first step is a path.
pub(crate) proof fn lemma_path_tail(adj: Seq<Seq<Arc>>, vs: Seq<int>, ks: Seq<int>)
    requires
        is_path(adj, vs, ks),
        ks.len() > 0,
    ensures
        is_path(adj, vs.drop_first(), ks.drop_first()),
        path_step(adj, vs, ks, 0),
        0 <= vs[0] < adj.len(),
{
    let vs1 = vs.drop_first();
    let ks1 = ks.drop_first();
    assert forall|j: int| 0 <= j < ks1.len() implies #[trigger] path_step(adj, vs1, ks1, j) by {
        assert(path_step(adj, vs, ks, j + 1));
    }
    assert forall|j: int| 0 <= j < vs1.len() implies 0 <= #[trigger] vs1[j] < adj.len() by {
        assert(0 <= vs[j + 1] < adj.len());
    }
    assert(path_step(adj, vs, ks, 0));
    assert(0 <= vs[0] < adj.len());
}

/// A path followed by a path from where it ends is a path, of the summed weight.
pub(crate) proof fn lemma_path_concat(
    adj: Seq<Seq<Arc>>,
    vs1: Seq<int>,
    ks1: Seq<int>,
    vs2: Seq<int>,
    ks2: Seq<int>,
)
    requires
        is_path(adj, vs1, ks1),
        is_path(adj, vs2, ks2),
        vs1.last() == vs2[0],
    ensures
        is_path(adj, vs1 + vs2.drop_first(), ks1 + ks2),
        (vs1 + vs2.drop_first())[0] == vs1[0],
        (vs1 + vs2.drop_first()).last() == vs2.last(),
        path_weight(adj, vs1 + vs2.drop_first(), ks1 + ks2) == path_weight(adj, vs1, ks1)
            + path_weight(adj, vs2, ks2),
    decreases ks1.len(),
{
    if ks1.len() == 0 {
        assert(vs1 + vs2.drop_first() =~= vs2);
        assert(ks1 + ks2 =~= ks2);
    } else {
        lemma_path_tail(adj, vs1, ks1);
        let t1 = vs1.drop_first();
        let k1 = ks1.drop_first();
        assert(t1.last() == vs1.last());
        lemma_path_concat(adj, t1, k1, vs2, ks2);
        lemma_route_prepend(adj, vs1[0], ks1[0], t1 + vs2.drop_first(), k1 + ks2);
        assert(seq![vs1[0]] + (t1 + vs2.drop_first()) =~= vs1 + vs2.drop_first());
        assert(seq![ks1[0]] + (k1 + ks2) =~= ks1 + ks2);
    }
}

/// The first steps of a path with one arc put in front weigh that arc more
/// than the first steps of the path.
pub(crate) proof fn lemma_prefix_prepend(adj: Seq<Seq<Arc>>, p: int, k: int, vs: Seq<int>, ks: Seq<int>, i: int)
    requires
        is_path(adj, vs, ks),
        0 <= p < adj.len(),
        0 <= k < adj[p].len(),
        adj[p][k].to == vs[0],
        1 <= i <= ks.len() + 1,
    ensures
        prefix_weight(adj, seq![p] + vs, seq![k] + ks, i) == adj[p][k].distance + prefix_weight(adj, vs, ks, i - 1),
{
    lemma_path_prefix(adj, vs, ks, i - 1);
    let v1 = vs.take(i);
    let k1 = ks.take(i - 1);
    lemma_route_prepend(adj, p, k, v1, k1);
    assert((seq![p] + vs).take(i + 1) =~= seq![p] + v1);
    assert((seq![k] + ks).take(i) =~= seq![k] + k1);
}

/// The first `j` steps of two paths joined end to start.
pub(crate) proof fn lemma_prefix_concat(
    adj: Seq<Seq<Arc>>,
    vs1: Seq<int>,
    ks1: Seq<int>,
    vs2: Seq<int>,
    ks2: Seq<int>,
    j: int,
)
    requires
        is_path(adj, vs1, ks1),
        is_path(adj, vs2, ks2),
        vs1.last() == vs2[0],
        0 <= j <= ks1.len() + ks2.len(),
    ensures
        j <= ks1.len() ==> prefix_weight(adj, vs1 + vs2.drop_first(), ks1 + ks2, j) == prefix_weight(
            adj,
            vs1,
            ks1,
            j,
        ),
        j >= ks1.len() ==> prefix_weight(adj, vs1 + vs2.drop_first(), ks1 + ks2, j) == path_weight(adj, vs1, ks1)
            + prefix_weight(adj, vs2, ks2, j - ks1.len()),
{
    let vs = vs1 + vs2.drop_first();
    let ks = ks1 + ks2;
    if j <= ks1.len() {
        assert(vs.take(j + 1) =~= vs1.take(j + 1));
        assert(ks.take(j) =~= ks1.take(j));
    }
    if j >= ks1.len() {
        let t = j - ks1.len();
        lemma_path_prefix(adj, vs2, ks2, t);
        let v2 = vs2.take(t + 1);
        let k2 = ks2.take(t);
        lemma_path_concat(adj, vs1, ks1, v2, k2);
        assert(vs.take(j + 1) =~= vs1 + v2.drop_first());
        assert(ks.take(j) =~= ks1 + k2);
    }
}

/// A path followed by `m` rounds of a cycle at its end, where the cycle weighs
/// nothing or less and no part of the path or of a round short of its end
/// reaches `UNREACHED`: each round only lowers the weight, and every part
/// short of the end stays below `UNREACHED`.
pub(crate) proof fn lemma_repeat_cycle(
    adj: Seq<Seq<Arc>>,
    rv: Seq<int>,
    rk: Seq<int>,
    cv: Seq<int>,
    ck: Seq<int>,
    m: nat,
) -> (r: (Seq<int>, Seq<int>))
    requires
        is_path(adj, rv, rk),
        is_path(adj, cv, ck),
        cv[0] == rv.last(),
        cv.last() == rv.last(),
        path_weight(adj, cv, ck) <= 0,
        prefixes_below_max(adj, rv, rk),
        path_weight(adj, rv, rk) < UNREACHED,
        forall|j: int| 0 <= j < ck.len() ==> path_weight(adj, rv, rk) + #[trigger] prefix_weight(adj, cv, ck, j)
            < UNREACHED,
    ensures
        is_path(adj, r.0, r.1),
        r.0[0] == rv[0],
        r.0.last() == rv.last(),
        path_weight(adj, r.0, r.1) == path_weight(adj, rv, rk) + m * path_weight(adj, cv, ck),
        prefixes_below_max(adj, r.0, r.1),
    decreases m,
{
    if m == 0 {
        (rv, rk)
    } else {
        let (a, b) = lemma_repeat_cycle(adj, rv, rk, cv, ck, (m - 1) as nat);
        lemma_path_concat(adj, a, b, cv, ck);
        let w = path_weight(adj, rv, rk);
        let c = path_weight(adj, cv, ck);
        assert(w + (m - 1) * c + c == w + m * c) by (nonlinear_arith);
        assert((m - 1) * c <= 0) by (nonlinear_arith)
            requires
                c <= 0,
                m >= 1,
        ;
        let va = a + cv.drop_first();
        let ka = b + ck;
        assert forall|j: int| 0 <= j < ka.len() implies #[trigger] prefix_weight(adj, va, ka, j) < UNREACHED by {
            lemma_prefix_concat(adj, a, b, cv, ck, j);
            if j < b.len() {
                assert(prefix_weight(adj, a, b, j) < UNREACHED);
            } else {
                assert(prefix_weight(adj, cv, ck, j - b.len()) + w < UNREACHED);
            }
        }
        (va, ka)
    }
}

/// When no path from `s` that a search can follow weighs less than
/// `i64::MIN`, no cycle that such a path reaches, and that a search can go
/// round, weighs less than nothing.
pub(crate) proof fn lemma_no_negative_cycle(
    adj: Seq<Seq<Arc>>,
    s: int,
    rv: Seq<int>,
    rk: Seq<int>,
    cv: Seq<int>,
    ck: Seq<int>,
)
    requires
        routes_bounded_below(adj, s),
        is_path(adj, rv, rk),
        rv[0] == s,
        prefixes_below_max(adj, rv, rk),
        path_weight(adj, rv, rk) < UNREACHED,
        is_path(adj, cv, ck),
        cv[0] == rv.last(),
        cv.last() == rv.last(),
        forall|j: int| 0 <= j < ck.len() ==> path_weight(adj, rv, rk) + #[trigger] prefix_weight(adj, cv, ck, j)
            < UNREACHED,
    ensures
        path_weight(adj, cv, ck) >= 0,
{
    let w = path_weight(adj, rv, rk);
    let c = path_weight(adj, cv, ck);
    assert(w >= i64::MIN);
    if c < 0 {
        let m = (w - i64::MIN + 1) as nat;
        let (a, b) = lemma_repeat_cycle(adj, rv, rk, cv, ck, m);
        assert(is_path(adj, a, b) && a[0] == s && prefixes_below_max(adj, a, b));
        assert(m * c <= -m) by (nonlinear_arith)
            requires
                c <= -1,
                m >= 0,
        ;
        assert(path_weight(adj, a, b) < i64::MIN);
    }
}

/// The first `j + 1` vertices and `j` arcs of a path form a path.
pub(crate) proof fn lemma_path_prefix(adj: Seq<Seq<Arc>>, vs: Seq<int>, ks: Seq<int>, j: int)
    requires
        is_path(adj, vs, ks),
        0 <= j <= ks.len(),
    ensures
        is_path(adj, vs.take(j + 1), ks.take(j)),
{
    let v2 = vs.take(j + 1);
    let k2 = ks.take(j);
    assert forall|i: int| 0 <= i < k2.len() implies #[trigger] path_step(adj, v2, k2, i) by {
        assert(path_step(adj, vs, ks, i));
    }
    assert forall|i: int| 0 <= i < v2.len() implies 0 <= #[trigger] v2[i] < adj.len() by {
        assert(0 <= vs[i] < adj.len());
    }
}

/// One more step of a path adds the weight of its arc.
pub(crate) proof fn lemma_prefix_step(adj: Seq<Seq<Arc>>, vs: Seq<int>, ks: Seq<int>, j: int)
    requires
        is_path(adj, vs, ks),
        0 <= j < ks.len(),
    ensures
        prefix_weight(adj, vs, ks, j + 1) == prefix_weight(adj, vs, ks, j) + adj[vs[j]][ks[j]].distance,
        path_step(adj, vs, ks, j),
{
    lemma_path_prefix(adj, vs, ks, j);
    assert(path_step(adj, vs, ks, j));
    let p = vs.take(j + 1);
    assert(p.last() == vs[j]);
    assert(0 <= vs[j + 1] < adj.len());
    lemma_route_append(adj, p, ks.take(j), ks[j]);
    assert(p.push(vs[j + 1]) =~= vs.take(j + 2));
    assert(ks.take(j).push(ks[j]) =~= ks.take(j + 1));
}

/// The weight of all steps of a path is its weight.
pub(crate) proof fn lemma_prefix_whole(adj: Seq<Seq<Arc>>, vs: Seq<int>, ks: Seq<int>)
    requires
        vs.len() == ks.len() + 1,
    ensures
        prefix_weight(adj, vs, ks, ks.len() as int) == path_weight(adj, vs, ks),
{
    assert(vs.take(ks.len() + 1 as int) =~= vs);
    assert(ks.take(ks.len() as int) =~= ks);
}

pub(crate) proof fn lemma_route_append(adj: Seq<Seq<Arc>>, vs: Seq<int>, ks: Seq<int>, k: int)
    requires
        is_path(adj, vs, ks),
        0 <= k < adj[vs.last()].len(),
        0 <= adj[vs.last()][k].to < adj.len(),
    ensures
        is_path(adj, vs.push(adj[vs.last()][k].to as int), ks.push(k)),
        path_weight(adj, vs.push(adj[vs.last()][k].to as int), ks.push(k)) == path_weight(adj, vs, ks)
            + adj[vs.last()][k].distance,
    decreases ks.len(),
{
    let t = adj[vs.last()][k].to as int;
    let vs2 = vs.push(t);
    let ks2 = ks.push(k);
    assert forall|j: int| 0 <= j < ks2.len() implies #[trigger] path_step(adj, vs2, ks2, j) by {
        if j < ks.len() {
            assert(path_step(adj, vs, ks, j));
        }
    }
    assert forall|j: int| 0 <= j < vs2.len() implies 0 <= #[trigger] vs2[j] < adj.len() by {
        if j < vs.len() {
            assert(0 <= vs[j] < adj.len());
        }
    }
    if ks.len() > 0 {
        let vs1 = vs.drop_first();
        let ks1 = ks.drop_first();
        assert forall|j: int| 0 <= j < ks1.len() implies #[trigger] path_step(adj, vs1, ks1, j) by {
            assert(path_step(adj, vs, ks, j + 1));
        }
        assert forall|j: int| 0 <= j < vs1.len() implies 0 <= #[trigger] vs1[j] < adj.len() by {
            assert(0 <= vs[j + 1] < adj.len());
        }
        assert(vs1.last() == vs.last());
        lemma_route_append(adj, vs1, ks1, k);
        assert(vs2.drop_first() =~= vs1.push(t));
        assert(ks2.drop_first() =~= ks1.push(k));
    } else {
        assert(ks2.drop_first().len() == 0);
        assert(path_weight(adj, vs2.drop_first(), ks2.drop_first()) == 0);
    }
}

pub(crate) proof fn lemma_route_prepend(adj: Seq<Seq<Arc>>, p: int, k: int, vs: Seq<int>, ks: Seq<int>)
    requires
        is_path(adj, vs, ks),
        0 <= p < adj.len(),
        0 <= k < adj[p].len(),
        adj[p][k].to == vs[0],
    ensures
        is_path(adj, seq![p] + vs, seq![k] + ks),
        path_weight(adj, seq![p] + vs, seq![k] + ks) == adj[p][k].distance + path_weight(adj, vs, ks),
{
    let vs2 = seq![p] + vs;
    let ks2 = seq![k] + ks;
    assert forall|j: int| 0 <= j < ks2.len() implies #[trigger] path_step(adj, vs2, ks2, j) by {
        if j > 0 {
            assert(path_step(adj, vs, ks, j - 1));
        }
    }
    assert forall|j: int| 0 <= j < vs2.len() implies 0 <= #[trigger] vs2[j] < adj.len() by {
        if j > 0 {
            assert(0 <= vs[j - 1] < adj.len());
        }
    }
    assert(vs2.drop_first() =~= vs);
    assert(ks2.drop_first() =~= ks);
}

pub(crate) proof fn lemma_entry_insert(q: Seq<SmallVertex>, k: int, e: SmallVertex, u: int, d: int)
    requires
        0 <= k <= q.len(),
        has_entry(q, u, d) || (e.id == u && e.best_distance == d),
    ensures
        has_entry(q.insert(k, e), u, d),
{
    let q2 = q.insert(k, e);
    if e.id == u && e.best_distance == d {
        assert(q2[k] == e);
    } else {
        let j = choose|j: int| 0 <= j < q.len() && (#[trigger] q[j]).id == u && q[j].best_distance == d;
        if j < k {
            assert(q2[j] == q[j]);
        } else {
            assert(q2[j + 1] == q[j]);
        }
    }
}

pub(crate) proof fn lemma_entry_drop_first(q: Seq<SmallVertex>, u: int, d: int)
    requires
        q.len() > 0,
        has_entry(q, u, d),
        !(q[0].id == u && q[0].best_distance == d),
    ensures
        has_entry(q.drop_first(), u, d),
{
    let j = choose|j: int| 0 <= j < q.len() && (#[trigger] q[j]).id == u && q[j].best_distance == d;
    assert(q.drop_first()[j - 1] == q[j]);
}

pub(crate) proof fn lemma_same_shape_arcs(a: Seq<Vertex>, b: Seq<Vertex>)
    requires
        same_shape(a, b),
    ensures
        arcs_of(a) == arcs_of(b),
{
    assert forall|i: int| 0 <= i < a.len() implies arcs_of(a)[i] == arcs_of(b)[i] by {
        assert(a[i].arcs@ == b[i].arcs@);
    }
    assert(arcs_of(a) =~= arcs_of(b));
}


/// Lowering distances keeps relaxed arcs relaxed, as long as the arc's own
/// start keeps its distance.
pub(crate) proof fn lemma_lowering_keeps_relaxed(g0: Seq<Vertex>, g1: Seq<Vertex>, x: int, k: int)
    requires
        same_shape(g0, g1),
        reached(g0, x) ==> arcs_inside(g0, x),
        0 <= x < g0.len(),
        0 <= k < g0[x].arcs@.len(),
        forall|y: int| 0 <= y < g0.len() ==> #[trigger] g1[y].best_distance <= g0[y].best_distance,
        g1[x].best_distance == g0[x].best_distance,
        arc_relaxed(g0, x, k),
    ensures
        arc_relaxed(g1, x, k),
{
    let a = g0[x].arcs@[k];
    assert(g1[x].arcs@[k] == a);
    if reached(g0, x) {
        assert(a.to < g0.len());
        assert(g1[a.to as int].best_distance <= g0[a.to as int].best_distance);
    }
}

/// Following predecessors from a reached `x` for `j` steps leads to a reached
/// vertex with a path from it to `x` no heavier than the difference of their
/// distances.
pub(crate) proof fn lemma_chain_path(
    g: Seq<Vertex>,
    s: int,
    pa: Seq<int>,
    ch: Seq<Seq<int>>,
    x: int,
    j: int,
) -> (r: (Seq<int>, Seq<int>))
    requires
        0 <= s < g.len(),
        pa.len() == g.len(),
        ch.len() == g.len(),
        forall|v: int| 0 <= v < g.len() ==> #[trigger] pred_ok(g, s, pa, v),
        forall|v: int| 0 <= v < g.len() ==> #[trigger] chain_ok(g, s, ch, v),
        0 <= x < g.len(),
        reached(g, x),
        0 <= j < ch[x].len(),
    ensures
        0 <= ch[x][j] < g.len(),
        reached(g, ch[x][j]),
        ch[x].skip(j) == ch[ch[x][j]],
        is_path(arcs_of(g), r.0, r.1),
        r.0[0] == ch[x][j],
        r.0.last() == x,
        path_weight(arcs_of(g), r.0, r.1) <= g[x].best_distance - g[ch[x][j]].best_distance,
        forall|i: int|
            0 <= i <= r.1.len() ==> 0 <= #[trigger] r.0[i] < g.len() && reached(g, r.0[i]) && prefix_weight(
                arcs_of(g),
                r.0,
                r.1,
                i,
            ) <= g[r.0[i]].best_distance - g[r.0[0]].best_distance,
    decreases j,
{
    let adj = arcs_of(g);
    assert(chain_ok(g, s, ch, x));
    if j == 0 {
        assert(ch[x].skip(0) =~= ch[x]);
        let vs = seq![x];
        let ks = Seq::<int>::empty();
        assert(path_weight(adj, vs, ks) == 0);
        assert(vs.take(1) =~= vs);
        assert(ks.take(0) =~= ks);
        (vs, ks)
    } else {
        let (pv, pk) = lemma_chain_path(g, s, pa, ch, x, j - 1);
        let c = ch[x][j - 1];
        assert(chain_ok(g, s, ch, c));
        if c == s {
            assert(ch[x].skip(j - 1).len() == 1);
            assert(false);
        }
        assert(pred_ok(g, s, pa, c));
        let p = g[c].best_verticie as int;
        assert(chain_ok(g, s, ch, p));
        assert(ch[x].skip(j) =~= ch[x].skip(j - 1).drop_first());
        assert(ch[x][j] == ch[x].skip(j)[0]);
        assert(adj[p] == g[p].arcs@);
        lemma_route_prepend(adj, p, pa[c], pv, pk);
        let vs = seq![p] + pv;
        let ks = seq![pa[c]] + pk;
        assert forall|i: int| 0 <= i <= ks.len() implies 0 <= #[trigger] vs[i] < g.len() && reached(g, vs[i])
            && prefix_weight(adj, vs, ks, i) <= g[vs[i]].best_distance - g[vs[0]].best_distance by {
            if i == 0 {
                assert(path_weight(adj, vs.take(1), ks.take(0)) == 0);
            } else {
                lemma_prefix_prepend(adj, p, pa[c], pv, pk, i);
                assert(vs[i] == pv[i - 1]);
                assert(pv[0] == c);
            }
        }
        (vs, ks)
    }
}

/// The chain `c` with everything from `v` on replaced by `v` followed by `tail`.
pub(crate) open spec fn reroute(c: Seq<int>, v: int, tail: Seq<int>) -> Seq<int>
    decreases c.len(),
{
    if c.len() == 0 {
        c
    } else if c[0] == v {
        seq![v] + tail
    } else {
        seq![c[0]] + reroute(c.drop_first(), v, tail)
    }
}

pub(crate) proof fn lemma_reroute_absent(c: Seq<int>, v: int, tail: Seq<int>)
    requires
        !c.contains(v),
    ensures
        reroute(c, v, tail) == c,
    decreases c.len(),
{
    if c.len() > 0 {
        assert(c[0] != v);
        assert forall|i: int| 0 <= i < c.drop_first().len() implies c.drop_first()[i] != v by {
            assert(c.drop_first()[i] == c[i + 1]);
        }
        lemma_reroute_absent(c.drop_first(), v, tail);
        assert(seq![c[0]] + c.drop_first() =~= c);
    }
}

pub(crate) proof fn lemma_reroute_shape(c: Seq<int>, v: int, tail: Seq<int>, s: int)
    requires
        c.len() >= 1,
        c.last() == s,
        tail.len() >= 1,
        tail.last() == s,
    ensures
        reroute(c, v, tail).len() >= 1,
        reroute(c, v, tail)[0] == c[0],
        reroute(c, v, tail).last() == s,
    decreases c.len(),
{
    if c[0] != v {
        let r = reroute(c.drop_first(), v, tail);
        assert(reroute(c, v, tail) == seq![c[0]] + r);
        if c.len() > 1 {
            lemma_reroute_shape(c.drop_first(), v, tail, s);
            assert(c.drop_first().last() == s);
        } else {
            assert(r == c.drop_first());
            assert(seq![c[0]] + r =~= c);
        }
    }
}

/// The chains after `v` takes `u` as predecessor.
pub(crate) open spec fn rerouted(ch: Seq<Seq<int>>, v: int, u: int) -> Seq<Seq<int>> {
    Seq::new(ch.len(), |x: int| if x == v { seq![v] + ch[u] } else { reroute(ch[x], v, ch[u]) })
}

/// At the end of a search every vertex is settled; then the bookkeeping is the
/// search result.
pub(crate) proof fn lemma_finish(
    g: Seq<Vertex>,
    s: int,
    pa: Seq<int>,
    ch: Seq<Seq<int>>,
    wv: Seq<Seq<int>>,
    wk: Seq<Seq<int>>,
)
    requires
        0 <= s < g.len(),
        routes_bounded_below(arcs_of(g), s),
        g[s].best_distance == 0,
        pa.len() == g.len(),
        ch.len() == g.len(),
        wv.len() == g.len(),
        wk.len() == g.len(),
        forall|u: int| 0 <= u < g.len() ==> settled(g, u),
        forall|v: int|
            0 <= v < g.len() && (v == s || #[trigger] g[v].best_distance == UNREACHED)
                ==> g[v].best_verticie == 0,
        forall|v: int| 0 <= v < g.len() ==> #[trigger] pred_ok(g, s, pa, v),
        forall|v: int| 0 <= v < g.len() ==> #[trigger] witness_ok(arcs_of(g), g, s, wv, wk, v),
    ensures
        search_result(g, s),
        forall|v: int| 0 <= v < g.len() ==> #[trigger] pred_final(g, s, pa, v),
{
    let adj = arcs_of(g);
    // arcs of reached vertices cannot shorten anything, loops included
    assert forall|u: int, k: int|
        0 <= u < g.len() && reached(g, u) && 0 <= k < g[u].arcs@.len() implies g[g[u].arcs@[k].to as int].best_distance
        <= g[u].best_distance + (#[trigger] g[u].arcs@[k]).distance by {
        assert(settled(g, u));
        assert(arc_relaxed(g, u, k));
        if g[u].arcs@[k].to == u {
            assert(witness_ok(adj, g, s, wv, wk, u));
            let cv = seq![u, u];
            let ck = seq![k];
            assert(adj[u] == g[u].arcs@);
            assert(path_step(adj, cv, ck, 0));
            assert(is_path(adj, cv, ck));
            assert(path_weight(adj, cv.drop_first(), ck.drop_first()) == 0);
            assert forall|j: int| 0 <= j < ck.len() implies path_weight(adj, wv[u], wk[u]) + #[trigger] prefix_weight(
                adj,
                cv,
                ck,
                j,
            ) < UNREACHED by {
                assert(path_weight(adj, cv.take(1), ck.take(0)) == 0);
            }
            lemma_no_negative_cycle(adj, s, wv[u], wk[u], cv, ck);
        }
    }
    assert forall|v: int| 0 <= v < g.len() implies no_shorter_route(
        adj,
        s,
        v,
        #[trigger] g[v].best_distance as int,
    ) by {
        assert forall|vs: Seq<int>, ks: Seq<int>| #[trigger]
            is_route(adj, vs, ks, s, v) && prefixes_below_max(adj, vs, ks) implies g[v].best_distance
            <= path_weight(adj, vs, ks) by {
            lemma_route_bound(g, s, vs, ks);
        }
    }
    assert forall|v: int| 0 <= v < g.len() && #[trigger] g[v].best_distance < UNREACHED implies has_route_of(
        adj,
        s,
        v,
        g[v].best_distance as int,
    ) by {
        assert(witness_ok(adj, g, s, wv, wk, v));
        assert(is_route(adj, wv[v], wk[v], s, v));
    }
    assert forall|v: int| 0 <= v < g.len() implies #[trigger] pred_final(g, s, pa, v) by {
        assert(pred_ok(g, s, pa, v));
        if v != s && reached(g, v) {
            let p = g[v].best_verticie as int;
            assert(g[g[p].arcs@[pa[v]].to as int].best_distance <= g[p].best_distance
                + g[p].arcs@[pa[v]].distance);
        }
    }
    assert forall|v: int| 0 <= v < g.len() && v != s && #[trigger] g[v].best_distance < UNREACHED implies predecessor_on_shortest(
        g,
        v,
    ) by {
        assert(pred_final(g, s, pa, v));
        let p = g[v].best_verticie as int;
        assert(g[p].arcs@[pa[v]].to == v);
    }
}

/// When the arcs of every reached vertex are relaxed, no path that a search can
/// follow from the source undercuts the distance of its end.
pub(crate) proof fn lemma_route_bound(g: Seq<Vertex>, s: int, vs: Seq<int>, ks: Seq<int>)
    requires
        0 <= s < g.len(),
        g[s].best_distance == 0,
        is_route(arcs_of(g), vs, ks, s, vs.last()),
        prefixes_below_max(arcs_of(g), vs, ks),
        forall|u: int, k: int|
            0 <= u < g.len() && reached(g, u) && 0 <= k < g[u].arcs@.len() ==> g[g[u].arcs@[k].to as int].best_distance
                <= g[u].best_distance + (#[trigger] g[u].arcs@[k]).distance,
    ensures
        g[vs.last()].best_distance <= path_weight(arcs_of(g), vs, ks),
{
    lemma_route_bound_upto(g, s, vs, ks, ks.len() as int);
    lemma_prefix_whole(arcs_of(g), vs, ks);
}

/// The same bound for the first `j` steps of the path.
pub(crate) proof fn lemma_route_bound_upto(g: Seq<Vertex>, s: int, vs: Seq<int>, ks: Seq<int>, j: int)
    requires
        0 <= s < g.len(),
        g[s].best_distance == 0,
        is_route(arcs_of(g), vs, ks, s, vs.last()),
        prefixes_below_max(arcs_of(g), vs, ks),
        0 <= j <= ks.len(),
        forall|u: int, k: int|
            0 <= u < g.len() && reached(g, u) && 0 <= k < g[u].arcs@.len() ==> g[g[u].arcs@[k].to as int].best_distance
                <= g[u].best_distance + (#[trigger] g[u].arcs@[k]).distance,
    ensures
        0 <= vs[j] < g.len(),
        g[vs[j]].best_distance <= prefix_weight(arcs_of(g), vs, ks, j),
    decreases j,
{
    let adj = arcs_of(g);
    if j == 0 {
        assert(path_weight(adj, vs.take(1), ks.take(0)) == 0);
    } else {
        lemma_route_bound_upto(g, s, vs, ks, j - 1);
        lemma_prefix_step(adj, vs, ks, j - 1);
        assert(prefix_weight(adj, vs, ks, j - 1) < UNREACHED);
        let u = vs[j - 1];
        assert(adj[u] == g[u].arcs@);
        assert(g[u].arcs@[ks[j - 1]].to == vs[j]);
        assert(0 <= vs[j] < g.len());
    }
}

/// What holds of the search state between steps, apart from which vertices
/// are settled.
pub(crate) closed spec fn search_inv(
    g: Seq<Vertex>,
    g0: Seq<Vertex>,
    adj: Seq<Seq<Arc>>,
    s: int,
    q: Seq<SmallVertex>,
    pa: Seq<int>,
    ch: Seq<Seq<int>>,
    wv: Seq<Seq<int>>,
    wk: Seq<Seq<int>>,
) -> bool {
    &&& 0 <= s < g.len()
    &&& same_shape(g, g0)
    &&& adj == arcs_of(g)
    &&& indexed_from(g, s)
    &&& routes_bounded_below(adj, s)
    &&& g[s].best_distance == 0
    &&& forall|v: int|
        0 <= v < g.len() && (v == s || #[trigger] g[v].best_distance == UNREACHED)
            ==> g[v].best_verticie == 0
    &&& entries_ok(g, q)
    &&& pa.len() == g.len()
    &&& ch.len() == g.len()
    &&& wv.len() == g.len()
    &&& wk.len() == g.len()
    &&& forall|v: int| 0 <= v < g.len() ==> #[trigger] pred_ok(g, s, pa, v)
    &&& forall|v: int| 0 <= v < g.len() ==> #[trigger] chain_ok(g, s, ch, v)
    &&& forall|v: int| 0 <= v < g.len() ==> #[trigger] witness_ok(adj, g, s, wv, wk, v)
}

pub(crate) proof fn lemma_search_init(g: Seq<Vertex>, g0: Seq<Vertex>, s: int, q: Seq<SmallVertex>)
    requires
        0 <= s < g.len(),
        g.len() <= usize::MAX,
        same_shape(g, g0),
        indexed_from(g0, s),
        routes_bounded_below(arcs_of(g0), s),
        forall|i: int| 0 <= i < g.len() ==> (#[trigger] g[i]).best_verticie == 0
            && g[i].best_distance == (if i == s { 0 } else { UNREACHED }),
        q == seq![SmallVertex { id: s as usize, best_distance: 0 }],
    ensures
        search_inv(
            g,
            g0,
            arcs_of(g0),
            s,
            q,
            Seq::new(g.len(), |i: int| 0int),
            Seq::new(g.len(), |i: int| seq![s]),
            Seq::new(g.len(), |i: int| seq![s]),
            Seq::new(g.len(), |i: int| Seq::<int>::empty()),
        ),
        forall|v: int| 0 <= v < g.len() ==> #[trigger] pending_or_settled(g, q, v),
{
    let adj = arcs_of(g0);
    let ch = Seq::new(g.len(), |i: int| seq![s]);
    let wv = Seq::new(g.len(), |i: int| seq![s]);
    let wk = Seq::new(g.len(), |i: int| Seq::<int>::empty());
    lemma_same_shape_arcs(g, g0);
    assert(q[0].id == s && q[0].best_distance == 0);
    assert(has_entry(q, s, 0));
    assert forall|v: int| 0 <= v < g.len() implies #[trigger] pending_or_settled(g, q, v) by {
        if v != s {
            assert forall|k: int| 0 <= k < g[v].arcs@.len() implies #[trigger] arc_relaxed(g, v, k) by {}
        }
    }
    assert forall|v: int| 0 <= v < g.len() implies #[trigger] witness_ok(adj, g, s, wv, wk, v) by {
        if reached(g, v) {
            assert(v == s);
            assert(path_weight(adj, wv[v], wk[v]) == 0);
        }
    }
    assert forall|v: int| 0 <= v < g.len() implies #[trigger] chain_ok(g, s, ch, v) by {}
    lemma_same_shape_indexed(g, g0, s);
}

/// Popping the first frontier entry keeps every other vertex pending or settled,
/// and the vertex of the entry too unless the entry carried its distance.
pub(crate) proof fn lemma_search_pop(
    g: Seq<Vertex>,
    g0: Seq<Vertex>,
    adj: Seq<Seq<Arc>>,
    s: int,
    q: Seq<SmallVertex>,
    pa: Seq<int>,
    ch: Seq<Seq<int>>,
    wv: Seq<Seq<int>>,
    wk: Seq<Seq<int>>,
)
    requires
        search_inv(g, g0, adj, s, q, pa, ch, wv, wk),
        q.len() > 0,
        forall|v: int| 0 <= v < g.len() ==> #[trigger] pending_or_settled(g, q, v),
    ensures
        search_inv(g, g0, adj, s, q.drop_first(), pa, ch, wv, wk),
        q[0].id < g.len(),
        q[0].best_distance >= g[q[0].id as int].best_distance,
        q[0].best_distance < UNREACHED,
        forall|v: int|
            0 <= v < g.len() && (v != q[0].id || q[0].best_distance != g[v].best_distance)
                ==> #[trigger] pending_or_settled(g, q.drop_first(), v),
{
    let q1 = q.drop_first();
    assert(q[0].id < g.len());
    assert forall|j: int| 0 <= j < q1.len() implies {
        &&& (#[trigger] q1[j]).id < g.len()
        &&& q1[j].best_distance >= g[q1[j].id as int].best_distance
        &&& q1[j].best_distance < UNREACHED
    } by {
        assert(q1[j] == q[j + 1]);
    }
    assert forall|v: int|
        0 <= v < g.len() && (v != q[0].id || q[0].best_distance != g[v].best_distance) implies #[trigger] pending_or_settled(
        g,
        q1,
        v,
    ) by {
        assert(pending_or_settled(g, q, v));
        if has_entry(q, v, g[v].best_distance as int) {
            lemma_entry_drop_first(q, v, g[v].best_distance as int);
        }
    }
}

/// The distance a reached vertex offers over one of its arcs does not fall
/// below `i64::MIN`.
pub(crate) proof fn lemma_search_offer(
    g: Seq<Vertex>,
    g0: Seq<Vertex>,
    adj: Seq<Seq<Arc>>,
    s: int,
    q: Seq<SmallVertex>,
    pa: Seq<int>,
    ch: Seq<Seq<int>>,
    wv: Seq<Seq<int>>,
    wk: Seq<Seq<int>>,
    u: int,
    i: int,
)
    requires
        search_inv(g, g0, adj, s, q, pa, ch, wv, wk),
        0 <= u < g.len(),
        reached(g, u),
        0 <= i < g[u].arcs@.len(),
    ensures
        g[u].best_distance + g[u].arcs@[i].distance >= i64::MIN,
        g[u].arcs@[i].to < g.len(),
        vertex_laid_out(g, g[u].arcs@[i].to as int, s),
{
    assert(witness_ok(adj, g, s, wv, wk, u));
    assert(adj[u] == g[u].arcs@);
    lemma_reached_indexed(g, g0, adj, s, q, pa, ch, wv, wk, u);
    assert(g[u].arcs@[i].to < g.len());
    lemma_route_append(adj, wv[u], wk[u], i);
    lemma_extend_prefixes(adj, wv[u], wk[u], i);
    let t = g[u].arcs@[i].to as int;
    assert(is_path(adj, wv[u].push(t), wk[u].push(i)) && wv[u].push(t)[0] == s);
    assert(wv[u].push(t).last() == t);
}

/// A path that a search can follow, and that weighs less than `UNREACHED`,
/// can be followed one arc further.
pub(crate) proof fn lemma_extend_prefixes(adj: Seq<Seq<Arc>>, vs: Seq<int>, ks: Seq<int>, k: int)
    requires
        is_path(adj, vs, ks),
        prefixes_below_max(adj, vs, ks),
        path_weight(adj, vs, ks) < UNREACHED,
        0 <= k < adj[vs.last()].len(),
    ensures
        prefixes_below_max(adj, vs.push(adj[vs.last()][k].to as int), ks.push(k)),
{
    let vs1 = vs.push(adj[vs.last()][k].to as int);
    let ks1 = ks.push(k);
    assert forall|j: int| 0 <= j < ks1.len() implies #[trigger] prefix_weight(adj, vs1, ks1, j) < UNREACHED by {
        if j < ks.len() {
            assert(vs1.take(j + 1) =~= vs.take(j + 1));
            assert(ks1.take(j) =~= ks.take(j));
            assert(prefix_weight(adj, vs, ks, j) < UNREACHED);
        } else {
            assert(vs1.take(j + 1) =~= vs);
            assert(ks1.take(j) =~= ks);
        }
    }
}

/// A reached vertex carries its index as id and has arcs into the graph: a
/// recorded path leads to it from the source.
pub(crate) proof fn lemma_reached_indexed(
    g: Seq<Vertex>,
    g0: Seq<Vertex>,
    adj: Seq<Seq<Arc>>,
    s: int,
    q: Seq<SmallVertex>,
    pa: Seq<int>,
    ch: Seq<Seq<int>>,
    wv: Seq<Seq<int>>,
    wk: Seq<Seq<int>>,
    u: int,
)
    requires
        search_inv(g, g0, adj, s, q, pa, ch, wv, wk),
        0 <= u < g.len(),
        reached(g, u),
    ensures
        vertex_laid_out(g, u, s),
        arcs_inside(g, u),
{
    assert(witness_ok(adj, g, s, wv, wk, u));
    assert(is_path(adj, wv[u], wk[u]) && wv[u][0] == s);
}

/// Keeping ids and arcs keeps the part of the graph reached from `s` laid out.
pub(crate) proof fn lemma_same_shape_indexed(a: Seq<Vertex>, b: Seq<Vertex>, s: int)
    requires
        same_shape(a, b),
        indexed_from(b, s),
    ensures
        indexed_from(a, s),
{
    lemma_same_shape_arcs(a, b);
    assert forall|vs: Seq<int>, ks: Seq<int>| #[trigger] is_path(arcs_of(a), vs, ks) && vs[0] == s
        && prefixes_below_max(arcs_of(a), vs, ks) implies vertex_laid_out(a, vs.last(), s) by {
        assert(is_path(arcs_of(b), vs, ks));
        let x = vs.last();
        assert(0 <= x < a.len());
        assert(vertex_laid_out(b, x, s));
        assert(a[x].arcs@ == b[x].arcs@);
        assert forall|k: int| 0 <= k < a[x].arcs@.len() implies (#[trigger] a[x].arcs@[k]).to < a.len() by {
            assert(b[x].arcs@[k].to < b.len());
        }
    }
}

/// Lowering the distance of `v` to `d + w` through arc `i` of `u`, recording
/// `u` as its predecessor and putting `v` into the frontier keeps the search
/// state, and leaves arcs `0..=i` of `u` relaxed.
pub(crate) proof fn lemma_search_relax(
    gp: Seq<Vertex>,
    g1: Seq<Vertex>,
    g0: Seq<Vertex>,
    adj: Seq<Seq<Arc>>,
    s: int,
    qp: Seq<SmallVertex>,
    pa: Seq<int>,
    ch: Seq<Seq<int>>,
    wv: Seq<Seq<int>>,
    wk: Seq<Seq<int>>,
    u: int,
    i: int,
    v: int,
    nd: i64,
)
    requires
        search_inv(gp, g0, adj, s, qp, pa, ch, wv, wk),
        gp.len() <= usize::MAX,
        0 <= u < gp.len(),
        reached(gp, u),
        0 <= i < gp[u].arcs@.len(),
        gp[u].arcs@[i].to == v,
        v != u,
        nd == gp[u].best_distance + gp[u].arcs@[i].distance,
        nd < gp[v].best_distance,
        forall|x: int| 0 <= x < gp.len() && x != u ==> #[trigger] pending_or_settled(gp, qp, x),
        forall|k: int| 0 <= k < i ==> #[trigger] arc_relaxed(gp, u, k),
        g1.len() == gp.len(),
        forall|y: int| 0 <= y < gp.len() && y != v ==> g1[y] == gp[y],
        g1[v].id == gp[v].id,
        g1[v].arcs@ == gp[v].arcs@,
        g1[v].best_distance == nd,
        g1[v].best_verticie == u,
    ensures
        ({
            let e = SmallVertex { id: v as usize, best_distance: nd };
            let q2 = qp.insert(push_position(qp, nd) as int, e);
            &&& search_inv(
                g1,
                g0,
                adj,
                s,
                q2,
                pa.update(v, i),
                rerouted(ch, v, u),
                wv.update(v, wv[u].push(v)),
                wk.update(v, wk[u].push(i)),
            )
            &&& forall|x: int| 0 <= x < g1.len() && x != u ==> #[trigger] pending_or_settled(g1, q2, x)
            &&& forall|k: int| 0 <= k <= i ==> #[trigger] arc_relaxed(g1, u, k)
            &&& total_best(g1) < total_best(gp)
        }),
        v != s,
        0 <= v < gp.len(),
{
    let n = gp.len();
    let e = SmallVertex { id: v as usize, best_distance: nd };
    let pos = push_position(qp, nd) as int;
    let q2 = qp.insert(pos, e);
    lemma_reached_indexed(gp, g0, adj, s, qp, pa, ch, wv, wk, u);
    assert(gp[u].arcs@[i].to < n);
    assert(adj[u] == gp[u].arcs@);
    // `v` does not lie on the predecessor chain of `u`: else the chain and the
    // arc to `v` would close a cycle of negative weight
    assert(chain_ok(gp, s, ch, u));
    assert(!ch[u].contains(v)) by {
        if ch[u].contains(v) {
            let k = choose|k: int| 0 <= k < ch[u].len() && ch[u][k] == v;
            let (cv, ck) = lemma_chain_path(gp, s, pa, ch, u, k);
            lemma_route_append(adj, cv, ck, i);
            assert(cv.last() == u);
            assert(witness_ok(adj, gp, s, wv, wk, v));
            let cv2 = cv.push(v);
            let ck2 = ck.push(i);
            assert forall|j: int| 0 <= j < ck2.len() implies path_weight(adj, wv[v], wk[v]) + #[trigger] prefix_weight(
                adj,
                cv2,
                ck2,
                j,
            ) < UNREACHED by {
                assert(cv2.take(j + 1) =~= cv.take(j + 1));
                assert(ck2.take(j) =~= ck.take(j));
                assert(0 <= cv[j] < gp.len() && reached(gp, cv[j]));
            }
            lemma_no_negative_cycle(adj, s, wv[v], wk[v], cv2, ck2);
        }
    }
    assert(v != s);
    assert(same_shape(g1, gp));
    assert(same_shape(g1, g0));
    lemma_same_shape_arcs(g1, gp);
    assert forall|y: int| 0 <= y < n implies #[trigger] g1[y].best_distance <= gp[y].best_distance by {}
    lemma_total_update(gp, g1, v);
    lemma_same_shape_indexed(g1, gp, s);
    // the predecessor bookkeeping
    let pa1 = pa.update(v, i);
    assert forall|x: int| 0 <= x < n implies #[trigger] pred_ok(g1, s, pa1, x) by {
        assert(pred_ok(gp, s, pa, x));
        if x != v && x != s && reached(g1, x) {
            let p = gp[x].best_verticie as int;
            assert(g1[p].arcs@ == gp[p].arcs@);
        }
    }
    // the predecessor chains
    let ch1 = rerouted(ch, v, u);
    lemma_reroute_absent(ch[u], v, ch[u]);
    assert(ch1[u] == reroute(ch[u], v, ch[u]));
    assert(ch1[u] == ch[u]);
    assert forall|x: int| 0 <= x < n implies #[trigger] chain_ok(g1, s, ch1, x) by {
        assert(chain_ok(gp, s, ch, x));
        if x == v {
            assert(ch1[v] == seq![v] + ch[u]);
            assert(g1[v].best_verticie == u);
        } else if reached(g1, x) {
            assert(ch1[x] == reroute(ch[x], v, ch[u]));
            lemma_reroute_shape(ch[x], v, ch[u], s);
            assert(ch[x][0] == x);
            if x != s {
                let p = gp[x].best_verticie as int;
                assert(g1[x].best_verticie == p);
                assert(pred_ok(gp, s, pa, x));
                assert(chain_ok(gp, s, ch, p));
                assert(ch[x].drop_first() =~= ch[p]);
                assert(reroute(ch[x], v, ch[u]) == seq![x] + reroute(ch[x].drop_first(), v, ch[u]));
                if p == v {
                    assert(ch[p][0] == v);
                    assert(reroute(ch[p], v, ch[u]) == seq![v] + ch[u]);
                    assert(ch1[p] == seq![v] + ch[u]);
                } else {
                    assert(ch1[p] == reroute(ch[p], v, ch[u]));
                }
            } else {
                assert(ch[s] == seq![s]);
                assert(ch[s].drop_first() =~= Seq::<int>::empty());
                assert(reroute(ch[s], v, ch[u]) == seq![s] + reroute(ch[s].drop_first(), v, ch[u]));
                assert(reroute(ch[s].drop_first(), v, ch[u]) == ch[s].drop_first());
                assert(seq![s] + ch[s].drop_first() =~= seq![s]);
            }
        }
    }
    // the recorded paths
    assert(witness_ok(adj, gp, s, wv, wk, u));
    lemma_route_append(adj, wv[u], wk[u], i);
    let wv1 = wv.update(v, wv[u].push(v));
    let wk1 = wk.update(v, wk[u].push(i));
    assert(prefixes_below_max(adj, wv1[v], wk1[v])) by {
        assert forall|j: int| 0 <= j < wk1[v].len() implies #[trigger] prefix_weight(adj, wv1[v], wk1[v], j)
            < UNREACHED by {
            if j < wk[u].len() {
                assert(wv1[v].take(j + 1) =~= wv[u].take(j + 1));
                assert(wk1[v].take(j) =~= wk[u].take(j));
                assert(prefix_weight(adj, wv[u], wk[u], j) < UNREACHED);
            } else {
                assert(wv1[v].take(j + 1) =~= wv[u]);
                assert(wk1[v].take(j) =~= wk[u]);
            }
        }
    }
    assert forall|x: int| 0 <= x < n implies #[trigger] witness_ok(adj, g1, s, wv1, wk1, x) by {
        assert(witness_ok(adj, gp, s, wv, wk, x));
    }
    // relaxed arcs stay relaxed
    assert forall|k: int| 0 <= k <= i implies #[trigger] arc_relaxed(g1, u, k) by {
        if k < i {
            assert(arc_relaxed(gp, u, k));
            lemma_reached_indexed(gp, g0, adj, s, qp, pa, ch, wv, wk, u);
            lemma_lowering_keeps_relaxed(gp, g1, u, k);
        }
    }
    lemma_push_position_bound(qp, nd);
    assert forall|x: int| 0 <= x < n && x != u implies #[trigger] pending_or_settled(g1, q2, x) by {
        if x == v {
            lemma_entry_insert(qp, pos, e, x, nd as int);
        } else {
            assert(pending_or_settled(gp, qp, x));
            if has_entry(qp, x, gp[x].best_distance as int) {
                lemma_entry_insert(qp, pos, e, x, g1[x].best_distance as int);
            } else {
                assert forall|k: int| 0 <= k < g1[x].arcs@.len() implies #[trigger] arc_relaxed(
                    g1,
                    x,
                    k,
                ) by {
                    assert(arc_relaxed(gp, x, k));
                    if reached(gp, x) {
                        lemma_reached_indexed(gp, g0, adj, s, qp, pa, ch, wv, wk, x);
                    }
                    lemma_lowering_keeps_relaxed(gp, g1, x, k);
                }
            }
        }
    }
    assert forall|j: int| 0 <= j < q2.len() implies {
        &&& (#[trigger] q2[j]).id < g1.len()
        &&& q2[j].best_distance >= g1[q2[j].id as int].best_distance
        &&& q2[j].best_distance < UNREACHED
    } by {
        if j < pos {
            assert(q2[j] == qp[j]);
        } else if j > pos {
            assert(q2[j] == qp[j - 1]);
        }
    }
}

/// A search state whose frontier is empty is the search result.
pub(crate) proof fn lemma_search_done(
    g: Seq<Vertex>,
    g0: Seq<Vertex>,
    adj: Seq<Seq<Arc>>,
    s: int,
    q: Seq<SmallVertex>,
    pa: Seq<int>,
    ch: Seq<Seq<int>>,
    wv: Seq<Seq<int>>,
    wk: Seq<Seq<int>>,
)
    requires
        search_inv(g, g0, adj, s, q, pa, ch, wv, wk),
        q.len() == 0,
        forall|v: int| 0 <= v < g.len() ==> #[trigger] pending_or_settled(g, q, v),
    ensures
        search_result(g, s),
        forall|v: int| 0 <= v < g.len() ==> #[trigger] pred_final(g, s, pa, v),
        forall|v: int| 0 <= v < g.len() ==> #[trigger] chain_ok(g, s, ch, v),
        same_shape(g, g0),
        adj == arcs_of(g),
        indexed_from(g, s),
        pa.len() == g.len(),
        ch.len() == g.len(),
{
    assert forall|u: int| 0 <= u < g.len() implies settled(g, u) by {
        assert(pending_or_settled(g, q, u));
    }
    lemma_finish(g, s, pa, ch, wv, wk);
}

pub(crate) proof fn lemma_search_facts(
    g: Seq<Vertex>,
    g0: Seq<Vertex>,
    adj: Seq<Seq<Arc>>,
    s: int,
    q: Seq<SmallVertex>,
    pa: Seq<int>,
    ch: Seq<Seq<int>>,
    wv: Seq<Seq<int>>,
    wk: Seq<Seq<int>>,
)
    requires
        search_inv(g, g0, adj, s, q, pa, ch, wv, wk),
    ensures
        indexed_from(g, s),
        same_shape(g, g0),
        adj == arcs_of(g),
        g.len() == g0.len(),
        g[s].best_distance == 0,
        total_best(g) >= 0,
{
    lemma_total_nonneg(g);
}

/// Following predecessors from a reached `v` along its chain leads to the
/// source.
pub(crate) proof fn lemma_leads_back(g: Seq<Vertex>, s: int, pa: Seq<int>, ch: Seq<Seq<int>>, v: int)
    requires
        0 <= s < g.len(),
        pa.len() == g.len(),
        ch.len() == g.len(),
        forall|x: int| 0 <= x < g.len() ==> #[trigger] pred_final(g, s, pa, x),
        forall|x: int| 0 <= x < g.len() ==> #[trigger] chain_ok(g, s, ch, x),
        0 <= v < g.len(),
        reached(g, v),
    ensures
        ch[v].len() >= 1,
        pred_steps(g, v, (ch[v].len() - 1) as nat) == s,
    decreases ch[v].len(),
{
    assert(chain_ok(g, s, ch, v));
    if v != s {
        assert(pred_final(g, s, pa, v));
        let p = g[v].best_verticie as int;
        assert(chain_ok(g, s, ch, p));
        assert(ch[v].len() == ch[p].len() + 1);
        lemma_leads_back(g, s, pa, ch, p);
        assert(pred_steps(g, v, (ch[v].len() - 1) as nat) == pred_steps(g, p, (ch[p].len() - 1) as nat));
    }
}

/// Step `j` of the chain of a reached `x` is where `j` predecessor steps from
/// `x` lead; the chain goes on from there as that vertex's own chain.
pub(crate) proof fn lemma_chain_facts(g: Seq<Vertex>, s: int, pa: Seq<int>, ch: Seq<Seq<int>>, x: int, j: int)
    requires
        0 <= s < g.len(),
        pa.len() == g.len(),
        ch.len() == g.len(),
        forall|v: int| 0 <= v < g.len() ==> #[trigger] pred_final(g, s, pa, v),
        forall|v: int| 0 <= v < g.len() ==> #[trigger] chain_ok(g, s, ch, v),
        0 <= x < g.len(),
        reached(g, x),
        0 <= j < ch[x].len(),
    ensures
        0 <= ch[x][j] < g.len(),
        reached(g, ch[x][j]),
        ch[x].skip(j) == ch[ch[x][j]],
        pred_steps(g, x, j as nat) == ch[x][j],
    decreases j,
{
    assert(chain_ok(g, s, ch, x));
    if j == 0 {
        assert(ch[x].skip(0) =~= ch[x]);
    } else {
        lemma_chain_facts(g, s, pa, ch, x, j - 1);
        let c = ch[x][j - 1];
        assert(chain_ok(g, s, ch, c));
        if c == s {
            assert(ch[x].skip(j - 1).len() == 1);
            assert(false);
        }
        assert(pred_final(g, s, pa, c));
        let p = g[c].best_verticie as int;
        assert(chain_ok(g, s, ch, p));
        assert(ch[x].skip(j) =~= ch[x].skip(j - 1).drop_first());
        assert(ch[x][j] == ch[x].skip(j)[0]);
        lemma_pred_steps_succ(g, x, (j - 1) as nat);
    }
}

/// The chain of a reached `x` names no vertex twice, and names the source
/// only at its end.
pub(crate) proof fn lemma_chain_distinct(g: Seq<Vertex>, s: int, pa: Seq<int>, ch: Seq<Seq<int>>, x: int)
    requires
        0 <= s < g.len(),
        pa.len() == g.len(),
        ch.len() == g.len(),
        forall|v: int| 0 <= v < g.len() ==> #[trigger] pred_final(g, s, pa, v),
        forall|v: int| 0 <= v < g.len() ==> #[trigger] chain_ok(g, s, ch, v),
        0 <= x < g.len(),
        reached(g, x),
    ensures
        ch[x].len() >= 1,
        ch[x].last() == s,
        forall|i: int, j: int| 0 <= i < j < ch[x].len() ==> ch[x][i] != ch[x][j],
        forall|i: int| 0 <= i < ch[x].len() - 1 ==> ch[x][i] != s,
{
    assert(chain_ok(g, s, ch, x));
    assert forall|i: int, j: int| 0 <= i < j < ch[x].len() implies ch[x][i] != ch[x][j] by {
        lemma_chain_facts(g, s, pa, ch, x, i);
        lemma_chain_facts(g, s, pa, ch, x, j);
        if ch[x][i] == ch[x][j] {
            assert(ch[x].skip(i).len() != ch[x].skip(j).len());
        }
    }
    assert forall|i: int| 0 <= i < ch[x].len() - 1 implies ch[x][i] != s by {
        lemma_chain_facts(g, s, pa, ch, x, i);
        if ch[x][i] == s {
            assert(chain_ok(g, s, ch, s));
            assert(ch[x].skip(i).len() == 1);
        }
    }
}

/// The chain of a reached `x` up to step `j`, read backwards, is a path from
/// that vertex to `x` whose weight is the difference of their distances.
pub(crate) proof fn lemma_chain_route(
    g: Seq<Vertex>,
    s: int,
    pa: Seq<int>,
    ch: Seq<Seq<int>>,
    x: int,
    j: int,
) -> (r: (Seq<int>, Seq<int>))
    requires
        0 <= s < g.len(),
        pa.len() == g.len(),
        ch.len() == g.len(),
        forall|v: int| 0 <= v < g.len() ==> #[trigger] pred_final(g, s, pa, v),
        forall|v: int| 0 <= v < g.len() ==> #[trigger] chain_ok(g, s, ch, v),
        0 <= x < g.len(),
        reached(g, x),
        0 <= j < ch[x].len(),
    ensures
        is_path(arcs_of(g), r.0, r.1),
        r.0.len() == j + 1,
        forall|i: int| 0 <= i <= j ==> #[trigger] r.0[i] == ch[x][j - i],
        path_weight(arcs_of(g), r.0, r.1) == g[x].best_distance - g[ch[x][j]].best_distance,
    decreases j,
{
    let adj = arcs_of(g);
    lemma_chain_facts(g, s, pa, ch, x, j);
    if j == 0 {
        let vs = seq![x];
        let ks = Seq::<int>::empty();
        assert(chain_ok(g, s, ch, x));
        assert(path_weight(adj, vs, ks) == 0);
        (vs, ks)
    } else {
        let (pv, pk) = lemma_chain_route(g, s, pa, ch, x, j - 1);
        lemma_chain_facts(g, s, pa, ch, x, j - 1);
        let c = ch[x][j - 1];
        assert(chain_ok(g, s, ch, c));
        if c == s {
            assert(ch[x].skip(j - 1).len() == 1);
            assert(false);
        }
        assert(pred_final(g, s, pa, c));
        let p = g[c].best_verticie as int;
        assert(chain_ok(g, s, ch, p));
        assert(ch[x].skip(j) =~= ch[x].skip(j - 1).drop_first());
        assert(ch[x][j] == ch[x].skip(j)[0]);
        assert(adj[p] == g[p].arcs@);
        assert(pv[0] == c);
        lemma_route_prepend(adj, p, pa[c], pv, pk);
        let vs = seq![p] + pv;
        assert forall|i: int| 0 <= i <= j implies #[trigger] vs[i] == ch[x][j - i] by {
            if i > 0 {
                assert(vs[i] == pv[i - 1]);
            }
        }
        (vs, seq![pa[c]] + pk)
    }
}

} // verus!
