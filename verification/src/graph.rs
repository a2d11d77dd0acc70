use vstd::prelude::*;

use crate::text::{
    IntErrorKind,
    parse_i64,
    parse_i64_spec,
    parse_u64,
    parse_u64_spec,
    split,
    split_chars,
    str_chars,
    trim,
    trim_chars,
    views,
};
use crate::search::{
    arc_relaxed,
    chain_ok,
    lemma_search_offer,
    rerouted,
    lemma_search_done,
    lemma_search_facts,
    lemma_search_init,
    lemma_search_pop,
    lemma_search_relax,
    lemma_leads_back,
    lemma_chain_distinct,
    lemma_chain_facts,
    lemma_chain_route,
    lemma_same_shape_arcs,
    pending_or_settled,
    pred_final,
    search_inv,
    total_best,
};
use crate::text::join;
use crate::vertex::{Arc, Vertex, lemma_filter_counts, vertex_text};
use crate::paths::{law_nonnegative_routes_bounded, lemma_run_stays};

verus! {

#[verifier::external_type_specification]
#[verifier::external_body]
pub struct ExIoError(std::io::Error);

#[verifier::external_type_specification]
#[verifier::external_body]
pub struct ExFmtError(std::fmt::Error);

#[verifier::external_type_specification]
#[verifier::external_body]
pub struct ExParseFloatError(std::num::ParseFloatError);

/// Why a graph could not be read.
#[derive(Debug)]
pub enum ImportError {
    Io(std::io::Error),
    Fmt(std::fmt::Error),
    ParseF(std::num::ParseFloatError),
    ParseI(IntErrorKind),
    FileFormat,
}

/// The distance that marks a vertex as not reached by the last search.
pub const UNREACHED: i64 = 9223372036854775807i64;

/// A directed graph: a list of vertices, each with its outgoing arcs.
#[derive(PartialEq, Debug)]
pub struct Graph {
    pub verticies: Vec<Vertex>,
}

/// What a successful search reports: the distance of the destination and the
/// vertices of a path to it, from the source to the destination.
#[derive(Debug)]
pub struct BestPath {
    pub success: bool,
    pub distance: i64,
    pub path: Vec<u64>,
}

/// The arcs of each vertex, in vertex order.
pub open spec fn arcs_of(g: Seq<Vertex>) -> Seq<Seq<Arc>> {
    g.map_values(|v: Vertex| v.arcs@)
}

/// The vertices keep their ids and arcs; only the search bookkeeping may differ.
pub open spec fn same_shape(a: Seq<Vertex>, b: Seq<Vertex>) -> bool {
    &&& a.len() == b.len()
    &&& forall|i: int| 0 <= i < a.len() ==> (#[trigger] a[i]).id == b[i].id && a[i].arcs@ == b[i].arcs@
}

/// Every vertex carries its own index as id, and every arc leads to a vertex of
/// the graph: the layout the search works on.
pub open spec fn well_indexed(g: Seq<Vertex>) -> bool {
    &&& forall|i: int| 0 <= i < g.len() ==> (#[trigger] g[i]).id == i
    &&& forall|i: int, k: int|
        0 <= i < g.len() && 0 <= k < g[i].arcs@.len() ==> (#[trigger] g[i].arcs@[k]).to < g.len()
}

/// The arcs of vertex `x` lead to vertices of the graph.
pub open spec fn arcs_inside(g: Seq<Vertex>, x: int) -> bool {
    forall|k: int| 0 <= k < g[x].arcs@.len() ==> (#[trigger] g[x].arcs@[k]).to < g.len()
}

/// Vertex `x` has arcs into the graph and, unless it is the source `s`, whose
/// id a search never reads, carries its index as id.
pub open spec fn vertex_laid_out(g: Seq<Vertex>, x: int, s: int) -> bool {
    &&& x != s ==> g[x].id == x
    &&& arcs_inside(g, x)
}

/// Every vertex that a search from `s` can reach, over a path whose every part
/// short of its end weighs less than `UNREACHED`, is laid out for the search:
/// the part of the graph that such a search reads.
pub open spec fn indexed_from(g: Seq<Vertex>, s: int) -> bool {
    forall|vs: Seq<int>, ks: Seq<int>|
        #[trigger] is_path(arcs_of(g), vs, ks) && vs[0] == s && prefixes_below_max(arcs_of(g), vs, ks)
            ==> vertex_laid_out(g, vs.last(), s)
}

/// No arc has a negative distance.
pub open spec fn nonnegative_arcs(g: Seq<Vertex>) -> bool {
    forall|i: int, k: int|
        0 <= i < g.len() && 0 <= k < g[i].arcs@.len() ==> (#[trigger] g[i].arcs@[k]).distance >= 0
}

/// Step `j` of a path: arc `ks[j]` of vertex `vs[j]` leads to `vs[j + 1]`.
pub open spec fn path_step(adj: Seq<Seq<Arc>>, vs: Seq<int>, ks: Seq<int>, j: int) -> bool {
    &&& 0 <= ks[j] < adj[vs[j]].len()
    &&& adj[vs[j]][ks[j]].to == vs[j + 1]
}

/// `vs` are the vertices of a path and `ks` the arcs it takes, one per step.
pub open spec fn is_path(adj: Seq<Seq<Arc>>, vs: Seq<int>, ks: Seq<int>) -> bool {
    &&& vs.len() == ks.len() + 1
    &&& forall|j: int| 0 <= j < vs.len() ==> 0 <= #[trigger] vs[j] < adj.len()
    &&& forall|j: int| 0 <= j < ks.len() ==> #[trigger] path_step(adj, vs, ks, j)
}

/// A path from `s` to `t`.
pub open spec fn is_route(adj: Seq<Seq<Arc>>, vs: Seq<int>, ks: Seq<int>, s: int, t: int) -> bool {
    &&& is_path(adj, vs, ks)
    &&& vs[0] == s
    &&& vs.last() == t
}

/// The sum of the distances of the arcs a path takes.
pub open spec fn path_weight(adj: Seq<Seq<Arc>>, vs: Seq<int>, ks: Seq<int>) -> int
    decreases ks.len(),
{
    if ks.len() == 0 {
        0
    } else {
        adj[vs[0]][ks[0]].distance + path_weight(adj, vs.drop_first(), ks.drop_first())
    }
}

/// The vertices of a path as the search reports them.
pub open spec fn path_ints(p: Seq<u64>) -> Seq<int> {
    p.map_values(|x: u64| x as int)
}

/// The weight of the first `j` steps of a path.
pub open spec fn prefix_weight(adj: Seq<Seq<Arc>>, vs: Seq<int>, ks: Seq<int>, j: int) -> int {
    path_weight(adj, vs.take(j + 1), ks.take(j))
}

/// Every part of the path that stops before its last vertex weighs less than
/// `UNREACHED`: a search can follow the path to its end.
pub open spec fn prefixes_below_max(adj: Seq<Seq<Arc>>, vs: Seq<int>, ks: Seq<int>) -> bool {
    forall|j: int| 0 <= j < ks.len() ==> #[trigger] prefix_weight(adj, vs, ks, j) < UNREACHED
}

/// No path from `s` to `t` that a search can follow is shorter than `d`.
pub open spec fn no_shorter_route(adj: Seq<Seq<Arc>>, s: int, t: int, d: int) -> bool {
    forall|vs: Seq<int>, ks: Seq<int>|
        #[trigger] is_route(adj, vs, ks, s, t) && prefixes_below_max(adj, vs, ks) ==> d <= path_weight(
            adj,
            vs,
            ks,
        )
}

/// Some path from `s` to `t` that a search can follow has length `d`.
pub open spec fn has_route_of(adj: Seq<Seq<Arc>>, s: int, t: int, d: int) -> bool {
    exists|vs: Seq<int>, ks: Seq<int>|
        #[trigger] is_route(adj, vs, ks, s, t) && prefixes_below_max(adj, vs, ks) && path_weight(adj, vs, ks)
            == d
}

/// Some path from `s` to `t` that a search can follow is shorter than the
/// distance that marks a vertex as not reached.
pub open spec fn reachable_below_max(adj: Seq<Seq<Arc>>, s: int, t: int) -> bool {
    exists|vs: Seq<int>, ks: Seq<int>|
        #[trigger] is_route(adj, vs, ks, s, t) && prefixes_below_max(adj, vs, ks) && path_weight(adj, vs, ks)
            < UNREACHED
}

/// No path from `s` that a search can follow weighs less than `i64::MIN`: no
/// cycle of negative weight can be reached from `s` below `UNREACHED`, and no
/// distance found from `s` leaves `i64`.
pub open spec fn routes_bounded_below(adj: Seq<Seq<Arc>>, s: int) -> bool {
    forall|vs: Seq<int>, ks: Seq<int>|
        #[trigger] is_path(adj, vs, ks) && vs[0] == s && prefixes_below_max(adj, vs, ks) ==> path_weight(adj, vs, ks)
            >= i64::MIN
}

/// The bookkeeping a search leaves behind, seen from `source`: every vertex
/// holds the least length of the paths to it that a search can follow, or
/// `UNREACHED` when none is shorter than that; every reached vertex other than
/// the source names as predecessor a vertex with an arc to it that completes
/// such a path; the others name 0.
pub open spec fn search_result(g: Seq<Vertex>, source: int) -> bool {
    let adj = arcs_of(g);
    &&& g[source].best_distance == 0
    &&& forall|v: int| 0 <= v < g.len() ==> no_shorter_route(adj, source, v, #[trigger] g[v].best_distance as int)
    &&& forall|v: int| 0 <= v < g.len() && #[trigger] g[v].best_distance < UNREACHED ==> has_route_of(adj, source, v, g[v].best_distance as int)
    &&& forall|v: int| 0 <= v < g.len() && (v == source || #[trigger] g[v].best_distance == UNREACHED) ==> g[v].best_verticie == 0
    &&& forall|v: int| 0 <= v < g.len() && v != source && #[trigger] g[v].best_distance < UNREACHED ==> predecessor_on_shortest(g, v)
}

/// The vertex met after following predecessors `k` times from `v`.
pub open spec fn pred_steps(g: Seq<Vertex>, v: int, k: nat) -> int
    decreases k,
{
    if k == 0 {
        v
    } else {
        pred_steps(g, g[v].best_verticie as int, (k - 1) as nat)
    }
}

/// Following predecessors from `v` leads to `s`.
pub open spec fn leads_back(g: Seq<Vertex>, v: int, s: int) -> bool {
    exists|k: nat| #[trigger] pred_steps(g, v, k) == s
}

/// Following predecessors from `d` reaches `s` after `m` steps, meeting only
/// vertices of the graph on the way.
pub open spec fn chain_hits(g: Seq<Vertex>, d: int, s: int, m: nat) -> bool {
    &&& pred_steps(g, d, m) == s
    &&& forall|j: nat| j <= m ==> 0 <= #[trigger] pred_steps(g, d, j) < g.len()
}

/// Following predecessors from `d` stays in the graph and, at some point,
/// reaches `s`.
pub open spec fn chain_reaches(g: Seq<Vertex>, d: int, s: int) -> bool {
    exists|m: nat| chain_hits(g, d, s, m)
}

/// Following predecessors from `d` reaches `s` for the first time after `m`
/// steps, meeting only vertices of the graph on the way.
pub open spec fn chain_to(g: Seq<Vertex>, d: int, s: int, m: nat) -> bool {
    &&& chain_hits(g, d, s, m)
    &&& forall|j: nat| j < m ==> #[trigger] pred_steps(g, d, j) != s
}

/// One more predecessor step goes to the predecessor of where `k` steps lead.
pub proof fn lemma_pred_steps_succ(g: Seq<Vertex>, v: int, k: nat)
    ensures
        pred_steps(g, v, k + 1) == pred_steps(g, g[v].best_verticie as int, k),
        pred_steps(g, v, k + 1) == g[pred_steps(g, v, k)].best_verticie as int,
    decreases k,
{
    if k > 0 {
        lemma_pred_steps_succ(g, g[v].best_verticie as int, (k - 1) as nat);
    }
}

/// The predecessor of `v` has an arc to `v` that completes a shortest path.
pub open spec fn predecessor_on_shortest(g: Seq<Vertex>, v: int) -> bool {
    let p = g[v].best_verticie as int;
    &&& 0 <= p < g.len()
    &&& exists|k: int| 0 <= k < g[p].arcs@.len() && (#[trigger] g[p].arcs@[k]).to == v && g[v].best_distance == g[p].best_distance + g[p].arcs@[k].distance
}


/// The distances the vertices hold.
pub open spec fn dists(g: Seq<Vertex>) -> Seq<i64> {
    g.map_values(|v: Vertex| v.best_distance)
}

/// The predecessors the vertices name.
pub open spec fn preds(g: Seq<Vertex>) -> Seq<u64> {
    g.map_values(|v: Vertex| v.best_verticie)
}

/// Where a search from `s` over `n` vertices starts: only the source reached,
/// every predecessor 0, the source alone in the frontier, no vertex being
/// scanned.
pub open spec fn search_start(n: nat, s: int) -> (Seq<i64>, Seq<u64>, Seq<SmallVertex>, Option<(int, int)>) {
    (
        Seq::new(n, |i: int| if i == s { 0i64 } else { UNREACHED }),
        Seq::new(n, |i: int| 0u64),
        seq![SmallVertex { id: s as usize, best_distance: 0 }],
        None,
    )
}

/// One step of a search over the arcs `adj`, from a state of distances,
/// predecessors, frontier, and the vertex being scanned with the index of its
/// next arc. With no vertex being scanned, the first frontier entry is taken;
/// it is passed over when its vertex has since been reached more cheaply.
/// Otherwise the next arc is tried: when it leads elsewhere and shortens the
/// distance of its end, that end takes the shorter distance, names the scanned
/// vertex as predecessor and enters the frontier. A state with nothing left
/// to do stays as it is.
pub open spec fn search_step(
    adj: Seq<Seq<Arc>>,
    st: (Seq<i64>, Seq<u64>, Seq<SmallVertex>, Option<(int, int)>),
) -> (Seq<i64>, Seq<u64>, Seq<SmallVertex>, Option<(int, int)>) {
    let (dist, pred, q, scan) = st;
    match scan {
        None => if q.len() == 0 {
            st
        } else if q[0].best_distance > dist[q[0].id as int] {
            (dist, pred, q.drop_first(), None)
        } else {
            (dist, pred, q.drop_first(), Some((q[0].id as int, 0int)))
        },
        Some((u, i)) => if i >= adj[u].len() {
            (dist, pred, q, None)
        } else {
            let v = adj[u][i].to as int;
            let cand = dist[u] + adj[u][i].distance;
            if v == u || cand >= dist[v] {
                (dist, pred, q, Some((u, i + 1)))
            } else {
                let nd = cand as i64;
                (
                    dist.update(v, nd),
                    pred.update(v, u as u64),
                    q.insert(push_position(q, nd) as int, SmallVertex { id: v as usize, best_distance: nd }),
                    Some((u, i + 1)),
                )
            }
        },
    }
}

/// The state of a search from `s` over the arcs `adj` after `k` steps.
pub open spec fn search_run(adj: Seq<Seq<Arc>>, s: int, k: nat) -> (
    Seq<i64>,
    Seq<u64>,
    Seq<SmallVertex>,
    Option<(int, int)>,
)
    decreases k,
{
    if k == 0 {
        search_start(adj.len(), s)
    } else {
        search_step(adj, search_run(adj, s, (k - 1) as nat))
    }
}

/// In the state after `k` steps of a search from `s` over `adj`, the arc being
/// tried, unless it leads back to the vertex being scanned, adds to the
/// distance of that vertex no more than `i64::MAX` allows.
pub open spec fn search_fits_at(adj: Seq<Seq<Arc>>, s: int, k: nat) -> bool {
    let st = search_run(adj, s, k);
    match st.3 {
        Some((u, i)) => 0 <= i < adj[u].len() && adj[u][i].to != u ==> st.0[u] + adj[u][i].distance
            <= i64::MAX,
        None => true,
    }
}

/// No sum that a search from `s` over `adj` forms goes past `i64::MAX`.
pub open spec fn search_sums_fit(adj: Seq<Seq<Arc>>, s: int) -> bool {
    forall|k: nat| #[trigger] search_fits_at(adj, s, k)
}

/// A search from `s` over `adj` ends after `k` steps, with the distances
/// `dist` and the predecessors `pred`.
pub open spec fn search_ends_with(adj: Seq<Seq<Arc>>, s: int, k: nat, dist: Seq<i64>, pred: Seq<u64>) -> bool {
    search_run(adj, s, k) == (dist, pred, Seq::<SmallVertex>::empty(), None::<(int, int)>)
}

/// A vertex index paired with the distance it was reached at: the entries of
/// the search frontier.
#[derive(Clone, Copy, PartialEq, Eq, Structural, Debug)]
pub struct SmallVertex {
    pub id: usize,
    pub best_distance: i64,
}

impl SmallVertex {
    pub fn new(id: usize, best_distance: i64) -> (s: SmallVertex)
        ensures
            s.id == id,
            s.best_distance == best_distance,
    {
        SmallVertex { id: id, best_distance: best_distance }
    }
}

/// Where `push` puts an entry of distance `d`: in front of the first entry whose
/// distance is at least `d`, or at the end when there is none.
pub open spec fn push_position(s: Seq<SmallVertex>, d: i64) -> nat
    decreases s.len(),
{
    if s.len() == 0 {
        0
    } else if s[0].best_distance >= d {
        0
    } else {
        1 + push_position(s.drop_first(), d)
    }
}

/// The entries are in nondecreasing order of distance.
pub open spec fn sorted_by_distance(s: Seq<SmallVertex>) -> bool {
    forall|i: int, j: int| 0 <= i <= j < s.len() ==> s[i].best_distance <= s[j].best_distance
}

/// Splicing `other` into `s` at position `k`.
pub open spec fn spliced(s: Seq<SmallVertex>, k: int, other: Seq<SmallVertex>) -> Seq<SmallVertex> {
    s.take(k) + other + s.skip(k)
}

/// The position a cursor at `p` reaches after `by` steps forward over a list of
/// length `len` with its ghost position at `len`.
pub open spec fn step_forward(p: int, by: int, len: int) -> int {
    (p + by) % (len + 1)
}

/// The position a cursor at `p` reaches after `by` steps backward.
pub open spec fn step_backward(p: int, by: int, len: int) -> int {
    (p - by) % (len + 1)
}

pub(crate) proof fn lemma_push_position_bound(s: Seq<SmallVertex>, d: i64)
    ensures
        push_position(s, d) <= s.len(),
    decreases s.len(),
{
    if s.len() > 0 {
        lemma_push_position_bound(s.drop_first(), d);
    }
}

proof fn lemma_push_position(s: Seq<SmallVertex>, d: i64, i: int)
    requires
        0 <= i <= s.len(),
        forall|j: int| 0 <= j < i ==> s[j].best_distance < d,
        i == s.len() || s[i].best_distance >= d,
    ensures
        push_position(s, d) == i,
    decreases s.len(),
{
    if s.len() > 0 && i > 0 {
        assert forall|j: int| 0 <= j < i - 1 implies s.drop_first()[j].best_distance < d by {
            assert(s.drop_first()[j] == s[j + 1]);
        }
        lemma_push_position(s.drop_first(), d, i - 1);
    }
}

/// A list of frontier entries, kept by `push` in order of distance.
pub struct LinkedList {
    items: Vec<SmallVertex>,
}

impl View for LinkedList {
    type V = Seq<SmallVertex>;

    closed spec fn view(&self) -> Seq<SmallVertex> {
        self.items@
    }
}

impl LinkedList {
    /// Returns an empty list.
    pub fn new() -> (l: LinkedList)
        ensures
            l@ == Seq::<SmallVertex>::empty(),
    {
        LinkedList { items: Vec::new() }
    }

    /// A mutable reference to the first entry, if there is one.
    pub fn front_mut(&mut self) -> (r: Option<&mut SmallVertex>)
        ensures
            r is None <==> old(self)@.len() == 0,
            r is None ==> final(self)@ == old(self)@,
            r matches Some(e) ==> *e == old(self)@[0] && final(self)@ == old(self)@.update(
                0,
                *final(e),
            ),
    {
        if self.items.len() == 0 {
            None
        } else {
            Some(&mut self.items[0])
        }
    }

    /// Inserts `elem` in front of the first entry whose distance is at least
    /// that of `elem`.
    pub fn push(&mut self, elem: SmallVertex)
        ensures
            final(self)@ == old(self)@.insert(push_position(old(self)@, elem.best_distance) as int, elem),
    {
        let n = self.items.len();
        let mut i: usize = 0;
        while i < n && self.items[i].best_distance < elem.best_distance
            invariant
                n == self.items@.len(),
                i <= n,
                self.items@ == old(self)@,
                forall|j: int| 0 <= j < i ==> self.items@[j].best_distance < elem.best_distance,
            decreases n - i,
        {
            i = i + 1;
        }
        proof {
            lemma_push_position(self.items@, elem.best_distance, i as int);
        }
        self.items.insert(i, elem);
    }

    /// Removes and returns the first entry.
    pub fn pop(&mut self) -> (r: Option<SmallVertex>)
        ensures
            old(self)@.len() == 0 ==> r is None && final(self)@ == old(self)@,
            old(self)@.len() > 0 ==> r == Some(old(self)@[0]) && final(self)@ == old(self)@.drop_first(),
    {
        self.pop_front()
    }

    /// Appends `elem` at the back.
    pub fn push_back(&mut self, elem: SmallVertex)
        ensures
            final(self)@ == old(self)@.push(elem),
    {
        self.items.push(elem);
    }

    /// Puts `elem` at the front.
    pub fn push_front(&mut self, elem: SmallVertex)
        ensures
            final(self)@ == seq![elem] + old(self)@,
    {
        self.items.insert(0, elem);
        proof {
            assert(self.items@ =~= seq![elem] + old(self)@);
        }
    }

    /// Removes and returns the last entry.
    pub fn pop_back(&mut self) -> (r: Option<SmallVertex>)
        ensures
            old(self)@.len() == 0 ==> r is None && final(self)@ == old(self)@,
            old(self)@.len() > 0 ==> r == Some(old(self)@.last()) && final(self)@
                == old(self)@.drop_last(),
    {
        self.items.pop()
    }

    /// Removes and returns the first entry.
    pub fn pop_front(&mut self) -> (r: Option<SmallVertex>)
        ensures
            old(self)@.len() == 0 ==> r is None && final(self)@ == old(self)@,
            old(self)@.len() > 0 ==> r == Some(old(self)@[0]) && final(self)@ == old(self)@.drop_first(),
    {
        if self.items.len() == 0 {
            None
        } else {
            let e = self.items.remove(0);
            proof {
                assert(self.items@ =~= old(self)@.drop_first());
            }
            Some(e)
        }
    }

    /// The first entry, if there is one.
    pub fn front(&self) -> (r: Option<&SmallVertex>)
        ensures
            r is None <==> self@.len() == 0,
            r matches Some(e) ==> *e == self@[0],
    {
        if self.items.len() == 0 {
            None
        } else {
            Some(&self.items[0])
        }
    }

    /// The last entry, if there is one.
    pub fn back(&self) -> (r: Option<&SmallVertex>)
        ensures
            r is None <==> self@.len() == 0,
            r matches Some(e) ==> *e == self@.last(),
    {
        let n = self.items.len();
        if n == 0 {
            None
        } else {
            Some(&self.items[n - 1])
        }
    }

    /// Inserts `elem` so that it stands at `index`.
    pub fn insert(&mut self, index: usize, elem: SmallVertex)
        requires
            index <= old(self)@.len(),
        ensures
            final(self)@ == old(self)@.insert(index as int, elem),
    {
        self.items.insert(index, elem);
    }

    /// Removes and returns the entry at `index`, or gives `None` when there is
    /// no such entry.
    pub fn remove(&mut self, index: usize) -> (r: Option<SmallVertex>)
        ensures
            index >= old(self)@.len() ==> r is None && final(self)@ == old(self)@,
            index < old(self)@.len() ==> r == Some(old(self)@[index as int]) && final(self)@
                == old(self)@.remove(index as int),
    {
        if index >= self.items.len() {
            None
        } else {
            Some(self.items.remove(index))
        }
    }

    /// Moves all entries of `other` to the back of this list.
    pub fn append(&mut self, other: &mut LinkedList)
        ensures
            final(self)@ == old(self)@ + old(other)@,
            final(other)@ == Seq::<SmallVertex>::empty(),
    {
        self.items.append(&mut other.items);
    }

    /// Moves all entries of `other` into this list at the position a cursor
    /// reaches after `index` steps from the front.
    pub fn splice(&mut self, index: usize, other: &mut LinkedList)
        ensures
            final(self)@ == spliced(
                old(self)@,
                step_forward(0, index as int, old(self)@.len() as int),
                old(other)@,
            ),
            final(other)@ == Seq::<SmallVertex>::empty(),
    {
        let mut c = self.cursor();
        c.seek_forward(index);
        c.splice(other);
    }

    /// The number of entries.
    pub fn len(&self) -> (n: usize)
        ensures
            n == self@.len(),
    {
        self.items.len()
    }

    /// Whether there are no entries.
    pub fn is_empty(&self) -> (b: bool)
        ensures
            b <==> self@.len() == 0,
    {
        self.items.len() == 0
    }

    /// Removes all entries.
    pub fn clear(&mut self)
        ensures
            final(self)@ == Seq::<SmallVertex>::empty(),
    {
        while !self.is_empty()
            invariant_except_break
                true,
            ensures
                self@.len() == 0,
            decreases self@.len(),
        {
            self.pop_front();
        }
        proof {
            assert(self@ =~= Seq::<SmallVertex>::empty());
        }
    }

    /// A cursor in front of the first entry.
    pub fn cursor(&mut self) -> (c: Cursor)
        ensures
            c.index == 0,
            *c.list == *old(self),
            *final(self) == *final(c.list),
    {
        Cursor { list: self, index: 0 }
    }
}

impl Default for LinkedList {
    fn default() -> (l: LinkedList)
        ensures
            l@ == Seq::<SmallVertex>::empty(),
    {
        LinkedList::new()
    }
}

/// A position in a list: `index` entries stand in front of it; at `index ==
/// len` it stands on the ghost position behind the last entry.
pub struct Cursor<'a> {
    pub list: &'a mut LinkedList,
    pub index: usize,
}

impl<'a> Cursor<'a> {
    /// The cursor stands at a position of its list.
    pub open spec fn wf(&self) -> bool {
        self.index <= self.list@.len()
    }

    /// Moves the cursor in front of the first entry.
    pub fn reset(&mut self)
        ensures
            final(self).index == 0,
            *final(self).list == *old(self).list,
            *final(final(self).list) == *final(old(self).list),
    {
        self.index = 0;
    }

    /// A mutable reference to the entry after the cursor, if there is one.
    pub fn peek_next(&mut self) -> (r: Option<&mut SmallVertex>)
        requires
            old(self).wf(),
        ensures
            final(self).index == old(self).index,
            *final(final(self).list) == *final(old(self).list),
            r is None <==> old(self).index == old(self).list@.len(),
            r is None ==> final(self).list@ == old(self).list@,
            r matches Some(e) ==> *e == old(self).list@[old(self).index as int] && final(self).list@ == old(self).list@.update(old(self).index as int, *final(e)),
    {
        let i = self.index;
        if i == self.list.items.len() {
            None
        } else {
            Some(&mut self.list.items[i])
        }
    }

    /// Steps over the entry after the cursor and returns it; from the ghost
    /// position it moves to the front and gives `None`.
    pub fn next(&mut self) -> (r: Option<&mut SmallVertex>)
        requires
            old(self).wf(),
        ensures
            final(self).wf(),
            *final(final(self).list) == *final(old(self).list),
            final(self).index == step_forward(
                old(self).index as int,
                1,
                old(self).list@.len() as int,
            ),
            r is None <==> old(self).index == old(self).list@.len(),
            r is None ==> final(self).list@ == old(self).list@,
            r matches Some(e) ==> *e == old(self).list@[old(self).index as int] && final(self).list@ == old(self).list@.update(old(self).index as int, *final(e)),
    {
        let i = self.index;
        let ghost m: int = self.list@.len() as int + 1;
        if i == self.list.items.len() {
            proof {
                vstd::arithmetic::div_mod::lemma_mod_self_0(m);
            }
            self.index = 0;
            None
        } else {
            proof {
                vstd::arithmetic::div_mod::lemma_small_mod((i + 1) as nat, m as nat);
            }
            self.index = i + 1;
            Some(&mut self.list.items[i])
        }
    }

    /// Steps back over the entry in front of the cursor and returns it; from the
    /// front it moves to the ghost position and gives `None`.
    pub fn prev(&mut self) -> (r: Option<&mut SmallVertex>)
        requires
            old(self).wf(),
        ensures
            final(self).wf(),
            *final(final(self).list) == *final(old(self).list),
            final(self).index == step_backward(
                old(self).index as int,
                1,
                old(self).list@.len() as int,
            ),
            r is None <==> old(self).index == 0,
            r is None ==> final(self).list@ == old(self).list@,
            r matches Some(e) ==> *e == old(self).list@[old(self).index - 1] && final(self).list@ == old(self).list@.update(old(self).index - 1, *final(e)),
    {
        let i = self.index;
        let ghost m: int = self.list@.len() as int + 1;
        if i == 0 {
            proof {
                vstd::arithmetic::div_mod::lemma_mod_add_multiples_vanish(-1, m);
                vstd::arithmetic::div_mod::lemma_small_mod((m - 1) as nat, m as nat);
            }
            self.index = self.list.items.len();
            None
        } else {
            proof {
                vstd::arithmetic::div_mod::lemma_small_mod((i - 1) as nat, m as nat);
            }
            self.index = i - 1;
            Some(&mut self.list.items[i - 1])
        }
    }

    /// Inserts `elem` right after the cursor, which stays where it is, so that
    /// `next` yields `elem`.
    pub fn insert(&mut self, elem: SmallVertex)
        requires
            old(self).wf(),
        ensures
            final(self).wf(),
            final(self).index == old(self).index,
            *final(final(self).list) == *final(old(self).list),
            final(self).list@ == old(self).list@.insert(old(self).index as int, elem),
    {
        let i = self.index;
        self.list.items.insert(i, elem);
    }

    /// Removes and returns the entry after the cursor; `None` at the ghost
    /// position.
    pub fn remove(&mut self) -> (r: Option<SmallVertex>)
        requires
            old(self).wf(),
        ensures
            final(self).wf(),
            final(self).index == old(self).index,
            *final(final(self).list) == *final(old(self).list),
            old(self).index == old(self).list@.len() ==> r is None && final(self).list@ == old(self).list@,
            old(self).index < old(self).list@.len() ==> r == Some(
                old(self).list@[old(self).index as int],
            ) && final(self).list@ == old(self).list@.remove(old(self).index as int),
    {
        let i = self.index;
        if i == self.list.items.len() {
            None
        } else {
            Some(self.list.items.remove(i))
        }
    }

    /// Cuts the list at the cursor: the entries after it are returned as a new
    /// list and the cursor is left on the ghost position of what remains.
    pub fn split(&mut self) -> (r: LinkedList)
        requires
            old(self).wf(),
        ensures
            final(self).wf(),
            final(self).index == old(self).index,
            *final(final(self).list) == *final(old(self).list),
            final(self).list@ == old(self).list@.take(old(self).index as int),
            r@ == old(self).list@.skip(old(self).index as int),
    {
        let i = self.index;
        let rest = self.list.items.split_off(i);
        proof {
            assert(rest@ =~= old(self).list@.skip(i as int));
        }
        LinkedList { items: rest }
    }

    /// Moves all entries of `other` in right after the cursor, which stays
    /// where it is.
    pub fn splice(&mut self, other: &mut LinkedList)
        requires
            old(self).wf(),
        ensures
            final(self).wf(),
            final(self).index == old(self).index,
            *final(final(self).list) == *final(old(self).list),
            final(self).list@ == spliced(old(self).list@, old(self).index as int, old(other)@),
            final(other)@ == Seq::<SmallVertex>::empty(),
    {
        if other.is_empty() {
            proof {
                assert(spliced(self.list@, self.index as int, other@) =~= self.list@);
            }
            return ;
        }
        let i = self.index;
        let mut rest = self.list.items.split_off(i);
        self.list.items.append(&mut other.items);
        self.list.items.append(&mut rest);
        proof {
            assert(self.list@ =~= spliced(old(self).list@, i as int, old(other)@));
            assert(other@ =~= Seq::<SmallVertex>::empty());
        }
    }

    /// Calls `next` `by` times.
    pub fn seek_forward(&mut self, by: usize)
        requires
            old(self).wf(),
        ensures
            final(self).wf(),
            *final(final(self).list) == *final(old(self).list),
            final(self).list@ == old(self).list@,
            final(self).index == step_forward(
                old(self).index as int,
                by as int,
                old(self).list@.len() as int,
            ),
    {
        let ghost len = self.list@.len() as int;
        proof {
            vstd::arithmetic::div_mod::lemma_small_mod(self.index as nat, (len + 1) as nat);
        }
        let mut k: usize = 0;
        while k < by
            invariant
                self.wf(),
                old(self).index <= len,
                k <= by,
                self.list@ == old(self).list@,
                len == old(self).list@.len(),
                *final(self.list) == *final(old(self).list),
                self.index == step_forward(old(self).index as int, k as int, len),
            decreases by - k,
        {
            self.next();
            proof {
                lemma_step_forward_succ(old(self).index as int, k as int, len);
            }
            k = k + 1;
        }
    }

    /// Calls `prev` `by` times.
    pub fn seek_backward(&mut self, by: usize)
        requires
            old(self).wf(),
        ensures
            final(self).wf(),
            *final(final(self).list) == *final(old(self).list),
            final(self).list@ == old(self).list@,
            final(self).index == step_backward(
                old(self).index as int,
                by as int,
                old(self).list@.len() as int,
            ),
    {
        let ghost len = self.list@.len() as int;
        proof {
            vstd::arithmetic::div_mod::lemma_small_mod(self.index as nat, (len + 1) as nat);
        }
        let mut k: usize = 0;
        while k < by
            invariant
                self.wf(),
                old(self).index <= len,
                k <= by,
                self.list@ == old(self).list@,
                len == old(self).list@.len(),
                *final(self.list) == *final(old(self).list),
                self.index == step_backward(old(self).index as int, k as int, len),
            decreases by - k,
        {
            self.prev();
            proof {
                lemma_step_backward_succ(old(self).index as int, k as int, len);
            }
            k = k + 1;
        }
    }
}

proof fn lemma_step_forward_succ(p: int, k: int, len: int)
    requires
        0 <= p <= len,
        0 <= k,
    ensures
        step_forward(step_forward(p, k, len), 1, len) == step_forward(p, k + 1, len),
{
    vstd::arithmetic::div_mod::lemma_add_mod_noop_right(1, p + k, len + 1);
}

proof fn lemma_step_backward_succ(p: int, k: int, len: int)
    requires
        0 <= p <= len,
        0 <= k,
    ensures
        step_backward(step_backward(p, k, len), 1, len) == step_backward(p, k + 1, len),
{
    let m = len + 1;
    vstd::arithmetic::div_mod::lemma_sub_mod_noop(p - k, 1, m);
    if len == 0 {
        vstd::arithmetic::div_mod::lemma_mod_bound((p - k) % m - 1, m);
        vstd::arithmetic::div_mod::lemma_mod_bound(p - k - 1, m);
    } else {
        vstd::arithmetic::div_mod::lemma_small_mod(1, m as nat);
    }
}

} // verus!

verus! {

impl Graph {
    /// Returns a graph without vertices.
    pub fn new() -> (g: Graph)
        ensures
            g.verticies@ == Seq::<Vertex>::empty(),
    {
        Graph { verticies: Vec::new() }
    }

    /// Appends a vertex.
    pub fn add_vertex(&mut self, v: Vertex)
        ensures
            final(self).verticies@ == old(self).verticies@.push(v),
    {
        self.verticies.push(v);
    }

    /// Removes every vertex with the given id, keeping the others in order.
    pub fn remove_vertex(&mut self, id: u64)
        ensures
            final(self).verticies@ == old(self).verticies@.filter(vertex_other_than(id)),
            final(self).verticies@ == old(self).verticies@.filter(|v: Vertex| v.id != id),
            forall|j: int| 0 <= j < final(self).verticies@.len() ==> (#[trigger] final(self).verticies@[j]).id != id,
            forall|v: Vertex|
                v.id != id ==> #[trigger] final(self).verticies@.to_multiset().count(v)
                    == old(self).verticies@.to_multiset().count(v),
    {
        let mut old_vs: Vec<Vertex> = Vec::new();
        std::mem::swap(&mut old_vs, &mut self.verticies);
        let ghost orig = old_vs@;
        let n = old_vs.len();
        let mut kept: Vec<Vertex> = Vec::new();
        let mut i: usize = 0;
        while i < n
            invariant
                n == old_vs@.len(),
                orig.len() == n,
                i <= n,
                forall|j: int| i <= j < n ==> old_vs@[j] == orig[j],
                kept@ == orig.take(i as int).filter(vertex_other_than(id)),
            decreases n - i,
        {
            let mut taken = Vertex::new(0);
            std::mem::swap(&mut taken, &mut old_vs[i]);
            proof {
                assert(orig.take(i + 1).drop_last() =~= orig.take(i as int));
                reveal(Seq::filter);
            }
            if taken.id != id {
                kept.push(taken);
            }
            i = i + 1;
        }
        proof {
            assert(orig.take(n as int) =~= orig);
            law_remove_vertex_keeps_the_others(orig, id);
        }
        self.verticies = kept;
    }

    /// Marks every vertex unreached with predecessor 0, and the source reached
    /// at distance 0.
    fn setup(&mut self, source: u64)
        requires
            (source as int) < old(self).verticies@.len(),
        ensures
            same_shape(final(self).verticies@, old(self).verticies@),
            forall|i: int| 0 <= i < final(self).verticies@.len() ==> (#[trigger] final(self).verticies@[i]).best_verticie == 0
                && final(self).verticies@[i].best_distance == (if i == source { 0 } else { UNREACHED }),
    {
        let n = self.verticies.len();
        let mut i: usize = 0;
        while i < n
            invariant
                n == self.verticies@.len(),
                i <= n,
                same_shape(self.verticies@, old(self).verticies@),
                forall|j: int| 0 <= j < i ==> (#[trigger] self.verticies@[j]).best_verticie == 0
                    && self.verticies@[j].best_distance == UNREACHED,
            decreases n - i,
        {
            self.verticies[i].best_distance = UNREACHED;
            self.verticies[i].best_verticie = 0;
            i = i + 1;
        }
        self.verticies[source as usize].best_distance = 0;
    }
}

/// The vertices that survive `remove_vertex(id)`.
pub open spec fn vertex_other_than(id: u64) -> spec_fn(Vertex) -> bool {
    |v: Vertex| v.id != id
}

/// `remove_vertex(id)` keeps exactly the vertices whose id is not `id`: none
/// of the vertices left has that id, every vertex with another id is left as
/// often as it was there, and the vertices left keep their order.
pub proof fn law_remove_vertex_keeps_the_others(vs: Seq<Vertex>, id: u64)
    ensures
        forall|j: int|
            0 <= j < vs.filter(vertex_other_than(id)).len() ==> (#[trigger] vs.filter(vertex_other_than(id))[j]).id
                != id,
        forall|v: Vertex|
            v.id != id ==> #[trigger] vs.filter(vertex_other_than(id)).to_multiset().count(v)
                == vs.to_multiset().count(v),
        forall|v: Vertex| v.id == id ==> #[trigger] vs.filter(vertex_other_than(id)).to_multiset().count(v) == 0,
        vs.filter(vertex_other_than(id)) == vs.filter(|v: Vertex| v.id != id),
{
    broadcast use vstd::seq_lib::group_filter_ensures;

    let f = vertex_other_than(id);
    assert forall|j: int| 0 <= j < vs.filter(f).len() implies (#[trigger] vs.filter(f)[j]).id != id by {
        vs.lemma_filter_pred(f, j);
    }
    assert forall|v: Vertex| v.id != id implies #[trigger] vs.filter(f).to_multiset().count(v) == vs.to_multiset().count(v) by {
        lemma_filter_counts(vs, f, v);
    }
    assert forall|v: Vertex| v.id == id implies #[trigger] vs.filter(f).to_multiset().count(v) == 0 by {
        lemma_filter_counts(vs, f, v);
    }
    assert(f =~= (|v: Vertex| v.id != id));
}

} // verus!
verus! {

impl Graph {
    /// Follows the predecessors back from the destination to the source and
    /// reports that chain, source first, with the destination's distance.
    fn best_path(&self, source: u64, destination: u64, touch_dest: bool) -> (b: BestPath)
        requires
            (destination as int) < self.verticies@.len(),
            chain_reaches(self.verticies@, destination as int, source as int),
        ensures
            b.success == touch_dest,
            b.distance == self.verticies@[destination as int].best_distance,
            exists|m: nat|
                {
                    &&& chain_to(self.verticies@, destination as int, source as int, m)
                    &&& b.path@.len() == m + 1
                    &&& forall|k: int|
                        0 <= k <= m ==> #[trigger] b.path@[k] as int == pred_steps(
                            self.verticies@,
                            destination as int,
                            (m - k) as nat,
                        )
                },
    {
        let ghost g = self.verticies@;
        let ghost s = source as int;
        let ghost t = destination as int;
        let ghost bound: nat = choose|m: nat| chain_hits(g, t, s, m);
        let n = self.verticies.len();
        let mut rev: Vec<u64> = Vec::new();
        let mut vid: u64 = destination;
        rev.push(vid);
        let ghost mut j: nat = 0;
        while vid != source
            invariant
                g == self.verticies@,
                n == g.len(),
                s == source,
                t == destination,
                chain_hits(g, t, s, bound),
                j <= bound,
                vid as int == pred_steps(g, t, j),
                forall|i: nat| i < j ==> #[trigger] pred_steps(g, t, i) != s,
                rev@.len() == j + 1,
                forall|i: int| 0 <= i <= j ==> #[trigger] rev@[i] as int == pred_steps(g, t, i as nat),
            decreases bound - j,
        {
            proof {
                assert(0 <= pred_steps(g, t, j) < g.len());
                if j == bound {
                    assert(false);
                }
                lemma_pred_steps_succ(g, t, j);
            }
            vid = self.verticies[vid as usize].best_verticie;
            rev.push(vid);
            proof {
                assert forall|i: nat| i < j + 1 implies #[trigger] pred_steps(g, t, i) != s by {
                    if i < j {
                    } else {
                        assert(i == j);
                    }
                }
                j = j + 1;
            }
        }
        proof {
            assert(forall|i: nat| i <= j ==> #[trigger] pred_steps(g, t, i) == pred_steps(g, t, i) && i <= bound);
            assert(chain_to(g, t, s, j));
        }
        let m = rev.len();
        let mut out: Vec<u64> = Vec::new();
        let mut k: usize = m;
        while k > 0
            invariant
                k <= m,
                m == rev@.len(),
                out@.len() == m - k,
                forall|i: int| 0 <= i < out@.len() ==> out@[i] == rev@[m - 1 - i],
            decreases k,
        {
            k = k - 1;
            out.push(rev[k]);
        }
        let distance = self.verticies[destination as usize].best_distance;
        let b = BestPath { success: touch_dest, distance: distance, path: out };
        proof {
            assert forall|i: int| 0 <= i <= j implies #[trigger] b.path@[i] as int == pred_steps(
                g,
                t,
                (j - i) as nat,
            ) by {
                assert(b.path@[i] == rev@[j - i]);
            }
        }
        b
    }
}

} // verus!

verus! {

impl Graph {
    /// Runs the search from `source`, leaving in every vertex its distance and
    /// predecessor; reports whether the destination was reached, and whether
    /// every sum the search formed stayed within `i64`. It stops at the first
    /// sum that would not.
    fn run_search(&mut self, source: u64, destination: u64) -> (res: (bool, bool, Ghost<Seq<int>>, Ghost<Seq<Seq<int>>>))
        requires
            (source as int) < old(self).verticies@.len(),
            indexed_from(old(self).verticies@, source as int),
            routes_bounded_below(arcs_of(old(self).verticies@), source as int),
        ensures
            same_shape(final(self).verticies@, old(self).verticies@),
            res.1 == search_sums_fit(arcs_of(old(self).verticies@), source as int),
            res.1 ==> {
                &&& search_result(final(self).verticies@, source as int)
                &&& res.2@.len() == final(self).verticies@.len()
                &&& res.3@.len() == final(self).verticies@.len()
                &&& forall|v: int|
                    0 <= v < final(self).verticies@.len() ==> #[trigger] pred_final(
                        final(self).verticies@,
                        source as int,
                        res.2@,
                        v,
                    )
                &&& forall|v: int|
                    0 <= v < final(self).verticies@.len() ==> #[trigger] chain_ok(
                        final(self).verticies@,
                        source as int,
                        res.3@,
                        v,
                    )
                &&& res.0 == ((destination as int) < final(self).verticies@.len() && destination != source
                    && final(self).verticies@[destination as int].best_distance < UNREACHED)
                &&& exists|k: nat|
                    search_ends_with(
                        arcs_of(old(self).verticies@),
                        source as int,
                        k,
                        dists(final(self).verticies@),
                        preds(final(self).verticies@),
                    )
            },
    {
        let ghost g0 = self.verticies@;
        let ghost adj = arcs_of(g0);
        let ghost s = source as int;
        let ghost dst = destination as int;
        let n = self.verticies.len();
        let mut visiting = LinkedList::new();
        let mut touch_dest = false;
        self.setup(source);
        visiting.push(SmallVertex { id: source as usize, best_distance: 0 });
        let ghost mut steps: nat = 0;
        proof {
            assert(visiting@ =~= seq![SmallVertex { id: source as usize, best_distance: 0 }]);
            lemma_search_init(self.verticies@, g0, s, visiting@);
            assert(dists(self.verticies@) =~= search_start(n as nat, s).0);
            assert(preds(self.verticies@) =~= search_start(n as nat, s).1);
        }
        let ghost mut pa: Seq<int> = Seq::new(n as nat, |i: int| 0int);
        let ghost mut ch: Seq<Seq<int>> = Seq::new(n as nat, |i: int| seq![s]);
        let ghost mut wv: Seq<Seq<int>> = Seq::new(n as nat, |i: int| seq![s]);
        let ghost mut wk: Seq<Seq<int>> = Seq::new(n as nat, |i: int| Seq::<int>::empty());
        while !visiting.is_empty()
            invariant
                n == self.verticies@.len(),
                s == source,
                dst == destination,
                adj == arcs_of(g0),
                search_inv(self.verticies@, g0, adj, s, visiting@, pa, ch, wv, wk),
                forall|v: int| 0 <= v < n ==> #[trigger] pending_or_settled(self.verticies@, visiting@, v),
                touch_dest == (dst < n && dst != s && self.verticies@[dst].best_distance < UNREACHED),
                search_run(adj, s, steps) == (dists(self.verticies@), preds(self.verticies@), visiting@, None::<(int, int)>),
                forall|j: nat| j < steps ==> #[trigger] search_fits_at(adj, s, j),
                g0 == old(self).verticies@,
            decreases total_best(self.verticies@), visiting@.len(),
        {
            let ghost t0 = total_best(self.verticies@);
            let ghost q0 = visiting@;
            proof {
                lemma_search_pop(self.verticies@, g0, adj, s, q0, pa, ch, wv, wk);
                lemma_search_facts(self.verticies@, g0, adj, s, q0.drop_first(), pa, ch, wv, wk);
            }
            let visitor = visiting.pop().unwrap();
            let u = visitor.id;
            let d = visitor.best_distance;
            proof {
                assert(visitor == q0[0]);
                assert(dists(self.verticies@)[u as int] == self.verticies@[u as int].best_distance);
                assert(search_run(adj, s, steps + 1) == search_step(adj, search_run(adj, s, steps)));
            }
            proof {
                assert(search_fits_at(adj, s, steps));
            }
            if d > self.verticies[u].best_distance {
                proof {
                    steps = steps + 1;
                }
                continue;
            }
            proof {
                steps = steps + 1;
            }
            let l = self.verticies[u].arcs.len();
            let mut i: usize = 0;
            while i < l
                invariant
                    n == self.verticies@.len(),
                    s == source,
                    dst == destination,
                    adj == arcs_of(g0),
                    search_inv(self.verticies@, g0, adj, s, visiting@, pa, ch, wv, wk),
                    touch_dest == (dst < n && dst != s && self.verticies@[dst].best_distance
                        < UNREACHED),
                    u < n,
                    d == self.verticies@[u as int].best_distance,
                    d < UNREACHED,
                    l == self.verticies@[u as int].arcs@.len(),
                    i <= l,
                    forall|v: int|
                        0 <= v < n && v != u ==> #[trigger] pending_or_settled(
                            self.verticies@,
                            visiting@,
                            v,
                        ),
                    forall|k: int| 0 <= k < i ==> #[trigger] arc_relaxed(self.verticies@, u as int, k),
                    total_best(self.verticies@) < t0 || visiting@.len() == q0.len() - 1,
                    total_best(self.verticies@) <= t0,
                    search_run(adj, s, steps) == (
                        dists(self.verticies@),
                        preds(self.verticies@),
                        visiting@,
                        Some((u as int, i as int)),
                    ),
                    forall|j: nat| j < steps ==> #[trigger] search_fits_at(adj, s, j),
                    g0 == old(self).verticies@,
                decreases l - i,
            {
                proof {
                    lemma_search_facts(self.verticies@, g0, adj, s, visiting@, pa, ch, wv, wk);
                    lemma_search_offer(self.verticies@, g0, adj, s, visiting@, pa, ch, wv, wk,
                        u as int, i as int);
                }
                let to = self.verticies[u].arcs[i].to;
                let w = self.verticies[u].arcs[i].distance;
                let v = to as usize;
                proof {
                    assert(adj[u as int] == self.verticies@[u as int].arcs@);
                    assert(dists(self.verticies@)[u as int] == d);
                    assert(dists(self.verticies@)[v as int] == self.verticies@[v as int].best_distance);
                    assert(search_run(adj, s, steps + 1) == search_step(adj, search_run(adj, s, steps)));
                }
                if v == u {
                    proof {
                        assert(arc_relaxed(self.verticies@, u as int, i as int));
                        assert(search_fits_at(adj, s, steps));
                        steps = steps + 1;
                    }
                    i = i + 1;
                    continue;
                }
                if w > 0 && d > i64::MAX - w {
                    proof {
                        assert(!search_fits_at(adj, s, steps));
                    }
                    return (touch_dest, false, Ghost(pa), Ghost(ch));
                }
                let sum = d + w;
                proof {
                    assert(search_fits_at(adj, s, steps));
                }
                if sum >= self.verticies[v].best_distance {
                    proof {
                        assert(arc_relaxed(self.verticies@, u as int, i as int));
                        steps = steps + 1;
                    }
                    i = i + 1;
                    continue;
                }
                let nd = sum;
                let ghost gp = self.verticies@;
                let ghost qp = visiting@;
                self.verticies[v].best_distance = nd;
                self.verticies[v].best_verticie = u as u64;
                proof {
                    lemma_search_relax(gp, self.verticies@, g0, adj, s, qp, pa, ch, wv, wk,
                        u as int, i as int, v as int, nd);
                    pa = pa.update(v as int, i as int);
                    ch = rerouted(ch, v as int, u as int);
                    wv = wv.update(v as int, wv[u as int].push(v as int));
                    wk = wk.update(v as int, wk[u as int].push(i as int));
                    assert(self.verticies@[v as int].id == v);
                }
                if to == destination {
                    touch_dest = true;
                }
                let vid = self.verticies[v].id as usize;
                visiting.push(SmallVertex { id: vid, best_distance: nd });
                proof {
                    assert(dists(self.verticies@) =~= dists(gp).update(v as int, nd));
                    assert(preds(self.verticies@) =~= preds(gp).update(v as int, u as u64));
                    steps = steps + 1;
                }
                i = i + 1;
            }
            proof {
                assert(search_run(adj, s, steps + 1) == search_step(adj, search_run(adj, s, steps)));
                assert(search_fits_at(adj, s, steps));
                steps = steps + 1;
            }
            proof {
                let g = self.verticies@;
                assert forall|v: int| 0 <= v < n implies #[trigger] pending_or_settled(
                    g,
                    visiting@,
                    v,
                ) by {
                    if v == u {
                        assert forall|k: int| 0 <= k < g[v].arcs@.len() implies #[trigger] arc_relaxed(
                            g,
                            v,
                            k,
                        ) by {}
                    }
                }
                lemma_search_facts(self.verticies@, g0, adj, s, visiting@, pa, ch, wv, wk);
            }
        }
        proof {
            lemma_search_done(self.verticies@, g0, adj, s, visiting@, pa, ch, wv, wk);
            assert(visiting@ =~= Seq::<SmallVertex>::empty());
            assert(search_ends_with(adj, s, steps, dists(self.verticies@), preds(self.verticies@)));
            assert forall|j: nat| #[trigger] search_fits_at(adj, s, j) by {
                if j >= steps {
                    lemma_run_stays(adj, s, steps, j);
                }
            }
            let g = self.verticies@;
            assert forall|v: int| 0 <= v < n && #[trigger] g[v].best_distance < UNREACHED implies leads_back(
                g,
                v,
                s,
            ) by {
                lemma_leads_back(g, s, pa, ch, v);
            }
        }
        (touch_dest, true, Ghost(pa), Ghost(ch))
    }

    /// Whether a search from `source` keeps every sum it forms within `i64`,
    /// as `shortest` asks. It runs that search, so the vertices are left with
    /// the distances and predecessors it reached when it stopped.
    pub fn sums_fit(&mut self, source: u64) -> (b: bool)
        requires
            (source as int) < old(self).verticies@.len(),
            indexed_from(old(self).verticies@, source as int),
            routes_bounded_below(arcs_of(old(self).verticies@), source as int),
        ensures
            same_shape(final(self).verticies@, old(self).verticies@),
            b == search_sums_fit(arcs_of(old(self).verticies@), source as int),
    {
        let r = self.run_search(source, source);
        r.1
    }

    /// Searches the shortest path from `source` to `destination`, leaving in
    /// every vertex its distance from `source` and its predecessor on a
    /// shortest path. Gives `None` when the destination is the source, is no
    /// vertex, or no path to it is shorter than `UNREACHED`.
    ///
    /// The path reported is the chain of predecessors from the destination back
    /// to the source, read from the source; no vertex occurs in it twice. What
    /// the vertices hold at the end is where `search_step`, run from
    /// `search_start`, comes to rest, so a second search gives the same answer.
    ///
    /// Arcs may be negative. No path from `source` may weigh less than
    /// `i64::MIN`: with a cycle of negative weight in reach the search would
    /// lower distances until they overflow. No sum of a distance and an arc that
    /// the search forms may pass `i64::MAX` either: that addition would
    /// overflow. `sums_fit` tells whether it does.
    ///
    /// Every vertex that the search can reach from `source`, below the
    /// unreached mark, must have arcs into the graph and, unless it is the
    /// source, carry its index as id. An arc that leads outside the graph, or
    /// an id past its end, would be an index out of bounds. A reached vertex at
    /// index `i` with another id `j` inside the graph would be queued as `j`:
    /// the arcs of `j` would then be tried from the distance of `i`, so the
    /// distances left behind need not be the weights of any paths of the graph,
    /// nor the predecessors lead back to the source; such graphs are left out.
    pub fn shortest(&mut self, source: u64, destination: u64) -> (r: Option<BestPath>)
        requires
            (source as int) < old(self).verticies@.len(),
            indexed_from(old(self).verticies@, source as int),
            routes_bounded_below(arcs_of(old(self).verticies@), source as int),
            search_sums_fit(arcs_of(old(self).verticies@), source as int),
        ensures
            same_shape(final(self).verticies@, old(self).verticies@),
            search_result(final(self).verticies@, source as int),
            forall|v: int|
                0 <= v < final(self).verticies@.len() && #[trigger] final(self).verticies@[v].best_distance
                    < UNREACHED ==> leads_back(final(self).verticies@, v, source as int),
            r is Some <==> ((destination as int) < old(self).verticies@.len() && destination != source
                && reachable_below_max(
                arcs_of(old(self).verticies@),
                source as int,
                destination as int,
            )),
            r matches Some(bp) ==> {
                &&& bp.success
                &&& bp.distance == final(self).verticies@[destination as int].best_distance
                &&& no_shorter_route(
                    arcs_of(old(self).verticies@),
                    source as int,
                    destination as int,
                    bp.distance as int,
                )
                &&& exists|ks: Seq<int>|
                    is_route(
                        arcs_of(old(self).verticies@),
                        path_ints(bp.path@),
                        ks,
                        source as int,
                        destination as int,
                    ) && path_weight(arcs_of(old(self).verticies@), path_ints(bp.path@), ks)
                        == bp.distance
                &&& exists|m: nat|
                    {
                        &&& chain_to(final(self).verticies@, destination as int, source as int, m)
                        &&& bp.path@.len() == m + 1
                        &&& forall|k: int|
                            0 <= k <= m ==> #[trigger] bp.path@[k] as int == pred_steps(
                                final(self).verticies@,
                                destination as int,
                                (m - k) as nat,
                            )
                    }
                &&& forall|i: int, j: int| 0 <= i < j < bp.path@.len() ==> bp.path@[i] != bp.path@[j]
            },
            exists|k: nat|
                search_ends_with(
                    arcs_of(old(self).verticies@),
                    source as int,
                    k,
                    dists(final(self).verticies@),
                    preds(final(self).verticies@),
                ),
    {
        let ghost g0 = self.verticies@;
        let ghost s = source as int;
        let ghost dst = destination as int;
        let n = self.verticies.len();
        let (touch_dest, fits, Ghost(pa), Ghost(ch)) = self.run_search(source, destination);
        proof {
            let g = self.verticies@;
            assert(fits);
            lemma_same_shape_arcs(g, g0);
            assert forall|v: int| 0 <= v < n && #[trigger] g[v].best_distance < UNREACHED implies leads_back(
                g,
                v,
                s,
            ) by {
                lemma_leads_back(g, s, pa, ch, v);
            }
        }
        if !touch_dest {
            return None;
        }
        let ghost g = self.verticies@;
        let ghost m: nat = (ch[dst].len() - 1) as nat;
        proof {
            lemma_chain_distinct(g, s, pa, ch, dst);
            assert forall|j: nat| j <= m implies 0 <= #[trigger] pred_steps(g, dst, j) < g.len() by {
                lemma_chain_facts(g, s, pa, ch, dst, j as int);
            }
            assert forall|j: nat| j < m implies #[trigger] pred_steps(g, dst, j) != s by {
                lemma_chain_facts(g, s, pa, ch, dst, j as int);
            }
            lemma_chain_facts(g, s, pa, ch, dst, m as int);
            assert(chain_hits(g, dst, s, m));
            assert(chain_to(g, dst, s, m));
        }
        let bp = self.best_path(source, destination, touch_dest);
        proof {
            let m2 = choose|m2: nat|
                {
                    &&& chain_to(g, dst, s, m2)
                    &&& bp.path@.len() == m2 + 1
                    &&& forall|k: int|
                        0 <= k <= m2 ==> #[trigger] bp.path@[k] as int == pred_steps(g, dst, (m2 - k) as nat)
                };
            if m2 < m {
                assert(pred_steps(g, dst, m2) != s);
            }
            if m < m2 {
                assert(pred_steps(g, dst, m) != s);
            }
            assert(m2 == m);
            let (rv, rk) = lemma_chain_route(g, s, pa, ch, dst, m as int);
            assert forall|k: int| 0 <= k <= m implies #[trigger] bp.path@[k] as int == ch[dst][m - k] by {
                lemma_chain_facts(g, s, pa, ch, dst, m - k);
            }
            assert(path_ints(bp.path@) =~= rv);
            lemma_same_shape_arcs(g, g0);
            assert(is_route(arcs_of(g0), path_ints(bp.path@), rk, s, dst));
            assert forall|i: int, j: int| 0 <= i < j < bp.path@.len() implies bp.path@[i] != bp.path@[j] by {
                assert(bp.path@[i] as int == ch[dst][m - i]);
                assert(bp.path@[j] as int == ch[dst][m - j]);
            }
        }
        Some(bp)
    }
}

} // verus!

verus! {

/// The ids and arcs of the vertices, in order.
pub open spec fn graph_shape(g: Seq<Vertex>) -> Seq<(u64, Seq<Arc>)> {
    g.map_values(|v: Vertex| (v.id, v.arcs@))
}

/// The arc an item `to,distance` of a line stands for, or why it stands for
/// none; `None` for an item that is only white space.
pub open spec fn parse_arc(item: Seq<char>) -> Result<Option<Arc>, ImportError> {
    let ti = trim(item);
    let parts = split(ti, ',');
    if ti.len() == 0 {
        Ok(None)
    } else if trim(parts[0]).len() == 0 || parts.len() < 2 || trim(parts[1]).len() == 0 {
        Err(ImportError::FileFormat)
    } else {
        match parse_u64_spec(parts[0]) {
            Err(k) => Err(ImportError::ParseI(k)),
            Ok(t) => match parse_i64_spec(parts[1]) {
                Err(k) => Err(ImportError::ParseI(k)),
                Ok(d) => Ok(Some(Arc { to: t, distance: d })),
            },
        }
    }
}

/// The arcs a list of items stands for; the first item in error decides.
pub open spec fn parse_arcs(items: Seq<Seq<char>>) -> Result<Seq<Arc>, ImportError>
    decreases items.len(),
{
    if items.len() == 0 {
        Ok(Seq::<Arc>::empty())
    } else {
        match parse_arcs(items.drop_last()) {
            Err(e) => Err(e),
            Ok(arcs) => match parse_arc(items.last()) {
                Err(e) => Err(e),
                Ok(None) => Ok(arcs),
                Ok(Some(a)) => Ok(arcs.push(a)),
            },
        }
    }
}

/// The vertex a line `id to,distance to,distance ...` stands for; `None` for
/// a line that is only white space.
pub open spec fn parse_line(line: Seq<char>) -> Result<Option<(u64, Seq<Arc>)>, ImportError> {
    let items = split(trim(line), ' ');
    if trim(items[0]).len() == 0 {
        Ok(None)
    } else {
        match parse_u64_spec(items[0]) {
            Err(k) => Err(ImportError::ParseI(k)),
            Ok(id) => match parse_arcs(items.drop_first()) {
                Err(e) => Err(e),
                Ok(arcs) => Ok(Some((id, arcs))),
            },
        }
    }
}

/// The vertices a list of lines stands for; the first line in error decides.
pub open spec fn parse_lines(lines: Seq<Seq<char>>) -> Result<Seq<(u64, Seq<Arc>)>, ImportError>
    decreases lines.len(),
{
    if lines.len() == 0 {
        Ok(Seq::<(u64, Seq<Arc>)>::empty())
    } else {
        match parse_lines(lines.drop_last()) {
            Err(e) => Err(e),
            Ok(vs) => match parse_line(lines.last()) {
                Err(e) => Err(e),
                Ok(None) => Ok(vs),
                Ok(Some(v)) => Ok(vs.push(v)),
            },
        }
    }
}

/// The vertices a text stands for: one line per vertex.
pub open spec fn parse_graph(text: Seq<char>) -> Result<Seq<(u64, Seq<Arc>)>, ImportError> {
    parse_lines(split(text, '\n'))
}

proof fn lemma_parse_arcs_err(items: Seq<Seq<char>>, k: int)
    requires
        0 <= k <= items.len(),
        parse_arcs(items.take(k)) is Err,
    ensures
        parse_arcs(items) == parse_arcs(items.take(k)),
    decreases items.len() - k,
{
    if k == items.len() {
        assert(items.take(k) =~= items);
    } else {
        assert(items.drop_last().take(k) =~= items.take(k));
        lemma_parse_arcs_err(items.drop_last(), k);
    }
}

proof fn lemma_parse_lines_err(lines: Seq<Seq<char>>, k: int)
    requires
        0 <= k <= lines.len(),
        parse_lines(lines.take(k)) is Err,
    ensures
        parse_lines(lines) == parse_lines(lines.take(k)),
    decreases lines.len() - k,
{
    if k == lines.len() {
        assert(lines.take(k) =~= lines);
    } else {
        assert(lines.drop_last().take(k) =~= lines.take(k));
        lemma_parse_lines_err(lines.drop_last(), k);
    }
}

/// Reads the arc an item stands for.
fn import_arc(item: &Vec<char>) -> (r: Result<Option<Arc>, ImportError>)
    ensures
        r == parse_arc(item@),
{
    let ti = trim_chars(item.as_slice());
    if ti.len() == 0 {
        return Ok(None);
    }
    let parts = split_chars(ti.as_slice(), ',');
    proof {
        crate::text::lemma_split_len(ti@, ',');
        assert(views(parts@)[0] == parts@[0]@);
    }
    let to_trimmed = trim_chars(parts[0].as_slice());
    if to_trimmed.len() == 0 || parts.len() < 2 {
        return Err(ImportError::FileFormat);
    }
    proof {
        assert(views(parts@)[1] == parts@[1]@);
    }
    let dist_trimmed = trim_chars(parts[1].as_slice());
    if dist_trimmed.len() == 0 {
        return Err(ImportError::FileFormat);
    }
    let t = match parse_u64(parts[0].as_slice()) {
        Ok(x) => x,
        Err(k) => {
            return Err(ImportError::ParseI(k));
        },
    };
    let d = match parse_i64(parts[1].as_slice()) {
        Ok(x) => x,
        Err(k) => {
            return Err(ImportError::ParseI(k));
        },
    };
    Ok(Some(Arc { to: t, distance: d }))
}

/// Reads the vertex a line stands for.
fn import_line(line: &Vec<char>) -> (r: Result<Option<Vertex>, ImportError>)
    ensures
        match r {
            Ok(None) => parse_line(line@) == Ok::<Option<(u64, Seq<Arc>)>, ImportError>(None),
            Ok(Some(v)) => parse_line(line@) == Ok::<Option<(u64, Seq<Arc>)>, ImportError>(
                Some((v.id, v.arcs@)),
            ) && v.best_distance == 0 && v.best_verticie == 0,
            Err(e) => parse_line(line@) == Err::<Option<(u64, Seq<Arc>)>, ImportError>(e),
        },
{
    let t = trim_chars(line.as_slice());
    let items = split_chars(t.as_slice(), ' ');
    let ghost its = views(items@);
    proof {
        crate::text::lemma_split_len(t@, ' ');
        assert(its[0] == items@[0]@);
    }
    let first = trim_chars(items[0].as_slice());
    if first.len() == 0 {
        return Ok(None);
    }
    let id = match parse_u64(items[0].as_slice()) {
        Ok(x) => x,
        Err(k) => {
            return Err(ImportError::ParseI(k));
        },
    };
    let mut v = Vertex::new(id);
    let ni = items.len();
    let mut j: usize = 1;
    while j < ni
        invariant
            1 <= j <= ni,
            ni == items@.len(),
            its == views(items@),
            its == split(trim(line@), ' '),
            its.len() >= 1,
            trim(its[0]).len() != 0,
            parse_u64_spec(its[0]) == Ok::<u64, IntErrorKind>(id),
            v.id == id,
            v.best_distance == 0,
            v.best_verticie == 0,
            parse_arcs(its.drop_first().take(j - 1)) == Ok::<Seq<Arc>, ImportError>(v.arcs@),
        decreases ni - j,
    {
        proof {
            assert(its.drop_first().take(j as int).drop_last() =~= its.drop_first().take(j - 1));
            assert(its.drop_first().take(j as int).last() == items@[j as int]@);
        }
        match import_arc(&items[j]) {
            Ok(None) => {},
            Ok(Some(a)) => {
                v.add_arc(a.to, a.distance);
            },
            Err(e) => {
                proof {
                    lemma_parse_arcs_err(its.drop_first(), j as int);
                }
                return Err(e);
            },
        }
        j = j + 1;
    }
    proof {
        assert(its.drop_first().take(ni - 1) =~= its.drop_first());
    }
    Ok(Some(v))
}

impl Graph {
    /// Reads a graph from text: one vertex per line, written as its id and then
    /// its arcs as `to,distance`, all separated by spaces. Lines that are only
    /// white space are passed over.
    pub fn import(source: &str) -> (r: Result<Graph, ImportError>)
        ensures
            match r {
                Ok(g) => {
                    &&& parse_graph(source@) == Ok::<Seq<(u64, Seq<Arc>)>, ImportError>(
                        graph_shape(g.verticies@),
                    )
                    &&& forall|i: int|
                        0 <= i < g.verticies@.len() ==> (#[trigger] g.verticies@[i]).best_distance == 0
                            && g.verticies@[i].best_verticie == 0
                },
                Err(e) => parse_graph(source@) == Err::<Seq<(u64, Seq<Arc>)>, ImportError>(e),
            },
    {
        let chars = str_chars(source);
        let lines = split_chars(chars.as_slice(), '\n');
        let ghost ls = views(lines@);
        let mut g = Graph::new();
        proof {
            assert(ls.take(0) =~= Seq::<Seq<char>>::empty());
            assert(graph_shape(g.verticies@) =~= Seq::<(u64, Seq<Arc>)>::empty());
        }
        let nl = lines.len();
        let mut li: usize = 0;
        while li < nl
            invariant
                li <= nl,
                nl == lines@.len(),
                ls == views(lines@),
                ls == split(source@, '\n'),
                parse_lines(ls.take(li as int)) == Ok::<Seq<(u64, Seq<Arc>)>, ImportError>(
                    graph_shape(g.verticies@),
                ),
                forall|i: int|
                    0 <= i < g.verticies@.len() ==> (#[trigger] g.verticies@[i]).best_distance == 0
                        && g.verticies@[i].best_verticie == 0,
            decreases nl - li,
        {
            proof {
                assert(ls.take(li + 1).drop_last() =~= ls.take(li as int));
                assert(ls.take(li + 1).last() == lines@[li as int]@);
            }
            match import_line(&lines[li]) {
                Ok(None) => {},
                Ok(Some(v)) => {
                    let ghost before = g.verticies@;
                    g.add_vertex(v);
                    proof {
                        assert(graph_shape(g.verticies@) =~= graph_shape(before).push((v.id, v.arcs@)));
                    }
                },
                Err(e) => {
                    proof {
                        lemma_parse_lines_err(ls, li + 1);
                    }
                    return Err(e);
                },
            }
            li = li + 1;
        }
        proof {
            assert(ls.take(nl as int) =~= ls);
        }
        Ok(g)
    }
}

} // verus!

verus! {

/// A graph as the text format writes it: its vertices, one per line, with
/// `\r\n` between the lines.
pub open spec fn graph_text(g: Seq<Vertex>) -> Seq<char> {
    join(g.map_values(|v: Vertex| vertex_text(v.id, v.arcs@)), seq!['\r', '\n'])
}

impl Graph {
    /// The graph in the text format.
    pub fn export(&self) -> (s: String)
        ensures
            s@ == graph_text(self.verticies@),
    {
        let ghost texts = self.verticies@.map_values(|v: Vertex| vertex_text(v.id, v.arcs@));
        let mut s = String::new();
        let n = self.verticies.len();
        let mut i: usize = 0;
        proof {
            assert(texts.take(0) =~= Seq::<Seq<char>>::empty());
        }
        while i < n
            invariant
                i <= n,
                n == self.verticies@.len(),
                texts == self.verticies@.map_values(|v: Vertex| vertex_text(v.id, v.arcs@)),
                s@ == join(texts.take(i as int), seq!['\r', '\n']),
            decreases n - i,
        {
            if i > 0 {
                crate::text::push_char(&mut s, '\r');
                crate::text::push_char(&mut s, '\n');
            }
            let line = self.verticies[i].export();
            s.append(line.as_str());
            proof {
                let p = texts.take(i as int);
                assert(texts.take(i + 1) =~= p.push(texts[i as int]));
                assert(p.push(texts[i as int]).drop_last() =~= p);
                assert(s@ =~= join(texts.take(i + 1), seq!['\r', '\n']));
            }
            i = i + 1;
        }
        proof {
            assert(texts.take(n as int) =~= texts);
        }
        s
    }
}

} // verus!

verus! {

proof fn lemma_push_position_props(s: Seq<SmallVertex>, d: i64)
    ensures
        push_position(s, d) <= s.len(),
        forall|j: int| 0 <= j < push_position(s, d) ==> (#[trigger] s[j]).best_distance < d,
        push_position(s, d) < s.len() ==> s[push_position(s, d) as int].best_distance >= d,
    decreases s.len(),
{
    if s.len() > 0 && s[0].best_distance < d {
        let r = s.drop_first();
        lemma_push_position_props(r, d);
        assert forall|j: int| 0 <= j < push_position(s, d) implies (#[trigger] s[j]).best_distance < d by {
            if j > 0 {
                assert(s[j] == r[j - 1]);
            }
        }
        if push_position(s, d) < s.len() {
            assert(s[push_position(s, d) as int] == r[push_position(r, d) as int]);
        }
    }
}

/// `push` keeps a list that is ordered by distance ordered, and adds exactly
/// the pushed entry.
pub proof fn law_push_keeps_order(s: Seq<SmallVertex>, e: SmallVertex)
    requires
        sorted_by_distance(s),
    ensures
        sorted_by_distance(s.insert(push_position(s, e.best_distance) as int, e)),
        s.insert(push_position(s, e.best_distance) as int, e).to_multiset() == s.to_multiset().insert(e),
{
    let k = push_position(s, e.best_distance) as int;
    lemma_push_position_props(s, e.best_distance);
    let t = s.insert(k, e);
    assert forall|i: int, j: int| 0 <= i <= j < t.len() implies t[i].best_distance <= t[j].best_distance by {
        if i < k && j < k {
            assert(t[i] == s[i] && t[j] == s[j]);
        } else if i < k && j == k {
            assert(t[i] == s[i]);
        } else if i < k && j > k {
            assert(t[i] == s[i] && t[j] == s[j - 1]);
        } else if i == k && j > k {
            assert(t[j] == s[j - 1]);
            assert(s[k].best_distance >= e.best_distance);
            assert(s[k].best_distance <= s[j - 1].best_distance);
        } else if i > k {
            assert(t[i] == s[i - 1] && t[j] == s[j - 1]);
        }
    }
    vstd::seq_lib::to_multiset_insert(s, k, e);
}

/// In a list ordered by distance, `pop` takes an entry of least distance.
pub proof fn law_pop_takes_least(s: Seq<SmallVertex>)
    requires
        sorted_by_distance(s),
        s.len() > 0,
    ensures
        forall|j: int| 0 <= j < s.len() ==> s[0].best_distance <= (#[trigger] s[j]).best_distance,
{
}

/// Stepping `by` forward and then `by` back brings a cursor back to where it
/// stood.
pub proof fn law_seek_back_undoes_seek_forward(p: int, by: int, len: int)
    requires
        0 <= p <= len,
        0 <= by,
    ensures
        step_backward(step_forward(p, by, len), by, len) == p,
{
    let m = len + 1;
    vstd::arithmetic::div_mod::lemma_sub_mod_noop(p + by, by, m);
    vstd::arithmetic::div_mod::lemma_mod_twice(by, m);
    vstd::arithmetic::div_mod::lemma_sub_mod_noop_right((p + by) % m, by, m);
    vstd::arithmetic::div_mod::lemma_small_mod(p as nat, m as nat);
}

/// Splicing back in, at the cursor, what `split` cut off gives back the list.
pub proof fn law_splice_undoes_split(s: Seq<SmallVertex>, k: int)
    requires
        0 <= k <= s.len(),
    ensures
        spliced(s.take(k), k, s.skip(k)) == s,
{
    assert(spliced(s.take(k), k, s.skip(k)) =~= s);
}

/// Removing at the cursor what was just inserted there gives back the list.
pub proof fn law_remove_undoes_insert(s: Seq<SmallVertex>, k: int, e: SmallVertex)
    requires
        0 <= k <= s.len(),
    ensures
        s.insert(k, e).remove(k) == s,
        s.insert(k, e)[k] == e,
{
    assert(s.insert(k, e).remove(k) =~= s);
}

} // verus!

verus! {

/// Vertex `x` carries its index as id, and its arcs lead to vertices and are
/// not negative.
spec fn vertex_ready(g: Seq<Vertex>, x: int) -> bool {
    &&& g[x].id == x
    &&& forall|k: int| 0 <= k < g[x].arcs@.len() ==> (#[trigger] g[x].arcs@[k]).to < g.len()
        && g[x].arcs@[k].distance >= 0
}

/// A graph laid out for search everywhere is laid out for it from any source.
proof fn lemma_well_indexed_from(g: Seq<Vertex>, s: int)
    requires
        well_indexed(g),
    ensures
        indexed_from(g, s),
{
    assert forall|vs: Seq<int>, ks: Seq<int>| #[trigger] is_path(arcs_of(g), vs, ks) && vs[0] == s
        && prefixes_below_max(arcs_of(g), vs, ks) implies vertex_laid_out(g, vs.last(), s) by {
        let x = vs.last();
        assert(0 <= vs[vs.len() - 1] < g.len());
        assert forall|k: int| 0 <= k < g[x].arcs@.len() implies (#[trigger] g[x].arcs@[k]).to < g.len() by {}
    }
}

impl Graph {
    /// Whether a search can start from `source`: the source is a vertex, every
    /// vertex carries its index as id, every arc leads to a vertex, and no arc
    /// has a negative distance. Then `sums_fit` may be asked, and where it
    /// holds, `shortest` may search.
    pub fn can_search(&self, source: u64) -> (b: bool)
        ensures
            b == ((source as int) < self.verticies@.len() && well_indexed(self.verticies@)
                && nonnegative_arcs(self.verticies@)),
            b ==> indexed_from(self.verticies@, source as int),
            b ==> routes_bounded_below(arcs_of(self.verticies@), source as int),
    {
        let ghost g = self.verticies@;
        let n = self.verticies.len();
        let mut ok = source < n as u64;
        let mut i: usize = 0;
        while i < n
            invariant
                i <= n,
                n == g.len(),
                g == self.verticies@,
                ok == ((source as int) < n && forall|x: int| 0 <= x < i ==> #[trigger] vertex_ready(g, x)),
            decreases n - i,
        {
            let v = &self.verticies[i];
            let mut arcs_ok = v.id == i as u64;
            let m = v.arcs.len();
            let mut k: usize = 0;
            while k < m
                invariant
                    k <= m,
                    m == v.arcs@.len(),
                    *v == g[i as int],
                    i < n,
                    n == g.len(),
                    arcs_ok == (v.id == i && forall|j: int| 0 <= j < k ==> (#[trigger] v.arcs@[j]).to < n
                        && v.arcs@[j].distance >= 0),
                decreases m - k,
            {
                if v.arcs[k].to >= n as u64 || v.arcs[k].distance < 0 {
                    arcs_ok = false;
                }
                k = k + 1;
            }
            proof {
                assert(arcs_ok == vertex_ready(g, i as int));
                if !arcs_ok {
                    assert(!vertex_ready(g, i as int));
                }
            }
            ok = ok && arcs_ok;
            i = i + 1;
        }
        proof {
            if ok {
                assert(well_indexed(g)) by {
                    assert forall|x: int| 0 <= x < g.len() implies (#[trigger] g[x]).id == x by {
                        assert(vertex_ready(g, x));
                    }
                    assert forall|x: int, k: int| 0 <= x < g.len() && 0 <= k < g[x].arcs@.len() implies (#[trigger] g[x].arcs@[k]).to < g.len() by {
                        assert(vertex_ready(g, x));
                    }
                }
                assert(nonnegative_arcs(g)) by {
                    assert forall|x: int, k: int| 0 <= x < g.len() && 0 <= k < g[x].arcs@.len() implies (#[trigger] g[x].arcs@[k]).distance >= 0 by {
                        assert(vertex_ready(g, x));
                    }
                }
                law_nonnegative_routes_bounded(g, source as int);
                lemma_well_indexed_from(g, source as int);
            } else if (source as int) < n {
                let x = choose|x: int| 0 <= x < n && !#[trigger] vertex_ready(g, x);
                if g[x].id == x {
                    let k = choose|k: int| 0 <= k < g[x].arcs@.len() && !((#[trigger] g[x].arcs@[k]).to < g.len() && g[x].arcs@[k].distance >= 0);
                    assert(g[x].arcs@[k].to >= g.len() || g[x].arcs@[k].distance < 0);
                }
            }
        }
        ok
    }
}

} // verus!
