use vstd::prelude::*;

use crate::text::{append_i64, append_u64, dec_int, dec_nat, join, push_char};

verus! {

/// A weighted arc to the vertex `to`.
#[derive(Debug, Clone, PartialEq, Eq, Structural)]
pub struct Arc {
    pub to: u64,
    pub distance: i64,
}

/// A vertex with its outgoing arcs and the bookkeeping of the last search.
#[derive(Clone, PartialEq, Eq, Debug)]
pub struct Vertex {
    pub id: u64,
    pub best_distance: i64,
    pub best_verticie: u64,
    pub arcs: Vec<Arc>,
}

/// The arcs that survive `remove_arc(to)`.
pub open spec fn arc_avoids(to: u64) -> spec_fn(Arc) -> bool {
    |a: Arc| a.to != to
}

impl Vertex {
    pub fn new(id: u64) -> (v: Vertex)
        ensures
            v.id == id,
            v.best_distance == 0,
            v.best_verticie == 0,
            v.arcs@ == Seq::<Arc>::empty(),
    {
        Vertex { id: id, best_distance: 0, best_verticie: 0, arcs: Vec::new() }
    }

    /// Appends an arc to `to` of the given distance.
    pub fn add_arc(&mut self, to: u64, distance: i64)
        ensures
            final(self).id == old(self).id,
            final(self).best_distance == old(self).best_distance,
            final(self).best_verticie == old(self).best_verticie,
            final(self).arcs@ == old(self).arcs@.push((Arc { to: to, distance: distance })),
    {
        self.arcs.push(Arc { to: to, distance: distance });
    }

    /// Removes every arc that leads to `to`, keeping the others in order.
    pub fn remove_arc(&mut self, to: u64)
        ensures
            final(self).id == old(self).id,
            final(self).best_distance == old(self).best_distance,
            final(self).best_verticie == old(self).best_verticie,
            final(self).arcs@ == old(self).arcs@.filter(arc_avoids(to)),
            final(self).arcs@ == old(self).arcs@.filter(|a: Arc| a.to != to),
            forall|j: int| 0 <= j < final(self).arcs@.len() ==> (#[trigger] final(self).arcs@[j]).to != to,
            forall|a: Arc|
                a.to != to ==> #[trigger] final(self).arcs@.to_multiset().count(a) == old(self).arcs@.to_multiset().count(
                    a,
                ),
    {
        let mut kept: Vec<Arc> = Vec::new();
        let n = self.arcs.len();
        let mut i: usize = 0;
        while i < n
            invariant
                n == self.arcs@.len(),
                i <= n,
                self.arcs@ == old(self).arcs@,
                kept@ == self.arcs@.take(i as int).filter(arc_avoids(to)),
            decreases n - i,
        {
            let a = Arc { to: self.arcs[i].to, distance: self.arcs[i].distance };
            proof {
                assert(self.arcs@.take(i + 1).drop_last() =~= self.arcs@.take(i as int));
                reveal(Seq::filter);
            }
            if a.to != to {
                kept.push(a);
            }
            i = i + 1;
        }
        proof {
            assert(self.arcs@.take(n as int) =~= self.arcs@);
            law_remove_arc_keeps_the_others(self.arcs@, to);
        }
        self.arcs = kept;
    }
}

/// An arc as the text format writes it: `to,distance`.
pub open spec fn arc_text(a: Arc) -> Seq<char> {
    dec_nat(a.to as nat) + seq![','] + dec_int(a.distance as int)
}

/// A vertex as the text format writes it: its id, a space, and its arcs
/// separated by spaces.
pub open spec fn vertex_text(id: u64, arcs: Seq<Arc>) -> Seq<char> {
    dec_nat(id as nat) + seq![' '] + join(arcs.map_values(|a: Arc| arc_text(a)), seq![' '])
}

impl Arc {
    /// The arc in the text format.
    pub fn export(&self) -> (s: String)
        ensures
            s@ == arc_text(*self),
    {
        let mut s = String::new();
        append_u64(&mut s, self.to);
        push_char(&mut s, ',');
        append_i64(&mut s, self.distance);
        proof {
            assert(s@ =~= arc_text(*self));
        }
        s
    }
}

impl Vertex {
    /// The vertex in the text format.
    pub fn export(&self) -> (s: String)
        ensures
            s@ == vertex_text(self.id, self.arcs@),
    {
        let ghost texts = self.arcs@.map_values(|a: Arc| arc_text(a));
        let mut s = String::new();
        append_u64(&mut s, self.id);
        push_char(&mut s, ' ');
        let n = self.arcs.len();
        let mut i: usize = 0;
        while i < n
            invariant
                i <= n,
                n == self.arcs@.len(),
                texts == self.arcs@.map_values(|a: Arc| arc_text(a)),
                s@ == dec_nat(self.id as nat) + seq![' '] + join(texts.take(i as int), seq![' ']),
            decreases n - i,
        {
            let ghost before = s@;
            if i > 0 {
                push_char(&mut s, ' ');
            }
            let a = self.arcs[i].export();
            s.append(a.as_str());
            proof {
                let p = texts.take(i as int);
                assert(texts.take(i + 1) =~= p.push(texts[i as int]));
                assert(p.push(texts[i as int]).drop_last() =~= p);
                if i == 0 {
                    assert(join(p.push(texts[i as int]), seq![' ']) == texts[0]);
                    assert(p =~= Seq::<Seq<char>>::empty());
                    assert(s@ =~= dec_nat(self.id as nat) + seq![' '] + join(texts.take(i + 1), seq![' ']));
                } else {
                    assert(s@ =~= dec_nat(self.id as nat) + seq![' '] + join(texts.take(i + 1), seq![' ']));
                }
            }
            i = i + 1;
        }
        proof {
            assert(texts.take(n as int) =~= texts);
        }
        s
    }
}

/// Removing the arcs to `to` after adding one to `to` leaves the arcs that
/// removing them alone leaves.
pub proof fn law_remove_arc_undoes_add_arc(arcs: Seq<Arc>, to: u64, distance: i64)
    ensures
        arcs.push((Arc { to: to, distance: distance })).filter(arc_avoids(to)) == arcs.filter(arc_avoids(to)),
{
    reveal(Seq::filter);
    assert(arcs.push((Arc { to: to, distance: distance })).drop_last() =~= arcs);
}

/// Removing the arcs to `to` a second time changes nothing.
pub proof fn law_remove_arc_idempotent(arcs: Seq<Arc>, to: u64)
    ensures
        arcs.filter(arc_avoids(to)).filter(arc_avoids(to)) == arcs.filter(arc_avoids(to)),
        forall|j: int| 0 <= j < arcs.filter(arc_avoids(to)).len() ==> (#[trigger] arcs.filter(arc_avoids(to))[j]).to != to,
    decreases arcs.len(),
{
    reveal(Seq::filter);
    let f = arc_avoids(to);
    arcs.filter_lemma(f);
    let once = arcs.filter(f);
    once.filter_lemma(f);
    if arcs.len() > 0 {
        law_remove_arc_idempotent(arcs.drop_last(), to);
        let p = arcs.drop_last().filter(f);
        if f(arcs.last()) {
            assert(once == p.push(arcs.last()));
            assert(once.drop_last() =~= p);
        } else {
            assert(once == p);
        }
    }
}

/// Filtering keeps every element that passes as often as it was there, and
/// drops every element that fails.
pub(crate) proof fn lemma_filter_counts<A>(s: Seq<A>, p: spec_fn(A) -> bool, x: A)
    ensures
        s.filter(p).to_multiset().count(x) == (if p(x) {
            s.to_multiset().count(x)
        } else {
            0
        }),
    decreases s.len(),
{
    broadcast use vstd::seq_lib::group_to_multiset_ensures;
    broadcast use vstd::multiset::group_multiset_axioms;

    reveal(Seq::filter);
    if s.len() == 0 {
        assert(s.filter(p) =~= Seq::<A>::empty());
        assert(s.to_multiset() =~= vstd::multiset::Multiset::<A>::empty());
        assert(s.filter(p).to_multiset() =~= vstd::multiset::Multiset::<A>::empty());
    } else {
        let d = s.drop_last();
        lemma_filter_counts(d, p, x);
        assert(d.push(s.last()) =~= s);
        if p(s.last()) {
            assert(s.filter(p) == d.filter(p).push(s.last()));
        } else {
            assert(s.filter(p) == d.filter(p));
        }
    }
}

/// `remove_arc(to)` keeps exactly the arcs that do not lead to `to`: none of
/// the arcs left leads to `to`, every arc that does not lead to `to` is left as
/// often as it was there, and the arcs left keep their order.
pub proof fn law_remove_arc_keeps_the_others(arcs: Seq<Arc>, to: u64)
    ensures
        forall|j: int| 0 <= j < arcs.filter(arc_avoids(to)).len() ==> (#[trigger] arcs.filter(arc_avoids(to))[j]).to != to,
        forall|a: Arc|
            a.to != to ==> #[trigger] arcs.filter(arc_avoids(to)).to_multiset().count(a) == arcs.to_multiset().count(a),
        forall|a: Arc| a.to == to ==> #[trigger] arcs.filter(arc_avoids(to)).to_multiset().count(a) == 0,
        arcs.filter(arc_avoids(to)) == arcs.filter(|a: Arc| a.to != to),
{
    broadcast use vstd::seq_lib::group_filter_ensures;

    let f = arc_avoids(to);
    assert forall|j: int| 0 <= j < arcs.filter(f).len() implies (#[trigger] arcs.filter(f)[j]).to != to by {
        arcs.lemma_filter_pred(f, j);
    }
    assert forall|a: Arc| a.to != to implies #[trigger] arcs.filter(f).to_multiset().count(a) == arcs.to_multiset().count(a) by {
        lemma_filter_counts(arcs, f, a);
    }
    assert forall|a: Arc| a.to == to implies #[trigger] arcs.filter(f).to_multiset().count(a) == 0 by {
        lemma_filter_counts(arcs, f, a);
    }
    assert(f =~= (|a: Arc| a.to != to));
}

} // verus!
