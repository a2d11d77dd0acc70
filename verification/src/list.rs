use vstd::prelude::*;

pub use crate::graph::SmallVertex;
use crate::graph::sorted_by_distance;

verus! {

struct Node {
    elem: SmallVertex,
    next: Option<Box<Node>>,
}

/// The entries from a node on, in list order.
spec fn node_seq(link: Option<Box<Node>>) -> Seq<SmallVertex>
    decreases link,
{
    match link {
        None => Seq::<SmallVertex>::empty(),
        Some(node) => seq![node.elem] + node_seq(node.next),
    }
}

/// Where `push` puts an entry of distance `d`: behind every entry whose
/// distance is at most `d`, in front of the first one whose distance is larger.
pub open spec fn queue_position(s: Seq<SmallVertex>, d: i64) -> nat
    decreases s.len(),
{
    if s.len() == 0 {
        0
    } else if s[0].best_distance > d {
        0
    } else {
        1 + queue_position(s.drop_first(), d)
    }
}

/// A singly linked list of entries that `push` keeps ordered by distance, equal
/// distances in the order they came.
pub struct LinkedList {
    head: Option<Box<Node>>,
}

impl View for LinkedList {
    type V = Seq<SmallVertex>;

    closed spec fn view(&self) -> Seq<SmallVertex> {
        node_seq(self.head)
    }
}

proof fn lemma_queue_position_bound(s: Seq<SmallVertex>, d: i64)
    ensures
        queue_position(s, d) <= s.len(),
    decreases s.len(),
{
    if s.len() > 0 {
        lemma_queue_position_bound(s.drop_first(), d);
    }
}

fn insert_sorted(link: &mut Option<Box<Node>>, elem: SmallVertex)
    ensures
        node_seq(*final(link)) == node_seq(*old(link)).insert(
            queue_position(node_seq(*old(link)), elem.best_distance) as int,
            elem,
        ),
    decreases *old(link),
{
    let goes_here = match link {
        None => true,
        Some(node) => node.elem.best_distance > elem.best_distance,
    };
    if goes_here {
        let rest = link.take();
        proof {
            assert(node_seq(rest).insert(0, elem) =~= seq![elem] + node_seq(rest));
        }
        *link = Some(Box::new(Node { elem: elem, next: rest }));
    } else {
        let mut node = link.take().unwrap();
        let ghost s = node_seq(Some(node));
        proof {
            assert(s.drop_first() =~= node_seq(node.next));
        }
        insert_sorted(&mut node.next, elem);
        proof {
            let t = node_seq(Some(node));
            let r = s.drop_first();
            lemma_queue_position_bound(r, elem.best_distance);
            assert(queue_position(s, elem.best_distance) == 1 + queue_position(r, elem.best_distance));
            assert(t =~= s.insert(queue_position(s, elem.best_distance) as int, elem));
        }
        *link = Some(node);
    }
}

impl LinkedList {
    /// Returns an empty list.
    pub fn new() -> (l: LinkedList)
        ensures
            l@ == Seq::<SmallVertex>::empty(),
    {
        LinkedList { head: None }
    }

    /// Inserts `elem` behind every entry whose distance is at most that of
    /// `elem`.
    pub fn push(&mut self, elem: SmallVertex)
        ensures
            final(self)@ == old(self)@.insert(queue_position(old(self)@, elem.best_distance) as int, elem),
    {
        insert_sorted(&mut self.head, elem);
    }

    /// Removes and returns the first entry.
    pub fn pop(&mut self) -> (r: Option<SmallVertex>)
        ensures
            old(self)@.len() == 0 ==> r is None && final(self)@ == old(self)@,
            old(self)@.len() > 0 ==> r == Some(old(self)@[0]) && final(self)@ == old(self)@.drop_first(),
    {
        match self.head.take() {
            None => None,
            Some(node) => {
                let node = *node;
                self.head = node.next;
                proof {
                    assert(old(self)@.drop_first() =~= node_seq(self.head));
                }
                Some(node.elem)
            },
        }
    }

    /// Whether there are no entries.
    pub fn is_empty(&self) -> (b: bool)
        ensures
            b <==> self@.len() == 0,
    {
        self.head.is_none()
    }
}

proof fn lemma_queue_position_props(s: Seq<SmallVertex>, d: i64)
    ensures
        queue_position(s, d) <= s.len(),
        forall|j: int| 0 <= j < queue_position(s, d) ==> (#[trigger] s[j]).best_distance <= d,
        queue_position(s, d) < s.len() ==> s[queue_position(s, d) as int].best_distance > d,
    decreases s.len(),
{
    if s.len() > 0 && s[0].best_distance <= d {
        let r = s.drop_first();
        lemma_queue_position_props(r, d);
        assert forall|j: int| 0 <= j < queue_position(s, d) implies (#[trigger] s[j]).best_distance <= d by {
            if j > 0 {
                assert(s[j] == r[j - 1]);
            }
        }
        if queue_position(s, d) < s.len() {
            assert(s[queue_position(s, d) as int] == r[queue_position(r, d) as int]);
        }
    }
}

/// `push` keeps a list that is ordered by distance ordered, puts the new entry
/// behind every entry of equal distance, and adds exactly that entry.
pub proof fn law_push_keeps_arrival_order(s: Seq<SmallVertex>, e: SmallVertex)
    requires
        sorted_by_distance(s),
    ensures
        sorted_by_distance(s.insert(queue_position(s, e.best_distance) as int, e)),
        s.insert(queue_position(s, e.best_distance) as int, e).to_multiset() == s.to_multiset().insert(e),
        forall|j: int|
            0 <= j < s.len() && (#[trigger] s[j]).best_distance == e.best_distance ==> j < queue_position(
                s,
                e.best_distance,
            ),
{
    let k = queue_position(s, e.best_distance) as int;
    lemma_queue_position_props(s, e.best_distance);
    let t = s.insert(k, e);
    assert forall|i: int, j: int| 0 <= i <= j < t.len() implies t[i].best_distance <= t[j].best_distance by {
        if i < k && j < k {
            assert(t[i] == s[i] && t[j] == s[j]);
        } else if i < k && j == k {
            assert(t[i] == s[i]);
        } else if i < k && j > k {
            assert(t[i] == s[i] && t[j] == s[j - 1]);
        } else if i == k && j > k {
            assert(t[j] == s[j - 1]);
            assert(s[k].best_distance <= s[j - 1].best_distance);
        } else if i > k {
            assert(t[i] == s[i - 1] && t[j] == s[j - 1]);
        }
    }
    assert forall|j: int|
        0 <= j < s.len() && (#[trigger] s[j]).best_distance == e.best_distance implies j < k by {
        if j >= k && k < s.len() {
            assert(s[k].best_distance <= s[j].best_distance);
        }
    }
    vstd::seq_lib::to_multiset_insert(s, k, e);
}

} // verus!
