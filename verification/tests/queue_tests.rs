use dijkstra::graph::{LinkedList, SmallVertex};
use dijkstra::vertex::Vertex;
use std::cmp::Ordering;

fn entries(l: &mut LinkedList) -> Vec<(usize, i64)> {
    let mut out = Vec::new();
    let mut c = l.cursor();
    while let Some(e) = c.next() {
        out.push((e.id, e.best_distance));
    }
    out
}

#[test]
fn push_keeps_order_and_puts_new_before_equal() {
    let mut l = LinkedList::new();
    l.push(SmallVertex::new(1, 5));
    l.push(SmallVertex::new(2, 3));
    l.push(SmallVertex::new(3, 5));
    l.push(SmallVertex::new(4, 9));
    assert_eq!(entries(&mut l), vec![(2, 3), (3, 5), (1, 5), (4, 9)]);
    assert_eq!(l.len(), 4);
}

#[test]
fn ends_of_the_list() {
    let mut l = LinkedList::new();
    assert!(l.front().is_none());
    assert!(l.back().is_none());
    assert!(l.pop_back().is_none());
    l.push_back(SmallVertex::new(1, 1));
    l.push_front(SmallVertex::new(0, 0));
    l.push_back(SmallVertex::new(2, 2));
    assert_eq!(*l.front().unwrap(), SmallVertex::new(0, 0));
    assert_eq!(*l.back().unwrap(), SmallVertex::new(2, 2));
    l.front_mut().unwrap().best_distance = 7;
    assert_eq!(l.pop_front(), Some(SmallVertex::new(0, 7)));
    assert_eq!(l.pop_back(), Some(SmallVertex::new(2, 2)));
    assert_eq!(l.pop(), Some(SmallVertex::new(1, 1)));
    assert!(l.is_empty());
}

#[test]
fn insert_remove_append_splice() {
    let mut l = LinkedList::new();
    l.insert(0, SmallVertex::new(1, 1));
    l.insert(1, SmallVertex::new(3, 3));
    l.insert(1, SmallVertex::new(2, 2));
    assert_eq!(entries(&mut l), vec![(1, 1), (2, 2), (3, 3)]);
    assert_eq!(l.remove(5), None);
    assert_eq!(l.remove(1), Some(SmallVertex::new(2, 2)));
    let mut o = LinkedList::new();
    o.push_back(SmallVertex::new(8, 8));
    o.push_back(SmallVertex::new(9, 9));
    l.append(&mut o);
    assert!(o.is_empty());
    assert_eq!(entries(&mut l), vec![(1, 1), (3, 3), (8, 8), (9, 9)]);
    let mut p = LinkedList::new();
    p.push_back(SmallVertex::new(5, 5));
    // five steps over a list of four entries wraps round to the front
    l.splice(5, &mut p);
    assert_eq!(entries(&mut l), vec![(5, 5), (1, 1), (3, 3), (8, 8), (9, 9)]);
    let mut q = LinkedList::new();
    q.push_back(SmallVertex::new(6, 6));
    l.splice(2, &mut q);
    assert_eq!(entries(&mut l), vec![(5, 5), (1, 1), (6, 6), (3, 3), (8, 8), (9, 9)]);
    l.clear();
    assert!(l.is_empty());
}

#[test]
fn cursor_moves_and_edits() {
    let mut l = LinkedList::new();
    for i in 0..4 {
        l.push_back(SmallVertex::new(i, i as i64));
    }
    {
        let mut c = l.cursor();
        assert_eq!(c.prev().map(|e| e.id), None);
        assert_eq!(c.index, 4);
        assert_eq!(c.next().map(|e| e.id), None);
        assert_eq!(c.index, 0);
        c.seek_forward(2);
        assert_eq!(c.peek_next().map(|e| e.id), Some(2));
        c.seek_backward(3);
        assert_eq!(c.index, 4);
        c.seek_forward(3);
        assert_eq!(c.index, 2);
        c.insert(SmallVertex::new(9, 9));
        assert_eq!(c.peek_next().map(|e| e.id), Some(9));
        assert_eq!(c.remove(), Some(SmallVertex::new(9, 9)));
        let rest = c.split();
        assert_eq!(rest.len(), 2);
        assert_eq!(c.index, 2);
        let mut rest = rest;
        c.splice(&mut rest);
        c.reset();
        assert_eq!(c.index, 0);
        if let Some(e) = c.next() {
            e.best_distance = 40;
        }
    }
    assert_eq!(entries(&mut l), vec![(0, 40), (1, 1), (2, 2), (3, 3)]);
}

#[test]
fn default_is_empty() {
    let l: LinkedList = Default::default();
    assert!(l.is_empty());
}

#[test]
fn nearer_entries_order_greater() {
    let near = SmallVertex::new(4, 1);
    let far = SmallVertex::new(2, 9);
    assert!(near > far);
    assert_eq!(far.partial_cmp(&near), Some(Ordering::Less));
    assert_eq!(near.partial_cmp(&SmallVertex::new(7, 1)), Some(Ordering::Equal));
    let a = dijkstra::list::SmallVertex::new(0, 3);
    let b = dijkstra::list::SmallVertex::new(0, 4);
    assert!(a > b);
}

#[test]
fn vertices_order_by_distance_then_id() {
    let mut a = Vertex::new(1);
    let mut b = Vertex::new(2);
    a.best_distance = 5;
    b.best_distance = 5;
    assert!(a < b);
    b.best_distance = 3;
    assert!(b > a);
}
