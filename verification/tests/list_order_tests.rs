use dijkstra::list::{LinkedList, SmallVertex};

#[test]
fn equal_distances_leave_in_arrival_order() {
    let mut l = LinkedList::new();
    l.push(SmallVertex::new(1, 5));
    l.push(SmallVertex::new(2, 3));
    l.push(SmallVertex::new(3, 5));
    l.push(SmallVertex::new(4, 1));
    assert_eq!(l.pop(), Some(SmallVertex::new(4, 1)));
    assert_eq!(l.pop(), Some(SmallVertex::new(2, 3)));
    assert_eq!(l.pop(), Some(SmallVertex::new(1, 5)));
    assert_eq!(l.pop(), Some(SmallVertex::new(3, 5)));
    assert_eq!(l.pop(), None);
    assert!(l.is_empty());
}
