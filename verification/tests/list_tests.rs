use dijkstra::list::{LinkedList, SmallVertex};

#[test]
fn list_test_is_empty() {
    let mut l: LinkedList = LinkedList::new();
    assert_eq!(l.is_empty(), true);
    l.push(SmallVertex::new(0, 1));
    assert_eq!(l.is_empty(), false);
    l.pop();
    assert_eq!(l.is_empty(), true);
}

#[test]
fn list_test_stack_push_pop() {
    let mut l: LinkedList = LinkedList::new();
    let v = vec![
        SmallVertex::new(0, 1),
        SmallVertex::new(3, 2),
        SmallVertex::new(2, 3),
    ];
    for val in v.clone() {
        l.push(val);
    }
    for val in v {
        assert_eq!(l.pop().unwrap(), val);
    }
}

#[test]
fn list_test_ordered_push_pop() {
    let mut l: LinkedList = LinkedList::new();
    let v = vec![
        SmallVertex::new(0, 0),
        SmallVertex::new(3, 3),
        SmallVertex::new(2, 2),
    ];
    for val in v.clone() {
        l.push(val);
    }
    assert_eq!(l.pop().unwrap(), v[0]);
    assert_eq!(l.pop().unwrap(), v[2]);
    assert_eq!(l.pop().unwrap(), v[1]);
}
