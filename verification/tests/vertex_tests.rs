use dijkstra::vertex::{Arc, Vertex};

#[test]
fn vertex_test_new() {
    let v = Vertex::new(1234);
    let expected = Vertex {
        id: 1234,
        best_distance: 0,
        best_verticie: 0,
        arcs: Vec::new(),
    };
    assert_eq!(v, expected);
    let a = Vertex::new(1234);
    assert_eq!(v, a);
}

#[test]
fn test_add_arc() {
    let mut a = Vertex::new(0);
    let mut b = Vertex::new(0);
    assert_eq!(a.arcs, b.arcs);
    a.add_arc(1, 2);
    assert!(a.arcs != b.arcs);
    b.add_arc(1, 2);
    assert_eq!(a, b);
    a.add_arc(3, 4);
    assert_eq!(
        a.arcs,
        [Arc { to: 1, distance: 2 }, Arc { to: 3, distance: 4 }]
    );
}

#[test]
fn test_remove_arc() {
    let mut a = Vertex::new(0);
    let b = Vertex::new(0);
    assert_eq!(a.arcs, b.arcs);
    a.add_arc(1, 2);
    assert!(a.arcs != b.arcs);
    a.remove_arc(1);
    assert_eq!(a, b);

    a.add_arc(3, 4);
    a.add_arc(5, 6);
    a.add_arc(7, 8);
    a.remove_arc(5);
    assert_eq!(
        a.arcs,
        [Arc { to: 3, distance: 4 }, Arc { to: 7, distance: 8 }]
    );
}

#[test]
fn remove_arc_after_add_arc() {
    let mut a = Vertex::new(4);
    a.add_arc(1, 2);
    a.add_arc(2, 3);
    let mut b = a.clone();
    a.add_arc(9, 1);
    a.add_arc(9, 7);
    a.remove_arc(9);
    b.remove_arc(9);
    assert_eq!(a, b);
    a.remove_arc(9);
    assert_eq!(a, b);
    a.remove_arc(1);
    assert_eq!(a.arcs, vec![Arc { to: 2, distance: 3 }]);
}
