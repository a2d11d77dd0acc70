use dijkstra::graph::{Graph, LinkedList, SmallVertex};
use dijkstra::vertex::{Arc, Vertex};

#[test]
fn graph_test_is_empty() {
    let mut l: LinkedList = LinkedList::new();
    assert_eq!(l.is_empty(), true);
    l.push(SmallVertex::new(0, 1));
    assert_eq!(l.is_empty(), false);
    l.pop();
    assert_eq!(l.is_empty(), true);
}

#[test]
fn graph_test_stack_push_pop() {
    let mut l: LinkedList = LinkedList::new();
    let v = vec![
        SmallVertex::new(0, 1),
        SmallVertex::new(3, 2),
        SmallVertex::new(2, 3),
    ];
    for val in v.clone() {
        l.push(val);
    }
    for val in v {
        assert_eq!(l.pop().unwrap(), val);
    }
}

#[test]
fn graph_test_ordered_push_pop() {
    let mut l: LinkedList = LinkedList::new();
    let v = vec![
        SmallVertex::new(0, 0),
        SmallVertex::new(3, 3),
        SmallVertex::new(2, 2),
    ];
    for val in v.clone() {
        l.push(val);
    }
    assert_eq!(l.pop().unwrap(), v[0]);
    assert_eq!(l.pop().unwrap(), v[2]);
    assert_eq!(l.pop().unwrap(), v[1]);
}

#[test]
fn graph_test_new() {
    assert_eq!(Graph::new(), Graph { verticies: Vec::new() });
}

#[test]
fn test_add_remove_vertex() {
    let mut g = Graph::new();
    g.add_vertex(Vertex::new(1234));
    assert!(g != Graph::new());
    let mut v2 = Vertex::new(1);
    v2.add_arc(1234, 5);
    g.add_vertex(v2);
    assert_eq!(g.verticies[0], Vertex::new(1234));
    let arc = Arc {
        to: 1234,
        distance: 5,
    };
    assert_eq!(g.verticies[1].arcs[0], arc);
    g.remove_vertex(1234);
    assert_eq!(g.verticies.len(), 1);
    assert_eq!(g.verticies[0].arcs[0], arc);
}

#[test]
fn test_import() {
    let a = Graph::import(
        "0 1,1
            1 2,1 4,1000
            2 5,1 4,10
            4 0,5 5,0
            5",
    )
    .unwrap();
    assert_eq!(a.verticies.len(), 5);
    assert_eq!(a.verticies[0].id, 0);
    assert_eq!(a.verticies[0].arcs.len(), 1);
    assert_eq!(a.verticies[0].arcs[0], Arc { to: 1, distance: 1 });
    assert_eq!(a.verticies[4].id, 5);
    assert_eq!(a.verticies[4].arcs.len(), 0);
    assert_eq!(a.verticies[2].arcs.len(), 2);
    assert_eq!(
        a.verticies[2].arcs[1],
        Arc {
            to: 4,
            distance: 10,
        }
    );
}

#[test]
#[should_panic(expected = r#"FileFormat"#)]
fn test_import_fail1() {
    let fail_string1 = "0 1,
        1 2,1 4,1000
        2 5,1 4,10
        4 0,5 5,0
        5";
    Graph::import(fail_string1).unwrap();
}

#[test]
#[should_panic(expected = r#"FileFormat"#)]
fn test_import_fail2() {
    let fail_string2 = "0 ,1
        1 2,1 4,1000
        2 5,1 4,10
        4 0,5 5,0
        5";
    Graph::import(fail_string2).unwrap();
}

#[test]
#[should_panic(expected = r#"InvalidDigit"#)]
fn test_import_fail3() {
    let fail_string3 = "0 1,1
        a 2,1 4,1000
        2 5,1 4,10
        4 0,5 5,0
        5";
    Graph::import(fail_string3).unwrap();
}

#[test]
fn test_shortest_nopath() {}

#[test]
fn test_export() {
    let success_strings = [
        "0 1,4\r
1 2,1 4,1000\r
2 5,1 4,10\r
4 0,5 5,0\r
5",
        "0 2,1\r
1 2,1 4,1000\r
2 5,1 4,10\r
4 0,5 5,0\r
5",
        "0 1,1\r
6 2,1 4,1000\r
2 5,1 4,10\r
4 0,5 5,0\r
5",
    ];
    for s in success_strings.iter() {
        assert_eq!(
            Graph::import(s).unwrap().export().trim().replace(" \r", ""),
            s.to_string().trim()
        );
    }
}
