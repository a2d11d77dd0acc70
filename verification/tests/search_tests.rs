use dijkstra::graph::Graph;
use dijkstra::vertex::Vertex;

fn ladder() -> Graph {
    let mut g = Graph::new();
    for i in 0i64..10i64 {
        let mut v = Vertex::new(i as u64);
        for x in -2i64..3i64 {
            if x == 0 {
                continue;
            }
            if i + x >= 0 && i + x <= 9 {
                v.add_arc((i + x) as u64, 2i64 * ((x + 5i64) / 2i64));
            }
        }
        g.add_vertex(v);
    }
    g
}

#[test]
fn shortest_on_ladder() {
    let mut g = ladder();
    assert!(g.can_search(0));
    let bp = g.shortest(0, 9).unwrap();
    assert!(bp.success);
    assert_eq!(bp.distance, 30);
    assert_eq!(bp.path[0], 0);
    assert_eq!(*bp.path.last().unwrap(), 9);
    assert_eq!(bp.path.len(), 6);
    for w in bp.path.windows(2) {
        assert!(w[1] == w[0] + 1 || w[1] == w[0] + 2);
    }
    // every vertex holds its distance from the source
    let expected = [0i64, 6, 6, 12, 12, 18, 18, 24, 24, 30];
    for (i, d) in expected.iter().enumerate() {
        assert_eq!(g.verticies[i].best_distance, *d);
    }
    assert_eq!(g.verticies[0].best_verticie, 0);
}

#[test]
fn shortest_to_source_is_none() {
    let mut g = ladder();
    assert!(g.shortest(3, 3).is_none());
    assert_eq!(g.verticies[3].best_distance, 0);
}

#[test]
fn shortest_unreachable_is_none() {
    let mut g = Graph::import("0 1,1\n1 0,1\n2 0,4").unwrap();
    assert!(g.can_search(0));
    assert!(g.shortest(0, 2).is_none());
    assert_eq!(g.verticies[2].best_distance, i64::MAX);
    assert_eq!(g.verticies[2].best_verticie, 0);
    assert!(g.shortest(0, 7).is_none());
}

#[test]
fn shortest_prefers_cheaper_detour() {
    let mut g = Graph::import("0 1,10 2,1\n1 3,1\n2 1,2\n3").unwrap();
    let bp = g.shortest(0, 3).unwrap();
    assert_eq!(bp.distance, 4);
    assert_eq!(bp.path, vec![0, 2, 1, 3]);
    assert_eq!(g.verticies[1].best_verticie, 2);
}

#[test]
fn shortest_with_zero_arcs() {
    let mut g = Graph::import("0 1,0\n1 2,0 0,0\n2 1,0").unwrap();
    let bp = g.shortest(0, 2).unwrap();
    assert_eq!(bp.distance, 0);
    assert_eq!(bp.path, vec![0, 1, 2]);
}

#[test]
fn can_search_rejects_bad_layouts() {
    let g = Graph::import("0 1,1\n1 5,1").unwrap();
    assert!(!g.can_search(0));
    let g = Graph::import("0 1,-1\n1").unwrap();
    assert!(!g.can_search(0));
    let g = Graph::import("1 0,1\n0").unwrap();
    assert!(!g.can_search(0));
    let g = Graph::import("0 1,1\n1").unwrap();
    assert!(!g.can_search(2));
    assert!(g.can_search(1));
}

#[test]
fn shortest_with_negative_arcs() {
    // 0 -> 1 costs 5, but 0 -> 2 -> 1 costs 4 - 3 = 1
    let mut g = Graph::import("0 1,5 2,4\n1 3,2\n2 1,-3\n3").unwrap();
    let bp = g.shortest(0, 3).unwrap();
    assert_eq!(bp.distance, 3);
    assert_eq!(bp.path, vec![0, 2, 1, 3]);
    assert_eq!(g.verticies[1].best_distance, 1);
    assert_eq!(g.verticies[1].best_verticie, 2);
    assert_eq!(g.verticies[2].best_distance, 4);
}

#[test]
fn shortest_with_negative_distance_result() {
    let mut g = Graph::import("0 1,-7\n1 2,-1\n2").unwrap();
    let bp = g.shortest(0, 2).unwrap();
    assert_eq!(bp.distance, -8);
    assert_eq!(bp.path, vec![0, 1, 2]);
    assert_eq!(g.verticies[1].best_distance, -7);
}

#[test]
fn shortest_with_cycle_of_zero_weight() {
    // the cycle 1 -> 2 -> 1 weighs nothing; it must not be walked again and again
    let mut g = Graph::import("0 1,3\n1 2,-2 3,1\n2 1,2\n3").unwrap();
    let bp = g.shortest(0, 3).unwrap();
    assert_eq!(bp.distance, 4);
    assert_eq!(bp.path, vec![0, 1, 3]);
}

#[test]
fn shortest_ignores_what_it_cannot_reach() {
    // the last vertex is out of place and points outside the graph, but the
    // search from 0 never comes near it
    let mut g = Graph::import("0 1,2\n1\n7 9,1").unwrap();
    assert!(!g.can_search(0));
    let bp = g.shortest(0, 1).unwrap();
    assert_eq!(bp.distance, 2);
    assert_eq!(bp.path, vec![0, 1]);
    assert_eq!(g.verticies[2].best_distance, i64::MAX);
}

#[test]
fn repeated_search_leaves_same_distances() {
    let mut g = ladder();
    g.shortest(0, 9);
    let first: Vec<i64> = g.verticies.iter().map(|v| v.best_distance).collect();
    g.shortest(5, 2);
    assert_eq!(g.verticies[5].best_distance, 0);
    g.shortest(0, 4);
    let again: Vec<i64> = g.verticies.iter().map(|v| v.best_distance).collect();
    assert_eq!(first, again);
}

#[test]
fn predecessors_lead_back_to_the_source() {
    let mut g = Graph::import("0 1,5 2,4\n1 3,2\n2 1,-3\n3 0,1\n4 3,1").unwrap();
    g.shortest(0, 3);
    let n = g.verticies.len();
    for v in 0..n {
        if g.verticies[v].best_distance == i64::MAX {
            assert_eq!(g.verticies[v].best_verticie, 0);
            continue;
        }
        let mut x = v;
        let mut steps = 0;
        while x != 0 {
            x = g.verticies[x].best_verticie as usize;
            steps += 1;
            assert!(steps < n);
        }
    }
    assert_eq!(g.verticies[4].best_distance, i64::MAX);
}

#[test]
fn reported_path_is_the_predecessor_chain() {
    let mut g = Graph::import("0 1,1 2,1\n1 3,1\n2 3,1\n3 4,0\n4 3,0").unwrap();
    let bp = g.shortest(0, 4).unwrap();
    let mut chain = vec![4u64];
    let mut x = 4u64;
    while x != 0 {
        x = g.verticies[x as usize].best_verticie;
        chain.push(x);
    }
    chain.reverse();
    assert_eq!(bp.path, chain);
    assert_eq!(bp.distance, 2);
    for i in 0..bp.path.len() {
        for j in (i + 1)..bp.path.len() {
            assert_ne!(bp.path[i], bp.path[j]);
        }
    }
}

#[test]
fn repeated_search_gives_the_same_answer() {
    let mut g = Graph::import("0 1,1 2,1\n1 3,1\n2 3,1\n3 4,0\n4 3,0").unwrap();
    let first = g.shortest(0, 3).unwrap();
    let preds: Vec<u64> = g.verticies.iter().map(|v| v.best_verticie).collect();
    g.shortest(2, 0);
    let again = g.shortest(0, 3).unwrap();
    assert_eq!(first.path, again.path);
    assert_eq!(first.distance, again.distance);
    let preds_again: Vec<u64> = g.verticies.iter().map(|v| v.best_verticie).collect();
    assert_eq!(preds, preds_again);
}

#[test]
fn sums_fit_sees_an_overflowing_addition() {
    let mut g = Graph::import("0 1,1\n1 2,9223372036854775807\n2").unwrap();
    assert!(g.can_search(0));
    assert!(!g.sums_fit(0));
}

#[test]
fn sums_up_to_the_limit_fit_but_do_not_reach() {
    let mut g = Graph::import("0 1,9223372036854775806\n1 2,1\n2").unwrap();
    assert!(g.can_search(0));
    assert!(g.sums_fit(0));
    // reaching vertex 2 would take exactly i64::MAX, the mark of an unreached vertex
    assert!(g.shortest(0, 2).is_none());
    assert_eq!(g.verticies[1].best_distance, 9223372036854775806);
    assert_eq!(g.verticies[2].best_distance, i64::MAX);
}

#[test]
fn source_id_is_never_read() {
    // the source sits at index 0 but carries id 7
    let mut g = Graph::import("7 1,2\n1").unwrap();
    assert!(!g.can_search(0));
    let bp = g.shortest(0, 1).unwrap();
    assert_eq!(bp.distance, 2);
    assert_eq!(bp.path, vec![0, 1]);
}

#[test]
fn negative_cycle_beyond_the_unreached_mark_is_never_met() {
    // vertex 2 and its negative cycle lie exactly at the unreached mark
    let mut g = Graph::import("0 1,9223372036854775806\n1 2,1\n2 3,-1\n3 2,-1").unwrap();
    assert!(g.sums_fit(0));
    let bp = g.shortest(0, 1).unwrap();
    assert_eq!(bp.distance, 9223372036854775806);
    assert!(g.shortest(0, 3).is_none());
    assert_eq!(g.verticies[2].best_distance, i64::MAX);
}
