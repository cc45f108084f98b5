use graph_engine::bipartite::ColorStep;
use graph_engine::graph::{Graph, GraphError, OppositeNode, PathPart};

/// Brute-force component count: nodes with no connected earlier node, via
/// repeated public connectivity queries (undirected graphs only).
fn brute_force_components(g: &Graph) -> usize {
    let ids: Vec<u64> = g.nodes.iter().map(|r| r.id).collect();
    let mut count = 0;
    for (i, &n) in ids.iter().enumerate() {
        let mut first = true;
        for &m in &ids[..i] {
            if g.connected(m, n).unwrap() {
                first = false;
                break;
            }
        }
        if first {
            count += 1;
        }
    }
    count
}

/// The structural edge-listing invariant, read off the public fields: every
/// edge is in its first endpoint's list, in its second endpoint's list
/// exactly when the endpoints differ, each at most once, and in no other
/// list.
fn check_edge_listing(g: &Graph) {
    for er in &g.edges {
        for nr in &g.nodes {
            let occurrences = nr.edges.iter().filter(|&&e| e == er.id).count();
            if nr.id == er.start || (nr.id == er.end && er.start != er.end) {
                assert_eq!(occurrences, 1);
            } else if nr.id == er.end {
                assert_eq!(occurrences, 1); // self-loop: listed once by its one node
            } else {
                assert_eq!(occurrences, 0);
            }
        }
    }
}

fn check_aggregates(g: &Graph) {
    assert_eq!(g.degree(), 2 * g.edges.len());
    assert_eq!(g.components(), brute_force_components(g));
    check_edge_listing(g);
}

#[test]
fn fresh_engine_is_empty() {
    let g = Graph::new();
    assert_eq!(g.node_count(), 0);
    assert_eq!(g.degree(), 0);
    assert_eq!(g.components(), 0);
    assert!(!g.directed());
    assert_eq!(g.last_node_num(), 0);
    assert_eq!(g.last_edge_num(), 0);
}

#[test]
fn merge_and_split_components() {
    let mut g = Graph::new();
    assert_eq!(g.add_node(1), Ok(()));
    assert_eq!(g.add_node(2), Ok(()));
    assert_eq!(g.components(), 2);
    assert_eq!(g.add_edge(10, 1, 2), Ok(()));
    assert_eq!(g.components(), 1);
    assert_eq!(g.connected(1, 2), Ok(true));
    assert_eq!(g.remove_edge(10, 1, 2), Ok(()));
    assert_eq!(g.components(), 2);
    assert_eq!(g.connected(1, 2), Ok(false));
}

#[test]
fn components_track_brute_force() {
    let mut g = Graph::new();
    for n in 1..=6 {
        g.add_node(n).unwrap();
        check_aggregates(&g);
    }
    g.add_edge(10, 1, 2).unwrap();
    check_aggregates(&g);
    g.add_edge(11, 2, 3).unwrap();
    check_aggregates(&g);
    g.add_edge(12, 4, 5).unwrap();
    check_aggregates(&g);
    g.add_edge(13, 1, 3).unwrap(); // closes a cycle: no merge
    check_aggregates(&g);
    g.add_edge(14, 6, 6).unwrap(); // self-loop: no merge
    check_aggregates(&g);
    g.remove_edge(11, 2, 3).unwrap(); // cycle edge: no split
    check_aggregates(&g);
    g.remove_edge(13, 1, 3).unwrap(); // splits {1,2} from {3}
    check_aggregates(&g);
    g.remove_edge(14, 6, 6).unwrap();
    check_aggregates(&g);
    g.remove_edge(10, 1, 2).unwrap();
    g.remove_edge(12, 4, 5).unwrap();
    check_aggregates(&g);
    for n in 1..=6 {
        g.remove_node(n).unwrap();
        check_aggregates(&g);
    }
    assert_eq!(g.node_count(), 0);
    assert_eq!(g.components(), 0);
}

#[test]
fn degree_counts_two_per_edge() {
    let mut g = Graph::new();
    g.add_node(1).unwrap();
    g.add_node(2).unwrap();
    assert_eq!(g.degree(), 0);
    g.add_edge(10, 1, 2).unwrap();
    assert_eq!(g.degree(), 2);
    g.add_edge(11, 1, 1).unwrap();
    assert_eq!(g.degree(), 4);
    g.remove_edge(10, 1, 2).unwrap();
    assert_eq!(g.degree(), 2);
}

#[test]
fn path_edges_are_bridges() {
    let mut g = Graph::new();
    for n in [1, 2, 3] {
        g.add_node(n).unwrap();
    }
    g.add_edge(10, 1, 2).unwrap();
    g.add_edge(11, 2, 3).unwrap();
    assert_eq!(g.is_bridge(10), Ok(true));
    assert_eq!(g.is_bridge(11), Ok(true));
}

#[test]
fn triangle_edges_are_not_bridges() {
    let mut g = Graph::new();
    for n in [1, 2, 3] {
        g.add_node(n).unwrap();
    }
    g.add_edge(10, 1, 2).unwrap();
    g.add_edge(11, 2, 3).unwrap();
    g.add_edge(12, 3, 1).unwrap();
    assert_eq!(g.is_bridge(10), Ok(false));
    assert_eq!(g.is_bridge(11), Ok(false));
    assert_eq!(g.is_bridge(12), Ok(false));
}

#[test]
fn odd_cycle_is_not_bipartite() {
    let mut g = Graph::new();
    for n in [1, 2, 3] {
        g.add_node(n).unwrap();
    }
    g.add_edge(10, 1, 2).unwrap();
    g.add_edge(11, 2, 3).unwrap();
    g.add_edge(12, 3, 1).unwrap();
    let (ok, _) = g.bipartite_walk(1).unwrap();
    assert!(!ok);
}

#[test]
fn even_cycle_is_bipartite() {
    let mut g = Graph::new();
    for n in [1, 2, 3, 4] {
        g.add_node(n).unwrap();
    }
    g.add_edge(10, 1, 2).unwrap();
    g.add_edge(11, 2, 3).unwrap();
    g.add_edge(12, 3, 4).unwrap();
    g.add_edge(13, 4, 1).unwrap();
    let (ok, steps) = g.bipartite_walk(1).unwrap();
    assert!(ok);
    assert_eq!(steps.len(), 4);
    assert_eq!(steps[0], ColorStep { node: 1, edge: None, color: 0 });
    // adjacent nodes always land in opposite sets
    for s in &steps {
        let expected = match s.node {
            1 | 3 => 0,
            _ => 1,
        };
        assert_eq!(s.color, expected);
    }
}

#[test]
fn tree_is_bipartite() {
    let mut g = Graph::new();
    for n in [1, 2, 3, 4, 5] {
        g.add_node(n).unwrap();
    }
    g.add_edge(10, 1, 2).unwrap();
    g.add_edge(11, 1, 3).unwrap();
    g.add_edge(12, 2, 4).unwrap();
    g.add_edge(13, 2, 5).unwrap();
    let (ok, steps) = g.bipartite_walk(1).unwrap();
    assert!(ok);
    assert_eq!(steps.len(), 5);
}

#[test]
fn self_loop_defeats_bipartiteness() {
    let mut g = Graph::new();
    g.add_node(1).unwrap();
    g.add_node(2).unwrap();
    g.add_edge(10, 1, 2).unwrap();
    g.add_edge(11, 2, 2).unwrap();
    let (ok, _) = g.bipartite_walk(1).unwrap();
    assert!(!ok);
}

#[test]
fn shortest_path_weighs_its_options() {
    let mut g = Graph::new();
    for n in [1, 2, 3, 4] {
        g.add_node(n).unwrap();
    }
    g.add_edge(10, 1, 2).unwrap();
    g.add_edge(11, 2, 3).unwrap();
    g.add_edge(12, 3, 4).unwrap();
    let weights: Vec<(u64, u32)> = vec![(10, 1), (11, 5), (12, 2)];
    let path = g.dijkstra_path(1, 4, Some(&weights)).unwrap().unwrap();
    let nodes: Vec<u64> = path.iter().map(|p| p.node).collect();
    assert_eq!(nodes, vec![1, 2, 3, 4]);
    let total: u32 = path
        .iter()
        .filter_map(|p| p.edge)
        .map(|e| weights.iter().find(|w| w.0 == e).unwrap().1)
        .sum();
    assert_eq!(total, 8);
}

#[test]
fn shortest_path_takes_a_detour_when_cheaper() {
    let mut g = Graph::new();
    for n in [1, 2, 3] {
        g.add_node(n).unwrap();
    }
    g.add_edge(10, 1, 3).unwrap();
    g.add_edge(11, 1, 2).unwrap();
    g.add_edge(12, 2, 3).unwrap();
    let weights: Vec<(u64, u32)> = vec![(10, 10), (11, 1), (12, 1)];
    let path = g.dijkstra_path(1, 3, Some(&weights)).unwrap().unwrap();
    let nodes: Vec<u64> = path.iter().map(|p| p.node).collect();
    assert_eq!(nodes, vec![1, 2, 3]);
}

#[test]
fn shortest_path_without_weights_counts_hops() {
    let mut g = Graph::new();
    for n in [1, 2, 3, 4] {
        g.add_node(n).unwrap();
    }
    g.add_edge(10, 1, 2).unwrap();
    g.add_edge(11, 2, 4).unwrap();
    g.add_edge(12, 1, 3).unwrap();
    g.add_edge(13, 3, 4).unwrap();
    let path = g.dijkstra_path(1, 4, None).unwrap().unwrap();
    assert_eq!(path.len(), 3);
    assert_eq!(path[0], PathPart { node: 1, edge: None });
    assert_eq!(path[2].node, 4);
}

#[test]
fn shortest_path_to_unreachable_is_none() {
    let mut g = Graph::new();
    g.add_node(1).unwrap();
    g.add_node(2).unwrap();
    assert_eq!(g.dijkstra_path(1, 2, None), Ok(None));
}

#[test]
fn shortest_path_to_self_is_trivial() {
    let mut g = Graph::new();
    g.add_node(1).unwrap();
    let path = g.dijkstra_path(1, 1, None).unwrap().unwrap();
    assert_eq!(path, vec![PathPart { node: 1, edge: None }]);
}

#[test]
fn self_loop_counts_twice_but_lists_once() {
    let mut g = Graph::new();
    g.add_node(1).unwrap();
    let degree_before = g.degree();
    g.add_edge(10, 1, 1).unwrap();
    assert_eq!(g.degree(), degree_before + 2);
    let list: &Vec<u64> = &g.nodes.iter().find(|r| r.id == 1).unwrap().edges;
    assert_eq!(list.iter().filter(|&&e| e == 10).count(), 1);
    assert_eq!(g.opposite(1, 10), OppositeNode::Loop);
    // the loop is never followed
    let walk = g.spanning_tree(1).unwrap();
    assert_eq!(walk.len(), 1);
    let (ok, _) = g.bipartite_walk(1).unwrap();
    assert!(!ok);
    let path = g.dijkstra_path(1, 1, None).unwrap().unwrap();
    assert_eq!(path.len(), 1);
    assert_eq!(g.adjacent_nodes(1), Ok(vec![]));
}

#[test]
fn directed_mode_reinterprets_stored_edges() {
    let mut g = Graph::new();
    g.add_node(1).unwrap();
    g.add_node(2).unwrap();
    g.set_directed(true);
    g.add_edge(10, 1, 2).unwrap();
    assert_eq!(g.connected(1, 2), Ok(true));
    assert_eq!(g.connected(2, 1), Ok(false));
    let from_b = g.spanning_tree(2).unwrap();
    assert!(from_b.iter().all(|p| p.node != 1));
    // components ignore direction
    assert_eq!(g.components(), 1);
    // flipping the flag retroactively reinterprets the same stored pair
    g.set_directed(false);
    assert_eq!(g.connected(2, 1), Ok(true));
}

#[test]
fn component_count_ignores_direction() {
    let mut g = Graph::new();
    g.set_directed(true);
    g.add_node(1).unwrap();
    g.add_node(2).unwrap();
    g.add_node(3).unwrap();
    g.add_edge(10, 1, 2).unwrap();
    assert_eq!(g.components(), 2);
    // a second, antiparallel edge merges nothing: the nodes already share a
    // component even though neither forward-reaches the other both ways
    g.add_edge(11, 2, 1).unwrap();
    assert_eq!(g.components(), 2);
    // two arrows into the same head still form one component
    g.add_edge(12, 3, 2).unwrap();
    assert_eq!(g.components(), 1);
    g.remove_edge(12, 3, 2).unwrap();
    assert_eq!(g.components(), 2);
    g.remove_edge(11, 2, 1).unwrap();
    assert_eq!(g.components(), 2);
    g.remove_edge(10, 1, 2).unwrap();
    assert_eq!(g.components(), 3);
}

#[test]
fn opposite_classifies_every_case() {
    let mut g = Graph::new();
    for n in [1, 2, 3] {
        g.add_node(n).unwrap();
    }
    g.add_edge(10, 1, 2).unwrap();
    assert_eq!(g.opposite(1, 10), OppositeNode::Adjacent(2));
    assert_eq!(g.opposite(2, 10), OppositeNode::Adjacent(1));
    assert_eq!(g.opposite(3, 10), OppositeNode::NotIncident);
    assert_eq!(g.opposite(1, 99), OppositeNode::NotIncident);
    g.set_directed(true);
    assert_eq!(g.opposite(1, 10), OppositeNode::Adjacent(2));
    assert_eq!(g.opposite(2, 10), OppositeNode::CounterAdjacent(1));
}

#[test]
fn adjacency_queries_ignore_direction() {
    let mut g = Graph::new();
    for n in [1, 2, 3] {
        g.add_node(n).unwrap();
    }
    g.set_directed(true);
    g.add_edge(10, 1, 2).unwrap();
    assert_eq!(g.is_adjacent(1, 2), Ok(true));
    assert_eq!(g.is_adjacent(2, 1), Ok(true));
    assert_eq!(g.is_adjacent(1, 3), Ok(false));
    assert_eq!(g.adjacent_nodes(1), Ok(vec![2]));
    assert_eq!(g.adjacent_nodes(2), Ok(vec![1]));
}

#[test]
fn spanning_tree_visits_each_reachable_node_once() {
    let mut g = Graph::new();
    for n in [1, 2, 3, 4, 5] {
        g.add_node(n).unwrap();
    }
    g.add_edge(10, 1, 2).unwrap();
    g.add_edge(11, 1, 3).unwrap();
    g.add_edge(12, 2, 3).unwrap();
    g.add_edge(13, 3, 4).unwrap();
    let walk = g.spanning_tree(1).unwrap();
    assert_eq!(walk[0], PathPart { node: 1, edge: None });
    let mut nodes: Vec<u64> = walk.iter().map(|p| p.node).collect();
    nodes.sort();
    assert_eq!(nodes, vec![1, 2, 3, 4]); // node 5 is unreachable
    for p in walk.iter().skip(1) {
        assert!(p.edge.is_some());
    }
}

#[test]
fn spanning_tree_expands_depth_first() {
    let mut g = Graph::new();
    for n in [1, 2, 3, 4, 5] {
        g.add_node(n).unwrap();
    }
    g.add_edge(10, 1, 2).unwrap();
    g.add_edge(11, 1, 3).unwrap();
    g.add_edge(12, 2, 4).unwrap();
    g.add_edge(13, 3, 5).unwrap();
    let walk = g.spanning_tree(1).unwrap();
    // discovery happens while expanding the most recently discovered node:
    // both neighbors of 1 first, then 3's subtree before 2's
    let nodes: Vec<u64> = walk.iter().map(|p| p.node).collect();
    assert_eq!(nodes, vec![1, 2, 3, 5, 4]);
    assert_eq!(walk[1].edge, Some(10));
    assert_eq!(walk[2].edge, Some(11));
    assert_eq!(walk[3].edge, Some(13));
    assert_eq!(walk[4].edge, Some(12));
}

#[test]
fn adjacency_matrix_sorts_labels_and_marks_forward_cells() {
    let mut g = Graph::new();
    for n in [1, 2, 3] {
        g.add_node(n).unwrap();
    }
    g.set_directed(true);
    g.add_edge(10, 1, 2).unwrap();
    g.add_edge(11, 3, 3).unwrap();
    let labels: Vec<(u64, String)> = vec![
        (2, String::from("b")),
        (1, String::from("a")),
        (3, String::from("c")),
    ];
    let m = g.adjacency_matrix(&labels).unwrap();
    assert_eq!(m.h_headers, vec!["a", "b", "c"]);
    assert_eq!(m.v_headers, m.h_headers);
    assert_eq!(m.row_nodes, vec![1, 2, 3]);
    // directed edge 1 -> 2: cell [a][b] set, [b][a] clear; loop on the diagonal
    assert_eq!(m.data[0], vec![0, 1, 0]);
    assert_eq!(m.data[1], vec![0, 0, 0]);
    assert_eq!(m.data[2], vec![0, 0, 1]);
}

#[test]
fn adjacency_matrix_is_symmetric_when_undirected() {
    let mut g = Graph::new();
    g.add_node(1).unwrap();
    g.add_node(2).unwrap();
    g.add_edge(10, 1, 2).unwrap();
    let labels: Vec<(u64, String)> = vec![(1, String::from("x")), (2, String::from("y"))];
    let m = g.adjacency_matrix(&labels).unwrap();
    assert_eq!(m.data[0], vec![0, 1]);
    assert_eq!(m.data[1], vec![1, 0]);
}

#[test]
fn adjacency_matrix_rejects_bad_label_tables() {
    let mut g = Graph::new();
    g.add_node(1).unwrap();
    g.add_node(2).unwrap();
    let missing: Vec<(u64, String)> = vec![(1, String::from("a"))];
    assert_eq!(
        g.adjacency_matrix(&missing).unwrap_err(),
        GraphError::PreconditionViolation
    );
    let unregistered: Vec<(u64, String)> =
        vec![(1, String::from("a")), (2, String::from("b")), (9, String::from("z"))];
    assert_eq!(
        g.adjacency_matrix(&unregistered).unwrap_err(),
        GraphError::PreconditionViolation
    );
    let duplicated: Vec<(u64, String)> =
        vec![(1, String::from("a")), (2, String::from("b")), (1, String::from("a2"))];
    assert_eq!(
        g.adjacency_matrix(&duplicated).unwrap_err(),
        GraphError::PreconditionViolation
    );
}

#[test]
fn precondition_violations_leave_the_graph_untouched() {
    let mut g = Graph::new();
    g.add_node(1).unwrap();
    g.add_node(2).unwrap();
    g.add_edge(10, 1, 2).unwrap();

    assert_eq!(g.add_node(1), Err(GraphError::PreconditionViolation));
    assert_eq!(g.remove_node(9), Err(GraphError::PreconditionViolation));
    // a node with incident edges cannot leave
    assert_eq!(g.remove_node(1), Err(GraphError::PreconditionViolation));
    // unregistered endpoint, duplicate edge handle
    assert_eq!(g.add_edge(11, 1, 9), Err(GraphError::PreconditionViolation));
    assert_eq!(g.add_edge(10, 1, 2), Err(GraphError::PreconditionViolation));
    // wrong endpoint pair, unregistered edge
    assert_eq!(g.remove_edge(10, 2, 1), Err(GraphError::PreconditionViolation));
    assert_eq!(g.remove_edge(99, 1, 2), Err(GraphError::PreconditionViolation));

    assert_eq!(g.node_count(), 2);
    assert_eq!(g.degree(), 2);
    assert_eq!(g.components(), 1);

    // queries with unregistered handles fail the same way
    assert_eq!(g.connected(9, 1), Err(GraphError::PreconditionViolation));
    assert_eq!(g.spanning_tree(9).unwrap_err(), GraphError::PreconditionViolation);
    assert_eq!(g.bipartite_walk(9).unwrap_err(), GraphError::PreconditionViolation);
    assert_eq!(g.is_bridge(99), Err(GraphError::PreconditionViolation));
    assert_eq!(
        g.dijkstra_path(9, 1, None).unwrap_err(),
        GraphError::PreconditionViolation
    );
    assert_eq!(g.is_adjacent(9, 1), Err(GraphError::PreconditionViolation));
    assert_eq!(g.adjacent_nodes(9).unwrap_err(), GraphError::PreconditionViolation);
}

#[test]
fn creation_counters_only_grow() {
    let mut g = Graph::new();
    g.add_node(1).unwrap();
    g.add_node(2).unwrap();
    assert_eq!(g.last_node_num(), 2);
    g.add_edge(10, 1, 2).unwrap();
    assert_eq!(g.last_edge_num(), 1);
    g.remove_edge(10, 1, 2).unwrap();
    g.remove_node(2).unwrap();
    assert_eq!(g.last_node_num(), 2);
    assert_eq!(g.last_edge_num(), 1);
}

#[test]
fn path_part_builders() {
    assert_eq!(PathPart::with_edge(3, 7), PathPart { node: 3, edge: Some(7) });
    assert_eq!(PathPart::without_edge(3), PathPart { node: 3, edge: None });
}
