use race_route::graph::Graph;
use race_route::race::Edge;

#[test]
fn adjacency_rows_follow_input_order() {
    let edges = vec![
        Edge { u: 0, v: 1, distance: 5 },
        Edge { u: 1, v: 2, distance: 7 },
        Edge { u: 0, v: 2, distance: 9 },
    ];
    let g = Graph::new(3, &edges);
    assert_eq!(g.adj.len(), 3);
    assert_eq!(g.adj[0], vec![(1, 5), (2, 9)]);
    assert_eq!(g.adj[1], vec![(2, 7)]);
    assert!(g.adj[2].is_empty());
}

#[test]
fn every_node_gets_a_row_even_without_edges() {
    let edges: Vec<Edge> = Vec::new();
    let g = Graph::new(4, &edges);
    assert_eq!(g.adj.len(), 4);
    for row in &g.adj {
        assert!(row.is_empty());
    }
}

#[test]
fn parallel_edges_are_kept() {
    let edges = vec![
        Edge { u: 0, v: 1, distance: 5 },
        Edge { u: 0, v: 1, distance: 3 },
    ];
    let g = Graph::new(2, &edges);
    assert_eq!(g.adj[0], vec![(1, 5), (1, 3)]);
}
