use scheduler::graph::DirectedGraph;
use scheduler::graph::GraphError;

#[test]
fn graph_demo() {
    let mut g = DirectedGraph::new(10);
    assert_eq!(g.num_vertices(), 0);

    assert!(g.add_vertex(0));
    assert_eq!(g.num_vertices(), 1);

    assert!(g.add_vertex(3));
    assert_eq!(g.num_vertices(), 2);

    assert_eq!(g.edges_from(0).unwrap().len(), 0);
    assert_eq!(g.edges_from(3).unwrap().len(), 0);

    let _ = g.add_edge(0, 3);
    assert_eq!(g.edges_from(0).unwrap().len(), 1);
    assert_eq!(g.edges_from(3).unwrap().len(), 0);

    assert!(matches!(g.has_edge(0, 3), Ok(true)));
    assert!(matches!(g.has_edge(3, 0), Ok(false)));
    assert!(matches!(g.has_edge(0, 2), Err(_)));
}

#[test]
fn add_vertex_twice_keeps_count() {
    let mut g = DirectedGraph::new(4);
    assert!(g.add_vertex(2));
    let before = g.num_vertices();
    assert!(!g.add_vertex(2));
    assert_eq!(g.num_vertices(), before);
    assert_eq!(g.num_vertices(), 1);
}

#[test]
fn add_edge_missing_vertex_changes_nothing() {
    let mut g = DirectedGraph::new(4);
    g.add_vertices(&vec![1, 2]);
    assert_eq!(g.add_edge(1, 2), Ok(()));

    assert_eq!(g.add_edge(1, 99), Err(GraphError::MissingVertex));
    assert_eq!(g.add_edge(99, 1), Err(GraphError::MissingVertex));

    assert_eq!(g.edges_from(1).unwrap(), vec![2]);
    assert_eq!(g.edges_from(2).unwrap(), Vec::<usize>::new());
}

#[test]
fn add_edges_is_all_or_nothing() {
    let mut g = DirectedGraph::new(4);
    g.add_vertices(&vec![1, 2, 3]);
    let r = g.add_edges(&vec![(1, 2), (2, 99), (2, 3)]);
    assert_eq!(r, Err(GraphError::MissingVertex));
    assert_eq!(g.edges_from(1).unwrap(), Vec::<usize>::new());
    assert_eq!(g.edges_from(2).unwrap(), Vec::<usize>::new());
    assert_eq!(g.edges_from(3).unwrap(), Vec::<usize>::new());

    let r2 = g.add_edges(&vec![(1, 2), (2, 3)]);
    assert_eq!(r2, Ok(()));
    assert_eq!(g.edges_from(1).unwrap(), vec![2]);
    assert_eq!(g.edges_from(2).unwrap(), vec![3]);
}

#[test]
fn edges_from_absent_vertex_fails() {
    let mut g = DirectedGraph::new(10);
    g.add_vertices(&(1..10).collect::<Vec<usize>>());
    assert_eq!(g.edges_from(999), Err(GraphError::MissingVertex));
}

#[test]
fn parallel_edges_collapse() {
    let mut g = DirectedGraph::new(4);
    g.add_vertices(&vec![0, 1]);
    assert_eq!(g.add_edge(0, 1), Ok(()));
    assert_eq!(g.add_edge(0, 1), Ok(()));
    assert_eq!(g.edges_from(0).unwrap(), vec![1]);
}

#[test]
fn vertices_is_a_snapshot() {
    let mut g = DirectedGraph::new(4);
    g.add_vertices(&vec![0, 2]);
    let snap = g.vertices();
    assert_eq!(snap, vec![0, 2]);
    g.add_vertex(1);
    assert_eq!(snap, vec![0, 2]);
    assert_eq!(g.vertices(), vec![0, 1, 2]);
}

#[test]
fn has_vertex_distinguishes_absent_from_isolated() {
    let mut g = DirectedGraph::new(4);
    g.add_vertex(3);
    assert!(g.has_vertex(3));
    assert!(!g.has_vertex(1));
    assert_eq!(g.edges_from(3).unwrap(), Vec::<usize>::new());
}

#[test]
fn adjacency_queries_follow_insertion() {
    let mut g = DirectedGraph::new(3);
    g.add_vertices(&vec![0, 1, 2]);
    g.add_edges(&vec![(0, 2), (0, 1)]).unwrap();
    assert_eq!(g.out_degree(0), 2);
    assert_eq!(g.neighbor(0, 0), 2);
    assert_eq!(g.neighbor(0, 1), 1);
    assert_eq!(g.out_degree(1), 0);
    let b = g.id_bound();
    for v in g.vertices() {
        assert!(v < b);
    }
}

#[test]
fn has_edge_missing_vertex_fails() {
    let mut g = DirectedGraph::new(4);
    g.add_vertex(0);
    assert_eq!(g.has_edge(0, 5), Err(GraphError::MissingVertex));
    assert_eq!(g.has_edge(5, 0), Err(GraphError::MissingVertex));
}
