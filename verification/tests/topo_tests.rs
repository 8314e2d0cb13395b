use scheduler::graph::DirectedGraph;
use scheduler::graph::GraphError;
use scheduler::topo::topological_sort;

fn position(schedule: &[usize], v: usize) -> usize {
    schedule.iter().position(|&w| w == v).expect("vertex missing from schedule")
}

#[test]
fn sort_of_sample_dag_respects_every_edge() {
    let mut g = DirectedGraph::new(10);
    g.add_vertices(&(1..10).collect::<Vec<usize>>());
    let edges = vec![(1, 2), (1, 8), (2, 3), (2, 8), (3, 6), (4, 3), (4, 5), (5, 6), (7, 8)];
    g.add_edges(&edges).unwrap();

    let schedule = topological_sort(&g).unwrap();

    assert_eq!(schedule.len(), 9);
    for v in 1..10 {
        assert_eq!(schedule.iter().filter(|&&w| w == v).count(), 1);
    }
    for (u, v) in edges {
        assert!(position(&schedule, u) < position(&schedule, v));
    }
}

#[test]
fn closing_a_cycle_makes_sort_fail() {
    let mut g = DirectedGraph::new(4);
    g.add_vertices(&vec![1, 2]);
    g.add_edge(1, 2).unwrap();
    assert!(topological_sort(&g).is_ok());

    g.add_edge(2, 1).unwrap();
    assert_eq!(topological_sort(&g), Err(GraphError::CycleDetected));
}

#[test]
fn self_loop_is_a_cycle() {
    let mut g = DirectedGraph::new(2);
    g.add_vertex(1);
    g.add_edge(1, 1).unwrap();
    assert_eq!(topological_sort(&g), Err(GraphError::CycleDetected));
}

#[test]
fn sort_of_empty_graph_is_empty() {
    let g = DirectedGraph::new(0);
    assert_eq!(topological_sort(&g), Ok(Vec::new()));
}

#[test]
fn sort_of_isolated_vertices_lists_them_once() {
    let mut g = DirectedGraph::new(4);
    g.add_vertices(&vec![0, 1, 2, 3]);
    let schedule = topological_sort(&g).unwrap();
    let mut sorted = schedule.clone();
    sorted.sort();
    assert_eq!(sorted, vec![0, 1, 2, 3]);
}

#[test]
fn sort_of_chain_is_the_chain() {
    let mut g = DirectedGraph::new(4);
    g.add_vertices(&vec![0, 1, 2, 3]);
    g.add_edges(&vec![(2, 1), (1, 0), (3, 2)]).unwrap();
    assert_eq!(topological_sort(&g), Ok(vec![3, 2, 1, 0]));
}
