use std::collections::HashSet;
use treapkit::directed_graph::DirectedGraph;

fn sample() -> DirectedGraph {
    let mut graph = DirectedGraph::new();
    for vertex in 0..7 {
        graph.add_vertex(vertex);
    }
    graph.add_edge(0, 1);
    graph.add_edge(0, 2);
    graph.add_edge(1, 3);
    graph.add_edge(2, 3);
    graph.add_edge(3, 4);
    graph.add_edge(4, 1);
    graph.add_edge(5, 6);
    graph
}

#[test]
fn breadth_first_goes_by_distance() {
    let graph = sample();
    assert_eq!(graph.bfs(0), vec![0, 1, 2, 3, 4]);
    assert_eq!(graph.bfs(3), vec![3, 4, 1]);
    assert_eq!(graph.bfs(5), vec![5, 6]);
    assert_eq!(graph.bfs(6), vec![6]);
}

#[test]
fn depth_first_goes_down_before_it_goes_on() {
    let graph = sample();
    assert_eq!(graph.dfs(0), vec![0, 1, 3, 4, 2]);
    assert_eq!(graph.dfs(2), vec![2, 3, 4, 1]);
    assert_eq!(graph.dfs(5), vec![5, 6]);
    assert_eq!(graph.dfs(6), vec![6]);
}

#[test]
fn both_walks_reach_the_same_vertices() {
    let graph = sample();
    for start in 0..7 {
        let wide: HashSet<usize> = graph.bfs(start).into_iter().collect();
        let deep: HashSet<usize> = graph.dfs(start).into_iter().collect();
        assert_eq!(wide, deep);
    }
}

#[test]
fn a_walk_from_an_unknown_vertex_finds_only_it() {
    let graph = DirectedGraph::new();
    assert_eq!(graph.bfs(9), vec![9]);
    assert_eq!(graph.dfs(9), vec![9]);
}

#[test]
fn an_edge_between_vertices_that_were_not_added_is_walked() {
    let mut graph = DirectedGraph::new();
    graph.add_edge(1, 2);
    graph.add_edge(2, 1);
    graph.add_edge(1, 1);
    assert_eq!(graph.bfs(1), vec![1, 2]);
    assert_eq!(graph.dfs(2), vec![2, 1]);
}

#[test]
fn depth_first_goes_on_from_what_was_visited() {
    let graph = sample();
    let mut visited = HashSet::new();
    let mut result = Vec::new();
    graph.dfs_recursive(3, &mut visited, &mut result);
    assert_eq!(result, vec![3, 4, 1]);
    graph.dfs_recursive(0, &mut visited, &mut result);
    assert_eq!(result, vec![3, 4, 1, 0, 2]);
}
