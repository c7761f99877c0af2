use treapkit::graph_kruskal::{find, kruskal_mst, union, Edge};

fn square_with_diagonal() -> Vec<Vec<i32>> {
    vec![
        vec![1, 1, 2, 4],
        vec![0, 1, 2, 2, 3, 5],
        vec![0, 4, 1, 2, 3, 3],
        vec![1, 5, 2, 3],
    ]
}

#[test]
fn find_gives_the_root_and_shortens_the_way() {
    let mut parent = vec![0, 0, 1, 2];
    assert_eq!(find(&mut parent, 3), 0);
    assert_eq!(parent, vec![0, 0, 0, 0]);
}

#[test]
fn find_of_a_root_is_the_root() {
    let mut parent = vec![0, 1, 1];
    assert_eq!(find(&mut parent, 1), 1);
    assert_eq!(parent, vec![0, 1, 1]);
}

#[test]
fn union_of_equal_ranks_hangs_the_second_below_the_first() {
    let mut parent = vec![0, 1, 2];
    let mut rank = vec![0, 0, 0];
    union(&mut parent, &mut rank, 0, 1);
    assert_eq!(parent, vec![0, 0, 2]);
    assert_eq!(rank, vec![1, 0, 0]);
}

#[test]
fn union_hangs_the_lower_rank_below_the_higher() {
    let mut parent = vec![0, 0, 2];
    let mut rank = vec![1, 0, 0];
    union(&mut parent, &mut rank, 2, 1);
    assert_eq!(parent, vec![0, 0, 0]);
    assert_eq!(rank, vec![1, 0, 0]);
    assert_eq!(find(&mut parent, 2), find(&mut parent, 1));
}

#[test]
fn kruskal_takes_the_cheapest_edges_that_join() {
    let graph = square_with_diagonal();
    let tree = kruskal_mst(&graph);
    let weights: Vec<i32> = tree.iter().map(|edge| edge.weight).collect();
    assert_eq!(weights, vec![1, 2, 3]);
    let total: i32 = weights.iter().sum();
    assert_eq!(total, 6);
}

#[test]
fn kruskal_edges_are_edges_of_the_graph() {
    let graph = square_with_diagonal();
    for edge in kruskal_mst(&graph) {
        let row = &graph[edge.u];
        let mut seen = false;
        for pair in row.chunks(2) {
            if pair[0] == edge.v as i32 && pair[1] == edge.weight {
                seen = true;
            }
        }
        assert!(seen);
    }
}

#[test]
fn kruskal_joins_every_vertex() {
    let graph = square_with_diagonal();
    let tree = kruskal_mst(&graph);
    let mut parent: Vec<usize> = (0..graph.len()).collect();
    let mut rank = vec![0; graph.len()];
    for edge in &tree {
        assert_ne!(find(&mut parent, edge.u), find(&mut parent, edge.v));
        union(&mut parent, &mut rank, edge.u, edge.v);
    }
    let root = find(&mut parent, 0);
    for vertex in 0..graph.len() {
        assert_eq!(find(&mut parent, vertex), root);
    }
}

#[test]
fn kruskal_sorts_the_edges_by_weight() {
    let graph = vec![vec![1, 9, 2, 1], vec![0, 9, 2, 7], vec![0, 1, 1, 7]];
    let tree = kruskal_mst(&graph);
    assert_eq!(tree.len(), 2);
    assert_eq!(tree[0].weight, 1);
    assert_eq!(tree[1].weight, 7);
}

#[test]
fn kruskal_of_nothing_is_nothing() {
    assert_eq!(kruskal_mst(&Vec::new()), Vec::<Edge>::new());
    assert_eq!(kruskal_mst(&vec![Vec::new()]), Vec::<Edge>::new());
}

#[test]
fn kruskal_leaves_apart_what_no_edge_joins() {
    let graph = vec![vec![1, 2], vec![0, 2], vec![3, 5], vec![2, 5]];
    let tree = kruskal_mst(&graph);
    let weights: Vec<i32> = tree.iter().map(|edge| edge.weight).collect();
    assert_eq!(weights, vec![2, 5]);
}
