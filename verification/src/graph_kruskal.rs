//! Sets of vertices that merge, kept as a forest of parents, and the
//! cheapest edges that join all of a graph, taken in the order of their
//! weights.

use vstd::prelude::*;

verus! {

/// An edge between two vertices, with its weight.
#[derive(Debug, Clone, Copy, PartialEq, Eq)]
pub struct Edge {
    pub u: usize,
    pub v: usize,
    pub weight: i32,
}

/// Whether `parent` is a forest that `rank` measures: every parent is a
/// vertex, and every vertex that is not its own parent has a rank below
/// its parent's.
pub open spec fn forest(parent: Seq<usize>, rank: Seq<usize>) -> bool {
    &&& parent.len() == rank.len()
    &&& forall|i: int|
        0 <= i < parent.len() ==> #[trigger] parent[i] < parent.len() && (parent[i] != i ==> rank[i]
            < rank[parent[i] as int])
}

/// The root of the tree in which the vertex `i` stands.
pub open spec fn root_of(parent: Seq<usize>, rank: Seq<usize>, i: int) -> int
    decreases usize::MAX - rank[i],
    when forest(parent, rank) && 0 <= i < parent.len()
{
    if parent[i] != i {
        root_of(parent, rank, parent[i] as int)
    } else {
        i
    }
}

/// The root of a vertex is a vertex that is its own parent, of a rank that
/// is not below the vertex's own.
pub proof fn lemma_root(parent: Seq<usize>, rank: Seq<usize>, i: int)
    requires
        forest(parent, rank),
        0 <= i < parent.len(),
    ensures
        0 <= root_of(parent, rank, i) < parent.len(),
        parent[root_of(parent, rank, i)] == root_of(parent, rank, i),
        rank[i] <= rank[root_of(parent, rank, i)],
        parent[i] != i ==> rank[i] < rank[root_of(parent, rank, i)],
        root_of(parent, rank, parent[i] as int) == root_of(parent, rank, i),
    decreases usize::MAX - rank[i],
{
    if parent[i] != i {
        lemma_root(parent, rank, parent[i] as int);
    }
}

/// Hanging a vertex below the root of its own tree changes no root.
pub proof fn lemma_compress(parent: Seq<usize>, rank: Seq<usize>, i: int, j: int)
    requires
        forest(parent, rank),
        0 <= i < parent.len(),
        0 <= j < parent.len(),
    ensures
        forest(parent.update(i, root_of(parent, rank, i) as usize), rank),
        root_of(parent.update(i, root_of(parent, rank, i) as usize), rank, j) == root_of(
            parent,
            rank,
            j,
        ),
    decreases usize::MAX - rank[j],
{
    let r = root_of(parent, rank, i);
    let changed = parent.update(i, r as usize);
    lemma_root(parent, rank, i);
    assert(forest(changed, rank)) by {
        assert forall|k: int| 0 <= k < changed.len() implies #[trigger] changed[k] < changed.len()
            && (changed[k] != k ==> rank[k] < rank[changed[k] as int]) by {
            if k != i {
                assert(changed[k] == parent[k]);
            }
        }
    }
    lemma_root(parent, rank, j);
    if j == i {
        if r != i {
            lemma_compress(parent, rank, i, r);
            assert(changed[r] == parent[r]);
        }
    } else if parent[j] != j {
        lemma_compress(parent, rank, i, parent[j] as int);
    }
}

/// The root of the tree in which the vertex `i` stands; every vertex on the
/// way to it comes to hang below it.
pub fn find(parent: &mut Vec<usize>, i: usize) -> (root: usize)
    requires
        i < old(parent).len(),
        exists|rank: Seq<usize>| forest(old(parent)@, rank),
    ensures
        final(parent).len() == old(parent).len(),
        forall|rank: Seq<usize>| #[trigger]
            forest(old(parent)@, rank) ==> {
                &&& forest(final(parent)@, rank)
                &&& root == root_of(old(parent)@, rank, i as int)
                &&& forall|j: int|
                    0 <= j < old(parent).len() ==> root_of(final(parent)@, rank, j) == root_of(
                        old(parent)@,
                        rank,
                        j,
                    )
            },
    decreases usize::MAX - (choose|rank: Seq<usize>| forest(old(parent)@, rank))[i as int],
{
    let ghost measure = choose|rank: Seq<usize>| forest(old(parent)@, rank);
    let ghost before = parent@;
    let up = parent[i];
    if up != i {
        proof {
            assert(before[i as int] < before.len());
        }
        let root = find(parent, up);
        let ghost pressed = parent@;
        parent.set(i, root);
        proof {
            assert forall|rank: Seq<usize>| #[trigger] forest(before, rank) implies {
                &&& forest(parent@, rank)
                &&& root == root_of(before, rank, i as int)
                &&& forall|j: int|
                    0 <= j < before.len() ==> root_of(parent@, rank, j) == root_of(before, rank, j)
            } by {
                lemma_root(before, rank, i as int);
                assert(forest(pressed, rank));
                assert(root == root_of(pressed, rank, i as int)) by {
                    lemma_root(pressed, rank, i as int);
                    assert(root_of(pressed, rank, i as int) == root_of(before, rank, i as int));
                }
                assert forall|j: int| 0 <= j < before.len() implies root_of(parent@, rank, j)
                    == root_of(before, rank, j) by {
                    lemma_compress(pressed, rank, i as int, j);
                }
                lemma_compress(pressed, rank, i as int, i as int);
            }
        }
        root
    } else {
        proof {
            assert forall|rank: Seq<usize>| #[trigger] forest(before, rank) implies up
                == root_of(before, rank, i as int) by {}
        }
        up
    }
}

/// Joins the trees of `x` and `y`: the root of the lower rank comes to hang
/// below the other, and where both ranks are the same, the root of `y`
/// below that of `x`, whose rank grows by one.
pub fn union(parent: &mut Vec<usize>, rank: &mut Vec<usize>, x: usize, y: usize)
    requires
        forest(old(parent)@, old(rank)@),
        x < old(parent).len(),
        y < old(parent).len(),
        forall|i: int| 0 <= i < old(rank).len() ==> old(rank)[i] < usize::MAX,
    ensures
        forest(final(parent)@, final(rank)@),
        final(parent).len() == old(parent).len(),
        forall|i: int|
            0 <= i < old(rank).len() ==> old(rank)[i] <= #[trigger] final(rank)[i] <= old(rank)[i]
                + 1,
        root_of(final(parent)@, final(rank)@, x as int) == root_of(
            final(parent)@,
            final(rank)@,
            y as int,
        ),
        forall|j: int|
            0 <= j < old(parent).len() ==> #[trigger] root_of(final(parent)@, final(rank)@, j)
                == if joined(old(parent)@, old(rank)@, x as int, y as int, j) {
                winner(old(parent)@, old(rank)@, x as int, y as int)
            } else {
                root_of(old(parent)@, old(rank)@, j)
            },
{
    let ghost ranks = rank@;
    let x_root = find(parent, x);
    proof {
        assert(forest(old(parent)@, ranks));
    }
    let ghost once = parent@;
    let y_root = find(parent, y);
    proof {
        assert(forest(once, ranks));
        lemma_root(once, ranks, x as int);
        lemma_root(once, ranks, y as int);
        lemma_root(parent@, ranks, x as int);
        lemma_root(parent@, ranks, y as int);
    }
    let ghost twice = parent@;
    if rank[x_root] < rank[y_root] {
        parent.set(x_root, y_root);
        proof {
            assert forall|j: int| 0 <= j < twice.len() implies root_of(parent@, ranks, j) == if root_of(
                twice,
                ranks,
                j,
            ) == x_root {
                y_root as int
            } else {
                root_of(twice, ranks, j)
            } by {
                lemma_join(twice, ranks, ranks, x_root as int, y_root as int, j);
            }
            lemma_join(twice, ranks, ranks, x_root as int, y_root as int, x as int);
        }
    } else if rank[x_root] > rank[y_root] {
        parent.set(y_root, x_root);
        proof {
            assert forall|j: int| 0 <= j < twice.len() implies root_of(parent@, ranks, j) == if root_of(
                twice,
                ranks,
                j,
            ) == y_root {
                x_root as int
            } else {
                root_of(twice, ranks, j)
            } by {
                lemma_join(twice, ranks, ranks, y_root as int, x_root as int, j);
            }
            lemma_join(twice, ranks, ranks, y_root as int, x_root as int, x as int);
        }
    } else {
        parent.set(y_root, x_root);
        let grown = rank[x_root] + 1;
        rank.set(x_root, grown);
        proof {
            assert forall|j: int| 0 <= j < twice.len() implies root_of(parent@, rank@, j) == if root_of(
                twice,
                ranks,
                j,
            ) == y_root {
                x_root as int
            } else {
                root_of(twice, ranks, j)
            } by {
                lemma_join(twice, ranks, rank@, y_root as int, x_root as int, j);
            }
            lemma_join(twice, ranks, rank@, y_root as int, x_root as int, x as int);
        }
    }
}

/// Whether the vertex `j` stands in the tree of `x` or in that of `y`.
pub open spec fn joined(parent: Seq<usize>, rank: Seq<usize>, x: int, y: int, j: int) -> bool {
    root_of(parent, rank, j) == root_of(parent, rank, x) || root_of(parent, rank, j) == root_of(
        parent,
        rank,
        y,
    )
}

/// The root below which the trees of `x` and `y` come to stand when they
/// are joined: that of `y` where its rank is the higher, else that of `x`.
pub open spec fn winner(parent: Seq<usize>, rank: Seq<usize>, x: int, y: int) -> int {
    if rank[root_of(parent, rank, x)] < rank[root_of(parent, rank, y)] {
        root_of(parent, rank, y)
    } else {
        root_of(parent, rank, x)
    }
}

/// Where the root `low` comes to hang below the root `high`, whose rank
/// may have grown so that it is above the rank of `low`, the vertices of
/// the tree of `low` come to stand in the tree of `high`, and every other
/// vertex keeps its root.
pub proof fn lemma_join(
    parent: Seq<usize>,
    rank: Seq<usize>,
    ranks: Seq<usize>,
    low: int,
    high: int,
    j: int,
)
    requires
        forest(parent, rank),
        0 <= low < parent.len(),
        0 <= high < parent.len(),
        0 <= j < parent.len(),
        parent[low] == low,
        parent[high] == high,
        ranks.len() == rank.len(),
        forall|k: int| 0 <= k < rank.len() && k != high ==> ranks[k] == rank[k],
        rank[high] <= ranks[high],
        low != high ==> rank[low] < ranks[high],
    ensures
        forest(parent.update(low, high as usize), ranks),
        root_of(parent.update(low, high as usize), ranks, j) == if root_of(parent, rank, j) == low {
            high
        } else {
            root_of(parent, rank, j)
        },
    decreases usize::MAX - rank[j],
{
    let joined = parent.update(low, high as usize);
    assert(forest(joined, ranks)) by {
        assert forall|k: int| 0 <= k < joined.len() implies #[trigger] joined[k] < joined.len() && (
        joined[k] != k ==> ranks[k] < ranks[joined[k] as int]) by {
            if k != low {
                assert(joined[k] == parent[k]);
                if parent[k] != k {
                    assert(rank[k] < rank[parent[k] as int]);
                    assert(k != high);
                }
            }
        }
    }
    lemma_root(parent, rank, j);
    if j == low {
        assert(root_of(joined, ranks, high) == high);
    } else if parent[j] != j {
        lemma_join(parent, rank, ranks, low, high, parent[j] as int);
    }
}

/// The `j`-th neighbour that the row of the vertex `i` names.
pub open spec fn aim(graph: Seq<Vec<i32>>, i: int, j: int) -> int {
    graph[i]@[2 * j] as int
}

/// The edge that the `j`-th pair in the row of the vertex `i` describes: a
/// neighbour, then the weight of the way to it.
pub open spec fn edge_at(graph: Seq<Vec<i32>>, i: int, j: int) -> Edge {
    Edge { u: i as usize, v: aim(graph, i, j) as usize, weight: graph[i]@[2 * j + 1] }
}

/// Whether every neighbour that a row names is a vertex of the graph.
pub open spec fn well_aimed(graph: Seq<Vec<i32>>) -> bool {
    forall|i: int, j: int|
        0 <= i < graph.len() && 0 <= j < graph[i].len() / 2 ==> 0 <= #[trigger] aim(graph, i, j)
            < graph.len()
}

/// Whether some pair of some row of the graph describes `edge`.
pub open spec fn is_edge(graph: Seq<Vec<i32>>, edge: Edge) -> bool {
    exists|i: int, j: int|
        0 <= i < graph.len() && 0 <= j < graph[i].len() / 2 && #[trigger] edge_at(graph, i, j)
            == edge
}

/// Whether the weights of the edges never fall.
pub open spec fn by_weight(edges: Seq<Edge>) -> bool {
    forall|a: int, b: int| 0 <= a <= b < edges.len() ==> edges[a].weight <= edges[b].weight
}

/// Sorts the edges by weight: `<[Edge]>::sort_unstable_by_key`, with an
/// edge's weight for its key, which sorts the slice by that key without
/// keeping edges of one weight in their order.
#[verifier::external_body]
fn sort_by_weight(edges: &mut Vec<Edge>)
    ensures
        by_weight(final(edges)@),
        final(edges)@.to_multiset() == old(edges)@.to_multiset(),
{
    edges.sort_unstable_by_key(|edge| edge.weight);
}

/// The edges of the graph, row by row.
pub fn edges_of(graph: &Vec<Vec<i32>>) -> (edges: Vec<Edge>)
    requires
        well_aimed(graph@),
    ensures
        forall|k: int|
            0 <= k < edges.len() ==> is_edge(graph@, #[trigger] edges[k]) && edges[k].u
                < graph.len() && edges[k].v < graph.len(),
        forall|i: int, j: int|
            0 <= i < graph.len() && 0 <= j < graph[i].len() / 2 ==> edges@.contains(
                #[trigger] edge_at(graph@, i, j),
            ),
{
    let n = graph.len();
    let mut edges: Vec<Edge> = Vec::new();
    let mut i: usize = 0;
    while i < n
        invariant
            n == graph.len(),
            i <= n,
            well_aimed(graph@),
            forall|k: int|
                0 <= k < edges.len() ==> is_edge(graph@, #[trigger] edges[k]) && edges[k].u < n
                    && edges[k].v < n,
            forall|a: int, j: int|
                0 <= a < i && 0 <= j < graph[a].len() / 2 ==> edges@.contains(
                    #[trigger] edge_at(graph@, a, j),
                ),
        decreases n - i,
    {
        let row = &graph[i];
        let pairs = row.len() / 2;
        let mut j: usize = 0;
        while j < pairs
            invariant
                n == graph.len(),
                i < n,
                row == graph[i as int],
                pairs == row.len() / 2,
                j <= pairs,
                well_aimed(graph@),
                forall|k: int|
                    0 <= k < edges.len() ==> is_edge(graph@, #[trigger] edges[k]) && edges[k].u < n
                        && edges[k].v < n,
                forall|a: int, b: int|
                    0 <= a < i && 0 <= b < graph[a].len() / 2 ==> edges@.contains(
                        #[trigger] edge_at(graph@, a, b),
                    ),
                forall|b: int| 0 <= b < j ==> edges@.contains(#[trigger] edge_at(graph@, i as int, b)),
            decreases pairs - j,
        {
            let v = row[j * 2];
            let weight = row[j * 2 + 1];
            proof {
                assert(0 <= aim(graph@, i as int, j as int) < n);
            }
            let ghost before = edges@;
            let edge = Edge { u: i, v: v as usize, weight };
            edges.push(edge);
            proof {
                assert(edge == edge_at(graph@, i as int, j as int));
                assert(edges@[before.len() as int] == edge);
                assert forall|k: int| 0 <= k < before.len() implies edges@[k] == before[k] by {}
                assert forall|a: int, b: int|
                    0 <= a < i && 0 <= b < graph[a].len() / 2 implies edges@.contains(
                    #[trigger] edge_at(graph@, a, b),
                ) by {
                    let k = choose|k: int|
                        0 <= k < before.len() && before[k] == edge_at(graph@, a, b);
                    assert(edges@[k] == before[k]);
                }
                assert forall|b: int| 0 <= b < j + 1 implies edges@.contains(
                    #[trigger] edge_at(graph@, i as int, b),
                ) by {
                    if b < j {
                        let k = choose|k: int|
                            0 <= k < before.len() && before[k] == edge_at(graph@, i as int, b);
                        assert(edges@[k] == before[k]);
                    }
                }
            }
            j += 1;
        }
        i += 1;
    }
    edges
}

/// The set in which the vertex `v` stands once the edges have joined
/// their ends one after another, by the name of one of its vertices: each
/// edge gives the set of its first end's name to the set of its second end.
pub open spec fn label(edges: Seq<Edge>, v: int) -> int
    decreases edges.len(),
{
    if edges.len() == 0 {
        v
    } else if label(edges.drop_last(), v) == label(edges.drop_last(), edges.last().v as int) {
        label(edges.drop_last(), edges.last().u as int)
    } else {
        label(edges.drop_last(), v)
    }
}

/// Whether a way along the edges leads from `a` to `b`.
pub open spec fn linked(edges: Seq<Edge>, a: int, b: int) -> bool {
    label(edges, a) == label(edges, b)
}

/// Whether `a` and `b` stand in one tree of the forest.
pub open spec fn same_tree(parent: Seq<usize>, rank: Seq<usize>, a: int, b: int) -> bool {
    root_of(parent, rank, a) == root_of(parent, rank, b)
}

/// Whether the trees of the forest are the sets that the edges join.
pub open spec fn trees_are_sets(parent: Seq<usize>, rank: Seq<usize>, edges: Seq<Edge>) -> bool {
    forall|a: int, b: int|
        0 <= a < parent.len() && 0 <= b < parent.len() ==> #[trigger] same_tree(parent, rank, a, b)
            == linked(edges, a, b)
}

/// Edges of the graph that join what the graph joins, chosen by weight:
/// the edges are taken in the order of their weights, and one is kept
/// where it joins two sets of vertices that the edges kept before it left
/// apart. The graph gives for each vertex a row of pairs: a neighbour,
/// then the weight of the way to it.
pub fn kruskal_mst(graph: &Vec<Vec<i32>>) -> (result: Vec<Edge>)
    requires
        well_aimed(graph@),
    ensures
        forall|k: int| 0 <= k < result.len() ==> is_edge(graph@, #[trigger] result[k]),
        by_weight(result@),
        graph.len() > 0 ==> result.len() < graph.len(),
        graph.len() == 0 ==> result.len() == 0,
        forall|k: int|
            0 <= k < result.len() ==> !linked(
                #[trigger] result@.take(k),
                result[k].u as int,
                result[k].v as int,
            ),
        forall|i: int, j: int|
            0 <= i < graph.len() && 0 <= j < graph[i].len() / 2 ==> linked(
                result@,
                i,
                #[trigger] aim(graph@, i, j),
            ),
{
    broadcast use vstd::seq_lib::group_to_multiset_ensures;

    let n = graph.len();
    let mut edges = edges_of(graph);
    let ghost listed = edges@;
    sort_by_weight(&mut edges);
    proof {
        assert forall|k: int| 0 <= k < edges.len() implies is_edge(graph@, #[trigger] edges[k])
            && edges[k].u < n && edges[k].v < n by {
            assert(edges@.to_multiset().count(edges[k]) > 0);
            assert(listed.contains(edges[k]));
        }
    }
    let mut parent: Vec<usize> = Vec::new();
    let mut rank: Vec<usize> = Vec::new();
    let mut i: usize = 0;
    while i < n
        invariant
            i <= n,
            parent.len() == i,
            rank.len() == i,
            forall|k: int| 0 <= k < i ==> parent[k] == k && rank[k] == 0,
        decreases n - i,
    {
        parent.push(i);
        rank.push(0);
        i += 1;
    }
    let mut result: Vec<Edge> = Vec::new();
    let mut k: usize = 0;
    let ghost mut names = vstd::set_lib::set_int_range(0, n as int);
    proof {
        vstd::set_lib::lemma_int_range(0, n as int);
    }
    while k < edges.len() && result.len() + 1 < n
        invariant
            n == graph.len(),
            names.finite(),
            names.len() + result.len() == n,
            forall|v: int| 0 <= v < n ==> names.contains(#[trigger] label(result@, v)),
            k <= edges.len(),
            parent.len() == n,
            forest(parent@, rank@),
            result.len() <= k,
            n > 0 ==> result.len() < n,
            n == 0 ==> result.len() == 0,
            forall|v: int| 0 <= v < n ==> #[trigger] rank[v] <= result.len(),
            by_weight(edges@),
            by_weight(result@),
            forall|a: int|
                0 <= a < edges.len() ==> is_edge(graph@, #[trigger] edges[a]) && edges[a].u < n
                    && edges[a].v < n,
            forall|a: int| 0 <= a < result.len() ==> is_edge(graph@, #[trigger] result[a]),
            forall|a: int, b: int|
                0 <= a < result.len() && k <= b < edges.len() ==> result[a].weight
                    <= edges[b].weight,
            trees_are_sets(parent@, rank@, result@),
            forall|b: int|
                0 <= b < k ==> linked(result@, (#[trigger] edges[b]).u as int, edges[b].v as int),
            forall|q: int|
                0 <= q < result.len() ==> !linked(
                    #[trigger] result@.take(q),
                    result[q].u as int,
                    result[q].v as int,
                ),
        decreases edges.len() - k,
    {
        let edge = edges[k];
        let ghost ranks = rank@;
        proof {
            assert(forest(parent@, ranks));
        }
        let ghost first = parent@;
        let x = find(&mut parent, edge.u);
        proof {
            assert(forest(first, ranks));
            lemma_root(first, ranks, edge.u as int);
        }
        let ghost second = parent@;
        let y = find(&mut parent, edge.v);
        proof {
            assert(forest(second, ranks));
            lemma_root(second, ranks, edge.v as int);
            lemma_root(parent@, ranks, x as int);
            lemma_root(parent@, ranks, y as int);
            assert forall|a: int, b: int| 0 <= a < n && 0 <= b < n implies #[trigger] same_tree(
                parent@,
                ranks,
                a,
                b,
            ) == linked(result@, a, b) by {
                assert(same_tree(first, ranks, a, b) == linked(result@, a, b));
            }
        }
        let ghost third = parent@;
        if x != y {
            let ghost kept = result@;
            result.push(edge);
            union(&mut parent, &mut rank, x, y);
            proof {
                assert(result@.drop_last() == kept);
                assert(result@.take(kept.len() as int) == kept);
                assert(same_tree(third, ranks, edge.u as int, edge.v as int) == linked(
                    kept,
                    edge.u as int,
                    edge.v as int,
                ));
                let gone = label(kept, edge.v as int);
                assert(names.contains(gone));
                assert(names.contains(label(kept, edge.u as int)));
                assert forall|v: int| 0 <= v < n implies names.remove(gone).contains(
                    #[trigger] label(result@, v),
                ) by {
                    assert(names.contains(label(kept, v)));
                }
                names = names.remove(gone);
                assert forall|q: int| 0 <= q < result.len() implies !linked(
                    #[trigger] result@.take(q),
                    result[q].u as int,
                    result[q].v as int,
                ) by {
                    if q < kept.len() {
                        assert(result@.take(q) == kept.take(q));
                    }
                }
                assert forall|a: int, b: int| 0 <= a < n && 0 <= b < n implies #[trigger] same_tree(
                    parent@,
                    rank@,
                    a,
                    b,
                ) == linked(result@, a, b) by {
                    assert(same_tree(third, ranks, a, b) == linked(kept, a, b));
                    assert(same_tree(third, ranks, a, edge.v as int) == linked(
                        kept,
                        a,
                        edge.v as int,
                    ));
                    assert(same_tree(third, ranks, b, edge.v as int) == linked(
                        kept,
                        b,
                        edge.v as int,
                    ));
                    assert(same_tree(third, ranks, a, edge.u as int) == linked(
                        kept,
                        a,
                        edge.u as int,
                    ));
                    assert(same_tree(third, ranks, b, edge.u as int) == linked(
                        kept,
                        b,
                        edge.u as int,
                    ));
                    assert(joined(third, ranks, x as int, y as int, a) == (root_of(third, ranks, a)
                        == x || root_of(third, ranks, a) == y));
                    assert(joined(third, ranks, x as int, y as int, b) == (root_of(third, ranks, b)
                        == x || root_of(third, ranks, b) == y));
                    lemma_root(third, ranks, a);
                    lemma_root(third, ranks, b);
                }
                assert forall|b: int| 0 <= b < k + 1 implies linked(
                    result@,
                    (#[trigger] edges[b]).u as int,
                    edges[b].v as int,
                ) by {
                    assert(same_tree(third, ranks, edges[b].u as int, edges[b].v as int) == linked(
                        kept,
                        edges[b].u as int,
                        edges[b].v as int,
                    ));
                    assert(same_tree(parent@, rank@, edges[b].u as int, edges[b].v as int)
                        == linked(result@, edges[b].u as int, edges[b].v as int));
                    if b < k {
                        assert(same_tree(third, ranks, edges[b].u as int, edges[b].v as int));
                    }
                }
                assert forall|a: int, b: int| 0 <= a <= b < result.len() implies result[a].weight
                    <= result[b].weight by {
                    if b < kept.len() {
                        assert(kept[a].weight <= kept[b].weight);
                    } else if a < kept.len() {
                        assert(kept[a].weight <= edges[k as int].weight);
                    }
                }
                assert forall|v: int| 0 <= v < n implies #[trigger] rank[v] <= result.len() by {
                    assert(ranks[v] <= kept.len());
                }
            }
        } else {
            proof {
                assert(same_tree(third, ranks, edge.u as int, edge.v as int) == linked(
                    result@,
                    edge.u as int,
                    edge.v as int,
                ));
            }
        }
        k += 1;
    }
    proof {
        if result.len() + 1 == n {
            Set::lemma_is_singleton(names);
            assert forall|i: int, j: int|
                0 <= i < graph.len() && 0 <= j < graph[i].len() / 2 implies linked(
                result@,
                i,
                #[trigger] aim(graph@, i, j),
            ) by {
                assert(names.contains(label(result@, i)));
                assert(names.contains(label(result@, aim(graph@, i, j))));
            }
        } else {
            assert forall|i: int, j: int|
                0 <= i < graph.len() && 0 <= j < graph[i].len() / 2 implies linked(
                result@,
                i,
                #[trigger] aim(graph@, i, j),
            ) by {
                let wanted = edge_at(graph@, i, j);
                assert(listed.contains(wanted));
                assert(listed.to_multiset().count(wanted) > 0);
                assert(edges@.contains(wanted));
                let b = choose|b: int| 0 <= b < edges.len() && edges[b] == wanted;
                assert(linked(result@, edges[b].u as int, edges[b].v as int));
            }
        }
    }
    result
}

} // verus!
