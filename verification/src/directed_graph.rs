//! A directed graph by its edges, with the walks that find what can be
//! reached from a vertex: breadth first and depth first.

use std::collections::{HashMap, HashSet, VecDeque};
use vstd::prelude::*;
use vstd::set_lib::{lemma_int_range, lemma_len_subset, set_int_range};

verus! {

/// The ends of the edges that start at `v`, in the order of the edges.
pub open spec fn targets(edges: Seq<(usize, usize)>, v: usize) -> Seq<usize>
    decreases edges.len(),
{
    if edges.len() == 0 {
        Seq::empty()
    } else if edges.last().0 == v {
        targets(edges.drop_last(), v).push(edges.last().1)
    } else {
        targets(edges.drop_last(), v)
    }
}

/// Every end among the targets of `v` is the end of an edge from `v`.
pub proof fn lemma_target_is_edge(edges: Seq<(usize, usize)>, v: usize, at: int) -> (k: int)
    requires
        0 <= at < targets(edges, v).len(),
    ensures
        0 <= k < edges.len(),
        edges[k].0 == v,
        edges[k].1 == targets(edges, v)[at],
    decreases edges.len(),
{
    let rest = edges.drop_last();
    if edges.last().0 == v && at == targets(rest, v).len() {
        edges.len() - 1
    } else {
        lemma_target_is_edge(rest, v, at)
    }
}

/// The end of every edge is among the targets of the vertex at which the
/// edge starts.
pub proof fn lemma_edge_is_target(edges: Seq<(usize, usize)>, k: int) -> (at: int)
    requires
        0 <= k < edges.len(),
    ensures
        0 <= at < targets(edges, edges[k].0).len(),
        targets(edges, edges[k].0)[at] == edges[k].1,
    decreases edges.len(),
{
    let rest = edges.drop_last();
    let v = edges[k].0;
    if k == edges.len() - 1 {
        targets(rest, v).len() as int
    } else {
        lemma_edge_is_target(rest, k)
    }
}

/// Whether every edge that starts at `u` ends in `seen`.
pub open spec fn closed_under(edges: Seq<(usize, usize)>, seen: Set<usize>, u: usize) -> bool {
    forall|k: int| 0 <= k < edges.len() && (#[trigger] edges[k]).0 == u ==> seen.contains(edges[k].1)
}

/// Whether an edge leads to the vertex at the place `j` of `order` from a
/// vertex at a place before it, from the place `from` on.
pub open spec fn led_to(edges: Seq<(usize, usize)>, order: Seq<usize>, from: int, j: int) -> bool {
    exists|i: int, k: int|
        from <= i < j && 0 <= k < edges.len() && #[trigger] order[i] == (#[trigger] edges[k]).0
            && edges[k].1 == order[j]
}

/// The edges whose ends were not seen yet.
pub open spec fn fresh(edges: Seq<(usize, usize)>, seen: Set<usize>) -> Set<int> {
    Set::new(|k: int| 0 <= k < edges.len() && !seen.contains(edges[k].1))
}

/// The more was seen, the fewer edges have ends not seen yet.
pub proof fn lemma_fresh_fewer(edges: Seq<(usize, usize)>, seen: Set<usize>, wider: Set<usize>)
    requires
        forall|v: usize| seen.contains(v) ==> wider.contains(v),
    ensures
        fresh(edges, seen).finite(),
        fresh(edges, wider).finite(),
        fresh(edges, wider).len() <= fresh(edges, seen).len(),
{
    lemma_int_range(0, edges.len() as int);
    lemma_len_subset(fresh(edges, seen), set_int_range(0, edges.len() as int));
    lemma_len_subset(fresh(edges, wider), fresh(edges, seen));
}

/// Seeing the end of an edge that was not seen leaves fewer edges with
/// ends not seen.
pub proof fn lemma_fresh_one_fewer(edges: Seq<(usize, usize)>, seen: Set<usize>, k: int)
    requires
        0 <= k < edges.len(),
        !seen.contains(edges[k].1),
    ensures
        fresh(edges, seen).finite(),
        fresh(edges, seen.insert(edges[k].1)).finite(),
        fresh(edges, seen.insert(edges[k].1)).len() < fresh(edges, seen).len(),
{
    lemma_fresh_fewer(edges, seen, seen);
    let all = fresh(edges, seen);
    let fewer = fresh(edges, seen.insert(edges[k].1));
    assert(all.contains(k));
    assert(fewer.subset_of(all.remove(k)));
    lemma_len_subset(fewer, all.remove(k));
}

/// What is closed under the edges from `u` stays so when more is seen.
pub proof fn lemma_closed_wider(
    edges: Seq<(usize, usize)>,
    seen: Set<usize>,
    wider: Set<usize>,
    u: usize,
)
    requires
        closed_under(edges, seen, u),
        forall|v: usize| seen.contains(v) ==> wider.contains(v),
    ensures
        closed_under(edges, wider, u),
{
}

/// A vertex to which an edge leads in an order is led to in every longer
/// order that begins with it.
pub proof fn lemma_led_longer(
    edges: Seq<(usize, usize)>,
    order: Seq<usize>,
    longer: Seq<usize>,
    from: int,
    j: int,
)
    requires
        0 <= from,
        j < order.len() <= longer.len(),
        forall|i: int| 0 <= i < order.len() ==> order[i] == longer[i],
        led_to(edges, order, from, j),
    ensures
        led_to(edges, longer, from, j),
{
    let (i, k) = choose|i: int, k: int|
        from <= i < j && 0 <= k < edges.len() && #[trigger] order[i] == (#[trigger] edges[k]).0
            && edges[k].1 == order[j];
    assert(longer[i] == edges[k].0 && edges[k].1 == longer[j]);
}

/// A vertex that is led to from a place on is led to from every earlier
/// place on.
pub proof fn lemma_led_from_earlier(
    edges: Seq<(usize, usize)>,
    order: Seq<usize>,
    from: int,
    earlier: int,
    j: int,
)
    requires
        earlier <= from,
        led_to(edges, order, from, j),
    ensures
        led_to(edges, order, earlier, j),
{
    let (i, k) = choose|i: int, k: int|
        from <= i < j && 0 <= k < edges.len() && #[trigger] order[i] == (#[trigger] edges[k]).0
            && edges[k].1 == order[j];
    assert(earlier <= i < j && order[i] == edges[k].0 && edges[k].1 == order[j]);
}

/// A directed graph: its vertices, its edges in the order in which they
/// were added, and for every vertex the ends of the edges that start at
/// it.
pub struct DirectedGraph {
    vertices: HashSet<usize>,
    edges: Vec<(usize, usize)>,
    adjacency_list: HashMap<usize, Vec<usize>>,
}

impl DirectedGraph {
    /// The vertices that were added.
    pub closed spec fn vertices(&self) -> Set<usize> {
        self.vertices@
    }

    /// The edges in the order in which they were added.
    pub closed spec fn edges(&self) -> Seq<(usize, usize)> {
        self.edges@
    }

    /// The neighbours listed for `v`; none where nothing is listed.
    pub closed spec fn listed(&self, v: usize) -> Seq<usize> {
        if self.adjacency_list@.contains_key(v) {
            self.adjacency_list@[v]@
        } else {
            Seq::empty()
        }
    }

    /// What every operation keeps: the neighbours listed for a vertex are
    /// the ends of the edges that start at it.
    pub closed spec fn wf(&self) -> bool {
        forall|v: usize| #[trigger] self.listed(v) == targets(self.edges@, v)
    }

    /// A graph without vertices and edges.
    pub fn new() -> (graph: Self)
        ensures
            graph.wf(),
            graph.vertices() == Set::<usize>::empty(),
            graph.edges() == Seq::<(usize, usize)>::empty(),
    {
        broadcast use vstd::std_specs::hash::group_hash_axioms;

        DirectedGraph { vertices: HashSet::new(), edges: Vec::new(), adjacency_list: HashMap::new() }
    }

    /// Adds a vertex.
    pub fn add_vertex(&mut self, vertex: usize)
        requires
            old(self).wf(),
        ensures
            final(self).wf(),
            final(self).vertices() == old(self).vertices().insert(vertex),
            final(self).edges() == old(self).edges(),
    {
        broadcast use vstd::std_specs::hash::group_hash_axioms;

        self.vertices.insert(vertex);
        if !self.adjacency_list.contains_key(&vertex) {
            self.adjacency_list.insert(vertex, Vec::new());
        }
        proof {
            assert forall|v: usize| #[trigger] self.listed(v) == targets(self.edges@, v) by {
                assert(old(self).listed(v) == targets(self.edges@, v));
                assert(self.listed(v) =~= old(self).listed(v));
            }
        }
    }

    /// Adds an edge from `from` to `to`.
    pub fn add_edge(&mut self, from: usize, to: usize)
        requires
            old(self).wf(),
        ensures
            final(self).wf(),
            final(self).vertices() == old(self).vertices(),
            final(self).edges() == old(self).edges().push((from, to)),
    {
        broadcast use vstd::std_specs::hash::group_hash_axioms;

        self.edges.push((from, to));
        let mut list = match self.adjacency_list.remove(&from) {
            Some(list) => list,
            None => Vec::new(),
        };
        proof {
            assert(list@ == old(self).listed(from));
        }
        list.push(to);
        self.adjacency_list.insert(from, list);
        proof {
            assert(self.edges@.drop_last() == old(self).edges@);
            assert forall|v: usize| #[trigger] self.listed(v) == targets(self.edges@, v) by {
                assert(old(self).listed(v) == targets(old(self).edges@, v));
                if v != from {
                    assert(self.listed(v) =~= old(self).listed(v));
                }
            }
        }
    }

    /// The vertices that can be reached from `start`, nearest first: every
    /// vertex once, `start` first, every other behind one from which an
    /// edge leads to it, and with every vertex all to which its edges lead.
    pub fn bfs(&self, start: usize) -> (result: Vec<usize>)
        requires
            self.wf(),
        ensures
            result.len() > 0,
            result[0] == start,
            result@.no_duplicates(),
            forall|i: int|
                0 <= i < result.len() ==> closed_under(
                    self.edges(),
                    result@.to_set(),
                    #[trigger] result[i],
                ),
            forall|j: int| 0 < j < result.len() ==> led_to(self.edges(), result@, 0, j),
    {
        broadcast use vstd::std_specs::hash::group_hash_axioms;

        let ghost edges = self.edges@;
        let mut visited: HashSet<usize> = HashSet::new();
        let mut queue: VecDeque<usize> = VecDeque::new();
        let mut result: Vec<usize> = Vec::new();
        visited.insert(start);
        queue.push_back(start);
        proof {
            assert(result@ + queue@ =~= seq![start]);
            assert(visited@ =~= (result@ + queue@).to_set()) by {
                assert((result@ + queue@)[0] == start);
            }
            lemma_fresh_fewer(edges, visited@, visited@);
        }
        while queue.len() > 0
            invariant
                self.wf(),
                edges == self.edges@,
                (result@ + queue@).no_duplicates(),
                visited@ == (result@ + queue@).to_set(),
                (result@ + queue@).len() > 0,
                (result@ + queue@)[0] == start,
                fresh(edges, visited@).finite(),
                forall|i: int|
                    0 <= i < result.len() ==> closed_under(edges, visited@, #[trigger] result[i]),
                forall|j: int|
                    0 < j < (result@ + queue@).len() ==> led_to(edges, result@ + queue@, 0, j),
            decreases fresh(edges, visited@).len() + queue.len(),
        {
            let ghost order = result@ + queue@;
            let ghost budget = fresh(edges, visited@).len() + queue.len() - 1;
            let vertex = queue.pop_front().unwrap();
            result.push(vertex);
            proof {
                assert(result@ + queue@ =~= order);
            }
            let ghost at = result.len() - 1;
            match self.adjacency_list.get(&vertex) {
                Some(neighbors) => {
                    proof {
                        assert(self.listed(vertex) == targets(edges, vertex));
                    }
                    let mut t: usize = 0;
                    while t < neighbors.len()
                        invariant
                            t <= neighbors.len(),
                            neighbors@ == targets(edges, vertex),
                            0 <= at == result.len() - 1,
                            result[at] == vertex,
                            (result@ + queue@).no_duplicates(),
                            visited@ == (result@ + queue@).to_set(),
                            (result@ + queue@).len() > 0,
                            (result@ + queue@)[0] == start,
                            fresh(edges, visited@).finite(),
                            fresh(edges, visited@).len() + queue.len() <= budget,
                            forall|idx: int| 0 <= idx < t ==> visited@.contains(neighbors[idx]),
                            forall|i: int|
                                0 <= i < at ==> closed_under(edges, visited@, #[trigger] result[i]),
                            forall|j: int|
                                0 < j < (result@ + queue@).len() ==> led_to(
                                    edges,
                                    result@ + queue@,
                                    0,
                                    j,
                                ),
                        decreases neighbors.len() - t,
                    {
                        let neighbor = neighbors[t];
                        if !visited.contains(&neighbor) {
                            let ghost before = result@ + queue@;
                            let ghost seen = visited@;
                            visited.insert(neighbor);
                            queue.push_back(neighbor);
                            proof {
                                let k0 = lemma_target_is_edge(edges, vertex, t as int);
                                lemma_fresh_one_fewer(edges, seen, k0);
                                let after = result@ + queue@;
                                assert(after =~= before.push(neighbor));
                                assert(!before.contains(neighbor));
                                assert(visited@ =~= after.to_set()) by {
                                    assert forall|v: usize| after.contains(v) <==> (before.contains(
                                        v,
                                    ) || v == neighbor) by {
                                        if before.contains(v) {
                                            let p = choose|p: int|
                                                0 <= p < before.len() && before[p] == v;
                                            assert(after[p] == v);
                                        }
                                        if v == neighbor {
                                            assert(after[before.len() as int] == v);
                                        }
                                    }
                                }
                                assert(after[at] == vertex);
                                assert(led_to(edges, after, 0, before.len() as int)) by {
                                    assert(after[at] == edges[k0].0 && edges[k0].1
                                        == after[before.len() as int]);
                                }
                                assert forall|j: int| 0 < j < after.len() implies led_to(
                                    edges,
                                    after,
                                    0,
                                    j,
                                ) by {
                                    if j < before.len() {
                                        lemma_led_longer(edges, before, after, 0, j);
                                    }
                                }
                                assert forall|i: int| 0 <= i < at implies closed_under(
                                    edges,
                                    visited@,
                                    #[trigger] result[i],
                                ) by {
                                    lemma_closed_wider(edges, seen, visited@, result[i]);
                                }
                            }
                        }
                        t += 1;
                    }
                    proof {
                        assert forall|k: int|
                            0 <= k < edges.len() && (#[trigger] edges[k]).0
                                == vertex implies visited@.contains(edges[k].1) by {
                            let idx = lemma_edge_is_target(edges, k);
                            assert(visited@.contains(neighbors[idx]));
                        }
                    }
                },
                None => {
                    proof {
                        assert(self.listed(vertex) == targets(edges, vertex));
                        assert forall|k: int|
                            0 <= k < edges.len() && (#[trigger] edges[k]).0
                                == vertex implies visited@.contains(edges[k].1) by {
                            let idx = lemma_edge_is_target(edges, k);
                        }
                    }
                },
            }
        }
        proof {
            assert(result@ + queue@ =~= result@);
        }
        result
    }

    /// The vertices that can be reached from `start`, each before what was
    /// found from it: every vertex once, `start` first, every other behind
    /// one from which an edge leads to it, and with every vertex all to
    /// which its edges lead.
    pub fn dfs(&self, start: usize) -> (result: Vec<usize>)
        requires
            self.wf(),
        ensures
            result.len() > 0,
            result[0] == start,
            result@.no_duplicates(),
            forall|i: int|
                0 <= i < result.len() ==> closed_under(
                    self.edges(),
                    result@.to_set(),
                    #[trigger] result[i],
                ),
            forall|j: int| 0 < j < result.len() ==> led_to(self.edges(), result@, 0, j),
    {
        broadcast use vstd::std_specs::hash::group_hash_axioms;

        let mut visited: HashSet<usize> = HashSet::new();
        let mut result: Vec<usize> = Vec::new();
        proof {
            assert(visited@ =~= result@.to_set());
        }
        self.dfs_recursive(start, &mut visited, &mut result);
        result
    }

    /// Visits `vertex` and then, in the order of its edges, what can be
    /// reached from each of its neighbours that was not visited before.
    pub fn dfs_recursive(
        &self,
        vertex: usize,
        visited: &mut HashSet<usize>,
        result: &mut Vec<usize>,
    )
        requires
            self.wf(),
            old(result)@.no_duplicates(),
            old(visited)@ == old(result)@.to_set(),
            !old(visited)@.contains(vertex),
        ensures
            final(result)@.no_duplicates(),
            final(visited)@ == final(result)@.to_set(),
            final(result).len() > old(result).len(),
            final(result)@.subrange(0, old(result).len() as int) == old(result)@,
            final(result)[old(result).len() as int] == vertex,
            forall|i: int|
                old(result).len() <= i < final(result).len() ==> closed_under(
                    self.edges(),
                    final(visited)@,
                    #[trigger] final(result)[i],
                ),
            forall|j: int|
                old(result).len() < j < final(result).len() ==> led_to(
                    self.edges(),
                    final(result)@,
                    old(result).len() as int,
                    j,
                ),
        decreases fresh(self.edges(), old(visited)@.insert(vertex)).len(),
    {
        broadcast use vstd::std_specs::hash::group_hash_axioms;

        let ghost edges = self.edges@;
        let ghost base = result.len() as int;
        let ghost entry = visited@.insert(vertex);
        visited.insert(vertex);
        result.push(vertex);
        proof {
            assert(result@.subrange(0, base) =~= old(result)@);
            assert(!old(result)@.contains(vertex));
            assert(visited@ =~= result@.to_set()) by {
                assert forall|v: usize| result@.contains(v) <==> (old(result)@.contains(v) || v
                    == vertex) by {
                    if old(result)@.contains(v) {
                        let p = choose|p: int| 0 <= p < base && old(result)@[p] == v;
                        assert(result@[p] == v);
                    }
                    if v == vertex {
                        assert(result@[base] == v);
                    }
                }
            }
            lemma_fresh_fewer(edges, entry, entry);
        }
        match self.adjacency_list.get(&vertex) {
            Some(neighbors) => {
                proof {
                    assert(self.listed(vertex) == targets(edges, vertex));
                }
                let mut t: usize = 0;
                while t < neighbors.len()
                    invariant
                        self.wf(),
                        edges == self.edges@,
                        t <= neighbors.len(),
                        neighbors@ == targets(edges, vertex),
                        base == old(result).len(),
                        entry == old(visited)@.insert(vertex),
                        result.len() > base,
                        result@.subrange(0, base) == old(result)@,
                        result[base] == vertex,
                        result@.no_duplicates(),
                        visited@ == result@.to_set(),
                        forall|v: usize| entry.contains(v) ==> visited@.contains(v),
                        forall|idx: int| 0 <= idx < t ==> visited@.contains(neighbors[idx]),
                        forall|i: int|
                            base < i < result.len() ==> closed_under(
                                edges,
                                visited@,
                                #[trigger] result[i],
                            ),
                        forall|j: int| base < j < result.len() ==> led_to(edges, result@, base, j),
                    decreases neighbors.len() - t,
                {
                    let neighbor = neighbors[t];
                    if !visited.contains(&neighbor) {
                        let ghost before = result@;
                        let ghost seen = visited@;
                        proof {
                            let k0 = lemma_target_is_edge(edges, vertex, t as int);
                            lemma_fresh_one_fewer(edges, seen, k0);
                            lemma_fresh_fewer(edges, entry, seen);
                        }
                        self.dfs_recursive(neighbor, visited, result);
                        proof {
                            let k0 = lemma_target_is_edge(edges, vertex, t as int);
                            let mid = before.len() as int;
                            assert forall|p: int| 0 <= p < mid implies result@[p] == before[p] by {
                                assert(result@.subrange(0, mid)[p] == before[p]);
                            }
                            assert(result@.subrange(0, base) =~= old(result)@) by {
                                assert forall|p: int| 0 <= p < base implies result@[p] == old(
                                    result,
                                )@[p] by {
                                    assert(before.subrange(0, base)[p] == old(result)@[p]);
                                }
                            }
                            assert forall|v: usize| seen.contains(v) implies visited@.contains(
                                v,
                            ) by {
                                let p = choose|p: int| 0 <= p < mid && before[p] == v;
                                assert(result@[p] == v);
                            }
                            assert(visited@.contains(neighbor)) by {
                                assert(result@[mid] == neighbor);
                            }
                            assert forall|i: int| base < i < result.len() implies closed_under(
                                edges,
                                visited@,
                                #[trigger] result[i],
                            ) by {
                                if i < mid {
                                    assert(result[i] == before[i]);
                                    lemma_closed_wider(edges, seen, visited@, before[i]);
                                }
                            }
                            assert forall|j: int| base < j < result.len() implies led_to(
                                edges,
                                result@,
                                base,
                                j,
                            ) by {
                                if j < mid {
                                    lemma_led_longer(edges, before, result@, base, j);
                                } else if j == mid {
                                    assert(result@[base] == edges[k0].0 && edges[k0].1
                                        == result@[j]);
                                } else {
                                    assert(led_to(self.edges(), result@, mid, j));
                                    lemma_led_from_earlier(edges, result@, mid, base, j);
                                }
                            }
                        }
                    }
                    t += 1;
                }
                proof {
                    assert forall|k: int|
                        0 <= k < edges.len() && (#[trigger] edges[k]).0
                            == vertex implies visited@.contains(edges[k].1) by {
                        let idx = lemma_edge_is_target(edges, k);
                        assert(visited@.contains(neighbors[idx]));
                    }
                }
            },
            None => {
                proof {
                    assert(self.listed(vertex) == targets(edges, vertex));
                    assert forall|k: int|
                        0 <= k < edges.len() && (#[trigger] edges[k]).0
                            == vertex implies visited@.contains(edges[k].1) by {
                        let idx = lemma_edge_is_target(edges, k);
                    }
                }
            },
        }
    }
}

} // verus!
