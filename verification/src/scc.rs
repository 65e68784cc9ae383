//! Strongly-connected components of the call graph, computed by the external
//! graph library.
use vstd::prelude::*;
use crate::filter::reachable;

verus! {

/// The components are exactly the strongly connected ones: members of one
/// component reach each other, and mutually reachable nodes share a
/// component.
pub open spec fn strongly_connected(sccs: Seq<Vec<usize>>, edges: Seq<(usize, usize)>) -> bool {
    &&& forall|k: int, j1: int, j2: int|
        0 <= k < sccs.len() && 0 <= j1 < sccs[k]@.len() && 0 <= j2 < sccs[k]@.len() ==> reachable(
            edges,
            (#[trigger] sccs[k]@[j1]),
            (#[trigger] sccs[k]@[j2]),
        )
    &&& forall|k1: int, j1: int, k2: int, j2: int|
        #![trigger sccs[k1]@[j1], sccs[k2]@[j2]]
        0 <= k1 < sccs.len() && 0 <= j1 < sccs[k1]@.len() && 0 <= k2 < sccs.len() && 0 <= j2
            < sccs[k2]@.len() && reachable(edges, sccs[k1]@[j1], sccs[k2]@[j2]) && reachable(
            edges,
            sccs[k2]@[j2],
            sccs[k1]@[j1],
        ) ==> k1 == k2
}

/// Whether node `v` appears in some component list.
pub open spec fn appears(sccs: Seq<Vec<usize>>, v: usize) -> bool {
    exists|k: int, j: int| 0 <= k < sccs.len() && 0 <= j < sccs[k]@.len() && sccs[k]@[j] == v
}

/// The component lists cover exactly the nodes `0..n`, each node once, and
/// no component is empty.
pub open spec fn is_partition(sccs: Seq<Vec<usize>>, n: int) -> bool {
    &&& forall|k: int, j: int|
        0 <= k < sccs.len() && 0 <= j < sccs[k]@.len() ==> (#[trigger] sccs[k]@[j]) < n
    &&& forall|v: usize| 0 <= v < n ==> #[trigger] appears(sccs, v)
    &&& forall|k1: int, j1: int, k2: int, j2: int|
        0 <= k1 < sccs.len() && 0 <= j1 < sccs[k1]@.len() && 0 <= k2 < sccs.len() && 0 <= j2
            < sccs[k2]@.len() && #[trigger] sccs[k1]@[j1] == #[trigger] sccs[k2]@[j2] ==> k1 == k2
            && j1 == j2
    &&& forall|k: int| 0 <= k < sccs.len() ==> (#[trigger] sccs[k]@).len() >= 1
}

/// The components come in reverse topological order: an edge between two
/// different components points at the earlier one.
pub open spec fn comp_ordered(sccs: Seq<Vec<usize>>, edges: Seq<(usize, usize)>) -> bool {
    forall|i: int, k1: int, j1: int, k2: int, j2: int|
        #![trigger edges[i], sccs[k1]@[j1], sccs[k2]@[j2]]
        0 <= i < edges.len() && 0 <= k1 < sccs.len() && 0 <= j1 < sccs[k1]@.len() && 0 <= k2
            < sccs.len() && 0 <= j2 < sccs[k2]@.len() && sccs[k1]@[j1] == edges[i].0
            && sccs[k2]@[j2] == edges[i].1 && k1 != k2 ==> k2 < k1
}

/// Relies on `petgraph::algo::kosaraju_scc` over a `petgraph` directed graph
/// holding the nodes `0..n` and exactly the given edges: it returns the
/// strongly connected components — every node in exactly one, the members of
/// a component mutually reachable, mutually reachable nodes never split —
/// ordered by postorder, that is in reverse topological order of the
/// condensation.
#[verifier::external_body]
pub(crate) fn kosaraju_sccs(n: usize, edges: &Vec<(usize, usize)>) -> (r: Vec<Vec<usize>>)
    requires
        n < usize::MAX,
        edges@.len() < usize::MAX,
        forall|i: int|
            0 <= i < edges@.len() ==> (#[trigger] edges@[i]).0 < n && edges@[i].1 < n,
    ensures
        is_partition(r@, n as int),
        comp_ordered(r@, edges@),
        strongly_connected(r@, edges@),
{
    let mut g = petgraph::graph::Graph::<(), (), petgraph::Directed, usize>::with_capacity(n, edges.len());
    (0..n).for_each(|_| {
        g.add_node(());
    });
    for e in edges.iter() {
        g.add_edge(petgraph::graph::NodeIndex::new(e.0), petgraph::graph::NodeIndex::new(e.1), ());
    }
    petgraph::algo::kosaraju_scc(&g).into_iter().map(|c| c.into_iter().map(|x| x.index()).collect()).collect()
}

} // verus!
