//! A flat, vector-backed directed call graph: nodes with stack annotations,
//! edges as index pairs.
use vstd::prelude::*;
use crate::usage::{Local, Max};

verus! {

/// One call-graph node: a symbol (or dispatch-site) name, its local stack
/// usage, its solved bound, and whether it is fictitious (a dispatch site
/// rather than a real symbol, drawn dashed).
#[derive(Debug)]
pub struct Node {
    pub name: String,
    pub local: Local,
    pub max: Option<Max>,
    pub dashed: bool,
}

/// Builds a node with no solved bound yet; an absent stack value means the
/// local usage is unknown.
#[allow(non_snake_case)]
pub fn Node(name: String, stack: Option<u64>, dashed: bool) -> (n: Node)
    ensures
        n.name == name,
        n.local == (match stack {
            Some(v) => Local::Exact(v),
            None => Local::Unknown,
        }),
        n.max is None,
        n.dashed == dashed,
{
    Node {
        name,
        local: match stack {
            Some(v) => Local::Exact(v),
            None => Local::Unknown,
        },
        max: None,
        dashed,
    }
}

/// The targets of the edges leaving `v` among the first `n` edges, in edge
/// order.
pub open spec fn succ_upto(edges: Seq<(usize, usize)>, v: usize, n: int) -> Seq<usize>
    decreases n,
{
    if n <= 0 {
        Seq::empty()
    } else {
        let pre = succ_upto(edges, v, n - 1);
        if edges[n - 1].0 == v {
            pre.push(edges[n - 1].1)
        } else {
            pre
        }
    }
}

/// The targets of all edges leaving `v`, in edge order.
pub open spec fn successors(edges: Seq<(usize, usize)>, v: usize) -> Seq<usize> {
    succ_upto(edges, v, edges.len() as int)
}

/// A target is a successor of `v` exactly when the edge list holds the pair.
pub proof fn lemma_succ_contains(edges: Seq<(usize, usize)>, v: usize, n: int)
    requires
        0 <= n <= edges.len(),
    ensures
        forall|w: usize|
            #[trigger] succ_upto(edges, v, n).contains(w) <==> exists|i: int|
                0 <= i < n && edges[i] == (v, w),
    decreases n,
{
    if n > 0 {
        lemma_succ_contains(edges, v, n - 1);
        let pre = succ_upto(edges, v, n - 1);
        let cur = succ_upto(edges, v, n);
        assert forall|w: usize| #[trigger] cur.contains(w) implies exists|i: int|
            0 <= i < n && edges[i] == (v, w) by {
            if edges[n - 1].0 == v {
                let j = choose|j: int| 0 <= j < cur.len() && cur[j] == w;
                if j < pre.len() {
                    assert(pre.contains(w));
                } else {
                    assert(edges[n - 1] == (v, w));
                }
            } else {
                assert(pre.contains(w));
            }
        }
        assert forall|w: usize| (exists|i: int| 0 <= i < n && edges[i] == (v, w)) implies #[trigger] cur.contains(
            w,
        ) by {
            let i = choose|i: int| 0 <= i < n && edges[i] == (v, w);
            if i < n - 1 {
                assert(pre.contains(w));
                let j = choose|j: int| 0 <= j < pre.len() && pre[j] == w;
                if edges[n - 1].0 == v {
                    assert(cur[j] == w);
                } else {
                    assert(cur[j] == w);
                }
            } else {
                assert(edges[n - 1] == (v, w));
                assert(cur.last() == w);
            }
        }
    }
}

/// No pair of nodes is connected by two parallel edges.
pub open spec fn edges_unique(edges: Seq<(usize, usize)>) -> bool {
    forall|q1: int, q2: int| 0 <= q1 < q2 < edges.len() ==> edges[q1] != edges[q2]
}

/// The call graph: nodes and unlabeled caller-to-callee edges.
#[derive(Debug)]
pub struct Graph {
    pub nodes: Vec<Node>,
    pub edges: Vec<(usize, usize)>,
}

impl Graph {
    /// Every edge endpoint is a node index.
    pub open spec fn wf(self) -> bool {
        forall|i: int|
            0 <= i < self.edges@.len() ==> (#[trigger] self.edges@[i]).0 < self.nodes@.len()
                && self.edges@[i].1 < self.nodes@.len()
    }

    /// An empty graph.
    pub fn new() -> (g: Graph)
        ensures
            g.nodes@ =~= Seq::<Node>::empty(),
            g.edges@ =~= Seq::<(usize, usize)>::empty(),
            g.wf(),
    {
        Graph { nodes: Vec::new(), edges: Vec::new() }
    }

    /// Appends a node and returns its index.
    pub fn add_node(&mut self, n: Node) -> (idx: usize)
        ensures
            final(self).nodes@ == old(self).nodes@.push(n),
            final(self).edges@ == old(self).edges@,
            idx == old(self).nodes@.len(),
            old(self).wf() ==> final(self).wf(),
    {
        let idx = self.nodes.len();
        self.nodes.push(n);
        idx
    }

    /// Appends an edge between two existing nodes.
    pub fn add_edge(&mut self, a: usize, b: usize)
        requires
            a < old(self).nodes@.len(),
            b < old(self).nodes@.len(),
        ensures
            final(self).edges@ == old(self).edges@.push((a, b)),
            final(self).nodes@ == old(self).nodes@,
            old(self).wf() ==> final(self).wf(),
    {
        self.edges.push((a, b));
    }

    /// Whether an edge from `a` to `b` is present.
    pub fn has_edge(&self, a: usize, b: usize) -> (r: bool)
        ensures
            r == self.edges@.contains((a, b)),
    {
        let mut i: usize = 0;
        while i < self.edges.len()
            invariant
                0 <= i <= self.edges@.len(),
                forall|j: int| 0 <= j < i ==> self.edges@[j] != (a, b),
            decreases self.edges@.len() - i,
        {
            let e = self.edges[i];
            if e.0 == a && e.1 == b {
                assert(self.edges@.contains((a, b))) by {
                    assert(self.edges@[i as int] == (a, b));
                }
                return true;
            }
            i = i + 1;
        }
        false
    }

    /// Appends an edge unless the same pair is already present.
    pub fn add_edge_dedup(&mut self, a: usize, b: usize)
        requires
            a < old(self).nodes@.len(),
            b < old(self).nodes@.len(),
        ensures
            final(self).nodes@ == old(self).nodes@,
            final(self).edges@ == (if old(self).edges@.contains((a, b)) {
                old(self).edges@
            } else {
                old(self).edges@.push((a, b))
            }),
            final(self).edges@.contains((a, b)),
            old(self).wf() ==> final(self).wf(),
            edges_unique(old(self).edges@) ==> edges_unique(final(self).edges@),
            forall|e: (usize, usize)|
                old(self).edges@.contains(e) ==> final(self).edges@.contains(e),
    {
        let ghost before = self.edges@;
        if !self.has_edge(a, b) {
            self.edges.push((a, b));
            assert(self.edges@.contains((a, b))) by {
                assert(self.edges@.last() == (a, b));
            }
            proof {
                if edges_unique(before) {
                    assert forall|q1: int, q2: int|
                        0 <= q1 < q2 < self.edges@.len() implies self.edges@[q1]
                        != self.edges@[q2] by {
                        if q2 == self.edges@.len() - 1 {
                            if self.edges@[q1] == (a, b) {
                                assert(before.contains((a, b))) by {
                                    assert(before[q1] == (a, b));
                                }
                            }
                        }
                    }
                }
                assert forall|e: (usize, usize)|
                    before.contains(e) implies self.edges@.contains(e) by {
                    let q = choose|q: int| 0 <= q < before.len() && before[q] == e;
                    assert(self.edges@[q] == e);
                }
            }
        }
    }

    /// The targets of all edges leaving `v`, in edge order.
    pub fn successors_of(&self, v: usize) -> (r: Vec<usize>)
        ensures
            r@ == successors(self.edges@, v),
            self.wf() ==> forall|j: int| 0 <= j < r@.len() ==> r@[j] < self.nodes@.len(),
    {
        let mut r: Vec<usize> = Vec::new();
        let mut i: usize = 0;
        while i < self.edges.len()
            invariant
                0 <= i <= self.edges@.len(),
                r@ == succ_upto(self.edges@, v, i as int),
            decreases self.edges@.len() - i,
        {
            let e = self.edges[i];
            if e.0 == v {
                r.push(e.1);
            }
            i = i + 1;
        }
        proof {
            if self.wf() {
                lemma_succ_contains(self.edges@, v, self.edges@.len() as int);
                assert forall|j: int| 0 <= j < r@.len() implies r@[j] < self.nodes@.len() by {
                    assert(r@.contains(r@[j]));
                }
            }
        }
        r
    }

    /// The number of edges arriving at `v`.
    pub fn incoming_count(&self, v: usize) -> (r: usize)
        ensures
            r as int == count_incoming(self.edges@, v, self.edges@.len() as int),
    {
        let mut r: usize = 0;
        let mut i: usize = 0;
        while i < self.edges.len()
            invariant
                0 <= i <= self.edges@.len(),
                r as int == count_incoming(self.edges@, v, i as int),
                r <= i,
            decreases self.edges@.len() - i,
        {
            let e = self.edges[i];
            if e.1 == v {
                r = r + 1;
            }
            i = i + 1;
        }
        r
    }
}

/// How many of the first `n` edges point at `v`.
pub open spec fn count_incoming(edges: Seq<(usize, usize)>, v: usize, n: int) -> int
    decreases n,
{
    if n <= 0 {
        0
    } else {
        count_incoming(edges, v, n - 1) + (if edges[n - 1].1 == v {
            1int
        } else {
            0int
        })
    }
}

} // verus!
