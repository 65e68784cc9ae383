//! The stack-usage solver: assigns every node its maximum-stack bound,
//! processing strongly connected components in reverse topological order.
use vstd::prelude::*;
use crate::graph::Graph;
use crate::graph::Node;
use crate::usage::{Local, Max, spec_lift, spec_max_of, max_of, lemma_max_of_bounds, lemma_max_of_exact};
use crate::scc::{is_partition, comp_ordered, appears};

verus! {

/// The solved bound of a node, meaningful once `max` is set.
pub open spec fn the_max(n: Node) -> Max {
    match n.max {
        Some(m) => m,
        None => Max::LowerBound(0),
    }
}

/// A bound demoted to a lower bound unless it is zero: inside a cycle an
/// exact per-round usage says nothing about the recursion depth.
pub open spec fn demote(m: Max) -> Max {
    match m {
        Max::Exact(n) => if n != 0 {
            Max::LowerBound(n)
        } else {
            m
        },
        Max::LowerBound(_) => m,
    }
}

/// The locals of the listed nodes, lifted into the `Max` domain.
pub open spec fn lift_seq(nodes: Seq<Node>, comp: Seq<usize>) -> Seq<Max> {
    comp.map_values(|v: usize| spec_lift(nodes[v as int].local))
}

/// The largest lifted local of a component.
pub open spec fn comp_lifted(nodes: Seq<Node>, comp: Seq<usize>) -> Max {
    spec_max_of(lift_seq(nodes, comp))
}

/// What a component contributes to every path through it: its largest
/// lifted local, demoted when non-zero.
pub open spec fn comp_base(nodes: Seq<Node>, comp: Seq<usize>) -> Max {
    demote(comp_lifted(nodes, comp))
}

/// Whether component `k` is a real cycle: more than one node, or a self-loop.
pub open spec fn comp_is_cycle(sccs: Seq<Vec<usize>>, edges: Seq<(usize, usize)>, k: int) -> bool {
    sccs[k]@.len() > 1 || edges.contains((sccs[k]@[0], sccs[k]@[0]))
}

/// The solution of a cyclic component: all members share one bound `m`;
/// `m` dominates `base + max(w)` for every edge leaving the component, is
/// attained by one such edge or by `base` alone, and is exact only when the
/// base and every outside callee are.
pub open spec fn cyclic_sol(nodes: Seq<Node>, edges: Seq<(usize, usize)>, comp: Seq<usize>) -> bool {
    let base = comp_base(nodes, comp);
    let m = the_max(nodes[comp[0] as int]);
    &&& forall|j: int| 0 <= j < comp.len() ==> (#[trigger] nodes[comp[j] as int].max) == Some(m)
    &&& forall|i: int|
        #![trigger edges[i]]
        0 <= i < edges.len() && comp.contains(edges[i].0) && !comp.contains(edges[i].1) ==> {
            &&& nodes[edges[i].1 as int].max is Some
            &&& m.payload() >= base.payload() + the_max(nodes[edges[i].1 as int]).payload()
        }
    &&& (forall|i: int|
        #![trigger edges[i]]
        0 <= i < edges.len() ==> !(comp.contains(edges[i].0) && !comp.contains(edges[i].1)))
        ==> m == base
    &&& (exists|i: int|
        #![trigger edges[i]]
        0 <= i < edges.len() && comp.contains(edges[i].0) && !comp.contains(edges[i].1)) ==> (
    exists|i: int|
        #![trigger edges[i]]
        0 <= i < edges.len() && comp.contains(edges[i].0) && !comp.contains(edges[i].1)
            && m.payload() == base.payload() + the_max(nodes[edges[i].1 as int]).payload())
    &&& m is Exact <==> (base is Exact && (forall|i: int|
        #![trigger edges[i]]
        0 <= i < edges.len() && comp.contains(edges[i].0) && !comp.contains(edges[i].1)
            ==> the_max(nodes[edges[i].1 as int]) is Exact))
}

/// The solution of a lone, loop-free node: its local plus the largest callee
/// bound, its lifted local alone when it calls nothing, exact only when its
/// local and every callee bound are.
pub open spec fn acyclic_sol(nodes: Seq<Node>, edges: Seq<(usize, usize)>, v: usize) -> bool {
    let l = nodes[v as int].local;
    let m = the_max(nodes[v as int]);
    &&& nodes[v as int].max is Some
    &&& forall|i: int|
        #![trigger edges[i]]
        0 <= i < edges.len() && edges[i].0 == v ==> {
            &&& nodes[edges[i].1 as int].max is Some
            &&& m.payload() >= l.contribution() + the_max(nodes[edges[i].1 as int]).payload()
        }
    &&& (forall|i: int| #![trigger edges[i]] 0 <= i < edges.len() ==> edges[i].0 != v) ==> m
        == spec_lift(l)
    &&& (exists|i: int| #![trigger edges[i]] 0 <= i < edges.len() && edges[i].0 == v) ==> (
    exists|i: int|
        #![trigger edges[i]]
        0 <= i < edges.len() && edges[i].0 == v && m.payload() == l.contribution() + the_max(
            nodes[edges[i].1 as int],
        ).payload())
    &&& m is Exact <==> (l is Exact && (forall|i: int|
        #![trigger edges[i]]
        0 <= i < edges.len() && edges[i].0 == v ==> the_max(nodes[edges[i].1 as int]) is Exact))
}

/// The solution of component `k`.
pub open spec fn comp_solution(
    nodes: Seq<Node>,
    edges: Seq<(usize, usize)>,
    sccs: Seq<Vec<usize>>,
    k: int,
) -> bool {
    if comp_is_cycle(sccs, edges, k) {
        cyclic_sol(nodes, edges, sccs[k]@)
    } else {
        acyclic_sol(nodes, edges, sccs[k]@[0])
    }
}

/// The whole graph is solved along the given component decomposition.
pub open spec fn solved(nodes: Seq<Node>, edges: Seq<(usize, usize)>, sccs: Seq<Vec<usize>>) -> bool {
    forall|k: int| 0 <= k < sccs.len() ==> #[trigger] comp_solution(nodes, edges, sccs, k)
}

/// Component ids agree with the component lists.
pub open spec fn comp_ok(comp: Seq<usize>, sccs: Seq<Vec<usize>>) -> bool {
    forall|k: int, j: int|
        0 <= k < sccs.len() && 0 <= j < sccs[k]@.len() ==> comp[#[trigger] sccs[k]@[j] as int]
            == k
}

/// Membership in a component list is exactly agreement of the component id.
pub proof fn lemma_comp_membership(comp: Seq<usize>, sccs: Seq<Vec<usize>>, n: int, v: usize)
    requires
        is_partition(sccs, n),
        comp_ok(comp, sccs),
        comp.len() == n,
        0 <= v < n,
    ensures
        comp[v as int] < sccs.len(),
        sccs[comp[v as int] as int]@.contains(v),
        forall|k: int| 0 <= k < sccs.len() ==> (sccs[k]@.contains(v) <==> comp[v as int] == k),
{
    assert(appears(sccs, v));
    let (k0, j0) = choose|k: int, j: int|
        0 <= k < sccs.len() && 0 <= j < sccs[k]@.len() && sccs[k]@[j] == v;
    assert(comp[v as int] == k0);
    assert(sccs[k0]@[j0] == v);
    assert(sccs[k0]@.contains(v));
    assert forall|k: int| 0 <= k < sccs.len() implies (sccs[k]@.contains(v) <==> comp[v as int]
        == k) by {
        if sccs[k]@.contains(v) {
            let j = choose|j: int| 0 <= j < sccs[k]@.len() && sccs[k]@[j] == v;
            assert(comp[v as int] == k);
        }
        if comp[v as int] == k {
            assert(sccs[k0]@.contains(v));
        }
    }
}

/// The sum of the listed locals; an unknown local counts zero.
pub open spec fn locals_partial(nodes: Seq<Node>, i: int) -> int
    decreases i,
{
    if i <= 0 {
        0
    } else {
        locals_partial(nodes, i - 1) + nodes[i - 1].local.contribution()
    }
}

/// The sum of the locals of the nodes whose component comes before `k`,
/// among the first `i` nodes.
pub open spec fn locals_below(nodes: Seq<Node>, comp: Seq<usize>, k: int, i: int) -> int
    decreases i,
{
    if i <= 0 {
        0
    } else {
        locals_below(nodes, comp, k, i - 1) + (if comp[i - 1] < k {
            nodes[i - 1].local.contribution()
        } else {
            0
        })
    }
}

proof fn lemma_contribution_nonneg(l: Local)
    ensures
        l.contribution() >= 0,
{
}

/// The filtered sum grows with the component cutoff.
pub proof fn lemma_locals_below_mono(nodes: Seq<Node>, comp: Seq<usize>, k1: int, k2: int, i: int)
    requires
        k1 <= k2,
    ensures
        locals_below(nodes, comp, k1, i) <= locals_below(nodes, comp, k2, i),
    decreases i,
{
    if i > 0 {
        lemma_locals_below_mono(nodes, comp, k1, k2, i - 1);
        lemma_contribution_nonneg(nodes[i - 1].local);
    }
}

/// The filtered sum never exceeds the unfiltered one.
pub proof fn lemma_locals_below_le_partial(nodes: Seq<Node>, comp: Seq<usize>, k: int, i: int)
    ensures
        locals_below(nodes, comp, k, i) <= locals_partial(nodes, i),
    decreases i,
{
    if i > 0 {
        lemma_locals_below_le_partial(nodes, comp, k, i - 1);
        lemma_contribution_nonneg(nodes[i - 1].local);
    }
}

/// The filtered sums are non-negative.
pub proof fn lemma_locals_below_nonneg(nodes: Seq<Node>, comp: Seq<usize>, k: int, i: int)
    ensures
        locals_below(nodes, comp, k, i) >= 0,
    decreases i,
{
    if i > 0 {
        lemma_locals_below_nonneg(nodes, comp, k, i - 1);
        lemma_contribution_nonneg(nodes[i - 1].local);
    }
}

/// A member of component `k` fits in the gap between the sums below `k` and
/// below `k + 1`.
pub proof fn lemma_member_gap(nodes: Seq<Node>, comp: Seq<usize>, k: int, v: int, i: int)
    requires
        0 <= v < i,
        comp[v] == k,
    ensures
        locals_below(nodes, comp, k, i) + nodes[v].local.contribution() <= locals_below(
            nodes,
            comp,
            k + 1,
            i,
        ),
    decreases i,
{
    if i - 1 == v {
        lemma_locals_below_mono(nodes, comp, k, k + 1, i - 1);
    } else {
        lemma_member_gap(nodes, comp, k, v, i - 1);
        lemma_contribution_nonneg(nodes[i - 1].local);
    }
}

/// Unchanged locals keep every locals sum unchanged.
pub proof fn lemma_locals_below_frame(
    nodes1: Seq<Node>,
    nodes2: Seq<Node>,
    comp: Seq<usize>,
    k: int,
    i: int,
)
    requires
        nodes2.len() == nodes1.len(),
        forall|v: int| 0 <= v < nodes1.len() ==> nodes2[v].local == nodes1[v].local,
        i <= nodes1.len(),
    ensures
        locals_below(nodes2, comp, k, i) == locals_below(nodes1, comp, k, i),
    decreases i,
{
    if i > 0 {
        lemma_locals_below_frame(nodes1, nodes2, comp, k, i - 1);
    }
}

/// A solved component stays solved when only nodes of a later component
/// change their bound.
pub proof fn lemma_comp_solution_frame(
    nodes1: Seq<Node>,
    nodes2: Seq<Node>,
    edges: Seq<(usize, usize)>,
    sccs: Seq<Vec<usize>>,
    comp: Seq<usize>,
    k: int,
    kk: int,
)
    requires
        is_partition(sccs, nodes1.len() as int),
        comp_ok(comp, sccs),
        comp_ordered(sccs, edges),
        comp.len() == nodes1.len(),
        nodes2.len() == nodes1.len(),
        forall|i: int|
            0 <= i < edges.len() ==> (#[trigger] edges[i]).0 < nodes1.len() && edges[i].1
                < nodes1.len(),
        forall|v: int| 0 <= v < nodes1.len() && comp[v] != kk ==> nodes2[v] == nodes1[v],
        0 <= k < kk < sccs.len(),
        comp_solution(nodes1, edges, sccs, k),
    ensures
        comp_solution(nodes2, edges, sccs, k),
{
    let ck = sccs[k]@;
    assert forall|j: int| 0 <= j < ck.len() implies nodes2[ck[j] as int] == nodes1[ck[j] as int] by {
        assert(comp[ck[j] as int] == k);
    }
    assert forall|i: int|
        0 <= i < edges.len() && ck.contains(edges[i].0) && !ck.contains(
            edges[i].1,
        ) implies nodes2[#[trigger] edges[i].1 as int] == nodes1[edges[i].1 as int] by {
        let a = edges[i].0;
        let b = edges[i].1;
        let ja = choose|ja: int| 0 <= ja < ck.len() && ck[ja] == a;
        lemma_comp_membership(comp, sccs, nodes1.len() as int, b);
        let kb = comp[b as int];
        assert(sccs[kb as int]@.contains(b));
        let jb = choose|jb: int| 0 <= jb < sccs[kb as int]@.len() && sccs[kb as int]@[jb] == b;
        assert(kb != k);
        assert(kb < k);
        assert(kb != kk);
    }
    assert(lift_seq(nodes2, ck) =~= lift_seq(nodes1, ck));
    if !comp_is_cycle(sccs, edges, k) {
        let v = ck[0];
        assert(nodes2[v as int] == nodes1[v as int]) by {
            assert(comp[v as int] == k);
        }
        assert forall|i: int|
            0 <= i < edges.len() && (#[trigger] edges[i]).0 == v implies nodes2[edges[i].1 as int]
            == nodes1[edges[i].1 as int] by {
            let b = edges[i].1;
            lemma_comp_membership(comp, sccs, nodes1.len() as int, b);
            let kb = comp[b as int];
            if kb == k {
                assert(sccs[k]@.contains(b));
                let jb = choose|jb: int| 0 <= jb < ck.len() && ck[jb] == b;
                assert(ck.len() == 1);
                assert(b == v);
                assert(edges.contains((v, v))) by {
                    assert(edges[i] == (v, v));
                }
                assert(false);
            } else {
                assert(kb < k) by {
                    assert(sccs[kb as int]@.contains(b));
                    let jb = choose|jb: int|
                        0 <= jb < sccs[kb as int]@.len() && sccs[kb as int]@[jb] == b;
                    assert(ck.contains(v)) by {
                        assert(ck[0] == v);
                    }
                }
                assert(kb != kk);
            }
        }
    }
}

/// Fills the per-node component-id table from the component lists.
fn comp_ids(n: usize, sccs: &Vec<Vec<usize>>) -> (comp: Vec<usize>)
    requires
        is_partition(sccs@, n as int),
    ensures
        comp@.len() == n,
        comp_ok(comp@, sccs@),
{
    let mut comp: Vec<usize> = Vec::new();
    let mut v: usize = 0;
    while v < n
        invariant
            comp@.len() == v <= n,
        decreases n - v,
    {
        comp.push(0);
        v = v + 1;
    }
    let mut k: usize = 0;
    while k < sccs.len()
        invariant
            is_partition(sccs@, n as int),
            comp@.len() == n,
            0 <= k <= sccs@.len(),
            forall|k1: int, j1: int|
                0 <= k1 < k && 0 <= j1 < sccs@[k1]@.len() ==> comp@[#[trigger] sccs@[k1]@[j1] as int] == k1,
        decreases sccs@.len() - k,
    {
        let row = &sccs[k];
        let mut j: usize = 0;
        while j < row.len()
            invariant
                is_partition(sccs@, n as int),
                comp@.len() == n,
                0 <= k < sccs@.len(),
                row == sccs@[k as int],
                0 <= j <= row@.len(),
                forall|k1: int, j1: int|
                    0 <= k1 < k && 0 <= j1 < sccs@[k1]@.len() ==> comp@[#[trigger] sccs@[k1]@[j1] as int] == k1,
                forall|j1: int| 0 <= j1 < j ==> comp@[#[trigger] sccs@[k as int]@[j1] as int] == k,
            decreases row@.len() - j,
        {
            let idx = row[j];
            assert(idx < n);
            comp[idx] = k;
            proof {
                assert forall|k1: int, j1: int|
                    0 <= k1 < k && 0 <= j1 < sccs@[k1]@.len() implies comp@[#[trigger] sccs@[k1]@[j1] as int]
                    == k1 by {
                    assert(sccs@[k1]@[j1] != sccs@[k as int]@[j as int]);
                }
                assert forall|j1: int| 0 <= j1 < j + 1 implies comp@[#[trigger] sccs@[k as int]@[j1] as int]
                    == k by {
                    if j1 < j {
                        assert(sccs@[k as int]@[j1] != sccs@[k as int]@[j as int]);
                    }
                }
            }
            j = j + 1;
        }
        k = k + 1;
    }
    comp
}

/// Whether edge `i` leaves component `k`: its source sits in `k`, its
/// target outside.
pub open spec fn is_cross(edges: Seq<(usize, usize)>, comp: Seq<usize>, k: int, i: int) -> bool {
    0 <= i < edges.len() && comp[edges[i].0 as int] == k && comp[edges[i].1 as int] != k
}

fn collect_lifts(g: &Graph, comp_k: &Vec<usize>) -> (r: Vec<Max>)
    requires
        forall|j: int| 0 <= j < comp_k@.len() ==> (#[trigger] comp_k@[j]) < g.nodes@.len(),
    ensures
        r@ == lift_seq(g.nodes@, comp_k@),
{
    let mut r: Vec<Max> = Vec::new();
    let mut j: usize = 0;
    while j < comp_k.len()
        invariant
            0 <= j <= comp_k@.len(),
            forall|p: int| 0 <= p < comp_k@.len() ==> (#[trigger] comp_k@[p]) < g.nodes@.len(),
            r@ == lift_seq(g.nodes@, comp_k@.take(j as int)),
        decreases comp_k@.len() - j,
    {
        let v = comp_k[j];
        r.push(Max::from(g.nodes[v].local));
        proof {
            assert(lift_seq(g.nodes@, comp_k@.take(j + 1)) =~= lift_seq(
                g.nodes@,
                comp_k@.take(j as int),
            ).push(spec_lift(g.nodes@[comp_k@[j as int] as int].local)));
        }
        j = j + 1;
    }
    proof {
        assert(comp_k@.take(comp_k@.len() as int) =~= comp_k@);
    }
    r
}

fn collect_cross(g: &Graph, comp: &Vec<usize>, k: usize) -> (res: (Vec<Max>, Ghost<Seq<int>>))
    requires
        g.wf(),
        comp@.len() == g.nodes@.len(),
        forall|i: int|
            #[trigger] is_cross(g.edges@, comp@, k as int, i) ==> g.nodes@[g.edges@[i].1 as int].max is Some,
    ensures
        ({
            let (r, wit) = res;
            &&& wit@.len() == r@.len()
            &&& forall|p: int|
                0 <= p < r@.len() ==> is_cross(g.edges@, comp@, k as int, #[trigger] wit@[p])
                    && r@[p] == the_max(g.nodes@[g.edges@[wit@[p]].1 as int])
            &&& forall|i: int|
                #[trigger] is_cross(g.edges@, comp@, k as int, i) ==> r@.contains(
                    the_max(g.nodes@[g.edges@[i].1 as int]),
                )
            &&& (r@.len() == 0 <==> (forall|i: int| !is_cross(g.edges@, comp@, k as int, i)))
        }),
{
    let mut r: Vec<Max> = Vec::new();
    let ghost mut wit: Seq<int> = Seq::empty();
    let mut i: usize = 0;
    let ne = g.edges.len();
    while i < ne
        invariant
            0 <= i <= ne,
            ne == g.edges@.len(),
            g.wf(),
            comp@.len() == g.nodes@.len(),
            forall|q: int|
                #[trigger] is_cross(g.edges@, comp@, k as int, q) ==> g.nodes@[g.edges@[q].1 as int].max is Some,
            wit.len() == r@.len(),
            forall|p: int|
                0 <= p < r@.len() ==> is_cross(g.edges@, comp@, k as int, #[trigger] wit[p])
                    && r@[p] == the_max(g.nodes@[g.edges@[wit[p]].1 as int]),
            forall|q: int|
                0 <= q < i && #[trigger] is_cross(g.edges@, comp@, k as int, q) ==> r@.contains(
                    the_max(g.nodes@[g.edges@[q].1 as int]),
                ),
        decreases ne - i,
    {
        let e = g.edges[i];
        if comp[e.0] == k && comp[e.1] != k {
            proof {
                assert(is_cross(g.edges@, comp@, k as int, i as int));
            }
            let m = match &g.nodes[e.1].max {
                Some(m) => *m,
                None => {
                    proof {
                        assert(false);
                    }
                    Max::LowerBound(0)
                },
            };
            let ghost rold = r@;
            r.push(m);
            proof {
                wit = wit.push(i as int);
                assert(r@[rold.len() as int] == the_max(g.nodes@[g.edges@[i as int].1 as int]));
                assert forall|p: int|
                    0 <= p < r@.len() implies is_cross(
                    g.edges@,
                    comp@,
                    k as int,
                    #[trigger] wit[p],
                ) && r@[p] == the_max(g.nodes@[g.edges@[wit[p]].1 as int]) by {
                    if p < rold.len() {
                        assert(r@[p] == rold[p]);
                    } else {
                        assert(wit[p] == i as int);
                    }
                }
                assert forall|q: int|
                    0 <= q < i + 1 && #[trigger] is_cross(g.edges@, comp@, k as int, q) implies r@.contains(
                    the_max(g.nodes@[g.edges@[q].1 as int]),
                ) by {
                    if q < i {
                        let p = choose|p: int|
                            0 <= p < rold.len() && rold[p] == the_max(
                                g.nodes@[g.edges@[q].1 as int],
                            );
                        assert(r@[p] == the_max(g.nodes@[g.edges@[q].1 as int]));
                    } else {
                        assert(r@[rold.len() as int] == the_max(g.nodes@[g.edges@[q].1 as int]));
                    }
                }
            }
        }
        i = i + 1;
    }
    proof {
        if r@.len() == 0 {
            assert forall|q: int| !is_cross(g.edges@, comp@, k as int, q) by {
                if is_cross(g.edges@, comp@, k as int, q) {
                    assert(r@.contains(the_max(g.nodes@[g.edges@[q].1 as int])));
                    let p = choose|p: int| 0 <= p < r@.len() && r@[p] == the_max(g.nodes@[g.edges@[q].1 as int]);
                    assert(false);
                }
            }
        } else {
            assert(is_cross(g.edges@, comp@, k as int, wit[0]));
        }
    }
    (r, Ghost(wit))
}

fn assign_comp(g: &mut Graph, comp_k: &Vec<usize>, m: Max)
    requires
        forall|j: int| 0 <= j < comp_k@.len() ==> (#[trigger] comp_k@[j]) < old(g).nodes@.len(),
    ensures
        final(g).edges@ == old(g).edges@,
        final(g).nodes@.len() == old(g).nodes@.len(),
        forall|v: int|
            0 <= v < old(g).nodes@.len() && !comp_k@.contains(v as usize) ==> final(g).nodes@[v]
                == old(g).nodes@[v],
        forall|j: int|
            0 <= j < comp_k@.len() ==> {
                &&& (#[trigger] final(g).nodes@[comp_k@[j] as int]).max == Some(m)
                &&& final(g).nodes@[comp_k@[j] as int].name == old(g).nodes@[comp_k@[j] as int].name
                &&& final(g).nodes@[comp_k@[j] as int].local == old(g).nodes@[comp_k@[j] as int].local
                &&& final(g).nodes@[comp_k@[j] as int].dashed == old(g).nodes@[comp_k@[j] as int].dashed
            },
{
    let mut j: usize = 0;
    while j < comp_k.len()
        invariant
            0 <= j <= comp_k@.len(),
            forall|p: int| 0 <= p < comp_k@.len() ==> (#[trigger] comp_k@[p]) < old(g).nodes@.len(),
            g.edges@ == old(g).edges@,
            g.nodes@.len() == old(g).nodes@.len(),
            forall|v: int|
                0 <= v < old(g).nodes@.len() && !comp_k@.take(j as int).contains(v as usize)
                    ==> g.nodes@[v] == old(g).nodes@[v],
            forall|p: int|
                0 <= p < j ==> {
                    &&& (#[trigger] g.nodes@[comp_k@[p] as int]).max == Some(m)
                    &&& g.nodes@[comp_k@[p] as int].name == old(g).nodes@[comp_k@[p] as int].name
                    &&& g.nodes@[comp_k@[p] as int].local == old(g).nodes@[comp_k@[p] as int].local
                    &&& g.nodes@[comp_k@[p] as int].dashed == old(g).nodes@[comp_k@[p] as int].dashed
                },
        decreases comp_k@.len() - j,
    {
        let v = comp_k[j];
        proof {
            if !comp_k@.take(j as int).contains(v) {
                assert(g.nodes@[v as int] == old(g).nodes@[v as int]);
            }
        }
        g.nodes[v].max = Some(m);
        proof {
            assert forall|w: int|
                0 <= w < old(g).nodes@.len() && !comp_k@.take(j + 1).contains(w as usize)
                    implies g.nodes@[w] == old(g).nodes@[w] by {
                if w != v {
                    assert(!comp_k@.take(j as int).contains(w as usize)) by {
                        if comp_k@.take(j as int).contains(w as usize) {
                            let p = choose|p: int|
                                0 <= p < j && comp_k@.take(j as int)[p] == w as usize;
                            assert(comp_k@.take(j + 1)[p] == w as usize);
                        }
                    }
                } else {
                    assert(comp_k@.take(j + 1)[j as int] == v);
                    assert(false);
                }
            }
        }
        j = j + 1;
    }
    proof {
        assert forall|v: int|
            0 <= v < old(g).nodes@.len() && !comp_k@.contains(v as usize) implies g.nodes@[v]
            == old(g).nodes@[v] by {
            assert(!comp_k@.take(comp_k@.len() as int).contains(v as usize)) by {
                assert(comp_k@.take(comp_k@.len() as int) =~= comp_k@);
            }
        }
    }
}

/// After assigning `m` to every member of component `k`, that component is
/// solved, provided `m` was computed from the component's base and the maxima
/// of the edges leaving it.
#[verifier::rlimit(100)]
proof fn lemma_comp_k_solution(
    pre: Seq<Node>,
    cur: Seq<Node>,
    edges: Seq<(usize, usize)>,
    sccs: Seq<Vec<usize>>,
    comp: Seq<usize>,
    k: int,
    n: int,
    m: Max,
    cross: Seq<Max>,
    wit: Seq<int>,
    cross_max: Option<Max>,
)
    requires
        pre.len() == n,
        cur.len() == n,
        comp.len() == n,
        is_partition(sccs, n),
        comp_ok(comp, sccs),
        comp_ordered(sccs, edges),
        forall|i: int| 0 <= i < edges.len() ==> (#[trigger] edges[i]).0 < n && edges[i].1 < n,
        0 <= k < sccs.len(),
        forall|v: int| 0 <= v < n && comp[v] != k ==> #[trigger] cur[v] == pre[v],
        forall|v: int|
            0 <= v < n && comp[v] == k ==> (#[trigger] cur[v]).max == Some(m) && cur[v].local
                == pre[v].local,
        forall|v: int| 0 <= v < n ==> ((comp[v] < k) <==> (#[trigger] pre[v]).max is Some),
        wit.len() == cross.len(),
        forall|p: int|
            0 <= p < cross.len() ==> is_cross(edges, comp, k, #[trigger] wit[p]) && cross[p]
                == the_max(pre[edges[wit[p]].1 as int]),
        forall|i: int|
            #[trigger] is_cross(edges, comp, k, i) ==> cross.contains(
                the_max(pre[edges[i].1 as int]),
            ),
        cross.len() == 0 <==> (forall|i: int| !is_cross(edges, comp, k, i)),
        cross_max is Some <==> cross.len() > 0,
        cross.len() > 0 ==> cross_max == Some(spec_max_of(cross)),
        (if comp_is_cycle(sccs, edges, k) {
            &&& m == (match cross_max {
                Some(o) => crate::usage::spec_add(comp_base(pre, sccs[k]@), o),
                None => comp_base(pre, sccs[k]@),
            })
            &&& cross.len() > 0 ==> comp_base(pre, sccs[k]@).payload() + spec_max_of(
                cross,
            ).payload() <= u64::MAX
        } else {
            &&& m == (match cross_max {
                Some(o) => crate::usage::spec_add(o, spec_lift(pre[sccs[k]@[0] as int].local)),
                None => spec_lift(pre[sccs[k]@[0] as int].local),
            })
            &&& cross.len() > 0 ==> pre[sccs[k]@[0] as int].local.contribution() + spec_max_of(
                cross,
            ).payload() <= u64::MAX
        }),
    ensures
        comp_solution(cur, edges, sccs, k),
{
    let ck = sccs[k]@;
    assert(ck.len() >= 1);
    assert forall|j: int| 0 <= j < ck.len() implies comp[#[trigger] ck[j] as int] == k by {}
    assert forall|a: usize| a < n implies (ck.contains(a) <==> comp[a as int] == k) by {
        lemma_comp_membership(comp, sccs, n, a);
    }
    // an edge is cross in component-id terms exactly when it leaves the list
    assert forall|i: int|
        0 <= i < edges.len() implies (is_cross(edges, comp, k, i) <==> (ck.contains(edges[i].0)
        && !ck.contains(edges[i].1))) by {}
    // cross targets sit in earlier components and are untouched
    assert forall|i: int| #[trigger] is_cross(edges, comp, k, i) implies {
        &&& comp[edges[i].1 as int] < k
        &&& cur[edges[i].1 as int] == pre[edges[i].1 as int]
        &&& pre[edges[i].1 as int].max is Some
    } by {
        let a = edges[i].0;
        let b = edges[i].1;
        lemma_comp_membership(comp, sccs, n, a);
        lemma_comp_membership(comp, sccs, n, b);
        let kb = comp[b as int];
        let ja = choose|ja: int| 0 <= ja < sccs[k]@.len() && sccs[k]@[ja] == a;
        let jb = choose|jb: int| 0 <= jb < sccs[kb as int]@.len() && sccs[kb as int]@[jb] == b;
        assert(sccs[k]@[ja] == edges[i].0 && sccs[kb as int]@[jb] == edges[i].1);
        assert(kb < k);
    }
    if cross.len() > 0 {
        lemma_max_of_bounds(cross);
        lemma_max_of_exact(cross);
    }
    if comp_is_cycle(sccs, edges, k) {
        assert(lift_seq(cur, ck) =~= lift_seq(pre, ck));
        let base = comp_base(cur, ck);
        assert(base == comp_base(pre, ck));
        assert(comp[ck[0] as int] == k);
        assert(the_max(cur[ck[0] as int]) == m);
        // every member carries m
        assert forall|j: int| 0 <= j < ck.len() implies (#[trigger] cur[ck[j] as int].max) == Some(
            m,
        ) by {}
        // domination and exactness per leaving edge
        assert forall|i: int|
            #![trigger edges[i]]
            0 <= i < edges.len() && ck.contains(edges[i].0) && !ck.contains(
                edges[i].1,
            ) implies {
            &&& cur[edges[i].1 as int].max is Some
            &&& m.payload() >= base.payload() + the_max(cur[edges[i].1 as int]).payload()
        } by {
            assert(is_cross(edges, comp, k, i));
            let tv = the_max(pre[edges[i].1 as int]);
            assert(cross.contains(tv));
            let p = choose|p: int| 0 <= p < cross.len() && cross[p] == tv;
            assert(tv.payload() <= spec_max_of(cross).payload());
        }
        // with no leaving edge the bound is the base itself
        if forall|i: int|
            #![trigger edges[i]]
            0 <= i < edges.len() ==> !(ck.contains(edges[i].0) && !ck.contains(edges[i].1)) {
            assert(cross.len() == 0) by {
                if cross.len() > 0 {
                    let q = wit[0];
                    assert(is_cross(edges, comp, k, q));
                    assert(ck.contains(edges[q].0) && !ck.contains(edges[q].1));
                }
            }
            assert(m == base);
        }
        // some leaving edge (or the base) attains the bound
        if exists|i: int|
            #![trigger edges[i]]
            0 <= i < edges.len() && ck.contains(edges[i].0) && !ck.contains(edges[i].1) {
            let i0 = choose|i0: int|
                #![trigger edges[i0]]
                0 <= i0 < edges.len() && ck.contains(edges[i0].0) && !ck.contains(edges[i0].1);
            assert(is_cross(edges, comp, k, i0));
            assert(cross.len() > 0);
            let p = choose|p: int|
                0 <= p < cross.len() && cross[p].payload() == spec_max_of(cross).payload();
            let q = wit[p];
            assert(is_cross(edges, comp, k, q));
            assert(ck.contains(edges[q].0) && !ck.contains(edges[q].1));
            assert(m.payload() == base.payload() + the_max(cur[edges[q].1 as int]).payload());
        }
        // exactness
        assert(m is Exact <==> (base is Exact && (forall|i: int|
            #![trigger edges[i]]
            0 <= i < edges.len() && ck.contains(edges[i].0) && !ck.contains(edges[i].1)
                ==> the_max(cur[edges[i].1 as int]) is Exact))) by {
            if cross.len() == 0 {
                assert(m == base);
            } else {
                let o = spec_max_of(cross);
                if m is Exact {
                    assert(base is Exact && o is Exact);
                    assert forall|i: int|
                        #![trigger edges[i]]
                        0 <= i < edges.len() && ck.contains(edges[i].0) && !ck.contains(
                            edges[i].1,
                        ) implies the_max(cur[edges[i].1 as int]) is Exact by {
                        assert(is_cross(edges, comp, k, i));
                        let tv = the_max(pre[edges[i].1 as int]);
                        assert(cross.contains(tv));
                        let p = choose|p: int| 0 <= p < cross.len() && cross[p] == tv;
                        assert(cross[p] is Exact);
                    }
                } else {
                    if base is Exact && (forall|i: int|
                        #![trigger edges[i]]
                        0 <= i < edges.len() && ck.contains(edges[i].0) && !ck.contains(
                            edges[i].1,
                        ) ==> the_max(cur[edges[i].1 as int]) is Exact) {
                        assert forall|p: int| 0 <= p < cross.len() implies (#[trigger] cross[p]) is Exact by {
                            let q = wit[p];
                            assert(is_cross(edges, comp, k, q));
                            assert(ck.contains(edges[q].0) && !ck.contains(edges[q].1));
                            assert(cross[p] == the_max(cur[edges[q].1 as int]));
                        }
                        assert(o is Exact);
                        assert(false);
                    }
                }
            }
        }
        assert(cyclic_sol(cur, edges, ck));
    } else {
        let v = ck[0];
        assert(ck.len() == 1);
        assert(comp[v as int] == k);
        let l = cur[v as int].local;
        assert(l == pre[v as int].local);
        assert(the_max(cur[v as int]) == m);
        // an edge leaves v exactly when it is cross
        assert forall|i: int|
            0 <= i < edges.len() implies ((edges[i].0 == v) <==> is_cross(edges, comp, k, i)) by {
            if edges[i].0 == v {
                if comp[edges[i].1 as int] == k {
                    assert(ck.contains(edges[i].1));
                    assert(edges[i].1 == v);
                    assert(edges.contains((v, v))) by {
                        assert(edges[i] == (v, v));
                    }
                    assert(false);
                }
            } else {
                if is_cross(edges, comp, k, i) {
                    assert(ck.contains(edges[i].0));
                    assert(edges[i].0 == v);
                }
            }
        }
        assert forall|i: int|
            #![trigger edges[i]]
            0 <= i < edges.len() && edges[i].0 == v implies {
            &&& cur[edges[i].1 as int].max is Some
            &&& m.payload() >= l.contribution() + the_max(cur[edges[i].1 as int]).payload()
        } by {
            assert(is_cross(edges, comp, k, i));
            let tv = the_max(pre[edges[i].1 as int]);
            assert(cross.contains(tv));
            let p = choose|p: int| 0 <= p < cross.len() && cross[p] == tv;
            assert(tv.payload() <= spec_max_of(cross).payload());
        }
        if forall|i: int| #![trigger edges[i]] 0 <= i < edges.len() ==> edges[i].0 != v {
            assert(cross.len() == 0) by {
                if cross.len() > 0 {
                    let q = wit[0];
                    assert(is_cross(edges, comp, k, q));
                    assert(edges[q].0 == v);
                }
            }
            assert(m == spec_lift(l));
        }
        if exists|i: int| #![trigger edges[i]] 0 <= i < edges.len() && edges[i].0 == v {
            let i0 = choose|i0: int|
                #![trigger edges[i0]]
                0 <= i0 < edges.len() && edges[i0].0 == v;
            assert(is_cross(edges, comp, k, i0));
            assert(cross.len() > 0);
            let p = choose|p: int|
                0 <= p < cross.len() && cross[p].payload() == spec_max_of(cross).payload();
            let q = wit[p];
            assert(is_cross(edges, comp, k, q));
            assert(edges[q].0 == v);
            assert(m.payload() == l.contribution() + the_max(cur[edges[q].1 as int]).payload());
        }
        assert(m is Exact <==> (l is Exact && (forall|i: int|
            #![trigger edges[i]]
            0 <= i < edges.len() && edges[i].0 == v ==> the_max(cur[edges[i].1 as int]) is Exact)))
            by {
            if cross.len() == 0 {
                assert(m == spec_lift(l));
            } else {
                let o = spec_max_of(cross);
                if m is Exact {
                    assert(l is Exact && o is Exact);
                    assert forall|i: int|
                        #![trigger edges[i]]
                        0 <= i < edges.len() && edges[i].0 == v implies the_max(
                        cur[edges[i].1 as int],
                    ) is Exact by {
                        assert(is_cross(edges, comp, k, i));
                        let tv = the_max(pre[edges[i].1 as int]);
                        assert(cross.contains(tv));
                        let p = choose|p: int| 0 <= p < cross.len() && cross[p] == tv;
                        assert(cross[p] is Exact);
                    }
                } else {
                    if l is Exact && (forall|i: int|
                        #![trigger edges[i]]
                        0 <= i < edges.len() && edges[i].0 == v ==> the_max(
                            cur[edges[i].1 as int],
                        ) is Exact) {
                        assert forall|p: int| 0 <= p < cross.len() implies (#[trigger] cross[p]) is Exact by {
                            let q = wit[p];
                            assert(is_cross(edges, comp, k, q));
                            assert(edges[q].0 == v);
                            assert(cross[p] == the_max(cur[edges[q].1 as int]));
                        }
                        assert(o is Exact);
                        assert(false);
                    }
                }
            }
        }
        assert(acyclic_sol(cur, edges, v));
    }
}

/// Solves the whole graph: processes the components in the given reverse
/// topological order, assigning every node its bound exactly once.
pub fn solve(g: &mut Graph, sccs: &Vec<Vec<usize>>)
    requires
        old(g).wf(),
        is_partition(sccs@, old(g).nodes@.len() as int),
        comp_ordered(sccs@, old(g).edges@),
        forall|v: int| 0 <= v < old(g).nodes@.len() ==> (#[trigger] old(g).nodes@[v]).max is None,
        locals_partial(old(g).nodes@, old(g).nodes@.len() as int) <= u64::MAX,
    ensures
        final(g).wf(),
        final(g).edges@ == old(g).edges@,
        final(g).nodes@.len() == old(g).nodes@.len(),
        forall|v: int|
            0 <= v < old(g).nodes@.len() ==> {
                &&& (#[trigger] final(g).nodes@[v]).name == old(g).nodes@[v].name
                &&& final(g).nodes@[v].local == old(g).nodes@[v].local
                &&& final(g).nodes@[v].dashed == old(g).nodes@[v].dashed
                &&& final(g).nodes@[v].max is Some
            },
        solved(final(g).nodes@, final(g).edges@, sccs@),
{
    let n = g.nodes.len();
    let comp = comp_ids(n, sccs);
    let ghost nodes0 = g.nodes@;
    let ghost edges = g.edges@;
    let nk = sccs.len();
    let mut k: usize = 0;
    while k < nk
        invariant
            g.wf(),
            g.edges@ == edges,
            edges == old(g).edges@,
            g.nodes@.len() == n,
            n == old(g).nodes@.len(),
            nodes0 == old(g).nodes@,
            comp@.len() == n,
            comp_ok(comp@, sccs@),
            is_partition(sccs@, n as int),
            comp_ordered(sccs@, edges),
            locals_partial(nodes0, n as int) <= u64::MAX,
            nk == sccs@.len(),
            0 <= k <= nk,
            forall|v: int|
                0 <= v < n ==> {
                    &&& (#[trigger] g.nodes@[v]).name == nodes0[v].name
                    &&& g.nodes@[v].local == nodes0[v].local
                    &&& g.nodes@[v].dashed == nodes0[v].dashed
                },
            forall|v: int| 0 <= v < n ==> ((comp@[v] < k) <==> (#[trigger] g.nodes@[v]).max is Some),
            forall|v: int|
                0 <= v < n && comp@[v] < k ==> the_max(#[trigger] g.nodes@[v]).payload()
                    <= locals_below(nodes0, comp@, comp@[v] + 1, n as int),
            forall|kk: int| 0 <= kk < k ==> #[trigger] comp_solution(g.nodes@, edges, sccs@, kk),
        decreases nk - k,
    {
        let comp_k = &sccs[k];
        proof {
            assert(comp_k@.len() >= 1);
            assert forall|j: int| 0 <= j < comp_k@.len() implies (#[trigger] comp_k@[j]) < n by {
                assert(sccs@[k as int]@[j] < n);
            }
            // every edge leaving this component reaches an earlier, solved one
            assert forall|i: int| #[trigger] is_cross(edges, comp@, k as int, i) implies {
                &&& comp@[edges[i].1 as int] < k
                &&& g.nodes@[edges[i].1 as int].max is Some
                &&& the_max(g.nodes@[edges[i].1 as int]).payload() <= locals_below(
                    nodes0,
                    comp@,
                    k as int,
                    n as int,
                )
            } by {
                let a = edges[i].0;
                let b = edges[i].1;
                assert(a < n && b < n);
                lemma_comp_membership(comp@, sccs@, n as int, a);
                lemma_comp_membership(comp@, sccs@, n as int, b);
                let kb = comp@[b as int];
                assert(sccs@[k as int]@.contains(a));
                assert(sccs@[kb as int]@.contains(b));
                let ja = choose|ja: int| 0 <= ja < sccs@[k as int]@.len() && sccs@[k as int]@[ja] == a;
                let jb = choose|jb: int| 0 <= jb < sccs@[kb as int]@.len() && sccs@[kb as int]@[jb] == b;
                assert(sccs@[k as int]@[ja] == edges[i].0 && sccs@[kb as int]@[jb] == edges[i].1);
                assert(kb < k);
                lemma_locals_below_mono(nodes0, comp@, kb + 1, k as int, n as int);
            }
        }
        let is_cycle = comp_k.len() > 1 || g.has_edge(comp_k[0], comp_k[0]);
        proof {
            assert(is_cycle == comp_is_cycle(sccs@, edges, k as int));
        }
        let (cross, wit) = collect_cross(g, &comp, k);
        let cross_max = max_of(&cross);
        proof {
            if cross@.len() > 0 {
                lemma_max_of_bounds(cross@);
                lemma_max_of_exact(cross@);
                assert(spec_max_of(cross@).payload() <= locals_below(
                    nodes0,
                    comp@,
                    k as int,
                    n as int,
                )) by {
                    let p = choose|p: int|
                        0 <= p < cross@.len() && cross@[p].payload() == spec_max_of(
                            cross@,
                        ).payload();
                    assert(is_cross(edges, comp@, k as int, wit@[p]));
                }
            }
            lemma_locals_below_nonneg(nodes0, comp@, k as int, n as int);
            lemma_locals_below_le_partial(nodes0, comp@, k + 1, n as int);
        }
        let m: Max;
        if is_cycle {
            let lifts = collect_lifts(g, comp_k);
            proof {
                assert(lifts@.len() == comp_k@.len());
            }
            let lifted = match max_of(&lifts) {
                Some(x) => x,
                None => {
                    proof {
                        assert(false);
                    }
                    Max::LowerBound(0)
                },
            };
            let base = match lifted {
                Max::Exact(x) => if x != 0 {
                    Max::LowerBound(x)
                } else {
                    Max::Exact(x)
                },
                Max::LowerBound(x) => Max::LowerBound(x),
            };
            proof {
                assert(lifted == comp_lifted(g.nodes@, comp_k@));
                assert(base == comp_base(g.nodes@, comp_k@));
                // the base fits in the gap of the filtered sums
                lemma_max_of_bounds(lifts@);
                let jb = choose|jb: int|
                    0 <= jb < lifts@.len() && lifts@[jb].payload() == lifted.payload();
                assert(lifts@[jb] == spec_lift(g.nodes@[comp_k@[jb] as int].local));
                assert(base.payload() == nodes0[comp_k@[jb] as int].local.contribution());
                assert(comp@[comp_k@[jb] as int] == k);
                lemma_member_gap(nodes0, comp@, k as int, comp_k@[jb] as int, n as int);
                assert(locals_below(nodes0, comp@, k as int, n as int) + base.payload()
                    <= locals_below(nodes0, comp@, k + 1, n as int));
            }
            m = match cross_max {
                Some(o) => base.add_max(o),
                None => base,
            };
        } else {
            let v = comp_k[0];
            let l = g.nodes[v].local;
            proof {
                assert(comp@[v as int] == k);
                assert(l.contribution() == nodes0[v as int].local.contribution());
                lemma_member_gap(nodes0, comp@, k as int, v as int, n as int);
            }
            m = match cross_max {
                Some(o) => o.add_local(l),
                None => Max::from(l),
            };
        }
        let ghost pre = g.nodes@;
        assign_comp(g, comp_k, m);
        proof {
            assert forall|v: int|
                0 <= v < n && comp@[v] != k implies g.nodes@[v] == pre[v] by {
                lemma_comp_membership(comp@, sccs@, n as int, v as usize);
                assert(!comp_k@.contains(v as usize));
            }
            assert forall|v: int|
                0 <= v < n && comp@[v] == k implies g.nodes@[v].max == Some(m) by {
                lemma_comp_membership(comp@, sccs@, n as int, v as usize);
                let j = choose|j: int| 0 <= j < comp_k@.len() && comp_k@[j] == v as usize;
                assert(g.nodes@[comp_k@[j] as int].max == Some(m));
            }
            // earlier components stay solved
            assert forall|kk: int|
                0 <= kk < k + 1 implies #[trigger] comp_solution(g.nodes@, edges, sccs@, kk) by {
                if kk < k {
                    lemma_comp_solution_frame(pre, g.nodes@, edges, sccs@, comp@, kk, k as int);
                } else {
                    lemma_comp_k_solution(
                        pre,
                        g.nodes@,
                        edges,
                        sccs@,
                        comp@,
                        k as int,
                        n as int,
                        m,
                        cross@,
                        wit@,
                        cross_max,
                    );
                }
            }
        }
        k = k + 1;
    }
    proof {
        assert forall|v: int| 0 <= v < n implies (#[trigger] g.nodes@[v]).max is Some by {
            lemma_comp_membership(comp@, sccs@, n as int, v as usize);
        }
    }
}

/// A sequence of nodes is a path when consecutive entries are edges.
pub open spec fn is_path(edges: Seq<(usize, usize)>, p: Seq<usize>) -> bool {
    &&& p.len() >= 1
    &&& forall|t: int| 0 <= t < p.len() - 1 ==> edges.contains((#[trigger] p[t], p[t + 1]))
}

/// The locals of the nodes a path visits, summed; unknown locals count zero.
pub open spec fn path_sum(nodes: Seq<Node>, p: Seq<usize>) -> int
    decreases p.len(),
{
    if p.len() == 0 {
        0
    } else {
        nodes[p[0] as int].local.contribution() + path_sum(nodes, p.drop_first())
    }
}

/// In a solved graph every bound covers the node's own local.
pub proof fn lemma_solved_self(
    nodes: Seq<Node>,
    edges: Seq<(usize, usize)>,
    sccs: Seq<Vec<usize>>,
    u: usize,
)
    requires
        is_partition(sccs, nodes.len() as int),
        solved(nodes, edges, sccs),
        u < nodes.len(),
    ensures
        nodes[u as int].max is Some,
        the_max(nodes[u as int]).payload() >= nodes[u as int].local.contribution(),
        the_max(nodes[u as int]) is Exact ==> nodes[u as int].local is Exact,
{
    assert(appears(sccs, u));
    let (k, j) = choose|k: int, j: int|
        0 <= k < sccs.len() && 0 <= j < sccs[k]@.len() && sccs[k]@[j] == u;
    assert(comp_solution(nodes, edges, sccs, k));
    let ck = sccs[k]@;
    if comp_is_cycle(sccs, edges, k) {
        let base = comp_base(nodes, ck);
        let m = the_max(nodes[ck[0] as int]);
        assert(nodes[ck[j] as int].max == Some(m));
        lemma_max_of_bounds(lift_seq(nodes, ck));
        lemma_max_of_exact(lift_seq(nodes, ck));
        assert(lift_seq(nodes, ck)[j] == spec_lift(nodes[u as int].local));
        assert(comp_lifted(nodes, ck).payload() >= nodes[u as int].local.contribution());
        // the component bound covers the base, which covers every member local
        if forall|i: int|
            #![trigger edges[i]]
            0 <= i < edges.len() ==> !(ck.contains(edges[i].0) && !ck.contains(edges[i].1)) {
            assert(m == base);
        } else {
            let i0 = choose|i0: int|
                #![trigger edges[i0]]
                0 <= i0 < edges.len() && ck.contains(edges[i0].0) && !ck.contains(edges[i0].1);
            assert(m.payload() >= base.payload() + the_max(nodes[edges[i0].1 as int]).payload());
        }
        if m is Exact {
            assert(base is Exact);
            assert(comp_lifted(nodes, ck) is Exact) by {
                if comp_lifted(nodes, ck) is LowerBound {
                    assert(!(base is Exact));
                }
            }
            assert(spec_lift(nodes[u as int].local) is Exact);
        }
    } else {
        assert(ck[0] == u) by {
            assert(ck.len() == 1);
        }
        assert(acyclic_sol(nodes, edges, u));
        let l = nodes[u as int].local;
        let m = the_max(nodes[u as int]);
        if forall|i: int| #![trigger edges[i]] 0 <= i < edges.len() ==> edges[i].0 != u {
            assert(m == spec_lift(l));
        } else {
            let i0 = choose|i0: int| #![trigger edges[i0]] 0 <= i0 < edges.len() && edges[i0].0 == u;
            assert(m.payload() >= l.contribution() + the_max(nodes[edges[i0].1 as int]).payload());
            assert(the_max(nodes[edges[i0].1 as int]).payload() >= 0);
        }
    }
}

/// Along every edge of a solved graph the bound never grows, and an exact
/// bound at the caller covers its local plus the callee's exact bound.
pub proof fn lemma_solved_edge(
    nodes: Seq<Node>,
    edges: Seq<(usize, usize)>,
    sccs: Seq<Vec<usize>>,
    u: usize,
    w: usize,
)
    requires
        is_partition(sccs, nodes.len() as int),
        solved(nodes, edges, sccs),
        edges.contains((u, w)),
        u < nodes.len(),
        w < nodes.len(),
    ensures
        nodes[u as int].max is Some,
        nodes[w as int].max is Some,
        the_max(nodes[u as int]).payload() >= the_max(nodes[w as int]).payload(),
        the_max(nodes[u as int]) is Exact ==> {
            &&& nodes[u as int].local is Exact
            &&& the_max(nodes[w as int]) is Exact
            &&& the_max(nodes[u as int]).payload() >= nodes[u as int].local.contribution()
                + the_max(nodes[w as int]).payload()
        },
{
    lemma_solved_self(nodes, edges, sccs, u);
    lemma_solved_self(nodes, edges, sccs, w);
    assert(appears(sccs, u));
    let (k, j) = choose|k: int, j: int|
        0 <= k < sccs.len() && 0 <= j < sccs[k]@.len() && sccs[k]@[j] == u;
    assert(comp_solution(nodes, edges, sccs, k));
    let ck = sccs[k]@;
    assert(ck.contains(u)) by {
        assert(ck[j] == u);
    }
    let i0 = choose|i0: int| 0 <= i0 < edges.len() && edges[i0] == (u, w);
    if comp_is_cycle(sccs, edges, k) {
        let base = comp_base(nodes, ck);
        let m = the_max(nodes[ck[0] as int]);
        assert(nodes[ck[j] as int].max == Some(m));
        assert(the_max(nodes[u as int]) == m);
        lemma_max_of_bounds(lift_seq(nodes, ck));
        lemma_max_of_exact(lift_seq(nodes, ck));
        assert(lift_seq(nodes, ck)[j] == spec_lift(nodes[u as int].local));
        if ck.contains(w) {
            let jw = choose|jw: int| 0 <= jw < ck.len() && ck[jw] == w;
            assert(nodes[ck[jw] as int].max == Some(m));
            if m is Exact {
                assert(base is Exact);
                assert(comp_lifted(nodes, ck) is Exact) by {
                    if comp_lifted(nodes, ck) is LowerBound {
                        assert(!(base is Exact));
                    }
                }
                assert(comp_lifted(nodes, ck).payload() == 0) by {
                    if comp_lifted(nodes, ck).payload() != 0 {
                        assert(!(base is Exact));
                    }
                }
                assert(nodes[u as int].local.contribution() <= 0);
            }
        } else {
            assert(ck.contains(edges[i0].0) && !ck.contains(edges[i0].1)) by {
                assert(edges[i0].0 == u && edges[i0].1 == w);
            }
            assert(m.payload() >= base.payload() + the_max(nodes[w as int]).payload());
            assert(base.payload() >= nodes[u as int].local.contribution());
            if m is Exact {
                assert(the_max(nodes[w as int]) is Exact);
                assert(base is Exact);
                assert(comp_lifted(nodes, ck) is Exact) by {
                    if comp_lifted(nodes, ck) is LowerBound {
                        assert(!(base is Exact));
                    }
                }
            }
        }
    } else {
        assert(ck[0] == u) by {
            assert(ck.len() == 1);
        }
        assert(acyclic_sol(nodes, edges, u));
        assert(edges[i0].0 == u && edges[i0].1 == w);
        let m = the_max(nodes[u as int]);
        assert(m.payload() >= nodes[u as int].local.contribution() + the_max(
            nodes[w as int],
        ).payload());
        if m is Exact {
            assert(the_max(nodes[w as int]) is Exact);
        }
    }
}

/// Solver soundness for exact bounds: when a node's bound is exact, every
/// node on every path out of it has an exactly known local and an exact
/// bound, and the locals along the path sum to no more than the bound.
pub proof fn lemma_solved_paths(
    nodes: Seq<Node>,
    edges: Seq<(usize, usize)>,
    sccs: Seq<Vec<usize>>,
    p: Seq<usize>,
)
    requires
        is_partition(sccs, nodes.len() as int),
        solved(nodes, edges, sccs),
        is_path(edges, p),
        forall|i: int| 0 <= i < edges.len() ==> (#[trigger] edges[i]).0 < nodes.len() && edges[i].1 < nodes.len(),
        p[0] < nodes.len(),
        nodes[p[0] as int].max is Some,
        the_max(nodes[p[0] as int]) is Exact,
    ensures
        forall|t: int|
            0 <= t < p.len() ==> {
                &&& (#[trigger] p[t]) < nodes.len()
                &&& nodes[p[t] as int].local is Exact
                &&& nodes[p[t] as int].max is Some
                &&& the_max(nodes[p[t] as int]) is Exact
            },
        path_sum(nodes, p) <= the_max(nodes[p[0] as int]).payload(),
    decreases p.len(),
{
    lemma_solved_self(nodes, edges, sccs, p[0]);
    if p.len() == 1 {
        assert(path_sum(nodes, p.drop_first()) == 0);
    } else {
        let u = p[0];
        let w = p[1];
        assert(edges.contains((u, w)));
        assert(w < nodes.len()) by {
            let i0 = choose|i0: int| 0 <= i0 < edges.len() && edges[i0] == (u, w);
        }
        lemma_solved_edge(nodes, edges, sccs, u, w);
        let q = p.drop_first();
        assert(is_path(edges, q)) by {
            assert forall|t: int| 0 <= t < q.len() - 1 implies edges.contains(
                (#[trigger] q[t], q[t + 1]),
            ) by {
                assert(q[t] == p[t + 1] && q[t + 1] == p[t + 2]);
            }
        }
        assert(q[0] == w);
        lemma_solved_paths(nodes, edges, sccs, q);
        assert forall|t: int|
            0 <= t < p.len() implies {
            &&& (#[trigger] p[t]) < nodes.len()
            &&& nodes[p[t] as int].local is Exact
            &&& nodes[p[t] as int].max is Some
            &&& the_max(nodes[p[t] as int]) is Exact
        } by {
            if t > 0 {
                assert(q[t - 1] == p[t]);
            }
        }
        assert(path_sum(nodes, q) <= the_max(nodes[w as int]).payload());
    }
}

/// Every member of a cyclic component whose largest local is non-zero ends
/// with a lower bound, never an exact one.
pub proof fn lemma_scc_demotion(
    nodes: Seq<Node>,
    edges: Seq<(usize, usize)>,
    sccs: Seq<Vec<usize>>,
    k: int,
)
    requires
        is_partition(sccs, nodes.len() as int),
        solved(nodes, edges, sccs),
        0 <= k < sccs.len(),
        comp_is_cycle(sccs, edges, k),
        comp_lifted(nodes, sccs[k]@).payload() != 0,
    ensures
        forall|j: int|
            0 <= j < sccs[k]@.len() ==> ((#[trigger] nodes[sccs[k]@[j] as int].max) matches Some(m)
                && m is LowerBound),
{
    assert(comp_solution(nodes, edges, sccs, k));
    let ck = sccs[k]@;
    let m = the_max(nodes[ck[0] as int]);
    assert(!(comp_base(nodes, ck) is Exact));
    assert(!(m is Exact));
    assert forall|j: int|
        0 <= j < ck.len() implies ((#[trigger] nodes[ck[j] as int].max) matches Some(mm)
            && mm is LowerBound) by {
        assert(nodes[ck[j] as int].max == Some(m));
    }
}

} // verus!
