//! Restriction of the call graph to the nodes reachable from a start symbol.
use vstd::prelude::*;
use crate::demangle::{demangle, demangled_of};
use crate::graph::{Graph, Node};
use crate::solver::is_path;
use crate::strings::{starts_with, starts_with_seq, str_eq};

verus! {

/// Whether some path of edges leads from `s` to `t`.
pub open spec fn reachable(edges: Seq<(usize, usize)>, s: usize, t: usize) -> bool {
    exists|p: Seq<usize>| is_path(edges, p) && p[0] == s && p.last() == t
}

/// Every node reaches itself.
pub proof fn lemma_reach_refl(edges: Seq<(usize, usize)>, s: usize)
    ensures
        reachable(edges, s, s),
{
    let p = seq![s];
    assert(is_path(edges, p));
    assert(p[0] == s && p.last() == s);
}

/// Reachability extends along edges.
pub proof fn lemma_reach_step(edges: Seq<(usize, usize)>, s: usize, u: usize, w: usize)
    requires
        reachable(edges, s, u),
        edges.contains((u, w)),
    ensures
        reachable(edges, s, w),
{
    let p = choose|p: Seq<usize>| is_path(edges, p) && p[0] == s && p.last() == u;
    let q = p.push(w);
    assert(is_path(edges, q)) by {
        assert forall|t: int| 0 <= t < q.len() - 1 implies edges.contains(
            (#[trigger] q[t], q[t + 1]),
        ) by {
            if t < p.len() - 1 {
                assert(q[t] == p[t] && q[t + 1] == p[t + 1]);
            } else {
                assert(q[t] == p.last() && q[t + 1] == w);
            }
        }
    }
    assert(q[0] == s && q.last() == w);
}

/// A path starting in a set that is closed under edges ends in it.
proof fn lemma_path_in_closed(visited: Seq<bool>, edges: Seq<(usize, usize)>, p: Seq<usize>)
    requires
        is_path(edges, p),
        forall|i: int|
            0 <= i < edges.len() ==> (#[trigger] edges[i]).0 < visited.len() && edges[i].1
                < visited.len(),
        p[0] < visited.len(),
        visited[p[0] as int],
        forall|i: int|
            0 <= i < edges.len() && visited[(#[trigger] edges[i]).0 as int] ==> visited[edges[i].1 as int],
    ensures
        p.last() < visited.len(),
        visited[p.last() as int],
    decreases p.len(),
{
    if p.len() == 1 {
    } else {
        assert(edges.contains((p[0], p[1])));
        let i0 = choose|i0: int| 0 <= i0 < edges.len() && edges[i0] == (p[0], p[1]);
        assert(visited[p[1] as int]);
        let q = p.drop_first();
        assert(is_path(edges, q)) by {
            assert forall|t: int| 0 <= t < q.len() - 1 implies edges.contains(
                (#[trigger] q[t], q[t + 1]),
            ) by {
                assert(q[t] == p[t + 1] && q[t + 1] == p[t + 2]);
            }
        }
        lemma_path_in_closed(visited, edges, q);
        assert(q.last() == p.last());
    }
}

/// How many entries of the first `i` are true.
pub open spec fn count_true(s: Seq<bool>, i: int) -> int
    decreases i,
{
    if i <= 0 {
        0
    } else {
        count_true(s, i - 1) + (if s[i - 1] {
            1int
        } else {
            0int
        })
    }
}

proof fn lemma_count_true_le(s: Seq<bool>, i: int)
    requires
        0 <= i,
    ensures
        count_true(s, i) <= i,
    decreases i,
{
    if i > 0 {
        lemma_count_true_le(s, i - 1);
    }
}

proof fn lemma_count_true_update(s: Seq<bool>, v: int, i: int)
    requires
        0 <= v < s.len(),
        i <= s.len(),
        !s[v],
    ensures
        i <= v ==> count_true(s.update(v, true), i) == count_true(s, i),
        i > v ==> count_true(s.update(v, true), i) == count_true(s, i) + 1,
    decreases i,
{
    if i > 0 {
        lemma_count_true_update(s, v, i - 1);
    }
}

/// Marks every node reachable from `start`.
#[verifier::rlimit(100)]
pub fn reachable_from(g: &Graph, start: usize) -> (visited: Vec<bool>)
    requires
        g.wf(),
        start < g.nodes@.len(),
    ensures
        visited@.len() == g.nodes@.len(),
        forall|t: int|
            0 <= t < g.nodes@.len() ==> (visited@[t] <==> reachable(
                g.edges@,
                start,
                t as usize,
            )),
{
    let n = g.nodes.len();
    let mut visited: Vec<bool> = Vec::new();
    let mut v: usize = 0;
    while v < n
        invariant
            visited@.len() == v <= n,
            forall|t: int| 0 <= t < v ==> !visited@[t],
        decreases n - v,
    {
        visited.push(false);
        v = v + 1;
    }
    visited[start] = true;
    proof {
        lemma_count_true_update(visited@.update(start as int, false), start as int, n as int);
        assert(visited@.update(start as int, false) =~= Seq::new(n as nat, |t: int| false).update(
            start as int,
            false,
        ));
        lemma_reach_refl(g.edges@, start);
    }
    let mut stack: Vec<usize> = Vec::new();
    stack.push(start);
    proof {
        assert(stack@.contains(start)) by {
            assert(stack@[0] == start);
        }
    }
    while stack.len() > 0
        invariant
            g.wf(),
            visited@.len() == n,
            n == g.nodes@.len(),
            start < n,
            visited@[start as int],
            forall|q: int| 0 <= q < stack@.len() ==> (#[trigger] stack@[q]) < n && visited@[stack@[q] as int],
            forall|t: int| 0 <= t < n && visited@[t] ==> reachable(g.edges@, start, t as usize),
            forall|i: int|
                0 <= i < g.edges@.len() && visited@[(#[trigger] g.edges@[i]).0 as int]
                    && !stack@.contains(g.edges@[i].0) ==> visited@[g.edges@[i].1 as int],
        decreases n - count_true(visited@, n as int), stack@.len(),
    {
        let ghost stack0 = stack@;
        let ghost visited0 = visited@;
        let v = match stack.pop() {
            Some(v) => v,
            None => {
                proof {
                    assert(false);
                }
                0
            },
        };
        proof {
            assert forall|x: usize| stack0.contains(x) implies (stack@.contains(x) || x == v) by {
                let q = choose|q: int| 0 <= q < stack0.len() && stack0[q] == x;
                if q < stack0.len() - 1 {
                    assert(stack@[q] == x);
                } else {
                    assert(x == v);
                }
            }
            assert forall|x: usize| stack@.contains(x) implies stack0.contains(x) by {
                let q = choose|q: int| 0 <= q < stack@.len() && stack@[q] == x;
                assert(stack0[q] == x);
            }
        }
        let ne = g.edges.len();
        let mut i: usize = 0;
        let mut pushed = false;
        while i < ne
            invariant
                g.wf(),
                ne == g.edges@.len(),
                0 <= i <= ne,
                visited@.len() == n,
                n == g.nodes@.len(),
                start < n,
                v < n,
                visited@[start as int],
                visited@[v as int],
                forall|q: int|
                    0 <= q < stack@.len() ==> (#[trigger] stack@[q]) < n && visited@[stack@[q] as int],
                forall|t: int| 0 <= t < n && visited@[t] ==> reachable(g.edges@, start, t as usize),
                forall|ii: int|
                    0 <= ii < g.edges@.len() && visited@[(#[trigger] g.edges@[ii]).0 as int]
                        && !stack@.contains(g.edges@[ii].0) && g.edges@[ii].0 != v
                        ==> visited@[g.edges@[ii].1 as int],
                forall|x: usize| #[trigger] visited0[x as int] && x < n ==> visited@[x as int],
                forall|ii: int|
                    0 <= ii < i && (#[trigger] g.edges@[ii]).0 == v ==> visited@[g.edges@[ii].1 as int],
                pushed ==> count_true(visited@, n as int) > count_true(visited0, n as int),
                !pushed ==> visited@ == visited0 && stack@ == stack0.drop_last(),
                count_true(visited@, n as int) >= count_true(visited0, n as int),
            decreases ne - i,
        {
            let e = g.edges[i];
            if e.0 == v && !visited[e.1] {
                let ghost stack_pre = stack@;
                let ghost visited_pre = visited@;
                proof {
                    lemma_count_true_update(visited@, e.1 as int, n as int);
                    assert(g.edges@.contains((v, e.1))) by {
                        assert(g.edges@[i as int] == (v, e.1));
                    }
                    lemma_reach_step(g.edges@, start, v, e.1);
                }
                visited[e.1] = true;
                stack.push(e.1);
                pushed = true;
                proof {
                    assert(stack@.contains(e.1)) by {
                        assert(stack@.last() == e.1);
                    }
                    assert forall|x: usize| stack_pre.contains(x) implies stack@.contains(x) by {
                        let q = choose|q: int| 0 <= q < stack_pre.len() && stack_pre[q] == x;
                        assert(stack@[q] == x);
                    }
                    assert forall|ii: int|
                        0 <= ii < g.edges@.len() && visited@[(#[trigger] g.edges@[ii]).0 as int]
                            && !stack@.contains(g.edges@[ii].0) && g.edges@[ii].0 != v
                            implies visited@[g.edges@[ii].1 as int] by {
                        let src = g.edges@[ii].0;
                        if src == e.1 {
                            assert(stack@.contains(src));
                        } else {
                            assert(visited_pre[src as int]);
                            assert(!stack_pre.contains(src));
                        }
                    }
                }
            }
            i = i + 1;
        }
        proof {
            lemma_count_true_le(visited@, n as int);
            assert forall|ii: int|
                0 <= ii < g.edges@.len() && visited@[(#[trigger] g.edges@[ii]).0 as int]
                    && !stack@.contains(g.edges@[ii].0) implies visited@[g.edges@[ii].1 as int] by {
                if g.edges@[ii].0 == v {
                } else {
                }
            }
        }
    }
    proof {
        assert forall|t: int|
            0 <= t < n && reachable(g.edges@, start, t as usize) implies visited@[t] by {
            let p = choose|p: Seq<usize>|
                is_path(g.edges@, p) && p[0] == start && p.last() == t as usize;
            lemma_path_in_closed(visited@, g.edges@, p);
        }
    }
    visited
}

/// Whether a new edge is the image of some old edge under the index map.
pub open spec fn edge_origin(
    map: Seq<Option<usize>>,
    gedges: Seq<(usize, usize)>,
    e2: (usize, usize),
) -> bool {
    exists|i: int|
        #![trigger gedges[i]]
        0 <= i < gedges.len() && map[gedges[i].0 as int] == Some(e2.0) && map[gedges[i].1 as int]
            == Some(e2.1)
}

/// Whether some old node maps to new index `i`.
pub open spec fn mapped_to(map: Seq<Option<usize>>, i: usize) -> bool {
    exists|v: int| 0 <= v < map.len() && map[v] == Some(i)
}

fn clone_node(n: &Node) -> (r: Node)
    ensures
        r == *n,
{
    Node { name: n.name.clone(), local: n.local, max: n.max, dashed: n.dashed }
}

/// Rebuilds the graph restricted to the nodes reachable from `start`. The
/// returned table maps old node indices to new ones: it is `Some` exactly on
/// the reachable nodes, every new node copies its old one, and the new edges
/// are exactly the old edges whose source is reachable.
#[verifier::rlimit(100)]
pub fn filter_reachable(g: &Graph, start: usize) -> (res: (Graph, Vec<Option<usize>>))
    requires
        g.wf(),
        start < g.nodes@.len(),
    ensures
        ({
            let (g2, map) = res;
            &&& g2.wf()
            &&& map@.len() == g.nodes@.len()
            &&& forall|v: int|
                0 <= v < map@.len() ==> ((#[trigger] map@[v]) is Some <==> reachable(
                    g.edges@,
                    start,
                    v as usize,
                ))
            &&& forall|v: int|
                #![trigger map@[v]]
                0 <= v < map@.len() ==> (match map@[v] {
                    Some(i) => i < g2.nodes@.len() && g2.nodes@[i as int] == g.nodes@[v],
                    None => true,
                })
            &&& forall|v1: int, v2: int|
                0 <= v1 < map@.len() && 0 <= v2 < map@.len() && #[trigger] map@[v1] is Some
                    && #[trigger] map@[v2] is Some && map@[v1] == map@[v2] ==> v1 == v2
            &&& forall|i: usize| i < g2.nodes@.len() ==> #[trigger] mapped_to(map@, i)
            &&& forall|q: int|
                0 <= q < g2.edges@.len() ==> edge_origin(map@, g.edges@, #[trigger] g2.edges@[q])
            &&& forall|i: int|
                0 <= i < g.edges@.len() && reachable(g.edges@, start, (#[trigger] g.edges@[i]).0)
                    ==> (map@[g.edges@[i].0 as int] matches Some(a) && map@[g.edges@[i].1 as int]
                    matches Some(b) && g2.edges@.contains((a, b)))
            &&& crate::graph::edges_unique(g2.edges@)
        }),
{
    let visited = reachable_from(g, start);
    let n = g.nodes.len();
    let mut g2 = Graph::new();
    let mut map: Vec<Option<usize>> = Vec::new();
    let mut v: usize = 0;
    while v < n
        invariant
            g.wf(),
            n == g.nodes@.len(),
            start < n,
            visited@.len() == n,
            forall|t: int|
                0 <= t < n ==> (visited@[t] <==> reachable(g.edges@, start, t as usize)),
            g2.wf(),
            g2.edges@.len() == 0,
            map@.len() == v <= n,
            forall|u: int| 0 <= u < v ==> ((#[trigger] map@[u]) is Some <==> visited@[u]),
            forall|u: int|
                #![trigger map@[u]]
                0 <= u < v ==> (match map@[u] {
                    Some(i) => i < g2.nodes@.len() && g2.nodes@[i as int] == g.nodes@[u],
                    None => true,
                }),
            forall|u1: int, u2: int|
                0 <= u1 < v && 0 <= u2 < v && #[trigger] map@[u1] is Some && #[trigger] map@[u2] is Some
                    && map@[u1] == map@[u2] ==> u1 == u2,
            forall|i: usize| i < g2.nodes@.len() ==> #[trigger] mapped_to(map@, i),
        decreases n - v,
    {
        let ghost map0 = map@;
        let ghost g2n0 = g2.nodes@;
        if visited[v] {
            let idx = g2.add_node(clone_node(&g.nodes[v]));
            map.push(Some(idx));
            proof {
                assert(map@[v as int] == Some(idx));
                assert forall|i: usize| i < g2.nodes@.len() implies #[trigger] mapped_to(
                    map@,
                    i,
                ) by {
                    if i < g2n0.len() {
                        assert(mapped_to(map0, i));
                        let u = choose|u: int| 0 <= u < map0.len() && map0[u] == Some(i);
                        assert(map@[u] == Some(i));
                    } else {
                        assert(map@[v as int] == Some(i));
                    }
                }
            }
        } else {
            map.push(None);
            proof {
                assert forall|i: usize| i < g2.nodes@.len() implies #[trigger] mapped_to(
                    map@,
                    i,
                ) by {
                    assert(mapped_to(map0, i));
                    let u = choose|u: int| 0 <= u < map0.len() && map0[u] == Some(i);
                    assert(map@[u] == Some(i));
                }
            }
        }
        v = v + 1;
    }
    let ne = g.edges.len();
    let mut i: usize = 0;
    while i < ne
        invariant
            g.wf(),
            n == g.nodes@.len(),
            start < n,
            ne == g.edges@.len(),
            0 <= i <= ne,
            visited@.len() == n,
            forall|t: int|
                0 <= t < n ==> (visited@[t] <==> reachable(g.edges@, start, t as usize)),
            g2.wf(),
            map@.len() == n,
            forall|u: int| 0 <= u < n ==> ((#[trigger] map@[u]) is Some <==> visited@[u]),
            forall|u: int|
                #![trigger map@[u]]
                0 <= u < n ==> (match map@[u] {
                    Some(idx) => idx < g2.nodes@.len() && g2.nodes@[idx as int] == g.nodes@[u],
                    None => true,
                }),
            forall|u1: int, u2: int|
                0 <= u1 < n && 0 <= u2 < n && #[trigger] map@[u1] is Some && #[trigger] map@[u2] is Some
                    && map@[u1] == map@[u2] ==> u1 == u2,
            forall|idx: usize| idx < g2.nodes@.len() ==> #[trigger] mapped_to(map@, idx),
            forall|q: int|
                0 <= q < g2.edges@.len() ==> edge_origin(map@, g.edges@, #[trigger] g2.edges@[q]),
            forall|ii: int|
                0 <= ii < i && reachable(g.edges@, start, (#[trigger] g.edges@[ii]).0) ==> (
                map@[g.edges@[ii].0 as int] matches Some(a) && map@[g.edges@[ii].1 as int] matches Some(
                    b,
                ) && g2.edges@.contains((a, b))),
            crate::graph::edges_unique(g2.edges@),
        decreases ne - i,
    {
        let e = g.edges[i];
        if visited[e.0] {
            proof {
                assert(g.edges@.contains((e.0, e.1))) by {
                    assert(g.edges@[i as int] == (e.0, e.1));
                }
                lemma_reach_step(g.edges@, start, e.0, e.1);
            }
            let ia = match map[e.0] {
                Some(x) => x,
                None => {
                    proof {
                        assert(false);
                    }
                    0
                },
            };
            let ib = match map[e.1] {
                Some(x) => x,
                None => {
                    proof {
                        assert(false);
                    }
                    0
                },
            };
            let ghost eold = g2.edges@;
            g2.add_edge_dedup(ia, ib);
            proof {
                assert(g2.edges@.contains((ia, ib)));
                assert forall|q: int|
                    0 <= q < g2.edges@.len() implies edge_origin(
                    map@,
                    g.edges@,
                    #[trigger] g2.edges@[q],
                ) by {
                    if q < eold.len() {
                        assert(g2.edges@[q] == eold[q]);
                    } else {
                        assert(g2.edges@[q] == (ia, ib));
                        assert(g.edges@[i as int] == (e.0, e.1));
                        assert(map@[g.edges@[i as int].0 as int] == Some(ia));
                        assert(map@[g.edges@[i as int].1 as int] == Some(ib));
                    }
                }
                assert forall|ii: int|
                    0 <= ii < i + 1 && reachable(g.edges@, start, (#[trigger] g.edges@[ii]).0) implies (
                    map@[g.edges@[ii].0 as int] matches Some(a) && map@[g.edges@[ii].1 as int] matches Some(
                        b,
                    ) && g2.edges@.contains((a, b))) by {
                    if ii < i {
                        match (map@[g.edges@[ii].0 as int], map@[g.edges@[ii].1 as int]) {
                            (Some(a), Some(b)) => {
                                assert(eold.contains((a, b)));
                                let q = choose|q: int| 0 <= q < eold.len() && eold[q] == (a, b);
                                assert(g2.edges@[q] == (a, b));
                            },
                            _ => {},
                        }
                    } else {
                        assert(g2.edges@.contains((ia, ib)));
                    }
                }
            }
        }
        i = i + 1;
    }
    (g2, map)
}

/// The outcome of locating the start symbol.
pub enum FindResult {
    Found(usize),
    Ambiguous,
    NotFound,
}

/// Whether node `v` matches the start prefix: a real node whose demangled
/// name starts with the given prefix.
pub open spec fn is_hit(nodes: Seq<Node>, pfx: Seq<char>, v: int) -> bool {
    &&& 0 <= v < nodes.len()
    &&& !nodes[v].dashed
    &&& starts_with_seq(demangled_of(nodes[v].name@), pfx)
}

/// The number of prefix hits among the first `i` nodes.
pub open spec fn count_hits(nodes: Seq<Node>, pfx: Seq<char>, i: int) -> int
    decreases i,
{
    if i <= 0 {
        0
    } else {
        count_hits(nodes, pfx, i - 1) + (if is_hit(nodes, pfx, i - 1) {
            1int
        } else {
            0int
        })
    }
}

/// The first real node bearing exactly the given name.
pub open spec fn first_exact(nodes: Seq<Node>, name: Seq<char>, from: int) -> Option<int>
    decreases nodes.len() - from,
{
    if from < 0 || from >= nodes.len() {
        None
    } else if !nodes[from].dashed && nodes[from].name@ == name {
        Some(from)
    } else {
        first_exact(nodes, name, from + 1)
    }
}

/// The first prefix hit.
pub open spec fn first_hit(nodes: Seq<Node>, pfx: Seq<char>, from: int) -> Option<int>
    decreases nodes.len() - from,
{
    if from < 0 || from >= nodes.len() {
        None
    } else if is_hit(nodes, pfx, from) {
        Some(from)
    } else {
        first_hit(nodes, pfx, from + 1)
    }
}

/// Locates the start symbol: an exact name match wins; otherwise the node is
/// found when exactly one demangled name starts with `start` followed by
/// `::h`, ambiguous when several do, and missing when none does.
pub fn find_start(g: &Graph, start: &str) -> (r: FindResult)
    ensures
        r matches FindResult::Found(v) ==> v < g.nodes@.len(),
        ({
            let pfx = start@ + "::h"@;
            match first_exact(g.nodes@, start@, 0) {
                Some(v) => r == FindResult::Found(v as usize),
                None => {
                    if count_hits(g.nodes@, pfx, g.nodes@.len() as int) == 1 {
                        r == FindResult::Found(
                            first_hit(g.nodes@, pfx, 0)->Some_0 as usize,
                        )
                    } else if count_hits(g.nodes@, pfx, g.nodes@.len() as int) == 0 {
                        r == FindResult::NotFound
                    } else {
                        r == FindResult::Ambiguous
                    }
                },
            }
        }),
{
    let n = g.nodes.len();
    let mut v: usize = 0;
    while v < n
        invariant
            0 <= v <= n,
            n == g.nodes@.len(),
            first_exact(g.nodes@, start@, 0) == first_exact(g.nodes@, start@, v as int),
        decreases n - v,
    {
        let node = &g.nodes[v];
        if !node.dashed && str_eq(node.name.as_str(), start) {
            return FindResult::Found(v);
        }
        v = v + 1;
    }
    let pfx = String::from_str(start).concat("::h");
    proof {
        assert(pfx@ == start@ + "::h"@);
    }
    let mut hits: usize = 0;
    let mut first: usize = 0;
    let mut w: usize = 0;
    while w < n
        invariant
            0 <= w <= n,
            n == g.nodes@.len(),
            pfx@ == start@ + "::h"@,
            hits as int == count_hits(g.nodes@, pfx@, w as int),
            hits <= w,
            hits > 0 ==> first_hit(g.nodes@, pfx@, 0) == Some(first as int) && first < n,
            hits == 0 ==> first_hit(g.nodes@, pfx@, 0) == first_hit(g.nodes@, pfx@, w as int),
        decreases n - w,
    {
        let node = &g.nodes[w];
        let dm = demangle(node.name.as_str());
        if !node.dashed && starts_with(dm.as_str(), pfx.as_str()) {
            proof {
                assert(is_hit(g.nodes@, pfx@, w as int));
            }
            if hits == 0 {
                first = w;
            }
            hits = hits + 1;
        } else {
            proof {
                assert(!is_hit(g.nodes@, pfx@, w as int));
            }
        }
        w = w + 1;
    }
    if hits == 1 {
        FindResult::Found(first)
    } else if hits == 0 {
        FindResult::NotFound
    } else {
        FindResult::Ambiguous
    }
}

} // verus!
