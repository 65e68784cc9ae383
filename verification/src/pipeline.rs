//! The whole analysis in one pass: build the graph from symbols and typed
//! items, reconcile machine-code findings, expand dispatch sites, restrict to
//! a start symbol, shorten names, and solve.
use vstd::prelude::*;
use crate::builder::{names_disjoint, BuildError, CallGraphBuilder, SymbolAnalysis};
use crate::filter::{filter_reachable, find_start, FindResult};
use crate::graph::Graph;
use crate::present::rename_unambiguous;
use crate::scc::{comp_ordered, is_partition, kosaraju_sccs};
use crate::solver::{comp_is_cycle, locals_partial, solve, solved};
use crate::symbols::{clear_thumb_bits, normalize_undefined, DefinedSymbol, Target};

verus! {

/// The machine-code findings for the defined symbols, aligned with the
/// symbol list: the resolved sizes and the analyzer's report per symbol.
#[derive(Debug)]
pub struct MachineInput {
    pub sizes: Vec<u64>,
    pub analyses: Vec<SymbolAnalysis>,
}

/// Everything the analysis consumes: the merged typed items of the program
/// and the compiler builtins, the executable's symbols, the authoritative
/// stack table, the target, the machine-code findings on a Thumb target, and
/// the start symbol driving restriction.
pub struct AnalysisInput {
    pub defines: Vec<crate::ir::Define>,
    pub declares: Vec<crate::ir::Declare>,
    pub symbols: Vec<DefinedSymbol>,
    pub undefined: Vec<String>,
    pub stack_sizes: Vec<(String, u64)>,
    pub target: Target,
    pub machine: Option<MachineInput>,
    pub start: Option<String>,
}

/// The analysis result: the graph (solved when stack information was
/// available at all), the components found, the cycles among them, and how
/// the start symbol fared.
#[derive(Debug)]
pub struct Analysis {
    pub g: Graph,
    pub sccs: Vec<Vec<usize>>,
    pub cycles: Vec<Vec<usize>>,
    pub solved: bool,
    pub start_ambiguous: bool,
    pub start_not_found: bool,
}

/// Sums the exactly-known locals, refusing a sum beyond the machine word.
fn locals_total_checked(g: &Graph) -> (r: Option<u64>)
    ensures
        r matches Some(t) ==> t as int == locals_partial(g.nodes@, g.nodes@.len() as int),
        r is None ==> locals_partial(g.nodes@, g.nodes@.len() as int) > u64::MAX,
{
    let mut acc: u64 = 0;
    let n = g.nodes.len();
    let mut v: usize = 0;
    while v < n
        invariant
            0 <= v <= n,
            n == g.nodes@.len(),
            acc as int == locals_partial(g.nodes@, v as int),
        decreases n - v,
    {
        let c: u64 = match g.nodes[v].local {
            crate::usage::Local::Exact(x) => x,
            crate::usage::Local::Unknown => 0,
        };
        if acc > u64::MAX - c {
            proof {
                crate::pipeline::lemma_locals_partial_mono(g.nodes@, v + 1, n as int);
            }
            return None;
        }
        acc = acc + c;
        v = v + 1;
    }
    Some(acc)
}

/// Unchanged locals keep the locals sum unchanged.
pub proof fn lemma_locals_partial_frame(
    nodes1: Seq<crate::graph::Node>,
    nodes2: Seq<crate::graph::Node>,
    i: int,
)
    requires
        nodes2.len() == nodes1.len(),
        forall|v: int| 0 <= v < nodes1.len() ==> (#[trigger] nodes2[v]).local == nodes1[v].local,
        i <= nodes1.len(),
    ensures
        locals_partial(nodes2, i) == locals_partial(nodes1, i),
    decreases i,
{
    if i > 0 {
        lemma_locals_partial_frame(nodes1, nodes2, i - 1);
    }
}

/// The running sum of locals never shrinks.
pub proof fn lemma_locals_partial_mono(nodes: Seq<crate::graph::Node>, i: int, j: int)
    requires
        0 <= i <= j,
    ensures
        locals_partial(nodes, i) <= locals_partial(nodes, j),
    decreases j - i,
{
    if i < j {
        lemma_locals_partial_mono(nodes, i + 1, j);
    }
}

/// Runs the whole analysis. The graph comes back well formed; when any
/// stack-usage information was available and the locals sum within the
/// machine word, every node carries a solved bound satisfying the component
/// solution along the returned decomposition; otherwise no node carries one.
#[verifier::rlimit(100)]
pub fn analyze(input: AnalysisInput) -> (r: Result<Analysis, BuildError>)
    requires
        forall|p: int| 0 <= p < input.symbols@.len() ==> (#[trigger] input.symbols@[p]).names@.len() >= 1,
        names_disjoint(input.symbols@),
        input.machine matches Some(m) ==> m.sizes@.len() == input.symbols@.len()
            && m.analyses@.len() == input.symbols@.len(),
        input.machine matches Some(m) ==> forall|p: int|
            0 <= p < input.symbols@.len() ==> ((#[trigger] input.symbols@[p]).address & !1u64)
                + m.sizes@[p] <= u64::MAX,
    ensures
        r matches Ok(out) ==> {
            &&& out.g.wf()
            &&& crate::graph::edges_unique(out.g.edges@)
            &&& (out.solved ==> {
                &&& is_partition(out.sccs@, out.g.nodes@.len() as int)
                &&& comp_ordered(out.sccs@, out.g.edges@)
                &&& solved(out.g.nodes@, out.g.edges@, out.sccs@)
                &&& cycles_exact(out.cycles@, out.sccs@, out.g.edges@)
                &&& forall|v: int|
                    0 <= v < out.g.nodes@.len() ==> (#[trigger] out.g.nodes@[v]).max is Some
            })
            &&& (out.solved <==> (crate::builder::any_stack_entry(
                input.symbols@,
                input.stack_sizes@,
                input.symbols@.len() as int,
            ) && out.g.nodes@.len() < usize::MAX && out.g.edges@.len() < usize::MAX
                && locals_partial(out.g.nodes@, out.g.nodes@.len() as int) <= u64::MAX))
            &&& (!out.solved ==> forall|v: int|
                0 <= v < out.g.nodes@.len() ==> (#[trigger] out.g.nodes@[v]).max is None)
            &&& ((input.start is None && input.machine is None) ==> {
                &&& out.g.nodes@.len() >= input.symbols@.len()
                &&& forall|p: int|
                    0 <= p < input.symbols@.len() ==> (#[trigger] out.g.nodes@[p]).local == (
                    match crate::symbols::lookup(
                        input.stack_sizes@,
                        crate::builder::canon_view(input.symbols@, input.stack_sizes@, p),
                    ) {
                        Some(v) => crate::usage::Local::Exact(v),
                        None => crate::usage::Local::Unknown,
                    })
            })
        },
{
    let AnalysisInput { defines, declares, mut symbols, undefined, stack_sizes, target, machine, start } =
        input;
    let thumb = target.is_thumb();
    if thumb {
        clear_thumb_bits(&mut symbols);
        proof {
            assert forall|p: int|
                0 <= p < symbols@.len() implies (#[trigger] symbols@[p]).names@.len() >= 1 by {
                assert(symbols@[p].address == input.symbols@[p].address & !1u64);
                assert(symbols@[p].names == input.symbols@[p].names);
            }
            assert(names_disjoint(symbols@)) by {
                assert forall|s1: int, s2: int, i1: int, i2: int|
                    0 <= s1 < symbols@.len() && 0 <= s2 < symbols@.len() && s1 != s2 && 0 <= i1
                        < symbols@[s1].names@.len() && 0 <= i2 < symbols@[s2].names@.len() implies (
                    #[trigger] symbols@[s1].names@[i1])@ != (#[trigger] symbols@[s2].names@[i2])@ by {
                    assert(symbols@[s1].address == input.symbols@[s1].address & !1u64);
                    assert(symbols@[s2].address == input.symbols@[s2].address & !1u64);
                    assert(symbols@[s1].names == input.symbols@[s1].names);
                    assert(symbols@[s2].names == input.symbols@[s2].names);
                }
            }
        }
    }
    proof {
        // the canonical choice reads names and stack table only, so clearing
        // the thumb bit moves nothing the analysis below depends on
        assert forall|p: int|
            0 <= p < symbols@.len() implies (#[trigger] symbols@[p]).names
            == input.symbols@[p].names by {
            if thumb {
                assert(symbols@[p].address == input.symbols@[p].address & !1u64);
            }
        }
        assert forall|p: int|
            0 <= p < symbols@.len() implies crate::builder::canon_view(
            symbols@,
            stack_sizes@,
            p,
        ) == crate::builder::canon_view(input.symbols@, input.stack_sizes@, p) by {
            assert((#[trigger] symbols@[p]).names == input.symbols@[p].names);
        }
        assert(crate::builder::any_stack_entry(symbols@, stack_sizes@, symbols@.len() as int)
            == crate::builder::any_stack_entry(
            input.symbols@,
            input.stack_sizes@,
            input.symbols@.len() as int,
        )) by {
            if crate::builder::any_stack_entry(symbols@, stack_sizes@, symbols@.len() as int) {
                let p = choose|p: int|
                    #![trigger symbols@[p]]
                    0 <= p < symbols@.len() && crate::symbols::lookup(
                        stack_sizes@,
                        crate::builder::canon_view(symbols@, stack_sizes@, p),
                    ) is Some;
                assert(0 <= p < input.symbols@.len() && crate::symbols::lookup(
                    input.stack_sizes@,
                    crate::builder::canon_view(input.symbols@, input.stack_sizes@, p),
                ) is Some);
            }
            if crate::builder::any_stack_entry(
                input.symbols@,
                input.stack_sizes@,
                input.symbols@.len() as int,
            ) {
                let p = choose|p: int|
                    #![trigger input.symbols@[p]]
                    0 <= p < input.symbols@.len() && crate::symbols::lookup(
                        input.stack_sizes@,
                        crate::builder::canon_view(input.symbols@, input.stack_sizes@, p),
                    ) is Some;
                assert(0 <= p < symbols@.len() && crate::symbols::lookup(
                    stack_sizes@,
                    crate::builder::canon_view(symbols@, stack_sizes@, p),
                ) is Some);
            }
        }
    }
    // strip version suffixes from the undefined names
    let mut undef: Vec<String> = Vec::new();
    let nu = undefined.len();
    let mut u: usize = 0;
    while u < nu
        invariant
            0 <= u <= nu,
            nu == undefined@.len(),
        decreases nu - u,
    {
        let norm = normalize_undefined(undefined[u].as_str());
        undef.push(String::from_str(norm));
        u = u + 1;
    }
    let mut b = CallGraphBuilder::new();
    b.discover_default_methods(&defines);
    match b.add_symbols(&symbols, &stack_sizes, &defines, &declares) {
        Ok(()) => {},
        Err(e) => {
            return Err(e);
        },
    }
    let ghost base_nodes = b.g.nodes@;
    proof {
        assert(crate::graph::edges_unique(b.g.edges@));
        assert(b.has_stack_usage_info == crate::builder::any_stack_entry(
            input.symbols@,
            input.stack_sizes@,
            input.symbols@.len() as int,
        ));
        assert forall|p: int|
            0 <= p < input.symbols@.len() implies (#[trigger] base_nodes[p]).local == (
        match crate::symbols::lookup(
            input.stack_sizes@,
            crate::builder::canon_view(input.symbols@, input.stack_sizes@, p),
        ) {
            Some(v) => crate::usage::Local::Exact(v),
            None => crate::usage::Local::Unknown,
        }) by {
            assert(crate::builder::canon_view(symbols@, stack_sizes@, p)
                == crate::builder::canon_view(input.symbols@, input.stack_sizes@, p));
        }
    }
    match b.add_ir_edges(&defines, &undef, target) {
        Ok(()) => {},
        Err(e) => {
            return Err(e);
        },
    }
    let ghost nodes_after_edges = b.g.nodes@;
    proof {
        assert(forall|p: int|
            0 <= p < base_nodes.len() ==> #[trigger] nodes_after_edges[p] == base_nodes[p]);
        assert(nodes_after_edges.len() >= base_nodes.len());
    }
    if thumb {
        match &machine {
            Some(m) => {
                proof {
                    assert forall|p: int|
                        0 <= p < symbols@.len() implies (#[trigger] symbols@[p]).address
                        + m.sizes@[p] <= u64::MAX by {
                        if thumb {
                            assert(symbols@[p].address == input.symbols@[p].address & !1u64);
                        }
                    }
                }
                match b.reconcile_machine(&symbols, &m.sizes, &m.analyses) {
                    Ok(()) => {},
                    Err(e) => {
                        return Err(e);
                    },
                }
            },
            None => {},
        }
    }
    b.expand_dispatch();
    let has_info = b.has_stack_usage_info;
    let ambiguous_counts = b.ambiguous;
    let mut g = b.g;
    proof {
        assert(g.wf());
        assert(forall|v: int| 0 <= v < g.nodes@.len() ==> (#[trigger] g.nodes@[v]).max is None);
        assert(crate::graph::edges_unique(g.edges@));
        assert(has_info == crate::builder::any_stack_entry(
            input.symbols@,
            input.stack_sizes@,
            input.symbols@.len() as int,
        ));
        if machine is None {
            assert(nodes_after_edges.len() >= base_nodes.len());
            assert(g.nodes@.len() >= nodes_after_edges.len());
            assert forall|p: int|
                0 <= p < base_nodes.len() implies (#[trigger] g.nodes@[p]).local
                == base_nodes[p].local by {
                assert(nodes_after_edges[p] == base_nodes[p]);
                assert(g.nodes@[p] == nodes_after_edges[p]);
            }
        }
    }
    let mut start_ambiguous = false;
    let mut start_not_found = false;
    // restrict to the subgraph reachable from the start symbol
    match &start {
        Some(name) => {
            match find_start(&g, name.as_str()) {
                FindResult::Found(v) => {
                    let (g2, map) = filter_reachable(&g, v);
                    let g2_len = g2.nodes.len();
                    proof {
                        assert(g2_len as int == g2.nodes@.len());
                        assert forall|i: int|
                            0 <= i < g2.nodes@.len() implies (#[trigger] g2.nodes@[i]).max is None by {
                            assert(crate::filter::mapped_to(map@, i as usize));
                            let u = choose|u: int| 0 <= u < map@.len() && map@[u] == Some(i as usize);
                            assert(0 <= u < map@.len());
                            assert((match map@[u] {
                                Some(idx) => idx < g2.nodes@.len() && g2.nodes@[idx as int]
                                    == g.nodes@[u],
                                None => true,
                            }));
                            assert(g2.nodes@[i] == g.nodes@[u]);
                            assert(g.nodes@[u].max is None);
                        }
                    }
                    proof {
                        assert(crate::graph::edges_unique(g2.edges@));
                    }
                    g = g2;
                },
                FindResult::Ambiguous => {
                    start_ambiguous = true;
                },
                FindResult::NotFound => {
                    start_not_found = true;
                },
            }
        },
        None => {},
    }
    proof {
        assert(forall|v: int| 0 <= v < g.nodes@.len() ==> (#[trigger] g.nodes@[v]).max is None);
    }
    let ghost nodes_before_rename = g.nodes@;
    // shorten unambiguous names before solving: the solver never reads them
    rename_unambiguous(&mut g, &ambiguous_counts);
    proof {
        assert(forall|v: int| 0 <= v < g.nodes@.len() ==> (#[trigger] g.nodes@[v]).max is None);
        assert(forall|v: int|
            0 <= v < g.nodes@.len() ==> (#[trigger] g.nodes@[v]).local
                == nodes_before_rename[v].local);
    }
    let mut sccs: Vec<Vec<usize>> = Vec::new();
    let mut cycles: Vec<Vec<usize>> = Vec::new();
    let mut did_solve = false;
    let ghost pre_nodes = g.nodes@;
    let ghost pre_edges = g.edges@;
    if has_info {
        match solve_graph(&mut g) {
            Some((s, c)) => {
                sccs = s;
                cycles = c;
                did_solve = true;
                proof {
                    lemma_locals_partial_frame(pre_nodes, g.nodes@, pre_nodes.len() as int);
                    assert(g.nodes@.len() < usize::MAX && g.edges@.len() < usize::MAX
                        && locals_partial(g.nodes@, g.nodes@.len() as int) <= u64::MAX);
                }
            },
            None => {
                // a locals sum beyond the machine word leaves the graph
                // unsolved, like a graph without stack information
                proof {
                    assert(g.nodes@ == pre_nodes && g.edges@ == pre_edges);
                    assert(!(g.nodes@.len() < usize::MAX && g.edges@.len() < usize::MAX
                        && locals_partial(g.nodes@, g.nodes@.len() as int) <= u64::MAX));
                }
            },
        }
    }
    proof {
        assert(did_solve <==> (crate::builder::any_stack_entry(
            input.symbols@,
            input.stack_sizes@,
            input.symbols@.len() as int,
        ) && g.nodes@.len() < usize::MAX && g.edges@.len() < usize::MAX && locals_partial(
            g.nodes@,
            g.nodes@.len() as int,
        ) <= u64::MAX));
        if input.start is None && input.machine is None {
            assert forall|p: int|
                0 <= p < input.symbols@.len() implies (#[trigger] g.nodes@[p]).local == (
            match crate::symbols::lookup(
                input.stack_sizes@,
                crate::builder::canon_view(input.symbols@, input.stack_sizes@, p),
            ) {
                Some(v) => crate::usage::Local::Exact(v),
                None => crate::usage::Local::Unknown,
            }) by {
                assert(p < base_nodes.len());
                assert(p < nodes_before_rename.len());
                assert(p < pre_nodes.len());
                assert(nodes_before_rename[p].local == base_nodes[p].local);
                assert(pre_nodes[p].local == nodes_before_rename[p].local);
                assert(g.nodes@[p].local == pre_nodes[p].local);
            }
        }
    }
    Ok(
        Analysis {
            g,
            sccs,
            cycles,
            solved: did_solve,
            start_ambiguous,
            start_not_found,
        },
    )
}

/// Whether some listed cycle holds exactly these members.
pub open spec fn cycle_listed(cycles: Seq<Vec<usize>>, members: Seq<usize>) -> bool {
    exists|c: int| 0 <= c < cycles.len() && (#[trigger] cycles[c])@ == members
}

/// Whether these members form one of the cyclic components.
pub open spec fn is_cyclic_component(
    sccs: Seq<Vec<usize>>,
    edges: Seq<(usize, usize)>,
    members: Seq<usize>,
) -> bool {
    exists|k: int|
        0 <= k < sccs.len() && (#[trigger] sccs[k])@ == members && comp_is_cycle(sccs, edges, k)
}

/// The listed cycles are exactly the components with more than one node or
/// a self-loop.
pub open spec fn cycles_exact(
    cycles: Seq<Vec<usize>>,
    sccs: Seq<Vec<usize>>,
    edges: Seq<(usize, usize)>,
) -> bool {
    &&& forall|c: int|
        0 <= c < cycles.len() ==> is_cyclic_component(sccs, edges, (#[trigger] cycles[c])@)
    &&& forall|k: int|
        0 <= k < sccs.len() && comp_is_cycle(sccs, edges, k) ==> cycle_listed(
            cycles,
            (#[trigger] sccs[k])@,
        )
}

/// Solves a well-formed, yet unsolved graph: computes its strongly connected
/// components and assigns every bound, returning the decomposition and
/// exactly the cycles among the components. It declines — and leaves the
/// graph untouched — exactly when the node or edge count reaches the machine
/// word or the exactly-known locals sum beyond it.
pub fn solve_graph(g: &mut Graph) -> (r: Option<(Vec<Vec<usize>>, Vec<Vec<usize>>)>)
    requires
        old(g).wf(),
        forall|v: int| 0 <= v < old(g).nodes@.len() ==> (#[trigger] old(g).nodes@[v]).max is None,
    ensures
        final(g).wf(),
        final(g).edges@ == old(g).edges@,
        final(g).nodes@.len() == old(g).nodes@.len(),
        forall|v: int|
            0 <= v < old(g).nodes@.len() ==> (#[trigger] final(g).nodes@[v]).local == old(
                g,
            ).nodes@[v].local,
        r is None <==> (old(g).nodes@.len() >= usize::MAX || old(g).edges@.len() >= usize::MAX
            || locals_partial(old(g).nodes@, old(g).nodes@.len() as int) > u64::MAX),
        r matches Some(out) ==> {
            &&& is_partition(out.0@, final(g).nodes@.len() as int)
            &&& comp_ordered(out.0@, final(g).edges@)
            &&& solved(final(g).nodes@, final(g).edges@, out.0@)
            &&& cycles_exact(out.1@, out.0@, final(g).edges@)
            &&& forall|v: int|
                0 <= v < final(g).nodes@.len() ==> (#[trigger] final(g).nodes@[v]).max is Some
        },
        r is None ==> *final(g) == *old(g),
{
    if !(g.nodes.len() < usize::MAX && g.edges.len() < usize::MAX) {
        return None;
    }
    match locals_total_checked(g) {
        Some(_) => {},
        None => {
            return None;
        },
    }
    let sccs = kosaraju_sccs(g.nodes.len(), &g.edges);
    solve(g, &sccs);
    let mut cycles: Vec<Vec<usize>> = Vec::new();
    let nk = sccs.len();
    let mut k: usize = 0;
    while k < nk
        invariant
            0 <= k <= nk,
            nk == sccs@.len(),
            is_partition(sccs@, g.nodes@.len() as int),
            comp_ordered(sccs@, g.edges@),
            solved(g.nodes@, g.edges@, sccs@),
            g.wf(),
            g.edges@ == old(g).edges@,
            g.nodes@.len() == old(g).nodes@.len(),
            forall|v: int| 0 <= v < g.nodes@.len() ==> (#[trigger] g.nodes@[v]).max is Some,
            forall|c: int|
                0 <= c < cycles@.len() ==> is_cyclic_component(
                    sccs@,
                    g.edges@,
                    (#[trigger] cycles@[c])@,
                ),
            forall|kk: int|
                0 <= kk < k && comp_is_cycle(sccs@, g.edges@, kk) ==> cycle_listed(
                    cycles@,
                    (#[trigger] sccs@[kk])@,
                ),
        decreases nk - k,
    {
        let members = &sccs[k];
        let is_cycle = members.len() > 1 || (members.len() == 1 && g.has_edge(
            members[0],
            members[0],
        ));
        proof {
            assert(is_cycle == comp_is_cycle(sccs@, g.edges@, k as int));
        }
        if is_cycle {
            let ghost cycles0 = cycles@;
            let copied = copy_members(members);
            cycles.push(copied);
            proof {
                assert(cycles@.last()@ == sccs@[k as int]@);
                assert(is_cyclic_component(sccs@, g.edges@, cycles@.last()@)) by {
                    assert((sccs@[k as int])@ == cycles@.last()@ && comp_is_cycle(
                        sccs@,
                        g.edges@,
                        k as int,
                    ));
                }
                assert forall|c: int|
                    0 <= c < cycles@.len() implies is_cyclic_component(
                    sccs@,
                    g.edges@,
                    (#[trigger] cycles@[c])@,
                ) by {
                    if c < cycles0.len() {
                        assert(cycles@[c] == cycles0[c]);
                    } else {
                        assert(cycles@[c] == cycles@.last());
                    }
                }
                assert forall|kk: int|
                    0 <= kk < k + 1 && comp_is_cycle(sccs@, g.edges@, kk) implies cycle_listed(
                    cycles@,
                    (#[trigger] sccs@[kk])@,
                ) by {
                    if kk < k {
                        let c = choose|c: int|
                            0 <= c < cycles0.len() && (#[trigger] cycles0[c])@ == sccs@[kk]@;
                        assert(cycles@[c] == cycles0[c]);
                    } else {
                        assert(cycles@[cycles0.len() as int]@ == sccs@[kk]@);
                    }
                }
            }
        } else {
            proof {
                assert forall|kk: int|
                    0 <= kk < k + 1 && comp_is_cycle(sccs@, g.edges@, kk) implies cycle_listed(
                    cycles@,
                    (#[trigger] sccs@[kk])@,
                ) by {
                }
            }
        }
        k = k + 1;
    }
    Some((sccs, cycles))
}

fn copy_members(v: &Vec<usize>) -> (r: Vec<usize>)
    ensures
        r@ == v@,
{
    let mut r: Vec<usize> = Vec::new();
    let mut i: usize = 0;
    while i < v.len()
        invariant
            0 <= i <= v@.len(),
            r@ =~= v@.take(i as int),
        decreases v@.len() - i,
    {
        r.push(v[i]);
        proof {
            assert(r@ =~= v@.take(i + 1));
        }
        i = i + 1;
    }
    proof {
        assert(v@.take(v@.len() as int) =~= v@);
    }
    r
}

} // verus!
