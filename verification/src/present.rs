//! Presentation of the solved graph: name de-ambiguation, sorted table rows,
//! and the textual graph description.
use vstd::prelude::*;
use crate::demangle::{demangle, demangled_of};
use crate::graph::{Graph, Node};
use crate::strings::{dec_seq, has_hash_suffix, strip_hash, str_eq, string_from_chars, u64_dec, dehash};
use crate::usage::{Local, Max};

verus! {

/// The count bound to a dehashed name, read from the first matching entry.
pub open spec fn count_of(counts: Seq<(String, usize)>, key: Seq<char>, from: int) -> Option<
    usize,
>
    decreases counts.len() - from,
{
    if from < 0 || from >= counts.len() {
        None
    } else if counts[from].0@ == key {
        Some(counts[from].1)
    } else {
        count_of(counts, key, from + 1)
    }
}

fn count_lookup(counts: &Vec<(String, usize)>, key: &str) -> (r: Option<usize>)
    ensures
        r matches Some(c) ==> count_of(counts@, key@, 0) == Some(c),
        r is None ==> count_of(counts@, key@, 0) is None,
{
    let mut i: usize = 0;
    while i < counts.len()
        invariant
            0 <= i <= counts@.len(),
            count_of(counts@, key@, 0) == count_of(counts@, key@, i as int),
        decreases counts@.len() - i,
    {
        if str_eq(counts[i].0.as_str(), key) {
            return Some(counts[i].1);
        }
        i = i + 1;
    }
    None
}

/// The presented form of a node name: the demangled name stripped of its
/// hash suffix when that form is unambiguous, the name itself otherwise.
pub open spec fn spec_presented(counts: Seq<(String, usize)>, name: Seq<char>) -> Seq<char> {
    let d = demangled_of(name);
    if has_hash_suffix(d) && count_of(counts, strip_hash(d), 0) == Some(1usize) {
        strip_hash(d)
    } else {
        name
    }
}

/// Shortens every node name to its dehashed demangled form where the
/// ambiguity table counts exactly one bearer.
pub fn rename_unambiguous(g: &mut Graph, counts: &Vec<(String, usize)>)
    ensures
        final(g).edges@ == old(g).edges@,
        final(g).nodes@.len() == old(g).nodes@.len(),
        forall|v: int|
            0 <= v < old(g).nodes@.len() ==> {
                &&& (#[trigger] final(g).nodes@[v]).name@ == spec_presented(
                    counts@,
                    old(g).nodes@[v].name@,
                )
                &&& final(g).nodes@[v].local == old(g).nodes@[v].local
                &&& final(g).nodes@[v].max == old(g).nodes@[v].max
                &&& final(g).nodes@[v].dashed == old(g).nodes@[v].dashed
            },
{
    let n = g.nodes.len();
    let mut v: usize = 0;
    while v < n
        invariant
            n == g.nodes@.len() == old(g).nodes@.len(),
            g.edges@ == old(g).edges@,
            0 <= v <= n,
            forall|w: int| v <= w < n ==> #[trigger] g.nodes@[w] == old(g).nodes@[w],
            forall|w: int|
                0 <= w < v ==> {
                    &&& (#[trigger] g.nodes@[w]).name@ == spec_presented(
                        counts@,
                        old(g).nodes@[w].name@,
                    )
                    &&& g.nodes@[w].local == old(g).nodes@[w].local
                    &&& g.nodes@[w].max == old(g).nodes@[w].max
                    &&& g.nodes@[w].dashed == old(g).nodes@[w].dashed
                },
        decreases n - v,
    {
        let d = demangle(g.nodes[v].name.as_str());
        match dehash(d.as_str()) {
            Some(dehashed) => {
                match count_lookup(counts, dehashed) {
                    Some(c) => {
                        if c == 1 {
                            g.nodes[v].name = String::from_str(dehashed);
                        }
                    },
                    None => {},
                }
            },
            None => {},
        }
        v = v + 1;
    }
}

/// The rendering of a local stack value: its number, or `?` when unknown.
pub open spec fn local_str(l: Local) -> Seq<char> {
    match l {
        Local::Exact(n) => dec_seq(n as int),
        Local::Unknown => seq!['?'],
    }
}

/// The rendering of a bound: `= n` when exact, `>= n` for a lower bound.
pub open spec fn max_str(m: Max) -> Seq<char> {
    match m {
        Max::Exact(n) => "= "@ + dec_seq(n as int),
        Max::LowerBound(n) => ">= "@ + dec_seq(n as int),
    }
}

impl Local {
    /// Renders the local stack value.
    pub fn display(&self) -> (r: String)
        ensures
            r@ == local_str(*self),
    {
        match self {
            Local::Exact(n) => u64_dec(*n),
            Local::Unknown => {
                let s = String::from_str("?");
                proof {
                    reveal_strlit("?");
                    assert(s@ =~= seq!['?']);
                }
                s
            },
        }
    }
}

impl Max {
    /// Renders the bound.
    pub fn display(&self) -> (r: String)
        ensures
            r@ == max_str(*self),
    {
        match self {
            Max::Exact(n) => {
                let d = u64_dec(*n);
                String::from_str("= ").concat(d.as_str())
            },
            Max::LowerBound(n) => {
                let d = u64_dec(*n);
                String::from_str(">= ").concat(d.as_str())
            },
        }
    }
}

/// One row of the textual table: the node's index, presented name, local
/// stack, solved bound, and outgoing neighbors.
#[derive(Debug)]
pub struct Row {
    pub index: usize,
    pub name: String,
    pub local: Local,
    pub max: Option<Max>,
    pub callees: Vec<usize>,
}

/// The sort key of a row: solved bounds come first, larger payloads earlier,
/// unknown bounds last.
pub open spec fn row_le(a: Row, b: Row) -> bool {
    match (a.max, b.max) {
        (Some(x), Some(y)) => x.payload() >= y.payload(),
        (Some(_), None) => true,
        (None, Some(_)) => false,
        (None, None) => true,
    }
}

fn row_le_exec(a: &Row, b: &Row) -> (r: bool)
    ensures
        r == row_le(*a, *b),
{
    match (&a.max, &b.max) {
        (Some(x), Some(y)) => {
            let px = match x {
                Max::Exact(n) => *n,
                Max::LowerBound(n) => *n,
            };
            let py = match y {
                Max::Exact(n) => *n,
                Max::LowerBound(n) => *n,
            };
            px >= py
        },
        (Some(_), None) => true,
        (None, Some(_)) => false,
        (None, None) => true,
    }
}

/// Builds one row per node, in node order: the demangled presented name and
/// the node's data, plus the targets of its outgoing edges.
pub fn build_rows(g: &Graph) -> (rows: Vec<Row>)
    requires
        g.wf(),
    ensures
        rows@.len() == g.nodes@.len(),
        forall|v: int|
            0 <= v < g.nodes@.len() ==> {
                &&& (#[trigger] rows@[v]).index == v
                &&& rows@[v].name@ == demangled_of(g.nodes@[v].name@)
                &&& rows@[v].local == g.nodes@[v].local
                &&& rows@[v].max == g.nodes@[v].max
                &&& rows@[v].callees@ == crate::graph::successors(g.edges@, v as usize)
            },
{
    let mut rows: Vec<Row> = Vec::new();
    let n = g.nodes.len();
    let mut v: usize = 0;
    while v < n
        invariant
            g.wf(),
            n == g.nodes@.len(),
            0 <= v <= n,
            rows@.len() == v,
            forall|w: int|
                0 <= w < v ==> {
                    &&& (#[trigger] rows@[w]).index == w
                    &&& rows@[w].name@ == demangled_of(g.nodes@[w].name@)
                    &&& rows@[w].local == g.nodes@[w].local
                    &&& rows@[w].max == g.nodes@[w].max
                    &&& rows@[w].callees@ == crate::graph::successors(g.edges@, w as usize)
                },
        decreases n - v,
    {
        let callees = g.successors_of(v);
        rows.push(
            Row {
                index: v,
                name: demangle(g.nodes[v].name.as_str()),
                local: g.nodes[v].local,
                max: g.nodes[v].max,
                callees,
            },
        );
        v = v + 1;
    }
    rows
}

/// Whether the rows are ordered by descending bound, unknown bounds last.
pub open spec fn rows_sorted(rows: Seq<Row>) -> bool {
    forall|i: int, j: int| 0 <= i <= j < rows.len() ==> row_le(#[trigger] rows[i], #[trigger] rows[j])
}

/// Sorts the rows by descending bound, unknown bounds last; the result is a
/// permutation of the input.
pub fn sort_rows(rows: &mut Vec<Row>)
    ensures
        rows_sorted(final(rows)@),
        final(rows)@.to_multiset() == old(rows)@.to_multiset(),
{
    let n = rows.len();
    let mut i: usize = 1;
    while i < n
        invariant
            n == rows@.len(),
            rows@.len() == old(rows)@.len(),
            1 <= i <= n || (n == 0 && i == 1),
            rows@.to_multiset() == old(rows)@.to_multiset(),
            forall|a: int, b: int| 0 <= a <= b < i ==> row_le(#[trigger] rows@[a], #[trigger] rows@[b]),
        decreases n - i,
    {
        let mut j: usize = i;
        while j > 0
            invariant
                n == rows@.len(),
                rows@.len() == old(rows)@.len(),
                0 <= j <= i < n,
                rows@.to_multiset() == old(rows)@.to_multiset(),
                forall|a: int, b: int|
                    0 <= a <= b <= i && b < j ==> row_le(#[trigger] rows@[a], #[trigger] rows@[b]),
                forall|a: int, b: int|
                    j <= a <= b <= i ==> row_le(#[trigger] rows@[a], #[trigger] rows@[b]),
                forall|a: int, b: int|
                    0 <= a < j && j < b <= i ==> row_le(#[trigger] rows@[a], #[trigger] rows@[b]),
            decreases j,
        {
            let swap_needed = !row_le_exec(&rows[j - 1], &rows[j]);
            if swap_needed {
                proof {
                    assert(row_le(rows@[j as int], rows@[j - 1])) by {
                        let x = rows@[j - 1];
                        let y = rows@[j as int];
                        assert(!row_le(x, y));
                    }
                }
                let ghost before = rows@;
                let moved = rows.remove(j - 1);
                rows.insert(j, moved);
                proof {
                    assert(rows@ =~= before.update(j - 1, before[j as int]).update(
                        j as int,
                        before[j - 1],
                    ));
                    lemma_swap_multiset(before, rows@, j - 1, j as int);
                }
                j = j - 1;
            } else {
                j = 0;
            }
        }
        i = i + 1;
    }
}

/// Swapping two entries keeps the multiset of entries.
pub proof fn lemma_swap_multiset(a: Seq<Row>, b: Seq<Row>, x: int, y: int)
    requires
        0 <= x < a.len(),
        0 <= y < a.len(),
        b == a.update(x, a[y]).update(y, a[x]),
    ensures
        b.to_multiset() == a.to_multiset(),
{
    broadcast use vstd::seq_lib::to_multiset_update;
    broadcast use vstd::seq_lib::to_multiset_contains;
    broadcast use vstd::multiset::group_multiset_axioms;
    broadcast use vstd::multiset::group_multiset_properties;

    if x == y {
        assert(b =~= a);
    } else {
        let mid = a.update(x, a[y]);
        assert(a.to_multiset().count(a[x]) >= 1) by {
            assert(a.contains(a[x]));
        }
        assert(a.to_multiset().count(a[y]) >= 1) by {
            assert(a.contains(a[y]));
        }
        assert(mid[y] == a[y]);
        assert(mid.to_multiset() == a.to_multiset().insert(a[y]).remove(a[x]));
        assert(b.to_multiset() == mid.to_multiset().insert(a[x]).remove(a[y]));
        assert(b.to_multiset() =~= a.to_multiset());
    }
}

/// The dot-escaped form of one character: a quote gains a backslash.
pub open spec fn escape_char(c: char) -> Seq<char> {
    if c == '"' {
        seq!['\\', '"']
    } else {
        seq![c]
    }
}

/// The dot-escaped form of a string.
pub open spec fn escape_seq(s: Seq<char>) -> Seq<char>
    decreases s.len(),
{
    if s.len() == 0 {
        Seq::empty()
    } else {
        escape_seq(s.drop_last()) + escape_char(s.last())
    }
}

/// Escapes text for a dot label, quoting the quotes.
pub struct Escaper {
    pub out: Vec<char>,
}

impl Escaper {
    /// An escaper with empty output.
    pub fn new() -> (e: Escaper)
        ensures
            e.out@ =~= Seq::<char>::empty(),
    {
        Escaper { out: Vec::new() }
    }

    /// Appends one character, escaped.
    pub fn write_char(&mut self, c: char)
        ensures
            final(self).out@ == old(self).out@ + escape_char(c),
    {
        if c == '"' {
            self.out.push('\\');
            self.out.push('"');
            proof {
                assert(self.out@ =~= old(self).out@ + escape_char(c));
            }
        } else {
            self.out.push(c);
            proof {
                assert(self.out@ =~= old(self).out@ + escape_char(c));
            }
        }
    }

    /// Appends a string, escaped character by character.
    pub fn write_str(&mut self, s: &str)
        ensures
            final(self).out@ == old(self).out@ + escape_seq(s@),
    {
        let n = s.unicode_len();
        let mut i: usize = 0;
        proof {
            assert(escape_seq(s@.take(0)) =~= Seq::<char>::empty());
            assert(self.out@ =~= old(self).out@ + escape_seq(s@.take(0)));
        }
        while i < n
            invariant
                0 <= i <= n,
                n == s@.len(),
                self.out@ == old(self).out@ + escape_seq(s@.take(i as int)),
            decreases n - i,
        {
            self.write_char(s.get_char(i));
            proof {
                assert(s@.take(i + 1).drop_last() =~= s@.take(i as int));
                assert(s@.take(i + 1).last() == s@[i as int]);
                assert(self.out@ =~= old(self).out@ + escape_seq(s@.take(i + 1)));
            }
            i = i + 1;
        }
        proof {
            assert(s@.take(n as int) =~= s@);
        }
    }

    /// The escaped text gathered so far.
    pub fn finish(self) -> (r: String)
        ensures
            r@ == self.out@,
    {
        string_from_chars(&self.out)
    }
}

/// The dot line of one node: its index, its label holding the escaped
/// demangled name, the bound when solved, and the local usage, drawn dashed
/// when fictitious.
pub open spec fn node_line(i: int, n: Node) -> Seq<char> {
    "    "@ + dec_seq(i) + " [label=\""@ + escape_seq(demangled_of(n.name@)) + (match n.max {
        Some(m) => "\\nmax "@ + max_str(m),
        None => Seq::empty(),
    }) + "\\nlocal = "@ + local_str(n.local) + "\""@ + (if n.dashed {
        " style=dashed"@
    } else {
        Seq::empty()
    }) + "]\n"@
}

/// The dot lines of the first `i` nodes.
pub open spec fn nodes_text(nodes: Seq<Node>, i: int) -> Seq<char>
    decreases i,
{
    if i <= 0 {
        Seq::empty()
    } else {
        nodes_text(nodes, i - 1) + node_line(i - 1, nodes[i - 1])
    }
}

/// The dot line of one edge.
pub open spec fn edge_line(e: (usize, usize)) -> Seq<char> {
    "    "@ + dec_seq(e.0 as int) + " -> "@ + dec_seq(e.1 as int) + "\n"@
}

/// The dot lines of the first `i` edges.
pub open spec fn edges_text(edges: Seq<(usize, usize)>, i: int) -> Seq<char>
    decreases i,
{
    if i <= 0 {
        Seq::empty()
    } else {
        edges_text(edges, i - 1) + edge_line(edges[i - 1])
    }
}

/// The member lines of one cluster, one indented node index each.
pub open spec fn members_text(members: Seq<usize>, j: int) -> Seq<char>
    decreases j,
{
    if j <= 0 {
        Seq::empty()
    } else {
        members_text(members, j - 1) + ("        "@ + dec_seq(members[j - 1] as int) + "\n"@)
    }
}

/// The dot subgraph of one cycle: a dashed cluster listing its members.
pub open spec fn cluster_text(i: int, members: Seq<usize>) -> Seq<char> {
    "\n    subgraph cluster_"@ + dec_seq(i) + " {\n"@ + "        style=dashed\n"@
        + "        fontname=monospace\n"@ + "        label=\"SCC"@ + dec_seq(i) + "\"\n"@
        + members_text(members, members.len() as int) + "    }\n"@
}

/// The dot subgraphs of the first `i` cycles.
pub open spec fn clusters_text(cycles: Seq<Vec<usize>>, i: int) -> Seq<char>
    decreases i,
{
    if i <= 0 {
        Seq::empty()
    } else {
        clusters_text(cycles, i - 1) + cluster_text(i - 1, cycles[i - 1]@)
    }
}

/// The whole graph description.
pub open spec fn dot_text(nodes: Seq<Node>, edges: Seq<(usize, usize)>, cycles: Seq<Vec<usize>>) -> Seq<char> {
    "digraph {\n"@ + "    node [fontname=monospace shape=box]\n"@ + nodes_text(
        nodes,
        nodes.len() as int,
    ) + edges_text(edges, edges.len() as int) + clusters_text(cycles, cycles.len() as int)
        + "}\n"@
}

fn usize_dec(n: usize) -> (r: String)
    ensures
        r@ == dec_seq(n as int),
{
    u64_dec(n as u64)
}

fn render_node_line(i: usize, n: &Node) -> (r: String)
    ensures
        r@ == node_line(i as int, *n),
{
    let mut out = String::from_str("    ");
    let d = usize_dec(i);
    out.append(d.as_str());
    out.append(" [label=\"");
    let demangled = demangle(n.name.as_str());
    let mut esc = Escaper::new();
    esc.write_str(demangled.as_str());
    let escaped = esc.finish();
    out.append(escaped.as_str());
    match &n.max {
        Some(m) => {
            out.append("\\nmax ");
            let ms = m.display();
            out.append(ms.as_str());
        },
        None => {},
    }
    out.append("\\nlocal = ");
    let ls = n.local.display();
    out.append(ls.as_str());
    out.append("\"");
    if n.dashed {
        out.append(" style=dashed");
    }
    out.append("]\n");
    proof {
        assert(out@ =~= node_line(i as int, *n));
    }
    out
}

/// Renders the solved graph as a textual graph description: one labeled box
/// per node, fictitious nodes dashed, one edge line per edge, and one dashed
/// cluster per cycle.
pub fn dot(g: &Graph, cycles: &Vec<Vec<usize>>) -> (r: String)
    ensures
        r@ == dot_text(g.nodes@, g.edges@, cycles@),
{
    let mut out = String::from_str("digraph {\n");
    out.append("    node [fontname=monospace shape=box]\n");
    let ghost header = out@;
    let n = g.nodes.len();
    let mut i: usize = 0;
    proof {
        assert(out@ =~= header + nodes_text(g.nodes@, 0));
    }
    while i < n
        invariant
            0 <= i <= n,
            n == g.nodes@.len(),
            out@ == header + nodes_text(g.nodes@, i as int),
        decreases n - i,
    {
        let line = render_node_line(i, &g.nodes[i]);
        out.append(line.as_str());
        proof {
            assert(out@ =~= header + nodes_text(g.nodes@, i + 1));
        }
        i = i + 1;
    }
    let ghost with_nodes = out@;
    let ne = g.edges.len();
    let mut q: usize = 0;
    proof {
        assert(out@ =~= with_nodes + edges_text(g.edges@, 0));
    }
    while q < ne
        invariant
            0 <= q <= ne,
            ne == g.edges@.len(),
            out@ == with_nodes + edges_text(g.edges@, q as int),
        decreases ne - q,
    {
        let e = g.edges[q];
        out.append("    ");
        let a = usize_dec(e.0);
        out.append(a.as_str());
        out.append(" -> ");
        let b = usize_dec(e.1);
        out.append(b.as_str());
        out.append("\n");
        proof {
            assert(out@ =~= with_nodes + edges_text(g.edges@, q + 1));
        }
        q = q + 1;
    }
    let ghost with_edges = out@;
    let nc = cycles.len();
    let mut c: usize = 0;
    proof {
        assert(out@ =~= with_edges + clusters_text(cycles@, 0));
    }
    while c < nc
        invariant
            0 <= c <= nc,
            nc == cycles@.len(),
            out@ == with_edges + clusters_text(cycles@, c as int),
        decreases nc - c,
    {
        out.append("\n    subgraph cluster_");
        let ci = usize_dec(c);
        out.append(ci.as_str());
        out.append(" {\n");
        out.append("        style=dashed\n");
        out.append("        fontname=monospace\n");
        out.append("        label=\"SCC");
        out.append(ci.as_str());
        out.append("\"\n");
        let ghost cluster_head = out@;
        let members = &cycles[c];
        let nm = members.len();
        let mut m: usize = 0;
        proof {
            assert(out@ =~= cluster_head + members_text(members@, 0));
        }
        while m < nm
            invariant
                0 <= m <= nm,
                nm == members@.len(),
                members == cycles@[c as int],
                out@ == cluster_head + members_text(members@, m as int),
            decreases nm - m,
        {
            out.append("        ");
            let mi = usize_dec(members[m]);
            out.append(mi.as_str());
            out.append("\n");
            proof {
                assert(out@ =~= cluster_head + members_text(members@, m + 1));
            }
            m = m + 1;
        }
        out.append("    }\n");
        proof {
            assert(out@ =~= with_edges + clusters_text(cycles@, c + 1));
        }
        c = c + 1;
    }
    out.append("}\n");
    proof {
        assert(out@ =~= dot_text(g.nodes@, g.edges@, cycles@));
    }
    out
}

} // verus!
