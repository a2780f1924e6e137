//! The graph of the variants of one window.
//!
//! The nodes are a source anchor, the variants in the order given, and a sink
//! anchor. An edge leads from a node to a later node exactly where their
//! intervals do not overlap, so that a path from source to sink is a set of
//! variants that can lie on one allele.

use vstd::prelude::*;
use crate::kmer::{empty_profile, kmer_in_range, kmer_profile, valid_kmer, zero_profile};
use crate::metrics::{intervals_overlap, overlaps};
use crate::record::VariantRecord;
use itertools::Itertools;
use petgraph::graph::{DiGraph, NodeIndex};

verus! {

/// `petgraph::graph::Graph`, held as it is: what a graph contains is spoken of
/// through `graph_nodes` and `graph_edges` alone.
#[verifier::external_type_specification]
#[verifier::external_body]
#[verifier::reject_recursive_types(N)]
#[verifier::reject_recursive_types(E)]
#[verifier::reject_recursive_types(Ty)]
#[verifier::reject_recursive_types(Ix)]
pub struct ExGraph<N, E, Ty, Ix>(petgraph::graph::Graph<N, E, Ty, Ix>);

/// `petgraph::Directed`, the marker of a graph whose edges have a direction.
#[verifier::external_type_specification]
#[verifier::external_body]
pub struct ExDirected(petgraph::Directed);

/// The most nodes that a graph holds, anchors included. With that many, every
/// pair of nodes can have its edge.
pub const MAX_NODES: usize = 65536;

/// Every --input variant is placed inside a node of the graph.
#[derive(Debug)]
pub struct VarNode {
    pub name: String,
    pub start: u64,
    pub end: u64,
    pub size: i64,
    pub entry: Option<VariantRecord>,
    pub kfeat: Vec<u64>,
}

/// `node` is the anchor called `name`: it covers nothing, has size 0 and the
/// profile without any count, and stands for no record.
pub open spec fn is_anchor(node: VarNode, name: Seq<char>, kmer: u8) -> bool {
    &&& node.name@ == name
    &&& node.start == 0
    &&& node.end == 0
    &&& node.size == 0
    &&& node.entry is None
    &&& node.kfeat@ == zero_profile(kmer as nat)
}

/// `node` is the node of the record `entry`: it has its interval, its signed
/// size and the k-mer profile of its changed sequence, and holds the record.
pub open spec fn is_node_of(node: VarNode, entry: VariantRecord, kmer: u8) -> bool {
    &&& node.name@ == Seq::<char>::empty()
    &&& node.start == entry.start
    &&& node.end == entry.end
    &&& node.size == entry.signed_size()
    &&& node.entry == Some(entry)
    &&& node.kfeat@ == kmer_profile(entry.changed_sequence(), kmer as nat)
}

impl VarNode {
    /// The node of a record.
    pub fn new(entry: VariantRecord, kmer: u8) -> (r: Self)
        requires
            entry.wf(),
            valid_kmer(kmer),
        ensures
            is_node_of(r, entry, kmer),
    {
        let name = String::new();
        let (start, end) = entry.boundaries();
        let (kfeat, size) = entry.to_kfeat(kmer);
        Self { name, start, end, size, entry: Some(entry), kfeat }
    }

    /// For the 'src' and 'snk' nodes, just need the name
    pub fn new_anchor(name: &str, kmer: u8) -> (r: Self)
        requires
            valid_kmer(kmer),
        ensures
            is_anchor(r, name@, kmer),
    {
        Self {
            name: name.to_owned(),
            start: 0,
            end: 0,
            size: 0,
            entry: None,
            kfeat: empty_profile(kmer),
        }
    }
}

/// The nodes of a graph, in the order in which they were added. The place of a
/// node in this sequence is its handle.
pub uninterp spec fn graph_nodes(g: DiGraph<VarNode, ()>) -> Seq<VarNode>;

/// The edges of a graph as pairs of handles, source first, in the order in
/// which they were added.
pub uninterp spec fn graph_edges(g: DiGraph<VarNode, ()>) -> Seq<(int, int)>;

/// `petgraph::graph::Graph::new`: a graph without nodes and edges.
#[verifier::external_body]
fn graph_new() -> (g: DiGraph<VarNode, ()>)
    ensures
        graph_nodes(g) == Seq::<VarNode>::empty(),
        graph_edges(g) == Seq::<(int, int)>::empty(),
{
    DiGraph::new()
}

/// `petgraph::graph::Graph::node_count`: the number of nodes.
#[verifier::external_body]
pub(crate) fn graph_node_count(g: &DiGraph<VarNode, ()>) -> (n: usize)
    ensures
        n == graph_nodes(*g).len(),
{
    g.node_count()
}

/// `petgraph::graph::Graph::add_node`: the node is put behind the others and
/// its place is returned; the edges stay. The call panics on a graph that holds
/// `u32::MAX` nodes, which the precondition leaves out.
#[verifier::external_body]
fn graph_add_node(g: &mut DiGraph<VarNode, ()>, node: VarNode) -> (idx: usize)
    requires
        graph_nodes(*old(g)).len() < u32::MAX,
    ensures
        graph_nodes(*final(g)) == graph_nodes(*old(g)).push(node),
        graph_edges(*final(g)) == graph_edges(*old(g)),
        idx == graph_nodes(*old(g)).len(),
{
    g.add_node(node).index()
}

/// `petgraph::graph::Graph::add_edge`: the edge from `a` to `b` is put behind
/// the others; the nodes stay. The call panics where a node does not exist and
/// on a graph that holds `u32::MAX` edges, which the precondition leaves out.
#[verifier::external_body]
fn graph_add_edge(g: &mut DiGraph<VarNode, ()>, a: usize, b: usize)
    requires
        a < graph_nodes(*old(g)).len(),
        b < graph_nodes(*old(g)).len(),
        graph_nodes(*old(g)).len() <= u32::MAX,
        graph_edges(*old(g)).len() < u32::MAX,
    ensures
        graph_nodes(*final(g)) == graph_nodes(*old(g)),
        graph_edges(*final(g)) == graph_edges(*old(g)).push((a as int, b as int)),
{
    g.add_edge(NodeIndex::new(a), NodeIndex::new(b), ());
}

/// `petgraph::graph::Graph::node_weight`: the node at `a`, if there is one.
/// Handles are held in 32 bits there, so `a` has to fit.
#[verifier::external_body]
pub(crate) fn graph_node_weight(g: &DiGraph<VarNode, ()>, a: usize) -> (r: Option<&VarNode>)
    requires
        a <= u32::MAX,
    ensures
        a < graph_nodes(*g).len() ==> r == Some(&graph_nodes(*g)[a as int]),
        a >= graph_nodes(*g).len() ==> r is None,
{
    g.node_weight(NodeIndex::new(a))
}

/// `petgraph::graph::Graph::contains_edge`: whether an edge leads from `a` to
/// `b`. Handles are held in 32 bits there, so both have to fit.
#[verifier::external_body]
pub(crate) fn graph_contains_edge(g: &DiGraph<VarNode, ()>, a: usize, b: usize) -> (r: bool)
    requires
        a <= u32::MAX,
        b <= u32::MAX,
    ensures
        r == graph_edges(*g).contains((a as int, b as int)),
{
    g.contains_edge(NodeIndex::new(a), NodeIndex::new(b))
}

/// `p` comes before `q` where pairs are ordered by their first and then by
/// their second number.
pub open spec fn pair_before(p: (usize, usize), q: (usize, usize)) -> bool {
    p.0 < q.0 || (p.0 == q.0 && p.1 < q.1)
}

/// `pairs` lists every pair `(i, j)` with `i < j < n` once, in ascending order.
pub open spec fn is_pair_listing(pairs: Seq<(usize, usize)>, n: usize) -> bool {
    &&& 2 * pairs.len() == n * (n - 1)
    &&& forall|m: int| 0 <= m < pairs.len() ==> (#[trigger] pairs[m]).0 < pairs[m].1 < n
    &&& forall|i: usize, j: usize| i < j < n ==> #[trigger] pairs.contains((i, j))
    &&& forall|l: int, m: int|
        0 <= l < m < pairs.len() ==> pair_before(#[trigger] pairs[l], #[trigger] pairs[m])
}

/// `itertools::Itertools::combinations` with length 2, on the numbers below
/// `n`: the pairs of two different numbers, the smaller first, each once and in
/// lexicographic order. The pairs are held in one vector, so `n` is kept to
/// the number of nodes that a graph has.
#[verifier::external_body]
fn index_pairs(n: usize) -> (pairs: Vec<(usize, usize)>)
    requires
        n <= MAX_NODES,
    ensures
        is_pair_listing(pairs@, n),
{
    (0..n).combinations(2).map(|pair| (pair[0], pair[1])).collect()
}

/// The nodes at `a` and `b` can lie on one allele: their intervals do not
/// overlap.
pub open spec fn compatible(nodes: Seq<VarNode>, a: int, b: int) -> bool {
    !intervals_overlap(nodes[a].start, nodes[a].end, nodes[b].start, nodes[b].end)
}

/// The graph of a window: at least one variant between two anchors that cover
/// nothing and count nothing, profiles of one width, and an edge from a node
/// to a later one exactly where the two are compatible. No pair of nodes has
/// more than one edge, so there are at most as many edges as pairs.
pub open spec fn is_variant_graph(g: DiGraph<VarNode, ()>) -> bool {
    let nodes = graph_nodes(g);
    let n = nodes.len() as int;
    &&& 3 <= n <= MAX_NODES
    &&& forall|i: int| 0 <= i < n ==> (#[trigger] nodes[i]).kfeat@.len() == nodes[0].kfeat@.len()
    &&& nodes[0].start == 0 && nodes[0].end == 0 && nodes[0].size == 0
    &&& nodes[n - 1].start == 0 && nodes[n - 1].end == 0 && nodes[n - 1].size == 0
    &&& forall|w: int| 0 <= w < nodes[0].kfeat@.len() ==> #[trigger] nodes[0].kfeat@[w] == 0
    &&& forall|w: int|
        0 <= w < nodes[n - 1].kfeat@.len() ==> #[trigger] nodes[n - 1].kfeat@[w] == 0
    &&& forall|a: int, b: int| #[trigger]
        graph_edges(g).contains((a, b)) <==> (0 <= a < b < n && compatible(nodes, a, b))
    &&& graph_edges(g).no_duplicates()
    &&& 2 * graph_edges(g).len() <= n * (n - 1)
}

/// The smallest start among the records; `u64::MAX` where there is none.
pub open spec fn min_start(entries: Seq<VariantRecord>) -> u64
    decreases entries.len(),
{
    if entries.len() == 0 {
        u64::MAX
    } else {
        let rest = min_start(entries.drop_last());
        if entries.last().start < rest {
            entries.last().start
        } else {
            rest
        }
    }
}

/// The largest end among the records; 0 where there is none.
pub open spec fn max_end(entries: Seq<VariantRecord>) -> u64
    decreases entries.len(),
{
    if entries.len() == 0 {
        0
    } else {
        let rest = max_end(entries.drop_last());
        if entries.last().end > rest {
            entries.last().end
        } else {
            rest
        }
    }
}

/// Why no graph was built.
#[derive(Clone, Copy, Debug, PartialEq, Eq, Structural)]
pub enum GraphError {
    /// Cannot create a graph from no variants.
    EmptyWindow,
    /// No profile can be held for words of the given length.
    KmerOutOfRange,
    /// The window holds more variants than a graph has nodes for.
    WindowTooLarge,
}

/// Why no graph is built from `count` records with words of `kmer` letters, if
/// none is: there is no record, or no profile can be held for such words, or
/// there are more records than a graph has nodes for beside its two anchors.
pub open spec fn refusal(count: nat, kmer: u8) -> Option<GraphError> {
    if count == 0 {
        Some(GraphError::EmptyWindow)
    } else if !valid_kmer(kmer) {
        Some(GraphError::KmerOutOfRange)
    } else if count > MAX_NODES - 2 {
        Some(GraphError::WindowTooLarge)
    } else {
        None
    }
}

impl GraphError {
    /// The reason in words.
    pub open spec fn text(self) -> Seq<char> {
        match self {
            GraphError::EmptyWindow => "Cannot create a graph from no variants"@,
            GraphError::KmerOutOfRange => "Cannot hold profiles for this kmer size"@,
            GraphError::WindowTooLarge => "Cannot create a graph from this many variants"@,
        }
    }

    /// The reason in words.
    pub fn message(&self) -> (r: String)
        ensures
            r@ == self.text(),
    {
        match self {
            GraphError::EmptyWindow => "Cannot create a graph from no variants".to_owned(),
            GraphError::KmerOutOfRange => "Cannot hold profiles for this kmer size".to_owned(),
            GraphError::WindowTooLarge => "Cannot create a graph from this many variants".to_owned(),
        }
    }
}

#[derive(Debug)]
pub struct Variants {
    pub chrom: String,
    pub start: u64,
    pub end: u64,
    pub node_indices: Vec<usize>,
    pub graph: DiGraph<VarNode, ()>,
}

/// The pair `(x, y)` is among the first `k` of `pairs`.
pub open spec fn listed(pairs: Seq<(usize, usize)>, k: int, x: int, y: int) -> bool {
    exists|m: int| 0 <= m < k && (#[trigger] pairs[m]).0 == x && pairs[m].1 == y
}

/// Build a graph of all variants in a chunk.
/// Assumes variants are ordered by position (small to large)
/// Variants will have edges to every downstream variant that it does not overlap
/// The graph has an upstream 'src' node that point to every variant node
/// The graph has a dnstream 'snk' node that is pointed to by every variant node and 'src'
impl Variants {
    /// The nodes of the graph.
    pub open spec fn nodes(self) -> Seq<VarNode> {
        graph_nodes(self.graph)
    }

    /// An edge leads from the node at `a` to the node at `b`.
    pub open spec fn has_edge(self, a: int, b: int) -> bool {
        graph_edges(self.graph).contains((a, b))
    }

    /// The graph is the graph of a window, and `node_indices` holds the handle
    /// of every node in ascending order.
    pub open spec fn wf(self) -> bool {
        &&& is_variant_graph(self.graph)
        &&& self.node_indices@.len() == self.nodes().len()
        &&& forall|i: int| 0 <= i < self.node_indices@.len() ==> #[trigger] self.node_indices@[i] == i
    }

    /// The graph was built from the records `entries` with words of `kmer`
    /// letters: its nodes are the anchor `src`, the node of each record in
    /// turn, and the anchor `snk`; its region is that of the records.
    pub open spec fn built_from(self, entries: Seq<VariantRecord>, kmer: u8) -> bool {
        let nodes = self.nodes();
        &&& nodes.len() == entries.len() + 2
        &&& is_anchor(nodes[0], "src"@, kmer)
        &&& is_anchor(nodes[nodes.len() - 1], "snk"@, kmer)
        &&& forall|i: int| 0 <= i < entries.len() ==> is_node_of(#[trigger] nodes[i + 1], entries[i], kmer)
        &&& self.chrom@ == entries[0].chrom@
        &&& self.start == min_start(entries)
        &&& self.end == max_end(entries)
    }

    /// The graph of the window that holds `variants`, or the reason why there
    /// is none.
    pub fn new(variants: Vec<VariantRecord>, kmer: u8) -> (r: Result<Self, GraphError>)
        requires
            forall|i: int| 0 <= i < variants@.len() ==> (#[trigger] variants@[i]).wf(),
        ensures
            match r {
                Ok(v) => refusal(variants@.len(), kmer) is None && v.wf() && v.built_from(
                    variants@,
                    kmer,
                ),
                Err(e) => refusal(variants@.len(), kmer) == Some(e),
            },
    {
        if variants.is_empty() {
            return Err(GraphError::EmptyWindow);
        }
        if !kmer_in_range(kmer) {
            return Err(GraphError::KmerOutOfRange);
        }
        if variants.len() > MAX_NODES - 2 {
            return Err(GraphError::WindowTooLarge);
        }
        let ghost entries = variants@;
        let count = variants.len();
        let mut graph = graph_new();
        let (chrom, start, end) = Variants::get_region(&variants);
        let mut node_indices: Vec<usize> = Vec::with_capacity(count + 2);
        node_indices.push(graph_add_node(&mut graph, VarNode::new_anchor("src", kmer)));

        for entry in it: variants.into_iter()
            invariant
                it.seq() == entries,
                count == entries.len(),
                count <= MAX_NODES - 2,
                valid_kmer(kmer),
                forall|i: int| 0 <= i < entries.len() ==> (#[trigger] entries[i]).wf(),
                graph_edges(graph) == Seq::<(int, int)>::empty(),
                graph_nodes(graph).len() == it.index() + 1,
                is_anchor(graph_nodes(graph)[0], "src"@, kmer),
                forall|i: int|
                    0 <= i < it.index() ==> is_node_of(
                        #[trigger] graph_nodes(graph)[i + 1],
                        entries[i],
                        kmer,
                    ),
                node_indices@.len() == it.index() + 1,
                forall|i: int| 0 <= i < node_indices@.len() ==> #[trigger] node_indices@[i] == i,
        {
            let node = VarNode::new(entry, kmer);
            node_indices.push(graph_add_node(&mut graph, node));
        }

        let ghost inner = graph_nodes(graph);
        node_indices.push(graph_add_node(&mut graph, VarNode::new_anchor("snk", kmer)));

        let n = count + 2;
        let ghost nodes = graph_nodes(graph);
        let pairs = index_pairs(n);
        proof {
            assert(inner.len() == count + 1);
            assert(nodes.len() == n);
            assert(nodes[0] == inner[0]);
            assert(is_anchor(nodes[n - 1], "snk"@, kmer));
            assert forall|i: int| 0 <= i < entries.len() implies is_node_of(
                #[trigger] nodes[i + 1],
                entries[i],
                kmer,
            ) by {
                assert(nodes[i + 1] == inner[i + 1]);
            }
            assert forall|i: int| 0 <= i < n implies (#[trigger] nodes[i]).kfeat@.len()
                == nodes[0].kfeat@.len() by {
                if 0 < i < n - 1 {
                    assert(is_node_of(nodes[(i - 1) + 1], entries[i - 1], kmer));
                }
            }
            assert(n * (n - 1) <= 65536 * 65535) by (nonlinear_arith)
                requires
                    0 <= n <= 65536,
            ;
        }
        let mut k: usize = 0;
        while k < pairs.len()
            invariant
                k <= pairs@.len(),
                is_pair_listing(pairs@, n),
                pairs@.len() <= 0x7FFF_FFFF,
                n == nodes.len(),
                n <= MAX_NODES,
                graph_nodes(graph) == nodes,
                graph_edges(graph).len() <= k,
                graph_edges(graph).no_duplicates(),
                forall|a: int, b: int| #[trigger]
                    graph_edges(graph).contains((a, b)) <==> (listed(pairs@, k as int, a, b)
                        && compatible(nodes, a, b)),
            decreases pairs@.len() - k,
        {
            let (up, dn) = pairs[k];
            let ghost before = graph_edges(graph);
            let mut apart = false;
            if let Some(up_node) = graph_node_weight(&graph, up) {
                if let Some(dn_node) = graph_node_weight(&graph, dn) {
                    apart = !overlaps(up_node.start, up_node.end, dn_node.start, dn_node.end);
                }
            }
            if apart {
                graph_add_edge(&mut graph, up, dn);
            }
            proof {
                let after = graph_edges(graph);
                if apart {
                    // the pair was not listed before, so its edge is new
                    if before.contains((up as int, dn as int)) {
                        let m = choose|m: int|
                            0 <= m < k && (#[trigger] pairs@[m]).0 == up && pairs@[m].1 == dn;
                        assert(pair_before(pairs@[m], pairs@[k as int]));
                    }
                    assert(after == before.push((up as int, dn as int)));
                    assert forall|i: int, j: int|
                        0 <= i < after.len() && 0 <= j < after.len() && i != j implies after[i]
                        != after[j] by {
                        if i < before.len() {
                            assert(before.contains(before[i]));
                        }
                        if j < before.len() {
                            assert(before.contains(before[j]));
                        }
                    }
                }
                assert forall|a: int, b: int| #[trigger]
                    after.contains((a, b)) <==> (listed(pairs@, k + 1, a, b) && compatible(
                        nodes,
                        a,
                        b,
                    )) by {
                    let here = a == up && b == dn;
                    if listed(pairs@, k as int, a, b) {
                        let m = choose|m: int|
                            0 <= m < k && (#[trigger] pairs@[m]).0 == a && pairs@[m].1 == b;
                        assert(pairs@[m].0 == a);
                        assert(listed(pairs@, k + 1, a, b));
                    }
                    if here {
                        assert(pairs@[k as int].0 == a);
                        assert(listed(pairs@, k + 1, a, b));
                    }
                    if listed(pairs@, k + 1, a, b) {
                        let m = choose|m: int|
                            0 <= m < k + 1 && (#[trigger] pairs@[m]).0 == a && pairs@[m].1 == b;
                        if m < k {
                            assert(listed(pairs@, k as int, a, b));
                        } else {
                            assert(here);
                        }
                    }
                    if apart {
                        assert(after == before.push((up as int, dn as int)));
                        if before.contains((a, b)) {
                            let at = choose|at: int| 0 <= at < before.len() && before[at] == (a, b);
                            assert(after[at] == (a, b));
                        }
                        if here {
                            assert(after[before.len() as int] == (a, b));
                        }
                    }
                }
            }
            k += 1;
        }
        proof {
            assert forall|a: int, b: int| #[trigger]
                graph_edges(graph).contains((a, b)) <==> (0 <= a < b < n && compatible(
                    nodes,
                    a,
                    b,
                )) by {
                if listed(pairs@, pairs@.len() as int, a, b) {
                    let m = choose|m: int|
                        0 <= m < pairs@.len() && (#[trigger] pairs@[m]).0 == a && pairs@[m].1 == b;
                    assert(pairs@[m].0 < pairs@[m].1 < n);
                }
                if 0 <= a < b < n {
                    assert(pairs@.contains((a as usize, b as usize)));
                    let m = choose|m: int|
                        0 <= m < pairs@.len() && pairs@[m] == (a as usize, b as usize);
                    assert(pairs@[m].0 == a);
                    assert(listed(pairs@, pairs@.len() as int, a, b));
                }
            }
        }
        Ok(Variants { chrom, start, end, node_indices, graph })
    }

    /// Again, TR aware, we need to set the bounds for doing the pileup
    /// to the TR boundaries.
    fn get_region(entries: &Vec<VariantRecord>) -> (r: (String, u64, u64))
        requires
            entries@.len() > 0,
        ensures
            r.0@ == entries@[0].chrom@,
            r.1 == min_start(entries@),
            r.2 == max_end(entries@),
    {
        let chrom = entries[0].chrom.clone();
        let mut low = u64::MAX;
        let mut high: u64 = 0;
        let mut i: usize = 0;
        while i < entries.len()
            invariant
                i <= entries@.len(),
                low == min_start(entries@.take(i as int)),
                high == max_end(entries@.take(i as int)),
            decreases entries@.len() - i,
        {
            let (start, end) = entries[i].boundaries();
            proof {
                assert(entries@.take(i + 1).drop_last() == entries@.take(i as int));
            }
            if start < low {
                low = start;
            }
            if end > high {
                high = end;
            }
            i += 1;
        }
        proof {
            assert(entries@.take(entries@.len() as int) == entries@);
        }
        (chrom, low, high)
    }
}

/// `walk` passes along edges of the graph from each of its nodes to the next.
pub open spec fn is_walk(g: DiGraph<VarNode, ()>, walk: Seq<int>) -> bool {
    forall|i: int|
        0 <= i < walk.len() - 1 ==> graph_edges(g).contains((#[trigger] walk[i], walk[i + 1]))
}

/// The graph of a window has no cycle: the order of the handles, which is the
/// order of the positions, is a topological order. Every edge leads to a larger
/// handle, and so does every walk of at least one edge; no walk comes back to
/// its first node.
pub proof fn lemma_acyclic(g: DiGraph<VarNode, ()>, walk: Seq<int>)
    requires
        is_variant_graph(g),
        is_walk(g, walk),
        walk.len() >= 2,
    ensures
        walk.first() < walk.last(),
        forall|a: int, b: int| #[trigger] graph_edges(g).contains((a, b)) ==> a < b,
    decreases walk.len(),
{
    let edges = graph_edges(g);
    let m = walk.len() as int;
    assert(edges.contains((walk[m - 2], walk[m - 2 + 1])));
    if walk.len() > 2 {
        let shorter = walk.drop_last();
        assert forall|i: int| 0 <= i < shorter.len() - 1 implies edges.contains(
            (#[trigger] shorter[i], shorter[i + 1]),
        ) by {
            assert(edges.contains((walk[i], walk[i + 1])));
        }
        lemma_acyclic(g, shorter);
    }
}

} // verus!
