use vstd::prelude::*;

verus! {

/// A weighted edge to `other`.
#[derive(Debug, Clone, Copy, PartialEq, Eq)]
pub struct Edge {
    pub other: usize,
    pub weight: usize,
}

impl Edge {
    /// An edge from an `(other, weight)` pair.
    pub fn from(edge: &(usize, usize)) -> (r: Edge)
        ensures
            r.other == edge.0,
            r.weight == edge.1,
    {
        Edge { other: edge.0, weight: edge.1 }
    }
}

/// Sum of the weights of `edges[0..k]`.
pub open spec fn edge_sum(edges: Seq<Edge>, k: int) -> int
    decreases k,
{
    if k <= 0 {
        0
    } else {
        edge_sum(edges, k - 1) + edges[k - 1].weight
    }
}

/// Sum of the weights of the edges among `edges[0..k]` that lead to `u`.
pub open spec fn weight_to(edges: Seq<Edge>, u: int, k: int) -> int
    decreases k,
{
    if k <= 0 {
        0
    } else {
        weight_to(edges, u, k - 1) + if edges[k - 1].other == u { edges[k - 1].weight as int } else { 0 }
    }
}

/// Whether some edge among `edges[0..k]` leads to `u`.
pub open spec fn appears(edges: Seq<Edge>, u: int, k: int) -> bool
    decreases k,
{
    if k <= 0 {
        false
    } else {
        appears(edges, u, k - 1) || edges[k - 1].other == u
    }
}

pub proof fn lemma_appears_witness(edges: Seq<Edge>, u: int, k: int)
    requires
        0 <= k <= edges.len(),
        appears(edges, u, k),
    ensures
        exists|j: int| 0 <= j < k && #[trigger] edges[j].other == u,
    decreases k,
{
    if !(edges[k - 1].other == u) {
        lemma_appears_witness(edges, u, k - 1);
    }
}

pub proof fn lemma_appears_from(edges: Seq<Edge>, u: int, j: int, k: int)
    requires
        0 <= j < k <= edges.len(),
        edges[j].other == u,
    ensures
        appears(edges, u, k),
    decreases k,
{
    if j < k - 1 {
        lemma_appears_from(edges, u, j, k - 1);
    }
}

pub proof fn lemma_absent_weight(edges: Seq<Edge>, u: int, k: int)
    requires
        0 <= k <= edges.len(),
        !appears(edges, u, k),
    ensures
        weight_to(edges, u, k) == 0,
    decreases k,
{
    if k > 0 {
        lemma_absent_weight(edges, u, k - 1);
    }
}

/// Total weight of all edges.
pub open spec fn total_of(edges: Seq<Edge>) -> int {
    edge_sum(edges, edges.len() as int)
}

/// Total weight of the edges that lead to `u`.
pub open spec fn total_to(edges: Seq<Edge>, u: int) -> int {
    weight_to(edges, u, edges.len() as int)
}

pub proof fn lemma_weight_to_bounds(edges: Seq<Edge>, u: int, k: int)
    requires
        0 <= k <= edges.len(),
    ensures
        0 <= weight_to(edges, u, k) <= edge_sum(edges, k),
        0 <= edge_sum(edges, k),
    decreases k,
{
    if k > 0 {
        lemma_weight_to_bounds(edges, u, k - 1);
    }
}

pub proof fn lemma_edge_sum_monotone(edges: Seq<Edge>, a: int, b: int)
    requires
        0 <= a <= b <= edges.len(),
    ensures
        edge_sum(edges, a) <= edge_sum(edges, b),
    decreases b - a,
{
    if a < b {
        lemma_edge_sum_monotone(edges, a, b - 1);
    }
}

/// A vertex with its weighted edge list; `weight` is the list's total.
#[derive(Debug, PartialEq)]
pub struct Node {
    pub vertex: usize,
    pub weight: usize,
    pub edges: Vec<Edge>,
}

impl Node {
    /// Well formed in a graph of `n` vertices: the weight is the edges' total,
    /// every edge leads to another vertex below `n`, and no two edges lead to
    /// the same vertex.
    pub open spec fn wf(&self, n: nat) -> bool {
        &&& self.weight == total_of(self.edges@)
        &&& forall|k: int|
            0 <= k < self.edges@.len() ==> #[trigger] self.edges@[k].other < n && self.edges@[k].other
                != self.vertex
        &&& forall|a: int, b: int|
            0 <= a < b < self.edges@.len() ==> #[trigger] self.edges@[a].other
                != #[trigger] self.edges@[b].other
    }

    /// A node over the `(other, weight)` pairs in `edges`, in their order.
    pub fn from(vertex: usize, edges: &[(usize, usize)]) -> (r: Node)
        requires
            edge_sum(pairs_to_edges(edges@), edges@.len() as int) <= usize::MAX,
        ensures
            r.vertex == vertex,
            r.edges@ == pairs_to_edges(edges@),
            r.weight == total_of(r.edges@),
    {
        let ghost es = pairs_to_edges(edges@);
        let mut out: Vec<Edge> = Vec::new();
        let mut weight: usize = 0;
        let mut k: usize = 0;
        while k < edges.len()
            invariant
                k <= edges@.len(),
                es == pairs_to_edges(edges@),
                edge_sum(es, edges@.len() as int) <= usize::MAX,
                out@ == es.take(k as int),
                weight == edge_sum(es, k as int),
            decreases edges@.len() - k,
        {
            proof {
                lemma_edge_sum_monotone(es, k + 1, edges@.len() as int);
            }
            let e = Edge::from(&edges[k]);
            weight = weight + e.weight;
            out.push(e);
            k = k + 1;
            proof {
                assert(out@ =~= es.take(k as int));
            }
        }
        proof {
            assert(out@ =~= es);
            lemma_edge_sum_prefix(es, out@, out@.len() as int);
        }
        Node { vertex, weight, edges: out }
    }
}

/// The edges for a list of `(other, weight)` pairs.
pub open spec fn pairs_to_edges(pairs: Seq<(usize, usize)>) -> Seq<Edge> {
    Seq::new(pairs.len(), |k: int| Edge { other: pairs[k].0, weight: pairs[k].1 })
}

/// Sums over a prefix depend on that prefix only.
pub proof fn lemma_edge_sum_prefix(a: Seq<Edge>, b: Seq<Edge>, k: int)
    requires
        0 <= k <= a.len(),
        k <= b.len(),
        forall|i: int| 0 <= i < k ==> a[i] == b[i],
    ensures
        edge_sum(a, k) == edge_sum(b, k),
        forall|u: int| weight_to(a, u, k) == #[trigger] weight_to(b, u, k),
    decreases k,
{
    if k > 0 {
        lemma_edge_sum_prefix(a, b, k - 1);
        assert forall|u: int| weight_to(a, u, k) == #[trigger] weight_to(b, u, k) by {
            assert(weight_to(a, u, k - 1) == weight_to(b, u, k - 1));
        }
    }
}

/// Scratch space shared by the merges of one contraction: a stack of the
/// neighbour ids touched by one merge, an accumulator indexed by vertex id,
/// and a mark for the ids already on the stack.
#[derive(Debug)]
pub struct MergeUtil {
    pub stack: Vec<usize>,
    pub merge_proxy: Vec<usize>,
    pub seen: Vec<bool>,
}

impl MergeUtil {
    /// Both buffers sized to `n`, the accumulator all zero.
    pub open spec fn wf(&self, n: nat) -> bool {
        &&& self.stack@.len() == n
        &&& self.merge_proxy@.len() == n
        &&& self.seen@.len() == n
        &&& forall|i: int| 0 <= i < n ==> self.merge_proxy@[i] == 0
        &&& forall|i: int| 0 <= i < n ==> !self.seen@[i]
    }

    pub fn new(n: usize) -> (r: MergeUtil)
        ensures
            r.wf(n as nat),
            forall|i: int| 0 <= i < n ==> #[trigger] r.stack@[i] == 0,
    {
        MergeUtil { stack: vec![0; n], merge_proxy: vec![0; n], seen: vec![false; n] }
    }
}

} // verus!
