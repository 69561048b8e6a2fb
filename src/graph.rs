use rand::Rng;
use vstd::prelude::*;

use crate::api::DirectedEdge;
use crate::fenwick_tree::{lemma_prefix_monotone, lemma_prefix_update, prefix, FenwickTree};
use crate::quotient::{
    flow, internal, joined, labels_in, lemma_flow_join_class, lemma_flow_join_target, lemma_flow_keep,
    lemma_internal_join, lemma_relabel_concat, lemma_relabel_fixed, lemma_relabel_merge, lemma_relabel_same,
    lemma_total_to_concat, orig_ok, relabel, roots_ok, same_pick, slot_flow, flows_ok,
};
use crate::union_find::{union_post, UnionFind};
use crate::graph_util::{
    appears, edge_sum, lemma_edge_sum_monotone, lemma_edge_sum_prefix, lemma_weight_to_bounds, pairs_to_edges,
    total_of, total_to, weight_to, Edge, MergeUtil, Node,
};

verus! {

/// No two edges lead to the same vertex.
pub open spec fn distinct_others(edges: Seq<Edge>) -> bool {
    forall|a: int, b: int| 0 <= a < b < edges.len() ==> #[trigger] edges[a].other != #[trigger] edges[b].other
}

/// The entries of `out` come in the order in which their destinations first
/// appear in `input`.
pub open spec fn first_order(out: Seq<Edge>, input: Seq<Edge>) -> bool {
    forall|a: int, b: int, j: int|
        #![trigger out[a], out[b], input[j]]
        0 <= a < b < out.len() && 0 <= j < input.len() && input[j].other == out[b].other ==> appears(
            input,
            out[a].other as int,
            j,
        )
}

/// Sum of `proxy` over the vertex ids `stack[0..k]`.
pub open spec fn stack_sum(stack: Seq<usize>, proxy: Seq<usize>, k: int) -> int
    decreases k,
{
    if k <= 0 {
        0
    } else {
        stack_sum(stack, proxy, k - 1) + proxy[stack[k - 1] as int]
    }
}

proof fn lemma_stack_sum_frame(s1: Seq<usize>, p1: Seq<usize>, s2: Seq<usize>, p2: Seq<usize>, k: int)
    requires
        0 <= k,
        forall|i: int| 0 <= i < k ==> s1[i] == s2[i] && p1[s1[i] as int] == p2[s2[i] as int],
    ensures
        stack_sum(s1, p1, k) == stack_sum(s2, p2, k),
    decreases k,
{
    if k > 0 {
        lemma_stack_sum_frame(s1, p1, s2, p2, k - 1);
    }
}

proof fn lemma_stack_sum_bump(s: Seq<usize>, p: Seq<usize>, j: int, x: usize, k: int)
    requires
        0 <= j < k <= s.len(),
        forall|i: int| 0 <= i < k ==> 0 <= #[trigger] s[i] < p.len(),
        forall|a: int, b: int| 0 <= a < b < k ==> #[trigger] s[a] != #[trigger] s[b],
    ensures
        stack_sum(s, p.update(s[j] as int, x), k) == stack_sum(s, p, k) + x - p[s[j] as int],
    decreases k,
{
    if k - 1 == j {
        lemma_stack_sum_frame(s, p.update(s[j] as int, x), s, p, k - 1);
    } else {
        lemma_stack_sum_bump(s, p, j, x, k - 1);
    }
}

proof fn lemma_stack_sum_monotone(s: Seq<usize>, p: Seq<usize>, a: int, b: int)
    requires
        0 <= a <= b,
    ensures
        stack_sum(s, p, a) <= stack_sum(s, p, b),
    decreases b - a,
{
    if a < b {
        lemma_stack_sum_monotone(s, p, a, b - 1);
    }
}

/// Distinct ids below `n` number at most `n`.
proof fn lemma_distinct_bound(s: Seq<usize>, k: int, n: int)
    requires
        0 <= k <= s.len(),
        0 <= n,
        forall|i: int| 0 <= i < k ==> #[trigger] s[i] < n,
        forall|a: int, b: int| 0 <= a < b < k ==> #[trigger] s[a] != #[trigger] s[b],
    ensures
        k <= n,
{
    let t = Seq::new(k as nat, |i: int| s[i] as int);
    assert(t.no_duplicates());
    t.unique_seq_to_set();
    vstd::set_lib::lemma_int_range(0, n);
    assert(t.to_set().subset_of(vstd::set_lib::set_int_range(0, n)));
    vstd::set_lib::lemma_len_subset(t.to_set(), vstd::set_lib::set_int_range(0, n));
}

/// Adds up the edges of `edges` by destination into one node at `v`: one edge
/// per destination other than `v`, in order of first appearance, weighing the
/// total of the edges to it. Edges to `v` itself, which have become internal,
/// are dropped, and so is their weight.
pub fn merge_edges(v: usize, edges: &Vec<Edge>, merge_util: &mut MergeUtil) -> (r: Node)
    requires
        old(merge_util).wf(old(merge_util).merge_proxy@.len()),
        v < old(merge_util).merge_proxy@.len(),
        forall|k: int| 0 <= k < edges@.len() ==> #[trigger] edges@[k].other < old(merge_util).merge_proxy@.len(),
        total_of(edges@) <= usize::MAX,
    ensures
        final(merge_util).wf(old(merge_util).merge_proxy@.len()),
        r.vertex == v,
        r.wf(old(merge_util).merge_proxy@.len()),
        forall|k: int|
            0 <= k < r.edges@.len() ==> (#[trigger] r.edges@[k]).weight == total_to(
                edges@,
                r.edges@[k].other as int,
            ) && appears(edges@, r.edges@[k].other as int, edges@.len() as int),
        forall|u: int|
            0 <= u < old(merge_util).merge_proxy@.len() && u != v && appears(edges@, u, edges@.len() as int)
                ==> exists|k: int| 0 <= k < r.edges@.len() && #[trigger] r.edges@[k].other == u,
        first_order(r.edges@, edges@),
        r.weight == total_of(edges@) - total_to(edges@, v as int),
        forall|u: int| u != v ==> #[trigger] total_to(r.edges@, u) == total_to(edges@, u),
        total_to(r.edges@, v as int) == 0,
        distinct_others(edges@) && (forall|k: int| 0 <= k < edges@.len() ==> #[trigger] edges@[k].other != v)
            ==> r.edges@ == edges@,
{
    let n = merge_util.merge_proxy.len();
    let ghost es = edges@;
    let ghost mut pos: Seq<int> = Seq::empty();
    let mut size: usize = 0;
    let mut i: usize = 0;
    while i < edges.len()
        invariant
            es == edges@,
            merge_util.merge_proxy@.len() == n,
            merge_util.stack@.len() == n,
            merge_util.seen@.len() == n,
            v < n,
            forall|k: int| 0 <= k < es.len() ==> #[trigger] es[k].other < n,
            total_of(es) <= usize::MAX,
            i <= es.len(),
            size <= n,
            forall|u: int|
                0 <= u < n ==> #[trigger] merge_util.merge_proxy@[u] == if u == v {
                    0
                } else {
                    weight_to(es, u, i as int)
                },
            forall|u: int|
                0 <= u < n ==> #[trigger] merge_util.seen@[u] == (u != v && appears(es, u, i as int)),
            forall|a: int, b: int|
                0 <= a < b < size ==> #[trigger] merge_util.stack@[a] != #[trigger] merge_util.stack@[b],
            forall|a: int|
                0 <= a < size ==> #[trigger] merge_util.stack@[a] < n && merge_util.stack@[a] != v
                    && merge_util.seen@[merge_util.stack@[a] as int],
            forall|u: int|
                0 <= u < n && #[trigger] merge_util.seen@[u] ==> exists|a: int|
                    0 <= a < size && #[trigger] merge_util.stack@[a] == u,
            pos.len() == size,
            forall|a: int|
                0 <= a < size ==> 0 <= #[trigger] pos[a] < i && es[pos[a]].other == merge_util.stack@[a]
                    && !appears(es, merge_util.stack@[a] as int, pos[a]),
            forall|a: int, b: int| 0 <= a < b < size ==> #[trigger] pos[a] < #[trigger] pos[b],
            stack_sum(merge_util.stack@, merge_util.merge_proxy@, size as int) == edge_sum(es, i as int)
                - weight_to(es, v as int, i as int),
            distinct_others(es) && (forall|k: int| 0 <= k < es.len() ==> #[trigger] es[k].other != v) ==> size
                == i && forall|a: int| 0 <= a < i ==> #[trigger] merge_util.stack@[a] == es[a].other,
        decreases es.len() - i,
    {
        let e = edges[i];
        let root = e.other;
        let ghost st = merge_util.stack@;
        let ghost px = merge_util.merge_proxy@;
        proof {
            lemma_weight_to_bounds(es, root as int, i + 1);
            lemma_edge_sum_monotone(es, i + 1, es.len() as int);
        }
        proof {
            if distinct_others(es) && (forall|k: int| 0 <= k < es.len() ==> #[trigger] es[k].other != v) {
                assert(es[i as int].other != v);
                if appears(es, root as int, i as int) {
                    crate::graph_util::lemma_appears_witness(es, root as int, i as int);
                    let j = choose|j: int| 0 <= j < i && #[trigger] es[j].other == root;
                    assert(es[j].other != es[i as int].other);
                }
            }
        }
        if root != v {
            if !merge_util.seen[root] {
                proof {
                    crate::graph_util::lemma_absent_weight(es, root as int, i as int);
                    let s2 = st.take(size as int).push(root);
                    assert forall|a: int, b: int| 0 <= a < b < size + 1 implies #[trigger] s2[a]
                        != #[trigger] s2[b] by {
                        assert(s2[a] == st[a]);
                        if b == size {
                            assert(merge_util.seen@[st[a] as int]);
                        } else {
                            assert(s2[b] == st[b]);
                        }
                    }
                    assert forall|a: int| 0 <= a < size + 1 implies #[trigger] s2[a] < n by {
                        if a < size {
                            assert(s2[a] == st[a]);
                        }
                    }
                    lemma_distinct_bound(s2, size + 1, n as int);
                }
                merge_util.stack.set(size, root);
                merge_util.seen.set(root, true);
                size = size + 1;
                proof {
                    pos = pos.push(i as int);
                    lemma_stack_sum_frame(st, px, merge_util.stack@, px, size - 1);
                }
            } else {
                proof {
                    let a = choose|a: int| 0 <= a < size && #[trigger] st[a] == root;
                    lemma_stack_sum_bump(st, px, a, (px[root as int] + e.weight) as usize, size as int);
                }
            }
            let ghost st1 = merge_util.stack@;
            let ghost px1 = merge_util.merge_proxy@;
            let cur = merge_util.merge_proxy[root];
            merge_util.merge_proxy.set(root, cur + e.weight);
            proof {
                if st1.len() > 0 && size > 0 && st1[size - 1] == root && !appears(es, root as int, i as int) {
                    lemma_stack_sum_frame(st1, px1, st1, merge_util.merge_proxy@, size - 1);
                }
                assert forall|u: int|
                    0 <= u < n && #[trigger] merge_util.seen@[u] implies exists|a: int|
                    0 <= a < size && #[trigger] merge_util.stack@[a] == u by {
                    if u == root && !appears(es, root as int, i as int) {
                        assert(merge_util.stack@[size - 1] == u);
                    } else {
                        assert(appears(es, u, i as int) && u != v);
                        let a = choose|a: int| 0 <= a < (if appears(es, root as int, i as int) { size as int } else { size - 1 }) && #[trigger] st[a] == u;
                        assert(merge_util.stack@[a] == u);
                    }
                }
            }
        }
        i = i + 1;
    }
    let ghost stack0 = merge_util.stack@;
    let ghost proxy0 = merge_util.merge_proxy@;
    let ghost seen0 = merge_util.seen@;
    proof {
        lemma_weight_to_bounds(es, v as int, es.len() as int);
    }
    let mut out: Vec<Edge> = Vec::new();
    let mut node_weight: usize = 0;
    let mut k: usize = 0;
    while k < size
        invariant
            merge_util.stack@ == stack0,
            stack0.len() == n,
            merge_util.merge_proxy@.len() == n,
            merge_util.seen@.len() == n,
            forall|u: int|
                0 <= u < n && seen0[u] ==> exists|a: int| 0 <= a < size && #[trigger] stack0[a] == u,
            forall|u: int| 0 <= u < n ==> #[trigger] proxy0[u] == if u == v { 0 } else { total_to(es, u) },
            forall|u: int| 0 <= u < n ==> #[trigger] seen0[u] == (u != v && appears(es, u, es.len() as int)),
            size <= n,
            k <= size,
            forall|a: int, b: int| 0 <= a < b < size ==> #[trigger] stack0[a] != #[trigger] stack0[b],
            forall|a: int| 0 <= a < size ==> #[trigger] stack0[a] < n && stack0[a] != v && seen0[stack0[a] as int],
            forall|u: int|
                0 <= u < n ==> #[trigger] merge_util.merge_proxy@[u] == 0 || merge_util.merge_proxy@[u] == proxy0[u],
            forall|u: int| 0 <= u < n ==> #[trigger] merge_util.seen@[u] ==> seen0[u],
            forall|a: int| 0 <= a < k ==> merge_util.merge_proxy@[#[trigger] stack0[a] as int] == 0 && !merge_util.seen@[stack0[a] as int],
            forall|a: int| k <= a < size ==> merge_util.merge_proxy@[#[trigger] stack0[a] as int] == proxy0[stack0[a] as int],
            out@.len() == k,
            forall|a: int| 0 <= a < k ==> #[trigger] out@[a] == (Edge { other: stack0[a], weight: proxy0[stack0[a] as int] }),
            node_weight == stack_sum(stack0, proxy0, k as int),
            node_weight == edge_sum(out@, k as int),
            stack_sum(stack0, proxy0, size as int) <= usize::MAX,
        decreases size - k,
    {
        let vertex = merge_util.stack[k];
        let weight = merge_util.merge_proxy[vertex];
        proof {
            lemma_stack_sum_monotone(stack0, proxy0, k + 1, size as int);
        }
        let ghost prev = out@;
        node_weight = node_weight + weight;
        merge_util.merge_proxy.set(vertex, 0);
        merge_util.seen.set(vertex, false);
        out.push(Edge { other: vertex, weight });
        proof {
            crate::graph_util::lemma_edge_sum_prefix(prev, out@, k as int);
        }
        k = k + 1;
    }
    let r = Node { vertex: v, weight: node_weight, edges: out };
    proof {
        assert forall|u: int| 0 <= u < n implies merge_util.merge_proxy@[u] == 0 && !merge_util.seen@[u] by {
            if seen0[u] {
                let a = choose|a: int| 0 <= a < size && #[trigger] stack0[a] == u;
            } else if u != v {
                crate::graph_util::lemma_absent_weight(es, u, es.len() as int);
            }
        }
        let re = r.edges@;
        assert forall|u: int|
            0 <= u < n && u != v && appears(es, u, es.len() as int) implies exists|k: int|
            0 <= k < re.len() && #[trigger] re[k].other == u by {
            assert(seen0[u]);
            let a = choose|a: int| 0 <= a < size && #[trigger] stack0[a] == u;
            assert(re[a].other == u);
        }
        assert forall|a: int, b: int, j: int|
            #![trigger re[a], re[b], es[j]]
            0 <= a < b < re.len() && 0 <= j < es.len() && es[j].other == re[b].other implies appears(
            es,
            re[a].other as int,
            j,
        ) by {
            assert(re[a].other == stack0[a] && re[b].other == stack0[b]);
            assert(pos[a] < pos[b]);
            if j < pos[b] {
                crate::graph_util::lemma_appears_from(es, stack0[b] as int, j, pos[b]);
            }
            crate::graph_util::lemma_appears_from(es, stack0[a] as int, pos[a], j);
        }
        assert forall|u: int| u != v implies #[trigger] total_to(re, u) == total_to(es, u) by {
            lemma_weight_to_bounds(es, u, es.len() as int);
            if exists|k: int| 0 <= k < re.len() && #[trigger] re[k].other == u {
                let k = choose|k: int| 0 <= k < re.len() && #[trigger] re[k].other == u;
                crate::quotient::lemma_total_to_distinct(re, k, re.len() as int);
            } else {
                lemma_weight_to_none(re, u, re.len() as int);
                if 0 <= u < n && appears(es, u, es.len() as int) {
                    assert(seen0[u]);
                    let a = choose|a: int| 0 <= a < size && #[trigger] stack0[a] == u;
                    assert(re[a].other == u);
                } else {
                    if appears(es, u, es.len() as int) {
                        crate::graph_util::lemma_appears_witness(es, u, es.len() as int);
                        let j = choose|j: int| 0 <= j < es.len() && #[trigger] es[j].other == u;
                        assert(es[j].other < n);
                    }
                    crate::graph_util::lemma_absent_weight(es, u, es.len() as int);
                }
            }
        }
        assert forall|k: int| 0 <= k < re.len() implies #[trigger] re[k].other != v by {
            assert(re[k].other < n);
        }
        lemma_weight_to_none(re, v as int, re.len() as int);
        if distinct_others(es) && (forall|k: int| 0 <= k < es.len() ==> #[trigger] es[k].other != v) {
            assert forall|a: int| 0 <= a < es.len() implies #[trigger] re[a] == es[a] by {
                crate::quotient::lemma_total_to_distinct(es, a, es.len() as int);
                assert(es[a].other < n);
            }
            assert(re =~= es);
        }
    }
    r
}

/// Sum of the weights of `adj[0..k]`.
pub open spec fn nodes_weight(adj: Seq<Node>, k: int) -> int
    decreases k,
{
    if k <= 0 {
        0
    } else {
        nodes_weight(adj, k - 1) + adj[k - 1].weight
    }
}

/// Number of edges in `adj[0..k]`.
pub open spec fn nodes_edges(adj: Seq<Node>, k: int) -> int
    decreases k,
{
    if k <= 0 {
        0
    } else {
        nodes_edges(adj, k - 1) + adj[k - 1].edges@.len()
    }
}

/// The edges out of `v` among `es[0..k]`, in order, self-loops included.
pub open spec fn out_edges(es: Seq<DirectedEdge>, v: int, k: int) -> Seq<Edge>
    decreases k,
{
    if k <= 0 {
        Seq::empty()
    } else if es[k - 1].source() == v {
        out_edges(es, v, k - 1).push(Edge { other: es[k - 1].target(), weight: es[k - 1].weight() })
    } else {
        out_edges(es, v, k - 1)
    }
}

/// Total weight of `es[0..k]`.
pub open spec fn directed_total(es: Seq<DirectedEdge>, k: int) -> int
    decreases k,
{
    if k <= 0 {
        0
    } else {
        directed_total(es, k - 1) + es[k - 1].weight()
    }
}

/// Total weight of the edges out of the vertices `0..nv` among `es[0..m]`.
pub open spec fn out_total(es: Seq<DirectedEdge>, nv: int, m: int) -> int
    decreases nv,
{
    if nv <= 0 {
        0
    } else {
        out_total(es, nv - 1, m) + total_of(out_edges(es, nv - 1, m))
    }
}

proof fn lemma_total_push(s: Seq<Edge>, e: Edge)
    ensures
        total_of(s.push(e)) == total_of(s) + e.weight,
        forall|u: int| #[trigger] total_to(s.push(e), u) == total_to(s, u) + if e.other == u { e.weight as int } else { 0 },
{
    lemma_edge_sum_prefix(s, s.push(e), s.len() as int);
    assert forall|u: int| #[trigger] total_to(s.push(e), u) == total_to(s, u) + if e.other == u { e.weight as int } else { 0 } by {
        assert(weight_to(s.push(e), u, s.len() as int) == weight_to(s, u, s.len() as int));
    }
}

proof fn lemma_out_total_step(es: Seq<DirectedEdge>, nv: int, m: int)
    requires
        0 < m <= es.len(),
        0 <= nv,
    ensures
        out_total(es, nv, m) == out_total(es, nv, m - 1) + if es[m - 1].source() < nv {
            es[m - 1].weight() as int
        } else {
            0
        },
    decreases nv,
{
    if nv > 0 {
        lemma_out_total_step(es, nv - 1, m);
        let e = es[m - 1];
        if e.source() == nv - 1 {
            lemma_total_push(out_edges(es, nv - 1, m - 1), Edge { other: e.target(), weight: e.weight() });
        }
    }
}

/// With every source below `nv`, the out-edges of all vertices carry the whole weight.
proof fn lemma_out_total(es: Seq<DirectedEdge>, nv: int, m: int)
    requires
        0 <= m <= es.len(),
        0 <= nv,
        forall|k: int| 0 <= k < es.len() ==> #[trigger] es[k].source() < nv,
    ensures
        out_total(es, nv, m) == directed_total(es, m),
    decreases m,
{
    if m > 0 {
        lemma_out_total(es, nv, m - 1);
        lemma_out_total_step(es, nv, m);
    } else {
        lemma_out_total_zero(es, nv);
    }
}

proof fn lemma_out_total_zero(es: Seq<DirectedEdge>, nv: int)
    requires
        0 <= nv,
    ensures
        out_total(es, nv, 0) == 0,
    decreases nv,
{
    if nv > 0 {
        lemma_out_total_zero(es, nv - 1);
    }
}

proof fn lemma_out_total_part(es: Seq<DirectedEdge>, a: int, b: int, m: int)
    requires
        0 <= a < b,
    ensures
        out_total(es, a, m) + total_of(out_edges(es, a, m)) <= out_total(es, b, m),
    decreases b,
{
    if b - 1 > a {
        lemma_out_total_part(es, a, b - 1, m);
        lemma_weight_to_bounds(out_edges(es, b - 1, m), 0, out_edges(es, b - 1, m).len() as int);
    }
}

proof fn lemma_out_edges_targets(es: Seq<DirectedEdge>, v: int, n: int, m: int)
    requires
        0 <= m <= es.len(),
        forall|k: int| 0 <= k < es.len() ==> #[trigger] es[k].target() < n,
    ensures
        forall|k: int| 0 <= k < out_edges(es, v, m).len() ==> #[trigger] out_edges(es, v, m)[k].other < n,
    decreases m,
{
    if m > 0 {
        lemma_out_edges_targets(es, v, n, m - 1);
        let prev = out_edges(es, v, m - 1);
        assert(es[m - 1].target() < n);
        assert forall|k: int| 0 <= k < out_edges(es, v, m).len() implies #[trigger] out_edges(es, v, m)[k].other < n by {
            if k < prev.len() {
                assert(out_edges(es, v, m)[k] == prev[k]);
            }
        }
    }
}

/// A weighted multigraph over the vertices `0..n`, as adjacency lists.
#[derive(Debug)]
pub struct Graph {
    pub n: usize,
    pub weight: usize,
    pub adj: Vec<Node>,
}

impl Graph {
    /// Node `i` stands at slot `i` and is well formed, and `weight` is the
    /// nodes' total.
    pub open spec fn wf(&self) -> bool {
        &&& self.adj@.len() == self.n
        &&& forall|i: int|
            0 <= i < self.n ==> (#[trigger] self.adj@[i]).vertex == i && self.adj@[i].wf(self.n as nat)
        &&& self.weight == nodes_weight(self.adj@, self.n as int)
        &&& self.n < usize::MAX / 2
    }

    /// A graph over the given adjacency lists of `(other, weight)` pairs.
    pub fn from(adj: &Vec<Vec<(usize, usize)>>) -> (r: Graph)
        requires
            forall|i: int, k: int|
                0 <= i < adj@.len() && 0 <= k < adj@[i]@.len() ==> #[trigger] adj@[i]@[k].0 < adj@.len()
                    && adj@[i]@[k].0 != i && adj@[i]@[k].1 > 0,
            forall|i: int, a: int, b: int|
                0 <= i < adj@.len() && 0 <= a < b < adj@[i]@.len() ==> #[trigger] adj@[i]@[a].0
                    != #[trigger] adj@[i]@[b].0,
            pairs_weight(adj@, adj@.len() as int) <= usize::MAX,
            adj@.len() < usize::MAX / 2,
        ensures
            r.wf(),
            r.n == adj@.len(),
            forall|i: int| 0 <= i < r.n ==> (#[trigger] r.adj@[i]).edges@ == pairs_to_edges(adj@[i]@),
    {
        let len = adj.len();
        let mut nodes: Vec<Node> = Vec::new();
        let mut weight: usize = 0;
        let mut i: usize = 0;
        while i < len
            invariant
                len == adj@.len(),
                i <= len,
                forall|j: int, k: int|
                    0 <= j < adj@.len() && 0 <= k < adj@[j]@.len() ==> #[trigger] adj@[j]@[k].0 < adj@.len()
                        && adj@[j]@[k].0 != j && adj@[j]@[k].1 > 0,
                forall|j: int, a: int, b: int|
                    0 <= j < adj@.len() && 0 <= a < b < adj@[j]@.len() ==> #[trigger] adj@[j]@[a].0
                        != #[trigger] adj@[j]@[b].0,
                pairs_weight(adj@, len as int) <= usize::MAX,
                nodes@.len() == i,
                forall|j: int|
                    0 <= j < i ==> (#[trigger] nodes@[j]).vertex == j && nodes@[j].wf(len as nat)
                        && nodes@[j].edges@ == pairs_to_edges(adj@[j]@),
                weight == nodes_weight(nodes@, i as int),
                weight == pairs_weight(adj@, i as int),
            decreases len - i,
        {
            proof {
                lemma_pairs_weight_monotone(adj@, i + 1, len as int);
                lemma_weight_to_bounds(pairs_to_edges(adj@[i as int]@), 0, adj@[i as int]@.len() as int);
            }
            let node = Node::from(i, adj[i].as_slice());
            let ghost prev = nodes@;
            weight = weight + node.weight;
            nodes.push(node);
            proof {
                lemma_nodes_prefix(prev, nodes@, i as int);
            }
            i = i + 1;
        }
        Graph { n: len, weight, adj: nodes }
    }

    /// The graph of a list of directed edges over the vertices `0..n`: the
    /// weights of parallel edges are added up, self-loops are dropped, and each
    /// edge counts for its source only. Each vertex lists its neighbours in
    /// order of their first edge.
    pub fn from_directed_edges(n: usize, directed_edges: &Vec<DirectedEdge>) -> (r: Graph)
        requires
            forall|k: int|
                0 <= k < directed_edges@.len() ==> #[trigger] directed_edges@[k].source() < n
                    && directed_edges@[k].target() < n,
            directed_total(directed_edges@, directed_edges@.len() as int) <= usize::MAX,
            n < usize::MAX / 2,
        ensures
            r.wf(),
            r.n == n,
            forall|i: int, k: int|
                0 <= i < n && 0 <= k < r.adj@[i].edges@.len() ==> #[trigger] r.adj@[i].edges@[k].weight
                    == total_to(
                    out_edges(directed_edges@, i, directed_edges@.len() as int),
                    r.adj@[i].edges@[k].other as int,
                ),
            forall|i: int, u: int|
                0 <= i < n && 0 <= u < n && u != i && appears(
                    out_edges(directed_edges@, i, directed_edges@.len() as int),
                    u,
                    out_edges(directed_edges@, i, directed_edges@.len() as int).len() as int,
                ) ==> exists|k: int|
                    0 <= k < r.adj@[i].edges@.len() && #[trigger] r.adj@[i].edges@[k].other == u,
            forall|i: int| 0 <= i < n ==> #[trigger] first_order(r.adj@[i].edges@, out_edges(directed_edges@, i, directed_edges@.len() as int)),
    {
        let ghost es = directed_edges@;
        let m = directed_edges.len();
        let mut buckets: Vec<Vec<Edge>> = Vec::new();
        let mut v: usize = 0;
        while v < n
            invariant
                v <= n,
                buckets@.len() == v,
                forall|j: int| 0 <= j < v ==> (#[trigger] buckets@[j])@ == out_edges(es, j, 0),
            decreases n - v,
        {
            buckets.push(Vec::new());
            v = v + 1;
        }
        let mut i: usize = 0;
        while i < m
            invariant
                es == directed_edges@,
                m == es.len(),
                i <= m,
                buckets@.len() == n,
                forall|k: int| 0 <= k < es.len() ==> #[trigger] es[k].source() < n && es[k].target() < n,
                forall|j: int| 0 <= j < n ==> (#[trigger] buckets@[j])@ == out_edges(es, j, i as int),
            decreases m - i,
        {
            let (s, t, w) = match directed_edges[i] {
                DirectedEdge::Unweighted(s, t) => (s, t, 1usize),
                DirectedEdge::Weighted(s, t, w) => (s, t, w),
            };
            proof {
                let e = es[i as int];
                assert(s == e.source() && t == e.target() && w == e.weight());
                assert(e.source() < n);
            }
            buckets[s].push(Edge { other: t, weight: w });
            i = i + 1;
        }
        proof {
            lemma_out_total(es, n as int, m as int);
        }
        let mut merge_util = MergeUtil::new(n);
        let mut nodes: Vec<Node> = Vec::new();
        let mut weight: usize = 0;
        let mut v: usize = 0;
        while v < n
            invariant
                es == directed_edges@,
                m == es.len(),
                v <= n,
                buckets@.len() == n,
                forall|k: int| 0 <= k < es.len() ==> #[trigger] es[k].source() < n && es[k].target() < n,
                forall|j: int| 0 <= j < n ==> (#[trigger] buckets@[j])@ == out_edges(es, j, m as int),
                out_total(es, n as int, m as int) <= usize::MAX,
                merge_util.wf(n as nat),
                nodes@.len() == v,
                forall|j: int|
                    0 <= j < v ==> (#[trigger] nodes@[j]).vertex == j && nodes@[j].wf(n as nat),
                forall|j: int, k: int|
                    0 <= j < v && 0 <= k < nodes@[j].edges@.len() ==> #[trigger] nodes@[j].edges@[k].weight
                        == total_to(out_edges(es, j, m as int), nodes@[j].edges@[k].other as int),
                forall|j: int, u: int|
                    0 <= j < v && 0 <= u < n && u != j && appears(out_edges(es, j, m as int), u, out_edges(es, j, m as int).len() as int)
                        ==> exists|k: int|
                        0 <= k < nodes@[j].edges@.len() && #[trigger] nodes@[j].edges@[k].other == u,
                forall|j: int| 0 <= j < v ==> #[trigger] first_order(nodes@[j].edges@, out_edges(es, j, m as int)),
                weight == nodes_weight(nodes@, v as int),
                weight <= out_total(es, v as int, m as int),
            decreases n - v,
        {
            proof {
                lemma_out_total_part(es, v as int, n as int, m as int);
                assert forall|k: int| 0 <= k < es.len() implies #[trigger] es[k].target() < n by {
                    assert(es[k].source() < n);
                }
                lemma_out_edges_targets(es, v as int, n as int, m as int);
                lemma_weight_to_bounds(out_edges(es, v as int, m as int), v as int, out_edges(es, v as int, m as int).len() as int);
            }
            let node = merge_edges(v, &buckets[v], &mut merge_util);
            let ghost gnode = node;
            let ghost prev = nodes@;
            weight = weight + node.weight;
            nodes.push(node);
            proof {
                lemma_nodes_prefix(prev, nodes@, v as int);
                assert forall|j: int| 0 <= j < v + 1 implies #[trigger] first_order(nodes@[j].edges@, out_edges(es, j, m as int)) by {
                    if j < v {
                        assert(nodes@[j] == prev[j]);
                    } else {
                        assert(nodes@[j] == gnode);
                        assert(buckets@[j]@ == out_edges(es, j, m as int));
                    }
                }
                assert forall|j: int, u: int|
                    0 <= j < v + 1 && 0 <= u < n && u != j && appears(out_edges(es, j, m as int), u, out_edges(es, j, m as int).len() as int)
                        implies exists|k: int|
                        0 <= k < nodes@[j].edges@.len() && #[trigger] nodes@[j].edges@[k].other == u by {
                    if j < v {
                        assert(nodes@[j] == prev[j]);
                    } else {
                        assert(nodes@[j] == gnode);
                        assert(buckets@[j]@ == out_edges(es, j, m as int));
                    }
                }
            }
            v = v + 1;
        }
        Graph { n, weight, adj: nodes }
    }

    pub fn num_vertices(&self) -> (r: usize)
        ensures
            r == self.n,
    {
        self.n
    }

    /// Number of adjacency entries over all nodes, saturating.
    pub fn num_edges(&self) -> (r: usize)
        requires
            self.wf(),
        ensures
            r == if nodes_edges(self.adj@, self.n as int) > usize::MAX {
                usize::MAX as int
            } else {
                nodes_edges(self.adj@, self.n as int)
            },
    {
        let mut total: usize = 0;
        let mut i: usize = 0;
        while i < self.n
            invariant
                self.wf(),
                i <= self.n,
                total == if nodes_edges(self.adj@, i as int) > usize::MAX {
                    usize::MAX as int
                } else {
                    nodes_edges(self.adj@, i as int)
                },
            decreases self.n - i,
        {
            proof {
                lemma_nodes_edges_nonneg(self.adj@, i as int);
            }
            total = total.saturating_add(self.adj[i].edges.len());
            i = i + 1;
        }
        total
    }

    /// Sum of the nodes' weights.
    pub fn weight(&self) -> (r: usize)
        requires
            self.wf(),
        ensures
            r == nodes_weight(self.adj@, self.n as int),
    {
        self.weight
    }

    pub fn adjacency_list(&self) -> (r: &Vec<Node>)
        ensures
            r == &self.adj,
    {
        &self.adj
    }
}

/// Sum over `adj[0..k]` of the weights of the pair lists.
pub open spec fn pairs_weight(adj: Seq<Vec<(usize, usize)>>, k: int) -> int
    decreases k,
{
    if k <= 0 {
        0
    } else {
        pairs_weight(adj, k - 1) + total_of(pairs_to_edges(adj[k - 1]@))
    }
}

proof fn lemma_pairs_weight_monotone(adj: Seq<Vec<(usize, usize)>>, a: int, b: int)
    requires
        0 <= a <= b <= adj.len(),
    ensures
        pairs_weight(adj, a) <= pairs_weight(adj, b),
    decreases b - a,
{
    if a < b {
        lemma_pairs_weight_monotone(adj, a, b - 1);
        lemma_weight_to_bounds(pairs_to_edges(adj[b - 1]@), 0, adj[b - 1]@.len() as int);
    }
}

proof fn lemma_nodes_prefix(a: Seq<Node>, b: Seq<Node>, k: int)
    requires
        0 <= k <= a.len(),
        k <= b.len(),
        forall|i: int| 0 <= i < k ==> a[i] == b[i],
    ensures
        nodes_weight(a, k) == nodes_weight(b, k),
        nodes_edges(a, k) == nodes_edges(b, k),
    decreases k,
{
    if k > 0 {
        lemma_nodes_prefix(a, b, k - 1);
    }
}

proof fn lemma_nodes_edges_nonneg(adj: Seq<Node>, k: int)
    ensures
        nodes_edges(adj, k) >= 0,
    decreases k,
{
    if k > 0 {
        lemma_nodes_edges_nonneg(adj, k - 1);
    }
}

pub proof fn lemma_relabel_total(edges: Seq<Edge>, labels: Seq<int>, k: int)
    requires
        0 <= k <= edges.len(),
    ensures
        edge_sum(relabel(edges, labels), k) == edge_sum(edges, k),
    decreases k,
{
    if k > 0 {
        lemma_relabel_total(edges, labels, k - 1);
    }
}

/// No edge towards `u` means no weight towards it.
pub proof fn lemma_weight_to_none(edges: Seq<Edge>, u: int, k: int)
    requires
        0 <= k <= edges.len(),
        forall|j: int| 0 <= j < k ==> #[trigger] edges[j].other != u,
    ensures
        weight_to(edges, u, k) == 0,
    decreases k,
{
    if k > 0 {
        lemma_weight_to_none(edges, u, k - 1);
    }
}

/// Two distinct keys weigh together no more than the total.
proof fn lemma_prefix_two(w: Seq<usize>, a: int, b: int, k: int)
    requires
        0 <= a < k <= w.len(),
        0 <= b < k,
        a != b,
    ensures
        prefix(w, k) >= w[a] + w[b],
    decreases k,
{
    if k - 1 != a && k - 1 != b {
        lemma_prefix_two(w, a, b, k - 1);
    } else {
        let c = if k - 1 == a { b } else { a };
        lemma_prefix_one(w, c, k - 1);
        lemma_prefix_monotone(w, 0, c);
    }
}

proof fn lemma_prefix_one(w: Seq<usize>, a: int, k: int)
    requires
        0 <= a < k <= w.len(),
    ensures
        prefix(w, k) >= w[a] + prefix(w, a),
    decreases k,
{
    if k - 1 != a {
        lemma_prefix_one(w, a, k - 1);
    }
    lemma_prefix_monotone(w, a + 1, k);
}

/// Weight of a slot of the working adjacency: zero once merged away.
pub open spec fn slot_weight(slot: Option<Node>) -> usize {
    match slot {
        Some(node) => node.weight,
        None => 0,
    }
}

/// A live slot holds node `i`, its weight is its edges' total, and each edge
/// leads to a vertex below `n` outside `i`'s set.
pub open spec fn slot_ok(slot: Option<Node>, i: int, roots: Seq<int>, n: int) -> bool {
    match slot {
        Some(node) => {
            &&& node.vertex == i
            &&& node.weight == total_of(node.edges@)
            &&& forall|k: int|
                0 <= k < node.edges@.len() ==> #[trigger] node.edges@[k].other < n && roots[node.edges@[k].other as int]
                    != i
        },
        None => true,
    }
}

/// The state of a contraction in progress over `n` vertices: a slot is live
/// exactly at a representative, and the tree holds the live slots' weights.
pub open spec fn contraction_ok(adj: Seq<Option<Node>>, uf: UnionFind, fw: FenwickTree, n: int) -> bool {
    &&& adj.len() == n
    &&& uf.wf()
    &&& uf.n() == n
    &&& fw.wf()
    &&& fw.len() == n
    &&& forall|i: int| 0 <= i < n ==> #[trigger] fw.weights@[i] == slot_weight(adj[i])
    &&& forall|i: int| 0 <= i < n ==> (#[trigger] adj[i] is Some) == (uf.root_of(i) == i)
    &&& forall|i: int| 0 <= i < n ==> #[trigger] slot_ok(adj[i], i, uf.roots@, n)
}

proof fn lemma_slot_labels(slot: Option<Node>, i: int, r: Seq<int>, n: int)
    requires
        slot is Some,
        slot_ok(slot, i, r, n),
        roots_ok(r, n),
    ensures
        labels_in((slot->Some_0).edges@, r, n),
        forall|k: int|
            0 <= k < (slot->Some_0).edges@.len() ==> r[(#[trigger] (slot->Some_0).edges@[k]).other as int] != i,
{
    let es = (slot->Some_0).edges@;
    assert forall|k: int| 0 <= k < es.len() implies 0 <= #[trigger] es[k].other < n && 0 <= r[es[k].other as int]
        < n && n <= usize::MAX by {
        assert(es[k].other < n);
    }
    assert forall|k: int| 0 <= k < es.len() implies r[(#[trigger] es[k]).other as int] != i by {
        assert(es[k].other < n);
    }
}

proof fn lemma_join_pick(es: Seq<Edge>, r1: Seq<int>, r2: Seq<int>, v: int, w: int, x: int, u: int, n: int)
    requires
        labels_in(es, r1, n),
        joined(r1, r2, v, w, x, n),
    ensures
        forall|j: int|
            0 <= j < es.len() ==> (r2[#[trigger] es[j].other as int] == x) == (r1[es[j].other as int] == v
                || r1[es[j].other as int] == w),
        u != v && u != w ==> same_pick(es, r2, u, r1, u),
{
    assert forall|j: int| 0 <= j < es.len() implies (r2[#[trigger] es[j].other as int] == x) == (r1[es[j].other as int] == v
        || r1[es[j].other as int] == w) by {
        assert(es[j].other < n);
        assert(r2[es[j].other as int] == if r1[es[j].other as int] == v || r1[es[j].other as int] == w { x } else { r1[es[j].other as int] });
    }
    if u != v && u != w {
        assert forall|j: int| 0 <= j < es.len() implies (r2[#[trigger] es[j].other as int] == u) == (r1[es[j].other as int] == u) by {
            assert(es[j].other < n);
            assert(r2[es[j].other as int] == if r1[es[j].other as int] == v || r1[es[j].other as int] == w { x } else { r1[es[j].other as int] });
        }
    }
}

/// One merge keeps the flows right, and the weight it drops is exactly the
/// input weight between the two merged classes.
proof fn lemma_merge_flows(
    orig: Seq<Node>,
    adj0: Seq<Option<Node>>,
    adj1: Seq<Option<Node>>,
    r1: Seq<int>,
    r2: Seq<int>,
    v: int,
    w: int,
    x: int,
    node: Node,
    n: int,
)
    requires
        orig_ok(orig, n),
        roots_ok(r1, n),
        roots_ok(r2, n),
        joined(r1, r2, v, w, x, n),
        0 <= v < n,
        0 <= w < n,
        adj0.len() == n,
        forall|i: int| 0 <= i < n ==> (#[trigger] adj0[i] is Some) == (r1[i] == i),
        forall|i: int| 0 <= i < n ==> #[trigger] slot_ok(adj0[i], i, r1, n),
        flows_ok(adj0, orig, r1, n),
        adj1 == adj0.update(v, None).update(w, None).update(x, Some(node)),
        forall|k: int|
            0 <= k < node.edges@.len() ==> #[trigger] node.edges@[k].other < n && r2[node.edges@[k].other as int]
                == node.edges@[k].other,
        forall|u: int|
            u != x ==> #[trigger] total_to(node.edges@, u) == total_to(
                relabel((adj0[v]->Some_0).edges@ + (adj0[w]->Some_0).edges@, r2),
                u,
            ),
    ensures
        flows_ok(adj1, orig, r2, n),
        internal(orig, r2, n) == internal(orig, r1, n) + slot_flow(adj0[v], r1, w) + slot_flow(adj0[w], r1, v),
        total_to(relabel((adj0[v]->Some_0).edges@ + (adj0[w]->Some_0).edges@, r2), x) == slot_flow(adj0[v], r1, w)
            + slot_flow(adj0[w], r1, v),
{
    assert(adj0[v] is Some && adj0[w] is Some);
    assert(slot_ok(adj0[v], v, r1, n));
    assert(slot_ok(adj0[w], w, r1, n));
    let e1 = (adj0[v]->Some_0).edges@;
    let e2 = (adj0[w]->Some_0).edges@;
    lemma_slot_labels(adj0[v], v, r1, n);
    lemma_slot_labels(adj0[w], w, r1, n);
    lemma_labels_move(e1, r1, r2, n);
    lemma_labels_move(e2, r1, r2, n);
    // the weight dropped
    lemma_relabel_concat(e1, e2, r2);
    lemma_total_to_concat(relabel(e1, r2), relabel(e2, r2), x);
    lemma_join_pick(e1, r1, r2, v, w, x, v, n);
    lemma_join_pick(e2, r1, r2, v, w, x, v, n);
    lemma_relabel_merge(e1, r1, v, w, r2, x, n, e1.len() as int);
    lemma_relabel_merge(e2, r1, v, w, r2, x, n, e2.len() as int);
    lemma_weight_to_none(relabel(e1, r1), v, e1.len() as int);
    lemma_weight_to_none(relabel(e2, r1), w, e2.len() as int);
    // the edges that turned internal
    lemma_internal_join(orig, r1, r2, v, w, x, n, n);
    assert(slot_flow(adj0[v], r1, w) == flow(orig, r1, v, w, n));
    assert(slot_flow(adj0[w], r1, v) == flow(orig, r1, w, v, n));
    // the flows after the merge
    assert forall|i: int, u: int|
        0 <= i < n && 0 <= u < n && r2[i] == i && r2[u] == u && u != i implies #[trigger] slot_flow(
        adj1[i],
        r2,
        u,
    ) == flow(orig, r2, i, u, n) by {
        assert(r2[i] == if r1[i] == v || r1[i] == w { x } else { r1[i] });
        assert(r2[u] == if r1[u] == v || r1[u] == w { x } else { r1[u] });
        if i == x {
            // u is a class untouched by the merge
            assert(u != v && u != w);
            assert(r1[u] == u);
            lemma_relabel_fixed(node.edges@, r2);
            lemma_total_to_concat(relabel(e1, r2), relabel(e2, r2), u);
            lemma_join_pick(e1, r1, r2, v, w, x, u, n);
            lemma_join_pick(e2, r1, r2, v, w, x, u, n);
            lemma_relabel_same(e1, r2, u, r1, u, n);
            lemma_relabel_same(e2, r2, u, r1, u, n);
            assert(slot_flow(adj0[v], r1, u) == flow(orig, r1, v, u, n));
            assert(slot_flow(adj0[w], r1, u) == flow(orig, r1, w, u, n));
            lemma_flow_join_class(orig, r1, r2, v, w, x, u, n, n);
        } else {
            assert(i != v && i != w);
            assert(r1[i] == i);
            assert(adj1[i] == adj0[i]);
            assert(adj0[i] is Some);
            assert(slot_ok(adj0[i], i, r1, n));
            lemma_slot_labels(adj0[i], i, r1, n);
            let ez = (adj0[i]->Some_0).edges@;
            lemma_labels_move(ez, r1, r2, n);
            if u == x {
                lemma_join_pick(ez, r1, r2, v, w, x, u, n);
                lemma_relabel_merge(ez, r1, v, w, r2, x, n, ez.len() as int);
                assert(slot_flow(adj0[i], r1, v) == flow(orig, r1, i, v, n));
                assert(slot_flow(adj0[i], r1, w) == flow(orig, r1, i, w, n));
                lemma_flow_join_target(orig, r1, r2, v, w, x, i, n, n);
            } else {
                assert(u != v && u != w);
                assert(r1[u] == u);
                lemma_join_pick(ez, r1, r2, v, w, x, u, n);
                lemma_relabel_same(ez, r2, u, r1, u, n);
                assert(slot_flow(adj0[i], r1, u) == flow(orig, r1, i, u, n));
                lemma_flow_keep(orig, r1, r2, v, w, x, i, u, n, n);
            }
        }
    }
}

proof fn lemma_labels_move(es: Seq<Edge>, r1: Seq<int>, r2: Seq<int>, n: int)
    requires
        labels_in(es, r1, n),
        roots_ok(r2, n),
    ensures
        labels_in(es, r2, n),
{
    assert forall|k: int| 0 <= k < es.len() implies 0 <= #[trigger] es[k].other < n && 0 <= r2[es[k].other as int]
        < n && n <= usize::MAX by {
        assert(0 <= es[k].other < n);
    }
}

/// Two distinct live slots, given that there are two.
fn two_live(adj: &Vec<Option<Node>>, Ghost(a): Ghost<int>, Ghost(b): Ghost<int>) -> (res: (usize, usize))
    requires
        0 <= a < adj@.len(),
        0 <= b < adj@.len(),
        a != b,
        adj@[a] is Some,
        adj@[b] is Some,
    ensures
        res.0 < adj@.len(),
        res.1 < adj@.len(),
        res.0 != res.1,
        adj@[res.0 as int] is Some,
        adj@[res.1 as int] is Some,
{
    let len = adj.len();
    let mut v: usize = 0;
    while adj[v].is_none()
        invariant
            len == adj@.len(),
            v <= a,
            v <= b,
            0 <= a < adj@.len(),
            0 <= b < adj@.len(),
            adj@[a] is Some,
            adj@[b] is Some,
        decreases adj@.len() - v,
    {
        v = v + 1;
    }
    let ghost c = if a != v { a } else { b };
    let mut w: usize = 0;
    while w == v || adj[w].is_none()
        invariant
            len == adj@.len(),
            w <= c,
            c != v,
            0 <= c < adj@.len(),
            v < adj@.len(),
            adj@[c] is Some,
        decreases adj@.len() - w,
    {
        w = w + 1;
    }
    (v, w)
}

/// Relies on rand's `thread_rng().gen_range(0..bound)`: a value in `0..bound`.
#[verifier::external_body]
fn random_below(bound: usize) -> (r: usize)
    requires
        bound > 0,
    ensures
        r < bound,
{
    rand::thread_rng().gen_range(0..bound)
}

impl Graph {
    /// The edge that owns the unit `r` of the weight mass: the vertex `v` whose
    /// slice of the prefix sums holds `r`, then the first edge of `v` at which
    /// the running sum reaches `r`. Returns `v` and the representative of that
    /// edge's other end.
    pub fn pick_edge(
        r: usize,
        adj: &Vec<Option<Node>>,
        vertex_map: &mut UnionFind,
        vertex_weights_map: &FenwickTree,
    ) -> (res: (usize, usize))
        requires
            contraction_ok(adj@, *old(vertex_map), *vertex_weights_map, adj@.len() as int),
            adj@.len() >= 1,
            1 <= r <= vertex_weights_map.total(),
        ensures
            contraction_ok(adj@, *final(vertex_map), *vertex_weights_map, adj@.len() as int),
            final(vertex_map).roots@ == old(vertex_map).roots@,
            final(vertex_map).count == old(vertex_map).count,
            res.0 < adj@.len(),
            res.1 < adj@.len(),
            res.0 != res.1,
            adj@[res.0 as int] is Some,
            adj@[res.1 as int] is Some,
            prefix(vertex_weights_map.weights@, res.0 as int) < r <= prefix(
                vertex_weights_map.weights@,
                res.0 + 1,
            ),
            exists|k: int|
                0 <= k < (adj@[res.0 as int]->Some_0).edges@.len() && prefix(
                    vertex_weights_map.weights@,
                    res.0 as int,
                ) + #[trigger] edge_sum((adj@[res.0 as int]->Some_0).edges@, k) < r <= prefix(
                    vertex_weights_map.weights@,
                    res.0 as int,
                ) + edge_sum((adj@[res.0 as int]->Some_0).edges@, k + 1) && res.1 == old(
                    vertex_map,
                ).root_of((adj@[res.0 as int]->Some_0).edges@[k].other as int),
    {
        let ghost n = adj@.len() as int;
        let ghost ws = vertex_weights_map.weights@;
        let (v, rw0) = vertex_weights_map.lower_entry(r);
        proof {
            assert(fw_slot(ws, adj@, v as int));
        }
        let n1 = adj[v].as_ref().unwrap();
        let ghost edges = n1.edges@;
        proof {
            assert(slot_ok(adj@[v as int], v as int, vertex_map.roots@, n));
            assert(prefix(ws, v + 1) == prefix(ws, v as int) + ws[v as int]);
            if edges.len() == 0 {
                assert(total_of(edges) == 0);
            }
        }
        proof {
            lemma_prefix_monotone(ws, v + 1, n);
            lemma_edge_sum_monotone(edges, 1, edges.len() as int);
            assert(edge_sum(edges, 0) == 0);
        }
        let len = n1.edges.len();
        let mut k: usize = 0;
        let mut rw = rw0 + n1.edges[0].weight;
        while rw < r
            invariant
                len == edges.len(),
                edges == n1.edges@,
                n1.weight == total_of(edges),
                rw0 == prefix(ws, v as int),
                rw0 + n1.weight == prefix(ws, v + 1),
                r <= prefix(ws, v + 1),
                prefix(ws, v as int) < r,
                k < edges.len(),
                rw == rw0 + edge_sum(edges, k + 1),
                rw0 + edge_sum(edges, k as int) < r,
                prefix(ws, v + 1) <= usize::MAX,
            decreases edges.len() - k,
        {
            proof {
                assert(k + 1 < edges.len());
                lemma_edge_sum_monotone(edges, k + 2, edges.len() as int);
            }
            k = k + 1;
            rw = rw + n1.edges[k].weight;
        }
        let other = n1.edges[k].other;
        let w = vertex_map.root(other);
        proof {
            assert(edges[k as int].other < n);
            assert(vertex_map.roots@[w as int] == w);
        }
        (v, w)
    }

    /// Maps the edges of `first` and `second` to the current representatives
    /// of their ends and adds them up into one node at `v` (see `merge_edges`).
    pub fn vertex_condenser(
        v: usize,
        first: &Vec<Edge>,
        second: &Vec<Edge>,
        merge_util: &mut MergeUtil,
        vertex_map: &mut UnionFind,
    ) -> (r: Node)
        requires
            old(vertex_map).wf(),
            old(merge_util).wf(old(vertex_map).n()),
            v < old(vertex_map).n(),
            forall|k: int| 0 <= k < first@.len() ==> #[trigger] first@[k].other < old(vertex_map).n(),
            forall|k: int| 0 <= k < second@.len() ==> #[trigger] second@[k].other < old(vertex_map).n(),
            total_of(first@) + total_of(second@) <= usize::MAX,
        ensures
            final(vertex_map).wf(),
            final(vertex_map).n() == old(vertex_map).n(),
            final(vertex_map).roots@ == old(vertex_map).roots@,
            final(vertex_map).count == old(vertex_map).count,
            final(merge_util).wf(old(vertex_map).n()),
            r.vertex == v,
            r.wf(old(vertex_map).n()),
            forall|k: int|
                0 <= k < r.edges@.len() ==> (#[trigger] r.edges@[k]).weight == total_to(
                    relabel(first@ + second@, old(vertex_map).roots@),
                    r.edges@[k].other as int,
                ) && old(vertex_map).root_of(r.edges@[k].other as int) == r.edges@[k].other,
            forall|u: int|
                0 <= u < old(vertex_map).n() && u != v && #[trigger] appears(
                    relabel(first@ + second@, old(vertex_map).roots@),
                    u,
                    (first@.len() + second@.len()) as int,
                ) ==> exists|k: int| 0 <= k < r.edges@.len() && #[trigger] r.edges@[k].other == u,
            first_order(r.edges@, relabel(first@ + second@, old(vertex_map).roots@)),
            r.weight == total_of(first@) + total_of(second@) - total_to(
                relabel(first@ + second@, old(vertex_map).roots@),
                v as int,
            ),
            forall|u: int|
                u != v ==> #[trigger] total_to(r.edges@, u) == total_to(
                    relabel(first@ + second@, old(vertex_map).roots@),
                    u,
                ),
    {
        let nv = vertex_map.ids.len();
        let ghost all = first@ + second@;
        let ghost roots = vertex_map.roots@;
        let ghost mapped_spec = relabel(all, roots);
        let mut mapped: Vec<Edge> = Vec::new();
        let mut k: usize = 0;
        while k < first.len()
            invariant
                vertex_map.wf(),
                vertex_map.roots@ == roots,
                vertex_map.count == old(vertex_map).count,
                vertex_map.n() == old(vertex_map).n(),
                all == first@ + second@,
                mapped_spec == relabel(all, roots),
                forall|j: int| 0 <= j < first@.len() ==> #[trigger] first@[j].other < old(vertex_map).n(),
                k <= first@.len(),
                mapped@ == mapped_spec.take(k as int),
            decreases first@.len() - k,
        {
            let e = first[k];
            let root = vertex_map.root(e.other);
            mapped.push(Edge { other: root, weight: e.weight });
            k = k + 1;
            proof {
                assert(all[k - 1] == first@[k - 1]);
                assert(mapped@ =~= mapped_spec.take(k as int));
            }
        }
        let mut k: usize = 0;
        while k < second.len()
            invariant
                vertex_map.wf(),
                vertex_map.roots@ == roots,
                vertex_map.count == old(vertex_map).count,
                vertex_map.n() == old(vertex_map).n(),
                all == first@ + second@,
                mapped_spec == relabel(all, roots),
                forall|j: int| 0 <= j < second@.len() ==> #[trigger] second@[j].other < old(vertex_map).n(),
                k <= second@.len(),
                mapped@ == mapped_spec.take(first@.len() + k),
            decreases second@.len() - k,
        {
            let e = second[k];
            let root = vertex_map.root(e.other);
            mapped.push(Edge { other: root, weight: e.weight });
            k = k + 1;
            proof {
                assert(all[first@.len() + k - 1] == second@[k - 1]);
                assert(mapped@ =~= mapped_spec.take(first@.len() + k));
            }
        }
        proof {
            assert(mapped@ =~= mapped_spec);
            lemma_relabel_total(all, roots, all.len() as int);
            lemma_concat_total(first@, second@);
            assert forall|j: int| 0 <= j < mapped@.len() implies #[trigger] mapped@[j].other < vertex_map.n()
                && roots[mapped@[j].other as int] == mapped@[j].other by {
                if j < first@.len() {
                    assert(all[j] == first@[j]);
                } else {
                    assert(all[j] == second@[j - first@.len()]);
                }
                let o = all[j].other as int;
                assert(o < vertex_map.n());
                assert(0 <= roots[o] < vertex_map.n() && roots[roots[o]] == roots[o]);
                assert(mapped_spec[j] == Edge { other: roots[o] as usize, weight: all[j].weight });
                let ro = roots[o];
                assert(ro < nv);
                assert(mapped@[j] == mapped_spec[j]);
                assert(mapped@[j].other as int == ro);
                assert(roots[ro] == ro);
            }
        }
        let r = merge_edges(v, &mapped, merge_util);
        proof {
            assert forall|k: int| 0 <= k < r.edges@.len() implies roots[#[trigger] r.edges@[k].other as int]
                == r.edges@[k].other by {
                crate::graph_util::lemma_appears_witness(mapped@, r.edges@[k].other as int, mapped@.len() as int);
            }
        }
        r
    }

    /// Contracts random edges, each drawn with probability proportional to its
    /// weight, until `t` vertices remain; once no weight is left between the
    /// sets, any two sets merge. The result has one vertex per remaining set,
    /// numbered in the order of the sets' representatives.
    #[verifier::rlimit(60)]
    pub fn contract(&self, t: usize) -> (r: Graph)
        requires
            self.wf(),
            1 <= t <= self.n,
        ensures
            r.wf(),
            r.n == t,
            r.weight <= self.weight,
            exists|part: Seq<int>| quotient_of(&r, self, part),
            t == self.n ==> r.weight == self.weight && forall|k: int|
                0 <= k < r.n ==> (#[trigger] r.adj@[k]).edges@ == self.adj@[k].edges@,
    {
        let ghost orig = self.adj@;
        let n = self.n;
        let mut weight = self.weight;
        let mut adj: Vec<Option<Node>> = Vec::new();
        let mut weights: Vec<usize> = Vec::new();
        let mut i: usize = 0;
        while i < n
            invariant
                self.wf(),
                n == self.n,
                i <= n,
                adj@.len() == i,
                weights@.len() == i,
                forall|j: int|
                    0 <= j < i ==> (#[trigger] adj@[j]) is Some && same_node(adj@[j]->Some_0, self.adj@[j]),
                forall|j: int| 0 <= j < i ==> #[trigger] weights@[j] == self.adj@[j].weight,
                prefix(weights@, i as int) == nodes_weight(self.adj@, i as int),
            decreases n - i,
        {
            let node = copy_node(&self.adj[i]);
            let ghost prev = weights@;
            weights.push(node.weight);
            adj.push(Some(node));
            proof {
                lemma_prefix_same(prev, weights@, i as int);
            }
            i = i + 1;
        }
        let mut merge_util = MergeUtil::new(n);
        let mut vertex_map = UnionFind::new(n);
        let mut vertex_weights_map = FenwickTree::from(weights.as_slice());
        proof {
            assert forall|j: int| 0 <= j < n implies #[trigger] slot_ok(adj@[j], j, vertex_map.roots@, n as int) by {
                let node = self.adj@[j];
                assert(node.wf(n as nat));
                assert forall|k: int| 0 <= k < node.edges@.len() implies #[trigger] node.edges@[k].other < n
                    && vertex_map.roots@[node.edges@[k].other as int] != j by {
                    assert(node.edges@[k].other < n);
                    assert(vertex_map.root_of(node.edges@[k].other as int) == node.edges@[k].other);
                }
            }
            let roots = vertex_map.roots@;
            assert forall|a: int| 0 <= a < n implies #[trigger] roots[a] == a by {
                assert(vertex_map.root_of(a) == a);
            }
            assert forall|i: int, u: int|
                0 <= i < n && 0 <= u < n && roots[i] == i && roots[u] == u && u != i implies #[trigger] slot_flow(
                adj@[i],
                roots,
                u,
            ) == flow(orig, roots, i, u, n as int) by {
                assert(roots[i] == i);
                crate::quotient::lemma_flow_identity(orig, roots, i, u, n as int);
                assert(same_node(adj@[i]->Some_0, self.adj@[i]));
            }
            assert forall|a: int| 0 <= a < n implies (#[trigger] orig[a]).wf(n as nat) && orig[a].vertex == a by {
                assert(self.adj@[a].vertex == a);
            }
            crate::quotient::lemma_internal_identity(orig, roots, n as int, n as int);
        }
        proof {
            assert forall|j: int| 0 <= j < n implies #[trigger] vertex_map.roots@[j] == j by {
                assert(vertex_map.root_of(j) == j);
            }
            assert forall|j: int| 0 <= j < n implies (#[trigger] adj@[j]) is Some && (adj@[j]->Some_0).edges@
                == self.adj@[j].edges@ by {
                assert(same_node(adj@[j]->Some_0, self.adj@[j]));
            }
        }
        let mut remaining: usize = n - t;
        while remaining > 0
            invariant
                contraction_ok(adj@, vertex_map, vertex_weights_map, n as int),
                merge_util.wf(n as nat),
                n < usize::MAX / 2,
                n >= 1,
                vertex_map.count == t + remaining,
                t >= 1,
                weight == vertex_weights_map.total(),
                weight <= self.weight,
                orig == self.adj@,
                orig_ok(orig, n as int),
                flows_ok(adj@, orig, vertex_map.roots@, n as int),
                weight == self.weight - internal(orig, vertex_map.roots@, n as int),
                remaining <= n - t,
                remaining == n - t ==> weight == self.weight,
                remaining == n - t ==> forall|j: int| 0 <= j < n ==> #[trigger] vertex_map.roots@[j] == j,
                remaining == n - t ==> forall|j: int|
                    0 <= j < n ==> (#[trigger] adj@[j]) is Some && (adj@[j]->Some_0).edges@ == self.adj@[j].edges@,
            decreases remaining,
        {
            let ghost uf0 = vertex_map;
            let ghost ws0 = vertex_weights_map.weights@;
            let (v, w) = if weight > 0 {
                let r = random_below(weight) + 1;
                Self::pick_edge(r, &adj, &mut vertex_map, &vertex_weights_map)
            } else {
                // no edge is left between the sets: any two of them merge
                let ghost roots = vertex_map.roots@;
                proof {
                    crate::union_find::lemma_count_roots_onto(roots, n as int, 0);
                    crate::union_find::lemma_count_roots_onto(roots, n as int, 1);
                }
                let ghost a = choose|j: int|
                    0 <= j < n && roots[j] == j && #[trigger] crate::union_find::count_roots(roots, j) == 0;
                let ghost b = choose|j: int|
                    0 <= j < n && roots[j] == j && #[trigger] crate::union_find::count_roots(roots, j) == 1;
                proof {
                    assert(vertex_map.root_of(a) == a);
                    assert(vertex_map.root_of(b) == b);
                }
                two_live(&adj, Ghost(a), Ghost(b))
            };
            let ghost uf1 = vertex_map;
            let x = vertex_map.union(v, w);
            let ghost uf2 = vertex_map;
            assert(x == v || x == w) by {
                reveal(union_post);
            }
            let n1 = adj[v].as_ref().unwrap();
            let n2 = adj[w].as_ref().unwrap();
            proof {
                assert(fw_slot(ws0, adj@, v as int));
                assert(fw_slot(ws0, adj@, w as int));
                lemma_prefix_two(ws0, v as int, w as int, n as int);
                assert(slot_ok(adj@[v as int], v as int, uf1.roots@, n as int));
                assert(slot_ok(adj@[w as int], w as int, uf1.roots@, n as int));
                assert(uf1.root_of(v as int) == v);
                assert(uf1.root_of(w as int) == w);
            }
            let node = Self::vertex_condenser(x, &n1.edges, &n2.edges, &mut merge_util, &mut vertex_map);
            let w1 = n1.weight;
            let w2 = n2.weight;
            proof {
                lemma_weight_to_bounds(
                    relabel(n1.edges@ + n2.edges@, uf2.roots@),
                    x as int,
                    (n1.edges@ + n2.edges@).len() as int,
                );
                lemma_relabel_total(n1.edges@ + n2.edges@, uf2.roots@, (n1.edges@ + n2.edges@).len() as int);
            }
            weight = weight - w1 - w2 + node.weight;
            vertex_weights_map.update(v, w1, true);
            vertex_weights_map.update(w, w2, true);
            proof {
                lemma_prefix_update(ws0, v as int, 0, n as int);
                lemma_prefix_update(ws0.update(v as int, 0), w as int, 0, n as int);
            }
            let ghost ws2 = vertex_weights_map.weights@;
            vertex_weights_map.update(x, node.weight, false);
            proof {
                lemma_prefix_update(ws2, x as int, node.weight, n as int);
            }
            let ghost gnode = node;
            let ghost adj0 = adj@;
            adj.set(v, None);
            adj.set(w, None);
            adj.set(x, Some(node));
            remaining = remaining - 1;
            proof {
                let nn = n as int;
                let roots = vertex_map.roots@;
                reveal(union_post);
                assert(roots_ok(uf1.roots@, nn));
                assert(roots_ok(roots, nn));
                assert(uf1.root_of(v as int) == v);
                assert(uf1.root_of(w as int) == w);
                assert forall|a: int| 0 <= a < nn implies #[trigger] roots[a] == if uf1.roots@[a] == v
                    || uf1.roots@[a] == w {
                    x as int
                } else {
                    uf1.roots@[a]
                } by {
                    assert(uf2.root_of(a) == if uf1.root_of(a) == v || uf1.root_of(a) == w {
                        x as int
                    } else {
                        uf1.root_of(a)
                    });
                }
                assert(joined(uf1.roots@, roots, v as int, w as int, x as int, nn));
                assert(adj@ == adj0.update(v as int, None).update(w as int, None).update(x as int, Some(gnode)));
                lemma_merge_flows(orig, adj0, adj@, uf1.roots@, roots, v as int, w as int, x as int, gnode, nn);
                assert forall|i: int| 0 <= i < nn implies #[trigger] vertex_weights_map.weights@[i]
                    == slot_weight(adj@[i]) by {
                    if i != v && i != w {
                        assert(fw_slot(ws0, adj0, i));
                    }
                }
                assert forall|i: int| 0 <= i < nn implies (#[trigger] adj@[i] is Some) == (
                vertex_map.root_of(i) == i) by {
                    if i != v && i != w {
                        assert((adj0[i] is Some) == (uf1.root_of(i) == i));
                        assert(uf2.root_of(i) == (if uf1.root_of(i) == v || uf1.root_of(i) == w {
                            x as int
                        } else {
                            uf1.root_of(i)
                        }));
                    } else {
                        assert(uf2.root_of(i) == x);
                    }
                }
                assert forall|i: int| 0 <= i < nn implies #[trigger] slot_ok(adj@[i], i, roots, nn) by {
                    if i == x {
                        assert forall|k: int| 0 <= k < gnode.edges@.len() implies #[trigger] gnode.edges@[k].other
                            < nn && roots[gnode.edges@[k].other as int] != i by {
                            assert(gnode.edges@[k].other < nn);
                        }
                    } else if i != v && i != w {
                        assert(slot_ok(adj0[i], i, uf1.roots@, nn));
                        if adj0[i] is Some {
                            let nd = adj0[i]->Some_0;
                            assert(uf1.root_of(i) == i);
                            assert forall|k: int| 0 <= k < nd.edges@.len() implies #[trigger] nd.edges@[k].other
                                < nn && roots[nd.edges@[k].other as int] != i by {
                                assert(nd.edges@[k].other < nn);
                                assert(uf2.root_of(nd.edges@[k].other as int) == (if uf1.root_of(
                                    nd.edges@[k].other as int,
                                ) == v || uf1.root_of(nd.edges@[k].other as int) == w {
                                    x as int
                                } else {
                                    uf1.root_of(nd.edges@[k].other as int)
                                }));
                            }
                        }
                    }
                }
            }
        }
        let labels = vertex_map.condense(&mut merge_util);
        let ghost roots = vertex_map.roots@;
        let ghost ws = vertex_weights_map.weights@;
        let ghost count = vertex_map.count;
        let ghost lab = labels@.map_values(|l: usize| l as int);
        let mut nodes: Vec<Node> = Vec::new();
        let mut total: usize = 0;
        let mut i: usize = 0;
        while i < n
            invariant
                i <= n,
                adj@.len() == n,
                vertex_map.wf(),
                vertex_map.n() == n,
                roots == vertex_map.roots@,
                count == vertex_map.count,
                labels@.len() == n,
                lab == labels@.map_values(|l: usize| l as int),
                forall|j: int|
                    0 <= j < n ==> #[trigger] labels@[j] == crate::union_find::count_roots(roots, roots[j]),
                forall|j: int| 0 <= j < n ==> #[trigger] labels@[j] < count,
                forall|a: int, b: int|
                    0 <= a < n && 0 <= b < n ==> (labels@[a] == labels@[b]) == (roots[a] == roots[b]),
                forall|j: int| 0 <= j < n ==> #[trigger] ws[j] == slot_weight(adj@[j]),
                forall|j: int| 0 <= j < n ==> (#[trigger] adj@[j] is Some) == (roots[j] == j),
                forall|j: int| 0 <= j < n ==> #[trigger] slot_ok(adj@[j], j, roots, n as int),
                prefix(ws, n as int) <= usize::MAX,
                ws.len() == n,
                merge_util.wf(n as nat),
                nodes@.len() == crate::union_find::count_roots(roots, i as int),
                forall|k: int|
                    0 <= k < nodes@.len() ==> (#[trigger] nodes@[k]).vertex == k && nodes@[k].wf(count as nat),
                total == nodes_weight(nodes@, nodes@.len() as int),
                total == prefix(ws, i as int),
                orig == self.adj@,
                orig_ok(orig, n as int),
                roots_ok(roots, n as int),
                prefix(ws, n as int) == self.weight - internal(orig, roots, n as int),
                flows_ok(adj@, orig, roots, n as int),
                count == crate::union_find::count_roots(roots, n as int),
                lab.len() == n,
                forall|k: int, k2: int|
                    0 <= k < nodes@.len() && 0 <= k2 < count && k != k2 ==> #[trigger] total_to(
                        nodes@[k].edges@,
                        k2,
                    ) == flow(orig, lab, k, k2, n as int),
                t == n ==> forall|j: int| 0 <= j < n ==> #[trigger] roots[j] == j,
                t == n ==> forall|j: int|
                    0 <= j < n ==> (#[trigger] adj@[j]) is Some && (adj@[j]->Some_0).edges@ == orig[j].edges@,
                t == n ==> forall|k: int| 0 <= k < nodes@.len() ==> (#[trigger] nodes@[k]).edges@ == orig[k].edges@,
                t == n ==> prefix(ws, n as int) == self.weight,
            decreases n - i,
        {
            proof {
                lemma_prefix_monotone(ws, i + 1, n as int);
                crate::union_find::lemma_count_roots_bound(roots, n as int);
            }
            if adj[i].is_some() {
                let node = adj[i].as_ref().unwrap();
                let x = labels[i];
                let mut mapped: Vec<Edge> = Vec::new();
                let mut k: usize = 0;
                proof {
                    assert(slot_ok(adj@[i as int], i as int, roots, n as int));
                    assert(fw_slot(ws, adj@, i as int));
                }
                while k < node.edges.len()
                    invariant
                        k <= node.edges@.len(),
                        labels@.len() == n,
                        lab == labels@.map_values(|l: usize| l as int),
                        slot_ok(Some(*node), i as int, roots, n as int),
                        mapped@ == relabel(node.edges@, lab).take(k as int),
                    decreases node.edges@.len() - k,
                {
                    let e = node.edges[k];
                    proof {
                        assert(node.edges@[k as int].other < n);
                    }
                    mapped.push(Edge { other: labels[e.other], weight: e.weight });
                    k = k + 1;
                    proof {
                        assert(mapped@ =~= relabel(node.edges@, lab).take(k as int));
                    }
                }
                proof {
                    let es = node.edges@;
                    assert(mapped@ =~= relabel(es, lab));
                    lemma_relabel_total(es, lab, es.len() as int);
                    assert(roots[i as int] == i);
                    assert forall|j: int| 0 <= j < mapped@.len() implies #[trigger] mapped@[j].other
                        < count && mapped@[j].other != x by {
                        assert(es[j].other < n);
                        assert(roots[es[j].other as int] != i);
                        assert(labels@[es[j].other as int] != labels@[i as int]);
                    }
                    lemma_weight_to_none(mapped@, x as int, mapped@.len() as int);
                    assert(x < count);
                }
                proof {
                    if t == n {
                        crate::union_find::lemma_count_roots_identity(roots, i as int);
                        assert(labels@[i as int] == crate::union_find::count_roots(roots, roots[i as int]));
                        assert(x == i);
                        let es = node.edges@;
                        assert(es == orig[i as int].edges@);
                        assert forall|k: int| 0 <= k < es.len() implies lab[#[trigger] es[k].other as int] == es[k].other by {
                            assert(orig[i as int].wf(n as nat));
                            assert(es[k].other < n);
                            crate::union_find::lemma_count_roots_identity(roots, es[k].other as int);
                            assert(labels@[es[k].other as int] == crate::union_find::count_roots(roots, roots[es[k].other as int]));
                        }
                        crate::quotient::lemma_relabel_fixed(es, lab);
                        assert(orig[i as int].wf(n as nat));
                        assert forall|k: int| 0 <= k < es.len() implies #[trigger] es[k].other != x by {
                            assert(es[k].other != orig[i as int].vertex);
                        }
                    }
                }
                let merged = merge_edges(x, &mapped, &mut merge_util);
                proof {
                    let es = node.edges@;
                    assert forall|k2: int| 0 <= k2 < count && k2 != x implies #[trigger] total_to(
                        merged.edges@,
                        k2,
                    ) == flow(orig, lab, x as int, k2, n as int) by {
                        crate::union_find::lemma_count_roots_onto(roots, n as int, k2);
                        let j = choose|j: int|
                            0 <= j < n && roots[j] == j && #[trigger] crate::union_find::count_roots(roots, j) == k2;
                        assert(labels@[j] == crate::union_find::count_roots(roots, roots[j]));
                        assert(lab[j] == k2);
                        assert forall|e: int| 0 <= e < es.len() implies (lab[#[trigger] es[e].other as int] == k2) == (
                        roots[es[e].other as int] == j) by {
                            assert(es[e].other < n);
                        }
                        assert forall|e: int| 0 <= e < es.len() implies 0 <= #[trigger] es[e].other < n && 0 <= lab[es[e].other as int]
                            < n && n <= usize::MAX by {
                            assert(es[e].other < n);
                        }
                        assert forall|e: int| 0 <= e < es.len() implies 0 <= #[trigger] es[e].other < n && 0 <= roots[es[e].other as int]
                            < n && n <= usize::MAX by {
                            assert(es[e].other < n);
                        }
                        crate::quotient::lemma_relabel_same(es, lab, k2, roots, j, n as int);
                        assert(j != i);
                        assert(slot_flow(adj@[i as int], roots, j) == flow(orig, roots, i as int, j, n as int));
                        assert forall|a: int| 0 <= a < n implies (#[trigger] roots[a] == i) == (lab[a] == x) by {}
                        assert forall|a: int| 0 <= a < n implies same_pick((#[trigger] orig[a]).edges@, roots, j, lab, k2) by {
                            assert(orig[a].wf(n as nat));
                            assert forall|e: int| 0 <= e < orig[a].edges@.len() implies (roots[#[trigger] orig[a].edges@[e].other as int] == j)
                                == (lab[orig[a].edges@[e].other as int] == k2) by {
                                assert(orig[a].edges@[e].other < n);
                            }
                        }
                        assert forall|a: int| 0 <= a < n implies labels_in((#[trigger] orig[a]).edges@, roots, n as int)
                            && labels_in(orig[a].edges@, lab, n as int) by {
                            assert(orig[a].wf(n as nat));
                            assert forall|e: int| 0 <= e < orig[a].edges@.len() implies 0 <= #[trigger] orig[a].edges@[e].other < n
                                && 0 <= roots[orig[a].edges@[e].other as int] < n && 0 <= lab[orig[a].edges@[e].other as int] < n by {
                                assert(orig[a].edges@[e].other < n);
                            }
                        }
                        crate::quotient::lemma_flow_same(orig, roots, i as int, j, lab, x as int, k2, n as int, n as int);
                    }
                    assert forall|k: int| 0 <= k < merged.edges@.len() implies #[trigger] merged.edges@[k].other < count by {
                        crate::graph_util::lemma_appears_witness(mapped@, merged.edges@[k].other as int, mapped@.len() as int);
                    }
                    assert(x == crate::union_find::count_roots(roots, i as int));
                }
                let ghost prev = nodes@;
                total = total + merged.weight;
                nodes.push(merged);
                proof {
                    lemma_nodes_prefix(prev, nodes@, prev.len() as int);
                }
            } else {
                proof {
                    assert(fw_slot(ws, adj@, i as int));
                }
            }
            i = i + 1;
        }
        proof {
            crate::union_find::lemma_count_roots_bound(roots, n as int);
        }
        let size = nodes.len();
        let r = Graph { n: size, weight: total, adj: nodes };
        proof {
            assert forall|a: int| 0 <= a < n implies 0 <= #[trigger] lab[a] < n && 0 <= roots[a] < n by {
                assert(labels@[a] < count);
            }
            crate::quotient::lemma_internal_alike(orig, lab, roots, n as int, n as int);
            assert forall|a: int| 0 <= a < n implies 0 <= #[trigger] lab[a] < r.n by {
                assert(labels@[a] < count);
            }
            assert forall|k: int| 0 <= k < r.n implies #[trigger] has_member(lab, self.n as int, k) by {
                crate::union_find::lemma_count_roots_onto(roots, n as int, k);
                let j = choose|j: int|
                    0 <= j < n && roots[j] == j && #[trigger] crate::union_find::count_roots(roots, j) == k;
                assert(labels@[j] == crate::union_find::count_roots(roots, roots[j]));
                assert(lab[j] == k);
            }
            assert(quotient_of(&r, self, lab));
        }
        r
    }

    /// Contracts down to two vertices; the result's weight is a candidate cut.
    pub fn contract_full(&self) -> (r: Graph)
        requires
            self.wf(),
            self.n >= 2,
        ensures
            r.wf(),
            r.n == 2,
            r.weight <= self.weight,
            exists|part: Seq<int>| quotient_of(&r, self, part),
    {
        self.contract(2)
    }
}

/// `r` is `g` with each class of `part` merged into one vertex: the classes
/// are the vertices of `r`, the weight from one class to another is that of
/// the input edges between them, and the weight inside the classes is gone.
pub open spec fn quotient_of(r: &Graph, g: &Graph, part: Seq<int>) -> bool {
    &&& part.len() == g.n
    &&& forall|a: int| 0 <= a < g.n ==> 0 <= #[trigger] part[a] < r.n
    &&& forall|k: int| 0 <= k < r.n ==> #[trigger] has_member(part, g.n as int, k)
    &&& r.weight == g.weight - internal(g.adj@, part, g.n as int)
    &&& forall|k: int, k2: int|
        0 <= k < r.n && 0 <= k2 < r.n && k != k2 ==> #[trigger] total_to(r.adj@[k].edges@, k2) == flow(
            g.adj@,
            part,
            k,
            k2,
            g.n as int,
        )
}

/// Some vertex below `n` is in the class `k`.
pub open spec fn has_member(part: Seq<int>, n: int, k: int) -> bool {
    exists|a: int| 0 <= a < n && #[trigger] part[a] == k
}

/// `c` is the weight of the edges of `g` that cross a split of its vertices
/// into the `m >= 2` nonempty classes of `part`.
pub open spec fn is_cut_weight(g: &Graph, part: Seq<int>, m: int, c: int) -> bool {
    &&& part.len() == g.n
    &&& 2 <= m <= g.n
    &&& forall|a: int| 0 <= a < g.n ==> 0 <= #[trigger] part[a] < m
    &&& forall|k: int| 0 <= k < m ==> #[trigger] has_member(part, g.n as int, k)
    &&& c == g.weight - internal(g.adj@, part, g.n as int)
}

/// Inside the classes lies no more than the whole weight.
pub proof fn lemma_internal_bounds(orig: Seq<Node>, p: Seq<int>, k: int)
    requires
        0 <= k <= orig.len(),
        forall|a: int| 0 <= a < orig.len() ==> (#[trigger] orig[a]).weight == total_of(orig[a].edges@),
    ensures
        0 <= internal(orig, p, k) <= nodes_weight(orig, k),
    decreases k,
{
    if k > 0 {
        lemma_internal_bounds(orig, p, k - 1);
        let es = orig[k - 1].edges@;
        lemma_weight_to_bounds(relabel(es, p), p[k - 1], es.len() as int);
        lemma_relabel_total(es, p, es.len() as int);
    }
}

/// `c` is the weight crossing a split of `g` into two nonempty classes, or
/// zero crossing a split into more.
pub open spec fn cut_result(g: &Graph, c: int) -> bool {
    exists|part: Seq<int>, m: int| is_cut_weight(g, part, m, c) && (m == 2 || c == 0)
}

/// Equal fields, edge lists equal as sequences.
pub open spec fn same_node(a: Node, b: Node) -> bool {
    a.vertex == b.vertex && a.weight == b.weight && a.edges@ == b.edges@
}

/// The tree's weight at `i` is the slot's.
spec fn fw_slot(ws: Seq<usize>, adj: Seq<Option<Node>>, i: int) -> bool {
    ws[i] == slot_weight(adj[i])
}

proof fn lemma_prefix_same(a: Seq<usize>, b: Seq<usize>, k: int)
    requires
        0 <= k <= a.len(),
        k < b.len(),
        forall|i: int| 0 <= i < k ==> a[i] == b[i],
    ensures
        prefix(b, k + 1) == prefix(a, k) + b[k],
    decreases k,
{
    assert(prefix(b, 0) == 0);
    if k > 0 {
        lemma_prefix_same(a, b, k - 1);
        assert(prefix(b, k) == prefix(a, k));
    }
}

proof fn lemma_concat_total(a: Seq<Edge>, b: Seq<Edge>)
    ensures
        total_of(a + b) == total_of(a) + total_of(b),
    decreases b.len(),
{
    if b.len() == 0 {
        assert(a + b =~= a);
    } else {
        let b0 = b.drop_last();
        lemma_concat_total(a, b0);
        assert(a + b =~= (a + b0).push(b.last()));
        assert(b =~= b0.push(b.last()));
        lemma_total_push(a + b0, b.last());
        lemma_total_push(b0, b.last());
    }
}

/// A copy of `node`.
fn copy_node(node: &Node) -> (r: Node)
    ensures
        r.vertex == node.vertex,
        r.weight == node.weight,
        r.edges@ == node.edges@,
{
    let mut edges: Vec<Edge> = Vec::new();
    let mut k: usize = 0;
    while k < node.edges.len()
        invariant
            k <= node.edges@.len(),
            edges@ == node.edges@.take(k as int),
        decreases node.edges@.len() - k,
    {
        edges.push(node.edges[k]);
        k = k + 1;
        proof {
            assert(edges@ =~= node.edges@.take(k as int));
        }
    }
    proof {
        assert(edges@ =~= node.edges@);
    }
    Node { vertex: node.vertex, weight: node.weight, edges }
}

} // verus!
