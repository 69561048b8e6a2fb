use vstd::prelude::*;

use crate::graph_util::{total_of, total_to, weight_to, Edge, Node};

verus! {

/// Each edge relabelled through `labels`, weights kept.
pub open spec fn relabel(edges: Seq<Edge>, labels: Seq<int>) -> Seq<Edge> {
    Seq::new(
        edges.len(),
        |k: int| Edge { other: labels[edges[k].other as int] as usize, weight: edges[k].weight },
    )
}

/// Weight of the edges of `orig[0..k]` that leave the class `i` of `part`
/// for the class `u`.
pub open spec fn flow(orig: Seq<Node>, part: Seq<int>, i: int, u: int, k: int) -> int
    decreases k,
{
    if k <= 0 {
        0
    } else {
        flow(orig, part, i, u, k - 1) + if part[k - 1] == i {
            total_to(relabel(orig[k - 1].edges@, part), u)
        } else {
            0
        }
    }
}

/// Weight of the edges of `orig[0..k]` that stay inside a class of `part`.
pub open spec fn internal(orig: Seq<Node>, part: Seq<int>, k: int) -> int
    decreases k,
{
    if k <= 0 {
        0
    } else {
        internal(orig, part, k - 1) + total_to(relabel(orig[k - 1].edges@, part), part[k - 1])
    }
}

/// Relabelling by `l1` towards `u1` and by `l2` towards `u2` pick the same edges.
pub open spec fn same_pick(edges: Seq<Edge>, l1: Seq<int>, u1: int, l2: Seq<int>, u2: int) -> bool {
    forall|k: int|
        0 <= k < edges.len() ==> (l1[#[trigger] edges[k].other as int] == u1) == (l2[edges[k].other as int]
            == u2)
}

/// Labels that are ids of vertices below `n` survive the cast.
pub open spec fn labels_in(edges: Seq<Edge>, l: Seq<int>, n: int) -> bool {
    forall|k: int|
        0 <= k < edges.len() ==> 0 <= #[trigger] edges[k].other < n && 0 <= l[edges[k].other as int] < n
            && n <= usize::MAX
}

pub proof fn lemma_relabel_same(edges: Seq<Edge>, l1: Seq<int>, u1: int, l2: Seq<int>, u2: int, n: int)
    requires
        same_pick(edges, l1, u1, l2, u2),
        labels_in(edges, l1, n),
        labels_in(edges, l2, n),
    ensures
        total_to(relabel(edges, l1), u1) == total_to(relabel(edges, l2), u2),
{
    lemma_relabel_same_upto(edges, l1, u1, l2, u2, n, edges.len() as int);
}

proof fn lemma_relabel_same_upto(edges: Seq<Edge>, l1: Seq<int>, u1: int, l2: Seq<int>, u2: int, n: int, k: int)
    requires
        0 <= k <= edges.len(),
        same_pick(edges, l1, u1, l2, u2),
        labels_in(edges, l1, n),
        labels_in(edges, l2, n),
    ensures
        weight_to(relabel(edges, l1), u1, k) == weight_to(relabel(edges, l2), u2, k),
    decreases k,
{
    if k > 0 {
        lemma_relabel_same_upto(edges, l1, u1, l2, u2, n, k - 1);
        let o = edges[k - 1].other as int;
        assert(0 <= l1[o] < n && 0 <= l2[o] < n);
        assert((l1[o] == u1) == (l2[o] == u2));
    }
}

/// Two classes `v` and `w` of `l1` become the one class `x` of `l2`.
pub proof fn lemma_relabel_merge(edges: Seq<Edge>, l1: Seq<int>, v: int, w: int, l2: Seq<int>, x: int, n: int, k: int)
    requires
        0 <= k <= edges.len(),
        v != w,
        forall|j: int|
            0 <= j < edges.len() ==> (l2[#[trigger] edges[j].other as int] == x) == (l1[edges[j].other as int]
                == v || l1[edges[j].other as int] == w),
        labels_in(edges, l1, n),
        labels_in(edges, l2, n),
    ensures
        weight_to(relabel(edges, l2), x, k) == weight_to(relabel(edges, l1), v, k) + weight_to(
            relabel(edges, l1),
            w,
            k,
        ),
    decreases k,
{
    if k > 0 {
        lemma_relabel_merge(edges, l1, v, w, l2, x, n, k - 1);
        let o = edges[k - 1].other as int;
        assert(0 <= l1[o] < n && 0 <= l2[o] < n);
    }
}

/// With every edge's other end fixed by `l`, relabelling changes nothing.
pub proof fn lemma_relabel_fixed(edges: Seq<Edge>, l: Seq<int>)
    requires
        forall|k: int| 0 <= k < edges.len() ==> l[#[trigger] edges[k].other as int] == edges[k].other,
    ensures
        relabel(edges, l) == edges,
{
    assert(relabel(edges, l) =~= edges);
}

pub proof fn lemma_relabel_concat(a: Seq<Edge>, b: Seq<Edge>, l: Seq<int>)
    ensures
        relabel(a + b, l) == relabel(a, l) + relabel(b, l),
{
    assert(relabel(a + b, l) =~= relabel(a, l) + relabel(b, l));
}

pub proof fn lemma_total_to_concat(a: Seq<Edge>, b: Seq<Edge>, u: int)
    ensures
        total_to(a + b, u) == total_to(a, u) + total_to(b, u),
    decreases b.len(),
{
    if b.len() == 0 {
        assert(a + b =~= a);
    } else {
        let b0 = b.drop_last();
        lemma_total_to_concat(a, b0, u);
        assert(a + b =~= (a + b0).push(b.last()));
        assert(b =~= b0.push(b.last()));
        lemma_total_to_push(a + b0, b.last(), u);
        lemma_total_to_push(b0, b.last(), u);
    }
}

proof fn lemma_total_to_push(s: Seq<Edge>, e: Edge, u: int)
    ensures
        total_to(s.push(e), u) == total_to(s, u) + if e.other == u { e.weight as int } else { 0 },
{
    crate::graph_util::lemma_edge_sum_prefix(s, s.push(e), s.len() as int);
    assert(weight_to(s.push(e), u, s.len() as int) == weight_to(s, u, s.len() as int));
}

/// In a list without repeated ends, the weight towards `u` is that of its
/// one entry to `u`.
pub proof fn lemma_total_to_distinct(edges: Seq<Edge>, j: int, k: int)
    requires
        0 <= j < k <= edges.len(),
        forall|a: int, b: int| 0 <= a < b < edges.len() ==> #[trigger] edges[a].other != #[trigger] edges[b].other,
    ensures
        weight_to(edges, edges[j].other as int, k) == edges[j].weight,
    decreases k,
{
    if k - 1 > j {
        lemma_total_to_distinct(edges, j, k - 1);
    } else {
        crate::graph::lemma_weight_to_none(edges, edges[j].other as int, j);
    }
}

/// At the start every vertex is its own class.
pub proof fn lemma_flow_identity(orig: Seq<Node>, part: Seq<int>, i: int, u: int, k: int)
    requires
        0 <= i,
        0 <= k,
        forall|a: int| 0 <= a < k ==> #[trigger] part[a] == a,
    ensures
        flow(orig, part, i, u, k) == if i < k { total_to(relabel(orig[i].edges@, part), u) } else { 0 },
    decreases k,
{
    if k > 0 {
        lemma_flow_identity(orig, part, i, u, k - 1);
    }
}

pub proof fn lemma_internal_identity(orig: Seq<Node>, part: Seq<int>, n: int, k: int)
    requires
        0 <= k <= n,
        n <= orig.len(),
        n <= usize::MAX,
        part.len() == n,
        forall|a: int| 0 <= a < n ==> #[trigger] part[a] == a,
        forall|a: int| 0 <= a < n ==> (#[trigger] orig[a]).wf(n as nat) && orig[a].vertex == a,
    ensures
        internal(orig, part, k) == 0,
    decreases k,
{
    if k > 0 {
        lemma_internal_identity(orig, part, n, k - 1);
        let es = orig[k - 1].edges@;
        assert forall|j: int| 0 <= j < es.len() implies #[trigger] relabel(es, part)[j].other != k - 1 by {
            assert(es[j].other < n);
            assert(es[j].other != orig[k - 1].vertex);
        }
        crate::graph::lemma_weight_to_none(relabel(es, part), k - 1, es.len() as int);
    }
}

/// Classes and edge ends that are alike under two labellings give the same flow.
pub proof fn lemma_flow_same(orig: Seq<Node>, p1: Seq<int>, i1: int, u1: int, p2: Seq<int>, i2: int, u2: int, n: int, k: int)
    requires
        0 <= k <= n,
        n <= orig.len(),
        forall|a: int| 0 <= a < k ==> (#[trigger] p1[a] == i1) == (p2[a] == i2),
        forall|a: int| 0 <= a < k ==> same_pick((#[trigger] orig[a]).edges@, p1, u1, p2, u2),
        forall|a: int| 0 <= a < k ==> labels_in((#[trigger] orig[a]).edges@, p1, n) && labels_in(orig[a].edges@, p2, n),
    ensures
        flow(orig, p1, i1, u1, k) == flow(orig, p2, i2, u2, k),
    decreases k,
{
    if k > 0 {
        lemma_flow_same(orig, p1, i1, u1, p2, i2, u2, n, k - 1);
        assert(same_pick(orig[k - 1].edges@, p1, u1, p2, u2));
        assert(labels_in(orig[k - 1].edges@, p1, n));
        lemma_relabel_same(orig[k - 1].edges@, p1, u1, p2, u2, n);
    }
}


/// `part` sends every vertex below `n` to a class representative below `n`.
pub open spec fn roots_ok(part: Seq<int>, n: int) -> bool {
    &&& part.len() == n
    &&& n <= usize::MAX
    &&& forall|a: int| 0 <= a < n ==> 0 <= #[trigger] part[a] < n && part[part[a]] == part[a]
}

/// The weight of a live slot's edges towards the class `u`.
pub open spec fn slot_flow(slot: Option<Node>, part: Seq<int>, u: int) -> int {
    match slot {
        Some(node) => total_to(relabel(node.edges@, part), u),
        None => 0,
    }
}

/// Every live slot carries towards each other class exactly the weight of
/// the input edges between the two classes.
pub open spec fn flows_ok(adj: Seq<Option<Node>>, orig: Seq<Node>, part: Seq<int>, n: int) -> bool {
    forall|i: int, u: int|
        0 <= i < n && 0 <= u < n && part[i] == i && part[u] == u && u != i ==> #[trigger] slot_flow(
            adj[i],
            part,
            u,
        ) == flow(orig, part, i, u, n)
}

/// The input graph over `n` vertices.
pub open spec fn orig_ok(orig: Seq<Node>, n: int) -> bool {
    &&& orig.len() == n
    &&& forall|a: int| 0 <= a < n ==> (#[trigger] orig[a]).wf(n as nat) && orig[a].vertex == a
}

/// `r2` joins the classes `v` and `w` of `r1` into `x`.
pub open spec fn joined(r1: Seq<int>, r2: Seq<int>, v: int, w: int, x: int, n: int) -> bool {
    &&& v != w
    &&& x == v || x == w
    &&& r1[v] == v
    &&& r1[w] == w
    &&& forall|a: int|
        0 <= a < n ==> #[trigger] r2[a] == if r1[a] == v || r1[a] == w {
            x
        } else {
            r1[a]
        }
}

proof fn lemma_orig_labels(orig: Seq<Node>, part: Seq<int>, n: int, a: int)
    requires
        orig_ok(orig, n),
        roots_ok(part, n),
        0 <= a < n,
    ensures
        labels_in(orig[a].edges@, part, n),
{
    assert(orig[a].wf(n as nat));
    assert forall|k: int| 0 <= k < orig[a].edges@.len() implies 0 <= #[trigger] orig[a].edges@[k].other < n
        && 0 <= part[orig[a].edges@[k].other as int] < n && n <= usize::MAX by {
        assert(orig[a].edges@[k].other < n);
    }
}

pub proof fn lemma_flow_join_class(orig: Seq<Node>, r1: Seq<int>, r2: Seq<int>, v: int, w: int, x: int, u: int, n: int, k: int)
    requires
        0 <= k <= n,
        orig_ok(orig, n),
        roots_ok(r1, n),
        roots_ok(r2, n),
        joined(r1, r2, v, w, x, n),
        u != v && u != w,
    ensures
        flow(orig, r2, x, u, k) == flow(orig, r1, v, u, k) + flow(orig, r1, w, u, k),
    decreases k,
{
    if k > 0 {
        lemma_flow_join_class(orig, r1, r2, v, w, x, u, n, k - 1);
        let a = k - 1;
        let es = orig[a].edges@;
        lemma_orig_labels(orig, r1, n, a);
        lemma_orig_labels(orig, r2, n, a);
        assert forall|j: int| 0 <= j < es.len() implies (r2[#[trigger] es[j].other as int] == u) == (r1[es[j].other as int] == u) by {
            assert(es[j].other < n);
            assert(r2[es[j].other as int] == if r1[es[j].other as int] == v || r1[es[j].other as int] == w { x } else { r1[es[j].other as int] });
        }
        lemma_relabel_same(es, r2, u, r1, u, n);
        assert(r2[a] == if r1[a] == v || r1[a] == w { x } else { r1[a] });
    }
}

pub proof fn lemma_flow_join_target(orig: Seq<Node>, r1: Seq<int>, r2: Seq<int>, v: int, w: int, x: int, i: int, n: int, k: int)
    requires
        0 <= k <= n,
        orig_ok(orig, n),
        roots_ok(r1, n),
        roots_ok(r2, n),
        joined(r1, r2, v, w, x, n),
        i != v && i != w,
    ensures
        flow(orig, r2, i, x, k) == flow(orig, r1, i, v, k) + flow(orig, r1, i, w, k),
    decreases k,
{
    if k > 0 {
        lemma_flow_join_target(orig, r1, r2, v, w, x, i, n, k - 1);
        let a = k - 1;
        let es = orig[a].edges@;
        lemma_orig_labels(orig, r1, n, a);
        lemma_orig_labels(orig, r2, n, a);
        assert forall|j: int| 0 <= j < es.len() implies (r2[#[trigger] es[j].other as int] == x) == (r1[es[j].other as int] == v
            || r1[es[j].other as int] == w) by {
            assert(es[j].other < n);
            assert(r2[es[j].other as int] == if r1[es[j].other as int] == v || r1[es[j].other as int] == w { x } else { r1[es[j].other as int] });
        }
        lemma_relabel_merge(es, r1, v, w, r2, x, n, es.len() as int);
        assert(r2[a] == if r1[a] == v || r1[a] == w { x } else { r1[a] });
    }
}

pub proof fn lemma_flow_keep(orig: Seq<Node>, r1: Seq<int>, r2: Seq<int>, v: int, w: int, x: int, i: int, u: int, n: int, k: int)
    requires
        0 <= k <= n,
        orig_ok(orig, n),
        roots_ok(r1, n),
        roots_ok(r2, n),
        joined(r1, r2, v, w, x, n),
        i != v && i != w,
        u != v && u != w,
    ensures
        flow(orig, r2, i, u, k) == flow(orig, r1, i, u, k),
    decreases k,
{
    if k > 0 {
        lemma_flow_keep(orig, r1, r2, v, w, x, i, u, n, k - 1);
        let a = k - 1;
        let es = orig[a].edges@;
        lemma_orig_labels(orig, r1, n, a);
        lemma_orig_labels(orig, r2, n, a);
        assert forall|j: int| 0 <= j < es.len() implies (r2[#[trigger] es[j].other as int] == u) == (r1[es[j].other as int] == u) by {
            assert(es[j].other < n);
            assert(r2[es[j].other as int] == if r1[es[j].other as int] == v || r1[es[j].other as int] == w { x } else { r1[es[j].other as int] });
        }
        lemma_relabel_same(es, r2, u, r1, u, n);
        assert(r2[a] == if r1[a] == v || r1[a] == w { x } else { r1[a] });
    }
}

pub proof fn lemma_internal_join(orig: Seq<Node>, r1: Seq<int>, r2: Seq<int>, v: int, w: int, x: int, n: int, k: int)
    requires
        0 <= k <= n,
        orig_ok(orig, n),
        roots_ok(r1, n),
        roots_ok(r2, n),
        joined(r1, r2, v, w, x, n),
    ensures
        internal(orig, r2, k) == internal(orig, r1, k) + flow(orig, r1, v, w, k) + flow(orig, r1, w, v, k),
    decreases k,
{
    if k > 0 {
        lemma_internal_join(orig, r1, r2, v, w, x, n, k - 1);
        let a = k - 1;
        let es = orig[a].edges@;
        lemma_orig_labels(orig, r1, n, a);
        lemma_orig_labels(orig, r2, n, a);
        assert(r2[a] == if r1[a] == v || r1[a] == w { x } else { r1[a] });
        if r1[a] == v || r1[a] == w {
            assert forall|j: int| 0 <= j < es.len() implies (r2[#[trigger] es[j].other as int] == x) == (r1[es[j].other as int] == v
                || r1[es[j].other as int] == w) by {
                assert(es[j].other < n);
                assert(r2[es[j].other as int] == if r1[es[j].other as int] == v || r1[es[j].other as int] == w { x } else { r1[es[j].other as int] });
            }
            lemma_relabel_merge(es, r1, v, w, r2, x, n, es.len() as int);
        } else {
            let c = r1[a];
            assert forall|j: int| 0 <= j < es.len() implies (r2[#[trigger] es[j].other as int] == c) == (r1[es[j].other as int] == c) by {
                assert(es[j].other < n);
                assert(r2[es[j].other as int] == if r1[es[j].other as int] == v || r1[es[j].other as int] == w { x } else { r1[es[j].other as int] });
            }
            lemma_relabel_same(es, r2, c, r1, c, n);
        }
    }
}


/// Two labellings that split the vertices alike leave the same weight inside
/// the classes.
pub proof fn lemma_internal_alike(orig: Seq<Node>, p1: Seq<int>, p2: Seq<int>, n: int, k: int)
    requires
        0 <= k <= n,
        orig_ok(orig, n),
        forall|a: int| 0 <= a < n ==> 0 <= #[trigger] p1[a] < n && 0 <= p2[a] < n,
        n <= usize::MAX,
        forall|a: int, b: int| 0 <= a < n && 0 <= b < n ==> (p1[a] == p1[b]) == (p2[a] == p2[b]),
    ensures
        internal(orig, p1, k) == internal(orig, p2, k),
    decreases k,
{
    if k > 0 {
        lemma_internal_alike(orig, p1, p2, n, k - 1);
        let a = k - 1;
        let es = orig[a].edges@;
        assert(orig[a].wf(n as nat));
        assert forall|j: int| 0 <= j < es.len() implies (p1[#[trigger] es[j].other as int] == p1[a]) == (
        p2[es[j].other as int] == p2[a]) by {
            assert(es[j].other < n);
        }
        assert forall|j: int| 0 <= j < es.len() implies 0 <= #[trigger] es[j].other < n && 0 <= p1[es[j].other as int]
            < n && n <= usize::MAX by {
            assert(es[j].other < n);
        }
        assert forall|j: int| 0 <= j < es.len() implies 0 <= #[trigger] es[j].other < n && 0 <= p2[es[j].other as int]
            < n && n <= usize::MAX by {
            assert(es[j].other < n);
        }
        lemma_relabel_same(es, p1, p1[a], p2, p2[a], n);
    }
}


/// Weight of the edges of vertex `a` into the class `k2` of `p1`.
pub open spec fn tw(orig: Seq<Node>, p1: Seq<int>, a: int, k2: int) -> int {
    total_to(relabel(orig[a].edges@, p1), k2)
}

/// The weight that vertex `a` of class `k` sends to another class `k2` that
/// `p2` puts together with `k`.
pub open spec fn gterm(orig: Seq<Node>, p1: Seq<int>, p2: Seq<int>, k: int, k2: int, a: int) -> int {
    if p2[k2] == p2[k] && k2 != k && p1[a] == k {
        tw(orig, p1, a, k2)
    } else {
        0
    }
}

/// Sum over `a < j` of `gterm(k, k2, a)`.
pub open spec fn sum_a(orig: Seq<Node>, p1: Seq<int>, p2: Seq<int>, k: int, k2: int, j: int) -> int
    decreases j,
{
    if j <= 0 {
        0
    } else {
        sum_a(orig, p1, p2, k, k2, j - 1) + gterm(orig, p1, p2, k, k2, j - 1)
    }
}

/// Sum over `k2 < i` of `gterm(k, k2, a)`.
pub open spec fn sum_k2(orig: Seq<Node>, p1: Seq<int>, p2: Seq<int>, k: int, a: int, i: int) -> int
    decreases i,
{
    if i <= 0 {
        0
    } else {
        sum_k2(orig, p1, p2, k, a, i - 1) + gterm(orig, p1, p2, k, i - 1, a)
    }
}

/// Sum over `k2 < i` of `sum_a(k, k2, n)`.
pub open spec fn sum_k2_a(orig: Seq<Node>, p1: Seq<int>, p2: Seq<int>, k: int, i: int, n: int) -> int
    decreases i,
{
    if i <= 0 {
        0
    } else {
        sum_k2_a(orig, p1, p2, k, i - 1, n) + sum_a(orig, p1, p2, k, i - 1, n)
    }
}

/// Sum over `a < j` of `sum_k2(k, a, m)`.
pub open spec fn sum_a_k2(orig: Seq<Node>, p1: Seq<int>, p2: Seq<int>, k: int, j: int, m: int) -> int
    decreases j,
{
    if j <= 0 {
        0
    } else {
        sum_a_k2(orig, p1, p2, k, j - 1, m) + sum_k2(orig, p1, p2, k, j - 1, m)
    }
}

/// Sum over `k < i` of `sum_k2(k, a, m)`.
pub open spec fn sum_k_k2(orig: Seq<Node>, p1: Seq<int>, p2: Seq<int>, a: int, i: int, m: int) -> int
    decreases i,
{
    if i <= 0 {
        0
    } else {
        sum_k_k2(orig, p1, p2, a, i - 1, m) + sum_k2(orig, p1, p2, i - 1, a, m)
    }
}

/// Sum over `a < j` of `sum_k_k2(a, m, m)`.
pub open spec fn sum_a_k_k2(orig: Seq<Node>, p1: Seq<int>, p2: Seq<int>, j: int, m: int) -> int
    decreases j,
{
    if j <= 0 {
        0
    } else {
        sum_a_k_k2(orig, p1, p2, j - 1, m) + sum_k_k2(orig, p1, p2, j - 1, m, m)
    }
}

/// Sum over `k < i` of `sum_a_k2(k, n, m)`.
pub open spec fn sum_k_a_k2(orig: Seq<Node>, p1: Seq<int>, p2: Seq<int>, i: int, n: int, m: int) -> int
    decreases i,
{
    if i <= 0 {
        0
    } else {
        sum_k_a_k2(orig, p1, p2, i - 1, n, m) + sum_a_k2(orig, p1, p2, i - 1, n, m)
    }
}

/// Sum over `k < i` of `sum_k2_a(k, m, n)`.
pub open spec fn sum_k_k2_a(orig: Seq<Node>, p1: Seq<int>, p2: Seq<int>, i: int, n: int, m: int) -> int
    decreases i,
{
    if i <= 0 {
        0
    } else {
        sum_k_k2_a(orig, p1, p2, i - 1, n, m) + sum_k2_a(orig, p1, p2, i - 1, m, n)
    }
}

proof fn lemma_swap_a_k2_step(orig: Seq<Node>, p1: Seq<int>, p2: Seq<int>, k: int, j: int, i: int)
    requires
        0 <= j,
        0 <= i,
    ensures
        sum_k2_a(orig, p1, p2, k, i, j + 1) == sum_k2_a(orig, p1, p2, k, i, j) + sum_k2(orig, p1, p2, k, j, i),
    decreases i,
{
    if i > 0 {
        lemma_swap_a_k2_step(orig, p1, p2, k, j, i - 1);
    }
}

/// Exchange of the sums over `a` and `k2`.
proof fn lemma_swap_a_k2(orig: Seq<Node>, p1: Seq<int>, p2: Seq<int>, k: int, j: int, m: int)
    requires
        0 <= j,
        0 <= m,
    ensures
        sum_a_k2(orig, p1, p2, k, j, m) == sum_k2_a(orig, p1, p2, k, m, j),
    decreases j,
{
    if j > 0 {
        lemma_swap_a_k2(orig, p1, p2, k, j - 1, m);
        lemma_swap_a_k2_step(orig, p1, p2, k, j - 1, m);
    } else {
        lemma_sum_k2_a_zero(orig, p1, p2, k, m);
    }
}

proof fn lemma_sum_k2_a_zero(orig: Seq<Node>, p1: Seq<int>, p2: Seq<int>, k: int, i: int)
    requires
        0 <= i,
    ensures
        sum_k2_a(orig, p1, p2, k, i, 0) == 0,
    decreases i,
{
    if i > 0 {
        lemma_sum_k2_a_zero(orig, p1, p2, k, i - 1);
    }
}

proof fn lemma_swap_a_k_step(orig: Seq<Node>, p1: Seq<int>, p2: Seq<int>, j: int, i: int, m: int)
    requires
        0 <= j,
        0 <= i,
    ensures
        sum_k_a_k2(orig, p1, p2, i, j + 1, m) == sum_k_a_k2(orig, p1, p2, i, j, m) + sum_k_k2(orig, p1, p2, j, i, m),
    decreases i,
{
    if i > 0 {
        lemma_swap_a_k_step(orig, p1, p2, j, i - 1, m);
    }
}

proof fn lemma_sum_k_a_k2_zero(orig: Seq<Node>, p1: Seq<int>, p2: Seq<int>, i: int, m: int)
    requires
        0 <= i,
    ensures
        sum_k_a_k2(orig, p1, p2, i, 0, m) == 0,
    decreases i,
{
    if i > 0 {
        lemma_sum_k_a_k2_zero(orig, p1, p2, i - 1, m);
    }
}

/// Exchange of the sums over `a` and `k`.
proof fn lemma_swap_a_k(orig: Seq<Node>, p1: Seq<int>, p2: Seq<int>, j: int, m: int)
    requires
        0 <= j,
        0 <= m,
    ensures
        sum_a_k_k2(orig, p1, p2, j, m) == sum_k_a_k2(orig, p1, p2, m, j, m),
    decreases j,
{
    if j > 0 {
        lemma_swap_a_k(orig, p1, p2, j - 1, m);
        lemma_swap_a_k_step(orig, p1, p2, j - 1, m, m);
    } else {
        lemma_sum_k_a_k2_zero(orig, p1, p2, m, m);
    }
}

proof fn lemma_swap_inner(orig: Seq<Node>, p1: Seq<int>, p2: Seq<int>, i: int, n: int, m: int)
    requires
        0 <= i,
        0 <= n,
        0 <= m,
    ensures
        sum_k_a_k2(orig, p1, p2, i, n, m) == sum_k_k2_a(orig, p1, p2, i, n, m),
    decreases i,
{
    if i > 0 {
        lemma_swap_inner(orig, p1, p2, i - 1, n, m);
        lemma_swap_a_k2(orig, p1, p2, i - 1, n, m);
    }
}

/// Only the class of `a` itself sends weight from `a`.
proof fn lemma_sum_k_single(orig: Seq<Node>, p1: Seq<int>, p2: Seq<int>, a: int, i: int, m: int)
    requires
        0 <= i,
    ensures
        sum_k_k2(orig, p1, p2, a, i, m) == if 0 <= p1[a] < i { sum_k2(orig, p1, p2, p1[a], a, m) } else { 0 },
    decreases i,
{
    if i > 0 {
        lemma_sum_k_single(orig, p1, p2, a, i - 1, m);
        if i - 1 != p1[a] {
            lemma_sum_k2_zero(orig, p1, p2, i - 1, a, m);
        }
    }
}

proof fn lemma_sum_k2_zero(orig: Seq<Node>, p1: Seq<int>, p2: Seq<int>, k: int, a: int, i: int)
    requires
        p1[a] != k,
    ensures
        sum_k2(orig, p1, p2, k, a, i) == 0,
    decreases i,
{
    if i > 0 {
        lemma_sum_k2_zero(orig, p1, p2, k, a, i - 1);
    }
}

/// Sum over `b < j` of `total_to(e, b)` for the `b` that `p` puts in `c`.
pub open spec fn class_sum(e: Seq<Edge>, p: Seq<int>, c: int, k: int, j: int) -> int
    decreases j,
{
    if j <= 0 {
        0
    } else {
        class_sum(e, p, c, k, j - 1) + if p[j - 1] == c { weight_to(e, j - 1, k) } else { 0 }
    }
}

proof fn lemma_class_sum_step(e: Seq<Edge>, p: Seq<int>, c: int, k: int, j: int)
    requires
        0 < k <= e.len(),
        0 <= j,
    ensures
        class_sum(e, p, c, k, j) == class_sum(e, p, c, k - 1, j) + if 0 <= e[k - 1].other < j && p[e[k
            - 1].other as int] == c {
            e[k - 1].weight as int
        } else {
            0
        },
    decreases j,
{
    if j > 0 {
        lemma_class_sum_step(e, p, c, k, j - 1);
    }
}

proof fn lemma_class_sum_zero(e: Seq<Edge>, p: Seq<int>, c: int, j: int)
    ensures
        class_sum(e, p, c, 0, j) == 0,
    decreases j,
{
    if j > 0 {
        lemma_class_sum_zero(e, p, c, j - 1);
    }
}

/// Relabelling adds up the weights towards all ids of one class.
proof fn lemma_relabel_class_sum(e: Seq<Edge>, p: Seq<int>, c: int, m: int, k: int)
    requires
        0 <= k <= e.len(),
        0 <= m,
        forall|j: int| 0 <= j < e.len() ==> 0 <= #[trigger] e[j].other < m,
        forall|b: int| 0 <= b < m ==> 0 <= #[trigger] p[b] <= usize::MAX,
    ensures
        weight_to(relabel(e, p), c, k) == class_sum(e, p, c, k, m),
    decreases k,
{
    if k == 0 {
        lemma_class_sum_zero(e, p, c, m);
    } else {
        lemma_relabel_class_sum(e, p, c, m, k - 1);
        lemma_class_sum_step(e, p, c, k, m);
        let o = e[k - 1].other as int;
        assert(0 <= o < m);
        assert(0 <= p[o] <= usize::MAX);
    }
}


/// `p2` after `p1`.
pub open spec fn compose(p1: Seq<int>, p2: Seq<int>) -> Seq<int> {
    Seq::new(p1.len(), |a: int| p2[p1[a]])
}

proof fn lemma_sum_a_flow(orig: Seq<Node>, p1: Seq<int>, p2: Seq<int>, k: int, k2: int, j: int)
    requires
        0 <= j,
    ensures
        sum_a(orig, p1, p2, k, k2, j) == if p2[k2] == p2[k] && k2 != k { flow(orig, p1, k, k2, j) } else { 0 },
    decreases j,
{
    if j > 0 {
        lemma_sum_a_flow(orig, p1, p2, k, k2, j - 1);
    }
}

/// One vertex of the contracted graph, summed over the classes of `p2`.
proof fn lemma_contracted_row(orig: Seq<Node>, n: int, p1: Seq<int>, m1: int, g1: Seq<Node>, p2: Seq<int>, k: int, j: int)
    requires
        0 <= k < m1,
        0 <= j <= m1,
        0 <= n,
        g1.len() == m1,
        (g1[k]).wf(m1 as nat),
        g1[k].vertex == k,
        forall|k2: int|
            0 <= k2 < m1 && k != k2 ==> #[trigger] total_to(g1[k].edges@, k2) == flow(orig, p1, k, k2, n),
    ensures
        class_sum(g1[k].edges@, p2, p2[k], g1[k].edges@.len() as int, j) == sum_k2_a(orig, p1, p2, k, j, n),
    decreases j,
{
    if j > 0 {
        lemma_contracted_row(orig, n, p1, m1, g1, p2, k, j - 1);
        let b = j - 1;
        lemma_sum_a_flow(orig, p1, p2, k, b, n);
        if b == k {
            let es = g1[k].edges@;
            assert forall|i: int| 0 <= i < es.len() implies #[trigger] es[i].other != b by {
                assert(es[i].other != g1[k].vertex);
            }
            crate::graph::lemma_weight_to_none(es, b, es.len() as int);
        } else {
            assert(total_to(g1[k].edges@, b) == flow(orig, p1, k, b, n));
        }
    }
}

proof fn lemma_contracted_side(orig: Seq<Node>, n: int, p1: Seq<int>, m1: int, g1: Seq<Node>, p2: Seq<int>, i: int)
    requires
        0 <= i <= m1,
        0 <= n,
        g1.len() == m1,
        forall|k: int| 0 <= k < m1 ==> (#[trigger] g1[k]).wf(m1 as nat) && g1[k].vertex == k,
        forall|k: int, k2: int|
            0 <= k < m1 && 0 <= k2 < m1 && k != k2 ==> #[trigger] total_to(g1[k].edges@, k2) == flow(orig, p1, k, k2, n),
        p2.len() == m1,
        forall|k: int| 0 <= k < m1 ==> 0 <= #[trigger] p2[k] < m1,
        m1 <= usize::MAX,
    ensures
        internal(g1, p2, i) == sum_k_k2_a(orig, p1, p2, i, n, m1),
    decreases i,
{
    if i > 0 {
        lemma_contracted_side(orig, n, p1, m1, g1, p2, i - 1);
        let k = i - 1;
        let es = g1[k].edges@;
        assert(g1[k].wf(m1 as nat));
        assert forall|j: int| 0 <= j < es.len() implies 0 <= #[trigger] es[j].other < m1 by {
            assert(es[j].other < m1);
        }
        assert forall|b: int| 0 <= b < m1 implies 0 <= #[trigger] p2[b] <= usize::MAX by {
            assert(p2[b] < m1);
        }
        lemma_relabel_class_sum(es, p2, p2[k], m1, es.len() as int);
        assert forall|k2: int| 0 <= k2 < m1 && k != k2 implies #[trigger] total_to(g1[k].edges@, k2) == flow(orig, p1, k, k2, n) by {}
        lemma_contracted_row(orig, n, p1, m1, g1, p2, k, m1);
    }
}

/// One vertex of the input graph, summed over the classes of `p2`.
proof fn lemma_direct_row(orig: Seq<Node>, p1: Seq<int>, p2: Seq<int>, a: int, e1: Seq<Edge>, j: int)
    requires
        0 <= j,
        e1 == relabel(orig[a].edges@, p1),
    ensures
        class_sum(e1, p2, p2[p1[a]], e1.len() as int, j) == (if 0 <= p1[a] < j { tw(orig, p1, a, p1[a]) } else { 0 })
            + sum_k2(orig, p1, p2, p1[a], a, j),
    decreases j,
{
    if j > 0 {
        lemma_direct_row(orig, p1, p2, a, e1, j - 1);
    }
}

proof fn lemma_direct_side(orig: Seq<Node>, n: int, p1: Seq<int>, m1: int, p2: Seq<int>, j: int)
    requires
        0 <= j <= n,
        orig_ok(orig, n),
        n <= usize::MAX,
        0 <= m1 <= usize::MAX,
        p1.len() == n,
        forall|a: int| 0 <= a < n ==> 0 <= #[trigger] p1[a] < m1,
        p2.len() == m1,
        forall|k: int| 0 <= k < m1 ==> 0 <= #[trigger] p2[k] < m1,
    ensures
        internal(orig, compose(p1, p2), j) == internal(orig, p1, j) + sum_a_k_k2(orig, p1, p2, j, m1),
    decreases j,
{
    if j > 0 {
        lemma_direct_side(orig, n, p1, m1, p2, j - 1);
        let a = j - 1;
        let q = compose(p1, p2);
        let es = orig[a].edges@;
        let e1 = relabel(es, p1);
        assert(orig[a].wf(n as nat));
        assert(relabel(e1, p2) =~= relabel(es, q)) by {
            assert forall|i: int| 0 <= i < es.len() implies relabel(e1, p2)[i] == relabel(es, q)[i] by {
                assert(es[i].other < n);
                assert(0 <= p1[es[i].other as int] < m1);
            }
        }
        assert forall|i: int| 0 <= i < e1.len() implies 0 <= #[trigger] e1[i].other < m1 by {
            assert(es[i].other < n);
            assert(0 <= p1[es[i].other as int] < m1);
        }
        assert forall|b: int| 0 <= b < m1 implies 0 <= #[trigger] p2[b] <= usize::MAX by {
            assert(p2[b] < m1);
        }
        assert(q[a] == p2[p1[a]]);
        lemma_relabel_class_sum(e1, p2, q[a], m1, e1.len() as int);
        lemma_direct_row(orig, p1, p2, a, e1, m1);
        lemma_sum_k_single(orig, p1, p2, a, m1, m1);
    }
}

/// Contracting by `p1` and then the result by `p2` leaves inside the classes
/// what contracting by `p2` after `p1` at once leaves there.
pub proof fn lemma_internal_compose(orig: Seq<Node>, n: int, p1: Seq<int>, m1: int, g1: Seq<Node>, p2: Seq<int>)
    requires
        orig_ok(orig, n),
        n <= usize::MAX,
        0 <= m1 <= usize::MAX,
        p1.len() == n,
        forall|a: int| 0 <= a < n ==> 0 <= #[trigger] p1[a] < m1,
        g1.len() == m1,
        forall|k: int| 0 <= k < m1 ==> (#[trigger] g1[k]).wf(m1 as nat) && g1[k].vertex == k,
        forall|k: int, k2: int|
            0 <= k < m1 && 0 <= k2 < m1 && k != k2 ==> #[trigger] total_to(g1[k].edges@, k2) == flow(orig, p1, k, k2, n),
        p2.len() == m1,
        forall|k: int| 0 <= k < m1 ==> 0 <= #[trigger] p2[k] < m1,
    ensures
        internal(orig, compose(p1, p2), n) == internal(orig, p1, n) + internal(g1, p2, m1),
{
    lemma_contracted_side(orig, n, p1, m1, g1, p2, m1);
    lemma_direct_side(orig, n, p1, m1, p2, n);
    lemma_swap_a_k(orig, p1, p2, n, m1);
    lemma_swap_inner(orig, p1, p2, m1, n, m1);
}

} // verus!
