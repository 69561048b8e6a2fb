use min_cut::api::DirectedEdge;
use min_cut::fenwick_tree::FenwickTree;
use min_cut::graph::{merge_edges, Graph};
use min_cut::graph_util::{Edge, MergeUtil};
use min_cut::karger::{karger_budget_step, KargerAlgo};
use min_cut::karger_stein::{ceil_div_sqrt2, karger_stein_budget_step, KargerSteinAlgo};
use min_cut::union_find::UnionFind;

fn directed(edges: &[(usize, usize, usize)]) -> Vec<DirectedEdge> {
    edges.iter().map(|it| DirectedEdge::from(*it)).collect()
}

fn symmetric(edges: &[(usize, usize, usize)]) -> Vec<DirectedEdge> {
    let mut out = Vec::new();
    for &(v, w, weight) in edges {
        out.push(DirectedEdge::from((v, w, weight)));
        out.push(DirectedEdge::from((w, v, weight)));
    }
    out
}

/// Weight of the best 2-partition, counted as contraction counts it: every
/// directed edge that crosses the partition, in both directions.
fn brute_force(n: usize, edges: &[(usize, usize, usize)]) -> usize {
    let mut best = usize::MAX;
    for mask in 1..(1u32 << n) - 1 {
        let side = |v: usize| (mask >> v) & 1;
        let cut: usize = edges
            .iter()
            .filter(|(v, w, _)| side(*v) != side(*w))
            .map(|(_, _, weight)| 2 * *weight)
            .sum();
        best = best.min(cut);
    }
    best
}

fn triangle() -> Graph {
    Graph::from_directed_edges(
        3,
        &directed(&[(0, 1, 3), (1, 0, 3), (0, 2, 1), (2, 0, 1), (1, 2, 5), (2, 1, 5)]),
    )
}

fn check_graph(g: &Graph) {
    let mut total = 0;
    for (i, node) in g.adj.iter().enumerate() {
        assert_eq!(node.vertex, i);
        let sum: usize = node.edges.iter().map(|e| e.weight).sum();
        assert_eq!(node.weight, sum);
        for (a, e) in node.edges.iter().enumerate() {
            assert!(e.other < g.n);
            assert_ne!(e.other, node.vertex);
            for f in &node.edges[a + 1..] {
                assert_ne!(e.other, f.other);
            }
        }
        total += node.weight;
    }
    assert_eq!(g.adj.len(), g.n);
    assert_eq!(g.weight(), total);
}

#[test]
fn triangle_min_cut_matches_brute_force() {
    let g = triangle();
    let expected = brute_force(3, &[(0, 1, 3), (0, 2, 1), (1, 2, 5)]);
    assert_eq!(expected, 8);
    assert_eq!(KargerAlgo::new(&g).iterate_n(200), 8);
    let base = vec![30; 4];
    assert_eq!(KargerSteinAlgo::<3>::new(&g).iterate_n(50, &base), 8);
}

#[test]
fn triangle_single_trial_is_a_cut() {
    let g = triangle();
    for _ in 0..50 {
        let c = KargerAlgo::new(&g).iterate();
        assert!(c == 8 || c == 12 || c == 16);
    }
}

#[test]
fn karger_approx_finds_min_cut() {
    let undirected = [(0, 1, 4), (1, 2, 4), (2, 3, 1), (3, 4, 4), (4, 5, 4), (5, 3, 4), (0, 2, 4)];
    let g = Graph::from_directed_edges(6, &symmetric(&undirected));
    let expected = brute_force(6, &undirected);
    assert_eq!(expected, 2);
    let (min_cut, trials) = KargerAlgo::new(&g).approx_min_cut();
    assert_eq!(min_cut, expected);
    assert!(trials >= 6);
    let base = vec![40; 11];
    let (min_cut, _) = KargerSteinAlgo::<3>::new(&g).approx_min_cut(8, &base);
    assert_eq!(min_cut, expected);
}

#[test]
fn contract_reaches_every_size() {
    let undirected = [
        (0, 1, 2), (1, 2, 1), (2, 3, 3), (3, 4, 1), (4, 5, 2),
        (5, 6, 1), (6, 7, 4), (7, 0, 1), (0, 4, 2), (2, 6, 1),
    ];
    let g = Graph::from_directed_edges(8, &symmetric(&undirected));
    check_graph(&g);
    assert_eq!(g.weight(), 36);
    for t in 1..=8 {
        for _ in 0..10 {
            let c = g.contract(t);
            assert_eq!(c.num_vertices(), t);
            assert!(c.weight() <= g.weight());
            check_graph(&c);
        }
    }
    assert_eq!(g.contract(8).weight(), 36);
    assert_eq!(g.contract(1).weight(), 0);
}

#[test]
fn contract_merges_sets_without_edges() {
    let g = Graph::from_directed_edges(4, &symmetric(&[(0, 1, 5)]));
    let c = g.contract(1);
    assert_eq!(c.num_vertices(), 1);
    assert_eq!(c.weight(), 0);
    check_graph(&c);
    let c = g.contract(2);
    assert_eq!(c.num_vertices(), 2);
    check_graph(&c);
    let empty = Graph::from_directed_edges(3, &Vec::new());
    let c = empty.contract_full();
    assert_eq!(c.num_vertices(), 2);
    assert_eq!(c.weight(), 0);
}

#[test]
fn directed_edges_are_aggregated() {
    let edges = vec![
        DirectedEdge::from((0, 2)),
        DirectedEdge::from((0, 1, 4)),
        DirectedEdge::from((0, 0, 9)),
        DirectedEdge::from((0, 2, 3)),
        DirectedEdge::from((1, 0, 0)),
        DirectedEdge::from((2, 1)),
    ];
    let g = Graph::from_directed_edges(3, &edges);
    check_graph(&g);
    let list = g.adjacency_list();
    assert_eq!(list[0].edges, vec![Edge { other: 2, weight: 4 }, Edge { other: 1, weight: 4 }]);
    assert_eq!(list[0].weight, 8);
    assert_eq!(list[1].edges, vec![Edge { other: 0, weight: 0 }]);
    assert_eq!(list[2].edges, vec![Edge { other: 1, weight: 1 }]);
    assert_eq!(g.weight(), 9);
    assert_eq!(g.num_edges(), 4);
}

#[test]
fn merge_drops_internal_weight() {
    let mut mu = MergeUtil::new(5);
    let edges = vec![
        Edge { other: 3, weight: 2 },
        Edge { other: 1, weight: 7 },
        Edge { other: 3, weight: 5 },
        Edge { other: 4, weight: 1 },
        Edge { other: 1, weight: 1 },
    ];
    let node = merge_edges(1, &edges, &mut mu);
    assert_eq!(node.vertex, 1);
    assert_eq!(node.edges, vec![Edge { other: 3, weight: 7 }, Edge { other: 4, weight: 1 }]);
    assert_eq!(node.weight, 16 - 8);
    assert_eq!(mu.merge_proxy, vec![0; 5]);
}

#[test]
fn lower_entry_matches_prefix_sums() {
    let weights = [3, 0, 4, 1, 0, 0, 6, 2];
    let mut f = FenwickTree::from(&weights);
    let mut w = weights.to_vec();
    f.update(1, 2, false);
    w[1] += 2;
    f.update(6, 5, true);
    w[6] -= 5;
    let prefix: Vec<usize> = w.iter().scan(0, |s, x| { *s += x; Some(*s) }).collect();
    for (i, p) in prefix.iter().enumerate() {
        assert_eq!(f.query(i), *p);
    }
    let total = f.sum();
    assert_eq!(total, 13);
    for r in 1..=total {
        let (i, before) = f.lower_entry(r);
        let lo = if i == 0 { 0 } else { prefix[i - 1] };
        assert!(lo < r && r <= prefix[i]);
        assert_eq!(before, lo);
    }
    assert_eq!(f.lower_entry(total + 1), (7, 11));
    let single = FenwickTree::from(&[5]);
    assert_eq!(single.lower_entry(5), (0, 0));
    assert_eq!(single.lower_entry(7), (0, 0));
}

#[test]
fn union_find_connects_transitively() {
    let mut uf = UnionFind::new(7);
    uf.union(0, 1);
    uf.union(2, 3);
    assert!(!uf.connected(1, 3));
    let r = uf.union(1, 3);
    assert!(uf.connected(0, 2));
    assert_eq!(uf.root(0), r);
    assert!(!uf.connected(4, 0));
    assert_eq!(uf.union(0, 3), r);
    assert_eq!(uf.count, 4);
    let mut mu = MergeUtil::new(7);
    assert_eq!(uf.condense(&mut mu), vec![0, 0, 0, 0, 1, 2, 3]);
    let mut mu = MergeUtil::new(3);
    assert_eq!(UnionFind::new(3).condense(&mut mu), vec![0, 1, 2]);
}

#[test]
fn partial_contraction_size() {
    assert_eq!(ceil_div_sqrt2(0), 0);
    assert_eq!(ceil_div_sqrt2(1), 1);
    assert_eq!(ceil_div_sqrt2(4), 3);
    assert_eq!(ceil_div_sqrt2(10), 8);
    assert_eq!(ceil_div_sqrt2(100), 71);
    assert_eq!(KargerSteinAlgo::<2>::partial_size(3), 2);
    assert_eq!(KargerSteinAlgo::<2>::partial_size(4), 3);
    assert_eq!(KargerSteinAlgo::<2>::partial_size(11), 8);
}

#[test]
fn trial_budgets() {
    assert_eq!(karger_budget_step(3, 5, 25, 10, 7), (7, 11));
    assert_eq!(karger_budget_step(3, 5, 25, 10, 10), (10, 25));
    assert_eq!(karger_budget_step(usize::MAX / 2 + 1, 5, 1, 10, 7), (7, usize::MAX));
    assert_eq!(karger_stein_budget_step(3, 4, 4, 10, 7), (7, 7));
    assert_eq!(karger_stein_budget_step(3, 4, 4, 10, 12), (10, 4));
    assert_eq!(karger_stein_budget_step(usize::MAX, 4, 4, 10, 2), (2, usize::MAX));
}

#[test]
fn iterate_without_trials_gives_max() {
    let g = triangle();
    assert_eq!(KargerAlgo::new(&g).iterate_n(0), usize::MAX);
    let base = vec![0; 4];
    assert_eq!(KargerSteinAlgo::<3>::new(&g).iterate(&base), usize::MAX);
    let (m, _) = KargerSteinAlgo::<3>::new(&g).approx_min_cut(0, &base);
    assert_eq!(m, usize::MAX);
}

#[test]
fn zero_weight_edge_is_kept() {
    let g = Graph::from_directed_edges(2, &vec![DirectedEdge::from((0, 1, 0))]);
    assert_eq!(g.adjacency_list()[0].edges, vec![Edge { other: 1, weight: 0 }]);
    assert_eq!(g.weight(), 0);
    assert_eq!(g.num_edges(), 1);
}

#[test]
fn karger_sanity_test() {
    let edges = [
        (0, 1, 1),
        (0, 1, 2),
        (0, 2, 1),
        (1, 0, 2),
        (1, 2, 1),
        (1, 2, 3),
        (2, 1, 3),
    ][..]
        .iter()
        .map(|it| DirectedEdge::from(*it))
        .collect::<Vec<DirectedEdge>>();
    let graph: Graph = Graph::from_directed_edges(3, &edges);

    let karger = KargerAlgo::new(&graph);
    let c = karger.iterate_n(9);
    assert!(c <= graph.weight());
}

#[test]
fn karger_stein_sanity_test() {
    let edges = [
        (0, 1, 1),
        (0, 1, 2),
        (0, 2, 1),
        (1, 0, 2),
        (1, 2, 5),
        (1, 2, 3),
        (2, 1, 3),
        (3, 1, 8),
        (3, 2, 5),
    ][..]
        .iter()
        .map(|it| DirectedEdge::from(*it))
        .collect::<Vec<DirectedEdge>>();
    let graph: Graph = Graph::from_directed_edges(4, &edges);

    let base = vec![5; 4];
    let karger_stein = KargerSteinAlgo::<3>::new(&graph);
    let c = karger_stein.iterate_n(9, &base);
    assert!(c <= graph.weight());
}
