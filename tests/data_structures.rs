use min_cut::api::DirectedEdge;
use min_cut::fenwick_tree::FenwickTree;
use min_cut::graph::Graph;
use min_cut::graph_util::{Edge, MergeUtil, Node};
use min_cut::union_find::UnionFind;

#[test]
fn test_fenwick_tree() {
    let fenwick = FenwickTree::new(5);
    assert_eq!(fenwick.n, 6);
    assert_eq!(fenwick.sum(), 0);
    assert_eq!(fenwick.tree[..], [0, 0, 0, 0, 0, 0]);

    let mut fenwick = FenwickTree::from(&[1, 2, 3, 4, 5, 6, 7, 8, 9, 10]);
    assert_eq!(fenwick.n, 11);
    assert_eq!(fenwick.sum(), 55);
    assert_eq!(fenwick.tree[..], [0, 1, 3, 3, 10, 5, 11, 7, 36, 9, 19]);

    for (i, val) in [1, 3, 6, 10, 15, 21, 28, 36, 45, 55].iter().enumerate() {
        assert_eq!(fenwick.query(i), *val);
    }

    fenwick.update(3, 6, false);
    assert_eq!(fenwick.sum(), 61);
    assert_eq!(fenwick.query(2), 6);
    assert_eq!(fenwick.query(3), 16);
    assert_eq!(fenwick.query(7), 42);

    fenwick.update(3, 6, true);
    for (i, val) in [1, 3, 6, 10, 15, 21, 28, 36, 45, 55].iter().enumerate() {
        assert_eq!(fenwick.query(i), *val);
    }

    assert_eq!(fenwick.lower_entry(1), (0, 0));
    assert_eq!(fenwick.lower_entry(2), (1, 1));
    assert_eq!(fenwick.lower_entry(10), (3, 6));
    assert_eq!(fenwick.lower_entry(12), (4, 10));
    assert_eq!(fenwick.lower_entry(15), (4, 10));
    assert_eq!(fenwick.lower_entry(53), (9, 45));
    assert_eq!(fenwick.lower_entry(55), (9, 45));
    assert_eq!(fenwick.lower_entry(100), (9, 45));

    let fenwick = FenwickTree::from(&[5, 5, 5, 0, 0, 0, 0, 5, 5, 5]);
    assert_eq!(fenwick.lower_entry(15), (2, 10));
    assert_eq!(fenwick.lower_entry(18), (7, 15));
}

#[test]
fn create_graph() {
    let expected_fmt =
        "Graph { \
        n: 3, weight: 14, adj: [\
        Node { vertex: 0, weight: 4, edges: [Edge { other: 1, weight: 3 }, Edge { other: 2, weight: 1 }] }, \
        Node { vertex: 1, weight: 7, edges: [Edge { other: 0, weight: 2 }, Edge { other: 2, weight: 5 }] }, \
        Node { vertex: 2, weight: 3, edges: [Edge { other: 1, weight: 3 }] }] \
    }";

    let adj = vec![vec![(1, 3), (2, 1)], vec![(0, 2), (2, 5)], vec![(1, 3)]];
    let actual: Graph = Graph::from(&adj);

    assert_eq!(format!("{actual:?}"), expected_fmt);
    assert_eq!(actual.num_vertices(), 3);
    assert_eq!(actual.num_edges(), 5);
    assert_eq!(actual.weight(), 14);

    let edges = [
        (0, 1, 1),
        (0, 1, 2),
        (0, 2, 1),
        (1, 0, 2),
        (1, 2, 2),
        (1, 2, 3),
        (2, 1, 3),
    ][..]
        .iter()
        .map(|it| DirectedEdge::from(*it))
        .collect::<Vec<DirectedEdge>>();
    let actual: Graph = Graph::from_directed_edges(3, &edges);

    assert_eq!(actual.num_vertices(), 3);
    assert_eq!(actual.num_edges(), 5);
    assert_eq!(actual.weight(), 14);
}

#[test]
fn test_vertex_condenser() {
    let mut vertex_map = UnionFind::new(6);
    vertex_map.union(3, 4);
    vertex_map.union(0, 3);
    vertex_map.union(1, 2);
    assert_eq!(vertex_map.ids[..], [3, 1, 1, 3, 3, 5]);

    let mut merge_util = MergeUtil::new(6);

    let converter = |edges: Vec<(usize, usize)>| {
        edges
            .iter()
            .map(|edge| Edge::from(edge))
            .collect::<Vec<Edge>>()
    };

    let edges1 = converter(vec![(3, 4), (5, 1), (0, 4), (0, 5), (1, 2)]);
    let edges2 = converter(vec![(4, 2), (2, 6), (0, 3), (2, 4), (5, 3)]);

    let actual = Graph::vertex_condenser(3, &edges1, &edges2, &mut merge_util, &mut vertex_map);

    let expected = Node::from(3, &vec![(5, 4), (1, 12)]);

    assert_eq!(actual, expected);
}

#[test]
fn test_union_find() {
    let mut union_find = UnionFind::new(5);
    assert_eq!(union_find.ids[..], [0, 1, 2, 3, 4]);

    union_find.union(1, 3);
    union_find.union(3, 4);
    assert_eq!(union_find.ids[..], [0, 1, 2, 1, 1]);

    assert_eq!(union_find.count, 3);
    assert_eq!(union_find.root(4), 1);
    assert!(union_find.connected(1, 4));
    assert!(!union_find.connected(0, 4));

    union_find.union(3, 4);
    assert_eq!(union_find.count, 3);
    assert_eq!(union_find.root(4), 1);

    let mut union_find = UnionFind::new(6);
    union_find.union(3, 4);
    union_find.union(0, 3);
    union_find.union(1, 2);
    assert_eq!(union_find.ids[..], [3, 1, 1, 3, 3, 5]);

    let mut merge_util = MergeUtil::new(6);
    let ids = union_find.condense(&mut merge_util);
    assert_eq!(ids[..], [1, 0, 0, 1, 1, 2]);
    assert_eq!(merge_util.merge_proxy[..], [0, 0, 0, 0, 0, 0]);

    let mut union_find = UnionFind::new(8);
    union_find.union(3, 0);
    union_find.union(4, 7);
    union_find.union(1, 2);
    union_find.union(0, 4);
    assert_eq!(union_find.ids[..], [3, 1, 1, 3, 3, 5, 6, 4]);

    let mut merge_util = MergeUtil::new(8);
    let ids = union_find.condense(&mut merge_util);
    assert_eq!(ids[..], [1, 0, 0, 1, 1, 2, 3, 1]);
    assert_eq!(merge_util.merge_proxy[..], [0, 0, 0, 0, 0, 0, 0, 0]);
}

#[test]
fn test_contract() {
    let adj = vec![
        vec![(1, 1), (2, 1), (3, 1)],
        vec![(0, 1), (4, 1), (5, 1), (3, 1)],
        vec![(0, 1), (4, 1)],
        vec![(1, 1), (0, 1), (4, 1)],
        vec![(1, 1), (2, 1), (3, 1), (5, 1)],
        vec![(1, 1), (4, 1)],
    ];

    let graph: Graph = Graph::from(&adj);

    let contracted = graph.contract_full();
    assert_eq!(contracted.n, 2);

    let contracted = graph.contract(4);
    assert_eq!(contracted.n, 4);
}
