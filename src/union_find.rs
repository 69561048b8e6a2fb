use vstd::prelude::*;

use crate::graph_util::MergeUtil;

verus! {

/// Number of indices `i < k` that are their own representative in `roots`.
pub open spec fn count_roots(roots: Seq<int>, k: int) -> nat
    decreases k,
{
    if k <= 0 {
        0
    } else {
        count_roots(roots, k - 1) + if roots[k - 1] == k - 1 { 1nat } else { 0nat }
    }
}

/// Total of `sizes` over the indices `i < k` that are their own representative.
pub open spec fn size_sum(roots: Seq<int>, sizes: Seq<usize>, k: int) -> nat
    decreases k,
{
    if k <= 0 {
        0
    } else {
        size_sum(roots, sizes, k - 1) + if roots[k - 1] == k - 1 { sizes[k - 1] as nat } else { 0nat }
    }
}

pub proof fn lemma_count_roots_monotone(roots: Seq<int>, a: int, b: int)
    requires
        0 <= a <= b,
    ensures
        count_roots(roots, a) <= count_roots(roots, b),
    decreases b - a,
{
    if a < b {
        lemma_count_roots_monotone(roots, a, b - 1);
    }
}

pub proof fn lemma_count_roots_bound(roots: Seq<int>, k: int)
    requires
        0 <= k,
    ensures
        count_roots(roots, k) <= k,
    decreases k,
{
    if k > 0 {
        lemma_count_roots_bound(roots, k - 1);
    }
}

/// Every rank below the number of representatives belongs to one of them.
pub proof fn lemma_count_roots_onto(roots: Seq<int>, k: int, m: int)
    requires
        0 <= k,
        0 <= m < count_roots(roots, k),
    ensures
        exists|j: int| 0 <= j < k && roots[j] == j && #[trigger] count_roots(roots, j) == m,
    decreases k,
{
    if m < count_roots(roots, k - 1) {
        lemma_count_roots_onto(roots, k - 1, m);
        let j = choose|j: int| 0 <= j < k - 1 && roots[j] == j && #[trigger] count_roots(roots, j) == m;
        assert(0 <= j < k && roots[j] == j && count_roots(roots, j) == m);
    } else {
        assert(roots[k - 1] == k - 1 && count_roots(roots, k - 1) == m);
    }
}

/// With every index its own representative, the count is the index.
pub proof fn lemma_count_roots_identity(roots: Seq<int>, k: int)
    requires
        0 <= k,
        forall|j: int| 0 <= j < k ==> #[trigger] roots[j] == j,
    ensures
        count_roots(roots, k) == k,
    decreases k,
{
    if k > 0 {
        lemma_count_roots_identity(roots, k - 1);
    }
}

/// Distinct representatives get distinct ranks, in increasing order.
pub proof fn lemma_count_roots_strict(roots: Seq<int>, a: int, b: int)
    requires
        0 <= a < b,
        roots[a] == a,
    ensures
        count_roots(roots, a) < count_roots(roots, b),
{
    lemma_count_roots_monotone(roots, a + 1, b);
}

proof fn lemma_count_roots_frame(r1: Seq<int>, r2: Seq<int>, x: int, k: int)
    requires
        0 <= k,
        forall|i: int| 0 <= i < k && i != x ==> (r1[i] == i) == (r2[i] == i),
    ensures
        0 <= x < k ==> count_roots(r2, k) + (if r1[x] == x { 1int } else { 0int })
            == count_roots(r1, k) + (if r2[x] == x { 1int } else { 0int }),
        !(0 <= x < k) ==> count_roots(r2, k) == count_roots(r1, k),
    decreases k,
{
    if k > 0 {
        lemma_count_roots_frame(r1, r2, x, k - 1);
    }
}

proof fn lemma_size_sum_frame(r1: Seq<int>, s1: Seq<usize>, r2: Seq<int>, s2: Seq<usize>, x: int, k: int)
    requires
        0 <= k,
        forall|i: int|
            0 <= i < k && i != x ==> (r1[i] == i) == (r2[i] == i) && (r1[i] == i ==> s1[i] == s2[i]),
    ensures
        0 <= x < k ==> size_sum(r2, s2, k) + (if r1[x] == x { s1[x] as int } else { 0int })
            == size_sum(r1, s1, k) + (if r2[x] == x { s2[x] as int } else { 0int }),
        !(0 <= x < k) ==> size_sum(r2, s2, k) == size_sum(r1, s1, k),
    decreases k,
{
    if k > 0 {
        lemma_size_sum_frame(r1, s1, r2, s2, x, k - 1);
    }
}

proof fn lemma_size_sum_two(roots: Seq<int>, sizes: Seq<usize>, a: int, b: int, k: int)
    requires
        0 <= a < k,
        0 <= b < k,
        a != b,
        roots[a] == a,
        roots[b] == b,
    ensures
        size_sum(roots, sizes, k) >= sizes[a] + sizes[b],
    decreases k,
{
    if k - 1 != a && k - 1 != b {
        lemma_size_sum_two(roots, sizes, a, b, k - 1);
    } else {
        let c = if k - 1 == a { b } else { a };
        lemma_size_sum_one(roots, sizes, c, k - 1);
    }
}

proof fn lemma_size_sum_one(roots: Seq<int>, sizes: Seq<usize>, a: int, k: int)
    requires
        0 <= a < k,
        roots[a] == a,
    ensures
        size_sum(roots, sizes, k) >= sizes[a],
    decreases k,
{
    if k - 1 != a {
        lemma_size_sum_one(roots, sizes, a, k - 1);
    }
}

/// A disjoint-set forest over `0..n`, with union by size and path compression.
///
/// `roots` is the representative of each element and `dist` an upper bound on
/// its distance to that representative; both are ghost state.
pub struct UnionFind {
    pub count: usize,
    pub ids: Vec<usize>,
    pub sizes: Vec<usize>,
    pub roots: Ghost<Seq<int>>,
    pub dist: Ghost<Seq<nat>>,
}

impl UnionFind {
    pub open spec fn n(&self) -> nat {
        self.ids@.len()
    }

    pub open spec fn wf(&self) -> bool {
        let n = self.n() as int;
        &&& self.sizes@.len() == n
        &&& self.roots@.len() == n
        &&& self.dist@.len() == n
        &&& forall|i: int| 0 <= i < n ==> self.ids@[i] < n
        &&& forall|i: int|
            0 <= i < n ==> 0 <= #[trigger] self.roots@[i] < n && self.roots@[self.roots@[i]]
                == self.roots@[i]
        &&& forall|i: int| 0 <= i < n ==> self.roots@[#[trigger] self.ids@[i] as int] == self.roots@[i]
        &&& forall|i: int| 0 <= i < n ==> (#[trigger] self.ids@[i] == i) == (self.roots@[i] == i)
        &&& forall|i: int|
            0 <= i < n ==> if #[trigger] self.ids@[i] == i {
                self.dist@[i] == 0 && self.sizes@[i] >= 1
            } else {
                self.dist@[self.ids@[i] as int] < self.dist@[i]
            }
        &&& self.count == count_roots(self.roots@, n)
        &&& size_sum(self.roots@, self.sizes@, n) == n
    }

    /// Representative of `p`.
    pub open spec fn root_of(&self, p: int) -> int {
        self.roots@[p]
    }

    /// Whether `a` and `b` are in one set.
    pub open spec fn same_set(&self, a: int, b: int) -> bool {
        self.root_of(a) == self.root_of(b)
    }

    pub fn new(n: usize) -> (r: UnionFind)
        ensures
            r.wf(),
            r.n() == n,
            r.count == n,
            forall|i: int| 0 <= i < n ==> r.root_of(i) == i,
            forall|i: int| 0 <= i < n ==> #[trigger] r.sizes@[i] == 1,
    {
        let mut ids: Vec<usize> = Vec::new();
        let mut i: usize = 0;
        while i < n
            invariant
                i <= n,
                ids@.len() == i,
                forall|j: int| 0 <= j < i ==> ids@[j] == j,
            decreases n - i,
        {
            ids.push(i);
            i = i + 1;
        }
        let ghost roots = Seq::new(n as nat, |j: int| j);
        let ghost dist = Seq::new(n as nat, |j: int| 0nat);
        let sizes = vec![1usize; n];
        proof {
            assert forall|k: int| 0 <= k <= n implies count_roots(roots, k) == k
                && size_sum(roots, sizes@, k) == k by {
                lemma_all_singletons(roots, sizes@, k);
            }
        }
        UnionFind { count: n, ids, sizes, roots: Ghost(roots), dist: Ghost(dist) }
    }

    /// Finds the representative of `p`, halving the path on the way.
    pub fn root(&mut self, p: usize) -> (r: usize)
        requires
            old(self).wf(),
            p < old(self).n(),
        ensures
            final(self).wf(),
            final(self).n() == old(self).n(),
            final(self).roots@ == old(self).roots@,
            final(self).sizes@ == old(self).sizes@,
            final(self).count == old(self).count,
            r == old(self).root_of(p as int),
    {
        let ghost p0 = p;
        let mut p = p;
        while self.ids[p] != p
            invariant
                self.wf(),
                self.n() == old(self).n(),
                self.roots@ == old(self).roots@,
                self.sizes@ == old(self).sizes@,
                self.count == old(self).count,
                p < self.n(),
                self.roots@[p as int] == old(self).root_of(p0 as int),
            decreases self.dist@[p as int],
        {
            let parent = self.ids[p];
            let grand = self.ids[parent];
            let ghost prev = self.ids@;
            self.ids.set(p, grand);
            proof {
                let n = self.n() as int;
                assert(grand != p);
                assert forall|i: int| 0 <= i < n implies self.roots@[#[trigger] self.ids@[i] as int]
                    == self.roots@[i] by {
                    if i != p {
                        assert(self.ids@[i] == prev[i]);
                    }
                }
                assert forall|i: int| 0 <= i < n implies (#[trigger] self.ids@[i] == i) == (
                self.roots@[i] == i) by {
                    if i != p {
                        assert(self.ids@[i] == prev[i]);
                    }
                }
                assert forall|i: int|
                    0 <= i < n implies if #[trigger] self.ids@[i] == i {
                    self.dist@[i] == 0 && self.sizes@[i] >= 1
                } else {
                    self.dist@[self.ids@[i] as int] < self.dist@[i]
                } by {
                    if i != p {
                        assert(self.ids@[i] == prev[i]);
                    } else {
                        assert(prev[p as int] == parent);
                        assert(prev[parent as int] == grand);
                    }
                }
            }
            p = grand;
        }
        p
    }

    /// Merges the sets of `p` and `q`; the representative with the larger size
    /// (`p`'s on a tie) stays representative, takes the sum of both sizes, and
    /// is returned.
    pub fn union(&mut self, p: usize, q: usize) -> (r: usize)
        requires
            old(self).wf(),
            p < old(self).n(),
            q < old(self).n(),
        ensures
            final(self).wf(),
            final(self).n() == old(self).n(),
            union_post(*old(self), *final(self), p as int, q as int, r as int),
    {
        reveal(union_post);
        let i = self.root(p);
        let j = self.root(q);
        if i == j {
            return i;
        }
        let ghost old_roots = self.roots@;
        let ghost old_sizes = self.sizes@;
        let ghost old_ids = self.ids@;
        let ghost old_dist = self.dist@;
        let len = self.ids.len();
        let ghost n = len as int;
        let (max, min) = if self.sizes[i] >= self.sizes[j] {
            (i, j)
        } else {
            (j, i)
        };
        proof {
            lemma_size_sum_two(old_roots, old_sizes, i as int, j as int, n);
            assert(old_roots[i as int] == i);
            assert(old_roots[j as int] == j);
            lemma_count_roots_strict(old_roots, min as int, n);
        }
        assert(old_sizes[max as int] + old_sizes[min as int] <= n);
        self.count = self.count - 1;
        self.ids.set(min, max);
        let s = self.sizes[max] + self.sizes[min];
        self.sizes.set(max, s);
        let ghost new_roots = Seq::new(
            n as nat,
            |k: int|
                if old_roots[k] == min {
                    max as int
                } else {
                    old_roots[k]
                },
        );
        self.roots = Ghost(new_roots);
        self.dist = Ghost(
            Seq::new(
                n as nat,
                |k: int|
                    if old_roots[k] == min {
                        self.dist@[k] + 1
                    } else {
                        self.dist@[k]
                    },
            ),
        );
        proof {
            lemma_count_roots_frame(old_roots, new_roots, min as int, n);
            // first the representative `min` goes, then `max` grows
            lemma_size_sum_frame(old_roots, old_sizes, new_roots, old_sizes, min as int, n);
            lemma_size_sum_frame(new_roots, old_sizes, new_roots, self.sizes@, max as int, n);
            assert forall|k: int| 0 <= k < n implies self.roots@[#[trigger] self.ids@[k] as int]
                == self.roots@[k] by {
                if k != min {
                    assert(self.ids@[k] == old_ids[k]);
                }
            }
            assert forall|k: int| 0 <= k < n implies (#[trigger] self.ids@[k] == k) == (
            self.roots@[k] == k) by {
                if k != min {
                    assert(self.ids@[k] == old_ids[k]);
                }
            }
            assert forall|k: int|
                0 <= k < n implies if #[trigger] self.ids@[k] == k {
                self.dist@[k] == 0 && self.sizes@[k] >= 1
            } else {
                self.dist@[self.ids@[k] as int] < self.dist@[k]
            } by {
                if k != min {
                    assert(self.ids@[k] == old_ids[k]);
                    if old_ids[k] != k {
                        assert(old_roots[old_ids[k] as int] == old_roots[k]);
                        assert(old_dist[old_ids[k] as int] < old_dist[k]);
                    }
                } else {
                    assert(old_ids[max as int] == max);
                    assert(old_dist[max as int] == 0);
                }
            }
        }
        assert forall|k: int| 0 <= k < n implies #[trigger] self.root_of(k) == if old_roots[k] == i
            || old_roots[k] == j {
            max as int
        } else {
            old_roots[k]
        } by {}
        max
    }

    /// Whether `p` and `q` are in the same set.
    pub fn connected(&mut self, p: usize, q: usize) -> (r: bool)
        requires
            old(self).wf(),
            p < old(self).n(),
            q < old(self).n(),
        ensures
            final(self).wf(),
            final(self).n() == old(self).n(),
            final(self).roots@ == old(self).roots@,
            final(self).count == old(self).count,
            r == old(self).same_set(p as int, q as int),
    {
        let a = self.root(p);
        let b = self.root(q);
        a == b
    }

    /// Relabels every element by the rank of its representative among all
    /// representatives, so that the sets get the ids `0..count` in ascending
    /// order of their representatives.
    pub fn condense(self, merge_util: &mut MergeUtil) -> (r: Vec<usize>)
        requires
            self.wf(),
            old(merge_util).wf(self.n()),
        ensures
            final(merge_util).wf(self.n()),
            r@.len() == self.n(),
            forall|i: int|
                0 <= i < self.n() ==> #[trigger] r@[i] == count_roots(self.roots@, self.root_of(i)),
            forall|i: int| 0 <= i < self.n() ==> #[trigger] r@[i] < self.count,
            forall|i: int, j: int|
                0 <= i < self.n() && 0 <= j < self.n() ==> (r@[i] == r@[j]) == (self.root_of(i)
                    == self.root_of(j)),
    {
        let mut uf = self;
        let ghost seen0 = merge_util.seen@;
        let n = uf.ids.len();
        let ghost roots = uf.roots@;
        let mut stack_size: usize = 0;
        let mut id: usize = 0;
        while id < n
            invariant
                uf.wf(),
                uf.n() == n,
                uf.roots@ == roots,
                id <= n,
                merge_util.stack@.len() == n,
                merge_util.merge_proxy@.len() == n,
                merge_util.seen@ == seen0,
                stack_size == count_roots(roots, id as int),
                forall|j: int|
                    0 <= j < n ==> #[trigger] merge_util.merge_proxy@[j] == if j < id && roots[j] == j {
                        count_roots(roots, j) + 1
                    } else {
                        0
                    },
                forall|k: int|
                    0 <= k < stack_size ==> 0 <= #[trigger] merge_util.stack@[k] < n && roots[merge_util.stack@[k] as int]
                        == merge_util.stack@[k] && count_roots(roots, merge_util.stack@[k] as int) == k,
            decreases n - id,
        {
            let root = uf.root(id);
            proof {
                lemma_count_roots_bound(roots, id as int);
            }
            if id == root && merge_util.merge_proxy[root] == 0 {
                merge_util.stack.set(stack_size, root);
                stack_size = stack_size + 1;
                merge_util.merge_proxy.set(root, stack_size);
            }
            id = id + 1;
        }
        let mut labels: Vec<usize> = Vec::new();
        let mut i: usize = 0;
        while i < n
            invariant
                uf.wf(),
                uf.n() == n,
                uf.roots@ == roots,
                i <= n,
                merge_util.merge_proxy@.len() == n,
                merge_util.seen@ == seen0,
                forall|j: int|
                    0 <= j < n ==> #[trigger] merge_util.merge_proxy@[j] == if roots[j] == j {
                        count_roots(roots, j) + 1
                    } else {
                        0
                    },
                labels@.len() == i,
                forall|j: int| 0 <= j < i ==> #[trigger] labels@[j] == count_roots(roots, roots[j]),
            decreases n - i,
        {
            let root = uf.root(i);
            labels.push(merge_util.merge_proxy[root] - 1);
            i = i + 1;
        }
        proof {
            lemma_count_roots_bound(roots, n as int);
        }
        let mut k: usize = 0;
        while k < stack_size
            invariant
                k <= stack_size,
                stack_size == count_roots(roots, n as int),
                stack_size <= n,
                uf.wf(),
                uf.roots@ == roots,
                uf.n() == n,
                merge_util.stack@.len() == n,
                merge_util.merge_proxy@.len() == n,
                merge_util.seen@ == seen0,
                forall|j: int|
                    0 <= j < n ==> #[trigger] merge_util.merge_proxy@[j] == if roots[j] == j && count_roots(
                        roots,
                        j,
                    ) >= k {
                        count_roots(roots, j) + 1
                    } else {
                        0
                    },
                forall|m: int|
                    0 <= m < stack_size ==> 0 <= #[trigger] merge_util.stack@[m] < n && roots[merge_util.stack@[m] as int]
                        == merge_util.stack@[m] && count_roots(roots, merge_util.stack@[m] as int) == m,
            decreases stack_size - k,
        {
            let s = merge_util.stack[k];
            merge_util.merge_proxy.set(s, 0);
            proof {
                assert forall|j: int| 0 <= j < n && roots[j] == j && j != s implies count_roots(roots, j)
                    != k by {
                    if j < s {
                        lemma_count_roots_strict(roots, j, s as int);
                    } else {
                        lemma_count_roots_strict(roots, s as int, j);
                    }
                }
            }
            k = k + 1;
        }
        proof {
            assert forall|j: int| 0 <= j < n implies merge_util.merge_proxy@[j] == 0 by {
                if roots[j] == j {
                    lemma_count_roots_monotone(roots, j + 1, n as int);
                }
            }
            assert forall|a: int, b: int| 0 <= a < n && 0 <= b < n implies (labels@[a] == labels@[b])
                == (roots[a] == roots[b]) by {
                let ra = roots[a];
                let rb = roots[b];
                if ra < rb {
                    lemma_count_roots_strict(roots, ra, rb);
                } else if rb < ra {
                    lemma_count_roots_strict(roots, rb, ra);
                }
            }
            assert forall|a: int| 0 <= a < n implies #[trigger] labels@[a] < uf.count by {
                lemma_count_roots_monotone(roots, roots[a] + 1, n as int);
            }
        }
        labels
    }
}

/// What `union(p, q)` returning `r` does: the sets of `p` and `q` become one
/// under `r`, the representative with the larger size (of `p`'s on a tie),
/// whose size becomes the sum of both; the count drops by one unless they
/// were one already; other sets stay.
#[verifier::opaque]
pub open spec fn union_post(before: UnionFind, after: UnionFind, p: int, q: int, r: int) -> bool {
    let rp = before.root_of(p);
    let rq = before.root_of(q);
    &&& rp == rq ==> r == rp && after.roots@ == before.roots@ && after.count == before.count
        && after.sizes@ == before.sizes@
    &&& rp != rq ==> after.count == before.count - 1 && r == (if before.sizes@[rp] >= before.sizes@[rq] {
        rp
    } else {
        rq
    }) && after.sizes@ == before.sizes@.update(r, (before.sizes@[rp] + before.sizes@[rq]) as usize)
    &&& forall|i: int|
        0 <= i < before.n() ==> #[trigger] after.root_of(i) == if before.root_of(i) == rp
            || before.root_of(i) == rq {
            r
        } else {
            before.root_of(i)
        }
}

/// After `union(p, q)` two elements share a set exactly when they shared one
/// before, or one was with `p` and the other with `q`: so `connected` holds of
/// two elements exactly when a chain of unions joined them.
pub proof fn lemma_union_same_set(before: UnionFind, after: UnionFind, p: int, q: int, r: int)
    requires
        before.wf(),
        0 <= p < before.n(),
        0 <= q < before.n(),
        union_post(before, after, p, q, r),
    ensures
        after.same_set(p, q),
        forall|a: int, b: int|
            0 <= a < before.n() && 0 <= b < before.n() ==> (#[trigger] after.same_set(a, b) <==> (
            before.same_set(a, b) || (before.same_set(a, p) && before.same_set(b, q)) || (
            before.same_set(a, q) && before.same_set(b, p)))),
{
    reveal(union_post);
    let rp = before.root_of(p);
    let rq = before.root_of(q);
    assert(r == rp || r == rq);
    assert forall|a: int, b: int|
        0 <= a < before.n() && 0 <= b < before.n() implies (#[trigger] after.same_set(a, b) <==> (
        before.same_set(a, b) || (before.same_set(a, p) && before.same_set(b, q)) || (
        before.same_set(a, q) && before.same_set(b, p)))) by {
        assert(after.root_of(a) == if before.root_of(a) == rp || before.root_of(a) == rq {
            r
        } else {
            before.root_of(a)
        });
        assert(after.root_of(b) == if before.root_of(b) == rp || before.root_of(b) == rq {
            r
        } else {
            before.root_of(b)
        });
        let ra = before.root_of(a);
        let rb = before.root_of(b);
        assert(before.roots@[ra] == ra);
        assert(before.roots@[rb] == rb);
    }
    assert(after.root_of(p) == r);
    assert(after.root_of(q) == r);
}

proof fn lemma_all_singletons(roots: Seq<int>, sizes: Seq<usize>, k: int)
    requires
        0 <= k <= roots.len(),
        roots.len() == sizes.len(),
        forall|j: int| 0 <= j < roots.len() ==> roots[j] == j && sizes[j] == 1,
    ensures
        count_roots(roots, k) == k,
        size_sum(roots, sizes, k) == k,
    decreases k,
{
    if k > 0 {
        lemma_all_singletons(roots, sizes, k - 1);
    }
}

} // verus!
