use vstd::prelude::*;

verus! {

/// Sum of `w[0..k]`.
pub open spec fn prefix(w: Seq<usize>, k: int) -> int
    decreases k,
{
    if k <= 0 {
        0
    } else {
        prefix(w, k - 1) + w[k - 1]
    }
}

/// The largest power of two that divides `i` (zero for zero).
pub open spec fn lowbit(i: nat) -> nat
    decreases i,
{
    if i == 0 {
        0
    } else if i % 2 == 1 {
        1
    } else {
        2 * lowbit(i / 2)
    }
}

pub proof fn lemma_prefix_monotone(w: Seq<usize>, a: int, b: int)
    requires
        0 <= a <= b,
    ensures
        prefix(w, a) <= prefix(w, b),
    decreases b - a,
{
    if a < b {
        lemma_prefix_monotone(w, a, b - 1);
    }
}

/// Changing one weight moves every prefix that covers it by the same amount.
pub proof fn lemma_prefix_update(w: Seq<usize>, p: int, v: usize, k: int)
    requires
        0 <= p < w.len(),
        k <= w.len(),
    ensures
        prefix(w.update(p, v), k) == prefix(w, k) + if k > p { v - w[p] } else { 0 },
    decreases k,
{
    if k > 0 {
        lemma_prefix_update(w, p, v, k - 1);
    }
}

pub proof fn lemma_lowbit_range(i: nat)
    requires
        i > 0,
    ensures
        1 <= lowbit(i) <= i,
    decreases i,
{
    if i % 2 == 0 {
        lemma_lowbit_range(i / 2);
    }
}

/// Between `j` and its parent `j + lowbit(j)` no index reaches back to `j`,
/// and the parent's range reaches at least as far back as `j`'s.
pub proof fn lemma_lowbit_cover(j: nat, k: nat)
    requires
        j > 0,
    ensures
        j < k < j + lowbit(j) ==> k - lowbit(k) >= j,
        (j + lowbit(j)) - lowbit((j + lowbit(j)) as nat) <= j - lowbit(j),
    decreases j,
{
    lemma_lowbit_range(j);
    let jj = (j + lowbit(j)) as nat;
    if j % 2 == 1 {
        assert(jj == j + 1);
        assert(jj % 2 == 0);
        lemma_lowbit_range(jj / 2);
    } else {
        let h = j / 2;
        lemma_lowbit_cover(h, k / 2);
        assert(jj == 2 * (h + lowbit(h)));
        assert(jj / 2 == h + lowbit(h));
        if j < k < j + lowbit(j) {
            if k % 2 == 0 {
                assert(h < k / 2 < h + lowbit(h));
                assert(lowbit(k) == 2 * lowbit(k / 2));
            } else {
                assert(lowbit(k) == 1);
            }
        }
    }
}

proof fn lemma_lowbit_bits(i: u64)
    requires
        i > 0,
    ensures
        !i < 0xffff_ffff_ffff_ffffu64,
        lowbit(i as nat) == (i & ((!i) + 1) as u64),
    decreases i,
{
    assert(i > 0 ==> !i < 0xffff_ffff_ffff_ffffu64) by (bit_vector);
    if i % 2 == 1 {
        assert(i % 2 == 1 ==> i & ((!i) + 1) as u64 == 1) by (bit_vector);
    } else {
        let h: u64 = i / 2;
        assert(i % 2 == 0 && h == i / 2 && i > 0 ==> h > 0) by (bit_vector);
        lemma_lowbit_bits(h);
        assert(i % 2 == 0 && i > 0 && h == i / 2 ==> (i & ((!i) + 1) as u64) == 2 * (h & ((!h)
            + 1) as u64)) by (bit_vector);
    }
}

/// The lowest set bit of `i`.
fn lowbit_of(i: usize) -> (r: usize)
    requires
        i > 0,
    ensures
        r == lowbit(i as nat),
        1 <= r <= i,
{
    let x = i as u64;
    proof {
        lemma_lowbit_bits(x);
        lemma_lowbit_range(i as nat);
    }
    (x & ((!x) + 1)) as usize
}

/// A Fenwick tree over the weights `weights`: `tree[i]` holds the sum of the
/// weights at `i - lowbit(i) .. i` (slot `i` stands for key `i - 1`).
pub struct FenwickTree {
    pub n: usize,
    pub tree: Vec<usize>,
    pub weights: Ghost<Seq<usize>>,
}

impl FenwickTree {
    pub open spec fn wf(&self) -> bool {
        &&& self.n >= 1
        &&& self.n <= usize::MAX / 2
        &&& self.tree@.len() == self.n
        &&& self.weights@.len() == self.n - 1
        &&& self.tree@[0] == 0
        &&& forall|i: int|
            1 <= i < self.n ==> #[trigger] self.tree@[i] == prefix(self.weights@, i) - prefix(
                self.weights@,
                i - lowbit(i as nat),
            )
        &&& prefix(self.weights@, self.n - 1) <= usize::MAX
    }

    /// Number of keys.
    pub open spec fn len(&self) -> int {
        self.n - 1
    }

    /// Sum of all weights.
    pub open spec fn total(&self) -> int {
        prefix(self.weights@, self.n - 1)
    }

    /// `n` keys of weight zero.
    pub fn new(n: usize) -> (r: FenwickTree)
        requires
            n < usize::MAX / 2,
        ensures
            r.wf(),
            r.weights@ == Seq::new(n as nat, |i: int| 0usize),
    {
        let ghost w = Seq::new(n as nat, |i: int| 0usize);
        proof {
            assert forall|k: int| 0 <= k <= n implies prefix(w, k) == 0 by {
                lemma_prefix_zero(w, k);
            }
        }
        FenwickTree { n: n + 1, tree: vec![0; n + 1], weights: Ghost(w) }
    }

    /// Builds the tree over `arr` in linear time.
    pub fn from(arr: &[usize]) -> (r: FenwickTree)
        requires
            arr@.len() < usize::MAX / 2,
            prefix(arr@, arr@.len() as int) <= usize::MAX,
        ensures
            r.wf(),
            r.weights@ == arr@,
    {
        let len = arr.len();
        let ghost w = arr@;
        let mut sums: Vec<usize> = Vec::new();
        sums.push(0);
        let mut i: usize = 0;
        while i < len
            invariant
                i <= len,
                len == w.len(),
                w == arr@,
                prefix(w, len as int) <= usize::MAX,
                sums@.len() == i + 1,
                forall|k: int| 0 <= k <= i ==> #[trigger] sums@[k] == prefix(w, k),
            decreases len - i,
        {
            proof {
                lemma_prefix_monotone(w, i + 1, len as int);
            }
            let s = sums[i] + arr[i];
            sums.push(s);
            i = i + 1;
        }
        let mut tree: Vec<usize> = Vec::new();
        tree.push(0);
        let mut i: usize = 1;
        while i <= len
            invariant
                1 <= i <= len + 1,
                len == w.len(),
                len < usize::MAX / 2,
                sums@.len() == len + 1,
                forall|k: int| 0 <= k <= len ==> #[trigger] sums@[k] == prefix(w, k),
                tree@.len() == i,
                tree@[0] == 0,
                forall|k: int|
                    1 <= k < i ==> #[trigger] tree@[k] == prefix(w, k) - prefix(
                        w,
                        k - lowbit(k as nat),
                    ),
            decreases len + 1 - i,
        {
            let b = lowbit_of(i);
            proof {
                lemma_prefix_monotone(w, (i - b) as int, i as int);
            }
            tree.push(sums[i] - sums[i - b]);
            i = i + 1;
        }
        FenwickTree { n: len + 1, tree, weights: Ghost(w) }
    }

    /// Sum of the weights of keys `0..=id`.
    pub fn query(&self, id: usize) -> (r: usize)
        requires
            self.wf(),
            id < self.len(),
        ensures
            r == prefix(self.weights@, id + 1),
    {
        let ghost w = self.weights@;
        let mut i: usize = id + 1;
        let mut sum: usize = 0;
        while i > 0
            invariant
                self.wf(),
                w == self.weights@,
                i <= id + 1,
                id < self.len(),
                sum + prefix(w, i as int) == prefix(w, id + 1),
            decreases i,
        {
            let b = lowbit_of(i);
            proof {
                lemma_prefix_monotone(w, (i - b) as int, i as int);
                lemma_prefix_monotone(w, id + 1, self.n - 1);
                lemma_prefix_monotone(w, 0, (i - b) as int);
            }
            sum = sum + self.tree[i];
            i = i - b;
        }
        sum
    }

    /// Adds `val` to the weight of key `id`, or takes it away when `subtract`.
    pub fn update(&mut self, id: usize, val: usize, subtract: bool)
        requires
            old(self).wf(),
            id < old(self).len(),
            subtract ==> val <= old(self).weights@[id as int],
            !subtract ==> old(self).total() + val <= usize::MAX,
        ensures
            final(self).wf(),
            final(self).n == old(self).n,
            final(self).weights@ == old(self).weights@.update(
                id as int,
                (if subtract {
                    old(self).weights@[id as int] - val
                } else {
                    old(self).weights@[id as int] + val
                }) as usize,
            ),
    {
        let ghost w = self.weights@;
        let ghost nv = (if subtract {
            w[id as int] - val
        } else {
            w[id as int] + val
        }) as usize;
        let ghost w2 = w.update(id as int, nv);
        proof {
            lemma_prefix_update(w, id as int, nv, self.n - 1);
            lemma_prefix_monotone(w, id + 1, self.n - 1);
            lemma_prefix_monotone(w, 0, id as int);
            lemma_lowbit_range(id as nat + 1);
            assert forall|k: int| 1 <= k <= id implies #[trigger] prefix(w2, k) - prefix(w2, k - lowbit(k as nat))
                == prefix(w, k) - prefix(w, k - lowbit(k as nat)) by {
                lemma_lowbit_range(k as nat);
                lemma_prefix_update(w, id as int, nv, k);
                lemma_prefix_update(w, id as int, nv, k - lowbit(k as nat));
            }
        }
        let n = self.n;
        let mut j: usize = id + 1;
        while j < n
            invariant
                n == self.n,
                n >= 1,
                n <= usize::MAX / 2,
                self.tree@.len() == n,
                self.tree@[0] == 0,
                w.len() == n - 1,
                w2 == w.update(id as int, nv),
                nv == (if subtract {
                    w[id as int] - val
                } else {
                    w[id as int] + val
                }),
                id < n - 1,
                prefix(w2, n - 1) <= usize::MAX,
                j >= id + 1,
                j < n ==> j - lowbit(j as nat) <= id,
                forall|k: int|
                    1 <= k < n ==> #[trigger] self.tree@[k] == if k < j {
                        prefix(w2, k) - prefix(w2, k - lowbit(k as nat))
                    } else {
                        prefix(w, k) - prefix(w, k - lowbit(k as nat))
                    },
            decreases usize::MAX - j,
        {
            let b = lowbit_of(j);
            proof {
                lemma_prefix_update(w, id as int, nv, j as int);
                lemma_prefix_update(w, id as int, nv, (j - b) as int);
                lemma_prefix_monotone(w2, (j - b) as int, j as int);
                lemma_prefix_monotone(w2, j as int, n - 1);
                lemma_prefix_monotone(w2, 0, (j - b) as int);
            }
            let t = self.tree[j];
            if subtract {
                self.tree.set(j, t - val);
            } else {
                self.tree.set(j, t + val);
            }
            proof {
                let jj = j + b;
                assert forall|k: int| j < k < jj && k < n implies #[trigger] self.tree@[k] == prefix(
                    w2,
                    k,
                ) - prefix(w2, k - lowbit(k as nat)) by {
                    lemma_lowbit_cover(j as nat, k as nat);
                    lemma_lowbit_range(k as nat);
                    lemma_prefix_update(w, id as int, nv, k);
                    lemma_prefix_update(w, id as int, nv, k - lowbit(k as nat));
                }
                lemma_lowbit_cover(j as nat, 0);
            }
            j = j + b;
        }
        self.weights = Ghost(w2);
        proof {
            assert forall|k: int| 1 <= k < n implies #[trigger] self.tree@[k] == prefix(w2, k)
                - prefix(w2, k - lowbit(k as nat)) by {}
        }
    }

    /// The key owning the slice of mass that holds `val`: the smallest `i`
    /// with `val <= query(i)`, with the sum of the weights before it. A `val`
    /// above the total gives the last key.
    pub fn lower_entry(&self, val: usize) -> (r: (usize, usize))
        requires
            self.wf(),
            self.len() >= 1,
        ensures
            r.1 == prefix(self.weights@, r.0 as int),
            val <= self.total() ==> r.0 < self.len() && val <= prefix(self.weights@, r.0 + 1) && (
            r.0 == 0 || prefix(self.weights@, r.0 as int) < val),
            val > self.total() ==> r.0 == self.len() - 1,
    {
        let ghost w = self.weights@;
        proof {
            assert(lowbit(1) == 1);
            assert(prefix(w, 0) == 0);
            assert(prefix(w, 1) == w[0]);
            lemma_prefix_monotone(w, 1, self.n - 1);
        }
        if val <= self.tree[1] {
            return (0, 0);
        }
        let mut start: usize = 1;
        let mut end: usize = self.n - 2;
        if start > end {
            // one key: the value lies above the total, so the last key is the first
            return (0, 0);
        }
        while start < end
            invariant
                self.wf(),
                w == self.weights@,
                1 <= start <= end <= self.n - 2,
                prefix(w, start as int) < val,
                end < self.n - 2 ==> val <= prefix(w, end + 1),
            decreases end - start,
        {
            let mid = (start + end) / 2;
            let mid_val = self.query(mid);
            if mid_val >= val {
                end = mid;
            } else {
                start = mid + 1;
            }
        }
        let before = self.query(start - 1);
        proof {
            if val <= self.total() && start == self.n - 2 {
                assert(prefix(w, start + 1) == self.total());
            }
            if val > self.total() && start < self.n - 2 {
                lemma_prefix_monotone(w, start + 1, self.n - 1);
            }
        }
        (start, before)
    }

    /// Sum of all weights.
    pub fn sum(&self) -> (r: usize)
        requires
            self.wf(),
            self.len() >= 1,
        ensures
            r == self.total(),
    {
        self.query(self.n - 2)
    }
}

proof fn lemma_prefix_zero(w: Seq<usize>, k: int)
    requires
        0 <= k <= w.len(),
        forall|i: int| 0 <= i < w.len() ==> w[i] == 0,
    ensures
        prefix(w, k) == 0,
    decreases k,
{
    if k > 0 {
        lemma_prefix_zero(w, k - 1);
    }
}

} // verus!
