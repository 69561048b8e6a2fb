use vstd::prelude::*;

use crate::graph::{cut_result, has_member, is_cut_weight, lemma_internal_bounds, quotient_of, Graph};
use crate::quotient::{compose, internal, lemma_internal_compose};
use crate::karger::{budget, lemma_push_drop, least, saturate, KargerAlgo};

verus! {

/// The Karger–Stein algorithm: contract to about `n / sqrt(2)` vertices twice
/// independently and recurse on both, down to graphs of at most `N` vertices,
/// which get plain Karger trials.
pub struct KargerSteinAlgo<'a, const N: usize> {
    graph: &'a Graph,
}

/// The smallest `t` with `2 * t * t >= n * n`, that is `ceil(n / sqrt(2))`.
pub fn ceil_div_sqrt2(n: usize) -> (t: usize)
    requires
        n < usize::MAX / 2,
    ensures
        2 * t * t >= n * n,
        t == 0 || 2 * (t - 1) * (t - 1) < n * n,
        t <= n,
{
    proof {
        assert((n as int) * (n as int) < 0x4000_0000_0000_0000_0000_0000_0000_0000) by (nonlinear_arith)
            requires n < 0x8000_0000_0000_0000int;
    }
    let nn: u128 = (n as u128) * (n as u128);
    let mut t: usize = 0;
    loop
        invariant
            n < usize::MAX / 2,
            nn == n * n,
            t <= n,
            t == 0 || 2 * (t - 1) * (t - 1) < n * n,
        decreases n - t,
    {
        let tt: u128 = t as u128;
        proof {
            assert(tt * tt <= (n as int) * (n as int)) by (nonlinear_arith)
                requires tt <= n;
            assert((n as int) * (n as int) < 0x4000_0000_0000_0000_0000_0000_0000_0000) by (nonlinear_arith)
                requires n < 0x8000_0000_0000_0000int;
        }
        let sq = tt * tt;
        if 2 * sq >= nn {
            proof {
                assert(2 * t * t >= n * n) by (nonlinear_arith)
                    requires 2 * sq >= nn, sq == t * t, nn == n * n;
            }
            return t;
        }
        proof {
            assert(2 * t * t < n * n) by (nonlinear_arith)
                requires 2 * sq < nn, sq == t * t, nn == n * n;
            assert(t < n) by (nonlinear_arith)
                requires 2 * t * t < n * n, t <= n;
        }
        t = t + 1;
    }
}

/// Every graph of `2..=n_max` vertices gets at least one base-case trial.
pub open spec fn base_ok(base_trials: Seq<usize>, n_max: int) -> bool {
    forall|k: int| 2 <= k <= n_max ==> #[trigger] base_trials[k] > 0
}

/// What one trial on `g` may return: `usize::MAX` only where a base case ran
/// no trial, and otherwise the weight crossing a split of `g`.
pub open spec fn trial_ok(g: &Graph, c: int, base_trials: Seq<usize>, n_max: int) -> bool {
    &&& c == usize::MAX || (c <= g.weight && cut_result(g, c))
    &&& base_ok(base_trials, n_max) ==> c <= g.weight && cut_result(g, c)
}

/// The adaptive trial budget after trial `i` produced `candidate`: an
/// improvement on `min_cut` becomes the new minimum and moves the budget to
/// `i + step`, saturating; otherwise nothing changes.
pub fn karger_stein_budget_step(i: usize, step: usize, num_trials: usize, min_cut: usize, candidate: usize) -> (r: (
    usize,
    usize,
))
    ensures
        candidate < min_cut ==> r.0 == candidate && r.1 == saturate(i + step),
        candidate >= min_cut ==> r == (min_cut, num_trials),
{
    if candidate < min_cut {
        (candidate, i.saturating_add(step))
    } else {
        (min_cut, num_trials)
    }
}

impl<'a, const N: usize> KargerSteinAlgo<'a, N> {
    pub fn new(graph: &'a Graph) -> (r: KargerSteinAlgo<'a, N>)
        requires
            N >= 2,
        ensures
            r.graph() == graph,
    {
        KargerSteinAlgo { graph }
    }

    pub closed spec fn graph(&self) -> &'a Graph {
        self.graph
    }

    pub fn get_graph(&self) -> (r: &'a Graph)
        ensures
            r == self.graph(),
    {
        self.graph
    }

    /// The size that one partial contraction aims at for `n > N` vertices:
    /// `max(2, ceil(n / sqrt(2)))`, kept below `n` so that each level shrinks.
    pub fn partial_size(n: usize) -> (t: usize)
        requires
            3 <= n < usize::MAX / 2,
        ensures
            2 <= t < n,
            t < n - 1 ==> 2 * t * t >= n * n && (t == 2 || 2 * (t - 1) * (t - 1) < n * n),
    {
        let c = ceil_div_sqrt2(n);
        let t = if c < 2 {
            2
        } else {
            c
        };
        if t >= n {
            n - 1
        } else {
            t
        }
    }

    /// One recursive trial: above `N` vertices, the smaller of the trials on
    /// two independent partial contractions. `base_trials[k]` is the number of
    /// Karger trials spent on a graph of `k <= N` vertices. The result is the weight crossing
    /// a split of the vertices in two (or zero, when the graph falls apart into
    /// more pieces), or `usize::MAX` where a base case ran no trial.
    pub fn iterate(&self, base_trials: &Vec<usize>) -> (r: usize)
        requires
            self.graph().wf(),
            self.graph().n >= 2,
            N >= 2,
            base_trials@.len() > N,
        ensures
            trial_ok(self.graph(), r as int, base_trials@, N as int),
            self.graph().n > N && self.graph().weight > 0 ==> exists|c1: usize, c2: usize|
                #![trigger trial_ok(self.graph(), c1 as int, base_trials@, N as int), trial_ok(self.graph(), c2 as int, base_trials@, N as int)]
                trial_ok(self.graph(), c1 as int, base_trials@, N as int) && trial_ok(
                    self.graph(),
                    c2 as int,
                    base_trials@,
                    N as int,
                ) && r == (if c1 < c2 {
                    c1
                } else {
                    c2
                }),
        decreases self.graph().n,
    {
        let n = self.graph.num_vertices();
        if n <= N {
            let karger = KargerAlgo::new(self.graph);
            let c = karger.iterate_n(base_trials[n]);
            proof {
                if base_ok(base_trials@, N as int) {
                    assert(base_trials@[n as int] > 0);
                }
            }
            c
        } else if self.graph.weight() == 0 {
            proof {
                let g = self.graph();
                let part = Seq::new(g.n as nat, |a: int| if a == 0 { 0int } else { 1int });
                lemma_internal_bounds(g.adj@, part, g.n as int);
                assert(part[0] == 0);
                assert(has_member(part, g.n as int, 0));
                assert(part[1] == 1);
                assert(has_member(part, g.n as int, 1));
                assert(is_cut_weight(g, part, 2, 0));
                assert(cut_result(g, 0));
            }
            0
        } else {
            let t = Self::partial_size(n);
            let g1 = self.graph.contract(t);
            let g2 = self.graph.contract(t);
            let c1 = self.branch(&g1, base_trials);
            let c2 = self.branch(&g2, base_trials);
            proof {
                let r = if c1 < c2 { c1 } else { c2 };
                assert(trial_ok(self.graph(), c1 as int, base_trials@, N as int) && trial_ok(
                    self.graph(),
                    c2 as int,
                    base_trials@,
                    N as int,
                ) && r == (if c1 < c2 { c1 } else { c2 }));
            }
            if c1 < c2 {
                c1
            } else {
                c2
            }
        }
    }

    /// The trial on a partial contraction `g1` of the graph, read as a cut of
    /// the graph itself.
    fn branch(&self, g1: &Graph, base_trials: &Vec<usize>) -> (r: usize)
        requires
            self.graph().wf(),
            N >= 2,
            base_trials@.len() > N,
            g1.wf(),
            2 <= g1.n < self.graph().n,
            g1.weight <= self.graph().weight,
            exists|part: Seq<int>| quotient_of(g1, self.graph(), part),
        ensures
            trial_ok(self.graph(), r as int, base_trials@, N as int),
        decreases self.graph().n, 0nat,
    {
        let ghost g = self.graph();
        let ghost p1 = choose|part: Seq<int>| quotient_of(g1, g, part);
        if g1.weight() == 0 {
            proof {
                assert(is_cut_weight(g, p1, g1.n as int, 0));
                assert(cut_result(g, 0));
            }
            0
        } else {
            let c = KargerSteinAlgo::<N>::new(g1).iterate(base_trials);
            proof {
                if c != usize::MAX || base_ok(base_trials@, N as int) {
                    assert(cut_result(g1, c as int));
                    let (p2, m) = choose|p2: Seq<int>, m: int| is_cut_weight(g1, p2, m, c as int) && (m == 2 || c == 0);
                    let q = compose(p1, p2);
                    lemma_internal_compose(g.adj@, g.n as int, p1, g1.n as int, g1.adj@, p2);
                    assert forall|a: int| 0 <= a < g.n implies 0 <= #[trigger] q[a] < m by {
                        assert(0 <= p1[a] < g1.n);
                    }
                    assert forall|k: int| 0 <= k < m implies #[trigger] has_member(q, g.n as int, k) by {
                        assert(has_member(p2, g1.n as int, k));
                        let b = choose|b: int| 0 <= b < g1.n && #[trigger] p2[b] == k;
                        assert(has_member(p1, g.n as int, b));
                        let a = choose|a: int| 0 <= a < g.n && #[trigger] p1[a] == b;
                        assert(q[a] == k);
                    }
                    assert(is_cut_weight(g, q, m, c as int));
                    assert(cut_result(g, c as int));
                }
            }
            c
        }
    }

    /// The least result of `n` trials; `usize::MAX` when `n` is zero.
    pub fn iterate_n(&self, n: usize, base_trials: &Vec<usize>) -> (r: usize)
        requires
            self.graph().wf(),
            self.graph().n >= 2,
            N >= 2,
            base_trials@.len() > N,
        ensures
            exists|t: Seq<usize>|
                t.len() == n && r == least(t) && forall|i: int|
                    0 <= i < t.len() ==> #[trigger] trial_ok(self.graph(), t[i] as int, base_trials@, N as int),
            n == 0 ==> r == usize::MAX,
            trial_ok(self.graph(), r as int, base_trials@, N as int) || n == 0,
    {
        let mut min_cut = usize::MAX;
        let ghost mut t: Seq<usize> = Seq::empty();
        let mut k: usize = 0;
        while k < n
            invariant
                self.graph().wf(),
                self.graph().n >= 2,
                N >= 2,
                base_trials@.len() > N,
                k <= n,
                t.len() == k,
                min_cut == least(t),
                forall|i: int|
                    0 <= i < t.len() ==> #[trigger] trial_ok(self.graph(), t[i] as int, base_trials@, N as int),
                k > 0 ==> trial_ok(self.graph(), min_cut as int, base_trials@, N as int),
            decreases n - k,
        {
            let c = self.iterate(base_trials);
            proof {
                lemma_push_drop(t, c);
                t = t.push(c);
            }
            if c < min_cut {
                min_cut = c;
            }
            k = k + 1;
        }
        min_cut
    }

    /// Trials under an adaptive budget that starts at `step` and moves to
    /// `i + step` whenever trial `i` improves the minimum. Returns the least
    /// result and the number of trials run, which is the final budget.
    pub fn approx_min_cut(&self, step: usize, base_trials: &Vec<usize>) -> (r: (usize, usize))
        requires
            self.graph().wf(),
            self.graph().n >= 2,
            N >= 2,
            base_trials@.len() > N,
        ensures
            exists|t: Seq<usize>|
                t.len() == r.1 && r.0 == least(t) && r.1 == budget(t, step as int, 1, step as int)
                    && forall|i: int|
                    0 <= i < t.len() ==> #[trigger] trial_ok(self.graph(), t[i] as int, base_trials@, N as int),
            step == 0 ==> r == (usize::MAX, 0usize),
            step > 0 ==> trial_ok(self.graph(), r.0 as int, base_trials@, N as int),
    {
        let mut num_trials = step;
        let mut min_cut = usize::MAX;
        let ghost mut t: Seq<usize> = Seq::empty();
        let mut i: usize = 0;
        while i < num_trials
            invariant
                self.graph().wf(),
                self.graph().n >= 2,
                N >= 2,
                base_trials@.len() > N,
                t.len() == i,
                i <= num_trials,
                num_trials == budget(t, step as int, 1, step as int),
                min_cut == least(t),
                forall|j: int|
                    0 <= j < t.len() ==> #[trigger] trial_ok(self.graph(), t[j] as int, base_trials@, N as int),
                i > 0 ==> trial_ok(self.graph(), min_cut as int, base_trials@, N as int),
                step == 0 ==> num_trials == 0,
            decreases min_cut, num_trials - i,
        {
            i = i + 1;
            let c = self.iterate(base_trials);
            let (m, b) = karger_stein_budget_step(i, step, num_trials, min_cut, c);
            proof {
                lemma_push_drop(t, c);
                t = t.push(c);
            }
            min_cut = m;
            num_trials = b;
        }
        (min_cut, num_trials)
    }
}

} // verus!
