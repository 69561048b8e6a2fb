use vstd::prelude::*;

use crate::graph::{cut_result, is_cut_weight, quotient_of, Graph};

verus! {

/// Karger's algorithm: each trial contracts the graph down to two vertices.
pub struct KargerAlgo<'a> {
    graph: &'a Graph,
}

/// The least of `t`; `usize::MAX` when `t` is empty.
pub open spec fn least(t: Seq<usize>) -> usize
    decreases t.len(),
{
    if t.len() == 0 {
        usize::MAX
    } else {
        let m = least(t.drop_last());
        if t.last() < m {
            t.last()
        } else {
            m
        }
    }
}

/// `x`, saturated at `usize::MAX`.
pub open spec fn saturate(x: int) -> int {
    if x > usize::MAX {
        usize::MAX as int
    } else {
        x
    }
}

/// The trial budget after the trial results `t`: it starts at `init`, and a
/// result below all earlier ones, at trial `i` (from one), moves it to
/// `factor * i + step`, saturating.
pub open spec fn budget(t: Seq<usize>, init: int, factor: int, step: int) -> int
    decreases t.len(),
{
    if t.len() == 0 {
        init
    } else if t.last() < least(t.drop_last()) {
        saturate(factor * t.len() + step)
    } else {
        budget(t.drop_last(), init, factor, step)
    }
}

pub proof fn lemma_push_drop(t: Seq<usize>, c: usize)
    ensures
        t.push(c).drop_last() == t,
        t.push(c).last() == c,
{
    assert(t.push(c).drop_last() =~= t);
}

/// The adaptive trial budget after trial `i` (counted from one) produced
/// `candidate`: an improvement on `min_cut` becomes the new minimum and moves
/// the budget to `2 * i + step`, saturating; otherwise nothing changes.
pub fn karger_budget_step(i: usize, step: usize, num_trials: usize, min_cut: usize, candidate: usize) -> (r: (
    usize,
    usize,
))
    ensures
        candidate < min_cut ==> r.0 == candidate && r.1 == saturate(2 * i + step),
        candidate >= min_cut ==> r == (min_cut, num_trials),
{
    if candidate < min_cut {
        (candidate, i.saturating_add(i).saturating_add(step))
    } else {
        (min_cut, num_trials)
    }
}

impl<'a> KargerAlgo<'a> {
    pub fn new(graph: &'a Graph) -> (r: KargerAlgo<'a>)
        ensures
            r.graph() == graph,
    {
        KargerAlgo { graph }
    }

    pub closed spec fn graph(&self) -> &'a Graph {
        self.graph
    }

    pub fn get_graph(&self) -> (r: &'a Graph)
        ensures
            r == self.graph(),
    {
        self.graph
    }

    /// One trial: the weight of a random contraction to two vertices, which is
    /// the weight crossing a split of the vertices in two.
    pub fn iterate(&self) -> (r: usize)
        requires
            self.graph().wf(),
            self.graph().n >= 2,
        ensures
            r <= self.graph().weight,
            cut_result(self.graph(), r as int),
    {
        let contracted = self.graph.contract_full();
        proof {
            let part = choose|part: Seq<int>| quotient_of(&contracted, self.graph(), part);
            assert(is_cut_weight(self.graph(), part, contracted.n as int, contracted.weight as int));
        }
        contracted.weight()
    }

    /// The least result of `n` trials; `usize::MAX` when `n` is zero.
    pub fn iterate_n(&self, n: usize) -> (r: usize)
        requires
            self.graph().wf(),
            self.graph().n >= 2,
        ensures
            exists|t: Seq<usize>|
                t.len() == n && r == least(t) && forall|i: int|
                    0 <= i < t.len() ==> #[trigger] t[i] <= self.graph().weight && cut_result(
                        self.graph(),
                        t[i] as int,
                    ),
            n == 0 ==> r == usize::MAX,
            n > 0 ==> r <= self.graph().weight && cut_result(self.graph(), r as int),
    {
        let mut min_cut = usize::MAX;
        let ghost mut t: Seq<usize> = Seq::empty();
        let mut k: usize = 0;
        while k < n
            invariant
                self.graph().wf(),
                self.graph().n >= 2,
                k <= n,
                t.len() == k,
                min_cut == least(t),
                forall|i: int|
                    0 <= i < t.len() ==> #[trigger] t[i] <= self.graph().weight && cut_result(
                        self.graph(),
                        t[i] as int,
                    ),
                k > 0 ==> min_cut <= self.graph().weight && cut_result(self.graph(), min_cut as int),
            decreases n - k,
        {
            let c = self.iterate();
            proof {
                lemma_push_drop(t, c);
                t = t.push(c);
            }
            if c < min_cut {
                min_cut = c;
            }
            k = k + 1;
        }
        min_cut
    }

    /// Trials under an adaptive budget that starts at `n * n` and moves to
    /// `2 * i + n` whenever trial `i` improves the minimum. Returns the least
    /// result and the number of trials run, which is the final budget.
    pub fn approx_min_cut(&self) -> (r: (usize, usize))
        requires
            self.graph().wf(),
            self.graph().n >= 2,
        ensures
            exists|t: Seq<usize>|
                t.len() == r.1 && r.0 == least(t) && r.1 == budget(
                    t,
                    saturate(self.graph().n * self.graph().n),
                    2,
                    self.graph().n as int,
                ) && forall|i: int|
                    0 <= i < t.len() ==> #[trigger] t[i] <= self.graph().weight && cut_result(
                        self.graph(),
                        t[i] as int,
                    ),
            r.1 >= 1,
            r.0 <= self.graph().weight,
            cut_result(self.graph(), r.0 as int),
    {
        let step = self.graph.num_vertices();
        let ghost init = saturate(step * step);
        let mut num_trials = match step.checked_mul(step) {
            Some(s) => s,
            None => usize::MAX,
        };
        let mut min_cut = usize::MAX;
        let ghost mut t: Seq<usize> = Seq::empty();
        let mut i: usize = 0;
        proof {
            assert(step * step >= 4) by (nonlinear_arith)
                requires step >= 2;
        }
        while i < num_trials
            invariant
                self.graph().wf(),
                self.graph().n >= 2,
                step == self.graph().n,
                init == saturate(step * step),
                t.len() == i,
                i <= num_trials,
                num_trials == budget(t, init, 2, step as int),
                min_cut == least(t),
                forall|j: int|
                    0 <= j < t.len() ==> #[trigger] t[j] <= self.graph().weight && cut_result(
                        self.graph(),
                        t[j] as int,
                    ),
                i > 0 ==> min_cut <= self.graph().weight && cut_result(self.graph(), min_cut as int),
            decreases min_cut, num_trials - i,
        {
            i = i + 1;
            let c = self.iterate();
            let (m, b) = karger_budget_step(i, step, num_trials, min_cut, c);
            proof {
                lemma_push_drop(t, c);
                t = t.push(c);
            }
            min_cut = m;
            num_trials = b;
        }
        (min_cut, num_trials)
    }
}

} // verus!
