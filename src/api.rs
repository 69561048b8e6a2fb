use vstd::prelude::*;

verus! {

/// A directed edge `(source, target)`, of weight one unless a weight is given.
#[derive(Debug, Clone, Copy, PartialEq, Eq)]
pub enum DirectedEdge {
    Unweighted(usize, usize),
    Weighted(usize, usize, usize),
}

impl DirectedEdge {
    pub open spec fn source(self) -> usize {
        match self {
            DirectedEdge::Unweighted(v, _) => v,
            DirectedEdge::Weighted(v, _, _) => v,
        }
    }

    pub open spec fn target(self) -> usize {
        match self {
            DirectedEdge::Unweighted(_, w) => w,
            DirectedEdge::Weighted(_, w, _) => w,
        }
    }

    pub open spec fn weight(self) -> usize {
        match self {
            DirectedEdge::Unweighted(_, _) => 1,
            DirectedEdge::Weighted(_, _, weight) => weight,
        }
    }
}

impl From<(usize, usize)> for DirectedEdge {
    fn from(value: (usize, usize)) -> (r: DirectedEdge) {
        DirectedEdge::Unweighted(value.0, value.1)
    }
}

impl vstd::std_specs::convert::FromSpecImpl<(usize, usize)> for DirectedEdge {
    open spec fn obeys_from_spec() -> bool {
        true
    }

    open spec fn from_spec(v: (usize, usize)) -> DirectedEdge {
        DirectedEdge::Unweighted(v.0, v.1)
    }
}

impl From<(usize, usize, usize)> for DirectedEdge {
    fn from(value: (usize, usize, usize)) -> (r: DirectedEdge) {
        DirectedEdge::Weighted(value.0, value.1, value.2)
    }
}

impl vstd::std_specs::convert::FromSpecImpl<(usize, usize, usize)> for DirectedEdge {
    open spec fn obeys_from_spec() -> bool {
        true
    }

    open spec fn from_spec(v: (usize, usize, usize)) -> DirectedEdge {
        DirectedEdge::Weighted(v.0, v.1, v.2)
    }
}

} // verus!
