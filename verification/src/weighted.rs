//! A small undirected weighted-graph planning domain: states are node
//! indices, a control names the node to move to, and each edge carries an
//! explicit symmetric cost.  Useful for exercising dominance pruning with
//! unequal arrival costs.

use vstd::prelude::*;

use crate::model::{Model, Sampler};

verus! {

/// The weight of the first listed edge joining `a` and `b`, in either
/// orientation, if one is listed.
pub open spec fn find_edge(edges: Seq<(u64, u64, u64)>, a: u64, b: u64) -> Option<u64>
    decreases edges.len(),
{
    if edges.len() == 0 {
        None
    } else if (edges[0].0 == a && edges[0].1 == b) || (edges[0].0 == b && edges[0].1 == a) {
        Some(edges[0].2)
    } else {
        find_edge(edges.drop_first(), a, b)
    }
}

/// The graph domain: an explicit undirected edge list with weights; the
/// heuristic is identically zero, so search degenerates to uniform-cost
/// order.
pub struct WeightedModel {
    /// Undirected weighted edges `(a, b, weight)`.
    pub edges: Vec<(u64, u64, u64)>,
}

impl WeightedModel {
    /// The weight of the edge joining `a` and `b`, if any.
    pub fn edge_weight(&self, a: u64, b: u64) -> (r: Option<u64>)
        ensures
            r == find_edge(self.edges@, a, b),
    {
        let mut i: usize = 0;
        proof {
            assert(self.edges@.skip(0) =~= self.edges@);
        }
        while i < self.edges.len()
            invariant
                i <= self.edges@.len(),
                find_edge(self.edges@, a, b) == find_edge(self.edges@.skip(i as int), a, b),
            decreases self.edges@.len() - i,
        {
            let e = self.edges[i];
            proof {
                assert(self.edges@.skip(i as int)[0] == e);
                assert(self.edges@.skip(i as int).drop_first() =~= self.edges@.skip(i + 1));
            }
            if (e.0 == a && e.1 == b) || (e.0 == b && e.1 == a) {
                return Some(e.2);
            }
            i = i + 1;
        }
        None
    }
}

impl Model for WeightedModel {
    type State = u64;

    type Control = u64;

    open spec fn spec_integrate(&self, s: u64, c: u64) -> Option<u64> {
        if find_edge(self.edges@, s, c) is Some {
            Some(c)
        } else {
            None
        }
    }

    open spec fn spec_cost(&self, from: u64, to: u64) -> u64 {
        match find_edge(self.edges@, from, to) {
            Some(w) => w,
            None => 0,
        }
    }

    open spec fn spec_heuristic(&self, s: u64, goal: u64) -> u64 {
        0
    }

    open spec fn spec_converge(&self, s: u64, goal: u64) -> bool {
        s == goal
    }

    open spec fn spec_key(&self, s: u64) -> u64 {
        s
    }

    open spec fn spec_default_control(&self) -> u64 {
        0
    }

    fn integrate(&self, s: &u64, c: &u64) -> (r: Option<u64>)
        ensures
            r == self.spec_integrate(*s, *c),
    {
        match self.edge_weight(*s, *c) {
            Some(_) => Some(*c),
            None => None,
        }
    }

    fn cost(&self, from: &u64, to: &u64) -> (r: u64)
        ensures
            r == self.spec_cost(*from, *to),
    {
        match self.edge_weight(*from, *to) {
            Some(w) => w,
            None => 0,
        }
    }

    fn heuristic(&self, s: &u64, goal: &u64) -> (r: u64)
        ensures
            r == self.spec_heuristic(*s, *goal),
    {
        0
    }

    fn converge(&self, s: &u64, goal: &u64) -> (r: bool)
        ensures
            r == self.spec_converge(*s, *goal),
    {
        *s == *goal
    }

    fn grid_position(&self, s: &u64) -> (r: u64)
        ensures
            r == self.spec_key(*s),
    {
        *s
    }

    fn default_control(&self) -> (r: u64)
        ensures
            r == self.spec_default_control(),
    {
        0
    }

    fn clone_state(&self, s: &u64) -> (r: u64)
        ensures
            r == *s,
    {
        *s
    }

    fn clone_control(&self, c: &u64) -> (r: u64)
        ensures
            r == *c,
    {
        *c
    }
}

/// A sampler that proposes a fixed candidate list of destination nodes at
/// every expansion.
pub struct WeightedSampler {
    /// The destinations proposed at each expansion.
    pub candidates: Vec<u64>,
}

impl Sampler<WeightedModel> for WeightedSampler {
    fn sample(&mut self, model: &WeightedModel, s: &u64) -> (r: Vec<u64>)
        ensures
            r@ == old(self).candidates@,
            *final(self) == *old(self),
    {
        let mut v: Vec<u64> = Vec::new();
        let mut i: usize = 0;
        while i < self.candidates.len()
            invariant
                i <= self.candidates@.len(),
                v@ == self.candidates@.take(i as int),
                *self == *old(self),
            decreases self.candidates@.len() - i,
        {
            v.push(self.candidates[i]);
            proof {
                assert(v@ =~= self.candidates@.take(i + 1));
            }
            i = i + 1;
        }
        proof {
            assert(v@ =~= self.candidates@);
        }
        v
    }
}

} // verus!
