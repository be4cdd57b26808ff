//! The value contracts consumed by the search engine: the planning domain
//! (`Model`), the candidate-action generator (`Sampler`), and the output
//! shapes (`Trajectory`, `PathResult`, `PathFindingErr`).

use vstd::prelude::*;

verus! {

/// The caller-supplied planning domain.
///
/// `State` is a point in the planning space, `Control` an action that
/// produces a child state from a parent state.  Every executable method is
/// pinned to a specification function of the same domain, so transition,
/// cost, heuristic, goal test and discretization are pure: the engine
/// recomputes edge costs during trajectory reconstruction and relies on the
/// recomputation agreeing with what was computed during the search.
pub trait Model: Sized {
    type State;

    type Control;

    /// Mathematical transition relation: the child state a control produces,
    /// or `None` when the control is inapplicable from that state.
    spec fn spec_integrate(&self, s: Self::State, c: Self::Control) -> Option<Self::State>;

    /// Mathematical edge cost between two states.
    spec fn spec_cost(&self, from: Self::State, to: Self::State) -> u64;

    /// Mathematical estimate of the remaining cost from a state to the goal.
    spec fn spec_heuristic(&self, s: Self::State, goal: Self::State) -> u64;

    /// Mathematical goal test.
    spec fn spec_converge(&self, s: Self::State, goal: Self::State) -> bool;

    /// Mathematical discretization key of a state: the coarse bucket under
    /// which duplicate arrivals are pruned.
    spec fn spec_key(&self, s: Self::State) -> u64;

    /// The placeholder no-op control associated with the start node.
    spec fn spec_default_control(&self) -> Self::Control;

    /// Attempt the transition; a rejected control yields `None`.
    fn integrate(&self, s: &Self::State, c: &Self::Control) -> (r: Option<Self::State>)
        ensures
            r == self.spec_integrate(*s, *c),
    ;

    /// Edge cost between two states.
    fn cost(&self, from: &Self::State, to: &Self::State) -> (r: u64)
        ensures
            r == self.spec_cost(*from, *to),
    ;

    /// Estimate of the remaining cost from a state to the goal.
    fn heuristic(&self, s: &Self::State, goal: &Self::State) -> (r: u64)
        ensures
            r == self.spec_heuristic(*s, *goal),
    ;

    /// Goal test; may be exact or tolerance-based.
    fn converge(&self, s: &Self::State, goal: &Self::State) -> (r: bool)
        ensures
            r == self.spec_converge(*s, *goal),
    ;

    /// Discretization key of a state, used purely for deduplication.
    fn grid_position(&self, s: &Self::State) -> (r: u64)
        ensures
            r == self.spec_key(*s),
    ;

    /// The placeholder no-op control.
    fn default_control(&self) -> (r: Self::Control)
        ensures
            r == self.spec_default_control(),
    ;

    /// Duplicate a state.
    fn clone_state(&self, s: &Self::State) -> (r: Self::State)
        ensures
            r == *s,
    ;

    /// Duplicate a control.
    fn clone_control(&self, c: &Self::Control) -> (r: Self::Control)
        ensures
            r == *c,
    ;
}

/// The caller-supplied candidate-action generator.
///
/// No behaviour is promised of the returned sequence: a sampler may be
/// adaptive or randomized, and the engine imposes no bound on the branching
/// factor.  The engine is specified to handle every returned control the
/// same way, whatever the sampler produced.
pub trait Sampler<M: Model>: Sized {
    /// Produce candidate controls from a state.
    fn sample(&mut self, model: &M, s: &M::State) -> (r: Vec<M::Control>);
}

/// An ordered `(state, control)` sequence from the start to a reconstructed
/// node, with the total accumulated cost recomputed along the path.
pub struct Trajectory<M: Model> {
    /// Total cost, recomputed by summing `Model::cost` between consecutive
    /// states (saturating at the numeric limit), not copied from the search.
    pub cost: u64,
    /// The path in chronological order; each entry pairs a state with the
    /// control that produced it from its predecessor.  The first entry holds
    /// the start state and the placeholder control.
    pub trajectory: Vec<(M::State, M::Control)>,
}

/// The single failure kind the engine reports.
pub enum PathFindingErr {
    /// The open set was exhausted (or empty at call time) before the goal
    /// condition was satisfied.
    Unreachable,
}

/// Outcome of a planning call.
pub enum PathResult<M: Model> {
    /// The reconstructed node satisfies the goal test.
    Final(Trajectory<M>),
    /// Progress in single-step mode: the popped node does not satisfy the
    /// goal test yet.
    Intermediate(Trajectory<M>),
    /// No trajectory: see `PathFindingErr`.
    Failure(PathFindingErr),
}

} // verus!
