//! A 4-connected integer-grid planning domain with unit edge cost, a
//! Manhattan-distance heuristic, and an obstacle list.

use vstd::prelude::*;

use crate::model::{Model, Sampler};

verus! {

/// A cell of the integer grid.
#[derive(Clone, Copy, PartialEq, Eq, Structural, Debug)]
pub struct GridState {
    /// Column.
    pub x: i32,
    /// Row.
    pub y: i32,
}

/// A unit move on the grid, or the placeholder no-op.
#[derive(Clone, Copy, PartialEq, Eq, Structural, Debug)]
pub enum GridControl {
    /// The placeholder control of the start node; never applicable.
    Stay,
    /// One step in increasing `y`.
    North,
    /// One step in decreasing `y`.
    South,
    /// One step in increasing `x`.
    East,
    /// One step in decreasing `x`.
    West,
}

/// Distance of `a` and `b` in the one-norm.
pub open spec fn manhattan(a: GridState, b: GridState) -> u64 {
    ((if a.x >= b.x {
        a.x - b.x
    } else {
        b.x - a.x
    }) + (if a.y >= b.y {
        a.y - b.y
    } else {
        b.y - a.y
    })) as u64
}

/// An injective encoding of a cell into a single discretization key.
pub open spec fn grid_key(s: GridState) -> u64 {
    ((s.x + 0x8000_0000) * 0x1_0000_0000 + (s.y + 0x8000_0000)) as u64
}

/// The grid domain: every non-obstacle cell is free, moves go one step in
/// one of the four directions, each move costs one.
pub struct GridModel {
    /// The blocked cells.
    pub obstacles: Vec<GridState>,
}

impl GridModel {
    /// Whether a cell is blocked.
    pub open spec fn spec_blocked(self, s: GridState) -> bool {
        self.obstacles@.contains(s)
    }

    /// The cell one step away, before the obstacle check; the placeholder
    /// control and steps off the representable grid are inapplicable.
    pub open spec fn spec_shift(self, s: GridState, c: GridControl) -> Option<GridState> {
        match c {
            GridControl::Stay => None,
            GridControl::North => if s.y == i32::MAX {
                None
            } else {
                Some(GridState { x: s.x, y: (s.y + 1) as i32 })
            },
            GridControl::South => if s.y == i32::MIN {
                None
            } else {
                Some(GridState { x: s.x, y: (s.y - 1) as i32 })
            },
            GridControl::East => if s.x == i32::MAX {
                None
            } else {
                Some(GridState { x: (s.x + 1) as i32, y: s.y })
            },
            GridControl::West => if s.x == i32::MIN {
                None
            } else {
                Some(GridState { x: (s.x - 1) as i32, y: s.y })
            },
        }
    }

    /// Whether a cell is blocked.
    pub fn blocked(&self, s: &GridState) -> (r: bool)
        ensures
            r == self.spec_blocked(*s),
    {
        let mut i: usize = 0;
        while i < self.obstacles.len()
            invariant
                i <= self.obstacles@.len(),
                forall|j: int| 0 <= j < i ==> #[trigger] self.obstacles@[j] != *s,
            decreases self.obstacles@.len() - i,
        {
            if self.obstacles[i] == *s {
                proof {
                    assert(self.obstacles@[i as int] == *s);
                }
                return true;
            }
            i = i + 1;
        }
        false
    }
}

impl Model for GridModel {
    type State = GridState;

    type Control = GridControl;

    open spec fn spec_integrate(&self, s: GridState, c: GridControl) -> Option<GridState> {
        match self.spec_shift(s, c) {
            None => None,
            Some(t) => if self.spec_blocked(t) {
                None
            } else {
                Some(t)
            },
        }
    }

    open spec fn spec_cost(&self, from: GridState, to: GridState) -> u64 {
        1
    }

    open spec fn spec_heuristic(&self, s: GridState, goal: GridState) -> u64 {
        manhattan(s, goal)
    }

    open spec fn spec_converge(&self, s: GridState, goal: GridState) -> bool {
        s == goal
    }

    open spec fn spec_key(&self, s: GridState) -> u64 {
        grid_key(s)
    }

    open spec fn spec_default_control(&self) -> GridControl {
        GridControl::Stay
    }

    fn integrate(&self, s: &GridState, c: &GridControl) -> (r: Option<GridState>)
        ensures
            r == self.spec_integrate(*s, *c),
    {
        let shifted: Option<GridState> = match c {
            GridControl::Stay => None,
            GridControl::North => if s.y == i32::MAX {
                None
            } else {
                Some(GridState { x: s.x, y: s.y + 1 })
            },
            GridControl::South => if s.y == i32::MIN {
                None
            } else {
                Some(GridState { x: s.x, y: s.y - 1 })
            },
            GridControl::East => if s.x == i32::MAX {
                None
            } else {
                Some(GridState { x: s.x + 1, y: s.y })
            },
            GridControl::West => if s.x == i32::MIN {
                None
            } else {
                Some(GridState { x: s.x - 1, y: s.y })
            },
        };
        match shifted {
            None => None,
            Some(t) => {
                if self.blocked(&t) {
                    None
                } else {
                    Some(t)
                }
            },
        }
    }

    fn cost(&self, from: &GridState, to: &GridState) -> (r: u64)
        ensures
            r == self.spec_cost(*from, *to),
    {
        1
    }

    fn heuristic(&self, s: &GridState, goal: &GridState) -> (r: u64)
        ensures
            r == self.spec_heuristic(*s, *goal),
    {
        let dx: i64 = if s.x >= goal.x {
            (s.x as i64) - (goal.x as i64)
        } else {
            (goal.x as i64) - (s.x as i64)
        };
        let dy: i64 = if s.y >= goal.y {
            (s.y as i64) - (goal.y as i64)
        } else {
            (goal.y as i64) - (s.y as i64)
        };
        (dx + dy) as u64
    }

    fn converge(&self, s: &GridState, goal: &GridState) -> (r: bool)
        ensures
            r == self.spec_converge(*s, *goal),
    {
        s.x == goal.x && s.y == goal.y
    }

    fn grid_position(&self, s: &GridState) -> (r: u64)
        ensures
            r == self.spec_key(*s),
    {
        let kx: i64 = (s.x as i64) + 0x8000_0000;
        let ky: i64 = (s.y as i64) + 0x8000_0000;
        (kx as u64) * 0x1_0000_0000 + (ky as u64)
    }

    fn default_control(&self) -> (r: GridControl)
        ensures
            r == self.spec_default_control(),
    {
        GridControl::Stay
    }

    fn clone_state(&self, s: &GridState) -> (r: GridState)
        ensures
            r == *s,
    {
        *s
    }

    fn clone_control(&self, c: &GridControl) -> (r: GridControl)
        ensures
            r == *c,
    {
        *c
    }
}

/// The exhaustive grid sampler: every expansion proposes the four unit
/// moves.
pub struct GridSampler {}

impl Sampler<GridModel> for GridSampler {
    fn sample(&mut self, model: &GridModel, s: &GridState) -> (r: Vec<GridControl>)
        ensures
            r@ == seq![
                GridControl::North,
                GridControl::South,
                GridControl::East,
                GridControl::West,
            ],
    {
        let mut v: Vec<GridControl> = Vec::new();
        v.push(GridControl::North);
        v.push(GridControl::South);
        v.push(GridControl::East);
        v.push(GridControl::West);
        proof {
            assert(v@ =~= seq![
                GridControl::North,
                GridControl::South,
                GridControl::East,
                GridControl::West,
            ]);
        }
        v
    }
}

} // verus!
