use vstd::prelude::*;

use crate::maze::types::{grid_wf, in_grid, CellType, Maze, GRID_SIZE};

verus! {

/// Cell state in the robot's known map.
#[derive(Debug, Clone, Copy, PartialEq, Eq, Structural)]
pub enum KnownCell {
    /// Not observed yet.
    Unknown,
    /// Observed as open space.
    FreeSpace,
    /// Observed as a wall.
    Wall,
}

/// Robot's internal map built from LRF observations, indexed `cells[row][col]`.
pub struct KnownMap {
    /// The 240x240 known cells, `cells[row][col]`.
    pub cells: Vec<Vec<KnownCell>>,
}

impl KnownMap {
    /// The map has `GRID_SIZE` rows of `GRID_SIZE` cells.
    pub open spec fn wf(&self) -> bool {
        grid_wf(self.cells@)
    }

    /// The known state of the cell at column `c`, row `r`.
    pub open spec fn at(&self, c: int, r: int) -> KnownCell {
        self.cells@[r]@[c]
    }

    /// Every cell this map holds as a wall is a wall of `maze`: what the
    /// robot's scans of `maze` record.
    pub open spec fn walls_only_from(&self, maze: &Maze) -> bool {
        forall|c: int, r: int|
            in_grid(c, r) && #[trigger] self.at(c, r) == KnownCell::Wall ==> maze.cell(c, r) == CellType::Wall
    }

    /// A map where nothing has been observed yet.
    pub fn new() -> (m: KnownMap)
        ensures
            m.wf(),
            forall|c: int, r: int| in_grid(c, r) ==> #[trigger] m.at(c, r) == KnownCell::Unknown,
    {
        KnownMap { cells: crate::maze::types::filled_grid(GRID_SIZE, KnownCell::Unknown) }
    }
}

impl Default for KnownMap {
    fn default() -> (m: KnownMap)
        ensures
            m.wf(),
            forall|c: int, r: int| in_grid(c, r) ==> #[trigger] m.at(c, r) == KnownCell::Unknown,
    {
        KnownMap::new()
    }
}

/// Robot's operational state.
#[derive(Debug, Clone, Copy, PartialEq, Eq, Structural)]
pub enum RobotState {
    /// Waiting for the start signal.
    Idle,
    /// Heading toward unexplored space.
    Exploring,
    /// The goal is in the known map and the robot drives to it.
    NavigatingToGoal,
    /// The goal has been reached; the robot stops.
    Arrived,
}

impl RobotState {
    /// The robot moves, scans and plans only in these states.
    pub open spec fn spec_is_active(self) -> bool {
        self != RobotState::Idle && self != RobotState::Arrived
    }

    /// Whether the simulation advances in this state: not `Idle`, not `Arrived`.
    pub fn is_active(self) -> (b: bool)
        ensures
            b == self.spec_is_active(),
    {
        !(self == RobotState::Idle || self == RobotState::Arrived)
    }

    /// The state after the start signal: `Idle` becomes `Exploring`; any other
    /// state is kept.
    pub fn started(self) -> (s: RobotState)
        ensures
            s == (if self == RobotState::Idle {
                RobotState::Exploring
            } else {
                self
            }),
    {
        if self == RobotState::Idle {
            RobotState::Exploring
        } else {
            self
        }
    }
}

} // verus!
