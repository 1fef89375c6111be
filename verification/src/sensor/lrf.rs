use vstd::prelude::*;

use crate::maze::types::{CellType, Maze, GRID_SIZE};

verus! {

/// What a ray finds in one grid cell.
#[derive(Debug, Clone, Copy, PartialEq, Eq, Structural)]
pub enum Probe {
    /// The cell lies off the grid: the ray has left the maze.
    OutOfGrid,
    /// The cell is a wall: the ray stops here.
    Wall,
    /// The cell is a passage: the ray goes on.
    Open,
}

/// LRF simulator that casts rays through a [`Maze`] grid, cell by cell.
pub struct Lrf;

impl Lrf {
    /// Classify the grid cell `(map_x, map_y)` that a ray has entered.
    pub fn probe(maze: &Maze, map_x: i32, map_y: i32) -> (p: Probe)
        requires
            maze.wf(),
        ensures
            p == (if !(0 <= map_x < GRID_SIZE && 0 <= map_y < GRID_SIZE) {
                Probe::OutOfGrid
            } else if maze.cell(map_x as int, map_y as int) == CellType::Wall {
                Probe::Wall
            } else {
                Probe::Open
            }),
    {
        if map_x < 0 || map_y < 0 || map_x >= GRID_SIZE as i32 || map_y >= GRID_SIZE as i32 {
            Probe::OutOfGrid
        } else if maze.grid[map_y as usize][map_x as usize] == CellType::Wall {
            Probe::Wall
        } else {
            Probe::Open
        }
    }
}

} // verus!
