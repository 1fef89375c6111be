// Path planner and frontier finder tests

use path_generation::maze::{CellType, GridPos, MazeGenerator};
use path_generation::planner::{FrontierFinder, Planner};
use path_generation::robot::types::{KnownCell, KnownMap};

// --- Helpers ---

/// Build a KnownMap that mirrors the true maze (all cells marked FreeSpace or Wall).
fn full_known_map(maze: &path_generation::maze::Maze) -> KnownMap {
    let mut km = KnownMap::default();
    for row in 0..240 {
        for col in 0..240 {
            km.cells[row][col] = match maze.grid[row][col] {
                CellType::Passage => KnownCell::FreeSpace,
                CellType::Wall => KnownCell::Wall,
            };
        }
    }
    km
}

// --- Planner tests ---

#[test]
fn astar_returns_some_path_in_fully_known_maze() {
    let maze = MazeGenerator::generate(42);
    let km = full_known_map(&maze);
    let robot_cell = maze.start;
    let path = Planner::plan(robot_cell, maze.goal, &km);
    assert!(
        path.is_some(),
        "expected A* to find a path from start to goal"
    );
}

#[test]
fn plan_reaches_goal_on_any_map_of_true_walls() {
    for seed in [3u64, 42, 99] {
        let maze = MazeGenerator::generate(seed);
        // nothing known yet
        let empty = KnownMap::default();
        assert!(Planner::plan(maze.start, maze.goal, &empty).is_some(), "seed {seed}");
        // every wall known, every passage still unknown
        let mut walls = KnownMap::default();
        for row in 0..240 {
            for col in 0..240 {
                if maze.grid[row][col] == CellType::Wall {
                    walls.cells[row][col] = KnownCell::Wall;
                }
            }
        }
        assert!(Planner::plan(maze.start, maze.goal, &walls).is_some(), "seed {seed}");
        // from another logical cell
        let other = GridPos { col: 4, row: 230 };
        assert!(Planner::plan(other, maze.goal, &walls).is_some(), "seed {seed}");
    }
}

#[test]
fn astar_first_waypoint_is_robot_position() {
    let maze = MazeGenerator::generate(42);
    let km = full_known_map(&maze);
    let robot_cell = maze.start;
    let path = Planner::plan(robot_cell, maze.goal, &km).expect("path expected");
    let first = path.first().expect("waypoints should not be empty");
    // within one cell (CELL_SIZE) of the robot
    let dx = (first.col as i32 - robot_cell.col as i32).abs();
    let dy = (first.row as i32 - robot_cell.row as i32).abs();
    assert!(
        dx <= 1 && dy <= 1,
        "first waypoint should be at robot pos, got ({},{})",
        first.col,
        first.row
    );
}

#[test]
fn astar_path_does_not_pass_through_walls() {
    let maze = MazeGenerator::generate(42);
    let km = full_known_map(&maze);
    let robot_cell = maze.start;
    let path = Planner::plan(robot_cell, maze.goal, &km).expect("path expected");
    for gp in &path {
        assert_eq!(
            km.cells[gp.row as usize][gp.col as usize],
            KnownCell::FreeSpace,
            "waypoint ({},{}) passes through non-FreeSpace cell",
            gp.col,
            gp.row
        );
    }
}

#[test]
fn astar_returns_none_when_goal_is_walled_off() {
    let mut km = KnownMap::default();
    // Mark all cells as FreeSpace except a wall ring around the goal.
    for row in 0..240_usize {
        for col in 0..240_usize {
            km.cells[row][col] = KnownCell::FreeSpace;
        }
    }
    // Surround goal position (0,0) with walls so it is unreachable.
    let goal = GridPos { col: 0, row: 0 };
    km.cells[0][0] = KnownCell::Wall;
    km.cells[0][1] = KnownCell::Wall;
    km.cells[1][0] = KnownCell::Wall;
    km.cells[1][1] = KnownCell::Wall;

    // the robot at world (1.0 m, -1.0 m) stands on grid cell (140, 140)
    let robot_cell = GridPos { col: 140, row: 140 };
    let result = Planner::plan(robot_cell, goal, &km);
    assert!(result.is_none(), "expected None when goal is walled off");
}

#[test]
fn astar_returns_immediately_when_already_at_goal() {
    let km = KnownMap::default();
    let goal = GridPos { col: 120, row: 120 };
    // the robot at world (0.0, 0.0) stands on grid cell (120, 120)
    let robot_cell = GridPos { col: 120, row: 120 };
    let path = Planner::plan(robot_cell, goal, &km).expect("expected immediate path");
    assert_eq!(path.len(), 1);
}

#[test]
fn plan_on_open_map_goes_straight_with_connectors() {
    // nothing known: every connector counts as open
    let km = KnownMap::default();
    let path = Planner::plan(GridPos { col: 121, row: 120 }, GridPos { col: 126, row: 120 }, &km)
        .expect("path expected");
    // snapped start (122, 120), logical (61, 60) to logical (63, 60)
    assert_eq!(
        path,
        vec![
            GridPos { col: 122, row: 120 },
            GridPos { col: 123, row: 120 },
            GridPos { col: 124, row: 120 },
            GridPos { col: 125, row: 120 },
            GridPos { col: 126, row: 120 },
        ]
    );
}

#[test]
fn plan_is_shortest_around_a_wall() {
    // wall off the direct connector between logical (60, 60) and (61, 60)
    let mut km = KnownMap::default();
    km.cells[120][121] = KnownCell::Wall;
    let path = Planner::plan(GridPos { col: 120, row: 120 }, GridPos { col: 122, row: 120 }, &km)
        .expect("path expected");
    // the detour takes three moves: seven waypoints
    assert_eq!(path.len(), 7);
    assert_eq!(path[0], GridPos { col: 120, row: 120 });
    assert_eq!(path[6], GridPos { col: 122, row: 120 });
    for w in path.windows(2) {
        let d = (w[0].col as i32 - w[1].col as i32).abs() + (w[0].row as i32 - w[1].row as i32).abs();
        assert_eq!(d, 1);
    }
    assert!(!path.contains(&GridPos { col: 121, row: 120 }));
}

#[test]
fn plan_goal_beyond_grid_is_capped() {
    let km = KnownMap::default();
    // goal (300, 239) counts as logical cell (119, 119)
    let path = Planner::plan(GridPos { col: 236, row: 238 }, GridPos { col: 300, row: 239 }, &km)
        .expect("path expected");
    assert_eq!(path.last(), Some(&GridPos { col: 238, row: 238 }));
    assert_eq!(path.len(), 3);
}

// --- Frontier tests ---

#[test]
fn frontier_returns_some_when_unknown_neighbors_exist() {
    let mut km = KnownMap::default();
    // Mark center cell and a small radius as FreeSpace.
    for dr in -2_i32..=2 {
        for dc in -2_i32..=2 {
            let r = (120 + dr) as usize;
            let c = (120 + dc) as usize;
            km.cells[r][c] = KnownCell::FreeSpace;
        }
    }
    // The FreeSpace region is surrounded by Unknown => frontier cells exist.
    let robot_cell = GridPos { col: 120, row: 120 };
    let frontier = FrontierFinder::nearest_frontier(robot_cell, &km);
    assert!(
        frontier.is_some(),
        "expected a frontier when Unknown neighbors exist"
    );
}

#[test]
fn frontier_returns_none_when_all_reachable_cells_are_known() {
    let mut km = KnownMap::default();
    // Fill the entire map with FreeSpace or Wall (no Unknown at all).
    for row in 0..240_usize {
        for col in 0..240_usize {
            km.cells[row][col] = KnownCell::FreeSpace;
        }
    }
    // Now no cell is adjacent to Unknown => no frontier.
    let robot_cell = GridPos { col: 120, row: 120 };
    let frontier = FrontierFinder::nearest_frontier(robot_cell, &km);
    assert!(frontier.is_none(), "expected None when all cells are known");
}

#[test]
fn frontier_returns_none_when_robot_cell_is_not_free() {
    // Robot is on an Unknown cell (not started exploring yet).
    let km = KnownMap::default(); // all Unknown
    let robot_cell = GridPos { col: 120, row: 120 };
    let frontier = FrontierFinder::nearest_frontier(robot_cell, &km);
    assert!(frontier.is_none());
}

#[test]
fn frontier_is_first_in_search_order() {
    // a known-free 5x5 block around (120, 120) in unknown space: the four
    // edge midpoints are all nearest; left comes first
    let mut km = KnownMap::default();
    for r in 118..=122 {
        for c in 118..=122 {
            km.cells[r][c] = KnownCell::FreeSpace;
        }
    }
    let start = GridPos { col: 120, row: 120 };
    assert_eq!(FrontierFinder::nearest_frontier(start, &km), Some(GridPos { col: 118, row: 120 }));
    // with the left midpoint walled, the right one comes next
    km.cells[120][118] = KnownCell::Wall;
    assert_eq!(FrontierFinder::nearest_frontier(start, &km), Some(GridPos { col: 122, row: 120 }));
}

#[test]
fn frontier_is_the_nearest_one() {
    let mut km = KnownMap::default();
    // a known-free corridor from (100, 50) to (130, 50), walled above and below
    for c in 100..=130 {
        km.cells[50][c] = KnownCell::FreeSpace;
        km.cells[49][c] = KnownCell::Wall;
        km.cells[51][c] = KnownCell::Wall;
    }
    km.cells[50][99] = KnownCell::Wall;
    // the corridor's right end faces unknown space at (131, 50)
    let f = FrontierFinder::nearest_frontier(GridPos { col: 105, row: 50 }, &km);
    assert_eq!(f, Some(GridPos { col: 130, row: 50 }));
    // open an unknown pocket next to (102, 50): now that is nearer
    km.cells[49][102] = KnownCell::Unknown;
    let f = FrontierFinder::nearest_frontier(GridPos { col: 105, row: 50 }, &km);
    assert_eq!(f, Some(GridPos { col: 102, row: 50 }));
}

#[test]
fn frontier_is_not_reached_through_unknown_or_wall() {
    let mut km = KnownMap::default();
    for row in 0..240_usize {
        for col in 0..240_usize {
            km.cells[row][col] = KnownCell::FreeSpace;
        }
    }
    // a wall ring keeps the only unknown cell away from every free cell
    km.cells[200][200] = KnownCell::Unknown;
    for (c, r) in [(199, 200), (201, 200), (200, 199), (200, 201)] {
        km.cells[r][c] = KnownCell::Wall;
    }
    assert_eq!(FrontierFinder::nearest_frontier(GridPos { col: 10, row: 10 }, &km), None);
}

#[test]
fn nearest_unknown_finds_the_closest_unknown_logical_cell() {
    let mut km = KnownMap::default();
    for row in 0..240_usize {
        for col in 0..240_usize {
            km.cells[row][col] = KnownCell::FreeSpace;
        }
    }
    km.cells[120][126] = KnownCell::Unknown; // logical (63, 60), three moves away
    km.cells[120][100] = KnownCell::Unknown; // logical (50, 60), ten moves away
    assert_eq!(
        FrontierFinder::nearest_unknown(GridPos { col: 120, row: 120 }, &km),
        Some(GridPos { col: 126, row: 120 })
    );
    // a known wall between logical cells blocks the way
    km.cells[120][125] = KnownCell::Wall;
    km.cells[119][126] = KnownCell::Wall;
    km.cells[121][126] = KnownCell::Wall;
    km.cells[120][127] = KnownCell::Wall;
    assert_eq!(
        FrontierFinder::nearest_unknown(GridPos { col: 120, row: 120 }, &km),
        Some(GridPos { col: 100, row: 120 })
    );
}

#[test]
fn nearest_unknown_none_when_everything_is_known() {
    let mut km = KnownMap::default();
    for row in 0..240_usize {
        for col in 0..240_usize {
            km.cells[row][col] = KnownCell::Wall;
        }
    }
    km.cells[120][120] = KnownCell::FreeSpace;
    assert_eq!(FrontierFinder::nearest_unknown(GridPos { col: 120, row: 120 }, &km), None);
}
