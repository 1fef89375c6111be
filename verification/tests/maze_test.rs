// Maze types and generation tests
use path_generation::maze::generator::MazeGenerator;
use path_generation::maze::types::{CellType, GridPos, GRID_SIZE};

#[test]
fn grid_size_is_240() {
    assert_eq!(GRID_SIZE, 240);
}

#[test]
fn maze_start_is_passage() {
    let maze = MazeGenerator::generate(42);
    let start = maze.start;
    assert_eq!(
        maze.grid[start.row as usize][start.col as usize],
        CellType::Passage
    );
}

#[test]
fn maze_goal_is_passage() {
    let maze = MazeGenerator::generate(42);
    let goal = maze.goal;
    assert_eq!(
        maze.grid[goal.row as usize][goal.col as usize],
        CellType::Passage
    );
}

#[test]
fn maze_goal_is_on_perimeter() {
    let maze = MazeGenerator::generate(42);
    let g = maze.goal;
    let n = GRID_SIZE as u16;
    let on_edge = g.row == 0 || g.row == n - 1 || g.col == 0 || g.col == n - 1;
    assert!(on_edge, "goal {:?} is not on perimeter", g);
}

#[test]
fn maze_is_deterministic_with_same_seed() {
    let a = MazeGenerator::generate(12345);
    let b = MazeGenerator::generate(12345);
    // Compare a subset of cells for equality
    for r in 0..10 {
        for c in 0..10 {
            assert_eq!(a.grid[r][c], b.grid[r][c]);
        }
    }
    assert_eq!(a.goal.col, b.goal.col);
    assert_eq!(a.goal.row, b.goal.row);
}

#[test]
fn maze_differs_with_different_seeds() {
    let a = MazeGenerator::generate(1);
    let b = MazeGenerator::generate(2);
    // Very likely that at least one cell differs
    let any_diff = (0..240)
        .flat_map(|r| (0..240).map(move |c| (r, c)))
        .any(|(r, c)| a.grid[r][c] != b.grid[r][c]);
    assert!(any_diff, "mazes with different seeds should differ");
}

#[test]
fn maze_center_is_start() {
    let maze = MazeGenerator::generate(99);
    // Start must be at grid center (120, 120)
    assert_eq!(maze.start.col, 120);
    assert_eq!(maze.start.row, 120);
}

// --- further checks of the generated shape ---

/// Breadth-first search over passage cells from `from`; returns the visited grid.
fn passage_reach(maze: &path_generation::maze::Maze, from: (usize, usize)) -> Vec<Vec<bool>> {
    let mut seen = vec![vec![false; GRID_SIZE]; GRID_SIZE];
    let mut queue = vec![from];
    seen[from.1][from.0] = true;
    let mut head = 0;
    while head < queue.len() {
        let (c, r) = queue[head];
        head += 1;
        let mut next = Vec::new();
        if c > 0 {
            next.push((c - 1, r));
        }
        if c + 1 < GRID_SIZE {
            next.push((c + 1, r));
        }
        if r > 0 {
            next.push((c, r - 1));
        }
        if r + 1 < GRID_SIZE {
            next.push((c, r + 1));
        }
        for (nc, nr) in next {
            if !seen[nr][nc] && maze.grid[nr][nc] == CellType::Passage {
                seen[nr][nc] = true;
                queue.push((nc, nr));
            }
        }
    }
    seen
}

#[test]
fn maze_every_passage_reachable_from_start() {
    for seed in [0u64, 7, 42] {
        let maze = MazeGenerator::generate(seed);
        let seen = passage_reach(&maze, (120, 120));
        for r in 0..GRID_SIZE {
            for c in 0..GRID_SIZE {
                if maze.grid[r][c] == CellType::Passage {
                    assert!(seen[r][c], "seed {seed}: passage ({c},{r}) not reachable");
                }
            }
        }
    }
}

#[test]
fn maze_passages_form_a_tree() {
    // A perfect maze: the passage graph has exactly one fewer edge than cells.
    let maze = MazeGenerator::generate(42);
    let mut cells = 0usize;
    let mut edges = 0usize;
    for r in 0..GRID_SIZE {
        for c in 0..GRID_SIZE {
            if maze.grid[r][c] == CellType::Passage {
                cells += 1;
                if c + 1 < GRID_SIZE && maze.grid[r][c + 1] == CellType::Passage {
                    edges += 1;
                }
                if r + 1 < GRID_SIZE && maze.grid[r + 1][c] == CellType::Passage {
                    edges += 1;
                }
            }
        }
    }
    assert_eq!(edges + 1, cells);
}

/// Count the routes over logical cells (logical indices 1 to 118) through open
/// connectors from `from` to `to` that visit no cell twice, stopping at `cap`.
fn count_simple_routes(
    maze: &path_generation::maze::Maze,
    from: (usize, usize),
    to: (usize, usize),
    cap: usize,
) -> usize {
    let n = GRID_SIZE / 2;
    let mut on_path = vec![vec![false; n]; n];
    // each frame: a cell and the index of the next neighbour to try
    let mut stack: Vec<((usize, usize), usize)> = vec![(from, 0)];
    on_path[from.1][from.0] = true;
    let mut count = 0usize;
    while !stack.is_empty() {
        let top = stack.len() - 1;
        let (cell, next) = stack[top];
        if cell == to || next == 4 {
            if cell == to {
                count += 1;
                if count >= cap {
                    return count;
                }
            }
            on_path[cell.1][cell.0] = false;
            stack.pop();
            continue;
        }
        let k = next;
        stack[top].1 += 1;
        let (x, y) = (cell.0 as i64, cell.1 as i64);
        let (nx, ny) = [(x - 1, y), (x + 1, y), (x, y - 1), (x, y + 1)][k];
        if nx < 1 || ny < 1 || nx > 118 || ny > 118 {
            continue;
        }
        let (nx, ny) = (nx as usize, ny as usize);
        if on_path[ny][nx] {
            continue;
        }
        if maze.grid[cell.1 + ny][cell.0 + nx] != CellType::Passage {
            continue;
        }
        on_path[ny][nx] = true;
        stack.push(((nx, ny), 0));
    }
    count
}

#[test]
fn maze_start_and_goal_joined_by_exactly_one_route() {
    for seed in [42u64, 7, 2024] {
        let maze = MazeGenerator::generate(seed);
        let g = maze.goal;
        // the logical cell the goal opens onto
        let facing = if g.col == 0 {
            (1, g.row as usize / 2)
        } else {
            (g.col as usize / 2, 1)
        };
        assert_eq!(count_simple_routes(&maze, (60, 60), facing, 2), 1, "seed {seed}");
        assert_eq!(count_simple_routes(&maze, (1, 1), (118, 118), 2), 1, "seed {seed}");
    }
}

#[test]
fn maze_logical_cells_open_and_odd_cells_closed() {
    let maze = MazeGenerator::generate(5);
    for r in 0..GRID_SIZE {
        for c in 0..GRID_SIZE {
            if c % 2 == 0 && r % 2 == 0 && (2..=236).contains(&c) && (2..=236).contains(&r) {
                assert_eq!(maze.grid[r][c], CellType::Passage);
            }
            if c % 2 == 1 && r % 2 == 1 {
                assert_eq!(maze.grid[r][c], CellType::Wall);
            }
        }
    }
}

#[test]
fn maze_border_closed_but_for_goal() {
    let maze = MazeGenerator::generate(77);
    let g = maze.goal;
    // the goal sits on the left or top edge, facing a logical cell
    assert!(
        (g.col == 0 && g.row % 2 == 0 && (2..=236).contains(&g.row))
            || (g.row == 0 && g.col % 2 == 0 && (2..=236).contains(&g.col))
    );
    for i in 0..GRID_SIZE {
        for (c, r) in [(i, 0), (i, GRID_SIZE - 1), (0, i), (GRID_SIZE - 1, i)] {
            if !(c == g.col as usize && r == g.row as usize) {
                assert_eq!(maze.grid[r][c], CellType::Wall, "border cell ({c},{r})");
            }
        }
    }
}

#[test]
fn maze_blind_goal_is_inner_logical_passage() {
    let maze = MazeGenerator::generate(31337);
    let b = maze.blind_goal;
    assert_eq!(b.col % 2, 0);
    assert_eq!(b.row % 2, 0);
    assert!((2..=236).contains(&b.col) && (2..=236).contains(&b.row));
    assert!(!(b.col == 120 && b.row == 120));
    assert_eq!(maze.grid[b.row as usize][b.col as usize], CellType::Passage);
}

#[test]
fn maze_records_its_seed() {
    let maze = MazeGenerator::generate(4684074858222377819);
    assert_eq!(maze.seed, 4684074858222377819);
}

#[test]
fn snap_even_rounds_up_to_even() {
    assert_eq!(GridPos { col: 57, row: 183 }.snap_even(), GridPos { col: 58, row: 184 });
    assert_eq!(GridPos { col: 120, row: 0 }.snap_even(), GridPos { col: 120, row: 0 });
    // capped at the last logical cell
    assert_eq!(GridPos { col: 239, row: 238 }.snap_even(), GridPos { col: 238, row: 238 });
    assert_eq!(GridPos { col: 65535, row: 1 }.snap_even(), GridPos { col: 238, row: 2 });
}

#[test]
fn snap_even_is_idempotent() {
    for v in 0..240u16 {
        let p = GridPos { col: v, row: 239 - v }.snap_even();
        assert_eq!(p.snap_even(), p);
    }
}

#[test]
fn robot_fits_only_where_footprint_is_open() {
    let maze = MazeGenerator::generate(42);
    // too close to the edge
    assert!(!maze.is_passable_for_robot(GridPos { col: 4, row: 120 }));
    assert!(!maze.is_passable_for_robot(GridPos { col: 120, row: 235 }));
    // in a maze with one-cell corridors the 11x11 footprint always meets a wall
    assert!(!maze.is_passable_for_robot(GridPos { col: 120, row: 120 }));
    // an open 11x11 area fits the robot
    let mut open = MazeGenerator::generate(42);
    for r in 100..=110 {
        for c in 50..=60 {
            open.grid[r][c] = CellType::Passage;
        }
    }
    assert!(open.is_passable_for_robot(GridPos { col: 55, row: 105 }));
    // one column further right the footprint meets the wall cell (61, 101)
    assert!(!open.is_passable_for_robot(GridPos { col: 56, row: 105 }));
}
