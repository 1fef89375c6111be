// Known map, robot state and LRF probe tests

use path_generation::maze::{CellType, MazeGenerator};
use path_generation::robot::types::{KnownCell, KnownMap, RobotState};
use path_generation::sensor::{Lrf, Probe};

#[test]
fn known_map_starts_all_unknown() {
    let km = KnownMap::default();
    assert_eq!(km.cells.len(), 240);
    assert!(km.cells.iter().all(|row| row.len() == 240 && row.iter().all(|&c| c == KnownCell::Unknown)));
}

#[test]
fn observe_marks_unknown_cells() {
    let mut km = KnownMap::new();
    km.observe(120, 120, KnownCell::FreeSpace);
    km.observe(121, 120, KnownCell::Wall);
    assert_eq!(km.cells[120][120], KnownCell::FreeSpace);
    assert_eq!(km.cells[120][121], KnownCell::Wall);
    assert_eq!(km.cells[121][120], KnownCell::Unknown);
}

#[test]
fn observe_does_not_overwrite_existing_entries() {
    let mut km = KnownMap::default();
    // Pre-mark the origin cell as Wall (simulate prior observation).
    km.cells[120][120] = KnownCell::Wall;
    km.observe(120, 120, KnownCell::FreeSpace);
    assert_eq!(km.cells[120][120], KnownCell::Wall);
    km.observe(5, 6, KnownCell::FreeSpace);
    km.observe(5, 6, KnownCell::Wall);
    assert_eq!(km.cells[6][5], KnownCell::FreeSpace);
}

#[test]
fn observe_ignores_cells_off_the_grid() {
    let mut km = KnownMap::default();
    km.observe(-1, 0, KnownCell::Wall);
    km.observe(0, 240, KnownCell::Wall);
    km.observe(240, 3, KnownCell::Wall);
    assert!(km.cells.iter().all(|row| row.iter().all(|&c| c == KnownCell::Unknown)));
}

#[test]
fn start_transitions_idle_to_exploring_only() {
    assert_eq!(RobotState::Idle.started(), RobotState::Exploring);
    assert_eq!(RobotState::Exploring.started(), RobotState::Exploring);
    assert_eq!(RobotState::NavigatingToGoal.started(), RobotState::NavigatingToGoal);
    assert_eq!(RobotState::Arrived.started(), RobotState::Arrived);
}

#[test]
fn only_moving_states_are_active() {
    assert!(!RobotState::Idle.is_active());
    assert!(RobotState::Exploring.is_active());
    assert!(RobotState::NavigatingToGoal.is_active());
    assert!(!RobotState::Arrived.is_active());
}

#[test]
fn probe_classifies_cells() {
    let maze = MazeGenerator::generate(42);
    assert_eq!(Lrf::probe(&maze, -1, 5), Probe::OutOfGrid);
    assert_eq!(Lrf::probe(&maze, 5, 240), Probe::OutOfGrid);
    // the centre is a passage; the odd-odd cell beside it a wall
    assert_eq!(Lrf::probe(&maze, 120, 120), Probe::Open);
    assert_eq!(Lrf::probe(&maze, 121, 121), Probe::Wall);
    for r in 0..240 {
        for c in 0..240 {
            let expected = match maze.grid[r as usize][c as usize] {
                CellType::Wall => Probe::Wall,
                CellType::Passage => Probe::Open,
            };
            assert_eq!(Lrf::probe(&maze, c, r), expected);
        }
    }
}

#[test]
fn recording_probed_cells_keeps_walls_true() {
    let maze = MazeGenerator::generate(7);
    let mut km = KnownMap::default();
    // record a band of cells around the start as the probe reports them
    for r in 100..140 {
        for c in 100..140 {
            let seen = match Lrf::probe(&maze, c, r) {
                Probe::Wall => KnownCell::Wall,
                _ => KnownCell::FreeSpace,
            };
            km.observe(c, r, seen);
        }
    }
    for r in 0..240usize {
        for c in 0..240usize {
            if km.cells[r][c] == KnownCell::Wall {
                assert_eq!(maze.grid[r][c], CellType::Wall, "({c},{r})");
            }
        }
    }
    assert_eq!(km.cells[120][120], KnownCell::FreeSpace);
    assert_eq!(km.cells[121][121], KnownCell::Wall);
    assert_eq!(km.cells[50][50], KnownCell::Unknown);
}

#[test]
fn recording_a_scan_twice_changes_nothing() {
    let obs = vec![
        (120, 120, KnownCell::FreeSpace),
        (121, 120, KnownCell::Wall),
        (120, 120, KnownCell::Wall),
        (5, 5, KnownCell::Unknown),
        (5, 5, KnownCell::FreeSpace),
        (-1, 3, KnownCell::Wall),
    ];
    let mut km = KnownMap::default();
    km.cells[7][7] = KnownCell::Wall;
    km.observe_all(&obs);
    assert_eq!(km.cells[120][120], KnownCell::FreeSpace);
    assert_eq!(km.cells[120][121], KnownCell::Wall);
    assert_eq!(km.cells[5][5], KnownCell::FreeSpace);
    assert_eq!(km.cells[7][7], KnownCell::Wall);
    let once = km.cells.clone();
    km.observe_all(&obs);
    assert_eq!(km.cells, once);
}

#[test]
fn confirmed_cells_never_change_over_ticks() {
    let mut km = KnownMap::default();
    km.observe_all(&vec![(10, 10, KnownCell::Wall), (11, 10, KnownCell::FreeSpace)]);
    let first = km.cells.clone();
    for tick in 0..5 {
        let seen = if tick % 2 == 0 { KnownCell::FreeSpace } else { KnownCell::Wall };
        km.observe_all(&vec![(10, 10, seen), (11, 10, seen), (12 + tick, 10, seen)]);
        assert_eq!(km.cells[10][10], KnownCell::Wall);
        assert_eq!(km.cells[10][11], KnownCell::FreeSpace);
    }
    assert_eq!(km.cells[10][12], KnownCell::FreeSpace);
    assert_eq!(km.cells[10][13], KnownCell::Wall);
    assert_ne!(km.cells, first);
}
