// Tick planning decision tests

use path_generation::maze::GridPos;
use path_generation::robot::types::{KnownCell, KnownMap, RobotState};
use path_generation::simulation::plan_tick;

fn all(cell: KnownCell) -> KnownMap {
    let mut km = KnownMap::default();
    for row in 0..240_usize {
        for col in 0..240_usize {
            km.cells[row][col] = cell;
        }
    }
    km
}

#[test]
fn tick_at_goal_plans_nothing() {
    let km = all(KnownCell::FreeSpace);
    let goal = GridPos { col: 0, row: 120 };
    let t = plan_tick(true, goal, true, GridPos { col: 120, row: 120 }, RobotState::Exploring, None, false, &km);
    assert!(t.path.is_none());
    assert_eq!(t.state, RobotState::Exploring);
    assert_eq!(t.wander_target, None);
    assert_eq!(t.frontier, None);
}

#[test]
fn tick_drives_to_known_goal() {
    let km = all(KnownCell::FreeSpace);
    let goal = GridPos { col: 126, row: 120 };
    let t = plan_tick(true, goal, false, GridPos { col: 120, row: 120 }, RobotState::Exploring, None, false, &km);
    assert_eq!(t.state, RobotState::NavigatingToGoal);
    let path = t.path.expect("path expected");
    assert_eq!(path.len(), 7);
    assert_eq!(path[6], goal);
    assert_eq!(t.frontier, None);
}

#[test]
fn tick_explores_frontier_while_goal_unknown() {
    let mut km = KnownMap::default();
    // known free corridor along row 120 from col 118 to 124; unknown beyond col 124
    for c in 118..=124 {
        km.cells[120][c] = KnownCell::FreeSpace;
        km.cells[119][c] = KnownCell::Wall;
        km.cells[121][c] = KnownCell::Wall;
    }
    km.cells[120][117] = KnownCell::Wall;
    let goal = GridPos { col: 0, row: 120 };
    let t = plan_tick(true, goal, false, GridPos { col: 120, row: 120 }, RobotState::Exploring, None, false, &km);
    assert_eq!(t.state, RobotState::Exploring);
    assert_eq!(t.frontier, Some(GridPos { col: 124, row: 120 }));
    let path = t.path.expect("path expected");
    assert_eq!(path.last(), Some(&GridPos { col: 124, row: 120 }));
}

#[test]
fn tick_falls_back_to_goal_without_frontier() {
    // all known and free except the goal cell: no frontier is reachable from a
    // robot standing on an unknown cell, so the plan goes to the goal
    let mut km = all(KnownCell::FreeSpace);
    km.cells[120][120] = KnownCell::Unknown;
    km.cells[120][0] = KnownCell::Unknown;
    let goal = GridPos { col: 0, row: 120 };
    let t = plan_tick(true, goal, false, GridPos { col: 120, row: 120 }, RobotState::Idle, None, false, &km);
    assert_eq!(t.frontier, None);
    assert_eq!(t.state, RobotState::Idle);
    let path = t.path.expect("path expected");
    assert_eq!(path.last(), Some(&goal));
}

#[test]
fn tick_blind_explores_frontier() {
    let mut km = all(KnownCell::Wall);
    // a free corridor on row 120 from col 120 to col 129; unknown at (130, 120)
    for c in 120..=129 {
        km.cells[120][c] = KnownCell::FreeSpace;
    }
    km.cells[120][130] = KnownCell::Unknown;
    // the free cell (129, 120) touches the unknown cell: the nearest frontier
    let keep = Some(GridPos { col: 2, row: 2 });
    let t = plan_tick(false, GridPos { col: 2, row: 2 }, false, GridPos { col: 120, row: 120 }, RobotState::Idle, keep, true, &km);
    assert_eq!(t.state, RobotState::Exploring);
    assert_eq!(t.frontier, Some(GridPos { col: 129, row: 120 }));
    // a frontier path exists, so the wander target is left alone
    assert_eq!(t.wander_target, keep);
    let path = t.path.expect("path expected");
    // snapped: logical (60, 60) to logical (64, 60)
    assert_eq!(path.len(), 9);
    assert_eq!(path.last(), Some(&GridPos { col: 128, row: 120 }));
}

#[test]
fn tick_blind_wanders_without_frontier() {
    // the robot stands on an unknown cell: no frontier search can start
    let mut km = all(KnownCell::FreeSpace);
    km.cells[120][120] = KnownCell::Unknown;
    km.cells[120][110] = KnownCell::Unknown; // logical (55, 60)
    let t = plan_tick(false, GridPos { col: 2, row: 2 }, false, GridPos { col: 120, row: 120 }, RobotState::Exploring, None, false, &km);
    assert_eq!(t.frontier, None);
    // the nearest unknown logical cell is the robot's own
    assert_eq!(t.wander_target, Some(GridPos { col: 120, row: 120 }));
    assert_eq!(t.path.map(|p| p.len()), Some(1));

    // a target that is not reached yet is kept
    let keep = Some(GridPos { col: 110, row: 120 });
    let t = plan_tick(false, GridPos { col: 2, row: 2 }, false, GridPos { col: 120, row: 120 }, RobotState::Exploring, keep, false, &km);
    assert_eq!(t.wander_target, keep);
    let path = t.path.expect("path expected");
    assert_eq!(path.last(), Some(&GridPos { col: 110, row: 120 }));
    assert_eq!(path.len(), 11);

    // once reached it is replaced by the nearest unknown cell
    let t = plan_tick(false, GridPos { col: 2, row: 2 }, false, GridPos { col: 120, row: 120 }, RobotState::Exploring, keep, true, &km);
    assert_eq!(t.wander_target, Some(GridPos { col: 120, row: 120 }));
}
