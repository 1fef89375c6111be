use vstd::prelude::*;

use crate::maze::types::{in_grid, GridPos};
use crate::planner::astar::{is_planned_path, plan_succeeds, Planner};
use crate::planner::frontier::{
    free_path,
    free_reachable, is_first_frontier, is_free, is_nearest_frontier, is_nearest_unknown_route, spec_is_frontier,
    unknown_logical, FrontierFinder,
};
use crate::planner::astar::{cell_of, lroute, start_logical};
use crate::robot::types::{KnownCell, KnownMap, RobotState};

verus! {

/// The planning decision of one simulation tick.
pub struct TickPlan {
    /// The waypoints to follow this tick, as `Planner::plan` gives them (the
    /// robot's own cell alone: stay at the robot's position), or `None`.
    pub path: Option<Vec<GridPos>>,
    /// The robot state after planning.
    pub state: RobotState,
    /// The exploration target to keep for the next tick (blind mode).
    pub wander_target: Option<GridPos>,
    /// The nearest frontier, when this tick looked for one and found it.
    pub frontier: Option<GridPos>,
}

/// Some frontier is reached from the robot's cell `s` through known-free cells.
pub open spec fn frontier_exists(km: &KnownMap, s: GridPos) -> bool {
    &&& is_free(km, s.col as int, s.row as int)
    &&& exists|c: int, r: int|
        #[trigger] free_reachable(km, (s.col as int, s.row as int), (c, r)) && spec_is_frontier(km, c, r)
}

/// `path` is what planning from `robot` to `target` gives.
pub open spec fn plans_to(km: &KnownMap, robot: GridPos, target: GridPos, path: Option<Vec<GridPos>>) -> bool {
    &&& path is Some <==> plan_succeeds(km, robot, target)
    &&& path matches Some(w) ==> is_planned_path(km, robot, target, w@)
}

/// The frontier search of this tick: `frontier` is `Some` exactly when a
/// frontier is reachable, and then it is the one a breadth-first search meets
/// first.
pub open spec fn frontier_searched(km: &KnownMap, robot: GridPos, frontier: Option<GridPos>) -> bool {
    &&& frontier is Some <==> frontier_exists(km, robot)
    &&& frontier matches Some(f) ==> is_nearest_frontier(
        km,
        (robot.col as int, robot.row as int),
        (f.col as int, f.row as int),
    ) && is_first_frontier(km, (robot.col as int, robot.row as int), (f.col as int, f.row as int))
}

/// A path to the tick's frontier exists.
pub open spec fn frontier_path_found(km: &KnownMap, robot: GridPos, frontier: Option<GridPos>) -> bool {
    frontier matches Some(f) && plan_succeeds(km, robot, f)
}

/// The goal cell is known and a path to it exists.
pub open spec fn goal_direct(km: &KnownMap, robot: GridPos, goal: GridPos) -> bool {
    km.at(goal.col as int, goal.row as int) != KnownCell::Unknown && plan_succeeds(km, robot, goal)
}

/// Compute the path for this tick.
///
/// `goal_known` selects goal-aware mode (`true`) or blind mode (`false`);
/// `goal` is the effective goal of that mode. `at_goal` tells that the robot
/// is within the arrival threshold of that goal, and `wander_reached` that it
/// is within reach of its current wander target; both are measured in metres
/// by the caller. `robot_cell` is the grid cell under the robot.
///
/// - At the goal there is no path and nothing changes.
/// - Goal-aware mode drives directly to the goal as soon as its cell is known
///   and a path to it exists (`NavigatingToGoal`); otherwise it heads for the
///   nearest frontier (`Exploring`), falling back to a path to the goal.
/// - Blind mode explores purely by frontiers (`Exploring`). When no frontier
///   path exists it falls back to a persistent wander target, the nearest
///   unknown logical cell, refreshed only when there is none yet or the robot
///   has reached it.
pub fn plan_tick(
    goal_known: bool,
    goal: GridPos,
    at_goal: bool,
    robot_cell: GridPos,
    state: RobotState,
    wander_target: Option<GridPos>,
    wander_reached: bool,
    known_map: &KnownMap,
) -> (t: TickPlan)
    requires
        known_map.wf(),
        in_grid(robot_cell.col as int, robot_cell.row as int),
        goal_known ==> in_grid(goal.col as int, goal.row as int),
    ensures
        at_goal ==> t.path is None && t.state == state && t.wander_target == wander_target
            && t.frontier is None,
        // goal-aware mode
        !at_goal && goal_known ==> t.wander_target == wander_target,
        !at_goal && goal_known && goal_direct(known_map, robot_cell, goal) ==> {
            &&& t.state == RobotState::NavigatingToGoal
            &&& plans_to(known_map, robot_cell, goal, t.path)
            &&& t.frontier is None
        },
        !at_goal && goal_known && !goal_direct(known_map, robot_cell, goal) ==> {
            &&& frontier_searched(known_map, robot_cell, t.frontier)
            &&& t.state == (if t.frontier is Some {
                RobotState::Exploring
            } else {
                state
            })
            &&& if frontier_path_found(known_map, robot_cell, t.frontier) {
                plans_to(known_map, robot_cell, t.frontier->0, t.path)
            } else {
                plans_to(known_map, robot_cell, goal, t.path)
            }
        },
        // blind mode
        !at_goal && !goal_known ==> {
            &&& t.state == RobotState::Exploring
            &&& frontier_searched(known_map, robot_cell, t.frontier)
            &&& if frontier_path_found(known_map, robot_cell, t.frontier) {
                &&& plans_to(known_map, robot_cell, t.frontier->0, t.path)
                &&& t.wander_target == wander_target
            } else {
                &&& (wander_target is Some && !wander_reached) ==> t.wander_target == wander_target
                &&& (wander_target is None || wander_reached) ==> match t.wander_target {
                    Some(u) => exists|route: Seq<(int, int)>|
                        #[trigger] is_nearest_unknown_route(known_map, route, start_logical(robot_cell))
                            && u == cell_of(route.last()),
                    None => forall|p: Seq<(int, int)>|
                        #[trigger] lroute(known_map, p) && p[0] == start_logical(robot_cell)
                            ==> !unknown_logical(known_map, p.last()),
                }
                &&& match t.wander_target {
                    Some(u) => plans_to(known_map, robot_cell, u, t.path),
                    None => t.path is None,
                }
            }
        },
{
    if at_goal {
        return TickPlan { path: None, state, wander_target, frontier: None };
    }
    if goal_known {
        // --- Goal-aware mode ---
        // Drive directly to the goal as soon as its cell is in the map;
        // fall back to frontier exploration while the goal is unknown.
        let goal_cell = known_map.cells[goal.row as usize][goal.col as usize];
        let direct = if goal_cell != KnownCell::Unknown {
            Planner::plan(robot_cell, goal, known_map)
        } else {
            None
        };
        match direct {
            Some(p) => TickPlan {
                path: Some(p),
                state: RobotState::NavigatingToGoal,
                wander_target,
                frontier: None,
            },
            None => {
                let mut new_state = state;
                let frontier = FrontierFinder::nearest_frontier(robot_cell, known_map);
                proof {
                    lemma_frontier_found(known_map, robot_cell, frontier);
                }
                let via_frontier = match frontier {
                    Some(f) => {
                        new_state = RobotState::Exploring;
                        Planner::plan(robot_cell, f, known_map)
                    },
                    None => None,
                };
                let path = match via_frontier {
                    Some(p) => Some(p),
                    None => Planner::plan(robot_cell, goal, known_map),
                };
                TickPlan { path, state: new_state, wander_target, frontier }
            },
        }
    } else {
        // --- Blind mode ---
        // The robot does not know where the goal is. It explores purely
        // using frontier BFS. When no frontier path exists, fall back to
        // a persistent wander target (nearest unknown cell) that is held
        // across ticks and only refreshed once the robot arrives.
        let frontier = FrontierFinder::nearest_frontier(robot_cell, known_map);
        proof {
            lemma_frontier_found(known_map, robot_cell, frontier);
        }
        let via_frontier = match frontier {
            Some(f) => Planner::plan(robot_cell, f, known_map),
            None => None,
        };
        match via_frontier {
            Some(p) => TickPlan { path: Some(p), state: RobotState::Exploring, wander_target, frontier },
            None => {
                let needs_refresh = match wander_target {
                    None => true,
                    Some(_) => wander_reached,
                };
                let target = if needs_refresh {
                    FrontierFinder::nearest_unknown(robot_cell, known_map)
                } else {
                    wander_target
                };
                let path = match target {
                    Some(u) => Planner::plan(robot_cell, u, known_map),
                    None => None,
                };
                TickPlan { path, state: RobotState::Exploring, wander_target: target, frontier }
            },
        }
    }
}

/// `nearest_frontier` finds a frontier exactly when one is reachable from a
/// free start cell.
proof fn lemma_frontier_found(km: &KnownMap, s: GridPos, res: Option<GridPos>)
    requires
        km.wf(),
        !is_free(km, s.col as int, s.row as int) ==> res is None,
        res matches Some(f) ==> is_free(km, f.col as int, f.row as int) && is_nearest_frontier(
            km,
            (s.col as int, s.row as int),
            (f.col as int, f.row as int),
        ),
        res is None && is_free(km, s.col as int, s.row as int) ==> forall|c: int, r: int|
            #[trigger] free_reachable(km, (s.col as int, s.row as int), (c, r)) ==> !spec_is_frontier(km, c, r),
    ensures
        res is Some <==> frontier_exists(km, s),
{
    if let Some(f) = res {
        let pf = choose|pf: Seq<(int, int)>|
            {
                &&& #[trigger] free_path(km, pf)
                &&& pf[0] == (s.col as int, s.row as int)
                &&& pf.last() == (f.col as int, f.row as int)
                &&& forall|p: Seq<(int, int)>|
                    free_path(km, p) && p[0] == (s.col as int, s.row as int) && spec_is_frontier(km, p.last().0, p.last().1) ==> pf.len()
                        <= #[trigger] p.len()
            };
        assert(is_free(km, pf[0].0, pf[0].1));
        assert(free_reachable(km, (s.col as int, s.row as int), (f.col as int, f.row as int)));
    }
}

} // verus!
