use std::collections::VecDeque;
use vstd::prelude::*;
use vstd::set_lib::{lemma_int_range, lemma_len_subset, set_int_range};

use crate::maze::routes::lemma_route_exists;
use crate::maze::types::{
    adjacent, filled_grid, goal_opening, in_grid, is_goal_cell, is_inner_logical, spec_snap_coord, square, GridPos, Maze,
    GRID_SIZE,
};
use crate::robot::types::{KnownCell, KnownMap};

verus! {

/// Path planner operating on the robot's [`KnownMap`].
///
/// Operates on **logical cells** (even grid indices only).
/// Each logical cell `(lc, lr)` maps to physical cell `(lc*2, lr*2)`.
/// Movement between two adjacent logical cells is allowed only when the
/// wall cell between them is not a confirmed Wall.
pub struct Planner;

// Number of logical cells per side (240 / 2 = 120).
const LCOLS: usize = 120;
const LROWS: usize = 120;

/// `(lc, lr)` is a logical cell: both indices below 120.
pub open spec fn in_logical(lc: int, lr: int) -> bool {
    0 <= lc < 120 && 0 <= lr < 120
}

/// A move between adjacent logical cells `a` and `b`: the grid cell between
/// them (at `a + b`) is not a confirmed wall. Unknown cells count as open.
pub open spec fn lpass(km: &KnownMap, a: (int, int), b: (int, int)) -> bool {
    &&& in_logical(a.0, a.1)
    &&& in_logical(b.0, b.1)
    &&& adjacent(a, b)
    &&& km.at(a.0 + b.0, a.1 + b.1) != KnownCell::Wall
}

/// A walk over logical cells, each move through a cell that is not a wall.
pub open spec fn lroute(km: &KnownMap, p: Seq<(int, int)>) -> bool {
    &&& p.len() >= 1
    &&& forall|i: int| 0 <= i < p.len() ==> in_logical((#[trigger] p[i]).0, p[i].1)
    &&& forall|i: int| 0 <= i < p.len() - 1 ==> #[trigger] lpass(km, p[i], p[i + 1])
}

/// Some logical walk leads from `a` to `b`.
pub open spec fn lreachable(km: &KnownMap, a: (int, int), b: (int, int)) -> bool {
    exists|p: Seq<(int, int)>| #[trigger] lroute(km, p) && p[0] == a && p.last() == b
}

/// `route` is a logical walk from `a` to `b` and no such walk is shorter.
pub open spec fn is_shortest_route(km: &KnownMap, route: Seq<(int, int)>, a: (int, int), b: (int, int)) -> bool {
    &&& lroute(km, route)
    &&& route[0] == a
    &&& route.last() == b
    &&& forall|p: Seq<(int, int)>| lroute(km, p) && p[0] == a && p.last() == b ==> route.len() <= #[trigger] p.len()
}

/// The logical cell the robot plans from: its grid cell snapped to even indices, halved.
pub open spec fn start_logical(robot_cell: GridPos) -> (int, int) {
    (spec_snap_coord(robot_cell.col as int) / 2, spec_snap_coord(robot_cell.row as int) / 2)
}

/// The logical cell of a goal: its grid cell (capped at the last index) halved.
pub open spec fn goal_logical(goal: GridPos) -> (int, int) {
    let c = if goal.col < GRID_SIZE - 1 { goal.col as int } else { GRID_SIZE - 1 };
    let r = if goal.row < GRID_SIZE - 1 { goal.row as int } else { GRID_SIZE - 1 };
    (c / 2, r / 2)
}

/// The grid cell of logical cell `a`.
pub open spec fn cell_of(a: (int, int)) -> GridPos {
    GridPos { col: (2 * a.0) as u16, row: (2 * a.1) as u16 }
}

/// The grid cell between adjacent logical cells `a` and `b`.
pub open spec fn connector_of(a: (int, int), b: (int, int)) -> GridPos {
    GridPos { col: (a.0 + b.0) as u16, row: (a.1 + b.1) as u16 }
}

/// The waypoints along a logical route: the grid cell of the first logical
/// cell, then for each move the connector cell and the next logical cell, so
/// that the robot always travels axis-aligned through the connector.
pub open spec fn waypoints_of(route: Seq<(int, int)>) -> Seq<GridPos> {
    Seq::new(
        (2 * route.len() - 1) as nat,
        |i: int|
            if i % 2 == 0 {
                cell_of(route[i / 2])
            } else {
                connector_of(route[(i - 1) / 2], route[(i + 1) / 2])
            },
    )
}

/// The logical cell a queue entry names.
pub(crate) open spec fn key(p: (usize, usize)) -> (int, int) {
    (p.0 as int, p.1 as int)
}

/// Logical cell `(c, r)` is marked in `v` (indexed `v[r][c]`).
spec fn lvis(v: Seq<Vec<bool>>, c: int, r: int) -> bool {
    in_logical(c, r) && v[r]@[c]
}

/// The recorded predecessor of logical cell `(c, r)`.
spec fn par_of(par: Seq<Vec<(usize, usize)>>, c: int, r: int) -> (int, int) {
    key(par[r]@[c])
}

/// Each logical neighbour of `(c, r)` reachable through an open connector is
/// marked, one step further from the start.
spec fn lnbr_ok(
    km: &KnownMap,
    v: Seq<Vec<bool>>,
    paths: Map<(int, int), Seq<(int, int)>>,
    c: int,
    r: int,
) -> bool {
    &&& lpass(km, (c, r), (c - 1, r)) ==> lvis(v, c - 1, r) && paths[(c - 1, r)].len() <= paths[(c, r)].len() + 1
    &&& lpass(km, (c, r), (c + 1, r)) ==> lvis(v, c + 1, r) && paths[(c + 1, r)].len() <= paths[(c, r)].len() + 1
    &&& lpass(km, (c, r), (c, r - 1)) ==> lvis(v, c, r - 1) && paths[(c, r - 1)].len() <= paths[(c, r)].len() + 1
    &&& lpass(km, (c, r), (c, r + 1)) ==> lvis(v, c, r + 1) && paths[(c, r + 1)].len() <= paths[(c, r)].len() + 1
}

/// What holds between two steps of the breadth-first search from `s` for `g`.
spec fn lbfs_inv(
    km: &KnownMap,
    s: (int, int),
    t: Target,
    v: Seq<Vec<bool>>,
    par: Seq<Vec<(usize, usize)>>,
    q: Seq<(usize, usize)>,
    head: int,
    done: int,
    vs: Set<int>,
    pos: Map<(int, int), int>,
    paths: Map<(int, int), Seq<(int, int)>>,
) -> bool {
    &&& km.wf()
    &&& square(v, LCOLS as int)
    &&& square(par, LCOLS as int)
    &&& lvis(v, s.0, s.1)
    &&& paths[s] == seq![s]
    &&& 0 <= done <= head <= q.len()
    &&& forall|i: int|
        0 <= i < q.len() ==> lvis(v, (#[trigger] q[i]).0 as int, q[i].1 as int) && pos[key(q[i])] == i
    &&& forall|c: int, r: int|
        #[trigger] lvis(v, c, r) ==> {
            &&& pos.contains_key((c, r))
            &&& 0 <= pos[(c, r)] < q.len()
            &&& key(q[pos[(c, r)]]) == (c, r)
            &&& paths.contains_key((c, r))
            &&& lroute(km, paths[(c, r)])
            &&& paths[(c, r)][0] == s
            &&& paths[(c, r)].last() == (c, r)
            &&& (c, r) != s ==> lvis(v, par_of(par, c, r).0, par_of(par, c, r).1) && paths[(c, r)]
                == paths[par_of(par, c, r)].push((c, r))
        }
    // queue order follows the distance from the start
    &&& forall|i: int, j: int|
        0 <= i <= j < q.len() ==> paths[key(#[trigger] q[i])].len() <= paths[key(#[trigger] q[j])].len()
    &&& forall|j: int|
        1 <= head <= j < q.len() ==> paths[key(#[trigger] q[j])].len() <= paths[key(q[head - 1])].len() + 1
    // dequeued cells
    &&& forall|i: int| 0 <= i < done ==> #[trigger] lnbr_ok(km, v, paths, q[i].0 as int, q[i].1 as int)
    &&& forall|i: int| 0 <= i < head ==> !is_target(km, t, key(#[trigger] q[i]))
    // counting
    &&& vs.finite()
    &&& vs.len() == q.len()
    &&& forall|i: int| #[trigger] vs.contains(i) ==> 0 <= i < LCOLS * LROWS
    &&& forall|c: int, r: int| in_logical(c, r) ==> (#[trigger] lvis(v, c, r) <==> vs.contains(r * 120 + c))
}

proof fn lemma_lbfs_count_bound(vs: Set<int>)
    requires
        forall|i: int| #[trigger] vs.contains(i) ==> 0 <= i < LCOLS * LROWS,
    ensures
        vs.finite(),
        vs.len() <= LCOLS * LROWS,
{
    lemma_int_range(0, LCOLS * LROWS);
    assert(vs.subset_of(set_int_range(0, LCOLS * LROWS)));
    lemma_len_subset(vs, set_int_range(0, LCOLS * LROWS));
}

/// Walking along a logical route from the start: the walk stays among marked
/// cells no further than their position on the route, until it meets a cell
/// at least `bound` away.
proof fn lemma_lwalk(
    km: &KnownMap,
    s: (int, int),
    t: Target,
    v: Seq<Vec<bool>>,
    par: Seq<Vec<(usize, usize)>>,
    q: Seq<(usize, usize)>,
    head: int,
    done: int,
    vs: Set<int>,
    pos: Map<(int, int), int>,
    paths: Map<(int, int), Seq<(int, int)>>,
    bound: int,
    p: Seq<(int, int)>,
    i: int,
) -> (k: int)
    requires
        lbfs_inv(km, s, t, v, par, q, head, done, vs, pos, paths),
        forall|c: int, r: int| lvis(v, c, r) && paths[(c, r)].len() < bound ==> #[trigger] pos[(c, r)] < done,
        lroute(km, p),
        p[0] == s,
        0 <= i < p.len(),
    ensures
        0 <= k <= i,
        lvis(v, p[k].0, p[k].1),
        paths[p[k]].len() <= k + 1,
        k == i || paths[p[k]].len() >= bound,
    decreases i,
{
    if i == 0 {
        0
    } else {
        let k = lemma_lwalk(km, s, t, v, par, q, head, done, vs, pos, paths, bound, p, i - 1);
        if paths[p[k]].len() >= bound {
            k
        } else {
            let j = i - 1;
            let x = p[j];
            assert(lpass(km, p[j], p[j + 1]));
            let n = pos[x];
            assert(pos[(x.0, x.1)] < done);
            assert(key(q[n]) == x);
            assert(lnbr_ok(km, v, paths, q[n].0 as int, q[n].1 as int));
            i
        }
    }
}

/// Marking the reachable neighbour `y` of the cell last dequeued, recording
/// that cell as its predecessor and queueing it keeps the invariant; `y` is
/// one step further from the start.
proof fn lemma_lbfs_push(
    km: &KnownMap,
    s: (int, int),
    t: Target,
    v: Seq<Vec<bool>>,
    par: Seq<Vec<(usize, usize)>>,
    q: Seq<(usize, usize)>,
    head: int,
    vs: Set<int>,
    pos: Map<(int, int), int>,
    paths: Map<(int, int), Seq<(int, int)>>,
    y: (int, int),
    v2: Seq<Vec<bool>>,
    par2: Seq<Vec<(usize, usize)>>,
)
    requires
        lbfs_inv(km, s, t, v, par, q, head, head - 1, vs, pos, paths),
        head >= 1,
        lpass(km, key(q[head - 1]), y),
        !lvis(v, y.0, y.1),
        square(v2, LCOLS as int),
        forall|c: int, r: int| #[trigger] lvis(v2, c, r) == (lvis(v, c, r) || (c, r) == y),
        square(par2, LCOLS as int),
        forall|c: int, r: int|
            in_logical(c, r) ==> #[trigger] par_of(par2, c, r) == if (c, r) == y {
                key(q[head - 1])
            } else {
                par_of(par, c, r)
            },
    ensures
        lbfs_inv(
            km,
            s,
            t,
            v2,
            par2,
            q.push((y.0 as usize, y.1 as usize)),
            head,
            head - 1,
            vs.insert(y.1 * 120 + y.0),
            pos.insert(y, q.len() as int),
            paths.insert(y, paths[key(q[head - 1])].push(y)),
        ),
        forall|c: int, r: int| #[trigger] lvis(v, c, r) ==> paths.insert(y, paths[key(q[head - 1])].push(y))[(c, r)] == paths[(c, r)],
{
    let x = key(q[head - 1]);
    let q2 = q.push((y.0 as usize, y.1 as usize));
    let vs2 = vs.insert(y.1 * 120 + y.0);
    let pos2 = pos.insert(y, q.len() as int);
    let px = paths[x];
    let py = px.push(y);
    let paths2 = paths.insert(y, py);
    assert(lvis(v, x.0, x.1));
    assert(y != s);
    assert(!vs.contains(y.1 * 120 + y.0));
    lemma_lbfs_count_bound(vs);
    assert(lroute(km, py)) by {
        assert forall|i: int| 0 <= i < py.len() implies in_logical((#[trigger] py[i]).0, py[i].1) by {
            if i < px.len() {
                assert(py[i] == px[i]);
            }
        }
        assert forall|i: int| 0 <= i < py.len() - 1 implies #[trigger] lpass(km, py[i], py[i + 1]) by {
            if i < px.len() - 1 {
                assert(py[i] == px[i] && py[i + 1] == px[i + 1]);
                assert(lpass(km, px[i], px[i + 1]));
            } else {
                assert(py[i] == px.last());
            }
        }
    }
    assert forall|i: int|
        0 <= i < q2.len() implies lvis(v2, (#[trigger] q2[i]).0 as int, q2[i].1 as int) && pos2[key(q2[i])] == i by {
        if i < q.len() {
            assert(q2[i] == q[i]);
            assert(lvis(v, q[i].0 as int, q[i].1 as int));
        }
    }
    assert forall|c: int, r: int| #[trigger] lvis(v2, c, r) implies {
        &&& pos2.contains_key((c, r))
        &&& 0 <= pos2[(c, r)] < q2.len()
        &&& key(q2[pos2[(c, r)]]) == (c, r)
        &&& paths2.contains_key((c, r))
        &&& lroute(km, paths2[(c, r)])
        &&& paths2[(c, r)][0] == s
        &&& paths2[(c, r)].last() == (c, r)
        &&& (c, r) != s ==> lvis(v2, par_of(par2, c, r).0, par_of(par2, c, r).1) && paths2[(c, r)]
            == paths2[par_of(par2, c, r)].push((c, r))
    } by {
        if (c, r) != y {
            assert(lvis(v, c, r));
            assert(q2[pos[(c, r)]] == q[pos[(c, r)]]);
            if (c, r) != s {
                let pp = par_of(par, c, r);
                assert(lvis(v, pp.0, pp.1));
                assert(pp != y);
            }
        } else {
            assert(par_of(par2, c, r) == x);
        }
    }
    assert forall|i: int, j: int|
        0 <= i <= j < q2.len() implies paths2[key(#[trigger] q2[i])].len() <= paths2[key(#[trigger] q2[j])].len() by {
        if j < q.len() {
            assert(q2[i] == q[i] && q2[j] == q[j]);
            assert(lvis(v, q[i].0 as int, q[i].1 as int));
            assert(lvis(v, q[j].0 as int, q[j].1 as int));
        } else if i < q.len() {
            assert(q2[i] == q[i]);
            assert(lvis(v, q[i].0 as int, q[i].1 as int));
            if i >= head {
                assert(paths[key(q[i])].len() <= paths[key(q[head - 1])].len() + 1);
            } else {
                assert(paths[key(q[i])].len() <= paths[key(q[head - 1])].len());
            }
        }
    }
    assert forall|j: int|
        1 <= head <= j < q2.len() implies paths2[key(#[trigger] q2[j])].len() <= paths2[key(q2[head - 1])].len() + 1 by {
        assert(q2[head - 1] == q[head - 1]);
        if j < q.len() {
            assert(q2[j] == q[j]);
            assert(lvis(v, q[j].0 as int, q[j].1 as int));
        }
    }
    assert forall|i: int| 0 <= i < head - 1 implies #[trigger] lnbr_ok(km, v2, paths2, q2[i].0 as int, q2[i].1 as int) by {
        assert(q2[i] == q[i]);
        assert(lnbr_ok(km, v, paths, q[i].0 as int, q[i].1 as int));
        assert(lvis(v, q[i].0 as int, q[i].1 as int));
    }
    assert forall|i: int| 0 <= i < head implies !is_target(km, t, key(#[trigger] q2[i])) by {
        assert(q2[i] == q[i]);
    }
    assert forall|c: int, r: int| in_logical(c, r) implies (#[trigger] lvis(v2, c, r) <==> vs2.contains(r * 120 + c)) by {
        assert(lvis(v, c, r) <==> vs.contains(r * 120 + c));
    }
    assert forall|i: int| #[trigger] vs2.contains(i) implies 0 <= i < LCOLS * LROWS by {}
}

/// Dequeueing a cell other than the goal keeps the invariant.
proof fn lemma_lbfs_dequeue(
    km: &KnownMap,
    s: (int, int),
    t: Target,
    v: Seq<Vec<bool>>,
    par: Seq<Vec<(usize, usize)>>,
    q: Seq<(usize, usize)>,
    h: int,
    vs: Set<int>,
    pos: Map<(int, int), int>,
    paths: Map<(int, int), Seq<(int, int)>>,
)
    requires
        lbfs_inv(km, s, t, v, par, q, h, h, vs, pos, paths),
        0 <= h < q.len(),
        h == 0 ==> q.len() == 1,
        !is_target(km, t, key(q[h])),
    ensures
        lbfs_inv(km, s, t, v, par, q, h + 1, h, vs, pos, paths),
{
    assert forall|j: int|
        1 <= h + 1 <= j < q.len() implies paths[key(#[trigger] q[j])].len() <= paths[key(q[h])].len() + 1 by {
        assert(paths[key(q[j])].len() <= paths[key(q[h - 1])].len() + 1);
        assert(paths[key(q[h - 1])].len() <= paths[key(q[h])].len());
    }
    assert forall|i: int| 0 <= i < h + 1 implies !is_target(km, t, key(#[trigger] q[i])) by {}
}

/// A target dequeued at position `h` is reached by a route no longer than
/// any route from the start to a target.
proof fn lemma_target_found(
    km: &KnownMap,
    s: (int, int),
    t: Target,
    v: Seq<Vec<bool>>,
    par: Seq<Vec<(usize, usize)>>,
    q: Seq<(usize, usize)>,
    h: int,
    vs: Set<int>,
    pos: Map<(int, int), int>,
    paths: Map<(int, int), Seq<(int, int)>>,
)
    requires
        lbfs_inv(km, s, t, v, par, q, h, h, vs, pos, paths),
        0 <= h < q.len(),
        is_target(km, t, key(q[h])),
    ensures
        lvis(v, q[h].0 as int, q[h].1 as int),
        forall|p: Seq<(int, int)>|
            #[trigger] lroute(km, p) && p[0] == s && is_target(km, t, p.last()) ==> paths[key(q[h])].len() <= p.len(),
{
    let x = key(q[h]);
    let pg = paths[x];
    assert(lvis(v, x.0, x.1));
    assert forall|c: int, r: int| lvis(v, c, r) && paths[(c, r)].len() < pg.len() implies #[trigger] pos[(c, r)] < h by {
        let pn = pos[(c, r)];
        assert(key(q[pn]) == (c, r));
        if pn >= h {
            assert(paths[key(q[h])].len() <= paths[key(q[pn])].len());
        }
    }
    assert forall|p: Seq<(int, int)>|
        #[trigger] lroute(km, p) && p[0] == s && is_target(km, t, p.last()) implies pg.len() <= p.len() by {
        let k = lemma_lwalk(km, s, t, v, par, q, h, h, vs, pos, paths, pg.len() as int, p, p.len() - 1);
        if paths[p[k]].len() < pg.len() {
            let y = p[k];
            let pn = pos[y];
            assert(pn < h);
            assert(key(q[pn]) == y);
        }
    }
}

/// When the queue runs dry, no route from the start reaches a target.
proof fn lemma_no_target(
    km: &KnownMap,
    s: (int, int),
    t: Target,
    v: Seq<Vec<bool>>,
    par: Seq<Vec<(usize, usize)>>,
    q: Seq<(usize, usize)>,
    head: int,
    vs: Set<int>,
    pos: Map<(int, int), int>,
    paths: Map<(int, int), Seq<(int, int)>>,
)
    requires
        lbfs_inv(km, s, t, v, par, q, head, head, vs, pos, paths),
        head == q.len(),
    ensures
        forall|p: Seq<(int, int)>| #[trigger] lroute(km, p) && p[0] == s ==> !is_target(km, t, p.last()),
{
    assert forall|p: Seq<(int, int)>| #[trigger] lroute(km, p) && p[0] == s implies !is_target(km, t, p.last()) by {
        assert forall|a: int, b: int| lvis(v, a, b) && paths[(a, b)].len() < p.len() + 1 implies #[trigger] pos[(a, b)] < head by {}
        let k = lemma_lwalk(km, s, t, v, par, q, head, head, vs, pos, paths, (p.len() + 1) as int, p, p.len() - 1);
        let y = p[k];
        let pn = pos[y];
        assert(key(q[pn]) == y);
    }
}

impl Planner {
    /// Compute a shortest path from the robot's grid cell `robot_cell` to
    /// `goal` on `known_map`, moving between logical cells through connector
    /// cells that are not confirmed walls.
    ///
    /// Returns `None` if the goal is confirmed unreachable. When the robot
    /// already stands in the goal's logical cell the path is the robot's own
    /// cell alone: the robot stays where it is. Otherwise the waypoints start
    /// at the robot's snapped logical cell and alternate connector and logical
    /// cells up to the goal's logical cell (at least three of them).
    pub fn plan(robot_cell: GridPos, goal: GridPos, known_map: &KnownMap) -> (res: Option<Vec<GridPos>>)
        requires
            known_map.wf(),
        ensures
            res is Some <==> plan_succeeds(known_map, robot_cell, goal),
            res matches Some(w) ==> is_planned_path(known_map, robot_cell, goal, w@),
    {
        // Convert physical grid pos to logical cell.
        let phys_start = robot_cell.snap_even();
        // Already even after snap.
        let sc = phys_start.col as usize / 2;
        let sr = phys_start.row as usize / 2;
        let start_lc = if sc < LCOLS - 1 { sc } else { LCOLS - 1 };
        let start_lr = if sr < LROWS - 1 { sr } else { LROWS - 1 };

        let gc = if (goal.col as usize) < GRID_SIZE - 1 { goal.col as usize } else { GRID_SIZE - 1 };
        let gr = if (goal.row as usize) < GRID_SIZE - 1 { goal.row as usize } else { GRID_SIZE - 1 };
        let goal_lc = if gc / 2 < LCOLS - 1 { gc / 2 } else { LCOLS - 1 };
        let goal_lr = if gr / 2 < LROWS - 1 { gr / 2 } else { LROWS - 1 };
        assert((start_lc as int, start_lr as int) == start_logical(robot_cell));
        assert((goal_lc as int, goal_lr as int) == goal_logical(goal));

        if start_lc == goal_lc && start_lr == goal_lr {
            let mut here = Vec::new();
            here.push(robot_cell);
            assert(here@ =~= seq![robot_cell]);
            return Some(here);
        }
        match search((start_lc, start_lr), Target::Cell(goal_lc, goal_lr), known_map) {
            None => {
                proof {
                    if lreachable(known_map, start_logical(robot_cell), goal_logical(goal)) {
                        let p = choose|p: Seq<(int, int)>| #[trigger] lroute(known_map, p) && p[0] == start_logical(robot_cell) && p.last() == goal_logical(goal);
                        assert(!is_target(known_map, Target::Cell(goal_lc, goal_lr), p.last()));
                    }
                }
                None
            },
            Some(cells) => {
                let ghost route = keys(cells@);
                assert(lroute(known_map, route));
                assert forall|i: int| 0 <= i < cells@.len() implies in_logical((#[trigger] cells@[i]).0 as int, cells@[i].1 as int) by {
                    assert(route[i] == key(cells@[i]));
                }
                let w = waypoints(&cells);
                assert forall|p: Seq<(int, int)>|
                    lroute(known_map, p) && p[0] == start_logical(robot_cell) && p.last() == goal_logical(goal)
                        implies route.len() <= #[trigger] p.len() by {
                    assert(is_target(known_map, Target::Cell(goal_lc, goal_lr), p.last()));
                }
                assert(is_shortest_route(known_map, route, start_logical(robot_cell), goal_logical(goal)));
                Some(w)
            },
        }
    }
}

/// Planning from `robot` to `goal` succeeds: they share a logical cell, or a
/// logical walk leads from one to the other.
pub open spec fn plan_succeeds(km: &KnownMap, robot: GridPos, goal: GridPos) -> bool {
    start_logical(robot) == goal_logical(goal) || lreachable(km, start_logical(robot), goal_logical(goal))
}

/// `w` is a path that planning from `robot` to `goal` gives: the robot's own
/// cell alone when they share a logical cell, else the waypoints of a
/// shortest logical walk.
pub open spec fn is_planned_path(km: &KnownMap, robot: GridPos, goal: GridPos, w: Seq<GridPos>) -> bool {
    if start_logical(robot) == goal_logical(goal) {
        w == seq![robot]
    } else {
        exists|route: Seq<(int, int)>|
            #[trigger] is_shortest_route(km, route, start_logical(robot), goal_logical(goal)) && w
                == waypoints_of(route)
    }
}

/// The grid position `p` as a pair of integers.
pub open spec fn pos_of(p: GridPos) -> (int, int) {
    (p.col as int, p.row as int)
}

/// A planned path between different logical cells starts on the robot's
/// snapped logical cell, ends on the goal's logical cell, moves between edge
/// neighbours of the grid only (axis-aligned), stays on the grid, and crosses
/// no cell of the known map that is a confirmed wall between logical cells.
pub proof fn lemma_planned_path_shape(km: &KnownMap, robot: GridPos, goal: GridPos, w: Seq<GridPos>)
    requires
        km.wf(),
        start_logical(robot) != goal_logical(goal),
        is_planned_path(km, robot, goal, w),
    ensures
        w.len() >= 3,
        w[0] == cell_of(start_logical(robot)),
        w.last() == cell_of(goal_logical(goal)),
        forall|i: int| 0 <= i < w.len() ==> in_grid((#[trigger] w[i]).col as int, w[i].row as int),
        forall|i: int| 0 <= i < w.len() - 1 ==> #[trigger] adjacent(pos_of(w[i]), pos_of(w[i + 1])),
        forall|i: int|
            0 <= i < w.len() && i % 2 == 1 ==> km.at((#[trigger] w[i]).col as int, w[i].row as int)
                != KnownCell::Wall,
{
    let route = choose|route: Seq<(int, int)>|
        #[trigger] is_shortest_route(km, route, start_logical(robot), goal_logical(goal)) && w == waypoints_of(route);
    let n = route.len();
    assert(n >= 2) by {
        if n == 1 {
            assert(route[0] == route.last());
        }
    }
    assert(w[2 * n - 2] == cell_of(route[(2 * n - 2) / 2]));
    assert((2 * n - 2) / 2 == n - 1);
    assert forall|i: int| 0 <= i < w.len() implies in_grid((#[trigger] w[i]).col as int, w[i].row as int) by {
        if i % 2 == 0 {
            assert(in_logical(route[i / 2].0, route[i / 2].1));
        } else {
            assert(in_logical(route[(i - 1) / 2].0, route[(i - 1) / 2].1));
            assert(in_logical(route[(i + 1) / 2].0, route[(i + 1) / 2].1));
        }
    }
    assert forall|i: int| 0 <= i < w.len() - 1 implies #[trigger] adjacent(pos_of(w[i]), pos_of(w[i + 1])) by {
        let k = if i % 2 == 0 { i / 2 } else { (i - 1) / 2 };
        assert(lpass(km, route[k], route[k + 1]));
        assert(in_logical(route[k].0, route[k].1) && in_logical(route[k + 1].0, route[k + 1].1));
        if i % 2 == 0 {
            assert((i + 1 - 1) / 2 == k && (i + 1 + 1) / 2 == k + 1);
        } else {
            assert((i + 1) / 2 == k + 1);
        }
    }
    assert forall|i: int| 0 <= i < w.len() && i % 2 == 1 implies km.at((#[trigger] w[i]).col as int, w[i].row as int)
        != KnownCell::Wall by {
        let k = (i - 1) / 2;
        assert((i + 1) / 2 == k + 1);
        assert(lpass(km, route[k], route[k + 1]));
    }
}

/// Breadth-first search over logical cells from `s` for a target: returns
/// the logical cells of a shortest route from `s` to a target, or `None` when
/// no route from `s` reaches one.
#[verifier::spinoff_prover]
#[verifier::rlimit(40)]
pub(crate) fn search(s: (usize, usize), t: Target, known_map: &KnownMap) -> (res: Option<Vec<(usize, usize)>>)
    requires
        known_map.wf(),
        in_logical(s.0 as int, s.1 as int),
    ensures
        res matches Some(cells) ==> {
            &&& lroute(known_map, keys(cells@))
            &&& keys(cells@)[0] == key(s)
            &&& is_target(known_map, t, keys(cells@).last())
            &&& forall|p: Seq<(int, int)>|
                #[trigger] lroute(known_map, p) && p[0] == key(s) && is_target(known_map, t, p.last())
                    ==> cells@.len() <= p.len()
        },
        res is None ==> forall|p: Seq<(int, int)>|
            #[trigger] lroute(known_map, p) && p[0] == key(s) ==> !is_target(known_map, t, p.last()),
{
    let ghost sk = key(s);
    let ghost gk = t;
    let mut visited = filled_grid(LCOLS, false);
    let mut parent = filled_grid(LCOLS, (0usize, 0usize));
    let mut queue: VecDeque<(usize, usize)> = VecDeque::new();
    // every cell ever queued, in order; the live queue is its part from `head` on
    let ghost mut hist: Seq<(usize, usize)> = Seq::empty();
    let ghost mut head: int = 0;

    visited[s.1][s.0] = true;
    queue.push_back(s);
    proof {
        hist = hist.push(s);
    }
    let ghost mut vs: Set<int> = Set::empty().insert(s.1 * 120 + s.0);
    let ghost mut pos: Map<(int, int), int> = Map::empty().insert(sk, 0);
    let ghost mut paths: Map<(int, int), Seq<(int, int)>> = Map::empty().insert(sk, seq![sk]);
    proof {
        assert forall|c: int, r: int| #[trigger] lvis(visited@, c, r) implies (c, r) == sk by {
            if r != s.1 {
            }
        }
        assert(hist[0] == s);
        assert(lroute(known_map, seq![sk]));
        assert(lbfs_inv(known_map, sk, gk, visited@, parent@, hist, 0, 0, vs, pos, paths));
    }

    while queue.len() > 0
        invariant
            queue@ == hist.subrange(head, hist.len() as int),
            lbfs_inv(known_map, sk, gk, visited@, parent@, hist, head, head, vs, pos, paths),
            sk == key(s),
            gk == t,
            head == 0 ==> hist.len() == 1,
        decreases 5 * (LCOLS * LROWS - hist.len()) + hist.len() - head,
    {
        proof {
            lemma_lbfs_count_bound(vs);
        }
        let ghost h = head;
        let (lc, lr) = queue.pop_front().unwrap();
        let ghost x = (lc as int, lr as int);
        assert(key(hist[h]) == x);
        assert(lvis(visited@, lc as int, lr as int));
        proof {
            head = head + 1;
            assert(queue@ =~= hist.subrange(head, hist.len() as int));
        }
        let found = match t {
            Target::Cell(gc, gr) => lc == gc && lr == gr,
            Target::Unknown => known_map.cells[lr * 2][lc * 2] == KnownCell::Unknown,
        };
        assert(found == is_target(known_map, t, x));
        if found {
            proof {
                lemma_target_found(known_map, sk, gk, visited@, parent@, hist, h, vs, pos, paths);
            }
            let cells = reconstruct(s, (lc, lr), &parent, Ghost(visited@), Ghost(paths));
            assert(keys(cells@).len() == cells@.len());
            return Some(cells);
        }
        let nbrs = logical_neighbors(lc, lr);
        proof {
            lemma_logical_neighbors(lc as int, lr as int);
            lemma_lbfs_dequeue(known_map, sk, gk, visited@, parent@, hist, h, vs, pos, paths);
        }
        let ghost len0 = hist.len();
        for j in 0..nbrs.len()
            invariant
                lbfs_inv(known_map, sk, gk, visited@, parent@, hist, head, head - 1, vs, pos, paths),
                queue@ == hist.subrange(head, hist.len() as int),
                head >= 1,
                key(hist[head - 1]) == x,
                x == (lc as int, lr as int),
                in_logical(x.0, x.1),
                nbrs@ == spec_logical_neighbors(lc as int, lr as int),
                nbrs@.len() <= 4,
                len0 <= hist.len() <= len0 + j,
                forall|k: int|
                    0 <= k < j ==> {
                        let n = key(#[trigger] nbrs@[k]);
                        lpass(known_map, x, n) ==> lvis(visited@, n.0, n.1) && paths[n].len()
                            <= paths[x].len() + 1
                    },
        {
            let (nlc, nlr) = nbrs[j];
            proof {
                lemma_logical_neighbors(lc as int, lr as int);
            }
            assert(nbrs@[j as int] == (nlc, nlr));
            assert(spec_logical_neighbors(lc as int, lr as int)[j as int] == (nlc, nlr));
            let ghost y = (nlc as int, nlr as int);
            assert(in_logical(y.0, y.1) && adjacent(x, y));
            // The wall cell between (lc, lr) and (nlc, nlr).
            let wall_c = lc + nlc;
            let wall_r = lr + nlr;
            let passable = is_passable_wall(wall_c, wall_r, known_map);
            assert(passable == lpass(known_map, x, y));
            if passable && !visited[nlr][nlc] {
                let ghost v0 = visited@;
                let ghost p0 = parent@;
                visited[nlr][nlc] = true;
                parent[nlr][nlc] = (lc, lr);
                proof {
                    assert forall|a: int, b: int| #[trigger] lvis(visited@, a, b) == (lvis(v0, a, b) || (a, b) == y) by {
                        if 0 <= b < LROWS && b != nlr {
                            assert(visited@[b] == v0[b]);
                        }
                    }
                    assert forall|a: int, b: int| in_logical(a, b) implies #[trigger] par_of(parent@, a, b) == if (a, b) == y {
                        key(hist[head - 1])
                    } else {
                        par_of(p0, a, b)
                    } by {
                        if b != nlr {
                            assert(parent@[b] == p0[b]);
                        }
                    }
                    lemma_lbfs_push(known_map, sk, gk, v0, p0, hist, head, vs, pos, paths, y, visited@, parent@);
                    let paths2 = paths.insert(y, paths[x].push(y));
                    assert forall|k: int| 0 <= k < j + 1 implies {
                        let n = key(#[trigger] nbrs@[k]);
                        lpass(known_map, x, n) ==> lvis(visited@, n.0, n.1) && paths2[n].len()
                            <= paths2[x].len() + 1
                    } by {
                        let n = key(nbrs@[k]);
                        if k < j && lpass(known_map, x, n) {
                            assert(lvis(v0, n.0, n.1));
                        }
                    }
                    vs = vs.insert(y.1 * 120 + y.0);
                    pos = pos.insert(y, hist.len() as int);
                    paths = paths2;
                }
                queue.push_back((nlc, nlr));
                proof {
                    hist = hist.push((nlc, nlr));
                    assert(queue@ =~= hist.subrange(head, hist.len() as int));
                }
            } else {
                proof {
                    if lpass(known_map, x, y) {
                        assert(lvis(visited@, y.0, y.1));
                        let pn = pos[y];
                        assert(key(hist[pn]) == y);
                        if pn >= head {
                            assert(paths[key(hist[pn])].len() <= paths[key(hist[head - 1])].len() + 1);
                        } else {
                            assert(paths[key(hist[pn])].len() <= paths[key(hist[head - 1])].len());
                        }
                    }
                }
            }
        }
        proof {
            assert(lnbr_ok(known_map, visited@, paths, x.0, x.1)) by {
                if lpass(known_map, x, (x.0 - 1, x.1)) {
                    let k = choose|k: int| 0 <= k < nbrs@.len() && nbrs@[k] == ((x.0 - 1) as usize, x.1 as usize);
                    assert(key(nbrs@[k]) == (x.0 - 1, x.1));
                }
                if lpass(known_map, x, (x.0 + 1, x.1)) {
                    let k = choose|k: int| 0 <= k < nbrs@.len() && nbrs@[k] == ((x.0 + 1) as usize, x.1 as usize);
                    assert(key(nbrs@[k]) == (x.0 + 1, x.1));
                }
                if lpass(known_map, x, (x.0, x.1 - 1)) {
                    let k = choose|k: int| 0 <= k < nbrs@.len() && nbrs@[k] == (x.0 as usize, (x.1 - 1) as usize);
                    assert(key(nbrs@[k]) == (x.0, x.1 - 1));
                }
                if lpass(known_map, x, (x.0, x.1 + 1)) {
                    let k = choose|k: int| 0 <= k < nbrs@.len() && nbrs@[k] == (x.0 as usize, (x.1 + 1) as usize);
                    assert(key(nbrs@[k]) == (x.0, x.1 + 1));
                }
            }
            assert forall|i: int| 0 <= i < head implies #[trigger] lnbr_ok(known_map, visited@, paths, hist[i].0 as int, hist[i].1 as int) by {
                if i == head - 1 {
                    assert(key(hist[i]) == x);
                }
            }
            lemma_lbfs_count_bound(vs);
        }
    }
    proof {
        lemma_no_target(known_map, sk, gk, visited@, parent@, hist, head, vs, pos, paths);
    }
    None
}

/// What a breadth-first search over logical cells looks for.
#[derive(Clone, Copy)]
pub(crate) enum Target {
    /// The logical cell `(lc, lr)`.
    Cell(usize, usize),
    /// Any logical cell whose grid cell is still unknown.
    Unknown,
}

/// Logical cell `x` is what the search for `t` looks for.
pub(crate) open spec fn is_target(km: &KnownMap, t: Target, x: (int, int)) -> bool {
    match t {
        Target::Cell(c, r) => x == (c as int, r as int),
        Target::Unknown => km.at(2 * x.0, 2 * x.1) == KnownCell::Unknown,
    }
}

/// The logical cells a sequence of queue entries names.
pub(crate) open spec fn keys(s: Seq<(usize, usize)>) -> Seq<(int, int)> {
    Seq::new(s.len(), |i: int| key(s[i]))
}

/// The logical neighbours of `(c, r)`, in the order left, right, up, down.
spec fn spec_logical_neighbors(c: int, r: int) -> Seq<(usize, usize)> {
    let s1 = if c > 0 {
        seq![((c - 1) as usize, r as usize)]
    } else {
        Seq::empty()
    };
    let s2 = if c + 1 < LCOLS {
        s1.push(((c + 1) as usize, r as usize))
    } else {
        s1
    };
    let s3 = if r > 0 {
        s2.push((c as usize, (r - 1) as usize))
    } else {
        s2
    };
    if r + 1 < LROWS {
        s3.push((c as usize, (r + 1) as usize))
    } else {
        s3
    }
}

proof fn lemma_logical_neighbors(c: int, r: int)
    requires
        in_logical(c, r),
    ensures
        forall|i: int|
            0 <= i < spec_logical_neighbors(c, r).len() ==> in_logical(
                (#[trigger] spec_logical_neighbors(c, r)[i]).0 as int,
                spec_logical_neighbors(c, r)[i].1 as int,
            ) && adjacent(
                (c, r),
                (spec_logical_neighbors(c, r)[i].0 as int, spec_logical_neighbors(c, r)[i].1 as int),
            ),
        spec_logical_neighbors(c, r).len() <= 4,
        in_logical(c - 1, r) ==> spec_logical_neighbors(c, r).contains(((c - 1) as usize, r as usize)),
        in_logical(c + 1, r) ==> spec_logical_neighbors(c, r).contains(((c + 1) as usize, r as usize)),
        in_logical(c, r - 1) ==> spec_logical_neighbors(c, r).contains((c as usize, (r - 1) as usize)),
        in_logical(c, r + 1) ==> spec_logical_neighbors(c, r).contains((c as usize, (r + 1) as usize)),
{
    let s = spec_logical_neighbors(c, r);
    let s1 = if c > 0 {
        seq![((c - 1) as usize, r as usize)]
    } else {
        Seq::empty()
    };
    let s2 = if c + 1 < LCOLS {
        s1.push(((c + 1) as usize, r as usize))
    } else {
        s1
    };
    let s3 = if r > 0 {
        s2.push((c as usize, (r - 1) as usize))
    } else {
        s2
    };
    if c > 0 {
        assert(s1[0] == ((c - 1) as usize, r as usize));
        assert(s[0] == s1[0]);
    }
    if c + 1 < LCOLS {
        assert(s2[s2.len() - 1] == ((c + 1) as usize, r as usize));
        assert(s[s2.len() - 1] == s2[s2.len() - 1]);
    }
    if r > 0 {
        assert(s3[s3.len() - 1] == (c as usize, (r - 1) as usize));
        assert(s[s3.len() - 1] == s3[s3.len() - 1]);
    }
    if r + 1 < LROWS {
        assert(s[s.len() - 1] == (c as usize, (r + 1) as usize));
    }
}

/// 4-connected logical-cell neighbors, in the order left, right, up, down.
fn logical_neighbors(lc: usize, lr: usize) -> (n: Vec<(usize, usize)>)
    requires
        in_logical(lc as int, lr as int),
    ensures
        n@ == spec_logical_neighbors(lc as int, lr as int),
{
    let mut result = Vec::with_capacity(4);
    if lc > 0 {
        result.push((lc - 1, lr));
    }
    if lc + 1 < LCOLS {
        result.push((lc + 1, lr));
    }
    if lr > 0 {
        result.push((lc, lr - 1));
    }
    if lr + 1 < LROWS {
        result.push((lc, lr + 1));
    }
    proof {
        let s1 = if lc > 0 {
            seq![((lc - 1) as usize, lr as usize)]
        } else {
            Seq::empty()
        };
        assert(s1 == Seq::<(usize, usize)>::empty() || s1 =~= Seq::<(usize, usize)>::empty().push(((lc - 1) as usize, lr)));
    }
    result
}

/// The wall cell between two adjacent logical cells sits at `(lc + nlc, lr + nlr)`.
/// A cell is passable if it lies on the grid and is not a confirmed Wall
/// (Unknown = optimistic).
fn is_passable_wall(wall_c: usize, wall_r: usize, known_map: &KnownMap) -> (b: bool)
    requires
        known_map.wf(),
    ensures
        b == (wall_c < GRID_SIZE && wall_r < GRID_SIZE && known_map.at(wall_c as int, wall_r as int)
            != KnownCell::Wall),
{
    if wall_c >= GRID_SIZE || wall_r >= GRID_SIZE {
        return false;
    }
    known_map.cells[wall_r][wall_c] != KnownCell::Wall
}

/// Follow the recorded predecessors back from `g` to `s` and return the
/// logical cells from `s` to `g`.
fn reconstruct(
    s: (usize, usize),
    g: (usize, usize),
    parent: &Vec<Vec<(usize, usize)>>,
    Ghost(v): Ghost<Seq<Vec<bool>>>,
    Ghost(paths): Ghost<Map<(int, int), Seq<(int, int)>>>,
) -> (cells: Vec<(usize, usize)>)
    requires
        square(parent@, LCOLS as int),
        lvis(v, g.0 as int, g.1 as int),
        paths[key(s)] == seq![key(s)],
        forall|c: int, r: int|
            #[trigger] lvis(v, c, r) ==> {
                &&& paths[(c, r)][0] == key(s)
                &&& paths[(c, r)].last() == (c, r)
                &&& (c, r) != key(s) ==> lvis(v, par_of(parent@, c, r).0, par_of(parent@, c, r).1)
                    && paths[(c, r)] == paths[par_of(parent@, c, r)].push((c, r))
            },
    ensures
        keys(cells@) == paths[key(g)],
{
    let ghost pg = paths[key(g)];
    let ghost n = pg.len();
    let mut acc: Vec<(usize, usize)> = Vec::new();
    let mut cur = g;
    while cur.0 != s.0 || cur.1 != s.1
        invariant
            square(parent@, LCOLS as int),
            lvis(v, cur.0 as int, cur.1 as int),
            paths[key(s)] == seq![key(s)],
            forall|c: int, r: int|
                #[trigger] lvis(v, c, r) ==> {
                    &&& paths[(c, r)][0] == key(s)
                    &&& paths[(c, r)].last() == (c, r)
                    &&& (c, r) != key(s) ==> lvis(v, par_of(parent@, c, r).0, par_of(parent@, c, r).1)
                        && paths[(c, r)] == paths[par_of(parent@, c, r)].push((c, r))
                },
            pg == paths[key(g)],
            n == pg.len(),
            acc@.len() < n,
            paths[key(cur)] == pg.take(n - acc@.len()),
            forall|j: int| 0 <= j < acc@.len() ==> key(#[trigger] acc@[j]) == pg[n - 1 - j],
        decreases paths[key(cur)].len(),
    {
        let ghost pc = paths[key(cur)];
        assert(key(cur) != key(s));
        let prev = parent[cur.1][cur.0];
        assert(key(prev) == par_of(parent@, cur.0 as int, cur.1 as int));
        assert(pc == paths[key(prev)].push(key(cur)));
        assert(pc.last() == key(cur));
        assert(pg[n - 1 - acc@.len()] == pc[pc.len() - 1]);
        acc.push(cur);
        cur = prev;
        assert(paths[key(cur)] =~= pg.take(n - acc@.len()));
    }
    assert(paths[key(cur)] == seq![key(s)]);
    assert(pg[n - 1 - acc@.len()] == pg.take(n - acc@.len())[0]);
    acc.push(cur);
    let mut cells: Vec<(usize, usize)> = Vec::new();
    let mut i = acc.len();
    while i > 0
        invariant
            0 <= i <= acc@.len(),
            acc@.len() == n,
            cells@.len() == acc@.len() - i,
            forall|j: int| 0 <= j < acc@.len() ==> key(#[trigger] acc@[j]) == pg[n - 1 - j],
            forall|j: int| 0 <= j < cells@.len() ==> #[trigger] cells@[j] == acc@[n - 1 - j],
        decreases i,
    {
        i -= 1;
        cells.push(acc[i]);
    }
    assert(keys(cells@) =~= pg) by {
        assert forall|j: int| 0 <= j < n implies keys(cells@)[j] == pg[j] by {
            assert(cells@[j] == acc@[n - 1 - j]);
        }
    }
    cells
}

/// The waypoints along the logical route `cells`.
fn waypoints(cells: &Vec<(usize, usize)>) -> (w: Vec<GridPos>)
    requires
        cells@.len() >= 1,
        forall|i: int| 0 <= i < cells@.len() ==> in_logical((#[trigger] cells@[i]).0 as int, cells@[i].1 as int),
    ensures
        w@ == waypoints_of(keys(cells@)),
{
    let ghost route = keys(cells@);
    let mut w: Vec<GridPos> = Vec::new();
    // First waypoint: the start even-passage cell itself (snap destination).
    let (slc, slr) = cells[0];
    w.push(GridPos { col: (slc * 2) as u16, row: (slr * 2) as u16 });
    for k in 1..cells.len()
        invariant
            cells@.len() >= 1,
            forall|i: int| 0 <= i < cells@.len() ==> in_logical((#[trigger] cells@[i]).0 as int, cells@[i].1 as int),
            route == keys(cells@),
            w@.len() == 2 * k - 1,
            forall|i: int| 0 <= i < 2 * k - 1 ==> #[trigger] w@[i] == waypoints_of(route)[i],
    {
        let (lc0, lr0) = cells[k - 1];
        let (lc1, lr1) = cells[k];
        assert(in_logical(lc0 as int, lr0 as int) && in_logical(lc1 as int, lr1 as int)) by {
            assert(cells@[k - 1] == (lc0, lr0));
            assert(cells@[k as int] == (lc1, lr1));
        }
        // Connector cell sits at the average of the two physical coordinates.
        w.push(GridPos { col: (lc0 + lc1) as u16, row: (lr0 + lr1) as u16 });
        // Destination even cell.
        w.push(GridPos { col: (lc1 * 2) as u16, row: (lr1 * 2) as u16 });
        assert forall|i: int| 0 <= i < 2 * k + 1 implies #[trigger] w@[i] == waypoints_of(route)[i] by {
            if i == 2 * k - 1 {
                assert((i - 1) / 2 == k - 1 && (i + 1) / 2 == k);
            } else if i == 2 * k {
                assert(i / 2 == k);
            }
        }
    }
    assert(w@ =~= waypoints_of(route));
    w
}

/// A route between two inner logical cells of a maze that `generate` builds.
proof fn lemma_some_route(m: Maze, a: (int, int), b: (int, int)) -> (r: Seq<(int, int)>)
    requires
        m.is_perfect_maze(),
        is_inner_logical(a),
        is_inner_logical(b),
    ensures
        m.simple_route(r),
        r[0] == a,
        r.last() == b,
{
    lemma_route_exists(m, a, b);
    choose|r: Seq<(int, int)>| #[trigger] m.simple_route(r) && r[0] == a && r.last() == b
}

/// A route of a maze through open connectors, extended by one more step into
/// an open connector, is a logical walk on any known map that holds only true
/// walls as walls.
proof fn lemma_route_walk(m: Maze, km: KnownMap, r: Seq<(int, int)>, last: (int, int))
    requires
        km.walls_only_from(&m),
        m.simple_route(r),
        in_logical(last.0, last.1),
        adjacent(r.last(), last),
        m.is_passage((r.last().0 + last.0, r.last().1 + last.1)),
    ensures
        lroute(&km, r.push(last)),
{
    let n = r.len() as int;
    let p = r.push(last);
    assert forall|i: int| 0 <= i < p.len() implies in_logical((#[trigger] p[i]).0, p[i].1) by {
        if i < n {
            assert(is_inner_logical(r[i]));
        }
    }
    assert forall|i: int| 0 <= i < p.len() - 1 implies #[trigger] lpass(&km, p[i], p[i + 1]) by {
        if i < n - 1 {
            assert(m.open_step(r[i], r[i + 1]));
            assert(p[i] == r[i] && p[i + 1] == r[i + 1]);
            assert(in_grid(r[i].0 + r[i + 1].0, r[i].1 + r[i + 1].1));
        } else {
            assert(p[i] == r.last() && p[i + 1] == last);
        }
    }
}

/// The planner never loses the goal of a maze that `MazeGenerator::generate`
/// builds: on any known map that holds only true walls of the maze as walls
/// (the empty map and the fully known map among them), planning from a robot
/// cell that snaps to an inner logical cell, the start among them, to the goal
/// succeeds.
#[verifier::spinoff_prover]
pub proof fn lemma_goal_always_plannable(m: Maze, km: KnownMap, robot: GridPos)
    requires
        m.is_perfect_maze(),
        km.wf(),
        km.walls_only_from(&m),
        is_inner_logical(start_logical(robot)),
    ensures
        plan_succeeds(&km, robot, m.goal),
{
    let g = m.goal;
    let s = start_logical(robot);
    let facing: (int, int) = if g.col == 0 {
        (1, g.row as int / 2)
    } else {
        (g.col as int / 2, 1)
    };
    let gl = goal_logical(g);
    assert(is_goal_cell(g.col as int, g.row as int));
    assert(gl == (if g.col == 0 { (0, g.row as int / 2) } else { (g.col as int / 2, 0) }));
    assert((facing.0 + gl.0, facing.1 + gl.1) == goal_opening(g));
    assert(m.is_passage(goal_opening(g)));
    assert(is_inner_logical(facing));
    let r = lemma_some_route(m, s, facing);
    lemma_route_walk(m, km, r, gl);
    let p = r.push(gl);
    assert(p[0] == s && p.last() == gl);
    assert(lreachable(&km, s, gl));
}

} // verus!
