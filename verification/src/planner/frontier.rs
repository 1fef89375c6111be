use std::collections::VecDeque;
use vstd::prelude::*;
use vstd::set_lib::{lemma_int_range, lemma_len_subset, set_int_range};

use crate::maze::types::{adjacent, filled_grid, in_grid, square, GridPos, GRID_SIZE};
use crate::planner::astar::{
    cell_of, in_logical, is_target, key, keys, lroute, search, start_logical, Target,
};
use crate::robot::types::{KnownCell, KnownMap};

verus! {

/// `(c, r)` lies on the grid and is known free.
pub open spec fn is_free(km: &KnownMap, c: int, r: int) -> bool {
    in_grid(c, r) && km.at(c, r) == KnownCell::FreeSpace
}

/// `(c, r)` lies on the grid and is still unknown.
pub open spec fn is_unknown(km: &KnownMap, c: int, r: int) -> bool {
    in_grid(c, r) && km.at(c, r) == KnownCell::Unknown
}

/// Some cardinal neighbour of `(c, r)` is unknown.
pub open spec fn spec_is_frontier(km: &KnownMap, c: int, r: int) -> bool {
    ||| is_unknown(km, c - 1, r)
    ||| is_unknown(km, c + 1, r)
    ||| is_unknown(km, c, r - 1)
    ||| is_unknown(km, c, r + 1)
}

/// A walk through known-free cells, each step to an edge neighbour.
pub open spec fn free_path(km: &KnownMap, p: Seq<(int, int)>) -> bool {
    &&& p.len() >= 1
    &&& forall|i: int| 0 <= i < p.len() ==> is_free(km, (#[trigger] p[i]).0, p[i].1)
    &&& forall|i: int| 0 <= i < p.len() - 1 ==> #[trigger] adjacent(p[i], p[i + 1])
}

/// Some walk through known-free cells leads from `a` to `b`.
pub open spec fn free_reachable(km: &KnownMap, a: (int, int), b: (int, int)) -> bool {
    exists|p: Seq<(int, int)>| #[trigger] free_path(km, p) && p[0] == a && p.last() == b
}

/// The cardinal neighbours of `(c, r)` that lie on the grid, in the order
/// left, right, up, down.
pub open spec fn spec_cardinal_neighbors(c: int, r: int) -> Seq<(usize, usize)> {
    let s1 = if c > 0 {
        seq![((c - 1) as usize, r as usize)]
    } else {
        Seq::empty()
    };
    let s2 = if c + 1 < GRID_SIZE {
        s1.push(((c + 1) as usize, r as usize))
    } else {
        s1
    };
    let s3 = if r > 0 {
        s2.push((c as usize, (r - 1) as usize))
    } else {
        s2
    };
    if r + 1 < GRID_SIZE {
        s3.push((c as usize, (r + 1) as usize))
    } else {
        s3
    }
}

/// `f` is a frontier reached from `s` by a walk through known-free cells, and
/// no frontier is reached from `s` by a shorter such walk.
pub open spec fn is_nearest_frontier(km: &KnownMap, s: (int, int), f: (int, int)) -> bool {
    &&& spec_is_frontier(km, f.0, f.1)
    &&& exists|pf: Seq<(int, int)>|
        {
            &&& #[trigger] free_path(km, pf)
            &&& pf[0] == s
            &&& pf.last() == f
            &&& forall|p: Seq<(int, int)>|
                free_path(km, p) && p[0] == s && spec_is_frontier(km, p.last().0, p.last().1) ==> pf.len()
                    <= #[trigger] p.len()
        }
}

/// The direction of the step from `a` to its edge neighbour `b`, numbered in
/// the order the search tries them: 0 left, 1 right, 2 up, 3 down.
pub open spec fn step_dir(a: (int, int), b: (int, int)) -> int {
    if b.0 == a.0 - 1 {
        0
    } else if b.0 == a.0 + 1 {
        1
    } else if b.1 == a.1 - 1 {
        2
    } else {
        3
    }
}

/// The directions of the steps of walk `p`, read as a number in base 4:
/// walks of the same length compare as their direction sequences do,
/// lexicographically.
pub open spec fn dir_code(p: Seq<(int, int)>) -> int
    decreases p.len(),
{
    if p.len() <= 1 {
        0
    } else {
        4 * dir_code(p.drop_last()) + step_dir(p[p.len() - 2], p.last())
    }
}

/// `f` is the frontier that a breadth-first search from `s`, trying the
/// neighbours of each cell in the order left, right, up, down, meets first:
/// some walk through known-free cells leads from `s` to `f`, every walk from
/// `s` to a frontier is at least as long, and among those of the same length
/// none takes directions that come earlier.
pub open spec fn is_first_frontier(km: &KnownMap, s: (int, int), f: (int, int)) -> bool {
    exists|pf: Seq<(int, int)>|
        {
            &&& #[trigger] free_path(km, pf)
            &&& pf[0] == s
            &&& pf.last() == f
            &&& forall|p: Seq<(int, int)>|
                #[trigger] free_path(km, p) && p[0] == s && spec_is_frontier(km, p.last().0, p.last().1)
                    ==> pf.len() < p.len() || (pf.len() == p.len() && dir_code(pf) <= dir_code(p))
        }
}

/// The grid cell of logical cell `x` is still unknown.
pub open spec fn unknown_logical(km: &KnownMap, x: (int, int)) -> bool {
    km.at(2 * x.0, 2 * x.1) == KnownCell::Unknown
}

/// `route` is a logical walk from `s` to a logical cell whose grid cell is
/// unknown, and no such walk is shorter.
pub open spec fn is_nearest_unknown_route(km: &KnownMap, route: Seq<(int, int)>, s: (int, int)) -> bool {
    &&& lroute(km, route)
    &&& route[0] == s
    &&& unknown_logical(km, route.last())
    &&& forall|p: Seq<(int, int)>|
        lroute(km, p) && p[0] == s && unknown_logical(km, p.last()) ==> route.len() <= #[trigger] p.len()
}

/// Frontier-based exploration helper.
///
/// A "frontier" is a known-free cell that is adjacent (cardinal direction) to
/// at least one unknown cell. Navigating to the nearest frontier directs the
/// robot toward unexplored areas of the maze.
pub struct FrontierFinder;

impl FrontierFinder {
    /// Find the nearest frontier cell reachable from the robot's cell `start`
    /// via breadth-first search through known-free cells, trying the
    /// neighbours of each cell in the order left, right, up, down: of several
    /// equally near frontiers, the one the search meets first.
    ///
    /// Returns `None` when the start cell is not known free, or when no
    /// frontier exists (all reachable cells are known).
    #[verifier::spinoff_prover]
    pub fn nearest_frontier(start: GridPos, known_map: &KnownMap) -> (res: Option<GridPos>)
        requires
            known_map.wf(),
            in_grid(start.col as int, start.row as int),
        ensures
            !is_free(known_map, start.col as int, start.row as int) ==> res is None,
            res matches Some(f) ==> is_free(known_map, f.col as int, f.row as int)
                && is_nearest_frontier(
                known_map,
                (start.col as int, start.row as int),
                (f.col as int, f.row as int),
            ),
            res matches Some(f) ==> is_first_frontier(
                known_map,
                (start.col as int, start.row as int),
                (f.col as int, f.row as int),
            ),
            res is None && is_free(known_map, start.col as int, start.row as int) ==> forall|c: int, r: int|
                #[trigger] free_reachable(known_map, (start.col as int, start.row as int), (c, r))
                    ==> !spec_is_frontier(known_map, c, r),
    {
        let sc = start.col as usize;
        let sr = start.row as usize;
        let ghost s = (sc as int, sr as int);

        if known_map.cells[sr][sc] != KnownCell::FreeSpace {
            return None;
        }

        let mut visited = filled_grid(GRID_SIZE, false);
        let mut queue: VecDeque<(usize, usize)> = VecDeque::new();
        // every cell ever queued, in order; the live queue is its part from `head` on
        let ghost mut hist: Seq<(usize, usize)> = Seq::empty();
        let ghost mut head: int = 0;

        visited[sr][sc] = true;
        queue.push_back((sc, sr));
        proof {
            hist = hist.push((sc, sr));
        }
        let ghost mut vs: Set<int> = Set::empty().insert(sr * 240 + sc);
        let ghost mut pos: Map<(int, int), int> = Map::empty().insert(s, 0);
        let ghost mut paths: Map<(int, int), Seq<(int, int)>> = Map::empty().insert(s, seq![s]);
        proof {
            assert forall|c: int, r: int| #[trigger] fvis(visited@, c, r) implies (c, r) == s by {
                if r != sr {
                }
            }
            assert(hist[0] == (sc, sr));
            assert(free_path(known_map, seq![s]));
            assert(bfs_inv(known_map, s, visited@, hist, 0, 0, vs, pos, paths));
            assert(order_inv(visited@, hist, 0, pos, paths)) by {
                reveal(order_inv);
                assert forall|c: int, r: int| #[trigger] fvis(visited@, c, r) implies paths[(c, r)].len() < 2 by {
                    assert((c, r) == s);
                }
            }
        }

        while queue.len() > 0
            invariant
                queue@ == hist.subrange(head, hist.len() as int),
                bfs_inv(known_map, s, visited@, hist, head, head, vs, pos, paths),
                order_inv(visited@, hist, head, pos, paths),
                paths[s].len() == 1,
                is_free(known_map, s.0, s.1),
                s == (start.col as int, start.row as int),
                head == 0 ==> hist.len() == 1,
            decreases 5 * (GRID_SIZE * GRID_SIZE - hist.len()) + hist.len() - head,
        {
            proof {
                lemma_bfs_count_bound(vs);
            }
            let ghost h = head;
            let (c, r) = queue.pop_front().unwrap();
            let ghost x = (c as int, r as int);
            assert(key(hist[h]) == x);
            assert(fvis(visited@, c as int, r as int));
            proof {
                head = head + 1;
                assert(queue@ =~= hist.subrange(head, hist.len() as int));
            }
            // Is this FreeSpace cell adjacent to Unknown? Then it is a frontier.
            if is_frontier(c, r, known_map) {
                proof {
                    lemma_found_is_nearest(known_map, s, visited@, hist, h, vs, pos, paths);
                    assert(in_grid(x.0, x.1));
                    assert((c as u16) as int == c && (r as u16) as int == r);
                }
                return Some(GridPos { col: c as u16, row: r as u16 });
            }
            // Expand to cardinal FreeSpace neighbors.
            let nbrs = cardinal_neighbors(c, r);
            proof {
                lemma_cardinal(c as int, r as int);
                lemma_cardinal_dirs(c as int, r as int);
                lemma_bfs_dequeue(known_map, s, visited@, hist, h, vs, pos, paths);
                lemma_parents_head(visited@, hist, h, pos, paths);
                assert forall|i: int|
                    0 <= i < hist.len() && paths[key(hist[i])].len() >= 2 implies pos[parent_of(
                        paths,
                        key(#[trigger] hist[i]),
                    )] < head - 1 by {
                    assert(fvis(visited@, hist[i].0 as int, hist[i].1 as int));
                }
            }
            let ghost len0 = hist.len();
            for j in 0..nbrs.len()
                invariant
                    bfs_inv(known_map, s, visited@, hist, head, head - 1, vs, pos, paths),
                    queue@ == hist.subrange(head, hist.len() as int),
                    head >= 1,
                    key(hist[head - 1]) == x,
                    x == (c as int, r as int),
                    in_grid(x.0, x.1),
                    paths[s].len() == 1,
                    nbrs@ == spec_cardinal_neighbors(c as int, r as int),
                    nbrs@.len() <= 4,
                    len0 <= hist.len() <= len0 + j,
                    order_inv(visited@, hist, head, pos, paths),
                    head <= len0,
                    forall|k1: int, k2: int|
                        0 <= k1 < k2 < nbrs@.len() ==> step_dir(x, key(#[trigger] nbrs@[k1])) < step_dir(
                            x,
                            key(#[trigger] nbrs@[k2]),
                        ),
                    forall|k: int| 0 <= k < nbrs@.len() ==> 0 <= step_dir(x, key(#[trigger] nbrs@[k])) <= 3,
                    forall|i: int|
                        0 <= i < len0 && paths[key(hist[i])].len() >= 2 ==> pos[parent_of(
                            paths,
                            key(#[trigger] hist[i]),
                        )] < head - 1,
                    forall|i: int|
                        len0 <= i < hist.len() ==> paths[key(#[trigger] hist[i])].len() >= 2 && parent_of(
                            paths,
                            key(hist[i]),
                        ) == x && step_dir(x, key(hist[i])) < (if j < nbrs@.len() {
                            step_dir(x, key(nbrs@[j as int]))
                        } else {
                            4
                        }),
                    forall|k: int|
                        0 <= k < j ==> {
                            let n = key(#[trigger] nbrs@[k]);
                            is_free(known_map, n.0, n.1) ==> fvis(visited@, n.0, n.1) && paths[n].len()
                                <= paths[x].len() + 1
                        },
            {
                let (nc, nr) = nbrs[j];
                assert(nbrs@[j as int] == (nc, nr));
                proof {
                    lemma_cardinal(c as int, r as int);
                }
                assert(spec_cardinal_neighbors(c as int, r as int)[j as int] == (nc, nr));
                let ghost y = (nc as int, nr as int);
                assert(in_grid(y.0, y.1) && adjacent(x, y));
                if !visited[nr][nc] && known_map.cells[nr][nc] == KnownCell::FreeSpace {
                    let ghost v0 = visited@;
                    visited[nr][nc] = true;
                    proof {
                        assert forall|a: int, b: int| #[trigger] fvis(visited@, a, b) == (fvis(v0, a, b) || (a, b) == y) by {
                            if 0 <= b < GRID_SIZE && b != nr {
                                assert(visited@[b] == v0[b]);
                            }
                        }
                        lemma_bfs_push(known_map, s, v0, hist, head, vs, pos, paths, y, visited@);
                        lemma_order_step(known_map, s, v0, hist, head, vs, pos, paths, y, visited@, len0 as int, nbrs@, j as int);
                        let paths2 = paths.insert(y, paths[x].push(y));
                        assert forall|k: int| 0 <= k < j + 1 implies {
                            let n = key(#[trigger] nbrs@[k]);
                            is_free(known_map, n.0, n.1) ==> fvis(visited@, n.0, n.1) && paths2[n].len()
                                <= paths2[x].len() + 1
                        } by {
                            let n = key(nbrs@[k]);
                            if k < j && is_free(known_map, n.0, n.1) {
                                assert(fvis(v0, n.0, n.1));
                            }
                        }
                        vs = vs.insert(y.1 * 240 + y.0);
                        pos = pos.insert(y, hist.len() as int);
                        paths = paths2;
                    }
                    queue.push_back((nc, nr));
                    proof {
                        hist = hist.push((nc, nr));
                        assert(queue@ =~= hist.subrange(head, hist.len() as int));
                    }
                } else {
                    proof {
                        if is_free(known_map, y.0, y.1) {
                            assert(fvis(visited@, y.0, y.1));
                            let pn = pos[y];
                            assert(key(hist[pn]) == y);
                            if pn >= head {
                                assert(paths[key(hist[pn])].len() <= paths[key(hist[head - 1])].len() + 1);
                            } else {
                                assert(paths[key(hist[pn])].len() <= paths[key(hist[head - 1])].len());
                            }
                        }
                    }
                }
            }
            proof {
                assert(nbr_ok(known_map, visited@, paths, x.0, x.1)) by {
                    if is_free(known_map, x.0 - 1, x.1) {
                        let k = choose|k: int| 0 <= k < nbrs@.len() && nbrs@[k] == ((x.0 - 1) as usize, x.1 as usize);
                        assert(key(nbrs@[k]) == (x.0 - 1, x.1));
                    }
                    if is_free(known_map, x.0 + 1, x.1) {
                        let k = choose|k: int| 0 <= k < nbrs@.len() && nbrs@[k] == ((x.0 + 1) as usize, x.1 as usize);
                        assert(key(nbrs@[k]) == (x.0 + 1, x.1));
                    }
                    if is_free(known_map, x.0, x.1 - 1) {
                        let k = choose|k: int| 0 <= k < nbrs@.len() && nbrs@[k] == (x.0 as usize, (x.1 - 1) as usize);
                        assert(key(nbrs@[k]) == (x.0, x.1 - 1));
                    }
                    if is_free(known_map, x.0, x.1 + 1) {
                        let k = choose|k: int| 0 <= k < nbrs@.len() && nbrs@[k] == (x.0 as usize, (x.1 + 1) as usize);
                        assert(key(nbrs@[k]) == (x.0, x.1 + 1));
                    }
                }
                assert forall|i: int| 0 <= i < head implies #[trigger] nbr_ok(known_map, visited@, paths, hist[i].0 as int, hist[i].1 as int) by {
                    if i == head - 1 {
                        assert(key(hist[i]) == x);
                    }
                }
                lemma_bfs_count_bound(vs);
            }
        }
        proof {
            self::lemma_none_found(known_map, s, visited@, hist, head, vs, pos, paths);
        }
        None
    }
}

/// Dequeueing a cell that is no frontier keeps the invariant.
impl FrontierFinder {
    /// Find the nearest logical cell whose grid cell is still unknown, moving
    /// from the robot's logical cell between logical cells through connector
    /// cells that are not confirmed walls (the planner's moves).
    ///
    /// Returns the grid cell of that logical cell, or `None` when no unknown
    /// logical cell can be reached.
    pub fn nearest_unknown(robot_cell: GridPos, known_map: &KnownMap) -> (res: Option<GridPos>)
        requires
            known_map.wf(),
        ensures
            res matches Some(u) ==> exists|route: Seq<(int, int)>|
                #[trigger] is_nearest_unknown_route(known_map, route, start_logical(robot_cell)) && u
                    == cell_of(route.last()),
            res is None ==> forall|p: Seq<(int, int)>|
                #[trigger] lroute(known_map, p) && p[0] == start_logical(robot_cell) ==> !unknown_logical(
                    known_map,
                    p.last(),
                ),
    {
        let phys_start = robot_cell.snap_even();
        let s = (phys_start.col as usize / 2, phys_start.row as usize / 2);
        assert(key(s) == start_logical(robot_cell));
        match search(s, Target::Unknown, known_map) {
            None => None,
            Some(cells) => {
                let (lc, lr) = cells[cells.len() - 1];
                let ghost route = keys(cells@);
                assert(route.last() == (lc as int, lr as int));
                assert(in_logical(lc as int, lr as int));
                assert forall|p: Seq<(int, int)>|
                    lroute(known_map, p) && p[0] == start_logical(robot_cell) && unknown_logical(known_map, p.last())
                        implies route.len() <= #[trigger] p.len() by {
                    assert(is_target(known_map, Target::Unknown, p.last()));
                }
                assert(is_nearest_unknown_route(known_map, route, start_logical(robot_cell)));
                Some(GridPos { col: (lc * 2) as u16, row: (lr * 2) as u16 })
            },
        }
    }
}

proof fn lemma_bfs_dequeue(
    km: &KnownMap,
    s: (int, int),
    v: Seq<Vec<bool>>,
    q: Seq<(usize, usize)>,
    h: int,
    vs: Set<int>,
    pos: Map<(int, int), int>,
    paths: Map<(int, int), Seq<(int, int)>>,
)
    requires
        bfs_inv(km, s, v, q, h, h, vs, pos, paths),
        0 <= h < q.len(),
        h == 0 ==> q.len() == 1,
        !spec_is_frontier(km, q[h].0 as int, q[h].1 as int),
    ensures
        bfs_inv(km, s, v, q, h + 1, h, vs, pos, paths),
{
    assert forall|j: int|
        1 <= h + 1 <= j < q.len() implies paths[key(#[trigger] q[j])].len() <= paths[key(q[h])].len() + 1 by {
        assert(paths[key(q[j])].len() <= paths[key(q[h - 1])].len() + 1);
        assert(paths[key(q[h - 1])].len() <= paths[key(q[h])].len());
    }
    assert forall|i: int| 0 <= i < h + 1 implies !spec_is_frontier(km, (#[trigger] q[i]).0 as int, q[i].1 as int) by {}
}

/// A frontier dequeued at position `h` is the nearest one.
proof fn lemma_found_is_nearest(
    km: &KnownMap,
    s: (int, int),
    v: Seq<Vec<bool>>,
    q: Seq<(usize, usize)>,
    h: int,
    vs: Set<int>,
    pos: Map<(int, int), int>,
    paths: Map<(int, int), Seq<(int, int)>>,
)
    requires
        bfs_inv(km, s, v, q, h, h, vs, pos, paths),
        0 <= h < q.len(),
        order_inv(v, q, h, pos, paths),
        paths[s].len() == 1,
        spec_is_frontier(km, q[h].0 as int, q[h].1 as int),
    ensures
        is_free(km, q[h].0 as int, q[h].1 as int),
        is_nearest_frontier(km, s, key(q[h])),
        is_first_frontier(km, s, key(q[h])),
{
    let x = key(q[h]);
    let pf = paths[x];
    assert(fvis(v, x.0, x.1));
    assert(pf.last() == x);
    assert(is_free(km, pf.last().0, pf.last().1));
    assert forall|c: int, r: int| fvis(v, c, r) && paths[(c, r)].len() < pf.len() implies #[trigger] pos[(c, r)] < h by {
        let pn = pos[(c, r)];
        assert(key(q[pn]) == (c, r));
        if pn >= h {
            assert(paths[key(q[h])].len() <= paths[key(q[pn])].len());
        }
    }
    assert forall|p: Seq<(int, int)>|
        free_path(km, p) && p[0] == s && spec_is_frontier(km, p.last().0, p.last().1) implies pf.len()
            <= #[trigger] p.len() by {
        let k = lemma_walk(km, s, v, q, h, h, vs, pos, paths, pf.len() as int, p, p.len() - 1);
        if paths[p[k]].len() < pf.len() {
            let y = p[k];
            let pn = pos[y];
            assert(pn < h);
            assert(key(q[pn]) == y);
        }
    }
    assert(free_path(km, pf) && pf[0] == s && pf.last() == x);
    assert forall|p: Seq<(int, int)>|
        #[trigger] free_path(km, p) && p[0] == s && spec_is_frontier(km, p.last().0, p.last().1) implies pf.len()
            < p.len() || (pf.len() == p.len() && dir_code(pf) <= dir_code(p)) by {
        assert(pf.len() <= p.len());
        if pf.len() == p.len() {
            let k = lemma_walk(km, s, v, q, h, h, vs, pos, paths, pf.len() as int, p, p.len() - 1);
            let c = p.last();
            assert(k == p.len() - 1);
            assert(p[k] == c);
            let pc = pos[c];
            assert(key(q[pc]) == c);
            if paths[c].len() < pf.len() {
                assert(pc < h);
            }
            assert(paths[c].len() == p.len());
            lemma_min_code(km, s, v, q, h, vs, pos, paths, p);
            if pc < h {
                assert(!spec_is_frontier(km, q[pc].0 as int, q[pc].1 as int));
            }
            if pc > h {
                reveal(order_inv);
                assert(dir_code(paths[key(q[h])]) < dir_code(paths[key(q[pc])]));
            }
        }
    }
    assert(is_first_frontier(km, s, x));
}

/// When the queue runs dry, no frontier is reachable from the start.
proof fn lemma_none_found(
    km: &KnownMap,
    s: (int, int),
    v: Seq<Vec<bool>>,
    q: Seq<(usize, usize)>,
    head: int,
    vs: Set<int>,
    pos: Map<(int, int), int>,
    paths: Map<(int, int), Seq<(int, int)>>,
)
    requires
        bfs_inv(km, s, v, q, head, head, vs, pos, paths),
        head == q.len(),
        paths[s].len() == 1,
    ensures
        forall|c: int, r: int| #[trigger] free_reachable(km, s, (c, r)) ==> !spec_is_frontier(km, c, r),
{
    assert forall|c: int, r: int| #[trigger] free_reachable(km, s, (c, r)) implies !spec_is_frontier(km, c, r) by {
        let p = choose|p: Seq<(int, int)>| #[trigger] free_path(km, p) && p[0] == s && p.last() == (c, r);
        assert forall|a: int, b: int| fvis(v, a, b) && paths[(a, b)].len() < p.len() + 1 implies #[trigger] pos[(a, b)] < head by {}
        let k = lemma_walk(km, s, v, q, head, head, vs, pos, paths, (p.len() + 1) as int, p, p.len() - 1);
        let y = p[k];
        let pn = pos[y];
        assert(key(q[pn]) == y);
    }
}

proof fn lemma_cardinal(c: int, r: int)
    requires
        in_grid(c, r),
    ensures
        forall|i: int|
            0 <= i < spec_cardinal_neighbors(c, r).len() ==> in_grid(
                (#[trigger] spec_cardinal_neighbors(c, r)[i]).0 as int,
                spec_cardinal_neighbors(c, r)[i].1 as int,
            ) && adjacent(
                (c, r),
                (spec_cardinal_neighbors(c, r)[i].0 as int, spec_cardinal_neighbors(c, r)[i].1 as int),
            ),
        in_grid(c - 1, r) ==> spec_cardinal_neighbors(c, r).contains(((c - 1) as usize, r as usize)),
        in_grid(c + 1, r) ==> spec_cardinal_neighbors(c, r).contains(((c + 1) as usize, r as usize)),
        in_grid(c, r - 1) ==> spec_cardinal_neighbors(c, r).contains((c as usize, (r - 1) as usize)),
        in_grid(c, r + 1) ==> spec_cardinal_neighbors(c, r).contains((c as usize, (r + 1) as usize)),
{
    let s = spec_cardinal_neighbors(c, r);
    let s1 = if c > 0 {
        seq![((c - 1) as usize, r as usize)]
    } else {
        Seq::empty()
    };
    let s2 = if c + 1 < GRID_SIZE {
        s1.push(((c + 1) as usize, r as usize))
    } else {
        s1
    };
    let s3 = if r > 0 {
        s2.push((c as usize, (r - 1) as usize))
    } else {
        s2
    };
    if c > 0 {
        assert(s1[0] == ((c - 1) as usize, r as usize));
        assert(s[0] == s1[0]);
    }
    if c + 1 < GRID_SIZE {
        assert(s2[s2.len() - 1] == ((c + 1) as usize, r as usize));
        assert(s[s2.len() - 1] == s2[s2.len() - 1]);
    }
    if r > 0 {
        assert(s3[s3.len() - 1] == (c as usize, (r - 1) as usize));
        assert(s[s3.len() - 1] == s3[s3.len() - 1]);
    }
    if r + 1 < GRID_SIZE {
        assert(s[s.len() - 1] == (c as usize, (r + 1) as usize));
    }
}

/// 4-connected grid neighbours, in the order left, right, up, down.
fn cardinal_neighbors(c: usize, r: usize) -> (n: Vec<(usize, usize)>)
    requires
        in_grid(c as int, r as int),
    ensures
        n@ == spec_cardinal_neighbors(c as int, r as int),
{
    let mut result = Vec::with_capacity(4);
    if c > 0 {
        result.push((c - 1, r));
    }
    if c + 1 < GRID_SIZE {
        result.push((c + 1, r));
    }
    if r > 0 {
        result.push((c, r - 1));
    }
    if r + 1 < GRID_SIZE {
        result.push((c, r + 1));
    }
    proof {
        let s1 = if c > 0 {
            seq![((c - 1) as usize, r as usize)]
        } else {
            Seq::empty()
        };
        assert(s1 == Seq::<(usize, usize)>::empty() || s1 =~= Seq::<(usize, usize)>::empty().push(((c - 1) as usize, r)));
    }
    result
}

/// Whether some cardinal neighbour of `(c, r)` is unknown.
fn is_frontier(c: usize, r: usize, known_map: &KnownMap) -> (b: bool)
    requires
        known_map.wf(),
        in_grid(c as int, r as int),
    ensures
        b == spec_is_frontier(known_map, c as int, r as int),
{
    let nbrs = cardinal_neighbors(c, r);
    proof {
        lemma_cardinal(c as int, r as int);
    }
    let mut i: usize = 0;
    while i < nbrs.len()
        invariant
            known_map.wf(),
            in_grid(c as int, r as int),
            nbrs@ == spec_cardinal_neighbors(c as int, r as int),
            0 <= i <= nbrs@.len(),
            forall|j: int| 0 <= j < i ==> !is_unknown(known_map, (#[trigger] nbrs@[j]).0 as int, nbrs@[j].1 as int),
        decreases nbrs@.len() - i,
    {
        let (nc, nr) = nbrs[i];
        assert(nbrs@[i as int] == (nc, nr));
        if known_map.cells[nr][nc] == KnownCell::Unknown {
            return true;
        }
        i += 1;
    }
    proof {
        assert forall|x: int, y: int| is_unknown(known_map, x, y) && adjacent((c as int, r as int), (x, y)) implies false by {
            let k = choose|k: int| 0 <= k < nbrs@.len() && nbrs@[k] == (x as usize, y as usize);
            assert(nbrs@[k] == (x as usize, y as usize));
        }
    }
    false
}

/// Cell `(c, r)` is marked in `v` (indexed `v[r][c]`).
spec fn fvis(v: Seq<Vec<bool>>, c: int, r: int) -> bool {
    in_grid(c, r) && v[r]@[c]
}

/// Each free neighbour of `(c, r)` is marked, one step further from the start.
spec fn nbr_ok(
    km: &KnownMap,
    v: Seq<Vec<bool>>,
    paths: Map<(int, int), Seq<(int, int)>>,
    c: int,
    r: int,
) -> bool {
    &&& is_free(km, c - 1, r) ==> fvis(v, c - 1, r) && paths[(c - 1, r)].len() <= paths[(c, r)].len() + 1
    &&& is_free(km, c + 1, r) ==> fvis(v, c + 1, r) && paths[(c + 1, r)].len() <= paths[(c, r)].len() + 1
    &&& is_free(km, c, r - 1) ==> fvis(v, c, r - 1) && paths[(c, r - 1)].len() <= paths[(c, r)].len() + 1
    &&& is_free(km, c, r + 1) ==> fvis(v, c, r + 1) && paths[(c, r + 1)].len() <= paths[(c, r)].len() + 1
}

/// What holds between two steps of the breadth-first search for a frontier.
spec fn bfs_inv(
    km: &KnownMap,
    s: (int, int),
    v: Seq<Vec<bool>>,
    q: Seq<(usize, usize)>,
    head: int,
    done: int,
    vs: Set<int>,
    pos: Map<(int, int), int>,
    paths: Map<(int, int), Seq<(int, int)>>,
) -> bool {
    &&& km.wf()
    &&& 0 <= done <= head
    &&& square(v, GRID_SIZE as int)
    &&& fvis(v, s.0, s.1)
    &&& 0 <= head <= q.len()
    &&& forall|i: int|
        0 <= i < q.len() ==> fvis(v, (#[trigger] q[i]).0 as int, q[i].1 as int) && pos[key(q[i])] == i
    &&& forall|c: int, r: int|
        #[trigger] fvis(v, c, r) ==> {
            &&& pos.contains_key((c, r))
            &&& 0 <= pos[(c, r)] < q.len()
            &&& key(q[pos[(c, r)]]) == (c, r)
            &&& paths.contains_key((c, r))
            &&& free_path(km, paths[(c, r)])
            &&& paths[(c, r)][0] == s
            &&& paths[(c, r)].last() == (c, r)
        }
    // queue order follows the distance from the start
    &&& forall|i: int, j: int|
        0 <= i <= j < q.len() ==> paths[key(#[trigger] q[i])].len() <= paths[key(#[trigger] q[j])].len()
    &&& forall|j: int|
        1 <= head <= j < q.len() ==> paths[key(#[trigger] q[j])].len() <= paths[key(q[head - 1])].len() + 1
    // dequeued cells
    &&& forall|i: int| 0 <= i < done ==> #[trigger] nbr_ok(km, v, paths, q[i].0 as int, q[i].1 as int)
    &&& forall|i: int| 0 <= i < head ==> !spec_is_frontier(km, (#[trigger] q[i]).0 as int, q[i].1 as int)
    // counting
    &&& vs.finite()
    &&& vs.len() == q.len()
    &&& forall|i: int| #[trigger] vs.contains(i) ==> 0 <= i < GRID_SIZE * GRID_SIZE
    &&& forall|c: int, r: int| in_grid(c, r) ==> (#[trigger] fvis(v, c, r) <==> vs.contains(r * 240 + c))
}

proof fn lemma_bfs_count_bound(vs: Set<int>)
    requires
        forall|i: int| #[trigger] vs.contains(i) ==> 0 <= i < GRID_SIZE * GRID_SIZE,
    ensures
        vs.finite(),
        vs.len() <= GRID_SIZE * GRID_SIZE,
{
    lemma_int_range(0, GRID_SIZE * GRID_SIZE);
    assert(vs.subset_of(set_int_range(0, GRID_SIZE * GRID_SIZE)));
    lemma_len_subset(vs, set_int_range(0, GRID_SIZE * GRID_SIZE));
}

/// Walking along a free path from the start: the walk stays among marked
/// cells no further than their position on the path, until it meets a cell at
/// least `bound` away.
proof fn lemma_walk(
    km: &KnownMap,
    s: (int, int),
    v: Seq<Vec<bool>>,
    q: Seq<(usize, usize)>,
    head: int,
    done: int,
    vs: Set<int>,
    pos: Map<(int, int), int>,
    paths: Map<(int, int), Seq<(int, int)>>,
    bound: int,
    p: Seq<(int, int)>,
    i: int,
) -> (k: int)
    requires
        bfs_inv(km, s, v, q, head, done, vs, pos, paths),
        paths[s].len() == 1,
        forall|c: int, r: int| fvis(v, c, r) && paths[(c, r)].len() < bound ==> #[trigger] pos[(c, r)] < done,
        free_path(km, p),
        p[0] == s,
        0 <= i < p.len(),
    ensures
        0 <= k <= i,
        fvis(v, p[k].0, p[k].1),
        paths[p[k]].len() <= k + 1,
        k == i || paths[p[k]].len() >= bound,
    decreases i,
{
    if i == 0 {
        0
    } else {
        let k = lemma_walk(km, s, v, q, head, done, vs, pos, paths, bound, p, i - 1);
        if paths[p[k]].len() >= bound {
            k
        } else {
            let j = i - 1;
            let x = p[j];
            let y = p[j + 1];
            assert(adjacent(p[j], p[j + 1]));
            assert(is_free(km, y.0, y.1));
            let n = pos[x];
            assert(pos[(x.0, x.1)] < done);
            assert(key(q[n]) == x);
            assert(nbr_ok(km, v, paths, q[n].0 as int, q[n].1 as int));
            i
        }
    }
}

/// Marking free neighbour `y` of the cell last dequeued and queueing it
/// keeps the invariant; `y` is one step further from the start.
proof fn lemma_bfs_push(
    km: &KnownMap,
    s: (int, int),
    v: Seq<Vec<bool>>,
    q: Seq<(usize, usize)>,
    head: int,
    vs: Set<int>,
    pos: Map<(int, int), int>,
    paths: Map<(int, int), Seq<(int, int)>>,
    y: (int, int),
    v2: Seq<Vec<bool>>,
)
    requires
        bfs_inv(km, s, v, q, head, head - 1, vs, pos, paths),
        head >= 1,
        adjacent(key(q[head - 1]), y),
        is_free(km, y.0, y.1),
        !fvis(v, y.0, y.1),
        square(v2, GRID_SIZE as int),
        forall|c: int, r: int| #[trigger] fvis(v2, c, r) == (fvis(v, c, r) || (c, r) == y),
    ensures
        bfs_inv(
            km,
            s,
            v2,
            q.push((y.0 as usize, y.1 as usize)),
            head,
            head - 1,
            vs.insert(y.1 * 240 + y.0),
            pos.insert(y, q.len() as int),
            paths.insert(y, paths[key(q[head - 1])].push(y)),
        ),
        forall|c: int, r: int| #[trigger] fvis(v, c, r) ==> paths.insert(y, paths[key(q[head - 1])].push(y))[(c, r)] == paths[(c, r)],
{
    let x = key(q[head - 1]);
    let q2 = q.push((y.0 as usize, y.1 as usize));
    let vs2 = vs.insert(y.1 * 240 + y.0);
    let pos2 = pos.insert(y, q.len() as int);
    let px = paths[x];
    let py = px.push(y);
    let paths2 = paths.insert(y, py);
    assert(fvis(v, x.0, x.1));
    assert(!vs.contains(y.1 * 240 + y.0));
    lemma_bfs_count_bound(vs);
    // the walk to y
    assert(free_path(km, py)) by {
        assert forall|i: int| 0 <= i < py.len() implies is_free(km, (#[trigger] py[i]).0, py[i].1) by {
            if i < px.len() {
                assert(py[i] == px[i]);
            }
        }
        assert forall|i: int| 0 <= i < py.len() - 1 implies #[trigger] adjacent(py[i], py[i + 1]) by {
            if i < px.len() - 1 {
                assert(py[i] == px[i] && py[i + 1] == px[i + 1]);
            } else {
                assert(py[i] == px.last());
            }
        }
    }
    assert forall|i: int|
        0 <= i < q2.len() implies fvis(v2, (#[trigger] q2[i]).0 as int, q2[i].1 as int) && pos2[key(q2[i])] == i by {
        if i < q.len() {
            assert(q2[i] == q[i]);
            assert(fvis(v, q[i].0 as int, q[i].1 as int));
        }
    }
    assert forall|c: int, r: int| #[trigger] fvis(v2, c, r) implies {
        &&& pos2.contains_key((c, r))
        &&& 0 <= pos2[(c, r)] < q2.len()
        &&& key(q2[pos2[(c, r)]]) == (c, r)
        &&& paths2.contains_key((c, r))
        &&& free_path(km, paths2[(c, r)])
        &&& paths2[(c, r)][0] == s
        &&& paths2[(c, r)].last() == (c, r)
    } by {
        if (c, r) != y {
            assert(fvis(v, c, r));
            assert(q2[pos[(c, r)]] == q[pos[(c, r)]]);
        }
    }
    assert forall|i: int, j: int|
        0 <= i <= j < q2.len() implies paths2[key(#[trigger] q2[i])].len() <= paths2[key(#[trigger] q2[j])].len() by {
        if j < q.len() {
            assert(q2[i] == q[i] && q2[j] == q[j]);
            assert(fvis(v, q[i].0 as int, q[i].1 as int));
            assert(fvis(v, q[j].0 as int, q[j].1 as int));
        } else if i < q.len() {
            assert(q2[i] == q[i]);
            assert(fvis(v, q[i].0 as int, q[i].1 as int));
            if i >= head {
                assert(paths[key(q[i])].len() <= paths[key(q[head - 1])].len() + 1);
            } else {
                assert(paths[key(q[i])].len() <= paths[key(q[head - 1])].len());
            }
        }
    }
    assert forall|j: int|
        1 <= head <= j < q2.len() implies paths2[key(#[trigger] q2[j])].len() <= paths2[key(q2[head - 1])].len() + 1 by {
        assert(q2[head - 1] == q[head - 1]);
        if j < q.len() {
            assert(q2[j] == q[j]);
            assert(fvis(v, q[j].0 as int, q[j].1 as int));
        }
    }
    assert forall|i: int| 0 <= i < head - 1 implies #[trigger] nbr_ok(km, v2, paths2, q2[i].0 as int, q2[i].1 as int) by {
        assert(q2[i] == q[i]);
        assert(nbr_ok(km, v, paths, q[i].0 as int, q[i].1 as int));
        assert(fvis(v, q[i].0 as int, q[i].1 as int));
    }
    assert forall|i: int| 0 <= i < head implies !spec_is_frontier(km, (#[trigger] q2[i]).0 as int, q2[i].1 as int) by {
        assert(q2[i] == q[i]);
    }
    assert forall|c: int, r: int| in_grid(c, r) implies (#[trigger] fvis(v2, c, r) <==> vs2.contains(r * 240 + c)) by {
        assert(fvis(v, c, r) <==> vs.contains(r * 240 + c));
    }
    assert forall|i: int| #[trigger] vs2.contains(i) implies 0 <= i < GRID_SIZE * GRID_SIZE by {}
}

/// The cell before the last on the recorded walk to `c`: the cell from which
/// the search reached `c`.
spec fn parent_of(paths: Map<(int, int), Seq<(int, int)>>, c: (int, int)) -> (int, int) {
    paths[c][paths[c].len() - 2]
}

/// Each marked cell but the start was reached from a dequeued cell, the first
/// dequeued cell next to it.
spec fn order_parents(
    v: Seq<Vec<bool>>,
    q: Seq<(usize, usize)>,
    head: int,
    pos: Map<(int, int), int>,
    paths: Map<(int, int), Seq<(int, int)>>,
) -> bool {
    forall|c: int, r: int|
        #[trigger] fvis(v, c, r) && paths[(c, r)].len() >= 2 ==> {
            let p = parent_of(paths, (c, r));
            &&& fvis(v, p.0, p.1)
            &&& paths[p] == paths[(c, r)].drop_last()
            &&& pos[p] < head
            &&& forall|i: int| 0 <= i < pos[p] ==> !adjacent(key(#[trigger] q[i]), (c, r))
        }
}

/// Cells at the same distance stand in the queue in the order of the
/// directions of their walks.
spec fn order_sorted(q: Seq<(usize, usize)>, paths: Map<(int, int), Seq<(int, int)>>) -> bool {
    forall|i: int, j: int|
        0 <= i < j < q.len() && paths[key(#[trigger] q[i])].len() == paths[key(#[trigger] q[j])].len()
            ==> dir_code(paths[key(q[i])]) < dir_code(paths[key(q[j])])
}

/// The search order: how cells were reached, and how they stand in the queue.
#[verifier::opaque]
spec fn order_inv(
    v: Seq<Vec<bool>>,
    q: Seq<(usize, usize)>,
    head: int,
    pos: Map<(int, int), int>,
    paths: Map<(int, int), Seq<(int, int)>>,
) -> bool {
    order_parents(v, q, head, pos, paths) && order_sorted(q, paths)
}

/// A walk one step longer: its code is four times the shorter walk's code plus
/// the direction of the last step.
proof fn lemma_dir_code_push(p: Seq<(int, int)>, y: (int, int))
    requires
        p.len() >= 1,
    ensures
        dir_code(p.push(y)) == 4 * dir_code(p) + step_dir(p.last(), y),
{
    assert(p.push(y).drop_last() =~= p);
}

/// The neighbours of a cell come in increasing direction.
proof fn lemma_cardinal_dirs(c: int, r: int)
    requires
        in_grid(c, r),
    ensures
        forall|k1: int, k2: int|
            0 <= k1 < k2 < spec_cardinal_neighbors(c, r).len() ==> step_dir(
                (c, r),
                key(#[trigger] spec_cardinal_neighbors(c, r)[k1]),
            ) < step_dir((c, r), key(#[trigger] spec_cardinal_neighbors(c, r)[k2])),
        forall|k: int|
            0 <= k < spec_cardinal_neighbors(c, r).len() ==> 0 <= step_dir(
                (c, r),
                key(#[trigger] spec_cardinal_neighbors(c, r)[k]),
            ) <= 3,
{
    let s = spec_cardinal_neighbors(c, r);
    let s1 = if c > 0 {
        seq![((c - 1) as usize, r as usize)]
    } else {
        Seq::empty()
    };
    let s2 = if c + 1 < GRID_SIZE {
        s1.push(((c + 1) as usize, r as usize))
    } else {
        s1
    };
    let s3 = if r > 0 {
        s2.push((c as usize, (r - 1) as usize))
    } else {
        s2
    };
    assert forall|k: int| 0 <= k < s.len() implies step_dir((c, r), key(#[trigger] s[k])) == if s[k].0 as int == c - 1 {
        0int
    } else if s[k].0 as int == c + 1 {
        1int
    } else if s[k].1 as int == r - 1 {
        2int
    } else {
        3int
    } by {}
    assert forall|k: int| 0 <= k < s1.len() implies step_dir((c, r), key(#[trigger] s1[k])) == 0 by {}
    assert forall|k: int| 0 <= k < s2.len() implies step_dir((c, r), key(#[trigger] s2[k])) == k + (if c > 0 { 0int } else { 1int }) by {
        if k < s1.len() {
            assert(s2[k] == s1[k]);
        }
    }
    assert forall|k1: int, k2: int| 0 <= k1 < k2 < s3.len() implies step_dir((c, r), key(#[trigger] s3[k1]))
        < step_dir((c, r), key(#[trigger] s3[k2])) by {
        if k2 < s2.len() {
            assert(s3[k1] == s2[k1] && s3[k2] == s2[k2]);
        } else {
            assert(s3[k1] == s2[k1]);
            assert(step_dir((c, r), key(s3[k2])) == 2);
        }
    }
    assert forall|k1: int, k2: int| 0 <= k1 < k2 < s.len() implies step_dir((c, r), key(#[trigger] s[k1]))
        < step_dir((c, r), key(#[trigger] s[k2])) by {
        if k2 < s3.len() {
            assert(s[k1] == s3[k1] && s[k2] == s3[k2]);
        } else {
            assert(s[k1] == s3[k1]);
            assert(step_dir((c, r), key(s[k2])) == 3);
            if k1 < s2.len() {
                assert(s3[k1] == s2[k1]);
            }
        }
    }
}

/// Among the shortest walks to a marked cell, the recorded one takes the
/// earliest directions.
#[verifier::spinoff_prover]
#[verifier::rlimit(40)]
proof fn lemma_min_code(
    km: &KnownMap,
    s: (int, int),
    v: Seq<Vec<bool>>,
    q: Seq<(usize, usize)>,
    h: int,
    vs: Set<int>,
    pos: Map<(int, int), int>,
    paths: Map<(int, int), Seq<(int, int)>>,
    p: Seq<(int, int)>,
)
    requires
        bfs_inv(km, s, v, q, h, h, vs, pos, paths),
        order_inv(v, q, h, pos, paths),
        paths[s].len() == 1,
        free_path(km, p),
        p[0] == s,
        fvis(v, p.last().0, p.last().1),
        paths[p.last()].len() == p.len(),
    ensures
        dir_code(paths[p.last()]) <= dir_code(p),
    decreases p.len(),
{
    reveal(order_inv);
    let n = p.len() as int;
    let c = p.last();
    if n >= 2 {
        let par = parent_of(paths, c);
        assert(fvis(v, c.0, c.1) && paths[(c.0, c.1)].len() >= 2);
        assert(fvis(v, par.0, par.1));
        assert(paths[par].len() == n - 1);
        let pp = pos[par];
        assert(key(q[pp]) == par);
        let p1 = p.drop_last();
        let c1 = p[n - 2];
        assert(free_path(km, p1)) by {
            assert forall|i: int| 0 <= i < p1.len() implies is_free(km, (#[trigger] p1[i]).0, p1[i].1) by {
                assert(p1[i] == p[i]);
            }
            assert forall|i: int| 0 <= i < p1.len() - 1 implies #[trigger] adjacent(p1[i], p1[i + 1]) by {
                assert(p1[i] == p[i] && p1[i + 1] == p[i + 1]);
            }
        }
        // cells nearer than the parent have been dequeued
        assert forall|a: int, b: int| fvis(v, a, b) && paths[(a, b)].len() < n - 1 implies #[trigger] pos[(a, b)] < h by {
            let pa = pos[(a, b)];
            assert(key(q[pa]) == (a, b));
            if pa >= pp {
                assert(paths[key(q[pp])].len() <= paths[key(q[pa])].len());
            }
        }
        let k = lemma_walk(km, s, v, q, h, h, vs, pos, paths, n - 1, p1, n - 2);
        assert(k == n - 2);
        assert(p1[k] == c1);
        assert(adjacent(p[n - 2], p[n - 1]));
        if paths[c1].len() < n - 1 {
            let pc = pos[c1];
            assert(pc < h);
            assert(key(q[pc]) == c1);
            assert(nbr_ok(km, v, paths, q[pc].0 as int, q[pc].1 as int));
            assert(is_free(km, c.0, c.1));
        }
        assert(paths[c1].len() == n - 1);
        assert(p1.last() == c1);
        lemma_min_code(km, s, v, q, h, vs, pos, paths, p1);
        lemma_dir_code_push(p1, c);
        assert(p1.push(c) =~= p);
        let pc_path = paths[c];
        assert(pc_path.drop_last() == paths[par]);
        assert(pc_path.drop_last().push(c) =~= pc_path) by {
            assert(pc_path.last() == c);
        }
        lemma_dir_code_push(paths[par], c);
        assert(paths[par].last() == par);
        if c1 != par {
            let pc = pos[c1];
            assert(key(q[pc]) == c1);
            if pc < pp {
                assert(!adjacent(key(q[pc]), (c.0, c.1)));
            }
            assert(pc > pp);
            assert(dir_code(paths[key(q[pp])]) < dir_code(paths[key(q[pc])]));
        }
    }
}

/// The code of a recorded walk, from its parent's.
proof fn lemma_code_via_parent(paths: Map<(int, int), Seq<(int, int)>>, c: (int, int))
    requires
        paths[c].len() >= 2,
        paths[parent_of(paths, c)] == paths[c].drop_last(),
        paths[c].last() == c,
    ensures
        dir_code(paths[c]) == 4 * dir_code(paths[parent_of(paths, c)]) + step_dir(parent_of(paths, c), c),
{
    let pc = paths[c];
    let par = parent_of(paths, c);
    assert(pc.drop_last().push(c) =~= pc);
    lemma_dir_code_push(pc.drop_last(), c);
}

/// Queueing free neighbour `y` of the cell `x` last dequeued keeps how cells
/// were reached.
proof fn lemma_parents_push(
    km: &KnownMap,
    v: Seq<Vec<bool>>,
    q: Seq<(usize, usize)>,
    head: int,
    pos: Map<(int, int), int>,
    paths: Map<(int, int), Seq<(int, int)>>,
    x: (int, int),
    y: (int, int),
    v2: Seq<Vec<bool>>,
)
    requires
        order_parents(v, q, head, pos, paths),
        1 <= head <= q.len(),
        key(q[head - 1]) == x,
        pos[x] == head - 1,
        fvis(v, x.0, x.1),
        paths[x].len() >= 1,
        paths[x].last() == x,
        forall|c: int, r: int| #[trigger] fvis(v, c, r) ==> 0 <= pos[(c, r)] < q.len(),
        forall|i: int| 0 <= i < head - 1 ==> #[trigger] nbr_ok(km, v, paths, q[i].0 as int, q[i].1 as int),
        is_free(km, y.0, y.1),
        !fvis(v, y.0, y.1),
        forall|c: int, r: int| #[trigger] fvis(v2, c, r) == (fvis(v, c, r) || (c, r) == y),
    ensures
        order_parents(
            v2,
            q.push((y.0 as usize, y.1 as usize)),
            head,
            pos.insert(y, q.len() as int),
            paths.insert(y, paths[x].push(y)),
        ),
{
    let q2 = q.push((y.0 as usize, y.1 as usize));
    let pos2 = pos.insert(y, q.len() as int);
    let px = paths[x];
    let paths2 = paths.insert(y, px.push(y));
    assert forall|c: int, r: int| #[trigger] fvis(v2, c, r) && paths2[(c, r)].len() >= 2 implies {
        let p = parent_of(paths2, (c, r));
        &&& fvis(v2, p.0, p.1)
        &&& paths2[p] == paths2[(c, r)].drop_last()
        &&& pos2[p] < head
        &&& forall|i: int| 0 <= i < pos2[p] ==> !adjacent(key(#[trigger] q2[i]), (c, r))
    } by {
        if (c, r) == y {
            assert(parent_of(paths2, y) == x);
            assert(px.push(y).drop_last() =~= px);
            assert forall|i: int| 0 <= i < pos2[x] implies !adjacent(key(#[trigger] q2[i]), (c, r)) by {
                assert(q2[i] == q[i]);
                assert(nbr_ok(km, v, paths, q[i].0 as int, q[i].1 as int));
            }
        } else {
            assert(fvis(v, c, r));
            let p = parent_of(paths, (c, r));
            assert(fvis(v, p.0, p.1));
            assert(pos[p] < q.len());
            assert forall|i: int| 0 <= i < pos2[p] implies !adjacent(key(#[trigger] q2[i]), (c, r)) by {
                assert(q2[i] == q[i]);
            }
        }
    }
}

/// Queueing free neighbour `y` of the cell `x` last dequeued keeps the queue
/// in order, when every cell queued earlier from `x` lies in an earlier
/// direction and every other cell was queued from a cell dequeued before `x`.
proof fn lemma_sorted_push(
    v: Seq<Vec<bool>>,
    q: Seq<(usize, usize)>,
    head: int,
    pos: Map<(int, int), int>,
    paths: Map<(int, int), Seq<(int, int)>>,
    x: (int, int),
    y: (int, int),
    len0: int,
)
    requires
        order_parents(v, q, head, pos, paths),
        order_sorted(q, paths),
        1 <= head,
        head - 1 < len0 <= q.len(),
        key(q[head - 1]) == x,
        pos[x] == head - 1,
        fvis(v, x.0, x.1),
        paths[x].len() >= 1,
        paths[x].last() == x,
        in_grid(y.0, y.1),
        !fvis(v, y.0, y.1),
        forall|c: int, r: int| #[trigger] fvis(v, c, r) ==> 0 <= pos[(c, r)] < q.len() && key(q[pos[(c, r)]]) == (c, r),
        forall|i: int|
            0 <= i < q.len() ==> fvis(v, (#[trigger] q[i]).0 as int, q[i].1 as int) && pos[key(q[i])] == i
                && paths[key(q[i])].last() == key(q[i]),
        forall|i: int|
            0 <= i < len0 && paths[key(q[i])].len() >= 2 ==> pos[parent_of(paths, key(#[trigger] q[i]))]
                < head - 1,
        forall|i: int|
            len0 <= i < q.len() ==> paths[key(#[trigger] q[i])].len() >= 2 && parent_of(paths, key(q[i]))
                == x && step_dir(x, key(q[i])) < step_dir(x, y),
    ensures
        order_sorted(q.push((y.0 as usize, y.1 as usize)), paths.insert(y, paths[x].push(y))),
{
    let q2 = q.push((y.0 as usize, y.1 as usize));
    let px = paths[x];
    let paths2 = paths.insert(y, px.push(y));
    assert(key(q2[q.len() as int]) == y);
    assert forall|i: int, j: int|
        0 <= i < j < q2.len() && paths2[key(#[trigger] q2[i])].len() == paths2[key(#[trigger] q2[j])].len()
            implies dir_code(paths2[key(q2[i])]) < dir_code(paths2[key(q2[j])]) by {
        assert(q2[i] == q[i]);
        let a = key(q[i]);
        assert(fvis(v, a.0, a.1));
        assert(a != y);
        if j < q.len() {
            assert(q2[j] == q[j]);
            assert(fvis(v, q[j].0 as int, q[j].1 as int));
        } else {
            assert(paths2[a] == paths[a]);
            assert(paths2[y] == px.push(y));
            lemma_dir_code_push(px, y);
            let pa = parent_of(paths, a);
            assert(paths[a].len() >= 2);
            assert(paths[pa] == paths[a].drop_last());
            lemma_code_via_parent(paths, a);
            if i >= len0 {
                assert(pa == x);
            } else {
                assert(pos[pa] < head - 1);
                assert(fvis(v, pa.0, pa.1));
                assert(key(q[pos[pa]]) == pa);
                assert(paths[pa].len() == paths[x].len());
                assert(dir_code(paths[key(q[pos[pa]])]) < dir_code(paths[key(q[head - 1])]));
            }
        }
    }
}

/// Dequeueing more cells keeps how cells were reached.
proof fn lemma_parents_head(
    v: Seq<Vec<bool>>,
    q: Seq<(usize, usize)>,
    h: int,
    pos: Map<(int, int), int>,
    paths: Map<(int, int), Seq<(int, int)>>,
)
    requires
        order_inv(v, q, h, pos, paths),
    ensures
        order_inv(v, q, h + 1, pos, paths),
        forall|c: int, r: int|
            #[trigger] fvis(v, c, r) && paths[(c, r)].len() >= 2 ==> pos[parent_of(paths, (c, r))] < h,
{
    reveal(order_inv);
}

/// Queueing free neighbour `y = nbrs[j]` of the cell last dequeued keeps the
/// search order and what the expansion of that cell has queued so far.
#[verifier::spinoff_prover]
#[verifier::rlimit(40)]
proof fn lemma_order_step(
    km: &KnownMap,
    s: (int, int),
    v: Seq<Vec<bool>>,
    q: Seq<(usize, usize)>,
    head: int,
    vs: Set<int>,
    pos: Map<(int, int), int>,
    paths: Map<(int, int), Seq<(int, int)>>,
    y: (int, int),
    v2: Seq<Vec<bool>>,
    len0: int,
    nbrs: Seq<(usize, usize)>,
    j: int,
)
    requires
        bfs_inv(km, s, v, q, head, head - 1, vs, pos, paths),
        order_inv(v, q, head, pos, paths),
        head >= 1,
        head <= len0 <= q.len(),
        0 <= j < nbrs.len(),
        key(nbrs[j]) == y,
        adjacent(key(q[head - 1]), y),
        is_free(km, y.0, y.1),
        !fvis(v, y.0, y.1),
        square(v2, GRID_SIZE as int),
        forall|c: int, r: int| #[trigger] fvis(v2, c, r) == (fvis(v, c, r) || (c, r) == y),
        forall|k1: int, k2: int|
            0 <= k1 < k2 < nbrs.len() ==> step_dir(key(q[head - 1]), key(#[trigger] nbrs[k1])) < step_dir(
                key(q[head - 1]),
                key(#[trigger] nbrs[k2]),
            ),
        forall|k: int| 0 <= k < nbrs.len() ==> 0 <= step_dir(key(q[head - 1]), key(#[trigger] nbrs[k])) <= 3,
        forall|i: int|
            0 <= i < len0 && paths[key(q[i])].len() >= 2 ==> pos[parent_of(paths, key(#[trigger] q[i]))]
                < head - 1,
        forall|i: int|
            len0 <= i < q.len() ==> paths[key(#[trigger] q[i])].len() >= 2 && parent_of(paths, key(q[i]))
                == key(q[head - 1]) && step_dir(key(q[head - 1]), key(q[i])) < step_dir(key(q[head - 1]), y),
    ensures
        order_inv(
            v2,
            q.push((y.0 as usize, y.1 as usize)),
            head,
            pos.insert(y, q.len() as int),
            paths.insert(y, paths[key(q[head - 1])].push(y)),
        ),
        forall|i: int|
            0 <= i < len0 && paths.insert(y, paths[key(q[head - 1])].push(y))[key(
                q.push((y.0 as usize, y.1 as usize))[i],
            )].len() >= 2 ==> pos.insert(y, q.len() as int)[parent_of(
                paths.insert(y, paths[key(q[head - 1])].push(y)),
                key(#[trigger] q.push((y.0 as usize, y.1 as usize))[i]),
            )] < head - 1,
        forall|i: int|
            len0 <= i < q.len() + 1 ==> paths.insert(y, paths[key(q[head - 1])].push(y))[key(
                #[trigger] q.push((y.0 as usize, y.1 as usize))[i],
            )].len() >= 2 && parent_of(
                paths.insert(y, paths[key(q[head - 1])].push(y)),
                key(q.push((y.0 as usize, y.1 as usize))[i]),
            ) == key(q[head - 1]) && step_dir(key(q[head - 1]), key(q.push((y.0 as usize, y.1 as usize))[i]))
                < (if j + 1 < nbrs.len() {
                step_dir(key(q[head - 1]), key(nbrs[j + 1]))
            } else {
                4
            }),
{
    reveal(order_inv);
    let x = key(q[head - 1]);
    let q2 = q.push((y.0 as usize, y.1 as usize));
    let paths2 = paths.insert(y, paths[x].push(y));
    let pos2 = pos.insert(y, q.len() as int);
    assert(fvis(v, x.0, x.1));
    assert(pos[x] == head - 1);
    lemma_parents_push(km, v, q, head, pos, paths, x, y, v2);
    lemma_sorted_push(v, q, head, pos, paths, x, y, len0);
    assert(key(q2[q.len() as int]) == y);
    assert(paths[x].push(y).drop_last() =~= paths[x]);
    assert forall|i: int|
        0 <= i < len0 && paths2[key(q2[i])].len() >= 2 implies pos2[parent_of(paths2, key(#[trigger] q2[i]))]
            < head - 1 by {
        assert(q2[i] == q[i]);
        let a = key(q[i]);
        assert(fvis(v, a.0, a.1));
        let pa = parent_of(paths, a);
        assert(fvis(v, pa.0, pa.1));
    }
    assert forall|i: int|
        len0 <= i < q2.len() implies paths2[key(#[trigger] q2[i])].len() >= 2 && parent_of(paths2, key(q2[i]))
            == x && step_dir(x, key(q2[i])) < (if j + 1 < nbrs.len() {
            step_dir(x, key(nbrs[j + 1]))
        } else {
            4
        }) by {
        if i < q.len() {
            assert(q2[i] == q[i]);
            assert(fvis(v, q[i].0 as int, q[i].1 as int));
        }
    }
}

} // verus!
