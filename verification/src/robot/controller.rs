use vstd::prelude::*;

use crate::maze::types::{in_grid, CellType, Maze, GRID_SIZE};
use crate::robot::types::{KnownCell, KnownMap};

verus! {

/// `after` is `before` with grid cell `(col, row)` set to `seen` if it lies on
/// the grid and was still `Unknown`; every other cell is unchanged.
pub open spec fn records(before: &KnownMap, after: &KnownMap, col: int, row: int, seen: KnownCell) -> bool {
    &&& after.wf()
    &&& forall|c: int, r: int|
        in_grid(c, r) ==> #[trigger] after.at(c, r) == if c == col && r == row && before.at(c, r)
            == KnownCell::Unknown {
            seen
        } else {
            before.at(c, r)
        }
}

/// Recording what the maze holds keeps a map's walls true: if every wall of
/// `before` is a wall of `maze`, and `seen` is `Wall` only where `maze` has a
/// wall, every wall of `after` is a wall of `maze`. A map built from the
/// empty one by such observations therefore never loses the goal
/// (`lemma_goal_always_plannable`).
pub proof fn lemma_records_keep_true_walls(
    maze: Maze,
    before: KnownMap,
    after: KnownMap,
    col: int,
    row: int,
    seen: KnownCell,
)
    requires
        before.walls_only_from(&maze),
        records(&before, &after, col, row, seen),
        seen == KnownCell::Wall && in_grid(col, row) ==> maze.cell(col, row) == CellType::Wall,
    ensures
        after.walls_only_from(&maze),
{
    assert forall|c: int, r: int| in_grid(c, r) && #[trigger] after.at(c, r) == KnownCell::Wall implies maze.cell(c, r)
        == CellType::Wall by {
        if !(c == col && r == row && before.at(c, r) == KnownCell::Unknown) {
            assert(before.at(c, r) == KnownCell::Wall);
        }
    }
}

impl KnownMap {
    /// Record one LRF observation of grid cell `(col, row)`.
    ///
    /// The cell takes the state `seen` only when it lies on the grid and is
    /// still `Unknown`: cells that are already known are not overwritten
    /// (static environment), and coordinates off the grid are ignored.
    pub fn observe(&mut self, col: i32, row: i32, seen: KnownCell)
        requires
            old(self).wf(),
        ensures
            records(old(self), final(self), col as int, row as int, seen),
    {
        if col >= 0 && row >= 0 && col < GRID_SIZE as i32 && row < GRID_SIZE as i32 {
            let c = col as usize;
            let r = row as usize;
            if self.cells[r][c] == KnownCell::Unknown {
                let ghost before = self.cells@;
                self.cells[r][c] = seen;
                assert forall|x: int, y: int| in_grid(x, y) implies #[trigger] self.at(x, y) == if x == col
                    && y == row && before[y]@[x] == KnownCell::Unknown {
                    seen
                } else {
                    before[y]@[x]
                } by {
                    if y != r {
                        assert(self.cells@[y] == before[y]);
                    }
                }
            }
        }
    }
}


/// The state of grid cell `(c, r)`, starting from `cell`, after the
/// observations `obs` (column, row, state seen) are recorded in turn: an
/// observation of the cell sets it only while it is still `Unknown`.
pub open spec fn after_obs(cell: KnownCell, obs: Seq<(i32, i32, KnownCell)>, c: int, r: int) -> KnownCell
    decreases obs.len(),
{
    if obs.len() == 0 {
        cell
    } else {
        let prev = after_obs(cell, obs.drop_last(), c, r);
        let o = obs.last();
        if o.0 == c && o.1 == r && prev == KnownCell::Unknown {
            o.2
        } else {
            prev
        }
    }
}

/// `after` is `before` with the observations `obs` recorded in turn.
pub open spec fn records_all(before: &KnownMap, after: &KnownMap, obs: Seq<(i32, i32, KnownCell)>) -> bool {
    &&& after.wf()
    &&& forall|c: int, r: int| in_grid(c, r) ==> #[trigger] after.at(c, r) == after_obs(before.at(c, r), obs, c, r)
}

impl KnownMap {
    /// Record the observations `obs` (column, row, state seen) in turn, as
    /// `observe` records each: one LRF scan's cells, ray by ray.
    pub fn observe_all(&mut self, obs: &Vec<(i32, i32, KnownCell)>)
        requires
            old(self).wf(),
        ensures
            records_all(old(self), final(self), obs@),
    {
        let ghost before = *self;
        for i in 0..obs.len()
            invariant
                before.wf(),
                self.wf(),
                forall|c: int, r: int|
                    in_grid(c, r) ==> #[trigger] self.at(c, r) == after_obs(
                        before.at(c, r),
                        obs@.subrange(0, i as int),
                        c,
                        r,
                    ),
        {
            let (col, row, seen) = obs[i];
            self.observe(col, row, seen);
            proof {
                assert(obs@.subrange(0, i + 1).drop_last() =~= obs@.subrange(0, i as int));
                assert(obs@.subrange(0, i + 1).last() == (col, row, seen));
            }
        }
        proof {
            assert(obs@.subrange(0, obs@.len() as int) =~= obs@);
        }
    }
}

/// A cell that is already known stays as it is, whatever is observed.
proof fn lemma_known_stays(cell: KnownCell, obs: Seq<(i32, i32, KnownCell)>, c: int, r: int)
    requires
        cell != KnownCell::Unknown,
    ensures
        after_obs(cell, obs, c, r) == cell,
    decreases obs.len(),
{
    if obs.len() > 0 {
        lemma_known_stays(cell, obs.drop_last(), c, r);
    }
}

/// Recording `a` and then `b` is recording `a` followed by `b`.
proof fn lemma_obs_concat(
    cell: KnownCell,
    a: Seq<(i32, i32, KnownCell)>,
    b: Seq<(i32, i32, KnownCell)>,
    c: int,
    r: int,
)
    ensures
        after_obs(after_obs(cell, a, c, r), b, c, r) == after_obs(cell, a + b, c, r),
    decreases b.len(),
{
    if b.len() == 0 {
        assert(a + b =~= a);
    } else {
        lemma_obs_concat(cell, a, b.drop_last(), c, r);
        assert((a + b).drop_last() =~= a + b.drop_last());
    }
}

/// A confirmed cell is never changed: once `before` holds a cell as free or
/// wall, `after` holds it so too, whatever observations are recorded in
/// between.
pub proof fn lemma_known_cells_stay(before: KnownMap, after: KnownMap, obs: Seq<(i32, i32, KnownCell)>)
    requires
        records_all(&before, &after, obs),
    ensures
        forall|c: int, r: int|
            in_grid(c, r) && before.at(c, r) != KnownCell::Unknown ==> #[trigger] after.at(c, r) == before.at(c, r),
{
    assert forall|c: int, r: int| in_grid(c, r) && before.at(c, r) != KnownCell::Unknown implies #[trigger] after.at(
        c,
        r,
    ) == before.at(c, r) by {
        lemma_known_stays(before.at(c, r), obs, c, r);
    }
}

/// Recordings compose: recording `a` and then `b` records `a + b`, so what
/// holds of one recording holds of any run of them, tick after tick.
pub proof fn lemma_records_compose(
    m0: KnownMap,
    m1: KnownMap,
    m2: KnownMap,
    a: Seq<(i32, i32, KnownCell)>,
    b: Seq<(i32, i32, KnownCell)>,
)
    requires
        records_all(&m0, &m1, a),
        records_all(&m1, &m2, b),
    ensures
        records_all(&m0, &m2, a + b),
{
    assert forall|c: int, r: int| in_grid(c, r) implies #[trigger] m2.at(c, r) == after_obs(m0.at(c, r), a + b, c, r) by {
        lemma_obs_concat(m0.at(c, r), a, b, c, r);
    }
}

/// Recording the same observations a second time changes nothing: one LRF
/// scan recorded twice leaves the map as recording it once does.
pub proof fn lemma_records_twice(
    m0: KnownMap,
    m1: KnownMap,
    m2: KnownMap,
    obs: Seq<(i32, i32, KnownCell)>,
)
    requires
        records_all(&m0, &m1, obs),
        records_all(&m1, &m2, obs),
    ensures
        forall|c: int, r: int| in_grid(c, r) ==> #[trigger] m2.at(c, r) == m1.at(c, r),
{
    assert forall|c: int, r: int| in_grid(c, r) implies #[trigger] m2.at(c, r) == m1.at(c, r) by {
        let x = m0.at(c, r);
        if m1.at(c, r) != KnownCell::Unknown {
            lemma_known_stays(m1.at(c, r), obs, c, r);
        } else {
            if x != KnownCell::Unknown {
                lemma_known_stays(x, obs, c, r);
            }
            assert(x == KnownCell::Unknown);
        }
    }
}

} // verus!
