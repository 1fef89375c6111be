use vstd::prelude::*;

verus! {

/// Number of grid cells per side: 12 m / 0.05 m = 240.
pub const GRID_SIZE: usize = 240;

/// Cell type in the maze grid.
#[derive(Debug, Clone, Copy, PartialEq, Eq, Structural)]
pub enum CellType {
    /// Solid wall, impassable.
    Wall,
    /// Open passage, passable.
    Passage,
}

/// Grid coordinate expressed as (column, row) zero-based indices.
///
/// Column 0 is on the left; row 0 is at the top.
/// The maze center is at `GridPos { col: 120, row: 120 }`.
#[derive(Debug, Clone, Copy, PartialEq, Eq, Structural)]
pub struct GridPos {
    /// Column index (0 to 239).
    pub col: u16,
    /// Row index (0 to 239).
    pub row: u16,
}

/// Nearest even index at or above `v`, capped at `GRID_SIZE - 2`.
pub open spec fn spec_snap_coord(v: int) -> int {
    let up = (v + 1) / 2 * 2;
    if up < GRID_SIZE - 2 { up } else { GRID_SIZE - 2 }
}

impl GridPos {
    /// Snap to the nearest logical cell (even col and row).
    ///
    /// The maze passage cells always sit at even indices. This prevents the
    /// robot, which may momentarily be positioned on an odd-indexed connector
    /// cell during movement, from being mis-classified as being on a wall cell.
    pub fn snap_even(self) -> (r: GridPos)
        ensures
            r.col == spec_snap_coord(self.col as int),
            r.row == spec_snap_coord(self.row as int),
            r.col % 2 == 0,
            r.row % 2 == 0,
            r.col <= GRID_SIZE - 2,
            r.row <= GRID_SIZE - 2,
    {
        let c: usize = (self.col as usize + 1) / 2 * 2;
        let r: usize = (self.row as usize + 1) / 2 * 2;
        let col: usize = if c < GRID_SIZE - 2 { c } else { GRID_SIZE - 2 };
        let row: usize = if r < GRID_SIZE - 2 { r } else { GRID_SIZE - 2 };
        GridPos { col: col as u16, row: row as u16 }
    }
}

/// Snapping is idempotent: a snapped position snaps to itself, so a robot
/// already on a logical cell keeps it.
pub proof fn lemma_snap_idempotent(v: int)
    requires
        0 <= v,
    ensures
        spec_snap_coord(spec_snap_coord(v)) == spec_snap_coord(v),
{
}

/// Maze data: the 240x240 cell grid, indexed `grid[row][col]`.
///
/// The `start` position is always the maze centre `GridPos { col: 120, row: 120 }`.
/// The `goal` is a randomly selected perimeter cell (outer edge of the grid).
pub struct Maze {
    /// The full 240x240 cell grid, `grid[row][col]`.
    pub grid: Vec<Vec<CellType>>,
    /// Starting position of the robot (always the maze centre).
    pub start: GridPos,
    /// Target position for goal-aware mode (perimeter cell).
    pub goal: GridPos,
    /// Target position for blind exploration mode (random inner passage cell).
    pub blind_goal: GridPos,
    /// Random seed used to generate this maze.
    pub seed: u64,
}

/// A square grid of `n` rows of `n` cells each.
pub open spec fn square<T>(g: Seq<Vec<T>>, n: int) -> bool {
    &&& g.len() == n
    &&& forall|r: int| 0 <= r < n ==> (#[trigger] g[r])@.len() == n
}

/// The rows of a grid, each as the sequence of its cells.
pub open spec fn rows<T>(g: Seq<Vec<T>>) -> Seq<Seq<T>> {
    Seq::new(g.len(), |i: int| g[i]@)
}

/// A grid of `GRID_SIZE` rows of `GRID_SIZE` cells each.
pub open spec fn grid_wf<T>(g: Seq<Vec<T>>) -> bool {
    square(g, GRID_SIZE as int)
}

/// An `n` by `n` grid with every cell set to `v`.
pub fn filled_grid<T: Copy>(n: usize, v: T) -> (g: Vec<Vec<T>>)
    ensures
        square(g@, n as int),
        forall|r: int, c: int| 0 <= r < n && 0 <= c < n ==> #[trigger] g@[r]@[c] == v,
{
    let mut g: Vec<Vec<T>> = Vec::new();
    for i in 0..n
        invariant
            g@.len() == i,
            forall|r: int| 0 <= r < i ==> (#[trigger] g@[r])@.len() == n,
            forall|r: int, c: int| 0 <= r < i && 0 <= c < n ==> #[trigger] g@[r]@[c] == v,
    {
        let mut row: Vec<T> = Vec::new();
        for j in 0..n
            invariant
                row@.len() == j,
                forall|c: int| 0 <= c < j ==> #[trigger] row@[c] == v,
        {
            row.push(v);
        }
        g.push(row);
    }
    g
}

/// `(c, r)` lies on the grid.
pub open spec fn in_grid(c: int, r: int) -> bool {
    0 <= c < GRID_SIZE && 0 <= r < GRID_SIZE
}

/// `(c, r)` lies on the outer edge of the grid.
pub open spec fn on_border(c: int, r: int) -> bool {
    c == 0 || r == 0 || c == GRID_SIZE - 1 || r == GRID_SIZE - 1
}

/// A logical passage cell: even column and row, inside the outer ring of
/// logical cells (logical indices 1 to 118, grid indices 2 to 236).
pub open spec fn is_logical_cell(c: int, r: int) -> bool {
    &&& c % 2 == 0
    &&& r % 2 == 0
    &&& 2 <= c <= GRID_SIZE - 4
    &&& 2 <= r <= GRID_SIZE - 4
}

/// A goal candidate: a cell of the left or top edge that faces a logical cell.
pub open spec fn is_goal_cell(c: int, r: int) -> bool {
    ||| c == 0 && r % 2 == 0 && 2 <= r <= GRID_SIZE - 4
    ||| r == 0 && c % 2 == 0 && 2 <= c <= GRID_SIZE - 4
}

/// A connector between two adjacent logical cells: one index odd, the other
/// even, both away from the outer ring.
pub open spec fn is_inner_connector(c: int, r: int) -> bool {
    ||| c % 2 == 1 && r % 2 == 0 && 3 <= c <= GRID_SIZE - 5 && 2 <= r <= GRID_SIZE - 4
    ||| c % 2 == 0 && r % 2 == 1 && 2 <= c <= GRID_SIZE - 4 && 3 <= r <= GRID_SIZE - 5
}

/// The cell that joins a goal cell on the left or top edge to the logical
/// cell it faces.
pub open spec fn goal_opening(g: GridPos) -> (int, int) {
    if g.col == 0 {
        (1, g.row as int)
    } else {
        (g.col as int, 1)
    }
}

/// `x` indexes an inner logical cell: grid cell `(2 x.0, 2 x.1)` is a logical cell.
pub open spec fn is_inner_logical(x: (int, int)) -> bool {
    1 <= x.0 <= 118 && 1 <= x.1 <= 118
}

/// One of the two logical cells is the other's parent; the centre cell
/// `(60, 60)` has no parent.
pub open spec fn tree_link(parent: Map<(int, int), (int, int)>, a: (int, int), b: (int, int)) -> bool {
    (b != (60int, 60int) && parent[b] == a) || (a != (60int, 60int) && parent[a] == b)
}

/// Two cells share an edge.
pub open spec fn adjacent(a: (int, int), b: (int, int)) -> bool {
    ||| a.0 == b.0 && (a.1 - b.1 == 1 || b.1 - a.1 == 1)
    ||| a.1 == b.1 && (a.0 - b.0 == 1 || b.0 - a.0 == 1)
}

impl Maze {
    /// The grid has `GRID_SIZE` rows of `GRID_SIZE` cells.
    pub open spec fn wf(&self) -> bool {
        grid_wf(self.grid@)
    }

    /// The cell at column `c`, row `r`.
    pub open spec fn cell(&self, c: int, r: int) -> CellType {
        self.grid@[r]@[c]
    }

    /// `p = (col, row)` is a passage cell of the grid.
    pub open spec fn is_passage(&self, p: (int, int)) -> bool {
        in_grid(p.0, p.1) && self.cell(p.0, p.1) == CellType::Passage
    }

    /// `p` is a walk through passage cells, each step to an edge neighbour.
    pub open spec fn passage_path(&self, p: Seq<(int, int)>) -> bool {
        &&& p.len() >= 1
        &&& forall|i: int| 0 <= i < p.len() ==> self.is_passage(#[trigger] p[i])
        &&& forall|i: int| 0 <= i < p.len() - 1 ==> #[trigger] adjacent(p[i], p[i + 1])
    }

    /// Some walk through passage cells leads from `a` to `b`.
    pub open spec fn connected(&self, a: (int, int), b: (int, int)) -> bool {
        exists|p: Seq<(int, int)>| #[trigger] self.passage_path(p) && p[0] == a && p.last() == b
    }

    /// A step between two adjacent inner logical cells (logical indices)
    /// through the open connector between them.
    pub open spec fn open_step(&self, a: (int, int), b: (int, int)) -> bool {
        &&& adjacent(a, b)
        &&& is_inner_logical(a)
        &&& is_inner_logical(b)
        &&& self.cell(a.0 + b.0, a.1 + b.1) == CellType::Passage
    }

    /// A route over inner logical cells (logical indices) through open
    /// connectors that visits no cell twice.
    pub open spec fn simple_route(&self, p: Seq<(int, int)>) -> bool {
        &&& p.len() >= 1
        &&& forall|i: int| 0 <= i < p.len() ==> is_inner_logical(#[trigger] p[i])
        &&& forall|i: int| 0 <= i < p.len() - 1 ==> #[trigger] self.open_step(p[i], p[i + 1])
        &&& forall|i: int, j: int| 0 <= i < j < p.len() ==> p[i] != p[j]
    }

    /// The open connectors between inner logical cells are exactly the links
    /// from each inner logical cell but the centre one to its parent, an
    /// adjacent cell of smaller depth: the logical cells and their open
    /// connectors form a spanning tree rooted at the centre cell `(60, 60)`.
    pub open spec fn is_spanning_tree(
        &self,
        parent: Map<(int, int), (int, int)>,
        depth: Map<(int, int), nat>,
    ) -> bool {
        &&& forall|x: (int, int)|
            #[trigger] is_inner_logical(x) && x != (60int, 60int) ==> {
                &&& is_inner_logical(parent[x])
                &&& adjacent(parent[x], x)
                &&& depth[parent[x]] < depth[x]
            }
        &&& forall|a: (int, int), b: (int, int)|
            #[trigger] adjacent(a, b) && is_inner_logical(a) && is_inner_logical(b) ==> (self.cell(
                a.0 + b.0,
                a.1 + b.1,
            ) == CellType::Passage <==> tree_link(parent, a, b))
    }

    /// The shape of every maze that `MazeGenerator::generate` builds.
    pub open spec fn is_perfect_maze(&self) -> bool {
        &&& self.wf()
        &&& self.start == GridPos { col: 120, row: 120 }
        &&& is_goal_cell(self.goal.col as int, self.goal.row as int)
        &&& self.is_passage((self.goal.col as int, self.goal.row as int))
        &&& self.is_passage(goal_opening(self.goal))
        &&& is_logical_cell(self.blind_goal.col as int, self.blind_goal.row as int)
        &&& self.blind_goal != self.start
        // every logical cell is open
        &&& forall|c: int, r: int| is_logical_cell(c, r) ==> #[trigger] self.is_passage((c, r))
        // the outer wall is closed but for the goal
        &&& forall|c: int, r: int|
            in_grid(c, r) && on_border(c, r) && !(c == self.goal.col && r == self.goal.row)
                ==> #[trigger] self.cell(c, r) == CellType::Wall
        // cells with two odd indices are never carved
        &&& forall|c: int, r: int|
            in_grid(c, r) && c % 2 == 1 && r % 2 == 1 ==> #[trigger] self.cell(c, r) == CellType::Wall
        // the only passages are the logical cells, the connectors between
        // them, the goal and its opening
        &&& forall|c: int, r: int|
            #[trigger] self.is_passage((c, r)) ==> is_logical_cell(c, r) || is_inner_connector(c, r)
                || (c == self.goal.col && r == self.goal.row) || (c, r) == goal_opening(self.goal)
        // every passage cell can be reached from the start
        &&& forall|c: int, r: int|
            #[trigger] self.is_passage((c, r)) ==> self.connected((120, 120), (c, r))
        // the passages between logical cells form a spanning tree
        &&& exists|parent: Map<(int, int), (int, int)>, depth: Map<(int, int), nat>|
            #[trigger] self.is_spanning_tree(parent, depth)
    }
}

/// In every maze that `MazeGenerator::generate` builds, any passage cell can
/// be reached from any other passage cell through passages.
pub proof fn lemma_passages_connected(m: Maze, a: (int, int), b: (int, int))
    requires
        m.is_perfect_maze(),
        m.is_passage(a),
        m.is_passage(b),
    ensures
        m.connected(a, b),
{
    let s = (120int, 120int);
    assert(m.connected(s, a));
    assert(m.connected(s, b));
    let p = choose|p: Seq<(int, int)>| #[trigger] m.passage_path(p) && p[0] == s && p.last() == a;
    let q = choose|q: Seq<(int, int)>| #[trigger] m.passage_path(q) && q[0] == s && q.last() == b;
    let n = p.len();
    let rp = Seq::new(n, |i: int| p[n - 1 - i]);
    let tail = q.drop_first();
    let r = rp + tail;
    assert forall|i: int| 0 <= i < r.len() implies m.is_passage(#[trigger] r[i]) by {
        if i < n {
            assert(r[i] == p[n - 1 - i]);
        } else {
            assert(r[i] == q[i - n + 1]);
        }
    }
    assert forall|i: int| 0 <= i < r.len() - 1 implies #[trigger] adjacent(r[i], r[i + 1]) by {
        if i < n - 1 {
            let j = n - 2 - i;
            assert(adjacent(p[j], p[j + 1]));
            assert(r[i] == p[j + 1] && r[i + 1] == p[j]);
        } else if i == n - 1 {
            assert(r[i] == p[0]);
            assert(r[i + 1] == q[1]);
            assert(adjacent(q[0], q[1]));
        } else {
            let j = i - n + 1;
            assert(adjacent(q[j], q[j + 1]));
            assert(r[i] == q[j] && r[i + 1] == q[j + 1]);
        }
    }
    assert(r[0] == a);
    if q.len() == 1 {
        assert(r =~= rp);
        assert(r.last() == p[0]);
    } else {
        assert(r.last() == q.last());
    }
    assert(m.passage_path(r) && r[0] == a && r.last() == b);
}

} // verus!
