use rand::seq::SliceRandom;
use rand::SeedableRng;
use rand_chacha::ChaCha8Rng;
use vstd::prelude::*;
use vstd::set_lib::{lemma_int_range, lemma_len_subset, set_int_range};

use super::types::{
    rows, goal_opening, is_inner_connector, is_inner_logical, tree_link, adjacent, filled_grid, in_grid, is_goal_cell, is_logical_cell, on_border, square, CellType,
    GridPos, Maze, GRID_SIZE,
};

verus! {

#[verifier::external_type_specification]
#[verifier::external_body]
pub struct ExChaCha8Rng(ChaCha8Rng);

/// The index that `<[T] as SliceRandom>::choose` draws from a list of `len`
/// items with a ChaCha8 generator seeded by `seed_from_u64(seed)` that has
/// already served draws from lists of the lengths in `draws`, in order.
pub uninterp spec fn chacha_pick(seed: u64, draws: Seq<nat>, len: nat) -> nat;

/// A ChaCha8 generator together with the seed it was made from and the
/// lengths of the lists it has drawn from so far.
pub struct SeededRng {
    rng: ChaCha8Rng,
    seed: Ghost<u64>,
    draws: Ghost<Seq<nat>>,
}

impl SeededRng {
    /// The seed the generator was made from.
    pub closed spec fn seed(&self) -> u64 {
        self.seed@
    }

    /// The lengths of the lists drawn from so far, in order.
    pub closed spec fn draws(&self) -> Seq<nat> {
        self.draws@
    }
}

/// Calls `<ChaCha8Rng as SeedableRng>::seed_from_u64`. Claimed: a generator
/// made from `seed` that has served no draws yet.
#[verifier::external_body]
fn seeded_rng(seed: u64) -> (r: SeededRng)
    ensures
        r.seed() == seed,
        r.draws() == Seq::<nat>::empty(),
{
    SeededRng { rng: ChaCha8Rng::seed_from_u64(seed), seed: Ghost(seed), draws: Ghost(Seq::empty()) }
}

/// Calls `<[T] as SliceRandom>::choose` and copies the chosen element.
/// Claimed: the result is `None` exactly when `items` is empty, and otherwise
/// the item at the index `chacha_pick` names for this generator's seed, its
/// earlier draws and the list's length, an index below the length. The draw
/// is recorded. The choice is reproducible: the same seed and the same
/// earlier draws give the same index.
#[verifier::external_body]
fn pick_one<T: Copy>(items: &Vec<T>, rng: &mut SeededRng) -> (r: Option<T>)
    ensures
        final(rng).seed() == old(rng).seed(),
        final(rng).draws() == old(rng).draws().push(items@.len()),
        items@.len() == 0 ==> r is None,
        items@.len() > 0 ==> chacha_pick(old(rng).seed(), old(rng).draws(), items@.len()) < items@.len()
            && r == Some(items@[chacha_pick(old(rng).seed(), old(rng).draws(), items@.len()) as int]),
{
    let r = items.as_slice().choose(&mut rng.rng).copied();
    rng.draws = Ghost(rng.draws@.push(items@.len()));
    r
}

// Half-size of robot in cells (0.5m / 0.05m = 10, half = 5)
const ROBOT_HALF: usize = 5;

// Passage grid: 120x120 logical cells.
// Logical cell (pc, pr) maps to grid column pc*2, row pr*2.
// Walls between cells sit at odd indices.
const PCOLS: usize = 120;
const PROWS: usize = 120;

/// Logical cells the depth-first search may visit: all but the outer ring.
spec fn inner(pc: int, pr: int) -> bool {
    1 <= pc <= PCOLS - 2 && 1 <= pr <= PROWS - 2
}

/// Logical cell `(pc, pr)` is marked in `v` (indexed `v[pr][pc]`).
spec fn vis(v: Seq<Vec<bool>>, pc: int, pr: int) -> bool {
    0 <= pc < PCOLS && 0 <= pr < PROWS && v[pr]@[pc]
}

/// Grid cell at column `c`, row `r`.
spec fn cell_at(g: Seq<Vec<CellType>>, c: int, r: int) -> CellType {
    g[r]@[c]
}

/// The unvisited inner neighbours of `(pc, pr)`, in the order left, right, up, down.
spec fn spec_unvisited_neighbors(pc: int, pr: int, v: Seq<Vec<bool>>) -> Seq<(usize, usize)> {
    let s1 = if pc > 1 && !vis(v, pc - 1, pr) {
        seq![((pc - 1) as usize, pr as usize)]
    } else {
        Seq::empty()
    };
    let s2 = if pc + 1 < PCOLS - 1 && !vis(v, pc + 1, pr) {
        s1.push(((pc + 1) as usize, pr as usize))
    } else {
        s1
    };
    let s3 = if pr > 1 && !vis(v, pc, pr - 1) {
        s2.push((pc as usize, (pr - 1) as usize))
    } else {
        s2
    };
    if pr + 1 < PROWS - 1 && !vis(v, pc, pr + 1) {
        s3.push((pc as usize, (pr + 1) as usize))
    } else {
        s3
    }
}

/// Every inner neighbour of `(pc, pr)` is marked.
spec fn neighbors_visited(v: Seq<Vec<bool>>, pc: int, pr: int) -> bool {
    &&& inner(pc - 1, pr) ==> vis(v, pc - 1, pr)
    &&& inner(pc + 1, pr) ==> vis(v, pc + 1, pr)
    &&& inner(pc, pr - 1) ==> vis(v, pc, pr - 1)
    &&& inner(pc, pr + 1) ==> vis(v, pc, pr + 1)
}

/// A step between adjacent logical cells through an open connector.
spec fn lstep(g: Seq<Vec<CellType>>, a: (int, int), b: (int, int)) -> bool {
    adjacent(a, b) && cell_at(g, a.0 + b.0, a.1 + b.1) == CellType::Passage
}

/// A walk over inner logical cells from the centre cell through open connectors.
spec fn logical_route(g: Seq<Vec<CellType>>, route: Seq<(int, int)>) -> bool {
    &&& route.len() >= 1
    &&& route[0] == (60int, 60int)
    &&& forall|i: int| 0 <= i < route.len() ==> inner((#[trigger] route[i]).0, route[i].1)
    &&& forall|i: int| 0 <= i < route.len() - 1 ==> #[trigger] lstep(g, route[i], route[i + 1])
}

/// Grid cell `(c, r)` is a connector between two marked logical cells.
spec fn carved(v: Seq<Vec<bool>>, c: int, r: int) -> bool {
    ||| c % 2 == 1 && r % 2 == 0 && vis(v, (c - 1) / 2, r / 2) && vis(v, (c + 1) / 2, r / 2)
    ||| c % 2 == 0 && r % 2 == 1 && vis(v, c / 2, (r - 1) / 2) && vis(v, c / 2, (r + 1) / 2)
}

/// Every passage of `g1` is still a passage of `g2`.
spec fn grows(g1: Seq<Vec<CellType>>, g2: Seq<Vec<CellType>>) -> bool {
    forall|c: int, r: int|
        in_grid(c, r) && cell_at(g1, c, r) == CellType::Passage ==> #[trigger] cell_at(g2, c, r)
            == CellType::Passage
}

/// Marked cells: the centre cell, and inner cells only.
spec fn inv_marks(v: Seq<Vec<bool>>) -> bool {
    &&& square(v, PCOLS as int)
    &&& vis(v, 60, 60)
    &&& forall|pc: int, pr: int| #[trigger] vis(v, pc, pr) ==> inner(pc, pr)
}

/// The stack holds marked inner cells.
spec fn inv_stack(v: Seq<Vec<bool>>, stack: Seq<(usize, usize)>) -> bool {
    forall|i: int|
        0 <= i < stack.len() ==> inner((#[trigger] stack[i]).0 as int, stack[i].1 as int) && vis(
            v,
            stack[i].0 as int,
            stack[i].1 as int,
        )
}

/// A marked cell that has left the stack has no unmarked neighbour.
spec fn inv_closed(v: Seq<Vec<bool>>, stack: Seq<(usize, usize)>) -> bool {
    forall|pc: int, pr: int|
        vis(v, pc, pr) && !stack.contains((pc as usize, pr as usize))
            ==> #[trigger] neighbors_visited(v, pc, pr)
}

/// `vs` holds the index `pr * 120 + pc` of each marked cell and nothing else.
spec fn inv_count(v: Seq<Vec<bool>>, vs: Set<int>) -> bool {
    &&& vs.finite()
    &&& forall|i: int| #[trigger] vs.contains(i) ==> 0 <= i < PCOLS * PROWS
    &&& forall|pc: int, pr: int|
        0 <= pc < PCOLS && 0 <= pr < PROWS ==> (#[trigger] vis(v, pc, pr) <==> vs.contains(
            pr * 120 + pc,
        ))
}

/// Each marked cell is reached from the centre through open connectors.
spec fn inv_routes(
    g: Seq<Vec<CellType>>,
    v: Seq<Vec<bool>>,
    routes: Map<(int, int), Seq<(int, int)>>,
) -> bool {
    forall|pc: int, pr: int| #[trigger]
        vis(v, pc, pr) ==> {
            &&& routes.contains_key((pc, pr))
            &&& logical_route(g, routes[(pc, pr)])
            &&& routes[(pc, pr)].last() == (pc, pr)
        }
}

/// The only passages are connectors between marked cells.
spec fn inv_passages(g: Seq<Vec<CellType>>, v: Seq<Vec<bool>>) -> bool {
    forall|c: int, r: int|
        in_grid(c, r) && #[trigger] cell_at(g, c, r) == CellType::Passage ==> carved(v, c, r)
}

/// Logical cell `x` has indices below 120.
spec fn in_lrange(x: (int, int)) -> bool {
    0 <= x.0 < PCOLS && 0 <= x.1 < PROWS
}

/// Each marked cell but the centre has a marked, adjacent parent of smaller
/// depth behind an open connector, and every open connector between logical
/// cells is such a link.
spec fn inv_tree(
    g: Seq<Vec<CellType>>,
    v: Seq<Vec<bool>>,
    parent: Map<(int, int), (int, int)>,
    depth: Map<(int, int), nat>,
) -> bool {
    tree_parents(g, v, parent, depth) && tree_connectors(g, parent)
}

/// The parent-link half of `inv_tree`.
spec fn tree_parents(
    g: Seq<Vec<CellType>>,
    v: Seq<Vec<bool>>,
    parent: Map<(int, int), (int, int)>,
    depth: Map<(int, int), nat>,
) -> bool {
    forall|pc: int, pr: int|
        #[trigger] vis(v, pc, pr) && (pc, pr) != (60int, 60int) ==> {
            let p = parent[(pc, pr)];
            &&& vis(v, p.0, p.1)
            &&& adjacent(p, (pc, pr))
            &&& depth[p] < depth[(pc, pr)]
            &&& cell_at(g, p.0 + pc, p.1 + pr) == CellType::Passage
        }
}

/// The open-connector half of `inv_tree`.
spec fn tree_connectors(g: Seq<Vec<CellType>>, parent: Map<(int, int), (int, int)>) -> bool {
    forall|a: (int, int), b: (int, int)|
        #[trigger] adjacent(a, b) && in_lrange(a) && in_lrange(b) && cell_at(g, a.0 + b.0, a.1 + b.1)
            == CellType::Passage ==> tree_link(parent, a, b)
}

proof fn lemma_push_tree_parents(
    g: Seq<Vec<CellType>>,
    g2: Seq<Vec<CellType>>,
    v: Seq<Vec<bool>>,
    v2: Seq<Vec<bool>>,
    parent: Map<(int, int), (int, int)>,
    depth: Map<(int, int), nat>,
    pc: int,
    pr: int,
    nc: int,
    nr: int,
)
    requires
        tree_parents(g, v, parent, depth),
        inv_marks(v),
        vis(v, pc, pr),
        inner(nc, nr),
        !vis(v, nc, nr),
        adjacent((pc, pr), (nc, nr)),
        marks_one(v, v2, nc, nr),
        opens_one(g, g2, pc + nc, pr + nr),
    ensures
        tree_parents(
            g2,
            v2,
            parent.insert((nc, nr), (pc, pr)),
            depth.insert((nc, nr), depth[(pc, pr)] + 1),
        ),
{
    let parent2 = parent.insert((nc, nr), (pc, pr));
    let depth2 = depth.insert((nc, nr), depth[(pc, pr)] + 1);
    assert((nc, nr) != (60int, 60int));
    assert forall|x: int, y: int| #[trigger] vis(v2, x, y) && (x, y) != (60int, 60int) implies {
        let p = parent2[(x, y)];
        &&& vis(v2, p.0, p.1)
        &&& adjacent(p, (x, y))
        &&& depth2[p] < depth2[(x, y)]
        &&& cell_at(g2, p.0 + x, p.1 + y) == CellType::Passage
    } by {
        if (x, y) == (nc, nr) {
            assert(in_grid(pc + nc, pr + nr));
        } else {
            assert(vis(v, x, y));
            let p = parent[(x, y)];
            assert(vis(v, p.0, p.1));
            assert(inner(p.0, p.1) && inner(x, y));
            assert(in_grid(p.0 + x, p.1 + y));
            assert(p != (nc, nr));
        }
    }
}

proof fn lemma_push_tree_connectors(
    g: Seq<Vec<CellType>>,
    g2: Seq<Vec<CellType>>,
    v: Seq<Vec<bool>>,
    parent: Map<(int, int), (int, int)>,
    pc: int,
    pr: int,
    nc: int,
    nr: int,
)
    requires
        tree_connectors(g, parent),
        inv_passages(g, v),
        inv_marks(v),
        vis(v, pc, pr),
        inner(nc, nr),
        !vis(v, nc, nr),
        adjacent((pc, pr), (nc, nr)),
        opens_one(g, g2, pc + nc, pr + nr),
    ensures
        tree_connectors(g2, parent.insert((nc, nr), (pc, pr))),
{
    let parent2 = parent.insert((nc, nr), (pc, pr));
    assert((nc, nr) != (60int, 60int));
    assert forall|a: (int, int), b: (int, int)|
        #[trigger] adjacent(a, b) && in_lrange(a) && in_lrange(b) && cell_at(g2, a.0 + b.0, a.1 + b.1)
            == CellType::Passage implies tree_link(parent2, a, b) by {
        assert(in_grid(a.0 + b.0, a.1 + b.1));
        if a.0 + b.0 == pc + nc && a.1 + b.1 == pr + nr {
            assert((a == (pc, pr) && b == (nc, nr)) || (a == (nc, nr) && b == (pc, pr)));
        } else {
            assert(cell_at(g, a.0 + b.0, a.1 + b.1) == CellType::Passage);
            assert(tree_link(parent, a, b));
            assert(carved(v, a.0 + b.0, a.1 + b.1));
            assert(vis(v, a.0, a.1) && vis(v, b.0, b.1));
        }
    }
}

/// What holds between two steps of the depth-first search.
spec fn dfs_inv(
    g: Seq<Vec<CellType>>,
    v: Seq<Vec<bool>>,
    stack: Seq<(usize, usize)>,
    vs: Set<int>,
    routes: Map<(int, int), Seq<(int, int)>>,
) -> bool {
    &&& square(g, GRID_SIZE as int)
    &&& inv_marks(v)
    &&& inv_stack(v, stack)
    &&& inv_closed(v, stack)
    &&& inv_count(v, vs)
    &&& inv_routes(g, v, routes)
    &&& inv_passages(g, v)
}

/// `v2` is `v` with logical cell `(nc, nr)` marked.
spec fn marks_one(v: Seq<Vec<bool>>, v2: Seq<Vec<bool>>, nc: int, nr: int) -> bool {
    &&& square(v2, PCOLS as int)
    &&& forall|pc: int, pr: int| #[trigger] vis(v2, pc, pr) == (vis(v, pc, pr) || (pc == nc && pr == nr))
}

/// `g2` is `g` with grid cell `(c0, r0)` opened.
spec fn opens_one(g: Seq<Vec<CellType>>, g2: Seq<Vec<CellType>>, c0: int, r0: int) -> bool {
    &&& square(g2, GRID_SIZE as int)
    &&& forall|c: int, r: int|
        in_grid(c, r) ==> #[trigger] cell_at(g2, c, r) == if c == c0 && r == r0 {
            CellType::Passage
        } else {
            cell_at(g, c, r)
        }
}

proof fn lemma_unvisited_neighbors(pc: int, pr: int, v: Seq<Vec<bool>>)
    requires
        inner(pc, pr),
    ensures
        spec_unvisited_neighbors(pc, pr, v).len() == 0 ==> neighbors_visited(v, pc, pr),
        forall|i: int|
            0 <= i < spec_unvisited_neighbors(pc, pr, v).len() ==> {
                let n = #[trigger] spec_unvisited_neighbors(pc, pr, v)[i];
                &&& inner(n.0 as int, n.1 as int)
                &&& !vis(v, n.0 as int, n.1 as int)
                &&& adjacent((pc, pr), (n.0 as int, n.1 as int))
            },
{
}

/// A route over `g` stays a route once more passages are opened.
proof fn lemma_route_grows(g1: Seq<Vec<CellType>>, g2: Seq<Vec<CellType>>, route: Seq<(int, int)>)
    requires
        logical_route(g1, route),
        grows(g1, g2),
    ensures
        logical_route(g2, route),
{
    assert forall|i: int| 0 <= i < route.len() - 1 implies #[trigger] lstep(g2, route[i], route[i + 1]) by {
        assert(lstep(g1, route[i], route[i + 1]));
        assert(inner(route[i].0, route[i].1));
        assert(inner(route[i + 1].0, route[i + 1].1));
        assert(in_grid(route[i].0 + route[i + 1].0, route[i].1 + route[i + 1].1));
    }
}

/// Popping a cell without unmarked neighbours keeps the invariant.
proof fn lemma_dfs_pop(
    g: Seq<Vec<CellType>>,
    v: Seq<Vec<bool>>,
    stack: Seq<(usize, usize)>,
    vs: Set<int>,
    routes: Map<(int, int), Seq<(int, int)>>,
)
    requires
        dfs_inv(g, v, stack, vs, routes),
        stack.len() > 0,
        neighbors_visited(v, stack.last().0 as int, stack.last().1 as int),
    ensures
        dfs_inv(g, v, stack.drop_last(), vs, routes),
{
    let s2 = stack.drop_last();
    assert forall|pc: int, pr: int|
        vis(v, pc, pr) && !s2.contains((pc as usize, pr as usize)) implies #[trigger] neighbors_visited(
        v,
        pc,
        pr,
    ) by {
        if stack.contains((pc as usize, pr as usize)) {
            let k = choose|k: int| 0 <= k < stack.len() && stack[k] == (pc as usize, pr as usize);
            if k < stack.len() - 1 {
                assert(s2[k] == stack[k]);
            }
            assert(inner(stack[k].0 as int, stack[k].1 as int));
        }
    }
    assert forall|i: int| 0 <= i < s2.len() implies inner((#[trigger] s2[i]).0 as int, s2[i].1 as int) && vis(
        v,
        s2[i].0 as int,
        s2[i].1 as int,
    ) by {
        assert(s2[i] == stack[i]);
    }
}

proof fn lemma_push_stack(v: Seq<Vec<bool>>, v2: Seq<Vec<bool>>, stack: Seq<(usize, usize)>, nc: int, nr: int)
    requires
        inv_stack(v, stack),
        marks_one(v, v2, nc, nr),
        inner(nc, nr),
    ensures
        inv_stack(v2, stack.push((nc as usize, nr as usize))),
{
    let s2 = stack.push((nc as usize, nr as usize));
    assert forall|i: int| 0 <= i < s2.len() implies inner((#[trigger] s2[i]).0 as int, s2[i].1 as int) && vis(
        v2,
        s2[i].0 as int,
        s2[i].1 as int,
    ) by {
        if i < stack.len() {
            assert(s2[i] == stack[i]);
        }
    }
}

proof fn lemma_push_closed(v: Seq<Vec<bool>>, v2: Seq<Vec<bool>>, stack: Seq<(usize, usize)>, nc: int, nr: int)
    requires
        inv_closed(v, stack),
        marks_one(v, v2, nc, nr),
        0 <= nc < PCOLS,
        0 <= nr < PROWS,
    ensures
        inv_closed(v2, stack.push((nc as usize, nr as usize))),
{
    let s2 = stack.push((nc as usize, nr as usize));
    assert forall|x: int, y: int|
        vis(v2, x, y) && !s2.contains((x as usize, y as usize)) implies #[trigger] neighbors_visited(
        v2,
        x,
        y,
    ) by {
        assert(s2[s2.len() - 1] == (nc as usize, nr as usize));
        if stack.contains((x as usize, y as usize)) {
            let k = choose|k: int| 0 <= k < stack.len() && stack[k] == (x as usize, y as usize);
            assert(s2[k] == stack[k]);
        }
        assert(vis(v, x, y));
        assert(neighbors_visited(v, x, y));
    }
}

proof fn lemma_push_count(v: Seq<Vec<bool>>, v2: Seq<Vec<bool>>, vs: Set<int>, nc: int, nr: int)
    requires
        inv_count(v, vs),
        marks_one(v, v2, nc, nr),
        0 <= nc < PCOLS,
        0 <= nr < PROWS,
        !vis(v, nc, nr),
    ensures
        inv_count(v2, vs.insert(nr * 120 + nc)),
        vs.insert(nr * 120 + nc).len() == vs.len() + 1,
{
    let vs2 = vs.insert(nr * 120 + nc);
    assert(!vs.contains(nr * 120 + nc));
    assert forall|x: int, y: int|
        0 <= x < PCOLS && 0 <= y < PROWS implies (#[trigger] vis(v2, x, y) <==> vs2.contains(
        y * 120 + x,
    )) by {
        assert(vis(v, x, y) <==> vs.contains(y * 120 + x));
    }
}

proof fn lemma_push_routes(
    g: Seq<Vec<CellType>>,
    g2: Seq<Vec<CellType>>,
    v: Seq<Vec<bool>>,
    v2: Seq<Vec<bool>>,
    routes: Map<(int, int), Seq<(int, int)>>,
    pc: int,
    pr: int,
    nc: int,
    nr: int,
)
    requires
        inv_routes(g, v, routes),
        vis(v, pc, pr),
        inner(nc, nr),
        adjacent((pc, pr), (nc, nr)),
        marks_one(v, v2, nc, nr),
        opens_one(g, g2, pc + nc, pr + nr),
    ensures
        inv_routes(g2, v2, routes.insert((nc, nr), routes[(pc, pr)].push((nc, nr)))),
{
    let route = routes[(pc, pr)].push((nc, nr));
    let routes2 = routes.insert((nc, nr), route);
    assert(grows(g, g2));
    let old_r = routes[(pc, pr)];
    assert(logical_route(g, old_r));
    lemma_route_grows(g, g2, old_r);
    assert(lstep(g2, (pc, pr), (nc, nr)));
    assert(logical_route(g2, route)) by {
        assert(old_r.last() == (pc, pr));
        assert forall|i: int| 0 <= i < route.len() - 1 implies #[trigger] lstep(g2, route[i], route[i + 1]) by {
            if i < route.len() - 2 {
                assert(route[i] == old_r[i]);
                assert(route[i + 1] == old_r[i + 1]);
            } else {
                assert(route[i] == old_r[old_r.len() - 1]);
            }
        }
        assert forall|i: int| 0 <= i < route.len() implies inner((#[trigger] route[i]).0, route[i].1) by {
            if i < route.len() - 1 {
                assert(route[i] == old_r[i]);
            }
        }
    }
    assert forall|x: int, y: int| #[trigger]
        vis(v2, x, y) implies {
            &&& routes2.contains_key((x, y))
            &&& logical_route(g2, routes2[(x, y)])
            &&& routes2[(x, y)].last() == (x, y)
        } by {
        if x == nc && y == nr {
        } else {
            assert(vis(v, x, y));
            lemma_route_grows(g, g2, routes[(x, y)]);
        }
    }
}

proof fn lemma_push_passages(
    g: Seq<Vec<CellType>>,
    g2: Seq<Vec<CellType>>,
    v: Seq<Vec<bool>>,
    v2: Seq<Vec<bool>>,
    pc: int,
    pr: int,
    nc: int,
    nr: int,
)
    requires
        inv_passages(g, v),
        vis(v, pc, pr),
        adjacent((pc, pr), (nc, nr)),
        marks_one(v, v2, nc, nr),
        opens_one(g, g2, pc + nc, pr + nr),
    ensures
        inv_passages(g2, v2),
{
    assert forall|c: int, r: int|
        in_grid(c, r) && #[trigger] cell_at(g2, c, r) == CellType::Passage implies carved(v2, c, r) by {
        if c == pc + nc && r == pr + nr {
        } else {
            assert(carved(v, c, r));
        }
    }
}

/// Marking an unvisited neighbour of the top cell, opening the connector between
/// them and pushing it keeps the invariant, and adds one cell to `vs`.
proof fn lemma_dfs_push(
    g: Seq<Vec<CellType>>,
    v: Seq<Vec<bool>>,
    stack: Seq<(usize, usize)>,
    vs: Set<int>,
    routes: Map<(int, int), Seq<(int, int)>>,
    nc: int,
    nr: int,
    g2: Seq<Vec<CellType>>,
    v2: Seq<Vec<bool>>,
)
    requires
        dfs_inv(g, v, stack, vs, routes),
        stack.len() > 0,
        inner(nc, nr),
        !vis(v, nc, nr),
        adjacent((stack.last().0 as int, stack.last().1 as int), (nc, nr)),
        opens_one(g, g2, stack.last().0 + nc, stack.last().1 + nr),
        marks_one(v, v2, nc, nr),
    ensures
        dfs_inv(
            g2,
            v2,
            stack.push((nc as usize, nr as usize)),
            vs.insert(nr * 120 + nc),
            routes.insert((nc, nr), routes[(stack.last().0 as int, stack.last().1 as int)].push((nc, nr))),
        ),
        vs.insert(nr * 120 + nc).len() == vs.len() + 1,
{
    let pc = stack.last().0 as int;
    let pr = stack.last().1 as int;
    assert(inner(pc, pr) && vis(v, pc, pr)) by {
        assert(stack.last() == stack[stack.len() - 1]);
    }
    lemma_push_stack(v, v2, stack, nc, nr);
    lemma_push_closed(v, v2, stack, nc, nr);
    lemma_push_count(v, v2, vs, nc, nr);
    lemma_push_routes(g, g2, v, v2, routes, pc, pr, nc, nr);
    lemma_push_passages(g, g2, v, v2, pc, pr, nc, nr);
    assert(inv_marks(v2));
}

/// At most `PCOLS * PROWS` cells are counted.
proof fn lemma_count_bound(v: Seq<Vec<bool>>, vs: Set<int>)
    requires
        inv_count(v, vs),
    ensures
        vs.len() <= PCOLS * PROWS,
{
    lemma_int_range(0, PCOLS * PROWS);
    assert(vs.subset_of(set_int_range(0, PCOLS * PROWS)));
    lemma_len_subset(vs, set_int_range(0, PCOLS * PROWS));
}

/// Every marked cell has all its inner neighbours marked.
spec fn closed_all(v: Seq<Vec<bool>>) -> bool {
    forall|pc: int, pr: int| vis(v, pc, pr) ==> #[trigger] neighbors_visited(v, pc, pr)
}

proof fn lemma_marked_column(v: Seq<Vec<bool>>, pr: int)
    requires
        closed_all(v),
        vis(v, 60, 60),
        1 <= pr <= PROWS - 2,
    ensures
        vis(v, 60, pr),
    decreases
            if pr >= 60 {
                pr - 60
            } else {
                60 - pr
            },
{
    if pr > 60 {
        lemma_marked_column(v, pr - 1);
        assert(neighbors_visited(v, 60, pr - 1));
    } else if pr < 60 {
        lemma_marked_column(v, pr + 1);
        assert(neighbors_visited(v, 60, pr + 1));
    }
}

proof fn lemma_marked_row(v: Seq<Vec<bool>>, pc: int, pr: int)
    requires
        closed_all(v),
        vis(v, 60, 60),
        inner(pc, pr),
    ensures
        vis(v, pc, pr),
    decreases
            if pc >= 60 {
                pc - 60
            } else {
                60 - pc
            },
{
    if pc > 60 {
        lemma_marked_row(v, pc - 1, pr);
        assert(neighbors_visited(v, pc - 1, pr));
    } else if pc < 60 {
        lemma_marked_row(v, pc + 1, pr);
        assert(neighbors_visited(v, pc + 1, pr));
    } else {
        lemma_marked_column(v, pr);
    }
}

/// A closed set of marked cells that holds the centre holds every inner cell:
/// the grid of inner cells is connected.
proof fn lemma_all_inner_marked(v: Seq<Vec<bool>>)
    requires
        closed_all(v),
        vis(v, 60, 60),
    ensures
        forall|pc: int, pr: int| inner(pc, pr) ==> #[trigger] vis(v, pc, pr),
{
    assert forall|pc: int, pr: int| inner(pc, pr) implies #[trigger] vis(v, pc, pr) by {
        lemma_marked_row(v, pc, pr);
    }
}

/// The physical walk along a logical route: each logical cell, with the
/// connector before it.
spec fn expand(route: Seq<(int, int)>) -> Seq<(int, int)>
    decreases route.len(),
{
    if route.len() <= 1 {
        seq![(2 * route[0].0, 2 * route[0].1)]
    } else {
        let prev = route.drop_last();
        let a = prev.last();
        let b = route.last();
        expand(prev).push((a.0 + b.0, a.1 + b.1)).push((2 * b.0, 2 * b.1))
    }
}

/// The grid cell of logical cell `(pc, pr)` is open.
spec fn logical_open(g: Seq<Vec<CellType>>, pc: int, pr: int) -> bool {
    cell_at(g, 2 * pc, 2 * pr) == CellType::Passage
}

proof fn lemma_path_push(m: Maze, p: Seq<(int, int)>, x: (int, int))
    requires
        m.passage_path(p),
        m.is_passage(x),
        adjacent(p.last(), x),
    ensures
        m.passage_path(p.push(x)),
        p.push(x)[0] == p[0],
        p.push(x).last() == x,
{
    let q = p.push(x);
    assert forall|i: int| 0 <= i < q.len() implies m.is_passage(#[trigger] q[i]) by {
        if i < p.len() {
            assert(q[i] == p[i]);
        }
    }
    assert forall|i: int| 0 <= i < q.len() - 1 implies #[trigger] adjacent(q[i], q[i + 1]) by {
        if i < p.len() - 1 {
            assert(q[i] == p[i] && q[i + 1] == p[i + 1]);
        } else {
            assert(q[i] == p.last());
        }
    }
}

/// A logical route over open logical cells is a walk through passages.
proof fn lemma_expand(m: Maze, route: Seq<(int, int)>)
    requires
        m.wf(),
        logical_route(m.grid@, route),
        forall|pc: int, pr: int| inner(pc, pr) ==> #[trigger] logical_open(m.grid@, pc, pr),
    ensures
        m.passage_path(expand(route)),
        expand(route)[0] == (120int, 120int),
        expand(route).last() == (2 * route.last().0, 2 * route.last().1),
    decreases route.len(),
{
    let g = m.grid@;
    if route.len() == 1 {
        assert(inner(route[0].0, route[0].1));
        assert(logical_open(g, route[0].0, route[0].1));
        let p = expand(route);
        assert(p.len() == 1);
        assert(m.is_passage(p[0]));
    } else {
        let prev = route.drop_last();
        assert(logical_route(g, prev)) by {
            assert forall|i: int| 0 <= i < prev.len() implies inner((#[trigger] prev[i]).0, prev[i].1) by {
                assert(prev[i] == route[i]);
            }
            assert forall|i: int| 0 <= i < prev.len() - 1 implies #[trigger] lstep(g, prev[i], prev[i + 1]) by {
                assert(prev[i] == route[i] && prev[i + 1] == route[i + 1]);
            }
        }
        lemma_expand(m, prev);
        let a = prev.last();
        let b = route.last();
        let n = route.len();
        let j = n - 2;
        assert(lstep(g, route[j], route[j + 1]));
        assert(a == route[j] && b == route[j + 1]);
        assert(inner(a.0, a.1) && inner(b.0, b.1));
        assert(logical_open(g, b.0, b.1));
        let conn = (a.0 + b.0, a.1 + b.1);
        lemma_path_push(m, expand(prev), conn);
        lemma_path_push(m, expand(prev).push(conn), (2 * b.0, 2 * b.1));
    }
}

/// A walk through passages from the centre to a marked logical cell.
proof fn lemma_reach_logical(
    m: Maze,
    v: Seq<Vec<bool>>,
    routes: Map<(int, int), Seq<(int, int)>>,
    g_dfs: Seq<Vec<CellType>>,
    pc: int,
    pr: int,
) -> (p: Seq<(int, int)>)
    requires
        m.wf(),
        inv_routes(g_dfs, v, routes),
        grows(g_dfs, m.grid@),
        forall|x: int, y: int| inner(x, y) ==> #[trigger] logical_open(m.grid@, x, y),
        vis(v, pc, pr),
    ensures
        m.passage_path(p),
        p[0] == (120int, 120int),
        p.last() == (2 * pc, 2 * pr),
{
    let route = routes[(pc, pr)];
    lemma_route_grows(g_dfs, m.grid@, route);
    lemma_expand(m, route);
    expand(route)
}

/// Every passage of `g` is the goal, its connector, a carved connector or a
/// marked logical cell.
spec fn classified(g: Seq<Vec<CellType>>, v: Seq<Vec<bool>>, goal: (int, int), conn: (int, int)) -> bool {
    forall|c: int, r: int|
        in_grid(c, r) && #[trigger] cell_at(g, c, r) == CellType::Passage ==> (c, r) == goal || (c, r)
            == conn || carved(v, c, r) || (c % 2 == 0 && r % 2 == 0 && vis(v, c / 2, r / 2))
}

/// What the steps of `generate` leave behind.
spec fn built(
    m: Maze,
    v: Seq<Vec<bool>>,
    routes: Map<(int, int), Seq<(int, int)>>,
    g_dfs: Seq<Vec<CellType>>,
    g_marked: Seq<Vec<CellType>>,
) -> bool {
    &&& m.wf()
    &&& m.start == (GridPos { col: 120, row: 120 })
    &&& square(g_dfs, GRID_SIZE as int)
    &&& square(g_marked, GRID_SIZE as int)
    &&& inv_marks(v)
    &&& (forall|pc: int, pr: int| inner(pc, pr) ==> #[trigger] vis(v, pc, pr))
    &&& inv_routes(g_dfs, v, routes)
    &&& inv_passages(g_dfs, v)
    &&& grows(g_dfs, g_marked)
    &&& (forall|c: int, r: int|
        in_grid(c, r) && #[trigger] cell_at(g_marked, c, r) == CellType::Passage ==> cell_at(
            g_dfs,
            c,
            r,
        ) == CellType::Passage || (c % 2 == 0 && r % 2 == 0 && vis(v, c / 2, r / 2)))
    &&& (forall|pc: int, pr: int|
        #[trigger] vis(v, pc, pr) ==> cell_at(g_marked, 2 * pc, 2 * pr) == CellType::Passage)
    &&& MazeGenerator::goal_candidates().contains(m.goal)
    &&& (forall|c: int, r: int|
        in_grid(c, r) ==> #[trigger] cell_at(m.grid@, c, r) == if (c == m.goal.col && r
            == m.goal.row) || (c, r) == goal_opening(m.goal) {
            CellType::Passage
        } else {
            cell_at(g_marked, c, r)
        })
    &&& (m.blind_goal == (GridPos { col: 2, row: 2 }) || (is_logical_cell(
        m.blind_goal.col as int,
        m.blind_goal.row as int,
    ) && m.blind_goal != m.start))
}

/// The goal candidate's index among the candidates, and the logical cell its connector leads to.
proof fn lemma_goal_shape(goal: GridPos) -> (a: (int, int))
    requires
        MazeGenerator::goal_candidates().contains(goal),
    ensures
        is_goal_cell(goal.col as int, goal.row as int),
        inner(a.0, a.1),
        goal.col == 0 ==> goal_opening(goal) == (2 * a.0 - 1, 2 * a.1) && goal.row == 2 * a.1,
        goal.col != 0 ==> goal_opening(goal) == (2 * a.0, 2 * a.1 - 1) && goal.row == 0 && goal.col == 2 * a.0,
{
    let k = choose|k: int| 0 <= k < 236 && MazeGenerator::goal_candidates()[k] == goal;
    assert(MazeGenerator::goal_candidates()[k] == goal);
    if k < 118 {
        (1, k + 1)
    } else {
        (k - 117, 1)
    }
}

proof fn lemma_fm_classify(
    m: Maze,
    v: Seq<Vec<bool>>,
    routes: Map<(int, int), Seq<(int, int)>>,
    g_dfs: Seq<Vec<CellType>>,
    g_marked: Seq<Vec<CellType>>,
)
    requires
        built(m, v, routes, g_dfs, g_marked),
    ensures
        grows(g_dfs, m.grid@),
        forall|x: int, y: int| inner(x, y) ==> #[trigger] logical_open(m.grid@, x, y),
        classified(
            m.grid@,
            v,
            (m.goal.col as int, m.goal.row as int),
            goal_opening(m.goal),
        ),
{
    let g = m.grid@;
    let goal = m.goal;
    let conn = goal_opening(goal);
    assert(grows(g_dfs, g)) by {
        assert forall|c: int, r: int|
            in_grid(c, r) && cell_at(g_dfs, c, r) == CellType::Passage implies #[trigger] cell_at(g, c, r)
                == CellType::Passage by {
            assert(cell_at(g_marked, c, r) == CellType::Passage);
        }
    }
    assert forall|x: int, y: int| inner(x, y) implies #[trigger] logical_open(g, x, y) by {
        assert(vis(v, x, y));
        assert(in_grid(2 * x, 2 * y));
        assert(cell_at(g_marked, 2 * x, 2 * y) == CellType::Passage);
    }
    assert forall|c: int, r: int|
        in_grid(c, r) && #[trigger] cell_at(g, c, r) == CellType::Passage implies (c, r) == (
        goal.col as int,
        goal.row as int,
    ) || (c, r) == conn || carved(v, c, r) || (c % 2 == 0 && r % 2 == 0 && vis(v, c / 2, r / 2)) by {
        if !((c == goal.col && r == goal.row) || (c, r) == conn) {
            assert(cell_at(g_marked, c, r) == CellType::Passage);
            if cell_at(g_dfs, c, r) == CellType::Passage {
                assert(carved(v, c, r));
            }
        }
    }
}

proof fn lemma_fm_walls(m: Maze, v: Seq<Vec<bool>>)
    requires
        m.wf(),
        inv_marks(v),
        MazeGenerator::goal_candidates().contains(m.goal),
        classified(
            m.grid@,
            v,
            (m.goal.col as int, m.goal.row as int),
            goal_opening(m.goal),
        ),
    ensures
        forall|c: int, r: int|
            in_grid(c, r) && on_border(c, r) && !(c == m.goal.col && r == m.goal.row) ==> #[trigger] m.cell(
                c,
                r,
            ) == CellType::Wall,
        forall|c: int, r: int|
            in_grid(c, r) && c % 2 == 1 && r % 2 == 1 ==> #[trigger] m.cell(c, r) == CellType::Wall,
        forall|c: int, r: int|
            #[trigger] m.is_passage((c, r)) ==> is_logical_cell(c, r) || is_inner_connector(c, r) || (c
                == m.goal.col && r == m.goal.row) || (c, r) == goal_opening(m.goal),
{
    let g = m.grid@;
    let goal = m.goal;
    let conn = goal_opening(goal);
    let a = lemma_goal_shape(goal);
    assert forall|c: int, r: int|
        in_grid(c, r) && on_border(c, r) && !(c == goal.col && r == goal.row) implies #[trigger] m.cell(c, r)
            == CellType::Wall by {
        if cell_at(g, c, r) == CellType::Passage {
            if carved(v, c, r) {
            } else if (c, r) == conn {
            } else {
                assert(vis(v, c / 2, r / 2));
            }
        }
    }
    assert forall|c: int, r: int|
        in_grid(c, r) && c % 2 == 1 && r % 2 == 1 implies #[trigger] m.cell(c, r) == CellType::Wall by {
        if cell_at(g, c, r) == CellType::Passage {
            assert(carved(v, c, r) || (c, r) == conn || (c == goal.col && r == goal.row));
        }
    }
    assert forall|c: int, r: int| #[trigger] m.is_passage((c, r)) implies is_logical_cell(c, r)
        || is_inner_connector(c, r) || (c == goal.col && r == goal.row) || (c, r) == conn by {
        assert(cell_at(g, c, r) == CellType::Passage);
        if carved(v, c, r) {
            if c % 2 == 1 {
                assert(inner((c - 1) / 2, r / 2) && inner((c + 1) / 2, r / 2));
            } else {
                assert(inner(c / 2, (r - 1) / 2) && inner(c / 2, (r + 1) / 2));
            }
        } else if c % 2 == 0 && r % 2 == 0 && vis(v, c / 2, r / 2) {
            assert(inner(c / 2, r / 2));
        }
    }
}

proof fn lemma_fm_reach(
    m: Maze,
    v: Seq<Vec<bool>>,
    routes: Map<(int, int), Seq<(int, int)>>,
    g_dfs: Seq<Vec<CellType>>,
)
    requires
        m.wf(),
        inv_marks(v),
        forall|pc: int, pr: int| inner(pc, pr) ==> #[trigger] vis(v, pc, pr),
        inv_routes(g_dfs, v, routes),
        grows(g_dfs, m.grid@),
        forall|x: int, y: int| inner(x, y) ==> #[trigger] logical_open(m.grid@, x, y),
        MazeGenerator::goal_candidates().contains(m.goal),
        m.is_passage((m.goal.col as int, m.goal.row as int)),
        m.is_passage(goal_opening(m.goal)),
        classified(
            m.grid@,
            v,
            (m.goal.col as int, m.goal.row as int),
            goal_opening(m.goal),
        ),
    ensures
        forall|c: int, r: int| #[trigger] m.is_passage((c, r)) ==> m.connected((120, 120), (c, r)),
{
    let g = m.grid@;
    let goal = m.goal;
    let conn = goal_opening(goal);
    let a = lemma_goal_shape(goal);
    assert(vis(v, a.0, a.1));
    let pa = lemma_reach_logical(m, v, routes, g_dfs, a.0, a.1);
    lemma_path_push(m, pa, conn);
    let pconn = pa.push(conn);
    lemma_path_push(m, pconn, (goal.col as int, goal.row as int));
    let pgoal = pconn.push((goal.col as int, goal.row as int));
    assert forall|c: int, r: int| #[trigger] m.is_passage((c, r)) implies m.connected((120, 120), (c, r)) by {
        assert(cell_at(g, c, r) == CellType::Passage);
        if c == goal.col && r == goal.row {
            assert(m.passage_path(pgoal) && pgoal[0] == (120int, 120int) && pgoal.last() == (c, r));
        } else if (c, r) == conn {
            assert(m.passage_path(pconn) && pconn[0] == (120int, 120int) && pconn.last() == (c, r));
        } else if c % 2 == 0 && r % 2 == 0 && vis(v, c / 2, r / 2) {
            let p = lemma_reach_logical(m, v, routes, g_dfs, c / 2, r / 2);
            assert(m.passage_path(p) && p[0] == (120int, 120int) && p.last() == (c, r));
        } else {
            assert(carved(v, c, r));
            let b: (int, int) = if c % 2 == 1 {
                ((c - 1) / 2, r / 2)
            } else {
                (c / 2, (r - 1) / 2)
            };
            let p = lemma_reach_logical(m, v, routes, g_dfs, b.0, b.1);
            lemma_path_push(m, p, (c, r));
            let q = p.push((c, r));
            assert(m.passage_path(q) && q[0] == (120int, 120int) && q.last() == (c, r));
        }
    }
}

/// Every inner logical cell but the centre has an inner, adjacent parent of
/// smaller depth.
proof fn lemma_fm_parents(
    v: Seq<Vec<bool>>,
    g_dfs: Seq<Vec<CellType>>,
    parent: Map<(int, int), (int, int)>,
    depth: Map<(int, int), nat>,
)
    requires
        inv_marks(v),
        forall|pc: int, pr: int| inner(pc, pr) ==> #[trigger] vis(v, pc, pr),
        tree_parents(g_dfs, v, parent, depth),
    ensures
        forall|x: (int, int)|
            #[trigger] is_inner_logical(x) && x != (60int, 60int) ==> {
                &&& is_inner_logical(parent[x])
                &&& adjacent(parent[x], x)
                &&& depth[parent[x]] < depth[x]
            },
{
    assert forall|x: (int, int)| #[trigger] is_inner_logical(x) && x != (60int, 60int) implies {
        &&& is_inner_logical(parent[x])
        &&& adjacent(parent[x], x)
        &&& depth[parent[x]] < depth[x]
    } by {
        assert(vis(v, x.0, x.1));
        let p = parent[(x.0, x.1)];
        assert(vis(v, p.0, p.1));
    }
}

/// The connector between two adjacent inner logical cells is open in the
/// finished grid exactly when it is a link of the search's tree.
#[verifier::spinoff_prover]
proof fn lemma_fm_links(
    m: Maze,
    v: Seq<Vec<bool>>,
    g_dfs: Seq<Vec<CellType>>,
    g_marked: Seq<Vec<CellType>>,
    parent: Map<(int, int), (int, int)>,
    depth: Map<(int, int), nat>,
)
    requires
        inv_marks(v),
        forall|pc: int, pr: int| inner(pc, pr) ==> #[trigger] vis(v, pc, pr),
        tree_parents(g_dfs, v, parent, depth),
        tree_connectors(g_dfs, parent),
        grows(g_dfs, g_marked),
        forall|c: int, r: int|
            in_grid(c, r) && #[trigger] cell_at(g_marked, c, r) == CellType::Passage ==> cell_at(
                g_dfs,
                c,
                r,
            ) == CellType::Passage || (c % 2 == 0 && r % 2 == 0),
        forall|c: int, r: int|
            in_grid(c, r) && 2 <= c && 2 <= r ==> #[trigger] cell_at(m.grid@, c, r) == cell_at(g_marked, c, r),
    ensures
        forall|a: (int, int), b: (int, int)|
            #[trigger] adjacent(a, b) && is_inner_logical(a) && is_inner_logical(b) ==> (m.cell(
                a.0 + b.0,
                a.1 + b.1,
            ) == CellType::Passage <==> tree_link(parent, a, b)),
{
    assert forall|a: (int, int), b: (int, int)|
        #[trigger] adjacent(a, b) && is_inner_logical(a) && is_inner_logical(b) implies (m.cell(
            a.0 + b.0,
            a.1 + b.1,
        ) == CellType::Passage <==> tree_link(parent, a, b)) by {
        let c = a.0 + b.0;
        let r = a.1 + b.1;
        assert(in_grid(c, r) && 2 <= c && 2 <= r);
        assert(c % 2 == 1 || r % 2 == 1);
        assert(cell_at(m.grid@, c, r) == cell_at(g_marked, c, r));
        assert(cell_at(g_marked, c, r) == CellType::Passage <==> cell_at(g_dfs, c, r) == CellType::Passage);
        assert(in_lrange(a) && in_lrange(b));
        if b != (60int, 60int) && parent[b] == a {
            assert(vis(v, b.0, b.1));
        }
        if a != (60int, 60int) && parent[a] == b {
            assert(vis(v, a.0, a.1));
        }
    }
}

/// Away from the goal and its connector, which lie in the first two rows or
/// columns, the finished grid is the grid with the marked cells opened.
proof fn lemma_fm_inner_cells(m: Maze, g_marked: Seq<Vec<CellType>>)
    requires
        MazeGenerator::goal_candidates().contains(m.goal),
        forall|c: int, r: int|
            in_grid(c, r) ==> #[trigger] cell_at(m.grid@, c, r) == if (c == m.goal.col && r
                == m.goal.row) || (c, r) == goal_opening(m.goal) {
                CellType::Passage
            } else {
                cell_at(g_marked, c, r)
            },
    ensures
        forall|c: int, r: int|
            in_grid(c, r) && 2 <= c && 2 <= r ==> #[trigger] cell_at(m.grid@, c, r) == cell_at(g_marked, c, r),
{
    let a0 = lemma_goal_shape(m.goal);
    assert forall|c: int, r: int| in_grid(c, r) && 2 <= c && 2 <= r implies #[trigger] cell_at(m.grid@, c, r)
        == cell_at(g_marked, c, r) by {
        assert(!(c == m.goal.col && r == m.goal.row));
        assert((c, r) != goal_opening(m.goal));
    }
}

/// The grid that `generate` builds has the shape `is_perfect_maze` describes.
proof fn lemma_finished_maze(
    m: Maze,
    v: Seq<Vec<bool>>,
    routes: Map<(int, int), Seq<(int, int)>>,
    g_dfs: Seq<Vec<CellType>>,
    g_marked: Seq<Vec<CellType>>,
    parent: Map<(int, int), (int, int)>,
    depth: Map<(int, int), nat>,
)
    requires
        built(m, v, routes, g_dfs, g_marked),
        inv_tree(g_dfs, v, parent, depth),
    ensures
        m.is_perfect_maze(),
{
    lemma_fm_parents(v, g_dfs, parent, depth);
    lemma_fm_inner_cells(m, g_marked);
    lemma_fm_links(m, v, g_dfs, g_marked, parent, depth);
    assert(m.is_spanning_tree(parent, depth));
    let g = m.grid@;
    let goal = m.goal;
    let conn = goal_opening(goal);
    let a = lemma_goal_shape(goal);
    lemma_fm_classify(m, v, routes, g_dfs, g_marked);
    lemma_fm_walls(m, v);
    assert(in_grid(goal.col as int, goal.row as int));
    assert(cell_at(g, goal.col as int, goal.row as int) == CellType::Passage);
    assert(in_grid(conn.0, conn.1));
    assert(cell_at(g, conn.0, conn.1) == CellType::Passage);
    lemma_fm_reach(m, v, routes, g_dfs);
    assert forall|c: int, r: int| is_logical_cell(c, r) implies #[trigger] m.is_passage((c, r)) by {
        assert(logical_open(g, c / 2, r / 2));
    }
}

/// Logical cell `(pc, pr)` is marked in `v` (indexed `v[pr][pc]`).
spec fn vis2(v: Seq<Seq<bool>>, pc: int, pr: int) -> bool {
    0 <= pc < PCOLS && 0 <= pr < PROWS && v[pr][pc]
}

/// `spec_unvisited_neighbors` over marks held as sequences.
spec fn unvisited2(pc: int, pr: int, v: Seq<Seq<bool>>) -> Seq<(usize, usize)> {
    let s1 = if pc > 1 && !vis2(v, pc - 1, pr) {
        seq![((pc - 1) as usize, pr as usize)]
    } else {
        Seq::empty()
    };
    let s2 = if pc + 1 < PCOLS - 1 && !vis2(v, pc + 1, pr) {
        s1.push(((pc + 1) as usize, pr as usize))
    } else {
        s1
    };
    let s3 = if pr > 1 && !vis2(v, pc, pr - 1) {
        s2.push((pc as usize, (pr - 1) as usize))
    } else {
        s2
    };
    if pr + 1 < PROWS - 1 && !vis2(v, pc, pr + 1) {
        s3.push((pc as usize, (pr + 1) as usize))
    } else {
        s3
    }
}

proof fn lemma_unvisited2(pc: int, pr: int, v: Seq<Vec<bool>>)
    requires
        square(v, PCOLS as int),
    ensures
        unvisited2(pc, pr, rows(v)) == spec_unvisited_neighbors(pc, pr, v),
{
    let w = rows(v);
    assert(vis2(w, pc - 1, pr) == vis(v, pc - 1, pr));
    assert(vis2(w, pc + 1, pr) == vis(v, pc + 1, pr));
    assert(vis2(w, pc, pr - 1) == vis(v, pc, pr - 1));
    assert(vis2(w, pc, pr + 1) == vis(v, pc, pr + 1));
}

/// The state of the depth-first carving: the grid, the marks, the stack and
/// the lengths of the lists drawn from so far.
spec fn dfs_init() -> (Seq<Seq<CellType>>, Seq<Seq<bool>>, Seq<(usize, usize)>, Seq<nat>) {
    (
        Seq::new(240, |r: int| Seq::new(240, |c: int| CellType::Wall)),
        Seq::new(120, |r: int| Seq::new(120, |c: int| r == 60 && c == 60)),
        seq![(60usize, 60usize)],
        Seq::empty(),
    )
}

/// One step of the carving: with the top cell of the stack, draw one of its
/// unmarked inner neighbours, mark it, open the connector between them and
/// push it; or pop the top cell when it has none.
spec fn dfs_step(seed: u64, st: (Seq<Seq<CellType>>, Seq<Seq<bool>>, Seq<(usize, usize)>, Seq<nat>)) -> (
    Seq<Seq<CellType>>,
    Seq<Seq<bool>>,
    Seq<(usize, usize)>,
    Seq<nat>,
) {
    let (g, v, stack, d) = st;
    if stack.len() == 0 {
        st
    } else {
        let pc = stack.last().0 as int;
        let pr = stack.last().1 as int;
        let nb = unvisited2(pc, pr, v);
        if nb.len() == 0 {
            (g, v, stack.drop_last(), d)
        } else {
            let n = nb[chacha_pick(seed, d, nb.len()) as int];
            let nc = n.0 as int;
            let nr = n.1 as int;
            (
                g.update(pr + nr, g[pr + nr].update(pc + nc, CellType::Passage)),
                v.update(nr, v[nr].update(nc, true)),
                stack.push(n),
                d.push(nb.len()),
            )
        }
    }
}

/// The carving state after `n` steps.
spec fn dfs_run(seed: u64, n: nat) -> (Seq<Seq<CellType>>, Seq<Seq<bool>>, Seq<(usize, usize)>, Seq<nat>)
    decreases n,
{
    if n == 0 {
        dfs_init()
    } else {
        dfs_step(seed, dfs_run(seed, (n - 1) as nat))
    }
}

/// More steps than the carving can take: each step marks a cell or pops one.
spec fn dfs_steps() -> nat {
    28799
}

/// Once the stack is empty the carving stays where it is.
proof fn lemma_dfs_done(seed: u64, k: nat, j: nat)
    requires
        dfs_run(seed, k).2.len() == 0,
        k <= j,
    ensures
        dfs_run(seed, j) == dfs_run(seed, k),
    decreases j - k,
{
    if k < j {
        lemma_dfs_done(seed, k, (j - 1) as nat);
    }
}

/// Popping a cell without unmarked neighbours is a step of the carving.
proof fn lemma_step_pop(
    seed: u64,
    g: Seq<Vec<CellType>>,
    v: Seq<Vec<bool>>,
    stack: Seq<(usize, usize)>,
    d: Seq<nat>,
)
    requires
        square(v, PCOLS as int),
        stack.len() > 0,
        spec_unvisited_neighbors(stack.last().0 as int, stack.last().1 as int, v).len() == 0,
    ensures
        dfs_step(seed, (rows(g), rows(v), stack, d)) == (rows(g), rows(v), stack.drop_last(), d),
{
    lemma_unvisited2(stack.last().0 as int, stack.last().1 as int, v);
}

/// Marking the drawn neighbour, opening the connector and pushing the
/// neighbour is a step of the carving.
proof fn lemma_step_push(
    seed: u64,
    g: Seq<Vec<CellType>>,
    g2: Seq<Vec<CellType>>,
    v: Seq<Vec<bool>>,
    v2: Seq<Vec<bool>>,
    stack: Seq<(usize, usize)>,
    d: Seq<nat>,
    nc: int,
    nr: int,
)
    requires
        square(g, GRID_SIZE as int),
        square(v, PCOLS as int),
        stack.len() > 0,
        inner(stack.last().0 as int, stack.last().1 as int),
        ({
            let nb = spec_unvisited_neighbors(stack.last().0 as int, stack.last().1 as int, v);
            nb.len() > 0 && chacha_pick(seed, d, nb.len()) < nb.len() && nb[chacha_pick(seed, d, nb.len()) as int]
                == (nc as usize, nr as usize)
        }),
        inner(nc, nr),
        adjacent((stack.last().0 as int, stack.last().1 as int), (nc, nr)),
        opens_one(g, g2, stack.last().0 + nc, stack.last().1 + nr),
        marks_one(v, v2, nc, nr),
    ensures
        dfs_step(seed, (rows(g), rows(v), stack, d)) == (
            rows(g2),
            rows(v2),
            stack.push((nc as usize, nr as usize)),
            d.push(spec_unvisited_neighbors(stack.last().0 as int, stack.last().1 as int, v).len()),
        ),
{
    let pc = stack.last().0 as int;
    let pr = stack.last().1 as int;
    lemma_unvisited2(pc, pr, v);
    let gw = rows(g);
    let vw = rows(v);
    let gn = gw.update(pr + nr, gw[pr + nr].update(pc + nc, CellType::Passage));
    let vn = vw.update(nr, vw[nr].update(nc, true));
    assert forall|r: int| 0 <= r < 240 implies #[trigger] rows(g2)[r] =~= gn[r] by {
        assert forall|c: int| 0 <= c < 240 implies rows(g2)[r][c] == gn[r][c] by {
            assert(in_grid(c, r));
            assert(cell_at(g2, c, r) == g2[r]@[c]);
        }
    }
    assert(rows(g2) =~= gn);
    assert forall|r: int| 0 <= r < 120 implies #[trigger] rows(v2)[r] =~= vn[r] by {
        assert forall|c: int| 0 <= c < 120 implies rows(v2)[r][c] == vn[r][c] by {
            assert(vis(v2, c, r) == (vis(v, c, r) || (c == nc && r == nr)));
        }
    }
    assert(rows(v2) =~= vn);
}

/// The grid with the cell of every marked logical cell opened.
spec fn marked_grid(g: Seq<Seq<CellType>>, v: Seq<Seq<bool>>) -> Seq<Seq<CellType>> {
    Seq::new(
        240,
        |r: int|
            Seq::new(
                240,
                |c: int|
                    if c % 2 == 0 && r % 2 == 0 && v[r / 2][c / 2] {
                        CellType::Passage
                    } else {
                        g[r][c]
                    },
            ),
    )
}

/// The grid with the goal and its opening opened.
spec fn goal_grid(g: Seq<Seq<CellType>>, goal: GridPos) -> Seq<Seq<CellType>> {
    Seq::new(
        240,
        |r: int|
            Seq::new(
                240,
                |c: int|
                    if (c == goal.col && r == goal.row) || (c, r) == goal_opening(goal) {
                        CellType::Passage
                    } else {
                        g[r][c]
                    },
            ),
    )
}

/// The blind-goal candidates of row `pr` among logical columns `1..n`, in order.
pub closed spec fn blind_row(g: Seq<Seq<CellType>>, start: GridPos, pr: int, n: int) -> Seq<GridPos>
    decreases n,
{
    if n <= 1 {
        Seq::empty()
    } else {
        let pc = n - 1;
        let x = GridPos { col: (2 * pc) as u16, row: (2 * pr) as u16 };
        let rest = blind_row(g, start, pr, n - 1);
        if g[2 * pr][2 * pc] == CellType::Passage && x != start {
            rest.push(x)
        } else {
            rest
        }
    }
}

/// The blind-goal candidates of logical rows `1..n`, row by row.
pub closed spec fn blind_rows(g: Seq<Seq<CellType>>, start: GridPos, n: int) -> Seq<GridPos>
    decreases n,
{
    if n <= 1 {
        Seq::empty()
    } else {
        blind_rows(g, start, n - 1) + blind_row(g, start, n - 1, PCOLS - 1)
    }
}

/// Opening the cells of the marked logical cells gives `marked_grid`.
proof fn lemma_marked_rows(g0: Seq<Vec<CellType>>, g1: Seq<Vec<CellType>>, v: Seq<Vec<bool>>)
    requires
        square(g0, GRID_SIZE as int),
        square(g1, GRID_SIZE as int),
        square(v, PCOLS as int),
        grows(g0, g1),
        forall|c: int, r: int|
            in_grid(c, r) && #[trigger] cell_at(g1, c, r) == CellType::Passage ==> cell_at(g0, c, r)
                == CellType::Passage || (c % 2 == 0 && r % 2 == 0 && vis(v, c / 2, r / 2)),
        forall|pc: int, pr: int| #[trigger] vis(v, pc, pr) ==> cell_at(g1, 2 * pc, 2 * pr) == CellType::Passage,
    ensures
        rows(g1) == marked_grid(rows(g0), rows(v)),
{
    let m = marked_grid(rows(g0), rows(v));
    assert forall|r: int| 0 <= r < 240 implies #[trigger] rows(g1)[r] =~= m[r] by {
        assert forall|c: int| 0 <= c < 240 implies rows(g1)[r][c] == m[r][c] by {
            assert(in_grid(c, r));
            if c % 2 == 0 && r % 2 == 0 && rows(v)[r / 2][c / 2] {
                assert(vis(v, c / 2, r / 2));
                assert(cell_at(g1, 2 * (c / 2), 2 * (r / 2)) == CellType::Passage);
            } else {
                if cell_at(g1, c, r) == CellType::Passage {
                    assert(cell_at(g0, c, r) == CellType::Passage);
                } else if cell_at(g0, c, r) == CellType::Passage {
                    assert(cell_at(g1, c, r) == CellType::Passage);
                }
            }
        }
    }
    assert(rows(g1) =~= m);
}

/// Opening the goal and its opening gives `goal_grid`.
proof fn lemma_goal_rows(g0: Seq<Vec<CellType>>, g1: Seq<Vec<CellType>>, goal: GridPos)
    requires
        square(g0, GRID_SIZE as int),
        square(g1, GRID_SIZE as int),
        forall|c: int, r: int|
            in_grid(c, r) ==> #[trigger] cell_at(g1, c, r) == if (c == goal.col && r == goal.row) || (c, r)
                == goal_opening(goal) {
                CellType::Passage
            } else {
                cell_at(g0, c, r)
            },
    ensures
        rows(g1) == goal_grid(rows(g0), goal),
{
    let m = goal_grid(rows(g0), goal);
    assert forall|r: int| 0 <= r < 240 implies #[trigger] rows(g1)[r] =~= m[r] by {
        assert forall|c: int| 0 <= c < 240 implies rows(g1)[r][c] == m[r][c] by {
            assert(in_grid(c, r));
            assert(cell_at(g1, c, r) == g1[r]@[c]);
        }
    }
    assert(rows(g1) =~= m);
}

/// The maze that `MazeGenerator::generate` builds from `seed`: its grid, its
/// goal and its blind goal. The carving, the goal and the blind goal each
/// follow from the draws of the generator seeded with `seed`.
pub closed spec fn generated(seed: u64) -> (Seq<Seq<CellType>>, GridPos, GridPos) {
    let carved = dfs_run(seed, dfs_steps());
    let goal = MazeGenerator::goal_candidates()[chacha_pick(seed, carved.3, 236) as int];
    let grid = goal_grid(marked_grid(carved.0, carved.1), goal);
    let start = GridPos { col: 120, row: 120 };
    let cands = blind_rows(grid, start, PROWS - 1);
    let d = carved.3.push(236);
    let blind = if cands.len() > 0 {
        cands[chacha_pick(seed, d, cands.len()) as int]
    } else {
        GridPos { col: 2, row: 2 }
    };
    (grid, goal, blind)
}

/// The candidates of one row: `blind_row(g, start, pr, n)` holds exactly the
/// cells `(2 pc, 2 pr)` with `1 <= pc < n` that are passages of `g` and are
/// not `start`.
proof fn lemma_blind_row(g: Seq<Seq<CellType>>, start: GridPos, pr: int, n: int)
    requires
        1 <= pr <= 118,
        n <= 119,
    ensures
        forall|x: GridPos|
            #[trigger] blind_row(g, start, pr, n).contains(x) <==> (x.row == 2 * pr && x.col % 2 == 0 && 2
                <= x.col <= 2 * (n - 1) && g[x.row as int][x.col as int] == CellType::Passage && x != start),
    decreases n,
{
    reveal_with_fuel(blind_row, 2);
    if n > 1 {
        lemma_blind_row(g, start, pr, n - 1);
        let pc = n - 1;
        let x0 = GridPos { col: (2 * pc) as u16, row: (2 * pr) as u16 };
        let rest = blind_row(g, start, pr, n - 1);
        let cur = blind_row(g, start, pr, n);
        let keep = g[2 * pr][2 * pc] == CellType::Passage && x0 != start;
        assert(cur == if keep { rest.push(x0) } else { rest });
        assert forall|x: GridPos| #[trigger] cur.contains(x) <==> (x.row == 2 * pr && x.col % 2 == 0 && 2 <= x.col
            <= 2 * (n - 1) && g[x.row as int][x.col as int] == CellType::Passage && x != start) by {
            if keep {
                if rest.contains(x) {
                    let i = choose|i: int| 0 <= i < rest.len() && rest[i] == x;
                    assert(cur[i] == x);
                }
                if x == x0 {
                    assert(cur[rest.len() as int] == x0);
                }
                if cur.contains(x) {
                    let i = choose|i: int| 0 <= i < cur.len() && cur[i] == x;
                    if i < rest.len() {
                        assert(rest[i] == x);
                    }
                }
            }
            if x.row == 2 * pr && x.col % 2 == 0 && 2 <= x.col <= 2 * (n - 1) && x.col != 2 * pc {
                assert(x.col <= 2 * (n - 2));
            }
        }
    }
}

/// The candidates of rows `1..n`: `blind_rows(g, start, n)` holds exactly the
/// cells `(2 pc, 2 pr)` with `1 <= pc <= 118` and `1 <= pr < n` that are
/// passages of `g` and are not `start`.
proof fn lemma_blind_rows(g: Seq<Seq<CellType>>, start: GridPos, n: int)
    requires
        n <= 119,
    ensures
        forall|x: GridPos|
            #[trigger] blind_rows(g, start, n).contains(x) <==> (x.col % 2 == 0 && x.row % 2 == 0 && 2 <= x.col
                <= 236 && 2 <= x.row <= 2 * (n - 1) && g[x.row as int][x.col as int] == CellType::Passage
                && x != start),
    decreases n,
{
    reveal_with_fuel(blind_rows, 2);
    if n > 1 {
        lemma_blind_rows(g, start, n - 1);
        lemma_blind_row(g, start, n - 1, PCOLS - 1);
        let a = blind_rows(g, start, n - 1);
        let b = blind_row(g, start, n - 1, PCOLS - 1);
        let cur = blind_rows(g, start, n);
        assert(cur == a + b);
        assert forall|x: GridPos| #[trigger] cur.contains(x) <==> (x.col % 2 == 0 && x.row % 2 == 0 && 2 <= x.col
            <= 236 && 2 <= x.row <= 2 * (n - 1) && g[x.row as int][x.col as int] == CellType::Passage
            && x != start) by {
            if a.contains(x) {
                let i = choose|i: int| 0 <= i < a.len() && a[i] == x;
                assert(cur[i] == x);
            }
            if b.contains(x) {
                let i = choose|i: int| 0 <= i < b.len() && b[i] == x;
                assert(cur[a.len() + i] == x);
            }
            if cur.contains(x) {
                let i = choose|i: int| 0 <= i < cur.len() && cur[i] == x;
                if i < a.len() {
                    assert(a[i] == x);
                } else {
                    assert(b[i - a.len()] == x);
                }
            }
        }
    }
}

/// The blind goal is drawn from every inner logical passage cell but the
/// start: the list `pick_blind_goal` draws from holds a cell exactly when its
/// column and row are even and between 2 and 236, it is a passage of the
/// grid, and it is not the start.
pub proof fn lemma_blind_candidates(g: Seq<Seq<CellType>>, start: GridPos)
    ensures
        forall|x: GridPos|
            #[trigger] blind_rows(g, start, 119).contains(x) <==> (x.col % 2 == 0 && x.row % 2 == 0 && 2
                <= x.col <= 236 && 2 <= x.row <= 236 && g[x.row as int][x.col as int] == CellType::Passage
                && x != start),
{
    lemma_blind_rows(g, start, 119);
}

/// In a maze that `generate` builds, the blind goal's candidate list is never
/// empty (every logical cell is open), so the blind goal is always drawn from
/// it and the fallback `(2, 2)` is never taken for want of candidates.
pub proof fn lemma_blind_candidates_exist(m: Maze)
    requires
        m.is_perfect_maze(),
    ensures
        blind_rows(rows(m.grid@), m.start, 119).len() > 0,
        blind_rows(rows(m.grid@), m.start, 119).contains(GridPos { col: 2, row: 2 }),
{
    let x = GridPos { col: 2, row: 2 };
    assert(is_logical_cell(2, 2));
    assert(m.is_passage((2, 2)));
    lemma_blind_candidates(rows(m.grid@), m.start);
    assert(rows(m.grid@)[2][2] == m.cell(2, 2));
    let s = blind_rows(rows(m.grid@), m.start, 119);
    assert(s.contains(x));
}

/// The goal is drawn from every goal cell of the left and top edges, each
/// once: the 236 candidates are pairwise distinct, and a cell is a candidate
/// exactly when it lies on column 0 at an even row from 2 to 236, or on row 0
/// at an even column from 2 to 236.
pub proof fn lemma_goal_candidates()
    ensures
        MazeGenerator::goal_candidates().len() == 236,
        forall|i: int, j: int|
            0 <= i < j < 236 ==> MazeGenerator::goal_candidates()[i] != MazeGenerator::goal_candidates()[j],
        forall|g: GridPos|
            #[trigger] MazeGenerator::goal_candidates().contains(g) <==> ((g.col == 0 && g.row % 2 == 0 && 2
                <= g.row <= 236) || (g.row == 0 && g.col % 2 == 0 && 2 <= g.col <= 236)),
{
    let c = MazeGenerator::goal_candidates();
    assert forall|i: int, j: int| 0 <= i < j < 236 implies c[i] != c[j] by {
        if i < 118 && j < 118 {
            assert(c[i].row != c[j].row);
        } else if i >= 118 && j >= 118 {
            assert(c[i].col != c[j].col);
        } else {
            assert(c[i].col == 0 && c[j].col != 0);
        }
    }
    assert forall|g: GridPos| #[trigger] c.contains(g) <==> ((g.col == 0 && g.row % 2 == 0 && 2 <= g.row <= 236)
        || (g.row == 0 && g.col % 2 == 0 && 2 <= g.col <= 236)) by {
        if g.col == 0 && g.row % 2 == 0 && 2 <= g.row <= 236 {
            let i = g.row / 2 - 1;
            assert(c[i] == g);
        } else if g.row == 0 && g.col % 2 == 0 && 2 <= g.col <= 236 {
            let i = g.col / 2 + 117;
            assert(c[i] == g);
        }
        if c.contains(g) {
            let i = choose|i: int| 0 <= i < c.len() && c[i] == g;
            assert(c[i] == g);
        }
    }
}

/// The same seed gives the same maze: two mazes that `MazeGenerator::generate`
/// built from one seed have the same cells, the same goal and the same blind
/// goal.
pub proof fn lemma_same_seed_same_maze(a: Maze, b: Maze)
    requires
        (rows(a.grid@), a.goal, a.blind_goal) == generated(a.seed),
        (rows(b.grid@), b.goal, b.blind_goal) == generated(b.seed),
        a.seed == b.seed,
    ensures
        rows(a.grid@) == rows(b.grid@),
        a.goal == b.goal,
        a.blind_goal == b.blind_goal,
{
}

/// Procedural maze generator using the Recursive Backtracking (DFS) algorithm.
///
/// Guarantees:
/// - Every passage cell is reachable from every other cell (perfect maze).
/// - The start position `GridPos { col: 120, row: 120 }` is always a `Passage`.
/// - The goal is a randomly selected perimeter `Passage` cell.
/// - Every random choice is drawn from a ChaCha8 generator seeded with the
///   given seed, so the same seed gives the same maze.
pub struct MazeGenerator;

impl MazeGenerator {
    /// Generate a 240x240 maze from `seed`.
    ///
    /// Passage cells occupy even grid indices (`col = pc * 2`, `row = pr * 2`).
    /// Wall cells between passages occupy odd indices.
    pub fn generate(seed: u64) -> (m: Maze)
        ensures
            m.is_perfect_maze(),
            m.seed == seed,
            (rows(m.grid@), m.goal, m.blind_goal) == generated(seed),
    {
        let mut rng = seeded_rng(seed);
        let (mut grid, visited, Ghost(routes), Ghost(tree)) = Self::carve(&mut rng);
        let ghost g_dfs = grid@;
        Self::open_marked_cells(&mut grid, &visited);
        let ghost g_marked = grid@;
        proof {
            lemma_marked_rows(g_dfs, g_marked, visited@);
        }
        let start = GridPos { col: 120, row: 120 };
        let goal = Self::pick_goal(&mut grid, &mut rng);
        proof {
            lemma_goal_rows(g_marked, grid@, goal);
        }
        let blind_goal = Self::pick_blind_goal(&grid, &mut rng, start);
        // Border cells (pc=0, pc=119, pr=0, pr=119) are never visited by the
        // DFS (see unvisited_neighbors), so they remain Wall. No further
        // sealing is needed; pick_goal carves the only exit opening.
        let m = Maze { grid, start, goal, blind_goal, seed };
        proof {
            lemma_finished_maze(m, visited@, routes, g_dfs, g_marked, tree.0, tree.1);
        }
        m
    }

    /// Carve a spanning tree of the inner logical cells by a randomised
    /// depth-first search from the centre cell. Returns the carved grid (only
    /// connectors open) and the marks, every inner cell marked.
    #[verifier::spinoff_prover]
    fn carve(rng: &mut SeededRng) -> (res: (
        Vec<Vec<CellType>>,
        Vec<Vec<bool>>,
        Ghost<Map<(int, int), Seq<(int, int)>>>,
        Ghost<(Map<(int, int), (int, int)>, Map<(int, int), nat>)>,
    ))
        requires
            old(rng).draws() == Seq::<nat>::empty(),
        ensures
            square(res.0@, GRID_SIZE as int),
            inv_marks(res.1@),
            forall|pc: int, pr: int| inner(pc, pr) ==> #[trigger] vis(res.1@, pc, pr),
            inv_routes(res.0@, res.1@, res.2@),
            inv_passages(res.0@, res.1@),
            inv_tree(res.0@, res.1@, res.3@.0, res.3@.1),
            final(rng).seed() == old(rng).seed(),
            rows(res.0@) == dfs_run(old(rng).seed(), dfs_steps()).0,
            rows(res.1@) == dfs_run(old(rng).seed(), dfs_steps()).1,
            final(rng).draws() == dfs_run(old(rng).seed(), dfs_steps()).3,
    {
        // Start with all walls
        let mut grid = filled_grid(GRID_SIZE, CellType::Wall);
        let mut visited = filled_grid(PCOLS, false);
        let mut stack: Vec<(usize, usize)> = Vec::new();

        // Start DFS from logical center cell (60, 60) -> grid (120, 120)
        let start_pc = PCOLS / 2;
        let start_pr = PROWS / 2;
        visited[start_pr][start_pc] = true;
        stack.push((start_pc, start_pr));
        let ghost mut vs: Set<int> = Set::empty().insert(60int * 120 + 60);
        let ghost mut routes: Map<(int, int), Seq<(int, int)>> = Map::empty().insert(
            (60int, 60int),
            seq![(60int, 60int)],
        );
        let ghost mut parent: Map<(int, int), (int, int)> = Map::empty();
        let ghost mut depth: Map<(int, int), nat> = Map::empty().insert((60int, 60int), 0nat);
        let ghost seed0 = rng.seed();
        let ghost mut k: nat = 0;
        proof {
            let init = dfs_init();
            assert forall|r: int| 0 <= r < 240 implies #[trigger] rows(grid@)[r] =~= init.0[r] by {
                assert forall|c: int| 0 <= c < 240 implies rows(grid@)[r][c] == init.0[r][c] by {
                    assert(grid@[r]@[c] == CellType::Wall);
                }
            }
            assert(rows(grid@) =~= init.0);
            assert forall|r: int| 0 <= r < 120 implies #[trigger] rows(visited@)[r] =~= init.1[r] by {
                assert forall|c: int| 0 <= c < 120 implies rows(visited@)[r][c] == init.1[r][c] by {
                    assert(vis(visited@, c, r) == visited@[r]@[c]);
                }
            }
            assert(rows(visited@) =~= init.1);
            assert(stack@ =~= init.2);
            assert((rows(grid@), rows(visited@), stack@, rng.draws()) == dfs_run(seed0, 0));
        }
        proof {
            assert forall|pc: int, pr: int| #[trigger] vis(visited@, pc, pr) implies pc == 60 && pr == 60 by {}
            assert(stack@[0] == (60usize, 60usize));
            assert forall|c: int, r: int| in_grid(c, r) implies #[trigger] cell_at(grid@, c, r) == CellType::Wall by {}
            assert(inv_count(visited@, vs));
            assert(inv_routes(grid@, visited@, routes)) by {
                assert forall|pc: int, pr: int| #[trigger] vis(visited@, pc, pr) implies {
                    &&& routes.contains_key((pc, pr))
                    &&& logical_route(grid@, routes[(pc, pr)])
                    &&& routes[(pc, pr)].last() == (pc, pr)
                } by {
                    assert(routes[(60, 60)][0] == (60int, 60int));
                }
            }
            assert(inv_closed(visited@, stack@));
            assert(inv_stack(visited@, stack@));
            assert(dfs_inv(grid@, visited@, stack@, vs, routes));
            lemma_count_bound(visited@, vs);
            assert(inv_tree(grid@, visited@, parent, depth));
        }

        while stack.len() > 0
            invariant
                dfs_inv(grid@, visited@, stack@, vs, routes),
                inv_tree(grid@, visited@, parent, depth),
                vs.len() <= PCOLS * PROWS,
                rng.seed() == seed0,
                (rows(grid@), rows(visited@), stack@, rng.draws()) == dfs_run(seed0, k),
                k + 2 * (PCOLS * PROWS - vs.len()) + stack@.len() == 28799,
            decreases 2 * (PCOLS * PROWS - vs.len()) + stack.len(),
        {
            let top = stack[stack.len() - 1];
            let pc = top.0;
            let pr = top.1;
            assert(stack@.last() == top);
            assert(inner(pc as int, pr as int));
            let neighbors = Self::unvisited_neighbors(pc, pr, &visited);
            proof {
                lemma_unvisited_neighbors(pc as int, pr as int, visited@);
            }
            if neighbors.len() == 0 {
                proof {
                    lemma_dfs_pop(grid@, visited@, stack@, vs, routes);
                    lemma_step_pop(seed0, grid@, visited@, stack@, rng.draws());
                }
                stack.pop();
                proof {
                    k = k + 1;
                }
            } else {
                let ghost d0 = rng.draws();
                let chosen = pick_one(&neighbors, rng);
                let (nc, nr) = chosen.unwrap();
                let ghost kk = chacha_pick(seed0, d0, neighbors@.len()) as int;
                assert(neighbors@[kk] == (nc, nr));
                let ghost g0 = grid@;
                let ghost v0 = visited@;
                visited[nr][nc] = true;
                // Wall cell sits at the odd index between two even passage cells.
                // nc > pc => move right: wall at col pc*2+1, row pr*2
                // nc < pc => move left:  wall at col pc*2-1, row pr*2
                // nr > pr => move down:  wall at col pc*2,   row pr*2+1
                // nr < pr => move up:    wall at col pc*2,   row pr*2-1
                let wc: usize = if nc > pc {
                    pc * 2 + 1
                } else if nc < pc {
                    pc * 2 - 1
                } else {
                    pc * 2
                };
                let wr: usize = if nr > pr {
                    pr * 2 + 1
                } else if nr < pr {
                    pr * 2 - 1
                } else {
                    pr * 2
                };
                assert(wc == pc + nc && wr == pr + nr);
                if wc < GRID_SIZE && wr < GRID_SIZE {
                    grid[wr][wc] = CellType::Passage;
                }
                proof {
                    assert(opens_one(g0, grid@, pc + nc, pr + nr)) by {
                        assert forall|c: int, r: int| in_grid(c, r) implies #[trigger] cell_at(grid@, c, r)
                            == if c == pc + nc && r == pr + nr {
                            CellType::Passage
                        } else {
                            cell_at(g0, c, r)
                        } by {
                            if r != wr {
                                assert(grid@[r] == g0[r]);
                            }
                        }
                    }
                    assert(marks_one(v0, visited@, nc as int, nr as int)) by {
                        assert forall|x: int, y: int| #[trigger] vis(visited@, x, y) == (vis(v0, x, y) || (x == nc && y == nr)) by {
                            if 0 <= y < PROWS && y != nr {
                                assert(visited@[y] == v0[y]);
                            }
                        }
                    }
                    lemma_dfs_push(g0, v0, stack@, vs, routes, nc as int, nr as int, grid@, visited@);
                    lemma_step_push(seed0, g0, grid@, v0, visited@, stack@, d0, nc as int, nr as int);
                    lemma_push_tree_parents(g0, grid@, v0, visited@, parent, depth, pc as int, pr as int, nc as int, nr as int);
                    lemma_push_tree_connectors(g0, grid@, v0, parent, pc as int, pr as int, nc as int, nr as int);
                    parent = parent.insert((nc as int, nr as int), (pc as int, pr as int));
                    depth = depth.insert((nc as int, nr as int), depth[(pc as int, pr as int)] + 1);
                    routes = routes.insert((nc as int, nr as int), routes[(pc as int, pr as int)].push((nc as int, nr as int)));
                    vs = vs.insert(nr * 120 + nc);
                    lemma_count_bound(visited@, vs);
                }
                stack.push((nc, nr));
                proof {
                    k = k + 1;
                }
            }
        }
        proof {
            lemma_dfs_done(seed0, k, dfs_steps());
            assert(closed_all(visited@)) by {
                assert forall|pc: int, pr: int| vis(visited@, pc, pr) implies #[trigger] neighbors_visited(visited@, pc, pr) by {
                    assert(!stack@.contains((pc as usize, pr as usize)));
                }
            }
            lemma_all_inner_marked(visited@);
        }
        (grid, visited, Ghost(routes), Ghost((parent, depth)))
    }

    /// Mark all visited passage cells: open the grid cell of every marked logical cell.
    fn open_marked_cells(grid: &mut Vec<Vec<CellType>>, visited: &Vec<Vec<bool>>)
        requires
            square(old(grid)@, GRID_SIZE as int),
            square(visited@, PCOLS as int),
        ensures
            square(final(grid)@, GRID_SIZE as int),
            grows(old(grid)@, final(grid)@),
            forall|c: int, r: int|
                in_grid(c, r) && #[trigger] cell_at(final(grid)@, c, r) == CellType::Passage
                    ==> cell_at(old(grid)@, c, r) == CellType::Passage || (c % 2 == 0 && r % 2 == 0
                    && vis(visited@, c / 2, r / 2)),
            forall|pc: int, pr: int|
                #[trigger] vis(visited@, pc, pr) ==> cell_at(final(grid)@, 2 * pc, 2 * pr)
                    == CellType::Passage,
    {
        let ghost g0 = grid@;
        let ghost v = visited@;
        for pr in 0..PROWS
            invariant
                square(grid@, GRID_SIZE as int),
                square(visited@, PCOLS as int),
                v == visited@,
                grows(g0, grid@),
                forall|c: int, r: int|
                    in_grid(c, r) && #[trigger] cell_at(grid@, c, r) == CellType::Passage
                        ==> cell_at(g0, c, r) == CellType::Passage || (c % 2 == 0 && r % 2 == 0
                        && vis(v, c / 2, r / 2)),
                forall|x: int, y: int|
                    0 <= y < pr && #[trigger] vis(v, x, y) ==> cell_at(grid@, 2 * x, 2 * y)
                        == CellType::Passage,
        {
            for pc in 0..PCOLS
                invariant
                    0 <= pr < PROWS,
                    square(grid@, GRID_SIZE as int),
                    square(visited@, PCOLS as int),
                    v == visited@,
                    grows(g0, grid@),
                    forall|c: int, r: int|
                        in_grid(c, r) && #[trigger] cell_at(grid@, c, r) == CellType::Passage
                            ==> cell_at(g0, c, r) == CellType::Passage || (c % 2 == 0 && r % 2 == 0
                            && vis(v, c / 2, r / 2)),
                    forall|x: int, y: int|
                        (0 <= y < pr || (y == pr && 0 <= x < pc)) && #[trigger] vis(v, x, y)
                            ==> cell_at(grid@, 2 * x, 2 * y) == CellType::Passage,
            {
                if visited[pr][pc] {
                    let col = pc * 2;
                    let row = pr * 2;
                    if col < GRID_SIZE && row < GRID_SIZE {
                        let ghost g1 = grid@;
                        grid[row][col] = CellType::Passage;
                        proof {
                            assert(opens_one(g1, grid@, col as int, row as int)) by {
                                assert forall|c: int, r: int| in_grid(c, r) implies #[trigger] cell_at(grid@, c, r)
                                    == if c == col && r == row {
                                    CellType::Passage
                                } else {
                                    cell_at(g1, c, r)
                                } by {
                                    if r != row {
                                        assert(grid@[r] == g1[r]);
                                    }
                                }
                            }
                            assert(vis(v, pc as int, pr as int));
                            assert forall|c: int, r: int|
                                in_grid(c, r) && #[trigger] cell_at(grid@, c, r) == CellType::Passage
                                    implies cell_at(g0, c, r) == CellType::Passage || (c % 2 == 0 && r % 2 == 0
                                    && vis(v, c / 2, r / 2)) by {
                                if c == col && r == row {
                                    assert(c / 2 == pc && r / 2 == pr);
                                } else {
                                    assert(cell_at(g1, c, r) == CellType::Passage);
                                }
                            }
                            assert forall|x: int, y: int|
                                (0 <= y < pr || (y == pr && 0 <= x < pc + 1)) && #[trigger] vis(v, x, y)
                                    implies cell_at(grid@, 2 * x, 2 * y) == CellType::Passage by {
                                assert(in_grid(2 * x, 2 * y));
                                if !(x == pc && y == pr) {
                                    assert(cell_at(g1, 2 * x, 2 * y) == CellType::Passage);
                                }
                            }
                        }
                    }
                }
            }
        }
    }

    /// The goal candidates: the left edge facing logical cells `(1, 1..=118)`,
    /// then the top edge facing logical cells `(1..=118, 1)`.
    pub closed spec fn goal_candidates() -> Seq<GridPos> {
        Seq::new(
            236,
            |i: int|
                if i < 118 {
                    GridPos { col: 0, row: (2 * (i + 1)) as u16 }
                } else {
                    GridPos { col: (2 * (i - 117)) as u16, row: 0 }
                },
        )
    }


    // Pick the goal: choose a random inner border cell and carve an opening
    // through the outer wall so the goal is always reachable from the interior.
    fn pick_goal(grid: &mut Vec<Vec<CellType>>, rng: &mut SeededRng) -> (goal: GridPos)
        requires
            square(old(grid)@, GRID_SIZE as int),
        ensures
            Self::goal_candidates().contains(goal),
            goal == Self::goal_candidates()[chacha_pick(old(rng).seed(), old(rng).draws(), 236) as int],
            final(rng).seed() == old(rng).seed(),
            final(rng).draws() == old(rng).draws().push(236),
            square(final(grid)@, GRID_SIZE as int),
            forall|c: int, r: int|
                in_grid(c, r) ==> #[trigger] cell_at(final(grid)@, c, r) == if (c == goal.col && r
                    == goal.row) || (c, r) == goal_opening(goal) {
                    CellType::Passage
                } else {
                    cell_at(old(grid)@, c, r)
                },
    {
        let mut candidates: Vec<GridPos> = Vec::new();
        // Left-edge goals: inner cells at pc=1, pr=1..=PROWS-2.
        // Goal at physical (col=0, row=pr*2); connector at (col=1, row=pr*2).
        for pr in 1..PROWS - 1
            invariant
                candidates@.len() == pr - 1,
                forall|i: int| 0 <= i < pr - 1 ==> #[trigger] candidates@[i] == Self::goal_candidates()[i],
        {
            candidates.push(GridPos { col: 0, row: (pr * 2) as u16 });
        }
        // Top-edge goals: inner cells at pr=1, pc=1..=PCOLS-2.
        // Goal at physical (col=pc*2, row=0); connector at (col=pc*2, row=1).
        for pc in 1..PCOLS - 1
            invariant
                candidates@.len() == 118 + pc - 1,
                forall|i: int| 0 <= i < 118 + pc - 1 ==> #[trigger] candidates@[i] == Self::goal_candidates()[i],
        {
            candidates.push(GridPos { col: (pc * 2) as u16, row: 0 });
        }
        assert(candidates@ =~= Self::goal_candidates());
        let goal = pick_one(&candidates, rng).unwrap();
        Self::open_goal(grid, goal);
        goal
    }

    /// Open the border cell (goal) and the connector one step inward.
    fn open_goal(grid: &mut Vec<Vec<CellType>>, goal: GridPos)
        requires
            square(old(grid)@, GRID_SIZE as int),
            Self::goal_candidates().contains(goal),
        ensures
            square(final(grid)@, GRID_SIZE as int),
            forall|c: int, r: int|
                in_grid(c, r) ==> #[trigger] cell_at(final(grid)@, c, r) == if (c == goal.col && r
                    == goal.row) || (c, r) == goal_opening(goal) {
                    CellType::Passage
                } else {
                    cell_at(old(grid)@, c, r)
                },
    {
        let ghost k = choose|k: int| 0 <= k < 236 && Self::goal_candidates()[k] == goal;
        assert(Self::goal_candidates()[k] == goal);
        let ghost g0 = grid@;
        let n = GRID_SIZE;
        let gc = goal.col as usize;
        let gr = goal.row as usize;
        grid[gr][gc] = CellType::Passage;
        let ghost g1 = grid@;
        if gc == 0 && gc + 1 < n {
            grid[gr][1] = CellType::Passage;
        }
        if gr == 0 && gr + 1 < n {
            grid[1][gc] = CellType::Passage;
        }
        assert forall|c: int, r: int|
            in_grid(c, r) implies #[trigger] cell_at(grid@, c, r) == if (c == goal.col && r == goal.row)
                || (c, r) == goal_opening(goal) {
                CellType::Passage
            } else {
                cell_at(g0, c, r)
            } by {
            if r != gr && r != 1 {
                assert(grid@[r] == g0[r]);
            }
        }
    }

    // Pick a random inner passage cell (even indices, not the start) for blind mode.
    fn pick_blind_goal(grid: &Vec<Vec<CellType>>, rng: &mut SeededRng, start: GridPos) -> (b: GridPos)
        requires
            square(grid@, GRID_SIZE as int),
        ensures
            b == (GridPos { col: 2, row: 2 }) || (is_logical_cell(b.col as int, b.row as int)
                && cell_at(grid@, b.col as int, b.row as int) == CellType::Passage && b != start),
            final(rng).seed() == old(rng).seed(),
            ({
                let cands = blind_rows(rows(grid@), start, PROWS - 1);
                &&& final(rng).draws() == old(rng).draws().push(cands.len())
                &&& b == if cands.len() > 0 {
                    cands[chacha_pick(old(rng).seed(), old(rng).draws(), cands.len()) as int]
                } else {
                    GridPos { col: 2, row: 2 }
                }
            }),
    {
        let mut candidates: Vec<GridPos> = Vec::new();
        // Even indices only (logical passage cells), skip pc=0/119 and pr=0/119 border.
        for pr in 1..PROWS - 1
            invariant
                square(grid@, GRID_SIZE as int),
                candidates@ == blind_rows(rows(grid@), start, pr as int),
                forall|i: int| 0 <= i < candidates@.len() ==> {
                    let x = #[trigger] candidates@[i];
                    is_logical_cell(x.col as int, x.row as int) && cell_at(grid@, x.col as int, x.row as int)
                        == CellType::Passage && x != start
                },
        {
            for pc in 1..PCOLS - 1
                invariant
                    1 <= pr < PROWS - 1,
                    square(grid@, GRID_SIZE as int),
                    candidates@ == blind_rows(rows(grid@), start, pr as int) + blind_row(
                        rows(grid@),
                        start,
                        pr as int,
                        pc as int,
                    ),
                    forall|i: int| 0 <= i < candidates@.len() ==> {
                        let x = #[trigger] candidates@[i];
                        is_logical_cell(x.col as int, x.row as int) && cell_at(grid@, x.col as int, x.row as int)
                            == CellType::Passage && x != start
                    },
            {
                let col = (pc * 2) as u16;
                let row = (pr * 2) as u16;
                let ghost before = candidates@;
                assert(rows(grid@)[2 * pr as int][2 * pc as int] == grid@[row as int]@[col as int]);
                if grid[row as usize][col as usize] == CellType::Passage && !(col == start.col && row
                    == start.row) {
                    candidates.push(GridPos { col, row });
                }
                proof {
                    let rg = rows(grid@);
                    assert(blind_rows(rg, start, pr as int) + blind_row(rg, start, pr as int, pc + 1) =~= candidates@);
                }
            }
            proof {
                let rg = rows(grid@);
                assert(blind_rows(rg, start, pr + 1) == blind_rows(rg, start, pr as int) + blind_row(rg, start, pr as int, PCOLS - 1));
            }
        }
        match pick_one(&candidates, rng) {
            Some(g) => {
                let ghost k = choose|k: int| 0 <= k < candidates@.len() && candidates@[k] == g;
                assert(candidates@[k] == g);
                g
            },
            None => GridPos { col: 2, row: 2 },
        }
    }

    /// Restrict DFS to inner logical cells only: pc = 1..=PCOLS-2, pr = 1..=PROWS-2.
    /// This ensures the physical border (row 0, row 239, col 0, col 239) can never
    /// become a Passage through DFS carving, so the outer wall is always solid.
    fn unvisited_neighbors(pc: usize, pr: usize, visited: &Vec<Vec<bool>>) -> (n: Vec<(usize, usize)>)
        requires
            square(visited@, PCOLS as int),
            pc < PCOLS,
            pr < PROWS,
        ensures
            n@ == spec_unvisited_neighbors(pc as int, pr as int, visited@),
    {
        let mut n: Vec<(usize, usize)> = Vec::new();
        // pc > 1: can move left (destination pc-1 >= 1, within inner range)
        if pc > 1 && !visited[pr][pc - 1] {
            n.push((pc - 1, pr));
        }
        // pc+1 < PCOLS-1: can move right (destination pc+1 <= PCOLS-2 = 118)
        if pc + 1 < PCOLS - 1 && !visited[pr][pc + 1] {
            n.push((pc + 1, pr));
        }
        if pr > 1 && !visited[pr - 1][pc] {
            n.push((pc, pr - 1));
        }
        if pr + 1 < PROWS - 1 && !visited[pr + 1][pc] {
            n.push((pc, pr + 1));
        }
        proof {
            let v = visited@;
            let s1 = if pc > 1 && !vis(v, pc - 1, pr as int) {
                seq![((pc - 1) as usize, pr as usize)]
            } else {
                Seq::empty()
            };
            assert(s1 == Seq::<(usize, usize)>::empty() || s1 =~= Seq::<(usize, usize)>::empty().push(((pc - 1) as usize, pr)));
        }
        n
    }
}

/// The robot's square footprint centred on `pos`: the grid cells at most
/// five columns and five rows away.
pub open spec fn in_footprint(pos: GridPos, c: int, r: int) -> bool {
    pos.col - 5 <= c <= pos.col + 5 && pos.row - 5 <= r <= pos.row + 5
}

impl Maze {
    /// Whether the robot (a square of 11x11 cells) fits with its centre on
    /// `pos`: the whole footprint lies on the grid and every cell of it is a
    /// passage.
    pub fn is_passable_for_robot(&self, pos: GridPos) -> (b: bool)
        requires
            self.wf(),
        ensures
            b == (pos.col >= 5 && pos.row >= 5 && pos.col + 5 < GRID_SIZE && pos.row + 5 < GRID_SIZE
                && forall|c: int, r: int|
                in_footprint(pos, c, r) ==> #[trigger] self.cell(c, r) == CellType::Passage),
    {
        let c = pos.col as usize;
        let r = pos.row as usize;
        if c < ROBOT_HALF || r < ROBOT_HALF {
            return false;
        }
        let c0 = c - ROBOT_HALF;
        let r0 = r - ROBOT_HALF;
        let c1 = c + ROBOT_HALF;
        let r1 = r + ROBOT_HALF;
        if c1 >= GRID_SIZE || r1 >= GRID_SIZE {
            return false;
        }
        for row in r0..r1 + 1
            invariant
                self.wf(),
                r0 == r - 5 && r1 == r + 5 && c0 == c - 5 && c1 == c + 5,
                c == pos.col && r == pos.row,
                c1 < GRID_SIZE && r1 < GRID_SIZE,
                forall|x: int, y: int|
                    in_footprint(pos, x, y) && y < row ==> #[trigger] self.cell(x, y) == CellType::Passage,
        {
            for col in c0..c1 + 1
                invariant
                    self.wf(),
                    r0 <= row <= r1,
                    r0 == r - 5 && r1 == r + 5 && c0 == c - 5 && c1 == c + 5,
                    c == pos.col && r == pos.row,
                    c1 < GRID_SIZE && r1 < GRID_SIZE,
                    forall|x: int, y: int|
                        in_footprint(pos, x, y) && (y < row || (y == row && x < col)) ==> #[trigger] self.cell(x, y)
                            == CellType::Passage,
            {
                if self.grid[row][col] == CellType::Wall {
                    assert(in_footprint(pos, col as int, row as int));
                    assert(self.cell(col as int, row as int) == CellType::Wall);
                    return false;
                }
            }
        }
        true
    }
}

} // verus!
