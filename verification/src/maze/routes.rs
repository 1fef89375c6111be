//! Routes between logical cells of a finished maze: between any two inner
//! logical cells there is exactly one route that visits no cell twice.
use vstd::prelude::*;

use super::types::{adjacent, is_inner_logical, tree_link, Maze};

verus! {

/// Step `i` of `r` goes from a cell down to one of its children.
spec fn down_at(parent: Map<(int, int), (int, int)>, r: Seq<(int, int)>, i: int) -> bool {
    r[i + 1] != (60int, 60int) && parent[r[i + 1]] == r[i]
}

/// Step `i` of `r` goes from a cell up to its parent.
spec fn up_at(parent: Map<(int, int), (int, int)>, r: Seq<(int, int)>, i: int) -> bool {
    r[i] != (60int, 60int) && parent[r[i]] == r[i + 1]
}

/// A walk over inner logical cells in which every step goes down the tree.
spec fn down_route(parent: Map<(int, int), (int, int)>, r: Seq<(int, int)>) -> bool {
    &&& r.len() >= 1
    &&& forall|i: int| 0 <= i < r.len() ==> is_inner_logical(#[trigger] r[i])
    &&& forall|i: int| 0 <= i < r.len() - 1 ==> #[trigger] down_at(parent, r, i)
}

/// Every cell of `p` is an inner logical cell.
spec fn all_inner(p: Seq<(int, int)>) -> bool {
    forall|i: int| 0 <= i < p.len() ==> is_inner_logical(#[trigger] p[i])
}

/// No cell occurs twice in `p`.
spec fn distinct(p: Seq<(int, int)>) -> bool {
    forall|i: int, j: int| 0 <= i < j < p.len() ==> p[i] != p[j]
}

/// Every inner logical cell but the centre is deeper than its parent.
spec fn depth_drops(parent: Map<(int, int), (int, int)>, depth: Map<(int, int), nat>) -> bool {
    forall|x: (int, int)|
        #[trigger] is_inner_logical(x) && x != (60int, 60int) ==> depth[parent[x]] < depth[x]
}

/// Two downward walks that end at the same cell agree on their common tail.
proof fn lemma_down_suffix(
    parent: Map<(int, int), (int, int)>,
    r: Seq<(int, int)>,
    s: Seq<(int, int)>,
    k: int,
)
    requires
        down_route(parent, r),
        down_route(parent, s),
        r.len() <= s.len(),
        r.last() == s.last(),
        0 <= k < r.len(),
    ensures
        r[r.len() - 1 - k] == s[s.len() - 1 - k],
    decreases k,
{
    if k > 0 {
        lemma_down_suffix(parent, r, s, k - 1);
        assert(down_at(parent, r, r.len() - 1 - k));
        assert(down_at(parent, s, s.len() - 1 - k));
    }
}

/// Depth grows strictly along a downward walk.
proof fn lemma_down_depth(
    parent: Map<(int, int), (int, int)>,
    depth: Map<(int, int), nat>,
    r: Seq<(int, int)>,
    i: int,
    j: int,
)
    requires
        depth_drops(parent, depth),
        down_route(parent, r),
        0 <= i < j < r.len(),
    ensures
        depth[r[i]] < depth[r[j]],
    decreases j - i,
{
    assert(down_at(parent, r, j - 1));
    assert(is_inner_logical(r[j]));
    if i < j - 1 {
        lemma_down_depth(parent, depth, r, i, j - 1);
    }
}

/// Every step of a route through open connectors goes up or down the tree.
proof fn lemma_step_kind(
    m: Maze,
    parent: Map<(int, int), (int, int)>,
    depth: Map<(int, int), nat>,
    p: Seq<(int, int)>,
    i: int,
)
    requires
        m.is_spanning_tree(parent, depth),
        0 <= i < p.len() - 1,
        m.open_step(p[i], p[i + 1]),
    ensures
        up_at(parent, p, i) || down_at(parent, p, i),
{
    assert(tree_link(parent, p[i], p[i + 1]));
}

/// A route that visits no cell twice climbs to one cell and then only descends:
/// it goes up for its first `u` steps and down for the rest.
#[verifier::spinoff_prover]
proof fn lemma_route_turn(
    m: Maze,
    parent: Map<(int, int), (int, int)>,
    depth: Map<(int, int), nat>,
    p: Seq<(int, int)>,
) -> (u: int)
    requires
        m.is_spanning_tree(parent, depth),
        m.simple_route(p),
    ensures
        0 <= u < p.len(),
        forall|i: int| 0 <= i < u ==> #[trigger] up_at(parent, p, i),
        forall|i: int| u <= i < p.len() - 1 ==> #[trigger] down_at(parent, p, i),
    decreases p.len(),
{
    let n = p.len() as int;
    if n == 1 {
        0
    } else {
        let q = p.drop_last();
        assert forall|i: int| 0 <= i < q.len() - 1 implies #[trigger] m.open_step(q[i], q[i + 1]) by {
            assert(m.open_step(p[i], p[i + 1]));
        }
        assert forall|i: int, j: int| 0 <= i < j < q.len() implies q[i] != q[j] by {
            assert(p[i] != p[j]);
        }
        assert(m.simple_route(q));
        let u0 = lemma_route_turn(m, parent, depth, q);
        assert forall|i: int| 0 <= i < u0 implies #[trigger] up_at(parent, p, i) by {
            assert(up_at(parent, q, i));
        }
        assert forall|i: int| u0 <= i < n - 2 implies #[trigger] down_at(parent, p, i) by {
            assert(down_at(parent, q, i));
        }
        let last = n - 2;
        assert(m.open_step(p[last], p[last + 1]));
        lemma_step_kind(m, parent, depth, p, last);
        if u0 == n - 2 {
            if up_at(parent, p, n - 2) {
                n - 1
            } else {
                n - 2
            }
        } else {
            assert(down_at(parent, q, n - 3));
            assert(down_at(parent, p, n - 3));
            if up_at(parent, p, n - 2) {
                assert(p[n - 1] == p[n - 3]);
                assert(p[n - 3] != p[n - 1]);
            }
            u0
        }
    }
}

/// The first `u + 1` cells of `p`, last first.
spec fn climb(p: Seq<(int, int)>, u: int) -> Seq<(int, int)> {
    Seq::new((u + 1) as nat, |j: int| p[u - j])
}

/// The climb and the descent of a route are downward walks.
proof fn lemma_turn_parts(
    parent: Map<(int, int), (int, int)>,
    p: Seq<(int, int)>,
    u: int,
)
    requires
        p.len() >= 1,
        forall|i: int| 0 <= i < p.len() ==> is_inner_logical(#[trigger] p[i]),
        0 <= u < p.len(),
        forall|i: int| 0 <= i < u ==> #[trigger] up_at(parent, p, i),
        forall|i: int| u <= i < p.len() - 1 ==> #[trigger] down_at(parent, p, i),
    ensures
        down_route(parent, climb(p, u)),
        climb(p, u).last() == p[0],
        climb(p, u)[0] == p[u],
        down_route(parent, p.subrange(u, p.len() as int)),
        p.subrange(u, p.len() as int).last() == p.last(),
{
    let c = climb(p, u);
    assert forall|i: int| 0 <= i < c.len() - 1 implies #[trigger] down_at(parent, c, i) by {
        assert(up_at(parent, p, u - i - 1));
    }
    let d = p.subrange(u, p.len() as int);
    assert forall|i: int| 0 <= i < d.len() - 1 implies #[trigger] down_at(parent, d, i) by {
        assert(down_at(parent, p, u + i));
    }
}

/// A route with the same ends as another does not turn before it.
proof fn lemma_turn_order(
    parent: Map<(int, int), (int, int)>,
    depth: Map<(int, int), nat>,
    p: Seq<(int, int)>,
    q: Seq<(int, int)>,
    u: int,
    v: int,
)
    requires
        depth_drops(parent, depth),
        all_inner(p),
        all_inner(q),
        distinct(q),
        p[0] == q[0],
        p.last() == q.last(),
        0 <= u < p.len(),
        forall|i: int| 0 <= i < u ==> #[trigger] up_at(parent, p, i),
        forall|i: int| u <= i < p.len() - 1 ==> #[trigger] down_at(parent, p, i),
        0 <= v < q.len(),
        forall|i: int| 0 <= i < v ==> #[trigger] up_at(parent, q, i),
        forall|i: int| v <= i < q.len() - 1 ==> #[trigger] down_at(parent, q, i),
    ensures
        v <= u,
{
    if u < v {
        lemma_turn_parts(parent, p, u);
        lemma_turn_parts(parent, q, v);
        let p1 = climb(p, u);
        let q1 = climb(q, v);
        let p2 = p.subrange(u, p.len() as int);
        let q2 = q.subrange(v, q.len() as int);
        // the climbs share their tail, so p and q agree up to p's turn
        lemma_down_suffix(parent, p1, q1, u);
        assert(p[u] == q[u]);
        lemma_down_depth(parent, depth, q1, 0, v - u);
        assert(depth[q[v]] < depth[q[u]]);
        if q2.len() <= p2.len() {
            let off = p2.len() - q2.len();
            lemma_down_suffix(parent, q2, p2, q2.len() - 1);
            assert(q2[0] == p2[off]);
            if off > 0 {
                lemma_down_depth(parent, depth, p2, 0, off);
            }
        } else {
            let off = q2.len() - p2.len();
            lemma_down_suffix(parent, p2, q2, p2.len() - 1);
            assert(p2[0] == q2[off]);
            assert(q[u] == q[v + off]);
            assert(q[u] != q[v + off]);
        }
    }
}

/// Two routes that climb and then descend, visit no cell twice and have the
/// same ends are the same route.
proof fn lemma_turned_routes_equal(
    parent: Map<(int, int), (int, int)>,
    depth: Map<(int, int), nat>,
    p: Seq<(int, int)>,
    q: Seq<(int, int)>,
    u: int,
    v: int,
)
    requires
        depth_drops(parent, depth),
        all_inner(p),
        all_inner(q),
        distinct(p),
        distinct(q),
        p[0] == q[0],
        p.last() == q.last(),
        0 <= u < p.len(),
        forall|i: int| 0 <= i < u ==> #[trigger] up_at(parent, p, i),
        forall|i: int| u <= i < p.len() - 1 ==> #[trigger] down_at(parent, p, i),
        0 <= v < q.len(),
        forall|i: int| 0 <= i < v ==> #[trigger] up_at(parent, q, i),
        forall|i: int| v <= i < q.len() - 1 ==> #[trigger] down_at(parent, q, i),
    ensures
        p == q,
{
    lemma_turn_order(parent, depth, p, q, u, v);
    lemma_turn_order(parent, depth, q, p, v, u);
    lemma_turn_parts(parent, p, u);
    lemma_turn_parts(parent, q, u);
    let p1 = climb(p, u);
    let q1 = climb(q, u);
    let p2 = p.subrange(u, p.len() as int);
    let q2 = q.subrange(u, q.len() as int);
    assert forall|i: int| 0 <= i <= u implies p[i] == q[i] by {
        lemma_down_suffix(parent, p1, q1, i);
    }
    if p2.len() < q2.len() {
        let off = q2.len() - p2.len();
        lemma_down_suffix(parent, p2, q2, p2.len() - 1);
        lemma_down_depth(parent, depth, q2, 0, off);
    } else if q2.len() < p2.len() {
        let off = p2.len() - q2.len();
        lemma_down_suffix(parent, q2, p2, q2.len() - 1);
        lemma_down_depth(parent, depth, p2, 0, off);
    }
    assert(p.len() == q.len());
    assert forall|i: int| u <= i < p.len() implies p[i] == q[i] by {
        lemma_down_suffix(parent, p2, q2, p.len() - 1 - i);
    }
    assert(p =~= q);
}

/// Between two logical cells of a maze that `MazeGenerator::generate` builds
/// there is at most one route that visits no cell twice: two such routes with
/// the same ends are the same route.
pub proof fn lemma_route_unique(m: Maze, p: Seq<(int, int)>, q: Seq<(int, int)>)
    requires
        m.is_perfect_maze(),
        m.simple_route(p),
        m.simple_route(q),
        p[0] == q[0],
        p.last() == q.last(),
    ensures
        p == q,
{
    let (parent, depth) = choose|parent: Map<(int, int), (int, int)>, depth: Map<(int, int), nat>|
        #[trigger] m.is_spanning_tree(parent, depth);
    assert(m.is_spanning_tree(parent, depth));
    assert(depth_drops(parent, depth));
    let u = lemma_route_turn(m, parent, depth, p);
    let v = lemma_route_turn(m, parent, depth, q);
    lemma_turned_routes_equal(parent, depth, p, q, u, v);
}

/// Each inner logical cell but the centre is deeper than its parent, an
/// inner logical cell joined to it by an open connector.
spec fn tree_open(m: Maze, parent: Map<(int, int), (int, int)>, depth: Map<(int, int), nat>) -> bool {
    forall|x: (int, int)|
        #[trigger] is_inner_logical(x) && x != (60int, 60int) ==> {
            &&& is_inner_logical(parent[x])
            &&& depth[parent[x]] < depth[x]
            &&& m.open_step(parent[x], x)
            &&& m.open_step(x, parent[x])
        }
}

/// The part of a route from its `j`-th cell on is a route.
proof fn lemma_route_suffix(m: Maze, t: Seq<(int, int)>, j: int)
    requires
        m.simple_route(t),
        0 <= j < t.len(),
    ensures
        m.simple_route(t.subrange(j, t.len() as int)),
{
    let r = t.subrange(j, t.len() as int);
    assert forall|i: int| 0 <= i < r.len() - 1 implies #[trigger] m.open_step(r[i], r[i + 1]) by {
        assert(m.open_step(t[j + i], t[j + i + 1]));
    }
    assert forall|i: int, k: int| 0 <= i < k < r.len() implies r[i] != r[k] by {
        assert(t[j + i] != t[j + k]);
    }
}

/// The part of a route up to its `j`-th cell is a route.
proof fn lemma_route_prefix(m: Maze, t: Seq<(int, int)>, j: int)
    requires
        m.simple_route(t),
        0 <= j < t.len(),
    ensures
        m.simple_route(t.subrange(0, j + 1)),
{
    let r = t.subrange(0, j + 1);
    assert forall|i: int| 0 <= i < r.len() - 1 implies #[trigger] m.open_step(r[i], r[i + 1]) by {
        assert(m.open_step(t[i], t[i + 1]));
    }
    assert forall|i: int, k: int| 0 <= i < k < r.len() implies r[i] != r[k] by {
        assert(t[i] != t[k]);
    }
}

/// A route extended at its front by a new cell joined to its first cell.
proof fn lemma_route_prepend(m: Maze, a: (int, int), t: Seq<(int, int)>)
    requires
        m.simple_route(t),
        !t.contains(a),
        m.open_step(a, t[0]),
    ensures
        m.simple_route(seq![a] + t),
{
    let r = seq![a] + t;
    assert forall|i: int| 0 <= i < r.len() - 1 implies #[trigger] m.open_step(r[i], r[i + 1]) by {
        if i > 0 {
            let k = i - 1;
            assert(m.open_step(t[k], t[k + 1]));
            assert(r[i] == t[k] && r[i + 1] == t[k + 1]);
        }
    }
    assert forall|i: int, k: int| 0 <= i < k < r.len() implies r[i] != r[k] by {
        if i > 0 {
            assert(t[i - 1] != t[k - 1]);
        } else {
            assert(r[k] == t[k - 1]);
        }
    }
}

/// A route extended at its end by a new cell joined to its last cell.
proof fn lemma_route_append(m: Maze, t: Seq<(int, int)>, b: (int, int))
    requires
        m.simple_route(t),
        !t.contains(b),
        m.open_step(t.last(), b),
    ensures
        m.simple_route(t.push(b)),
{
    let r = t.push(b);
    let n = t.len() as int;
    assert forall|i: int| 0 <= i < r.len() - 1 implies #[trigger] m.open_step(r[i], r[i + 1]) by {
        if i < n - 1 {
            assert(m.open_step(t[i], t[i + 1]));
        } else {
            assert(r[i] == t.last() && r[i + 1] == b);
        }
    }
    assert forall|i: int, k: int| 0 <= i < k < r.len() implies r[i] != r[k] by {
        if k < n {
            assert(t[i] != t[k]);
        } else {
            assert(r[i] == t[i]);
        }
    }
}

/// A route from `a` to `b` that visits no cell twice, built by climbing from
/// the deeper end.
#[verifier::spinoff_prover]
proof fn lemma_tree_route(
    m: Maze,
    parent: Map<(int, int), (int, int)>,
    depth: Map<(int, int), nat>,
    a: (int, int),
    b: (int, int),
) -> (r: Seq<(int, int)>)
    requires
        tree_open(m, parent, depth),
        is_inner_logical(a),
        is_inner_logical(b),
    ensures
        m.simple_route(r),
        r[0] == a,
        r.last() == b,
    decreases depth[a] + depth[b],
{
    if a == b {
        let r = seq![a];
        assert(m.simple_route(r));
        r
    } else if a != (60int, 60int) && (b == (60int, 60int) || depth[a] >= depth[b]) {
        assert(is_inner_logical(a));
        let t = lemma_tree_route(m, parent, depth, parent[a], b);
        if t.contains(a) {
            let j = choose|j: int| 0 <= j < t.len() && t[j] == a;
            lemma_route_suffix(m, t, j);
            t.subrange(j, t.len() as int)
        } else {
            lemma_route_prepend(m, a, t);
            seq![a] + t
        }
    } else {
        assert(is_inner_logical(b));
        let t = lemma_tree_route(m, parent, depth, a, parent[b]);
        if t.contains(b) {
            let j = choose|j: int| 0 <= j < t.len() && t[j] == b;
            lemma_route_prefix(m, t, j);
            t.subrange(0, j + 1)
        } else {
            lemma_route_append(m, t, b);
            t.push(b)
        }
    }
}

/// Between any two logical cells of a maze that `MazeGenerator::generate`
/// builds there is a route through open connectors that visits no cell twice.
/// With `lemma_route_unique` it is the only one: the start cell `(60, 60)` and
/// the cell that the goal opens onto are joined by exactly one such route.
pub proof fn lemma_route_exists(m: Maze, a: (int, int), b: (int, int))
    requires
        m.is_perfect_maze(),
        is_inner_logical(a),
        is_inner_logical(b),
    ensures
        exists|r: Seq<(int, int)>| #[trigger] m.simple_route(r) && r[0] == a && r.last() == b,
{
    let (parent, depth) = choose|parent: Map<(int, int), (int, int)>, depth: Map<(int, int), nat>|
        #[trigger] m.is_spanning_tree(parent, depth);
    assert(m.is_spanning_tree(parent, depth));
    assert forall|x: (int, int)| #[trigger] is_inner_logical(x) && x != (60int, 60int) implies {
        &&& is_inner_logical(parent[x])
        &&& depth[parent[x]] < depth[x]
        &&& m.open_step(parent[x], x)
        &&& m.open_step(x, parent[x])
    } by {
        let px = parent[x];
        assert(is_inner_logical(px) && adjacent(px, x));
        assert(tree_link(parent, px, x));
        assert(adjacent(x, px));
        assert(tree_link(parent, x, px));
    }
    let r = lemma_tree_route(m, parent, depth, a, b);
    assert(m.simple_route(r) && r[0] == a && r.last() == b);
}

} // verus!
