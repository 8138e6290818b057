//! Breadth-first path finding over the tiles the scouts have reported.

use crate::map::{Cell, Pos};
use crate::positions::{PosMap, PosSet};
use crate::robot::{adjacent, direction, directions, interior, is_interior, shifted};
use crate::world::SharedWorld;
use std::collections::VecDeque;
use vstd::prelude::*;

verus! {

/// A tile a collector may route through on its way to `goal`: one reported
/// as free, as a deposit or as the base, or the goal itself when the map
/// holds the base there.
pub open spec fn known_walkable(world: SharedWorld, goal: Pos, p: Pos) -> bool {
    ||| world.known_cells@.contains_key(p) && world.known_cells@[p] != Cell::Obstacle
    ||| p == goal && world.map.cell_at(p) == Some(Cell::Base)
}

/// A route: a sequence of single steps in which every tile after the first
/// may be walked on.
pub open spec fn is_route(world: SharedWorld, goal: Pos, path: Seq<Pos>) -> bool {
    &&& path.len() >= 1
    &&& forall|i: int|
        0 <= i < path.len() - 1 ==> adjacent(#[trigger] path[i], path[i + 1]) && known_walkable(
            world,
            goal,
            path[i + 1],
        )
}

/// There is a route of exactly `steps` steps from `a` to `b`.
pub open spec fn route_of_length(world: SharedWorld, goal: Pos, a: Pos, b: Pos, steps: nat) -> bool {
    exists|path: Seq<Pos>|
        #![trigger is_route(world, goal, path), path.len()]
        is_route(world, goal, path) && path[0] == a && path[path.len() - 1] == b && path.len()
            == steps + 1
}

/// There is a route from `a` to `b`.
pub open spec fn reachable(world: SharedWorld, goal: Pos, a: Pos, b: Pos) -> bool {
    exists|steps: nat| route_of_length(world, goal, a, b, steps)
}

/// Every tile a search from `from` toward `to` may expand has neighbours with
/// `i32` coordinates. The search expands nothing when `from` is `to`;
/// otherwise it expands only tiles that a route from `from` reaches in no
/// more steps than the shortest route to `to` takes (any number of steps when
/// `to` cannot be reached).
pub open spec fn search_in_range(world: SharedWorld, from: Pos, to: Pos) -> bool {
    from != to ==> forall|p: Pos, n: nat|
        #[trigger] route_of_length(world, to, from, p, n) && (forall|m: nat|
            m < n ==> !#[trigger] route_of_length(world, to, from, to, m)) ==> interior(p)
}

/// `from` and every tile a search toward `to` may step on have neighbours
/// with `i32` coordinates; a condition that can be checked without searching
/// and that implies `search_in_range`.
pub open spec fn walkable_tiles_interior(world: SharedWorld, from: Pos, to: Pos) -> bool {
    &&& interior(from)
    &&& forall|p: Pos| #[trigger] known_walkable(world, to, p) ==> interior(p)
}

/// The start of a route is reached by it in no steps.
proof fn lemma_route_of_length_start(world: SharedWorld, to: Pos, from: Pos)
    ensures
        route_of_length(world, to, from, from, 0),
{
    let path = seq![from];
    assert(is_route(world, to, path) && path.len() == 1);
}

/// The first `i + 1` tiles of a route from `from` are a route of `i` steps.
proof fn lemma_route_prefix(world: SharedWorld, to: Pos, path: Seq<Pos>, i: int)
    requires
        is_route(world, to, path),
        0 <= i < path.len(),
    ensures
        route_of_length(world, to, path[0], path[i], i as nat),
{
    let pre = path.take(i + 1);
    assert(is_route(world, to, pre)) by {
        assert forall|k: int| 0 <= k < pre.len() - 1 implies adjacent(#[trigger] pre[k], pre[k + 1])
            && known_walkable(world, to, pre[k + 1]) by {
            assert(pre[k] == path[k] && pre[k + 1] == path[k + 1]);
        }
    }
    assert(pre[0] == path[0] && pre[pre.len() - 1] == path[i] && pre.len() == i + 1);
}

/// When every tile the search may step on is interior, so is every tile it
/// may expand.
pub proof fn lemma_walkable_interior_in_range(world: SharedWorld, from: Pos, to: Pos)
    requires
        walkable_tiles_interior(world, from, to),
    ensures
        search_in_range(world, from, to),
{
    assert forall|p: Pos, n: nat|
        #[trigger] route_of_length(world, to, from, p, n) && (forall|m: nat|
            m < n ==> !#[trigger] route_of_length(world, to, from, to, m)) implies interior(p) by {
        let path = choose|path: Seq<Pos>|
            #![trigger is_route(world, to, path), path.len()]
            is_route(world, to, path) && path[0] == from && path[path.len() - 1] == p && path.len() == n + 1;
        if n > 0 {
            assert(adjacent(path[n - 1], path[n as int]) && known_walkable(world, to, path[n as int]));
        }
    }
}

/// A search in range starts from an interior tile.
pub proof fn lemma_search_start_interior(world: SharedWorld, from: Pos, to: Pos)
    requires
        from != to,
        search_in_range(world, from, to),
    ensures
        interior(from),
{
    lemma_route_of_length_start(world, to, from);
}

/// The rank of the move from `a` to its neighbour `b`: north 0, south 1,
/// west 2, east 3.
pub open spec fn step_rank(a: Pos, b: Pos) -> int {
    if b == shifted(a, direction(0)) {
        0
    } else if b == shifted(a, direction(1)) {
        1
    } else if b == shifted(a, direction(2)) {
        2
    } else {
        3
    }
}

/// `p` and `q` agree on their first `k + 1` tiles and `p` then makes the
/// lower-ranked move.
pub open spec fn first_split_lower(p: Seq<Pos>, q: Seq<Pos>, k: int) -> bool {
    &&& 0 <= k < p.len() - 1
    &&& p.take(k + 1) == q.take(k + 1)
    &&& step_rank(p[k], p[k + 1]) < step_rank(q[k], q[k + 1])
}

/// Of two routes of the same length from the same tile, `p` comes first when
/// the routes are compared move by move in the order north, south, west,
/// east.
pub open spec fn precedes(p: Seq<Pos>, q: Seq<Pos>) -> bool {
    &&& p.len() == q.len()
    &&& exists|k: int| #[trigger] first_split_lower(p, q, k)
}

/// Coming first is transitive.
proof fn lemma_precedes_transitive(a: Seq<Pos>, b: Seq<Pos>, c: Seq<Pos>)
    requires
        precedes(a, b),
        precedes(b, c),
    ensures
        precedes(a, c),
{
    let k1 = choose|k: int| #[trigger] first_split_lower(a, b, k);
    let k2 = choose|k: int| #[trigger] first_split_lower(b, c, k);
    if k1 < k2 {
        assert(b.take(k1 + 1) =~= b.take(k2 + 1).take(k1 + 1));
        assert(c.take(k1 + 1) =~= c.take(k2 + 1).take(k1 + 1));
        assert(b[k1] == b.take(k2 + 1)[k1] && b[k1 + 1] == b.take(k2 + 1)[k1 + 1]);
        assert(c[k1] == c.take(k2 + 1)[k1] && c[k1 + 1] == c.take(k2 + 1)[k1 + 1]);
        assert(first_split_lower(a, c, k1));
    } else if k2 < k1 {
        assert(a.take(k2 + 1) =~= a.take(k1 + 1).take(k2 + 1));
        assert(b.take(k2 + 1) =~= b.take(k1 + 1).take(k2 + 1));
        assert(a[k2] == a.take(k1 + 1)[k2] && a[k2 + 1] == a.take(k1 + 1)[k2 + 1]);
        assert(b[k2] == b.take(k1 + 1)[k2] && b[k2 + 1] == b.take(k1 + 1)[k2 + 1]);
        assert(first_split_lower(a, c, k2));
    } else {
        assert(first_split_lower(a, c, k1));
    }
}

/// Extending two routes by one tile each keeps the first one first.
proof fn lemma_precedes_extend(a: Seq<Pos>, b: Seq<Pos>, x: Pos, y: Pos)
    requires
        precedes(a, b),
    ensures
        precedes(a.push(x), b.push(y)),
{
    let k = choose|k: int| #[trigger] first_split_lower(a, b, k);
    assert(a.push(x).take(k + 1) =~= a.take(k + 1));
    assert(b.push(y).take(k + 1) =~= b.take(k + 1));
    assert(first_split_lower(a.push(x), b.push(y), k));
}

/// Extending two routes of the same length by the same tile: if the first
/// did not come before the second, it still does not.
proof fn lemma_not_precedes_extend(a: Seq<Pos>, b: Seq<Pos>, w: Pos)
    requires
        a.len() == b.len(),
        a.len() >= 1,
        !precedes(a, b),
    ensures
        !precedes(a.push(w), b.push(w)),
{
    if precedes(a.push(w), b.push(w)) {
        let k = choose|k: int| #[trigger] first_split_lower(a.push(w), b.push(w), k);
        if k < a.len() - 1 {
            assert(a.take(k + 1) =~= a.push(w).take(k + 1));
            assert(b.take(k + 1) =~= b.push(w).take(k + 1));
            assert(a[k] == a.push(w)[k] && a[k + 1] == a.push(w)[k + 1]);
            assert(b[k] == b.push(w)[k] && b[k + 1] == b.push(w)[k + 1]);
            assert(first_split_lower(a, b, k));
        } else {
            assert(a =~= a.push(w).take(k + 1));
            assert(b =~= b.push(w).take(k + 1));
        }
    }
}

/// Two one-tile extensions of the same route: the lower-ranked move comes
/// first.
proof fn lemma_precedes_by_rank(t: Seq<Pos>, x: Pos, y: Pos)
    requires
        t.len() >= 1,
        step_rank(t.last(), x) < step_rank(t.last(), y),
    ensures
        precedes(t.push(x), t.push(y)),
{
    let k = t.len() - 1;
    assert(t.push(x).take(k + 1) =~= t);
    assert(t.push(y).take(k + 1) =~= t);
    assert(first_split_lower(t.push(x), t.push(y), k));
}

/// The move to the `k`-th cardinal neighbour of an interior tile has rank `k`.
proof fn lemma_step_rank_of_direction(a: Pos, k: int)
    requires
        interior(a),
        0 <= k < 4,
    ensures
        step_rank(a, shifted(a, direction(k))) == k,
{
}

/// The first step toward `to` from `from`: `from` itself when already
/// there; `None` exactly when no route leads there; otherwise the second tile
/// of the route from `from` to `to` that is shortest and, among the shortest,
/// comes first when routes are compared move by move in the order north,
/// south, west, east.
pub open spec fn is_first_step(world: SharedWorld, from: Pos, to: Pos, r: Option<Pos>) -> bool {
    if from == to {
        r == Some(from)
    } else {
        match r {
            None => !reachable(world, to, from, to),
            Some(n) => exists|path: Seq<Pos>| #[trigger] is_chosen_route(world, from, to, path) && path[1] == n,
        }
    }
}

/// `path` is the shortest route from `from` to `to` that comes first in
/// north, south, west, east order among the shortest.
pub open spec fn is_chosen_route(world: SharedWorld, from: Pos, to: Pos, path: Seq<Pos>) -> bool {
    &&& is_route(world, to, path)
    &&& path.len() >= 2
    &&& path[0] == from
    &&& path[path.len() - 1] == to
    &&& forall|s: nat| s < path.len() - 1 ==> !#[trigger] route_of_length(world, to, from, to, s)
    &&& forall|q: Seq<Pos>|
        is_route(world, to, q) && q[0] == from && q[q.len() - 1] == to && q.len() == path.len()
            ==> !#[trigger] precedes(q, path)
}

/// A step toward another tile always lands on a walkable neighbour of the
/// start.
pub proof fn law_first_step_is_walkable_neighbor(world: SharedWorld, from: Pos, to: Pos, n: Pos)
    requires
        from != to,
        is_first_step(world, from, to, Some(n)),
    ensures
        adjacent(from, n),
        known_walkable(world, to, n),
{
    let path = choose|path: Seq<Pos>| #[trigger] is_chosen_route(world, from, to, path) && path[1] == n;
    assert(adjacent(path[0], path[1]) && known_walkable(world, to, path[1]));
}

/// Every tile the scouts have reported as anything but an obstacle (a free
/// tile, a deposit or the base) may be routed through, whatever the goal; a
/// tile reported as an obstacle, or not reported at all, may not, unless it
/// is the goal and the map holds the base there.
pub proof fn law_reported_tiles_are_walkable(world: SharedWorld, goal: Pos, p: Pos)
    ensures
        world.known_cells@.contains_key(p) && world.known_cells@[p] != Cell::Obstacle ==> known_walkable(
            world,
            goal,
            p,
        ),
        (world.known_cells@.contains_key(p) && world.known_cells@[p] matches Cell::Resource(_, _))
            ==> known_walkable(world, goal, p),
        !(p == goal && world.map.cell_at(p) == Some(Cell::Base)) && !(world.known_cells@.contains_key(p)
            && world.known_cells@[p] != Cell::Obstacle) ==> !known_walkable(world, goal, p),
{
}

/// The search misses no reported path: when a chain of single steps leads
/// from `from` to another tile `to` over tiles all reported as anything but
/// an obstacle (deposits included, whatever the goal), the first step toward
/// `to` is some tile, never `None`.
pub proof fn law_reported_path_is_found(
    world: SharedWorld,
    from: Pos,
    to: Pos,
    path: Seq<Pos>,
    r: Option<Pos>,
)
    requires
        from != to,
        path.len() >= 2,
        path[0] == from,
        path[path.len() - 1] == to,
        forall|i: int|
            0 <= i < path.len() - 1 ==> adjacent(#[trigger] path[i], path[i + 1])
                && world.known_cells@.contains_key(path[i + 1]) && world.known_cells@[path[i + 1]]
                != Cell::Obstacle,
        is_first_step(world, from, to, r),
    ensures
        r is Some,
{
    assert(is_route(world, to, path));
    assert(route_of_length(world, to, from, to, (path.len() - 1) as nat));
}

/// The first place where two different sequences of the same length differ.
proof fn lemma_first_difference(p: Seq<Pos>, q: Seq<Pos>, i: int) -> (j: int)
    requires
        p.len() == q.len(),
        0 <= i <= p.len(),
        forall|k: int| 0 <= k < i ==> p[k] == q[k],
        p != q,
    ensures
        i <= j < p.len(),
        p[j] != q[j],
        forall|k: int| 0 <= k < j ==> p[k] == q[k],
    decreases p.len() - i,
{
    if i == p.len() {
        assert(p =~= q);
        i
    } else if p[i] != q[i] {
        i
    } else {
        lemma_first_difference(p, q, i + 1)
    }
}

/// Distinct neighbours of an interior tile are reached by moves of distinct
/// rank.
proof fn lemma_step_rank_distinct(a: Pos, b: Pos, c: Pos)
    requires
        interior(a),
        adjacent(a, b),
        adjacent(a, c),
        b != c,
    ensures
        step_rank(a, b) != step_rank(a, c),
{
    lemma_adjacent_is_cardinal(a, b);
    lemma_adjacent_is_cardinal(a, c);
    let kb = choose|k: int| 0 <= k < 4 && b == #[trigger] shifted(a, direction(k));
    let kc = choose|k: int| 0 <= k < 4 && c == #[trigger] shifted(a, direction(k));
    lemma_step_rank_of_direction(a, kb);
    lemma_step_rank_of_direction(a, kc);
}

/// Two different routes of the same length from the same start are ordered:
/// one comes first.
proof fn lemma_distinct_routes_ordered(world: SharedWorld, from: Pos, to: Pos, p: Seq<Pos>, q: Seq<Pos>)
    requires
        forall|i: int| 0 <= i < p.len() - 1 ==> interior(#[trigger] p[i]),
        is_route(world, to, p),
        is_route(world, to, q),
        p[0] == from,
        q[0] == from,
        p.len() == q.len(),
        p != q,
    ensures
        precedes(p, q) || precedes(q, p),
{
    let j = lemma_first_difference(p, q, 0);
    assert(j >= 1);
    let a = p[j - 1];
    assert(adjacent(p[j - 1], p[j]) && known_walkable(world, to, p[j]));
    assert(adjacent(q[j - 1], q[j]) && known_walkable(world, to, q[j]));
    assert(interior(p[j - 1]));
    lemma_step_rank_distinct(a, p[j], q[j]);
    assert(p.take(j) =~= q.take(j));
    if step_rank(a, p[j]) < step_rank(a, q[j]) {
        assert(first_split_lower(p, q, j - 1));
    } else {
        assert(first_split_lower(q, p, j - 1));
    }
}

/// The chosen route is unique: the first step toward a reachable tile is
/// determined by the world, the start and the goal.
pub proof fn law_chosen_route_is_unique(world: SharedWorld, from: Pos, to: Pos, p: Seq<Pos>, q: Seq<Pos>)
    requires
        search_in_range(world, from, to),
        is_chosen_route(world, from, to, p),
        is_chosen_route(world, from, to, q),
    ensures
        p == q,
{
    assert(p.len() == q.len()) by {
        assert(route_of_length(world, to, from, to, (p.len() - 1) as nat));
        assert(route_of_length(world, to, from, to, (q.len() - 1) as nat));
    }
    if p != q {
        assert(from != to) by {
            if from == to {
                lemma_route_of_length_start(world, to, from);
            }
        }
        assert forall|i: int| 0 <= i < p.len() - 1 implies interior(#[trigger] p[i]) by {
            lemma_route_prefix(world, to, p, i);
            assert forall|m: nat| m < i implies !#[trigger] route_of_length(world, to, from, to, m) by {}
        }
        lemma_distinct_routes_ordered(world, from, to, p, q);
    }
}

/// Whether `walkable_tiles_interior(world, from, to)` holds; when it does,
/// the search from `from` toward `to` is in range.
pub fn search_fits(world: &SharedWorld, from: Pos, to: Pos) -> (r: bool)
    requires
        world.map.wf(),
    ensures
        r == walkable_tiles_interior(*world, from, to),
        r ==> search_in_range(*world, from, to),
{
    if !is_interior(from) {
        return false;
    }
    let known = world.known_cells.positions();
    let n = known.len();
    let mut i: usize = 0;
    while i < n
        invariant
            world.map.wf(),
            interior(from),
            n == known@.len(),
            i <= n,
            forall|p: Pos| world.known_cells@.contains_key(p) <==> known@.contains(p),
            forall|j: int|
                0 <= j < i && known_walkable(*world, to, #[trigger] known@[j]) ==> interior(known@[j]),
        decreases n - i,
    {
        let p = known[i];
        if is_known_walkable(p, to, world) && !is_interior(p) {
            return false;
        }
        i = i + 1;
    }
    proof {
        assert forall|p: Pos| #[trigger] known_walkable(*world, to, p) implies interior(p) by {
            if world.known_cells@.contains_key(p) && world.known_cells@[p] != Cell::Obstacle {
                assert(known@.contains(p));
                let j = choose|j: int| 0 <= j < known@.len() && known@[j] == p;
            } else {
                assert(world.map.in_bounds(p));
            }
        }
        lemma_walkable_interior_in_range(*world, from, to);
    }
    true
}

/// The state of the search: `visited` tiles are `done` (expanded) or queued;
/// each visited tile but `from` has a parent one step closer, and its level
/// counts the steps from `from`; queued levels are sorted and span at most
/// one; every walkable neighbour of an expanded tile is visited at a level at
/// most one more. Each visited tile has a tree route, the chain of parents,
/// which comes first among routes of its length to it; the queue, and the
/// expanded tiles before it, are in the order of their tree routes.
pub open spec fn search_state(
    world: SharedWorld,
    from: Pos,
    to: Pos,
    visited: Set<Pos>,
    done: Set<Pos>,
    queue: Seq<Pos>,
    parent: Map<Pos, Pos>,
    level: Map<Pos, nat>,
    tree: Map<Pos, Seq<Pos>>,
) -> bool {
    &&& level.dom() == visited
    &&& tree.dom() == visited
    &&& visited.contains(from)
    &&& level[from] == 0
    &&& forall|v: Pos| #[trigger] visited.contains(v) <==> (done.contains(v) || queue.contains(v))
    &&& forall|i: int| 0 <= i < queue.len() ==> !done.contains(#[trigger] queue[i])
    &&& queue.no_duplicates()
    &&& !done.contains(to)
    &&& parent.dom() == visited.remove(from)
    &&& forall|v: Pos|
        #[trigger] parent.dom().contains(v) ==> {
            &&& adjacent(parent[v], v)
            &&& visited.contains(parent[v])
            &&& done.contains(parent[v])
            &&& level[v] == level[parent[v]] + 1
            &&& known_walkable(world, to, v)
            &&& tree[v] == tree[parent[v]].push(v)
        }
    &&& forall|i: int, j: int|
        0 <= i <= j < queue.len() ==> level[#[trigger] queue[i]] <= level[#[trigger] queue[j]]
    &&& forall|i: int| 0 <= i < queue.len() ==> level[#[trigger] queue[i]] <= level[queue[0]] + 1
    &&& forall|d: Pos, i: int|
        #[trigger] done.contains(d) && 0 <= i < queue.len() ==> level[d] <= level[#[trigger] queue[i]]
    &&& forall|d: Pos, w: Pos|
        done.contains(d) && #[trigger] adjacent(d, w) && known_walkable(world, to, w)
            ==> visited.contains(w) && level[w] <= level[d] + 1
    &&& forall|v: Pos| #[trigger] visited.contains(v) ==> v == from || known_walkable(world, to, v)
    &&& forall|v: Pos| #[trigger] visited.contains(v) ==> tree_route(world, from, to, v, tree[v], level[v])
    &&& forall|i: int, j: int|
        0 <= i < j < queue.len() ==> level[#[trigger] queue[i]] < level[#[trigger] queue[j]]
            || precedes(tree[queue[i]], tree[queue[j]])
    &&& forall|d: Pos, i: int|
        #[trigger] done.contains(d) && 0 <= i < queue.len() && level[d] == level[#[trigger] queue[i]]
            ==> precedes(tree[d], tree[queue[i]])
}

/// `t` is a route of `lvl` steps from `from` to `v` that comes first among
/// all routes of that length between them.
pub open spec fn tree_route(world: SharedWorld, from: Pos, to: Pos, v: Pos, t: Seq<Pos>, lvl: nat) -> bool {
    &&& is_route(world, to, t)
    &&& t[0] == from
    &&& t.len() == lvl + 1
    &&& t[t.len() - 1] == v
    &&& forall|q: Seq<Pos>|
        is_route(world, to, q) && q[0] == from && q.len() == t.len() && q[q.len() - 1] == v
            ==> !#[trigger] precedes(q, t)
}

/// Along a route from `from`, while the tiles stay below the level of the
/// queue head, each tile `i` steps in is visited at level at most `i`.
proof fn lemma_route_prefix_levels(
    world: SharedWorld,
    from: Pos,
    to: Pos,
    visited: Set<Pos>,
    done: Set<Pos>,
    queue: Seq<Pos>,
    parent: Map<Pos, Pos>,
    level: Map<Pos, nat>,
    tree: Map<Pos, Seq<Pos>>,
    path: Seq<Pos>,
    i: int,
)
    requires
        search_state(world, from, to, visited, done, queue, parent, level, tree),
        queue.len() > 0,
        is_route(world, to, path),
        path[0] == from,
        0 <= i < path.len(),
    ensures
        level[queue[0]] <= i || (visited.contains(path[i]) && level[path[i]] <= i),
    decreases i,
{
    if i > 0 {
        lemma_route_prefix_levels(world, from, to, visited, done, queue, parent, level, tree, path, i - 1);
        if !(level[queue[0]] <= i - 1) {
            let p = path[i - 1];
            assert(adjacent(path[i - 1], path[i]) && known_walkable(world, to, path[i]));
            if !done.contains(p) {
                assert(queue.contains(p));
                let k = choose|k: int| 0 <= k < queue.len() && queue[k] == p;
                assert(level[queue[0]] <= level[queue[k]]);
            }
            assert(adjacent(p, path[i]));
        }
    }
}

/// When the search has stopped with `to` at the head of the queue, no route
/// from `from` reaches `to` in fewer steps than the level of `to`.
proof fn lemma_search_lower_bound(
    world: SharedWorld,
    from: Pos,
    to: Pos,
    visited: Set<Pos>,
    done: Set<Pos>,
    queue: Seq<Pos>,
    parent: Map<Pos, Pos>,
    level: Map<Pos, nat>,
    tree: Map<Pos, Seq<Pos>>,
    path: Seq<Pos>,
)
    requires
        search_state(world, from, to, visited, done, queue, parent, level, tree),
        queue.len() > 0,
        queue[0] == to,
        is_route(world, to, path),
        path[0] == from,
        path[path.len() - 1] == to,
    ensures
        level[to] <= path.len() - 1,
{
    lemma_route_prefix_levels(world, from, to, visited, done, queue, parent, level, tree, path, path.len() - 1);
}

/// The tile at the head of the queue, when it is not `to`, is one the search
/// may expand: no route reaches `to` in fewer steps than it takes to reach
/// the head, so a search in range keeps the head interior.
proof fn lemma_head_in_range(
    world: SharedWorld,
    from: Pos,
    to: Pos,
    visited: Set<Pos>,
    done: Set<Pos>,
    queue: Seq<Pos>,
    parent: Map<Pos, Pos>,
    level: Map<Pos, nat>,
    tree: Map<Pos, Seq<Pos>>,
)
    requires
        from != to,
        search_in_range(world, from, to),
        search_state(world, from, to, visited, done, queue, parent, level, tree),
        queue.len() > 0,
        queue[0] != to,
    ensures
        interior(queue[0]),
{
    let c = queue[0];
    assert(queue.contains(c));
    assert(visited.contains(c));
    let t = tree[c];
    assert(tree_route(world, from, to, c, t, level[c]));
    assert(is_route(world, to, t) && t.len() == level[c] + 1);
    assert(route_of_length(world, to, from, c, level[c]));
    assert forall|m: nat| m < level[c] implies !#[trigger] route_of_length(world, to, from, to, m) by {
        if route_of_length(world, to, from, to, m) {
            let path = choose|path: Seq<Pos>|
                #![trigger is_route(world, to, path), path.len()]
                is_route(world, to, path) && path[0] == from && path[path.len() - 1] == to && path.len()
                    == m + 1;
            lemma_route_prefix_levels(world, from, to, visited, done, queue, parent, level, tree, path, m as int);
            assert(visited.contains(to));
            assert(queue.contains(to));
            let k = choose|k: int| 0 <= k < queue.len() && queue[k] == to;
            assert(level[queue[0]] <= level[queue[k]]);
        }
    }
}

/// A tile discovered from the queue head `u` gets the route through `u`, and
/// no route of that length to it comes first.
#[verifier::rlimit(50)]
proof fn lemma_discovery_comes_first(
    world: SharedWorld,
    from: Pos,
    to: Pos,
    visited: Set<Pos>,
    done: Set<Pos>,
    queue: Seq<Pos>,
    parent: Map<Pos, Pos>,
    level: Map<Pos, nat>,
    tree: Map<Pos, Seq<Pos>>,
    w: Pos,
    q: Seq<Pos>,
)
    requires
        search_state(world, from, to, visited, done, queue, parent, level, tree),
        queue.len() > 0,
        adjacent(queue[0], w),
        known_walkable(world, to, w),
        !visited.contains(w),
        is_route(world, to, q),
        q[0] == from,
        q.len() == level[queue[0]] + 2,
        q[q.len() - 1] == w,
    ensures
        !precedes(q, tree[queue[0]].push(w)),
{
    let u = queue[0];
    let lvl = level[u] as int;
    let qp = q.drop_last();
    assert(q =~= qp.push(w));
    assert(is_route(world, to, qp)) by {
        assert forall|i: int| 0 <= i < qp.len() - 1 implies adjacent(#[trigger] qp[i], qp[i + 1])
            && known_walkable(world, to, qp[i + 1]) by {
            assert(qp[i] == q[i] && qp[i + 1] == q[i + 1]);
        }
    }
    let u2 = qp[lvl];
    assert(adjacent(q[lvl], q[lvl + 1]));
    assert(visited.contains(u));
    // the tile before `w` on `q` is visited at level `lvl`
    if lvl == 0 {
        if u != from {
            assert(parent.dom().contains(u));
        }
        assert(u2 == from);
    } else {
        lemma_route_prefix_levels(world, from, to, visited, done, queue, parent, level, tree, qp, lvl - 1);
        let p = qp[lvl - 1];
        assert(adjacent(qp[lvl - 1], qp[lvl]) && known_walkable(world, to, qp[lvl]));
        if !done.contains(p) {
            assert(queue.contains(p));
            let k = choose|k: int| 0 <= k < queue.len() && queue[k] == p;
            assert(level[queue[0]] <= level[queue[k]]);
        }
        assert(adjacent(p, u2));
    }
    assert(visited.contains(u2) && level[u2] <= lvl);
    if done.contains(u2) {
        assert(adjacent(u2, w));
        assert(false);
    }
    assert(queue.contains(u2));
    let j = choose|j: int| 0 <= j < queue.len() && queue[j] == u2;
    assert(level[queue[0]] <= level[queue[j]]);
    assert(level[u2] == lvl);
    assert(tree_route(world, from, to, u2, tree[u2], level[u2]));
    assert(!precedes(qp, tree[u2]));
    if j > 0 {
        assert(precedes(tree[u], tree[u2]));
        if precedes(qp, tree[u]) {
            lemma_precedes_transitive(qp, tree[u], tree[u2]);
        }
    }
    assert(!precedes(qp, tree[u]));
    assert(tree_route(world, from, to, u, tree[u], level[u]));
    lemma_not_precedes_extend(qp, tree[u], w);
}

/// When the search stops with `to` at the head of the queue, the tree route
/// of `to` is the chosen route.
proof fn lemma_tree_route_is_chosen(
    world: SharedWorld,
    from: Pos,
    to: Pos,
    visited: Set<Pos>,
    done: Set<Pos>,
    queue: Seq<Pos>,
    parent: Map<Pos, Pos>,
    level: Map<Pos, nat>,
    tree: Map<Pos, Seq<Pos>>,
)
    requires
        from != to,
        search_state(world, from, to, visited, done, queue, parent, level, tree),
        queue.len() > 0,
        queue[0] == to,
    ensures
        is_chosen_route(world, from, to, tree[to]),
{
    let path = tree[to];
    assert(queue.contains(to));
    assert(visited.contains(to));
    assert(tree_route(world, from, to, to, path, level[to]));
    assert(parent.dom().contains(to));
    assert forall|s: nat| s < path.len() - 1 implies !#[trigger] route_of_length(world, to, from, to, s) by {
        if route_of_length(world, to, from, to, s) {
            let q = choose|q: Seq<Pos>|
                #![trigger is_route(world, to, q), q.len()]
                is_route(world, to, q) && q[0] == from && q[q.len() - 1] == to && q.len() == s + 1;
            lemma_search_lower_bound(world, from, to, visited, done, queue, parent, level, tree, q);
        }
    }
}

/// One step back along the parent chain inside the tree route of `to`: the
/// parent's tree route is the next shorter prefix, and when the parent is
/// the start the tile is the second of the route.
proof fn lemma_walk_back(
    tree_to: Seq<Pos>,
    tree_cur: Seq<Pos>,
    tree_prev: Seq<Pos>,
    current: Pos,
    lc: int,
)
    requires
        tree_cur == tree_prev.push(current),
        tree_cur.len() == lc + 1,
        lc >= 1,
        lc + 1 <= tree_to.len(),
        tree_to.take(lc + 1) == tree_cur,
    ensures
        tree_to.take(lc) == tree_prev,
        lc == 1 ==> tree_to[1] == current,
{
    assert(tree_to.take(lc) =~= tree_cur.drop_last());
    assert(tree_to[lc] == tree_to.take(lc + 1)[lc]);
}

/// With the queue empty, every tile along a route from `from` is visited.
proof fn lemma_route_prefix_visited(
    world: SharedWorld,
    from: Pos,
    to: Pos,
    visited: Set<Pos>,
    done: Set<Pos>,
    parent: Map<Pos, Pos>,
    level: Map<Pos, nat>,
    tree: Map<Pos, Seq<Pos>>,
    path: Seq<Pos>,
    i: int,
)
    requires
        search_state(world, from, to, visited, done, Seq::empty(), parent, level, tree),
        is_route(world, to, path),
        path[0] == from,
        0 <= i < path.len(),
    ensures
        visited.contains(path[i]),
    decreases i,
{
    if i > 0 {
        lemma_route_prefix_visited(world, from, to, visited, done, parent, level, tree, path, i - 1);
        assert(adjacent(path[i - 1], path[i]) && known_walkable(world, to, path[i]));
        assert(Seq::<Pos>::empty().contains(path[i - 1]) == false);
    }
}

/// When the queue has run dry, every tile reachable from `from` has been
/// visited, so `to`, never expanded, is not reachable.
proof fn lemma_search_exhausted(
    world: SharedWorld,
    from: Pos,
    to: Pos,
    visited: Set<Pos>,
    done: Set<Pos>,
    parent: Map<Pos, Pos>,
    level: Map<Pos, nat>,
    tree: Map<Pos, Seq<Pos>>,
)
    requires
        search_state(world, from, to, visited, done, Seq::empty(), parent, level, tree),
        from != to,
    ensures
        !reachable(world, to, from, to),
{
    assert forall|steps: nat| !route_of_length(world, to, from, to, steps) by {
        if route_of_length(world, to, from, to, steps) {
            let path = choose|path: Seq<Pos>|
                #![trigger is_route(world, to, path), path.len()]
                is_route(world, to, path) && path[0] == from && path[path.len() - 1] == to
                    && path.len() == steps + 1;
            lemma_route_prefix_visited(world, from, to, visited, done, parent, level, tree, path, path.len() - 1);
            assert(Seq::<Pos>::empty().contains(to) == false);
        }
    }
}

/// The four tiles one step away from `pos`, in the order north, south, west,
/// east.
pub fn cardinal_neighbors(pos: Pos) -> (r: Vec<Pos>)
    requires
        interior(pos),
    ensures
        r@.len() == 4,
        forall|k: int| 0 <= k < 4 ==> #[trigger] r@[k] == shifted(pos, direction(k)),
{
    let dirs = directions();
    let mut r: Vec<Pos> = Vec::new();
    let mut k: usize = 0;
    while k < 4
        invariant
            interior(pos),
            dirs@.len() == 4,
            forall|j: int| 0 <= j < 4 ==> #[trigger] dirs@[j] == direction(j),
            k <= 4,
            r@.len() == k,
            forall|j: int| 0 <= j < k ==> #[trigger] r@[j] == shifted(pos, direction(j)),
        decreases 4 - k,
    {
        let (dx, dy) = dirs[k];
        r.push(Pos { x: pos.x + dx, y: pos.y + dy });
        k = k + 1;
    }
    r
}

/// The tiles one step away from `p` are exactly the four cardinal moves.
pub proof fn lemma_adjacent_is_cardinal(p: Pos, w: Pos)
    requires
        interior(p),
    ensures
        adjacent(p, w) <==> exists|k: int| 0 <= k < 4 && w == #[trigger] shifted(p, direction(k)),
{
    if adjacent(p, w) {
        if w.x == p.x && w.y == p.y - 1 {
            assert(w == shifted(p, direction(0)));
        } else if w.x == p.x && w.y == p.y + 1 {
            assert(w == shifted(p, direction(1)));
        } else if w.x == p.x - 1 {
            assert(w == shifted(p, direction(2)));
        } else {
            assert(w == shifted(p, direction(3)));
        }
    }
}

/// Whether `pos` may be routed through on the way to `goal`.
pub fn is_known_walkable(pos: Pos, goal: Pos, world: &SharedWorld) -> (r: bool)
    requires
        world.map.wf(),
    ensures
        r == known_walkable(*world, goal, pos),
{
    let known = match world.known_cells.get(&pos) {
        Some(Cell::Empty) | Some(Cell::Resource(_, _)) | Some(Cell::Base) => true,
        _ => false,
    };
    if known {
        return true;
    }
    if pos == goal {
        match world.map.get(pos) {
            Some(Cell::Base) => true,
            _ => false,
        }
    } else {
        false
    }
}

/// The first step toward `to` from `from` through tiles the scouts have
/// reported walkable, found by a breadth-first search that tries the moves
/// north, south, west, east in that order: see `is_first_step`.
#[verifier::rlimit(50)]
pub fn next_step_toward(from: Pos, to: Pos, world: &SharedWorld) -> (r: Option<Pos>)
    requires
        world.map.wf(),
        search_in_range(*world, from, to),
    ensures
        is_first_step(*world, from, to, r),
{
    if from == to {
        return Some(from);
    }
    let mut frontier: VecDeque<Pos> = VecDeque::new();
    frontier.push_back(from);
    let mut visited = PosSet::new();
    visited.insert(from);
    let mut came_from: PosMap<Pos> = PosMap::new();
    let ghost mut done: Set<Pos> = Set::empty();
    let ghost mut level: Map<Pos, nat> = Map::empty().insert(from, 0nat);
    let ghost mut tree: Map<Pos, Seq<Pos>> = Map::empty().insert(from, seq![from]);
    let ghost universe: Set<Pos> = world.known_cells@.dom().insert(from).insert(to);
    proof {
        world.known_cells.lemma_finite();
        assert(visited@ =~= set![from]);
        assert(came_from@ =~= Map::<Pos, Pos>::empty());
        assert(level.dom() =~= visited@);
        assert(tree.dom() =~= visited@);
        assert(came_from@.dom() =~= visited@.remove(from));
        assert(forall|v: Pos| #[trigger] visited@.contains(v) <==> (done.contains(v) || frontier@.contains(v))) by {
            assert(frontier@[0] == from);
        }
        assert forall|q: Seq<Pos>|
            is_route(*world, to, q) && q[0] == from && q.len() == tree[from].len() && q[q.len() - 1] == from
                implies !#[trigger] precedes(q, tree[from]) by {
            if precedes(q, tree[from]) {
                let k = choose|k: int| #[trigger] first_split_lower(q, tree[from], k);
            }
        }
        assert(tree_route(*world, from, to, from, tree[from], level[from]));
    }
    loop
        invariant
            from != to,
            world.map.wf(),
            search_in_range(*world, from, to),
            search_state(*world, from, to, visited@, done, frontier@, came_from@, level, tree),
            universe == world.known_cells@.dom().insert(from).insert(to),
            universe.finite(),
            visited@.subset_of(universe),
        ensures
            search_state(*world, from, to, visited@, done, frontier@, came_from@, level, tree),
            frontier@.len() == 0 || frontier@[0] == to,
        decreases 2 * (universe.len() - visited@.len()) + frontier@.len(),
    {
        if frontier.len() == 0 {
            break;
        }
        let current = frontier[0];
        if current == to {
            break;
        }
        let ghost queue0 = frontier@;
        let ghost visited0 = visited@;
        let ghost level0 = level;
        let ghost tree0 = tree;
        let ghost done0 = done;
        let ghost parent0 = came_from@;
        let ghost lc = level[current];
        let _ = frontier.pop_front();
        proof {
            vstd::set_lib::lemma_len_subset(visited@, universe);
            assert(frontier@ =~= queue0.drop_first());
            assert(queue0.contains(current));
            assert(visited@.contains(current));
            assert(current == from || known_walkable(*world, to, current));
            assert forall|v: Pos| queue0.contains(v) <==> (v == current || frontier@.contains(v)) by {
                if queue0.contains(v) {
                    let i = choose|i: int| 0 <= i < queue0.len() && queue0[i] == v;
                    if i > 0 {
                        assert(frontier@[i - 1] == v);
                    }
                }
                if frontier@.contains(v) {
                    let i = choose|i: int| 0 <= i < frontier@.len() && frontier@[i] == v;
                    assert(queue0[i + 1] == v);
                }
            }
            assert forall|i: int| 0 <= i < frontier@.len() implies #[trigger] frontier@[i] != current by {
                assert(queue0[i + 1] == frontier@[i]);
                assert(queue0[0] == current);
            }
            assert forall|i: int| 0 <= i < queue0.len() implies lc <= level[#[trigger] queue0[i]]
                && level[queue0[i]] <= lc + 1 by {
                assert(level[queue0[0]] <= level[queue0[i]]);
            }
            assert(tree_route(*world, from, to, current, tree[current], level[current]));
            lemma_head_in_range(*world, from, to, visited0, done0, queue0, parent0, level0, tree0);
        }
        let neighbors = cardinal_neighbors(current);
        let mut k: usize = 0;
        while k < 4
            invariant
                from != to,
                world.map.wf(),
                search_in_range(*world, from, to),
                universe == world.known_cells@.dom().insert(from).insert(to),
                universe.finite(),
                visited@.subset_of(universe),
                visited@.finite(),
                visited0.finite(),
                visited@.len() - visited0.len() == frontier@.len() - (queue0.len() - 1),
                visited0.subset_of(visited@),
                k <= 4,
                neighbors@.len() == 4,
                forall|j: int| 0 <= j < 4 ==> #[trigger] neighbors@[j] == shifted(current, direction(j)),
                queue0.len() > 0,
                queue0[0] == current,
                visited0.contains(current),
                interior(current),
                current != to,
                lc == level[current],
                !done.contains(current),
                search_state(*world, from, to, visited0, done0, queue0, parent0, level0, tree0),
                done == done0,
                forall|i: int|
                    0 <= i < queue0.len() ==> lc <= level0[#[trigger] queue0[i]] && level0[queue0[i]]
                        <= lc + 1,
                frontier@.len() >= queue0.len() - 1,
                forall|i: int| 0 <= i < queue0.len() - 1 ==> #[trigger] frontier@[i] == queue0[i + 1],
                forall|i: int|
                    queue0.len() - 1 <= i < frontier@.len() ==> level[#[trigger] frontier@[i]] == lc + 1
                        && !visited0.contains(frontier@[i]) && came_from@.contains_key(frontier@[i])
                        && came_from@[frontier@[i]] == current && step_rank(current, frontier@[i]) < k,
                forall|i: int, j: int|
                    queue0.len() - 1 <= i < j < frontier@.len() ==> step_rank(
                        current,
                        #[trigger] frontier@[i],
                    ) < step_rank(current, #[trigger] frontier@[j]),
                level.dom() == visited@,
                tree.dom() == visited@,
                level0.dom() == visited0,
                forall|v: Pos| #[trigger] visited0.contains(v) ==> level[v] == level0[v] && tree[v] == tree0[v],
                visited@.contains(from),
                level[from] == 0,
                forall|v: Pos|
                    #[trigger] visited@.contains(v) <==> (done.contains(v) || v == current
                        || frontier@.contains(v)),
                forall|i: int|
                    0 <= i < frontier@.len() ==> !done.contains(#[trigger] frontier@[i])
                        && frontier@[i] != current,
                frontier@.no_duplicates(),
                !done.contains(to),
                came_from@.dom() == visited@.remove(from),
                forall|v: Pos|
                    #[trigger] came_from@.dom().contains(v) ==> {
                        &&& adjacent(came_from@[v], v)
                        &&& visited@.contains(came_from@[v])
                        &&& (done.contains(came_from@[v]) || came_from@[v] == current)
                        &&& level[v] == level[came_from@[v]] + 1
                        &&& known_walkable(*world, to, v)
                        &&& tree[v] == tree[came_from@[v]].push(v)
                    },
                forall|v: Pos| #[trigger] visited@.contains(v) ==> v == from || known_walkable(*world, to, v),
                forall|v: Pos| #[trigger] visited@.contains(v) ==> tree_route(*world, from, to, v, tree[v], level[v]),
                forall|v: Pos| #[trigger] visited@.contains(v) ==> level[v] <= lc + 1,
                forall|d: Pos| #[trigger] done.contains(d) ==> level[d] <= lc,
                forall|d: Pos, w: Pos|
                    done.contains(d) && #[trigger] adjacent(d, w) && known_walkable(*world, to, w)
                        ==> visited@.contains(w) && level[w] <= level[d] + 1,
                forall|j: int|
                    0 <= j < k && known_walkable(*world, to, #[trigger] shifted(current, direction(j)))
                        ==> visited@.contains(shifted(current, direction(j))) && level[shifted(
                        current,
                        direction(j),
                    )] <= lc + 1,
                forall|i: int, j: int|
                    0 <= i < j < frontier@.len() ==> level[#[trigger] frontier@[i]] < level[#[trigger] frontier@[j]]
                        || precedes(tree[frontier@[i]], tree[frontier@[j]]),
                forall|d: Pos, i: int|
                    #[trigger] done.contains(d) && 0 <= i < frontier@.len() && level[d] == level[#[trigger] frontier@[i]]
                        ==> precedes(tree[d], tree[frontier@[i]]),
            decreases 4 - k,
        {
            let next = neighbors[k];
            if !visited.contains(&next) && is_known_walkable(next, to, world) {
                let ghost fr_before = frontier@;
                let ghost vis_before = visited@;
                let ghost tree_before = tree;
                let ghost level_before = level;
                let ghost parent_before = came_from@;
                let ghost route = tree[current].push(next);
                proof {
                    lemma_step_rank_of_direction(current, k as int);
                    lemma_adjacent_is_cardinal(current, next);
                    assert(adjacent(current, next));
                    assert(tree_route(*world, from, to, current, tree[current], level[current]));
                    assert(tree_route(*world, from, to, next, route, (lc + 1) as nat)) by {
                        assert(is_route(*world, to, route)) by {
                            assert forall|i: int| 0 <= i < route.len() - 1 implies adjacent(
                                #[trigger] route[i],
                                route[i + 1],
                            ) && known_walkable(*world, to, route[i + 1]) by {
                                if i < route.len() - 2 {
                                    assert(route[i] == tree[current][i]);
                                    assert(route[i + 1] == tree[current][i + 1]);
                                }
                            }
                        }
                        assert forall|q: Seq<Pos>|
                            is_route(*world, to, q) && q[0] == from && q.len() == route.len() && q[q.len()
                                - 1] == next implies !#[trigger] precedes(q, route) by {
                            lemma_discovery_comes_first(
                                *world,
                                from,
                                to,
                                visited0,
                                done0,
                                queue0,
                                parent0,
                                level0,
                                tree0,
                                next,
                                q,
                            );
                        }
                    }
                }
                visited.insert(next);
                came_from.insert(next, current);
                frontier.push_back(next);
                proof {
                    level = level.insert(next, lc + 1);
                    tree = tree.insert(next, route);
                    vstd::set_lib::lemma_len_subset(visited@, universe);
                    assert(frontier@ == fr_before.push(next));
                    assert forall|v: Pos|
                        #[trigger] visited@.contains(v) <==> (done.contains(v) || v == current
                            || frontier@.contains(v)) by {
                        if fr_before.contains(v) {
                            let i = choose|i: int| 0 <= i < fr_before.len() && fr_before[i] == v;
                            assert(frontier@[i] == v);
                        }
                        if v == next {
                            assert(frontier@[frontier@.len() - 1] == next);
                        }
                        if frontier@.contains(v) {
                            let i = choose|i: int| 0 <= i < frontier@.len() && frontier@[i] == v;
                            if i < frontier@.len() - 1 {
                                assert(frontier@[i] == fr_before[i]);
                                assert(fr_before.contains(v));
                            }
                        }
                    }
                    // the new tile comes after everything already queued
                    assert forall|i: int| 0 <= i < fr_before.len() implies level[#[trigger] frontier@[i]]
                        < level[next] || precedes(tree[frontier@[i]], tree[next]) by {
                        let x = frontier@[i];
                        assert(x == fr_before[i]);
                        assert(vis_before.contains(x));
                        if level[x] == lc + 1 {
                            if i < queue0.len() - 1 {
                                assert(x == queue0[i + 1]);
                                assert(visited0.contains(x));
                                assert(x != from);
                                assert(parent0.dom().contains(x));
                                let p = parent0[x];
                                assert(done0.contains(p));
                                assert(level0[p] == lc);
                                assert(precedes(tree0[p], tree0[current]));
                                lemma_precedes_extend(tree0[p], tree0[current], x, next);
                                assert(tree[x] == tree0[x]);
                            } else {
                                assert(step_rank(current, x) < k);
                                assert(tree[x] == tree[current].push(x));
                                lemma_precedes_by_rank(tree[current], x, next);
                            }
                        }
                    }
                }
            }
            k = k + 1;
        }
        proof {
            done = done.insert(current);
            assert forall|v: Pos| #[trigger] visited@.contains(v) <==> (done.contains(v) || frontier@.contains(v)) by {
            }
            assert forall|i: int| 0 <= i < frontier@.len() implies lc <= level[#[trigger] frontier@[i]] && level[frontier@[i]] <= lc + 1 by {
                if i < queue0.len() - 1 {
                    assert(frontier@[i] == queue0[i + 1]);
                    assert(visited0.contains(queue0[i + 1]));
                }
            }
            assert forall|i: int, j: int| 0 <= i <= j < frontier@.len() implies level[#[trigger] frontier@[i]] <= level[#[trigger] frontier@[j]] by {
                if j < queue0.len() - 1 {
                    assert(frontier@[i] == queue0[i + 1]);
                    assert(frontier@[j] == queue0[j + 1]);
                    assert(visited0.contains(queue0[i + 1]));
                    assert(visited0.contains(queue0[j + 1]));
                    assert(level0[queue0[i + 1]] <= level0[queue0[j + 1]]);
                }
            }
            assert forall|d: Pos, i: int| #[trigger] done.contains(d) && 0 <= i < frontier@.len() implies level[d] <= level[#[trigger] frontier@[i]] by {
                assert(lc <= level[frontier@[i]]);
            }
            assert forall|d: Pos, i: int|
                #[trigger] done.contains(d) && 0 <= i < frontier@.len() && level[d] == level[#[trigger] frontier@[i]]
                    implies precedes(tree[d], tree[frontier@[i]]) by {
                if d == current {
                    if i < queue0.len() - 1 {
                        assert(frontier@[i] == queue0[i + 1]);
                        assert(visited0.contains(queue0[i + 1]));
                        assert(level0[queue0[0]] < level0[queue0[i + 1]] || precedes(tree0[queue0[0]], tree0[queue0[i + 1]]));
                    }
                }
            }
            assert forall|d: Pos, w: Pos|
                done.contains(d) && #[trigger] adjacent(d, w) && known_walkable(*world, to, w)
                    implies visited@.contains(w) && level[w] <= level[d] + 1 by {
                if d == current {
                    lemma_adjacent_is_cardinal(current, w);
                    let k = choose|k: int| 0 <= k < 4 && w == #[trigger] shifted(current, direction(k));
                    assert(known_walkable(*world, to, shifted(current, direction(k))));
                } else {
                    assert(done0.contains(d));
                }
            }
            assert forall|i: int| 0 <= i < frontier@.len() implies !done.contains(#[trigger] frontier@[i]) by {
            }
            assert forall|v: Pos| #[trigger] came_from@.dom().contains(v) implies done.contains(came_from@[v]) by {
            }
            vstd::set_lib::lemma_len_subset(visited@, universe);
            assert(2 * (universe.len() - visited@.len()) + frontier@.len() < 2 * (universe.len()
                - visited0.len()) + queue0.len());
        }
    }
    if !came_from.contains_key(&to) {
        proof {
            if frontier@.len() > 0 {
                assert(visited@.contains(to));
            }
            assert(frontier@ =~= Seq::<Pos>::empty());
            lemma_search_exhausted(*world, from, to, visited@, done, came_from@, level, tree);
        }
        return None;
    }
    let ghost big_l = level[to];
    let mut current = to;
    proof {
        assert(tree[to].take(level[to] + 1int) =~= tree[to]);
    }
    loop
        invariant
            from != to,
            search_state(*world, from, to, visited@, done, frontier@, came_from@, level, tree),
            frontier@.len() > 0,
            frontier@[0] == to,
            big_l == level[to],
            came_from@.dom().contains(current),
            visited@.contains(to),
            tree[to].take(level[current] + 1int) == tree[current],
            level[current] <= level[to],
        decreases level[current],
    {
        match came_from.get(&current) {
            None => {
                return None;
            },
            Some(prev) => {
                let previous = *prev;
                proof {
                    assert(visited@.contains(current));
                    assert(visited@.contains(previous));
                    assert(tree_route(*world, from, to, current, tree[current], level[current]));
                    assert(tree_route(*world, from, to, previous, tree[previous], level[previous]));
                    assert(tree_route(*world, from, to, to, tree[to], level[to]));
                    lemma_walk_back(tree[to], tree[current], tree[previous], current, level[current] as int);
                    if previous != from {
                        assert(came_from@.dom().contains(previous));
                    }
                }
                if previous == from {
                    proof {
                        lemma_tree_route_is_chosen(*world, from, to, visited@, done, frontier@, came_from@, level, tree);
                    }
                    return Some(current);
                }
                current = previous;
            },
        }
    }
}


} // verus!
