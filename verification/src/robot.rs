//! The robots: scouts explore and report, collectors fetch single units of
//! known deposits and bring them to the base.

use crate::map::{base_for, Cell, Pos, ResourceKind, TileMap};
use crate::pathfind::{
    is_chosen_route, is_first_step, known_walkable, law_chosen_route_is_unique,
    next_step_toward, route_of_length, search_fits, search_in_range, walkable_tiles_interior,
};
use crate::positions::PosSet;
use crate::random::shuffle;
use crate::world::SharedWorld;
use vstd::prelude::*;

verus! {

#[derive(Clone, Copy, PartialEq, Eq, Structural, Debug)]
pub enum RobotKind {
    Scout,
    Collector,
}

/// What a robot tells the base.
#[derive(Clone, Copy, PartialEq, Eq, Structural, Debug)]
pub enum RobotMessage {
    Discovered { pos: Pos, cell: Cell },
    Collected { kind: ResourceKind, amount: u32 },
    CollectorIdle(usize),
}

pub struct Robot {
    pub id: usize,
    pub pos: Pos,
    /// The positions this robot has already reported.
    pub known_cells: PosSet,
    pub carrying: Option<ResourceKind>,
}

/// The four cardinal moves, in the order north, south, west, east.
pub open spec fn direction(i: int) -> (i32, i32) {
    if i == 0 {
        (0i32, -1i32)
    } else if i == 1 {
        (0i32, 1i32)
    } else if i == 2 {
        (-1i32, 0i32)
    } else {
        (1i32, 0i32)
    }
}

/// The eight surrounding offsets, row by row from the north-west.
pub open spec fn neighbor_offset(i: int) -> (i32, i32) {
    if i == 0 {
        (-1i32, -1i32)
    } else if i == 1 {
        (0i32, -1i32)
    } else if i == 2 {
        (1i32, -1i32)
    } else if i == 3 {
        (-1i32, 0i32)
    } else if i == 4 {
        (1i32, 0i32)
    } else if i == 5 {
        (-1i32, 1i32)
    } else if i == 6 {
        (0i32, 1i32)
    } else {
        (1i32, 1i32)
    }
}

/// `p` moved by `d`.
pub open spec fn shifted(p: Pos, d: (i32, i32)) -> Pos {
    Pos { x: (p.x + d.0) as i32, y: (p.y + d.1) as i32 }
}

/// A position whose neighbours all have `i32` coordinates.
pub open spec fn interior(p: Pos) -> bool {
    i32::MIN < p.x < i32::MAX && i32::MIN < p.y < i32::MAX
}

/// Whether `p` lies strictly inside the `i32` range on both axes.
pub fn is_interior(p: Pos) -> (r: bool)
    ensures
        r == interior(p),
{
    p.x > i32::MIN && p.x < i32::MAX && p.y > i32::MIN && p.y < i32::MAX
}

/// An offset of at most one step along each axis.
pub open spec fn unit_offset(d: (i32, i32)) -> bool {
    -1 <= d.0 <= 1 && -1 <= d.1 <= 1
}

/// A tile a robot may step on: on the map and not an obstacle.
pub open spec fn walkable_on(map: TileMap, p: Pos) -> bool {
    map.cell_at(p) is Some && map.cell_at(p)->0 != Cell::Obstacle
}

/// `a` and `b` are one step apart along one axis.
pub open spec fn adjacent(a: Pos, b: Pos) -> bool {
    ||| a.x == b.x && (a.y - b.y == 1 || b.y - a.y == 1)
    ||| a.y == b.y && (a.x - b.x == 1 || b.x - a.x == 1)
}

/// The positions a scan from `at` reports: the first `n` surrounding tiles
/// that lie on the map and are not yet in `known`.
pub open spec fn scan_found(map: TileMap, known: Set<Pos>, at: Pos, n: int) -> Set<Pos> {
    Set::new(
        |q: Pos|
            exists|j: int|
                0 <= j < n && q == #[trigger] shifted(at, neighbor_offset(j)) && !known.contains(q)
                    && map.in_bounds(q),
    )
}

/// The reports a scan from `at` sends for the first `n` surrounding tiles, in
/// order: one `Discovered` for each tile on the map not yet in `known`,
/// carrying what the map holds there.
pub open spec fn scan_report(map: TileMap, known: Set<Pos>, at: Pos, n: nat) -> Seq<RobotMessage>
    decreases n,
{
    if n == 0 {
        Seq::empty()
    } else {
        let prev = scan_report(map, known, at, (n - 1) as nat);
        let q = shifted(at, neighbor_offset(n - 1));
        if !known.contains(q) && map.in_bounds(q) {
            prev.push(RobotMessage::Discovered { pos: q, cell: map.cell_at(q)->0 })
        } else {
            prev
        }
    }
}

/// The messages held by an optional message.
pub open spec fn option_seq(r: Option<RobotMessage>) -> Seq<RobotMessage> {
    match r {
        Some(m) => seq![m],
        None => Seq::empty(),
    }
}

/// The tile a deposit leaves after one unit is taken: one unit fewer, or a
/// free tile once the last unit is gone.
pub open spec fn after_taking_one(kind: ResourceKind, amount: u32) -> Cell {
    if amount == 1 {
        Cell::Empty
    } else {
        Cell::Resource(kind, (amount - 1) as u32)
    }
}

/// `w0` and `w1` agree on the robots, the dispatch and the totals.
pub open spec fn same_bookkeeping(w0: SharedWorld, w1: SharedWorld) -> bool {
    &&& w1.robot_positions@ == w0.robot_positions@
    &&& w1.robot_kinds@ == w0.robot_kinds@
    &&& w1.collector_targets@ == w0.collector_targets@
    &&& w1.energy_collected == w0.energy_collected
    &&& w1.crystal_collected == w0.crystal_collected
}

/// What taking one unit at `at` does. When the map holds a non-empty deposit
/// there, the deposit shrinks by one unit, the known copy of the tile
/// follows, the robot carries that kind and one `Collected` report of one
/// unit is sent. Otherwise the tile is forgotten from the known cells and
/// nothing is sent. Nothing else changes.
pub open spec fn collect_outcome(
    w0: SharedWorld,
    carry0: Option<ResourceKind>,
    at: Pos,
    w1: SharedWorld,
    carry1: Option<ResourceKind>,
    msgs: Seq<RobotMessage>,
) -> bool {
    &&& w1.map.wf()
    &&& w1.map.width == w0.map.width
    &&& w1.map.height == w0.map.height
    &&& same_bookkeeping(w0, w1)
    &&& match w0.map.cell_at(at) {
        Some(Cell::Resource(kind, amount)) if amount > 0 => {
            &&& msgs == seq![RobotMessage::Collected { kind, amount: 1 }]
            &&& w1.map.tiles() == w0.map.tiles().update(
                w0.map.index_of(at),
                after_taking_one(kind, amount),
            )
            &&& w1.known_cells@ == w0.known_cells@.insert(at, after_taking_one(kind, amount))
            &&& carry1 == Some(kind)
        },
        _ => {
            &&& msgs == Seq::<RobotMessage>::empty()
            &&& w1.map.tiles() == w0.map.tiles()
            &&& w1.known_cells@ == w0.known_cells@.remove(at)
            &&& carry1 == carry0
        },
    }
}

/// The cardinal moves in order.
pub fn directions() -> (r: Vec<(i32, i32)>)
    ensures
        r@.len() == 4,
        forall|i: int| 0 <= i < 4 ==> #[trigger] r@[i] == direction(i),
{
    let r = vec![(0i32, -1i32), (0i32, 1i32), (-1i32, 0i32), (1i32, 0i32)];
    r
}

/// The eight surrounding offsets in order.
pub fn neighbor_offsets() -> (r: Vec<(i32, i32)>)
    ensures
        r@.len() == 8,
        forall|i: int| 0 <= i < 8 ==> #[trigger] r@[i] == neighbor_offset(i),
{
    let r = vec![
        (-1i32, -1i32),
        (0i32, -1i32),
        (1i32, -1i32),
        (-1i32, 0i32),
        (1i32, 0i32),
        (-1i32, 1i32),
        (0i32, 1i32),
        (1i32, 1i32),
    ];
    r
}

/// Distinct surrounding offsets lead to distinct tiles.
proof fn lemma_neighbors_distinct(at: Pos, i: int, j: int)
    requires
        interior(at),
        0 <= i < 8,
        0 <= j < 8,
        i != j,
    ensures
        shifted(at, neighbor_offset(i)) != shifted(at, neighbor_offset(j)),
{
}

impl Robot {
    pub fn new_scout(id: usize, pos: Pos) -> (r: Self)
        ensures
            r.id == id,
            r.pos == pos,
            r.known_cells@ == Set::<Pos>::empty(),
            r.carrying is None,
    {
        Robot { id, pos, known_cells: PosSet::new(), carrying: None }
    }

    pub fn new_collector(id: usize, pos: Pos) -> (r: Self)
        ensures
            r.id == id,
            r.pos == pos,
            r.known_cells@ == Set::<Pos>::empty(),
            r.carrying is None,
    {
        Robot { id, pos, known_cells: PosSet::new(), carrying: None }
    }

    /// One scout tick: move to a random walkable tile next to the current one
    /// (if there is any), then report the surrounding tiles not yet reported.
    /// Returns whether the scout moved, and the reports.
    pub fn step_scout(&mut self, world: &SharedWorld) -> (r: (bool, Vec<RobotMessage>))
        requires
            world.map.wf(),
            interior(old(self).pos),
        ensures
            r.0 == exists|k: int| 0 <= k < 4 && walkable_on(world.map, shifted(old(self).pos, direction(k))),
            r.0 ==> exists|k: int|
                0 <= k < 4 && final(self).pos == shifted(old(self).pos, direction(k)) && walkable_on(
                    world.map,
                    final(self).pos,
                ),
            !r.0 ==> final(self).pos == old(self).pos,
            r.1@ == scan_report(world.map, old(self).known_cells@, final(self).pos, 8),
            final(self).known_cells@ == old(self).known_cells@.union(
                scan_found(world.map, old(self).known_cells@, final(self).pos, 8),
            ),
            final(self).id == old(self).id,
            final(self).carrying == old(self).carrying,
    {
        let moved = self.move_randomly(world);
        let messages = self.scan_neighbors(world);
        (moved, messages)
    }

    /// Moves to a random walkable tile next to the current one; returns
    /// whether there was one.
    pub fn move_randomly(&mut self, world: &SharedWorld) -> (moved: bool)
        requires
            world.map.wf(),
            interior(old(self).pos),
        ensures
            moved == exists|k: int| 0 <= k < 4 && walkable_on(world.map, shifted(old(self).pos, direction(k))),
            moved ==> exists|k: int|
                0 <= k < 4 && final(self).pos == shifted(old(self).pos, direction(k)) && walkable_on(
                    world.map,
                    final(self).pos,
                ),
            !moved ==> final(self).pos == old(self).pos,
            final(self).id == old(self).id,
            final(self).known_cells@ == old(self).known_cells@,
            final(self).carrying == old(self).carrying,
    {
        let mut dirs = directions();
        let ghost original = dirs@;
        shuffle(&mut dirs);
        proof {
            broadcast use vstd::seq_lib::group_to_multiset_ensures;

            assert forall|i: int| 0 <= i < dirs@.len() implies exists|k: int|
                0 <= k < 4 && #[trigger] dirs@[i] == direction(k) by {
                assert(dirs@.to_multiset().count(dirs@[i]) > 0);
                assert(original.to_multiset().count(dirs@[i]) > 0);
                assert(original.contains(dirs@[i]));
            }
            assert forall|k: int| 0 <= k < 4 implies dirs@.contains(#[trigger] direction(k)) by {
                assert(original[k] == direction(k));
                assert(original.contains(direction(k)));
                assert(original.to_multiset().count(direction(k)) > 0);
                assert(dirs@.to_multiset().count(direction(k)) > 0);
            }
        }
        let ghost start = self.pos;
        let moved = self.move_in_order(world, &dirs);
        proof {
            if moved {
                let i = choose|i: int|
                    0 <= i < dirs@.len() && self.pos == shifted(start, dirs@[i]) && walkable_on(
                        world.map,
                        self.pos,
                    );
                let k = choose|k: int| 0 <= k < 4 && #[trigger] dirs@[i] == direction(k);
                assert(self.pos == shifted(start, direction(k)));
            } else {
                assert forall|k: int| 0 <= k < 4 implies !walkable_on(
                    world.map,
                    #[trigger] shifted(start, direction(k)),
                ) by {
                    assert(dirs@.contains(direction(k)));
                    let i = choose|i: int| 0 <= i < dirs@.len() && dirs@[i] == direction(k);
                    assert(!walkable_on(world.map, shifted(start, dirs@[i])));
                }
            }
        }
        moved
    }

    /// Tries the moves in `dirs` in turn and takes the first that lands on a
    /// walkable tile; returns whether one did.
    pub fn move_in_order(&mut self, world: &SharedWorld, dirs: &Vec<(i32, i32)>) -> (moved: bool)
        requires
            world.map.wf(),
            interior(old(self).pos),
            forall|i: int| 0 <= i < dirs@.len() ==> unit_offset(#[trigger] dirs@[i]),
        ensures
            moved == exists|i: int|
                0 <= i < dirs@.len() && walkable_on(world.map, #[trigger] shifted(old(self).pos, dirs@[i])),
            moved ==> exists|i: int|
                0 <= i < dirs@.len() && final(self).pos == shifted(old(self).pos, dirs@[i])
                    && walkable_on(world.map, final(self).pos) && forall|j: int|
                    0 <= j < i ==> !walkable_on(world.map, #[trigger] shifted(old(self).pos, dirs@[j])),
            !moved ==> final(self).pos == old(self).pos,
            final(self).id == old(self).id,
            final(self).known_cells@ == old(self).known_cells@,
            final(self).carrying == old(self).carrying,
    {
        let n = dirs.len();
        let mut i: usize = 0;
        while i < n
            invariant
                n == dirs@.len(),
                i <= n,
                world.map.wf(),
                interior(self.pos),
                self.pos == old(self).pos,
                self.id == old(self).id,
                self.known_cells@ == old(self).known_cells@,
                self.carrying == old(self).carrying,
                forall|k: int| 0 <= k < dirs@.len() ==> unit_offset(#[trigger] dirs@[k]),
                forall|j: int| 0 <= j < i ==> !walkable_on(world.map, #[trigger] shifted(self.pos, dirs@[j])),
            decreases n - i,
        {
            let (dx, dy) = dirs[i];
            let candidate = Pos { x: self.pos.x + dx, y: self.pos.y + dy };
            assert(candidate == shifted(self.pos, dirs@[i as int]));
            match world.map.get(candidate) {
                Some(Cell::Obstacle) | None => {},
                Some(_) => {
                    self.pos = candidate;
                    return true;
                },
            }
            i = i + 1;
        }
        false
    }

    /// Reports the surrounding tiles that lie on the map and were not reported
    /// before, in a fixed order, and remembers them as reported.
    pub fn scan_neighbors(&mut self, world: &SharedWorld) -> (messages: Vec<RobotMessage>)
        requires
            world.map.wf(),
            interior(old(self).pos),
        ensures
            messages@ == scan_report(world.map, old(self).known_cells@, old(self).pos, 8),
            final(self).known_cells@ == old(self).known_cells@.union(
                scan_found(world.map, old(self).known_cells@, old(self).pos, 8),
            ),
            final(self).pos == old(self).pos,
            final(self).id == old(self).id,
            final(self).carrying == old(self).carrying,
    {
        let offsets = neighbor_offsets();
        let ghost known0 = self.known_cells@;
        let mut messages: Vec<RobotMessage> = Vec::new();
        let mut i: usize = 0;
        while i < 8
            invariant
                world.map.wf(),
                interior(self.pos),
                self.pos == old(self).pos,
                self.id == old(self).id,
                self.carrying == old(self).carrying,
                known0 == old(self).known_cells@,
                offsets@.len() == 8,
                forall|k: int| 0 <= k < 8 ==> #[trigger] offsets@[k] == neighbor_offset(k),
                i <= 8,
                messages@ == scan_report(world.map, known0, self.pos, i as nat),
                self.known_cells@ == known0.union(scan_found(world.map, known0, self.pos, i as int)),
            decreases 8 - i,
        {
            let (dx, dy) = offsets[i];
            let neighbor = Pos { x: self.pos.x + dx, y: self.pos.y + dy };
            assert(neighbor == shifted(self.pos, neighbor_offset(i as int)));
            let ghost before = self.known_cells@;
            proof {
                // the tiles found so far are other neighbours, so whether this one
                // is known is decided by what was known at the start
                if scan_found(world.map, known0, self.pos, i as int).contains(neighbor) {
                    let j = choose|j: int|
                        0 <= j < i && neighbor == #[trigger] shifted(self.pos, neighbor_offset(j))
                            && !known0.contains(neighbor) && world.map.in_bounds(neighbor);
                    lemma_neighbors_distinct(self.pos, i as int, j);
                }
            }
            if !self.known_cells.contains(&neighbor) {
                match world.map.get(neighbor) {
                    Some(cell) => {
                        self.known_cells.insert(neighbor);
                        messages.push(RobotMessage::Discovered { pos: neighbor, cell });
                    },
                    None => {},
                }
            }
            proof {
                assert(self.known_cells@ =~= known0.union(
                    scan_found(world.map, known0, self.pos, i + 1),
                )) by {
                    assert forall|q: Pos| #[trigger] scan_found(world.map, known0, self.pos, i + 1).contains(q)
                        == (scan_found(world.map, known0, self.pos, i as int).contains(q) || (q
                        == neighbor && !known0.contains(q) && world.map.in_bounds(q))) by {
                        if scan_found(world.map, known0, self.pos, i + 1).contains(q) {
                            let j = choose|j: int|
                                0 <= j < i + 1 && q == #[trigger] shifted(self.pos, neighbor_offset(j))
                                    && !known0.contains(q) && world.map.in_bounds(q);
                            if j < i {
                                assert(scan_found(world.map, known0, self.pos, i as int).contains(q));
                            }
                        }
                        if scan_found(world.map, known0, self.pos, i as int).contains(q) {
                            let j = choose|j: int|
                                0 <= j < i && q == #[trigger] shifted(self.pos, neighbor_offset(j))
                                    && !known0.contains(q) && world.map.in_bounds(q);
                            assert(0 <= j < i + 1);
                        }
                        if q == neighbor && !known0.contains(q) && world.map.in_bounds(q) {
                            assert(q == shifted(self.pos, neighbor_offset(i as int)));
                        }
                    }
                }
            }
            i = i + 1;
        }
        messages
    }

    /// Takes one unit from the deposit at `resource_pos`. When the map holds a
    /// non-empty deposit there, it shrinks by one (a last unit leaves a free
    /// tile), the known copy of the tile follows, the robot now carries that
    /// kind, and a report of one collected unit is returned. Otherwise the
    /// tile is forgotten from the known cells and nothing is returned.
    pub fn collect_one_unit(&mut self, resource_pos: Pos, world: &mut SharedWorld) -> (r: Option<
        RobotMessage,
    >)
        requires
            old(world).map.wf(),
        ensures
            collect_outcome(
                *old(world),
                old(self).carrying,
                resource_pos,
                *final(world),
                final(self).carrying,
                option_seq(r),
            ),
            final(self).id == old(self).id,
            final(self).pos == old(self).pos,
            final(self).known_cells@ == old(self).known_cells@,
    {
        match world.map.get(resource_pos) {
            Some(Cell::Resource(kind, amount)) => {
                if amount == 0 {
                    world.known_cells.remove(&resource_pos);
                    return None;
                }
                let updated_cell = if amount == 1 {
                    Cell::Empty
                } else {
                    Cell::Resource(kind, amount - 1)
                };
                world.map.set(resource_pos, updated_cell);
                world.known_cells.insert(resource_pos, updated_cell);
                self.carrying = Some(kind);
                Some(RobotMessage::Collected { kind, amount: 1 })
            },
            _ => {
                world.known_cells.remove(&resource_pos);
                None
            },
        }
    }
}

/// `|a.x - b.x| + |a.y - b.y| <= 1`: the same tile or a cardinal neighbour.
pub open spec fn near(a: Pos, b: Pos) -> bool {
    abs_int(a.x - b.x) + abs_int(a.y - b.y) <= 1
}

pub open spec fn abs_int(n: int) -> int {
    if n < 0 {
        -n
    } else {
        n
    }
}

/// The distance between `a` and `b` along each axis, and their sum, can be
/// computed in `i32`.
pub open spec fn offsets_fit(a: Pos, b: Pos) -> bool {
    &&& i32::MIN < a.x - b.x <= i32::MAX
    &&& i32::MIN < a.y - b.y <= i32::MAX
    &&& abs_int(a.x - b.x) + abs_int(a.y - b.y) <= i32::MAX
}

/// Whether `a` and `b` are the same tile or cardinal neighbours.
pub fn is_adjacent_or_same(a: Pos, b: Pos) -> (r: bool)
    requires
        offsets_fit(a, b),
    ensures
        r == near(a, b),
{
    let dx = a.x - b.x;
    let dy = a.y - b.y;
    let adx = if dx < 0 {
        -dx
    } else {
        dx
    };
    let ady = if dy < 0 {
        -dy
    } else {
        dy
    };
    adx + ady <= 1
}

/// Whether `offsets_fit(a, b)` holds.
pub fn offsets_fit_check(a: Pos, b: Pos) -> (r: bool)
    ensures
        r == offsets_fit(a, b),
{
    let dx = a.x as i64 - b.x as i64;
    let dy = a.y as i64 - b.y as i64;
    if dx <= i32::MIN as i64 || dx > i32::MAX as i64 || dy <= i32::MIN as i64 || dy > i32::MAX as i64 {
        return false;
    }
    let adx = if dx < 0 {
        -dx
    } else {
        dx
    };
    let ady = if dy < 0 {
        -dy
    } else {
        dy
    };
    adx + ady <= i32::MAX as i64
}

/// The known copy of `t` is a deposit with units left.
pub open spec fn has_stock(w: SharedWorld, t: Pos) -> bool {
    &&& w.known_cells@.contains_key(t)
    &&& (w.known_cells@[t] matches Cell::Resource(_, amount) && amount > 0)
}

/// After one step of the search from `from` toward `to`, the robot stands at
/// `now`: the first step of a shortest route, or still at `from` when no
/// route exists.
pub open spec fn stepped_toward(w: SharedWorld, from: Pos, to: Pos, now: Pos) -> bool {
    ||| is_first_step(w, from, to, Some(now))
    ||| (now == from && is_first_step(w, from, to, None))
}

/// `w1` is `w0` unchanged, in all that a collector tick may touch.
pub open spec fn world_unchanged(w0: SharedWorld, w1: SharedWorld) -> bool {
    &&& w1.map == w0.map
    &&& w1.known_cells@ == w0.known_cells@
    &&& same_bookkeeping(w0, w1)
}

/// The arithmetic of a collector tick stays in `i32`: the search it may run,
/// the distance check against its target, and the one against the tile it
/// steps to.
pub open spec fn collector_tick_in_range(r0: Robot, w0: SharedWorld) -> bool {
    if r0.carrying is Some {
        let base = base_for(w0.map.width as int, w0.map.height as int);
        search_in_range(w0, r0.pos, base)
    } else if w0.collector_targets@.contains_key(r0.id) {
        let t = w0.collector_targets@[r0.id];
        has_stock(w0, t) ==> {
            &&& offsets_fit(r0.pos, t)
            &&& !near(r0.pos, t) ==> search_in_range(w0, r0.pos, t) && forall|n: Pos|
                #[trigger] is_first_step(w0, r0.pos, t, Some(n)) ==> offsets_fit(n, t)
        }
    } else {
        true
    }
}

/// When every known tile is interior and the search starts on an interior
/// tile, the search may step only on interior tiles.
proof fn lemma_known_interior_walkable(world: SharedWorld, from: Pos, to: Pos)
    requires
        world.map.wf(),
        interior(from),
        forall|p: Pos| #[trigger] world.known_cells@.contains_key(p) ==> interior(p),
    ensures
        walkable_tiles_interior(world, from, to),
{
    assert forall|p: Pos| #[trigger] known_walkable(world, to, p) implies interior(p) by {
        if !world.known_cells@.contains_key(p) {
            assert(world.map.in_bounds(p));
        }
    }
}

/// Whether a collector tick of `robot` can be run in `i32`: `true` only when
/// `collector_tick_in_range` holds, and exactly when it holds as long as the
/// robot and every known tile are interior. Otherwise it answers `false`
/// when the search would start from a non-interior tile or could step on
/// one, without searching further.
pub fn collector_tick_fits(robot: &Robot, world: &SharedWorld) -> (r: bool)
    requires
        world.map.wf(),
    ensures
        r ==> collector_tick_in_range(*robot, *world),
        interior(robot.pos) && (forall|p: Pos| #[trigger] world.known_cells@.contains_key(p) ==> interior(p))
            ==> r == collector_tick_in_range(*robot, *world),
{
    let ghost all_interior = interior(robot.pos) && (forall|p: Pos|
        #[trigger] world.known_cells@.contains_key(p) ==> interior(p));
    if robot.carrying.is_some() {
        let base = world.map.base_pos();
        let fits = search_fits(world, robot.pos, base);
        proof {
            if all_interior {
                lemma_known_interior_walkable(*world, robot.pos, base);
            }
        }
        return fits;
    }
    let target = match world.collector_targets.get(&robot.id) {
        Some(t) => *t,
        None => {
            return true;
        },
    };
    let stocked = match world.known_cells.get(&target) {
        Some(Cell::Resource(_, amount)) => *amount > 0,
        _ => false,
    };
    if !stocked {
        return true;
    }
    if !offsets_fit_check(robot.pos, target) {
        return false;
    }
    if is_adjacent_or_same(robot.pos, target) {
        return true;
    }
    let searchable = search_fits(world, robot.pos, target);
    proof {
        if all_interior {
            lemma_known_interior_walkable(*world, robot.pos, target);
        }
    }
    if !searchable {
        return false;
    }
    match next_step_toward(robot.pos, target, world) {
        Some(n) => {
            let fits = offsets_fit_check(n, target);
            proof {
                assert(robot.pos != target);
                assert forall|m: Pos| #[trigger] is_first_step(*world, robot.pos, target, Some(m)) implies m
                    == n by {
                    let pm = choose|path: Seq<Pos>|
                        #[trigger] is_chosen_route(*world, robot.pos, target, path) && path[1] == m;
                    let pn = choose|path: Seq<Pos>|
                        #[trigger] is_chosen_route(*world, robot.pos, target, path) && path[1] == n;
                    law_chosen_route_is_unique(*world, robot.pos, target, pm, pn);
                }
            }
            fits
        },
        None => {
            proof {
                assert forall|m: Pos| #[trigger] is_first_step(*world, robot.pos, target, Some(m)) implies offsets_fit(
                    m,
                    target,
                ) by {
                    let pm = choose|path: Seq<Pos>|
                        #[trigger] is_chosen_route(*world, robot.pos, target, path) && path[1] == m;
                    assert(route_of_length(*world, target, robot.pos, target, (pm.len() - 1) as nat));
                }
            }
            true
        },
    }
}

/// One collector tick, from robot `r0` in world `w0` to robot `r1` in world
/// `w1`, sending `msgs`.
///
/// A collector carrying a unit unloads at the base: it carries nothing more,
/// is freed from its target and reports itself idle. Away from the base it
/// takes one step toward it. A collector carrying nothing and without a target
/// waits. One whose target no longer holds units as far as the known cells
/// tell is freed and reports itself idle. Otherwise it steps toward its
/// target unless already next to it, and, once next to it, takes one unit.
pub open spec fn collector_tick(
    r0: Robot,
    w0: SharedWorld,
    r1: Robot,
    w1: SharedWorld,
    msgs: Seq<RobotMessage>,
) -> bool {
    let id = r0.id;
    if r0.carrying is Some {
        let base = base_for(w0.map.width as int, w0.map.height as int);
        if r0.pos == base {
            &&& r1.carrying is None
            &&& r1.pos == r0.pos
            &&& msgs == seq![RobotMessage::CollectorIdle(id)]
            &&& w1.map == w0.map
            &&& w1.known_cells@ == w0.known_cells@
            &&& w1.collector_targets@ == w0.collector_targets@.remove(id)
        } else {
            &&& stepped_toward(w0, r0.pos, base, r1.pos)
            &&& r1.carrying == r0.carrying
            &&& msgs == Seq::<RobotMessage>::empty()
            &&& world_unchanged(w0, w1)
        }
    } else if !w0.collector_targets@.contains_key(id) {
        &&& r1.pos == r0.pos
        &&& r1.carrying == r0.carrying
        &&& msgs == Seq::<RobotMessage>::empty()
        &&& world_unchanged(w0, w1)
    } else {
        let t = w0.collector_targets@[id];
        if !has_stock(w0, t) {
            &&& r1.pos == r0.pos
            &&& r1.carrying == r0.carrying
            &&& msgs == seq![RobotMessage::CollectorIdle(id)]
            &&& w1.map == w0.map
            &&& w1.known_cells@ == w0.known_cells@
            &&& w1.collector_targets@ == w0.collector_targets@.remove(id)
        } else {
            &&& (near(r0.pos, t) ==> r1.pos == r0.pos)
            &&& (!near(r0.pos, t) ==> stepped_toward(w0, r0.pos, t, r1.pos))
            &&& if near(r1.pos, t) {
                collect_outcome(w0, r0.carrying, t, w1, r1.carrying, msgs)
            } else {
                &&& r1.carrying == r0.carrying
                &&& msgs == Seq::<RobotMessage>::empty()
                &&& world_unchanged(w0, w1)
            }
        }
    }
}

/// One tick of a collector; see `collector_tick`. The tick sends at most one
/// message, and each unit it takes off the map it reports collected.
pub fn step_collector(robot: &mut Robot, world: &mut SharedWorld) -> (messages: Vec<RobotMessage>)
    requires
        old(world).map.wf(),
        collector_tick_in_range(*old(robot), *old(world)),
    ensures
        collector_tick(*old(robot), *old(world), *final(robot), *final(world), messages@),
        final(robot).id == old(robot).id,
        final(robot).known_cells@ == old(robot).known_cells@,
        final(world).map.wf(),
        final(world).map.width == old(world).map.width,
        final(world).map.height == old(world).map.height,
        final(world).robot_positions@ == old(world).robot_positions@,
        final(world).robot_kinds@ == old(world).robot_kinds@,
        final(world).energy_collected == old(world).energy_collected,
        final(world).crystal_collected == old(world).crystal_collected,
        messages@.len() <= 1,
        forall|kind: ResourceKind|
            units_of(#[trigger] final(world).map.tiles(), kind) + reported_units(messages@, kind)
                == units_of(old(world).map.tiles(), kind),
{
    let ghost r0 = *robot;
    let ghost w0 = *world;
    let messages = tick_collector(robot, world);
    proof {
        assert forall|kind: ResourceKind|
            units_of(#[trigger] world.map.tiles(), kind) + reported_units(messages@, kind) == units_of(
                w0.map.tiles(),
                kind,
            ) by {
            law_collector_tick_conserves_units(r0, w0, *robot, *world, messages@, kind);
        }
        law_collector_tick_conserves_units(r0, w0, *robot, *world, messages@, ResourceKind::Energy);
    }
    messages
}

fn tick_collector(robot: &mut Robot, world: &mut SharedWorld) -> (messages: Vec<RobotMessage>)
    requires
        old(world).map.wf(),
        collector_tick_in_range(*old(robot), *old(world)),
    ensures
        collector_tick(*old(robot), *old(world), *final(robot), *final(world), messages@),
        final(robot).id == old(robot).id,
        final(robot).known_cells@ == old(robot).known_cells@,
        final(world).map.wf(),
        final(world).map.width == old(world).map.width,
        final(world).map.height == old(world).map.height,
        final(world).robot_positions@ == old(world).robot_positions@,
        final(world).robot_kinds@ == old(world).robot_kinds@,
        final(world).energy_collected == old(world).energy_collected,
        final(world).crystal_collected == old(world).crystal_collected,
{
    if robot.carrying.is_some() {
        let base = world.map.base_pos();
        if robot.pos == base {
            robot.carrying = None;
            world.collector_targets.remove(&robot.id);
            let idle = vec![RobotMessage::CollectorIdle(robot.id)];
            assert(idle@ =~= seq![RobotMessage::CollectorIdle(robot.id)]);
            return idle;
        }
        match next_step_toward(robot.pos, base, world) {
            Some(next) => {
                robot.pos = next;
            },
            None => {},
        }
        return Vec::new();
    }
    let target = match world.collector_targets.get(&robot.id) {
        Some(t) => *t,
        None => {
            return Vec::new();
        },
    };
    let stocked = match world.known_cells.get(&target) {
        Some(Cell::Resource(_, amount)) => *amount > 0,
        _ => false,
    };
    if !stocked {
        world.collector_targets.remove(&robot.id);
        let idle = vec![RobotMessage::CollectorIdle(robot.id)];
        assert(idle@ =~= seq![RobotMessage::CollectorIdle(robot.id)]);
        return idle;
    }
    if !is_adjacent_or_same(robot.pos, target) {
        match next_step_toward(robot.pos, target, world) {
            Some(next) => {
                robot.pos = next;
            },
            None => {
                return Vec::new();
            },
        }
    }
    if is_adjacent_or_same(robot.pos, target) {
        match robot.collect_one_unit(target, world) {
            Some(m) => {
                let sent = vec![m];
                assert(sent@ =~= seq![m]);
                sent
            },
            None => Vec::new(),
        }
    } else {
        Vec::new()
    }
}

/// Every report of a scan is about a tile not known before, lying on the map,
/// found by the scan, and carries what the map holds there; no two reports
/// name the same tile.
pub proof fn law_scan_reports_new_tiles(map: TileMap, known: Set<Pos>, at: Pos, n: nat)
    requires
        interior(at),
        n <= 8,
    ensures
        forall|i: int|
            0 <= i < scan_report(map, known, at, n).len() ==> {
                let m = #[trigger] scan_report(map, known, at, n)[i];
                &&& m is Discovered
                &&& !known.contains(m->pos)
                &&& map.cell_at(m->pos) == Some(m->cell)
                &&& scan_found(map, known, at, n as int).contains(m->pos)
            },
        forall|i: int, j: int|
            0 <= i < j < scan_report(map, known, at, n).len() ==> (#[trigger] scan_report(
                map,
                known,
                at,
                n,
            )[i])->pos != (#[trigger] scan_report(map, known, at, n)[j])->pos,
    decreases n,
{
    if n > 0 {
        law_scan_reports_new_tiles(map, known, at, (n - 1) as nat);
        let prev = scan_report(map, known, at, (n - 1) as nat);
        let q = shifted(at, neighbor_offset(n - 1));
        let cur = scan_report(map, known, at, n);
        assert forall|i: int| 0 <= i < prev.len() implies scan_found(map, known, at, n as int).contains(
            (#[trigger] prev[i])->pos,
        ) by {
            let p = prev[i]->pos;
            assert(scan_found(map, known, at, n - 1).contains(p));
            let j = choose|j: int|
                0 <= j < n - 1 && p == #[trigger] shifted(at, neighbor_offset(j)) && !known.contains(
                    p,
                ) && map.in_bounds(p);
            assert(0 <= j < n);
        }
        if !known.contains(q) && map.in_bounds(q) {
            assert(scan_found(map, known, at, n as int).contains(q)) by {
                assert(q == shifted(at, neighbor_offset(n - 1)));
            }
            assert forall|i: int| 0 <= i < prev.len() implies (#[trigger] prev[i])->pos != q by {
                let p = prev[i]->pos;
                let j = choose|j: int|
                    0 <= j < n - 1 && p == #[trigger] shifted(at, neighbor_offset(j))
                        && !known.contains(p) && map.in_bounds(p);
                lemma_neighbors_distinct(at, j, n - 1);
            }
        }
    }
}

/// A scout never reports a tile twice: after one scan, the tiles it reports
/// are remembered, and a later scan (from anywhere) reports none of them.
pub proof fn law_scout_never_repeats_a_report(
    map: TileMap,
    known0: Set<Pos>,
    at1: Pos,
    at2: Pos,
    i: int,
    j: int,
)
    requires
        interior(at1),
        interior(at2),
        0 <= i < scan_report(map, known0, at1, 8).len(),
        0 <= j < scan_report(
            map,
            known0.union(scan_found(map, known0, at1, 8)),
            at2,
            8,
        ).len(),
    ensures
        scan_report(map, known0, at1, 8)[i]->pos != scan_report(
            map,
            known0.union(scan_found(map, known0, at1, 8)),
            at2,
            8,
        )[j]->pos,
{
    let known1 = known0.union(scan_found(map, known0, at1, 8));
    law_scan_reports_new_tiles(map, known0, at1, 8);
    law_scan_reports_new_tiles(map, known1, at2, 8);
    assert(scan_report(map, known0, at1, 8)[i] == scan_report(map, known0, at1, 8)[i]);
    assert(scan_report(map, known1, at2, 8)[j] == scan_report(map, known1, at2, 8)[j]);
}

/// The units of `kind` held by the deposits of `tiles`.
pub open spec fn units_of(tiles: Seq<Cell>, kind: ResourceKind) -> nat
    decreases tiles.len(),
{
    if tiles.len() == 0 {
        0
    } else {
        units_of(tiles.drop_last(), kind) + (match tiles.last() {
            Cell::Resource(k, q) => if k == kind {
                q as nat
            } else {
                0nat
            },
            _ => 0nat,
        })
    }
}

/// The units of `kind` reported collected by `msgs`.
pub open spec fn reported_units(msgs: Seq<RobotMessage>, kind: ResourceKind) -> nat
    decreases msgs.len(),
{
    if msgs.len() == 0 {
        0
    } else {
        reported_units(msgs.drop_last(), kind) + (match msgs.last() {
            RobotMessage::Collected { kind: k, amount } => if k == kind {
                amount as nat
            } else {
                0nat
            },
            _ => 0nat,
        })
    }
}

pub open spec fn units_in(c: Cell, kind: ResourceKind) -> nat {
    match c {
        Cell::Resource(k, q) => if k == kind {
            q as nat
        } else {
            0nat
        },
        _ => 0nat,
    }
}

/// Overwriting one tile changes the units by what leaves and what arrives.
proof fn lemma_units_update(s: Seq<Cell>, i: int, v: Cell, kind: ResourceKind)
    requires
        0 <= i < s.len(),
    ensures
        units_of(s.update(i, v), kind) + units_in(s[i], kind) == units_of(s, kind) + units_in(
            v,
            kind,
        ),
    decreases s.len(),
{
    let t = s.update(i, v);
    if i == s.len() - 1 {
        assert(t.drop_last() =~= s.drop_last());
    } else {
        assert(t.drop_last() =~= s.drop_last().update(i, v));
        lemma_units_update(s.drop_last(), i, v, kind);
    }
}

/// No unit is lost or made: what a collection takes off the map is what it
/// reports, so once the base has taken in the report, the units of each kind
/// on the map plus the total collected of that kind are what they were. A
/// collection that takes a unit never leaves an exhausted deposit behind.
pub proof fn law_collection_conserves_units(
    w0: SharedWorld,
    carry0: Option<ResourceKind>,
    at: Pos,
    w1: SharedWorld,
    carry1: Option<ResourceKind>,
    msgs: Seq<RobotMessage>,
    w2: SharedWorld,
    kind: ResourceKind,
)
    requires
        w0.map.wf(),
        collect_outcome(w0, carry0, at, w1, carry1, msgs),
        msgs.len() == 1 ==> crate::base::applied(w1, msgs[0], w2),
        msgs.len() == 0 ==> w2 == w1,
    ensures
        units_of(w1.map.tiles(), kind) + reported_units(msgs, kind) == units_of(w0.map.tiles(), kind),
        units_of(w2.map.tiles(), kind) + crate::world::collected_of(w2, kind) == units_of(
            w0.map.tiles(),
            kind,
        ) + crate::world::collected_of(w0, kind),
        (w0.map.cell_at(at) matches Some(Cell::Resource(_, a)) && a > 0) ==> !(w1.map.cell_at(
            at,
        ) matches Some(Cell::Resource(_, 0))),
{
    assert(reported_units(Seq::<RobotMessage>::empty(), kind) == 0);
    match w0.map.cell_at(at) {
        Some(Cell::Resource(k, amount)) => {
            if amount > 0 {
                crate::map::lemma_index_in_range(w0.map.width as int, w0.map.height as int, at);
                lemma_units_update(
                    w0.map.tiles(),
                    w0.map.index_of(at),
                    after_taking_one(k, amount),
                    kind,
                );
                assert(msgs.drop_last() =~= Seq::<RobotMessage>::empty());
            }
        },
        _ => {},
    }
}


/// A collector tick takes no unit off the map without reporting it: for each
/// kind, the units on the map after the tick plus the units the tick reports
/// collected are the units before. A tick sends at most one message, and a
/// report of a collection names one unit, comes from a collector that carried
/// nothing, and leaves it carrying that kind.
pub proof fn law_collector_tick_conserves_units(
    r0: Robot,
    w0: SharedWorld,
    r1: Robot,
    w1: SharedWorld,
    msgs: Seq<RobotMessage>,
    kind: ResourceKind,
)
    requires
        w0.map.wf(),
        collector_tick(r0, w0, r1, w1, msgs),
    ensures
        msgs.len() <= 1,
        units_of(w1.map.tiles(), kind) + reported_units(msgs, kind) == units_of(w0.map.tiles(), kind),
        forall|k: ResourceKind, a: u32|
            msgs.len() == 1 && #[trigger] msgs[0] == (RobotMessage::Collected { kind: k, amount: a })
                ==> a == 1 && r0.carrying is None && r1.carrying == Some(k),
{
    assert(reported_units(Seq::<RobotMessage>::empty(), kind) == 0);
    if msgs.len() == 1 {
        assert(msgs.drop_last() =~= Seq::<RobotMessage>::empty());
    }
    if r0.carrying is None && w0.collector_targets@.contains_key(r0.id) {
        let t = w0.collector_targets@[r0.id];
        if has_stock(w0, t) && near(r1.pos, t) {
            match w0.map.cell_at(t) {
                Some(Cell::Resource(k, amount)) => {
                    if amount > 0 {
                        crate::map::lemma_index_in_range(w0.map.width as int, w0.map.height as int, t);
                        lemma_units_update(
                            w0.map.tiles(),
                            w0.map.index_of(t),
                            after_taking_one(k, amount),
                            kind,
                        );
                    }
                },
                _ => {},
            }
        }
    }
}

/// The tiles a scout may step on are the tiles of the map that are not
/// obstacles: free tiles, deposits of either kind and the base. Obstacles and
/// tiles off the map are never stepped on.
pub proof fn law_walkable_tiles_are_the_open_ones(map: TileMap, p: Pos)
    ensures
        map.cell_at(p) == Some(Cell::Empty) ==> walkable_on(map, p),
        map.cell_at(p) == Some(Cell::Base) ==> walkable_on(map, p),
        (map.cell_at(p) matches Some(Cell::Resource(_, _))) ==> walkable_on(map, p),
        map.cell_at(p) == Some(Cell::Obstacle) ==> !walkable_on(map, p),
        map.cell_at(p) is None ==> !walkable_on(map, p),
{
}

/// A scout with a tile next to it on the map that is not an obstacle (a free
/// tile, a deposit or the base) moves: a scout tick reports `moved` exactly
/// when some neighbour is walkable, so such a scout is never stuck.
pub proof fn law_scout_next_to_an_open_tile_moves(map: TileMap, at: Pos, k: int, moved: bool)
    requires
        0 <= k < 4,
        map.cell_at(shifted(at, direction(k))) is Some,
        map.cell_at(shifted(at, direction(k)))->0 != Cell::Obstacle,
        moved == exists|j: int| 0 <= j < 4 && walkable_on(map, #[trigger] shifted(at, direction(j))),
    ensures
        moved,
{
    assert(walkable_on(map, shifted(at, direction(k))));
}

/// A collector sent to a target that, as far as the known cells tell, is a
/// deposit of either kind with units left stays dispatched: its tick keeps
/// every target as it was and does not report the collector idle.
pub proof fn law_stocked_target_keeps_collector(
    r0: Robot,
    w0: SharedWorld,
    r1: Robot,
    w1: SharedWorld,
    msgs: Seq<RobotMessage>,
    k: ResourceKind,
    a: u32,
)
    requires
        w0.map.wf(),
        collector_tick(r0, w0, r1, w1, msgs),
        r0.carrying is None,
        w0.collector_targets@.contains_key(r0.id),
        w0.known_cells@.contains_key(w0.collector_targets@[r0.id]),
        w0.known_cells@[w0.collector_targets@[r0.id]] == Cell::Resource(k, a),
        a > 0,
    ensures
        w1.collector_targets@ == w0.collector_targets@,
        !msgs.contains(RobotMessage::CollectorIdle(r0.id)),
{
    let t = w0.collector_targets@[r0.id];
    assert(has_stock(w0, t));
    if msgs.contains(RobotMessage::CollectorIdle(r0.id)) {
        let i = choose|i: int| 0 <= i < msgs.len() && msgs[i] == RobotMessage::CollectorIdle(r0.id);
        if near(r1.pos, t) {
            match w0.map.cell_at(t) {
                Some(Cell::Resource(kind, amount)) => {
                    if amount > 0 {
                        assert(msgs[i] == RobotMessage::Collected { kind, amount: 1 });
                    }
                },
                _ => {},
            }
        }
    }
}

} // verus!
