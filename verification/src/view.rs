//! What the screen shows of the world: one glyph per tile, robots drawn over
//! the tiles they stand on.

use crate::map::{Cell, Pos, ResourceKind};
use crate::robot::{units_in, units_of, RobotKind};
use crate::world::SharedWorld;
use vstd::prelude::*;

verus! {

/// The colours the screen uses.
#[derive(Clone, Copy, PartialEq, Eq, Structural, Debug)]
pub enum Tint {
    Reset,
    LightCyan,
    Green,
    LightMagenta,
    LightGreen,
    Red,
    Magenta,
}

/// A character and its colour.
#[derive(Clone, Copy, PartialEq, Eq, Structural, Debug)]
pub struct Glyph {
    pub symbol: char,
    pub tint: Tint,
}

pub open spec fn cell_glyph_of(cell: Cell) -> Glyph {
    match cell {
        Cell::Empty => Glyph { symbol: ' ', tint: Tint::Reset },
        Cell::Obstacle => Glyph { symbol: 'O', tint: Tint::LightCyan },
        Cell::Resource(ResourceKind::Energy, _) => Glyph { symbol: 'E', tint: Tint::Green },
        Cell::Resource(ResourceKind::Crystal, _) => Glyph { symbol: 'C', tint: Tint::LightMagenta },
        Cell::Base => Glyph { symbol: '#', tint: Tint::LightGreen },
    }
}

pub open spec fn robot_glyph_of(kind: RobotKind) -> Glyph {
    match kind {
        RobotKind::Scout => Glyph { symbol: 'x', tint: Tint::Red },
        RobotKind::Collector => Glyph { symbol: 'o', tint: Tint::Magenta },
    }
}

/// The glyph of a tile.
pub fn cell_glyph(cell: Cell) -> (r: Glyph)
    ensures
        r == cell_glyph_of(cell),
{
    match cell {
        Cell::Empty => Glyph { symbol: ' ', tint: Tint::Reset },
        Cell::Obstacle => Glyph { symbol: 'O', tint: Tint::LightCyan },
        Cell::Resource(ResourceKind::Energy, _) => Glyph { symbol: 'E', tint: Tint::Green },
        Cell::Resource(ResourceKind::Crystal, _) => Glyph { symbol: 'C', tint: Tint::LightMagenta },
        Cell::Base => Glyph { symbol: '#', tint: Tint::LightGreen },
    }
}

/// The glyph of a robot.
pub fn robot_glyph(kind: RobotKind) -> (r: Glyph)
    ensures
        r == robot_glyph_of(kind),
{
    match kind {
        RobotKind::Scout => Glyph { symbol: 'x', tint: Tint::Red },
        RobotKind::Collector => Glyph { symbol: 'o', tint: Tint::Magenta },
    }
}

/// What the screen shows at on-map tile `p` when the robots in `placed`
/// (id and position) are drawn in order over the map: the last robot of a
/// known kind standing on `p`, otherwise the tile itself.
pub open spec fn shown_at(world: SharedWorld, placed: Seq<(usize, Pos)>, p: Pos) -> Glyph
    decreases placed.len(),
{
    if placed.len() == 0 {
        cell_glyph_of(world.map.cell_at(p)->0)
    } else {
        let (id, q) = placed.last();
        if q == p && world.robot_kinds@.contains_key(id) {
            robot_glyph_of(world.robot_kinds@[id])
        } else {
            shown_at(world, placed.drop_last(), p)
        }
    }
}

/// The screen contents in row-major order: for each tile of the map, the
/// glyph of the last robot in `placed` standing there whose kind is known,
/// otherwise the glyph of the tile. Robots off the map are not drawn.
pub fn compose_view(world: &SharedWorld, placed: &Vec<(usize, Pos)>) -> (r: Vec<Glyph>)
    requires
        world.map.wf(),
    ensures
        r@.len() == world.map.tiles().len(),
        forall|p: Pos|
            #![trigger world.map.index_of(p)]
            world.map.in_bounds(p) ==> r@[world.map.index_of(p)] == shown_at(*world, placed@, p),
{
    let map = &world.map;
    let n = map.cells.len();
    let mut glyphs: Vec<Glyph> = Vec::new();
    let mut i: usize = 0;
    while i < n
        invariant
            map.wf(),
            n == map.tiles().len(),
            i <= n,
            glyphs@.len() == i,
            forall|j: int| 0 <= j < i ==> #[trigger] glyphs@[j] == cell_glyph_of(map.tiles()[j]),
        decreases n - i,
    {
        glyphs.push(cell_glyph(map.cells[i]));
        i = i + 1;
    }
    proof {
        assert forall|p: Pos| #![trigger map.index_of(p)] map.in_bounds(p) implies glyphs@[map.index_of(p)]
            == shown_at(*world, placed@.take(0), p) by {
            crate::map::lemma_index_in_range(map.width as int, map.height as int, p);
        }
    }
    let m = placed.len();
    let mut j: usize = 0;
    while j < m
        invariant
            map == &world.map,
            map.wf(),
            n == map.tiles().len(),
            glyphs@.len() == n,
            m == placed@.len(),
            j <= m,
            forall|p: Pos|
                #![trigger map.index_of(p)]
                map.in_bounds(p) ==> glyphs@[map.index_of(p)] == shown_at(*world, placed@.take(j as int), p),
        decreases m - j,
    {
        let (id, q) = placed[j];
        let ghost before = glyphs@;
        if q.x >= 0 && q.y >= 0 && q.x < map.width && q.y < map.height {
            match world.robot_kinds.get(&id) {
                Some(kind) => {
                    proof {
                        crate::map::lemma_index_in_range(map.width as int, map.height as int, q);
                    }
                    let k = (q.y * map.width + q.x) as usize;
                    glyphs.set(k, robot_glyph(*kind));
                },
                None => {},
            }
        }
        proof {
            assert forall|p: Pos| #![trigger map.index_of(p)] map.in_bounds(p) implies glyphs@[map.index_of(p)]
                == shown_at(*world, placed@.take(j + 1), p) by {
                assert(placed@.take(j + 1).drop_last() =~= placed@.take(j as int));
                assert(placed@.take(j + 1).last() == (id, q));
                crate::map::lemma_index_in_range(map.width as int, map.height as int, p);
                if p != q && map.in_bounds(q) {
                    crate::map::lemma_index_in_range(map.width as int, map.height as int, q);
                    if map.index_of(p) == map.index_of(q) {
                        crate::map::lemma_index_injective(map.width as int, map.height as int, p, q);
                    }
                }
            }
        }
        j = j + 1;
    }
    assert(placed@.take(m as int) =~= placed@);
    glyphs
}


/// Robot `id`, whose kind is known, stands at `p`.
pub open spec fn robot_at(world: SharedWorld, id: usize, p: Pos) -> bool {
    &&& world.robot_positions@.contains_key(id)
    &&& world.robot_positions@[id] == p
    &&& world.robot_kinds@.contains_key(id)
}

/// `g` is what the screen shows at on-map tile `p`: the glyph of one of the
/// robots of known kind standing there if there is any, otherwise the glyph
/// of the tile.
pub open spec fn shows(world: SharedWorld, p: Pos, g: Glyph) -> bool {
    if exists|id: usize| #[trigger] robot_at(world, id, p) {
        exists|id: usize| #[trigger] robot_at(world, id, p) && g == robot_glyph_of(world.robot_kinds@[id])
    } else {
        g == cell_glyph_of(world.map.cell_at(p)->0)
    }
}

/// What drawing `placed` in order leaves at `p`: the tile itself when no
/// robot of known kind in `placed` stands there, otherwise the glyph of one
/// that does.
proof fn lemma_shown_at(world: SharedWorld, placed: Seq<(usize, Pos)>, p: Pos)
    ensures
        (forall|i: int|
            0 <= i < placed.len() ==> !(#[trigger] placed[i].1 == p && world.robot_kinds@.contains_key(
                placed[i].0,
            ))) ==> shown_at(world, placed, p) == cell_glyph_of(world.map.cell_at(p)->0),
        (exists|i: int|
            0 <= i < placed.len() && #[trigger] placed[i].1 == p && world.robot_kinds@.contains_key(
                placed[i].0,
            )) ==> exists|i: int|
            0 <= i < placed.len() && #[trigger] placed[i].1 == p && world.robot_kinds@.contains_key(
                placed[i].0,
            ) && shown_at(world, placed, p) == robot_glyph_of(world.robot_kinds@[placed[i].0]),
    decreases placed.len(),
{
    if placed.len() > 0 {
        let rest = placed.drop_last();
        let last = placed.len() - 1;
        lemma_shown_at(world, rest, p);
        assert forall|i: int| 0 <= i < rest.len() implies #[trigger] rest[i] == placed[i] by {}
        let (id, q) = placed.last();
        if q == p && world.robot_kinds@.contains_key(id) {
            assert(placed[last].1 == p);
        } else {
            if exists|i: int|
                0 <= i < placed.len() && #[trigger] placed[i].1 == p && world.robot_kinds@.contains_key(
                    placed[i].0,
                ) {
                let i = choose|i: int|
                    0 <= i < placed.len() && #[trigger] placed[i].1 == p
                        && world.robot_kinds@.contains_key(placed[i].0);
                assert(i != last);
                assert(rest[i].1 == p);
                let j = choose|j: int|
                    0 <= j < rest.len() && #[trigger] rest[j].1 == p && world.robot_kinds@.contains_key(
                        rest[j].0,
                    ) && shown_at(world, rest, p) == robot_glyph_of(world.robot_kinds@[rest[j].0]);
                assert(placed[j].1 == p);
            } else {
                assert forall|i: int|
                    0 <= i < rest.len() implies !(#[trigger] rest[i].1 == p
                    && world.robot_kinds@.contains_key(rest[i].0)) by {
                    assert(placed[i].1 == rest[i].1);
                }
            }
        }
    }
}

/// The screen contents in row-major order: for each tile of the map, the
/// glyph of a robot of known kind standing there, if any, otherwise the glyph
/// of the tile. Robots off the map are not drawn; where several robots of
/// known kind share a tile, one of them is drawn, depending on the order in
/// which the position table is walked.
pub fn world_view(world: &SharedWorld) -> (r: Vec<Glyph>)
    requires
        world.map.wf(),
    ensures
        r@.len() == world.map.tiles().len(),
        forall|p: Pos|
            #![trigger world.map.index_of(p)]
            world.map.in_bounds(p) ==> shows(*world, p, r@[world.map.index_of(p)]),
{
    let ghost m = world.robot_positions@;
    let mut placed: Vec<(usize, Pos)> = Vec::new();
    for entry in it: world.robot_positions.iter()
        invariant
            m == world.robot_positions@,
            placed@.len() == it.index(),
            forall|i: int|
                0 <= i < it.seq().len() ==> m.contains_key(*(#[trigger] it.seq()[i]).0) && m[*it.seq()[i].0]
                    == *it.seq()[i].1,
            forall|k: usize| #[trigger] m.contains_key(k) ==> it.seq().contains((&k, &m[k])),
            forall|i: int|
                0 <= i < placed@.len() ==> m.contains_key((#[trigger] placed@[i]).0) && m[placed@[i].0]
                    == placed@[i].1,
            forall|k: usize|
                #[trigger] m.contains_key(k) ==> placed@.contains((k, m[k])) || exists|i: int|
                    it.index() <= i < it.seq().len() && #[trigger] it.seq()[i] == (&k, &m[k]),
    {
        let ghost idx = it.index();
        let ghost before = placed@;
        assert(it.seq()[idx] == entry);
        let (id, pos) = entry;
        placed.push((*id, *pos));
        proof {
            assert forall|k: usize| #[trigger] m.contains_key(k) implies placed@.contains((k, m[k]))
                || exists|i: int| idx + 1 <= i < it.seq().len() && #[trigger] it.seq()[i] == (&k, &m[k]) by {
                if before.contains((k, m[k])) {
                    let j = choose|j: int| 0 <= j < before.len() && before[j] == (k, m[k]);
                    assert(placed@[j] == (k, m[k]));
                } else {
                    let i = choose|i: int| idx <= i < it.seq().len() && #[trigger] it.seq()[i] == (&k, &m[k]);
                    if i == idx {
                        assert(placed@[idx] == (k, m[k]));
                    }
                }
            }
            assert forall|i: int| 0 <= i < placed@.len() implies m.contains_key((#[trigger] placed@[i]).0)
                && m[placed@[i].0] == placed@[i].1 by {
                if i < idx {
                    assert(placed@[i] == before[i]);
                }
            }
        }
    }
    proof {
        assert forall|k: usize| #[trigger] m.contains_key(k) implies placed@.contains((k, m[k])) by {}
    }
    let r = compose_view(world, &placed);
    proof {
        assert forall|p: Pos| #![trigger world.map.index_of(p)] world.map.in_bounds(p) implies shows(
            *world,
            p,
            r@[world.map.index_of(p)],
        ) by {
            lemma_shown_at(*world, placed@, p);
            if exists|id: usize| #[trigger] robot_at(*world, id, p) {
                let id = choose|id: usize| #[trigger] robot_at(*world, id, p);
                assert(m.contains_key(id));
                assert(placed@.contains((id, p)));
                let i = choose|i: int| 0 <= i < placed@.len() && placed@[i] == (id, p);
                assert(placed@[i].1 == p);
                let j = choose|j: int|
                    0 <= j < placed@.len() && #[trigger] placed@[j].1 == p
                        && world.robot_kinds@.contains_key(placed@[j].0) && shown_at(
                        *world,
                        placed@,
                        p,
                    ) == robot_glyph_of(world.robot_kinds@[placed@[j].0]);
                assert(m.contains_key(placed@[j].0));
                assert(robot_at(*world, placed@[j].0, p));
            } else {
                assert forall|i: int|
                    0 <= i < placed@.len() implies !(#[trigger] placed@[i].1 == p
                    && world.robot_kinds@.contains_key(placed@[i].0)) by {
                    assert(m.contains_key(placed@[i].0));
                    if placed@[i].1 == p && world.robot_kinds@.contains_key(placed@[i].0) {
                        assert(robot_at(*world, placed@[i].0, p));
                    }
                }
            }
        }
    }
    r
}

/// The numbers of the status line: how many robots have a position, and how
/// many units of either kind the deposits of the map still hold.
pub fn status_counts(world: &SharedWorld) -> (r: (usize, u64))
    requires
        world.map.wf(),
    ensures
        r.0 == world.robot_positions@.len(),
        r.1 == units_of(world.map.tiles(), ResourceKind::Energy) + units_of(
            world.map.tiles(),
            ResourceKind::Crystal,
        ),
{
    let robots = world.robot_positions.len();
    let cells = &world.map.cells;
    let n = cells.len();
    let mut total: u64 = 0;
    let mut i: usize = 0;
    while i < n
        invariant
            world.map.wf(),
            cells == &world.map.cells,
            n == cells@.len(),
            i <= n,
            total == units_of(cells@.take(i as int), ResourceKind::Energy) + units_of(
                cells@.take(i as int),
                ResourceKind::Crystal,
            ),
            total <= i * 0xFFFF_FFFFnat,
        decreases n - i,
    {
        let ghost s = cells@;
        assert(s.take(i + 1).drop_last() =~= s.take(i as int));
        assert(s.take(i + 1).last() == s[i as int]);
        let units: u64 = match cells[i] {
            Cell::Resource(_, q) => q as u64,
            _ => 0,
        };
        assert(units == units_in(s[i as int], ResourceKind::Energy) + units_in(
            s[i as int],
            ResourceKind::Crystal,
        ));
        total = total + units;
        i = i + 1;
    }
    assert(cells@.take(n as int) =~= cells@);
    (robots, total)
}

} // verus!
