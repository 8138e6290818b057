use crate::random::{choose_multiple, random_in_range, seeded_rng};
use rand::rngs::StdRng;
use vstd::prelude::*;

verus! {

/// A grid coordinate. `x` grows to the east, `y` grows to the south.
#[derive(Clone, Copy, PartialEq, Eq, Structural, Hash, Debug)]
pub struct Pos {
    pub x: i32,
    pub y: i32,
}

/// The two kinds of resource a deposit can hold.
#[derive(Clone, Copy, PartialEq, Eq, Structural, Debug)]
pub enum ResourceKind {
    Energy,
    Crystal,
}

/// What occupies one tile of the map.
#[derive(Clone, Copy, PartialEq, Eq, Structural, Debug)]
pub enum Cell {
    Empty,
    Obstacle,
    Resource(ResourceKind, u32),
    Base,
}

/// A row-major rectangular grid of cells.
pub struct TileMap {
    pub width: i32,
    pub height: i32,
    pub cells: Vec<Cell>,
}

/// Where the base stands on a map of the given size: its centre.
pub open spec fn base_for(width: int, height: int) -> Pos {
    Pos { x: half_toward_zero(width) as i32, y: half_toward_zero(height) as i32 }
}

/// Half of `n`, rounded toward zero as integer division does.
pub open spec fn half_toward_zero(n: int) -> int {
    if n >= 0 {
        n / 2
    } else {
        -((-n) / 2)
    }
}

/// Row-major index of `p` on a grid of the given width.
pub open spec fn index_for(width: int, p: Pos) -> int {
    p.y * width + p.x
}

/// Whether `p` lies on a `width` by `height` grid.
pub open spec fn on_grid(width: int, height: int, p: Pos) -> bool {
    0 <= p.x < width && 0 <= p.y < height
}

/// The largest number of tiles a map may have: every row-major index must fit
/// an `i32`.
pub open spec fn max_tiles() -> int {
    0x8000_0000
}

/// Row-major indices of on-grid positions lie inside the grid.
pub proof fn lemma_index_in_range(width: int, height: int, p: Pos)
    by (nonlinear_arith)
    requires
        width > 0,
        height > 0,
        on_grid(width, height, p),
    ensures
        0 <= index_for(width, p) < width * height,
        p.y * width + width <= width * height,
{
}

/// Distinct on-grid positions have distinct row-major indices.
pub proof fn lemma_index_injective(width: int, height: int, p: Pos, q: Pos)
    by (nonlinear_arith)
    requires
        width > 0,
        on_grid(width, height, p),
        on_grid(width, height, q),
        index_for(width, p) == index_for(width, q),
    ensures
        p == q,
{
    if p.y < q.y {
        assert(p.y * width + width <= q.y * width);
    } else if q.y < p.y {
        assert(q.y * width + width <= p.y * width);
    }
}

/// `m1` is `m0` after writing `cell` at `pos`: the tile changes when `pos`
/// lies on the map, and nothing changes otherwise.
pub open spec fn set_result(m0: TileMap, pos: Pos, cell: Cell, m1: TileMap) -> bool {
    &&& m1.wf()
    &&& m1.width == m0.width
    &&& m1.height == m0.height
    &&& m0.in_bounds(pos) ==> m1.tiles() == m0.tiles().update(m0.index_of(pos), cell)
    &&& !m0.in_bounds(pos) ==> m1.tiles() == m0.tiles()
}

/// Reading a tile after writing one: the written tile reads back what was
/// written, every other tile reads what it read before, and a write off the
/// map changes no reading.
pub proof fn law_get_after_set(m0: TileMap, pos: Pos, cell: Cell, m1: TileMap, q: Pos)
    requires
        m0.wf(),
        set_result(m0, pos, cell, m1),
    ensures
        m1.cell_at(q) == (if q == pos && m0.in_bounds(pos) {
            Some(cell)
        } else {
            m0.cell_at(q)
        }),
{
    if m0.in_bounds(pos) && m0.in_bounds(q) {
        lemma_index_in_range(m0.width as int, m0.height as int, pos);
        lemma_index_in_range(m0.width as int, m0.height as int, q);
        if q != pos && m0.index_of(q) == m0.index_of(pos) {
            lemma_index_injective(m0.width as int, m0.height as int, q, pos);
        }
    }
}

impl TileMap {
    /// The cells of the map in row-major order.
    pub open spec fn tiles(self) -> Seq<Cell> {
        self.cells@
    }

    /// A map is well formed when it is non-empty, small enough for `i32`
    /// indices, and holds exactly one cell per tile.
    pub open spec fn wf(self) -> bool {
        &&& self.width > 0
        &&& self.height > 0
        &&& self.width * self.height <= max_tiles()
        &&& self.tiles().len() == self.width * self.height
    }

    pub open spec fn in_bounds(self, p: Pos) -> bool {
        on_grid(self.width as int, self.height as int, p)
    }

    pub open spec fn index_of(self, p: Pos) -> int {
        index_for(self.width as int, p)
    }

    /// The cell at `p`, or `None` off the map.
    pub open spec fn cell_at(self, p: Pos) -> Option<Cell> {
        if self.in_bounds(p) {
            Some(self.tiles()[self.index_of(p)])
        } else {
            None
        }
    }

    /// Whether the map is well formed.
    pub fn is_well_formed(&self) -> (r: bool)
        ensures
            r == self.wf(),
    {
        if self.width <= 0 || self.height <= 0 {
            return false;
        }
        assert((self.width as u64) * (self.height as u64) < 0x4000_0000_0000_0000) by (nonlinear_arith)
            requires
                0 < self.width < 0x8000_0000,
                0 < self.height < 0x8000_0000,
        ;
        let tiles = (self.width as u64) * (self.height as u64);
        tiles <= 0x8000_0000 && self.cells.len() as u64 == tiles
    }

    /// The cell at `pos`, or `None` when `pos` is off the map.
    pub fn get(&self, pos: Pos) -> (r: Option<Cell>)
        requires
            self.wf(),
        ensures
            r == self.cell_at(pos),
    {
        if pos.x < 0 || pos.y < 0 || pos.x >= self.width || pos.y >= self.height {
            return None;
        }
        proof {
            lemma_index_in_range(self.width as int, self.height as int, pos);
        }
        Some(self.cells[(pos.y * self.width + pos.x) as usize])
    }

    /// Overwrites the cell at `pos`; a position off the map changes nothing.
    pub fn set(&mut self, pos: Pos, cell: Cell)
        requires
            old(self).wf(),
        ensures
            set_result(*old(self), pos, cell, *final(self)),
    {
        if pos.x >= 0 && pos.y >= 0 && pos.x < self.width && pos.y < self.height {
            proof {
                lemma_index_in_range(self.width as int, self.height as int, pos);
            }
            let i = (pos.y * self.width + pos.x) as usize;
            self.cells.set(i, cell);
        }
    }

    /// The position of the base: the centre of the map.
    pub fn base_pos(&self) -> (r: Pos)
        ensures
            r == base_for(self.width as int, self.height as int),
    {
        Self::base_pos_for(self.width, self.height)
    }

    /// The centre of a `width` by `height` map.
    pub fn base_pos_for(width: i32, height: i32) -> (r: Pos)
        ensures
            r == base_for(width as int, height as int),
    {
        Pos { x: width / 2, y: height / 2 }
    }
}

/// How many deposits of each kind a freshly generated map receives (fewer
/// when the map has fewer free tiles).
pub const RESOURCES_PER_KIND: usize = 10;

/// The smallest number of units a fresh deposit holds.
pub const RESOURCE_QTY_MIN: u32 = 50;

/// The largest number of units a fresh deposit holds.
pub const RESOURCE_QTY_MAX: u32 = 200;

/// Mixed into the map seed to seed the deposit placement.
const DEPOSIT_SALT: u64 = 0x5EED;

/// Whether `p` is the base or one of the eight tiles around it.
pub open spec fn near_base(width: int, height: int, p: Pos) -> bool {
    let b = base_for(width, height);
    b.x - 1 <= p.x <= b.x + 1 && b.y - 1 <= p.y <= b.y + 1
}

/// The tile at `p` once the terrain is laid and the base area cleared, before
/// any deposit is placed: the base at the centre, free tiles around it, and
/// elsewhere an obstacle exactly where `obstacles` says so.
pub open spec fn carved_cell(width: int, height: int, obstacles: Seq<bool>, p: Pos) -> Cell {
    if p == base_for(width, height) {
        Cell::Base
    } else if near_base(width, height, p) {
        Cell::Empty
    } else if obstacles[index_for(width, p)] {
        Cell::Obstacle
    } else {
        Cell::Empty
    }
}

pub open spec fn is_empty_cell(c: Cell) -> bool {
    c == Cell::Empty
}

/// A tile a deposit may occupy or has occupied: free or holding a resource.
pub open spec fn is_open_cell(c: Cell) -> bool {
    c == Cell::Empty || c is Resource
}

pub open spec fn is_kind_cell(c: Cell, kind: ResourceKind) -> bool {
    c matches Cell::Resource(k, _) && k == kind
}

/// A deposit of `kind` holding a quantity a fresh deposit may hold.
pub open spec fn is_fresh_deposit(c: Cell, kind: ResourceKind) -> bool {
    c matches Cell::Resource(k, q) && k == kind && RESOURCE_QTY_MIN <= q <= RESOURCE_QTY_MAX
}

/// The number of cells of `s` that satisfy `f`.
pub open spec fn count_where(s: Seq<Cell>, f: spec_fn(Cell) -> bool) -> nat
    decreases s.len(),
{
    if s.len() == 0 {
        0
    } else {
        count_where(s.drop_last(), f) + (if f(s.last()) {
            1nat
        } else {
            0nat
        })
    }
}

pub open spec fn count_empty(s: Seq<Cell>) -> nat {
    count_where(s, |c: Cell| is_empty_cell(c))
}

pub open spec fn count_open(s: Seq<Cell>) -> nat {
    count_where(s, |c: Cell| is_open_cell(c))
}

pub open spec fn count_kind(s: Seq<Cell>, kind: ResourceKind) -> nat {
    count_where(s, |c: Cell| is_kind_cell(c, kind))
}

pub open spec fn min_nat(a: int, b: int) -> int {
    if a < b {
        a
    } else {
        b
    }
}

/// Overwriting one cell changes a count by what leaves and what arrives.
pub proof fn lemma_count_update(s: Seq<Cell>, i: int, v: Cell, f: spec_fn(Cell) -> bool)
    requires
        0 <= i < s.len(),
    ensures
        count_where(s.update(i, v), f) + (if f(s[i]) {
            1int
        } else {
            0int
        }) == count_where(s, f) + (if f(v) {
            1int
        } else {
            0int
        }),
    decreases s.len(),
{
    let t = s.update(i, v);
    if i == s.len() - 1 {
        assert(t.drop_last() =~= s.drop_last());
    } else {
        assert(t.drop_last() =~= s.drop_last().update(i, v));
        lemma_count_update(s.drop_last(), i, v, f);
    }
}

/// A prefix one cell longer counts that cell once more.
pub proof fn lemma_count_take_step(s: Seq<Cell>, i: int, f: spec_fn(Cell) -> bool)
    requires
        0 <= i < s.len(),
    ensures
        count_where(s.take(i + 1), f) == count_where(s.take(i), f) + (if f(s[i]) {
            1nat
        } else {
            0nat
        }),
{
    assert(s.take(i + 1).drop_last() =~= s.take(i));
}

/// In a sequence without deposits no tile counts as a deposit, and the open
/// tiles are exactly the free ones.
proof fn lemma_counts_without_deposits(s: Seq<Cell>)
    requires
        forall|i: int| 0 <= i < s.len() ==> !(#[trigger] s[i] is Resource),
    ensures
        count_kind(s, ResourceKind::Energy) == 0,
        count_kind(s, ResourceKind::Crystal) == 0,
        count_open(s) == count_empty(s),
    decreases s.len(),
{
    if s.len() > 0 {
        lemma_counts_without_deposits(s.drop_last());
        assert(!(s[s.len() - 1] is Resource));
    }
}

/// Positions visited before `(x, y)` in row-major order have smaller indices.
proof fn lemma_index_before(width: int, height: int, x: int, y: int, p: Pos)
    by (nonlinear_arith)
    requires
        width > 0,
        0 <= x <= width,
        on_grid(width, height, p),
        p.y < y || (p.y == y && p.x < x),
    ensures
        index_for(width, p) < y * width + x,
{
    if p.y < y {
        assert(p.y * width + width <= y * width);
    }
}

/// A sequence drawn as a sub-multiset of one without duplicates has no
/// duplicates, and each of its items occurs in the larger one.
proof fn lemma_sub_multiset_distinct(small: Seq<usize>, big: Seq<usize>)
    requires
        small.to_multiset().subset_of(big.to_multiset()),
        big.no_duplicates(),
    ensures
        small.no_duplicates(),
        forall|k: int| 0 <= k < small.len() ==> big.contains(#[trigger] small[k]),
{
    broadcast use vstd::seq_lib::group_to_multiset_ensures;

    big.lemma_multiset_has_no_duplicates();
    assert forall|x: usize| small.to_multiset().contains(x) implies small.to_multiset().count(x)
        == 1 by {
        assert(big.to_multiset().count(x) >= small.to_multiset().count(x));
        assert(big.to_multiset().contains(x));
    }
    small.lemma_multiset_has_no_duplicates_conv();
    assert forall|k: int| 0 <= k < small.len() implies big.contains(#[trigger] small[k]) by {
        assert(small.contains(small[k]));
        assert(small.to_multiset().count(small[k]) > 0);
        assert(big.to_multiset().count(small[k]) > 0);
    }
}

/// Every tile of `r` is the tile the terrain and the cleared base area call
/// for, or, where those call for a free tile, possibly a fresh deposit.
pub open spec fn laid_out(r: TileMap, width: int, height: int, obstacles: Seq<bool>) -> bool {
    forall|p: Pos|
        #![trigger r.cell_at(p)]
        r.in_bounds(p) ==> {
            ||| r.cell_at(p) == Some(carved_cell(width, height, obstacles, p))
            ||| (carved_cell(width, height, obstacles, p) == Cell::Empty && (exists|k: ResourceKind|
                is_fresh_deposit(r.cell_at(p)->0, k)))
        }
}

/// What a generated map looks like: the base at the centre; no obstacle next
/// to it; elsewhere an obstacle exactly where the terrain has one; and every
/// deposit holding between `RESOURCE_QTY_MIN` and `RESOURCE_QTY_MAX` units.
pub proof fn law_generated_layout(r: TileMap, obstacles: Seq<bool>, p: Pos)
    requires
        r.wf(),
        laid_out(r, r.width as int, r.height as int, obstacles),
    ensures
        r.cell_at(base_for(r.width as int, r.height as int)) == Some(Cell::Base),
        r.in_bounds(p) && near_base(r.width as int, r.height as int, p) ==> r.cell_at(p)->0
            != Cell::Obstacle,
        r.in_bounds(p) ==> (r.cell_at(p) == Some(Cell::Obstacle) <==> (obstacles[r.index_of(p)]
            && !near_base(r.width as int, r.height as int, p))),
        r.cell_at(p) matches Some(Cell::Resource(_, q)) ==> RESOURCE_QTY_MIN <= q
            <= RESOURCE_QTY_MAX,
{
    let b = base_for(r.width as int, r.height as int);
    assert(r.in_bounds(b));
    assert(r.cell_at(b) == Some(carved_cell(r.width as int, r.height as int, obstacles, b)) || (
    carved_cell(r.width as int, r.height as int, obstacles, b) == Cell::Empty && (exists|
        k: ResourceKind,
    | is_fresh_deposit(r.cell_at(b)->0, k))));
    if r.in_bounds(p) {
        assert(r.cell_at(p) == Some(carved_cell(r.width as int, r.height as int, obstacles, p)) || (
        carved_cell(r.width as int, r.height as int, obstacles, p) == Cell::Empty && (exists|
            k: ResourceKind,
        | is_fresh_deposit(r.cell_at(p)->0, k))));
    }
}

impl TileMap {
    /// Builds a `width` by `height` map. `obstacles` is the terrain in
    /// row-major order (`true` for an obstacle tile). The base stands at the
    /// centre with the eight tiles around it kept free, whatever the terrain
    /// says there. Then, from a generator seeded by `seed`, up to
    /// `RESOURCES_PER_KIND` Energy deposits and as many Crystal deposits are
    /// placed on distinct free tiles, each holding between
    /// `RESOURCE_QTY_MIN` and `RESOURCE_QTY_MAX` units.
    pub fn generate(width: i32, height: i32, seed: u32, obstacles: &Vec<bool>) -> (r: TileMap)
        requires
            width > 0,
            height > 0,
            width * height <= max_tiles(),
            obstacles.len() == width * height,
        ensures
            r.wf(),
            r.width == width,
            r.height == height,
            laid_out(r, width as int, height as int, obstacles@),
            count_kind(r.tiles(), ResourceKind::Energy) == min_nat(
                RESOURCES_PER_KIND as int,
                count_open(r.tiles()) as int,
            ),
            count_kind(r.tiles(), ResourceKind::Crystal) == min_nat(
                RESOURCES_PER_KIND as int,
                count_open(r.tiles()) - count_kind(r.tiles(), ResourceKind::Energy),
            ),
    {
        let base = Self::base_pos_for(width, height);
        let ghost w = width as int;
        let ghost h = height as int;
        let mut cells: Vec<Cell> = Vec::new();
        let mut y: i32 = 0;
        while y < height
            invariant
                0 <= y <= height,
                width > 0,
                height > 0,
                w == width,
                h == height,
                width * height <= max_tiles(),
                obstacles.len() == width * height,
                base == base_for(w, h),
                cells.len() == y * width,
                forall|i: int| 0 <= i < cells.len() ==> !(#[trigger] cells@[i] is Resource),
                forall|p: Pos|
                    on_grid(w, h, p) && p.y < y ==> #[trigger] cells@[index_for(w, p)]
                        == carved_cell(w, h, obstacles@, p),
            decreases height - y,
        {
            let mut x: i32 = 0;
            while x < width
                invariant
                    0 <= y < height,
                    0 <= x <= width,
                    width > 0,
                    height > 0,
                    w == width,
                    h == height,
                    width * height <= max_tiles(),
                    obstacles.len() == width * height,
                    base == base_for(w, h),
                    cells.len() == y * width + x,
                    forall|i: int| 0 <= i < cells.len() ==> !(#[trigger] cells@[i] is Resource),
                    forall|p: Pos|
                        on_grid(w, h, p) && (p.y < y || (p.y == y && p.x < x))
                            ==> #[trigger] cells@[index_for(w, p)] == carved_cell(
                            w,
                            h,
                            obstacles@,
                            p,
                        ),
                decreases width - x,
            {
                let p = Pos { x, y };
                proof {
                    lemma_index_in_range(w, h, p);
                }
                let i = (y * width + x) as usize;
                let c = if p == base {
                    Cell::Base
                } else if base.x - 1 <= x && x <= base.x + 1 && base.y - 1 <= y && y <= base.y
                    + 1 {
                    Cell::Empty
                } else if obstacles[i] {
                    Cell::Obstacle
                } else {
                    Cell::Empty
                };
                let ghost before = cells@;
                cells.push(c);
                proof {
                    assert forall|q: Pos|
                        on_grid(w, h, q) && (q.y < y || (q.y == y && q.x < x + 1)) implies #[trigger] cells@[index_for(w, q)]
                        == carved_cell(w, h, obstacles@, q) by {
                        if q == p {
                        } else {
                            lemma_index_before(w, h, x as int, y as int, q);
                            assert(cells@[index_for(w, q)] == before[index_for(w, q)]);
                        }
                    }
                }
                x = x + 1;
            }
            assert(y * width + width == (y + 1) * width) by (nonlinear_arith);
            y = y + 1;
        }
        proof {
            lemma_counts_without_deposits(cells@);
            assert(height * width == width * height) by (nonlinear_arith);
        }
        let ghost carved = cells@;
        let mut map = TileMap { width, height, cells };
        let ghost before_scatter = map.tiles();
        map.scatter_resources(seed);
        proof {
            assert forall|p: Pos| #![trigger map.cell_at(p)] map.in_bounds(p) implies {
                ||| map.cell_at(p) == Some(carved_cell(w, h, obstacles@, p))
                ||| (carved_cell(w, h, obstacles@, p) == Cell::Empty && (exists|k: ResourceKind|
                    is_fresh_deposit(map.cell_at(p)->0, k)))
            } by {
                lemma_index_in_range(w, h, p);
                let i = index_for(w, p);
                assert(carved[i] == carved_cell(w, h, obstacles@, p));
                assert(map.tiles()[i] == carved[i] || (carved[i] == Cell::Empty && exists|k: ResourceKind|
                    is_fresh_deposit(map.tiles()[i], k)));
            }
        }
        map
    }

    /// Places the deposits of both kinds on free tiles, drawing from a
    /// generator seeded by `seed`.
    fn scatter_resources(&mut self, seed: u32)
        requires
            old(self).wf(),
            count_kind(old(self).tiles(), ResourceKind::Energy) == 0,
            count_kind(old(self).tiles(), ResourceKind::Crystal) == 0,
            count_open(old(self).tiles()) == count_empty(old(self).tiles()),
        ensures
            final(self).wf(),
            final(self).width == old(self).width,
            final(self).height == old(self).height,
            forall|i: int|
                0 <= i < old(self).tiles().len() ==> #[trigger] final(self).tiles()[i] == old(
                    self,
                ).tiles()[i] || (old(self).tiles()[i] == Cell::Empty && exists|k: ResourceKind|
                    is_fresh_deposit(final(self).tiles()[i], k)),
            count_open(final(self).tiles()) == count_open(old(self).tiles()),
            count_kind(final(self).tiles(), ResourceKind::Energy) == min_nat(
                RESOURCES_PER_KIND as int,
                count_open(old(self).tiles()) as int,
            ),
            count_kind(final(self).tiles(), ResourceKind::Crystal) == min_nat(
                RESOURCES_PER_KIND as int,
                count_open(old(self).tiles()) - count_kind(
                    final(self).tiles(),
                    ResourceKind::Energy,
                ),
            ),
    {
        let mut rng = seeded_rng((seed as u64) ^ DEPOSIT_SALT);
        let ghost t0 = self.tiles();
        self.place_deposits(&mut rng, ResourceKind::Energy);
        let ghost t1 = self.tiles();
        self.place_deposits(&mut rng, ResourceKind::Crystal);
        proof {
            assert forall|i: int| 0 <= i < t0.len() implies #[trigger] self.tiles()[i] == t0[i] || (
            t0[i] == Cell::Empty && exists|k: ResourceKind| is_fresh_deposit(self.tiles()[i], k)) by {
                if self.tiles()[i] != t1[i] {
                    assert(t1[i] == Cell::Empty);
                    assert(t0[i] == Cell::Empty || exists|k: ResourceKind| is_fresh_deposit(t1[i], k));
                }
            }
        }
    }

    /// The indices of the free tiles of the map, in increasing order: every
    /// free tile of the map is among them, and nothing else is. These are
    /// the tiles the deposit sampler chooses from.
    pub fn free_tile_indices(&self) -> (r: Vec<usize>)
        ensures
            r@.len() == count_empty(self.tiles()),
            forall|a: int|
                0 <= a < r@.len() ==> #[trigger] r@[a] < self.tiles().len() && self.tiles()[r@[a] as int]
                    == Cell::Empty,
            forall|a: int, b: int| 0 <= a < b < r@.len() ==> r@[a] < r@[b],
            forall|x: int|
                0 <= x < self.tiles().len() && #[trigger] self.tiles()[x] == Cell::Empty ==> r@.contains(
                    x as usize,
                ),
    {
        let ghost t0 = self.tiles();
        let n = self.cells.len();
        let mut candidates: Vec<usize> = Vec::new();
        let mut i: usize = 0;
        while i < n
            invariant
                n == self.cells.len(),
                self.tiles() == t0,
                i <= n,
                candidates.len() == count_empty(t0.take(i as int)),
                forall|a: int|
                    0 <= a < candidates.len() ==> #[trigger] candidates@[a] < i && t0[candidates@[a] as int]
                        == Cell::Empty,
                forall|a: int, b: int|
                    0 <= a < b < candidates.len() ==> candidates@[a] < candidates@[b],
                forall|x: int| 0 <= x < i && #[trigger] t0[x] == Cell::Empty ==> candidates@.contains(x as usize),
            decreases n - i,
        {
            proof {
                lemma_count_take_step(t0, i as int, |c: Cell| is_empty_cell(c));
            }
            let ghost before = candidates@;
            if self.cells[i] == Cell::Empty {
                candidates.push(i);
            }
            proof {
                assert forall|x: int| 0 <= x < i + 1 && #[trigger] t0[x] == Cell::Empty implies candidates@.contains(
                    x as usize,
                ) by {
                    if x < i {
                        let a = choose|a: int| 0 <= a < before.len() && before[a] == x as usize;
                        assert(candidates@[a] == x as usize);
                    } else {
                        assert(candidates@[candidates@.len() - 1] == x as usize);
                    }
                }
            }
            i = i + 1;
        }
        assert(t0.take(n as int) =~= t0);
        candidates
    }

    /// Turns up to `RESOURCES_PER_KIND` distinct free tiles, chosen by `rng`,
    /// into fresh deposits of `kind`.
    fn place_deposits(&mut self, rng: &mut StdRng, kind: ResourceKind)
        requires
            old(self).wf(),
        ensures
            final(self).wf(),
            final(self).width == old(self).width,
            final(self).height == old(self).height,
            forall|i: int|
                0 <= i < old(self).tiles().len() ==> #[trigger] final(self).tiles()[i] == old(
                    self,
                ).tiles()[i] || (old(self).tiles()[i] == Cell::Empty && is_fresh_deposit(
                    final(self).tiles()[i],
                    kind,
                )),
            count_open(final(self).tiles()) == count_open(old(self).tiles()),
            count_empty(final(self).tiles()) == count_empty(old(self).tiles()) - min_nat(
                RESOURCES_PER_KIND as int,
                count_empty(old(self).tiles()) as int,
            ),
            count_kind(final(self).tiles(), kind) == count_kind(old(self).tiles(), kind) + min_nat(
                RESOURCES_PER_KIND as int,
                count_empty(old(self).tiles()) as int,
            ),
            forall|other: ResourceKind|
                other != kind ==> count_kind(final(self).tiles(), other) == count_kind(
                    old(self).tiles(),
                    other,
                ),
    {
        let ghost t0 = self.tiles();
        let candidates = self.free_tile_indices();
        assert(candidates@.no_duplicates());
        let ghost cand = candidates@;
        let chosen = choose_multiple(rng, candidates, RESOURCES_PER_KIND);
        proof {
            lemma_sub_multiset_distinct(chosen@, cand);
        }
        let m = chosen.len();
        let mut j: usize = 0;
        while j < m
            invariant
                self.wf(),
                self.width == old(self).width,
                self.height == old(self).height,
                t0 == old(self).tiles(),
                m == chosen.len(),
                j <= m,
                chosen@.no_duplicates(),
                forall|k: int| 0 <= k < m ==> cand.contains(#[trigger] chosen@[k]),
                forall|a: int|
                    0 <= a < cand.len() ==> #[trigger] cand[a] < t0.len() && t0[cand[a] as int]
                        == Cell::Empty,
                self.tiles().len() == t0.len(),
                forall|k: int| 0 <= k < j ==> is_fresh_deposit(self.tiles()[#[trigger] chosen@[k] as int], kind),
                forall|x: int|
                    0 <= x < t0.len() && !chosen@.take(j as int).contains(x as usize)
                        ==> #[trigger] self.tiles()[x] == t0[x],
                forall|x: int|
                    0 <= x < t0.len() ==> #[trigger] self.tiles()[x] == t0[x] || (t0[x] == Cell::Empty
                        && is_fresh_deposit(self.tiles()[x], kind)),
                count_open(self.tiles()) == count_open(t0),
                count_empty(self.tiles()) + j == count_empty(t0),
                count_kind(self.tiles(), kind) == count_kind(t0, kind) + j,
                forall|other: ResourceKind|
                    other != kind ==> count_kind(self.tiles(), other) == count_kind(t0, other),
            decreases m - j,
        {
            let idx = chosen[j];
            let qty = random_in_range(rng, RESOURCE_QTY_MIN, RESOURCE_QTY_MAX);
            let ghost before = self.tiles();
            proof {
                assert(cand.contains(idx));
                let a = choose|a: int| 0 <= a < cand.len() && cand[a] == idx;
                assert(t0[idx as int] == Cell::Empty);
                assert(!chosen@.take(j as int).contains(idx)) by {
                    if chosen@.take(j as int).contains(idx) {
                        let b = choose|b: int| 0 <= b < j && chosen@.take(j as int)[b] == idx;
                        assert(chosen@[b] == chosen@[j as int]);
                    }
                }
                assert(before[idx as int] == Cell::Empty);
            }
            let deposit = Cell::Resource(kind, qty);
            self.cells.set(idx, deposit);
            proof {
                assert forall|x: int|
                    0 <= x < t0.len() && !chosen@.take(j + 1).contains(x as usize) implies #[trigger] self.tiles()[x] == t0[x] by {
                    assert(chosen@.take(j + 1)[j as int] == idx);
                    if chosen@.take(j as int).contains(x as usize) {
                        let b = choose|b: int| 0 <= b < j && chosen@.take(j as int)[b] == x as usize;
                        assert(chosen@.take(j + 1)[b] == x as usize);
                    }
                }
                lemma_count_update(before, idx as int, deposit, |c: Cell| is_open_cell(c));
                lemma_count_update(before, idx as int, deposit, |c: Cell| is_empty_cell(c));
                lemma_count_update(before, idx as int, deposit, |c: Cell| is_kind_cell(c, kind));
                assert forall|other: ResourceKind| other != kind implies count_kind(
                    self.tiles(),
                    other,
                ) == count_kind(t0, other) by {
                    lemma_count_update(
                        before,
                        idx as int,
                        deposit,
                        |c: Cell| is_kind_cell(c, other),
                    );
                }
                assert(chosen@.take(j + 1) =~= chosen@.take(j as int).push(idx));
                assert forall|k: int| 0 <= k < j + 1 implies is_fresh_deposit(
                    self.tiles()[#[trigger] chosen@[k] as int],
                    kind,
                ) by {
                    if k < j {
                        assert(chosen@[k] != idx);
                    }
                }
            }
            j = j + 1;
        }
    }
}

} // verus!
