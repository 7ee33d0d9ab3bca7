//! The tile grid: its bounds, the flat order of its tiles, and the
//! neighbourhoods of a tile.

use crate::tiles::CoarseTileType;
use bevy_ecs_tilemap::prelude::TilemapSize;
use bevy_ecs_tilemap::tiles::TilePos;
use vstd::arithmetic::div_mod::lemma_div_nonincreasing;
use vstd::arithmetic::div_mod::lemma_div_pos_is_pos;
use vstd::arithmetic::div_mod::lemma_fundamental_div_mod;
use vstd::arithmetic::div_mod::lemma_fundamental_div_mod_converse;
use vstd::arithmetic::mul::lemma_mul_inequality;
use vstd::prelude::*;

verus! {

/// Width (`x`) and height (`y`) of a grid, in tiles.
#[derive(Debug, Clone, Copy, PartialEq, Eq, Structural)]
pub struct GridSize {
    pub x: u32,
    pub y: u32,
}

/// A column (`x`) and a row (`y`) counted from the grid's origin; also used
/// for an extent in tiles.
#[derive(Debug, Clone, Copy, PartialEq, Eq, Structural)]
pub struct GridPos {
    pub x: u32,
    pub y: u32,
}

/// A position or a displacement that may lie off the grid on any side.
#[derive(Debug, Clone, Copy, PartialEq, Eq, Structural)]
pub struct GridVec {
    pub x: i64,
    pub y: i64,
}

/// A grid of tiles, stored row by row: the tile in column `x` of row `y` is
/// `tiles[y * size.x + x]`.
pub struct CaveMap {
    pub size: GridSize,
    pub tiles: Vec<CoarseTileType>,
}

impl GridSize {
    /// The number of tiles of the grid.
    pub open spec fn count(self) -> int {
        self.x * self.y
    }

    /// Column `x` of row `y` lies on the grid.
    pub open spec fn contains(self, x: int, y: int) -> bool {
        0 <= x < self.x && 0 <= y < self.y
    }

    /// The place of column `x` of row `y` in the flat order.
    pub open spec fn flat(self, x: int, y: int) -> int {
        y * self.x + x
    }

    /// The column of the tile at `idx` in the flat order.
    pub open spec fn col(self, idx: int) -> int {
        idx % (self.x as int)
    }

    /// The row of the tile at `idx` in the flat order.
    pub open spec fn row(self, idx: int) -> int {
        idx / (self.x as int)
    }

    /// The tile that lies `dx` columns and `dy` rows from the tile at `idx`,
    /// if that place is on the grid.
    pub open spec fn step(self, idx: int, dx: int, dy: int) -> Option<int> {
        let x = self.col(idx) + dx;
        let y = self.row(idx) + dy;
        if self.contains(x, y) {
            Some(self.flat(x, y))
        } else {
            None
        }
    }

    /// A place on the grid has a flat index below the tile count, and the
    /// index gives the place back.
    pub proof fn lemma_flat_on_grid(self, x: int, y: int)
        requires
            self.contains(x, y),
        ensures
            0 <= self.flat(x, y) < self.count(),
            self.col(self.flat(x, y)) == x,
            self.row(self.flat(x, y)) == y,
    {
        let w = self.x as int;
        let h = self.y as int;
        lemma_mul_inequality(0, y, w);
        lemma_mul_inequality(y + 1, h, w);
        assert((y + 1) * w == y * w + w) by (nonlinear_arith);
        assert(h * w == w * h) by (nonlinear_arith);
        lemma_fundamental_div_mod_converse(self.flat(x, y), w, y, x);
    }

    /// An index below the tile count names a place on the grid, and the
    /// place gives the index back.
    pub proof fn lemma_place_of_index(self, idx: int)
        requires
            0 <= idx < self.count(),
        ensures
            self.x > 0,
            self.contains(self.col(idx), self.row(idx)),
            self.flat(self.col(idx), self.row(idx)) == idx,
    {
        let w = self.x as int;
        let h = self.y as int;
        assert(w > 0) by (nonlinear_arith)
            requires
                0 <= idx < w * h,
                0 <= w,
        ;
        lemma_fundamental_div_mod(idx, w);
        let q = idx / w;
        let r = idx % w;
        assert(w * q == q * w) by (nonlinear_arith);
        assert(0 <= q < h) by (nonlinear_arith)
            requires
                idx == q * w + r,
                0 <= r < w,
                0 <= idx < w * h,
        ;
    }

    /// Stepping there and back returns to the start.
    pub proof fn lemma_step_back(self, idx: int, dx: int, dy: int)
        requires
            0 <= idx < self.count(),
            self.step(idx, dx, dy) is Some,
        ensures
            0 <= self.step(idx, dx, dy).unwrap() < self.count(),
            self.step(self.step(idx, dx, dy).unwrap(), -dx, -dy) == Some(idx),
    {
        self.lemma_place_of_index(idx);
        self.lemma_flat_on_grid(self.col(idx) + dx, self.row(idx) + dy);
    }
}

/// The flat index by `TilePos::to_index` of `bevy_ecs_tilemap`. Assumed: it
/// returns `y * width + x`. It does its arithmetic in `u32`, so a sum that
/// does not fit there is kept out.
#[verifier::external_body]
fn flat_index(x: u32, y: u32, size: &GridSize) -> (idx: usize)
    requires
        y * size.x + x <= u32::MAX,
    ensures
        idx == y * size.x + x,
{
    TilePos { x, y }.to_index(&TilemapSize { x: size.x, y: size.y })
}

impl CaveMap {
    /// The tiles fill the bounds exactly, and their count fits the `u32`
    /// arithmetic of the flat order.
    pub open spec fn wf(&self) -> bool {
        &&& self.tiles@.len() == self.size.count()
        &&& self.size.count() <= u32::MAX
    }

    /// The flat index of a position: none for a negative coordinate or an
    /// index past the last tile.
    pub open spec fn spec_index_of(&self, x: int, y: int) -> Option<int> {
        if x < 0 || y < 0 || self.size.flat(x, y) >= self.tiles@.len() {
            None
        } else {
            Some(self.size.flat(x, y))
        }
    }

    /// The tile at a position, where `spec_index_of` finds one.
    pub open spec fn spec_tile_at(&self, x: int, y: int) -> Option<CoarseTileType> {
        match self.spec_index_of(x, y) {
            Some(idx) => Some(self.tiles@[idx]),
            None => None,
        }
    }

    /// A grid of the given bounds in which every tile is `Dirt`.
    pub fn new(size: GridSize) -> (map: CaveMap)
        requires
            size.count() <= u32::MAX,
        ensures
            map.wf(),
            map.size == size,
            forall|i: int| 0 <= i < map.tiles@.len() ==> map.tiles@[i] == CoarseTileType::Dirt,
    {
        let count: u64 = size.x as u64 * size.y as u64;
        let mut tiles: Vec<CoarseTileType> = Vec::new();
        let mut i: u64 = 0;
        while i < count
            invariant
                i <= count,
                count <= u32::MAX,
                tiles@.len() == i,
                forall|k: int| 0 <= k < tiles@.len() ==> tiles@[k] == CoarseTileType::Dirt,
            decreases count - i,
        {
            tiles.push(CoarseTileType::Dirt);
            i = i + 1;
        }
        CaveMap { size, tiles }
    }

    /// The bounds of the grid.
    pub fn size(&self) -> (size: GridSize)
        ensures
            size == self.size,
    {
        self.size
    }

    /// The column and row of `idx` in the flat order: `idx % width` and
    /// `idx / width`. The grid needs a column, and the index has to fit
    /// the coordinates. An index below the tile count names a place on the
    /// grid, which gives the index back.
    pub fn idx_to_vec2(&self, idx: usize) -> (pos: GridVec)
        requires
            self.size.x > 0,
            idx <= i64::MAX,
        ensures
            pos.x == self.size.col(idx as int),
            pos.y == self.size.row(idx as int),
            idx < self.size.count() ==> self.size.contains(pos.x as int, pos.y as int),
            idx < self.size.count() ==> self.size.flat(pos.x as int, pos.y as int) == idx,
    {
        proof {
            if idx < self.size.count() {
                self.size.lemma_place_of_index(idx as int);
            }
            lemma_div_pos_is_pos(idx as int, self.size.x as int);
            lemma_div_nonincreasing(idx as int, self.size.x as int);
        }
        let width: usize = self.size.x as usize;
        GridVec { x: (idx % width) as i64, y: (idx / width) as i64 }
    }

    /// The flat index of a place on the grid.
    pub fn index_at(&self, x: u32, y: u32) -> (idx: usize)
        requires
            self.wf(),
            self.size.contains(x as int, y as int),
        ensures
            idx == self.size.flat(x as int, y as int),
            idx < self.tiles@.len(),
    {
        proof {
            self.size.lemma_flat_on_grid(x as int, y as int);
        }
        flat_index(x, y, &self.size)
    }

    /// The flat index of `pos`: none when a coordinate is negative or the
    /// index falls past the last tile.
    pub fn index_of(&self, pos: GridVec) -> (idx: Option<usize>)
        requires
            self.wf(),
        ensures
            match idx {
                Some(i) => self.spec_index_of(pos.x as int, pos.y as int) == Some(i as int),
                None => self.spec_index_of(pos.x as int, pos.y as int) is None,
            },
    {
        let len: usize = self.tiles.len();
        if pos.x < 0 || pos.y < 0 {
            return None;
        }
        let width: u32 = self.size.x;
        proof {
            lemma_mul_inequality(0, pos.y as int, width as int);
            if pos.y >= len {
                if width > 0 {
                    lemma_mul_inequality(1, width as int, pos.y as int);
                    assert(pos.y * width == width * pos.y) by (nonlinear_arith);
                } else {
                    assert(self.size.count() == 0) by (nonlinear_arith)
                        requires
                            self.size.count() == self.size.x * self.size.y,
                            self.size.x == 0,
                    ;
                }
            }
        }
        if pos.x as u64 >= len as u64 || pos.y as u64 >= len as u64 {
            return None;
        }
        proof {
            lemma_mul_inequality(pos.y as int, u32::MAX as int, width as int);
            lemma_mul_inequality(width as int, u32::MAX as int, u32::MAX as int);
            assert(pos.y * width <= u32::MAX * u32::MAX) by (nonlinear_arith)
                requires
                    pos.y * width <= u32::MAX * width,
                    width * u32::MAX <= u32::MAX * u32::MAX,
            ;
        }
        let flat: u64 = pos.y as u64 * width as u64 + pos.x as u64;
        if flat >= len as u64 {
            return None;
        }
        proof {
            if width == 0 {
                assert(self.size.count() == 0) by (nonlinear_arith)
                    requires
                        self.size.count() == self.size.x * self.size.y,
                        self.size.x == 0,
                ;
            }
        }
        Some(flat_index(pos.x as u32, pos.y as u32, &self.size))
    }

    /// The tile at `pos`, where `index_of` finds one.
    pub fn tile_at_pos(&self, pos: GridVec) -> (tile: Option<&CoarseTileType>)
        requires
            self.wf(),
        ensures
            match tile {
                Some(t) => self.spec_tile_at(pos.x as int, pos.y as int) == Some(*t),
                None => self.spec_tile_at(pos.x as int, pos.y as int) is None,
            },
    {
        match self.index_of(pos) {
            Some(idx) => Some(&self.tiles[idx]),
            None => None,
        }
    }
}


/// The eight displacements to the tiles around a tile, row by row from the
/// north-west: NW, N, NE, W, E, SW, S, SE. North is the row above (`y - 1`).
pub open spec fn ring_offset(k: int) -> (int, int) {
    if k == 0 {
        (-1, -1)
    } else if k == 1 {
        (0, -1)
    } else if k == 2 {
        (1, -1)
    } else if k == 3 {
        (-1, 0)
    } else if k == 4 {
        (1, 0)
    } else if k == 5 {
        (-1, 1)
    } else if k == 6 {
        (0, 1)
    } else {
        (1, 1)
    }
}

/// The four displacements to the tiles that share an edge with a tile:
/// N, W, E, S.
pub open spec fn cardinal_offset(k: int) -> (int, int) {
    if k == 0 {
        (0, -1)
    } else if k == 1 {
        (-1, 0)
    } else if k == 2 {
        (1, 0)
    } else {
        (0, 1)
    }
}

/// The `k`-th displacement of the ring of eight, or of the four cardinal ones.
pub open spec fn offset(eight: bool, k: int) -> (int, int) {
    if eight {
        ring_offset(k)
    } else {
        cardinal_offset(k)
    }
}

/// How many displacements `offset` has.
pub open spec fn offset_count(eight: bool) -> int {
    if eight {
        8
    } else {
        4
    }
}

/// A vector of indices read as a sequence of integers.
pub open spec fn as_ints(s: Seq<usize>) -> Seq<int> {
    s.map_values(|v: usize| v as int)
}

impl GridSize {
    /// The tiles on the grid among the first `n` neighbours of the tile at
    /// `idx`, in the order of the displacements.
    pub open spec fn gather(self, idx: int, eight: bool, n: int) -> Seq<int>
        decreases n,
    {
        if n <= 0 {
            Seq::empty()
        } else {
            let rest = self.gather(idx, eight, n - 1);
            let o = offset(eight, n - 1);
            match self.step(idx, o.0, o.1) {
                Some(t) => rest.push(t),
                None => rest,
            }
        }
    }

    /// The up to eight tiles around the tile at `idx`.
    pub open spec fn ring(self, idx: int) -> Seq<int> {
        self.gather(idx, true, 8)
    }

    /// The up to four tiles that share an edge with the tile at `idx`.
    pub open spec fn cardinals(self, idx: int) -> Seq<int> {
        self.gather(idx, false, 4)
    }

    /// `b` is the `k`-th neighbour of `a` for some `k`: the two tiles touch,
    /// by an edge or (with `eight`) by a corner.
    pub open spec fn touches(self, a: int, b: int, eight: bool) -> bool {
        exists|k: int|
            0 <= k < offset_count(eight) && #[trigger] self.step(
                a,
                offset(eight, k).0,
                offset(eight, k).1,
            ) == Some(b)
    }

    /// `gather` holds exactly the neighbours that `step` finds.
    pub proof fn lemma_gather_contains(self, idx: int, eight: bool, n: int, t: int)
        requires
            0 <= n,
        ensures
            self.gather(idx, eight, n).contains(t) <==> exists|k: int|
                0 <= k < n && #[trigger] self.step(idx, offset(eight, k).0, offset(eight, k).1)
                    == Some(t),
        decreases n,
    {
        if n > 0 {
            self.lemma_gather_contains(idx, eight, n - 1, t);
            let rest = self.gather(idx, eight, n - 1);
            let o = offset(eight, n - 1);
            let found = exists|k: int|
                0 <= k < n && #[trigger] self.step(idx, offset(eight, k).0, offset(eight, k).1)
                    == Some(t);
            match self.step(idx, o.0, o.1) {
                Some(s) => {
                    let all = rest.push(s);
                    if all.contains(t) {
                        let i = choose|i: int| 0 <= i < all.len() && all[i] == t;
                        if i < rest.len() {
                            assert(rest[i] == t);
                            assert(rest.contains(t));
                        } else {
                            assert(self.step(idx, offset(eight, n - 1).0, offset(eight, n - 1).1)
                                == Some(t));
                        }
                        assert(found);
                    }
                    if found {
                        let k = choose|k: int|
                            0 <= k < n && #[trigger] self.step(
                                idx,
                                offset(eight, k).0,
                                offset(eight, k).1,
                            ) == Some(t);
                        if k == n - 1 {
                            assert(all[rest.len() as int] == t);
                        } else {
                            assert(rest.contains(t));
                            let i = choose|i: int| 0 <= i < rest.len() && rest[i] == t;
                            assert(all[i] == t);
                        }
                        assert(all.contains(t));
                    }
                },
                None => {
                    if found {
                        let k = choose|k: int|
                            0 <= k < n && #[trigger] self.step(
                                idx,
                                offset(eight, k).0,
                                offset(eight, k).1,
                            ) == Some(t);
                        assert(k != n - 1);
                    }
                },
            }
        }
    }

    /// `cardinals` holds exactly the tiles that the tile touches by an edge.
    pub proof fn lemma_cardinals_touch(self, idx: int, t: int)
        ensures
            self.cardinals(idx).contains(t) <==> self.touches(idx, t, false),
    {
        self.lemma_gather_contains(idx, false, 4, t);
    }

    /// `ring` holds exactly the tiles that the tile touches by an edge or a
    /// corner.
    pub proof fn lemma_ring_touch(self, idx: int, t: int)
        ensures
            self.ring(idx).contains(t) <==> self.touches(idx, t, true),
    {
        self.lemma_gather_contains(idx, true, 8, t);
    }

    /// A tile touches another exactly when the other touches it.
    pub proof fn lemma_touches_symmetric(self, a: int, b: int, eight: bool)
        requires
            0 <= a < self.count(),
            self.touches(a, b, eight),
        ensures
            0 <= b < self.count(),
            self.touches(b, a, eight),
    {
        let k = choose|k: int|
            0 <= k < offset_count(eight) && #[trigger] self.step(
                a,
                offset(eight, k).0,
                offset(eight, k).1,
            ) == Some(b);
        let o = offset(eight, k);
        self.lemma_step_back(a, o.0, o.1);
        let back = offset_count(eight) - 1 - k;
        assert(offset(eight, back) == (-o.0, -o.1));
        assert(self.step(b, offset(eight, back).0, offset(eight, back).1) == Some(a));
    }
}

/// `path` holds the index `t`.
pub open spec fn on_path(path: Seq<usize>, t: int) -> bool {
    exists|i: int| 0 <= i < path.len() && #[trigger] path[i] == t
}

/// A path with one more index holds what it held before, and that index.
pub proof fn lemma_on_path_push(path: Seq<usize>, last: usize, t: int)
    ensures
        on_path(path.push(last), t) <==> on_path(path, t) || t == last,
{
    let longer = path.push(last);
    if on_path(path, t) {
        let i = choose|i: int| 0 <= i < path.len() && #[trigger] path[i] == t;
        assert(longer[i] == t);
    }
    if t == last {
        assert(longer[path.len() as int] == t);
    }
    if on_path(longer, t) {
        let i = choose|i: int| 0 <= i < longer.len() && #[trigger] longer[i] == t;
        if i < path.len() {
            assert(path[i] == t);
        }
    }
}

/// Gives every tile of `path` the kind `kind` and leaves the others as
/// they are.
pub fn paint(map: &mut CaveMap, path: &Vec<usize>, kind: CoarseTileType)
    requires
        old(map).wf(),
        forall|i: int| 0 <= i < path@.len() ==> path@[i] < old(map).tiles@.len(),
    ensures
        final(map).wf(),
        final(map).size == old(map).size,
        forall|t: int|
            0 <= t < old(map).tiles@.len() ==> #[trigger] final(map).tiles@[t] == (if on_path(
                path@,
                t,
            ) {
                kind
            } else {
                old(map).tiles@[t]
            }),
{
    let ghost before = map.tiles@;
    let mut k: usize = 0;
    while k < path.len()
        invariant
            map.wf(),
            map.size == old(map).size,
            before.len() == map.tiles@.len(),
            before == old(map).tiles@,
            k <= path@.len(),
            forall|i: int| 0 <= i < path@.len() ==> path@[i] < before.len(),
            forall|t: int|
                0 <= t < before.len() ==> #[trigger] map.tiles@[t] == (if on_path(
                    path@.take(k as int),
                    t,
                ) {
                    kind
                } else {
                    before[t]
                }),
        decreases path@.len() - k,
    {
        let ghost mid = map.tiles@;
        map.tiles.set(path[k], kind);
        proof {
            let shorter = path@.take(k as int);
            let longer = path@.take(k + 1);
            assert(longer[k as int] == path@[k as int]);
            assert forall|t: int| 0 <= t < before.len() implies #[trigger] map.tiles@[t] == (if on_path(
                longer,
                t,
            ) {
                kind
            } else {
                before[t]
            }) by {
                if t != path@[k as int] {
                    assert(map.tiles@[t] == mid[t]);
                    if on_path(longer, t) {
                        let i = choose|i: int| 0 <= i < longer.len() && #[trigger] longer[i] == t;
                        assert(shorter[i] == t);
                    }
                    if on_path(shorter, t) {
                        let i = choose|i: int| 0 <= i < shorter.len() && #[trigger] shorter[i] == t;
                        assert(longer[i] == t);
                    }
                }
            }
        }
        k = k + 1;
    }
    assert(path@.take(k as int) =~= path@);
}

/// The `k`-th displacement as a value.
fn offset_at(eight: bool, k: usize) -> (off: GridVec)
    requires
        k < offset_count(eight),
    ensures
        (off.x as int, off.y as int) == offset(eight, k as int),
{
    if eight {
        match k {
            0 => GridVec { x: -1, y: -1 },
            1 => GridVec { x: 0, y: -1 },
            2 => GridVec { x: 1, y: -1 },
            3 => GridVec { x: -1, y: 0 },
            4 => GridVec { x: 1, y: 0 },
            5 => GridVec { x: -1, y: 1 },
            6 => GridVec { x: 0, y: 1 },
            _ => GridVec { x: 1, y: 1 },
        }
    } else {
        match k {
            0 => GridVec { x: 0, y: -1 },
            1 => GridVec { x: -1, y: 0 },
            2 => GridVec { x: 1, y: 0 },
            _ => GridVec { x: 0, y: 1 },
        }
    }
}

impl CaveMap {
    /// The tile reached from the tile at `idx` by the displacement `off`,
    /// if that place is on the grid.
    pub fn neighbour(&self, idx: usize, off: GridVec) -> (found: Option<usize>)
        requires
            self.wf(),
            idx < self.tiles@.len(),
        ensures
            match found {
                Some(t) => self.size.step(idx as int, off.x as int, off.y as int) == Some(
                    t as int,
                ) && t < self.tiles@.len(),
                None => self.size.step(idx as int, off.x as int, off.y as int) is None,
            },
    {
        proof {
            self.size.lemma_place_of_index(idx as int);
        }
        let pos = self.idx_to_vec2(idx);
        let (x, y) = match (pos.x.checked_add(off.x), pos.y.checked_add(off.y)) {
            (Some(x), Some(y)) => (x, y),
            _ => { return None; },
        };
        if x < 0 || y < 0 || x >= self.size.x as i64 || y >= self.size.y as i64 {
            return None;
        }
        proof {
            self.size.lemma_flat_on_grid(x as int, y as int);
        }
        Some(flat_index(x as u32, y as u32, &self.size))
    }

    /// The `k`-th tile of the ring around the tile at `idx`, if it is on
    /// the grid.
    pub open spec fn spec_ring_tile(&self, idx: int, k: int) -> Option<CoarseTileType> {
        match self.size.step(idx, ring_offset(k).0, ring_offset(k).1) {
            Some(t) => Some(self.tiles@[t]),
            None => None,
        }
    }

    /// The `k`-th tile of the ring around the tile at `idx` is floor or wall.
    pub open spec fn room_like_at(&self, idx: int, k: int) -> bool {
        match self.spec_ring_tile(idx, k) {
            Some(t) => crate::tiles::spec_is_room(t),
            None => false,
        }
    }

    /// One of the eight tiles around the tile at `idx` is floor or wall.
    pub open spec fn spec_adjacent_to_room(&self, idx: int) -> bool {
        exists|k: int| 0 <= k < 8 && #[trigger] self.room_like_at(idx, k)
    }

    /// A tile from which a corridor may start: neither floor nor wall, and
    /// with no floor or wall around it.
    pub open spec fn spec_isolated(&self, idx: int) -> bool {
        &&& 0 <= idx < self.tiles@.len()
        &&& !crate::tiles::spec_is_room(self.tiles@[idx])
        &&& !self.spec_adjacent_to_room(idx)
    }

    /// How many of the first `n` tiles are isolated.
    pub open spec fn isolated_below(&self, n: int) -> int
        decreases n,
    {
        if n <= 0 {
            0
        } else if self.spec_isolated(n - 1) {
            self.isolated_below(n - 1) + 1
        } else {
            self.isolated_below(n - 1)
        }
    }
}

/// The neighbours of the tile at `idx` that lie on the grid, in the order of
/// the displacements.
fn gather_neighbours(map: &CaveMap, idx: usize, eight: bool) -> (found: Vec<usize>)
    requires
        map.wf(),
        idx < map.tiles@.len(),
    ensures
        as_ints(found@) == map.size.gather(idx as int, eight, offset_count(eight)),
        forall|i: int| 0 <= i < found@.len() ==> found@[i] < map.tiles@.len(),
{
    let count: usize = if eight {
        8
    } else {
        4
    };
    let mut found: Vec<usize> = Vec::new();
    let mut k: usize = 0;
    while k < count
        invariant
            map.wf(),
            idx < map.tiles@.len(),
            count == offset_count(eight),
            k <= count,
            as_ints(found@) == map.size.gather(idx as int, eight, k as int),
            forall|i: int| 0 <= i < found@.len() ==> found@[i] < map.tiles@.len(),
        decreases count - k,
    {
        let off = offset_at(eight, k);
        let ghost before = found@;
        match map.neighbour(idx, off) {
            Some(t) => {
                found.push(t);
                assert(as_ints(found@) =~= as_ints(before).push(t as int));
            },
            None => {},
        }
        k = k + 1;
    }
    found
}

/// The eight tiles around the tile at `idx`, in the fixed order NW, N, NE,
/// W, E, SW, S, SE; a place off the grid gives `None`.
pub fn surrounding_tiles(map: &CaveMap, idx: usize) -> (ring: Vec<Option<&CoarseTileType>>)
    requires
        map.wf(),
        idx < map.tiles@.len(),
    ensures
        ring@.len() == 8,
        forall|k: int|
            0 <= k < 8 ==> match #[trigger] ring@[k] {
                Some(t) => map.spec_ring_tile(idx as int, k) == Some(*t),
                None => map.spec_ring_tile(idx as int, k) is None,
            },
{
    let mut ring: Vec<Option<&CoarseTileType>> = Vec::new();
    let mut k: usize = 0;
    while k < 8
        invariant
            map.wf(),
            idx < map.tiles@.len(),
            k <= 8,
            ring@.len() == k,
            forall|j: int|
                0 <= j < k ==> match #[trigger] ring@[j] {
                    Some(t) => map.spec_ring_tile(idx as int, j) == Some(*t),
                    None => map.spec_ring_tile(idx as int, j) is None,
                },
        decreases 8 - k,
    {
        let off = offset_at(true, k);
        match map.neighbour(idx, off) {
            Some(t) => ring.push(Some(&map.tiles[t])),
            None => ring.push(None),
        }
        k = k + 1;
    }
    ring
}

/// The indices of the tiles around the tile at `idx` that lie on the grid,
/// in the order of `surrounding_tiles`.
pub fn surrounding_idxs(map: &CaveMap, idx: usize) -> (found: Vec<usize>)
    requires
        map.wf(),
        idx < map.tiles@.len(),
    ensures
        as_ints(found@) == map.size.ring(idx as int),
        forall|i: int| 0 <= i < found@.len() ==> found@[i] < map.tiles@.len(),
{
    gather_neighbours(map, idx, true)
}

/// The indices of the tiles that share an edge with the tile at `idx` and
/// lie on the grid, in the order N, W, E, S.
pub fn adjecent_idxs(map: &CaveMap, idx: usize) -> (found: Vec<usize>)
    requires
        map.wf(),
        idx < map.tiles@.len(),
    ensures
        as_ints(found@) == map.size.cardinals(idx as int),
        forall|i: int| 0 <= i < found@.len() ==> found@[i] < map.tiles@.len(),
{
    gather_neighbours(map, idx, false)
}

/// Whether one of the eight tiles around the tile at `idx` is floor or wall.
pub fn is_adjecent_to_room(map: &CaveMap, idx: usize) -> (b: bool)
    requires
        map.wf(),
        idx < map.tiles@.len(),
    ensures
        b == map.spec_adjacent_to_room(idx as int),
{
    let ring = surrounding_tiles(map, idx);
    let mut k: usize = 0;
    while k < 8
        invariant
            k <= 8,
            ring@.len() == 8,
            forall|j: int|
                0 <= j < 8 ==> match #[trigger] ring@[j] {
                    Some(t) => map.spec_ring_tile(idx as int, j) == Some(*t),
                    None => map.spec_ring_tile(idx as int, j) is None,
                },
            forall|j: int| 0 <= j < k ==> !#[trigger] map.room_like_at(idx as int, j),
        decreases 8 - k,
    {
        let found = match ring[k] {
            Some(t) => crate::tiles::is_room(t),
            None => false,
        };
        assert(found == map.room_like_at(idx as int, k as int));
        if found {
            return true;
        }
        k = k + 1;
    }
    false
}

/// Whether none of the eight tiles around the tile at `idx` is floor or wall.
pub fn is_neighbourless_idx(map: &CaveMap, idx: usize) -> (b: bool)
    requires
        map.wf(),
        idx < map.tiles@.len(),
    ensures
        b == !map.spec_adjacent_to_room(idx as int),
{
    !is_adjecent_to_room(map, idx)
}

/// The tiles from which a corridor may start, in increasing order: those
/// that are neither floor nor wall and have no floor or wall around them.
pub fn neighbourless_idxs(map: &CaveMap) -> (starts: Vec<usize>)
    requires
        map.wf(),
    ensures
        forall|i: int, j: int| 0 <= i < j < starts@.len() ==> starts@[i] < starts@[j],
        forall|t: usize|
            #![trigger starts@.contains(t)]
            #![trigger map.spec_isolated(t as int)]
            starts@.contains(t) <==> map.spec_isolated(t as int),
        starts@.len() == map.isolated_below(map.tiles@.len() as int),
{
    let mut starts: Vec<usize> = Vec::new();
    let len = map.tiles.len();
    let mut idx: usize = 0;
    while idx < len
        invariant
            map.wf(),
            len == map.tiles@.len(),
            idx <= len,
            starts@.len() == map.isolated_below(idx as int),
            forall|i: int, j: int| 0 <= i < j < starts@.len() ==> starts@[i] < starts@[j],
            forall|i: int| 0 <= i < starts@.len() ==> starts@[i] < idx,
            forall|t: usize| starts@.contains(t) <==> t < idx && map.spec_isolated(t as int),
        decreases len - idx,
    {
        let ghost before = starts@;
        if !crate::tiles::is_room(&map.tiles[idx]) && is_neighbourless_idx(map, idx) {
            starts.push(idx);
            assert(starts@[before.len() as int] == idx);
            assert forall|t: usize| starts@.contains(t) <==> t < idx + 1 && map.spec_isolated(
                t as int,
            ) by {
                if starts@.contains(t) {
                    let i = choose|i: int| 0 <= i < starts@.len() && starts@[i] == t;
                    if i < before.len() {
                        assert(before[i] == t);
                        assert(before.contains(t));
                    }
                }
                if t < idx && map.spec_isolated(t as int) {
                    assert(before.contains(t));
                    let i = choose|i: int| 0 <= i < before.len() && before[i] == t;
                    assert(starts@[i] == t);
                }
            }
        }
        idx = idx + 1;
    }
    starts
}

/// The tile at `pos`, where `CaveMap::index_of` finds one.
pub fn get_tile_at_pos(map: &CaveMap, pos: GridVec) -> (tile: Option<&CoarseTileType>)
    requires
        map.wf(),
    ensures
        match tile {
            Some(t) => map.spec_tile_at(pos.x as int, pos.y as int) == Some(*t),
            None => map.spec_tile_at(pos.x as int, pos.y as int) is None,
        },
{
    map.tile_at_pos(pos)
}

} // verus!
