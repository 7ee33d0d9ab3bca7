//! The atlas entry that draws each tile: a fixed one for floor, door and
//! untouched ground, and for a wall the shape of its neighbourhood.

use crate::grid::surrounding_tiles;
use crate::grid::CaveMap;
use crate::tiles::CaveAtlasIndices;
use crate::tiles::CoarseTileType;
use vstd::prelude::*;

verus! {

/// The entry for a wall, by whether the wall continues to the north, west,
/// east and south. A wall that continues nowhere is drawn as floor.
pub open spec fn spec_wall_shape(n: bool, w: bool, e: bool, s: bool) -> CaveAtlasIndices {
    match (n, w, e, s) {
        (false, true, false, false) => CaveAtlasIndices::Wall1Left,
        (false, false, true, false) => CaveAtlasIndices::Wall1Right,
        (false, false, false, true) => CaveAtlasIndices::Wall1Bottom,
        (true, false, false, false) => CaveAtlasIndices::Wall1Top,
        (true, true, true, true) => CaveAtlasIndices::Wall1TopRightBottomLeft,
        (true, false, false, true) => CaveAtlasIndices::Wall1TopBottom,
        (false, true, true, false) => CaveAtlasIndices::Wall1RightLeft,
        (false, true, true, true) => CaveAtlasIndices::Wall1RightBottomLeft,
        (true, true, true, false) => CaveAtlasIndices::Wall1TopRightLeft,
        (true, true, false, true) => CaveAtlasIndices::Wall1TopBottomLeft,
        (true, false, true, true) => CaveAtlasIndices::Wall1TopRightBottom,
        (false, false, true, true) => CaveAtlasIndices::Wall1RightBottom,
        (false, true, false, true) => CaveAtlasIndices::Wall1BottomLeft,
        (true, false, true, false) => CaveAtlasIndices::Wall1TopRight,
        (true, true, false, false) => CaveAtlasIndices::Wall1TopLeft,
        (false, false, false, false) => CaveAtlasIndices::Floor1_1,
    }
}

/// The entry for a wall, looked up by the four sides on which it continues.
pub fn wall_shape(n: bool, w: bool, e: bool, s: bool) -> (shape: CaveAtlasIndices)
    ensures
        shape == spec_wall_shape(n, w, e, s),
{
    match (n, w, e, s) {
        (false, true, false, false) => CaveAtlasIndices::Wall1Left,
        (false, false, true, false) => CaveAtlasIndices::Wall1Right,
        (false, false, false, true) => CaveAtlasIndices::Wall1Bottom,
        (true, false, false, false) => CaveAtlasIndices::Wall1Top,
        (true, true, true, true) => CaveAtlasIndices::Wall1TopRightBottomLeft,
        (true, false, false, true) => CaveAtlasIndices::Wall1TopBottom,
        (false, true, true, false) => CaveAtlasIndices::Wall1RightLeft,
        (false, true, true, true) => CaveAtlasIndices::Wall1RightBottomLeft,
        (true, true, true, false) => CaveAtlasIndices::Wall1TopRightLeft,
        (true, true, false, true) => CaveAtlasIndices::Wall1TopBottomLeft,
        (true, false, true, true) => CaveAtlasIndices::Wall1TopRightBottom,
        (false, false, true, true) => CaveAtlasIndices::Wall1RightBottom,
        (false, true, false, true) => CaveAtlasIndices::Wall1BottomLeft,
        (true, false, true, false) => CaveAtlasIndices::Wall1TopRight,
        (true, true, false, false) => CaveAtlasIndices::Wall1TopLeft,
        (false, false, false, false) => CaveAtlasIndices::Floor1_1,
    }
}

/// The sides that a wall entry is named after, as (top, right, bottom,
/// left); none for an entry that is not a wall shape.
pub open spec fn named_sides(shape: CaveAtlasIndices) -> Option<(bool, bool, bool, bool)> {
    match shape {
        CaveAtlasIndices::Wall1Top => Some((true, false, false, false)),
        CaveAtlasIndices::Wall1Right => Some((false, true, false, false)),
        CaveAtlasIndices::Wall1Bottom => Some((false, false, true, false)),
        CaveAtlasIndices::Wall1Left => Some((false, false, false, true)),
        CaveAtlasIndices::Wall1TopRight => Some((true, true, false, false)),
        CaveAtlasIndices::Wall1TopBottom => Some((true, false, true, false)),
        CaveAtlasIndices::Wall1TopLeft => Some((true, false, false, true)),
        CaveAtlasIndices::Wall1RightBottom => Some((false, true, true, false)),
        CaveAtlasIndices::Wall1RightLeft => Some((false, true, false, true)),
        CaveAtlasIndices::Wall1BottomLeft => Some((false, false, true, true)),
        CaveAtlasIndices::Wall1TopRightBottom => Some((true, true, true, false)),
        CaveAtlasIndices::Wall1TopRightLeft => Some((true, true, false, true)),
        CaveAtlasIndices::Wall1TopBottomLeft => Some((true, false, true, true)),
        CaveAtlasIndices::Wall1RightBottomLeft => Some((false, true, true, true)),
        CaveAtlasIndices::Wall1TopRightBottomLeft => Some((true, true, true, true)),
        _ => None,
    }
}

/// A wall that continues on some side gets the entry named after exactly
/// the sides on which it continues: top for north, right for east, bottom
/// for south and left for west. A wall that continues nowhere gets the plain
/// floor entry.
pub proof fn lemma_shape_names_its_sides(n: bool, w: bool, e: bool, s: bool)
    ensures
        n || w || e || s ==> named_sides(spec_wall_shape(n, w, e, s)) == Some((n, e, s, w)),
        !(n || w || e || s) ==> spec_wall_shape(n, w, e, s) == CaveAtlasIndices::Floor1_1,
{
}

/// The tile that `idx` names is a wall; an index past the end names none.
pub open spec fn wall_at(tiles: Seq<CoarseTileType>, idx: usize) -> bool {
    idx < tiles.len() && tiles[idx as int] == CoarseTileType::Wall
}

/// The entry for the tile whose eight neighbours are listed in
/// `surrounding`, in the order NW, N, NE, W, E, SW, S, SE. Only N, W, E and
/// S are read. A list of any other length gets the plain floor entry.
pub fn get_wall_atlas_pos(tiles: &Vec<CoarseTileType>, surrounding: &Vec<usize>) -> (shape:
    CaveAtlasIndices)
    ensures
        surrounding@.len() == 8 ==> shape == spec_wall_shape(
            wall_at(tiles@, surrounding@[1]),
            wall_at(tiles@, surrounding@[3]),
            wall_at(tiles@, surrounding@[4]),
            wall_at(tiles@, surrounding@[6]),
        ),
        surrounding@.len() != 8 ==> shape == CaveAtlasIndices::Floor1_1,
{
    if surrounding.len() != 8 {
        return CaveAtlasIndices::Floor1_1;
    }
    let n = is_wall_at(tiles, surrounding[1]);
    let w = is_wall_at(tiles, surrounding[3]);
    let e = is_wall_at(tiles, surrounding[4]);
    let s = is_wall_at(tiles, surrounding[6]);
    wall_shape(n, w, e, s)
}

fn is_wall_at(tiles: &Vec<CoarseTileType>, idx: usize) -> (b: bool)
    ensures
        b == wall_at(tiles@, idx),
{
    idx < tiles.len() && tiles[idx] == CoarseTileType::Wall
}

impl CaveMap {
    /// The `k`-th tile of the ring around the tile at `idx` is a wall.
    pub open spec fn wall_beside(&self, idx: int, k: int) -> bool {
        self.spec_ring_tile(idx, k) == Some(CoarseTileType::Wall)
    }

    /// The entry that draws the tile at `idx`: for a wall the shape given by
    /// the walls to its north, west, east and south; for the other kinds a
    /// fixed entry.
    pub open spec fn spec_atlas(&self, idx: int) -> CaveAtlasIndices {
        match self.tiles@[idx] {
            CoarseTileType::Wall => spec_wall_shape(
                self.wall_beside(idx, 1),
                self.wall_beside(idx, 3),
                self.wall_beside(idx, 4),
                self.wall_beside(idx, 6),
            ),
            CoarseTileType::Floor => CaveAtlasIndices::Floor1_1,
            CoarseTileType::Door => CaveAtlasIndices::Wall1Gate,
            CoarseTileType::Dirt => CaveAtlasIndices::Floor2_1,
        }
    }
}

fn is_wall(tile: Option<&CoarseTileType>) -> (b: bool)
    ensures
        b == (match tile {
            Some(t) => *t == CoarseTileType::Wall,
            None => false,
        }),
{
    match tile {
        Some(CoarseTileType::Wall) => true,
        _ => false,
    }
}

/// The atlas entry that draws the tile at `idx`.
pub fn tile_atlas(map: &CaveMap, idx: usize) -> (shape: CaveAtlasIndices)
    requires
        map.wf(),
        idx < map.tiles@.len(),
    ensures
        shape == map.spec_atlas(idx as int),
{
    match map.tiles[idx] {
        CoarseTileType::Wall => {
            let ring = surrounding_tiles(map, idx);
            let n = is_wall(ring[1]);
            let w = is_wall(ring[3]);
            let e = is_wall(ring[4]);
            let s = is_wall(ring[6]);
            wall_shape(n, w, e, s)
        },
        CoarseTileType::Floor => CaveAtlasIndices::Floor1_1,
        CoarseTileType::Door => CaveAtlasIndices::Wall1Gate,
        CoarseTileType::Dirt => CaveAtlasIndices::Floor2_1,
    }
}

} // verus!
