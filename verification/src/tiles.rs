//! Tile kinds and the atlas entries that draw them.

use vstd::prelude::*;

verus! {

/// What a grid cell currently is. Every cell starts as `Dirt`.
#[derive(Debug, Clone, Copy, PartialEq, Eq, Structural)]
pub enum CoarseTileType {
    Wall,
    Floor,
    Door,
    Dirt,
}

/// An entry of the cave texture atlas. A wall entry is named after the sides
/// on which the wall continues.
#[allow(non_camel_case_types)]
#[derive(Debug, Clone, Copy, PartialEq, Eq, Structural)]
pub enum CaveAtlasIndices {
    Wall1RightBottomLeft,
    Wall1TopBottomLeft,
    Wall1RightBottom,
    Wall1RightLeft,
    Wall1BottomLeft,
    Wall1TopRightBottomLeft,
    Wall1TopRightBottom,
    Wall1TopRightLeft,
    Wall1TopRight,
    Wall1Left,
    Wall1TopBottom,
    Wall1Top,
    Wall1Bottom,
    Wall1Right,
    Wall1TopLeft,
    Wall1Gate,
    Wall1Rubble1,
    Wall1Rubble2,
    Floor1_1,
    Floor2_1,
    Floor2_2,
    Floor1_2,
    Floor1_3,
    Floor2_3,
}

/// A floor tile: room interior or carved corridor.
pub open spec fn spec_is_floor(tile: CoarseTileType) -> bool {
    tile == CoarseTileType::Floor
}

/// A tile that belongs to a finished structure: floor or wall.
pub open spec fn spec_is_room(tile: CoarseTileType) -> bool {
    tile == CoarseTileType::Floor || tile == CoarseTileType::Wall
}

/// A tile that can be walked through: floor or door.
pub open spec fn spec_is_passable(tile: CoarseTileType) -> bool {
    tile == CoarseTileType::Floor || tile == CoarseTileType::Door
}

pub fn is_floor(tile: &CoarseTileType) -> (b: bool)
    ensures
        b == spec_is_floor(*tile),
{
    match tile {
        CoarseTileType::Floor => true,
        _ => false,
    }
}

pub fn is_room(tile: &CoarseTileType) -> (b: bool)
    ensures
        b == spec_is_room(*tile),
{
    match tile {
        CoarseTileType::Floor | CoarseTileType::Wall => true,
        _ => false,
    }
}

impl CaveAtlasIndices {
    /// The position of the entry in the atlas image, counted row by row with
    /// 23 entries to a row.
    pub open spec fn spec_atlas_index(self) -> u32 {
        match self {
            CaveAtlasIndices::Wall1RightBottomLeft => 0,
            CaveAtlasIndices::Wall1TopBottomLeft => 1,
            CaveAtlasIndices::Wall1RightBottom => 2,
            CaveAtlasIndices::Wall1RightLeft => 3,
            CaveAtlasIndices::Wall1BottomLeft => 4,
            CaveAtlasIndices::Wall1TopRightBottomLeft => 5,
            CaveAtlasIndices::Floor1_1 => 8,
            CaveAtlasIndices::Floor2_1 => 9,
            CaveAtlasIndices::Wall1TopRightBottom => 23,
            CaveAtlasIndices::Wall1TopRightLeft => 24,
            CaveAtlasIndices::Wall1TopRight => 25,
            CaveAtlasIndices::Wall1Left => 26,
            CaveAtlasIndices::Wall1TopBottom => 27,
            CaveAtlasIndices::Wall1Rubble1 => 28,
            CaveAtlasIndices::Wall1Rubble2 => 29,
            CaveAtlasIndices::Floor2_2 => 31,
            CaveAtlasIndices::Floor1_2 => 32,
            CaveAtlasIndices::Wall1Top => 46,
            CaveAtlasIndices::Wall1Bottom => 47,
            CaveAtlasIndices::Wall1Right => 48,
            CaveAtlasIndices::Wall1TopLeft => 50,
            CaveAtlasIndices::Wall1Gate => 51,
            CaveAtlasIndices::Floor1_3 => 54,
            CaveAtlasIndices::Floor2_3 => 55,
        }
    }

    /// The number handed to the renderer for this entry.
    pub fn atlas_index(self) -> (index: u32)
        ensures
            index == self.spec_atlas_index(),
    {
        match self {
            CaveAtlasIndices::Wall1RightBottomLeft => 0,
            CaveAtlasIndices::Wall1TopBottomLeft => 1,
            CaveAtlasIndices::Wall1RightBottom => 2,
            CaveAtlasIndices::Wall1RightLeft => 3,
            CaveAtlasIndices::Wall1BottomLeft => 4,
            CaveAtlasIndices::Wall1TopRightBottomLeft => 5,
            CaveAtlasIndices::Floor1_1 => 8,
            CaveAtlasIndices::Floor2_1 => 9,
            CaveAtlasIndices::Wall1TopRightBottom => 23,
            CaveAtlasIndices::Wall1TopRightLeft => 24,
            CaveAtlasIndices::Wall1TopRight => 25,
            CaveAtlasIndices::Wall1Left => 26,
            CaveAtlasIndices::Wall1TopBottom => 27,
            CaveAtlasIndices::Wall1Rubble1 => 28,
            CaveAtlasIndices::Wall1Rubble2 => 29,
            CaveAtlasIndices::Floor2_2 => 31,
            CaveAtlasIndices::Floor1_2 => 32,
            CaveAtlasIndices::Wall1Top => 46,
            CaveAtlasIndices::Wall1Bottom => 47,
            CaveAtlasIndices::Wall1Right => 48,
            CaveAtlasIndices::Wall1TopLeft => 50,
            CaveAtlasIndices::Wall1Gate => 51,
            CaveAtlasIndices::Floor1_3 => 54,
            CaveAtlasIndices::Floor2_3 => 55,
        }
    }
}

} // verus!
