//! Seeded generation of cave levels on a tile grid: rooms, corridors, doors
//! and walls, with every wall classified by the shape of its neighbourhood.

pub mod atlas;
pub mod cave;
pub mod corridors;
pub mod doors;
pub mod grid;
pub mod random;
pub mod reach;
pub mod rooms;
pub mod tiles;
pub mod walls;
