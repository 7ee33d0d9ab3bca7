//! Rooms: rectangles drawn at random that must fit the grid and keep clear
//! of each other, and the floor they stamp on it.

use crate::grid::CaveMap;
use crate::grid::GridPos;
use crate::grid::GridSize;
use crate::random::draw_u32;
use crate::random::draw_usize;
use crate::tiles::CoarseTileType;
use bevy_turborand::RngComponent;
use vstd::prelude::*;

verus! {

/// How many positions are tried for one room before generation gives up.
pub const ROOM_GENERATION_ATTEMPTS: u32 = 50;

/// How many room sizes the catalog holds.
pub const ROOM_SIZE_COUNT: usize = 2;

/// Why no cave could be generated.
#[derive(Debug, Clone, Copy, PartialEq, Eq, Structural)]
pub enum GenerationFailed {
    /// A room found no free place within its attempts.
    PlacementExhausted,
}

/// An axis-aligned rectangle of floor: its origin and its extent.
#[derive(Debug, Clone, Copy, PartialEq, Eq, Structural)]
pub struct Room {
    pub pos: GridPos,
    pub size: GridPos,
}

/// The catalog of room sizes.
pub open spec fn spec_room_size(i: int) -> GridPos {
    if i == 0 {
        GridPos { x: 5, y: 5 }
    } else {
        GridPos { x: 5, y: 7 }
    }
}

/// `size` is one of the catalog.
pub open spec fn from_catalog(size: GridPos) -> bool {
    exists|i: int| 0 <= i < ROOM_SIZE_COUNT && size == #[trigger] spec_room_size(i)
}

/// The `i`-th size of the catalog.
pub fn room_size(i: usize) -> (size: GridPos)
    requires
        i < ROOM_SIZE_COUNT,
    ensures
        size == spec_room_size(i as int),
{
    if i == 0 {
        GridPos { x: 5, y: 5 }
    } else {
        GridPos { x: 5, y: 7 }
    }
}

impl Room {
    /// The overlap of the two rectangles has positive width and height.
    /// Rectangles that only touch along an edge do not intersect.
    pub open spec fn spec_intersects(self, other: Room) -> bool {
        let left = if self.pos.x >= other.pos.x {
            self.pos.x as int
        } else {
            other.pos.x as int
        };
        let right = if self.pos.x + self.size.x <= other.pos.x + other.size.x {
            self.pos.x + self.size.x
        } else {
            other.pos.x + other.size.x
        };
        let top = if self.pos.y >= other.pos.y {
            self.pos.y as int
        } else {
            other.pos.y as int
        };
        let bottom = if self.pos.y + self.size.y <= other.pos.y + other.size.y {
            self.pos.y + self.size.y
        } else {
            other.pos.y + other.size.y
        };
        left < right && top < bottom
    }

    /// The far corner `pos + size` lies on the grid: it is at most
    /// `bounds - 1` on both axes.
    pub open spec fn fits(self, bounds: GridSize) -> bool {
        self.pos.x + self.size.x < bounds.x && self.pos.y + self.size.y < bounds.y
    }

    /// The place lies in the stamped rectangle, both far edges included.
    pub open spec fn covers(self, x: int, y: int) -> bool {
        self.pos.x <= x <= self.pos.x + self.size.x && self.pos.y <= y <= self.pos.y
            + self.size.y
    }

    pub fn new(pos: GridPos, size: GridPos) -> (room: Room)
        ensures
            room.pos == pos,
            room.size == size,
    {
        Room { pos, size }
    }

    pub fn intersects(&self, other: &Room) -> (b: bool)
        ensures
            b == self.spec_intersects(*other),
    {
        let self_right: u64 = self.pos.x as u64 + self.size.x as u64;
        let other_right: u64 = other.pos.x as u64 + other.size.x as u64;
        let self_bottom: u64 = self.pos.y as u64 + self.size.y as u64;
        let other_bottom: u64 = other.pos.y as u64 + other.size.y as u64;
        let left: u64 = if self.pos.x >= other.pos.x {
            self.pos.x as u64
        } else {
            other.pos.x as u64
        };
        let right: u64 = if self_right <= other_right {
            self_right
        } else {
            other_right
        };
        let top: u64 = if self.pos.y >= other.pos.y {
            self.pos.y as u64
        } else {
            other.pos.y as u64
        };
        let bottom: u64 = if self_bottom <= other_bottom {
            self_bottom
        } else {
            other_bottom
        };
        left < right && top < bottom
    }

    /// Whether the room's far corner stays within the bounds.
    pub fn fits_in(&self, bounds: &GridSize) -> (b: bool)
        ensures
            b == self.fits(*bounds),
    {
        let right: u64 = self.pos.x as u64 + self.size.x as u64;
        let bottom: u64 = self.pos.y as u64 + self.size.y as u64;
        right < bounds.x as u64 && bottom < bounds.y as u64
    }
}

/// No room of `placed` intersects `room`.
pub open spec fn clear_of(placed: Seq<Room>, room: Room) -> bool {
    forall|i: int| 0 <= i < placed.len() ==> !(#[trigger] placed[i]).spec_intersects(room)
}

/// Every room fits the bounds.
pub open spec fn all_fit(rooms: Seq<Room>, bounds: GridSize) -> bool {
    forall|a: int| 0 <= a < rooms.len() ==> (#[trigger] rooms[a]).fits(bounds)
}

/// Every room fits the bounds and has a size of the catalog, and no two
/// rooms intersect.
pub open spec fn rooms_placed(rooms: Seq<Room>, bounds: GridSize) -> bool {
    &&& forall|i: int|
        0 <= i < rooms.len() ==> (#[trigger] rooms[i]).fits(bounds) && from_catalog(rooms[i].size)
    &&& forall|i: int, j: int|
        0 <= i < j < rooms.len() ==> !(#[trigger] rooms[i]).spec_intersects(#[trigger] rooms[j])
}

/// Whether a candidate is accepted: it fits the bounds and intersects none
/// of the rooms placed so far.
pub fn accepts(placed: &Vec<Room>, room: &Room, bounds: &GridSize) -> (b: bool)
    ensures
        b == (room.fits(*bounds) && clear_of(placed@, *room)),
{
    if !room.fits_in(bounds) {
        return false;
    }
    let mut i: usize = 0;
    while i < placed.len()
        invariant
            i <= placed@.len(),
            forall|j: int| 0 <= j < i ==> !(#[trigger] placed@[j]).spec_intersects(*room),
        decreases placed@.len() - i,
    {
        if placed[i].intersects(room) {
            return false;
        }
        i = i + 1;
    }
    true
}

/// What becomes of a candidate room.
#[derive(Debug, Clone, Copy, PartialEq, Eq, Structural)]
pub enum Attempt {
    /// The candidate is accepted and becomes a room.
    Placed,
    /// The candidate is refused and another origin is drawn.
    Refused,
    /// The candidate is refused and the room has used up its attempts.
    Exhausted,
}

/// Decides on a candidate for a room of which `refused` candidates were
/// refused before. A candidate that `accepts` takes is placed. One that it
/// refuses is the end of the generation when it is the
/// `ROOM_GENERATION_ATTEMPTS`-th to be refused for this room.
pub fn attempt(placed: &Vec<Room>, room: &Room, bounds: &GridSize, refused: u32) -> (a: Attempt)
    requires
        refused < ROOM_GENERATION_ATTEMPTS,
    ensures
        a == (if room.fits(*bounds) && clear_of(placed@, *room) {
            Attempt::Placed
        } else if refused + 1 < ROOM_GENERATION_ATTEMPTS {
            Attempt::Refused
        } else {
            Attempt::Exhausted
        }),
{
    if accepts(placed, room, bounds) {
        Attempt::Placed
    } else if refused + 1 < ROOM_GENERATION_ATTEMPTS {
        Attempt::Refused
    } else {
        Attempt::Exhausted
    }
}

/// Places `amount` rooms. Each room draws a size from the catalog and then
/// origins, one for each candidate, until `attempt` places a candidate or
/// finds the attempts used up, which ends the generation.
pub fn generate_rooms(rng: &mut RngComponent, amount: usize, bounds: &GridSize) -> (placed: Result<
    Vec<Room>,
    GenerationFailed,
>)
    ensures
        match placed {
            Ok(rooms) => rooms@.len() == amount && rooms_placed(rooms@, *bounds),
            Err(e) => e == GenerationFailed::PlacementExhausted && amount > 0,
        },
        amount == 0 ==> placed is Ok,
        amount > 0 && !(Room { pos: GridPos { x: 0, y: 0 }, size: spec_room_size(0) }).fits(
            *bounds,
        ) ==> placed is Err,
{
    let mut placed: Vec<Room> = Vec::new();
    if amount == 0 {
        return Ok(placed);
    }
    if bounds.x == 0 || bounds.y == 0 {
        return Err(GenerationFailed::PlacementExhausted);
    }
    while placed.len() < amount
        invariant
            bounds.x > 0,
            bounds.y > 0,
            placed@.len() <= amount,
            rooms_placed(placed@, *bounds),
        decreases amount - placed@.len(),
    {
        let size = room_size(draw_usize(rng, 0, ROOM_SIZE_COUNT));
        let mut found = false;
        let mut refused: u32 = 0;
        let ghost before = placed@.len();
        while !found
            invariant
                bounds.x > 0,
                bounds.y > 0,
                from_catalog(size),
                refused < ROOM_GENERATION_ATTEMPTS,
                rooms_placed(placed@, *bounds),
                before < amount,
                placed@.len() == (if found {
                    before + 1
                } else {
                    before
                }),
            decreases ROOM_GENERATION_ATTEMPTS - refused, if found { 0int } else { 1int },
        {
            let pos = GridPos { x: draw_u32(rng, 0, bounds.x), y: draw_u32(rng, 0, bounds.y) };
            let room = Room::new(pos, size);
            match attempt(&placed, &room, bounds, refused) {
                Attempt::Placed => {
                    placed.push(room);
                    found = true;
                },
                Attempt::Refused => {
                    refused = refused + 1;
                },
                Attempt::Exhausted => {
                    return Err(GenerationFailed::PlacementExhausted);
                },
            }
        }
    }
    proof {
        let first = placed@[0];
        assert(first.fits(*bounds) && from_catalog(first.size));
    }
    Ok(placed)
}

/// Every place that a room of `rooms` covers.
pub open spec fn covered(rooms: Seq<Room>, x: int, y: int) -> bool {
    exists|i: int| 0 <= i < rooms.len() && (#[trigger] rooms[i]).covers(x, y)
}

/// Turns the rectangle of every room into floor and leaves every other tile
/// as it is.
pub fn stamp_rooms(map: &mut CaveMap, rooms: &Vec<Room>)
    requires
        old(map).wf(),
        all_fit(rooms@, old(map).size),
    ensures
        final(map).wf(),
        final(map).size == old(map).size,
        forall|t: int|
            0 <= t < old(map).tiles@.len() ==> #[trigger] final(map).tiles@[t] == (if covered(
                rooms@,
                old(map).size.col(t),
                old(map).size.row(t),
            ) {
                CoarseTileType::Floor
            } else {
                old(map).tiles@[t]
            }),
{
    let ghost before = map.tiles@;
    let ghost size = map.size;
    let mut k: usize = 0;
    while k < rooms.len()
        invariant
            map.wf(),
            map.size == size,
            before.len() == map.tiles@.len(),
            k <= rooms@.len(),
            all_fit(rooms@, size),
            forall|t: int|
                0 <= t < before.len() ==> #[trigger] map.tiles@[t] == (if covered(
                    rooms@.take(k as int),
                    size.col(t),
                    size.row(t),
                ) {
                    CoarseTileType::Floor
                } else {
                    before[t]
                }),
        decreases rooms@.len() - k,
    {
        let ghost mid = map.tiles@;
        stamp_room(map, &rooms[k]);
        proof {
            let done = rooms@.take(k as int);
            let more = rooms@.take(k + 1);
            assert(more[k as int] == rooms@[k as int]);
            assert forall|t: int| 0 <= t < before.len() implies #[trigger] map.tiles@[t] == (if covered(
                more,
                size.col(t),
                size.row(t),
            ) {
                CoarseTileType::Floor
            } else {
                before[t]
            }) by {
                let x = size.col(t);
                let y = size.row(t);
                if covered(done, x, y) {
                    let a = choose|a: int| 0 <= a < done.len() && (#[trigger] done[a]).covers(x, y);
                    assert(more[a].covers(x, y));
                }
                if covered(more, x, y) {
                    let a = choose|a: int| 0 <= a < more.len() && (#[trigger] more[a]).covers(x, y);
                    if a < k {
                        assert(done[a].covers(x, y));
                    }
                }
            }
        }
        k = k + 1;
    }
    assert(rooms@.take(k as int) =~= rooms@);
}

/// Turns the room's rectangle into floor, both far edges included, and
/// leaves every other tile as it is.
pub fn stamp_room(map: &mut CaveMap, room: &Room)
    requires
        old(map).wf(),
        room.fits(old(map).size),
    ensures
        final(map).wf(),
        final(map).size == old(map).size,
        forall|i: int|
            0 <= i < old(map).tiles@.len() ==> #[trigger] final(map).tiles@[i] == (if room.covers(
                old(map).size.col(i),
                old(map).size.row(i),
            ) {
                CoarseTileType::Floor
            } else {
                old(map).tiles@[i]
            }),
{
    let ghost before = map.tiles@;
    let ghost size = map.size;
    let w: u32 = room.size.x;
    let h: u32 = room.size.y;
    let mut x: u32 = 0;
    while x <= w
        invariant
            map.wf(),
            map.size == size,
            before.len() == map.tiles@.len(),
            room.fits(size),
            w == room.size.x,
            h == room.size.y,
            x <= w + 1,
            forall|i: int|
                0 <= i < before.len() ==> #[trigger] map.tiles@[i] == (if room.pos.x <= size.col(i)
                    < room.pos.x + x && room.pos.y <= size.row(i) <= room.pos.y + h {
                    CoarseTileType::Floor
                } else {
                    before[i]
                }),
        decreases w + 1 - x,
    {
        let mut y: u32 = 0;
        while y <= h
            invariant
                map.wf(),
                map.size == size,
                before.len() == map.tiles@.len(),
                room.fits(size),
                w == room.size.x,
                h == room.size.y,
                x <= w,
                y <= h + 1,
                forall|i: int|
                    0 <= i < before.len() ==> #[trigger] map.tiles@[i] == (if (room.pos.x
                        <= size.col(i) < room.pos.x + x && room.pos.y <= size.row(i) <= room.pos.y
                        + h) || (size.col(i) == room.pos.x + x && room.pos.y <= size.row(i)
                        < room.pos.y + y) {
                        CoarseTileType::Floor
                    } else {
                        before[i]
                    }),
            decreases h + 1 - y,
        {
            let idx = map.index_at(room.pos.x + x, room.pos.y + y);
            proof {
                size.lemma_flat_on_grid(room.pos.x + x, room.pos.y + y);
            }
            let ghost mid = map.tiles@;
            map.tiles.set(idx, CoarseTileType::Floor);
            proof {
                assert forall|i: int| 0 <= i < before.len() implies #[trigger] map.tiles@[i] == (if (
                room.pos.x <= size.col(i) < room.pos.x + x && room.pos.y <= size.row(i)
                    <= room.pos.y + h) || (size.col(i) == room.pos.x + x && room.pos.y
                    <= size.row(i) < room.pos.y + y + 1) {
                    CoarseTileType::Floor
                } else {
                    before[i]
                }) by {
                    size.lemma_place_of_index(i);
                    assert(map.tiles@[i] == if i == idx {
                        CoarseTileType::Floor
                    } else {
                        mid[i]
                    });
                }
            }
            y = y + 1;
        }
        x = x + 1;
    }
}

} // verus!
