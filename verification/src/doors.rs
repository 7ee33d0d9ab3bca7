//! Doors: for each edge of a room, the tiles just outside it that open onto
//! another structure one tile further out, and the one that is picked.

use crate::grid::as_ints;
use crate::grid::cardinal_offset;
use crate::grid::lemma_on_path_push;
use crate::grid::on_path;
use crate::grid::CaveMap;
use crate::grid::GridSize;
use crate::grid::GridVec;
use crate::random::draw_u32;
use crate::random::draw_usize;
use crate::rooms::covered;
use crate::rooms::all_fit;
use crate::rooms::Room;
use crate::tiles::is_room;
use crate::tiles::spec_is_passable;
use crate::tiles::spec_is_room;
use crate::tiles::CoarseTileType;
use bevy_turborand::RngComponent;
use vstd::prelude::*;

verus! {

/// An edge of a room. The bottom edge is the row of the room's origin, the
/// left edge its column.
#[derive(Debug, Clone, Copy, PartialEq, Eq, Structural)]
pub enum Edge {
    Bottom,
    Top,
    Left,
    Right,
}

impl Edge {
    /// Which of the four cardinal displacements leads out of the room
    /// across this edge.
    pub open spec fn rank(self) -> int {
        match self {
            Edge::Bottom => 0,
            Edge::Left => 1,
            Edge::Right => 2,
            Edge::Top => 3,
        }
    }

    /// The place of this edge in the order in which a room's edges are
    /// scanned: bottom, top, left, right.
    pub open spec fn turn(self) -> int {
        match self {
            Edge::Bottom => 0,
            Edge::Top => 1,
            Edge::Left => 2,
            Edge::Right => 3,
        }
    }

    /// The displacement that leads out of the room across this edge.
    pub open spec fn outward(self) -> (int, int) {
        cardinal_offset(self.rank())
    }

    /// `steps` steps out of the room across this edge. The count must have
    /// a negative in `i64`.
    pub fn out(self, steps: i64) -> (off: GridVec)
        requires
            steps > i64::MIN,
        ensures
            off.x == steps * self.outward().0,
            off.y == steps * self.outward().1,
    {
        match self {
            Edge::Bottom => GridVec { x: 0, y: -steps },
            Edge::Top => GridVec { x: 0, y: steps },
            Edge::Left => GridVec { x: -steps, y: 0 },
            Edge::Right => GridVec { x: steps, y: 0 },
        }
    }
}

impl Room {
    /// How many tiles of the edge are scanned for a door: the far corner is
    /// left out.
    pub open spec fn edge_len(self, edge: Edge) -> int {
        match edge {
            Edge::Bottom | Edge::Top => self.size.x as int,
            Edge::Left | Edge::Right => self.size.y as int,
        }
    }

    /// The `k`-th tile of the edge, counted from the origin's side.
    pub open spec fn edge_place(self, edge: Edge, k: int) -> (int, int) {
        match edge {
            Edge::Bottom => (self.pos.x + k, self.pos.y as int),
            Edge::Top => (self.pos.x + k, self.pos.y + self.size.y),
            Edge::Left => (self.pos.x as int, self.pos.y + k),
            Edge::Right => (self.pos.x + self.size.x, self.pos.y + k),
        }
    }
}

impl CaveMap {
    /// The door that the `k`-th tile of a room's edge offers: the tile one
    /// step outside, if it lies on the grid and is neither floor nor wall,
    /// and the tile two steps outside lies on the grid and is floor or wall.
    pub open spec fn door_site(&self, room: Room, edge: Edge, k: int) -> Option<int> {
        let place = room.edge_place(edge, k);
        let from = self.size.flat(place.0, place.1);
        let d = edge.outward();
        match (self.size.step(from, d.0, d.1), self.size.step(from, 2 * d.0, 2 * d.1)) {
            (Some(door), Some(far)) => if !spec_is_room(self.tiles@[door]) && spec_is_room(
                self.tiles@[far],
            ) {
                Some(door)
            } else {
                None
            },
            _ => None,
        }
    }

    /// The doors that the first `n` tiles of a room's edge offer, in the
    /// order of the tiles.
    pub open spec fn door_sites(&self, room: Room, edge: Edge, n: int) -> Seq<int>
        decreases n,
    {
        if n <= 0 {
            Seq::empty()
        } else {
            let rest = self.door_sites(room, edge, n - 1);
            match self.door_site(room, edge, n - 1) {
                Some(door) => rest.push(door),
                None => rest,
            }
        }
    }

    /// `door_sites` holds exactly the doors that `door_site` finds.
    pub proof fn lemma_door_sites_contains(&self, room: Room, edge: Edge, n: int, door: int)
        requires
            0 <= n,
        ensures
            self.door_sites(room, edge, n).contains(door) <==> exists|k: int|
                0 <= k < n && #[trigger] self.door_site(room, edge, k) == Some(door),
        decreases n,
    {
        if n > 0 {
            self.lemma_door_sites_contains(room, edge, n - 1, door);
            let rest = self.door_sites(room, edge, n - 1);
            let all = self.door_sites(room, edge, n);
            let found = exists|k: int|
                0 <= k < n && #[trigger] self.door_site(room, edge, k) == Some(door);
            match self.door_site(room, edge, n - 1) {
                Some(last) => {
                    assert(all == rest.push(last));
                    if all.contains(door) {
                        let i = choose|i: int| 0 <= i < all.len() && all[i] == door;
                        if i < rest.len() {
                            assert(rest[i] == door);
                            assert(rest.contains(door));
                        } else {
                            assert(self.door_site(room, edge, n - 1) == Some(door));
                        }
                        assert(found);
                    }
                    if found {
                        let k = choose|k: int|
                            0 <= k < n && #[trigger] self.door_site(room, edge, k) == Some(door);
                        if k == n - 1 {
                            assert(all[rest.len() as int] == door);
                        } else {
                            assert(rest.contains(door));
                            let i = choose|i: int| 0 <= i < rest.len() && rest[i] == door;
                            assert(all[i] == door);
                        }
                        assert(all.contains(door));
                    }
                },
                None => {
                    if found {
                        let k = choose|k: int|
                            0 <= k < n && #[trigger] self.door_site(room, edge, k) == Some(door);
                        assert(k != n - 1);
                    }
                },
            }
        }
    }
}

/// The doors that an edge of a room offers, in the order of the edge's tiles.
pub fn door_candidates(map: &CaveMap, room: &Room, edge: Edge) -> (group: Vec<usize>)
    requires
        map.wf(),
        room.fits(map.size),
    ensures
        as_ints(group@) == map.door_sites(*room, edge, room.edge_len(edge)),
        forall|i: int| 0 <= i < group@.len() ==> group@[i] < map.tiles@.len(),
{
    let count: u32 = match edge {
        Edge::Bottom | Edge::Top => room.size.x,
        Edge::Left | Edge::Right => room.size.y,
    };
    let mut group: Vec<usize> = Vec::new();
    let mut k: u32 = 0;
    while k < count
        invariant
            map.wf(),
            room.fits(map.size),
            count == room.edge_len(edge),
            k <= count,
            as_ints(group@) == map.door_sites(*room, edge, k as int),
            forall|i: int| 0 <= i < group@.len() ==> group@[i] < map.tiles@.len(),
        decreases count - k,
    {
        let from = match edge {
            Edge::Bottom => map.index_at(room.pos.x + k, room.pos.y),
            Edge::Top => map.index_at(room.pos.x + k, room.pos.y + room.size.y),
            Edge::Left => map.index_at(room.pos.x, room.pos.y + k),
            Edge::Right => map.index_at(room.pos.x + room.size.x, room.pos.y + k),
        };
        let ghost before = group@;
        match map.neighbour(from, edge.out(1)) {
            Some(door) => {
                match map.neighbour(from, edge.out(2)) {
                    Some(far) => {
                        if !is_room(&map.tiles[door]) && is_room(&map.tiles[far]) {
                            group.push(door);
                            assert(as_ints(group@) =~= as_ints(before).push(door as int));
                        }
                    },
                    None => {},
                }
            },
            None => {},
        }
        k = k + 1;
    }
    group
}

/// Turns the chosen candidate into a door where `coin` is 5 or more, and
/// into floor where it is less; returns the candidate.
pub fn commit_door(map: &mut CaveMap, group: &Vec<usize>, chosen: usize, coin: u32) -> (door: usize)
    requires
        old(map).wf(),
        chosen < group@.len(),
        group@[chosen as int] < old(map).tiles@.len(),
    ensures
        door == group@[chosen as int],
        final(map).size == old(map).size,
        final(map).tiles@ == old(map).tiles@.update(
            door as int,
            if coin >= 5 {
                CoarseTileType::Door
            } else {
                CoarseTileType::Floor
            },
        ),
{
    let door = group[chosen];
    let kind = if coin >= 5 {
        CoarseTileType::Door
    } else {
        CoarseTileType::Floor
    };
    map.tiles.set(door, kind);
    door
}

/// Scans one edge of a room and, where it offers a door, picks one of the
/// candidates with a first draw and makes it a door or floor with a second.
/// An edge that offers none leaves the map as it is.
pub fn generate_doors(rng: &mut RngComponent, map: &mut CaveMap, room: &Room, edge: Edge) -> (door:
    Option<usize>)
    requires
        old(map).wf(),
        room.fits(old(map).size),
    ensures
        final(map).wf(),
        final(map).size == old(map).size,
        match door {
            Some(d) => {
                &&& old(map).door_sites(*room, edge, room.edge_len(edge)).contains(d as int)
                &&& d < old(map).tiles@.len()
                &&& (final(map).tiles@ == old(map).tiles@.update(d as int, CoarseTileType::Door)
                    || final(map).tiles@ == old(map).tiles@.update(
                    d as int,
                    CoarseTileType::Floor,
                ))
            },
            None => {
                &&& old(map).door_sites(*room, edge, room.edge_len(edge)).len() == 0
                &&& final(map).tiles@ == old(map).tiles@
            },
        },
{
    let group = door_candidates(map, room, edge);
    if group.len() > 0 {
        let chosen = draw_usize(rng, 0, group.len());
        let coin = draw_u32(rng, 0, 10);
        assert(as_ints(group@)[chosen as int] == group@[chosen as int] as int);
        Some(commit_door(map, &group, chosen, coin))
    } else {
        assert(as_ints(group@).len() == 0);
        None
    }
}

impl CaveMap {
    /// Along the `k`-th cardinal displacement, the tile before the tile at
    /// `door` is floor and the tile behind it is floor or wall.
    pub open spec fn flanked_along(&self, door: int, k: int) -> bool {
        let d = cardinal_offset(k);
        match (self.size.step(door, -d.0, -d.1), self.size.step(door, d.0, d.1)) {
            (Some(near), Some(far)) => self.tiles@[near] == CoarseTileType::Floor && spec_is_room(
                self.tiles@[far],
            ),
            _ => false,
        }
    }

    /// The tile at `door` stands between floor on one side and floor or
    /// wall on the opposite side.
    pub open spec fn flanked(&self, door: int) -> bool {
        exists|k: int| 0 <= k < 4 && #[trigger] self.flanked_along(door, k)
    }
}

/// Along the `k`-th cardinal displacement, the tile before `door` belongs
/// to a room and the tile behind it is floor or wall.
pub open spec fn backed_along(
    tiles: Seq<CoarseTileType>,
    size: GridSize,
    rooms: Seq<Room>,
    door: int,
    k: int,
) -> bool {
    let d = cardinal_offset(k);
    match (size.step(door, -d.0, -d.1), size.step(door, d.0, d.1)) {
        (Some(near), Some(far)) => covered(rooms, size.col(near), size.row(near)) && spec_is_room(
            tiles[far],
        ),
        _ => false,
    }
}

/// The tile at `door` lies one step outside a room, with floor or wall one
/// step further out.
pub open spec fn backed(tiles: Seq<CoarseTileType>, size: GridSize, rooms: Seq<Room>, door: int) -> bool {
    exists|k: int| 0 <= k < 4 && #[trigger] backed_along(tiles, size, rooms, door, k)
}

/// What holds of a picked door: it was neither floor nor wall, it is now
/// door or floor, and it lies between a room and floor or wall.
pub open spec fn door_ok(
    before: Seq<CoarseTileType>,
    after: Seq<CoarseTileType>,
    size: GridSize,
    rooms: Seq<Room>,
    door: usize,
) -> bool {
    &&& door < before.len()
    &&& !spec_is_room(before[door as int])
    &&& spec_is_passable(after[door as int])
    &&& backed(after, size, rooms, door as int)
}

/// What picking `doors` does to a grid: every door is as `door_ok` says,
/// and no other tile has changed.
pub open spec fn doored(
    before: Seq<CoarseTileType>,
    after: Seq<CoarseTileType>,
    size: GridSize,
    rooms: Seq<Room>,
    doors: Seq<usize>,
) -> bool {
    &&& after.len() == before.len()
    &&& forall|j: int|
        0 <= j < doors.len() ==> door_ok(before, after, size, rooms, #[trigger] doors[j])
    &&& forall|t: int|
        0 <= t < before.len() && !on_path(doors, t) ==> #[trigger] after[t] == before[t]
}

/// Two steps in a row lead where a step of twice the length leads.
proof fn lemma_step_twice(size: GridSize, from: int, dx: int, dy: int)
    requires
        0 <= from < size.count(),
        size.step(from, dx, dy) is Some,
        size.step(from, 2 * dx, 2 * dy) is Some,
    ensures
        size.step(size.step(from, dx, dy).unwrap(), dx, dy) == size.step(from, 2 * dx, 2 * dy),
{
    size.lemma_place_of_index(from);
    size.lemma_flat_on_grid(size.col(from) + dx, size.row(from) + dy);
}

/// Some edge of some room offers a door on `map`.
pub open spec fn offered(map: &CaveMap, rooms: Seq<Room>) -> bool {
    exists|a: int, edge: Edge, k: int|
        0 <= a < rooms.len() && 0 <= k < rooms[a].edge_len(edge) && #[trigger] map.door_site(
            rooms[a],
            edge,
            k,
        ) is Some
}

/// No edge that comes before turn `turns` offers a door on `map`. Room `a`
/// has the turns `4 * a` to `4 * a + 3`, in the order of `Edge::turn`.
spec fn quiet_before(map: &CaveMap, rooms: Seq<Room>, turns: int) -> bool {
    forall|a: int, edge: Edge|
        0 <= a < rooms.len() && 4 * a + edge.turn() < turns ==> (#[trigger] map.door_sites(
            rooms[a],
            edge,
            rooms[a].edge_len(edge),
        )).len() == 0
}

/// As long as no door is picked the map is as it came in and no edge has
/// offered a door; once one is picked, an edge has offered it.
spec fn picks_follow_offers(
    start: &CaveMap,
    tiles: Seq<CoarseTileType>,
    rooms: Seq<Room>,
    doors: Seq<usize>,
    turns: int,
) -> bool {
    &&& doors.len() <= turns
    &&& if doors.len() == 0 {
        tiles == start.tiles@ && quiet_before(start, rooms, turns)
    } else {
        offered(start, rooms)
    }
}

/// What an edge offers depends on the bounds and the tiles alone.
proof fn lemma_door_sites_same(m1: &CaveMap, m2: &CaveMap, room: Room, edge: Edge, n: int)
    requires
        m1.size == m2.size,
        m1.tiles@ == m2.tiles@,
    ensures
        m1.door_sites(room, edge, n) == m2.door_sites(room, edge, n),
    decreases n,
{
    if n > 0 {
        lemma_door_sites_same(m1, m2, room, edge, n - 1);
        assert(m1.door_site(room, edge, n - 1) == m2.door_site(room, edge, n - 1));
    }
}

/// The edge that is scanned at the `k`-th of a room's four turns: bottom,
/// top, left, right.
pub open spec fn edge_at(k: int) -> Edge {
    if k == 0 {
        Edge::Bottom
    } else if k == 1 {
        Edge::Top
    } else if k == 2 {
        Edge::Left
    } else {
        Edge::Right
    }
}

/// What the turn of one edge does to the grid and to the doors, of which
/// `had` were picked before it and `has` are picked after it. An edge that
/// offers nothing on the grid `before` leaves the grid and the doors as
/// they are. An edge that offers a door adds one of its offers to the
/// doors and makes that tile, and no other, door or floor.
pub open spec fn turn_taken(
    before: CaveMap,
    after: CaveMap,
    room: Room,
    edge: Edge,
    doors: Seq<usize>,
    had: int,
    has: int,
) -> bool {
    let sites = before.door_sites(room, edge, room.edge_len(edge));
    &&& after.size == before.size
    &&& if sites.len() == 0 {
        after.tiles@ == before.tiles@ && has == had
    } else {
        &&& has == had + 1
        &&& 0 <= had < doors.len()
        &&& sites.contains(doors[had] as int)
        &&& (after.tiles@ == before.tiles@.update(doors[had] as int, CoarseTileType::Door)
            || after.tiles@ == before.tiles@.update(doors[had] as int, CoarseTileType::Floor))
    }
}

/// The `p`-th turn of a run is that of the edge `edge_at(p % 4)` of the
/// room `rooms[p / 4]`, from the grid `grids[p]` to the grid `grids[p + 1]`.
pub open spec fn nth_turn(
    rooms: Seq<Room>,
    doors: Seq<usize>,
    grids: Seq<CaveMap>,
    counts: Seq<int>,
    p: int,
) -> bool {
    turn_taken(
        grids[p],
        grids[p + 1],
        rooms[p / 4],
        edge_at(p % 4),
        doors,
        counts[p],
        counts[p + 1],
    )
}

/// The first `turns` turns of the scan: `grids` holds the grid before each
/// turn and after the last, `counts` the number of doors picked by then,
/// and every turn is as `turn_taken` says.
pub open spec fn door_run(
    rooms: Seq<Room>,
    doors: Seq<usize>,
    grids: Seq<CaveMap>,
    counts: Seq<int>,
    turns: int,
) -> bool {
    &&& grids.len() == turns + 1
    &&& counts.len() == turns + 1
    &&& counts[0] == 0
    &&& counts[turns] == doors.len()
    &&& forall|p: int| 0 <= p < turns ==> #[trigger] nth_turn(rooms, doors, grids, counts, p)
}

/// The doors were picked turn by turn: a run of the four turns of every
/// room leads from the grid `before` to the grid `after`.
pub open spec fn picked_in_turn(
    before: CaveMap,
    after: CaveMap,
    rooms: Seq<Room>,
    doors: Seq<usize>,
) -> bool {
    let turns = 4 * (rooms.len() as int);
    exists|grids: Seq<CaveMap>, counts: Seq<int>| #[trigger]
        door_run(rooms, doors, grids, counts, turns) && grids[0] == before && grids[turns]
            == after
}

/// A run grows by one turn when the next edge takes its turn on the grid
/// that the run has reached.
proof fn lemma_run_grows(
    rooms: Seq<Room>,
    had: Seq<usize>,
    doors: Seq<usize>,
    grids: Seq<CaveMap>,
    counts: Seq<int>,
    turn: int,
    after: CaveMap,
)
    requires
        0 <= turn,
        door_run(rooms, had, grids, counts, turn),
        had.len() <= doors.len(),
        forall|i: int| 0 <= i < had.len() ==> doors[i] == had[i],
        turn_taken(
            grids[turn],
            after,
            rooms[turn / 4],
            edge_at(turn % 4),
            doors,
            had.len() as int,
            doors.len() as int,
        ),
    ensures
        door_run(rooms, doors, grids.push(after), counts.push(doors.len() as int), turn + 1),
{
    let longer = grids.push(after);
    let more = counts.push(doors.len() as int);
    assert forall|p: int| 0 <= p < turn + 1 implies #[trigger] nth_turn(
        rooms,
        doors,
        longer,
        more,
        p,
    ) by {
        if p < turn {
            assert(nth_turn(rooms, had, grids, counts, p));
            assert(longer[p] == grids[p] && longer[p + 1] == grids[p + 1]);
            assert(more[p] == counts[p] && more[p + 1] == counts[p + 1]);
            if 0 <= counts[p] < had.len() {
                assert(doors[counts[p]] == had[counts[p]]);
            }
        } else {
            assert(longer[p] == grids[turn] && longer[p + 1] == after);
            assert(more[p] == counts[turn] && more[p + 1] == doors.len());
        }
    }
}

/// Lets one edge of the room `rooms[a]` take its turn, and returns the run
/// so far with this turn added.
fn take_turn(
    rng: &mut RngComponent,
    map: &mut CaveMap,
    rooms: &Vec<Room>,
    a: usize,
    edge: Edge,
    doors: &mut Vec<usize>,
    Ghost(first): Ghost<CaveMap>,
    Ghost(grids): Ghost<Seq<CaveMap>>,
    Ghost(counts): Ghost<Seq<int>>,
) -> (run: (Ghost<Seq<CaveMap>>, Ghost<Seq<int>>))
    requires
        old(map).wf(),
        first.size == old(map).size,
        all_fit(rooms@, old(map).size),
        a < rooms@.len(),
        doored(first.tiles@, old(map).tiles@, old(map).size, rooms@, old(doors)@),
        picks_follow_offers(
            &first,
            old(map).tiles@,
            rooms@,
            old(doors)@,
            4 * a + edge.turn(),
        ),
        door_run(rooms@, old(doors)@, grids, counts, 4 * a + edge.turn()),
        grids[4 * a + edge.turn()] == *old(map),
    ensures
        final(map).wf(),
        final(map).size == old(map).size,
        doored(first.tiles@, final(map).tiles@, old(map).size, rooms@, final(doors)@),
        picks_follow_offers(
            &first,
            final(map).tiles@,
            rooms@,
            final(doors)@,
            4 * a + edge.turn() + 1,
        ),
        door_run(rooms@, final(doors)@, run.0@, run.1@, 4 * a + edge.turn() + 1),
        run.0@[4 * a + edge.turn() + 1] == *final(map),
        run.0@[0] == grids[0],
{
    let ghost had = doors@;
    let ghost turn = 4 * a + edge.turn();
    try_edge(rng, map, rooms, a, edge, doors, Ghost(first));
    proof {
        assert(edge_at(turn % 4) == edge && turn / 4 == a);
        lemma_run_grows(rooms@, had, doors@, grids, counts, turn, *map);
    }
    (Ghost(grids.push(*map)), Ghost(counts.push(doors@.len() as int)))
}

/// Scans one edge of the room `rooms[a]` and records the door picked for
/// it, if any.
fn try_edge(
    rng: &mut RngComponent,
    map: &mut CaveMap,
    rooms: &Vec<Room>,
    a: usize,
    edge: Edge,
    doors: &mut Vec<usize>,
    Ghost(first): Ghost<CaveMap>,
)
    requires
        old(map).wf(),
        first.size == old(map).size,
        all_fit(rooms@, old(map).size),
        a < rooms@.len(),
        doored(first.tiles@, old(map).tiles@, old(map).size, rooms@, old(doors)@),
        picks_follow_offers(
            &first,
            old(map).tiles@,
            rooms@,
            old(doors)@,
            4 * a + edge.turn(),
        ),
    ensures
        final(map).wf(),
        final(map).size == old(map).size,
        doored(first.tiles@, final(map).tiles@, old(map).size, rooms@, final(doors)@),
        picks_follow_offers(
            &first,
            final(map).tiles@,
            rooms@,
            final(doors)@,
            4 * a + edge.turn() + 1,
        ),
        old(doors)@.len() <= final(doors)@.len(),
        forall|i: int| 0 <= i < old(doors)@.len() ==> final(doors)@[i] == old(doors)@[i],
        turn_taken(
            *old(map),
            *final(map),
            rooms@[a as int],
            edge,
            final(doors)@,
            old(doors)@.len() as int,
            final(doors)@.len() as int,
        ),
{
    let ghost start = first.tiles@;
    let ghost cur = *map;
    let ghost size = map.size;
    let ghost picked = doors@;
    let room = rooms[a];
    assert(room.fits(size));
    proof {
        if picked.len() == 0 {
            lemma_door_sites_same(&cur, &first, room, edge, room.edge_len(edge));
        }
    }
    let found = generate_doors(rng, map, &room, edge);
    match found {
        Some(d) => {
            doors.push(d);
        },
        None => {},
    }
    proof {
        if found is Some {
            assert(doors@[picked.len() as int] == found.unwrap());
        }
        assert(turn_taken(
            cur,
            *map,
            room,
            edge,
            doors@,
            picked.len() as int,
            doors@.len() as int,
        ));
    }
    match found {
        Some(d) => {
            proof {
                let new = map.tiles@;
                let n = room.edge_len(edge);
                cur.lemma_door_sites_contains(room, edge, n, d as int);
                let k = choose|k: int|
                    0 <= k < n && #[trigger] cur.door_site(room, edge, k) == Some(d as int);
                if picked.len() == 0 {
                    first.lemma_door_sites_contains(room, edge, n, d as int);
                    let k0 = choose|k0: int|
                        0 <= k0 < n && #[trigger] first.door_site(room, edge, k0) == Some(
                            d as int,
                        );
                    assert(first.door_site(rooms@[a as int], edge, k0) is Some);
                }
                assert(offered(&first, rooms@));
                let place = room.edge_place(edge, k);
                let from = size.flat(place.0, place.1);
                let dir = edge.outward();
                size.lemma_flat_on_grid(place.0, place.1);
                let far = size.step(from, 2 * dir.0, 2 * dir.1).unwrap();
                size.lemma_step_back(from, dir.0, dir.1);
                size.lemma_step_back(from, 2 * dir.0, 2 * dir.1);
                lemma_step_twice(size, from, dir.0, dir.1);
                assert(rooms@[a as int].covers(size.col(from), size.row(from)));
                assert(covered(rooms@, size.col(from), size.row(from)));
                assert(far != d);
                assert(backed_along(new, size, rooms@, d as int, edge.rank()));
                assert forall|j: int| 0 <= j < doors@.len() implies door_ok(
                    start,
                    new,
                    size,
                    rooms@,
                    #[trigger] doors@[j],
                ) by {
                    if j < picked.len() {
                        let other = picked[j];
                        assert(door_ok(start, cur.tiles@, size, rooms@, other));
                        let m = choose|m: int|
                            0 <= m < 4 && #[trigger] backed_along(
                                cur.tiles@,
                                size,
                                rooms@,
                                other as int,
                                m,
                            );
                        let dm = cardinal_offset(m);
                        size.lemma_step_back(other as int, dm.0, dm.1);
                        let behind = size.step(other as int, dm.0, dm.1).unwrap();
                        assert(spec_is_room(cur.tiles@[behind]));
                        assert(!spec_is_room(cur.tiles@[d as int]));
                        assert(new[behind] == cur.tiles@[behind]);
                        assert(backed_along(new, size, rooms@, other as int, m));
                    } else {
                        if on_path(picked, d as int) {
                            let i = choose|i: int|
                                0 <= i < picked.len() && #[trigger] picked[i] == d as int;
                            assert(door_ok(start, cur.tiles@, size, rooms@, picked[i]));
                        }
                    }
                }
                assert forall|t: int| 0 <= t < start.len() && !on_path(doors@, t) implies #[trigger] new[t]
                    == start[t] by {
                    lemma_on_path_push(picked, d, t);
                }
            }
        },
        None => {
            proof {
                if picked.len() == 0 {
                    assert forall|b: int, other: Edge|
                        0 <= b < rooms@.len() && 4 * b + other.turn() < 4 * a + edge.turn()
                            + 1 implies (#[trigger] first.door_sites(
                        rooms@[b],
                        other,
                        rooms@[b].edge_len(other),
                    )).len() == 0 by {
                        if 4 * b + other.turn() == 4 * a + edge.turn() {
                            assert(b == a && other == edge);
                        }
                    }
                }
            }
        },
    }
}

/// Scans the four edges of every room, bottom, top, left, right, in the
/// order of the rooms, and returns the doors picked, in that order.
pub fn place_doors(rng: &mut RngComponent, map: &mut CaveMap, rooms: &Vec<Room>) -> (doors: Vec<
    usize,
>)
    requires
        old(map).wf(),
        all_fit(rooms@, old(map).size),
    ensures
        final(map).wf(),
        final(map).size == old(map).size,
        doored(old(map).tiles@, final(map).tiles@, old(map).size, rooms@, doors@),
        doors@.len() == 0 <==> !offered(old(map), rooms@),
        doors@.len() <= 4 * rooms@.len(),
        picked_in_turn(*old(map), *final(map), rooms@, doors@),
{
    let ghost first = *map;
    let ghost size = map.size;
    let mut doors: Vec<usize> = Vec::new();
    let mut a: usize = 0;
    let ghost mut grids: Seq<CaveMap> = seq![first];
    let ghost mut counts: Seq<int> = seq![0int];
    while a < rooms.len()
        invariant
            map.wf(),
            map.size == size,
            first.size == size,
            all_fit(rooms@, size),
            a <= rooms@.len(),
            doored(first.tiles@, map.tiles@, size, rooms@, doors@),
            picks_follow_offers(&first, map.tiles@, rooms@, doors@, 4 * a),
            door_run(rooms@, doors@, grids, counts, 4 * a),
            grids[0] == first,
            grids[4 * a] == *map,
        decreases rooms@.len() - a,
    {
        let bottom = take_turn(
            rng,
            map,
            rooms,
            a,
            Edge::Bottom,
            &mut doors,
            Ghost(first),
            Ghost(grids),
            Ghost(counts),
        );
        let top = take_turn(rng, map, rooms, a, Edge::Top, &mut doors, Ghost(first), bottom.0, bottom.1);
        let left = take_turn(rng, map, rooms, a, Edge::Left, &mut doors, Ghost(first), top.0, top.1);
        let right = take_turn(
            rng,
            map,
            rooms,
            a,
            Edge::Right,
            &mut doors,
            Ghost(first),
            left.0,
            left.1,
        );
        proof {
            grids = right.0@;
            counts = right.1@;
        }
        a = a + 1;
    }
    proof {
        if doors@.len() == 0 && offered(&first, rooms@) {
            let (b, edge, k) = choose|b: int, edge: Edge, k: int|
                0 <= b < rooms@.len() && 0 <= k < rooms@[b].edge_len(edge)
                    && #[trigger] first.door_site(rooms@[b], edge, k) is Some;
            let n = rooms@[b].edge_len(edge);
            let d = first.door_site(rooms@[b], edge, k).unwrap();
            first.lemma_door_sites_contains(rooms@[b], edge, n, d);
            assert(first.door_sites(rooms@[b], edge, n).contains(d));
            assert(first.door_sites(rooms@[b], edge, n).len() == 0);
        }
    }
    doors
}

} // verus!
