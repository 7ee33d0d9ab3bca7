//! The whole generation: rooms, corridors, doors, pruning and walls, and what
//! holds of every cave that comes out of it.

use crate::corridors::apart;
use crate::corridors::carve_corridors;
use crate::corridors::carved;
use crate::corridors::connected;
use crate::corridors::finished_in_turn;
use crate::corridors::is_corridor;
use crate::corridors::is_finished;
use crate::corridors::on_pruned;
use crate::corridors::on_some;
use crate::corridors::prune_corridors;
use crate::corridors::touches_door;
use crate::corridors::views;
use crate::corridors::well_cut;
use crate::doors::backed;
use crate::doors::backed_along;
use crate::doors::door_ok;
use crate::doors::door_run;
use crate::doors::doored;
use crate::doors::offered;
use crate::doors::picked_in_turn;
use crate::doors::place_doors;
use crate::doors::Edge;
use crate::grid::cardinal_offset;
use crate::grid::offset;
use crate::grid::on_path;
use crate::grid::ring_offset;
use crate::grid::CaveMap;
use crate::grid::GridPos;
use crate::grid::GridSize;
use crate::random::draw_usize;
use crate::reach::lemma_door_reaches_walk;
use crate::reach::reachable;
use crate::rooms::covered;
use crate::rooms::generate_rooms;
use crate::rooms::rooms_placed;
use crate::rooms::spec_room_size;
use crate::rooms::stamp_rooms;
use crate::rooms::GenerationFailed;
use crate::rooms::Room;
use crate::tiles::spec_is_passable;
use crate::tiles::spec_is_room;
use crate::tiles::CoarseTileType;
use crate::walls::add_walls;
use bevy_turborand::RngComponent;
use vstd::prelude::*;

verus! {

/// The fewest rooms of a cave.
pub const MIN_ROOMS: usize = 8;

/// One more than the most rooms of a cave.
pub const MAX_ROOMS: usize = 12;

/// A generated cave: the finished grid, and the rooms, corridors and doors
/// that shaped it. `kept[a]` tells whether the corridor `corridors[a]`
/// survived pruning.
pub struct Cave {
    pub map: CaveMap,
    pub rooms: Vec<Room>,
    pub corridors: Vec<Vec<usize>>,
    pub kept: Vec<bool>,
    pub doors: Vec<usize>,
}

impl Cave {
    /// The corridors as sequences of tile indices.
    pub open spec fn paths(&self) -> Seq<Seq<usize>> {
        views(self.corridors@)
    }

    /// The tile at `t` belongs to a corridor that was kept.
    pub open spec fn on_kept(&self, t: int) -> bool {
        exists|a: int|
            0 <= a < self.paths().len() && self.kept@[a] && on_path(#[trigger] self.paths()[a], t)
    }

    /// Some door leads, by a walk over floor and doors, to the tile at `t`.
    pub open spec fn door_leads_to(&self, t: int) -> bool {
        exists|j: int|
            0 <= j < self.doors@.len() && #[trigger] reachable(
                &self.map,
                self.doors@[j] as int,
                t,
            )
    }

    /// Every tile that a room covers is floor.
    pub open spec fn rooms_are_floor(&self) -> bool {
        forall|t: int|
            0 <= t < self.map.tiles@.len() && covered(
                self.rooms@,
                self.map.size.col(t),
                self.map.size.row(t),
            ) ==> #[trigger] self.map.tiles@[t] == CoarseTileType::Floor
    }

    /// Every picked door lies on the grid and is door or floor.
    pub open spec fn doors_are_open(&self) -> bool {
        forall|j: int|
            0 <= j < self.doors@.len() ==> #[trigger] self.doors@[j] < self.map.tiles@.len()
                && spec_is_passable(self.map.tiles@[self.doors@[j] as int])
    }

    /// Every door tile stands between floor on one side and floor or wall
    /// on the opposite side, and is one of the picked doors.
    pub open spec fn doors_are_flanked(&self) -> bool {
        forall|t: int|
            0 <= t < self.map.tiles@.len() && #[trigger] self.map.tiles@[t]
                == CoarseTileType::Door ==> self.map.flanked(t) && on_path(self.doors@, t)
    }

    /// A corridor is connected and one tile wide, holds no tile twice, and
    /// shares no tile with another corridor.
    pub open spec fn corridors_are_apart(&self) -> bool {
        &&& forall|a: int|
            0 <= a < self.paths().len() ==> connected(self.map.size, #[trigger] self.paths()[a])
        &&& forall|a: int, i: int, j: int|
            0 <= a < self.paths().len() && 0 <= i < j < self.paths()[a].len()
                ==> #[trigger] self.paths()[a][i] != #[trigger] self.paths()[a][j]
        &&& forall|a: int, b: int|
            0 <= a < b < self.paths().len() ==> apart(
                #[trigger] self.paths()[a],
                #[trigger] self.paths()[b],
            )
    }

    /// A corridor was kept exactly when one of its tiles shares an edge
    /// with a picked door. The tiles of a kept corridor are floor, and a
    /// door leads to each of them; the tiles of the others are untouched
    /// ground or wall.
    pub open spec fn corridors_are_pruned(&self) -> bool {
        &&& self.kept@.len() == self.paths().len()
        &&& forall|a: int|
            0 <= a < self.paths().len() ==> #[trigger] self.kept@[a] == touches_door(
                self.map.size,
                self.paths()[a],
                self.doors@,
            )
        &&& forall|a: int, i: int|
            0 <= a < self.paths().len() && 0 <= i < self.paths()[a].len() ==> {
                let t = #[trigger] self.paths()[a][i];
                &&& t < self.map.tiles@.len()
                &&& self.kept@[a] ==> self.map.tiles@[t as int] == CoarseTileType::Floor
                    && self.door_leads_to(t as int)
                &&& !self.kept@[a] ==> self.map.tiles@[t as int] == CoarseTileType::Dirt
                    || self.map.tiles@[t as int] == CoarseTileType::Wall
            }
    }

    /// The walls are exactly the tiles beside floor that are neither floor
    /// nor door: every wall has floor among the eight tiles around it, and
    /// no untouched tile has.
    pub open spec fn walls_bound_floor(&self) -> bool {
        forall|t: int|
            0 <= t < self.map.tiles@.len() ==> match #[trigger] self.map.tiles@[t] {
                CoarseTileType::Wall => self.map.beside_floor(t),
                CoarseTileType::Dirt => !self.map.beside_floor(t),
                _ => true,
            }
    }

    /// Every floor tile belongs to a room, to a kept corridor, or is a
    /// picked door.
    pub open spec fn floor_is_accounted(&self) -> bool {
        forall|t: int|
            0 <= t < self.map.tiles@.len() && #[trigger] self.map.tiles@[t]
                == CoarseTileType::Floor ==> covered(
                self.rooms@,
                self.map.size.col(t),
                self.map.size.row(t),
            ) || self.on_kept(t) || on_path(self.doors@, t)
    }

    /// The tile at `t` belongs to a room or to a corridor, kept or not.
    pub open spec fn in_structure(&self, t: int) -> bool {
        covered(self.rooms@, self.map.size.col(t), self.map.size.row(t)) || on_some(
            self.paths(),
            t,
        )
    }

    /// One of the eight tiles around the tile at `t` belongs to a room or
    /// to a corridor.
    pub open spec fn beside_structure(&self, t: int) -> bool {
        exists|n: int|
            0 <= n < self.map.tiles@.len() && self.in_structure(n)
                && #[trigger] self.map.size.touches(t, n, true)
    }

    /// The carving left no ground out of reach: every tile belongs to a
    /// room or a corridor, or has such a tile among the eight around it.
    pub open spec fn ground_is_reached(&self) -> bool {
        forall|t: int|
            0 <= t < self.map.tiles@.len() ==> #[trigger] self.in_structure(t)
                || self.beside_structure(t)
    }

    /// The `k`-th tile of an edge of the room `rooms[a]` offered a door
    /// when the corridors were carved: the tile one step outside belonged
    /// to no room or corridor, and the tile two steps outside to one.
    pub open spec fn offers_door(&self, a: int, edge: Edge, k: int) -> bool {
        let place = self.rooms@[a].edge_place(edge, k);
        let from = self.map.size.flat(place.0, place.1);
        let d = edge.outward();
        match (
            self.map.size.step(from, d.0, d.1),
            self.map.size.step(from, 2 * d.0, 2 * d.1),
        ) {
            (Some(door), Some(far)) => !self.in_structure(door) && self.in_structure(far),
            _ => false,
        }
    }

    /// No door was picked exactly when no edge of any room offered one, and
    /// no more doors were picked than the rooms have edges.
    pub open spec fn doors_follow_offers(&self) -> bool {
        &&& self.doors@.len() <= 4 * self.rooms@.len()
        &&& self.doors@.len() == 0 <==> !exists|a: int, edge: Edge, k: int|
            0 <= a < self.rooms@.len() && 0 <= k < self.rooms@[a].edge_len(edge)
                && #[trigger] self.offers_door(a, edge, k)
    }

    /// `at` is the grid as the rooms and the corridors before the `a`-th
    /// left it: their tiles are floor, all others untouched.
    pub open spec fn ground_before(&self, at: CaveMap, a: int) -> bool {
        &&& at.wf()
        &&& at.size == self.map.size
        &&& forall|t: int|
            0 <= t < at.tiles@.len() ==> #[trigger] at.tiles@[t] == (if covered(
                self.rooms@,
                self.map.size.col(t),
                self.map.size.row(t),
            ) || on_some(self.paths().take(a), t) {
                CoarseTileType::Floor
            } else {
                CoarseTileType::Dirt
            })
    }

    /// The `a`-th corridor was carved to its end in its turn: on the grid
    /// that the rooms and the corridors before it had left, it is a walk
    /// through ground with no floor on or around it, and it is full or no
    /// tile can join it.
    pub open spec fn finished_at(&self, a: int) -> bool {
        exists|at: CaveMap| #[trigger]
            self.ground_before(at, a) && is_corridor(&at, self.paths()[a]) && is_finished(
                &at,
                self.paths()[a],
            )
    }

    /// Every corridor was carved to its end in its turn.
    pub open spec fn corridors_are_finished(&self) -> bool {
        forall|a: int| 0 <= a < self.paths().len() ==> #[trigger] self.finished_at(a)
    }

    /// `at` is the grid as the picking of doors left it: a picked door is
    /// what it is in the finished cave, the tiles of the rooms and of all
    /// corridors are floor, and the others are untouched.
    pub open spec fn ground_after_doors(&self, at: CaveMap) -> bool {
        &&& at.size == self.map.size
        &&& at.tiles@.len() == self.map.tiles@.len()
        &&& forall|t: int|
            0 <= t < at.tiles@.len() ==> #[trigger] at.tiles@[t] == (if on_path(self.doors@, t) {
                self.map.tiles@[t]
            } else if self.in_structure(t) {
                CoarseTileType::Floor
            } else {
                CoarseTileType::Dirt
            })
    }

    /// The doors were picked turn by turn, four turns to a room in the
    /// order bottom, top, left, right: starting on the grid that rooms and
    /// corridors had left, every edge that offered a door in its turn got
    /// one of its offers picked and made door or floor, and every edge that
    /// offered none left the grid as it was.
    pub open spec fn doors_are_picked_in_turn(&self) -> bool {
        let turns = 4 * (self.rooms@.len() as int);
        exists|grids: Seq<CaveMap>, counts: Seq<int>| #[trigger]
            door_run(self.rooms@, self.doors@, grids, counts, turns) && self.ground_before(
                grids[0],
                self.paths().len() as int,
            ) && self.ground_after_doors(grids[turns])
    }

    /// What holds of every generated cave.
    pub open spec fn wf(&self) -> bool {
        &&& self.map.wf()
        &&& rooms_placed(self.rooms@, self.map.size)
        &&& self.ground_is_reached()
        &&& self.corridors_are_finished()
        &&& self.doors_are_picked_in_turn()
        &&& self.doors_follow_offers()
        &&& self.rooms_are_floor()
        &&& self.doors_are_open()
        &&& self.doors_are_flanked()
        &&& self.corridors_are_apart()
        &&& self.corridors_are_pruned()
        &&& self.walls_bound_floor()
        &&& self.floor_is_accounted()
    }
}

/// Two caves agree on their bounds, rooms, corridors and doors, and on
/// which of the picked doors are doors and which are floor.
pub open spec fn same_layout(first: &Cave, second: &Cave) -> bool {
    &&& first.map.size == second.map.size
    &&& first.rooms@ == second.rooms@
    &&& first.paths() == second.paths()
    &&& first.kept@ == second.kept@
    &&& first.doors@ == second.doors@
    &&& forall|j: int|
        0 <= j < first.doors@.len() ==> first.map.tiles@[#[trigger] first.doors@[j] as int]
            == second.map.tiles@[second.doors@[j] as int]
}

/// Where two caves of the same layout differ, the first has no floor and no
/// door.
proof fn lemma_floor_and_doors_agree(first: &Cave, second: &Cave, t: int)
    requires
        first.wf(),
        second.wf(),
        same_layout(first, second),
        0 <= t < first.map.tiles@.len(),
    ensures
        first.map.tiles@[t] == CoarseTileType::Floor ==> second.map.tiles@[t]
            == CoarseTileType::Floor,
        first.map.tiles@[t] == CoarseTileType::Door ==> second.map.tiles@[t]
            == CoarseTileType::Door,
{
    let size = first.map.size;
    if on_path(first.doors@, t) {
        let j = choose|j: int| 0 <= j < first.doors@.len() && #[trigger] first.doors@[j] == t;
        assert(first.map.tiles@[first.doors@[j] as int] == second.map.tiles@[second.doors@[j] as int]);
    } else if first.map.tiles@[t] == CoarseTileType::Floor {
        if first.on_kept(t) {
            let a = choose|a: int|
                0 <= a < first.paths().len() && first.kept@[a] && on_path(
                    #[trigger] first.paths()[a],
                    t,
                );
            let i = choose|i: int|
                0 <= i < first.paths()[a].len() && #[trigger] first.paths()[a][i] == t;
            assert(second.paths()[a][i] == t);
        }
    }
}

/// The grid of a cave is determined by its layout: two caves of the same
/// bounds, rooms, corridors and doors, with the same picked doors made
/// doors and the same made floor, have the same tiles.
pub proof fn lemma_grid_is_determined(first: &Cave, second: &Cave)
    requires
        first.wf(),
        second.wf(),
        same_layout(first, second),
    ensures
        first.map.tiles@ == second.map.tiles@,
{
    let size = first.map.size;
    let a = first.map.tiles@;
    let b = second.map.tiles@;
    assert(same_layout(second, first));
    assert forall|t: int| 0 <= t < a.len() implies (a[t] == CoarseTileType::Floor) == (b[t]
        == CoarseTileType::Floor) && (a[t] == CoarseTileType::Door) == (b[t]
        == CoarseTileType::Door) by {
        lemma_floor_and_doors_agree(first, second, t);
        lemma_floor_and_doors_agree(second, first, t);
    }
    assert forall|t: int| 0 <= t < a.len() implies first.map.beside_floor(t)
        == second.map.beside_floor(t) by {
        if first.map.beside_floor(t) {
            let f = choose|f: int|
                0 <= f < a.len() && a[f] == CoarseTileType::Floor && #[trigger] size.touches(
                    t,
                    f,
                    true,
                );
            assert(b[f] == CoarseTileType::Floor && second.map.size.touches(t, f, true));
        }
        if second.map.beside_floor(t) {
            let f = choose|f: int|
                0 <= f < b.len() && b[f] == CoarseTileType::Floor && #[trigger] size.touches(
                    t,
                    f,
                    true,
                );
            assert(a[f] == CoarseTileType::Floor && first.map.size.touches(t, f, true));
        }
    }
    assert forall|t: int| 0 <= t < a.len() implies a[t] == b[t] by {
        assert((a[t] == CoarseTileType::Floor) == (b[t] == CoarseTileType::Floor));
        assert(first.map.beside_floor(t) == second.map.beside_floor(t));
    }
    assert(a =~= b);
}

/// The five grids of a generation, one after each pass, tied together by
/// what each pass does: stamping the rooms on untouched ground, carving,
/// picking doors, pruning, and walling in.
pub open spec fn built(
    rooms: Seq<Room>,
    paths: Seq<Seq<usize>>,
    doors: Seq<usize>,
    kept: Seq<bool>,
    stamped: CaveMap,
    dug: CaveMap,
    opened: CaveMap,
    pruned: CaveMap,
    walled: CaveMap,
) -> bool {
    let size = walled.size;
    let len = walled.tiles@.len();
    &&& walled.wf()
    &&& stamped.size == size && dug.size == size && opened.size == size && pruned.size == size
    &&& stamped.tiles@.len() == len && pruned.tiles@.len() == len
    &&& rooms_placed(rooms, size)
    &&& forall|t: int|
        0 <= t < len ==> #[trigger] stamped.tiles@[t] == (if covered(
            rooms,
            size.col(t),
            size.row(t),
        ) {
            CoarseTileType::Floor
        } else {
            CoarseTileType::Dirt
        })
    &&& carved(stamped.tiles@, dug.tiles@, size, paths)
    &&& forall|a: int|
        0 <= a < paths.len() ==> #[trigger] finished_in_turn(stamped.tiles@, size, paths, a)
    &&& dug.wf()
    &&& forall|t: int| !#[trigger] dug.spec_isolated(t)
    &&& doored(dug.tiles@, opened.tiles@, size, rooms, doors)
    &&& picked_in_turn(dug, opened, rooms, doors)
    &&& doors.len() == 0 <==> !offered(&dug, rooms)
    &&& doors.len() <= 4 * rooms.len()
    &&& kept.len() == paths.len()
    &&& forall|a: int|
        0 <= a < paths.len() ==> #[trigger] kept[a] == touches_door(size, paths[a], doors)
    &&& forall|t: int|
        0 <= t < len ==> #[trigger] pruned.tiles@[t] == (if on_pruned(paths, kept, t) {
            CoarseTileType::Dirt
        } else {
            opened.tiles@[t]
        })
    &&& forall|t: int|
        0 <= t < len ==> #[trigger] walled.tiles@[t] == (if pruned.wall_site(t) {
            CoarseTileType::Wall
        } else {
            pruned.tiles@[t]
        })
}

/// A tile that a room covers is floor from the stamping on, and neither a
/// corridor nor a door takes it.
proof fn lemma_room_tile(
    rooms: Seq<Room>,
    paths: Seq<Seq<usize>>,
    doors: Seq<usize>,
    kept: Seq<bool>,
    stamped: CaveMap,
    dug: CaveMap,
    opened: CaveMap,
    pruned: CaveMap,
    walled: CaveMap,
    t: int,
)
    requires
        built(rooms, paths, doors, kept, stamped, dug, opened, pruned, walled),
        0 <= t < walled.tiles@.len(),
        covered(rooms, walled.size.col(t), walled.size.row(t)),
    ensures
        !on_some(paths, t),
        !on_path(doors, t),
        opened.tiles@[t] == CoarseTileType::Floor,
        pruned.tiles@[t] == CoarseTileType::Floor,
        walled.tiles@[t] == CoarseTileType::Floor,
{
    let size = walled.size;
    assert(stamped.tiles@[t] == CoarseTileType::Floor);
    if on_some(paths, t) {
        let a = choose|a: int| 0 <= a < paths.len() && on_path(#[trigger] paths[a], t);
        let i = choose|i: int| 0 <= i < paths[a].len() && #[trigger] paths[a][i] == t;
        assert(well_cut(stamped.tiles@, size, paths[a]));
        assert(!spec_is_room(stamped.tiles@[paths[a][i] as int]));
    }
    assert(dug.tiles@[t] == CoarseTileType::Floor);
    if on_path(doors, t) {
        let j = choose|j: int| 0 <= j < doors.len() && #[trigger] doors[j] == t;
        assert(door_ok(dug.tiles@, opened.tiles@, size, rooms, doors[j]));
    }
    assert(opened.tiles@[t] == dug.tiles@[t]);
    if on_pruned(paths, kept, t) {
        let a = choose|a: int|
            0 <= a < kept.len() && a < paths.len() && !kept[a] && on_path(#[trigger] paths[a], t);
        assert(on_some(paths, t));
    }
    assert(pruned.tiles@[t] == CoarseTileType::Floor);
}

/// No pass before the last makes a wall.
proof fn lemma_no_early_wall(
    rooms: Seq<Room>,
    paths: Seq<Seq<usize>>,
    doors: Seq<usize>,
    kept: Seq<bool>,
    stamped: CaveMap,
    dug: CaveMap,
    opened: CaveMap,
    pruned: CaveMap,
    walled: CaveMap,
    t: int,
)
    requires
        built(rooms, paths, doors, kept, stamped, dug, opened, pruned, walled),
        0 <= t < walled.tiles@.len(),
    ensures
        dug.tiles@[t] == CoarseTileType::Floor || dug.tiles@[t] == CoarseTileType::Dirt,
        opened.tiles@[t] != CoarseTileType::Wall,
        pruned.tiles@[t] != CoarseTileType::Wall,
        opened.tiles@[t] == CoarseTileType::Door ==> on_path(doors, t),
        opened.tiles@[t] != dug.tiles@[t] ==> on_path(doors, t),
        walled.tiles@[t] == CoarseTileType::Floor <==> pruned.tiles@[t] == CoarseTileType::Floor,
        walled.tiles@[t] == CoarseTileType::Door <==> pruned.tiles@[t] == CoarseTileType::Door,
{
    let size = walled.size;
    assert(stamped.tiles@[t] == CoarseTileType::Floor || stamped.tiles@[t]
        == CoarseTileType::Dirt);
    assert(dug.tiles@[t] == CoarseTileType::Floor || dug.tiles@[t] == stamped.tiles@[t]);
    if on_path(doors, t) {
        let j = choose|j: int| 0 <= j < doors.len() && #[trigger] doors[j] == t;
        assert(door_ok(dug.tiles@, opened.tiles@, size, rooms, doors[j]));
    } else {
        assert(opened.tiles@[t] == dug.tiles@[t]);
    }
    assert(pruned.tiles@[t] == CoarseTileType::Dirt || pruned.tiles@[t] == opened.tiles@[t]);
}

/// A picked door lies on the grid, off every room and corridor, and stays
/// door or floor to the end.
proof fn lemma_door_tile(
    rooms: Seq<Room>,
    paths: Seq<Seq<usize>>,
    doors: Seq<usize>,
    kept: Seq<bool>,
    stamped: CaveMap,
    dug: CaveMap,
    opened: CaveMap,
    pruned: CaveMap,
    walled: CaveMap,
    j: int,
)
    requires
        built(rooms, paths, doors, kept, stamped, dug, opened, pruned, walled),
        0 <= j < doors.len(),
    ensures
        doors[j] < walled.tiles@.len(),
        !on_some(paths, doors[j] as int),
        spec_is_passable(walled.tiles@[doors[j] as int]),
        walled.tiles@[doors[j] as int] == opened.tiles@[doors[j] as int],
        backed(opened.tiles@, walled.size, rooms, doors[j] as int),
{
    let size = walled.size;
    let d = doors[j] as int;
    assert(door_ok(dug.tiles@, opened.tiles@, size, rooms, doors[j]));
    if on_pruned(paths, kept, d) {
        let a = choose|a: int|
            0 <= a < kept.len() && a < paths.len() && !kept[a] && on_path(#[trigger] paths[a], d);
        assert(on_some(paths, d));
    }
    assert(pruned.tiles@[d] == opened.tiles@[d]);
}

/// A tile of a corridor is floor once carved and until pruning; then it
/// stays floor if the corridor is kept, and is floor no more if not.
proof fn lemma_path_tile(
    rooms: Seq<Room>,
    paths: Seq<Seq<usize>>,
    doors: Seq<usize>,
    kept: Seq<bool>,
    stamped: CaveMap,
    dug: CaveMap,
    opened: CaveMap,
    pruned: CaveMap,
    walled: CaveMap,
    a: int,
    i: int,
)
    requires
        built(rooms, paths, doors, kept, stamped, dug, opened, pruned, walled),
        0 <= a < paths.len(),
        0 <= i < paths[a].len(),
    ensures
        paths[a][i] < walled.tiles@.len(),
        opened.tiles@[paths[a][i] as int] == CoarseTileType::Floor,
        kept[a] ==> walled.tiles@[paths[a][i] as int] == CoarseTileType::Floor,
        !kept[a] ==> walled.tiles@[paths[a][i] as int] == CoarseTileType::Dirt
            || walled.tiles@[paths[a][i] as int] == CoarseTileType::Wall,
        kept[a] <==> !on_pruned(paths, kept, paths[a][i] as int),
{
    let size = walled.size;
    let t = paths[a][i] as int;
    assert(well_cut(stamped.tiles@, size, paths[a]));
    assert(on_path(paths[a], t));
    assert(on_some(paths, t));
    assert(dug.tiles@[t] == CoarseTileType::Floor);
    if on_path(doors, t) {
        let j = choose|j: int| 0 <= j < doors.len() && #[trigger] doors[j] == t;
        assert(door_ok(dug.tiles@, opened.tiles@, size, rooms, doors[j]));
    }
    assert(opened.tiles@[t] == dug.tiles@[t]);
    if on_pruned(paths, kept, t) {
        let b = choose|b: int|
            0 <= b < kept.len() && b < paths.len() && !kept[b] && on_path(#[trigger] paths[b], t);
        if b < a {
            assert(apart(paths[b], paths[a]));
        } else if a < b {
            assert(apart(paths[a], paths[b]));
        }
        assert(!kept[a]);
    }
    if !kept[a] {
        assert(on_pruned(paths, kept, t));
    }
}

/// A door tile of the finished grid is a picked door, with floor of a room
/// before it and floor behind it.
proof fn lemma_door_flanked(
    rooms: Seq<Room>,
    paths: Seq<Seq<usize>>,
    doors: Seq<usize>,
    kept: Seq<bool>,
    stamped: CaveMap,
    dug: CaveMap,
    opened: CaveMap,
    pruned: CaveMap,
    walled: CaveMap,
    t: int,
)
    requires
        built(rooms, paths, doors, kept, stamped, dug, opened, pruned, walled),
        0 <= t < walled.tiles@.len(),
        walled.tiles@[t] == CoarseTileType::Door,
    ensures
        walled.flanked(t),
        on_path(doors, t),
{
    let size = walled.size;
    lemma_no_early_wall(rooms, paths, doors, kept, stamped, dug, opened, pruned, walled, t);
    assert(opened.tiles@[t] == CoarseTileType::Door);
    let j = choose|j: int| 0 <= j < doors.len() && #[trigger] doors[j] == t;
    lemma_door_tile(rooms, paths, doors, kept, stamped, dug, opened, pruned, walled, j);
    let k = choose|k: int| 0 <= k < 4 && #[trigger] backed_along(opened.tiles@, size, rooms, t, k);
    let d = cardinal_offset(k);
    size.lemma_step_back(t, -d.0, -d.1);
    size.lemma_step_back(t, d.0, d.1);
    let near = size.step(t, -d.0, -d.1).unwrap();
    let far = size.step(t, d.0, d.1).unwrap();
    lemma_room_tile(rooms, paths, doors, kept, stamped, dug, opened, pruned, walled, near);
    lemma_no_early_wall(rooms, paths, doors, kept, stamped, dug, opened, pruned, walled, far);
    assert(opened.tiles@[far] == CoarseTileType::Floor);
    if on_pruned(paths, kept, far) {
        let b = choose|b: int|
            0 <= b < kept.len() && b < paths.len() && !kept[b] && on_path(
                #[trigger] paths[b],
                far,
            );
        let i = choose|i: int| 0 <= i < paths[b].len() && #[trigger] paths[b][i] == far;
        assert(size.step(t, offset(false, k).0, offset(false, k).1) == Some(far));
        assert(size.touches(t, far, false));
        size.lemma_touches_symmetric(t, far, false);
        assert(size.touches(paths[b][i] as int, doors[j] as int, false));
        assert(touches_door(size, paths[b], doors));
    }
    assert(pruned.tiles@[far] == CoarseTileType::Floor);
    assert(walled.flanked_along(t, k));
}

/// A door leads to every tile of a kept corridor.
proof fn lemma_corridor_reached(
    rooms: Seq<Room>,
    paths: Seq<Seq<usize>>,
    doors: Seq<usize>,
    kept: Seq<bool>,
    stamped: CaveMap,
    dug: CaveMap,
    opened: CaveMap,
    pruned: CaveMap,
    walled: CaveMap,
    a: int,
    i: int,
)
    requires
        built(rooms, paths, doors, kept, stamped, dug, opened, pruned, walled),
        0 <= a < paths.len(),
        0 <= i < paths[a].len(),
        kept[a],
    ensures
        exists|j: int|
            0 <= j < doors.len() && #[trigger] reachable(
                &walled,
                doors[j] as int,
                paths[a][i] as int,
            ),
{
    let size = walled.size;
    let path = paths[a];
    assert(touches_door(size, path, doors));
    assert forall|n: int| 0 <= n < path.len() implies #[trigger] path[n] < walled.tiles@.len()
        && spec_is_passable(walled.tiles@[path[n] as int]) by {
        lemma_path_tile(rooms, paths, doors, kept, stamped, dug, opened, pruned, walled, a, n);
    }
    assert forall|j: int| 0 <= j < doors.len() implies #[trigger] doors[j] < walled.tiles@.len()
        && spec_is_passable(walled.tiles@[doors[j] as int]) by {
        lemma_door_tile(rooms, paths, doors, kept, stamped, dug, opened, pruned, walled, j);
    }
    assert(well_cut(stamped.tiles@, size, path));
    lemma_door_reaches_walk(&walled, path, doors, i);
}

/// The last pass leaves floor as it is, so a tile has floor beside it after
/// the pass exactly when it had before.
proof fn lemma_beside_floor_kept(
    rooms: Seq<Room>,
    paths: Seq<Seq<usize>>,
    doors: Seq<usize>,
    kept: Seq<bool>,
    stamped: CaveMap,
    dug: CaveMap,
    opened: CaveMap,
    pruned: CaveMap,
    walled: CaveMap,
    t: int,
)
    requires
        built(rooms, paths, doors, kept, stamped, dug, opened, pruned, walled),
        0 <= t < walled.tiles@.len(),
    ensures
        walled.beside_floor(t) <==> pruned.beside_floor(t),
{
    let size = walled.size;
    if walled.beside_floor(t) {
        let f = choose|f: int|
            0 <= f < walled.tiles@.len() && walled.tiles@[f] == CoarseTileType::Floor
                && #[trigger] walled.size.touches(t, f, true);
        lemma_no_early_wall(rooms, paths, doors, kept, stamped, dug, opened, pruned, walled, f);
        assert(pruned.tiles@[f] == CoarseTileType::Floor && pruned.size.touches(t, f, true));
    }
    if pruned.beside_floor(t) {
        let f = choose|f: int|
            0 <= f < pruned.tiles@.len() && pruned.tiles@[f] == CoarseTileType::Floor
                && #[trigger] pruned.size.touches(t, f, true);
        lemma_no_early_wall(rooms, paths, doors, kept, stamped, dug, opened, pruned, walled, f);
        assert(walled.tiles@[f] == CoarseTileType::Floor && walled.size.touches(t, f, true));
    }
}

/// A floor tile of the finished grid belongs to a room, to a kept corridor,
/// or is a picked door.
proof fn lemma_floor_accounted(
    rooms: Seq<Room>,
    paths: Seq<Seq<usize>>,
    doors: Seq<usize>,
    kept: Seq<bool>,
    stamped: CaveMap,
    dug: CaveMap,
    opened: CaveMap,
    pruned: CaveMap,
    walled: CaveMap,
    t: int,
)
    requires
        built(rooms, paths, doors, kept, stamped, dug, opened, pruned, walled),
        0 <= t < walled.tiles@.len(),
        walled.tiles@[t] == CoarseTileType::Floor,
    ensures
        covered(rooms, walled.size.col(t), walled.size.row(t)) || on_path(doors, t) || exists|
            a: int,
        |
            0 <= a < paths.len() && kept[a] && on_path(#[trigger] paths[a], t),
{
    let size = walled.size;
    lemma_no_early_wall(rooms, paths, doors, kept, stamped, dug, opened, pruned, walled, t);
    assert(pruned.tiles@[t] == CoarseTileType::Floor);
    assert(!on_pruned(paths, kept, t));
    assert(opened.tiles@[t] == CoarseTileType::Floor);
    if !on_path(doors, t) {
        assert(dug.tiles@[t] == CoarseTileType::Floor);
        if !covered(rooms, size.col(t), size.row(t)) {
            assert(stamped.tiles@[t] == CoarseTileType::Dirt);
            assert(on_some(paths, t));
            let a = choose|a: int| 0 <= a < paths.len() && on_path(#[trigger] paths[a], t);
            assert(kept[a]);
        }
    }
}

/// After the carving, the tiles that are floor or wall are those of the
/// rooms and corridors.
proof fn lemma_dug_tile(
    rooms: Seq<Room>,
    paths: Seq<Seq<usize>>,
    doors: Seq<usize>,
    kept: Seq<bool>,
    stamped: CaveMap,
    dug: CaveMap,
    opened: CaveMap,
    pruned: CaveMap,
    walled: CaveMap,
    t: int,
)
    requires
        built(rooms, paths, doors, kept, stamped, dug, opened, pruned, walled),
        0 <= t < walled.tiles@.len(),
    ensures
        spec_is_room(dug.tiles@[t]) <==> covered(rooms, walled.size.col(t), walled.size.row(t))
            || on_some(paths, t),
{
    lemma_no_early_wall(rooms, paths, doors, kept, stamped, dug, opened, pruned, walled, t);
    if on_some(paths, t) {
        assert(dug.tiles@[t] == CoarseTileType::Floor);
    } else {
        assert(dug.tiles@[t] == stamped.tiles@[t]);
    }
}

/// After the carving, every tile belongs to a room or a corridor or has
/// such a tile around it.
proof fn lemma_ground_reached(
    cave: &Cave,
    stamped: CaveMap,
    dug: CaveMap,
    opened: CaveMap,
    pruned: CaveMap,
    t: int,
)
    requires
        built(
            cave.rooms@,
            cave.paths(),
            cave.doors@,
            cave.kept@,
            stamped,
            dug,
            opened,
            pruned,
            cave.map,
        ),
        0 <= t < cave.map.tiles@.len(),
    ensures
        cave.in_structure(t) || cave.beside_structure(t),
{
    let size = cave.map.size;
    lemma_dug_tile(
        cave.rooms@,
        cave.paths(),
        cave.doors@,
        cave.kept@,
        stamped,
        dug,
        opened,
        pruned,
        cave.map,
        t,
    );
    assert(!dug.spec_isolated(t));
    if !spec_is_room(dug.tiles@[t]) {
        let k = choose|k: int| 0 <= k < 8 && #[trigger] dug.room_like_at(t, k);
        let o = ring_offset(k);
        size.lemma_step_back(t, o.0, o.1);
        let n = size.step(t, o.0, o.1).unwrap();
        lemma_dug_tile(
            cave.rooms@,
            cave.paths(),
            cave.doors@,
            cave.kept@,
            stamped,
            dug,
            opened,
            pruned,
            cave.map,
            n,
        );
        assert(size.step(t, offset(true, k).0, offset(true, k).1) == Some(n));
        assert(size.touches(t, n, true));
        assert(cave.in_structure(n));
    }
}

/// An edge tile offers a door in the sense of `Cave::offers_door` exactly
/// when it offered one on the grid as the carving left it.
proof fn lemma_offer_is_site(
    cave: &Cave,
    stamped: CaveMap,
    dug: CaveMap,
    opened: CaveMap,
    pruned: CaveMap,
    a: int,
    edge: Edge,
    k: int,
)
    requires
        built(
            cave.rooms@,
            cave.paths(),
            cave.doors@,
            cave.kept@,
            stamped,
            dug,
            opened,
            pruned,
            cave.map,
        ),
        0 <= a < cave.rooms@.len(),
        0 <= k < cave.rooms@[a].edge_len(edge),
    ensures
        cave.offers_door(a, edge, k) <==> dug.door_site(cave.rooms@[a], edge, k) is Some,
{
    let size = cave.map.size;
    let room = cave.rooms@[a];
    assert(room.fits(size));
    let place = room.edge_place(edge, k);
    let from = size.flat(place.0, place.1);
    let d = edge.outward();
    size.lemma_flat_on_grid(place.0, place.1);
    if size.step(from, d.0, d.1) is Some && size.step(from, 2 * d.0, 2 * d.1) is Some {
        size.lemma_step_back(from, d.0, d.1);
        size.lemma_step_back(from, 2 * d.0, 2 * d.1);
        let door = size.step(from, d.0, d.1).unwrap();
        let far = size.step(from, 2 * d.0, 2 * d.1).unwrap();
        lemma_dug_tile(
            cave.rooms@,
            cave.paths(),
            cave.doors@,
            cave.kept@,
            stamped,
            dug,
            opened,
            pruned,
            cave.map,
            door,
        );
        lemma_dug_tile(
            cave.rooms@,
            cave.paths(),
            cave.doors@,
            cave.kept@,
            stamped,
            dug,
            opened,
            pruned,
            cave.map,
            far,
        );
    }
}

/// The grid after the last pass, with the rooms, corridors and doors that
/// shaped it, is a cave as `Cave::wf` describes it.
proof fn lemma_built_is_cave(
    cave: &Cave,
    stamped: CaveMap,
    dug: CaveMap,
    opened: CaveMap,
    pruned: CaveMap,
)
    requires
        built(
            cave.rooms@,
            cave.paths(),
            cave.doors@,
            cave.kept@,
            stamped,
            dug,
            opened,
            pruned,
            cave.map,
        ),
    ensures
        cave.wf(),
{
    let rooms = cave.rooms@;
    let paths = cave.paths();
    let doors = cave.doors@;
    let kept = cave.kept@;
    let walled = cave.map;
    let size = walled.size;
    let len = walled.tiles@.len();
    assert forall|t: int| 0 <= t < len implies #[trigger] cave.in_structure(t)
        || cave.beside_structure(t) by {
        lemma_ground_reached(cave, stamped, dug, opened, pruned, t);
    }
    assert forall|a: int| 0 <= a < paths.len() implies #[trigger] cave.finished_at(a) by {
        assert(finished_in_turn(stamped.tiles@, size, paths, a));
        let at = choose|at: CaveMap| #[trigger]
            carved(stamped.tiles@, at.tiles@, size, paths.take(a)) && at.wf() && at.size == size
                && is_corridor(&at, paths[a]) && is_finished(&at, paths[a]);
        assert(cave.ground_before(at, a));
    }
    assert(cave.doors_are_picked_in_turn()) by {
        let turns = 4 * (rooms.len() as int);
        let (grids, counts) = choose|grids: Seq<CaveMap>, counts: Seq<int>| #[trigger]
            door_run(rooms, doors, grids, counts, turns) && grids[0] == dug && grids[turns]
                == opened;
        assert(paths.take(paths.len() as int) =~= paths);
        assert forall|t: int| 0 <= t < len implies #[trigger] dug.tiles@[t] == (if cave.in_structure(
            t,
        ) {
            CoarseTileType::Floor
        } else {
            CoarseTileType::Dirt
        }) by {
            lemma_dug_tile(rooms, paths, doors, kept, stamped, dug, opened, pruned, walled, t);
            lemma_no_early_wall(rooms, paths, doors, kept, stamped, dug, opened, pruned, walled, t);
        }
        assert(cave.ground_before(dug, paths.len() as int));
        assert forall|t: int| 0 <= t < len implies #[trigger] opened.tiles@[t] == (if on_path(
            doors,
            t,
        ) {
            walled.tiles@[t]
        } else if cave.in_structure(t) {
            CoarseTileType::Floor
        } else {
            CoarseTileType::Dirt
        }) by {
            if on_path(doors, t) {
                let j = choose|j: int| 0 <= j < doors.len() && #[trigger] doors[j] == t;
                lemma_door_tile(rooms, paths, doors, kept, stamped, dug, opened, pruned, walled, j);
            } else {
                assert(opened.tiles@[t] == dug.tiles@[t]);
            }
        }
        assert(cave.ground_after_doors(opened));
    }
    assert(cave.doors_follow_offers()) by {
        let some_offer = exists|a: int, edge: Edge, k: int|
            0 <= a < rooms.len() && 0 <= k < rooms[a].edge_len(edge) && #[trigger] cave.offers_door(
                a,
                edge,
                k,
            );
        if some_offer {
            let (a, edge, k) = choose|a: int, edge: Edge, k: int|
                0 <= a < rooms.len() && 0 <= k < rooms[a].edge_len(edge)
                    && #[trigger] cave.offers_door(a, edge, k);
            lemma_offer_is_site(cave, stamped, dug, opened, pruned, a, edge, k);
            assert(dug.door_site(rooms[a], edge, k) is Some);
            assert(offered(&dug, rooms));
        }
        if offered(&dug, rooms) {
            let (a, edge, k) = choose|a: int, edge: Edge, k: int|
                0 <= a < rooms.len() && 0 <= k < rooms[a].edge_len(edge)
                    && #[trigger] dug.door_site(rooms[a], edge, k) is Some;
            lemma_offer_is_site(cave, stamped, dug, opened, pruned, a, edge, k);
            assert(cave.offers_door(a, edge, k));
        }
    }
    assert forall|t: int| 0 <= t < len && covered(rooms, size.col(t), size.row(t)) implies #[trigger] walled.tiles@[t]
        == CoarseTileType::Floor by {
        lemma_room_tile(rooms, paths, doors, kept, stamped, dug, opened, pruned, walled, t);
    }
    assert forall|j: int| 0 <= j < doors.len() implies #[trigger] doors[j] < len
        && spec_is_passable(walled.tiles@[doors[j] as int]) by {
        lemma_door_tile(rooms, paths, doors, kept, stamped, dug, opened, pruned, walled, j);
    }
    assert forall|t: int|
        0 <= t < len && #[trigger] walled.tiles@[t] == CoarseTileType::Door implies walled.flanked(
        t,
    ) && on_path(doors, t) by {
        lemma_door_flanked(rooms, paths, doors, kept, stamped, dug, opened, pruned, walled, t);
    }
    assert(cave.corridors_are_apart()) by {
        assert forall|a: int| 0 <= a < paths.len() implies connected(size, #[trigger] paths[a]) by {
            assert(well_cut(stamped.tiles@, size, paths[a]));
        }
        assert forall|a: int, i: int, j: int|
            0 <= a < paths.len() && 0 <= i < j < paths[a].len() implies #[trigger] paths[a][i]
            != #[trigger] paths[a][j] by {
            assert(well_cut(stamped.tiles@, size, paths[a]));
        }
    }
    assert(cave.corridors_are_pruned()) by {
        assert forall|a: int, i: int| 0 <= a < paths.len() && 0 <= i < paths[a].len() implies {
            let t = #[trigger] paths[a][i];
            &&& t < len
            &&& kept[a] ==> walled.tiles@[t as int] == CoarseTileType::Floor && cave.door_leads_to(
                t as int,
            )
            &&& !kept[a] ==> walled.tiles@[t as int] == CoarseTileType::Dirt || walled.tiles@[t as int]
                == CoarseTileType::Wall
        } by {
            lemma_path_tile(rooms, paths, doors, kept, stamped, dug, opened, pruned, walled, a, i);
            if kept[a] {
                lemma_corridor_reached(
                    rooms,
                    paths,
                    doors,
                    kept,
                    stamped,
                    dug,
                    opened,
                    pruned,
                    walled,
                    a,
                    i,
                );
            }
        }
    }
    assert forall|t: int| 0 <= t < len implies match #[trigger] walled.tiles@[t] {
        CoarseTileType::Wall => walled.beside_floor(t),
        CoarseTileType::Dirt => !walled.beside_floor(t),
        _ => true,
    } by {
        lemma_no_early_wall(rooms, paths, doors, kept, stamped, dug, opened, pruned, walled, t);
        lemma_beside_floor_kept(rooms, paths, doors, kept, stamped, dug, opened, pruned, walled, t);
    }
    assert forall|t: int|
        0 <= t < len && #[trigger] walled.tiles@[t] == CoarseTileType::Floor implies covered(
        rooms,
        size.col(t),
        size.row(t),
    ) || cave.on_kept(t) || on_path(doors, t) by {
        lemma_floor_accounted(rooms, paths, doors, kept, stamped, dug, opened, pruned, walled, t);
    }
}

/// Generates a cave on a grid of the given bounds, with a number of rooms
/// from `MIN_ROOMS` up to but not `MAX_ROOMS`.
pub fn cave(rng: &mut RngComponent, map_size: &GridSize) -> (made: Result<Cave, GenerationFailed>)
    requires
        map_size.count() <= u32::MAX,
    ensures
        match made {
            Ok(cave) => {
                &&& cave.map.size == *map_size
                &&& MIN_ROOMS <= cave.rooms@.len() < MAX_ROOMS
                &&& cave.wf()
            },
            Err(e) => e == GenerationFailed::PlacementExhausted,
        },
        !(Room { pos: GridPos { x: 0, y: 0 }, size: spec_room_size(0) }).fits(*map_size)
            ==> made is Err,
{
    cave_with_rooms(rng, map_size, MIN_ROOMS, MAX_ROOMS)
}

/// Generates a cave on a grid of the given bounds, with a number of rooms
/// from `min_rooms` up to but not `max_rooms`. The stream is drawn from in
/// a fixed order: the number of rooms; the rooms; the order of the
/// neighbours at every tile of every corridor; and for every room edge that
/// offers a door, the pick and the coin. Only the placing of rooms can
/// fail, so a cave without rooms is always made.
pub fn cave_with_rooms(
    rng: &mut RngComponent,
    map_size: &GridSize,
    min_rooms: usize,
    max_rooms: usize,
) -> (made: Result<Cave, GenerationFailed>)
    requires
        map_size.count() <= u32::MAX,
        min_rooms < max_rooms,
    ensures
        match made {
            Ok(cave) => {
                &&& cave.map.size == *map_size
                &&& min_rooms <= cave.rooms@.len() < max_rooms
                &&& cave.wf()
            },
            Err(e) => e == GenerationFailed::PlacementExhausted,
        },
        max_rooms == 1 ==> made is Ok,
        min_rooms > 0 && !(Room { pos: GridPos { x: 0, y: 0 }, size: spec_room_size(0) }).fits(
            *map_size,
        ) ==> made is Err,
{
    let mut map = CaveMap::new(*map_size);
    let amount = draw_usize(rng, min_rooms, max_rooms);
    let rooms = match generate_rooms(rng, amount, map_size) {
        Ok(rooms) => rooms,
        Err(e) => { return Err(e); },
    };
    stamp_rooms(&mut map, &rooms);
    let ghost stamped = map;
    let corridors = carve_corridors(rng, &mut map);
    let ghost dug = map;
    let doors = place_doors(rng, &mut map, &rooms);
    let ghost opened = map;
    proof {
        assert forall|a: int, i: int|
            0 <= a < corridors@.len() && 0 <= i < corridors@[a]@.len() implies #[trigger] corridors@[a]@[i]
            < map.tiles@.len() by {
            assert(views(corridors@)[a] == corridors@[a]@);
            assert(well_cut(stamped.tiles@, map.size, views(corridors@)[a]));
        }
    }
    let kept = prune_corridors(&mut map, &corridors, &doors);
    let ghost pruned = map;
    add_walls(&mut map);
    let made = Cave { map, rooms, corridors, kept, doors };
    proof {
        assert forall|a: int| 0 <= a < made.paths().len() implies #[trigger] made.kept@[a]
            == touches_door(made.map.size, made.paths()[a], made.doors@) by {
            assert(made.paths()[a] == made.corridors@[a]@);
        }
        lemma_built_is_cave(&made, stamped, dug, opened, pruned);
    }
    Ok(made)
}

} // verus!
