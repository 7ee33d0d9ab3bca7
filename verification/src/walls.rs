//! Walls: the untouched ground that lies beside floor.

use crate::grid::as_ints;
use crate::grid::lemma_on_path_push;
use crate::grid::on_path;
use crate::grid::paint;
use crate::grid::surrounding_idxs;
use crate::grid::CaveMap;
use crate::tiles::is_floor;
use crate::tiles::CoarseTileType;
use vstd::prelude::*;

verus! {

impl CaveMap {
    /// One of the eight tiles around the tile at `t` is floor.
    pub open spec fn beside_floor(&self, t: int) -> bool {
        exists|f: int|
            0 <= f < self.tiles@.len() && self.tiles@[f] == CoarseTileType::Floor
                && #[trigger] self.size.touches(t, f, true)
    }

    /// The tile at `t` is untouched ground beside floor: the wall pass turns
    /// it into a wall.
    pub open spec fn wall_site(&self, t: int) -> bool {
        &&& 0 <= t < self.tiles@.len()
        &&& self.tiles@[t] == CoarseTileType::Dirt
        &&& self.beside_floor(t)
    }

    /// Every floor tile before `idx` has its untouched neighbours in `walls`.
    spec fn swept(&self, walls: Seq<usize>, idx: int) -> bool {
        forall|f: int, t: int|
            0 <= f < idx && 0 <= t < self.tiles@.len() && self.tiles@[f] == CoarseTileType::Floor
                && #[trigger] self.size.touches(f, t, true) && self.tiles@[t]
                == CoarseTileType::Dirt ==> on_path(walls, t)
    }

    /// `walls` holds only untouched tiles beside floor.
    spec fn all_sites(&self, walls: Seq<usize>) -> bool {
        forall|j: int| 0 <= j < walls.len() ==> self.wall_site(#[trigger] walls[j] as int)
    }
}

/// The untouched tiles that lie beside floor. A tile occurs once for each
/// floor tile around it.
pub fn wall_sites(map: &CaveMap) -> (walls: Vec<usize>)
    requires
        map.wf(),
    ensures
        forall|j: int| 0 <= j < walls@.len() ==> map.wall_site(#[trigger] walls@[j] as int),
        forall|t: int| #[trigger] map.wall_site(t) ==> on_path(walls@, t),
{
    let mut walls: Vec<usize> = Vec::new();
    let len = map.tiles.len();
    let mut idx: usize = 0;
    while idx < len
        invariant
            map.wf(),
            len == map.tiles@.len(),
            idx <= len,
            map.all_sites(walls@),
            map.swept(walls@, idx as int),
        decreases len - idx,
    {
        if is_floor(&map.tiles[idx]) {
            let ring = surrounding_idxs(map, idx);
            let mut i: usize = 0;
            while i < ring.len()
                invariant
                    map.wf(),
                    len == map.tiles@.len(),
                    idx < len,
                    map.tiles@[idx as int] == CoarseTileType::Floor,
                    i <= ring@.len(),
                    as_ints(ring@) == map.size.ring(idx as int),
                    forall|j: int| 0 <= j < ring@.len() ==> ring@[j] < len,
                    map.all_sites(walls@),
                    map.swept(walls@, idx as int),
                    forall|j: int|
                        0 <= j < i && map.tiles@[#[trigger] ring@[j] as int]
                            == CoarseTileType::Dirt ==> on_path(walls@, ring@[j] as int),
                decreases ring@.len() - i,
            {
                let site = ring[i];
                if map.tiles[site] == CoarseTileType::Dirt {
                    let ghost before = walls@;
                    walls.push(site);
                    proof {
                        assert(as_ints(ring@)[i as int] == site as int);
                        assert(map.size.ring(idx as int).contains(site as int));
                        map.size.lemma_ring_touch(idx as int, site as int);
                        map.size.lemma_touches_symmetric(idx as int, site as int, true);
                        assert(map.wall_site(site as int));
                        assert forall|t: int| on_path(before, t) implies on_path(walls@, t) by {
                            lemma_on_path_push(before, site, t);
                        }
                        lemma_on_path_push(before, site, site as int);
                    }
                }
                i = i + 1;
            }
            proof {
                assert forall|f: int, t: int|
                    0 <= f < idx + 1 && 0 <= t < map.tiles@.len() && map.tiles@[f]
                        == CoarseTileType::Floor && #[trigger] map.size.touches(f, t, true)
                        && map.tiles@[t] == CoarseTileType::Dirt implies on_path(walls@, t) by {
                    if f == idx {
                        map.size.lemma_ring_touch(idx as int, t);
                        let j = choose|j: int|
                            0 <= j < as_ints(ring@).len() && as_ints(ring@)[j] == t;
                        assert(ring@[j] == t);
                    }
                }
            }
        }
        idx = idx + 1;
    }
    proof {
        assert forall|t: int| #[trigger] map.wall_site(t) implies on_path(walls@, t) by {
            let f = choose|f: int|
                0 <= f < map.tiles@.len() && map.tiles@[f] == CoarseTileType::Floor
                    && #[trigger] map.size.touches(t, f, true);
            map.size.lemma_touches_symmetric(t, f, true);
        }
    }
    walls
}

/// Turns every untouched tile that lies beside floor into a wall and leaves
/// the others as they are.
pub fn add_walls(map: &mut CaveMap)
    requires
        old(map).wf(),
    ensures
        final(map).wf(),
        final(map).size == old(map).size,
        forall|t: int|
            0 <= t < old(map).tiles@.len() ==> #[trigger] final(map).tiles@[t] == (if old(
                map,
            ).wall_site(t) {
                CoarseTileType::Wall
            } else {
                old(map).tiles@[t]
            }),
{
    let walls = wall_sites(map);
    let ghost before = *map;
    paint(map, &walls, CoarseTileType::Wall);
    proof {
        assert forall|t: int| 0 <= t < before.tiles@.len() implies #[trigger] map.tiles@[t] == (if before.wall_site(
            t,
        ) {
            CoarseTileType::Wall
        } else {
            before.tiles@[t]
        }) by {
            if on_path(walls@, t) {
                let i = choose|i: int| 0 <= i < walls@.len() && #[trigger] walls@[i] == t;
                assert(before.wall_site(walls@[i] as int));
            }
        }
    }
}

} // verus!
