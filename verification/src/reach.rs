//! Walks over passable tiles, and what can be reached by them.

use crate::corridors::connected;
use crate::corridors::touches_door;
use crate::grid::CaveMap;
use crate::grid::GridSize;
use crate::tiles::spec_is_passable;
use vstd::prelude::*;

verus! {

/// The `i`-th tile of `path` shares an edge with the next.
pub open spec fn linked(size: GridSize, path: Seq<int>, i: int) -> bool {
    size.touches(path[i], path[i + 1], false)
}

/// `path` is a walk on `map`: it is not empty, each of its tiles is floor or
/// door, and each step goes to a tile that shares an edge with the last.
pub open spec fn is_walk(map: &CaveMap, path: Seq<int>) -> bool {
    &&& path.len() > 0
    &&& forall|i: int|
        0 <= i < path.len() ==> 0 <= #[trigger] path[i] < map.tiles@.len() && spec_is_passable(
            map.tiles@[path[i]],
        )
    &&& forall|i: int| 0 <= i < path.len() - 1 ==> #[trigger] linked(map.size, path, i)
}

/// A walk leads from the tile at `from` to the tile at `to`.
pub open spec fn reachable(map: &CaveMap, from: int, to: int) -> bool {
    exists|path: Seq<int>| #[trigger] is_walk(map, path) && path.first() == from && path.last() == to
}

/// A passable tile is reached from itself.
pub proof fn lemma_reach_self(map: &CaveMap, a: int)
    requires
        0 <= a < map.tiles@.len(),
        spec_is_passable(map.tiles@[a]),
    ensures
        reachable(map, a, a),
{
    let path = seq![a];
    assert(is_walk(map, path));
}

/// A walk can be carried on by one step onto a passable tile.
pub proof fn lemma_reach_step(map: &CaveMap, a: int, b: int, c: int)
    requires
        reachable(map, a, b),
        map.size.touches(b, c, false),
        0 <= c < map.tiles@.len(),
        spec_is_passable(map.tiles@[c]),
    ensures
        reachable(map, a, c),
{
    let path = choose|path: Seq<int>|
        #[trigger] is_walk(map, path) && path.first() == a && path.last() == b;
    let longer = path.push(c);
    assert forall|i: int| 0 <= i < longer.len() - 1 implies #[trigger] linked(
        map.size,
        longer,
        i,
    ) by {
        if i < path.len() - 1 {
            assert(linked(map.size, path, i));
        }
    }
    assert(is_walk(map, longer));
}

/// A walk can be walked backwards.
pub proof fn lemma_reach_back(map: &CaveMap, a: int, b: int)
    requires
        map.wf(),
        reachable(map, a, b),
    ensures
        reachable(map, b, a),
{
    let path = choose|path: Seq<int>|
        #[trigger] is_walk(map, path) && path.first() == a && path.last() == b;
    let back = path.reverse();
    assert forall|i: int| 0 <= i < back.len() - 1 implies #[trigger] linked(map.size, back, i) by {
        let j = path.len() - 2 - i;
        assert(linked(map.size, path, j));
        assert(back[i] == path[j + 1]);
        assert(back[i + 1] == path[j]);
        map.size.lemma_touches_symmetric(path[j], path[j + 1], false);
    }
    assert(is_walk(map, back));
}

/// Two walks that meet make one.
pub proof fn lemma_reach_join(map: &CaveMap, a: int, b: int, c: int)
    requires
        reachable(map, a, b),
        reachable(map, b, c),
    ensures
        reachable(map, a, c),
{
    let first = choose|path: Seq<int>|
        #[trigger] is_walk(map, path) && path.first() == a && path.last() == b;
    let second = choose|path: Seq<int>|
        #[trigger] is_walk(map, path) && path.first() == b && path.last() == c;
    let whole = first + second.drop_first();
    assert forall|i: int| 0 <= i < whole.len() - 1 implies #[trigger] linked(
        map.size,
        whole,
        i,
    ) by {
        if i < first.len() - 1 {
            assert(linked(map.size, first, i));
        } else {
            let j = i - (first.len() - 1);
            assert(linked(map.size, second, j));
            assert(whole[i + 1] == second[j + 1]);
            if j == 0 {
                assert(whole[i] == first.last());
            } else {
                assert(whole[i] == second[j]);
            }
        }
    }
    assert forall|i: int| 0 <= i < whole.len() implies 0 <= #[trigger] whole[i] < map.tiles@.len()
        && spec_is_passable(map.tiles@[whole[i]]) by {
        if i < first.len() {
            assert(whole[i] == first[i]);
        } else {
            assert(whole[i] == second[i - first.len() + 1]);
        }
    }
    assert(whole.first() == a);
    if second.len() == 1 {
        assert(whole.last() == first.last());
    } else {
        assert(whole.last() == second.last());
    }
    assert(is_walk(map, whole));
}

/// Every tile of `path` lies on the map and is floor or door.
pub open spec fn all_passable(map: &CaveMap, path: Seq<usize>) -> bool {
    forall|i: int|
        0 <= i < path.len() ==> #[trigger] path[i] < map.tiles@.len() && spec_is_passable(
            map.tiles@[path[i] as int],
        )
}

/// In a connected path of passable tiles, every tile is reached from the
/// first.
pub proof fn lemma_reach_from_first(map: &CaveMap, path: Seq<usize>, k: int)
    requires
        connected(map.size, path),
        all_passable(map, path),
        0 <= k < path.len(),
    ensures
        reachable(map, path[0] as int, path[k] as int),
    decreases k,
{
    if k == 0 {
        lemma_reach_self(map, path[0] as int);
    } else {
        let before = path.take(k);
        assert(crate::corridors::joins(map.size, before, path[k]));
        let j = choose|j: int|
            0 <= j < before.len() && #[trigger] map.size.touches(
                before[j] as int,
                path[k] as int,
                false,
            );
        assert(before[j] == path[j]);
        lemma_reach_from_first(map, path, j);
        lemma_reach_step(map, path[0] as int, path[j] as int, path[k] as int);
    }
}

/// In a connected path of passable tiles, every tile is reached from every
/// other.
pub proof fn lemma_reach_within(map: &CaveMap, path: Seq<usize>, i: int, k: int)
    requires
        map.wf(),
        connected(map.size, path),
        all_passable(map, path),
        0 <= i < path.len(),
        0 <= k < path.len(),
    ensures
        reachable(map, path[i] as int, path[k] as int),
{
    lemma_reach_from_first(map, path, i);
    lemma_reach_from_first(map, path, k);
    lemma_reach_back(map, path[0] as int, path[i] as int);
    lemma_reach_join(map, path[i] as int, path[0] as int, path[k] as int);
}

/// Where a connected walk of passable tiles touches a passable door, that
/// door leads to every tile of the walk.
pub proof fn lemma_door_reaches_walk(map: &CaveMap, path: Seq<usize>, doors: Seq<usize>, i: int)
    requires
        map.wf(),
        connected(map.size, path),
        all_passable(map, path),
        all_passable(map, doors),
        touches_door(map.size, path, doors),
        0 <= i < path.len(),
    ensures
        exists|j: int|
            0 <= j < doors.len() && #[trigger] reachable(map, doors[j] as int, path[i] as int),
{
    let (m, j) = choose|m: int, j: int|
        0 <= m < path.len() && 0 <= j < doors.len() && #[trigger] map.size.touches(
            path[m] as int,
            doors[j] as int,
            false,
        );
    lemma_reach_within(map, path, m, i);
    lemma_reach_self(map, doors[j] as int);
    map.size.lemma_touches_symmetric(path[m] as int, doors[j] as int, false);
    lemma_reach_step(map, doors[j] as int, doors[j] as int, path[m] as int);
    lemma_reach_join(map, doors[j] as int, path[m] as int, path[i] as int);
}

} // verus!
