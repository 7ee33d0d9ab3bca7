//! Corridors: bounded random walks through untouched ground that keep one
//! tile wide and stay clear of every room.

use crate::grid::adjecent_idxs;
use crate::grid::as_ints;
use crate::grid::is_adjecent_to_room;
use crate::grid::lemma_on_path_push;
use crate::grid::neighbourless_idxs;
use crate::grid::on_path;
use crate::grid::paint;
use crate::grid::CaveMap;
use crate::grid::GridSize;
use crate::random::shuffle;
use crate::tiles::is_room;
use crate::tiles::spec_is_room;
use crate::tiles::CoarseTileType;
use bevy_turborand::RngComponent;
use vstd::prelude::*;
use vstd::seq_lib::to_multiset_contains;

verus! {

/// A walk stops growing once it holds more tiles than this.
pub const CORRIDOR_MAX_LENGTH: usize = 20;

/// A tile of a walk whose neighbours are still being tried: the tile, its
/// neighbours in the order drawn for it, and how many of them were tried.
struct Branch {
    at: usize,
    ways: Vec<usize>,
    next: usize,
}

/// `tile` shares an edge with exactly one tile of `path`.
pub open spec fn joins(size: GridSize, path: Seq<usize>, tile: usize) -> bool {
    exists|j: int|
        0 <= j < path.len() && #[trigger] size.touches(path[j] as int, tile as int, false)
            && forall|i: int|
            0 <= i < path.len() && i != j ==> !#[trigger] size.touches(
                path[i] as int,
                tile as int,
                false,
            )
}

/// What holds of every walk carved on `map`: it is short; each of its tiles
/// was neither floor nor wall and had no floor or wall around it; no tile
/// occurs twice; and each tile but the first shares an edge with exactly one
/// of the tiles before it, so the walk is connected and one tile wide.
pub open spec fn is_corridor(map: &CaveMap, path: Seq<usize>) -> bool {
    &&& path.len() <= CORRIDOR_MAX_LENGTH + 1
    &&& forall|i: int| 0 <= i < path.len() ==> map.spec_isolated(#[trigger] path[i] as int)
    &&& forall|i: int, j: int| 0 <= i < j < path.len() ==> path[i] != path[j]
    &&& connected(map.size, path)
}

/// Each tile of `path` but the first shares an edge with exactly one of the
/// tiles before it.
pub open spec fn connected(size: GridSize, path: Seq<usize>) -> bool {
    forall|k: int| 0 < k < path.len() ==> joins(size, #[trigger] path.take(k), path[k])
}

/// What the vectors hold, as sequences.
pub open spec fn views(paths: Seq<Vec<usize>>) -> Seq<Seq<usize>> {
    paths.map_values(|p: Vec<usize>| p@)
}

/// One of `paths` holds the index `t`.
pub open spec fn on_some(paths: Seq<Seq<usize>>, t: int) -> bool {
    exists|a: int| 0 <= a < paths.len() && on_path(#[trigger] paths[a], t)
}

/// No index is on both paths.
pub open spec fn apart(p: Seq<usize>, q: Seq<usize>) -> bool {
    forall|t: int| #[trigger] on_path(p, t) ==> !on_path(q, t)
}

/// `path` is a walk cut through tiles that were neither floor nor wall:
/// short, without a tile twice, and connected.
pub open spec fn well_cut(before: Seq<CoarseTileType>, size: GridSize, path: Seq<usize>) -> bool {
    &&& path.len() <= CORRIDOR_MAX_LENGTH + 1
    &&& forall|i: int|
        0 <= i < path.len() ==> #[trigger] path[i] < before.len() && !spec_is_room(
            before[path[i] as int],
        )
    &&& forall|i: int, j: int| 0 <= i < j < path.len() ==> path[i] != path[j]
    &&& connected(size, path)
}

/// What carving `paths` does to a grid: every walk is well cut, no two
/// walks share a tile, and exactly the tiles of the walks have become floor.
pub open spec fn carved(
    before: Seq<CoarseTileType>,
    after: Seq<CoarseTileType>,
    size: GridSize,
    paths: Seq<Seq<usize>>,
) -> bool {
    &&& after.len() == before.len()
    &&& forall|a: int| 0 <= a < paths.len() ==> well_cut(before, size, #[trigger] paths[a])
    &&& forall|a: int, b: int|
        0 <= a < b < paths.len() ==> apart(#[trigger] paths[a], #[trigger] paths[b])
    &&& forall|t: int|
        0 <= t < before.len() ==> #[trigger] after[t] == (if on_some(paths, t) {
            CoarseTileType::Floor
        } else {
            before[t]
        })
}

/// The walk `paths[a]` was carved to its end in its turn: on the grid that
/// the walks before it had left, it is a corridor that is full or that no
/// tile can join.
pub open spec fn finished_in_turn(
    before: Seq<CoarseTileType>,
    size: GridSize,
    paths: Seq<Seq<usize>>,
    a: int,
) -> bool {
    exists|at: CaveMap| #[trigger]
        carved(before, at.tiles@, size, paths.take(a)) && at.wf() && at.size == size
            && is_corridor(&at, paths[a]) && is_finished(&at, paths[a])
}

/// A tile of `path` shares an edge with a tile of `doors`.
pub open spec fn touches_door(size: GridSize, path: Seq<usize>, doors: Seq<usize>) -> bool {
    exists|i: int, j: int|
        0 <= i < path.len() && 0 <= j < doors.len() && #[trigger] size.touches(
            path[i] as int,
            doors[j] as int,
            false,
        )
}

/// One of the first `kept.len()` paths holds the index `t` and is not kept.
pub open spec fn on_pruned(paths: Seq<Seq<usize>>, kept: Seq<bool>, t: int) -> bool {
    exists|a: int|
        0 <= a < kept.len() && a < paths.len() && !kept[a] && on_path(#[trigger] paths[a], t)
}

/// The tile at `way` cannot join the walk from its tile `from`: the walk
/// holds it already, or it is floor or wall or has floor or wall around it,
/// or it shares an edge with another tile of the walk.
pub open spec fn refused(map: &CaveMap, path: Seq<usize>, from: usize, way: int) -> bool {
    ||| on_path(path, way)
    ||| !map.spec_isolated(way)
    ||| exists|i: int|
        0 <= i < path.len() && path[i] != from && #[trigger] map.size.touches(
            way,
            path[i] as int,
            false,
        )
}

/// The walk holds as many tiles as it may.
pub open spec fn is_full(path: Seq<usize>) -> bool {
    path.len() > CORRIDOR_MAX_LENGTH
}

/// The walk is full, or no tile beside the tile `from` of the walk can
/// join it from there.
pub open spec fn closed_at(map: &CaveMap, path: Seq<usize>, from: usize) -> bool {
    is_full(path) || forall|way: int| #[trigger]
        map.size.touches(from as int, way, false) ==> refused(map, path, from, way)
}

/// The walk is full, or no tile beside any of its tiles can join it.
pub open spec fn is_finished(map: &CaveMap, path: Seq<usize>) -> bool {
    forall|i: int| 0 <= i < path.len() ==> closed_at(map, path, #[trigger] path[i])
}

/// The neighbours of an open branch are the tiles on the grid that share an
/// edge with its tile, which the walk holds.
spec fn branch_ok(map: &CaveMap, visited: Seq<usize>, branch: Branch) -> bool {
    &&& visited.contains(branch.at)
    &&& branch.next <= branch.ways@.len()
    &&& forall|i: int|
        0 <= i < branch.ways@.len() ==> branch.ways@[i] < map.tiles@.len() && map.size.touches(
            branch.at as int,
            #[trigger] branch.ways@[i] as int,
            false,
        )
    &&& forall|way: int| #[trigger]
        map.size.touches(branch.at as int, way, false) ==> on_path(branch.ways@, way)
}

spec fn stack_ok(map: &CaveMap, visited: Seq<usize>, stack: Seq<Branch>) -> bool {
    forall|i: int| 0 <= i < stack.len() ==> branch_ok(map, visited, #[trigger] stack[i])
}

/// The neighbours that a branch has tried cannot join the walk, or the
/// walk is full.
spec fn tried(map: &CaveMap, visited: Seq<usize>, branch: Branch) -> bool {
    is_full(visited) || forall|j: int|
        0 <= j < branch.next && j < branch.ways@.len() ==> refused(
            map,
            visited,
            branch.at,
            #[trigger] branch.ways@[j] as int,
        )
}

/// Every open branch has done what `tried` says, and every tile of the
/// walk is closed or has an open branch.
spec fn stack_tried(map: &CaveMap, visited: Seq<usize>, stack: Seq<Branch>) -> bool {
    &&& forall|b: int| 0 <= b < stack.len() ==> tried(map, visited, #[trigger] stack[b])
    &&& forall|i: int|
        0 <= i < visited.len() ==> closed_at(map, visited, #[trigger] visited[i]) || has_branch(
            stack,
            visited[i],
        )
}

spec fn has_branch(stack: Seq<Branch>, at: usize) -> bool {
    exists|b: int| 0 <= b < stack.len() && (#[trigger] stack[b]).at == at
}

/// What cannot join a walk cannot join it when it has grown.
proof fn lemma_refused_grows(map: &CaveMap, path: Seq<usize>, more: usize, from: usize, way: int)
    requires
        refused(map, path, from, way),
    ensures
        refused(map, path.push(more), from, way),
{
    let longer = path.push(more);
    lemma_on_path_push(path, more, way);
    if !on_path(path, way) && map.spec_isolated(way) {
        let i = choose|i: int|
            0 <= i < path.len() && path[i] != from && #[trigger] map.size.touches(
                way,
                path[i] as int,
                false,
            );
        assert(longer[i] == path[i]);
    }
}

proof fn lemma_closed_grows(map: &CaveMap, path: Seq<usize>, more: usize, from: usize)
    requires
        closed_at(map, path, from),
    ensures
        closed_at(map, path.push(more), from),
{
    if !is_full(path.push(more)) {
        assert forall|way: int| #[trigger]
            map.size.touches(from as int, way, false) implies refused(
            map,
            path.push(more),
            from,
            way,
        ) by {
            lemma_refused_grows(map, path, more, from, way);
        }
    }
}

proof fn lemma_tried_grows(map: &CaveMap, path: Seq<usize>, more: usize, branch: Branch)
    requires
        tried(map, path, branch),
    ensures
        tried(map, path.push(more), branch),
{
    if !is_full(path.push(more)) {
        assert forall|j: int| 0 <= j < branch.next && j < branch.ways@.len() implies refused(
            map,
            path.push(more),
            branch.at,
            #[trigger] branch.ways@[j] as int,
        ) by {
            lemma_refused_grows(map, path, more, branch.at, branch.ways@[j] as int);
        }
    }
}

/// The steps that an open branch still asks for: one for each neighbour not
/// yet tried and one to close it.
spec fn weight(branch: Branch) -> nat {
    if branch.next <= branch.ways@.len() {
        (branch.ways@.len() - branch.next + 1) as nat
    } else {
        1
    }
}

/// The steps that the open branches still ask for.
spec fn pending(stack: Seq<Branch>) -> nat
    decreases stack.len(),
{
    if stack.len() == 0 {
        0
    } else {
        pending(stack.drop_last()) + weight(stack.last())
    }
}

proof fn lemma_pending_push(stack: Seq<Branch>, branch: Branch)
    ensures
        pending(stack.push(branch)) == pending(stack) + weight(branch),
{
    assert(stack.push(branch).drop_last() =~= stack);
}

/// Whether `items` holds `x`.
fn holds(items: &Vec<usize>, x: usize) -> (b: bool)
    ensures
        b == items@.contains(x),
{
    let mut i: usize = 0;
    while i < items.len()
        invariant
            i <= items@.len(),
            forall|j: int| 0 <= j < i ==> items@[j] != x,
        decreases items@.len() - i,
    {
        if items[i] == x {
            return true;
        }
        i = i + 1;
    }
    false
}

/// Whether the tile at `idx` shares an edge with a tile of `visited` other
/// than `from`.
fn near_visited(map: &CaveMap, visited: &Vec<usize>, idx: usize, from: usize) -> (b: bool)
    requires
        map.wf(),
        idx < map.tiles@.len(),
    ensures
        b == exists|t: usize|
            visited@.contains(t) && t != from && #[trigger] map.size.touches(
                idx as int,
                t as int,
                false,
            ),
{
    let ways = adjecent_idxs(map, idx);
    let mut i: usize = 0;
    while i < ways.len()
        invariant
            i <= ways@.len(),
            as_ints(ways@) == map.size.cardinals(idx as int),
            forall|j: int| 0 <= j < i ==> ways@[j] == from || !visited@.contains(#[trigger] ways@[j]),
        decreases ways@.len() - i,
    {
        let way = ways[i];
        if way != from && holds(visited, way) {
            proof {
                assert(as_ints(ways@)[i as int] == way as int);
                assert(map.size.cardinals(idx as int).contains(way as int));
                map.size.lemma_cardinals_touch(idx as int, way as int);
            }
            return true;
        }
        i = i + 1;
    }
    proof {
        assert forall|t: usize| visited@.contains(t) && t != from implies !#[trigger] map.size.touches(
            idx as int,
            t as int,
            false,
        ) by {
            map.size.lemma_cardinals_touch(idx as int, t as int);
            if map.size.cardinals(idx as int).contains(t as int) {
                let j = choose|j: int|
                    0 <= j < as_ints(ways@).len() && as_ints(ways@)[j] == t as int;
                assert(ways@[j] == t);
            }
        }
    }
    false
}

/// The tiles that share an edge with the tile at `idx`, in an order drawn
/// from `rng`.
fn shuffled_ways(rng: &mut RngComponent, map: &CaveMap, idx: usize) -> (ways: Vec<usize>)
    requires
        map.wf(),
        idx < map.tiles@.len(),
    ensures
        forall|i: int|
            0 <= i < ways@.len() ==> ways@[i] < map.tiles@.len() && map.size.touches(
                idx as int,
                #[trigger] ways@[i] as int,
                false,
            ),
        forall|way: int| #[trigger]
            map.size.touches(idx as int, way, false) ==> on_path(ways@, way),
{
    let mut ways = adjecent_idxs(map, idx);
    let ghost before = ways@;
    shuffle(rng, &mut ways);
    proof {
        assert forall|way: int| #[trigger]
            map.size.touches(idx as int, way, false) implies on_path(ways@, way) by {
            map.size.lemma_cardinals_touch(idx as int, way);
            let j = choose|j: int| 0 <= j < as_ints(before).len() && as_ints(before)[j] == way;
            let item = before[j];
            assert(before.contains(item));
            to_multiset_contains(before, item);
            to_multiset_contains(ways@, item);
            let i = choose|i: int| 0 <= i < ways@.len() && ways@[i] == item;
            assert(ways@[i] == way);
        }
        assert forall|i: int| 0 <= i < ways@.len() implies ways@[i] < map.tiles@.len()
            && map.size.touches(idx as int, #[trigger] ways@[i] as int, false) by {
            let way = ways@[i];
            assert(ways@.contains(way));
            to_multiset_contains(ways@, way);
            to_multiset_contains(before, way);
            let j = choose|j: int| 0 <= j < before.len() && before[j] == way;
            assert(as_ints(before)[j] == way as int);
            assert(map.size.cardinals(idx as int).contains(way as int));
            map.size.lemma_cardinals_touch(idx as int, way as int);
        }
    }
    ways
}

/// Takes the tile at `idx` into the walk and opens a branch for it, unless
/// the walk is full or the tile is floor or wall or has floor or wall
/// around it.
fn enter(
    rng: &mut RngComponent,
    map: &CaveMap,
    visited: &mut Vec<usize>,
    stack: &mut Vec<Branch>,
    idx: usize,
)
    requires
        map.wf(),
        idx < map.tiles@.len(),
        is_corridor(map, old(visited)@),
        stack_ok(map, old(visited)@, old(stack)@),
        !old(visited)@.contains(idx),
        old(visited)@.len() > 0 ==> joins(map.size, old(visited)@, idx),
    ensures
        is_corridor(map, final(visited)@),
        stack_ok(map, final(visited)@, final(stack)@),
        old(visited)@.len() <= CORRIDOR_MAX_LENGTH && map.spec_isolated(idx as int) ==> {
            &&& final(visited)@ == old(visited)@.push(idx)
            &&& final(stack)@.len() == old(stack)@.len() + 1
            &&& final(stack)@.drop_last() == old(stack)@
            &&& final(stack)@.last().next == 0
            &&& final(stack)@.last().at == idx
        },
        !(old(visited)@.len() <= CORRIDOR_MAX_LENGTH && map.spec_isolated(idx as int)) ==> {
            &&& final(visited)@ == old(visited)@
            &&& final(stack)@ == old(stack)@
        },
{
    if visited.len() > CORRIDOR_MAX_LENGTH {
        return;
    }
    if is_room(&map.tiles[idx]) || is_adjecent_to_room(map, idx) {
        return;
    }
    let ghost before = visited@;
    let ghost open = stack@;
    visited.push(idx);
    let ways = shuffled_ways(rng, map, idx);
    let branch = Branch { at: idx, ways, next: 0 };
    stack.push(branch);
    proof {
        let path = visited@;
        assert(path[before.len() as int] == idx);
        assert forall|k: int| 0 < k < path.len() implies joins(
            map.size,
            #[trigger] path.take(k),
            path[k],
        ) by {
            if k < before.len() {
                assert(path.take(k) =~= before.take(k));
            } else {
                assert(path.take(k) =~= before);
            }
        }
        assert forall|i: int| 0 <= i < stack@.len() implies branch_ok(
            map,
            path,
            #[trigger] stack@[i],
        ) by {
            if i < open.len() {
                assert(stack@[i] == open[i]);
                assert(branch_ok(map, before, open[i]));
                let j = choose|j: int| 0 <= j < before.len() && before[j] == open[i].at;
                assert(path[j] == open[i].at);
            }
        }
        assert(stack@.drop_last() =~= open);
    }
}

/// Carves one walk from `start`, depth first. A tile enters the walk when
/// it is neither floor nor wall, has no floor or wall around it, and the
/// walk holds at most `CORRIDOR_MAX_LENGTH` tiles. From a tile the walk
/// tries its edge neighbours in an order drawn from `rng`, and goes on into
/// one that it does not hold yet and that shares no edge with a tile of the
/// walk other than the one it comes from.
pub fn dfs(rng: &mut RngComponent, map: &CaveMap, start: usize) -> (visited: Vec<usize>)
    requires
        map.wf(),
        start < map.tiles@.len(),
    ensures
        is_corridor(map, visited@),
        is_finished(map, visited@),
        visited@.len() == 0 <==> !map.spec_isolated(start as int),
        visited@.len() > 0 ==> visited@[0] == start,
{
    let mut visited: Vec<usize> = Vec::new();
    let mut stack: Vec<Branch> = Vec::new();
    enter(rng, map, &mut visited, &mut stack, start);
    proof {
        if visited@.len() > 0 {
            assert(stack@.last().at == start);
            assert(has_branch(stack@, visited@[0]));
        }
    }
    while stack.len() > 0
        invariant
            map.wf(),
            is_corridor(map, visited@),
            stack_ok(map, visited@, stack@),
            stack_tried(map, visited@, stack@),
            visited@.len() == 0 <==> !map.spec_isolated(start as int),
            visited@.len() > 0 ==> visited@[0] == start,
        decreases CORRIDOR_MAX_LENGTH + 2 - visited@.len(), pending(stack@),
    {
        let ghost open = stack@;
        let ghost path = visited@;
        let branch = match stack.pop() {
            Some(branch) => branch,
            None => { return visited; },
        };
        let ghost below = stack@;
        assert(branch == open.last());
        assert(branch_ok(map, path, branch));
        assert(tried(map, path, branch));
        assert(below =~= open.drop_last());
        assert(stack_ok(map, path, below));
        if branch.next < branch.ways.len() {
            let way = branch.ways[branch.next];
            let at = branch.at;
            let again = Branch { at, ways: branch.ways, next: branch.next + 1 };
            proof {
                lemma_pending_push(below, again);
                assert(branch_ok(map, path, again));
            }
            stack.push(again);
            assert(pending(stack@) == pending(open) - 1);
            assert(stack_ok(map, path, stack@)) by {
                assert forall|i: int| 0 <= i < stack@.len() implies branch_ok(
                    map,
                    path,
                    #[trigger] stack@[i],
                ) by {
                    if i < open.len() - 1 {
                        assert(stack@[i] == open[i]);
                    }
                }
            }
            let ghost waiting = stack@;
            let held = holds(&visited, way);
            let near = !held && near_visited(map, &visited, way, at);
            let walled = !held && !near && is_adjecent_to_room(map, way);
            if !held && !near && !walled {
                proof {
                    let j = choose|j: int| 0 <= j < path.len() && path[j] == at;
                    assert(map.size.touches(path[j] as int, way as int, false));
                    assert forall|i: int| 0 <= i < path.len() && i != j implies !#[trigger] map.size.touches(
                        path[i] as int,
                        way as int,
                        false,
                    ) by {
                        assert(path.contains(path[i]));
                        assert(map.spec_isolated(path[i] as int));
                        if map.size.touches(path[i] as int, way as int, false) {
                            map.size.lemma_touches_symmetric(path[i] as int, way as int, false);
                        }
                    }
                    assert(joins(map.size, path, way));
                }
                enter(rng, map, &mut visited, &mut stack, way);
            }
            proof {
                let grown = visited@.len() > path.len();
                if grown {
                    assert(visited@ == path.push(way));
                    assert(stack@.drop_last() == waiting);
                    lemma_on_path_push(path, way, way as int);
                } else {
                    assert(visited@ == path);
                    assert(stack@ == waiting);
                    if held {
                        let i = choose|i: int| 0 <= i < path.len() && path[i] == way;
                        assert(on_path(path, way as int));
                    } else if near {
                        let t = choose|t: usize|
                            path.contains(t) && t != at && #[trigger] map.size.touches(
                                way as int,
                                t as int,
                                false,
                            );
                        let i = choose|i: int| 0 <= i < path.len() && path[i] == t;
                        assert(map.size.touches(way as int, path[i] as int, false));
                    }
                    assert(is_full(path) || refused(map, path, at, way as int));
                }
                assert(is_full(visited@) || refused(map, visited@, at, way as int));
                assert(tried(map, visited@, again)) by {
                    if !is_full(visited@) {
                        assert forall|j: int|
                            0 <= j < again.next && j < again.ways@.len() implies refused(
                            map,
                            visited@,
                            again.at,
                            #[trigger] again.ways@[j] as int,
                        ) by {
                            if j < branch.next {
                                assert(refused(map, path, at, branch.ways@[j] as int));
                                if grown {
                                    lemma_refused_grows(map, path, way, at, branch.ways@[j] as int);
                                }
                            }
                        }
                    }
                }
                assert forall|b: int| 0 <= b < stack@.len() implies tried(
                    map,
                    visited@,
                    #[trigger] stack@[b],
                ) by {
                    if b < below.len() {
                        assert(below[b] == open[b]);
                        assert(waiting[b] == below[b]);
                        if grown {
                            assert(stack@[b] == stack@.drop_last()[b]);
                        }
                        assert(stack@[b] == open[b]);
                        assert(tried(map, path, open[b]));
                        if grown {
                            lemma_tried_grows(map, path, way, open[b]);
                        }
                    } else if b == below.len() {
                        assert(waiting[b] == again);
                        if grown {
                            assert(stack@[b] == stack@.drop_last()[b]);
                        }
                        assert(stack@[b] == again);
                    }
                }
                assert forall|i: int| 0 <= i < visited@.len() implies closed_at(
                    map,
                    visited@,
                    #[trigger] visited@[i],
                ) || has_branch(stack@, visited@[i]) by {
                    if i < path.len() {
                        assert(visited@[i] == path[i]);
                        if closed_at(map, path, path[i]) {
                            if grown {
                                lemma_closed_grows(map, path, way, path[i]);
                            }
                        } else {
                            let b = choose|b: int|
                                0 <= b < open.len() && (#[trigger] open[b]).at == path[i];
                            if b < below.len() {
                                assert(below[b] == open[b]);
                                assert(waiting[b] == below[b]);
                                if grown {
                                    assert(stack@[b] == stack@.drop_last()[b]);
                                }
                                assert(stack@[b] == open[b]);
                            } else {
                                let top = below.len() as int;
                                assert(waiting[top] == again);
                                if grown {
                                    assert(stack@[top] == stack@.drop_last()[top]);
                                }
                                assert(stack@[top].at == path[i]);
                            }
                        }
                    } else {
                        assert(stack@.last().at == way);
                    }
                }
            }
        } else {
            proof {
                assert(closed_at(map, path, branch.at)) by {
                    if !is_full(path) {
                        assert forall|way: int| #[trigger]
                            map.size.touches(branch.at as int, way, false) implies refused(
                            map,
                            path,
                            branch.at,
                            way,
                        ) by {
                            let j = choose|j: int|
                                0 <= j < branch.ways@.len() && #[trigger] branch.ways@[j] == way;
                            assert(refused(map, path, branch.at, branch.ways@[j] as int));
                        }
                    }
                }
                assert forall|b: int| 0 <= b < below.len() implies tried(
                    map,
                    path,
                    #[trigger] below[b],
                ) by {
                    assert(below[b] == open[b]);
                }
                assert forall|i: int| 0 <= i < path.len() implies closed_at(
                    map,
                    path,
                    #[trigger] path[i],
                ) || has_branch(below, path[i]) by {
                    if !closed_at(map, path, path[i]) {
                        let b = choose|b: int|
                            0 <= b < open.len() && (#[trigger] open[b]).at == path[i];
                        assert(b < below.len());
                        assert(below[b] == open[b]);
                    }
                }
            }
        }
    }
    proof {
        assert forall|i: int| 0 <= i < visited@.len() implies closed_at(
            map,
            visited@,
            #[trigger] visited@[i],
        ) by {
            assert(!has_branch(stack@, visited@[i]));
        }
    }
    visited
}

proof fn lemma_on_some_push(paths: Seq<Seq<usize>>, last: Seq<usize>, t: int)
    ensures
        on_some(paths.push(last), t) <==> on_some(paths, t) || on_path(last, t),
{
    let longer = paths.push(last);
    if on_some(paths, t) {
        let a = choose|a: int| 0 <= a < paths.len() && on_path(#[trigger] paths[a], t);
        assert(on_path(longer[a], t));
    }
    if on_path(last, t) {
        assert(on_path(longer[paths.len() as int], t));
    }
    if on_some(longer, t) {
        let a = choose|a: int| 0 <= a < longer.len() && on_path(#[trigger] longer[a], t);
        if a < paths.len() {
            assert(on_path(paths[a], t));
        }
    }
}

/// A tile that has floor or wall on it or around it keeps it when more
/// tiles become floor or wall.
pub proof fn lemma_isolated_shrinks(less: &CaveMap, more: &CaveMap, t: int)
    requires
        less.wf(),
        more.wf(),
        less.size == more.size,
        forall|u: int|
            0 <= u < less.tiles@.len() && spec_is_room(#[trigger] less.tiles@[u]) ==> spec_is_room(
                more.tiles@[u],
            ),
        more.spec_isolated(t),
    ensures
        less.spec_isolated(t),
{
    assert forall|k: int| 0 <= k < 8 implies !#[trigger] less.room_like_at(t, k) by {
        let o = crate::grid::ring_offset(k);
        if less.size.step(t, o.0, o.1) is Some {
            less.size.lemma_step_back(t, o.0, o.1);
        }
        assert(!more.room_like_at(t, k));
    }
}

/// Carves a walk from every tile that `neighbourless_idxs` finds on the
/// map as it comes in, in increasing order, and turns each walk into floor
/// before the next is carved. A start that has floor beside it by then
/// gives an empty walk. When the carving is done, no tile is left without
/// floor or wall on it or around it.
pub fn carve_corridors(rng: &mut RngComponent, map: &mut CaveMap) -> (paths: Vec<Vec<usize>>)
    requires
        old(map).wf(),
    ensures
        final(map).wf(),
        final(map).size == old(map).size,
        carved(old(map).tiles@, final(map).tiles@, old(map).size, views(paths@)),
        forall|t: int| !#[trigger] final(map).spec_isolated(t),
        paths@.len() == old(map).isolated_below(old(map).tiles@.len() as int),
        forall|a: int|
            0 <= a < paths@.len() && (#[trigger] paths@[a])@.len() > 0 ==> old(map).spec_isolated(
                paths@[a]@[0] as int,
            ),
        forall|a: int|
            0 <= a < paths@.len() ==> #[trigger] finished_in_turn(
                old(map).tiles@,
                old(map).size,
                views(paths@),
                a,
            ),
{
    let ghost first = *map;
    let ghost before = map.tiles@;
    let ghost size = map.size;
    let starts = neighbourless_idxs(map);
    proof {
        assert forall|i: int| 0 <= i < starts@.len() implies #[trigger] starts@[i] < before.len() by {
            assert(starts@.contains(starts@[i]));
        }
    }
    let mut paths: Vec<Vec<usize>> = Vec::new();
    let mut s: usize = 0;
    assert(views(paths@) =~= Seq::<Seq<usize>>::empty());
    while s < starts.len()
        invariant
            first.wf(),
            first.size == size,
            first.tiles@ == before,
            map.wf(),
            map.size == size,
            s <= starts@.len(),
            forall|i: int| 0 <= i < starts@.len() ==> #[trigger] starts@[i] < before.len(),
            forall|t: usize|
                #![trigger starts@.contains(t)]
                #![trigger first.spec_isolated(t as int)]
                starts@.contains(t) <==> first.spec_isolated(t as int),
            carved(before, map.tiles@, size, views(paths@)),
            forall|i: int| 0 <= i < s ==> !map.spec_isolated(#[trigger] starts@[i] as int),
            paths@.len() == s,
            starts@.len() == first.isolated_below(before.len() as int),
            forall|a: int|
                0 <= a < paths@.len() && (#[trigger] paths@[a])@.len() > 0 ==> first.spec_isolated(
                    paths@[a]@[0] as int,
                ),
            forall|a: int|
                0 <= a < paths@.len() ==> #[trigger] finished_in_turn(
                    before,
                    size,
                    views(paths@),
                    a,
                ),
        decreases starts@.len() - s,
    {
        assert(starts@.contains(starts@[s as int]));
        let path = dfs(rng, map, starts[s]);
        let ghost mid = *map;
        let ghost old_paths = views(paths@);
        paint(map, &path, CoarseTileType::Floor);
        paths.push(path);
        proof {
            let longer = views(paths@);
            assert(longer =~= old_paths.push(path@));
            assert forall|a: int| 0 <= a < longer.len() implies #[trigger] finished_in_turn(
                before,
                size,
                longer,
                a,
            ) by {
                if a < old_paths.len() {
                    assert(finished_in_turn(before, size, old_paths, a));
                    let at = choose|at: CaveMap| #[trigger]
                        carved(before, at.tiles@, size, old_paths.take(a)) && at.wf() && at.size
                            == size && is_corridor(&at, old_paths[a]) && is_finished(
                            &at,
                            old_paths[a],
                        );
                    assert(longer.take(a) =~= old_paths.take(a));
                    assert(carved(before, at.tiles@, size, longer.take(a)));
                } else {
                    assert(longer.take(a) =~= old_paths);
                    assert(carved(before, mid.tiles@, size, longer.take(a)));
                }
            }
        }
        proof {
            assert forall|i: int| 0 <= i < s + 1 implies !map.spec_isolated(
                #[trigger] starts@[i] as int,
            ) by {
                if i < s {
                    if map.spec_isolated(starts@[i] as int) {
                        lemma_isolated_shrinks(&mid, map, starts@[i] as int);
                    }
                } else if path@.len() == 0 {
                    if map.spec_isolated(starts@[i] as int) {
                        lemma_isolated_shrinks(&mid, map, starts@[i] as int);
                    }
                } else {
                    assert(path@[0] == starts@[i]);
                    assert(on_path(path@, starts@[i] as int));
                }
            }
            let new_paths = views(paths@);
            assert(new_paths =~= old_paths.push(path@));
            assert forall|t: int| #[trigger] on_path(path@, t) implies !on_some(old_paths, t)
                && 0 <= t < before.len() && !spec_is_room(before[t]) by {
                let i = choose|i: int| 0 <= i < path@.len() && #[trigger] path@[i] == t;
                assert(mid.spec_isolated(path@[i] as int));
            }
            assert forall|a: int| 0 <= a < new_paths.len() implies well_cut(
                before,
                size,
                #[trigger] new_paths[a],
            ) by {
                if a == old_paths.len() {
                    assert forall|i: int| 0 <= i < path@.len() implies #[trigger] path@[i]
                        < before.len() && !spec_is_room(before[path@[i] as int]) by {
                        assert(on_path(path@, path@[i] as int));
                    }
                } else {
                    assert(new_paths[a] == old_paths[a]);
                }
            }
            assert forall|a: int, b: int| 0 <= a < b < new_paths.len() implies apart(
                #[trigger] new_paths[a],
                #[trigger] new_paths[b],
            ) by {
                if b == old_paths.len() {
                    assert forall|t: int| #[trigger] on_path(new_paths[a], t) implies !on_path(
                        path@,
                        t,
                    ) by {
                        assert(on_path(old_paths[a], t));
                    }
                } else {
                    assert(apart(old_paths[a], old_paths[b]));
                }
            }
            assert forall|t: int| 0 <= t < before.len() implies #[trigger] map.tiles@[t] == (if on_some(
                new_paths,
                t,
            ) {
                CoarseTileType::Floor
            } else {
                before[t]
            }) by {
                lemma_on_some_push(old_paths, path@, t);
            }
        }
        s = s + 1;
    }
    proof {
        assert forall|t: int| !#[trigger] map.spec_isolated(t) by {
            if map.spec_isolated(t) {
                lemma_isolated_shrinks(&first, map, t);
                let u = t as usize;
                assert(starts@.contains(u));
                let i = choose|i: int| 0 <= i < starts@.len() && starts@[i] == u;
                assert(!map.spec_isolated(starts@[i] as int));
            }
        }
    }
    paths
}

/// Whether the tile at `idx` shares an edge with a tile of `items`.
fn beside_any(map: &CaveMap, items: &Vec<usize>, idx: usize) -> (b: bool)
    requires
        map.wf(),
        idx < map.tiles@.len(),
    ensures
        b == exists|j: int|
            0 <= j < items@.len() && #[trigger] map.size.touches(
                idx as int,
                items@[j] as int,
                false,
            ),
{
    let ways = adjecent_idxs(map, idx);
    let mut i: usize = 0;
    while i < ways.len()
        invariant
            i <= ways@.len(),
            as_ints(ways@) == map.size.cardinals(idx as int),
            forall|j: int| 0 <= j < i ==> !items@.contains(#[trigger] ways@[j]),
        decreases ways@.len() - i,
    {
        let way = ways[i];
        if holds(items, way) {
            proof {
                assert(as_ints(ways@)[i as int] == way as int);
                assert(map.size.cardinals(idx as int).contains(way as int));
                map.size.lemma_cardinals_touch(idx as int, way as int);
                let j = choose|j: int| 0 <= j < items@.len() && items@[j] == way;
                assert(map.size.touches(idx as int, items@[j] as int, false));
            }
            return true;
        }
        i = i + 1;
    }
    proof {
        assert forall|j: int| 0 <= j < items@.len() implies !#[trigger] map.size.touches(
            idx as int,
            items@[j] as int,
            false,
        ) by {
            let t = items@[j];
            map.size.lemma_cardinals_touch(idx as int, t as int);
            if map.size.cardinals(idx as int).contains(t as int) {
                let k = choose|k: int|
                    0 <= k < as_ints(ways@).len() && as_ints(ways@)[k] == t as int;
                assert(ways@[k] == t);
                assert(items@.contains(t));
            }
        }
    }
    false
}

/// Whether a tile of `path` shares an edge with a tile of `doors`.
pub fn touches_any_door(map: &CaveMap, path: &Vec<usize>, doors: &Vec<usize>) -> (b: bool)
    requires
        map.wf(),
        forall|i: int| 0 <= i < path@.len() ==> path@[i] < map.tiles@.len(),
    ensures
        b == touches_door(map.size, path@, doors@),
{
    let mut i: usize = 0;
    while i < path.len()
        invariant
            map.wf(),
            i <= path@.len(),
            forall|k: int| 0 <= k < path@.len() ==> path@[k] < map.tiles@.len(),
            forall|k: int, j: int|
                0 <= k < i && 0 <= j < doors@.len() ==> !#[trigger] map.size.touches(
                    path@[k] as int,
                    doors@[j] as int,
                    false,
                ),
        decreases path@.len() - i,
    {
        if beside_any(map, doors, path[i]) {
            return true;
        }
        i = i + 1;
    }
    false
}

/// Turns every walk that touches no door back into untouched ground, and
/// tells for each walk whether it was kept.
pub fn prune_corridors(map: &mut CaveMap, paths: &Vec<Vec<usize>>, doors: &Vec<usize>) -> (kept:
    Vec<bool>)
    requires
        old(map).wf(),
        forall|a: int, i: int|
            0 <= a < paths@.len() && 0 <= i < paths@[a]@.len() ==> #[trigger] paths@[a]@[i] < old(
                map,
            ).tiles@.len(),
    ensures
        final(map).wf(),
        final(map).size == old(map).size,
        kept@.len() == paths@.len(),
        forall|a: int|
            0 <= a < paths@.len() ==> #[trigger] kept@[a] == touches_door(
                old(map).size,
                paths@[a]@,
                doors@,
            ),
        forall|t: int|
            0 <= t < old(map).tiles@.len() ==> #[trigger] final(map).tiles@[t] == (if on_pruned(
                views(paths@),
                kept@,
                t,
            ) {
                CoarseTileType::Dirt
            } else {
                old(map).tiles@[t]
            }),
{
    let ghost before = map.tiles@;
    let ghost size = map.size;
    let ghost all = views(paths@);
    let mut kept: Vec<bool> = Vec::new();
    let mut a: usize = 0;
    while a < paths.len()
        invariant
            map.wf(),
            map.size == size,
            before.len() == map.tiles@.len(),
            all == views(paths@),
            a <= paths@.len(),
            kept@.len() == a,
            forall|b: int, i: int|
                0 <= b < paths@.len() && 0 <= i < paths@[b]@.len() ==> #[trigger] paths@[b]@[i]
                    < before.len(),
            forall|b: int|
                0 <= b < a ==> #[trigger] kept@[b] == touches_door(size, paths@[b]@, doors@),
            forall|t: int|
                0 <= t < before.len() ==> #[trigger] map.tiles@[t] == (if on_pruned(all, kept@, t) {
                    CoarseTileType::Dirt
                } else {
                    before[t]
                }),
        decreases paths@.len() - a,
    {
        let path = &paths[a];
        assert forall|i: int| 0 <= i < path@.len() implies path@[i] < map.tiles@.len() by {
            assert(paths@[a as int]@[i] < before.len());
        }
        let keep = touches_any_door(map, path, doors);
        let ghost mid = map.tiles@;
        let ghost flags = kept@;
        if !keep {
            paint(map, path, CoarseTileType::Dirt);
        }
        kept.push(keep);
        proof {
            assert(all[a as int] == path@);
            assert forall|t: int| 0 <= t < before.len() implies #[trigger] map.tiles@[t] == (if on_pruned(
                all,
                kept@,
                t,
            ) {
                CoarseTileType::Dirt
            } else {
                before[t]
            }) by {
                if on_pruned(all, flags, t) {
                    let b = choose|b: int|
                        0 <= b < flags.len() && b < all.len() && !flags[b] && on_path(
                            #[trigger] all[b],
                            t,
                        );
                    assert(!kept@[b] && on_path(all[b], t));
                }
                if !keep && on_path(path@, t) {
                    assert(!kept@[a as int] && on_path(all[a as int], t));
                }
                if on_pruned(all, kept@, t) {
                    let b = choose|b: int|
                        0 <= b < kept@.len() && b < all.len() && !kept@[b] && on_path(
                            #[trigger] all[b],
                            t,
                        );
                    if b < flags.len() {
                        assert(!flags[b] && on_path(all[b], t));
                    }
                }
            }
        }
        a = a + 1;
    }
    kept
}

} // verus!
