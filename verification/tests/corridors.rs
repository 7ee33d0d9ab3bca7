use bevy_turborand::RngComponent;
use cavegen::corridors::carve_corridors;
use cavegen::corridors::dfs;
use cavegen::corridors::prune_corridors;
use cavegen::corridors::touches_any_door;
use cavegen::corridors::CORRIDOR_MAX_LENGTH;
use cavegen::grid::paint;
use cavegen::grid::CaveMap;
use cavegen::grid::GridPos;
use cavegen::grid::GridSize;
use cavegen::rooms::stamp_room;
use cavegen::rooms::Room;
use cavegen::tiles::CoarseTileType;

fn empty_map(x: u32, y: u32) -> CaveMap {
    CaveMap::new(GridSize { x, y })
}

fn share_an_edge(a: usize, b: usize, width: usize) -> bool {
    let (ax, ay) = (a % width, a / width);
    let (bx, by) = (b % width, b / width);
    (ax == bx && (ay + 1 == by || by + 1 == ay)) || (ay == by && (ax + 1 == bx || bx + 1 == ax))
}

fn share_an_edge_or_corner(a: usize, b: usize, width: usize) -> bool {
    let (ax, ay) = (a % width, a / width);
    let (bx, by) = (b % width, b / width);
    a != b && ax.abs_diff(bx) <= 1 && ay.abs_diff(by) <= 1
}

fn check_walk(walk: &Vec<usize>, width: usize) {
    assert!(walk.len() <= CORRIDOR_MAX_LENGTH + 1);
    for k in 0..walk.len() {
        for j in 0..k {
            assert!(walk[j] != walk[k]);
        }
        if k > 0 {
            let parents = (0..k).filter(|j| share_an_edge(walk[*j], walk[k], width)).count();
            assert_eq!(parents, 1);
        }
    }
}

#[test]
fn walk_limit_is_twenty() {
    assert_eq!(CORRIDOR_MAX_LENGTH, 20);
}

#[test]
fn walk_on_open_ground_starts_at_the_start_and_fills_up() {
    for seed in 0..20u64 {
        let map = empty_map(40, 40);
        let mut rng = RngComponent::with_seed(seed);
        let walk = dfs(&mut rng, &map, 820);
        assert_eq!(walk[0], 820);
        assert_eq!(walk.len(), CORRIDOR_MAX_LENGTH + 1);
        check_walk(&walk, 40);
    }
}

#[test]
fn walk_does_not_change_the_map() {
    let map = empty_map(12, 12);
    let mut rng = RngComponent::with_seed(3);
    let walk = dfs(&mut rng, &map, 50);
    assert!(!walk.is_empty());
    assert!(map.tiles.iter().all(|t| *t == CoarseTileType::Dirt));
}

#[test]
fn walk_from_floor_is_empty() {
    let mut map = empty_map(12, 12);
    paint(&mut map, &vec![50], CoarseTileType::Floor);
    let mut rng = RngComponent::with_seed(3);
    assert_eq!(dfs(&mut rng, &map, 50), Vec::<usize>::new());
}

#[test]
fn walk_from_a_tile_beside_floor_is_empty() {
    let mut map = empty_map(12, 12);
    paint(&mut map, &vec![50], CoarseTileType::Floor);
    let mut rng = RngComponent::with_seed(3);
    for start in [37usize, 38, 39, 49, 51, 61, 62, 63] {
        assert_eq!(dfs(&mut rng, &map, start), Vec::<usize>::new());
    }
    paint(&mut map, &vec![100], CoarseTileType::Wall);
    assert_eq!(dfs(&mut rng, &map, 101), Vec::<usize>::new());
}

#[test]
fn walk_beside_a_door_is_not_stopped() {
    let mut map = empty_map(12, 12);
    paint(&mut map, &vec![50], CoarseTileType::Door);
    let mut rng = RngComponent::with_seed(3);
    let walk = dfs(&mut rng, &map, 51);
    assert_eq!(walk[0], 51);
}

#[test]
fn walk_keeps_off_the_room_and_its_ring() {
    for seed in 0..20u64 {
        let mut map = empty_map(24, 24);
        stamp_room(&mut map, &Room::new(GridPos { x: 8, y: 8 }, GridPos { x: 5, y: 5 }));
        let mut rng = RngComponent::with_seed(seed);
        let walk = dfs(&mut rng, &map, 2 * 24 + 2);
        assert!(!walk.is_empty());
        check_walk(&walk, 24);
        for t in walk.iter() {
            let (x, y) = (t % 24, t / 24);
            let near_room = (7..=14).contains(&x) && (7..=14).contains(&y);
            assert!(!near_room);
        }
    }
}

#[test]
fn walk_in_a_single_row_is_a_straight_line() {
    let map = empty_map(9, 1);
    let mut rng = RngComponent::with_seed(5);
    let mut walk = dfs(&mut rng, &map, 4);
    assert_eq!(walk[0], 4);
    walk.sort();
    assert_eq!(walk, vec![0, 1, 2, 3, 4, 5, 6, 7, 8]);
}

#[test]
fn walk_on_a_single_tile_holds_that_tile() {
    let map = empty_map(1, 1);
    let mut rng = RngComponent::with_seed(5);
    assert_eq!(dfs(&mut rng, &map, 0), vec![0]);
}

#[test]
fn walk_that_is_not_full_cannot_be_carried_on() {
    let mut short_walks = 0;
    for seed in 0..40u64 {
        let mut map = empty_map(5, 4);
        paint(&mut map, &vec![0], CoarseTileType::Floor);
        let mut rng = RngComponent::with_seed(seed);
        let walk = dfs(&mut rng, &map, 19);
        check_walk(&walk, 5);
        if walk.len() > CORRIDOR_MAX_LENGTH {
            continue;
        }
        short_walks += 1;
        for from in walk.iter() {
            for way in 0..20usize {
                if !share_an_edge(*from, way, 5) {
                    continue;
                }
                let held = walk.contains(&way);
                let by_floor = way == 0 || share_an_edge_or_corner(way, 0, 5);
                let by_walk = walk.iter().any(|t| t != from && share_an_edge(*t, way, 5));
                assert!(held || by_floor || by_walk);
            }
        }
    }
    assert!(short_walks > 0);
}

#[test]
fn neighbours_are_tried_in_a_drawn_order() {
    // Without the draw every walk would first go north.
    let mut second_tiles = Vec::new();
    for seed in 0..30u64 {
        let map = empty_map(40, 40);
        let mut rng = RngComponent::with_seed(seed);
        let walk = dfs(&mut rng, &map, 820);
        second_tiles.push(walk[1]);
    }
    assert!(second_tiles.iter().all(|t| share_an_edge(*t, 820, 40)));
    assert!(second_tiles.iter().any(|t| *t != 820 - 40));
    assert!(second_tiles.iter().any(|t| *t != second_tiles[0]));
}

#[test]
fn same_seed_carves_the_same_walk() {
    for seed in [0u64, 7, 4242] {
        let map = empty_map(30, 30);
        let mut first = RngComponent::with_seed(seed);
        let mut second = RngComponent::with_seed(seed);
        assert_eq!(dfs(&mut first, &map, 455), dfs(&mut second, &map, 455));
    }
}

#[test]
fn carving_leaves_no_tile_without_floor_on_or_around_it() {
    for seed in 0..6u64 {
        let mut map = empty_map(30, 20);
        stamp_room(&mut map, &Room::new(GridPos { x: 3, y: 3 }, GridPos { x: 5, y: 7 }));
        let mut rng = RngComponent::with_seed(seed);
        let walks = carve_corridors(&mut rng, &mut map);
        for t in 0..map.tiles.len() {
            let reached = map.tiles[t] == CoarseTileType::Floor
                || (0..map.tiles.len()).any(|n| {
                    map.tiles[n] == CoarseTileType::Floor && share_an_edge_or_corner(t, n, 30)
                });
            assert!(reached);
        }
        assert!(walks.iter().any(|w| !w.is_empty()));
    }
}

#[test]
fn carved_walks_are_floor_and_share_no_tile() {
    for seed in 0..6u64 {
        let mut map = empty_map(30, 20);
        let room = Room::new(GridPos { x: 3, y: 3 }, GridPos { x: 5, y: 7 });
        stamp_room(&mut map, &room);
        let mut rng = RngComponent::with_seed(seed);
        let walks = carve_corridors(&mut rng, &mut map);
        let mut seen = vec![false; map.tiles.len()];
        for walk in walks.iter() {
            check_walk(walk, 30);
            for t in walk.iter() {
                assert_eq!(map.tiles[*t], CoarseTileType::Floor);
                assert!(!seen[*t]);
                seen[*t] = true;
                let (x, y) = (*t as u32 % 30, *t as u32 / 30);
                let in_room = (3..=8).contains(&x) && (3..=10).contains(&y);
                assert!(!in_room);
            }
        }
        for t in 0..map.tiles.len() {
            let (x, y) = (t as u32 % 30, t as u32 / 30);
            let in_room = (3..=8).contains(&x) && (3..=10).contains(&y);
            let expected = if in_room || seen[t] { CoarseTileType::Floor } else { CoarseTileType::Dirt };
            assert_eq!(map.tiles[t], expected);
        }
    }
}

#[test]
fn walks_keep_a_tile_apart_from_each_other() {
    let mut map = empty_map(30, 20);
    let mut rng = RngComponent::with_seed(17);
    let walks = carve_corridors(&mut rng, &mut map);
    let filled: Vec<&Vec<usize>> = walks.iter().filter(|w| !w.is_empty()).collect();
    assert!(filled.len() > 1);
    for (a, first) in filled.iter().enumerate() {
        for second in filled.iter().skip(a + 1) {
            for s in first.iter() {
                for t in second.iter() {
                    assert!(!share_an_edge_or_corner(*s, *t, 30));
                }
            }
        }
    }
}

#[test]
fn one_walk_is_carved_for_every_start() {
    let mut map = empty_map(10, 10);
    let mut rng = RngComponent::with_seed(2);
    let walks = carve_corridors(&mut rng, &mut map);
    // On untouched ground every tile is a start.
    assert_eq!(walks.len(), 100);
    assert_eq!(walks[0][0], 0);
}

#[test]
fn carving_a_map_full_of_floor_carves_nothing() {
    let mut map = empty_map(6, 6);
    stamp_room(&mut map, &Room::new(GridPos { x: 0, y: 0 }, GridPos { x: 5, y: 5 }));
    let mut rng = RngComponent::with_seed(2);
    assert_eq!(carve_corridors(&mut rng, &mut map), Vec::<Vec<usize>>::new());
}

#[test]
fn walk_touches_a_door_by_an_edge_only() {
    let map = empty_map(5, 5);
    let walk = vec![6, 7, 8];
    assert!(touches_any_door(&map, &walk, &vec![13]));
    assert!(touches_any_door(&map, &walk, &vec![24, 1]));
    assert!(touches_any_door(&map, &walk, &vec![5]));
    assert!(!touches_any_door(&map, &walk, &vec![18]));
    assert!(!touches_any_door(&map, &walk, &vec![14, 0, 10]));
    assert!(touches_any_door(&map, &walk, &vec![7]));
    assert!(!touches_any_door(&map, &walk, &Vec::new()));
    assert!(!touches_any_door(&map, &Vec::new(), &vec![13]));
}

#[test]
fn walk_at_a_row_end_does_not_touch_the_next_row_start() {
    let map = empty_map(5, 5);
    assert!(!touches_any_door(&map, &vec![4], &vec![5]));
    assert!(!touches_any_door(&map, &vec![5], &vec![4]));
}

#[test]
fn pruning_reverts_the_walks_that_touch_no_door() {
    let mut map = empty_map(8, 4);
    let walks = vec![vec![0, 1, 2], vec![16, 17], Vec::new(), vec![30, 31]];
    for walk in walks.iter() {
        paint(&mut map, walk, CoarseTileType::Floor);
    }
    paint(&mut map, &vec![3], CoarseTileType::Door);
    paint(&mut map, &vec![22], CoarseTileType::Floor);
    let doors = vec![3, 22];
    let kept = prune_corridors(&mut map, &walks, &doors);
    assert_eq!(kept, vec![true, false, false, true]);
    for t in [0usize, 1, 2, 30, 31, 22] {
        assert_eq!(map.tiles[t], CoarseTileType::Floor);
    }
    for t in [16usize, 17] {
        assert_eq!(map.tiles[t], CoarseTileType::Dirt);
    }
    assert_eq!(map.tiles[3], CoarseTileType::Door);
    let floor = map.tiles.iter().filter(|t| **t == CoarseTileType::Floor).count();
    assert_eq!(floor, 6);
}

#[test]
fn pruning_without_doors_reverts_every_walk() {
    let mut map = empty_map(8, 4);
    let walks = vec![vec![0, 1, 2], vec![16, 17]];
    for walk in walks.iter() {
        paint(&mut map, walk, CoarseTileType::Floor);
    }
    let kept = prune_corridors(&mut map, &walks, &Vec::new());
    assert_eq!(kept, vec![false, false]);
    assert!(map.tiles.iter().all(|t| *t == CoarseTileType::Dirt));
}
