use bevy_turborand::RngComponent;
use cavegen::atlas::tile_atlas;
use cavegen::cave::cave;
use cavegen::cave::cave_with_rooms;
use cavegen::cave::Cave;
use cavegen::cave::MAX_ROOMS;
use cavegen::cave::MIN_ROOMS;
use cavegen::corridors::carve_corridors;
use cavegen::corridors::prune_corridors;
use cavegen::doors::door_candidates;
use cavegen::doors::place_doors;
use cavegen::doors::Edge;
use cavegen::grid::paint;
use cavegen::grid::CaveMap;
use cavegen::grid::GridPos;
use cavegen::grid::GridSize;
use cavegen::rooms::stamp_rooms;
use cavegen::rooms::GenerationFailed;
use cavegen::rooms::Room;
use cavegen::tiles::CaveAtlasIndices;
use cavegen::tiles::CoarseTileType;
use cavegen::walls::add_walls;

const WIDTH: usize = 64;

fn generate(seed: u64) -> Cave {
    let mut rng = RngComponent::with_seed(seed);
    match cave(&mut rng, &GridSize { x: 64, y: 64 }) {
        Ok(made) => made,
        Err(e) => panic!("seed {} failed: {:?}", seed, e),
    }
}

fn ring_of(t: usize, width: usize, height: usize) -> Vec<usize> {
    let (x, y) = ((t % width) as i64, (t / width) as i64);
    let mut found = Vec::new();
    for (dx, dy) in [(-1, -1), (0, -1), (1, -1), (-1, 0), (1, 0), (-1, 1), (0, 1), (1, 1)] {
        let (nx, ny) = (x + dx, y + dy);
        if nx >= 0 && ny >= 0 && nx < width as i64 && ny < height as i64 {
            found.push(ny as usize * width + nx as usize);
        }
    }
    found
}

fn cardinals_of(t: usize, width: usize, height: usize) -> Vec<usize> {
    let (x, y) = ((t % width) as i64, (t / width) as i64);
    let mut found = Vec::new();
    for (dx, dy) in [(0, -1), (-1, 0), (1, 0), (0, 1)] {
        let (nx, ny) = (x + dx, y + dy);
        if nx >= 0 && ny >= 0 && nx < width as i64 && ny < height as i64 {
            found.push(ny as usize * width + nx as usize);
        }
    }
    found
}

fn covered_by(rooms: &Vec<Room>, t: usize, width: usize) -> bool {
    let (x, y) = ((t % width) as u32, (t / width) as u32);
    rooms.iter().any(|r| {
        r.pos.x <= x && x <= r.pos.x + r.size.x && r.pos.y <= y && y <= r.pos.y + r.size.y
    })
}

/// The tiles that a walk over floor and doors reaches from the picked doors.
fn reached_from_doors(made: &Cave) -> Vec<bool> {
    let tiles = &made.map.tiles;
    let mut reached = vec![false; tiles.len()];
    let mut open: Vec<usize> = Vec::new();
    for d in made.doors.iter() {
        if !reached[*d] {
            reached[*d] = true;
            open.push(*d);
        }
    }
    while let Some(t) = open.pop() {
        for n in cardinals_of(t, WIDTH, WIDTH) {
            let passable = tiles[n] == CoarseTileType::Floor || tiles[n] == CoarseTileType::Door;
            if passable && !reached[n] {
                reached[n] = true;
                open.push(n);
            }
        }
    }
    reached
}

#[test]
fn same_seed_gives_the_same_cave() {
    for seed in [0u64, 1, 2, 3, 77, 1000, u64::MAX] {
        let first = generate(seed);
        let second = generate(seed);
        assert_eq!(first.map.tiles, second.map.tiles);
        assert_eq!(first.map.size, second.map.size);
        assert_eq!(first.doors, second.doors);
        assert_eq!(first.rooms, second.rooms);
        assert_eq!(first.corridors, second.corridors);
        assert_eq!(first.kept, second.kept);
    }
}

#[test]
fn different_seeds_give_different_caves() {
    let first = generate(1);
    let second = generate(2);
    assert_ne!(first.map.tiles, second.map.tiles);
    assert_ne!(first.rooms, second.rooms);
}

#[test]
fn cave_has_the_asked_bounds_and_eight_to_eleven_rooms() {
    assert_eq!(MIN_ROOMS, 8);
    assert_eq!(MAX_ROOMS, 12);
    let mut counts = Vec::new();
    for seed in 0..16u64 {
        let made = generate(seed);
        assert_eq!(made.map.size, GridSize { x: 64, y: 64 });
        assert_eq!(made.map.tiles.len(), 64 * 64);
        assert!(made.rooms.len() >= 8 && made.rooms.len() < 12);
        counts.push(made.rooms.len());
    }
    // The number of rooms is drawn, not fixed.
    assert!(counts.iter().any(|c| *c != counts[0]));
}

#[test]
fn no_two_rooms_of_a_cave_intersect() {
    for seed in 0..16u64 {
        let made = generate(seed);
        for (i, a) in made.rooms.iter().enumerate() {
            assert!(a.pos.x + a.size.x <= 63);
            assert!(a.pos.y + a.size.y <= 63);
            for b in made.rooms.iter().skip(i + 1) {
                assert!(!a.intersects(b));
            }
        }
    }
}

#[test]
fn rooms_of_a_cave_are_floor() {
    for seed in 0..8u64 {
        let made = generate(seed);
        for t in 0..made.map.tiles.len() {
            if covered_by(&made.rooms, t, WIDTH) {
                assert_eq!(made.map.tiles[t], CoarseTileType::Floor);
            }
        }
    }
}

#[test]
fn every_door_tile_stands_between_floor_and_floor_or_wall() {
    let mut door_tiles = 0;
    for seed in 0..16u64 {
        let made = generate(seed);
        let tiles = &made.map.tiles;
        for t in 0..tiles.len() {
            if tiles[t] != CoarseTileType::Door {
                continue;
            }
            door_tiles += 1;
            assert!(made.doors.contains(&t));
            let (x, y) = (t % WIDTH, t / WIDTH);
            let mut sides = Vec::new();
            if y >= 1 && y + 1 < WIDTH {
                sides.push((t - WIDTH, t + WIDTH));
                sides.push((t + WIDTH, t - WIDTH));
            }
            if x >= 1 && x + 1 < WIDTH {
                sides.push((t - 1, t + 1));
                sides.push((t + 1, t - 1));
            }
            let flanked = sides.iter().any(|(near, far)| {
                tiles[*near] == CoarseTileType::Floor
                    && covered_by(&made.rooms, *near, WIDTH)
                    && (tiles[*far] == CoarseTileType::Floor || tiles[*far] == CoarseTileType::Wall)
            });
            assert!(flanked);
        }
    }
    assert!(door_tiles > 0);
}

#[test]
fn picked_doors_are_door_or_floor() {
    let mut as_door = 0;
    let mut as_floor = 0;
    for seed in 0..16u64 {
        let made = generate(seed);
        for d in made.doors.iter() {
            match made.map.tiles[*d] {
                CoarseTileType::Door => as_door += 1,
                CoarseTileType::Floor => as_floor += 1,
                other => panic!("door {} is {:?}", d, other),
            }
            assert!(!covered_by(&made.rooms, *d, WIDTH));
            assert!(!made.corridors.iter().any(|c| c.contains(d)));
        }
        assert!(made.doors.len() <= 4 * made.rooms.len());
    }
    assert!(as_door > 0 && as_floor > 0);
}

#[test]
fn every_kept_corridor_tile_is_reached_from_a_door() {
    let mut kept_tiles = 0;
    for seed in 0..16u64 {
        let made = generate(seed);
        let reached = reached_from_doors(&made);
        assert_eq!(made.kept.len(), made.corridors.len());
        for (walk, kept) in made.corridors.iter().zip(made.kept.iter()) {
            if *kept {
                for t in walk.iter() {
                    assert_eq!(made.map.tiles[*t], CoarseTileType::Floor);
                    assert!(reached[*t]);
                    kept_tiles += 1;
                }
            }
        }
    }
    assert!(kept_tiles > 0);
}

#[test]
fn a_corridor_is_kept_exactly_when_it_touches_a_door() {
    let mut kept_count = 0;
    let mut pruned_count = 0;
    for seed in 0..16u64 {
        let made = generate(seed);
        for (walk, kept) in made.corridors.iter().zip(made.kept.iter()) {
            let touches = walk
                .iter()
                .any(|t| cardinals_of(*t, WIDTH, WIDTH).iter().any(|n| made.doors.contains(n)));
            assert_eq!(*kept, touches);
            if *kept {
                kept_count += 1;
            } else {
                for t in walk.iter() {
                    assert!(
                        made.map.tiles[*t] == CoarseTileType::Dirt
                            || made.map.tiles[*t] == CoarseTileType::Wall
                    );
                }
                if !walk.is_empty() {
                    pruned_count += 1;
                }
            }
        }
    }
    assert!(kept_count > 0 && pruned_count > 0);
}

#[test]
fn every_wall_has_floor_beside_it_and_no_untouched_tile_has() {
    for seed in 0..16u64 {
        let made = generate(seed);
        let tiles = &made.map.tiles;
        let mut walls = 0;
        for t in 0..tiles.len() {
            let beside_floor =
                ring_of(t, WIDTH, WIDTH).iter().any(|n| tiles[*n] == CoarseTileType::Floor);
            match tiles[t] {
                CoarseTileType::Wall => {
                    walls += 1;
                    assert!(beside_floor);
                },
                CoarseTileType::Dirt => assert!(!beside_floor),
                _ => {},
            }
        }
        assert!(walls > 0);
    }
}

#[test]
fn every_floor_tile_is_accounted_for() {
    for seed in 0..16u64 {
        let made = generate(seed);
        for t in 0..made.map.tiles.len() {
            if made.map.tiles[t] == CoarseTileType::Floor {
                let in_kept = made
                    .corridors
                    .iter()
                    .zip(made.kept.iter())
                    .any(|(walk, kept)| *kept && walk.contains(&t));
                assert!(covered_by(&made.rooms, t, WIDTH) || in_kept || made.doors.contains(&t));
            }
        }
    }
}

#[test]
fn carving_reaches_all_the_ground() {
    for seed in 0..4u64 {
        let made = generate(seed);
        let in_structure: Vec<bool> = (0..made.map.tiles.len())
            .map(|t| covered_by(&made.rooms, t, WIDTH) || made.corridors.iter().any(|c| c.contains(&t)))
            .collect();
        for t in 0..in_structure.len() {
            assert!(in_structure[t] || ring_of(t, WIDTH, WIDTH).iter().any(|n| in_structure[*n]));
        }
    }
}

#[test]
fn walls_of_a_cave_are_drawn_by_their_neighbours() {
    let made = generate(5);
    let tiles = &made.map.tiles;
    let mut shapes = Vec::new();
    for t in 0..tiles.len() {
        let entry = tile_atlas(&made.map, t);
        match tiles[t] {
            CoarseTileType::Floor => assert_eq!(entry, CaveAtlasIndices::Floor1_1),
            CoarseTileType::Door => assert_eq!(entry, CaveAtlasIndices::Wall1Gate),
            CoarseTileType::Dirt => assert_eq!(entry, CaveAtlasIndices::Floor2_1),
            CoarseTileType::Wall => {
                let wall = |dx: i64, dy: i64| {
                    let (x, y) = ((t % WIDTH) as i64 + dx, (t / WIDTH) as i64 + dy);
                    x >= 0
                        && y >= 0
                        && x < 64
                        && y < 64
                        && tiles[y as usize * WIDTH + x as usize] == CoarseTileType::Wall
                };
                let sides = [wall(0, -1), wall(1, 0), wall(0, 1), wall(-1, 0)];
                let name = format!("{:?}", entry);
                if sides.iter().any(|s| *s) {
                    assert!(name.starts_with("Wall1"));
                    assert_eq!(name.contains("Top"), sides[0]);
                    assert_eq!(name.contains("Right"), sides[1]);
                    assert_eq!(name.contains("Bottom"), sides[2]);
                    assert_eq!(name.contains("Left"), sides[3]);
                } else {
                    assert_eq!(entry, CaveAtlasIndices::Floor1_1);
                }
                shapes.push(entry);
            },
        }
    }
    assert!(shapes.contains(&CaveAtlasIndices::Wall1RightLeft));
    assert!(shapes.contains(&CaveAtlasIndices::Wall1TopBottom));
}

#[test]
fn grid_without_room_for_a_room_fails() {
    for seed in 0..10u64 {
        let mut rng = RngComponent::with_seed(seed);
        for (x, y) in [(0u32, 0u32), (5, 5), (5, 64), (64, 5), (1, 1000)] {
            match cave(&mut rng, &GridSize { x, y }) {
                Ok(_) => panic!("a cave on {} by {}", x, y),
                Err(e) => assert_eq!(e, GenerationFailed::PlacementExhausted),
            }
        }
    }
}

#[test]
fn grid_with_room_for_one_room_only_fails() {
    for seed in 0..10u64 {
        let mut rng = RngComponent::with_seed(seed);
        match cave(&mut rng, &GridSize { x: 6, y: 6 }) {
            Ok(_) => panic!("eight rooms on six by six"),
            Err(e) => assert_eq!(e, GenerationFailed::PlacementExhausted),
        }
    }
}

#[test]
fn one_small_room_alone_gets_no_door_and_is_walled_in() {
    for seed in 0..10u64 {
        let mut rng = RngComponent::with_seed(seed);
        let mut map = CaveMap::new(GridSize { x: 8, y: 8 });
        let rooms = vec![Room::new(GridPos { x: 1, y: 1 }, GridPos { x: 5, y: 5 })];
        stamp_rooms(&mut map, &rooms);
        let walks = carve_corridors(&mut rng, &mut map);
        assert_eq!(walks, Vec::<Vec<usize>>::new());
        let doors = place_doors(&mut rng, &mut map, &rooms);
        assert_eq!(doors, Vec::<usize>::new());
        let kept = prune_corridors(&mut map, &walks, &doors);
        assert_eq!(kept, Vec::<bool>::new());
        add_walls(&mut map);
        for t in 0..64usize {
            let (x, y) = (t % 8, t / 8);
            let inside = (1..=6).contains(&x) && (1..=6).contains(&y);
            let expected = if inside { CoarseTileType::Floor } else { CoarseTileType::Wall };
            assert_eq!(map.tiles[t], expected);
        }
    }
}

#[test]
fn cave_of_one_room_on_ground_one_tile_wide_has_no_door_and_no_corridor() {
    // On seven by seven no tile lies farther than one from the room,
    // wherever the room is placed.
    let mut made_any = false;
    for seed in 0..40u64 {
        let mut rng = RngComponent::with_seed(seed);
        let made = match cave_with_rooms(&mut rng, &GridSize { x: 7, y: 7 }, 1, 2) {
            Ok(made) => made,
            Err(e) => {
                assert_eq!(e, GenerationFailed::PlacementExhausted);
                continue;
            },
        };
        made_any = true;
        assert_eq!(made.rooms.len(), 1);
        assert_eq!(made.rooms[0].size, GridPos { x: 5, y: 5 });
        assert_eq!(made.doors, Vec::<usize>::new());
        assert_eq!(made.corridors, Vec::<Vec<usize>>::new());
        assert_eq!(made.kept, Vec::<bool>::new());
        for t in 0..49usize {
            let expected = if covered_by(&made.rooms, t, 7) {
                CoarseTileType::Floor
            } else {
                CoarseTileType::Wall
            };
            assert_eq!(made.map.tiles[t], expected);
        }
    }
    assert!(made_any);
}

#[test]
fn cave_without_rooms_is_always_made() {
    for seed in 0..10u64 {
        let mut rng = RngComponent::with_seed(seed);
        for (x, y) in [(0u32, 0u32), (3, 3), (12, 9)] {
            let made = match cave_with_rooms(&mut rng, &GridSize { x, y }, 0, 1) {
                Ok(made) => made,
                Err(e) => panic!("no cave on {} by {}: {:?}", x, y, e),
            };
            assert_eq!(made.rooms, Vec::<Room>::new());
            assert_eq!(made.doors, Vec::<usize>::new());
            // Without a door every corridor is pruned and no floor is left.
            assert!(made.kept.iter().all(|k| !*k));
            assert!(made.map.tiles.iter().all(|t| *t == CoarseTileType::Dirt));
            assert_eq!(made.map.tiles.len(), (x * y) as usize);
        }
    }
}

#[test]
fn room_count_is_drawn_from_the_given_range() {
    let mut counts = Vec::new();
    for seed in 0..30u64 {
        let mut rng = RngComponent::with_seed(seed);
        let made = match cave_with_rooms(&mut rng, &GridSize { x: 64, y: 64 }, 2, 5) {
            Ok(made) => made,
            Err(e) => panic!("seed {} failed: {:?}", seed, e),
        };
        assert!(made.rooms.len() >= 2 && made.rooms.len() < 5);
        counts.push(made.rooms.len());
    }
    for count in 2..5usize {
        assert!(counts.contains(&count));
    }
}

#[test]
fn cave_is_the_cave_of_eight_to_eleven_rooms() {
    for seed in [0u64, 5, 9] {
        let mut first = RngComponent::with_seed(seed);
        let mut second = RngComponent::with_seed(seed);
        let size = GridSize { x: 64, y: 64 };
        let plain = cave(&mut first, &size).unwrap();
        let ranged = cave_with_rooms(&mut second, &size, MIN_ROOMS, MAX_ROOMS).unwrap();
        assert_eq!(plain.map.tiles, ranged.map.tiles);
        assert_eq!(plain.doors, ranged.doors);
        assert_eq!(plain.rooms, ranged.rooms);
    }
}

#[test]
fn every_edge_that_offers_a_door_in_its_turn_gets_one() {
    // Replays the turns on the grid that rooms and corridors left.
    let mut picks = 0;
    for seed in 0..12u64 {
        let made = generate(seed);
        let mut map = CaveMap::new(GridSize { x: 64, y: 64 });
        stamp_rooms(&mut map, &made.rooms);
        for walk in made.corridors.iter() {
            paint(&mut map, walk, CoarseTileType::Floor);
        }
        let mut next = 0;
        for room in made.rooms.iter() {
            for edge in [Edge::Bottom, Edge::Top, Edge::Left, Edge::Right] {
                let offers = door_candidates(&map, room, edge);
                if offers.is_empty() {
                    continue;
                }
                assert!(next < made.doors.len());
                let door = made.doors[next];
                assert!(offers.contains(&door));
                // A tile picked again later may have changed its kind since.
                let last_pick = made.doors.iter().rposition(|d| *d == door).unwrap();
                let kind = if last_pick == next {
                    made.map.tiles[door]
                } else {
                    CoarseTileType::Door
                };
                paint(&mut map, &vec![door], kind);
                next += 1;
                picks += 1;
            }
        }
        assert_eq!(next, made.doors.len());
    }
    assert!(picks > 0);
}

#[test]
fn one_small_room_on_wide_ground_keeps_only_walks_that_touch_a_door() {
    for seed in 0..10u64 {
        let mut rng = RngComponent::with_seed(seed);
        let mut map = CaveMap::new(GridSize { x: 40, y: 40 });
        let rooms = vec![Room::new(GridPos { x: 17, y: 17 }, GridPos { x: 5, y: 5 })];
        stamp_rooms(&mut map, &rooms);
        let walks = carve_corridors(&mut rng, &mut map);
        let doors = place_doors(&mut rng, &mut map, &rooms);
        let kept = prune_corridors(&mut map, &walks, &doors);
        add_walls(&mut map);
        // A corridor keeps a tile apart from the room, so a door needs it
        // exactly two tiles from an edge.
        for (walk, keep) in walks.iter().zip(kept.iter()) {
            let touches = walk
                .iter()
                .any(|t| cardinals_of(*t, 40, 40).iter().any(|n| doors.contains(n)));
            assert_eq!(*keep, touches);
        }
        for t in 0..1600usize {
            let (x, y) = (t % 40, t / 40);
            let inside = (17..=22).contains(&x) && (17..=22).contains(&y);
            if inside {
                assert_eq!(map.tiles[t], CoarseTileType::Floor);
            }
            if doors.is_empty() && !inside {
                let ring = (16..=23).contains(&x) && (16..=23).contains(&y);
                let expected = if ring { CoarseTileType::Wall } else { CoarseTileType::Dirt };
                assert_eq!(map.tiles[t], expected);
            }
        }
    }
}
