use bevy_turborand::RngComponent;
use cavegen::doors::commit_door;
use cavegen::doors::door_candidates;
use cavegen::doors::generate_doors;
use cavegen::doors::place_doors;
use cavegen::doors::Edge;
use cavegen::grid::paint;
use cavegen::grid::CaveMap;
use cavegen::grid::GridPos;
use cavegen::grid::GridSize;
use cavegen::grid::GridVec;
use cavegen::rooms::stamp_room;
use cavegen::rooms::Room;
use cavegen::tiles::CoarseTileType;

/// A room at (6, 6) with extent (5, 5) on a grid of 20 by 20: its floor
/// takes the columns and rows 6 to 11.
fn lone_room() -> (CaveMap, Room) {
    let mut map = CaveMap::new(GridSize { x: 20, y: 20 });
    let room = Room::new(GridPos { x: 6, y: 6 }, GridPos { x: 5, y: 5 });
    stamp_room(&mut map, &room);
    (map, room)
}

fn at(x: usize, y: usize) -> usize {
    y * 20 + x
}

#[test]
fn edge_steps_point_out_of_the_room() {
    assert_eq!(Edge::Bottom.out(1), GridVec { x: 0, y: -1 });
    assert_eq!(Edge::Bottom.out(2), GridVec { x: 0, y: -2 });
    assert_eq!(Edge::Top.out(1), GridVec { x: 0, y: 1 });
    assert_eq!(Edge::Top.out(2), GridVec { x: 0, y: 2 });
    assert_eq!(Edge::Left.out(1), GridVec { x: -1, y: 0 });
    assert_eq!(Edge::Left.out(2), GridVec { x: -2, y: 0 });
    assert_eq!(Edge::Right.out(1), GridVec { x: 1, y: 0 });
    assert_eq!(Edge::Right.out(2), GridVec { x: 2, y: 0 });
}

#[test]
fn lone_room_offers_no_door() {
    let (map, room) = lone_room();
    for edge in [Edge::Bottom, Edge::Top, Edge::Left, Edge::Right] {
        assert_eq!(door_candidates(&map, &room, edge), Vec::<usize>::new());
    }
}

#[test]
fn floor_two_steps_out_makes_the_tile_between_a_candidate() {
    let (mut map, room) = lone_room();
    // Two steps below the bottom edge, under the columns 7 and 9.
    paint(&mut map, &vec![at(7, 4), at(9, 4)], CoarseTileType::Floor);
    assert_eq!(door_candidates(&map, &room, Edge::Bottom), vec![at(7, 5), at(9, 5)]);
    assert_eq!(door_candidates(&map, &room, Edge::Top), Vec::<usize>::new());
    assert_eq!(door_candidates(&map, &room, Edge::Left), Vec::<usize>::new());
    assert_eq!(door_candidates(&map, &room, Edge::Right), Vec::<usize>::new());
}

#[test]
fn each_edge_looks_its_own_way() {
    let (mut map, room) = lone_room();
    paint(&mut map, &vec![at(8, 13)], CoarseTileType::Floor);
    paint(&mut map, &vec![at(4, 8)], CoarseTileType::Floor);
    paint(&mut map, &vec![at(13, 10)], CoarseTileType::Wall);
    assert_eq!(door_candidates(&map, &room, Edge::Top), vec![at(8, 12)]);
    assert_eq!(door_candidates(&map, &room, Edge::Left), vec![at(5, 8)]);
    assert_eq!(door_candidates(&map, &room, Edge::Right), vec![at(12, 10)]);
    assert_eq!(door_candidates(&map, &room, Edge::Bottom), Vec::<usize>::new());
}

#[test]
fn the_far_corner_of_an_edge_is_not_scanned() {
    let (mut map, room) = lone_room();
    // Column 11 and row 11 are stamped but lie past the scanned part.
    paint(&mut map, &vec![at(11, 4), at(11, 13), at(4, 11), at(13, 11)], CoarseTileType::Floor);
    for edge in [Edge::Bottom, Edge::Top, Edge::Left, Edge::Right] {
        assert_eq!(door_candidates(&map, &room, edge), Vec::<usize>::new());
    }
    paint(&mut map, &vec![at(10, 4), at(10, 13), at(4, 10), at(13, 10)], CoarseTileType::Floor);
    assert_eq!(door_candidates(&map, &room, Edge::Bottom), vec![at(10, 5)]);
    assert_eq!(door_candidates(&map, &room, Edge::Top), vec![at(10, 12)]);
    assert_eq!(door_candidates(&map, &room, Edge::Left), vec![at(5, 10)]);
    assert_eq!(door_candidates(&map, &room, Edge::Right), vec![at(12, 10)]);
}

#[test]
fn a_tile_that_is_floor_or_wall_is_no_candidate() {
    let (mut map, room) = lone_room();
    paint(&mut map, &vec![at(7, 4), at(8, 4), at(9, 4)], CoarseTileType::Floor);
    paint(&mut map, &vec![at(7, 5)], CoarseTileType::Floor);
    paint(&mut map, &vec![at(8, 5)], CoarseTileType::Wall);
    assert_eq!(door_candidates(&map, &room, Edge::Bottom), vec![at(9, 5)]);
}

#[test]
fn a_door_stays_a_candidate() {
    let (mut map, room) = lone_room();
    paint(&mut map, &vec![at(7, 4)], CoarseTileType::Floor);
    paint(&mut map, &vec![at(7, 5)], CoarseTileType::Door);
    assert_eq!(door_candidates(&map, &room, Edge::Bottom), vec![at(7, 5)]);
}

#[test]
fn a_door_two_steps_out_confirms_nothing() {
    let (mut map, room) = lone_room();
    paint(&mut map, &vec![at(7, 4)], CoarseTileType::Door);
    assert_eq!(door_candidates(&map, &room, Edge::Bottom), Vec::<usize>::new());
}

#[test]
fn a_room_at_the_border_finds_nothing_off_the_grid() {
    let mut map = CaveMap::new(GridSize { x: 8, y: 8 });
    let room = Room::new(GridPos { x: 1, y: 1 }, GridPos { x: 5, y: 5 });
    stamp_room(&mut map, &room);
    for edge in [Edge::Bottom, Edge::Top, Edge::Left, Edge::Right] {
        assert_eq!(door_candidates(&map, &room, edge), Vec::<usize>::new());
    }
    let mut corner = CaveMap::new(GridSize { x: 6, y: 6 });
    let whole = Room::new(GridPos { x: 0, y: 0 }, GridPos { x: 5, y: 5 });
    stamp_room(&mut corner, &whole);
    for edge in [Edge::Bottom, Edge::Top, Edge::Left, Edge::Right] {
        assert_eq!(door_candidates(&corner, &whole, edge), Vec::<usize>::new());
    }
}

#[test]
fn the_right_edge_does_not_look_into_the_next_row() {
    // The room's floor ends at column 7 of 9; two steps right of it is off
    // the grid, whatever the next row holds at its start.
    let mut map = CaveMap::new(GridSize { x: 9, y: 9 });
    let room = Room::new(GridPos { x: 2, y: 1 }, GridPos { x: 5, y: 5 });
    stamp_room(&mut map, &room);
    let next_row_starts: Vec<usize> = (2..8usize).map(|y| y * 9).collect();
    paint(&mut map, &next_row_starts, CoarseTileType::Floor);
    assert_eq!(door_candidates(&map, &room, Edge::Right), Vec::<usize>::new());
}

#[test]
fn coin_of_five_or_more_makes_a_door() {
    for coin in 5..10u32 {
        let (mut map, _) = lone_room();
        let group = vec![at(7, 5), at(9, 5)];
        assert_eq!(commit_door(&mut map, &group, 1, coin), at(9, 5));
        assert_eq!(map.tiles[at(9, 5)], CoarseTileType::Door);
        assert_eq!(map.tiles[at(7, 5)], CoarseTileType::Dirt);
    }
}

#[test]
fn coin_below_five_makes_floor() {
    for coin in 0..5u32 {
        let (mut map, _) = lone_room();
        let group = vec![at(7, 5), at(9, 5)];
        assert_eq!(commit_door(&mut map, &group, 0, coin), at(7, 5));
        assert_eq!(map.tiles[at(7, 5)], CoarseTileType::Floor);
        assert_eq!(map.tiles[at(9, 5)], CoarseTileType::Dirt);
    }
}

#[test]
fn committing_changes_one_tile() {
    let (mut map, _) = lone_room();
    let before = map.tiles.clone();
    commit_door(&mut map, &vec![at(3, 3)], 0, 9);
    let changed: Vec<usize> = (0..before.len()).filter(|i| before[*i] != map.tiles[*i]).collect();
    assert_eq!(changed, vec![at(3, 3)]);
}

#[test]
fn edge_without_candidates_yields_no_door_and_draws_nothing() {
    let (mut map, room) = lone_room();
    let before = map.tiles.clone();
    let mut rng = RngComponent::with_seed(8);
    let untouched = RngComponent::with_seed(8);
    for edge in [Edge::Bottom, Edge::Top, Edge::Left, Edge::Right] {
        assert_eq!(generate_doors(&mut rng, &mut map, &room, edge), None);
    }
    assert_eq!(map.tiles, before);
    assert_eq!(rng, untouched);
}

#[test]
fn edge_with_candidates_yields_one_of_them() {
    for seed in 0..30u64 {
        let (mut map, room) = lone_room();
        paint(&mut map, &vec![at(7, 4), at(8, 4), at(9, 4)], CoarseTileType::Floor);
        let before = map.tiles.clone();
        let mut rng = RngComponent::with_seed(seed);
        let door = generate_doors(&mut rng, &mut map, &room, Edge::Bottom).unwrap();
        assert!([at(7, 5), at(8, 5), at(9, 5)].contains(&door));
        assert!(map.tiles[door] == CoarseTileType::Door || map.tiles[door] == CoarseTileType::Floor);
        let changed: Vec<usize> =
            (0..before.len()).filter(|i| before[*i] != map.tiles[*i]).collect();
        assert_eq!(changed, vec![door]);
    }
}

#[test]
fn pick_and_coin_are_drawn() {
    // A stream that handed back a bound of its range would always pick the
    // same candidate and the same kind.
    let mut picks = Vec::new();
    let mut kinds = Vec::new();
    for seed in 0..40u64 {
        let (mut map, room) = lone_room();
        paint(&mut map, &vec![at(7, 4), at(8, 4), at(9, 4)], CoarseTileType::Floor);
        let mut rng = RngComponent::with_seed(seed);
        let door = generate_doors(&mut rng, &mut map, &room, Edge::Bottom).unwrap();
        picks.push(door);
        kinds.push(map.tiles[door]);
    }
    for candidate in [at(7, 5), at(8, 5), at(9, 5)] {
        assert!(picks.contains(&candidate));
    }
    assert!(kinds.contains(&CoarseTileType::Door));
    assert!(kinds.contains(&CoarseTileType::Floor));
}

#[test]
fn no_offer_means_no_doors_at_all() {
    let (mut map, room) = lone_room();
    let before = map.tiles.clone();
    let mut rng = RngComponent::with_seed(4);
    assert_eq!(place_doors(&mut rng, &mut map, &vec![room]), Vec::<usize>::new());
    assert_eq!(map.tiles, before);
}

#[test]
fn an_offer_means_a_door_is_picked() {
    for seed in 0..10u64 {
        let (mut map, room) = lone_room();
        paint(&mut map, &vec![at(13, 8)], CoarseTileType::Floor);
        let mut rng = RngComponent::with_seed(seed);
        assert_eq!(place_doors(&mut rng, &mut map, &vec![room]), vec![at(12, 8)]);
        assert!(
            map.tiles[at(12, 8)] == CoarseTileType::Door
                || map.tiles[at(12, 8)] == CoarseTileType::Floor
        );
    }
}

#[test]
fn edges_are_scanned_bottom_top_left_right() {
    let (mut map, room) = lone_room();
    paint(
        &mut map,
        &vec![at(8, 4), at(8, 13), at(4, 8), at(13, 8)],
        CoarseTileType::Floor,
    );
    let mut rng = RngComponent::with_seed(21);
    let doors = place_doors(&mut rng, &mut map, &vec![room]);
    assert_eq!(doors, vec![at(8, 5), at(8, 12), at(5, 8), at(12, 8)]);
}

#[test]
fn two_rooms_two_tiles_apart_get_a_door_between_them() {
    for seed in 0..10u64 {
        let mut map = CaveMap::new(GridSize { x: 20, y: 8 });
        let left = Room::new(GridPos { x: 0, y: 0 }, GridPos { x: 5, y: 5 });
        let right = Room::new(GridPos { x: 7, y: 0 }, GridPos { x: 5, y: 5 });
        stamp_room(&mut map, &left);
        stamp_room(&mut map, &right);
        let mut rng = RngComponent::with_seed(seed);
        let doors = place_doors(&mut rng, &mut map, &vec![left, right]);
        assert!(!doors.is_empty());
        assert!(doors.len() <= 2);
        for door in doors.iter() {
            assert_eq!(door % 20, 6);
            assert!(door / 20 < 5);
            assert!(map.tiles[door - 1] == CoarseTileType::Floor);
            assert!(map.tiles[door + 1] == CoarseTileType::Floor);
        }
    }
}
