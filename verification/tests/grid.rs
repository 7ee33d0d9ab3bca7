use cavegen::grid::adjecent_idxs;
use cavegen::grid::get_tile_at_pos;
use cavegen::grid::is_adjecent_to_room;
use cavegen::grid::is_neighbourless_idx;
use cavegen::grid::neighbourless_idxs;
use cavegen::grid::paint;
use cavegen::grid::surrounding_idxs;
use cavegen::grid::surrounding_tiles;
use cavegen::grid::CaveMap;
use cavegen::grid::GridSize;
use cavegen::grid::GridVec;
use cavegen::tiles::is_floor;
use cavegen::tiles::is_room;
use cavegen::tiles::CoarseTileType;

fn grid(x: u32, y: u32) -> CaveMap {
    CaveMap::new(GridSize { x, y })
}

#[test]
fn new_grid_is_all_dirt() {
    let map = grid(7, 3);
    assert_eq!(map.size(), GridSize { x: 7, y: 3 });
    assert_eq!(map.tiles.len(), 21);
    assert!(map.tiles.iter().all(|t| *t == CoarseTileType::Dirt));
}

#[test]
fn empty_grid_has_no_tiles() {
    let map = grid(0, 9);
    assert_eq!(map.tiles.len(), 0);
    assert_eq!(map.index_of(GridVec { x: 0, y: 0 }), None);
    assert_eq!(neighbourless_idxs(&map), Vec::<usize>::new());
}

#[test]
fn index_is_row_times_width_plus_column() {
    let map = grid(10, 4);
    assert_eq!(map.index_of(GridVec { x: 3, y: 2 }), Some(23));
    assert_eq!(map.index_at(3, 2), 23);
    assert_eq!(map.index_of(GridVec { x: 0, y: 0 }), Some(0));
    assert_eq!(map.index_of(GridVec { x: 9, y: 3 }), Some(39));
}

#[test]
fn index_and_position_are_inverse() {
    let map = grid(10, 4);
    for idx in 0..40usize {
        let pos = map.idx_to_vec2(idx);
        assert_eq!(pos.x, (idx % 10) as i64);
        assert_eq!(pos.y, (idx / 10) as i64);
        assert_eq!(map.index_of(pos), Some(idx));
    }
    assert_eq!(map.idx_to_vec2(23), GridVec { x: 3, y: 2 });
}

#[test]
fn column_and_row_need_no_tile_at_the_index() {
    let map = grid(10, 4);
    assert_eq!(map.idx_to_vec2(40), GridVec { x: 0, y: 4 });
    assert_eq!(map.idx_to_vec2(16777215), GridVec { x: 5, y: 1677721 });
    let narrow = grid(1, 3);
    assert_eq!(narrow.idx_to_vec2(7), GridVec { x: 0, y: 7 });
    let flat = grid(3, 0);
    assert_eq!(flat.idx_to_vec2(8), GridVec { x: 2, y: 2 });
}

#[test]
fn index_of_rejects_negative_coordinates() {
    let map = grid(10, 4);
    assert_eq!(map.index_of(GridVec { x: -1, y: 2 }), None);
    assert_eq!(map.index_of(GridVec { x: 3, y: -1 }), None);
    assert_eq!(map.index_of(GridVec { x: -1, y: -1 }), None);
    assert_eq!(map.index_of(GridVec { x: i64::MIN, y: i64::MIN }), None);
}

#[test]
fn index_of_rejects_index_past_the_end() {
    let map = grid(10, 4);
    assert_eq!(map.index_of(GridVec { x: 0, y: 4 }), None);
    assert_eq!(map.index_of(GridVec { x: 10, y: 3 }), None);
    assert_eq!(map.index_of(GridVec { x: 40, y: 0 }), None);
    assert_eq!(map.index_of(GridVec { x: i64::MAX, y: i64::MAX }), None);
}

#[test]
fn index_of_counts_on_past_the_last_column() {
    let map = grid(10, 4);
    assert_eq!(map.index_of(GridVec { x: 10, y: 0 }), Some(10));
    assert_eq!(map.index_of(GridVec { x: 39, y: 0 }), Some(39));
}

#[test]
fn tile_at_pos_reads_the_tile() {
    let mut map = grid(4, 4);
    paint(&mut map, &vec![6], CoarseTileType::Door);
    assert_eq!(map.tile_at_pos(GridVec { x: 2, y: 1 }), Some(&CoarseTileType::Door));
    assert_eq!(map.tile_at_pos(GridVec { x: 1, y: 2 }), Some(&CoarseTileType::Dirt));
    assert_eq!(map.tile_at_pos(GridVec { x: -1, y: 0 }), None);
    assert_eq!(map.tile_at_pos(GridVec { x: 0, y: 4 }), None);
    assert_eq!(get_tile_at_pos(&map, GridVec { x: 2, y: 1 }), Some(&CoarseTileType::Door));
    assert_eq!(get_tile_at_pos(&map, GridVec { x: 0, y: -3 }), None);
}

#[test]
fn neighbour_steps_and_stops_at_the_border() {
    let map = grid(3, 3);
    assert_eq!(map.neighbour(4, GridVec { x: 1, y: 1 }), Some(8));
    assert_eq!(map.neighbour(4, GridVec { x: -1, y: 0 }), Some(3));
    assert_eq!(map.neighbour(4, GridVec { x: 2, y: 0 }), None);
    assert_eq!(map.neighbour(2, GridVec { x: 1, y: 0 }), None);
    assert_eq!(map.neighbour(3, GridVec { x: -1, y: 0 }), None);
    assert_eq!(map.neighbour(0, GridVec { x: 2, y: 2 }), Some(8));
}

#[test]
fn ring_is_ordered_from_the_north_west() {
    let map = grid(3, 3);
    assert_eq!(surrounding_idxs(&map, 4), vec![0, 1, 2, 3, 5, 6, 7, 8]);
}

#[test]
fn ring_leaves_out_places_off_the_grid() {
    let map = grid(3, 3);
    assert_eq!(surrounding_idxs(&map, 0), vec![1, 3, 4]);
    assert_eq!(surrounding_idxs(&map, 2), vec![1, 4, 5]);
    assert_eq!(surrounding_idxs(&map, 5), vec![1, 2, 4, 7, 8]);
    assert_eq!(surrounding_idxs(&map, 8), vec![4, 5, 7]);
}

#[test]
fn ring_does_not_wrap_around_the_rows() {
    let map = grid(4, 3);
    // The tile at the end of a row and the tile at the start of the next
    // are neighbours in the flat order, not on the grid.
    assert!(!surrounding_idxs(&map, 3).contains(&4));
    assert!(!surrounding_idxs(&map, 4).contains(&3));
    assert!(!adjecent_idxs(&map, 3).contains(&4));
    assert!(!adjecent_idxs(&map, 4).contains(&3));
}

#[test]
fn cardinals_are_ordered_north_west_east_south() {
    let map = grid(3, 3);
    assert_eq!(adjecent_idxs(&map, 4), vec![1, 3, 5, 7]);
    assert_eq!(adjecent_idxs(&map, 0), vec![1, 3]);
    assert_eq!(adjecent_idxs(&map, 8), vec![5, 7]);
    assert_eq!(adjecent_idxs(&map, 1), vec![0, 2, 4]);
}

#[test]
fn surrounding_tiles_has_eight_entries_in_fixed_order() {
    let mut map = grid(3, 3);
    paint(&mut map, &vec![1], CoarseTileType::Wall);
    paint(&mut map, &vec![3], CoarseTileType::Floor);
    paint(&mut map, &vec![8], CoarseTileType::Door);
    let ring = surrounding_tiles(&map, 4);
    assert_eq!(
        ring,
        vec![
            Some(&CoarseTileType::Dirt),
            Some(&CoarseTileType::Wall),
            Some(&CoarseTileType::Dirt),
            Some(&CoarseTileType::Floor),
            Some(&CoarseTileType::Dirt),
            Some(&CoarseTileType::Dirt),
            Some(&CoarseTileType::Dirt),
            Some(&CoarseTileType::Door),
        ]
    );
    let corner = surrounding_tiles(&map, 0);
    assert_eq!(
        corner,
        vec![
            None,
            None,
            None,
            None,
            Some(&CoarseTileType::Wall),
            None,
            Some(&CoarseTileType::Floor),
            Some(&CoarseTileType::Dirt),
        ]
    );
}

#[test]
fn floor_and_wall_are_room_like() {
    assert!(is_room(&CoarseTileType::Floor));
    assert!(is_room(&CoarseTileType::Wall));
    assert!(!is_room(&CoarseTileType::Door));
    assert!(!is_room(&CoarseTileType::Dirt));
    assert!(is_floor(&CoarseTileType::Floor));
    assert!(!is_floor(&CoarseTileType::Wall));
    assert!(!is_floor(&CoarseTileType::Door));
    assert!(!is_floor(&CoarseTileType::Dirt));
}

#[test]
fn adjacency_to_room_looks_at_all_eight() {
    let mut map = grid(5, 5);
    paint(&mut map, &vec![0], CoarseTileType::Floor);
    assert!(is_adjecent_to_room(&map, 6));
    assert!(is_adjecent_to_room(&map, 1));
    assert!(is_adjecent_to_room(&map, 5));
    assert!(!is_adjecent_to_room(&map, 0));
    assert!(!is_adjecent_to_room(&map, 2));
    assert!(!is_adjecent_to_room(&map, 12));
    assert!(!is_neighbourless_idx(&map, 6));
    assert!(is_neighbourless_idx(&map, 12));
}

#[test]
fn a_door_is_not_room_like_for_adjacency() {
    let mut map = grid(3, 3);
    paint(&mut map, &vec![0], CoarseTileType::Door);
    assert!(!is_adjecent_to_room(&map, 4));
    paint(&mut map, &vec![8], CoarseTileType::Wall);
    assert!(is_adjecent_to_room(&map, 4));
}

#[test]
fn corridor_starts_are_the_isolated_tiles_in_order() {
    let mut map = grid(5, 5);
    paint(&mut map, &vec![0], CoarseTileType::Floor);
    let starts = neighbourless_idxs(&map);
    let expected: Vec<usize> = (0..25usize).filter(|i| ![0, 1, 5, 6].contains(i)).collect();
    assert_eq!(starts, expected);
}

#[test]
fn paint_changes_only_the_listed_tiles() {
    let mut map = grid(4, 2);
    paint(&mut map, &vec![1, 6, 1], CoarseTileType::Floor);
    let floor: Vec<usize> = (0..8usize).filter(|i| map.tiles[*i] == CoarseTileType::Floor).collect();
    assert_eq!(floor, vec![1, 6]);
    let dirt = map.tiles.iter().filter(|t| **t == CoarseTileType::Dirt).count();
    assert_eq!(dirt, 6);
}
