use roguelike_mapgen::map::{Grid, Position, TileType};
use roguelike_mapgen::map_builders::common::{
    clear_marks, desired_floor_tiles, stagger,
};
use roguelike_mapgen::map_builders::{
    apply_horizontal_tunnel, apply_room_to_map, apply_vertical_tunnel, clone_history,
    find_starting_floor, finish_level, generate_voronoi_spawn_regions, record_snapshot,
    remove_unreachable_areas_returning_most_distant, snapshot_of, SHOW_MAPGEN_VISUALIZER,
};
use roguelike_mapgen::pathing::flood_distances;
use roguelike_mapgen::rect::Rect;

fn floor_indices(map: &Grid) -> Vec<usize> {
    (0..map.tiles.len()).filter(|i| map.tiles[*i] == TileType::Floor).collect()
}

#[test]
fn room_carves_the_inside_of_its_box() {
    let mut map = Grid::with_size(8, 6, 1);
    apply_room_to_map(&mut map, &Rect::new(1, 1, 4, 3));
    assert_eq!(floor_indices(&map), vec![18, 19, 20, 26, 27, 28]);
    assert_eq!(map.count_tiles(TileType::Wall), 42);
}

#[test]
fn room_without_inside_carves_nothing() {
    let mut map = Grid::with_size(8, 6, 1);
    apply_room_to_map(&mut map, &Rect::new(2, 2, 1, 5));
    apply_room_to_map(&mut map, &Rect::new(2, 2, 0, 0));
    apply_room_to_map(&mut map, &Rect::new(50, 50, 1, 1));
    apply_room_to_map(&mut map, &Rect { x1: 5, x2: 1, y1: 4, y2: 0 });
    assert_eq!(map.count_tiles(TileType::Floor), 0);
}

#[test]
fn horizontal_tunnel_in_either_order() {
    let mut map = Grid::with_size(6, 3, 1);
    apply_horizontal_tunnel(&mut map, 4, 1, 1);
    assert_eq!(floor_indices(&map), vec![7, 8, 9, 10]);
    let mut other = Grid::with_size(6, 3, 1);
    apply_horizontal_tunnel(&mut other, 1, 4, 1);
    assert!(other.tiles == map.tiles);
}

#[test]
fn horizontal_tunnel_stays_on_the_map() {
    let mut map = Grid::with_size(6, 3, 1);
    apply_horizontal_tunnel(&mut map, -5, 50, 0);
    assert_eq!(floor_indices(&map), vec![1, 2, 3, 4, 5]);
    apply_horizontal_tunnel(&mut map, 0, 5, 3);
    apply_horizontal_tunnel(&mut map, 0, 5, -1);
    apply_horizontal_tunnel(&mut map, 6, 9, 1);
    apply_horizontal_tunnel(&mut map, -9, -1, 1);
    assert_eq!(floor_indices(&map), vec![1, 2, 3, 4, 5]);
}

#[test]
fn vertical_tunnel_in_either_order() {
    let mut map = Grid::with_size(4, 5, 1);
    apply_vertical_tunnel(&mut map, 3, 1, 2);
    assert_eq!(floor_indices(&map), vec![6, 10, 14]);
    let mut other = Grid::with_size(4, 5, 1);
    apply_vertical_tunnel(&mut other, 1, 3, 2);
    assert!(other.tiles == map.tiles);
}

#[test]
fn vertical_tunnel_stays_on_the_map() {
    let mut map = Grid::with_size(4, 5, 1);
    apply_vertical_tunnel(&mut map, -3, 40, 0);
    assert_eq!(floor_indices(&map), vec![4, 8, 12, 16]);
    apply_vertical_tunnel(&mut map, 0, 4, 4);
    apply_vertical_tunnel(&mut map, 0, 4, -1);
    apply_vertical_tunnel(&mut map, 5, 8, 1);
    assert_eq!(floor_indices(&map), vec![4, 8, 12, 16]);
}

#[test]
fn pruning_walls_up_what_cannot_be_walked_to() {
    let mut map = Grid::with_size(7, 3, 1);
    for x in [1, 2, 3, 5] {
        let idx = map.xy_idx(x, 1);
        map.set_tile(idx, TileType::Floor);
    }
    let start = map.xy_idx(1, 1);
    let exit = remove_unreachable_areas_returning_most_distant(&mut map, start);
    assert_eq!(exit, 10);
    assert_eq!(floor_indices(&map), vec![8, 9]);
    assert_eq!(map.tiles[10], TileType::DownStairs);
    assert_eq!(map.tiles[12], TileType::Wall);
    assert_eq!(map.count_tiles(TileType::DownStairs), 1);
    for i in 0..21 {
        assert_eq!(map.blocked[i], !(i == 8 || i == 9 || i == 10 || i == 12));
    }
}

#[test]
fn pruning_finds_the_tile_furthest_out() {
    let mut map = Grid::with_size(6, 6, 1);
    apply_room_to_map(&mut map, &Rect::new(0, 0, 5, 5));
    let start = map.xy_idx(1, 1);
    let exit = remove_unreachable_areas_returning_most_distant(&mut map, start);
    assert_eq!(exit, map.xy_idx(4, 4));
    let dist = flood_distances(&map, start);
    assert_eq!(dist[exit], 435);
    assert_eq!(map.tiles[exit], TileType::DownStairs);
    assert_eq!(map.count_tiles(TileType::Floor), 15);
    assert_eq!(map.count_tiles(TileType::DownStairs), 1);
}

#[test]
fn pruning_takes_the_first_of_equals() {
    let mut map = Grid::with_size(5, 3, 1);
    apply_horizontal_tunnel(&mut map, 1, 3, 1);
    let start = map.xy_idx(2, 1);
    let exit = remove_unreachable_areas_returning_most_distant(&mut map, start);
    assert_eq!(exit, map.xy_idx(1, 1));
    assert_eq!(map.tiles[exit], TileType::DownStairs);
    assert_eq!(floor_indices(&map), vec![map.xy_idx(2, 1), map.xy_idx(3, 1)]);
}

#[test]
fn pruning_a_lonely_start_gives_the_start() {
    let mut map = Grid::with_size(5, 5, 1);
    let start = map.xy_idx(2, 2);
    map.set_tile(start, TileType::Floor);
    let far = map.xy_idx(4, 4);
    map.set_tile(far, TileType::Floor);
    let exit = remove_unreachable_areas_returning_most_distant(&mut map, start);
    assert_eq!(exit, start);
    assert_eq!(floor_indices(&map), Vec::<usize>::new());
    assert_eq!(map.tiles[start], TileType::DownStairs);
    assert_eq!(map.tiles[far], TileType::Wall);
    assert_eq!(map.count_tiles(TileType::DownStairs), 1);
}

#[test]
fn pruning_a_level_with_a_far_tile() {
    let mut map = Grid::new(1);
    for i in [810usize, 811, 812, 1640] {
        map.set_tile(i, TileType::Floor);
    }
    let exit = remove_unreachable_areas_returning_most_distant(&mut map, 810);
    assert_eq!(exit, 812);
    for i in 0..map.tiles.len() {
        let expected = match i {
            810 | 811 => TileType::Floor,
            812 => TileType::DownStairs,
            _ => TileType::Wall,
        };
        assert_eq!(map.tiles[i], expected);
    }
}

#[test]
fn pruning_leaves_earlier_stairs_alone() {
    let mut map = Grid::with_size(5, 1, 1);
    map.set_tile(0, TileType::Floor);
    map.set_tile(1, TileType::DownStairs);
    map.set_tile(2, TileType::Floor);
    map.set_tile(4, TileType::DownStairs);
    let exit = remove_unreachable_areas_returning_most_distant(&mut map, 0);
    assert_eq!(exit, 2);
    assert_eq!(
        map.tiles,
        vec![
            TileType::Floor,
            TileType::DownStairs,
            TileType::DownStairs,
            TileType::Wall,
            TileType::DownStairs
        ]
    );
}

#[test]
fn regions_gather_floor_tiles_by_value() {
    let mut map = Grid::with_size(4, 2, 1);
    for i in [0usize, 1, 2, 5, 6, 7] {
        map.set_tile(i, TileType::Floor);
    }
    let values = vec![7, -2, 7, 99, 99, 7, -2, 7];
    let regions = generate_voronoi_spawn_regions(&map, &values);
    assert_eq!(regions.len(), 2);
    assert_eq!(regions[&7], vec![0, 2, 5, 7]);
    assert_eq!(regions[&-2], vec![1, 6]);
    assert!(!regions.contains_key(&99));
}

#[test]
fn regions_hold_every_floor_tile_once() {
    let mut map = Grid::new(1);
    apply_room_to_map(&mut map, &Rect::new(3, 3, 30, 20));
    apply_horizontal_tunnel(&mut map, 0, 79, 30);
    let values: Vec<i32> = (0..map.tiles.len()).map(|i| ((i * 31 + i / 7) % 13) as i32 - 6).collect();
    let regions = generate_voronoi_spawn_regions(&map, &values);
    let mut seen = vec![0; map.tiles.len()];
    for (id, tiles) in regions.iter() {
        assert!(!tiles.is_empty());
        for pair in tiles.windows(2) {
            assert!(pair[0] < pair[1]);
        }
        for idx in tiles.iter() {
            assert_eq!(values[*idx], *id);
            seen[*idx] += 1;
        }
    }
    for i in 0..map.tiles.len() {
        assert_eq!(seen[i], if map.tiles[i] == TileType::Floor { 1 } else { 0 });
    }
}

#[test]
fn regions_of_solid_rock() {
    let map = Grid::with_size(3, 3, 1);
    let regions = generate_voronoi_spawn_regions(&map, &vec![1; 9]);
    assert!(regions.is_empty());
}

#[test]
fn stagger_steps_or_stays() {
    assert_eq!(stagger(80, 43, 10, 10, 1), (9, 10));
    assert_eq!(stagger(80, 43, 10, 10, 2), (11, 10));
    assert_eq!(stagger(80, 43, 10, 10, 3), (10, 9));
    assert_eq!(stagger(80, 43, 10, 10, 4), (10, 11));
    assert_eq!(stagger(80, 43, 2, 10, 1), (2, 10));
    assert_eq!(stagger(80, 43, 3, 10, 1), (2, 10));
    assert_eq!(stagger(80, 43, 78, 10, 2), (78, 10));
    assert_eq!(stagger(80, 43, 77, 10, 2), (78, 10));
    assert_eq!(stagger(80, 43, 10, 2, 3), (10, 2));
    assert_eq!(stagger(80, 43, 10, 41, 4), (10, 41));
    assert_eq!(stagger(80, 43, 10, 40, 4), (10, 41));
    assert_eq!(stagger(80, 43, 10, 10, 0), (10, 11));
    assert_eq!(stagger(80, 43, 10, 10, 9), (10, 11));
}

#[test]
fn floor_target_is_a_share_of_the_level() {
    assert_eq!(desired_floor_tiles(3440, 50), 1720);
    assert_eq!(desired_floor_tiles(3440, 40), 1376);
    assert_eq!(desired_floor_tiles(3440, 25), 860);
    assert_eq!(desired_floor_tiles(3440, 0), 0);
    assert_eq!(desired_floor_tiles(3440, -20), 0);
    assert_eq!(desired_floor_tiles(0, 50), 0);
    assert_eq!(desired_floor_tiles(7, 50), 3);
    assert_eq!(desired_floor_tiles(3440, 100), 3440);
    assert_eq!(desired_floor_tiles(i32::MAX, i32::MAX), 46116860141324206);
}

#[test]
fn clear_marks_turns_stairs_to_floor() {
    let mut map = Grid::with_size(4, 1, 1);
    map.set_tile(1, TileType::DownStairs);
    map.set_tile(2, TileType::Floor);
    map.set_tile(3, TileType::DownStairs);
    clear_marks(&mut map);
    assert_eq!(
        map.tiles,
        vec![TileType::Wall, TileType::Floor, TileType::Floor, TileType::Floor]
    );
}

#[test]
fn snapshot_shows_everything() {
    let mut map = Grid::with_size(3, 2, 5);
    map.set_tile(4, TileType::Floor);
    map.revealed_tiles[0] = true;
    map.visible_tiles[1] = true;
    let copy = snapshot_of(&map);
    assert!(copy.tiles == map.tiles);
    assert!(copy.revealed_tiles.iter().all(|b| *b));
    assert_eq!(copy.visible_tiles, map.visible_tiles);
    assert_eq!(copy.depth, 5);
    assert_eq!(map.revealed_tiles, vec![true, false, false, false, false, false]);
}

#[test]
fn record_snapshot_adds_to_the_history() {
    assert!(SHOW_MAPGEN_VISUALIZER);
    let mut map = Grid::with_size(2, 2, 1);
    let mut history: Vec<Grid> = Vec::new();
    record_snapshot(&mut history, &map);
    map.set_tile(3, TileType::Floor);
    record_snapshot(&mut history, &map);
    assert_eq!(history.len(), 2);
    assert_eq!(history[0].count_tiles(TileType::Floor), 0);
    assert_eq!(history[1].count_tiles(TileType::Floor), 1);
    assert!(history[1].revealed_tiles.iter().all(|b| *b));
    assert!(map.revealed_tiles.iter().all(|b| !*b));
    let copy = clone_history(&history);
    assert_eq!(copy.len(), 2);
    assert!(copy[1].tiles == history[1].tiles);
}

#[test]
fn start_is_the_first_floor_left_of_the_middle() {
    let mut map = Grid::with_size(10, 5, 1);
    let a = map.xy_idx(2, 2);
    let b = map.xy_idx(4, 2);
    let c = map.xy_idx(7, 2);
    map.set_tile(a, TileType::Floor);
    map.set_tile(b, TileType::Floor);
    map.set_tile(c, TileType::Floor);
    let before = map.tiles.clone();
    assert_eq!(find_starting_floor(&mut map), Position { x: 4, y: 2 });
    assert!(map.tiles == before);
    let mid = map.xy_idx(5, 2);
    map.set_tile(mid, TileType::Floor);
    assert_eq!(find_starting_floor(&mut map), Position { x: 5, y: 2 });
}

#[test]
fn start_is_dug_where_the_row_has_no_floor() {
    let mut map = Grid::with_size(10, 5, 1);
    let right = map.xy_idx(8, 2);
    map.set_tile(right, TileType::Floor);
    assert_eq!(find_starting_floor(&mut map), Position { x: 5, y: 2 });
    let mid = map.xy_idx(5, 2);
    assert_eq!(map.tiles[mid], TileType::Floor);
    assert_eq!(map.count_tiles(TileType::Floor), 2);
}

#[test]
fn finish_level_prunes_and_places_the_stair() {
    let mut map = Grid::new(2);
    apply_room_to_map(&mut map, &Rect::new(9, 9, 6, 6));
    apply_room_to_map(&mut map, &Rect::new(40, 20, 4, 4));
    let mut history: Vec<Grid> = Vec::new();
    finish_level(&mut map, &mut history, Position { x: 10, y: 10 });
    assert_eq!(map.count_tiles(TileType::DownStairs), 1);
    assert_eq!(map.count_tiles(TileType::Floor), 24);
    assert_eq!(map.tiles[map.xy_idx(14, 14)], TileType::DownStairs);
    assert_eq!(map.tiles[map.xy_idx(41, 21)], TileType::Wall);
    assert_eq!(history.len(), 1);
    assert!(history[0].tiles == map.tiles);
}

#[test]
fn finish_level_of_one_tile() {
    let mut map = Grid::new(1);
    let start = Position { x: 40, y: 21 };
    let idx = map.xy_idx(40, 21);
    map.set_tile(idx, TileType::Floor);
    let mut history: Vec<Grid> = Vec::new();
    finish_level(&mut map, &mut history, start);
    assert_eq!(map.tiles[idx], TileType::DownStairs);
    assert_eq!(map.count_tiles(TileType::Floor), 0);
    assert_eq!(map.count_tiles(TileType::DownStairs), 1);
}

#[test]
fn start_is_the_floor_beside_the_middle_and_nothing_is_dug() {
    let mut map = Grid::new(1);
    let beside = map.xy_idx(39, 21);
    map.set_tile(beside, TileType::Floor);
    let before = map.tiles.clone();
    assert_eq!(find_starting_floor(&mut map), Position { x: 39, y: 21 });
    assert!(map.tiles == before);
    assert_eq!(map.tiles[map.xy_idx(40, 21)], TileType::Wall);
}

#[test]
fn start_is_the_first_column_where_only_that_is_floor() {
    let mut map = Grid::new(1);
    let first = map.xy_idx(0, 21);
    map.set_tile(first, TileType::Floor);
    assert_eq!(find_starting_floor(&mut map), Position { x: 0, y: 21 });
    assert_eq!(map.count_tiles(TileType::Floor), 1);
}

#[test]
fn finished_level_with_floor_starts_on_floor() {
    let mut map = Grid::new(1);
    apply_horizontal_tunnel(&mut map, 10, 12, 10);
    let mut history: Vec<Grid> = Vec::new();
    finish_level(&mut map, &mut history, Position { x: 10, y: 10 });
    assert_eq!(map.tiles[map.xy_idx(10, 10)], TileType::Floor);
    assert_eq!(map.tiles[map.xy_idx(12, 10)], TileType::DownStairs);
}
