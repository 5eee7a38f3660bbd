use roguelike_mapgen::map::{Grid, TileType};
use roguelike_mapgen::pathing::{direction, flood_distances, DEPTH_CEILING, UNREACHED};

fn open_map(width: i32, height: i32) -> Grid {
    let mut map = Grid::with_size(width, height, 1);
    for i in 0..map.tiles.len() {
        map.set_tile(i, TileType::Floor);
    }
    map.populate_blocked();
    map
}

#[test]
fn directions_and_their_costs() {
    assert_eq!(direction(0), (-1, 0, 100));
    assert_eq!(direction(1), (1, 0, 100));
    assert_eq!(direction(2), (0, -1, 100));
    assert_eq!(direction(3), (0, 1, 100));
    assert_eq!(direction(4), (-1, -1, 145));
    assert_eq!(direction(5), (1, -1, 145));
    assert_eq!(direction(6), (-1, 1, 145));
    assert_eq!(direction(7), (1, 1, 145));
}

#[test]
fn exits_of_a_tile_in_the_open() {
    let map = open_map(3, 3);
    let exits = map.get_available_exits(4);
    assert_eq!(
        exits,
        vec![(3, 100), (5, 100), (1, 100), (7, 100), (0, 145), (2, 145), (6, 145), (8, 145)]
    );
}

#[test]
fn exits_of_a_corner_and_past_walls() {
    let mut map = open_map(3, 3);
    assert_eq!(map.get_available_exits(0), vec![(1, 100), (3, 100), (4, 145)]);
    assert_eq!(map.get_available_exits(8), vec![(7, 100), (5, 100), (4, 145)]);
    map.set_tile(1, TileType::Wall);
    map.set_tile(4, TileType::Wall);
    map.populate_blocked();
    assert_eq!(map.get_available_exits(0), vec![(3, 100)]);
    assert_eq!(map.get_available_exits(4).len(), 7);
}

#[test]
fn distances_around_the_start() {
    let map = open_map(3, 3);
    let dist = flood_distances(&map, 4);
    assert_eq!(dist, vec![145, 100, 145, 100, 0, 100, 145, 100, 145]);
}

#[test]
fn distances_take_the_cheapest_way() {
    let map = open_map(4, 3);
    let dist = flood_distances(&map, 0);
    assert_eq!(dist, vec![0, 100, 200, 300, 100, 145, 245, 345, 200, 245, 290, 390]);
}

#[test]
fn distances_go_around_walls() {
    let mut map = open_map(3, 3);
    map.set_tile(3, TileType::Wall);
    map.set_tile(4, TileType::Wall);
    map.populate_blocked();
    let dist = flood_distances(&map, 0);
    assert_eq!(dist[0], 0);
    assert_eq!(dist[1], 100);
    assert_eq!(dist[2], 200);
    assert_eq!(dist[5], 245);
    assert_eq!(dist[8], 345);
    assert_eq!(dist[7], 390);
    assert_eq!(dist[6], 490);
    assert_eq!(dist[3], UNREACHED);
    assert_eq!(dist[4], UNREACHED);
}

#[test]
fn distances_leave_out_what_is_cut_off() {
    let mut map = open_map(5, 1);
    map.set_tile(2, TileType::Wall);
    map.populate_blocked();
    let dist = flood_distances(&map, 0);
    assert_eq!(dist, vec![0, 100, UNREACHED, UNREACHED, UNREACHED]);
}

#[test]
fn start_on_a_wall_has_distance_zero() {
    let mut map = open_map(3, 1);
    map.set_tile(1, TileType::Wall);
    map.populate_blocked();
    let dist = flood_distances(&map, 1);
    assert_eq!(dist, vec![100, 0, 100]);
}

#[test]
fn distances_stop_below_the_ceiling() {
    assert_eq!(DEPTH_CEILING, 30000);
    assert_eq!(UNREACHED, u32::MAX);
    let map = open_map(400, 1);
    let dist = flood_distances(&map, 0);
    assert_eq!(dist[1], 100);
    assert_eq!(dist[299], 29900);
    assert_eq!(dist[300], UNREACHED);
    assert_eq!(dist[399], UNREACHED);
}

#[test]
fn distances_use_the_blocked_tiles_as_they_stand() {
    let mut map = open_map(3, 1);
    map.blocked[1] = true;
    let dist = flood_distances(&map, 0);
    assert_eq!(dist, vec![0, UNREACHED, UNREACHED]);
}
