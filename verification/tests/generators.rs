use rltk::RandomNumberGenerator;
use roguelike_mapgen::map::{Grid, Position, TileType};
use roguelike_mapgen::map_builders::bsp_dungeon::{draw_corridor, is_possible, sort_rooms, sub_rect};
use roguelike_mapgen::map_builders::cellular_automata::{seed_tiles, seeded_tile, smooth};
use roguelike_mapgen::map_builders::dla::{apply_paint, follow_line, paint};
use roguelike_mapgen::map_builders::maze::{Cell, CellGrid, BOTTOM, LEFT, RIGHT, TOP};
use roguelike_mapgen::map_builders::voronoi::{assign_cells, carve_cells, distance2d};
use roguelike_mapgen::map_builders::{
    apply_room_to_map, BspDungeonBuilder, CellularAutomataBuilder, DLABuilder, DLASymmetry,
    DistanceAlgorithm, DrunkSpawnMode, DrunkardSettings, DrunkardsWalkBuilder, MapBuilder,
    MazeBuilder, VoronoiCellBuilder,
};
use roguelike_mapgen::pathing::{flood_distances, DEPTH_CEILING};
use roguelike_mapgen::rect::Rect;

fn floors(map: &Grid) -> Vec<usize> {
    (0..map.tiles.len()).filter(|i| map.tiles[*i] == TileType::Floor).collect()
}

#[test]
fn seeded_tile_is_floor_above_the_chance() {
    assert_eq!(seeded_tile(56), TileType::Floor);
    assert_eq!(seeded_tile(100), TileType::Floor);
    assert_eq!(seeded_tile(55), TileType::Wall);
    assert_eq!(seeded_tile(1), TileType::Wall);
}

#[test]
fn seeding_leaves_the_rim() {
    let mut map = Grid::new(1);
    let mut rng = RandomNumberGenerator::seeded(11);
    seed_tiles(&mut map, &mut rng);
    let mut floor = 0;
    for y in 0..43 {
        for x in 0..80 {
            let tile = map.tiles[map.xy_idx(x, y)];
            if x == 0 || y == 0 || x == 79 || y == 42 {
                assert_eq!(tile, TileType::Wall);
            } else {
                assert_ne!(tile, TileType::DownStairs);
                if tile == TileType::Floor {
                    floor += 1;
                }
            }
        }
    }
    assert!(floor > 1100 && floor < 1800, "{} tiles of floor", floor);
}

#[test]
fn smoothing_counts_the_walls_around() {
    let mut map = Grid::with_size(5, 5, 1);
    for (x, y) in [(1, 1), (2, 1), (3, 1), (1, 2), (2, 2), (3, 2), (1, 3), (2, 3), (3, 3)] {
        let idx = map.xy_idx(x, y);
        map.set_tile(idx, TileType::Floor);
    }
    smooth(&mut map);
    assert_eq!(floors(&map), vec![7, 11, 13, 17]);
    assert_eq!(map.tiles[12], TileType::Wall);
    assert_eq!(map.tiles[6], TileType::Wall);
}

#[test]
fn smoothing_fills_a_lone_hole() {
    let mut map = Grid::with_size(5, 5, 1);
    map.set_tile(12, TileType::Floor);
    smooth(&mut map);
    assert_eq!(map.count_tiles(TileType::Floor), 0);
}

#[test]
fn smoothing_opens_a_wall_with_four_walls_around() {
    let mut map = Grid::with_size(5, 5, 1);
    for idx in [6usize, 7, 8, 11, 13, 16, 17, 18] {
        map.set_tile(idx, TileType::Floor);
    }
    for idx in [6usize, 8, 16, 18] {
        map.set_tile(idx, TileType::Wall);
    }
    smooth(&mut map);
    assert_eq!(map.tiles[12], TileType::Floor);
}

#[test]
fn smoothing_leaves_the_rim_as_it_was() {
    let mut map = Grid::with_size(4, 4, 1);
    map.set_tile(0, TileType::Floor);
    map.set_tile(3, TileType::DownStairs);
    map.set_tile(13, TileType::Floor);
    smooth(&mut map);
    assert_eq!(map.tiles[0], TileType::Floor);
    assert_eq!(map.tiles[3], TileType::DownStairs);
    assert_eq!(map.tiles[13], TileType::Floor);
}

#[test]
fn distances_between_tiles() {
    let a = Position { x: 1, y: 2 };
    let b = Position { x: 4, y: 6 };
    assert_eq!(distance2d(DistanceAlgorithm::Pythagoras, a, b), 25);
    assert_eq!(distance2d(DistanceAlgorithm::Manhattan, a, b), 7);
    assert_eq!(distance2d(DistanceAlgorithm::Chebyshev, a, b), 4);
    let c = Position { x: -3, y: 5 };
    assert_eq!(distance2d(DistanceAlgorithm::Pythagoras, a, c), 25);
    assert_eq!(distance2d(DistanceAlgorithm::Manhattan, a, c), 7);
    assert_eq!(distance2d(DistanceAlgorithm::Chebyshev, a, c), 4);
}

#[test]
fn distances_are_the_same_both_ways_and_zero_at_home() {
    let points = vec![
        Position { x: 0, y: 0 },
        Position { x: 5, y: -9 },
        Position { x: 79, y: 42 },
        Position { x: -12, y: 30 },
        Position { x: i32::MAX, y: i32::MIN },
        Position { x: i32::MIN, y: i32::MAX },
    ];
    for algorithm in [
        DistanceAlgorithm::Pythagoras,
        DistanceAlgorithm::Manhattan,
        DistanceAlgorithm::Chebyshev,
    ] {
        for p in points.iter() {
            assert_eq!(distance2d(algorithm, *p, *p), 0);
            for q in points.iter() {
                assert_eq!(distance2d(algorithm, *p, *q), distance2d(algorithm, *q, *p));
            }
        }
    }
}

#[test]
fn distances_between_the_corners_of_all_numbers() {
    let low = Position { x: i32::MIN, y: i32::MIN };
    let high = Position { x: i32::MAX, y: i32::MAX };
    assert_eq!(distance2d(DistanceAlgorithm::Manhattan, low, high), 8589934590);
    assert_eq!(distance2d(DistanceAlgorithm::Chebyshev, low, high), 4294967295);
    assert_eq!(
        distance2d(DistanceAlgorithm::Pythagoras, low, high),
        2 * 4294967295u128 * 4294967295u128
    );
}

#[test]
fn cells_go_to_the_nearest_seed() {
    let seeds = vec![Position { x: 0, y: 0 }, Position { x: 5, y: 0 }, Position { x: 2, y: 0 }];
    let cells = assign_cells(&seeds, DistanceAlgorithm::Manhattan, 6, 1);
    assert_eq!(cells, vec![0, 0, 2, 2, 1, 1]);
    let cells = assign_cells(&seeds, DistanceAlgorithm::Pythagoras, 6, 2);
    assert_eq!(cells, vec![0, 0, 2, 2, 1, 1, 0, 0, 2, 2, 1, 1]);
}

#[test]
fn cells_without_seeds() {
    let cells = assign_cells(&Vec::new(), DistanceAlgorithm::Chebyshev, 3, 2);
    assert_eq!(cells, vec![0; 6]);
}

#[test]
fn cells_differ_by_the_distance_taken() {
    let seeds = vec![Position { x: 0, y: 0 }, Position { x: 4, y: 3 }];
    let square = assign_cells(&seeds, DistanceAlgorithm::Pythagoras, 5, 4);
    let blocks = assign_cells(&seeds, DistanceAlgorithm::Manhattan, 5, 4);
    let king = assign_cells(&seeds, DistanceAlgorithm::Chebyshev, 5, 4);
    let at = 3;
    assert_eq!(square[at], 0);
    assert_eq!(blocks[at], 0);
    assert_eq!(king[at], 0);
    let at = 4;
    assert_eq!(square[at], 1);
    assert_eq!(blocks[at], 1);
    assert_eq!(king[at], 1);
    let at = 1 * 5 + 3;
    assert_eq!(square[at], 1);
    assert_eq!(blocks[at], 1);
    assert_eq!(king[at], 1);
    let at = 2 * 5 + 2;
    assert_eq!(square[at], 1);
    assert_eq!(blocks[at], 1);
    assert_eq!(king[at], 0);
}

#[test]
fn carving_leaves_walls_where_cells_meet() {
    let mut map = Grid::with_size(6, 5, 1);
    let mut cells = vec![0; 30];
    for y in 0..5 {
        for x in 3..6 {
            cells[y * 6 + x] = 1;
        }
    }
    cells[2 * 6 + 2] = 2;
    let mut history: Vec<Grid> = Vec::new();
    carve_cells(&mut map, &mut history, &cells);
    assert_eq!(floors(&map), vec![7, 9, 10, 13, 15, 16, 19, 21, 22]);
    assert_eq!(map.tiles[2 * 6 + 2], TileType::Wall);
    assert_eq!(map.tiles[1 * 6 + 2], TileType::Wall);
    assert_eq!(map.tiles[3 * 6 + 2], TileType::Wall);
    assert_eq!(history.len(), 3);
}

#[test]
fn rooms_are_sorted_by_their_left_sides() {
    let rooms = vec![
        Rect::new(9, 1, 2, 2),
        Rect::new(3, 2, 2, 2),
        Rect::new(9, 3, 2, 2),
        Rect::new(1, 4, 2, 2),
        Rect::new(3, 5, 2, 2),
    ];
    let sorted = sort_rooms(&rooms);
    assert_eq!(
        sorted,
        vec![
            Rect::new(1, 4, 2, 2),
            Rect::new(3, 2, 2, 2),
            Rect::new(3, 5, 2, 2),
            Rect::new(9, 1, 2, 2),
            Rect::new(9, 3, 2, 2),
        ]
    );
    assert_eq!(sort_rooms(&Vec::new()), Vec::new());
}

#[test]
fn room_is_possible_in_rock_inside_the_rim() {
    let mut map = Grid::new(1);
    assert!(is_possible(&map, Rect::new(3, 3, 5, 5)));
    assert!(!is_possible(&map, Rect::new(2, 3, 5, 5)));
    assert!(!is_possible(&map, Rect::new(3, 2, 5, 5)));
    assert!(is_possible(&map, Rect::new(71, 34, 5, 5)));
    assert!(!is_possible(&map, Rect::new(72, 34, 5, 5)));
    assert!(!is_possible(&map, Rect::new(71, 35, 5, 5)));
    assert!(!is_possible(&map, Rect::new(-400, 3, 5, 5)));
    let floor = map.xy_idx(10, 10);
    map.set_tile(floor, TileType::Floor);
    assert!(!is_possible(&map, Rect::new(12, 12, 5, 5)));
    assert!(is_possible(&map, Rect::new(13, 12, 5, 5)));
    assert!(!is_possible(&map, Rect::new(4, 4, 4, 4)));
    assert!(is_possible(&map, Rect::new(3, 3, 4, 4)));
}

#[test]
fn corridor_goes_along_the_row_then_the_column() {
    let mut map = Grid::with_size(8, 6, 1);
    draw_corridor(&mut map, 1, 1, 4, 3);
    assert_eq!(floors(&map), vec![10, 11, 12, 20, 28]);
    let mut back = Grid::with_size(8, 6, 1);
    draw_corridor(&mut back, 4, 3, 1, 1);
    assert_eq!(floors(&back), vec![9, 17, 25, 26, 27]);
    let mut still = Grid::with_size(8, 6, 1);
    draw_corridor(&mut still, 2, 2, 2, 2);
    assert_eq!(still.count_tiles(TileType::Floor), 0);
    let mut down = Grid::with_size(8, 6, 1);
    draw_corridor(&mut down, 2, 1, 2, 4);
    assert_eq!(floors(&down), vec![18, 26, 34]);
}

#[test]
fn sub_rect_by_the_dice() {
    let rect = Rect::new(10, 20, 30, 30);
    assert_eq!(sub_rect(rect, 1, 1, 1, 1), Rect { x1: 10, x2: 14, y1: 20, y2: 24 });
    assert_eq!(sub_rect(rect, 4, 5, 6, 3), Rect { x1: 15, x2: 19, y1: 22, y2: 27 });
    assert_eq!(sub_rect(rect, 10, 10, 6, 6), Rect { x1: 15, x2: 25, y1: 25, y2: 35 });
}

#[test]
fn bsp_rooms_lie_in_order_and_the_start_in_the_first() {
    let mut builder = BspDungeonBuilder::new(1);
    let mut rng = RandomNumberGenerator::seeded(17);
    builder.build_map(&mut rng);
    let rooms = builder.get_rooms();
    assert!(rooms.len() >= 2);
    for pair in rooms.windows(2) {
        assert!(pair[0].x1 <= pair[1].x1);
    }
    for room in rooms.iter() {
        assert!(room.x1 >= 3 && room.x2 <= 76 && room.y1 >= 3 && room.y2 <= 39);
        assert!(room.x2 - room.x1 >= 4 && room.x2 - room.x1 <= 10);
        assert!(room.y2 - room.y1 >= 4 && room.y2 - room.y1 <= 10);
    }
    let centre = rooms[0].center();
    assert_eq!(builder.get_starting_position(), Position { x: centre.0, y: centre.1 });
}

#[test]
fn brush_of_one_paints_its_tile() {
    let mut map = Grid::with_size(6, 6, 1);
    apply_paint(&mut map, 1, 0, 5);
    apply_paint(&mut map, 1, 6, 2);
    apply_paint(&mut map, 1, -1, 2);
    assert_eq!(floors(&map), vec![30]);
}

#[test]
fn brush_of_two_paints_a_square_inside_the_rim() {
    let mut map = Grid::with_size(8, 8, 1);
    apply_paint(&mut map, 2, 4, 4);
    assert_eq!(floors(&map), vec![27, 28, 35, 36]);
    let mut edge = Grid::with_size(8, 8, 1);
    apply_paint(&mut edge, 2, 2, 2);
    assert_eq!(floors(&edge), vec![18]);
    let mut wide = Grid::with_size(8, 8, 1);
    apply_paint(&mut wide, 5, 3, 3);
    assert_eq!(floors(&wide), vec![18, 19, 20, 26, 27, 28, 34, 35, 36]);
    let mut none = Grid::with_size(8, 8, 1);
    apply_paint(&mut none, 0, 3, 3);
    apply_paint(&mut none, -4, 3, 3);
    assert_eq!(none.count_tiles(TileType::Floor), 0);
}

#[test]
fn paint_mirrors_across_the_middle() {
    let mut map = Grid::new(1);
    paint(&mut map, 1, DLASymmetry::Horizontal, 30, 10);
    assert_eq!(floors(&map), vec![10 * 80 + 30, 10 * 80 + 50]);
    let mut map = Grid::new(1);
    paint(&mut map, 1, DLASymmetry::Vertical, 30, 10);
    assert_eq!(floors(&map), vec![10 * 80 + 30, 32 * 80 + 30]);
    let mut map = Grid::new(1);
    paint(&mut map, 1, DLASymmetry::Both, 30, 10);
    assert_eq!(floors(&map), vec![10 * 80 + 30, 10 * 80 + 50, 32 * 80 + 30]);
    let mut map = Grid::new(1);
    paint(&mut map, 1, DLASymmetry::NoSymmetry, 30, 10);
    assert_eq!(floors(&map), vec![10 * 80 + 30]);
}

#[test]
fn paint_on_the_middle_line_paints_once() {
    let mut map = Grid::new(1);
    paint(&mut map, 1, DLASymmetry::Horizontal, 40, 7);
    assert_eq!(floors(&map), vec![7 * 80 + 40]);
    let mut map = Grid::new(1);
    paint(&mut map, 1, DLASymmetry::Vertical, 12, 21);
    assert_eq!(floors(&map), vec![21 * 80 + 12]);
    let mut map = Grid::new(1);
    paint(&mut map, 1, DLASymmetry::Both, 40, 21);
    assert_eq!(floors(&map), vec![21 * 80 + 40]);
}

#[test]
fn follow_line_stops_before_the_floor() {
    let mut map = Grid::with_size(8, 3, 1);
    let floor = map.xy_idx(5, 1);
    map.set_tile(floor, TileType::Floor);
    let path = vec![(1, 1), (2, 1), (3, 1), (4, 1), (5, 1), (6, 1)];
    assert_eq!(follow_line(&map, &path, 1, 1), (4, 1));
    assert_eq!(follow_line(&map, &Vec::new(), 3, 1), (3, 1));
    assert_eq!(follow_line(&map, &path, 5, 1), (5, 1));
    let short = vec![(1, 1), (2, 1)];
    assert_eq!(follow_line(&map, &short, 1, 1), (1, 1));
    let astray = vec![(2, 1), (9, 9), (3, 1)];
    assert_eq!(follow_line(&map, &astray, 1, 1), (2, 1));
}

#[test]
fn dla_grows_from_the_middle() {
    for mut builder in [
        DLABuilder::new(1),
        DLABuilder::walk_inwards(1),
        DLABuilder::walk_outwards(1),
        DLABuilder::central_attractor(1),
        DLABuilder::insectoid(1),
    ] {
        let mut rng = RandomNumberGenerator::seeded(4);
        builder.build_map(&mut rng);
        assert_eq!(builder.get_starting_position(), Position { x: 40, y: 21 });
        let map = builder.get_map();
        for idx in [21 * 80 + 40, 21 * 80 + 39, 21 * 80 + 41, 20 * 80 + 40, 22 * 80 + 40] {
            assert_ne!(map.tiles[idx], TileType::Wall);
        }
        let open = map.tiles.iter().filter(|t| **t != TileType::Wall).count();
        assert!(open >= 860, "{} tiles are open", open);
        assert!(open <= 880, "{} tiles are open", open);
    }
}

#[test]
fn insectoid_is_the_same_left_and_right() {
    let mut builder = DLABuilder::insectoid(1);
    let mut rng = RandomNumberGenerator::seeded(31);
    builder.build_map(&mut rng);
    let raw = builder.get_map();
    let mut mirrored = 0;
    let mut open = 0;
    for y in 0..43 {
        for x in 2..79 {
            let here = raw.tiles[raw.xy_idx(x, y)] != TileType::Wall;
            let there = raw.tiles[raw.xy_idx(80 - x, y)] != TileType::Wall;
            if here {
                open += 1;
                if there {
                    mirrored += 1;
                }
            }
        }
    }
    assert!(open > 0);
    assert!(mirrored * 10 >= open * 8, "{} of {} tiles have their mirror image", mirrored, open);
}

#[test]
fn drunkards_walk_with_its_own_settings() {
    let settings = DrunkardSettings {
        spawn_mode: DrunkSpawnMode::Random,
        drunken_lifetime: 50,
        floor_percent: 10,
    };
    let mut builder = DrunkardsWalkBuilder::new(6, settings);
    let mut rng = RandomNumberGenerator::seeded(3);
    builder.build_map(&mut rng);
    let history = builder.get_snapshot_history();
    let raw = &history[history.len() - 2];
    let dug = raw.tiles.iter().filter(|t| **t != TileType::Wall).count();
    assert!(dug >= 344);
    assert!(dug < 344 + 50);
    for y in 0..43 {
        for x in 0..80 {
            if x < 2 || y < 2 || x > 78 || y > 41 {
                assert_eq!(raw.tiles[raw.xy_idx(x, y)], TileType::Wall);
            }
        }
    }
}

#[test]
fn drunkards_walk_gives_up_when_it_cannot_reach_its_floor() {
    let settings = DrunkardSettings {
        spawn_mode: DrunkSpawnMode::StartingPoint,
        drunken_lifetime: 0,
        floor_percent: 50,
    };
    let mut builder = DrunkardsWalkBuilder::new(1, settings);
    let mut rng = RandomNumberGenerator::seeded(3);
    builder.build_map(&mut rng);
    let map = builder.get_map();
    assert_eq!(map.count_tiles(TileType::Floor), 0);
    assert_eq!(map.count_tiles(TileType::DownStairs), 1);
    assert_eq!(map.tiles[21 * 80 + 40], TileType::DownStairs);
}

#[test]
fn drunkards_walk_that_wants_the_whole_level() {
    let settings = DrunkardSettings {
        spawn_mode: DrunkSpawnMode::Random,
        drunken_lifetime: 40,
        floor_percent: 100,
    };
    let mut builder = DrunkardsWalkBuilder::new(1, settings);
    let mut rng = RandomNumberGenerator::seeded(9);
    builder.build_map(&mut rng);
    let map = builder.get_map();
    let open = map.tiles.iter().filter(|t| **t != TileType::Wall).count();
    assert!(open <= 77 * 40);
    assert!(open > 2000);
}

#[test]
fn cell_has_four_walls_until_they_are_taken_down() {
    let mut a = Cell::new(2, 3);
    assert_eq!(a.row, 2);
    assert_eq!(a.column, 3);
    assert_eq!(a.walls, [true, true, true, true]);
    assert!(!a.visited);
    let mut right = Cell::new(2, 4);
    a.remove_walls(&mut right);
    assert_eq!(a.walls[RIGHT], false);
    assert_eq!(right.walls[LEFT], false);
    assert_eq!(a.walls, [true, false, true, true]);
    assert_eq!(right.walls, [true, true, true, false]);
    let mut below = Cell::new(3, 3);
    a.remove_walls(&mut below);
    assert_eq!(a.walls[BOTTOM], false);
    assert_eq!(below.walls[TOP], false);
    let mut above = Cell::new(1, 3);
    let mut left = Cell::new(2, 2);
    a.remove_walls(&mut above);
    a.remove_walls(&mut left);
    assert_eq!(a.walls, [false, false, false, false]);
    assert_eq!(above.walls, [true, true, false, true]);
    assert_eq!(left.walls, [true, false, true, true]);
    let mut far = Cell::new(9, 9);
    let mut other = Cell::new(0, 0);
    far.remove_walls(&mut other);
    assert_eq!(far.walls, [true, true, true, true]);
    assert_eq!(other.walls, [true, true, true, true]);
}

#[test]
fn maze_cells_know_where_they_lie() {
    let grid = CellGrid::new(4, 3);
    assert_eq!(grid.cells.len(), 12);
    assert_eq!(grid.current, 0);
    assert!(grid.backtrace.is_empty());
    assert_eq!(grid.cells[6].row, 1);
    assert_eq!(grid.cells[6].column, 2);
    assert_eq!(grid.calculate_index(1, 2), 6);
    assert_eq!(grid.calculate_index(0, 0), 0);
    assert_eq!(grid.calculate_index(2, 3), 11);
    assert_eq!(grid.calculate_index(-1, 0), -1);
    assert_eq!(grid.calculate_index(0, -1), -1);
    assert_eq!(grid.calculate_index(3, 0), -1);
    assert_eq!(grid.calculate_index(0, 4), -1);
}

#[test]
fn maze_neighbours_not_seen() {
    let mut grid = CellGrid::new(4, 3);
    assert_eq!(grid.get_available_neighbors(), vec![1, 4]);
    grid.current = 5;
    assert_eq!(grid.get_available_neighbors(), vec![1, 6, 9, 4]);
    grid.cells[6].visited = true;
    grid.cells[1].visited = true;
    assert_eq!(grid.get_available_neighbors(), vec![9, 4]);
    grid.cells[9].visited = true;
    grid.cells[4].visited = true;
    assert_eq!(grid.get_available_neighbors(), Vec::<usize>::new());
    let mut rng = RandomNumberGenerator::seeded(1);
    assert_eq!(grid.find_next_cell(&mut rng), None);
    grid.current = 11;
    grid.cells[10].visited = true;
    assert_eq!(grid.get_available_neighbors(), vec![7]);
    assert_eq!(grid.find_next_cell(&mut rng), Some(7));
    grid.cells[10].visited = false;
    for _ in 0..20 {
        let next = grid.find_next_cell(&mut rng);
        assert!(next == Some(7) || next == Some(10));
    }
}

#[test]
fn maze_is_shown_on_every_second_tile() {
    let mut grid = CellGrid::new(38, 19);
    let mut a = grid.cells[0];
    let mut b = grid.cells[1];
    a.remove_walls(&mut b);
    grid.cells[0] = a;
    grid.cells[1] = b;
    let mut c = grid.cells[39];
    let mut d = grid.cells[1];
    c.remove_walls(&mut d);
    grid.cells[39] = c;
    grid.cells[1] = d;
    let mut map = Grid::new(1);
    map.set_tile(0, TileType::Floor);
    grid.copy_to_map(&mut map);
    assert_eq!(map.tiles[0], TileType::Wall);
    assert_eq!(map.count_tiles(TileType::Floor), 38 * 19 + 2);
    assert_eq!(map.tiles[map.xy_idx(2, 2)], TileType::Floor);
    assert_eq!(map.tiles[map.xy_idx(3, 2)], TileType::Floor);
    assert_eq!(map.tiles[map.xy_idx(4, 2)], TileType::Floor);
    assert_eq!(map.tiles[map.xy_idx(4, 3)], TileType::Floor);
    assert_eq!(map.tiles[map.xy_idx(4, 4)], TileType::Floor);
    assert_eq!(map.tiles[map.xy_idx(5, 2)], TileType::Wall);
    assert_eq!(map.tiles[map.xy_idx(2, 3)], TileType::Wall);
    assert_eq!(map.tiles[map.xy_idx(76, 38)], TileType::Floor);
    assert_eq!(map.tiles[map.xy_idx(77, 38)], TileType::Wall);
}

#[test]
fn maze_walk_sees_every_cell_and_opens_a_tree() {
    let mut grid = CellGrid::new(38, 19);
    let mut map = Grid::new(1);
    let mut history: Vec<Grid> = Vec::new();
    let mut rng = RandomNumberGenerator::seeded(21);
    grid.generate_maze(&mut map, &mut history, &mut rng);
    assert!(grid.cells.iter().all(|c| c.visited));
    assert!(grid.backtrace.is_empty());
    let mut open = 0;
    for (i, cell) in grid.cells.iter().enumerate() {
        let row = i / 38;
        let column = i % 38;
        if column + 1 < 38 {
            assert_eq!(cell.walls[RIGHT], grid.cells[i + 1].walls[LEFT]);
            if !cell.walls[RIGHT] {
                open += 1;
            }
        } else {
            assert!(cell.walls[RIGHT]);
        }
        if row + 1 < 19 {
            assert_eq!(cell.walls[BOTTOM], grid.cells[i + 38].walls[TOP]);
            if !cell.walls[BOTTOM] {
                open += 1;
            }
        } else {
            assert!(cell.walls[BOTTOM]);
        }
    }
    assert_eq!(open, 38 * 19 - 1);
    assert_eq!(map.count_tiles(TileType::Floor), 38 * 19 + 38 * 19 - 1);
    assert!(history.len() >= 2);
    assert!(history[history.len() - 1].tiles == map.tiles);
}

#[test]
fn maze_level_keeps_every_passage() {
    let mut builder = MazeBuilder::new(2);
    let mut rng = RandomNumberGenerator::seeded(8);
    builder.build_map(&mut rng);
    assert_eq!(builder.get_starting_position(), Position { x: 2, y: 2 });
    let mut map = builder.get_map();
    let open = map.count_tiles(TileType::Floor) + 1;
    assert!(open <= 38 * 19 + 38 * 19 - 1);
    assert!(open > 300);
    assert_eq!(map.count_tiles(TileType::DownStairs), 1);
    assert_eq!(map.tiles[map.xy_idx(2, 2)], TileType::Floor);
    let history = builder.get_snapshot_history();
    let raw = &history[history.len() - 2];
    assert_eq!(raw.count_tiles(TileType::Floor), 38 * 19 + 38 * 19 - 1);
    map.populate_blocked();
    let start = map.xy_idx(2, 2);
    let dist = flood_distances(&map, start);
    let mut furthest = 0;
    for i in 0..map.tiles.len() {
        if map.tiles[i] != TileType::Wall {
            assert!(dist[i] < DEPTH_CEILING);
            if dist[i] > furthest {
                furthest = dist[i];
            }
        }
        if map.tiles[i] == TileType::DownStairs {
            assert_eq!(dist[i], furthest);
        }
    }
    assert!(furthest > 0);
}

#[test]
fn voronoi_level_has_its_start_in_the_middle_row() {
    for mut builder in [
        VoronoiCellBuilder::new(1),
        VoronoiCellBuilder::pythagoras(1),
        VoronoiCellBuilder::manhattan(1),
    ] {
        let mut rng = RandomNumberGenerator::seeded(77);
        builder.build_map(&mut rng);
        let start = builder.get_starting_position();
        assert_eq!(start.y, 21);
        assert!(start.x <= 40);
        let map = builder.get_map();
        assert!(map.count_tiles(TileType::Floor) > 500);
        for x in 0..80 {
            assert_eq!(map.tiles[map.xy_idx(x, 0)], TileType::Wall);
            assert_eq!(map.tiles[map.xy_idx(x, 42)], TileType::Wall);
        }
    }
}

#[test]
fn cellular_level_has_its_start_in_the_middle_row() {
    let mut builder = CellularAutomataBuilder::new(1);
    let mut rng = RandomNumberGenerator::seeded(5);
    builder.build_map(&mut rng);
    let start = builder.get_starting_position();
    assert_eq!(start.y, 21);
    assert!(start.x <= 40);
    let history = builder.get_snapshot_history();
    assert_eq!(history.len(), 1 + 15 + 1 + 1);
    assert!(history.iter().all(|g| g.revealed_tiles.iter().all(|b| *b)));
    assert!(history[history.len() - 1].tiles == builder.get_map().tiles);
    assert!(builder.get_map().revealed_tiles.iter().all(|b| !*b));
}

#[test]
fn take_snapshot_records_the_level_as_it_stands() {
    let mut builder = CellularAutomataBuilder::new(1);
    builder.take_snapshot();
    builder.take_snapshot();
    let history = builder.get_snapshot_history();
    assert_eq!(history.len(), 2);
    assert_eq!(history[0].count_tiles(TileType::Wall), 3440);
    assert!(history[1].revealed_tiles.iter().all(|b| *b));
}

#[test]
fn partition_fills_the_regions_of_a_generator() {
    let mut builder = CellularAutomataBuilder::new(1);
    let mut rng = RandomNumberGenerator::seeded(5);
    builder.build_map(&mut rng);
    assert!(builder.get_noise_areas().is_empty());
    let values: Vec<i32> = (0..3440).map(|i| (i % 80) / 20).collect();
    builder.partition(&values);
    let map = builder.get_map();
    let regions = builder.get_noise_areas();
    let mut listed = 0;
    for (id, tiles) in regions.iter() {
        for idx in tiles.iter() {
            assert_eq!(map.tiles[*idx], TileType::Floor);
            assert_eq!(values[*idx], *id);
            listed += 1;
        }
    }
    assert_eq!(listed, map.count_tiles(TileType::Floor));
    builder.build_map(&mut rng);
    assert!(builder.get_noise_areas().is_empty());
}

#[test]
fn building_twice_starts_afresh() {
    let mut builder = MazeBuilder::new(1);
    let mut rng = RandomNumberGenerator::seeded(5);
    builder.build_map(&mut rng);
    let first = builder.get_snapshot_history().len();
    builder.build_map(&mut rng);
    assert_eq!(builder.get_map().count_tiles(TileType::DownStairs), 1);
    assert!(builder.get_snapshot_history().len() > first);
}

#[test]
fn room_then_possible_no_more() {
    let mut map = Grid::new(1);
    let room = Rect::new(10, 10, 6, 6);
    assert!(is_possible(&map, room));
    apply_room_to_map(&mut map, &room);
    assert!(!is_possible(&map, room));
    assert!(!is_possible(&map, Rect::new(17, 10, 6, 6)));
    assert!(is_possible(&map, Rect::new(19, 10, 6, 6)));
}

#[test]
fn maze_of_another_size_on_a_level_of_another_size() {
    let mut grid = CellGrid::new(5, 4);
    let mut map = Grid::with_size(12, 10, 1);
    let mut history: Vec<Grid> = Vec::new();
    let mut rng = RandomNumberGenerator::seeded(3);
    grid.generate_maze(&mut map, &mut history, &mut rng);
    assert!(grid.cells.iter().all(|c| c.visited));
    assert!(grid.backtrace.is_empty());
    let down: usize = grid.cells.iter().map(|c| c.walls.iter().filter(|w| !**w).count()).sum();
    assert_eq!(down, 2 * (5 * 4 - 1));
    assert_eq!(map.count_tiles(TileType::Floor), 5 * 4 + 5 * 4 - 1);
    for x in 0..12 {
        assert_eq!(map.tiles[map.xy_idx(x, 0)], TileType::Wall);
        assert_eq!(map.tiles[map.xy_idx(x, 1)], TileType::Wall);
        assert_eq!(map.tiles[map.xy_idx(x, 9)], TileType::Wall);
    }
    assert_eq!(map.tiles[map.xy_idx(2, 2)], TileType::Floor);
    assert_eq!(map.tiles[map.xy_idx(10, 8)], TileType::Floor);
    assert_eq!(map.tiles[map.xy_idx(11, 8)], TileType::Wall);
}

#[test]
fn maze_of_one_cell() {
    let mut grid = CellGrid::new(1, 1);
    let mut map = Grid::with_size(4, 4, 1);
    let mut history: Vec<Grid> = Vec::new();
    let mut rng = RandomNumberGenerator::seeded(3);
    grid.generate_maze(&mut map, &mut history, &mut rng);
    assert!(grid.cells[0].visited);
    assert!(grid.cells[0].walls.iter().all(|w| *w));
    assert_eq!(floors(&map), vec![10]);
}

#[test]
fn dungeon_rooms_keep_apart() {
    for seed in 0..8 {
        let mut builder = BspDungeonBuilder::new(1);
        let mut rng = RandomNumberGenerator::seeded(seed);
        builder.build_map(&mut rng);
        let rooms = builder.get_rooms();
        for (i, a) in rooms.iter().enumerate() {
            for b in rooms.iter().skip(i + 1) {
                assert!(!a.intersect(b), "rooms {:?} and {:?} lie over each other", a, b);
            }
        }
    }
}
