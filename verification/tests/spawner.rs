use rltk::RandomNumberGenerator;
use roguelike_mapgen::map::{Grid, TileType};
use roguelike_mapgen::map_builders::{
    apply_room_to_map, BspDungeonBuilder, CellularAutomataBuilder, MapBuilder,
};
use roguelike_mapgen::rect::Rect;
use roguelike_mapgen::spawner::{
    count_spawns, room_floor_tiles, room_table, spawn_in_level, spawn_region, spawn_regions,
    spawn_room, MAX_MONSTERS,
};
use std::collections::HashMap;

const NAMES: [&str; 12] = [
    "Orc",
    "Health Potion",
    "Fireball Scroll",
    "Confusion Scroll",
    "Magic Missile Scroll",
    "Dagger",
    "Shield",
    "Longsword",
    "Tower Shield",
    "Rations",
    "Magic Mapping Scroll",
    "Bear Trap",
];

#[test]
fn room_table_at_the_first_depth() {
    let table = room_table(1);
    assert_eq!(table.len(), 12);
    assert_eq!(table.total_weight(), 2 + 7 + 3 + 3 + 4 + 3 + 3 + 10 + 2 + 2);
    assert_eq!(table.pick(0), "Orc");
    assert_eq!(table.pick(1), "Orc");
    assert_eq!(table.pick(2), "Health Potion");
    assert_eq!(table.pick(8), "Health Potion");
    assert_eq!(table.pick(9), "Fireball Scroll");
    assert_eq!(table.pick(12), "Confusion Scroll");
    assert_eq!(table.pick(15), "Magic Missile Scroll");
    assert_eq!(table.pick(19), "Dagger");
    assert_eq!(table.pick(22), "Shield");
    assert_eq!(table.pick(25), "Rations");
    assert_eq!(table.pick(34), "Rations");
    assert_eq!(table.pick(35), "Magic Mapping Scroll");
    assert_eq!(table.pick(37), "Bear Trap");
    assert_eq!(table.pick(38), "Bear Trap");
    assert_eq!(table.pick(39), "None");
}

#[test]
fn room_table_grows_with_the_depth() {
    let table = room_table(4);
    assert_eq!(table.total_weight(), 5 + 7 + 6 + 6 + 4 + 3 + 3 + 3 + 3 + 10 + 2 + 2);
    assert_eq!(table.pick(4), "Orc");
    assert_eq!(table.pick(5), "Health Potion");
    assert_eq!(table.pick(34), "Longsword");
    assert_eq!(table.pick(37), "Tower Shield");
    assert_eq!(table.pick(40), "Rations");
    let top = room_table(-3);
    assert_eq!(top.total_weight(), 7 + 4 + 3 + 3 + 10 + 2 + 2);
    assert_eq!(top.pick(0), "Health Potion");
}

#[test]
fn spawn_count_by_roll_and_depth() {
    assert_eq!(MAX_MONSTERS, 4);
    assert_eq!(count_spawns(10, 1, 1), 0);
    assert_eq!(count_spawns(10, 3, 1), 0);
    assert_eq!(count_spawns(10, 4, 1), 1);
    assert_eq!(count_spawns(10, 7, 1), 4);
    assert_eq!(count_spawns(10, 7, 3), 6);
    assert_eq!(count_spawns(3, 7, 3), 3);
    assert_eq!(count_spawns(0, 7, 3), 0);
    assert_eq!(count_spawns(10, 7, -20), 0);
    assert_eq!(count_spawns(10, 1, 20), 10);
}

#[test]
fn floor_tiles_of_a_room() {
    let mut map = Grid::with_size(8, 6, 1);
    let room = Rect::new(1, 1, 4, 3);
    assert_eq!(room_floor_tiles(&map, &room), Vec::<usize>::new());
    apply_room_to_map(&mut map, &room);
    assert_eq!(room_floor_tiles(&map, &room), vec![18, 19, 20, 26, 27, 28]);
    map.set_tile(19, TileType::Wall);
    map.set_tile(27, TileType::DownStairs);
    map.set_tile(0, TileType::Floor);
    assert_eq!(room_floor_tiles(&map, &room), vec![18, 20, 26, 28]);
    assert_eq!(room_floor_tiles(&map, &Rect::new(-5, -5, 50, 50)), vec![0, 18, 20, 26, 28]);
}

#[test]
fn spawns_stand_on_tiles_of_the_region_one_each() {
    let area: Vec<usize> = vec![5, 9, 14, 20, 33, 47, 51, 60];
    let mut rng = RandomNumberGenerator::seeded(10);
    let mut most = 0;
    let mut least = 100;
    for _ in 0..200 {
        let spawns = spawn_region(&area, 2, &mut rng);
        assert!(spawns.len() <= 5);
        most = most.max(spawns.len());
        least = least.min(spawns.len());
        let mut taken: Vec<usize> = Vec::new();
        for (idx, name) in spawns.iter() {
            assert!(area.contains(idx));
            assert!(!taken.contains(idx));
            taken.push(*idx);
            assert!(NAMES.contains(&name.as_str()), "{} is not in the table", name);
        }
    }
    assert_eq!(most, 5);
    assert_eq!(least, 0);
    assert_eq!(area.len(), 8);
}

#[test]
fn spawns_are_no_more_than_the_tiles() {
    let area: Vec<usize> = vec![7, 8];
    let mut rng = RandomNumberGenerator::seeded(4);
    for _ in 0..100 {
        let spawns = spawn_region(&area, 9, &mut rng);
        assert_eq!(spawns.len(), 2);
        let tiles: Vec<usize> = spawns.iter().map(|s| s.0).collect();
        assert!(tiles == vec![7, 8] || tiles == vec![8, 7]);
    }
    assert_eq!(spawn_region(&Vec::new(), 9, &mut rng).len(), 0);
}

#[test]
fn spawns_on_a_tile_named_twice_are_one() {
    let area: Vec<usize> = vec![3, 3, 3];
    let mut rng = RandomNumberGenerator::seeded(4);
    for _ in 0..20 {
        let spawns = spawn_region(&area, 9, &mut rng);
        assert_eq!(spawns.len(), 1);
        assert_eq!(spawns[0].0, 3);
        assert!(NAMES.contains(&spawns[0].1.as_str()));
    }
}

#[test]
fn spawns_of_a_room_stand_on_its_floor() {
    let mut map = Grid::new(5);
    let room = Rect::new(10, 10, 8, 8);
    apply_room_to_map(&mut map, &room);
    let mut rng = RandomNumberGenerator::seeded(4);
    for _ in 0..50 {
        let spawns = spawn_room(&map, &room, 5, &mut rng);
        assert!(spawns.len() >= 1 && spawns.len() <= 8);
        for (idx, _) in spawns.iter() {
            let (x, y) = map.idx_xy(*idx);
            assert!(x > 10 && x < 18 && y > 10 && y < 18);
        }
    }
}

#[test]
fn spawns_of_all_regions() {
    let mut regions: HashMap<i32, Vec<usize>> = HashMap::new();
    regions.insert(4, vec![1, 2, 3]);
    regions.insert(-7, vec![10, 11]);
    regions.insert(0, Vec::new());
    let mut rng = RandomNumberGenerator::seeded(4);
    for _ in 0..50 {
        let spawns = spawn_regions(&regions, 8, &mut rng);
        assert_eq!(spawns.len(), 5);
        let mut tiles: Vec<usize> = spawns.iter().map(|s| s.0).collect();
        tiles.sort();
        assert_eq!(tiles, vec![1, 2, 3, 10, 11]);
    }
}

#[test]
fn spawns_on_a_level_stand_on_floor() {
    let mut builder = CellularAutomataBuilder::new(3);
    let mut rng = RandomNumberGenerator::seeded(12);
    builder.build_map(&mut rng);
    assert_eq!(builder.spawn_entities(&mut rng).len(), 0);
    let values: Vec<i32> = (0..3440).map(|i| ((i % 80) / 10 + 8 * ((i / 80) / 10)) as i32).collect();
    builder.partition(&values);
    let map = builder.get_map();
    let spawns = builder.spawn_entities(&mut rng);
    assert!(spawns.len() > 0);
    let mut taken: Vec<usize> = Vec::new();
    for (idx, name) in spawns.iter() {
        assert_eq!(map.tiles[*idx], TileType::Floor);
        assert!(!taken.contains(idx));
        taken.push(*idx);
        assert!(NAMES.contains(&name.as_str()));
    }
    let again = spawn_in_level(&map, &builder.get_noise_areas(), &mut rng);
    for (idx, _) in again.iter() {
        assert_eq!(map.tiles[*idx], TileType::Floor);
    }
}

#[test]
fn spawns_of_a_dungeon_stand_in_its_rooms_but_the_first() {
    let mut builder = BspDungeonBuilder::new(6);
    let mut rng = RandomNumberGenerator::seeded(12);
    builder.build_map(&mut rng);
    let map = builder.get_map();
    let rooms = builder.get_rooms();
    let spawns = builder.spawn_entities(&mut rng);
    assert!(spawns.len() > 0);
    for (idx, name) in spawns.iter() {
        assert_eq!(map.tiles[*idx], TileType::Floor);
        let (x, y) = map.idx_xy(*idx);
        assert!(rooms
            .iter()
            .skip(1)
            .any(|r| r.x1 < x && x < r.x2 && r.y1 < y && y < r.y2));
        assert!(NAMES.contains(&name.as_str()));
    }
}

#[test]
fn spawns_of_regions_come_one_region_after_the_other() {
    let mut regions: HashMap<i32, Vec<usize>> = HashMap::new();
    regions.insert(1, vec![1, 2, 3]);
    regions.insert(2, vec![10, 11, 12]);
    regions.insert(3, vec![20, 21, 22]);
    let mut rng = RandomNumberGenerator::seeded(9);
    for _ in 0..50 {
        let spawns = spawn_regions(&regions, 8, &mut rng);
        assert_eq!(spawns.len(), 9);
        let owners: Vec<usize> = spawns.iter().map(|s| s.0 / 10).collect();
        for part in owners.chunks(3) {
            assert_eq!(part[0], part[1]);
            assert_eq!(part[1], part[2]);
        }
    }
}
