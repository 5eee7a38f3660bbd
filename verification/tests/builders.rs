use rltk::RandomNumberGenerator;
use roguelike_mapgen::map::{Grid, Position, TileType, MAPCOUNT, MAPHEIGHT, MAPWIDTH};
use roguelike_mapgen::map_builders::{
    builder_for, random_builder, BspDungeonBuilder, Builder, CellularAutomataBuilder, DLABuilder,
    DrunkardsWalkBuilder, MapBuilder, MazeBuilder, VoronoiCellBuilder, WaveformCollapseBuilder,
    SHOW_MAPGEN_VISUALIZER,
};

fn count(map: &Grid, kind: TileType) -> usize {
    map.tiles.iter().filter(|t| **t == kind).count()
}

/// Every tile that can be walked to from `start` over tiles that are no
/// wall, stepping to any of the eight neighbours.
fn walk_from(map: &Grid, start: usize) -> Vec<bool> {
    let w = map.width as i64;
    let h = map.height as i64;
    let mut seen = vec![false; map.tiles.len()];
    let mut stack = vec![start];
    seen[start] = true;
    while let Some(at) = stack.pop() {
        let x = at as i64 % w;
        let y = at as i64 / w;
        for dy in -1..=1 {
            for dx in -1..=1 {
                let nx = x + dx;
                let ny = y + dy;
                if (dx != 0 || dy != 0) && nx >= 0 && nx < w && ny >= 0 && ny < h {
                    let next = (ny * w + nx) as usize;
                    if !seen[next] && map.tiles[next] != TileType::Wall {
                        seen[next] = true;
                        stack.push(next);
                    }
                }
            }
        }
    }
    seen
}

fn assert_finished(map: &Grid, start: Position) {
    assert_eq!(map.width, MAPWIDTH as i32);
    assert_eq!(map.height, MAPHEIGHT as i32);
    assert_eq!(map.tiles.len(), MAPCOUNT);
    assert_eq!(map.revealed_tiles.len(), MAPCOUNT);
    assert_eq!(map.visible_tiles.len(), MAPCOUNT);
    assert_eq!(map.blocked.len(), MAPCOUNT);
    assert!(start.x >= 0 && start.x < map.width && start.y >= 0 && start.y < map.height);
    let start_idx = (start.y * map.width + start.x) as usize;
    assert_ne!(map.tiles[start_idx], TileType::Wall);
    assert_eq!(count(map, TileType::DownStairs), 1);
    if count(map, TileType::Floor) > 0 {
        assert_eq!(map.tiles[start_idx], TileType::Floor);
    }
    let seen = walk_from(map, start_idx);
    for i in 0..map.tiles.len() {
        if map.tiles[i] != TileType::Wall {
            assert!(seen[i], "tile {} cannot be walked to", i);
        }
    }
}

fn build_finished(builder: &mut Builder, seed: u64) -> Grid {
    let mut rng = RandomNumberGenerator::seeded(seed);
    builder.build_map(&mut rng);
    let map = builder.get_map();
    assert_finished(&map, builder.get_starting_position());
    map
}

#[test]
fn every_generator_finishes_its_level() {
    for roll in 1..=16 {
        for seed in 1..4u64 {
            let mut builder = builder_for(1, roll);
            let map = build_finished(&mut builder, seed * 7919 + roll as u64);
            assert_eq!(map.depth, 1);
        }
    }
}

#[test]
fn same_seed_gives_the_same_level() {
    for roll in 1..=16 {
        let mut first = builder_for(3, roll);
        let mut second = builder_for(3, roll);
        let a = build_finished(&mut first, 2024);
        let b = build_finished(&mut second, 2024);
        assert!(a.tiles == b.tiles, "generator {} differs between two runs", roll);
        assert_eq!(first.get_starting_position(), second.get_starting_position());
    }
}

#[test]
fn cellular_automata_with_seed_42() {
    let mut builder = CellularAutomataBuilder::new(1);
    let mut rng = RandomNumberGenerator::seeded(42);
    builder.build_map(&mut rng);
    let map = builder.get_map();
    let start = builder.get_starting_position();
    assert!(count(&map, TileType::Floor) >= 1);
    assert_eq!(count(&map, TileType::DownStairs), 1);
    assert_eq!(map.tiles[(start.y * map.width + start.x) as usize], TileType::Floor);
    assert_finished(&map, start);
}

#[test]
fn drunkards_open_area_reaches_its_floor() {
    let mut builder = DrunkardsWalkBuilder::open_area(1);
    let mut rng = RandomNumberGenerator::seeded(42);
    builder.build_map(&mut rng);
    let map = builder.get_map();
    assert_eq!(builder.get_starting_position(), Position { x: 40, y: 21 });
    assert_finished(&map, builder.get_starting_position());
    let history = builder.get_snapshot_history();
    assert!(SHOW_MAPGEN_VISUALIZER);
    assert!(history.len() >= 2);
    let before_pruning = &history[history.len() - 2];
    let dug = before_pruning.tiles.iter().filter(|t| **t != TileType::Wall).count();
    assert!(dug * 100 >= 45 * MAPCOUNT, "only {} tiles were dug", dug);
    assert!(history.len() - 1 <= 250);
    assert!((history.len() - 1) * 400 <= 100_000);
}

#[test]
fn random_builder_gives_a_generator_of_the_table() {
    let mut rng = RandomNumberGenerator::seeded(5);
    for _ in 0..40 {
        let mut builder = random_builder(2, &mut rng);
        assert!(!matches!(builder, Builder::WaveformCollapse(_)));
        builder.build_map(&mut rng);
        let map = builder.get_map();
        assert_eq!(map.depth, 2);
        assert_finished(&map, builder.get_starting_position());
    }
}

#[test]
fn table_of_generators() {
    assert!(matches!(builder_for(1, 1), Builder::BspDungeon(_)));
    assert!(matches!(builder_for(1, 2), Builder::BspDungeon(_)));
    assert!(matches!(builder_for(1, 3), Builder::CellularAutomata(_)));
    assert!(matches!(builder_for(1, 4), Builder::DrunkardsWalk(_)));
    assert!(matches!(builder_for(1, 5), Builder::DrunkardsWalk(_)));
    assert!(matches!(builder_for(1, 6), Builder::DrunkardsWalk(_)));
    assert!(matches!(builder_for(1, 7), Builder::Maze(_)));
    for roll in 8..=13 {
        assert!(matches!(builder_for(1, roll), Builder::Dla(_)));
    }
    assert!(matches!(builder_for(1, 14), Builder::VoronoiCell(_)));
    assert!(matches!(builder_for(1, 15), Builder::VoronoiCell(_)));
    assert!(matches!(builder_for(1, 16), Builder::BspDungeon(_)));
    assert!(matches!(builder_for(1, 0), Builder::BspDungeon(_)));
    assert!(matches!(builder_for(1, 99), Builder::BspDungeon(_)));
}

#[test]
fn new_generators_hold_solid_rock() {
    let builders = vec![
        Builder::BspDungeon(BspDungeonBuilder::new(4)),
        Builder::CellularAutomata(CellularAutomataBuilder::new(4)),
        Builder::DrunkardsWalk(DrunkardsWalkBuilder::winding_passages(4)),
        Builder::Maze(MazeBuilder::new(4)),
        Builder::Dla(DLABuilder::new(4)),
        Builder::VoronoiCell(VoronoiCellBuilder::new(4)),
        Builder::WaveformCollapse(WaveformCollapseBuilder::new(4)),
    ];
    for builder in builders.iter() {
        let map = builder.get_map();
        assert_eq!(map.depth, 4);
        assert_eq!(count(&map, TileType::Wall), MAPCOUNT);
        assert_eq!(builder.get_starting_position(), Position { x: 0, y: 0 });
        assert_eq!(builder.get_snapshot_history().len(), 0);
    }
}
