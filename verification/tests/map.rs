use roguelike_mapgen::map::{
    is_revealed_and_wall, wall_glyph, EntityRef, Grid, Position, TileType, DIAGONAL_COST, MAPCOUNT,
    MAPHEIGHT, MAPWIDTH, STRAIGHT_COST,
};

#[test]
fn standard_size() {
    assert_eq!(MAPWIDTH, 80);
    assert_eq!(MAPHEIGHT, 43);
    assert_eq!(MAPCOUNT, 3440);
    assert_eq!(STRAIGHT_COST, 100);
    assert_eq!(DIAGONAL_COST, 145);
}

#[test]
fn new_map_is_solid_rock() {
    let map = Grid::new(7);
    assert_eq!(map.width, 80);
    assert_eq!(map.height, 43);
    assert_eq!(map.depth, 7);
    assert_eq!(map.tiles.len(), 3440);
    assert_eq!(map.revealed_tiles.len(), 3440);
    assert_eq!(map.visible_tiles.len(), 3440);
    assert_eq!(map.blocked.len(), 3440);
    assert_eq!(map.tile_content.len(), 3440);
    assert!(map.tiles.iter().all(|t| *t == TileType::Wall));
    assert!(map.revealed_tiles.iter().all(|b| !*b));
    assert!(map.visible_tiles.iter().all(|b| !*b));
    assert!(map.blocked.iter().all(|b| !*b));
    assert!(map.tile_content.iter().all(|c| c.is_empty()));
    assert!(map.bloodstains.is_empty());
    assert_eq!(map.count_tiles(TileType::Wall), 3440);
    assert_eq!(map.count_tiles(TileType::Floor), 0);
}

#[test]
fn map_of_any_size() {
    let map = Grid::with_size(5, 3, 2);
    assert_eq!(map.width, 5);
    assert_eq!(map.height, 3);
    assert_eq!(map.tiles.len(), 15);
    assert_eq!(map.blocked.len(), 15);
    let none = Grid::with_size(0, 9, 1);
    assert_eq!(none.tiles.len(), 0);
}

#[test]
fn xy_idx_goes_row_after_row() {
    let map = Grid::new(1);
    assert_eq!(map.xy_idx(0, 0), 0);
    assert_eq!(map.xy_idx(1, 2), 161);
    assert_eq!(map.xy_idx(79, 0), 79);
    assert_eq!(map.xy_idx(0, 1), 80);
    assert_eq!(map.xy_idx(79, 42), 3439);
    let small = Grid::with_size(5, 3, 1);
    assert_eq!(small.xy_idx(4, 2), 14);
    assert_eq!(small.xy_idx(2, 1), 7);
}

#[test]
fn idx_xy_undoes_xy_idx() {
    let map = Grid::new(1);
    assert_eq!(map.idx_xy(161), (1, 2));
    assert_eq!(map.idx_xy(3439), (79, 42));
    for idx in [0usize, 79, 80, 1720, 3439] {
        let (x, y) = map.idx_xy(idx);
        assert_eq!(map.xy_idx(x, y), idx);
    }
}

#[test]
fn set_tile_changes_one_tile() {
    let mut map = Grid::with_size(4, 4, 1);
    map.set_tile(5, TileType::Floor);
    map.set_tile(6, TileType::DownStairs);
    assert_eq!(map.tiles[5], TileType::Floor);
    assert_eq!(map.tiles[6], TileType::DownStairs);
    assert_eq!(map.count_tiles(TileType::Wall), 14);
    assert_eq!(map.count_tiles(TileType::Floor), 1);
    assert_eq!(map.count_tiles(TileType::DownStairs), 1);
}

#[test]
fn populate_blocked_follows_the_walls() {
    let mut map = Grid::with_size(3, 3, 1);
    map.set_tile(4, TileType::Floor);
    map.set_tile(8, TileType::DownStairs);
    map.blocked[4] = true;
    map.populate_blocked();
    for i in 0..9 {
        assert_eq!(map.blocked[i], i != 4 && i != 8);
    }
    assert_eq!(map.tiles[4], TileType::Floor);
}

#[test]
fn is_exit_valid_wants_an_open_tile_of_the_grid() {
    let mut map = Grid::with_size(3, 3, 1);
    map.set_tile(4, TileType::Floor);
    map.set_tile(0, TileType::Floor);
    map.populate_blocked();
    assert!(map.is_exit_valid(1, 1));
    assert!(map.is_exit_valid(0, 0));
    assert!(!map.is_exit_valid(2, 1));
    assert!(!map.is_exit_valid(-1, 1));
    assert!(!map.is_exit_valid(1, -1));
    assert!(!map.is_exit_valid(3, 1));
    assert!(!map.is_exit_valid(1, 3));
}

#[test]
fn clear_content_index_empties_every_tile() {
    let mut map = Grid::with_size(2, 2, 1);
    map.tile_content[1].push(EntityRef { index: 3, generation: 1 });
    map.tile_content[3].push(EntityRef { index: 4, generation: 2 });
    map.tile_content[3].push(EntityRef { index: 5, generation: 1 });
    map.clear_content_index();
    assert_eq!(map.tile_content.len(), 4);
    assert!(map.tile_content.iter().all(|c| c.is_empty()));
}

#[test]
fn clone_copies_every_part() {
    let mut map = Grid::with_size(3, 2, 9);
    map.set_tile(2, TileType::Floor);
    map.revealed_tiles[1] = true;
    map.visible_tiles[4] = true;
    map.blocked[5] = true;
    map.bloodstains.insert(3);
    map.tile_content[0].push(EntityRef { index: 1, generation: 1 });
    let copy = map.clone();
    assert_eq!(copy.width, 3);
    assert_eq!(copy.height, 2);
    assert_eq!(copy.depth, 9);
    assert!(copy.tiles == map.tiles);
    assert_eq!(copy.revealed_tiles, map.revealed_tiles);
    assert_eq!(copy.visible_tiles, map.visible_tiles);
    assert_eq!(copy.blocked, map.blocked);
    assert_eq!(copy.bloodstains.len(), 1);
    assert!(copy.bloodstains.contains(&3));
    assert_eq!(copy.tile_content, map.tile_content);
    map.bloodstains.insert(4);
    assert_eq!(copy.bloodstains.len(), 1);
}

#[test]
fn is_opaque_for_walls_only() {
    let mut map = Grid::with_size(2, 1, 1);
    map.set_tile(1, TileType::Floor);
    assert!(map.is_opaque(0));
    assert!(!map.is_opaque(1));
}

#[test]
fn position_holds_its_coordinates() {
    let p = Position { x: 4, y: -2 };
    assert_eq!(p, Position { x: 4, y: -2 });
    assert_ne!(p, Position { x: 4, y: 2 });
}

#[test]
fn wall_glyph_joins_the_walls_seen() {
    let mut map = Grid::with_size(5, 5, 1);
    assert_eq!(wall_glyph(&map, 0, 2), 35);
    assert_eq!(wall_glyph(&map, 2, 0), 35);
    assert_eq!(wall_glyph(&map, 4, 2), 35);
    assert_eq!(wall_glyph(&map, 2, 4), 35);
    assert_eq!(wall_glyph(&map, -3, 99), 35);
    assert_eq!(wall_glyph(&map, 2, 2), 9);
    let north = map.xy_idx(2, 1);
    let south = map.xy_idx(2, 3);
    let west = map.xy_idx(1, 2);
    let east = map.xy_idx(3, 2);
    map.revealed_tiles[north] = true;
    assert!(is_revealed_and_wall(&map, 2, 1));
    assert!(!is_revealed_and_wall(&map, 2, 3));
    assert_eq!(wall_glyph(&map, 2, 2), 186);
    map.revealed_tiles[west] = true;
    assert_eq!(wall_glyph(&map, 2, 2), 188);
    map.revealed_tiles[south] = true;
    assert_eq!(wall_glyph(&map, 2, 2), 185);
    map.revealed_tiles[east] = true;
    assert_eq!(wall_glyph(&map, 2, 2), 206);
    map.set_tile(north, TileType::Floor);
    assert!(!is_revealed_and_wall(&map, 2, 1));
    assert_eq!(wall_glyph(&map, 2, 2), 203);
    map.set_tile(south, TileType::Floor);
    assert_eq!(wall_glyph(&map, 2, 2), 205);
    map.set_tile(west, TileType::Floor);
    assert_eq!(wall_glyph(&map, 2, 2), 205);
    map.revealed_tiles[south] = true;
    map.set_tile(south, TileType::Wall);
    assert_eq!(wall_glyph(&map, 2, 2), 201);
}
