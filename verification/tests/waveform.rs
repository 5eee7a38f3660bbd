use rltk::RandomNumberGenerator;
use roguelike_mapgen::map::{Grid, TileType};
use roguelike_mapgen::map_builders::waveform_collapse::constraints::{
    compatible, dedupe_patterns, exits_fit, extract_pattern, has_any_exit, opposite, same_pattern,
    side_exits,
};
use roguelike_mapgen::map_builders::waveform_collapse::solver::{
    candidates, fill_places, in_list, is_filled, pick_option, suits_place, COLLAPSE_ATTEMPTS,
};
use roguelike_mapgen::map_builders::waveform_collapse::{
    build_patterns, collapse, image_in_order, load_rex_map, patterns_to_constraints,
    render_pattern_to_map, render_placement, tile_idx_in_chunk, MapChunk, RexImage, RexLayer,
    TemplateError, WaveformCollapseBuilder, CHUNK_SIZE,
};
use roguelike_mapgen::map_builders::MapBuilder;

const W: TileType = TileType::Wall;
const F: TileType = TileType::Floor;

fn picture_of(width: usize, height: usize, floor: &dyn Fn(usize, usize) -> bool) -> RexImage {
    let mut layer = RexLayer::new(width, height);
    for x in 0..width {
        for y in 0..height {
            layer.set(x, y, if floor(x, y) { 32 } else { 35 });
        }
    }
    RexImage { layers: vec![layer] }
}

#[test]
fn tile_index_in_a_chunk() {
    assert_eq!(tile_idx_in_chunk(7, 0, 0), 0);
    assert_eq!(tile_idx_in_chunk(7, 3, 2), 17);
    assert_eq!(tile_idx_in_chunk(7, 6, 6), 48);
    assert_eq!(tile_idx_in_chunk(3, 1, 2), 7);
    assert_eq!(tile_idx_in_chunk(0, 5, 9), 5);
}

#[test]
fn layer_keeps_its_glyphs_column_after_column() {
    let mut layer = RexLayer::new(3, 2);
    assert_eq!(layer.cells, vec![0; 6]);
    layer.set(2, 1, 35);
    layer.set(0, 1, 32);
    layer.set(1, 0, 7);
    assert_eq!(layer.cells, vec![0, 32, 7, 0, 0, 35]);
    assert_eq!(layer.get(2, 1), Some(35));
    assert_eq!(layer.get(0, 1), Some(32));
    assert_eq!(layer.get(1, 0), Some(7));
    assert_eq!(layer.get(0, 0), Some(0));
    assert_eq!(layer.get(3, 0), None);
    assert_eq!(layer.get(0, 2), None);
}

#[test]
fn picture_becomes_a_level() {
    let mut layer = RexLayer::new(4, 3);
    layer.set(1, 1, 32);
    layer.set(2, 1, 32);
    layer.set(3, 2, 35);
    layer.set(0, 0, 64);
    let map = load_rex_map(3, &RexImage { layers: vec![layer] });
    assert_eq!(map.depth, 3);
    assert_eq!(map.width, 80);
    assert_eq!(map.height, 43);
    assert_eq!(map.count_tiles(TileType::Floor), 2);
    assert_eq!(map.tiles[81], TileType::Floor);
    assert_eq!(map.tiles[82], TileType::Floor);
    assert_eq!(map.tiles[0], TileType::Wall);
}

#[test]
fn later_layers_lie_over_earlier_ones() {
    let mut lower = RexLayer::new(2, 2);
    lower.set(0, 0, 32);
    lower.set(1, 0, 32);
    lower.set(1, 1, 32);
    let mut upper = RexLayer::new(2, 1);
    upper.set(0, 0, 35);
    upper.set(1, 0, 1);
    let map = load_rex_map(1, &RexImage { layers: vec![lower, upper] });
    assert_eq!(map.tiles[0], TileType::Wall);
    assert_eq!(map.tiles[1], TileType::Floor);
    assert_eq!(map.tiles[81], TileType::Floor);
    assert_eq!(map.count_tiles(TileType::Floor), 2);
}

#[test]
fn picture_larger_than_the_level_is_cut() {
    let image = picture_of(100, 50, &|_, _| true);
    let map = load_rex_map(1, &image);
    assert_eq!(map.count_tiles(TileType::Floor), 3440);
    let none = load_rex_map(1, &RexImage { layers: Vec::new() });
    assert_eq!(none.count_tiles(TileType::Wall), 3440);
}

#[test]
fn picture_in_order_or_not() {
    let good = picture_of(5, 4, &|x, _| x == 2);
    assert!(image_in_order(&good));
    assert!(image_in_order(&RexImage { layers: Vec::new() }));
    let bad = RexImage { layers: vec![RexLayer { width: 3, height: 3, cells: vec![32; 8] }] };
    assert!(!image_in_order(&bad));
    let worse = RexImage {
        layers: vec![RexLayer::new(2, 2), RexLayer { width: 1, height: 1, cells: Vec::new() }],
    };
    assert!(!image_in_order(&worse));
}

#[test]
fn pattern_is_read_as_it_lies_or_mirrored() {
    let mut map = Grid::with_size(4, 4, 1);
    for idx in [5usize, 6, 9] {
        map.set_tile(idx, TileType::Floor);
    }
    assert_eq!(extract_pattern(&map, 2, 1, 1, false, false), vec![F, F, F, W]);
    assert_eq!(extract_pattern(&map, 2, 1, 1, true, false), vec![F, F, W, F]);
    assert_eq!(extract_pattern(&map, 2, 1, 1, false, true), vec![F, W, F, F]);
    assert_eq!(extract_pattern(&map, 2, 1, 1, true, true), vec![W, F, F, F]);
    assert_eq!(extract_pattern(&map, 2, 0, 0, false, false), vec![W, W, W, F]);
}

#[test]
fn patterns_of_a_level_square_after_square() {
    let mut map = Grid::with_size(5, 4, 1);
    for idx in [0usize, 3, 7, 11, 16] {
        map.set_tile(idx, TileType::Floor);
    }
    let plain = build_patterns(&map, 2, false, false);
    assert_eq!(
        plain,
        vec![vec![F, W, W, W], vec![W, F, F, W], vec![W, F, W, F], vec![W, W, W, W]]
    );
    let all = build_patterns(&map, 2, true, false);
    assert_eq!(all.len(), 16);
    assert_eq!(all[0], vec![F, W, W, W]);
    assert_eq!(all[1], vec![W, F, W, W]);
    assert_eq!(all[2], vec![W, W, F, W]);
    assert_eq!(all[3], vec![W, W, W, F]);
    assert_eq!(all[4], vec![W, F, F, W]);
    assert_eq!(all[5], vec![F, W, W, F]);
    assert_eq!(all[6], vec![F, W, W, F]);
    assert_eq!(all[7], vec![W, F, F, W]);
    assert_eq!(all[8], vec![W, F, W, F]);
    assert_eq!(all[9], vec![F, W, F, W]);
    assert_eq!(all[10], vec![W, F, W, F]);
    assert_eq!(all[11], vec![F, W, F, W]);
    assert_eq!(all[12], vec![W, W, W, W]);
}

#[test]
fn patterns_without_repeats_keep_their_order() {
    let mut map = Grid::with_size(5, 4, 1);
    for idx in [0usize, 3, 7, 11, 16] {
        map.set_tile(idx, TileType::Floor);
    }
    let unique = build_patterns(&map, 2, false, true);
    assert_eq!(
        unique,
        vec![vec![F, W, W, W], vec![W, F, F, W], vec![W, F, W, F], vec![W, W, W, W]]
    );
    map.set_tile(11, TileType::Wall);
    map.set_tile(16, TileType::Wall);
    map.set_tile(13, TileType::Floor);
    map.set_tile(17, TileType::Floor);
    assert_eq!(
        build_patterns(&map, 2, false, true),
        vec![vec![F, W, W, W], vec![W, F, F, W], vec![W, W, W, W]]
    );
    map.set_tile(13, TileType::Wall);
    map.set_tile(17, TileType::Wall);
    map.set_tile(11, TileType::Floor);
    map.set_tile(16, TileType::Floor);
    let unique = build_patterns(&map, 2, true, true);
    assert_eq!(
        unique,
        vec![
            vec![F, W, W, W],
            vec![W, F, W, W],
            vec![W, W, F, W],
            vec![W, W, W, F],
            vec![W, F, F, W],
            vec![F, W, W, F],
            vec![W, F, W, F],
            vec![F, W, F, W],
            vec![W, W, W, W],
        ]
    );
    assert_eq!(dedupe_patterns(&Vec::new()), Vec::<Vec<TileType>>::new());
    assert_eq!(
        dedupe_patterns(&vec![vec![F], vec![W], vec![F], vec![F, F], vec![W]]),
        vec![vec![F], vec![W], vec![F, F]]
    );
}

#[test]
fn patterns_of_a_level_too_small_for_one() {
    let map = Grid::with_size(3, 3, 1);
    assert_eq!(build_patterns(&map, 4, true, true).len(), 0);
    assert_eq!(build_patterns(&map, 3, false, false).len(), 1);
}

#[test]
fn same_pattern_compares_tile_by_tile() {
    assert!(same_pattern(&vec![F, W, F], &vec![F, W, F]));
    assert!(!same_pattern(&vec![F, W, F], &vec![F, W, W]));
    assert!(!same_pattern(&vec![F, W], &vec![F, W, W]));
    assert!(same_pattern(&Vec::new(), &Vec::new()));
}

#[test]
fn exits_are_where_a_side_is_floor() {
    let pattern = vec![W, F, W, F, W, W, W, W, F];
    assert_eq!(side_exits(&pattern, 3, 0), vec![false, true, false]);
    assert_eq!(side_exits(&pattern, 3, 1), vec![false, false, true]);
    assert_eq!(side_exits(&pattern, 3, 2), vec![false, true, false]);
    assert_eq!(side_exits(&pattern, 3, 3), vec![false, false, true]);
    assert!(has_any_exit(&vec![false, true]));
    assert!(!has_any_exit(&vec![false, false]));
    assert!(!has_any_exit(&Vec::new()));
    assert!(exits_fit(&vec![false, true, true], &vec![true, false, true]));
    assert!(!exits_fit(&vec![false, true, false], &vec![true, false, true]));
    assert!(!exits_fit(&vec![true], &Vec::new()));
    assert_eq!(opposite(0), 1);
    assert_eq!(opposite(1), 0);
    assert_eq!(opposite(2), 3);
    assert_eq!(opposite(3), 2);
}

fn three_chunks() -> Vec<MapChunk> {
    let solid = vec![W; 9];
    let cross = vec![W, F, W, F, F, F, W, F, W];
    let corner = vec![F, W, W, W, W, W, W, W, W];
    patterns_to_constraints(vec![solid, cross, corner], 3)
}

#[test]
fn constraints_list_what_may_lie_beside_what() {
    let chunks = three_chunks();
    assert_eq!(chunks.len(), 3);
    assert_eq!(chunks[0].pattern, vec![W; 9]);
    assert!(!chunks[0].has_exits);
    assert!(chunks[1].has_exits);
    assert!(chunks[2].has_exits);
    for side in 0..4 {
        assert_eq!(chunks[0].exits[side], vec![false, false, false]);
        assert_eq!(chunks[1].exits[side], vec![false, true, false]);
        assert_eq!(chunks[0].compatible_with[side], vec![0, 1, 2]);
    }
    assert_eq!(chunks[2].exits[0], vec![true, false, false]);
    assert_eq!(chunks[2].exits[1], vec![false, false, false]);
    assert_eq!(chunks[2].exits[2], vec![true, false, false]);
    assert_eq!(chunks[2].exits[3], vec![false, false, false]);
    assert_eq!(chunks[1].compatible_with[0], vec![0, 1, 2]);
    assert_eq!(chunks[1].compatible_with[1], vec![0, 1]);
    assert_eq!(chunks[1].compatible_with[2], vec![0, 1, 2]);
    assert_eq!(chunks[1].compatible_with[3], vec![0, 1]);
    assert_eq!(chunks[2].compatible_with[0], vec![0, 2]);
    assert_eq!(chunks[2].compatible_with[1], vec![0, 1, 2]);
    assert_eq!(chunks[2].compatible_with[2], vec![0, 2]);
    assert_eq!(chunks[2].compatible_with[3], vec![0, 1, 2]);
}

#[test]
fn compatibility_is_mutual() {
    let chunks = three_chunks();
    for a in 0..3 {
        for b in 0..3 {
            for side in 0..4 {
                let fits = compatible(&chunks[a], &chunks[b], side);
                assert_eq!(fits, compatible(&chunks[b], &chunks[a], opposite(side)));
                assert_eq!(fits, chunks[a].compatible_with[side].contains(&b));
                assert_eq!(fits, chunks[b].compatible_with[opposite(side)].contains(&a));
            }
        }
    }
    assert!(!compatible(&chunks[1], &chunks[2], 1));
    assert!(compatible(&chunks[1], &chunks[2], 0));
}

#[test]
fn candidates_suit_their_neighbours() {
    let chunks = three_chunks();
    assert_eq!(candidates(&chunks, None, None), vec![0, 1, 2]);
    assert_eq!(candidates(&chunks, Some(1), None), vec![0, 1]);
    assert_eq!(candidates(&chunks, None, Some(1)), vec![0, 1]);
    assert_eq!(candidates(&chunks, Some(2), Some(2)), vec![0, 1, 2]);
    assert_eq!(candidates(&chunks, Some(1), Some(2)), vec![0, 1]);
    assert!(suits_place(&chunks, Some(1), None, 1));
    assert!(!suits_place(&chunks, Some(1), None, 2));
    assert!(in_list(&vec![4, 9, 2], 9));
    assert!(!in_list(&vec![4, 9, 2], 3));
    assert_eq!(pick_option(&vec![4, 9, 2], 1), Some(4));
    assert_eq!(pick_option(&vec![4, 9, 2], 3), Some(2));
    assert_eq!(pick_option(&vec![4, 9, 2], 0), None);
    assert_eq!(pick_option(&vec![4, 9, 2], 4), None);
    assert_eq!(pick_option(&Vec::new(), 1), None);
}

fn assert_placement(chunks: &Vec<MapChunk>, placed: &Vec<Option<usize>>, chunks_x: usize) {
    for p in 0..placed.len() {
        let west = if p % chunks_x == 0 { None } else { placed[p - 1] };
        let north = if p < chunks_x { None } else { placed[p - chunks_x] };
        match placed[p] {
            Some(j) => {
                assert!(j < chunks.len());
                if let Some(a) = west {
                    assert!(chunks[a].compatible_with[3].contains(&j));
                    assert!(chunks[j].compatible_with[2].contains(&a));
                }
                if let Some(a) = north {
                    assert!(chunks[a].compatible_with[1].contains(&j));
                    assert!(chunks[j].compatible_with[0].contains(&a));
                }
            }
            None => assert!(candidates(chunks, west, north).is_empty()),
        }
    }
}

#[test]
fn collapse_puts_patterns_that_suit_side_by_side() {
    let chunks = three_chunks();
    let mut rng = RandomNumberGenerator::seeded(6);
    let placed = collapse(&chunks, 11, 6, &mut rng);
    assert_eq!(placed.len(), 66);
    assert_placement(&chunks, &placed, 11);
    assert!(placed.iter().all(|p| p.is_some()));
    let mut used = [false; 3];
    for p in placed.iter() {
        used[p.unwrap()] = true;
    }
    assert!(used[0] && used[1] && used[2]);
}

#[test]
fn collapse_leaves_a_place_empty_where_nothing_suits() {
    let first = vec![F, W, W, W, W, F, W, W, W];
    let second = vec![W, W, F, W, W, W, F, W, W];
    let chunks = patterns_to_constraints(vec![first, second], 3);
    assert_eq!(chunks[0].compatible_with[3], Vec::<usize>::new());
    assert_eq!(chunks[1].compatible_with[3], vec![0]);
    assert_eq!(chunks[0].compatible_with[2], vec![1]);
    assert_eq!(chunks[1].compatible_with[2], Vec::<usize>::new());
    let mut rng = RandomNumberGenerator::seeded(2);
    let mut holes = 0;
    for _ in 0..20 {
        let placed = collapse(&chunks, 4, 1, &mut rng);
        assert_eq!(placed.len(), 4);
        assert_placement(&chunks, &placed, 4);
        assert!(placed[0].is_some());
        holes += placed.iter().filter(|p| p.is_none()).count();
        for p in 1..4 {
            if placed[p - 1] == Some(0) {
                assert_eq!(placed[p], None);
            }
            if placed[p - 1] == Some(1) {
                assert_eq!(placed[p], Some(0));
            }
        }
    }
    assert!(holes > 0);
    let none: Vec<MapChunk> = Vec::new();
    let empty = collapse(&none, 3, 2, &mut rng);
    assert_eq!(empty, vec![None; 6]);
}

#[test]
fn pattern_is_laid_on_the_level() {
    let mut map = Grid::with_size(5, 4, 1);
    map.set_tile(0, TileType::Floor);
    render_pattern_to_map(&mut map, &vec![F, W, W, F, F, F], 0, 0, 0);
    assert_eq!(map.count_tiles(TileType::Floor), 1);
    let mut map = Grid::with_size(5, 4, 1);
    map.set_tile(12, TileType::Floor);
    render_pattern_to_map(&mut map, &vec![F, W, W, F], 2, 2, 1);
    assert_eq!(map.tiles[7], TileType::Floor);
    assert_eq!(map.tiles[8], TileType::Wall);
    assert_eq!(map.tiles[12], TileType::Wall);
    assert_eq!(map.tiles[13], TileType::Floor);
    assert_eq!(map.count_tiles(TileType::Floor), 2);
    for idx in 0..20 {
        assert_eq!(map.visible_tiles[idx], idx == 7 || idx == 8 || idx == 12 || idx == 13);
    }
}

#[test]
fn placement_is_laid_on_the_level() {
    let chunks = three_chunks();
    let placed = vec![Some(1), None, Some(2), Some(0), Some(1), Some(1)];
    let mut map = Grid::with_size(10, 7, 1);
    render_placement(&mut map, &chunks, &placed, 3, 3, 2);
    let floor: Vec<usize> = (0..70).filter(|i| map.tiles[*i] == TileType::Floor).collect();
    assert_eq!(
        floor,
        vec![1, 6, 10, 11, 12, 21, 34, 37, 43, 44, 45, 46, 47, 48, 54, 57]
    );
}

#[test]
fn builder_without_a_picture_reports_it() {
    let mut builder = WaveformCollapseBuilder::new(2);
    let mut rng = RandomNumberGenerator::seeded(1);
    assert_eq!(builder.get_failure(), None);
    assert_eq!(builder.build(&mut rng), Err(TemplateError::Missing));
    assert_eq!(builder.get_failure(), Some(TemplateError::Missing));
    let map = builder.get_map();
    assert_eq!(map.depth, 2);
    assert_eq!(map.count_tiles(TileType::DownStairs), 1);
    assert_eq!(map.count_tiles(TileType::Floor), 0);
    assert_eq!(map.tiles[21 * 80 + 40], TileType::DownStairs);
}

#[test]
fn builder_with_a_picture_out_of_order_reports_it() {
    let bad = RexImage { layers: vec![RexLayer { width: 80, height: 43, cells: vec![32; 10] }] };
    let mut builder = WaveformCollapseBuilder::with_template(1, bad);
    let mut rng = RandomNumberGenerator::seeded(1);
    assert_eq!(builder.build(&mut rng), Err(TemplateError::Malformed));
    assert_eq!(builder.get_map().count_tiles(TileType::DownStairs), 1);
    builder.build_map(&mut rng);
    assert_eq!(builder.get_failure(), Some(TemplateError::Malformed));
    assert_eq!(builder.get_map().count_tiles(TileType::DownStairs), 1);
}

#[test]
fn builder_puts_a_level_together_from_a_picture() {
    assert_eq!(CHUNK_SIZE, 7);
    let image = picture_of(80, 43, &|x, y| {
        (x % 7 == 3 && y % 14 < 10) || (y % 7 == 3 && x % 21 < 16) || (x % 11 == 0 && y % 5 == 1)
    });
    let mut builder = WaveformCollapseBuilder::with_template(4, image);
    let mut rng = RandomNumberGenerator::seeded(14);
    assert_eq!(builder.build(&mut rng), Ok(()));
    assert_eq!(builder.get_failure(), None);
    let map = builder.get_map();
    assert_eq!(map.depth, 4);
    assert_eq!(map.count_tiles(TileType::DownStairs), 1);
    assert!(map.count_tiles(TileType::Floor) > 20);
    let start = builder.get_starting_position();
    assert_eq!(start.y, 21);
    assert_ne!(map.tiles[map.xy_idx(start.x, start.y)], TileType::Wall);
    for x in 77..80 {
        for y in 0..43 {
            assert_eq!(map.tiles[map.xy_idx(x, y)], TileType::Wall);
        }
    }
    let history = builder.get_snapshot_history();
    assert!(history.len() >= 5);
    assert!(history[history.len() - 1].tiles == map.tiles);
}

#[test]
fn builder_is_the_same_for_the_same_seed() {
    let shape = |x: usize, y: usize| (x + 2 * y) % 5 == 0 || x % 7 == 3;
    let mut first = WaveformCollapseBuilder::with_template(1, picture_of(80, 43, &shape));
    let mut second = WaveformCollapseBuilder::with_template(1, picture_of(80, 43, &shape));
    let mut rng = RandomNumberGenerator::seeded(99);
    first.build_map(&mut rng);
    let mut rng = RandomNumberGenerator::seeded(99);
    second.build_map(&mut rng);
    assert!(first.get_map().tiles == second.get_map().tiles);
    assert_eq!(first.get_starting_position(), second.get_starting_position());
}

#[test]
fn filled_or_not() {
    assert!(is_filled(&vec![Some(1), Some(0)]));
    assert!(!is_filled(&vec![Some(1), None, Some(0)]));
    assert!(is_filled(&Vec::new()));
}

#[test]
fn collapse_begins_again_where_a_place_stayed_empty() {
    assert_eq!(COLLAPSE_ATTEMPTS, 32);
    let first = vec![W, W, F, F, W, W, W, W, W];
    let second = vec![F, W, W, W, W, F, W, W, W];
    let third = vec![F, W, W, W, W, W, W, W, F];
    let chunks = patterns_to_constraints(vec![first, second, third], 3);
    assert_eq!(chunks[0].compatible_with[3], vec![1, 2]);
    assert_eq!(chunks[1].compatible_with[3], vec![0]);
    assert_eq!(chunks[2].compatible_with[3], Vec::<usize>::new());
    let mut rng = RandomNumberGenerator::seeded(3);
    let mut holes = 0;
    for _ in 0..40 {
        let once = fill_places(&chunks, 4, 1, &mut rng);
        assert_placement(&chunks, &once, 4);
        if !is_filled(&once) {
            holes += 1;
        }
        let placed = collapse(&chunks, 4, 1, &mut rng);
        assert_placement(&chunks, &placed, 4);
        assert!(is_filled(&placed));
    }
    assert!(holes > 0);
}
