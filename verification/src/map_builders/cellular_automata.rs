//! Caves grown by a cellular automaton.

use crate::dice::roll_die;
use crate::map::{
    lemma_index_tile, lemma_tile_index, tile_index, Grid, GridView, Position, TileType, MAPHEIGHT,
    MAPWIDTH,
};
use crate::map_builders::common::{
    generate_voronoi_spawn_regions, inside_rim, is_partition, regions_fit,
};
use crate::map_builders::{
    clone_history, extends, find_starting_floor, finish_level, finished_from, history_view,
    is_scanned_start, lemma_finish_deterministic, lemma_scan_deterministic, level_complete,
    no_stairs, record_snapshot, revealed_copy, MapBuilder, SHOW_MAPGEN_VISUALIZER,
};
use crate::pathing::{dir_dx, dir_dy, direction};
use crate::spawner::{regions_in_turn, spawn_in_level};
use rltk::RandomNumberGenerator;
use std::collections::HashMap;
use vstd::prelude::*;

verus! {

/// The number of smoothing passes.
pub const SMOOTHING_PASSES: usize = 15;

/// A tile that is seeded becomes floor where the die of a hundred faces
/// shows more than this.
pub const WALL_CHANCE: i32 = 55;

/// How many of the neighbours of tile `i` in the first `k` directions are
/// walls.
pub open spec fn wall_neighbours(tiles: Seq<TileType>, width: int, i: int, k: int) -> int
    decreases k,
{
    if k <= 0 {
        0
    } else {
        wall_neighbours(tiles, width, i, k - 1) + if tiles[tile_index(
            width,
            i % width + dir_dx(k - 1),
            i / width + dir_dy(k - 1),
        )] == TileType::Wall {
            1int
        } else {
            0int
        }
    }
}

/// What a tile inside the rim becomes in a smoothing pass: a wall where more
/// than four of its eight neighbours are walls or none is, floor otherwise.
pub open spec fn smoothed_tile(tiles: Seq<TileType>, width: int, i: int) -> TileType {
    let walls = wall_neighbours(tiles, width, i, 8);
    if walls > 4 || walls == 0 {
        TileType::Wall
    } else {
        TileType::Floor
    }
}

/// The tiles after one smoothing pass: those inside the rim by the rule,
/// those on the rim as they were.
pub open spec fn smoothed(tiles: Seq<TileType>, width: int, height: int) -> Seq<TileType> {
    Seq::new(
        tiles.len(),
        |i: int|
            if inside_rim(width, height, i % width, i / width) {
                smoothed_tile(tiles, width, i)
            } else {
                tiles[i]
            },
    )
}

/// The tiles after `passes` smoothing passes.
pub open spec fn smoothed_times(tiles: Seq<TileType>, width: int, height: int, passes: nat) -> Seq<
    TileType,
>
    decreases passes,
{
    if passes == 0 {
        tiles
    } else {
        smoothed(smoothed_times(tiles, width, height, (passes - 1) as nat), width, height)
    }
}

/// The tiles are those of a level that was solid rock before its tiles inside
/// the rim were seeded.
pub open spec fn is_seeded(tiles: Seq<TileType>, width: int, height: int) -> bool {
    &&& tiles.len() == width * height
    &&& forall|i: int|
        0 <= i < tiles.len() ==> #[trigger] tiles[i] == TileType::Wall || (tiles[i]
            == TileType::Floor && inside_rim(width, height, i % width, i / width))
}

/// The level with the start `start` and the tiles `finished` is the cave of
/// the seeded tiles: they were smoothed a fixed number of times, the scan of
/// the middle row gave the start, and the level was finished from there.
pub open spec fn cave_from(seeded: Seq<TileType>, start: Position, finished: Seq<TileType>) -> bool {
    exists|raw: Seq<TileType>|
        is_scanned_start(
            smoothed_times(seeded, MAPWIDTH as int, MAPHEIGHT as int, SMOOTHING_PASSES as nat),
            MAPWIDTH as int,
            MAPHEIGHT as int,
            start,
            raw,
        ) && #[trigger] finished_from(
            raw,
            tile_index(MAPWIDTH as int, start.x as int, start.y as int),
            finished,
        )
}

/// Seeded tiles have one cave: the same seeding gives the same start and
/// the same level.
pub proof fn lemma_cave_deterministic(
    seeded: Seq<TileType>,
    first_start: Position,
    first: Seq<TileType>,
    second_start: Position,
    second: Seq<TileType>,
)
    requires
        cave_from(seeded, first_start, first),
        cave_from(seeded, second_start, second),
    ensures
        first_start == second_start,
        first == second,
{
    let smooth = smoothed_times(seeded, MAPWIDTH as int, MAPHEIGHT as int, SMOOTHING_PASSES as nat);
    let a = choose|raw: Seq<TileType>|
        is_scanned_start(smooth, MAPWIDTH as int, MAPHEIGHT as int, first_start, raw)
            && #[trigger] finished_from(
            raw,
            tile_index(MAPWIDTH as int, first_start.x as int, first_start.y as int),
            first,
        );
    let b = choose|raw: Seq<TileType>|
        is_scanned_start(smooth, MAPWIDTH as int, MAPHEIGHT as int, second_start, raw)
            && #[trigger] finished_from(
            raw,
            tile_index(MAPWIDTH as int, second_start.x as int, second_start.y as int),
            second,
        );
    lemma_scan_deterministic(
        smooth,
        MAPWIDTH as int,
        MAPHEIGHT as int,
        first_start,
        a,
        second_start,
        b,
    );
    lemma_finish_deterministic(
        a,
        tile_index(MAPWIDTH as int, first_start.x as int, first_start.y as int),
        first,
        second,
    );
}

/// Smoothing makes no stairs.
pub proof fn lemma_smoothed_no_stairs(tiles: Seq<TileType>, width: int, height: int, passes: nat)
    requires
        no_stairs(tiles),
    ensures
        no_stairs(smoothed_times(tiles, width, height, passes)),
        smoothed_times(tiles, width, height, passes).len() == tiles.len(),
    decreases passes,
{
    if passes > 0 {
        lemma_smoothed_no_stairs(tiles, width, height, (passes - 1) as nat);
    }
}

/// What a seeded tile becomes when the die shows `roll`.
pub fn seeded_tile(roll: i32) -> (kind: TileType)
    ensures
        kind == if roll > WALL_CHANCE {
            TileType::Floor
        } else {
            TileType::Wall
        },
{
    if roll > WALL_CHANCE {
        TileType::Floor
    } else {
        TileType::Wall
    }
}

/// Seeds every tile inside the rim at random, floor or wall, one throw of
/// the die of a hundred faces for each; the rim is left as it was.
pub fn seed_tiles(map: &mut Grid, rng: &mut RandomNumberGenerator)
    requires
        old(map).wf(),
    ensures
        final(map).wf(),
        final(map)@ == (GridView { tiles: final(map).tiles@, ..old(map)@ }),
        final(map).tiles@.len() == old(map).tiles@.len(),
        forall|i: int|
            0 <= i < old(map).tiles@.len() ==> if inside_rim(
                old(map).width as int,
                old(map).height as int,
                i % old(map).width as int,
                i / old(map).width as int,
            ) {
                #[trigger] final(map).tiles@[i] == TileType::Floor || final(map).tiles@[i]
                    == TileType::Wall
            } else {
                final(map).tiles@[i] == old(map).tiles@[i]
            },
{
    let ghost before = map.tiles@;
    let ghost w = map.width as int;
    let ghost h = map.height as int;
    let mut y: i32 = 1;
    while y < map.height - 1
        invariant
            map.wf(),
            1 <= y,
            w == map.width,
            h == map.height,
            map@ == (GridView { tiles: map.tiles@, ..old(map)@ }),
            map.tiles@.len() == before.len(),
            forall|i: int|
                0 <= i < before.len() ==> if inside_rim(w, h, i % w, i / w) {
                    #[trigger] map.tiles@[i] == TileType::Floor || map.tiles@[i] == TileType::Wall
                        || map.tiles@[i] == before[i]
                } else {
                    map.tiles@[i] == before[i]
                },
            forall|i: int|
                0 <= i < before.len() && inside_rim(w, h, i % w, i / w) && i / w < y
                    ==> #[trigger] map.tiles@[i] == TileType::Floor || map.tiles@[i]
                    == TileType::Wall,
        decreases map.height - y,
    {
        let mut x: i32 = 1;
        while x < map.width - 1
            invariant
                map.wf(),
                1 <= y < map.height - 1,
                1 <= x,
                w == map.width,
                h == map.height,
                map@ == (GridView { tiles: map.tiles@, ..old(map)@ }),
                map.tiles@.len() == before.len(),
                forall|i: int|
                    0 <= i < before.len() ==> if inside_rim(w, h, i % w, i / w) {
                        #[trigger] map.tiles@[i] == TileType::Floor || map.tiles@[i]
                            == TileType::Wall || map.tiles@[i] == before[i]
                    } else {
                        map.tiles@[i] == before[i]
                    },
                forall|i: int|
                    0 <= i < before.len() && inside_rim(w, h, i % w, i / w) && (i / w < y || (i / w
                        == y && i % w < x)) ==> #[trigger] map.tiles@[i] == TileType::Floor
                        || map.tiles@[i] == TileType::Wall,
            decreases map.width - x,
        {
            let roll = roll_die(rng, 100);
            let idx = map.xy_idx(x, y);
            map.set_tile(idx, seeded_tile(roll));
            proof {
                lemma_tile_index(w, h, x as int, y as int);
                assert forall|i: int|
                    0 <= i < before.len() && inside_rim(w, h, i % w, i / w) && (i / w < y || (i / w
                        == y && i % w < x + 1)) implies #[trigger] map.tiles@[i] == TileType::Floor
                    || map.tiles@[i] == TileType::Wall by {
                    lemma_index_tile(w, h, i);
                }
            }
            x = x + 1;
        }
        y = y + 1;
    }
    proof {
        assert forall|i: int| 0 <= i < before.len() implies if inside_rim(w, h, i % w, i / w) {
            #[trigger] map.tiles@[i] == TileType::Floor || map.tiles@[i] == TileType::Wall
        } else {
            map.tiles@[i] == before[i]
        } by {
            lemma_index_tile(w, h, i);
        }
    }
}

/// One smoothing pass: every tile inside the rim is set by the walls among
/// its eight neighbours as they stood before the pass.
pub fn smooth(map: &mut Grid)
    requires
        old(map).wf(),
    ensures
        final(map).wf(),
        final(map)@ == (GridView {
            tiles: smoothed(old(map).tiles@, old(map).width as int, old(map).height as int),
            ..old(map)@
        }),
{
    let ghost before = map.tiles@;
    let ghost w = map.width as int;
    let ghost h = map.height as int;
    let mut newtiles = map.tiles.clone();
    let mut y: i32 = 1;
    while y < map.height - 1
        invariant
            map.wf(),
            map@ == old(map)@,
            1 <= y,
            w == map.width,
            h == map.height,
            before == map.tiles@,
            newtiles@.len() == before.len(),
            forall|i: int|
                0 <= i < before.len() ==> #[trigger] newtiles@[i] == if inside_rim(w, h, i % w, i / w)
                    && i / w < y {
                    smoothed_tile(before, w, i)
                } else {
                    before[i]
                },
        decreases map.height - y,
    {
        let mut x: i32 = 1;
        while x < map.width - 1
            invariant
                map.wf(),
                map@ == old(map)@,
                1 <= y < map.height - 1,
                1 <= x,
                w == map.width,
                h == map.height,
                before == map.tiles@,
                newtiles@.len() == before.len(),
                forall|i: int|
                    0 <= i < before.len() ==> #[trigger] newtiles@[i] == if inside_rim(
                        w,
                        h,
                        i % w,
                        i / w,
                    ) && (i / w < y || (i / w == y && i % w < x)) {
                        smoothed_tile(before, w, i)
                    } else {
                        before[i]
                    },
            decreases map.width - x,
        {
            let idx = map.xy_idx(x, y);
            proof {
                lemma_tile_index(w, h, x as int, y as int);
            }
            let mut neighbors: u32 = 0;
            let mut k: usize = 0;
            while k < 8
                invariant
                    map.wf(),
                    k <= 8,
                    1 <= y < map.height - 1,
                    1 <= x < map.width - 1,
                    w == map.width,
                    h == map.height,
                    before == map.tiles@,
                    idx % (w as usize) == x,
                    idx / (w as usize) == y,
                    idx < before.len(),
                    neighbors == wall_neighbours(before, w, idx as int, k as int),
                    neighbors <= k,
                decreases 8 - k,
            {
                let (dx, dy, cost) = direction(k);
                let at = map.xy_idx(x + dx, y + dy);
                if map.tiles[at] == TileType::Wall {
                    neighbors = neighbors + 1;
                }
                k = k + 1;
            }
            let ghost prior = newtiles@;
            if neighbors > 4 || neighbors == 0 {
                newtiles.set(idx, TileType::Wall);
            } else {
                newtiles.set(idx, TileType::Floor);
            }
            proof {
                assert forall|i: int| 0 <= i < before.len() implies #[trigger] newtiles@[i]
                    == if inside_rim(w, h, i % w, i / w) && (i / w < y || (i / w == y && i % w < x
                    + 1)) {
                    smoothed_tile(before, w, i)
                } else {
                    before[i]
                } by {
                    lemma_index_tile(w, h, i);
                    assert(prior[i] == if inside_rim(w, h, i % w, i / w) && (i / w < y || (i / w
                        == y && i % w < x)) {
                        smoothed_tile(before, w, i)
                    } else {
                        before[i]
                    });
                }
            }
            x = x + 1;
        }
        y = y + 1;
    }
    proof {
        assert(newtiles@ =~= smoothed(before, w, h)) by {
            assert forall|i: int| 0 <= i < before.len() implies newtiles@[i] == smoothed(
                before,
                w,
                h,
            )[i] by {
                lemma_index_tile(w, h, i);
            }
        }
    }
    map.tiles = newtiles;
}

pub struct CellularAutomataBuilder {
    map: Grid,
    starting_position: Position,
    depth: i32,
    history: Vec<Grid>,
    noise_areas: HashMap<i32, Vec<usize>>,
}

impl CellularAutomataBuilder {
    /// The spawn regions found so far.
    pub closed spec fn regions(&self) -> Map<i32, Vec<usize>> {
        self.noise_areas@
    }

    pub fn new(new_depth: i32) -> (builder: CellularAutomataBuilder)
        ensures
            builder.wf(),
            builder.level().depth == new_depth,
            builder.level() == Grid::solid(new_depth),
            builder.start() == (Position { x: 0, y: 0 }),
            builder.history() == Seq::<GridView>::empty(),
            builder.regions() == Map::<i32, Vec<usize>>::empty(),
            forall|i: int|
                0 <= i < builder.level().tiles.len() ==> builder.level().tiles[i] == TileType::Wall,
    {
        let builder = CellularAutomataBuilder {
            map: Grid::new(new_depth),
            starting_position: Position { x: 0, y: 0 },
            depth: new_depth,
            history: Vec::new(),
            noise_areas: HashMap::new(),
        };
        builder
    }

    /// Sorts the floor tiles of the level into spawn regions by the values
    /// given, one for each tile.
    pub fn partition(&mut self, cell_values: &Vec<i32>)
        requires
            old(self).wf(),
            cell_values@.len() == old(self).level().tiles.len(),
        ensures
            final(self).wf(),
            final(self).level() == old(self).level(),
            final(self).start() == old(self).start(),
            final(self).history() == old(self).history(),
            is_partition(
                final(self).regions(),
                final(self).level().tiles,
                cell_values@,
                cell_values@.len() as int,
            ),
    {
        self.noise_areas = generate_voronoi_spawn_regions(&self.map, cell_values);
    }

    /// The spawn regions found by the last partition.
    pub fn get_noise_areas(&self) -> (regions: HashMap<i32, Vec<usize>>)
        ensures
            regions@ == self.regions(),
    {
        self.noise_areas.clone()
    }

    /// Builds the level: seeds the tiles inside the rim, smooths them a fixed
    /// number of times, scans for the start, and finishes the level from
    /// there.
    pub fn build(&mut self, rng: &mut RandomNumberGenerator)
        requires
            old(self).wf(),
        ensures
            final(self).wf(),
            level_complete(final(self).level(), final(self).start()),
            final(self).level().depth == old(self).level().depth,
            final(self).built(old(self)),
            extends(final(self).history(), old(self).history()),
            !SHOW_MAPGEN_VISUALIZER ==> final(self).history() == old(self).history(),
            SHOW_MAPGEN_VISUALIZER ==> final(self).history().len() > old(self).history().len()
                && final(self).history().last() == revealed_copy(final(self).level()),
    {
        self.map = Grid::new(self.depth);
        self.noise_areas = HashMap::new();
        seed_tiles(&mut self.map, rng);
        let ghost seeded = self.map.tiles@;
        record_snapshot(&mut self.history, &self.map);

        let mut pass: usize = 0;
        while pass < SMOOTHING_PASSES
            invariant
                self.wf(),
                pass <= SMOOTHING_PASSES,
                self.depth == old(self).depth,
                self.noise_areas@ == Map::<i32, Vec<usize>>::empty(),
                self.map.tiles@ == smoothed_times(
                    seeded,
                    MAPWIDTH as int,
                    MAPHEIGHT as int,
                    pass as nat,
                ),
                extends(self.history(), old(self).history()),
                !SHOW_MAPGEN_VISUALIZER ==> self.history() == old(self).history(),
            decreases SMOOTHING_PASSES - pass,
        {
            smooth(&mut self.map);
            record_snapshot(&mut self.history, &self.map);
            pass = pass + 1;
        }
        proof {
            lemma_smoothed_no_stairs(
                seeded,
                MAPWIDTH as int,
                MAPHEIGHT as int,
                SMOOTHING_PASSES as nat,
            );
        }

        self.starting_position = find_starting_floor(&mut self.map);
        record_snapshot(&mut self.history, &self.map);
        let ghost raw = self.map.tiles@;
        finish_level(&mut self.map, &mut self.history, self.starting_position);
        proof {
            assert(is_seeded(seeded, MAPWIDTH as int, MAPHEIGHT as int));
            assert(finished_from(
                raw,
                tile_index(
                    MAPWIDTH as int,
                    self.starting_position.x as int,
                    self.starting_position.y as int,
                ),
                self.map.tiles@,
            ));
        }
    }
}

impl MapBuilder for CellularAutomataBuilder {
    closed spec fn wf(&self) -> bool {
        &&& self.map.wf()
        &&& self.map.width == MAPWIDTH
        &&& self.map.height == MAPHEIGHT
        &&& self.map.depth == self.depth
        &&& regions_fit(self.noise_areas@, self.map.tiles@)
        &&& forall|i: int| 0 <= i < self.history@.len() ==> (#[trigger] self.history@[i]).wf()
    }

    closed spec fn level(&self) -> GridView {
        self.map@
    }

    closed spec fn start(&self) -> Position {
        self.starting_position
    }

    closed spec fn history(&self) -> Seq<GridView> {
        history_view(self.history@)
    }

    open spec fn spawn_areas(&self, areas: Seq<Seq<usize>>) -> bool {
        regions_in_turn(self.regions(), areas)
    }

    open spec fn built(&self, before: &CellularAutomataBuilder) -> bool {
        &&& self.regions() == Map::<i32, Vec<usize>>::empty()
        &&& exists|seeded: Seq<TileType>|
            #[trigger] is_seeded(seeded, MAPWIDTH as int, MAPHEIGHT as int) && cave_from(
                seeded,
                self.start(),
                self.level().tiles,
            )
    }

    fn build_map(&mut self, rng: &mut RandomNumberGenerator) {
        self.build(rng);
    }

    fn get_map(&self) -> (map: Grid) {
        self.map.clone()
    }

    fn get_starting_position(&self) -> (start: Position) {
        self.starting_position
    }

    fn get_snapshot_history(&self) -> (history: Vec<Grid>) {
        clone_history(&self.history)
    }

    fn take_snapshot(&mut self) {
        record_snapshot(&mut self.history, &self.map);
    }

    fn spawn_entities(&self, rng: &mut RandomNumberGenerator) -> (spawns: Vec<(usize, String)>) {
        spawn_in_level(&self.map, &self.noise_areas, rng)
    }
}

} // verus!
