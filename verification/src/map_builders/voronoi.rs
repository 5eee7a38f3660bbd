//! Levels cut into cells around scattered seeds, with walls where cells
//! meet.

use crate::dice::roll_die;
use crate::map::{
    lemma_index_tile, lemma_tile_index, tile_index, Grid, GridView, Position, TileType, MAPHEIGHT,
    MAPWIDTH,
};
use crate::map_builders::common::{
    generate_voronoi_spawn_regions, inside_rim, is_partition, regions_fit,
};
use crate::map_builders::{
    clone_history, extends, find_starting_floor, finish_level, finished_from, history_view,
    is_scanned_start, lemma_finish_deterministic, lemma_scan_deterministic, level_complete,
    record_snapshot, revealed_copy, solid_rock, MapBuilder, SHOW_MAPGEN_VISUALIZER,
};
use crate::spawner::{regions_in_turn, spawn_in_level};
use rltk::RandomNumberGenerator;
use std::collections::HashMap;
use vstd::prelude::*;

verus! {

/// The seeds are scattered with no more throws of the dice than this.
pub const MAX_SEED_ATTEMPTS: u32 = 100_000;

/// How far apart two tiles are taken to be.
#[derive(PartialEq, Eq, Structural, Copy, Clone, Debug)]
pub enum DistanceAlgorithm {
    Pythagoras,
    Manhattan,
    Chebyshev,
}

/// The distance between two coordinates on one axis.
pub open spec fn axis_gap(a: int, b: int) -> int {
    if a >= b {
        a - b
    } else {
        b - a
    }
}

/// The distance between `(x1, y1)` and `(x2, y2)`: for `Pythagoras` the sum
/// of the squares of the gaps on the two axes, for `Manhattan` their sum, for
/// `Chebyshev` the greater of the two.
pub open spec fn distance_between(
    algorithm: DistanceAlgorithm,
    x1: int,
    y1: int,
    x2: int,
    y2: int,
) -> int {
    let dx = axis_gap(x1, x2);
    let dy = axis_gap(y1, y2);
    match algorithm {
        DistanceAlgorithm::Pythagoras => dx * dx + dy * dy,
        DistanceAlgorithm::Manhattan => dx + dy,
        DistanceAlgorithm::Chebyshev => if dx > dy {
            dx
        } else {
            dy
        },
    }
}

/// A distance does not depend on the order of its two ends, is never
/// negative, and is zero from a tile to itself.
pub proof fn lemma_distance_metric(algorithm: DistanceAlgorithm, x1: int, y1: int, x2: int, y2: int)
    ensures
        distance_between(algorithm, x1, y1, x2, y2) == distance_between(algorithm, x2, y2, x1, y1),
        distance_between(algorithm, x1, y1, x2, y2) >= 0,
        distance_between(algorithm, x1, y1, x1, y1) == 0,
{
    let dx = axis_gap(x1, x2);
    let dy = axis_gap(y1, y2);
    let none = axis_gap(x1, x1);
    assert(none * none == 0) by (nonlinear_arith)
        requires
            none == 0,
    ;
}

/// The distance between two tiles.
pub fn distance2d(algorithm: DistanceAlgorithm, start: Position, end: Position) -> (d: u128)
    ensures
        d == distance_between(
            algorithm,
            start.x as int,
            start.y as int,
            end.x as int,
            end.y as int,
        ),
{
    let dx: u128 = if start.x >= end.x {
        (start.x as i64 - end.x as i64) as u128
    } else {
        (end.x as i64 - start.x as i64) as u128
    };
    let dy: u128 = if start.y >= end.y {
        (start.y as i64 - end.y as i64) as u128
    } else {
        (end.y as i64 - start.y as i64) as u128
    };
    match algorithm {
        DistanceAlgorithm::Pythagoras => {
            assert(dx * dx <= 0x1_0000_0000_0000_0000 && dy * dy <= 0x1_0000_0000_0000_0000)
                by (nonlinear_arith)
                requires
                    dx <= 0x1_0000_0000,
                    dy <= 0x1_0000_0000,
            ;
            dx * dx + dy * dy
        },
        DistanceAlgorithm::Manhattan => dx + dy,
        DistanceAlgorithm::Chebyshev => if dx > dy {
            dx
        } else {
            dy
        },
    }
}

/// The seed among the first `n` that lies nearest to `(x, y)`; of several
/// that lie equally near, the first. Zero where there is no seed.
pub open spec fn nearest_seed(
    seeds: Seq<Position>,
    algorithm: DistanceAlgorithm,
    x: int,
    y: int,
    n: int,
) -> int
    decreases n,
{
    if n <= 1 {
        0
    } else {
        let best = nearest_seed(seeds, algorithm, x, y, n - 1);
        if distance_between(algorithm, x, y, seeds[n - 1].x as int, seeds[n - 1].y as int)
            < distance_between(algorithm, x, y, seeds[best].x as int, seeds[best].y as int) {
            n - 1
        } else {
            best
        }
    }
}

/// The cell of every tile: the number of its nearest seed.
pub open spec fn cells_of(
    seeds: Seq<Position>,
    algorithm: DistanceAlgorithm,
    width: int,
    height: int,
) -> Seq<i32> {
    Seq::new(
        (width * height) as nat,
        |i: int| nearest_seed(seeds, algorithm, i % width, i / width, seeds.len() as int) as i32,
    )
}

/// How many of the four tiles that share a side with tile `i` lie in
/// another cell.
pub open spec fn foreign_sides(cells: Seq<i32>, width: int, i: int) -> int {
    (if cells[i - 1] != cells[i] {
        1int
    } else {
        0int
    }) + (if cells[i + 1] != cells[i] {
        1int
    } else {
        0int
    }) + (if cells[i - width] != cells[i] {
        1int
    } else {
        0int
    }) + (if cells[i + width] != cells[i] {
        1int
    } else {
        0int
    })
}

/// The tiles with the cells carved: inside the rim, every tile that has
/// fewer than two sides on another cell is floor.
pub open spec fn with_cells(tiles: Seq<TileType>, cells: Seq<i32>, width: int, height: int) -> Seq<
    TileType,
> {
    Seq::new(
        tiles.len(),
        |i: int|
            if inside_rim(width, height, i % width, i / width) && foreign_sides(cells, width, i)
                < 2 {
                TileType::Floor
            } else {
                tiles[i]
            },
    )
}

/// The seeds lie on the grid, none in its first column or row, and no two on
/// one tile.
pub open spec fn seeds_scattered(seeds: Seq<Position>, width: int, height: int) -> bool {
    &&& forall|s: int|
        0 <= s < seeds.len() ==> 1 <= (#[trigger] seeds[s]).x < width && 1 <= seeds[s].y < height
    &&& forall|s: int, t: int| 0 <= s < t < seeds.len() ==> seeds[s] != seeds[t]
}

/// The places among the first `n` throws that no throw before them gave, in
/// the order of the throws.
pub open spec fn first_throws(throws: Seq<Position>, n: int) -> Seq<Position>
    decreases n,
{
    if n <= 0 {
        Seq::empty()
    } else {
        let before = first_throws(throws, n - 1);
        if before.contains(throws[n - 1]) {
            before
        } else {
            before.push(throws[n - 1])
        }
    }
}

/// The seeds are what the throws give where `n_seeds` seeds are asked for:
/// every throw lies on the grid and not in its first column or row, the
/// seeds are the places thrown, each where it was thrown first, and the
/// throws go on until the seeds are as many as asked for, or the throws as
/// many as there may be, and no longer.
pub open spec fn scattered_by(
    throws: Seq<Position>,
    n_seeds: int,
    width: int,
    height: int,
    seeds: Seq<Position>,
) -> bool {
    &&& throws.len() <= MAX_SEED_ATTEMPTS
    &&& forall|t: int|
        0 <= t < throws.len() ==> 1 <= (#[trigger] throws[t]).x < width && 1 <= throws[t].y
            < height
    &&& seeds == first_throws(throws, throws.len() as int)
    &&& seeds.len() == n_seeds || throws.len() == MAX_SEED_ATTEMPTS
    &&& throws.len() > 0 ==> first_throws(throws, throws.len() - 1).len() < n_seeds
}

/// Seeds and a distance have one level: the same seeds give the same start
/// and the same tiles.
pub proof fn lemma_cells_deterministic(
    seeds: Seq<Position>,
    algorithm: DistanceAlgorithm,
    first_raw: Seq<TileType>,
    first_start: Position,
    first: Seq<TileType>,
    second_raw: Seq<TileType>,
    second_start: Position,
    second: Seq<TileType>,
)
    requires
        grown_from_seeds(seeds, algorithm, first_start, first_raw),
        finished_from(
            first_raw,
            tile_index(MAPWIDTH as int, first_start.x as int, first_start.y as int),
            first,
        ),
        grown_from_seeds(seeds, algorithm, second_start, second_raw),
        finished_from(
            second_raw,
            tile_index(MAPWIDTH as int, second_start.x as int, second_start.y as int),
            second,
        ),
    ensures
        first_start == second_start,
        first == second,
{
    lemma_scan_deterministic(
        with_cells(
            solid_rock((MAPWIDTH * MAPHEIGHT) as nat),
            cells_of(seeds, algorithm, MAPWIDTH as int, MAPHEIGHT as int),
            MAPWIDTH as int,
            MAPHEIGHT as int,
        ),
        MAPWIDTH as int,
        MAPHEIGHT as int,
        first_start,
        first_raw,
        second_start,
        second_raw,
    );
    lemma_finish_deterministic(
        first_raw,
        tile_index(MAPWIDTH as int, first_start.x as int, first_start.y as int),
        first,
        second,
    );
}

/// The seeds are what some throws of the dice give where `n_seeds` seeds
/// are asked for.
pub open spec fn seeds_thrown(seeds: Seq<Position>, n_seeds: int, width: int, height: int) -> bool {
    exists|throws: Seq<Position>| #[trigger] scattered_by(throws, n_seeds, width, height, seeds)
}

/// What the first throws give does not depend on the throws after them.
pub proof fn lemma_first_throws_prefix(throws: Seq<Position>, next: Position, n: int)
    requires
        n <= throws.len(),
    ensures
        first_throws(throws.push(next), n) == first_throws(throws, n),
    decreases n,
{
    if n > 0 {
        lemma_first_throws_prefix(throws, next, n - 1);
        assert(throws.push(next)[n - 1] == throws[n - 1]);
    }
}

/// `raw` are the tiles of a level of the standard size before it is
/// finished: solid rock in which the cells of the seeds were carved and the
/// start `start` was found by the scan of the middle row.
pub open spec fn grown_from_seeds(
    seeds: Seq<Position>,
    algorithm: DistanceAlgorithm,
    start: Position,
    raw: Seq<TileType>,
) -> bool {
    is_scanned_start(
        with_cells(
            solid_rock((MAPWIDTH * MAPHEIGHT) as nat),
            cells_of(seeds, algorithm, MAPWIDTH as int, MAPHEIGHT as int),
            MAPWIDTH as int,
            MAPHEIGHT as int,
        ),
        MAPWIDTH as int,
        MAPHEIGHT as int,
        start,
        raw,
    )
}

/// The nearest seed is one of the seeds.
pub proof fn lemma_nearest_seed_bounds(
    seeds: Seq<Position>,
    algorithm: DistanceAlgorithm,
    x: int,
    y: int,
    n: int,
)
    ensures
        0 <= nearest_seed(seeds, algorithm, x, y, n),
        n >= 1 ==> nearest_seed(seeds, algorithm, x, y, n) < n,
    decreases n,
{
    if n > 1 {
        lemma_nearest_seed_bounds(seeds, algorithm, x, y, n - 1);
    }
}

/// No seed lies nearer than the nearest, and none before it lies as near.
pub proof fn lemma_nearest_seed(
    seeds: Seq<Position>,
    algorithm: DistanceAlgorithm,
    x: int,
    y: int,
    n: int,
    s: int,
)
    requires
        0 <= s < n,
    ensures
        distance_between(
            algorithm,
            x,
            y,
            seeds[nearest_seed(seeds, algorithm, x, y, n)].x as int,
            seeds[nearest_seed(seeds, algorithm, x, y, n)].y as int,
        ) <= distance_between(algorithm, x, y, seeds[s].x as int, seeds[s].y as int),
        s < nearest_seed(seeds, algorithm, x, y, n) ==> distance_between(
            algorithm,
            x,
            y,
            seeds[nearest_seed(seeds, algorithm, x, y, n)].x as int,
            seeds[nearest_seed(seeds, algorithm, x, y, n)].y as int,
        ) < distance_between(algorithm, x, y, seeds[s].x as int, seeds[s].y as int),
    decreases n,
{
    if n > 1 {
        lemma_nearest_seed_bounds(seeds, algorithm, x, y, n - 1);
        if s < n - 1 {
            lemma_nearest_seed(seeds, algorithm, x, y, n - 1, s);
        }
    }
}

/// Gives every tile of a grid of the given size its cell: the number of the
/// seed that lies nearest to it.
pub fn assign_cells(
    seeds: &Vec<Position>,
    algorithm: DistanceAlgorithm,
    width: i32,
    height: i32,
) -> (cells: Vec<i32>)
    requires
        0 < width,
        0 <= height,
        width * height <= usize::MAX,
        seeds@.len() <= i32::MAX,
    ensures
        cells@ == cells_of(seeds@, algorithm, width as int, height as int),
{
    let mut cells: Vec<i32> = Vec::new();
    let ghost w = width as int;
    let ghost h = height as int;
    let mut y: i32 = 0;
    while y < height
        invariant
            0 <= y <= height,
            0 < width,
            w == width,
            h == height,
            width * height <= usize::MAX,
            seeds@.len() <= i32::MAX,
            cells@.len() == y * width,
            forall|i: int|
                0 <= i < cells@.len() ==> cells@[i] == nearest_seed(
                    seeds@,
                    algorithm,
                    i % w,
                    i / w,
                    seeds@.len() as int,
                ) as i32,
        decreases height - y,
    {
        let mut x: i32 = 0;
        while x < width
            invariant
                0 <= y < height,
                0 <= x <= width,
                0 < width,
                w == width,
                h == height,
                seeds@.len() <= i32::MAX,
                cells@.len() == y * width + x,
                forall|i: int|
                    0 <= i < cells@.len() ==> cells@[i] == nearest_seed(
                        seeds@,
                        algorithm,
                        i % w,
                        i / w,
                        seeds@.len() as int,
                    ) as i32,
            decreases width - x,
        {
            let here = Position { x, y };
            let mut best: usize = 0;
            let mut s: usize = 1;
            while s < seeds.len()
                invariant
                    1 <= s,
                    s <= seeds@.len() || s == 1,
                    seeds@.len() <= i32::MAX,
                    here == (Position { x, y }),
                    best == nearest_seed(seeds@, algorithm, x as int, y as int, s as int),
                    best < s,
                decreases seeds@.len() - s,
            {
                if distance2d(algorithm, here, seeds[s]) < distance2d(algorithm, here, seeds[best]) {
                    best = s;
                }
                s = s + 1;
            }
            proof {
                lemma_tile_index(w, h, x as int, y as int);
            }
            let ghost prior = cells@;
            cells.push(best as i32);
            proof {
                assert forall|i: int| 0 <= i < cells@.len() implies cells@[i] == nearest_seed(
                    seeds@,
                    algorithm,
                    i % w,
                    i / w,
                    seeds@.len() as int,
                ) as i32 by {
                    if i < prior.len() {
                        assert(prior[i] == nearest_seed(
                            seeds@,
                            algorithm,
                            i % w,
                            i / w,
                            seeds@.len() as int,
                        ) as i32);
                    } else {
                        lemma_nearest_seed_bounds(
                            seeds@,
                            algorithm,
                            x as int,
                            y as int,
                            seeds@.len() as int,
                        );
                        assert(best == nearest_seed(
                            seeds@,
                            algorithm,
                            x as int,
                            y as int,
                            seeds@.len() as int,
                        ));
                    }
                }
            }
            x = x + 1;
        }
        assert((y + 1) * width == y * width + width) by (nonlinear_arith);
        y = y + 1;
    }
    assert(h * w == w * h) by (nonlinear_arith);
    cells
}

/// Carves the cells: inside the rim, every tile that has fewer than two
/// sides on another cell becomes floor.
pub fn carve_cells(map: &mut Grid, history: &mut Vec<Grid>, cells: &Vec<i32>)
    requires
        old(map).wf(),
        cells@.len() == old(map).tiles@.len(),
        forall|i: int| 0 <= i < old(history)@.len() ==> (#[trigger] old(history)@[i]).wf(),
    ensures
        final(map).wf(),
        final(map)@ == (GridView {
            tiles: with_cells(
                old(map).tiles@,
                cells@,
                old(map).width as int,
                old(map).height as int,
            ),
            ..old(map)@
        }),
        forall|i: int| 0 <= i < final(history)@.len() ==> (#[trigger] final(history)@[i]).wf(),
        extends(history_view(final(history)@), history_view(old(history)@)),
        !SHOW_MAPGEN_VISUALIZER ==> history_view(final(history)@) == history_view(old(history)@),
{
    let ghost before = map.tiles@;
    let ghost w = map.width as int;
    let ghost h = map.height as int;
    let mut y: i32 = 1;
    while y < map.height - 1
        invariant
            map.wf(),
            1 <= y,
            w == map.width,
            h == map.height,
            cells@.len() == before.len(),
            map@ == (GridView { tiles: map.tiles@, ..old(map)@ }),
            map.tiles@.len() == before.len(),
            forall|i: int|
                0 <= i < before.len() ==> #[trigger] map.tiles@[i] == if inside_rim(w, h, i % w, i / w)
                    && foreign_sides(cells@, w, i) < 2 && i / w < y {
                    TileType::Floor
                } else {
                    before[i]
                },
            forall|i: int| 0 <= i < history@.len() ==> (#[trigger] history@[i]).wf(),
            extends(history_view(history@), history_view(old(history)@)),
            !SHOW_MAPGEN_VISUALIZER ==> history_view(history@) == history_view(old(history)@),
        decreases map.height - y,
    {
        let mut x: i32 = 1;
        while x < map.width - 1
            invariant
                map.wf(),
                1 <= y < map.height - 1,
                1 <= x,
                w == map.width,
                h == map.height,
                cells@.len() == before.len(),
                map@ == (GridView { tiles: map.tiles@, ..old(map)@ }),
                map.tiles@.len() == before.len(),
                forall|i: int|
                    0 <= i < before.len() ==> #[trigger] map.tiles@[i] == if inside_rim(
                        w,
                        h,
                        i % w,
                        i / w,
                    ) && foreign_sides(cells@, w, i) < 2 && (i / w < y || (i / w == y && i % w
                        < x)) {
                        TileType::Floor
                    } else {
                        before[i]
                    },
            decreases map.width - x,
        {
            let mut neighbors: u32 = 0;
            let my_idx = map.xy_idx(x, y);
            let my_seed = cells[my_idx];
            let west = map.xy_idx(x - 1, y);
            let east = map.xy_idx(x + 1, y);
            let north = map.xy_idx(x, y - 1);
            let south = map.xy_idx(x, y + 1);
            if cells[west] != my_seed {
                neighbors = neighbors + 1;
            }
            if cells[east] != my_seed {
                neighbors = neighbors + 1;
            }
            if cells[north] != my_seed {
                neighbors = neighbors + 1;
            }
            if cells[south] != my_seed {
                neighbors = neighbors + 1;
            }
            proof {
                assert((y - 1) * w == y * w - w) by (nonlinear_arith);
                assert((y + 1) * w == y * w + w) by (nonlinear_arith);
            }
            let ghost prior = map.tiles@;
            if neighbors < 2 {
                map.set_tile(my_idx, TileType::Floor);
            }
            proof {
                lemma_tile_index(w, h, x as int, y as int);
                assert forall|i: int| 0 <= i < before.len() implies #[trigger] map.tiles@[i]
                    == if inside_rim(w, h, i % w, i / w) && foreign_sides(cells@, w, i) < 2 && (i
                    / w < y || (i / w == y && i % w < x + 1)) {
                    TileType::Floor
                } else {
                    before[i]
                } by {
                    lemma_index_tile(w, h, i);
                    assert(prior[i] == if inside_rim(w, h, i % w, i / w) && foreign_sides(
                        cells@,
                        w,
                        i,
                    ) < 2 && (i / w < y || (i / w == y && i % w < x)) {
                        TileType::Floor
                    } else {
                        before[i]
                    });
                }
            }
            x = x + 1;
        }
        proof {
            assert forall|i: int| 0 <= i < before.len() implies #[trigger] map.tiles@[i]
                == if inside_rim(w, h, i % w, i / w) && foreign_sides(cells@, w, i) < 2 && i / w < y
                + 1 {
                TileType::Floor
            } else {
                before[i]
            } by {
                lemma_index_tile(w, h, i);
            }
        }
        record_snapshot(history, map);
        y = y + 1;
    }
    proof {
        assert forall|i: int| 0 <= i < before.len() implies map.tiles@[i] == with_cells(
            before,
            cells@,
            w,
            h,
        )[i] by {
            lemma_index_tile(w, h, i);
        }
        assert(map.tiles@ =~= with_cells(before, cells@, w, h));
    }
}

pub struct VoronoiCellBuilder {
    map: Grid,
    starting_position: Position,
    depth: i32,
    history: Vec<Grid>,
    noise_areas: HashMap<i32, Vec<usize>>,
    n_seeds: usize,
    distance_algorithm: DistanceAlgorithm,
}

impl VoronoiCellBuilder {
    /// The spawn regions found so far.
    pub closed spec fn regions(&self) -> Map<i32, Vec<usize>> {
        self.noise_areas@
    }

    /// The number of seeds and the way distances are taken.
    pub closed spec fn settings(&self) -> (usize, DistanceAlgorithm) {
        (self.n_seeds, self.distance_algorithm)
    }

    fn with_distance(new_depth: i32, distance_algorithm: DistanceAlgorithm) -> (builder:
        VoronoiCellBuilder)
        ensures
            builder.wf(),
            builder.level().depth == new_depth,
            builder.level() == Grid::solid(new_depth),
            builder.settings() == (64usize, distance_algorithm),
            builder.start() == (Position { x: 0, y: 0 }),
            builder.history() == Seq::<GridView>::empty(),
            builder.regions() == Map::<i32, Vec<usize>>::empty(),
            forall|i: int|
                0 <= i < builder.level().tiles.len() ==> builder.level().tiles[i] == TileType::Wall,
    {
        let builder = VoronoiCellBuilder {
            map: Grid::new(new_depth),
            starting_position: Position { x: 0, y: 0 },
            depth: new_depth,
            history: Vec::new(),
            noise_areas: HashMap::new(),
            n_seeds: 64,
            distance_algorithm,
        };
        builder
    }

    pub fn new(new_depth: i32) -> (builder: VoronoiCellBuilder)
        ensures
            builder.wf(),
            builder.level().depth == new_depth,
            builder.level() == Grid::solid(new_depth),
            builder.settings() == (64usize, DistanceAlgorithm::Pythagoras),
            builder.history() == Seq::<GridView>::empty(),
            builder.regions() == Map::<i32, Vec<usize>>::empty(),
    {
        VoronoiCellBuilder::with_distance(new_depth, DistanceAlgorithm::Pythagoras)
    }

    pub fn pythagoras(new_depth: i32) -> (builder: VoronoiCellBuilder)
        ensures
            builder.wf(),
            builder.level().depth == new_depth,
            builder.level() == Grid::solid(new_depth),
            builder.settings() == (64usize, DistanceAlgorithm::Pythagoras),
            builder.history() == Seq::<GridView>::empty(),
            builder.regions() == Map::<i32, Vec<usize>>::empty(),
    {
        VoronoiCellBuilder::with_distance(new_depth, DistanceAlgorithm::Pythagoras)
    }

    pub fn manhattan(new_depth: i32) -> (builder: VoronoiCellBuilder)
        ensures
            builder.wf(),
            builder.level().depth == new_depth,
            builder.level() == Grid::solid(new_depth),
            builder.settings() == (64usize, DistanceAlgorithm::Manhattan),
            builder.history() == Seq::<GridView>::empty(),
            builder.regions() == Map::<i32, Vec<usize>>::empty(),
    {
        VoronoiCellBuilder::with_distance(new_depth, DistanceAlgorithm::Manhattan)
    }

    /// Sorts the floor tiles of the level into spawn regions by the values
    /// given, one for each tile.
    pub fn partition(&mut self, cell_values: &Vec<i32>)
        requires
            old(self).wf(),
            cell_values@.len() == old(self).level().tiles.len(),
        ensures
            final(self).wf(),
            final(self).level() == old(self).level(),
            final(self).start() == old(self).start(),
            final(self).history() == old(self).history(),
            final(self).settings() == old(self).settings(),
            is_partition(
                final(self).regions(),
                final(self).level().tiles,
                cell_values@,
                cell_values@.len() as int,
            ),
    {
        self.noise_areas = generate_voronoi_spawn_regions(&self.map, cell_values);
    }

    /// The spawn regions found by the last partition.
    pub fn get_noise_areas(&self) -> (regions: HashMap<i32, Vec<usize>>)
        ensures
            regions@ == self.regions(),
    {
        self.noise_areas.clone()
    }

    /// Scatters seeds over a grid of the given size: throws a place again
    /// and again and takes every place that was not thrown before for a
    /// seed, until the seeds are as many as asked for or the dice ran out of
    /// throws. No two seeds lie on one tile and none in the first column or
    /// row.
    fn scatter_seeds(rng: &mut RandomNumberGenerator, n_seeds: usize, width: i32, height: i32) -> (seeds:
        Vec<Position>)
        requires
            2 <= width,
            2 <= height,
        ensures
            seeds_thrown(seeds@, n_seeds as int, width as int, height as int),
            seeds@.len() <= n_seeds,
            seeds@.len() <= MAX_SEED_ATTEMPTS,
            seeds_scattered(seeds@, width as int, height as int),
    {
        let mut seeds: Vec<Position> = Vec::new();
        let mut attempts: u32 = 0;
        let ghost mut throws: Seq<Position> = Seq::empty();
        while seeds.len() < n_seeds && attempts < MAX_SEED_ATTEMPTS
            invariant
                2 <= width,
                2 <= height,
                seeds@.len() <= n_seeds,
                seeds@.len() <= attempts <= MAX_SEED_ATTEMPTS,
                forall|s: int|
                    0 <= s < seeds@.len() ==> 1 <= (#[trigger] seeds@[s]).x < width && 1
                        <= seeds@[s].y < height,
                forall|s: int, t: int| 0 <= s < t < seeds@.len() ==> seeds@[s] != seeds@[t],
                throws.len() == attempts,
                forall|t: int|
                    0 <= t < throws.len() ==> 1 <= (#[trigger] throws[t]).x < width && 1
                        <= throws[t].y < height,
                seeds@ == first_throws(throws, throws.len() as int),
                throws.len() > 0 ==> first_throws(throws, throws.len() - 1).len() < n_seeds,
            decreases MAX_SEED_ATTEMPTS - attempts,
        {
            let vx = roll_die(rng, width - 1);
            let vy = roll_die(rng, height - 1);
            let candidate = Position { x: vx, y: vy };
            let mut found = false;
            let mut s: usize = 0;
            while s < seeds.len()
                invariant
                    s <= seeds@.len(),
                    found == exists|t: int| 0 <= t < s && seeds@[t] == candidate,
                decreases seeds@.len() - s,
            {
                if seeds[s].x == candidate.x && seeds[s].y == candidate.y {
                    found = true;
                }
                s = s + 1;
            }
            proof {
                lemma_first_throws_prefix(throws, candidate, throws.len() as int);
                assert(found == seeds@.contains(candidate));
                throws = throws.push(candidate);
            }
            if !found {
                seeds.push(candidate);
            }
            attempts = attempts + 1;
        }
        assert(scattered_by(throws, n_seeds as int, width as int, height as int, seeds@));
        seeds
    }

    /// Builds the level: scatters the seeds, as many as the settings ask
    /// for unless the dice run out of throws, gives every tile its cell,
    /// carves the cells, scans for the start, and finishes the level from
    /// there.
    pub fn build(&mut self, rng: &mut RandomNumberGenerator)
        requires
            old(self).wf(),
        ensures
            final(self).wf(),
            level_complete(final(self).level(), final(self).start()),
            final(self).level().depth == old(self).level().depth,
            final(self).built(old(self)),
            extends(final(self).history(), old(self).history()),
            !SHOW_MAPGEN_VISUALIZER ==> final(self).history() == old(self).history(),
            SHOW_MAPGEN_VISUALIZER ==> final(self).history().len() > old(self).history().len()
                && final(self).history().last() == revealed_copy(final(self).level()),
    {
        self.map = Grid::new(self.depth);
        self.noise_areas = HashMap::new();
        let ghost rock = self.map.tiles@;
        let voronoi_seeds = VoronoiCellBuilder::scatter_seeds(
            rng,
            self.n_seeds,
            self.map.width,
            self.map.height,
        );
        let voronoi_membership = assign_cells(
            &voronoi_seeds,
            self.distance_algorithm,
            self.map.width,
            self.map.height,
        );
        carve_cells(&mut self.map, &mut self.history, &voronoi_membership);
        let ghost carved = self.map.tiles@;
        self.starting_position = find_starting_floor(&mut self.map);
        record_snapshot(&mut self.history, &self.map);
        let ghost raw = self.map.tiles@;
        finish_level(&mut self.map, &mut self.history, self.starting_position);
        proof {
            assert(carved == with_cells(
                rock,
                cells_of(
                    voronoi_seeds@,
                    self.distance_algorithm,
                    MAPWIDTH as int,
                    MAPHEIGHT as int,
                ),
                MAPWIDTH as int,
                MAPHEIGHT as int,
            ));
            assert(grown_from_seeds(
                voronoi_seeds@,
                self.distance_algorithm,
                self.starting_position,
                raw,
            ));
            assert(finished_from(
                raw,
                tile_index(
                    MAPWIDTH as int,
                    self.starting_position.x as int,
                    self.starting_position.y as int,
                ),
                self.map.tiles@,
            ));
            assert(grown_from_seeds(voronoi_seeds@, self.settings().1, self.start(), raw));
            assert(seeds_thrown(
                voronoi_seeds@,
                self.settings().0 as int,
                MAPWIDTH as int,
                MAPHEIGHT as int,
            ));
            assert(finished_from(
                raw,
                tile_index(MAPWIDTH as int, self.start().x as int, self.start().y as int),
                self.level().tiles,
            ));
        }
    }
}

impl MapBuilder for VoronoiCellBuilder {
    closed spec fn wf(&self) -> bool {
        &&& self.map.wf()
        &&& self.map.width == MAPWIDTH
        &&& self.map.height == MAPHEIGHT
        &&& self.map.depth == self.depth
        &&& regions_fit(self.noise_areas@, self.map.tiles@)
        &&& forall|i: int| 0 <= i < self.history@.len() ==> (#[trigger] self.history@[i]).wf()
    }

    closed spec fn level(&self) -> GridView {
        self.map@
    }

    closed spec fn start(&self) -> Position {
        self.starting_position
    }

    closed spec fn history(&self) -> Seq<GridView> {
        history_view(self.history@)
    }

    open spec fn spawn_areas(&self, areas: Seq<Seq<usize>>) -> bool {
        regions_in_turn(self.regions(), areas)
    }

    open spec fn built(&self, before: &VoronoiCellBuilder) -> bool {
        &&& self.settings() == before.settings()
        &&& self.regions() == Map::<i32, Vec<usize>>::empty()
        &&& exists|seeds: Seq<Position>, raw: Seq<TileType>|
            {
                &&& seeds.len() <= self.settings().0
                &&& seeds_scattered(seeds, MAPWIDTH as int, MAPHEIGHT as int)
                &&& seeds_thrown(
                    seeds,
                    self.settings().0 as int,
                    MAPWIDTH as int,
                    MAPHEIGHT as int,
                )
                &&& #[trigger] grown_from_seeds(seeds, self.settings().1, self.start(), raw)
                &&& finished_from(
                    raw,
                    tile_index(MAPWIDTH as int, self.start().x as int, self.start().y as int),
                    self.level().tiles,
                )
            }
    }

    fn build_map(&mut self, rng: &mut RandomNumberGenerator) {
        self.build(rng);
    }

    fn get_map(&self) -> (map: Grid) {
        self.map.clone()
    }

    fn get_starting_position(&self) -> (start: Position) {
        self.starting_position
    }

    fn get_snapshot_history(&self) -> (history: Vec<Grid>) {
        clone_history(&self.history)
    }

    fn take_snapshot(&mut self) {
        record_snapshot(&mut self.history, &self.map);
    }

    fn spawn_entities(&self, rng: &mut RandomNumberGenerator) -> (spawns: Vec<(usize, String)>) {
        spawn_in_level(&self.map, &self.noise_areas, rng)
    }
}

} // verus!
