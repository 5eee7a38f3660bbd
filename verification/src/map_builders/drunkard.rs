//! Caves dug by walkers that stagger at random.

use crate::dice::roll_die;
use crate::map::{
    count_kind, tile_index, Grid, GridView, Position, TileType, MAPHEIGHT, MAPWIDTH,
};
use crate::map_builders::common::{
    clear_marks, desired_floor_tiles, floor_target, generate_voronoi_spawn_regions, is_partition,
    regions_fit, stagger, staggered,
};
use crate::map_builders::{
    clone_history, extends, finish_level, finished_from, history_view, level_complete,
    record_snapshot, revealed_copy, MapBuilder, SHOW_MAPGEN_VISUALIZER,
};
use crate::spawner::{regions_in_turn, spawn_in_level};
use rltk::RandomNumberGenerator;
use std::collections::HashMap;
use vstd::prelude::*;

verus! {

/// No level sends out more walkers than this: with walkers of four hundred
/// steps no level takes more than a hundred thousand steps.
pub const MAX_DIGGERS: u32 = 250;

/// Where a walker sets out.
#[derive(PartialEq, Eq, Structural, Copy, Clone, Debug)]
pub enum DrunkSpawnMode {
    StartingPoint,
    Random,
}

/// How the walkers behave: where they set out, how many steps each takes,
/// and how many hundredths of the level are to be floor.
#[derive(Copy, Clone, Debug)]
pub struct DrunkardSettings {
    pub spawn_mode: DrunkSpawnMode,
    pub drunken_lifetime: i32,
    pub floor_percent: i32,
}

/// One stagger leads from `a` to `b` on a level of the standard size.
pub open spec fn staggers_to(a: (int, int), b: (int, int)) -> bool {
    exists|direction: int|
        1 <= direction <= 4 && b == #[trigger] staggered(
            MAPWIDTH as int,
            MAPHEIGHT as int,
            a.0,
            a.1,
            direction,
        )
}

/// `path` is the way of a walker: every tile and the next are one stagger
/// apart, and all lie at least two tiles from the rim.
pub open spec fn is_stagger_path(path: Seq<(int, int)>) -> bool {
    &&& forall|t: int| #![trigger path[t]] 1 <= t < path.len() ==> staggers_to(path[t - 1], path[t])
    &&& forall|t: int|
        0 <= t < path.len() ==> 2 <= (#[trigger] path[t]).0 <= MAPWIDTH - 2 && 2 <= path[t].1
            <= MAPHEIGHT - 2
}

/// The tile with the index `i` lies on the way of the walker.
pub open spec fn on_path(path: Seq<(int, int)>, i: int) -> bool {
    exists|t: int|
        0 <= t < path.len() && tile_index(MAPWIDTH as int, (#[trigger] path[t]).0, path[t].1) == i
}

/// The tiles with the way of a walker marked with stairs.
pub open spec fn marked(tiles: Seq<TileType>, path: Seq<(int, int)>) -> Seq<TileType> {
    Seq::new(
        tiles.len(),
        |i: int|
            if on_path(path, i) {
                TileType::DownStairs
            } else {
                tiles[i]
            },
    )
}

/// The tile with the index `i` lies on the way of one of the walkers.
pub open spec fn on_some_path(walks: Seq<Seq<(int, int)>>, i: int) -> bool {
    exists|k: int| 0 <= k < walks.len() && on_path(#[trigger] walks[k], i)
}

/// The tiles of a level of the standard size that the walkers dug: floor in
/// the middle of the level and on the ways of the walkers, wall everywhere
/// else.
pub open spec fn dug_tiles(walks: Seq<Seq<(int, int)>>) -> Seq<TileType> {
    Seq::new(
        (MAPWIDTH * MAPHEIGHT) as nat,
        |i: int|
            if i == tile_index(MAPWIDTH as int, 40, 21) || on_some_path(walks, i) {
                TileType::Floor
            } else {
                TileType::Wall
            },
    )
}

/// The walkers went as their settings say: no more of them than may be sent
/// out; each for as many tiles as its lifetime, one stagger after the other;
/// and each from the middle of the level where all set out there, and the
/// first in any case.
pub open spec fn walks_follow(walks: Seq<Seq<(int, int)>>, settings: DrunkardSettings) -> bool {
    &&& walks.len() <= MAX_DIGGERS
    &&& forall|k: int|
        0 <= k < walks.len() ==> {
            &&& is_stagger_path(#[trigger] walks[k])
            &&& walks[k].len() == if settings.drunken_lifetime > 0 {
                settings.drunken_lifetime as int
            } else {
                0
            }
            &&& (walks[k].len() > 0 && (k == 0 || settings.spawn_mode
                == DrunkSpawnMode::StartingPoint)) ==> walks[k][0] == (40int, 21int)
        }
}

/// How many tiles of the level are floor once the walkers went.
pub open spec fn dug_count(walks: Seq<Seq<(int, int)>>) -> int {
    count_kind(dug_tiles(walks), TileType::Floor, MAPWIDTH * MAPHEIGHT)
}

/// Walkers were sent until as much of the level was floor as the settings
/// ask for, or until the last of them had gone, and none after that: before
/// each walker set out, less was floor.
pub open spec fn walks_suffice(walks: Seq<Seq<(int, int)>>, settings: DrunkardSettings) -> bool {
    let target = floor_target(MAPWIDTH * MAPHEIGHT, settings.floor_percent as int);
    &&& dug_count(walks) >= target || walks.len() == MAX_DIGGERS
    &&& forall|n: int| 0 <= n < walks.len() ==> dug_count(#[trigger] walks.subrange(0, n)) < target
}

/// Walkers that live no longer than four hundred steps take no more than a
/// hundred thousand steps, all together.
pub proof fn lemma_steps_in_all(walks: Seq<Seq<(int, int)>>, settings: DrunkardSettings)
    requires
        walks_follow(walks, settings),
        settings.drunken_lifetime <= 400,
    ensures
        walks.len() * settings.drunken_lifetime <= 100_000,
        forall|k: int| 0 <= k < walks.len() ==> (#[trigger] walks[k]).len() <= 400,
{
    assert(walks.len() * settings.drunken_lifetime <= 100_000) by (nonlinear_arith)
        requires
            0 <= walks.len() <= 250,
            settings.drunken_lifetime <= 400,
    ;
}

/// The way of one more walker adds its tiles to those on the ways of the
/// walkers.
pub proof fn lemma_one_more_walk(walks: Seq<Seq<(int, int)>>, path: Seq<(int, int)>, i: int)
    ensures
        on_some_path(walks.push(path), i) == (on_some_path(walks, i) || on_path(path, i)),
{
    let longer = walks.push(path);
    if on_some_path(walks, i) {
        let k = choose|k: int| 0 <= k < walks.len() && on_path(#[trigger] walks[k], i);
        assert(longer[k] == walks[k]);
    }
    if on_path(path, i) {
        assert(longer[walks.len() as int] == path);
    }
    if on_some_path(longer, i) {
        let k = choose|k: int| 0 <= k < longer.len() && on_path(#[trigger] longer[k], i);
        if k < walks.len() {
            assert(longer[k] == walks[k]);
        }
    }
}

/// One more tile adds itself to the tiles on the way of a walker.
pub proof fn lemma_one_more_tile(path: Seq<(int, int)>, at: (int, int), i: int)
    ensures
        on_path(path.push(at), i) == (on_path(path, i) || tile_index(MAPWIDTH as int, at.0, at.1)
            == i),
{
    let longer = path.push(at);
    if on_path(path, i) {
        let t = choose|t: int|
            0 <= t < path.len() && tile_index(MAPWIDTH as int, (#[trigger] path[t]).0, path[t].1)
                == i;
        assert(longer[t] == path[t]);
    }
    if tile_index(MAPWIDTH as int, at.0, at.1) == i {
        assert(longer[path.len() as int] == at);
    }
    if on_path(longer, i) {
        let t = choose|t: int|
            0 <= t < longer.len() && tile_index(
                MAPWIDTH as int,
                (#[trigger] longer[t]).0,
                longer[t].1,
            ) == i;
        if t < path.len() {
            assert(longer[t] == path[t]);
        }
    }
}

pub struct DrunkardsWalkBuilder {
    map: Grid,
    starting_position: Position,
    depth: i32,
    history: Vec<Grid>,
    noise_areas: HashMap<i32, Vec<usize>>,
    settings: DrunkardSettings,
}

impl DrunkardsWalkBuilder {
    /// The spawn regions found so far.
    pub closed spec fn regions(&self) -> Map<i32, Vec<usize>> {
        self.noise_areas@
    }

    /// How the walkers behave.
    pub closed spec fn walkers(&self) -> DrunkardSettings {
        self.settings
    }

    pub fn new(new_depth: i32, settings: DrunkardSettings) -> (builder: DrunkardsWalkBuilder)
        ensures
            builder.wf(),
            builder.level().depth == new_depth,
            builder.level() == Grid::solid(new_depth),
            builder.walkers() == settings,
            builder.start() == (Position { x: 0, y: 0 }),
            builder.history() == Seq::<GridView>::empty(),
            builder.regions() == Map::<i32, Vec<usize>>::empty(),
            forall|i: int|
                0 <= i < builder.level().tiles.len() ==> builder.level().tiles[i] == TileType::Wall,
    {
        let builder = DrunkardsWalkBuilder {
            map: Grid::new(new_depth),
            starting_position: Position { x: 0, y: 0 },
            depth: new_depth,
            history: Vec::new(),
            noise_areas: HashMap::new(),
            settings,
        };
        builder
    }

    /// Walkers that all set out from the middle and walk long: a wide cave.
    pub fn open_area(new_depth: i32) -> (builder: DrunkardsWalkBuilder)
        ensures
            builder.wf(),
            builder.level().depth == new_depth,
            builder.level() == Grid::solid(new_depth),
            builder.walkers() == (DrunkardSettings {
                spawn_mode: DrunkSpawnMode::StartingPoint,
                drunken_lifetime: 400,
                floor_percent: 50,
            }),
            builder.history() == Seq::<GridView>::empty(),
            builder.regions() == Map::<i32, Vec<usize>>::empty(),
    {
        DrunkardsWalkBuilder::new(
            new_depth,
            DrunkardSettings {
                spawn_mode: DrunkSpawnMode::StartingPoint,
                drunken_lifetime: 400,
                floor_percent: 50,
            },
        )
    }

    /// Walkers that set out anywhere and walk long: halls.
    pub fn open_halls(new_depth: i32) -> (builder: DrunkardsWalkBuilder)
        ensures
            builder.wf(),
            builder.level().depth == new_depth,
            builder.level() == Grid::solid(new_depth),
            builder.walkers() == (DrunkardSettings {
                spawn_mode: DrunkSpawnMode::Random,
                drunken_lifetime: 400,
                floor_percent: 50,
            }),
            builder.history() == Seq::<GridView>::empty(),
            builder.regions() == Map::<i32, Vec<usize>>::empty(),
    {
        DrunkardsWalkBuilder::new(
            new_depth,
            DrunkardSettings {
                spawn_mode: DrunkSpawnMode::Random,
                drunken_lifetime: 400,
                floor_percent: 50,
            },
        )
    }

    /// Walkers that set out anywhere and soon stop: winding passages.
    pub fn winding_passages(new_depth: i32) -> (builder: DrunkardsWalkBuilder)
        ensures
            builder.wf(),
            builder.level().depth == new_depth,
            builder.level() == Grid::solid(new_depth),
            builder.walkers() == (DrunkardSettings {
                spawn_mode: DrunkSpawnMode::Random,
                drunken_lifetime: 100,
                floor_percent: 40,
            }),
            builder.history() == Seq::<GridView>::empty(),
            builder.regions() == Map::<i32, Vec<usize>>::empty(),
    {
        DrunkardsWalkBuilder::new(
            new_depth,
            DrunkardSettings {
                spawn_mode: DrunkSpawnMode::Random,
                drunken_lifetime: 100,
                floor_percent: 40,
            },
        )
    }

    /// Sorts the floor tiles of the level into spawn regions by the values
    /// given, one for each tile.
    pub fn partition(&mut self, cell_values: &Vec<i32>)
        requires
            old(self).wf(),
            cell_values@.len() == old(self).level().tiles.len(),
        ensures
            final(self).wf(),
            final(self).level() == old(self).level(),
            final(self).start() == old(self).start(),
            final(self).history() == old(self).history(),
            final(self).walkers() == old(self).walkers(),
            is_partition(
                final(self).regions(),
                final(self).level().tiles,
                cell_values@,
                cell_values@.len() as int,
            ),
    {
        self.noise_areas = generate_voronoi_spawn_regions(&self.map, cell_values);
    }

    /// The spawn regions found by the last partition.
    pub fn get_noise_areas(&self) -> (regions: HashMap<i32, Vec<usize>>)
        ensures
            regions@ == self.regions(),
    {
        self.noise_areas.clone()
    }

    /// Sends one walker out from `(x, y)` for `life` steps. Every tile that
    /// it stands on is marked with a stair. Returns whether it stood on a
    /// wall.
    fn walk(map: &mut Grid, rng: &mut RandomNumberGenerator, x: i32, y: i32, life: i32) -> (dug:
        bool)
        requires
            old(map).wf(),
            old(map).width == MAPWIDTH,
            old(map).height == MAPHEIGHT,
            2 <= x <= MAPWIDTH - 2,
            2 <= y <= MAPHEIGHT - 2,
        ensures
            final(map).wf(),
            exists|path: Seq<(int, int)>|
                {
                    &&& #[trigger] is_stagger_path(path)
                    &&& path.len() == if life > 0 {
                        life as int
                    } else {
                        0
                    }
                    &&& path.len() > 0 ==> path[0] == (x as int, y as int)
                    &&& final(map)@ == (GridView {
                        tiles: marked(old(map).tiles@, path),
                        ..old(map)@
                    })
                },
    {
        let ghost before = map.tiles@;
        let ghost mut path: Seq<(int, int)> = Seq::empty();
        let mut drunk_x = x;
        let mut drunk_y = y;
        let mut drunk_life = life;
        let mut did_something = false;
        assert(map.tiles@ =~= marked(before, path));
        while drunk_life > 0
            invariant
                map.wf(),
                map.width == MAPWIDTH,
                map.height == MAPHEIGHT,
                2 <= drunk_x <= MAPWIDTH - 2,
                2 <= drunk_y <= MAPHEIGHT - 2,
                drunk_life <= life,
                is_stagger_path(path),
                path.len() == if life > 0 {
                    life - if drunk_life > 0 {
                        drunk_life as int
                    } else {
                        0
                    }
                } else {
                    0
                },
                path.len() > 0 ==> path[0] == (x as int, y as int),
                path.len() == 0 ==> drunk_x == x && drunk_y == y,
                path.len() > 0 ==> staggers_to(path.last(), (drunk_x as int, drunk_y as int)),
                map@ == (GridView { tiles: marked(before, path), ..old(map)@ }),
            decreases drunk_life,
        {
            let drunk_idx = map.xy_idx(drunk_x, drunk_y);
            if map.tiles[drunk_idx] == TileType::Wall {
                did_something = true;
            }
            let ghost marks = map.tiles@;
            let ghost here = (drunk_x as int, drunk_y as int);
            map.set_tile(drunk_idx, TileType::DownStairs);
            let stagger_direction = roll_die(rng, 4);
            let to = stagger(map.width, map.height, drunk_x, drunk_y, stagger_direction);
            proof {
                let longer = path.push(here);
                assert forall|t: int| #![trigger longer[t]] 1 <= t < longer.len() implies staggers_to(
                    longer[t - 1],
                    longer[t],
                ) by {
                    if t < path.len() {
                        assert(staggers_to(path[t - 1], path[t]));
                    }
                }
                assert forall|i: int| 0 <= i < before.len() implies map.tiles@[i] == marked(
                    before,
                    longer,
                )[i] by {
                    lemma_one_more_tile(path, here, i);
                    assert(marks[i] == marked(before, path)[i]);
                }
                assert(map.tiles@ =~= marked(before, longer));
                assert((to.0 as int, to.1 as int) == staggered(
                    MAPWIDTH as int,
                    MAPHEIGHT as int,
                    here.0,
                    here.1,
                    stagger_direction as int,
                ));
                path = longer;
            }
            drunk_x = to.0;
            drunk_y = to.1;
            drunk_life = drunk_life - 1;
        }
        did_something
    }

    /// Builds the level: walkers dig from the middle tile, or from anywhere
    /// after the first, each for its lifetime, until as much of the level is
    /// floor as the settings ask for or the last walker has gone, and no
    /// longer; then the level is finished from the middle tile.
    pub fn build(&mut self, rng: &mut RandomNumberGenerator)
        requires
            old(self).wf(),
        ensures
            final(self).wf(),
            level_complete(final(self).level(), final(self).start()),
            final(self).level().depth == old(self).level().depth,
            final(self).built(old(self)),
            extends(final(self).history(), old(self).history()),
            !SHOW_MAPGEN_VISUALIZER ==> final(self).history() == old(self).history(),
            SHOW_MAPGEN_VISUALIZER ==> final(self).history().len() > old(self).history().len()
                && final(self).history().last() == revealed_copy(final(self).level()),
    {
        self.map = Grid::new(self.depth);
        self.noise_areas = HashMap::new();
        self.starting_position = Position { x: self.map.width / 2, y: self.map.height / 2 };
        let start_idx = self.map.xy_idx(self.starting_position.x, self.starting_position.y);
        self.map.set_tile(start_idx, TileType::Floor);

        let total_tiles: i32 = self.map.width * self.map.height;
        let desired = desired_floor_tiles(total_tiles, self.settings.floor_percent);
        let mut floor_tile_count = self.map.count_tiles(TileType::Floor);
        let mut digger_count: u32 = 0;
        let ghost mut walks: Seq<Seq<(int, int)>> = Seq::empty();
        assert(self.map.tiles@ =~= dug_tiles(walks));

        while (floor_tile_count as u64) < desired && digger_count < MAX_DIGGERS
            invariant
                self.wf(),
                self.depth == old(self).depth,
                self.settings == old(self).settings,
                self.noise_areas@ == Map::<i32, Vec<usize>>::empty(),
                self.starting_position == (Position { x: 40, y: 21 }),
                digger_count <= MAX_DIGGERS,
                walks.len() == digger_count,
                walks_follow(walks, self.settings),
                self.map.tiles@ == dug_tiles(walks),
                floor_tile_count == dug_count(walks),
                desired == floor_target(MAPWIDTH * MAPHEIGHT, self.settings.floor_percent as int),
                forall|n: int|
                    0 <= n < walks.len() ==> dug_count(#[trigger] walks.subrange(0, n)) < desired,
                extends(self.history(), old(self).history()),
                !SHOW_MAPGEN_VISUALIZER ==> self.history() == old(self).history(),
            decreases MAX_DIGGERS - digger_count,
        {
            let mut drunk_x: i32 = self.starting_position.x;
            let mut drunk_y: i32 = self.starting_position.y;
            if self.settings.spawn_mode == DrunkSpawnMode::Random && digger_count > 0 {
                drunk_x = roll_die(rng, self.map.width - 3) + 1;
                drunk_y = roll_die(rng, self.map.height - 3) + 1;
            }
            let ghost prior = self.map.tiles@;
            let did_something = DrunkardsWalkBuilder::walk(
                &mut self.map,
                rng,
                drunk_x,
                drunk_y,
                self.settings.drunken_lifetime,
            );
            let ghost path = choose|path: Seq<(int, int)>|
                {
                    &&& #[trigger] is_stagger_path(path)
                    &&& path.len() == if self.settings.drunken_lifetime > 0 {
                        self.settings.drunken_lifetime as int
                    } else {
                        0
                    }
                    &&& path.len() > 0 ==> path[0] == (drunk_x as int, drunk_y as int)
                    &&& self.map.tiles@ == marked(prior, path)
                };
            if did_something {
                record_snapshot(&mut self.history, &self.map);
            }
            digger_count = digger_count + 1;
            clear_marks(&mut self.map);
            proof {
                let longer = walks.push(path);
                assert forall|i: int| 0 <= i < self.map.tiles@.len() implies self.map.tiles@[i]
                    == dug_tiles(longer)[i] by {
                    lemma_one_more_walk(walks, path, i);
                    assert(prior[i] == dug_tiles(walks)[i]);
                }
                assert(self.map.tiles@ =~= dug_tiles(longer));
                assert forall|k: int| 0 <= k < longer.len() implies {
                    &&& is_stagger_path(#[trigger] longer[k])
                    &&& longer[k].len() == if self.settings.drunken_lifetime > 0 {
                        self.settings.drunken_lifetime as int
                    } else {
                        0
                    }
                    &&& (longer[k].len() > 0 && (k == 0 || self.settings.spawn_mode
                        == DrunkSpawnMode::StartingPoint)) ==> longer[k][0] == (40int, 21int)
                } by {
                    if k < walks.len() {
                        assert(longer[k] == walks[k]);
                    }
                }
                assert forall|n: int| 0 <= n < longer.len() implies dug_count(
                    #[trigger] longer.subrange(0, n),
                ) < desired by {
                    if n < walks.len() {
                        assert(longer.subrange(0, n) =~= walks.subrange(0, n));
                    } else {
                        assert(longer.subrange(0, n) =~= walks);
                    }
                }
                walks = longer;
            }
            floor_tile_count = self.map.count_tiles(TileType::Floor);
        }

        finish_level(&mut self.map, &mut self.history, self.starting_position);
        proof {
            assert(walks_follow(walks, self.walkers()));
            assert(walks_suffice(walks, self.walkers()));
            assert(finished_from(
                dug_tiles(walks),
                tile_index(MAPWIDTH as int, 40, 21),
                self.level().tiles,
            ));
        }
    }
}

impl MapBuilder for DrunkardsWalkBuilder {
    closed spec fn wf(&self) -> bool {
        &&& self.map.wf()
        &&& self.map.width == MAPWIDTH
        &&& self.map.height == MAPHEIGHT
        &&& self.map.depth == self.depth
        &&& regions_fit(self.noise_areas@, self.map.tiles@)
        &&& forall|i: int| 0 <= i < self.history@.len() ==> (#[trigger] self.history@[i]).wf()
    }

    closed spec fn level(&self) -> GridView {
        self.map@
    }

    closed spec fn start(&self) -> Position {
        self.starting_position
    }

    closed spec fn history(&self) -> Seq<GridView> {
        history_view(self.history@)
    }

    open spec fn spawn_areas(&self, areas: Seq<Seq<usize>>) -> bool {
        regions_in_turn(self.regions(), areas)
    }

    open spec fn built(&self, before: &DrunkardsWalkBuilder) -> bool {
        &&& self.walkers() == before.walkers()
        &&& self.regions() == Map::<i32, Vec<usize>>::empty()
        &&& self.start() == (Position { x: 40, y: 21 })
        &&& exists|walks: Seq<Seq<(int, int)>>|
            {
                &&& #[trigger] walks_follow(walks, self.walkers())
                &&& walks_suffice(walks, self.walkers())
                &&& finished_from(
                    dug_tiles(walks),
                    tile_index(MAPWIDTH as int, 40, 21),
                    self.level().tiles,
                )
            }
    }

    fn build_map(&mut self, rng: &mut RandomNumberGenerator) {
        self.build(rng);
    }

    fn get_map(&self) -> (map: Grid) {
        self.map.clone()
    }

    fn get_starting_position(&self) -> (start: Position) {
        self.starting_position
    }

    fn get_snapshot_history(&self) -> (history: Vec<Grid>) {
        clone_history(&self.history)
    }

    fn take_snapshot(&mut self) {
        record_snapshot(&mut self.history, &self.map);
    }

    fn spawn_entities(&self, rng: &mut RandomNumberGenerator) -> (spawns: Vec<(usize, String)>) {
        spawn_in_level(&self.map, &self.noise_areas, rng)
    }
}

} // verus!
