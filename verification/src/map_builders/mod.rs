//! The generators and what they share.

pub mod bsp_dungeon;
pub mod cellular_automata;
pub mod common;
pub mod dla;
pub mod drunkard;
pub mod maze;
pub mod voronoi;
pub mod waveform_collapse;

use crate::dice::roll_die;
use crate::map::{
    count_kind, lemma_count_kind_update, on_grid, tile_index, Grid, GridView, Position, TileType,
    MAPHEIGHT, MAPWIDTH,
};
use crate::map_builders::common::{is_most_distant, pruned, reached_floor};
use crate::pathing::{
    dir_cost, distance_field, exit_at, exit_target, has_parent, is_distance_field,
    lemma_exit_target, parent_link, reachable, reached, settled, settled_exit, walls_of,
};
use crate::spawner::{spawn_on_floor, spawned_in_turn, DEPTH_LIMIT};
use rltk::RandomNumberGenerator;
use vstd::prelude::*;

pub use bsp_dungeon::BspDungeonBuilder;
pub use cellular_automata::CellularAutomataBuilder;
pub use common::{
    apply_horizontal_tunnel, apply_room_to_map, apply_vertical_tunnel,
    generate_voronoi_spawn_regions, remove_unreachable_areas_returning_most_distant,
};
pub use dla::{DLAAlgorithm, DLABuilder, DLASymmetry};
pub use drunkard::{DrunkSpawnMode, DrunkardSettings, DrunkardsWalkBuilder};
pub use maze::MazeBuilder;
pub use voronoi::{DistanceAlgorithm, VoronoiCellBuilder};
pub use waveform_collapse::WaveformCollapseBuilder;

verus! {

/// Whether the generators keep the states that their levels pass through.
pub const SHOW_MAPGEN_VISUALIZER: bool = true;

/// The level with every tile marked as seen.
pub open spec fn revealed_copy(map: GridView) -> GridView {
    GridView { revealed_tiles: Seq::new(map.revealed_tiles.len(), |i: int| true), ..map }
}

/// The levels that a history holds.
pub open spec fn history_view(history: Seq<Grid>) -> Seq<GridView> {
    Seq::new(history.len(), |i: int| history[i]@)
}

/// The history after a state of `map` was recorded: where recording is on,
/// longer by a copy of the level in which everything is seen.
pub open spec fn recorded(history: Seq<GridView>, map: GridView) -> Seq<GridView> {
    if SHOW_MAPGEN_VISUALIZER {
        history.push(revealed_copy(map))
    } else {
        history
    }
}

/// The history `later` begins with the history `earlier`.
pub open spec fn extends(later: Seq<GridView>, earlier: Seq<GridView>) -> bool {
    earlier.len() <= later.len() && forall|i: int| 0 <= i < earlier.len() ==> later[i] == earlier[i]
}

/// `n` tiles of wall.
pub open spec fn solid_rock(n: nat) -> Seq<TileType> {
    Seq::new(n, |i: int| TileType::Wall)
}

/// No tile is a stair.
pub open spec fn no_stairs(tiles: Seq<TileType>) -> bool {
    forall|i: int| 0 <= i < tiles.len() ==> #[trigger] tiles[i] != TileType::DownStairs
}

/// The level is finished: it has the standard size, the start lies on it and
/// not on a wall, every tile that is no wall can be walked to from the
/// start, and exactly one tile is a stair down. The start is floor wherever
/// the level has floor: the stair lies on it only where it is the one tile
/// that is no wall.
pub open spec fn level_complete(map: GridView, start: Position) -> bool {
    &&& map.width == MAPWIDTH
    &&& map.height == MAPHEIGHT
    &&& map.tiles.len() == map.width * map.height
    &&& on_grid(map.width, map.height, start.x as int, start.y as int)
    &&& map.tiles[tile_index(map.width, start.x as int, start.y as int)] != TileType::Wall
    &&& forall|i: int|
        0 <= i < map.tiles.len() && #[trigger] map.tiles[i] != TileType::Wall ==> reachable(
            map.tiles,
            map.width,
            map.height,
            tile_index(map.width, start.x as int, start.y as int),
            i,
        )
    &&& count_kind(map.tiles, TileType::DownStairs, map.tiles.len() as int) == 1
    &&& has_floor(map.tiles) ==> map.tiles[tile_index(map.width, start.x as int, start.y as int)]
        == TileType::Floor
}

/// What every generator offers.
pub trait MapBuilder {
    /// The generator is in order.
    spec fn wf(&self) -> bool;

    /// The level as it stands.
    spec fn level(&self) -> GridView;

    /// Where the player starts.
    spec fn start(&self) -> Position;

    /// The states recorded so far.
    spec fn history(&self) -> Seq<GridView>;

    /// The areas are those in which this generator has spawns chosen, in an
    /// order in which it may go through them.
    spec fn spawn_areas(&self, areas: Seq<Seq<usize>>) -> bool;

    /// The generator is what building makes of the generator `before`: the
    /// level is one that generators of its kind make, from what the dice
    /// showed.
    spec fn built(&self, before: &Self) -> bool;

    /// Builds the level, whatever the dice show: a finished level as the
    /// generators of this kind make it, its depth that of the generator, and
    /// a history that was only added to.
    fn build_map(&mut self, rng: &mut RandomNumberGenerator)
        requires
            old(self).wf(),
        ensures
            final(self).wf(),
            final(self).built(old(self)),
            level_complete(final(self).level(), final(self).start()),
            final(self).level().depth == old(self).level().depth,
            extends(final(self).history(), old(self).history()),
            !SHOW_MAPGEN_VISUALIZER ==> final(self).history() == old(self).history(),
            SHOW_MAPGEN_VISUALIZER ==> final(self).history().len() > old(self).history().len()
                && final(self).history().last() == revealed_copy(final(self).level()),
    ;

    /// A copy of the level as it stands.
    fn get_map(&self) -> (map: Grid)
        requires
            self.wf(),
        ensures
            map@ == self.level(),
            map.wf(),
    ;

    /// Where the player starts.
    fn get_starting_position(&self) -> (start: Position)
        ensures
            start == self.start(),
    ;

    /// A copy of the states recorded so far.
    fn get_snapshot_history(&self) -> (history: Vec<Grid>)
        requires
            self.wf(),
        ensures
            history_view(history@) == self.history(),
    ;

    /// Records the level as it stands, where recording is on.
    fn take_snapshot(&mut self)
        requires
            old(self).wf(),
        ensures
            final(self).wf(),
            final(self).level() == old(self).level(),
            final(self).start() == old(self).start(),
            final(self).history() == recorded(old(self).history(), old(self).level()),
    ;

    /// Chooses what is to appear on the level, whatever the dice show: the
    /// spawns of one area of the generator after those of another, every
    /// spawn on a floor tile, of a kind that the table of the level gives.
    fn spawn_entities(&self, rng: &mut RandomNumberGenerator) -> (spawns: Vec<(usize, String)>)
        requires
            self.wf(),
            -DEPTH_LIMIT <= self.level().depth <= DEPTH_LIMIT,
        ensures
            exists|areas: Seq<Seq<usize>>|
                self.spawn_areas(areas) && #[trigger] spawned_in_turn(
                    areas,
                    self.level().depth as int,
                    spawns@,
                ),
            forall|k: int|
                0 <= k < spawns@.len() ==> spawn_on_floor(self.level(), #[trigger] spawns@[k]),
    ;
}

/// A copy of the level in which every tile is marked as seen.
pub fn snapshot_of(map: &Grid) -> (copy: Grid)
    requires
        map.wf(),
    ensures
        copy.wf(),
        copy@ == revealed_copy(map@),
{
    let mut copy = map.clone();
    let n = copy.revealed_tiles.len();
    let mut i: usize = 0;
    while i < n
        invariant
            i <= n,
            n == copy.revealed_tiles@.len(),
            n == map.revealed_tiles@.len(),
            copy@ == (GridView { revealed_tiles: copy.revealed_tiles@, ..map@ }),
            forall|k: int| 0 <= k < i ==> copy.revealed_tiles@[k],
        decreases n - i,
    {
        copy.revealed_tiles.set(i, true);
        i = i + 1;
    }
    assert(copy.revealed_tiles@ =~= Seq::new(map.revealed_tiles@.len(), |i: int| true));
    copy
}

/// Records a state of `map` in `history`, where recording is on.
pub fn record_snapshot(history: &mut Vec<Grid>, map: &Grid)
    requires
        map.wf(),
        forall|i: int| 0 <= i < old(history)@.len() ==> (#[trigger] old(history)@[i]).wf(),
    ensures
        history_view(final(history)@) == recorded(history_view(old(history)@), map@),
        forall|i: int| 0 <= i < final(history)@.len() ==> (#[trigger] final(history)@[i]).wf(),
{
    if SHOW_MAPGEN_VISUALIZER {
        let snapshot = snapshot_of(map);
        history.push(snapshot);
    }
}

/// A copy of a history.
pub fn clone_history(history: &Vec<Grid>) -> (copy: Vec<Grid>)
    ensures
        history_view(copy@) == history_view(history@),
{
    let mut copy: Vec<Grid> = Vec::new();
    let mut i: usize = 0;
    while i < history.len()
        invariant
            i <= history@.len(),
            copy@.len() == i,
            forall|k: int| 0 <= k < i ==> (#[trigger] copy@[k])@ == history@[k]@,
        decreases history@.len() - i,
    {
        copy.push(history[i].clone());
        i = i + 1;
    }
    copy
}

/// `start` is where the scan of the middle row for a floor tile ends on the
/// tiles `tiles`, and `carved` are the tiles that the scan leaves: the first
/// floor tile at or left of the middle column and the tiles as they were,
/// or, where that part of the row has no floor, the middle tile and the
/// tiles with that tile turned to floor.
pub open spec fn is_scanned_start(
    tiles: Seq<TileType>,
    width: int,
    height: int,
    start: Position,
    carved: Seq<TileType>,
) -> bool {
    let at = tile_index(width, start.x as int, start.y as int);
    &&& start.y == height / 2
    &&& 0 <= start.x <= width / 2
    &&& forall|x: int|
        start.x < x <= width / 2 ==> #[trigger] tiles[tile_index(width, x, start.y as int)]
            != TileType::Floor
    &&& if tiles[at] == TileType::Floor {
        carved == tiles
    } else {
        &&& start.x == width / 2
        &&& forall|x: int|
            0 <= x <= width / 2 ==> #[trigger] tiles[tile_index(width, x, start.y as int)]
                != TileType::Floor
        &&& carved == tiles.update(at, TileType::Floor)
    }
}

/// The scan of the middle row has one outcome: tiles have one start and one
/// set of tiles that the scan leaves.
pub proof fn lemma_scan_deterministic(
    tiles: Seq<TileType>,
    width: int,
    height: int,
    first: Position,
    first_carved: Seq<TileType>,
    second: Position,
    second_carved: Seq<TileType>,
)
    requires
        is_scanned_start(tiles, width, height, first, first_carved),
        is_scanned_start(tiles, width, height, second, second_carved),
    ensures
        first == second,
        first_carved == second_carved,
{
    let a = tile_index(width, first.x as int, first.y as int);
    let b = tile_index(width, second.x as int, second.y as int);
    if first.x < second.x {
        assert(tiles[tile_index(width, second.x as int, first.y as int)] != TileType::Floor);
        assert(tiles[tile_index(width, first.x as int, second.y as int)] != TileType::Floor);
    }
    if second.x < first.x {
        assert(tiles[tile_index(width, first.x as int, second.y as int)] != TileType::Floor);
        assert(tiles[tile_index(width, second.x as int, first.y as int)] != TileType::Floor);
    }
}

/// Scans the middle row from the middle column to the left for a floor tile
/// and returns the first that it meets. Where the scan meets none, the middle
/// tile is turned to floor and returned.
pub fn find_starting_floor(map: &mut Grid) -> (start: Position)
    requires
        old(map).wf(),
        old(map).width > 0,
        old(map).height > 0,
    ensures
        final(map).wf(),
        final(map).in_bounds(start.x as int, start.y as int),
        final(map).tile_at(start.x as int, start.y as int) == TileType::Floor,
        final(map)@ == (GridView { tiles: final(map).tiles@, ..old(map)@ }),
        is_scanned_start(
            old(map).tiles@,
            old(map).width as int,
            old(map).height as int,
            start,
            final(map).tiles@,
        ),
{
    let y: i32 = map.height / 2;
    let middle: i32 = map.width / 2;
    let mut x: i32 = middle;
    while x >= 0
        invariant
            map.wf(),
            map@ == old(map)@,
            -1 <= x <= middle,
            middle == map.width / 2,
            y == map.height / 2,
            map.width > 0,
            map.height > 0,
            forall|c: int|
                x < c <= middle ==> #[trigger] map.tiles@[tile_index(
                    map.width as int,
                    c,
                    y as int,
                )] != TileType::Floor,
        decreases x + 1,
    {
        let idx = map.xy_idx(x, y);
        if map.tiles[idx] == TileType::Floor {
            return Position { x, y };
        }
        x = x - 1;
    }
    let idx = map.xy_idx(middle, y);
    map.set_tile(idx, TileType::Floor);
    Position { x: middle, y }
}

/// The last steps of every generator: turns to wall what cannot be walked to
/// from the start, turns the floor tile furthest from the start into the
/// stair down, and records the level.
pub fn finish_level(map: &mut Grid, history: &mut Vec<Grid>, start: Position)
    requires
        old(map).wf(),
        old(map).width == MAPWIDTH,
        old(map).height == MAPHEIGHT,
        old(map).in_bounds(start.x as int, start.y as int),
        old(map).tile_at(start.x as int, start.y as int) == TileType::Floor,
        no_stairs(old(map).tiles@),
        forall|i: int| 0 <= i < old(history)@.len() ==> (#[trigger] old(history)@[i]).wf(),
    ensures
        final(map).wf(),
        level_complete(final(map)@, start),
        final(map).depth == old(map).depth,
        finished_from(
            old(map).tiles@,
            tile_index(MAPWIDTH as int, start.x as int, start.y as int),
            final(map).tiles@,
        ),
        forall|i: int| 0 <= i < final(history)@.len() ==> (#[trigger] final(history)@[i]).wf(),
        extends(history_view(final(history)@), history_view(old(history)@)),
        !SHOW_MAPGEN_VISUALIZER ==> history_view(final(history)@) == history_view(old(history)@),
        SHOW_MAPGEN_VISUALIZER ==> final(history)@.len() > old(history)@.len() && history_view(
            final(history)@,
        ).last() == revealed_copy(final(map)@),
{
    let start_idx = map.xy_idx(start.x, start.y);
    let ghost raw = map.tiles@;
    let exit_tile = remove_unreachable_areas_returning_most_distant(map, start_idx);
    proof {
        assert(map.blocked@ =~= walls_of(raw));
        assert(finished_with(raw, start_idx as int, exit_tile as int, map.tiles@));
        assert forall|i: int|
            0 <= i < map.tiles@.len() && #[trigger] map.tiles@[i] != TileType::Wall implies reachable(
            map.tiles@,
            MAPWIDTH as int,
            MAPHEIGHT as int,
            start_idx as int,
            i,
        ) by {
            if map.tiles@[i] == TileType::DownStairs {
                assert(i == exit_tile);
            }
        }
    }
    proof {
        if has_floor(map.tiles@) {
            lemma_start_stays_floor(raw, start_idx as int, map.tiles@);
        }
    }
    record_snapshot(history, map);
    proof {
        assert(history_view(history@).len() == history@.len());
        assert(history_view(old(history)@).len() == old(history)@.len());
    }
}

/// The finished tiles of a level whose raw tiles are `raw`: the floor that
/// cannot be walked to from `start` is wall, and the floor tile furthest
/// from `start` is the stair down.
pub open spec fn finished_from(raw: Seq<TileType>, start: int, finished: Seq<TileType>) -> bool {
    exists|exit: int| #[trigger] finished_with(raw, start, exit, finished)
}

/// The finished tiles of a level whose raw tiles are `raw` and whose stair
/// down lies on the tile `exit`: the distances are those of every tile from
/// `start`, and `exit` is the floor tile that lies furthest out.
pub open spec fn finished_with(
    raw: Seq<TileType>,
    start: int,
    exit: int,
    finished: Seq<TileType>,
) -> bool {
    let field = distance_field(walls_of(raw), MAPWIDTH as int, MAPHEIGHT as int, start);
    &&& is_distance_field(walls_of(raw), MAPWIDTH as int, MAPHEIGHT as int, start, field)
    &&& is_most_distant(raw, field, exit)
    &&& finished == pruned(raw, field).update(exit, TileType::DownStairs)
}

/// Some tile is floor.
pub open spec fn has_floor(tiles: Seq<TileType>) -> bool {
    exists|i: int| 0 <= i < tiles.len() && #[trigger] tiles[i] == TileType::Floor
}

/// Where two tiles beside the start are floor, the finished level has
/// floor: both can be walked to, and only one tile becomes the stair.
pub proof fn lemma_floor_beside_start(
    raw: Seq<TileType>,
    start: int,
    first: int,
    second: int,
    finished: Seq<TileType>,
)
    requires
        raw.len() == MAPWIDTH * MAPHEIGHT,
        finished_from(raw, start, finished),
        0 <= first < 8,
        0 <= second < 8,
        exit_at(walls_of(raw), MAPWIDTH as int, MAPHEIGHT as int, start, first),
        exit_at(walls_of(raw), MAPWIDTH as int, MAPHEIGHT as int, start, second),
        exit_target(MAPWIDTH as int, start, first) != exit_target(MAPWIDTH as int, start, second),
        raw[exit_target(MAPWIDTH as int, start, first)] == TileType::Floor,
        raw[exit_target(MAPWIDTH as int, start, second)] == TileType::Floor,
    ensures
        has_floor(finished),
{
    let exit = choose|exit: int| #[trigger] finished_with(raw, start, exit, finished);
    let blocked = walls_of(raw);
    let field = distance_field(blocked, MAPWIDTH as int, MAPHEIGHT as int, start);
    let a = exit_target(MAPWIDTH as int, start, first);
    let b = exit_target(MAPWIDTH as int, start, second);
    lemma_exit_target(blocked, MAPWIDTH as int, MAPHEIGHT as int, start, first);
    lemma_exit_target(blocked, MAPWIDTH as int, MAPHEIGHT as int, start, second);
    assert(reached(field, start));
    assert(settled(blocked, MAPWIDTH as int, MAPHEIGHT as int, field, start));
    assert(settled_exit(blocked, MAPWIDTH as int, MAPHEIGHT as int, field, start, first));
    assert(settled_exit(blocked, MAPWIDTH as int, MAPHEIGHT as int, field, start, second));
    if a != exit {
        assert(finished[a] == TileType::Floor);
    } else {
        assert(finished[b] == TileType::Floor);
    }
}

/// Where the finished level has floor, its start is floor: the stair takes
/// the start only where no other tile can be walked to.
pub proof fn lemma_start_stays_floor(raw: Seq<TileType>, start: int, finished: Seq<TileType>)
    requires
        raw.len() == MAPWIDTH * MAPHEIGHT,
        0 <= start < raw.len(),
        raw[start] == TileType::Floor,
        finished_from(raw, start, finished),
        has_floor(finished),
    ensures
        finished[start] == TileType::Floor,
{
    let exit = choose|exit: int| #[trigger] finished_with(raw, start, exit, finished);
    let blocked = walls_of(raw);
    let field = distance_field(blocked, MAPWIDTH as int, MAPHEIGHT as int, start);
    if exit == start {
        let i = choose|i: int| 0 <= i < finished.len() && #[trigger] finished[i] == TileType::Floor;
        assert(reached_floor(raw, field, i));
        assert(field[i] <= field[exit]);
        assert(has_parent(blocked, MAPWIDTH as int, MAPHEIGHT as int, field, i));
        let (j, k) = choose|j: int, k: int| #[trigger]
            parent_link(blocked, MAPWIDTH as int, MAPHEIGHT as int, field, j, k, i);
        assert(field[j] + dir_cost(k) <= field[i]);
    }
}

/// Raw tiles and a start have one finished level.
pub proof fn lemma_finish_deterministic(
    raw: Seq<TileType>,
    start: int,
    first: Seq<TileType>,
    second: Seq<TileType>,
)
    requires
        finished_from(raw, start, first),
        finished_from(raw, start, second),
    ensures
        first == second,
{
    let a = choose|exit: int| #[trigger] finished_with(raw, start, exit, first);
    let b = choose|exit: int| #[trigger] finished_with(raw, start, exit, second);
    assert(a == b);
}

/// Turning a floor tile of a level without stairs into the stair leaves
/// every tile that could be walked to within reach and makes the one stair.
pub proof fn lemma_exit_placed(tiles: Seq<TileType>, width: int, height: int, start: int, exit: int)
    requires
        no_stairs(tiles),
        0 <= exit < tiles.len(),
        tiles[exit] == TileType::Floor,
        forall|i: int|
            0 <= i < tiles.len() && #[trigger] tiles[i] == TileType::Floor ==> reachable(
                tiles,
                width,
                height,
                start,
                i,
            ),
    ensures
        count_kind(
            tiles.update(exit, TileType::DownStairs),
            TileType::DownStairs,
            tiles.len() as int,
        ) == 1,
        forall|i: int|
            0 <= i < tiles.len() && #[trigger] tiles.update(exit, TileType::DownStairs)[i]
                != TileType::Wall ==> reachable(
                tiles.update(exit, TileType::DownStairs),
                width,
                height,
                start,
                i,
            ),
{
    let after = tiles.update(exit, TileType::DownStairs);
    lemma_no_stairs_count(tiles, tiles.len() as int);
    lemma_count_kind_update(
        tiles,
        TileType::DownStairs,
        exit,
        TileType::DownStairs,
        tiles.len() as int,
    );
    assert(walls_of(after) =~= walls_of(tiles));
    assert forall|i: int| 0 <= i < tiles.len() && #[trigger] after[i] != TileType::Wall implies reachable(
        after,
        width,
        height,
        start,
        i,
    ) by {}
}

/// A level without stairs counts none.
pub proof fn lemma_no_stairs_count(tiles: Seq<TileType>, n: int)
    requires
        no_stairs(tiles),
        0 <= n <= tiles.len(),
    ensures
        count_kind(tiles, TileType::DownStairs, n) == 0,
    decreases n,
{
    if n > 0 {
        lemma_no_stairs_count(tiles, n - 1);
    }
}

/// One of the generators.
pub enum Builder {
    BspDungeon(BspDungeonBuilder),
    CellularAutomata(CellularAutomataBuilder),
    DrunkardsWalk(DrunkardsWalkBuilder),
    Maze(MazeBuilder),
    Dla(DLABuilder),
    VoronoiCell(VoronoiCellBuilder),
    WaveformCollapse(WaveformCollapseBuilder),
}

impl MapBuilder for Builder {
    open spec fn wf(&self) -> bool {
        match self {
            Builder::BspDungeon(b) => b.wf(),
            Builder::CellularAutomata(b) => b.wf(),
            Builder::DrunkardsWalk(b) => b.wf(),
            Builder::Maze(b) => b.wf(),
            Builder::Dla(b) => b.wf(),
            Builder::VoronoiCell(b) => b.wf(),
            Builder::WaveformCollapse(b) => b.wf(),
        }
    }

    open spec fn level(&self) -> GridView {
        match self {
            Builder::BspDungeon(b) => b.level(),
            Builder::CellularAutomata(b) => b.level(),
            Builder::DrunkardsWalk(b) => b.level(),
            Builder::Maze(b) => b.level(),
            Builder::Dla(b) => b.level(),
            Builder::VoronoiCell(b) => b.level(),
            Builder::WaveformCollapse(b) => b.level(),
        }
    }

    open spec fn start(&self) -> Position {
        match self {
            Builder::BspDungeon(b) => b.start(),
            Builder::CellularAutomata(b) => b.start(),
            Builder::DrunkardsWalk(b) => b.start(),
            Builder::Maze(b) => b.start(),
            Builder::Dla(b) => b.start(),
            Builder::VoronoiCell(b) => b.start(),
            Builder::WaveformCollapse(b) => b.start(),
        }
    }

    open spec fn history(&self) -> Seq<GridView> {
        match self {
            Builder::BspDungeon(b) => b.history(),
            Builder::CellularAutomata(b) => b.history(),
            Builder::DrunkardsWalk(b) => b.history(),
            Builder::Maze(b) => b.history(),
            Builder::Dla(b) => b.history(),
            Builder::VoronoiCell(b) => b.history(),
            Builder::WaveformCollapse(b) => b.history(),
        }
    }

    open spec fn spawn_areas(&self, areas: Seq<Seq<usize>>) -> bool {
        match self {
            Builder::BspDungeon(b) => b.spawn_areas(areas),
            Builder::CellularAutomata(b) => b.spawn_areas(areas),
            Builder::DrunkardsWalk(b) => b.spawn_areas(areas),
            Builder::Maze(b) => b.spawn_areas(areas),
            Builder::Dla(b) => b.spawn_areas(areas),
            Builder::VoronoiCell(b) => b.spawn_areas(areas),
            Builder::WaveformCollapse(b) => b.spawn_areas(areas),
        }
    }

    open spec fn built(&self, before: &Builder) -> bool {
        match (self, before) {
            (Builder::BspDungeon(b), Builder::BspDungeon(a)) => b.built(a),
            (Builder::CellularAutomata(b), Builder::CellularAutomata(a)) => b.built(a),
            (Builder::DrunkardsWalk(b), Builder::DrunkardsWalk(a)) => b.built(a),
            (Builder::Maze(b), Builder::Maze(a)) => b.built(a),
            (Builder::Dla(b), Builder::Dla(a)) => b.built(a),
            (Builder::VoronoiCell(b), Builder::VoronoiCell(a)) => b.built(a),
            (Builder::WaveformCollapse(b), Builder::WaveformCollapse(a)) => b.built(a),
            _ => false,
        }
    }

    fn build_map(&mut self, rng: &mut RandomNumberGenerator) {
        match self {
            Builder::BspDungeon(b) => b.build_map(rng),
            Builder::CellularAutomata(b) => b.build_map(rng),
            Builder::DrunkardsWalk(b) => b.build_map(rng),
            Builder::Maze(b) => b.build_map(rng),
            Builder::Dla(b) => b.build_map(rng),
            Builder::VoronoiCell(b) => b.build_map(rng),
            Builder::WaveformCollapse(b) => b.build_map(rng),
        }
    }

    fn get_map(&self) -> (map: Grid) {
        match self {
            Builder::BspDungeon(b) => b.get_map(),
            Builder::CellularAutomata(b) => b.get_map(),
            Builder::DrunkardsWalk(b) => b.get_map(),
            Builder::Maze(b) => b.get_map(),
            Builder::Dla(b) => b.get_map(),
            Builder::VoronoiCell(b) => b.get_map(),
            Builder::WaveformCollapse(b) => b.get_map(),
        }
    }

    fn get_starting_position(&self) -> (start: Position) {
        match self {
            Builder::BspDungeon(b) => b.get_starting_position(),
            Builder::CellularAutomata(b) => b.get_starting_position(),
            Builder::DrunkardsWalk(b) => b.get_starting_position(),
            Builder::Maze(b) => b.get_starting_position(),
            Builder::Dla(b) => b.get_starting_position(),
            Builder::VoronoiCell(b) => b.get_starting_position(),
            Builder::WaveformCollapse(b) => b.get_starting_position(),
        }
    }

    fn get_snapshot_history(&self) -> (history: Vec<Grid>) {
        match self {
            Builder::BspDungeon(b) => b.get_snapshot_history(),
            Builder::CellularAutomata(b) => b.get_snapshot_history(),
            Builder::DrunkardsWalk(b) => b.get_snapshot_history(),
            Builder::Maze(b) => b.get_snapshot_history(),
            Builder::Dla(b) => b.get_snapshot_history(),
            Builder::VoronoiCell(b) => b.get_snapshot_history(),
            Builder::WaveformCollapse(b) => b.get_snapshot_history(),
        }
    }

    fn take_snapshot(&mut self) {
        match self {
            Builder::BspDungeon(b) => b.take_snapshot(),
            Builder::CellularAutomata(b) => b.take_snapshot(),
            Builder::DrunkardsWalk(b) => b.take_snapshot(),
            Builder::Maze(b) => b.take_snapshot(),
            Builder::Dla(b) => b.take_snapshot(),
            Builder::VoronoiCell(b) => b.take_snapshot(),
            Builder::WaveformCollapse(b) => b.take_snapshot(),
        }
    }

    fn spawn_entities(&self, rng: &mut RandomNumberGenerator) -> (spawns: Vec<(usize, String)>) {
        match self {
            Builder::BspDungeon(b) => b.spawn_entities(rng),
            Builder::CellularAutomata(b) => b.spawn_entities(rng),
            Builder::DrunkardsWalk(b) => b.spawn_entities(rng),
            Builder::Maze(b) => b.spawn_entities(rng),
            Builder::Dla(b) => b.spawn_entities(rng),
            Builder::VoronoiCell(b) => b.spawn_entities(rng),
            Builder::WaveformCollapse(b) => b.spawn_entities(rng),
        }
    }
}

/// The generator is the one that the table of generators holds for the
/// roll: of the sixteen rolls, the first two and the last give the dungeon
/// of rooms, the third the cellular automaton, the next three the walkers in
/// their three forms, the seventh the maze, the next six the growth by
/// aggregation in its forms, and the next two the cells with their two
/// distances.
pub open spec fn builder_for_roll(builder: Builder, roll: int) -> bool {
    if roll == 3 {
        builder is CellularAutomata
    } else if roll == 4 {
        builder matches Builder::DrunkardsWalk(b) && b.walkers() == (DrunkardSettings {
            spawn_mode: DrunkSpawnMode::StartingPoint,
            drunken_lifetime: 400,
            floor_percent: 50,
        })
    } else if roll == 5 {
        builder matches Builder::DrunkardsWalk(b) && b.walkers() == (DrunkardSettings {
            spawn_mode: DrunkSpawnMode::Random,
            drunken_lifetime: 400,
            floor_percent: 50,
        })
    } else if roll == 6 {
        builder matches Builder::DrunkardsWalk(b) && b.walkers() == (DrunkardSettings {
            spawn_mode: DrunkSpawnMode::Random,
            drunken_lifetime: 100,
            floor_percent: 40,
        })
    } else if roll == 7 {
        builder is Maze
    } else if roll == 8 {
        builder matches Builder::Dla(b) && b.settings() == (
            DLAAlgorithm::WalkInwards,
            1int,
            DLASymmetry::NoSymmetry,
            25int,
        )
    } else if roll == 9 {
        builder matches Builder::Dla(b) && b.settings() == (
            DLAAlgorithm::WalkOutwards,
            2int,
            DLASymmetry::NoSymmetry,
            25int,
        )
    } else if roll == 10 || roll == 12 {
        builder matches Builder::Dla(b) && b.settings() == (
            DLAAlgorithm::CentralAttractor,
            2int,
            DLASymmetry::NoSymmetry,
            25int,
        )
    } else if roll == 11 || roll == 13 {
        builder matches Builder::Dla(b) && b.settings() == (
            DLAAlgorithm::CentralAttractor,
            2int,
            DLASymmetry::Horizontal,
            25int,
        )
    } else if roll == 14 {
        builder matches Builder::VoronoiCell(b) && b.settings() == (
            64usize,
            DistanceAlgorithm::Pythagoras,
        )
    } else if roll == 15 {
        builder matches Builder::VoronoiCell(b) && b.settings() == (
            64usize,
            DistanceAlgorithm::Manhattan,
        )
    } else {
        builder is BspDungeon
    }
}

/// The generator that the table of generators holds for the roll, new and
/// for a level of the given depth.
pub fn builder_for(new_depth: i32, roll: i32) -> (builder: Builder)
    ensures
        builder.wf(),
        builder.level().depth == new_depth,
        builder.level() == Grid::solid(new_depth),
        builder.history() == Seq::<GridView>::empty(),
        builder_for_roll(builder, roll as int),
{
    if roll == 3 {
        Builder::CellularAutomata(CellularAutomataBuilder::new(new_depth))
    } else if roll == 4 {
        Builder::DrunkardsWalk(DrunkardsWalkBuilder::open_area(new_depth))
    } else if roll == 5 {
        Builder::DrunkardsWalk(DrunkardsWalkBuilder::open_halls(new_depth))
    } else if roll == 6 {
        Builder::DrunkardsWalk(DrunkardsWalkBuilder::winding_passages(new_depth))
    } else if roll == 7 {
        Builder::Maze(MazeBuilder::new(new_depth))
    } else if roll == 8 {
        Builder::Dla(DLABuilder::walk_inwards(new_depth))
    } else if roll == 9 {
        Builder::Dla(DLABuilder::walk_outwards(new_depth))
    } else if roll == 10 || roll == 12 {
        Builder::Dla(DLABuilder::central_attractor(new_depth))
    } else if roll == 11 || roll == 13 {
        Builder::Dla(DLABuilder::insectoid(new_depth))
    } else if roll == 14 {
        Builder::VoronoiCell(VoronoiCellBuilder::pythagoras(new_depth))
    } else if roll == 15 {
        Builder::VoronoiCell(VoronoiCellBuilder::manhattan(new_depth))
    } else {
        Builder::BspDungeon(BspDungeonBuilder::new(new_depth))
    }
}

/// A generator for a level of the given depth, chosen by a die of sixteen
/// faces from the table of generators.
pub fn random_builder(new_depth: i32, rng: &mut RandomNumberGenerator) -> (builder: Builder)
    ensures
        builder.wf(),
        builder.level().depth == new_depth,
        builder.level() == Grid::solid(new_depth),
        builder.history() == Seq::<GridView>::empty(),
        exists|roll: int| 1 <= roll <= 16 && #[trigger] builder_for_roll(builder, roll),
{
    let roll = roll_die(rng, 16);
    let builder = builder_for(new_depth, roll);
    builder
}

} // verus!
