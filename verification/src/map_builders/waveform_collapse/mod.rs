//! Levels put together from the patterns of a picture.

pub mod common;
pub mod constraints;
pub mod image_loader;
pub mod solver;

use crate::map::{tile_index, Grid, GridView, Position, TileType, MAPHEIGHT, MAPWIDTH};
use crate::map_builders::common::{generate_voronoi_spawn_regions, is_partition, regions_fit};
use crate::map_builders::{
    clone_history, extends, find_starting_floor, finish_level, finished_from, history_view,
    is_scanned_start, lemma_finish_deterministic, lemma_scan_deterministic, level_complete,
    no_stairs, record_snapshot, revealed_copy, solid_rock, MapBuilder, SHOW_MAPGEN_VISUALIZER,
};
use crate::spawner::{regions_in_turn, spawn_in_level};
use common::constraints_ok;
use constraints::patterns_view;
use rltk::RandomNumberGenerator;
use solver::{collapsed, placement_ok, rendered_upto};
use std::collections::HashMap;
use vstd::prelude::*;

pub use common::{tile_idx_in_chunk, MapChunk};
pub use constraints::{build_patterns, patterns_to_constraints, render_pattern_to_map};
pub use image_loader::{load_rex_map, with_layers, RexImage, RexLayer};
pub use solver::{collapse, render_placement};

verus! {

/// The side of the square patterns.
pub const CHUNK_SIZE: i32 = 7;

/// Why a level could not be put together from a picture.
#[derive(PartialEq, Eq, Structural, Copy, Clone, Debug)]
pub enum TemplateError {
    /// The generator was given no picture.
    Missing,
    /// A layer of the picture does not hold one glyph for each of its cells.
    Malformed,
}

pub struct WaveformCollapseBuilder {
    map: Grid,
    starting_position: Position,
    depth: i32,
    history: Vec<Grid>,
    noise_areas: HashMap<i32, Vec<usize>>,
    template: Option<RexImage>,
    failure: Option<TemplateError>,
}

/// What is wrong with the picture, if anything: none was given, or one of
/// its layers does not hold one glyph for each of its cells.
pub open spec fn picture_fault(picture: Option<RexImage>) -> Option<TemplateError> {
    match picture {
        None => Some(TemplateError::Missing),
        Some(image) => if image.wf() {
            None
        } else {
            Some(TemplateError::Malformed)
        },
    }
}

/// The tiles of the level of the standard size that the picture shows:
/// solid rock with the layers of the picture laid over it.
pub open spec fn picture_tiles(image: RexImage) -> Seq<TileType> {
    with_layers(
        solid_rock((MAPWIDTH * MAPHEIGHT) as nat),
        MAPWIDTH as int,
        image.layers@,
        image.layers@.len() as int,
    )
}

/// The level with the tiles `finished` was put together from the picture:
/// the chunks hold the patterns of the picture and what may lie beside
/// what; every square of the level has its place, and what was put in the
/// places suits its neighbours and is the last of the fillings that were
/// tried; the patterns of the places, laid on solid
/// rock, give the start by the scan of the middle row and the tiles `raw`;
/// and the level is `raw` finished from the start.
pub open spec fn put_together(
    image: RexImage,
    chunks: Seq<MapChunk>,
    placed: Seq<Option<usize>>,
    raw: Seq<TileType>,
    start: Position,
    finished: Seq<TileType>,
) -> bool {
    &&& chunks_of(chunks, picture_tiles(image))
    &&& constraints_ok(chunks, CHUNK_SIZE as int)
    &&& placed.len() == (MAPWIDTH as int / CHUNK_SIZE as int) * (MAPHEIGHT as int
        / CHUNK_SIZE as int)
    &&& placement_ok(chunks, placed, MAPWIDTH as int / CHUNK_SIZE as int)
    &&& collapsed(
        chunks,
        placed,
        MAPWIDTH as int / CHUNK_SIZE as int,
        MAPHEIGHT as int / CHUNK_SIZE as int,
    )
    &&& is_scanned_start(
        rendered_upto(
            chunks,
            placed,
            MAPWIDTH as int / CHUNK_SIZE as int,
            CHUNK_SIZE as int,
            MAPWIDTH as int,
            (MAPWIDTH * MAPHEIGHT) as nat,
            placed.len() as int,
        ),
        MAPWIDTH as int,
        MAPHEIGHT as int,
        start,
        raw,
    )
    &&& finished_from(
        raw,
        tile_index(MAPWIDTH as int, start.x as int, start.y as int),
        finished,
    )
}

/// A picture, its patterns and a placement have one level: the same
/// placement gives the same start and the same tiles.
pub proof fn lemma_put_together_deterministic(
    image: RexImage,
    chunks: Seq<MapChunk>,
    placed: Seq<Option<usize>>,
    first_raw: Seq<TileType>,
    first_start: Position,
    first: Seq<TileType>,
    second_raw: Seq<TileType>,
    second_start: Position,
    second: Seq<TileType>,
)
    requires
        put_together(image, chunks, placed, first_raw, first_start, first),
        put_together(image, chunks, placed, second_raw, second_start, second),
    ensures
        first_start == second_start,
        first == second,
{
    lemma_scan_deterministic(
        rendered_upto(
            chunks,
            placed,
            MAPWIDTH as int / CHUNK_SIZE as int,
            CHUNK_SIZE as int,
            MAPWIDTH as int,
            (MAPWIDTH * MAPHEIGHT) as nat,
            placed.len() as int,
        ),
        MAPWIDTH as int,
        MAPHEIGHT as int,
        first_start,
        first_raw,
        second_start,
        second_raw,
    );
    lemma_finish_deterministic(
        first_raw,
        tile_index(MAPWIDTH as int, first_start.x as int, first_start.y as int),
        first,
        second,
    );
}

/// The chunks hold the patterns of the level with the tiles `source`, in
/// their order: the patterns of its squares with their mirror images, each
/// pattern once.
pub open spec fn chunks_of(chunks: Seq<MapChunk>, source: Seq<TileType>) -> bool {
    let patterns = constraints::deduped(
        constraints::patterns_upto(
            source,
            MAPWIDTH as int,
            CHUNK_SIZE as int,
            MAPWIDTH as int / CHUNK_SIZE as int,
            true,
            (MAPWIDTH as int / CHUNK_SIZE as int) * (MAPHEIGHT as int / CHUNK_SIZE as int),
        ),
    );
    &&& chunks.len() == patterns.len()
    &&& forall|i: int| 0 <= i < chunks.len() ==> (#[trigger] chunks[i]).pattern@ == patterns[i]
}

/// Whether every layer of the picture holds one glyph for each of its
/// cells.
pub fn image_in_order(image: &RexImage) -> (ok: bool)
    ensures
        ok == image.wf(),
{
    let mut l: usize = 0;
    while l < image.layers.len()
        invariant
            l <= image.layers@.len(),
            forall|i: int| 0 <= i < l ==> (#[trigger] image.layers@[i]).wf(),
        decreases image.layers@.len() - l,
    {
        let layer = &image.layers[l];
        assert(layer.width * layer.height <= 0xffff_ffff_ffff_ffff * 0xffff_ffff_ffff_ffff)
            by (nonlinear_arith)
            requires
                0 <= layer.width <= 0xffff_ffff_ffff_ffff,
                0 <= layer.height <= 0xffff_ffff_ffff_ffff,
        ;
        let cells: u128 = (layer.width as u128) * (layer.height as u128);
        if layer.cells.len() as u128 != cells {
            return false;
        }
        l = l + 1;
    }
    true
}

impl WaveformCollapseBuilder {
    /// The spawn regions found so far.
    pub closed spec fn regions(&self) -> Map<i32, Vec<usize>> {
        self.noise_areas@
    }

    /// The picture that the level is put together from, if one was given.
    pub closed spec fn picture(&self) -> Option<RexImage> {
        self.template
    }

    /// Why the last level could not be put together from the picture, if it
    /// could not.
    pub closed spec fn failure(&self) -> Option<TemplateError> {
        self.failure
    }

    /// Why the last level could not be put together from the picture:
    /// nothing where it could, or where no level was built yet.
    pub fn get_failure(&self) -> (failure: Option<TemplateError>)
        ensures
            failure == self.failure(),
    {
        self.failure
    }

    /// A generator without a picture.
    pub fn new(new_depth: i32) -> (builder: WaveformCollapseBuilder)
        ensures
            builder.wf(),
            builder.level().depth == new_depth,
            builder.level() == Grid::solid(new_depth),
            builder.picture().is_none(),
            builder.failure().is_none(),
            builder.start() == (Position { x: 0, y: 0 }),
            builder.history() == Seq::<GridView>::empty(),
            builder.regions() == Map::<i32, Vec<usize>>::empty(),
    {
        let builder = WaveformCollapseBuilder {
            map: Grid::new(new_depth),
            starting_position: Position { x: 0, y: 0 },
            depth: new_depth,
            history: Vec::new(),
            noise_areas: HashMap::new(),
            template: None,
            failure: None,
        };
        builder
    }

    /// A generator that puts its level together from the picture given.
    pub fn with_template(new_depth: i32, image: RexImage) -> (builder: WaveformCollapseBuilder)
        ensures
            builder.wf(),
            builder.level().depth == new_depth,
            builder.level() == Grid::solid(new_depth),
            builder.picture() == Some(image),
            builder.failure().is_none(),
            builder.start() == (Position { x: 0, y: 0 }),
            builder.history() == Seq::<GridView>::empty(),
            builder.regions() == Map::<i32, Vec<usize>>::empty(),
    {
        let builder = WaveformCollapseBuilder {
            map: Grid::new(new_depth),
            starting_position: Position { x: 0, y: 0 },
            depth: new_depth,
            history: Vec::new(),
            noise_areas: HashMap::new(),
            template: Some(image),
            failure: None,
        };
        builder
    }

    /// Sorts the floor tiles of the level into spawn regions by the values
    /// given, one for each tile.
    pub fn partition(&mut self, cell_values: &Vec<i32>)
        requires
            old(self).wf(),
            cell_values@.len() == old(self).level().tiles.len(),
        ensures
            final(self).wf(),
            final(self).level() == old(self).level(),
            final(self).start() == old(self).start(),
            final(self).history() == old(self).history(),
            final(self).picture() == old(self).picture(),
            final(self).failure() == old(self).failure(),
            is_partition(
                final(self).regions(),
                final(self).level().tiles,
                cell_values@,
                cell_values@.len() as int,
            ),
    {
        self.noise_areas = generate_voronoi_spawn_regions(&self.map, cell_values);
    }

    /// The spawn regions found by the last partition.
    pub fn get_noise_areas(&self) -> (regions: HashMap<i32, Vec<usize>>)
        ensures
            regions@ == self.regions(),
    {
        self.noise_areas.clone()
    }

    /// Shows the patterns on the level, side by side and page after page,
    /// and records every page.
    fn render_tile_gallery(
        map: &mut Grid,
        history: &mut Vec<Grid>,
        patterns: &Vec<Vec<TileType>>,
        chunk_size: i32,
    )
        requires
            0 < chunk_size <= 16,
            forall|i: int|
                0 <= i < patterns@.len() ==> (#[trigger] patterns@[i])@.len() == chunk_size
                    * chunk_size,
            forall|i: int| 0 <= i < old(history)@.len() ==> (#[trigger] old(history)@[i]).wf(),
        ensures
            final(map).wf(),
            final(map).width == MAPWIDTH,
            final(map).height == MAPHEIGHT,
            forall|i: int| 0 <= i < final(history)@.len() ==> (#[trigger] final(history)@[i]).wf(),
            extends(history_view(final(history)@), history_view(old(history)@)),
            !SHOW_MAPGEN_VISUALIZER ==> history_view(final(history)@) == history_view(old(history)@),
    {
        *map = Grid::new(0);
        let mut counter: usize = 0;
        let mut x: i32 = 1;
        let mut y: i32 = 1;
        while counter < patterns.len()
            invariant
                0 < chunk_size <= 16,
                map.wf(),
                map.width == MAPWIDTH,
                map.height == MAPHEIGHT,
                1 <= x,
                1 <= y,
                x + chunk_size <= MAPWIDTH,
                y + chunk_size <= MAPHEIGHT,
                counter <= patterns@.len(),
                forall|i: int|
                    0 <= i < patterns@.len() ==> (#[trigger] patterns@[i])@.len() == chunk_size
                        * chunk_size,
                forall|i: int| 0 <= i < history@.len() ==> (#[trigger] history@[i]).wf(),
                extends(history_view(history@), history_view(old(history)@)),
                !SHOW_MAPGEN_VISUALIZER ==> history_view(history@) == history_view(old(history)@),
            decreases patterns@.len() - counter,
        {
            render_pattern_to_map(map, &patterns[counter], chunk_size, x, y);
            x = x + chunk_size + 1;
            if x + chunk_size > map.width {
                x = 1;
                y = y + chunk_size + 1;
                if y + chunk_size > map.height {
                    record_snapshot(history, map);
                    *map = Grid::new(0);
                    x = 1;
                    y = 1;
                }
            }
            counter = counter + 1;
        }
        record_snapshot(history, map);
    }

    /// Puts a level together from the patterns of the level `source`: shows
    /// the patterns, finds what may lie beside what, fills the places of the
    /// level, and lays the patterns of the places on the level. Returns the
    /// patterns and what was put in which place.
    fn assemble(
        map: &mut Grid,
        history: &mut Vec<Grid>,
        source: &Grid,
        depth: i32,
        rng: &mut RandomNumberGenerator,
    ) -> (pieces: (Vec<MapChunk>, Vec<Option<usize>>))
        requires
            source.wf(),
            source.width == MAPWIDTH,
            source.height == MAPHEIGHT,
            no_stairs(source.tiles@),
            forall|i: int| 0 <= i < old(history)@.len() ==> (#[trigger] old(history)@[i]).wf(),
        ensures
            final(map).wf(),
            final(map).width == MAPWIDTH,
            final(map).height == MAPHEIGHT,
            final(map).depth == depth,
            no_stairs(final(map).tiles@),
            chunks_of(pieces.0@, source.tiles@),
            constraints_ok(pieces.0@, CHUNK_SIZE as int),
            pieces.1@.len() == (MAPWIDTH as int / CHUNK_SIZE as int) * (MAPHEIGHT as int
                / CHUNK_SIZE as int),
            placement_ok(pieces.0@, pieces.1@, MAPWIDTH as int / CHUNK_SIZE as int),
            collapsed(
                pieces.0@,
                pieces.1@,
                MAPWIDTH as int / CHUNK_SIZE as int,
                MAPHEIGHT as int / CHUNK_SIZE as int,
            ),
            final(map).tiles@ == rendered_upto(
                pieces.0@,
                pieces.1@,
                MAPWIDTH as int / CHUNK_SIZE as int,
                CHUNK_SIZE as int,
                MAPWIDTH as int,
                (MAPWIDTH * MAPHEIGHT) as nat,
                pieces.1@.len() as int,
            ),
            forall|i: int| 0 <= i < final(history)@.len() ==> (#[trigger] final(history)@[i]).wf(),
            extends(history_view(final(history)@), history_view(old(history)@)),
            !SHOW_MAPGEN_VISUALIZER ==> history_view(final(history)@) == history_view(old(history)@),
    {
        record_snapshot(history, source);
        let patterns = build_patterns(source, CHUNK_SIZE, true, true);
        proof {
            assert forall|i: int| 0 <= i < patterns@.len() implies (#[trigger] patterns@[i])@.len()
                == CHUNK_SIZE * CHUNK_SIZE by {}
            lemma_few_patterns(*source, patterns@);
        }
        WaveformCollapseBuilder::render_tile_gallery(map, history, &patterns, CHUNK_SIZE);
        let ghost shown = patterns@;
        let constraints = patterns_to_constraints(patterns, CHUNK_SIZE);
        let placed = collapse(&constraints, 11, 6, rng);
        *map = Grid::new(depth);
        proof {
            assert forall|i: int| 0 <= i < constraints@.len() implies (
            #[trigger] constraints@[i]).pattern@.len() == CHUNK_SIZE * CHUNK_SIZE && no_stairs(
                constraints@[i].pattern@,
            ) by {
                assert forall|k: int| 0 <= k < shown[i]@.len() implies #[trigger] shown[i]@[k]
                    != TileType::DownStairs by {}
            }
        }
        render_placement(map, &constraints, &placed, CHUNK_SIZE, 11, 6);
        record_snapshot(history, map);
        proof {
            assert forall|i: int| 0 <= i < constraints@.len() implies (
            #[trigger] constraints@[i]).pattern@ == patterns_view(shown)[i] by {}
            assert(chunks_of(constraints@, source.tiles@));
        }
        (constraints, placed)
    }

    /// Builds the level. With a picture in order, the level is put together
    /// from the patterns of the picture, one place for each square of the
    /// level and every pattern suiting its neighbours, and the start is
    /// found by the scan of the middle row. Without one, the level is solid
    /// rock but for the start in its middle, and the error says what was
    /// wrong with the picture; the generator keeps it. Either way the level
    /// is finished from the start.
    pub fn build(&mut self, rng: &mut RandomNumberGenerator) -> (outcome: Result<(), TemplateError>)
        requires
            old(self).wf(),
        ensures
            final(self).wf(),
            level_complete(final(self).level(), final(self).start()),
            final(self).level().depth == old(self).level().depth,
            final(self).built(old(self)),
            extends(final(self).history(), old(self).history()),
            !SHOW_MAPGEN_VISUALIZER ==> final(self).history() == old(self).history(),
            SHOW_MAPGEN_VISUALIZER ==> final(self).history().len() > old(self).history().len()
                && final(self).history().last() == revealed_copy(final(self).level()),
            outcome == match final(self).failure() {
                None => Ok::<(), TemplateError>(()),
                Some(e) => Err::<(), TemplateError>(e),
            },
    {
        self.noise_areas = HashMap::new();
        let outcome = match &self.template {
            None => Err(TemplateError::Missing),
            Some(image) => if image_in_order(image) {
                Ok(())
            } else {
                Err(TemplateError::Malformed)
            },
        };
        self.failure = match outcome {
            Ok(_) => None,
            Err(e) => Some(e),
        };
        if outcome.is_err() {
            self.map = Grid::new(self.depth);
            self.starting_position = find_starting_floor(&mut self.map);
            finish_level(&mut self.map, &mut self.history, self.starting_position);
            return outcome;
        }
        let source = match &self.template {
            Some(image) => load_rex_map(self.depth, image),
            None => Grid::new(self.depth),
        };
        proof {
            assert(Grid::solid(self.depth).tiles =~= solid_rock((MAPWIDTH * MAPHEIGHT) as nat));
            assert(source.tiles@ == picture_tiles(self.template->0));
        }
        let pieces = WaveformCollapseBuilder::assemble(
            &mut self.map,
            &mut self.history,
            &source,
            self.depth,
            rng,
        );
        let ghost rendered = self.map.tiles@;
        self.starting_position = find_starting_floor(&mut self.map);
        let ghost raw = self.map.tiles@;
        finish_level(&mut self.map, &mut self.history, self.starting_position);
        proof {
            assert(self.template == old(self).template);
            assert(put_together(
                old(self).picture()->0,
                pieces.0@,
                pieces.1@,
                raw,
                self.start(),
                self.level().tiles,
            ));
        }
        outcome
    }
}

/// A level of the standard size has no more than 264 patterns.
proof fn lemma_few_patterns(source: Grid, patterns: Seq<Vec<TileType>>)
    requires
        source.wf(),
        source.width == MAPWIDTH,
        source.height == MAPHEIGHT,
        patterns_view(patterns) == constraints::deduped(
            constraints::patterns_upto(
                source.tiles@,
                MAPWIDTH as int,
                CHUNK_SIZE as int,
                MAPWIDTH as int / CHUNK_SIZE as int,
                true,
                (MAPWIDTH as int / CHUNK_SIZE as int) * (MAPHEIGHT as int / CHUNK_SIZE as int),
            ),
        ),
    ensures
        patterns.len() <= 264,
{
    let all = constraints::patterns_upto(
        source.tiles@,
        MAPWIDTH as int,
        CHUNK_SIZE as int,
        MAPWIDTH as int / CHUNK_SIZE as int,
        true,
        66,
    );
    lemma_patterns_count(source.tiles@, MAPWIDTH as int, CHUNK_SIZE as int, 11, true, 66);
    lemma_deduped_count(all);
}

/// The squares of a level give one pattern each, or four with their mirror
/// images.
proof fn lemma_patterns_count(
    tiles: Seq<TileType>,
    width: int,
    chunk_size: int,
    chunks_x: int,
    include_flipping: bool,
    n: int,
)
    requires
        0 <= n,
    ensures
        constraints::patterns_upto(tiles, width, chunk_size, chunks_x, include_flipping, n).len()
            == if include_flipping {
            4 * n
        } else {
            n
        },
    decreases n,
{
    if n > 0 {
        lemma_patterns_count(tiles, width, chunk_size, chunks_x, include_flipping, n - 1);
    }
}

/// Leaving out repeats does not add patterns.
proof fn lemma_deduped_count(patterns: Seq<Seq<TileType>>)
    ensures
        constraints::deduped(patterns).len() <= patterns.len(),
    decreases patterns.len(),
{
    if patterns.len() > 0 {
        lemma_deduped_count(patterns.drop_last());
    }
}

impl MapBuilder for WaveformCollapseBuilder {
    closed spec fn wf(&self) -> bool {
        &&& self.map.wf()
        &&& self.map.width == MAPWIDTH
        &&& self.map.height == MAPHEIGHT
        &&& self.map.depth == self.depth
        &&& regions_fit(self.noise_areas@, self.map.tiles@)
        &&& forall|i: int| 0 <= i < self.history@.len() ==> (#[trigger] self.history@[i]).wf()
    }

    closed spec fn level(&self) -> GridView {
        self.map@
    }

    closed spec fn start(&self) -> Position {
        self.starting_position
    }

    closed spec fn history(&self) -> Seq<GridView> {
        history_view(self.history@)
    }

    open spec fn spawn_areas(&self, areas: Seq<Seq<usize>>) -> bool {
        regions_in_turn(self.regions(), areas)
    }

    open spec fn built(&self, before: &WaveformCollapseBuilder) -> bool {
        &&& self.picture() == before.picture()
        &&& self.regions() == Map::<i32, Vec<usize>>::empty()
        &&& self.failure() == picture_fault(before.picture())
        &&& self.failure().is_none() ==> exists|
            chunks: Seq<MapChunk>,
            placed: Seq<Option<usize>>,
            raw: Seq<TileType>,
        | #[trigger]
            put_together(
                before.picture()->0,
                chunks,
                placed,
                raw,
                self.start(),
                self.level().tiles,
            )
        &&& self.failure().is_some() ==> self.start() == (Position { x: 40, y: 21 })
            && finished_from(
            solid_rock((MAPWIDTH * MAPHEIGHT) as nat).update(
                tile_index(MAPWIDTH as int, 40, 21),
                TileType::Floor,
            ),
            tile_index(MAPWIDTH as int, 40, 21),
            self.level().tiles,
        )
    }

    fn build_map(&mut self, rng: &mut RandomNumberGenerator) {
        let _ = self.build(rng);
    }

    fn get_map(&self) -> (map: Grid) {
        self.map.clone()
    }

    fn get_starting_position(&self) -> (start: Position) {
        self.starting_position
    }

    fn get_snapshot_history(&self) -> (history: Vec<Grid>) {
        clone_history(&self.history)
    }

    fn take_snapshot(&mut self) {
        record_snapshot(&mut self.history, &self.map);
    }

    fn spawn_entities(&self, rng: &mut RandomNumberGenerator) -> (spawns: Vec<(usize, String)>) {
        spawn_in_level(&self.map, &self.noise_areas, rng)
    }
}

} // verus!
