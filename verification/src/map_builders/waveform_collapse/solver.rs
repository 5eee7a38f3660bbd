//! Putting patterns side by side so that every pattern suits its
//! neighbours.

use crate::dice::roll_die;
use crate::map::{lemma_index_tile, lemma_tile_index, Grid, GridView, TileType};
use crate::map_builders::waveform_collapse::common::{MapChunk, EAST, NORTH, SOUTH, WEST};
use crate::map_builders::waveform_collapse::constraints::{render_pattern_to_map, with_pattern};
use crate::map_builders::{no_stairs, solid_rock};
use rltk::RandomNumberGenerator;
use vstd::prelude::*;

verus! {

/// The places of a level are filled anew no more often than this.
pub const COLLAPSE_ATTEMPTS: u32 = 32;

/// The pattern `a` lists the pattern `b` for its given side, and `b` lists
/// `a` for the side that lies against it.
pub open spec fn mutually_listed(chunks: Seq<MapChunk>, a: int, side: int, b: int) -> bool {
    &&& 0 <= a < chunks.len()
    &&& 0 <= b < chunks.len()
    &&& chunks[a].compatible_with@[side]@.contains(b as usize)
    &&& chunks[b].compatible_with@[if side == EAST {
        WEST as int
    } else {
        NORTH as int
    }]@.contains(a as usize)
}

/// The pattern `j` suits a place whose neighbours to the west and to the
/// north hold what is given.
pub open spec fn suits(
    chunks: Seq<MapChunk>,
    west: Option<usize>,
    north: Option<usize>,
    j: int,
) -> bool {
    &&& 0 <= j < chunks.len()
    &&& west matches Some(a) ==> mutually_listed(chunks, a as int, EAST as int, j)
    &&& north matches Some(a) ==> mutually_listed(chunks, a as int, SOUTH as int, j)
}

/// The patterns among the first `n` that suit a place, in rising order.
pub open spec fn suitable_upto(
    chunks: Seq<MapChunk>,
    west: Option<usize>,
    north: Option<usize>,
    n: int,
) -> Seq<usize>
    decreases n,
{
    if n <= 0 {
        Seq::empty()
    } else if suits(chunks, west, north, n - 1) {
        suitable_upto(chunks, west, north, n - 1).push((n - 1) as usize)
    } else {
        suitable_upto(chunks, west, north, n - 1)
    }
}

/// What lies west of place `p` in a placement with `chunks_x` places to a
/// row: nothing for the first place of a row.
pub open spec fn west_of(placed: Seq<Option<usize>>, chunks_x: int, p: int) -> Option<usize> {
    if p % chunks_x == 0 {
        None
    } else {
        placed[p - 1]
    }
}

/// What lies north of place `p`: nothing for the places of the first row.
pub open spec fn north_of(placed: Seq<Option<usize>>, chunks_x: int, p: int) -> Option<usize> {
    if p < chunks_x {
        None
    } else {
        placed[p - chunks_x]
    }
}

/// Every place of the placement holds a pattern that suits what lies west
/// and north of it, so that every two patterns that lie side by side list
/// each other, or is empty because no pattern suits the place.
pub open spec fn placement_ok(chunks: Seq<MapChunk>, placed: Seq<Option<usize>>, chunks_x: int) -> bool {
    forall|p: int| 0 <= p < placed.len() ==> #[trigger] place_ok(chunks, placed, chunks_x, p)
}

/// Place `p` holds a pattern that suits what lies west and north of it, or
/// is empty because no pattern does.
pub open spec fn place_ok(
    chunks: Seq<MapChunk>,
    placed: Seq<Option<usize>>,
    chunks_x: int,
    p: int,
) -> bool {
    match placed[p] {
        Some(j) => suits(
            chunks,
            west_of(placed, chunks_x, p),
            north_of(placed, chunks_x, p),
            j as int,
        ),
        None => suitable_upto(
            chunks,
            west_of(placed, chunks_x, p),
            north_of(placed, chunks_x, p),
            chunks.len() as int,
        ).len() == 0,
    }
}

/// The tiles of a level of `count` tiles on which the patterns of the first
/// `n` places were laid, each place a square of the given size.
pub open spec fn rendered_upto(
    chunks: Seq<MapChunk>,
    placed: Seq<Option<usize>>,
    chunks_x: int,
    chunk_size: int,
    width: int,
    count: nat,
    n: int,
) -> Seq<TileType>
    decreases n,
{
    if n <= 0 {
        solid_rock(count)
    } else {
        let rest = rendered_upto(chunks, placed, chunks_x, chunk_size, width, count, n - 1);
        match placed[n - 1] {
            Some(j) => with_pattern(
                rest,
                width,
                chunks[j as int].pattern@,
                chunk_size,
                ((n - 1) % chunks_x) * chunk_size,
                ((n - 1) / chunks_x) * chunk_size,
            ),
            None => rest,
        }
    }
}

/// Whether the list holds the number.
pub fn in_list(list: &Vec<usize>, j: usize) -> (found: bool)
    ensures
        found == list@.contains(j),
{
    let mut t: usize = 0;
    while t < list.len()
        invariant
            t <= list@.len(),
            forall|k: int| 0 <= k < t ==> list@[k] != j,
        decreases list@.len() - t,
    {
        if list[t] == j {
            return true;
        }
        t = t + 1;
    }
    false
}

/// Whether the pattern `j` suits a place with the given neighbours.
pub fn suits_place(chunks: &Vec<MapChunk>, west: Option<usize>, north: Option<usize>, j: usize) -> (fits:
    bool)
    requires
        j < chunks@.len(),
        west matches Some(a) ==> a < chunks@.len(),
        north matches Some(a) ==> a < chunks@.len(),
    ensures
        fits == suits(chunks@, west, north, j as int),
{
    let west_fits = match west {
        Some(a) => in_list(&chunks[a].compatible_with[EAST], j) && in_list(
            &chunks[j].compatible_with[WEST],
            a,
        ),
        None => true,
    };
    let north_fits = match north {
        Some(a) => in_list(&chunks[a].compatible_with[SOUTH], j) && in_list(
            &chunks[j].compatible_with[NORTH],
            a,
        ),
        None => true,
    };
    west_fits && north_fits
}

/// The patterns that suit a place with the given neighbours.
pub fn candidates(chunks: &Vec<MapChunk>, west: Option<usize>, north: Option<usize>) -> (options:
    Vec<usize>)
    requires
        west matches Some(a) ==> a < chunks@.len(),
        north matches Some(a) ==> a < chunks@.len(),
    ensures
        options@ == suitable_upto(chunks@, west, north, chunks@.len() as int),
        options@.len() <= chunks@.len(),
        forall|t: int|
            0 <= t < options@.len() ==> suits(chunks@, west, north, #[trigger] options@[t] as int),
{
    let mut options: Vec<usize> = Vec::new();
    let mut j: usize = 0;
    while j < chunks.len()
        invariant
            j <= chunks@.len(),
            west matches Some(a) ==> a < chunks@.len(),
            north matches Some(a) ==> a < chunks@.len(),
            options@ == suitable_upto(chunks@, west, north, j as int),
            options@.len() <= j,
            forall|t: int|
                0 <= t < options@.len() ==> suits(chunks@, west, north, #[trigger] options@[t] as int),
        decreases chunks@.len() - j,
    {
        if suits_place(chunks, west, north, j) {
            options.push(j);
        }
        j = j + 1;
    }
    options
}

/// The option that the die chose: the option in the place that the die
/// shows, counting from one; nothing where there is no such option.
pub fn pick_option(options: &Vec<usize>, roll: i32) -> (choice: Option<usize>)
    ensures
        choice == if 1 <= roll <= options@.len() {
            Some(options@[roll - 1])
        } else {
            None
        },
{
    if roll >= 1 && (roll as usize) <= options.len() {
        Some(options[(roll - 1) as usize])
    } else {
        None
    }
}

/// A placement stays in order when a pattern that suits the next place is
/// put there, or nothing.
pub proof fn lemma_placement_grows(
    chunks: Seq<MapChunk>,
    placed: Seq<Option<usize>>,
    chunks_x: int,
    choice: Option<usize>,
)
    requires
        0 < chunks_x,
        placement_ok(chunks, placed, chunks_x),
        match choice {
            Some(j) => suits(
                chunks,
                west_of(placed, chunks_x, placed.len() as int),
                north_of(placed, chunks_x, placed.len() as int),
                j as int,
            ),
            None => suitable_upto(
                chunks,
                west_of(placed, chunks_x, placed.len() as int),
                north_of(placed, chunks_x, placed.len() as int),
                chunks.len() as int,
            ).len() == 0,
        },
    ensures
        placement_ok(chunks, placed.push(choice), chunks_x),
{
    let after = placed.push(choice);
    vstd::arithmetic::div_mod::lemma_small_mod(0, chunks_x as nat);
    assert forall|q: int| 0 <= q < after.len() implies #[trigger] place_ok(
        chunks,
        after,
        chunks_x,
        q,
    ) by {
        if q < placed.len() {
            assert(place_ok(chunks, placed, chunks_x, q));
        }
    }
}

/// Every place holds a pattern.
pub open spec fn filled(placed: Seq<Option<usize>>) -> bool {
    forall|p: int| 0 <= p < placed.len() ==> (#[trigger] placed[p]).is_some()
}

/// `placed` is a filling of a level of `chunks_x` by `chunks_y` places with
/// the patterns: one entry for every place, every place in order, and no
/// entry that names a pattern that is not there.
pub open spec fn is_filling(
    chunks: Seq<MapChunk>,
    placed: Seq<Option<usize>>,
    chunks_x: int,
    chunks_y: int,
) -> bool {
    &&& placed.len() == chunks_x * chunks_y
    &&& placement_ok(chunks, placed, chunks_x)
    &&& forall|p: int|
        0 <= p < placed.len() ==> (#[trigger] placed[p] matches Some(j) ==> j < chunks.len())
}

/// The fillings are those that were tried, one after the other: at least
/// one and no more than `COLLAPSE_ATTEMPTS`; each but the last left a place
/// empty; and the last left none empty, or no further one may be tried.
pub open spec fn fillings_tried(
    chunks: Seq<MapChunk>,
    fillings: Seq<Seq<Option<usize>>>,
    chunks_x: int,
    chunks_y: int,
) -> bool {
    &&& 1 <= fillings.len() <= COLLAPSE_ATTEMPTS
    &&& forall|k: int|
        0 <= k < fillings.len() ==> is_filling(chunks, #[trigger] fillings[k], chunks_x, chunks_y)
    &&& forall|k: int| 0 <= k < fillings.len() - 1 ==> !filled(#[trigger] fillings[k])
    &&& filled(fillings.last()) || fillings.len() == COLLAPSE_ATTEMPTS
}

/// `placed` is the last of the fillings that were tried.
pub open spec fn collapsed(
    chunks: Seq<MapChunk>,
    placed: Seq<Option<usize>>,
    chunks_x: int,
    chunks_y: int,
) -> bool {
    exists|fillings: Seq<Seq<Option<usize>>>| #[trigger]
        fillings_tried(chunks, fillings, chunks_x, chunks_y) && placed == fillings.last()
}

/// Whether every place holds a pattern.
pub fn is_filled(placed: &Vec<Option<usize>>) -> (all: bool)
    ensures
        all == filled(placed@),
{
    let mut p: usize = 0;
    while p < placed.len()
        invariant
            p <= placed@.len(),
            forall|q: int| 0 <= q < p ==> (#[trigger] placed@[q]).is_some(),
        decreases placed@.len() - p,
    {
        if placed[p].is_none() {
            return false;
        }
        p = p + 1;
    }
    true
}

/// Fills the places of a level as `fill_places` does, and begins again where
/// a place stayed empty: no more often than `COLLAPSE_ATTEMPTS` times in all,
/// and not again once every place is filled. The last filling is returned.
pub fn collapse(
    chunks: &Vec<MapChunk>,
    chunks_x: usize,
    chunks_y: usize,
    rng: &mut RandomNumberGenerator,
) -> (placed: Vec<Option<usize>>)
    requires
        chunks@.len() < i32::MAX,
        0 < chunks_x,
        chunks_x * chunks_y <= usize::MAX,
    ensures
        collapsed(chunks@, placed@, chunks_x as int, chunks_y as int),
        placed@.len() == chunks_x * chunks_y,
        placement_ok(chunks@, placed@, chunks_x as int),
        forall|p: int|
            0 <= p < placed@.len() ==> (#[trigger] placed@[p] matches Some(j) ==> j < chunks@.len()),
{
    let mut placed = fill_places(chunks, chunks_x, chunks_y, rng);
    let mut attempts: u32 = 1;
    let ghost mut fillings: Seq<Seq<Option<usize>>> = seq![placed@];
    while attempts < COLLAPSE_ATTEMPTS && !is_filled(&placed)
        invariant
            chunks@.len() < i32::MAX,
            0 < chunks_x,
            chunks_x * chunks_y <= usize::MAX,
            1 <= attempts <= COLLAPSE_ATTEMPTS,
            placed@.len() == chunks_x * chunks_y,
            placement_ok(chunks@, placed@, chunks_x as int),
            forall|p: int|
                0 <= p < placed@.len() ==> (#[trigger] placed@[p] matches Some(j) ==> j
                    < chunks@.len()),
            fillings.len() == attempts,
            fillings.last() == placed@,
            forall|k: int|
                0 <= k < fillings.len() ==> is_filling(
                    chunks@,
                    #[trigger] fillings[k],
                    chunks_x as int,
                    chunks_y as int,
                ),
            forall|k: int| 0 <= k < fillings.len() - 1 ==> !filled(#[trigger] fillings[k]),
        decreases COLLAPSE_ATTEMPTS - attempts,
    {
        placed = fill_places(chunks, chunks_x, chunks_y, rng);
        attempts = attempts + 1;
        proof {
            let longer = fillings.push(placed@);
            assert forall|k: int| 0 <= k < longer.len() implies is_filling(
                chunks@,
                #[trigger] longer[k],
                chunks_x as int,
                chunks_y as int,
            ) by {
                if k < fillings.len() {
                    assert(longer[k] == fillings[k]);
                }
            }
            assert forall|k: int| 0 <= k < longer.len() - 1 implies !filled(
                #[trigger] longer[k],
            ) by {
                assert(longer[k] == fillings[k]);
            }
            fillings = longer;
        }
    }
    assert(fillings_tried(chunks@, fillings, chunks_x as int, chunks_y as int));
    placed
}

/// Fills the places of a level, row after row, each with a pattern that
/// suits what lies west and north of it, chosen by the dice among all that
/// do; a place stays empty only where no pattern suits it.
pub fn fill_places(
    chunks: &Vec<MapChunk>,
    chunks_x: usize,
    chunks_y: usize,
    rng: &mut RandomNumberGenerator,
) -> (placed: Vec<Option<usize>>)
    requires
        chunks@.len() < i32::MAX,
        0 < chunks_x,
        chunks_x * chunks_y <= usize::MAX,
    ensures
        placed@.len() == chunks_x * chunks_y,
        placement_ok(chunks@, placed@, chunks_x as int),
        forall|p: int|
            0 <= p < placed@.len() ==> (#[trigger] placed@[p] matches Some(j) ==> j < chunks@.len()),
{
    let mut placed: Vec<Option<usize>> = Vec::new();
    let count: usize = chunks_x * chunks_y;
    let ghost cxs = chunks_x as int;
    let mut p: usize = 0;
    while p < count
        invariant
            chunks@.len() < i32::MAX,
            0 < chunks_x,
            cxs == chunks_x,
            p <= count,
            placed@.len() == p,
            placement_ok(chunks@, placed@, cxs),
            forall|q: int|
                0 <= q < placed@.len() ==> (#[trigger] placed@[q] matches Some(j) ==> j
                    < chunks@.len()),
        decreases count - p,
    {
        proof {
            vstd::arithmetic::div_mod::lemma_small_mod(0, chunks_x as nat);
        }
        let west: Option<usize> = if p % chunks_x == 0 {
            None
        } else {
            placed[p - 1]
        };
        let north: Option<usize> = if p < chunks_x {
            None
        } else {
            placed[p - chunks_x]
        };
        assert(west matches Some(a) ==> a < chunks@.len());
        assert(north matches Some(a) ==> a < chunks@.len());
        let options = candidates(chunks, west, north);
        let choice = if options.len() == 0 {
            None
        } else {
            let roll = roll_die(rng, options.len() as i32);
            pick_option(&options, roll)
        };
        proof {
            lemma_placement_grows(chunks@, placed@, cxs, choice);
        }
        placed.push(choice);
        p = p + 1;
    }
    placed
}

/// Lays the patterns of a placement on a level of solid rock: the pattern of
/// every place on the square of the place.
pub fn render_placement(
    map: &mut Grid,
    chunks: &Vec<MapChunk>,
    placed: &Vec<Option<usize>>,
    chunk_size: i32,
    chunks_x: usize,
    chunks_y: usize,
)
    requires
        old(map).wf(),
        no_stairs(old(map).tiles@),
        forall|i: int| 0 <= i < old(map).tiles@.len() ==> old(map).tiles@[i] == TileType::Wall,
        0 < chunk_size,
        0 < chunks_x,
        chunks_x * chunk_size <= old(map).width,
        chunks_y * chunk_size <= old(map).height,
        placed@.len() == chunks_x * chunks_y,
        forall|p: int|
            0 <= p < placed@.len() ==> (#[trigger] placed@[p] matches Some(j) ==> j < chunks@.len()),
        forall|i: int|
            0 <= i < chunks@.len() ==> (#[trigger] chunks@[i]).pattern@.len() == chunk_size
                * chunk_size && no_stairs(chunks@[i].pattern@),
    ensures
        final(map).wf(),
        no_stairs(final(map).tiles@),
        final(map)@ == (GridView {
            tiles: rendered_upto(
                chunks@,
                placed@,
                chunks_x as int,
                chunk_size as int,
                old(map).width as int,
                old(map).tiles@.len(),
                placed@.len() as int,
            ),
            visible_tiles: final(map).visible_tiles@,
            ..old(map)@
        }),
{
    let ghost cxs = chunks_x as int;
    let ghost cys = chunks_y as int;
    let ghost size = chunk_size as int;
    let ghost w = map.width as int;
    let ghost count = map.tiles@.len();
    assert(map.tiles@ =~= solid_rock(count));
    let mut p: usize = 0;
    while p < placed.len()
        invariant
            map.wf(),
            no_stairs(map.tiles@),
            cxs == chunks_x,
            cys == chunks_y,
            size == chunk_size,
            w == map.width,
            count == map.tiles@.len(),
            0 < chunk_size,
            0 < chunks_x,
            cxs * size <= map.width,
            cys * size <= map.height,
            placed@.len() == cxs * cys,
            p <= placed@.len(),
            forall|q: int|
                0 <= q < placed@.len() ==> (#[trigger] placed@[q] matches Some(j) ==> j
                    < chunks@.len()),
            forall|i: int|
                0 <= i < chunks@.len() ==> (#[trigger] chunks@[i]).pattern@.len() == size * size
                    && no_stairs(chunks@[i].pattern@),
            map@ == (GridView {
                tiles: rendered_upto(chunks@, placed@, cxs, size, w, count, p as int),
                visible_tiles: map.visible_tiles@,
                ..old(map)@
            }),
        decreases placed@.len() - p,
    {
        let cx = p % chunks_x;
        let cy = p / chunks_x;
        proof {
            lemma_index_tile(cxs, cys, p as int);
            assert((cx + 1) * size <= cxs * size) by (nonlinear_arith)
                requires
                    cx + 1 <= cxs,
                    0 < size,
            ;
            assert((cx + 1) * size == cx * size + size) by (nonlinear_arith);
            assert((cy + 1) * size <= cys * size) by (nonlinear_arith)
                requires
                    cy + 1 <= cys,
                    0 < size,
            ;
            assert((cy + 1) * size == cy * size + size) by (nonlinear_arith);
            assert(0 <= cx * size && 0 <= cy * size) by (nonlinear_arith)
                requires
                    0 <= cx,
                    0 <= cy,
                    0 < size,
            ;
            assert(cxs <= cxs * size && cys <= cys * size) by (nonlinear_arith)
                requires
                    0 <= cxs,
                    0 <= cys,
                    1 <= size,
            ;
        }
        let start_x: i32 = (cx as i32) * chunk_size;
        let start_y: i32 = (cy as i32) * chunk_size;
        match placed[p] {
            Some(j) => {
                let ghost prior = map.tiles@;
                render_pattern_to_map(map, &chunks[j].pattern, chunk_size, start_x, start_y);
                proof {
                    lemma_rendered_no_stairs(
                        prior,
                        w,
                        chunks@[j as int].pattern@,
                        size,
                        start_x as int,
                        start_y as int,
                    );
                }
            },
            None => {},
        }
        p = p + 1;
    }
}

/// A pattern without stairs laid on tiles without stairs leaves no stairs.
pub proof fn lemma_rendered_no_stairs(
    tiles: Seq<TileType>,
    width: int,
    pattern: Seq<TileType>,
    chunk_size: int,
    start_x: int,
    start_y: int,
)
    requires
        no_stairs(tiles),
        no_stairs(pattern),
        0 < chunk_size,
        pattern.len() == chunk_size * chunk_size,
    ensures
        no_stairs(with_pattern(tiles, width, pattern, chunk_size, start_x, start_y)),
{
    let after = with_pattern(tiles, width, pattern, chunk_size, start_x, start_y);
    assert forall|i: int| 0 <= i < after.len() implies #[trigger] after[i]
        != TileType::DownStairs by {
        if start_x <= i % width < start_x + chunk_size && start_y <= i / width < start_y
            + chunk_size {
            lemma_tile_index(chunk_size, chunk_size, i % width - start_x, i / width - start_y);
        }
    }
}

} // verus!
