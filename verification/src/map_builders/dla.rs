//! Caves grown by diffusion-limited aggregation: walkers that stick to what
//! was dug before.

use crate::dice::roll_die;
use crate::lines::{bresenham_line, line2d_bresenham};
use crate::map::{
    count_kind, lemma_index_tile, lemma_tile_index, on_grid, tile_index, Grid, GridView, Position,
    TileType, MAPHEIGHT, MAPWIDTH,
};
use crate::map_builders::common::{
    desired_floor_tiles, floor_target, generate_voronoi_spawn_regions, is_partition, regions_fit,
    stagger, staggered,
};
use crate::map_builders::drunkard::{is_stagger_path, staggers_to};
use crate::map_builders::{
    clone_history, extends, finish_level, finished_from, has_floor, history_view,
    lemma_floor_beside_start, level_complete, no_stairs, record_snapshot, revealed_copy,
    MapBuilder, SHOW_MAPGEN_VISUALIZER,
};
use crate::pathing::exit_target;
use crate::rect::half_toward_zero;
use crate::spawner::{regions_in_turn, spawn_in_level};
use rltk::RandomNumberGenerator;
use std::collections::HashMap;
use vstd::prelude::*;

verus! {

/// No level takes more steps with its walkers than this, all walkers
/// together, and sends out no more walkers.
pub const MAX_WALK_STEPS: u32 = 20_000_000;

/// How the walkers find the place to dig.
#[derive(PartialEq, Eq, Structural, Copy, Clone, Debug)]
pub enum DLAAlgorithm {
    WalkInwards,
    WalkOutwards,
    CentralAttractor,
}

/// Across which middle lines of the level every stroke of the brush is
/// mirrored.
#[derive(PartialEq, Eq, Structural, Copy, Clone, Debug)]
pub enum DLASymmetry {
    NoSymmetry,
    Horizontal,
    Vertical,
    Both,
}

/// The tile `(bx, by)` lies under a brush of the given size put down at
/// `(x, y)`. A brush of size one covers the tile it is put on. Any other
/// brush covers a square of its size around that tile, as far as the square
/// is more than one tile away from the rim.
pub open spec fn under_brush(
    width: int,
    height: int,
    brush_size: int,
    x: int,
    y: int,
    bx: int,
    by: int,
) -> bool {
    if brush_size == 1 {
        bx == x && by == y
    } else {
        let half = half_toward_zero(brush_size);
        &&& x - half <= bx < x + half
        &&& y - half <= by < y + half
        &&& 1 < bx < width - 1
        &&& 1 < by < height - 1
    }
}

/// The tiles after a stroke of the brush at `(x, y)`.
pub open spec fn with_brush(
    tiles: Seq<TileType>,
    width: int,
    height: int,
    brush_size: int,
    x: int,
    y: int,
) -> Seq<TileType> {
    Seq::new(
        tiles.len(),
        |i: int|
            if under_brush(width, height, brush_size, x, y, i % width, i / width) {
                TileType::Floor
            } else {
                tiles[i]
            },
    )
}

/// The distance between two coordinates on one axis.
pub open spec fn gap(a: int, b: int) -> int {
    if a >= b {
        a - b
    } else {
        b - a
    }
}

/// The tiles after a stroke of the brush at `(x, y)` and at the places that
/// mirror it: across the middle column for `Horizontal`, across the middle
/// row for `Vertical`, across each of the two for `Both`. A stroke on the
/// middle line itself is made once.
pub open spec fn painted(
    tiles: Seq<TileType>,
    width: int,
    height: int,
    brush_size: int,
    symmetry: DLASymmetry,
    x: int,
    y: int,
) -> Seq<TileType> {
    let center_x = width / 2;
    let center_y = height / 2;
    let dist_x = gap(center_x, x);
    let dist_y = gap(center_y, y);
    match symmetry {
        DLASymmetry::NoSymmetry => with_brush(tiles, width, height, brush_size, x, y),
        DLASymmetry::Horizontal => if x == center_x {
            with_brush(tiles, width, height, brush_size, x, y)
        } else {
            with_brush(
                with_brush(tiles, width, height, brush_size, center_x + dist_x, y),
                width,
                height,
                brush_size,
                center_x - dist_x,
                y,
            )
        },
        DLASymmetry::Vertical => if y == center_y {
            with_brush(tiles, width, height, brush_size, x, y)
        } else {
            with_brush(
                with_brush(tiles, width, height, brush_size, x, center_y + dist_y),
                width,
                height,
                brush_size,
                x,
                center_y - dist_y,
            )
        },
        DLASymmetry::Both => if x == center_x && y == center_y {
            with_brush(tiles, width, height, brush_size, x, y)
        } else {
            with_brush(
                with_brush(
                    with_brush(
                        with_brush(tiles, width, height, brush_size, center_x + dist_x, y),
                        width,
                        height,
                        brush_size,
                        center_x - dist_x,
                        y,
                    ),
                    width,
                    height,
                    brush_size,
                    x,
                    center_y + dist_y,
                ),
                width,
                height,
                brush_size,
                x,
                center_y - dist_y,
            )
        },
    }
}

/// The tiles after the first `n` of the strokes, each with its mirror images.
pub open spec fn painted_all(
    tiles: Seq<TileType>,
    width: int,
    height: int,
    brush_size: int,
    symmetry: DLASymmetry,
    strokes: Seq<(int, int)>,
    n: int,
) -> Seq<TileType>
    decreases n,
{
    if n <= 0 {
        tiles
    } else {
        painted(
            painted_all(tiles, width, height, brush_size, symmetry, strokes, n - 1),
            width,
            height,
            brush_size,
            symmetry,
            strokes[n - 1].0,
            strokes[n - 1].1,
        )
    }
}

/// A level of the standard size, solid rock but for a cross of five tiles of
/// floor around its middle.
pub open spec fn seed_cross() -> Seq<TileType> {
    Seq::new(
        (MAPWIDTH * MAPHEIGHT) as nat,
        |i: int|
            if i == tile_index(MAPWIDTH as int, 40, 21) || i == tile_index(MAPWIDTH as int, 39, 21)
                || i == tile_index(MAPWIDTH as int, 41, 21) || i == tile_index(
                MAPWIDTH as int,
                40,
                20,
            ) || i == tile_index(MAPWIDTH as int, 40, 22) {
                TileType::Floor
            } else {
                TileType::Wall
            },
    )
}

/// Every stroke is put down on a tile of a level of the standard size.
pub open spec fn strokes_on_grid(strokes: Seq<(int, int)>) -> bool {
    forall|k: int|
        0 <= k < strokes.len() ==> on_grid(
            MAPWIDTH as int,
            MAPHEIGHT as int,
            (#[trigger] strokes[k]).0,
            strokes[k].1,
        )
}

/// The tiles of a level of the standard size that began as the cross and
/// was painted with the strokes.
pub open spec fn painted_from_cross(
    strokes: Seq<(int, int)>,
    brush_size: int,
    symmetry: DLASymmetry,
) -> Seq<TileType> {
    painted_all(
        seed_cross(),
        MAPWIDTH as int,
        MAPHEIGHT as int,
        brush_size,
        symmetry,
        strokes,
        strokes.len() as int,
    )
}

/// What the first strokes paint does not depend on the strokes after them.
pub proof fn lemma_painted_all_prefix(
    tiles: Seq<TileType>,
    width: int,
    height: int,
    brush_size: int,
    symmetry: DLASymmetry,
    a: Seq<(int, int)>,
    b: Seq<(int, int)>,
    n: int,
)
    requires
        n <= a.len(),
        n <= b.len(),
        forall|k: int| 0 <= k < n ==> a[k] == b[k],
    ensures
        painted_all(tiles, width, height, brush_size, symmetry, a, n) == painted_all(
            tiles,
            width,
            height,
            brush_size,
            symmetry,
            b,
            n,
        ),
    decreases n,
{
    if n > 0 {
        lemma_painted_all_prefix(tiles, width, height, brush_size, symmetry, a, b, n - 1);
    }
}

/// Where a walker stood last before the tile that stopped it, when it
/// follows `path` from its tile `at` on: it stands on `digger`, stood on
/// `prev` before, and goes on while the tile it stands on is a wall of the
/// grid and the path has another tile.
pub open spec fn followed(
    tiles: Seq<TileType>,
    width: int,
    height: int,
    path: Seq<(i32, i32)>,
    at: int,
    digger: (int, int),
    prev: (int, int),
) -> (int, int)
    decreases path.len() - at,
{
    if 0 <= at < path.len() && on_grid(width, height, digger.0, digger.1) && tiles[tile_index(
        width,
        digger.0,
        digger.1,
    )] == TileType::Wall {
        followed(tiles, width, height, path, at + 1, (path[at].0 as int, path[at].1 as int), digger)
    } else {
        prev
    }
}

/// `path` is the way of a walker that goes on while it stands on a tile of
/// the given kind: the tiles it went through, the first where it set out
/// and the last where it stands; every tile and the next are one stagger
/// apart, and every tile but the last is of that kind.
pub open spec fn walked_over(tiles: Seq<TileType>, path: Seq<(int, int)>, kind: TileType) -> bool {
    &&& path.len() >= 1
    &&& is_stagger_path(path)
    &&& forall|t: int|
        0 <= t < path.len() - 1 ==> tiles[tile_index(
            MAPWIDTH as int,
            (#[trigger] path[t]).0,
            path[t].1,
        )] == kind
}

/// The walker went no further than it had to: where its way ends the tile
/// is not of the kind, or no step is left.
pub open spec fn walk_ended(
    tiles: Seq<TileType>,
    path: Seq<(int, int)>,
    kind: TileType,
    steps_left: int,
) -> bool {
    steps_left == 0 || tiles[tile_index(MAPWIDTH as int, path.last().0, path.last().1)] != kind
}

/// The tile before the last of the way, or the only one.
pub open spec fn last_but_one(path: Seq<(int, int)>) -> (int, int) {
    if path.len() >= 2 {
        path[path.len() - 2]
    } else {
        path[0]
    }
}

/// A walker that walks inwards sets out anywhere at least two tiles from
/// the rim, staggers on over wall, one step for every stagger, and has the
/// brush put down where it stood before the tile that stopped it.
pub open spec fn walked_inwards(
    tiles: Seq<TileType>,
    steps_before: int,
    steps_after: int,
    at: (int, int),
) -> bool {
    exists|path: Seq<(int, int)>|
        {
            &&& #[trigger] walked_over(tiles, path, TileType::Wall)
            &&& walk_ended(tiles, path, TileType::Wall, steps_after)
            &&& steps_after == steps_before - (path.len() - 1)
            &&& at == last_but_one(path)
        }
}

/// A walker that walks outwards sets out at the start, staggers on over
/// floor, one step for every stagger, and has the brush put down on the
/// tile that stopped it.
pub open spec fn walked_outwards(
    tiles: Seq<TileType>,
    start: Position,
    steps_before: int,
    steps_after: int,
    at: (int, int),
) -> bool {
    exists|path: Seq<(int, int)>|
        {
            &&& #[trigger] walked_over(tiles, path, TileType::Floor)
            &&& path[0] == (start.x as int, start.y as int)
            &&& walk_ended(tiles, path, TileType::Floor, steps_after)
            &&& steps_after == steps_before - (path.len() - 1)
            &&& at == path.last()
        }
}

/// A walker drawn to the start sets out anywhere at least two tiles from
/// the rim, follows the straight line from there to the start over wall,
/// and has the brush put down where it stood before the tile that stopped
/// it. It takes none of the steps.
pub open spec fn walked_to_start(
    tiles: Seq<TileType>,
    start: Position,
    steps_before: int,
    steps_after: int,
    at: (int, int),
) -> bool {
    &&& steps_after == steps_before
    &&& exists|x: i32, y: i32|
        {
            &&& 2 <= x <= MAPWIDTH - 2
            &&& 2 <= y <= MAPHEIGHT - 2
            &&& at == #[trigger] followed(
                tiles,
                MAPWIDTH as int,
                MAPHEIGHT as int,
                bresenham_line(x, y, start.x, start.y),
                0,
                (x as int, y as int),
                (x as int, y as int),
            )
        }
}

/// Where a walker of the given kind may have the brush put down, and what
/// it leaves of the steps.
pub open spec fn dug_by(
    tiles: Seq<TileType>,
    algorithm: DLAAlgorithm,
    start: Position,
    steps_before: int,
    steps_after: int,
    at: (int, int),
) -> bool {
    match algorithm {
        DLAAlgorithm::WalkInwards => walked_inwards(tiles, steps_before, steps_after, at),
        DLAAlgorithm::WalkOutwards => walked_outwards(tiles, start, steps_before, steps_after, at),
        DLAAlgorithm::CentralAttractor => walked_to_start(
            tiles,
            start,
            steps_before,
            steps_after,
            at,
        ),
    }
}

/// A walker that stands on a tile of the kind and staggers goes on with its
/// way.
pub proof fn lemma_walk_on(
    tiles: Seq<TileType>,
    path: Seq<(int, int)>,
    kind: TileType,
    direction: int,
)
    requires
        walked_over(tiles, path, kind),
        tiles[tile_index(MAPWIDTH as int, path.last().0, path.last().1)] == kind,
        1 <= direction <= 4,
    ensures
        walked_over(
            tiles,
            path.push(
                staggered(
                    MAPWIDTH as int,
                    MAPHEIGHT as int,
                    path.last().0,
                    path.last().1,
                    direction,
                ),
            ),
            kind,
        ),
{
    let to = staggered(MAPWIDTH as int, MAPHEIGHT as int, path.last().0, path.last().1, direction);
    let longer = path.push(to);
    assert(staggers_to(path.last(), to));
    assert forall|t: int| #![trigger longer[t]] 1 <= t < longer.len() implies staggers_to(
        longer[t - 1],
        longer[t],
    ) by {
        if t < path.len() {
            assert(longer[t] == path[t]);
            assert(longer[t - 1] == path[t - 1]);
        }
    }
    assert forall|t: int| 0 <= t < longer.len() implies 2 <= (#[trigger] longer[t]).0 <= MAPWIDTH
        - 2 && 2 <= longer[t].1 <= MAPHEIGHT - 2 by {
        if t < path.len() {
            assert(longer[t] == path[t]);
        }
    }
    assert forall|t: int| 0 <= t < longer.len() - 1 implies tiles[tile_index(
        MAPWIDTH as int,
        (#[trigger] longer[t]).0,
        longer[t].1,
    )] == kind by {
        assert(longer[t] == path[t]);
    }
}

/// What is left of the steps of the walkers before the stroke `k`: all of
/// them before the first, and then what the stroke before left.
pub open spec fn steps_before(left: Seq<int>, k: int) -> int {
    if k <= 0 {
        MAX_WALK_STEPS as int
    } else {
        left[k - 1]
    }
}

/// The stroke `k` was due and is where a walker puts it: on the tiles as
/// the strokes before it left them, less was floor than the settings ask
/// for and a step was left, and the stroke lies where a walker of the kind
/// of the settings may come to on those tiles, which leaves `left[k]` of
/// the steps.
pub open spec fn stroke_dug(
    strokes: Seq<(int, int)>,
    left: Seq<int>,
    settings: (DLAAlgorithm, int, DLASymmetry, int),
    k: int,
) -> bool {
    let tiles = painted_all(
        seed_cross(),
        MAPWIDTH as int,
        MAPHEIGHT as int,
        settings.1,
        settings.2,
        strokes,
        k,
    );
    &&& count_kind(tiles, TileType::Floor, MAPWIDTH * MAPHEIGHT) < floor_target(
        MAPWIDTH * MAPHEIGHT,
        settings.3,
    )
    &&& steps_before(left, k) > 0
    &&& dug_by(
        tiles,
        settings.0,
        Position { x: 40, y: 21 },
        steps_before(left, k),
        left[k],
        strokes[k],
    )
}

/// The strokes are those of walkers sent one after the other until as much
/// of the level was floor as the settings ask for, or no step was left, or
/// the last walker had gone, and none after that.
pub open spec fn strokes_dug(
    strokes: Seq<(int, int)>,
    left: Seq<int>,
    settings: (DLAAlgorithm, int, DLASymmetry, int),
) -> bool {
    &&& left.len() == strokes.len()
    &&& strokes.len() <= MAX_WALK_STEPS
    &&& forall|k: int| 0 <= k < strokes.len() ==> #[trigger] stroke_dug(strokes, left, settings, k)
    &&& {
        ||| count_kind(
            painted_from_cross(strokes, settings.1, settings.2),
            TileType::Floor,
            MAPWIDTH * MAPHEIGHT,
        ) >= floor_target(MAPWIDTH * MAPHEIGHT, settings.3)
        ||| steps_before(left, strokes.len() as int) == 0
        ||| strokes.len() == MAX_WALK_STEPS
    }
}

/// A stroke of a brush does not make stairs and leaves floor floor.
pub proof fn lemma_brush_keeps(
    tiles: Seq<TileType>,
    width: int,
    height: int,
    brush_size: int,
    x: int,
    y: int,
)
    ensures
        with_brush(tiles, width, height, brush_size, x, y).len() == tiles.len(),
        no_stairs(tiles) ==> no_stairs(with_brush(tiles, width, height, brush_size, x, y)),
        forall|i: int|
            0 <= i < tiles.len() && tiles[i] == TileType::Floor ==> #[trigger] with_brush(
                tiles,
                width,
                height,
                brush_size,
                x,
                y,
            )[i] == TileType::Floor,
{
}

/// The strokes of a painting do not make stairs and leave floor floor.
pub proof fn lemma_painted_keeps(
    tiles: Seq<TileType>,
    width: int,
    height: int,
    brush_size: int,
    symmetry: DLASymmetry,
    x: int,
    y: int,
)
    ensures
        painted(tiles, width, height, brush_size, symmetry, x, y).len() == tiles.len(),
        no_stairs(tiles) ==> no_stairs(painted(tiles, width, height, brush_size, symmetry, x, y)),
        forall|i: int|
            0 <= i < tiles.len() && tiles[i] == TileType::Floor ==> #[trigger] painted(
                tiles,
                width,
                height,
                brush_size,
                symmetry,
                x,
                y,
            )[i] == TileType::Floor,
{
    let center_x = width / 2;
    let center_y = height / 2;
    let dist_x = gap(center_x, x);
    let dist_y = gap(center_y, y);
    let a = with_brush(tiles, width, height, brush_size, center_x + dist_x, y);
    let b = with_brush(a, width, height, brush_size, center_x - dist_x, y);
    let c = with_brush(b, width, height, brush_size, x, center_y + dist_y);
    let d = with_brush(tiles, width, height, brush_size, x, center_y + dist_y);
    lemma_brush_keeps(tiles, width, height, brush_size, x, y);
    lemma_brush_keeps(tiles, width, height, brush_size, center_x + dist_x, y);
    lemma_brush_keeps(a, width, height, brush_size, center_x - dist_x, y);
    lemma_brush_keeps(b, width, height, brush_size, x, center_y + dist_y);
    lemma_brush_keeps(c, width, height, brush_size, x, center_y - dist_y);
    lemma_brush_keeps(tiles, width, height, brush_size, x, center_y + dist_y);
    lemma_brush_keeps(d, width, height, brush_size, x, center_y - dist_y);
}

/// One stroke of a brush at `(x, y)`.
pub fn apply_paint(map: &mut Grid, brush_size: i32, x: i32, y: i32)
    requires
        old(map).wf(),
    ensures
        final(map).wf(),
        final(map)@ == (GridView {
            tiles: with_brush(
                old(map).tiles@,
                old(map).width as int,
                old(map).height as int,
                brush_size as int,
                x as int,
                y as int,
            ),
            ..old(map)@
        }),
{
    let ghost before = map.tiles@;
    let ghost w = map.width as int;
    let ghost h = map.height as int;
    let ghost size = brush_size as int;
    if brush_size == 1 {
        if 0 <= x && x < map.width && 0 <= y && y < map.height {
            let digger_idx = map.xy_idx(x, y);
            map.set_tile(digger_idx, TileType::Floor);
            proof {
                lemma_tile_index(w, h, x as int, y as int);
            }
        }
        proof {
            assert forall|i: int| 0 <= i < before.len() implies map.tiles@[i] == with_brush(
                before,
                w,
                h,
                size,
                x as int,
                y as int,
            )[i] by {
                lemma_index_tile(w, h, i);
            }
            assert(map.tiles@ =~= with_brush(before, w, h, size, x as int, y as int));
        }
        return ;
    }
    let half_brush_size: i64 = (brush_size / 2) as i64;
    let low_y: i64 = y as i64 - half_brush_size;
    let high_y: i64 = y as i64 + half_brush_size;
    let low_x: i64 = x as i64 - half_brush_size;
    let high_x: i64 = x as i64 + half_brush_size;
    let first_y: i64 = if low_y < 2 {
        2
    } else {
        low_y
    };
    let last_y: i64 = if high_y > map.height as i64 - 1 {
        map.height as i64 - 1
    } else {
        high_y
    };
    let first_x: i64 = if low_x < 2 {
        2
    } else {
        low_x
    };
    let last_x: i64 = if high_x > map.width as i64 - 1 {
        map.width as i64 - 1
    } else {
        high_x
    };
    let mut brush_y: i64 = first_y;
    while brush_y < last_y
        invariant
            map.wf(),
            w == map.width,
            h == map.height,
            2 <= first_y <= brush_y,
            last_y <= h - 1,
            2 <= first_x,
            last_x <= w - 1,
            first_y == if low_y < 2 {
                2
            } else {
                low_y as int
            },
            last_y == if high_y > h - 1 {
                h - 1
            } else {
                high_y as int
            },
            first_x == if low_x < 2 {
                2
            } else {
                low_x as int
            },
            last_x == if high_x > w - 1 {
                w - 1
            } else {
                high_x as int
            },
            low_y == y - half_toward_zero(size),
            high_y == y + half_toward_zero(size),
            low_x == x - half_toward_zero(size),
            high_x == x + half_toward_zero(size),
            size != 1,
            map@ == (GridView { tiles: map.tiles@, ..old(map)@ }),
            map.tiles@.len() == before.len(),
            forall|i: int|
                0 <= i < before.len() ==> #[trigger] map.tiles@[i] == if under_brush(
                    w,
                    h,
                    size,
                    x as int,
                    y as int,
                    i % w,
                    i / w,
                ) && i / w < brush_y {
                    TileType::Floor
                } else {
                    before[i]
                },
        decreases last_y - brush_y,
    {
        let mut brush_x: i64 = first_x;
        while brush_x < last_x
            invariant
                map.wf(),
                w == map.width,
                h == map.height,
                2 <= first_y <= brush_y < last_y,
                last_y <= h - 1,
                2 <= first_x <= brush_x,
                last_x <= w - 1,
                first_y == if low_y < 2 {
                    2
                } else {
                    low_y as int
                },
                last_y == if high_y > h - 1 {
                    h - 1
                } else {
                    high_y as int
                },
                first_x == if low_x < 2 {
                    2
                } else {
                    low_x as int
                },
                last_x == if high_x > w - 1 {
                    w - 1
                } else {
                    high_x as int
                },
                low_y == y - half_toward_zero(size),
                high_y == y + half_toward_zero(size),
                low_x == x - half_toward_zero(size),
                high_x == x + half_toward_zero(size),
                size != 1,
                map@ == (GridView { tiles: map.tiles@, ..old(map)@ }),
                map.tiles@.len() == before.len(),
                forall|i: int|
                    0 <= i < before.len() ==> #[trigger] map.tiles@[i] == if under_brush(
                        w,
                        h,
                        size,
                        x as int,
                        y as int,
                        i % w,
                        i / w,
                    ) && (i / w < brush_y || (i / w == brush_y && i % w < brush_x)) {
                        TileType::Floor
                    } else {
                        before[i]
                    },
            decreases last_x - brush_x,
        {
            let idx = map.xy_idx(brush_x as i32, brush_y as i32);
            let ghost prior = map.tiles@;
            map.set_tile(idx, TileType::Floor);
            proof {
                lemma_tile_index(w, h, brush_x as int, brush_y as int);
                assert forall|i: int| 0 <= i < before.len() implies #[trigger] map.tiles@[i]
                    == if under_brush(w, h, size, x as int, y as int, i % w, i / w) && (i / w
                    < brush_y || (i / w == brush_y && i % w < brush_x + 1)) {
                    TileType::Floor
                } else {
                    before[i]
                } by {
                    lemma_index_tile(w, h, i);
                    assert(prior[i] == if under_brush(w, h, size, x as int, y as int, i % w, i / w)
                        && (i / w < brush_y || (i / w == brush_y && i % w < brush_x)) {
                        TileType::Floor
                    } else {
                        before[i]
                    });
                }
            }
            brush_x = brush_x + 1;
        }
        proof {
            assert forall|i: int| 0 <= i < before.len() implies #[trigger] map.tiles@[i]
                == if under_brush(w, h, size, x as int, y as int, i % w, i / w) && i / w < brush_y
                + 1 {
                TileType::Floor
            } else {
                before[i]
            } by {
                lemma_index_tile(w, h, i);
            }
        }
        brush_y = brush_y + 1;
    }
    proof {
        assert forall|i: int| 0 <= i < before.len() implies map.tiles@[i] == with_brush(
            before,
            w,
            h,
            size,
            x as int,
            y as int,
        )[i] by {
            lemma_index_tile(w, h, i);
        }
        assert(map.tiles@ =~= with_brush(before, w, h, size, x as int, y as int));
    }
}

/// A stroke of the brush at `(x, y)` and at the places that mirror it.
pub fn paint(map: &mut Grid, brush_size: i32, symmetry: DLASymmetry, x: i32, y: i32)
    requires
        old(map).wf(),
        old(map).in_bounds(x as int, y as int),
    ensures
        final(map).wf(),
        final(map)@ == (GridView {
            tiles: painted(
                old(map).tiles@,
                old(map).width as int,
                old(map).height as int,
                brush_size as int,
                symmetry,
                x as int,
                y as int,
            ),
            ..old(map)@
        }),
{
    let center_x: i32 = map.width / 2;
    let center_y: i32 = map.height / 2;
    let dist_x: i32 = if center_x >= x {
        center_x - x
    } else {
        x - center_x
    };
    let dist_y: i32 = if center_y >= y {
        center_y - y
    } else {
        y - center_y
    };
    match symmetry {
        DLASymmetry::NoSymmetry => apply_paint(map, brush_size, x, y),
        DLASymmetry::Horizontal => {
            if x == center_x {
                apply_paint(map, brush_size, x, y);
            } else {
                apply_paint(map, brush_size, center_x + dist_x, y);
                apply_paint(map, brush_size, center_x - dist_x, y);
            }
        },
        DLASymmetry::Vertical => {
            if y == center_y {
                apply_paint(map, brush_size, x, y);
            } else {
                apply_paint(map, brush_size, x, center_y + dist_y);
                apply_paint(map, brush_size, x, center_y - dist_y);
            }
        },
        DLASymmetry::Both => {
            if x == center_x && y == center_y {
                apply_paint(map, brush_size, x, y);
            } else {
                apply_paint(map, brush_size, center_x + dist_x, y);
                apply_paint(map, brush_size, center_x - dist_x, y);
                apply_paint(map, brush_size, x, center_y + dist_y);
                apply_paint(map, brush_size, x, center_y - dist_y);
            }
        },
    }
}

/// Follows `path` from the tile `(x, y)`, one tile of the path after the
/// other, while the walker stands on a wall of the grid, and returns where
/// it stood before the tile that stopped it: `(x, y)` where it never moved.
pub fn follow_line(map: &Grid, path: &Vec<(i32, i32)>, x: i32, y: i32) -> (prev: (i32, i32))
    requires
        map.wf(),
        map.in_bounds(x as int, y as int),
    ensures
        (prev.0 as int, prev.1 as int) == followed(
            map.tiles@,
            map.width as int,
            map.height as int,
            path@,
            0,
            (x as int, y as int),
            (x as int, y as int),
        ),
        map.in_bounds(prev.0 as int, prev.1 as int),
{
    let mut digger_x = x;
    let mut digger_y = y;
    let mut prev_x = x;
    let mut prev_y = y;
    let mut at: usize = 0;
    while at < path.len() && 0 <= digger_x && digger_x < map.width && 0 <= digger_y && digger_y
        < map.height && map.tiles[map.xy_idx(digger_x, digger_y)] == TileType::Wall
        invariant
            map.wf(),
            at <= path@.len(),
            map.in_bounds(prev_x as int, prev_y as int),
            followed(
                map.tiles@,
                map.width as int,
                map.height as int,
                path@,
                0,
                (x as int, y as int),
                (x as int, y as int),
            ) == followed(
                map.tiles@,
                map.width as int,
                map.height as int,
                path@,
                at as int,
                (digger_x as int, digger_y as int),
                (prev_x as int, prev_y as int),
            ),
        decreases path@.len() - at,
    {
        prev_x = digger_x;
        prev_y = digger_y;
        digger_x = path[at].0;
        digger_y = path[at].1;
        at = at + 1;
    }
    (prev_x, prev_y)
}

pub struct DLABuilder {
    map: Grid,
    starting_position: Position,
    depth: i32,
    history: Vec<Grid>,
    noise_areas: HashMap<i32, Vec<usize>>,
    algorithm: DLAAlgorithm,
    brush_size: i32,
    symmetry: DLASymmetry,
    floor_percent: i32,
}

impl DLABuilder {
    /// The spawn regions found so far.
    pub closed spec fn regions(&self) -> Map<i32, Vec<usize>> {
        self.noise_areas@
    }

    /// How the walkers find the place to dig, the size of the brush, the
    /// symmetry, and how many hundredths of the level are to be floor.
    pub closed spec fn settings(&self) -> (DLAAlgorithm, int, DLASymmetry, int) {
        (self.algorithm, self.brush_size as int, self.symmetry, self.floor_percent as int)
    }

    fn with_settings(
        new_depth: i32,
        algorithm: DLAAlgorithm,
        brush_size: i32,
        symmetry: DLASymmetry,
    ) -> (builder: DLABuilder)
        ensures
            builder.wf(),
            builder.level().depth == new_depth,
            builder.level() == Grid::solid(new_depth),
            builder.settings() == (algorithm, brush_size as int, symmetry, 25int),
            builder.start() == (Position { x: 0, y: 0 }),
            builder.history() == Seq::<GridView>::empty(),
            builder.regions() == Map::<i32, Vec<usize>>::empty(),
            forall|i: int|
                0 <= i < builder.level().tiles.len() ==> builder.level().tiles[i] == TileType::Wall,
    {
        let builder = DLABuilder {
            map: Grid::new(new_depth),
            starting_position: Position { x: 0, y: 0 },
            depth: new_depth,
            history: Vec::new(),
            noise_areas: HashMap::new(),
            algorithm,
            brush_size,
            symmetry,
            floor_percent: 25,
        };
        builder
    }

    pub fn new(new_depth: i32) -> (builder: DLABuilder)
        ensures
            builder.wf(),
            builder.level().depth == new_depth,
            builder.level() == Grid::solid(new_depth),
            builder.settings() == (DLAAlgorithm::WalkInwards, 2int, DLASymmetry::NoSymmetry, 25int),
            builder.history() == Seq::<GridView>::empty(),
            builder.regions() == Map::<i32, Vec<usize>>::empty(),
    {
        DLABuilder::with_settings(new_depth, DLAAlgorithm::WalkInwards, 2, DLASymmetry::NoSymmetry)
    }

    pub fn walk_inwards(new_depth: i32) -> (builder: DLABuilder)
        ensures
            builder.wf(),
            builder.level().depth == new_depth,
            builder.level() == Grid::solid(new_depth),
            builder.settings() == (DLAAlgorithm::WalkInwards, 1int, DLASymmetry::NoSymmetry, 25int),
            builder.history() == Seq::<GridView>::empty(),
            builder.regions() == Map::<i32, Vec<usize>>::empty(),
    {
        DLABuilder::with_settings(new_depth, DLAAlgorithm::WalkInwards, 1, DLASymmetry::NoSymmetry)
    }

    pub fn walk_outwards(new_depth: i32) -> (builder: DLABuilder)
        ensures
            builder.wf(),
            builder.level().depth == new_depth,
            builder.level() == Grid::solid(new_depth),
            builder.settings() == (DLAAlgorithm::WalkOutwards, 2int, DLASymmetry::NoSymmetry, 25int),
            builder.history() == Seq::<GridView>::empty(),
            builder.regions() == Map::<i32, Vec<usize>>::empty(),
    {
        DLABuilder::with_settings(new_depth, DLAAlgorithm::WalkOutwards, 2, DLASymmetry::NoSymmetry)
    }

    pub fn central_attractor(new_depth: i32) -> (builder: DLABuilder)
        ensures
            builder.wf(),
            builder.level().depth == new_depth,
            builder.level() == Grid::solid(new_depth),
            builder.settings() == (DLAAlgorithm::CentralAttractor, 2int, DLASymmetry::NoSymmetry, 25int),
            builder.history() == Seq::<GridView>::empty(),
            builder.regions() == Map::<i32, Vec<usize>>::empty(),
    {
        DLABuilder::with_settings(new_depth, DLAAlgorithm::CentralAttractor, 2, DLASymmetry::NoSymmetry)
    }

    pub fn insectoid(new_depth: i32) -> (builder: DLABuilder)
        ensures
            builder.wf(),
            builder.level().depth == new_depth,
            builder.level() == Grid::solid(new_depth),
            builder.settings() == (
                DLAAlgorithm::CentralAttractor,
                2int,
                DLASymmetry::Horizontal,
                25int,
            ),
            builder.history() == Seq::<GridView>::empty(),
            builder.regions() == Map::<i32, Vec<usize>>::empty(),
    {
        DLABuilder::with_settings(
            new_depth,
            DLAAlgorithm::CentralAttractor,
            2,
            DLASymmetry::Horizontal,
        )
    }

    /// Sorts the floor tiles of the level into spawn regions by the values
    /// given, one for each tile.
    pub fn partition(&mut self, cell_values: &Vec<i32>)
        requires
            old(self).wf(),
            cell_values@.len() == old(self).level().tiles.len(),
        ensures
            final(self).wf(),
            final(self).level() == old(self).level(),
            final(self).start() == old(self).start(),
            final(self).history() == old(self).history(),
            final(self).settings() == old(self).settings(),
            is_partition(
                final(self).regions(),
                final(self).level().tiles,
                cell_values@,
                cell_values@.len() as int,
            ),
    {
        self.noise_areas = generate_voronoi_spawn_regions(&self.map, cell_values);
    }

    /// The spawn regions found by the last partition.
    pub fn get_noise_areas(&self) -> (regions: HashMap<i32, Vec<usize>>)
        ensures
            regions@ == self.regions(),
    {
        self.noise_areas.clone()
    }

    /// Sends one walker of the given kind out and returns where the brush
    /// is to be put down: within the grid, and where such a walker may come
    /// to, whatever the dice show. `steps` is what is left of the steps
    /// that the walkers of the level may take.
    fn dig(
        map: &Grid,
        rng: &mut RandomNumberGenerator,
        algorithm: DLAAlgorithm,
        start: Position,
        steps: &mut u32,
    ) -> (at: (i32, i32))
        requires
            map.wf(),
            map.width == MAPWIDTH,
            map.height == MAPHEIGHT,
            start == (Position { x: 40, y: 21 }),
        ensures
            dug_by(
                map.tiles@,
                algorithm,
                start,
                *old(steps) as int,
                *final(steps) as int,
                (at.0 as int, at.1 as int),
            ),
            map.in_bounds(at.0 as int, at.1 as int),
            *final(steps) <= *old(steps),
    {
        match algorithm {
            DLAAlgorithm::WalkInwards => {
                let mut digger_x: i32 = roll_die(rng, map.width - 3) + 1;
                let mut digger_y: i32 = roll_die(rng, map.height - 3) + 1;
                let mut prev_x = digger_x;
                let mut prev_y = digger_y;
                let mut digger_idx = map.xy_idx(digger_x, digger_y);
                let ghost mut path: Seq<(int, int)> = seq![(digger_x as int, digger_y as int)];
                while map.tiles[digger_idx] == TileType::Wall && *steps > 0
                    invariant
                        map.wf(),
                        map.width == MAPWIDTH,
                        map.height == MAPHEIGHT,
                        2 <= digger_x <= MAPWIDTH - 2,
                        2 <= digger_y <= MAPHEIGHT - 2,
                        2 <= prev_x <= MAPWIDTH - 2,
                        2 <= prev_y <= MAPHEIGHT - 2,
                        digger_idx == tile_index(
                            MAPWIDTH as int,
                            digger_x as int,
                            digger_y as int,
                        ),
                        digger_idx < map.tiles@.len(),
                        *steps <= *old(steps),
                        walked_over(map.tiles@, path, TileType::Wall),
                        path.last() == (digger_x as int, digger_y as int),
                        last_but_one(path) == (prev_x as int, prev_y as int),
                        *steps == *old(steps) - (path.len() - 1),
                    decreases *steps,
                {
                    prev_x = digger_x;
                    prev_y = digger_y;
                    let stagger_direction = roll_die(rng, 4);
                    let to = stagger(map.width, map.height, digger_x, digger_y, stagger_direction);
                    digger_x = to.0;
                    digger_y = to.1;
                    digger_idx = map.xy_idx(digger_x, digger_y);
                    *steps = *steps - 1;
                    proof {
                        lemma_walk_on(
                            map.tiles@,
                            path,
                            TileType::Wall,
                            stagger_direction as int,
                        );
                        path = path.push((digger_x as int, digger_y as int));
                    }
                }
                assert(walked_inwards(
                    map.tiles@,
                    *old(steps) as int,
                    *steps as int,
                    (prev_x as int, prev_y as int),
                ));
                (prev_x, prev_y)
            },
            DLAAlgorithm::WalkOutwards => {
                let mut digger_x: i32 = start.x;
                let mut digger_y: i32 = start.y;
                let mut digger_idx = map.xy_idx(digger_x, digger_y);
                let ghost mut path: Seq<(int, int)> = seq![(digger_x as int, digger_y as int)];
                while map.tiles[digger_idx] == TileType::Floor && *steps > 0
                    invariant
                        map.wf(),
                        map.width == MAPWIDTH,
                        map.height == MAPHEIGHT,
                        2 <= digger_x <= MAPWIDTH - 2,
                        2 <= digger_y <= MAPHEIGHT - 2,
                        digger_idx == tile_index(
                            MAPWIDTH as int,
                            digger_x as int,
                            digger_y as int,
                        ),
                        digger_idx < map.tiles@.len(),
                        *steps <= *old(steps),
                        walked_over(map.tiles@, path, TileType::Floor),
                        path[0] == (start.x as int, start.y as int),
                        path.last() == (digger_x as int, digger_y as int),
                        *steps == *old(steps) - (path.len() - 1),
                    decreases *steps,
                {
                    let stagger_direction = roll_die(rng, 4);
                    let to = stagger(map.width, map.height, digger_x, digger_y, stagger_direction);
                    digger_x = to.0;
                    digger_y = to.1;
                    digger_idx = map.xy_idx(digger_x, digger_y);
                    *steps = *steps - 1;
                    proof {
                        lemma_walk_on(
                            map.tiles@,
                            path,
                            TileType::Floor,
                            stagger_direction as int,
                        );
                        path = path.push((digger_x as int, digger_y as int));
                    }
                }
                assert(walked_outwards(
                    map.tiles@,
                    start,
                    *old(steps) as int,
                    *steps as int,
                    (digger_x as int, digger_y as int),
                ));
                (digger_x, digger_y)
            },
            DLAAlgorithm::CentralAttractor => {
                let digger_x: i32 = roll_die(rng, map.width - 3) + 1;
                let digger_y: i32 = roll_die(rng, map.height - 3) + 1;
                let path = line2d_bresenham(digger_x, digger_y, start.x, start.y);
                let at = follow_line(map, &path, digger_x, digger_y);
                assert(walked_to_start(
                    map.tiles@,
                    start,
                    *old(steps) as int,
                    *steps as int,
                    (at.0 as int, at.1 as int),
                ));
                at
            },
        }
    }

    /// Builds the level: digs a cross of five tiles around the start in the
    /// middle of the level, sends walkers of the kind of the settings, each
    /// of which has the brush put down where it comes to, until as much of
    /// the level is floor as the settings ask for or the walkers have no
    /// steps left, and no longer, and finishes the level from the start.
    /// Some of the cross stays floor whatever the dice show. The cross lies
    /// in the middle so that strokes mirrored across the middle lines of
    /// the level join what is dug.
    pub fn build(&mut self, rng: &mut RandomNumberGenerator)
        requires
            old(self).wf(),
        ensures
            final(self).wf(),
            level_complete(final(self).level(), final(self).start()),
            final(self).level().depth == old(self).level().depth,
            final(self).built(old(self)),
            extends(final(self).history(), old(self).history()),
            !SHOW_MAPGEN_VISUALIZER ==> final(self).history() == old(self).history(),
            SHOW_MAPGEN_VISUALIZER ==> final(self).history().len() > old(self).history().len()
                && final(self).history().last() == revealed_copy(final(self).level()),
    {
        self.map = Grid::new(self.depth);
        self.noise_areas = HashMap::new();
        self.starting_position = Position { x: 40, y: 21 };
        let start_idx = self.map.xy_idx(self.starting_position.x, self.starting_position.y);
        record_snapshot(&mut self.history, &self.map);
        self.map.set_tile(start_idx, TileType::Floor);
        self.map.set_tile(start_idx - 1, TileType::Floor);
        self.map.set_tile(start_idx + 1, TileType::Floor);
        self.map.set_tile(start_idx - self.map.width as usize, TileType::Floor);
        self.map.set_tile(start_idx + self.map.width as usize, TileType::Floor);

        let total_tiles: i32 = self.map.width * self.map.height;
        let desired = desired_floor_tiles(total_tiles, self.floor_percent);
        let mut floor_tile_count = self.map.count_tiles(TileType::Floor);
        let mut steps: u32 = MAX_WALK_STEPS;
        let mut diggers: u32 = 0;
        let ghost mut strokes: Seq<(int, int)> = Seq::empty();
        let ghost mut left: Seq<int> = Seq::empty();
        let ghost settings = self.settings();
        assert(self.map.tiles@ =~= seed_cross());

        while (floor_tile_count as u64) < desired && steps > 0 && diggers < MAX_WALK_STEPS
            invariant
                self.wf(),
                strokes_on_grid(strokes),
                self.map.tiles@ == painted_from_cross(
                    strokes,
                    self.brush_size as int,
                    self.symmetry,
                ),
                floor_tile_count == count_kind(
                    self.map.tiles@,
                    TileType::Floor,
                    MAPWIDTH * MAPHEIGHT,
                ),
                desired == floor_target(MAPWIDTH * MAPHEIGHT, self.floor_percent as int),
                left.len() == strokes.len(),
                strokes.len() == diggers,
                steps == steps_before(left, strokes.len() as int),
                settings == self.settings(),
                forall|k: int|
                    0 <= k < strokes.len() ==> #[trigger] stroke_dug(strokes, left, settings, k),
                self.depth == old(self).depth,
                self.algorithm == old(self).algorithm,
                self.brush_size == old(self).brush_size,
                self.symmetry == old(self).symmetry,
                self.floor_percent == old(self).floor_percent,
                self.noise_areas@ == Map::<i32, Vec<usize>>::empty(),
                self.starting_position == (Position { x: 40, y: 21 }),
                diggers <= MAX_WALK_STEPS,
                no_stairs(self.map.tiles@),
                self.map.tiles@[tile_index(MAPWIDTH as int, 40, 21)] == TileType::Floor,
                self.map.tiles@[tile_index(MAPWIDTH as int, 39, 21)] == TileType::Floor,
                self.map.tiles@[tile_index(MAPWIDTH as int, 41, 21)] == TileType::Floor,
                self.map.tiles@[tile_index(MAPWIDTH as int, 40, 20)] == TileType::Floor,
                self.map.tiles@[tile_index(MAPWIDTH as int, 40, 22)] == TileType::Floor,
                extends(self.history(), old(self).history()),
                !SHOW_MAPGEN_VISUALIZER ==> self.history() == old(self).history(),
            decreases MAX_WALK_STEPS - diggers,
        {
            let ghost steps_then = steps as int;
            let ghost tiles_then = self.map.tiles@;
            let at = DLABuilder::dig(
                &self.map,
                rng,
                self.algorithm,
                self.starting_position,
                &mut steps,
            );
            proof {
                lemma_painted_keeps(
                    self.map.tiles@,
                    MAPWIDTH as int,
                    MAPHEIGHT as int,
                    self.brush_size as int,
                    self.symmetry,
                    at.0 as int,
                    at.1 as int,
                );
            }
            paint(&mut self.map, self.brush_size, self.symmetry, at.0, at.1);
            proof {
                let longer = strokes.push((at.0 as int, at.1 as int));
                lemma_painted_all_prefix(
                    seed_cross(),
                    MAPWIDTH as int,
                    MAPHEIGHT as int,
                    self.brush_size as int,
                    self.symmetry,
                    strokes,
                    longer,
                    strokes.len() as int,
                );
                let more = left.push(steps as int);
                assert forall|k: int| 0 <= k < longer.len() implies #[trigger] stroke_dug(
                    longer,
                    more,
                    settings,
                    k,
                ) by {
                    lemma_painted_all_prefix(
                        seed_cross(),
                        MAPWIDTH as int,
                        MAPHEIGHT as int,
                        self.brush_size as int,
                        self.symmetry,
                        strokes,
                        longer,
                        k,
                    );
                    if k < strokes.len() {
                        assert(stroke_dug(strokes, left, settings, k));
                        assert(steps_before(more, k) == steps_before(left, k));
                        assert(more[k] == left[k]);
                        assert(longer[k] == strokes[k]);
                    } else {
                        assert(steps_before(more, k) == steps_then);
                        assert(more[k] == steps as int);
                        assert(longer[k] == (at.0 as int, at.1 as int));
                        assert(painted_all(
                            seed_cross(),
                            MAPWIDTH as int,
                            MAPHEIGHT as int,
                            self.brush_size as int,
                            self.symmetry,
                            longer,
                            k,
                        ) == tiles_then);
                    }
                }
                strokes = longer;
                left = more;
            }
            diggers = diggers + 1;
            floor_tile_count = self.map.count_tiles(TileType::Floor);
        }

        let ghost raw = self.map.tiles@;
        finish_level(&mut self.map, &mut self.history, self.starting_position);
        proof {
            let start = tile_index(MAPWIDTH as int, 40, 21);
            assert(exit_target(MAPWIDTH as int, start, 0) == tile_index(MAPWIDTH as int, 39, 21));
            assert(exit_target(MAPWIDTH as int, start, 1) == tile_index(MAPWIDTH as int, 41, 21));
            lemma_floor_beside_start(raw, start, 0, 1, self.map.tiles@);
            assert(strokes_on_grid(strokes));
            assert(settings == self.settings());
            assert(strokes_dug(strokes, left, settings));
            assert(finished_from(
                painted_from_cross(strokes, self.settings().1, self.settings().2),
                tile_index(MAPWIDTH as int, 40, 21),
                self.level().tiles,
            ));
        }
    }
}

impl MapBuilder for DLABuilder {
    closed spec fn wf(&self) -> bool {
        &&& self.map.wf()
        &&& self.map.width == MAPWIDTH
        &&& self.map.height == MAPHEIGHT
        &&& self.map.depth == self.depth
        &&& regions_fit(self.noise_areas@, self.map.tiles@)
        &&& forall|i: int| 0 <= i < self.history@.len() ==> (#[trigger] self.history@[i]).wf()
    }

    closed spec fn level(&self) -> GridView {
        self.map@
    }

    closed spec fn start(&self) -> Position {
        self.starting_position
    }

    closed spec fn history(&self) -> Seq<GridView> {
        history_view(self.history@)
    }

    open spec fn spawn_areas(&self, areas: Seq<Seq<usize>>) -> bool {
        regions_in_turn(self.regions(), areas)
    }

    open spec fn built(&self, before: &DLABuilder) -> bool {
        &&& self.settings() == before.settings()
        &&& self.regions() == Map::<i32, Vec<usize>>::empty()
        &&& self.start() == (Position { x: 40, y: 21 })
        &&& has_floor(self.level().tiles)
        &&& exists|strokes: Seq<(int, int)>, left: Seq<int>|
            {
                &&& strokes_on_grid(strokes)
                &&& #[trigger] strokes_dug(strokes, left, self.settings())
                &&& finished_from(
                    painted_from_cross(strokes, self.settings().1, self.settings().2),
                    tile_index(MAPWIDTH as int, 40, 21),
                    self.level().tiles,
                )
            }
    }

    fn build_map(&mut self, rng: &mut RandomNumberGenerator) {
        self.build(rng);
    }

    fn get_map(&self) -> (map: Grid) {
        self.map.clone()
    }

    fn get_starting_position(&self) -> (start: Position) {
        self.starting_position
    }

    fn get_snapshot_history(&self) -> (history: Vec<Grid>) {
        clone_history(&self.history)
    }

    fn take_snapshot(&mut self) {
        record_snapshot(&mut self.history, &self.map);
    }

    fn spawn_entities(&self, rng: &mut RandomNumberGenerator) -> (spawns: Vec<(usize, String)>) {
        spawn_in_level(&self.map, &self.noise_areas, rng)
    }
}

} // verus!
