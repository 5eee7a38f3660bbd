//! What the generators share: carving rooms and tunnels, pruning what cannot
//! be walked to, and sorting floor tiles into spawn regions.

use crate::map::{
    blocked_by_walls, count_kind, lemma_index_tile, lemma_tile_index, Grid, GridView, TileType,
};
use crate::map_builders::{lemma_exit_placed, no_stairs};
use crate::pathing::{
    distance_field, flood_distances, is_distance_field, lemma_exact_parent, lemma_reached_walk,
    lemma_walk_transfers, reachable, reached, walls_of, UNREACHED,
};
use crate::rect::Rect;
use std::collections::HashMap;
use vstd::prelude::*;

verus! {

/// The tile `(x, y)` does not lie on the rim of the grid.
pub open spec fn inside_rim(width: int, height: int, x: int, y: int) -> bool {
    1 <= x < width - 1 && 1 <= y < height - 1
}

/// The part of the box that is carved when it becomes a room lies on a grid
/// of the given size.
pub open spec fn holds_room(width: int, height: int, room: Rect) -> bool {
    (room.x1 + 1 < room.x2 && room.y1 + 1 < room.y2) ==> (0 <= room.x1 + 1 && room.x2 <= width
        && 0 <= room.y1 + 1 && room.y2 <= height)
}

/// The tiles with the inside of the box turned to floor.
pub open spec fn with_room(tiles: Seq<TileType>, width: int, room: Rect) -> Seq<TileType> {
    Seq::new(
        tiles.len(),
        |i: int|
            if room.interior(i % width, i / width) {
                TileType::Floor
            } else {
                tiles[i]
            },
    )
}

/// The tile with the index `i` lies in row `y`, between the columns `x1`
/// and `x2` in either order, and is not the first tile of the grid.
pub open spec fn in_horizontal_tunnel(width: int, x1: int, x2: int, y: int, i: int) -> bool {
    &&& i > 0
    &&& i / width == y
    &&& (x1 <= i % width <= x2 || x2 <= i % width <= x1)
}

/// The tile with the index `i` lies in column `x`, between the rows `y1` and
/// `y2` in either order, and is not the first tile of the grid.
pub open spec fn in_vertical_tunnel(width: int, y1: int, y2: int, x: int, i: int) -> bool {
    &&& i > 0
    &&& i % width == x
    &&& (y1 <= i / width <= y2 || y2 <= i / width <= y1)
}

/// Turns the inside of the box to floor: the tiles strictly between its low
/// and its high sides.
pub fn apply_room_to_map(map: &mut Grid, room: &Rect)
    requires
        old(map).wf(),
        holds_room(old(map).width as int, old(map).height as int, *room),
    ensures
        final(map).wf(),
        final(map)@ == (GridView {
            tiles: with_room(old(map).tiles@, old(map).width as int, *room),
            ..old(map)@
        }),
{
    let ghost before = map.tiles@;
    let ghost w = map.width as int;
    let ghost h = map.height as int;
    if room.y1 < room.y2 && room.x1 < room.x2 && room.x1 + 1 < room.x2 && room.y1 + 1 < room.y2 {
        let mut y: i32 = room.y1 + 1;
        while y < room.y2
            invariant
                map.wf(),
                room.x1 + 1 < room.x2,
                room.y1 + 1 <= y <= room.y2,
                holds_room(w, h, *room),
                room.y1 + 1 < room.y2,
                w == map.width,
                h == map.height,
                map@ == (GridView { tiles: map.tiles@, ..old(map)@ }),
                map.tiles@.len() == before.len(),
                forall|i: int|
                    0 <= i < before.len() ==> #[trigger] map.tiles@[i] == if room.interior(
                        i % w,
                        i / w,
                    ) && i / w < y {
                        TileType::Floor
                    } else {
                        before[i]
                    },
            decreases room.y2 - y,
        {
            let mut x: i32 = room.x1 + 1;
            while x < room.x2
                invariant
                    map.wf(),
                    room.x1 + 1 <= x <= room.x2,
                    room.y1 + 1 <= y < room.y2,
                    holds_room(w, h, *room),
                    room.x1 + 1 < room.x2,
                    w == map.width,
                    h == map.height,
                    map@ == (GridView { tiles: map.tiles@, ..old(map)@ }),
                    map.tiles@.len() == before.len(),
                    forall|i: int|
                        0 <= i < before.len() ==> #[trigger] map.tiles@[i] == if room.interior(
                            i % w,
                            i / w,
                        ) && (i / w < y || (i / w == y && i % w < x)) {
                            TileType::Floor
                        } else {
                            before[i]
                        },
                decreases room.x2 - x,
            {
                let idx = map.xy_idx(x, y);
                let ghost prior = map.tiles@;
                map.set_tile(idx, TileType::Floor);
                proof {
                    lemma_tile_index(w, h, x as int, y as int);
                    assert forall|i: int| 0 <= i < before.len() implies #[trigger] map.tiles@[i]
                        == if room.interior(i % w, i / w) && (i / w < y || (i / w == y && i % w < x
                        + 1)) {
                        TileType::Floor
                    } else {
                        before[i]
                    } by {
                        assert(prior[i] == if room.interior(i % w, i / w) && (i / w < y || (i / w
                            == y && i % w < x)) {
                            TileType::Floor
                        } else {
                            before[i]
                        });
                        lemma_index_tile(w, h, i);
                    }
                }
                x = x + 1;
            }
            y = y + 1;
        }
    }
    assert(map.tiles@ =~= with_room(before, w, *room));
}

/// Turns to floor the tiles of row `y` from column `x1` to column `x2`, in
/// either order, as far as they lie on the grid; the first tile of the grid
/// is never touched.
pub fn apply_horizontal_tunnel(map: &mut Grid, x1: i32, x2: i32, y: i32)
    requires
        old(map).wf(),
    ensures
        final(map).wf(),
        final(map)@ == (GridView { tiles: final(map).tiles@, ..old(map)@ }),
        final(map).tiles@.len() == old(map).tiles@.len(),
        forall|i: int|
            0 <= i < old(map).tiles@.len() ==> #[trigger] final(map).tiles@[i]
                == if in_horizontal_tunnel(old(map).width as int, x1 as int, x2 as int, y as int, i) {
                TileType::Floor
            } else {
                old(map).tiles@[i]
            },
{
    let ghost before = map.tiles@;
    let ghost w = map.width as int;
    let ghost h = map.height as int;
    let low: i32 = if x1 < x2 {
        x1
    } else {
        x2
    };
    let high: i32 = if x1 < x2 {
        x2
    } else {
        x1
    };
    if y < 0 || y >= map.height || high < 0 || low >= map.width {
        proof {
            assert forall|i: int| 0 <= i < before.len() implies !in_horizontal_tunnel(
                w,
                x1 as int,
                x2 as int,
                y as int,
                i,
            ) by {
                lemma_index_tile(w, h, i);
            }
        }
        return ;
    }
    let first: i32 = if low < 0 {
        0
    } else {
        low
    };
    let last: i32 = if high > map.width - 1 {
        map.width - 1
    } else {
        high
    };
    let mut x: i32 = first;
    while x <= last
        invariant
            map.wf(),
            0 <= first <= x,
            x <= last + 1,
            last < map.width,
            0 <= y < map.height,
            w == map.width,
            h == map.height,
            first == if low < 0 {
                0
            } else {
                low as int
            },
            last == if high > w - 1 {
                w - 1
            } else {
                high as int
            },
            low <= high,
            (low == x1 && high == x2) || (low == x2 && high == x1),
            map@ == (GridView { tiles: map.tiles@, ..old(map)@ }),
            map.tiles@.len() == before.len(),
            forall|i: int|
                0 <= i < before.len() ==> #[trigger] map.tiles@[i] == if in_horizontal_tunnel(
                    w,
                    x1 as int,
                    x2 as int,
                    y as int,
                    i,
                ) && i % w < x {
                    TileType::Floor
                } else {
                    before[i]
                },
        decreases last + 1 - x,
    {
        let idx = map.xy_idx(x, y);
        let ghost prior = map.tiles@;
        if idx > 0 {
            map.set_tile(idx, TileType::Floor);
        }
        proof {
            lemma_tile_index(w, h, x as int, y as int);
            assert forall|i: int| 0 <= i < before.len() implies #[trigger] map.tiles@[i]
                == if in_horizontal_tunnel(w, x1 as int, x2 as int, y as int, i) && i % w < x + 1 {
                TileType::Floor
            } else {
                before[i]
            } by {
                assert(prior[i] == if in_horizontal_tunnel(w, x1 as int, x2 as int, y as int, i)
                    && i % w < x {
                    TileType::Floor
                } else {
                    before[i]
                });
                lemma_index_tile(w, h, i);
            }
        }
        x = x + 1;
    }
    proof {
        assert forall|i: int| 0 <= i < before.len() implies #[trigger] map.tiles@[i]
            == if in_horizontal_tunnel(w, x1 as int, x2 as int, y as int, i) {
            TileType::Floor
        } else {
            before[i]
        } by {
            lemma_index_tile(w, h, i);
        }
    }
}

/// Turns to floor the tiles of column `x` from row `y1` to row `y2`, in
/// either order, as far as they lie on the grid; the first tile of the grid
/// is never touched.
pub fn apply_vertical_tunnel(map: &mut Grid, y1: i32, y2: i32, x: i32)
    requires
        old(map).wf(),
    ensures
        final(map).wf(),
        final(map)@ == (GridView { tiles: final(map).tiles@, ..old(map)@ }),
        final(map).tiles@.len() == old(map).tiles@.len(),
        forall|i: int|
            0 <= i < old(map).tiles@.len() ==> #[trigger] final(map).tiles@[i]
                == if in_vertical_tunnel(old(map).width as int, y1 as int, y2 as int, x as int, i) {
                TileType::Floor
            } else {
                old(map).tiles@[i]
            },
{
    let ghost before = map.tiles@;
    let ghost w = map.width as int;
    let ghost h = map.height as int;
    let low: i32 = if y1 < y2 {
        y1
    } else {
        y2
    };
    let high: i32 = if y1 < y2 {
        y2
    } else {
        y1
    };
    if x < 0 || x >= map.width || high < 0 || low >= map.height {
        proof {
            assert forall|i: int| 0 <= i < before.len() implies !in_vertical_tunnel(
                w,
                y1 as int,
                y2 as int,
                x as int,
                i,
            ) by {
                lemma_index_tile(w, h, i);
            }
        }
        return ;
    }
    let first: i32 = if low < 0 {
        0
    } else {
        low
    };
    let last: i32 = if high > map.height - 1 {
        map.height - 1
    } else {
        high
    };
    let mut y: i32 = first;
    while y <= last
        invariant
            map.wf(),
            0 <= first <= y,
            y <= last + 1,
            last < map.height,
            0 <= x < map.width,
            w == map.width,
            h == map.height,
            first == if low < 0 {
                0
            } else {
                low as int
            },
            last == if high > h - 1 {
                h - 1
            } else {
                high as int
            },
            low <= high,
            (low == y1 && high == y2) || (low == y2 && high == y1),
            map@ == (GridView { tiles: map.tiles@, ..old(map)@ }),
            map.tiles@.len() == before.len(),
            forall|i: int|
                0 <= i < before.len() ==> #[trigger] map.tiles@[i] == if in_vertical_tunnel(
                    w,
                    y1 as int,
                    y2 as int,
                    x as int,
                    i,
                ) && i / w < y {
                    TileType::Floor
                } else {
                    before[i]
                },
        decreases last + 1 - y,
    {
        let idx = map.xy_idx(x, y);
        let ghost prior = map.tiles@;
        if idx > 0 {
            map.set_tile(idx, TileType::Floor);
        }
        proof {
            lemma_tile_index(w, h, x as int, y as int);
            assert forall|i: int| 0 <= i < before.len() implies #[trigger] map.tiles@[i]
                == if in_vertical_tunnel(w, y1 as int, y2 as int, x as int, i) && i / w < y + 1 {
                TileType::Floor
            } else {
                before[i]
            } by {
                assert(prior[i] == if in_vertical_tunnel(w, y1 as int, y2 as int, x as int, i) && i
                    / w < y {
                    TileType::Floor
                } else {
                    before[i]
                });
                lemma_index_tile(w, h, i);
            }
        }
        y = y + 1;
    }
    proof {
        assert forall|i: int| 0 <= i < before.len() implies #[trigger] map.tiles@[i]
            == if in_vertical_tunnel(w, y1 as int, y2 as int, x as int, i) {
            TileType::Floor
        } else {
            before[i]
        } by {
            lemma_index_tile(w, h, i);
        }
    }
}

/// The tiles with every floor tile that the search did not reach turned to
/// wall.
pub open spec fn pruned(tiles: Seq<TileType>, dist: Seq<u32>) -> Seq<TileType> {
    Seq::new(
        tiles.len(),
        |i: int|
            if tiles[i] == TileType::Floor && dist[i] == UNREACHED {
                TileType::Wall
            } else {
                tiles[i]
            },
    )
}

/// Tile `i` is a floor tile that the search reached.
pub open spec fn reached_floor(tiles: Seq<TileType>, dist: Seq<u32>, i: int) -> bool {
    0 <= i < tiles.len() && tiles[i] == TileType::Floor && dist[i] != UNREACHED
}

/// Tile `exit` is the reached floor tile that lies furthest out; of several
/// that lie equally far out, the one with the least index.
pub open spec fn is_most_distant(tiles: Seq<TileType>, dist: Seq<u32>, exit: int) -> bool {
    &&& reached_floor(tiles, dist, exit)
    &&& forall|i: int| #[trigger] reached_floor(tiles, dist, i) ==> dist[i] <= dist[exit]
    &&& forall|i: int| #[trigger] reached_floor(tiles, dist, i) && i < exit ==> dist[i] < dist[exit]
}

/// After pruning, every tile that the search reached and that was no wall
/// can be walked to from the start without stepping on a wall.
pub proof fn lemma_pruned_reachable(
    tiles: Seq<TileType>,
    blocked: Seq<bool>,
    width: int,
    height: int,
    start: int,
    dist: Seq<u32>,
    i: int,
)
    requires
        blocked_by_walls(tiles, blocked),
        is_distance_field(blocked, width, height, start, dist),
        reached(dist, i),
    ensures
        reachable(pruned(tiles, dist), width, height, start, i),
{
    let p = lemma_reached_walk(blocked, width, height, start, dist, i);
    let after = walls_of(pruned(tiles, dist));
    assert forall|t: int| 1 <= t < p.len() implies !after[#[trigger] p[t]] by {}
    lemma_walk_transfers(blocked, after, width, height, p);
}

/// Finds what can be walked to from the tile `start_idx`, turns every floor
/// tile that cannot to wall, turns the floor tile that lies furthest from
/// the start into the stair down, and returns that tile: the start itself
/// where no other floor tile is reached. The blocked tiles are set
/// beforehand from the walls. On a level that had no stair, the stair is
/// then the only one.
pub fn remove_unreachable_areas_returning_most_distant(map: &mut Grid, start_idx: usize) -> (exit:
    usize)
    requires
        old(map).wf(),
        start_idx < old(map).tiles@.len(),
        old(map).tiles@[start_idx as int] == TileType::Floor,
    ensures
        final(map).wf(),
        blocked_by_walls(old(map).tiles@, final(map).blocked@),
        is_distance_field(
            final(map).blocked@,
            old(map).width as int,
            old(map).height as int,
            start_idx as int,
            distance_field(
                final(map).blocked@,
                old(map).width as int,
                old(map).height as int,
                start_idx as int,
            ),
        ),
        final(map)@ == (GridView {
            tiles: pruned(
                old(map).tiles@,
                distance_field(
                    final(map).blocked@,
                    old(map).width as int,
                    old(map).height as int,
                    start_idx as int,
                ),
            ).update(exit as int, TileType::DownStairs),
            blocked: final(map).blocked@,
            ..old(map)@
        }),
        is_most_distant(
            old(map).tiles@,
            distance_field(
                final(map).blocked@,
                old(map).width as int,
                old(map).height as int,
                start_idx as int,
            ),
            exit as int,
        ),
        final(map).tiles@[exit as int] == TileType::DownStairs,
        final(map).tiles@[start_idx as int] != TileType::Wall,
        no_stairs(old(map).tiles@) ==> count_kind(
            final(map).tiles@,
            TileType::DownStairs,
            final(map).tiles@.len() as int,
        ) == 1,
        forall|i: int|
            0 <= i < final(map).tiles@.len() && (#[trigger] final(map).tiles@[i] == TileType::Floor
                || i == exit) ==> reachable(
                final(map).tiles@,
                final(map).width as int,
                final(map).height as int,
                start_idx as int,
                i,
            ),
{
    let ghost before = map.tiles@;
    let ghost w = map.width as int;
    let ghost h = map.height as int;
    map.populate_blocked();
    let dist = flood_distances(map, start_idx);
    let ghost field = dist@;
    let n = map.tiles.len();
    let mut exit: usize = start_idx;
    let mut best: u32 = 0;
    let mut i: usize = 0;
    while i < n
        invariant
            map.wf(),
            n == before.len(),
            i <= n,
            w == map.width,
            h == map.height,
            field == dist@,
            field.len() == n,
            start_idx < n,
            before[start_idx as int] == TileType::Floor,
            is_distance_field(map.blocked@, w, h, start_idx as int, field),
            field == distance_field(map.blocked@, w, h, start_idx as int),
            blocked_by_walls(before, map.blocked@),
            map@ == (GridView { tiles: map.tiles@, blocked: map.blocked@, ..old(map)@ }),
            map.tiles@.len() == n,
            forall|t: int|
                0 <= t < n ==> #[trigger] map.tiles@[t] == if t < i {
                    pruned(before, field)[t]
                } else {
                    before[t]
                },
            reached_floor(before, field, exit as int),
            best == field[exit as int],
            forall|t: int| #[trigger] reached_floor(before, field, t) && t < i ==> field[t] <= best,
            exit == start_idx && best == 0 || exit < i && forall|t: int| #[trigger]
                reached_floor(before, field, t) && t < exit ==> field[t] < best,
        decreases n - i,
    {
        if map.tiles[i] == TileType::Floor {
            let d: u32 = dist[i];
            if d == UNREACHED {
                map.set_tile(i, TileType::Wall);
            } else if d > best {
                exit = i;
                best = d;
            }
        }
        i = i + 1;
    }
    proof {
        assert(map.tiles@ =~= pruned(before, field));
        assert forall|t: int| #[trigger]
            reached_floor(before, field, t) && t < exit implies field[t] < best by {
            if exit == start_idx && best == 0 {
                let parent = lemma_exact_parent(map.blocked@, w, h, start_idx as int, field, t);
            }
        }
        assert forall|t: int|
            0 <= t < map.tiles@.len() && #[trigger] map.tiles@[t]
                == TileType::Floor implies reachable(map.tiles@, w, h, start_idx as int, t) by {
            lemma_pruned_reachable(before, map.blocked@, w, h, start_idx as int, field, t);
        }
    }
    let ghost cut = map.tiles@;
    map.set_tile(exit, TileType::DownStairs);
    proof {
        assert(walls_of(map.tiles@) =~= walls_of(cut));
        assert forall|t: int|
            0 <= t < map.tiles@.len() && (#[trigger] map.tiles@[t] == TileType::Floor || t
                == exit) implies reachable(map.tiles@, w, h, start_idx as int, t) by {
            assert(cut[t] == TileType::Floor);
        }
        if no_stairs(before) {
            assert(no_stairs(cut));
            lemma_exit_placed(cut, w, h, start_idx as int, exit as int);
        }
    }
    exit
}

/// The indices of the floor tiles among the first `n` tiles whose value is
/// `id`, in rising order.
pub open spec fn region_tiles(tiles: Seq<TileType>, values: Seq<i32>, id: i32, n: int) -> Seq<usize>
    decreases n,
{
    if n <= 0 {
        Seq::empty()
    } else if tiles[n - 1] == TileType::Floor && values[n - 1] == id {
        region_tiles(tiles, values, id, n - 1).push((n - 1) as usize)
    } else {
        region_tiles(tiles, values, id, n - 1)
    }
}

/// Some floor tile among the first `n` tiles has the value `id`.
pub open spec fn region_exists(tiles: Seq<TileType>, values: Seq<i32>, id: i32, n: int) -> bool {
    exists|i: int| 0 <= i < n && #[trigger] tiles[i] == TileType::Floor && values[i] == id
}

/// The regions of the first `n` tiles: one for each value that a floor tile
/// among them has, holding the indices of the floor tiles with that value.
pub open spec fn is_partition(
    regions: Map<i32, Vec<usize>>,
    tiles: Seq<TileType>,
    values: Seq<i32>,
    n: int,
) -> bool {
    &&& forall|id: i32| #[trigger] regions.contains_key(id) <==> region_exists(tiles, values, id, n)
    &&& forall|id: i32| #[trigger]
        regions.contains_key(id) ==> regions[id]@ == region_tiles(tiles, values, id, n)
}

/// A region lists floor tiles of its own value only, each once, in rising
/// order, and lists every such tile.
pub proof fn lemma_region_tiles(tiles: Seq<TileType>, values: Seq<i32>, id: i32, n: int)
    requires
        0 <= n <= tiles.len(),
        n <= usize::MAX,
    ensures
        forall|t: int|
            0 <= t < region_tiles(tiles, values, id, n).len() ==> {
                let i = #[trigger] region_tiles(tiles, values, id, n)[t];
                i < n && tiles[i as int] == TileType::Floor && values[i as int] == id
            },
        forall|s: int, t: int|
            0 <= s < t < region_tiles(tiles, values, id, n).len() ==> #[trigger] region_tiles(
                tiles,
                values,
                id,
                n,
            )[s] < #[trigger] region_tiles(tiles, values, id, n)[t],
        forall|i: int|
            0 <= i < n && #[trigger] tiles[i] == TileType::Floor && values[i] == id
                ==> region_tiles(tiles, values, id, n).contains(i as usize),
    decreases n,
{
    if n > 0 {
        lemma_region_tiles(tiles, values, id, n - 1);
        let rest = region_tiles(tiles, values, id, n - 1);
        let all = region_tiles(tiles, values, id, n);
        assert forall|i: int|
            0 <= i < n && #[trigger] tiles[i] == TileType::Floor && values[i] == id implies all.contains(
            i as usize,
        ) by {
            if i < n - 1 {
                let t = choose|t: int| 0 <= t < rest.len() && rest[t] == i as usize;
                assert(all[t] == i as usize);
            } else {
                assert(all[all.len() - 1] == i as usize);
            }
        }
    }
}

/// Sorts the floor tiles into regions by the value that each tile was given:
/// the value of a tile is the id of its region. `cell_values` holds one value
/// for every tile of the grid; those of tiles that are not floor are not
/// looked at.
pub fn generate_voronoi_spawn_regions(map: &Grid, cell_values: &Vec<i32>) -> (regions: HashMap<
    i32,
    Vec<usize>,
>)
    requires
        map.wf(),
        cell_values@.len() == map.tiles@.len(),
    ensures
        is_partition(regions@, map.tiles@, cell_values@, map.tiles@.len() as int),
        regions_fit(regions@, map.tiles@),
{
    broadcast use vstd::std_specs::hash::group_hash_axioms;

    let mut regions: HashMap<i32, Vec<usize>> = HashMap::new();
    let n = map.tiles.len();
    let mut i: usize = 0;
    while i < n
        invariant
            i <= n,
            n == map.tiles@.len(),
            n == cell_values@.len(),
            is_partition(regions@, map.tiles@, cell_values@, i as int),
        decreases n - i,
    {
        let ghost prior = regions@;
        if map.tiles[i] == TileType::Floor {
            let id: i32 = cell_values[i];
            let mut members: Vec<usize> = match regions.remove(&id) {
                Some(found) => found,
                None => Vec::new(),
            };
            proof {
                if !prior.contains_key(id) {
                    lemma_region_absent(map.tiles@, cell_values@, id, i as int);
                }
            }
            members.push(i);
            regions.insert(id, members);
        }
        proof {
            let tiles = map.tiles@;
            let values = cell_values@;
            assert forall|id: i32| #[trigger]
                regions@.contains_key(id) <==> region_exists(tiles, values, id, i + 1) by {
                if region_exists(tiles, values, id, i + 1) {
                    let t = choose|t: int|
                        0 <= t < i + 1 && #[trigger] tiles[t] == TileType::Floor && values[t] == id;
                }
                if regions@.contains_key(id) {
                    if prior.contains_key(id) {
                        let t = choose|t: int|
                            0 <= t < i && #[trigger] tiles[t] == TileType::Floor && values[t]
                                == id;
                        assert(0 <= t < i + 1 && tiles[t] == TileType::Floor && values[t] == id);
                    }
                }
            }
        }
        i = i + 1;
    }
    proof {
        lemma_partition_fits(regions@, map.tiles@, cell_values@);
    }
    regions
}

/// A value that no floor tile has so far has an empty region.
proof fn lemma_region_absent(tiles: Seq<TileType>, values: Seq<i32>, id: i32, n: int)
    requires
        !region_exists(tiles, values, id, n),
    ensures
        region_tiles(tiles, values, id, n) == Seq::<usize>::empty(),
    decreases n,
{
    if n > 0 {
        assert(!region_exists(tiles, values, id, n - 1)) by {
            if region_exists(tiles, values, id, n - 1) {
                let t = choose|t: int|
                    0 <= t < n - 1 && #[trigger] tiles[t] == TileType::Floor && values[t] == id;
                assert(0 <= t < n && tiles[t] == TileType::Floor && values[t] == id);
            }
        }
        lemma_region_absent(tiles, values, id, n - 1);
    }
}

/// Where a walker that stands on `(x, y)` stands after it staggers in the
/// direction that a die of four faces chose: one tile west, east, north or
/// south, or where it was if the step would take it closer than two tiles to
/// the rim of the grid.
pub open spec fn staggered(width: int, height: int, x: int, y: int, direction: int) -> (int, int) {
    if direction == 1 {
        if x > 2 {
            (x - 1, y)
        } else {
            (x, y)
        }
    } else if direction == 2 {
        if x < width - 2 {
            (x + 1, y)
        } else {
            (x, y)
        }
    } else if direction == 3 {
        if y > 2 {
            (x, y - 1)
        } else {
            (x, y)
        }
    } else {
        if y < height - 2 {
            (x, y + 1)
        } else {
            (x, y)
        }
    }
}

/// One stagger of a walker.
pub fn stagger(width: i32, height: i32, x: i32, y: i32, direction: i32) -> (to: (i32, i32))
    ensures
        (to.0 as int, to.1 as int) == staggered(
            width as int,
            height as int,
            x as int,
            y as int,
            direction as int,
        ),
{
    if direction == 1 {
        if x > 2 {
            (x - 1, y)
        } else {
            (x, y)
        }
    } else if direction == 2 {
        if (x as i64) < width as i64 - 2 {
            (x + 1, y)
        } else {
            (x, y)
        }
    } else if direction == 3 {
        if y > 2 {
            (x, y - 1)
        } else {
            (x, y)
        }
    } else {
        if (y as i64) < height as i64 - 2 {
            (x, y + 1)
        } else {
            (x, y)
        }
    }
}

/// How many floor tiles a level of `total` tiles must have to be floor to
/// `percent` hundredths.
pub open spec fn floor_target(total: int, percent: int) -> int {
    if percent <= 0 || total <= 0 {
        0
    } else {
        percent * total / 100
    }
}

/// The number of floor tiles that a generator aims at.
pub fn desired_floor_tiles(total: i32, percent: i32) -> (target: u64)
    ensures
        target == floor_target(total as int, percent as int),
{
    if percent <= 0 || total <= 0 {
        0
    } else {
        assert(0 < percent as int * total as int <= 0x4000_0000_0000_0000) by (nonlinear_arith)
            requires
                0 < percent <= 0x7fff_ffff,
                0 < total <= 0x7fff_ffff,
        ;
        let product: u64 = (percent as u64) * (total as u64);
        product / 100
    }
}

/// The tiles with every stair turned to floor.
pub open spec fn without_marks(tiles: Seq<TileType>) -> Seq<TileType> {
    Seq::new(
        tiles.len(),
        |i: int|
            if tiles[i] == TileType::DownStairs {
                TileType::Floor
            } else {
                tiles[i]
            },
    )
}

/// Turns every stair to floor: the generators that mark the way of a walker
/// with stairs clear the marks with it.
pub fn clear_marks(map: &mut Grid)
    requires
        old(map).wf(),
    ensures
        final(map).wf(),
        final(map)@ == (GridView { tiles: without_marks(old(map).tiles@), ..old(map)@ }),
{
    let ghost before = map.tiles@;
    let n = map.tiles.len();
    let mut i: usize = 0;
    while i < n
        invariant
            map.wf(),
            i <= n,
            n == before.len(),
            map.tiles@.len() == n,
            map@ == (GridView { tiles: map.tiles@, ..old(map)@ }),
            forall|t: int|
                0 <= t < n ==> #[trigger] map.tiles@[t] == if t < i {
                    without_marks(before)[t]
                } else {
                    before[t]
                },
        decreases n - i,
    {
        if map.tiles[i] == TileType::DownStairs {
            map.set_tile(i, TileType::Floor);
        }
        i = i + 1;
    }
    assert(map.tiles@ =~= without_marks(before));
}

/// Every region lists floor tiles of the level only, and no more of them
/// than the level has tiles.
pub open spec fn regions_fit(regions: Map<i32, Vec<usize>>, tiles: Seq<TileType>) -> bool {
    forall|id: i32| #[trigger]
        regions.contains_key(id) ==> regions[id]@.len() <= tiles.len() && forall|t: int|
            0 <= t < regions[id]@.len() ==> (#[trigger] regions[id]@[t]) < tiles.len()
                && tiles[regions[id]@[t] as int] == TileType::Floor
}

/// A region is no longer than the tiles it was taken from.
pub proof fn lemma_region_tiles_len(tiles: Seq<TileType>, values: Seq<i32>, id: i32, n: int)
    requires
        0 <= n,
    ensures
        region_tiles(tiles, values, id, n).len() <= n,
    decreases n,
{
    if n > 0 {
        lemma_region_tiles_len(tiles, values, id, n - 1);
    }
}

/// The regions of a level list floor tiles of the level only.
pub proof fn lemma_partition_fits(
    regions: Map<i32, Vec<usize>>,
    tiles: Seq<TileType>,
    values: Seq<i32>,
)
    requires
        is_partition(regions, tiles, values, tiles.len() as int),
        tiles.len() <= usize::MAX,
    ensures
        regions_fit(regions, tiles),
{
    assert forall|id: i32| #[trigger] regions.contains_key(id) implies regions[id]@.len()
        <= tiles.len() && forall|t: int|
        0 <= t < regions[id]@.len() ==> (#[trigger] regions[id]@[t]) < tiles.len()
            && tiles[regions[id]@[t] as int] == TileType::Floor by {
        lemma_region_tiles_len(tiles, values, id, tiles.len() as int);
        lemma_region_tiles(tiles, values, id, tiles.len() as int);
    }
}

/// The regions hold every floor tile of the level, each in one region and
/// there once: a floor tile lies in the region of its value, at one place of
/// its list, and no list holds anything else.
pub proof fn lemma_partition_covers(
    regions: Map<i32, Vec<usize>>,
    tiles: Seq<TileType>,
    values: Seq<i32>,
)
    requires
        is_partition(regions, tiles, values, tiles.len() as int),
        values.len() == tiles.len(),
        tiles.len() <= usize::MAX,
    ensures
        forall|i: int|
            0 <= i < tiles.len() && #[trigger] tiles[i] == TileType::Floor
                ==> regions.contains_key(values[i]) && regions[values[i]]@.contains(i as usize),
        forall|id: i32, t: int|
            regions.contains_key(id) && 0 <= t < regions[id]@.len() ==> {
                let i = #[trigger] regions[id]@[t];
                i < tiles.len() && tiles[i as int] == TileType::Floor && values[i as int] == id
            },
        forall|id: i32, s: int, t: int|
            regions.contains_key(id) && 0 <= s < t < regions[id]@.len() ==> #[trigger] regions[id]@[s]
                < #[trigger] regions[id]@[t],
{
    let n = tiles.len() as int;
    assert forall|i: int|
        0 <= i < tiles.len() && #[trigger] tiles[i] == TileType::Floor implies regions.contains_key(
        values[i],
    ) && regions[values[i]]@.contains(i as usize) by {
        let id = values[i];
        assert(regions.contains_key(id));
        lemma_region_tiles(tiles, values, id, n);
    }
    assert forall|id: i32, t: int| regions.contains_key(id) && 0 <= t < regions[id]@.len() implies {
        let i = #[trigger] regions[id]@[t];
        i < tiles.len() && tiles[i as int] == TileType::Floor && values[i as int] == id
    } by {
        lemma_region_tiles(tiles, values, id, n);
    }
    assert forall|id: i32, s: int, t: int|
        regions.contains_key(id) && 0 <= s < t < regions[id]@.len() implies #[trigger] regions[id]@[s]
        < #[trigger] regions[id]@[t] by {
        lemma_region_tiles(tiles, values, id, n);
    }
}

} // verus!
