//! Dungeons of rooms placed in the quarters of a box that is divided again
//! and again, joined by corridors.

use crate::dice::roll_die;
use crate::map::{
    lemma_index_tile, lemma_tile_index, on_grid, tile_index, Grid, GridView, Position, TileType,
    MAPHEIGHT, MAPWIDTH,
};
use crate::map_builders::common::{apply_room_to_map, with_room};
use crate::map_builders::{
    clone_history, extends, finish_level, finished_from, history_view, level_complete,
    record_snapshot, revealed_copy, MapBuilder, SHOW_MAPGEN_VISUALIZER,
};
use crate::rect::Rect;
use crate::spawner::{
    lemma_flatten_push, lemma_room_floor, parts_of_areas, region_spawns, room_areas, room_floor,
    spawn_on_floor, spawn_room, spawned_in_turn, DEPTH_LIMIT,
};
use rltk::RandomNumberGenerator;
use vstd::prelude::*;
use vstd::seq_lib::to_multiset_insert;

verus! {

/// The number of rooms that a level tries to place.
pub const ROOM_ATTEMPTS: u32 = 240;

/// The difference of two coordinates, without its sign.
pub open spec fn span(a: int, b: int) -> int {
    if a >= b {
        a - b
    } else {
        b - a
    }
}

/// The four quarters of the box `rect`, each at least one tile wide and
/// high: upper left, lower left, upper right, lower right.
pub open spec fn quarters(rect: Rect) -> Seq<Rect> {
    let half_width = if span(rect.x1 as int, rect.x2 as int) / 2 > 1 {
        span(rect.x1 as int, rect.x2 as int) / 2
    } else {
        1
    };
    let half_height = if span(rect.y1 as int, rect.y2 as int) / 2 > 1 {
        span(rect.y1 as int, rect.y2 as int) / 2
    } else {
        1
    };
    seq![
        Rect {
            x1: rect.x1,
            x2: (rect.x1 + half_width) as i32,
            y1: rect.y1,
            y2: (rect.y1 + half_height) as i32,
        },
        Rect {
            x1: rect.x1,
            x2: (rect.x1 + half_width) as i32,
            y1: (rect.y1 + half_height) as i32,
            y2: (rect.y1 + half_height + half_height) as i32,
        },
        Rect {
            x1: (rect.x1 + half_width) as i32,
            x2: (rect.x1 + half_width + half_width) as i32,
            y1: rect.y1,
            y2: (rect.y1 + half_height) as i32,
        },
        Rect {
            x1: (rect.x1 + half_width) as i32,
            x2: (rect.x1 + half_width + half_width) as i32,
            y1: (rect.y1 + half_height) as i32,
            y2: (rect.y1 + half_height + half_height) as i32,
        },
    ]
}

/// A box that the generator may divide: near the level, and at least one
/// tile wide and high.
pub open spec fn dividable(rect: Rect) -> bool {
    &&& 0 <= rect.x1 <= 0x1000
    &&& 0 <= rect.y1 <= 0x1000
    &&& 1 <= rect.x2 - rect.x1 <= 0x1000
    &&& 1 <= rect.y2 - rect.y1 <= 0x1000
}

/// A room may be built in the box: every tile of the box, widened by two
/// tiles on each side, lies inside the rim of the grid and is a wall.
pub open spec fn room_possible(tiles: Seq<TileType>, width: int, height: int, rect: Rect) -> bool {
    forall|x: int, y: int|
        rect.x1 - 2 <= x <= rect.x2 + 2 && rect.y1 - 2 <= y <= rect.y2 + 2 ==> 1 <= x <= width - 2
            && 1 <= y <= height - 2 && #[trigger] tiles[tile_index(width, x, y)] == TileType::Wall
}

/// The tile `(x, y)` lies on the corridor from `(x1, y1)` to `(x2, y2)`:
/// along the row of the first end to the column of the second, then along
/// that column; the first end itself does not belong to it.
pub open spec fn in_corridor(x1: int, y1: int, x2: int, y2: int, x: int, y: int) -> bool {
    ||| (y == y1 && x != x1 && (x1 <= x <= x2 || x2 <= x <= x1))
    ||| (x == x2 && y != y1 && (y1 <= y <= y2 || y2 <= y <= y1))
}

/// The tiles with the corridor from `(x1, y1)` to `(x2, y2)` turned to floor.
pub open spec fn with_corridor(
    tiles: Seq<TileType>,
    width: int,
    x1: int,
    y1: int,
    x2: int,
    y2: int,
) -> Seq<TileType> {
    Seq::new(
        tiles.len(),
        |i: int|
            if in_corridor(x1, y1, x2, y2, i % width, i / width) {
                TileType::Floor
            } else {
                tiles[i]
            },
    )
}

/// Where a box with the left side `x1` goes into rooms in the order of
/// their left sides: behind the last room that does not lie further right.
pub open spec fn slot(rooms: Seq<Rect>, x1: int) -> int
    decreases rooms.len(),
{
    if rooms.len() == 0 || rooms.last().x1 <= x1 {
        rooms.len() as int
    } else {
        slot(rooms.drop_last(), x1)
    }
}

/// The rooms in the order of their left sides; rooms with the same left side
/// stay in the order in which they were.
pub open spec fn sorted_by_left(rooms: Seq<Rect>) -> Seq<Rect>
    decreases rooms.len(),
{
    if rooms.len() == 0 {
        Seq::empty()
    } else {
        let rest = sorted_by_left(rooms.drop_last());
        rest.insert(slot(rest, rooms.last().x1 as int), rooms.last())
    }
}

/// No room lies left of the room before it.
pub open spec fn ordered_by_left(rooms: Seq<Rect>) -> bool {
    forall|i: int, j: int| 0 <= i <= j < rooms.len() ==> rooms[i].x1 <= rooms[j].x1
}

pub proof fn lemma_slot(rooms: Seq<Rect>, x1: int)
    requires
        ordered_by_left(rooms),
    ensures
        0 <= slot(rooms, x1) <= rooms.len(),
        forall|i: int| 0 <= i < slot(rooms, x1) ==> rooms[i].x1 <= x1,
        forall|i: int| slot(rooms, x1) <= i < rooms.len() ==> rooms[i].x1 > x1,
    decreases rooms.len(),
{
    if rooms.len() > 0 {
        let rest = rooms.drop_last();
        let last = rooms.len() - 1;
        assert forall|i: int, j: int| 0 <= i <= j < rest.len() implies rest[i].x1 <= rest[j].x1 by {}
        if rooms.last().x1 > x1 {
            lemma_slot(rest, x1);
            assert forall|i: int| 0 <= i < slot(rooms, x1) implies rooms[i].x1 <= x1 by {
                assert(rest[i].x1 <= x1);
            }
            assert forall|i: int| slot(rooms, x1) <= i < rooms.len() implies rooms[i].x1 > x1 by {
                if i < last {
                    assert(rest[i].x1 > x1);
                }
            }
        } else {
            assert forall|i: int| 0 <= i < slot(rooms, x1) implies rooms[i].x1 <= x1 by {}
        }
    }
}

/// Sorting by left sides puts the rooms in order and neither adds nor loses
/// a room.
pub proof fn lemma_sorted_by_left(rooms: Seq<Rect>)
    ensures
        ordered_by_left(sorted_by_left(rooms)),
        sorted_by_left(rooms).len() == rooms.len(),
        sorted_by_left(rooms).to_multiset() == rooms.to_multiset(),
    decreases rooms.len(),
{
    broadcast use vstd::seq_lib::to_multiset_build;

    if rooms.len() > 0 {
        let rest = sorted_by_left(rooms.drop_last());
        lemma_sorted_by_left(rooms.drop_last());
        lemma_slot(rest, rooms.last().x1 as int);
        to_multiset_insert(rest, slot(rest, rooms.last().x1 as int), rooms.last());
        assert(rooms.drop_last().push(rooms.last()) =~= rooms);
    } else {
        assert(rooms =~= Seq::<Rect>::empty());
    }
}

/// Every room of the sorted rooms is one of the rooms.
pub proof fn lemma_sorted_rooms_known(rooms: Seq<Rect>, i: int)
    requires
        0 <= i < sorted_by_left(rooms).len(),
    ensures
        rooms.contains(sorted_by_left(rooms)[i]),
{
    broadcast use vstd::seq_lib::to_multiset_contains;

    lemma_sorted_by_left(rooms);
    let room = sorted_by_left(rooms)[i];
    assert(sorted_by_left(rooms).to_multiset().count(room) > 0);
}

/// The rooms in the order of their left sides.
pub fn sort_rooms(rooms: &Vec<Rect>) -> (sorted: Vec<Rect>)
    ensures
        sorted@ == sorted_by_left(rooms@),
{
    let mut sorted: Vec<Rect> = Vec::new();
    let mut i: usize = 0;
    while i < rooms.len()
        invariant
            i <= rooms@.len(),
            sorted@ == sorted_by_left(rooms@.take(i as int)),
        decreases rooms@.len() - i,
    {
        let room = rooms[i];
        let mut at: usize = sorted.len();
        proof {
            lemma_sorted_by_left(rooms@.take(i as int));
            assert(sorted@.take(at as int) =~= sorted@);
        }
        while at > 0 && sorted[at - 1].x1 > room.x1
            invariant
                at <= sorted@.len(),
                slot(sorted@, room.x1 as int) == slot(sorted@.take(at as int), room.x1 as int),
            decreases at,
        {
            assert(sorted@.take(at as int).drop_last() =~= sorted@.take(at - 1));
            at = at - 1;
        }
        proof {
            assert(rooms@.take(i + 1).drop_last() =~= rooms@.take(i as int));
        }
        sorted.insert(at, room);
        i = i + 1;
    }
    assert(rooms@.take(rooms@.len() as int) =~= rooms@);
    sorted
}

/// Whether a room may be built in the box.
pub fn is_possible(map: &Grid, rect: Rect) -> (can_build: bool)
    requires
        map.wf(),
    ensures
        can_build == room_possible(map.tiles@, map.width as int, map.height as int, rect),
{
    let ghost w = map.width as int;
    let ghost h = map.height as int;
    let low_x: i64 = rect.x1 as i64 - 2;
    let high_x: i64 = rect.x2 as i64 + 2;
    let low_y: i64 = rect.y1 as i64 - 2;
    let high_y: i64 = rect.y2 as i64 + 2;
    if low_x > high_x || low_y > high_y {
        return true;
    }
    if low_x < 1 || high_x > map.width as i64 - 2 || low_y < 1 || high_y > map.height as i64 - 2 {
        proof {
            if low_x < 1 || low_y < 1 {
                assert(!(1 <= low_x <= w - 2 && 1 <= low_y <= h - 2 && map.tiles@[tile_index(
                    w,
                    low_x as int,
                    low_y as int,
                )] == TileType::Wall));
            } else {
                assert(!(1 <= high_x <= w - 2 && 1 <= high_y <= h - 2 && map.tiles@[tile_index(
                    w,
                    high_x as int,
                    high_y as int,
                )] == TileType::Wall));
            }
        }
        return false;
    }
    let mut y: i64 = low_y;
    while y <= high_y
        invariant
            map.wf(),
            w == map.width,
            h == map.height,
            1 <= low_x <= high_x <= w - 2,
            1 <= low_y <= y <= high_y + 1,
            high_y <= h - 2,
            low_x == rect.x1 - 2,
            high_x == rect.x2 + 2,
            low_y == rect.y1 - 2,
            high_y == rect.y2 + 2,
            forall|cx: int, cy: int|
                low_x <= cx <= high_x && low_y <= cy < y ==> #[trigger] map.tiles@[tile_index(
                    w,
                    cx,
                    cy,
                )] == TileType::Wall,
        decreases high_y + 1 - y,
    {
        let mut x: i64 = low_x;
        while x <= high_x
            invariant
                map.wf(),
                w == map.width,
                h == map.height,
                1 <= low_x <= x <= high_x + 1,
                high_x <= w - 2,
                1 <= low_y <= y <= high_y,
                high_y <= h - 2,
                low_x == rect.x1 - 2,
                high_x == rect.x2 + 2,
                low_y == rect.y1 - 2,
                high_y == rect.y2 + 2,
                forall|cx: int, cy: int|
                    low_x <= cx <= high_x && low_y <= cy < y ==> #[trigger] map.tiles@[tile_index(
                        w,
                        cx,
                        cy,
                    )] == TileType::Wall,
                forall|cx: int|
                    low_x <= cx < x ==> #[trigger] map.tiles@[tile_index(w, cx, y as int)]
                        == TileType::Wall,
            decreases high_x + 1 - x,
        {
            let idx = map.xy_idx(x as i32, y as i32);
            if map.tiles[idx] != TileType::Wall {
                return false;
            }
            x = x + 1;
        }
        y = y + 1;
    }
    true
}

/// Digs the corridor from `(x1, y1)` to `(x2, y2)`.
pub fn draw_corridor(map: &mut Grid, x1: i32, y1: i32, x2: i32, y2: i32)
    requires
        old(map).wf(),
        old(map).in_bounds(x1 as int, y1 as int),
        old(map).in_bounds(x2 as int, y2 as int),
    ensures
        final(map).wf(),
        final(map)@ == (GridView {
            tiles: with_corridor(
                old(map).tiles@,
                old(map).width as int,
                x1 as int,
                y1 as int,
                x2 as int,
                y2 as int,
            ),
            ..old(map)@
        }),
{
    let ghost before = map.tiles@;
    let ghost w = map.width as int;
    let ghost h = map.height as int;
    let mut x = x1;
    let mut y = y1;
    while x != x2 || y != y2
        invariant
            map.wf(),
            w == map.width,
            h == map.height,
            map.in_bounds(x1 as int, y1 as int),
            map.in_bounds(x2 as int, y2 as int),
            x1 <= x <= x2 || x2 <= x <= x1,
            y1 <= y <= y2 || y2 <= y <= y1,
            x != x2 ==> y == y1,
            map@ == (GridView { tiles: map.tiles@, ..old(map)@ }),
            map.tiles@.len() == before.len(),
            forall|i: int|
                0 <= i < before.len() ==> #[trigger] map.tiles@[i] == if in_corridor(
                    x1 as int,
                    y1 as int,
                    x as int,
                    y as int,
                    i % w,
                    i / w,
                ) {
                    TileType::Floor
                } else {
                    before[i]
                },
        decreases span(x as int, x2 as int) + span(y as int, y2 as int),
    {
        let ghost from_x = x;
        let ghost from_y = y;
        if x < x2 {
            x = x + 1;
        } else if x > x2 {
            x = x - 1;
        } else if y < y2 {
            y = y + 1;
        } else if y > y2 {
            y = y - 1;
        }
        let idx = map.xy_idx(x, y);
        let ghost prior = map.tiles@;
        map.set_tile(idx, TileType::Floor);
        proof {
            lemma_tile_index(w, h, x as int, y as int);
            assert forall|i: int| 0 <= i < before.len() implies #[trigger] map.tiles@[i]
                == if in_corridor(x1 as int, y1 as int, x as int, y as int, i % w, i / w) {
                TileType::Floor
            } else {
                before[i]
            } by {
                lemma_index_tile(w, h, i);
                assert(prior[i] == if in_corridor(
                    x1 as int,
                    y1 as int,
                    from_x as int,
                    from_y as int,
                    i % w,
                    i / w,
                ) {
                    TileType::Floor
                } else {
                    before[i]
                });
            }
        }
    }
    assert(map.tiles@ =~= with_corridor(before, w, x1 as int, y1 as int, x2 as int, y2 as int));
}

/// The box for a room in the box `rect`, when the four dice show what is
/// given: its size is the first two throws less one, though not less than
/// three, and one more; it lies right of and below the corner of `rect` by
/// the last two throws less one.
pub open spec fn room_box(
    rect: Rect,
    width_roll: int,
    height_roll: int,
    x_roll: int,
    y_roll: int,
) -> Rect {
    let w = if width_roll - 1 > 3 {
        width_roll
    } else {
        4
    };
    let h = if height_roll - 1 > 3 {
        height_roll
    } else {
        4
    };
    Rect {
        x1: (rect.x1 + x_roll - 1) as i32,
        x2: (rect.x1 + x_roll - 1 + w) as i32,
        y1: (rect.y1 + y_roll - 1) as i32,
        y2: (rect.y1 + y_roll - 1 + h) as i32,
    }
}

/// The dice that size and place a room in the box `rect` can show what is
/// given: the first two no more than ten nor than the box is wide and high,
/// the last two no more than six.
pub open spec fn rolls_in_range(
    rect: Rect,
    width_roll: int,
    height_roll: int,
    x_roll: int,
    y_roll: int,
) -> bool {
    &&& 1 <= width_roll <= 10 && width_roll <= rect.x2 - rect.x1
    &&& 1 <= height_roll <= 10 && height_roll <= rect.y2 - rect.y1
    &&& 1 <= x_roll <= 6
    &&& 1 <= y_roll <= 6
}

/// The box of the whole level that the generator divides first.
pub open spec fn root_box() -> Rect {
    Rect { x1: 2, x2: (MAPWIDTH - 3) as i32, y1: 2, y2: (MAPHEIGHT - 3) as i32 }
}

/// The boxes to choose from and the rooms built after the first `n` tries.
/// A try names the box it chooses and what the four dice show. The boxes
/// begin as the box of the level and its quarters. The room of a try is
/// built where a room is possible on the level with the rooms before it,
/// and then the quarters of the box of the try join the boxes.
pub open spec fn rooms_tried(tries: Seq<(int, int, int, int, int)>, n: int) -> (Seq<Rect>, Seq<Rect>)
    decreases n,
{
    if n <= 0 {
        (seq![root_box()] + quarters(root_box()), Seq::empty())
    } else {
        let before = rooms_tried(tries, n - 1);
        let from = before.0[tries[n - 1].0];
        let candidate = room_box(
            from,
            tries[n - 1].1,
            tries[n - 1].2,
            tries[n - 1].3,
            tries[n - 1].4,
        );
        if room_possible(
            dungeon_tiles(before.1, Seq::empty()),
            MAPWIDTH as int,
            MAPHEIGHT as int,
            candidate,
        ) {
            (before.0 + quarters(from), before.1.push(candidate))
        } else {
            before
        }
    }
}

/// Try `n` is one that the dice can give: it chooses one of the boxes that
/// are there after the tries before it, and its dice are in range for that
/// box.
pub open spec fn try_in_range(tries: Seq<(int, int, int, int, int)>, n: int) -> bool {
    let boxes = rooms_tried(tries, n).0;
    &&& 0 <= tries[n].0 < boxes.len()
    &&& rolls_in_range(boxes[tries[n].0], tries[n].1, tries[n].2, tries[n].3, tries[n].4)
}

/// The rooms `built` are those of the tries: as many tries as a dungeon
/// has, each one that the dice can give, and every room that was possible
/// when it was tried built, in the order of the tries, and no other.
pub open spec fn built_by_tries(tries: Seq<(int, int, int, int, int)>, built: Seq<Rect>) -> bool {
    &&& tries.len() == ROOM_ATTEMPTS
    &&& forall|n: int| 0 <= n < tries.len() ==> #[trigger] try_in_range(tries, n)
    &&& built == rooms_tried(tries, ROOM_ATTEMPTS as int).1
}

/// What the first tries give does not depend on the tries after them.
pub proof fn lemma_rooms_tried_prefix(
    tries: Seq<(int, int, int, int, int)>,
    next: (int, int, int, int, int),
    n: int,
)
    requires
        n <= tries.len(),
    ensures
        rooms_tried(tries.push(next), n) == rooms_tried(tries, n),
    decreases n,
{
    if n > 0 {
        lemma_rooms_tried_prefix(tries, next, n - 1);
        assert(tries.push(next)[n - 1] == tries[n - 1]);
    }
}

/// The box for a room in the box `rect`, when the four dice show what is
/// given.
pub fn sub_rect(rect: Rect, width_roll: i32, height_roll: i32, x_roll: i32, y_roll: i32) -> (result:
    Rect)
    requires
        dividable(rect),
        1 <= width_roll <= 10,
        1 <= height_roll <= 10,
        1 <= x_roll <= 6,
        1 <= y_roll <= 6,
    ensures
        result == room_box(
            rect,
            width_roll as int,
            height_roll as int,
            x_roll as int,
            y_roll as int,
        ),
        result.x1 == rect.x1 + x_roll - 1,
        result.y1 == rect.y1 + y_roll - 1,
        result.x2 - result.x1 == if width_roll - 1 > 3 {
            width_roll as int
        } else {
            4
        },
        result.y2 - result.y1 == if height_roll - 1 > 3 {
            height_roll as int
        } else {
            4
        },
{
    let w: i32 = if width_roll - 1 > 3 {
        width_roll
    } else {
        4
    };
    let h: i32 = if height_roll - 1 > 3 {
        height_roll
    } else {
        4
    };
    let x1: i32 = rect.x1 + (x_roll - 1);
    let y1: i32 = rect.y1 + (y_roll - 1);
    Rect { x1, x2: x1 + w, y1, y2: y1 + h }
}

/// The tile `(x, y)` lies inside one of the rooms.
pub open spec fn in_some_room(rooms: Seq<Rect>, x: int, y: int) -> bool {
    exists|k: int| 0 <= k < rooms.len() && (#[trigger] rooms[k]).interior(x, y)
}

/// The tile `(x, y)` lies on one of the corridors, each given by its two
/// ends.
pub open spec fn in_some_corridor(corridors: Seq<(int, int, int, int)>, x: int, y: int) -> bool {
    exists|c: int|
        0 <= c < corridors.len() && in_corridor(
            (#[trigger] corridors[c]).0,
            corridors[c].1,
            corridors[c].2,
            corridors[c].3,
            x,
            y,
        )
}

/// The tiles of a dungeon of the standard size: floor inside the rooms and
/// on the corridors, wall everywhere else.
pub open spec fn dungeon_tiles(rooms: Seq<Rect>, corridors: Seq<(int, int, int, int)>) -> Seq<
    TileType,
> {
    Seq::new(
        (MAPWIDTH * MAPHEIGHT) as nat,
        |i: int|
            if in_some_room(rooms, i % MAPWIDTH as int, i / MAPWIDTH as int) || in_some_corridor(
                corridors,
                i % MAPWIDTH as int,
                i / MAPWIDTH as int,
            ) {
                TileType::Floor
            } else {
                TileType::Wall
            },
    )
}

/// The tile `(x, y)` lies in the box of the room, its high sides left out.
pub open spec fn in_box(room: Rect, x: int, y: int) -> bool {
    room.x1 <= x < room.x2 && room.y1 <= y < room.y2
}

/// The corridors join the rooms: the first `n` corridors lead each from a
/// tile in the box of a room to a tile in the box of the next room.
pub open spec fn corridors_join(
    rooms: Seq<Rect>,
    corridors: Seq<(int, int, int, int)>,
    n: int,
) -> bool {
    &&& corridors.len() == n
    &&& forall|c: int|
        0 <= c < n ==> c + 1 < rooms.len() && in_box(
            rooms[c],
            (#[trigger] corridors[c]).0,
            corridors[c].1,
        ) && in_box(rooms[c + 1], corridors[c].2, corridors[c].3)
}

/// One corridor joins every room with the next.
pub open spec fn all_rooms_joined(rooms: Seq<Rect>, corridors: Seq<(int, int, int, int)>) -> bool {
    corridors_join(
        rooms,
        corridors,
        if rooms.len() > 0 {
            rooms.len() - 1
        } else {
            0
        },
    )
}

/// The rooms were built one after the other, each where a room was
/// possible on the level with the rooms before it: in a box that, widened
/// by two tiles on each side, lay inside the rim and held no floor.
pub open spec fn built_in_turn(built: Seq<Rect>) -> bool {
    forall|k: int|
        0 <= k < built.len() ==> room_possible(
            dungeon_tiles(#[trigger] built.subrange(0, k), Seq::empty()),
            MAPWIDTH as int,
            MAPHEIGHT as int,
            built[k],
        )
}

/// Rooms that were built in turn do not lie over each other: the boxes of
/// two of them share no tile.
pub proof fn lemma_rooms_apart(built: Seq<Rect>, i: int, j: int)
    requires
        built_in_turn(built),
        0 <= i < j < built.len(),
        BspDungeonBuilder::room_fits(built[i]),
        BspDungeonBuilder::room_fits(built[j]),
    ensures
        !built[i].overlaps(built[j]),
{
    let a = built[i];
    let b = built[j];
    if a.overlaps(b) {
        let x = if a.x1 + 1 >= b.x1 - 2 {
            a.x1 + 1
        } else {
            b.x1 - 2
        };
        let y = if a.y1 + 1 >= b.y1 - 2 {
            a.y1 + 1
        } else {
            b.y1 - 2
        };
        let before = built.subrange(0, j);
        let tiles = dungeon_tiles(before, Seq::empty());
        let t = tile_index(MAPWIDTH as int, x, y);
        lemma_tile_index(MAPWIDTH as int, MAPHEIGHT as int, x, y);
        assert(before[i] == a);
        assert(a.interior(x, y));
        assert(in_some_room(before, x, y));
        assert(tiles[t] == TileType::Floor);
        assert(room_possible(tiles, MAPWIDTH as int, MAPHEIGHT as int, b));
        assert(tiles[tile_index(MAPWIDTH as int, x, y)] == TileType::Wall);
    }
}

/// The dungeon has the rooms `rooms`: they are the rooms `built`, which are
/// those of the tries, were built in turn and lie well inside the level, in
/// the order of their left sides, and one corridor joins every room with
/// the next.
pub open spec fn dungeon_built(
    tries: Seq<(int, int, int, int, int)>,
    built: Seq<Rect>,
    corridors: Seq<(int, int, int, int)>,
    rooms: Seq<Rect>,
) -> bool {
    &&& built_by_tries(tries, built)
    &&& built_in_turn(built)
    &&& forall|k: int| 0 <= k < built.len() ==> BspDungeonBuilder::room_fits(#[trigger] built[k])
    &&& rooms == sorted_by_left(built)
    &&& all_rooms_joined(rooms, corridors)
}

/// The raw tiles of a dungeon: those of its rooms and corridors, or, where
/// it has no room, solid rock but for the middle tile.
pub open spec fn dungeon_raw(rooms: Seq<Rect>, corridors: Seq<(int, int, int, int)>) -> Seq<
    TileType,
> {
    if rooms.len() == 0 {
        dungeon_tiles(rooms, corridors).update(
            tile_index(MAPWIDTH as int, 40, 21),
            TileType::Floor,
        )
    } else {
        dungeon_tiles(rooms, corridors)
    }
}

/// One more room adds its inside to the floor of the dungeon.
pub proof fn lemma_room_added(
    rooms: Seq<Rect>,
    corridors: Seq<(int, int, int, int)>,
    room: Rect,
)
    ensures
        with_room(dungeon_tiles(rooms, corridors), MAPWIDTH as int, room) == dungeon_tiles(
            rooms.push(room),
            corridors,
        ),
{
    let longer = rooms.push(room);
    let before = dungeon_tiles(rooms, corridors);
    let after = dungeon_tiles(longer, corridors);
    assert forall|i: int| 0 <= i < before.len() implies with_room(before, MAPWIDTH as int, room)[i]
        == after[i] by {
        let x = i % MAPWIDTH as int;
        let y = i / MAPWIDTH as int;
        if in_some_room(rooms, x, y) {
            let k = choose|k: int| 0 <= k < rooms.len() && (#[trigger] rooms[k]).interior(x, y);
            assert(longer[k].interior(x, y));
        }
        if room.interior(x, y) {
            assert(longer[rooms.len() as int].interior(x, y));
        }
        if in_some_room(longer, x, y) {
            let k = choose|k: int| 0 <= k < longer.len() && (#[trigger] longer[k]).interior(x, y);
            if k < rooms.len() {
                assert(rooms[k].interior(x, y));
            }
        }
    }
    assert(with_room(before, MAPWIDTH as int, room) =~= after);
}

/// One more corridor adds its tiles to the floor of the dungeon.
pub proof fn lemma_corridor_added(
    rooms: Seq<Rect>,
    corridors: Seq<(int, int, int, int)>,
    corridor: (int, int, int, int),
)
    ensures
        with_corridor(
            dungeon_tiles(rooms, corridors),
            MAPWIDTH as int,
            corridor.0,
            corridor.1,
            corridor.2,
            corridor.3,
        ) == dungeon_tiles(rooms, corridors.push(corridor)),
{
    let longer = corridors.push(corridor);
    let before = dungeon_tiles(rooms, corridors);
    let after = dungeon_tiles(rooms, longer);
    let dug = with_corridor(
        before,
        MAPWIDTH as int,
        corridor.0,
        corridor.1,
        corridor.2,
        corridor.3,
    );
    assert forall|i: int| 0 <= i < before.len() implies dug[i] == after[i] by {
        let x = i % MAPWIDTH as int;
        let y = i / MAPWIDTH as int;
        if in_some_corridor(corridors, x, y) {
            let c = choose|c: int|
                0 <= c < corridors.len() && in_corridor(
                    (#[trigger] corridors[c]).0,
                    corridors[c].1,
                    corridors[c].2,
                    corridors[c].3,
                    x,
                    y,
                );
            assert(longer[c] == corridors[c]);
        }
        if in_corridor(corridor.0, corridor.1, corridor.2, corridor.3, x, y) {
            assert(longer[corridors.len() as int] == corridor);
        }
        if in_some_corridor(longer, x, y) {
            let c = choose|c: int|
                0 <= c < longer.len() && in_corridor(
                    (#[trigger] longer[c]).0,
                    longer[c].1,
                    longer[c].2,
                    longer[c].3,
                    x,
                    y,
                );
            if c < corridors.len() {
                assert(longer[c] == corridors[c]);
            }
        }
    }
    assert(dug =~= after);
}

/// The order of the rooms does not change the floor of the dungeon.
pub proof fn lemma_rooms_sorted(rooms: Seq<Rect>, corridors: Seq<(int, int, int, int)>)
    ensures
        dungeon_tiles(sorted_by_left(rooms), corridors) == dungeon_tiles(rooms, corridors),
{
    broadcast use vstd::seq_lib::to_multiset_contains;

    let sorted = sorted_by_left(rooms);
    lemma_sorted_by_left(rooms);
    let a = dungeon_tiles(sorted, corridors);
    let b = dungeon_tiles(rooms, corridors);
    assert forall|i: int| 0 <= i < a.len() implies a[i] == b[i] by {
        let x = i % MAPWIDTH as int;
        let y = i / MAPWIDTH as int;
        if in_some_room(sorted, x, y) {
            let k = choose|k: int| 0 <= k < sorted.len() && (#[trigger] sorted[k]).interior(x, y);
            lemma_sorted_rooms_known(rooms, k);
            let u = choose|u: int| 0 <= u < rooms.len() && rooms[u] == sorted[k];
            assert(rooms[u].interior(x, y));
        }
        if in_some_room(rooms, x, y) {
            let u = choose|u: int| 0 <= u < rooms.len() && (#[trigger] rooms[u]).interior(x, y);
            assert(rooms.contains(rooms[u]));
            assert(rooms.to_multiset().count(rooms[u]) > 0);
            assert(sorted.contains(rooms[u]));
            let k = choose|k: int| 0 <= k < sorted.len() && sorted[k] == rooms[u];
            assert(sorted[k].interior(x, y));
        }
    }
    assert(a =~= b);
}

/// The middle of a room of a dungeon is floor.
pub proof fn lemma_room_middle(rooms: Seq<Rect>, corridors: Seq<(int, int, int, int)>, k: int)
    requires
        0 <= k < rooms.len(),
        BspDungeonBuilder::room_fits(rooms[k]),
    ensures
        dungeon_tiles(rooms, corridors)[tile_index(
            MAPWIDTH as int,
            rooms[k].midpoint().0,
            rooms[k].midpoint().1,
        )] == TileType::Floor,
        on_grid(MAPWIDTH as int, MAPHEIGHT as int, rooms[k].midpoint().0, rooms[k].midpoint().1),
{
    let m = rooms[k].midpoint();
    lemma_tile_index(MAPWIDTH as int, MAPHEIGHT as int, m.0, m.1);
    assert(rooms[k].interior(m.0, m.1));
}

pub struct BspDungeonBuilder {
    map: Grid,
    starting_position: Position,
    depth: i32,
    rooms: Vec<Rect>,
    history: Vec<Grid>,
    rects: Vec<Rect>,
}

impl BspDungeonBuilder {
    /// The rooms built so far.
    pub closed spec fn room_list(&self) -> Seq<Rect> {
        self.rooms@
    }

    pub fn new(new_depth: i32) -> (builder: BspDungeonBuilder)
        ensures
            builder.wf(),
            builder.level().depth == new_depth,
            builder.level() == Grid::solid(new_depth),
            builder.start() == (Position { x: 0, y: 0 }),
            builder.history() == Seq::<GridView>::empty(),
            builder.room_list() == Seq::<Rect>::empty(),
            forall|i: int|
                0 <= i < builder.level().tiles.len() ==> builder.level().tiles[i] == TileType::Wall,
    {
        let builder = BspDungeonBuilder {
            map: Grid::new(new_depth),
            starting_position: Position { x: 0, y: 0 },
            depth: new_depth,
            rooms: Vec::new(),
            history: Vec::new(),
            rects: Vec::new(),
        };
        builder
    }

    /// The rooms of the level, in the order of their left sides.
    pub fn get_rooms(&self) -> (rooms: Vec<Rect>)
        ensures
            rooms@ == self.room_list(),
    {
        let rooms = self.rooms.clone();
        rooms
    }

    /// Adds the four quarters of the box to the boxes to choose from.
    fn add_subrects(rects: &mut Vec<Rect>, rect: Rect)
        requires
            dividable(rect),
            rect.x1 <= 0x800,
            rect.y1 <= 0x800,
            forall|i: int| 0 <= i < old(rects)@.len() ==> dividable(#[trigger] old(rects)@[i]),
        ensures
            final(rects)@ == old(rects)@ + quarters(rect),
            forall|i: int| 0 <= i < final(rects)@.len() ==> #[trigger] dividable(final(rects)@[i]),
    {
        let width: i32 = rect.x2 - rect.x1;
        let height: i32 = rect.y2 - rect.y1;
        let half_width: i32 = if width / 2 > 1 {
            width / 2
        } else {
            1
        };
        let half_height: i32 = if height / 2 > 1 {
            height / 2
        } else {
            1
        };
        rects.push(Rect::new(rect.x1, rect.y1, half_width, half_height));
        rects.push(Rect::new(rect.x1, rect.y1 + half_height, half_width, half_height));
        rects.push(Rect::new(rect.x1 + half_width, rect.y1, half_width, half_height));
        rects.push(
            Rect::new(rect.x1 + half_width, rect.y1 + half_height, half_width, half_height),
        );
    }

    /// One of the boxes, chosen by the dice.
    fn get_random_rect(rects: &Vec<Rect>, rng: &mut RandomNumberGenerator) -> (rect: Rect)
        requires
            1 <= rects@.len() < i32::MAX,
        ensures
            rects@.contains(rect),
    {
        if rects.len() == 1 {
            return rects[0];
        }
        let idx = (roll_die(rng, rects.len() as i32) - 1) as usize;
        rects[idx]
    }

    /// The box for a room in the box `rect`, sized and placed by the dice.
    fn get_random_sub_rect(rect: Rect, rng: &mut RandomNumberGenerator) -> (result: Rect)
        requires
            dividable(rect),
        ensures
            exists|width_roll: int, height_roll: int, x_roll: int, y_roll: int|
                rolls_in_range(rect, width_roll, height_roll, x_roll, y_roll) && result
                    == #[trigger] room_box(rect, width_roll, height_roll, x_roll, y_roll),
            rect.x1 <= result.x1 <= rect.x1 + 5,
            rect.y1 <= result.y1 <= rect.y1 + 5,
            4 <= result.x2 - result.x1 <= 10,
            4 <= result.y2 - result.y1 <= 10,
    {
        let rect_width: i32 = rect.x2 - rect.x1;
        let rect_height: i32 = rect.y2 - rect.y1;
        let width_roll = roll_die(
            rng,
            if rect_width < 10 {
                rect_width
            } else {
                10
            },
        );
        let height_roll = roll_die(
            rng,
            if rect_height < 10 {
                rect_height
            } else {
                10
            },
        );
        let x_roll = roll_die(rng, 6);
        let y_roll = roll_die(rng, 6);
        let result = sub_rect(rect, width_roll, height_roll, x_roll, y_roll);
        assert(rolls_in_range(
            rect,
            width_roll as int,
            height_roll as int,
            x_roll as int,
            y_roll as int,
        ));
        result
    }

    /// Builds the level: tries a fixed number of times to place a room in
    /// one of the boxes that the level was divided into, builds every room
    /// that lies where, with two tiles to spare on every side, nothing was
    /// dug, and divides the box of every room built into its quarters; joins
    /// each room with the next to its right by a corridor between two tiles
    /// that the dice choose, and finishes the level from the middle of the
    /// leftmost room, or from the middle of the level where no room was
    /// placed.
    pub fn build(&mut self, rng: &mut RandomNumberGenerator)
        requires
            old(self).wf(),
        ensures
            final(self).wf(),
            level_complete(final(self).level(), final(self).start()),
            final(self).level().depth == old(self).level().depth,
            final(self).built(old(self)),
            extends(final(self).history(), old(self).history()),
            !SHOW_MAPGEN_VISUALIZER ==> final(self).history() == old(self).history(),
            SHOW_MAPGEN_VISUALIZER ==> final(self).history().len() > old(self).history().len()
                && final(self).history().last() == revealed_copy(final(self).level()),
    {
        self.map = Grid::new(self.depth);
        self.rooms = Vec::new();
        self.rects = Vec::new();
        self.rects.push(Rect::new(2, 2, self.map.width - 5, self.map.height - 5));
        let first_room = self.rects[0];
        BspDungeonBuilder::add_subrects(&mut self.rects, first_room);
        let ghost none: Seq<(int, int, int, int)> = Seq::empty();
        let ghost mut tries: Seq<(int, int, int, int, int)> = Seq::empty();
        assert(self.map.tiles@ =~= dungeon_tiles(self.rooms@, none));
        assert(first_room == root_box());
        assert(self.rects@ =~= seq![root_box()] + quarters(root_box()));
        assert(self.rooms@ =~= Seq::<Rect>::empty());

        let mut n_rooms: u32 = 0;
        while n_rooms < ROOM_ATTEMPTS
            invariant
                self.wf(),
                self.depth == old(self).depth,
                n_rooms <= ROOM_ATTEMPTS,
                none.len() == 0,
                self.rooms@.len() <= n_rooms,
                1 <= self.rects@.len() <= 5 + 4 * n_rooms,
                forall|i: int| 0 <= i < self.rects@.len() ==> #[trigger] dividable(self.rects@[i]),
                self.map.tiles@ == dungeon_tiles(self.rooms@, none),
                built_in_turn(self.rooms@),
                tries.len() == n_rooms,
                forall|n: int| 0 <= n < tries.len() ==> #[trigger] try_in_range(tries, n),
                rooms_tried(tries, n_rooms as int) == (self.rects@, self.rooms@),
                forall|i: int|
                    0 <= i < self.rooms@.len() ==> BspDungeonBuilder::room_fits(
                        #[trigger] self.rooms@[i],
                    ),
                extends(self.history(), old(self).history()),
                !SHOW_MAPGEN_VISUALIZER ==> self.history() == old(self).history(),
            decreases ROOM_ATTEMPTS - n_rooms,
        {
            let rect = BspDungeonBuilder::get_random_rect(&self.rects, rng);
            let candidate = BspDungeonBuilder::get_random_sub_rect(rect, rng);
            let ghost boxes = self.rects@;
            let ghost rooms = self.rooms@;
            proof {
                let pick = choose|pick: int| 0 <= pick < boxes.len() && boxes[pick] == rect;
                let (width_roll, height_roll, x_roll, y_roll) = choose|
                    width_roll: int,
                    height_roll: int,
                    x_roll: int,
                    y_roll: int,
                |
                    rolls_in_range(rect, width_roll, height_roll, x_roll, y_roll) && candidate
                        == #[trigger] room_box(rect, width_roll, height_roll, x_roll, y_roll);
                let next = (pick, width_roll, height_roll, x_roll, y_roll);
                let longer = tries.push(next);
                assert forall|n: int| 0 <= n < longer.len() implies #[trigger] try_in_range(
                    longer,
                    n,
                ) by {
                    lemma_rooms_tried_prefix(tries, next, n);
                    if n < tries.len() {
                        assert(try_in_range(tries, n));
                        assert(longer[n] == tries[n]);
                    }
                }
                lemma_rooms_tried_prefix(tries, next, n_rooms as int);
                assert(none =~= Seq::empty());
                assert(rooms_tried(longer, n_rooms + 1) == if room_possible(
                    dungeon_tiles(rooms, Seq::empty()),
                    MAPWIDTH as int,
                    MAPHEIGHT as int,
                    candidate,
                ) {
                    (boxes + quarters(rect), rooms.push(candidate))
                } else {
                    (boxes, rooms)
                });
                tries = longer;
            }
            if is_possible(&self.map, candidate) {
                proof {
                    let prior = self.map.tiles@;
                    assert(prior[tile_index(
                        MAPWIDTH as int,
                        candidate.x1 - 2,
                        candidate.y1 - 2,
                    )] == TileType::Wall);
                    assert(prior[tile_index(
                        MAPWIDTH as int,
                        candidate.x2 + 2,
                        candidate.y2 + 2,
                    )] == TileType::Wall);
                    lemma_room_added(self.rooms@, none, candidate);
                    let longer = self.rooms@.push(candidate);
                    assert forall|k: int| 0 <= k < longer.len() implies room_possible(
                        dungeon_tiles(#[trigger] longer.subrange(0, k), Seq::empty()),
                        MAPWIDTH as int,
                        MAPHEIGHT as int,
                        longer[k],
                    ) by {
                        if k < self.rooms@.len() {
                            assert(longer.subrange(0, k) =~= self.rooms@.subrange(0, k));
                        } else {
                            assert(longer.subrange(0, k) =~= self.rooms@);
                            assert(none =~= Seq::empty());
                        }
                    }
                }
                apply_room_to_map(&mut self.map, &candidate);
                self.rooms.push(candidate);
                BspDungeonBuilder::add_subrects(&mut self.rects, rect);
                record_snapshot(&mut self.history, &self.map);
            }
            n_rooms = n_rooms + 1;
        }

        let ghost unsorted = self.rooms@;
        self.rooms = sort_rooms(&self.rooms);
        proof {
            lemma_sorted_by_left(unsorted);
            lemma_rooms_sorted(unsorted, none);
            assert forall|i: int| 0 <= i < self.rooms@.len() implies BspDungeonBuilder::room_fits(
                #[trigger] self.rooms@[i],
            ) by {
                lemma_sorted_rooms_known(unsorted, i);
                let k = choose|k: int| 0 <= k < unsorted.len() && unsorted[k] == self.rooms@[i];
                assert(BspDungeonBuilder::room_fits(unsorted[k]));
            }
        }

        let ghost mut corridors: Seq<(int, int, int, int)> = none;
        let mut i: usize = 0;
        while self.rooms.len() > 0 && i < self.rooms.len() - 1
            invariant
                self.wf(),
                self.depth == old(self).depth,
                self.rooms@.len() <= ROOM_ATTEMPTS,
                ordered_by_left(self.rooms@),
                self.rooms@.len() > 0 ==> i <= self.rooms@.len() - 1,
                self.rooms@.len() == 0 ==> i == 0,
                corridors_join(self.rooms@, corridors, i as int),
                self.map.tiles@ == dungeon_tiles(self.rooms@, corridors),
                built_in_turn(unsorted),
                built_by_tries(tries, unsorted),
                forall|k: int|
                    0 <= k < unsorted.len() ==> BspDungeonBuilder::room_fits(#[trigger] unsorted[k]),
                self.rooms@ == sorted_by_left(unsorted),
                forall|k: int|
                    0 <= k < self.rooms@.len() ==> BspDungeonBuilder::room_fits(
                        #[trigger] self.rooms@[k],
                    ),
                extends(self.history(), old(self).history()),
                !SHOW_MAPGEN_VISUALIZER ==> self.history() == old(self).history(),
            decreases self.rooms@.len() - i,
        {
            let room = self.rooms[i];
            let next_room = self.rooms[i + 1];
            let start_x = room.x1 + (roll_die(rng, room.x2 - room.x1) - 1);
            let start_y = room.y1 + (roll_die(rng, room.y2 - room.y1) - 1);
            let end_x = next_room.x1 + (roll_die(rng, next_room.x2 - next_room.x1) - 1);
            let end_y = next_room.y1 + (roll_die(rng, next_room.y2 - next_room.y1) - 1);
            draw_corridor(&mut self.map, start_x, start_y, end_x, end_y);
            proof {
                let corridor = (start_x as int, start_y as int, end_x as int, end_y as int);
                lemma_corridor_added(self.rooms@, corridors, corridor);
                let longer = corridors.push(corridor);
                assert forall|c: int| 0 <= c < i + 1 implies c + 1 < self.rooms@.len() && in_box(
                    self.rooms@[c],
                    (#[trigger] longer[c]).0,
                    longer[c].1,
                ) && in_box(self.rooms@[c + 1], longer[c].2, longer[c].3) by {
                    if c < i {
                        assert(longer[c] == corridors[c]);
                    }
                }
                corridors = longer;
            }
            record_snapshot(&mut self.history, &self.map);
            i = i + 1;
        }

        if self.rooms.len() > 0 {
            let start = self.rooms[0].center();
            self.starting_position = Position { x: start.0, y: start.1 };
            proof {
                lemma_room_middle(self.rooms@, corridors, 0);
            }
        } else {
            self.starting_position = Position { x: self.map.width / 2, y: self.map.height / 2 };
            let idx = self.map.xy_idx(self.starting_position.x, self.starting_position.y);
            self.map.set_tile(idx, TileType::Floor);
        }
        finish_level(&mut self.map, &mut self.history, self.starting_position);
        proof {
            assert(dungeon_built(tries, unsorted, corridors, self.room_list()));
            assert(finished_from(
                dungeon_raw(self.room_list(), corridors),
                tile_index(MAPWIDTH as int, self.start().x as int, self.start().y as int),
                self.level().tiles,
            ));
        }
    }

    /// The room is at least four tiles wide and high and lies, with two
    /// tiles to spare on every side, inside the rim of a level of the
    /// standard size.
    pub open spec fn room_fits(room: Rect) -> bool {
        &&& 3 <= room.x1 && room.x2 + 2 <= MAPWIDTH - 2
        &&& 3 <= room.y1 && room.y2 + 2 <= MAPHEIGHT - 2
        &&& 4 <= room.x2 - room.x1
        &&& 4 <= room.y2 - room.y1
    }
}

impl MapBuilder for BspDungeonBuilder {
    closed spec fn wf(&self) -> bool {
        &&& self.map.wf()
        &&& self.map.width == MAPWIDTH
        &&& self.map.height == MAPHEIGHT
        &&& self.map.depth == self.depth
        &&& forall|i: int| 0 <= i < self.history@.len() ==> (#[trigger] self.history@[i]).wf()
    }

    closed spec fn level(&self) -> GridView {
        self.map@
    }

    closed spec fn start(&self) -> Position {
        self.starting_position
    }

    closed spec fn history(&self) -> Seq<GridView> {
        history_view(self.history@)
    }

    open spec fn spawn_areas(&self, areas: Seq<Seq<usize>>) -> bool {
        areas == room_areas(self.level(), self.room_list())
    }

    open spec fn built(&self, before: &BspDungeonBuilder) -> bool {
        &&& ordered_by_left(self.room_list())
        &&& self.room_list().len() <= ROOM_ATTEMPTS
        &&& forall|i: int|
            0 <= i < self.room_list().len() ==> BspDungeonBuilder::room_fits(
                #[trigger] self.room_list()[i],
            )
        &&& self.room_list().len() > 0 ==> (self.start().x as int, self.start().y as int)
            == self.room_list()[0].midpoint()
        &&& self.room_list().len() == 0 ==> self.start() == (Position { x: 40, y: 21 })
        &&& exists|
            tries: Seq<(int, int, int, int, int)>,
            built: Seq<Rect>,
            corridors: Seq<(int, int, int, int)>,
        |
            {
                &&& #[trigger] dungeon_built(tries, built, corridors, self.room_list())
                &&& finished_from(
                    dungeon_raw(self.room_list(), corridors),
                    tile_index(MAPWIDTH as int, self.start().x as int, self.start().y as int),
                    self.level().tiles,
                )
            }
    }

    fn build_map(&mut self, rng: &mut RandomNumberGenerator) {
        self.build(rng);
    }

    fn get_map(&self) -> (map: Grid) {
        self.map.clone()
    }

    fn get_starting_position(&self) -> (start: Position) {
        self.starting_position
    }

    fn get_snapshot_history(&self) -> (history: Vec<Grid>) {
        clone_history(&self.history)
    }

    fn take_snapshot(&mut self) {
        record_snapshot(&mut self.history, &self.map);
    }

    fn spawn_entities(&self, rng: &mut RandomNumberGenerator) -> (spawns: Vec<(usize, String)>) {
        let mut spawns: Vec<(usize, String)> = Vec::new();
        let ghost areas = room_areas(self.map@, self.rooms@);
        let ghost mut parts: Seq<Seq<(usize, String)>> = Seq::empty();
        let mut i: usize = 1;
        while i < self.rooms.len()
            invariant
                self.wf(),
                -DEPTH_LIMIT <= self.depth <= DEPTH_LIMIT,
                1 <= i,
                forall|k: int|
                    0 <= k < spawns@.len() ==> spawn_on_floor(self.map@, #[trigger] spawns@[k]),
                areas == room_areas(self.map@, self.rooms@),
                parts.len() == i - 1,
                parts.len() <= areas.len(),
                forall|k: int|
                    0 <= k < parts.len() ==> region_spawns(
                        areas[k],
                        self.depth as int,
                        #[trigger] parts[k],
                    ),
                spawns@ == parts.flatten(),
            decreases self.rooms@.len() - i,
        {
            assert(self.map.tiles@.len() == MAPWIDTH * MAPHEIGHT);
            let mut more = spawn_room(&self.map, &self.rooms[i], self.depth, rng);
            proof {
                let added = more@;
                lemma_flatten_push(parts, added);
                parts = parts.push(added);
                let floor = room_floor(
                    self.map.tiles@,
                    self.map.width as int,
                    self.rooms@[i as int],
                    self.map.tiles@.len() as int,
                );
                lemma_room_floor(
                    self.map.tiles@,
                    self.map.width as int,
                    self.rooms@[i as int],
                    self.map.tiles@.len() as int,
                );
                assert forall|k: int| 0 <= k < added.len() implies spawn_on_floor(
                    self.map@,
                    #[trigger] added[k],
                ) by {
                    assert(floor.contains(added[k].0));
                    let t = choose|t: int| 0 <= t < floor.len() && floor[t] == added[k].0;
                    assert(floor[t] < self.map.tiles@.len());
                }
            }
            spawns.append(&mut more);
            i = i + 1;
        }
        proof {
            assert(parts_of_areas(areas, self.depth as int, parts));
            assert(self.spawn_areas(areas));
            assert(spawned_in_turn(areas, self.depth as int, spawns@));
        }
        spawns
    }
}

} // verus!
