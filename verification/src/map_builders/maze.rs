//! Mazes dug by a walk that goes on to a cell not seen before while it can
//! and goes back while it cannot.

use crate::dice::roll_die;
use crate::map::{
    lemma_index_tile, lemma_tile_index, tile_index, Grid, GridView, Position, TileType, MAPHEIGHT,
    MAPWIDTH,
};
use crate::map_builders::common::{generate_voronoi_spawn_regions, is_partition, regions_fit};
use crate::map_builders::{
    clone_history, extends, finish_level, finished_from, history_view, level_complete,
    record_snapshot, recorded, revealed_copy, MapBuilder, SHOW_MAPGEN_VISUALIZER,
};
use crate::spawner::{regions_in_turn, spawn_in_level};
use rltk::RandomNumberGenerator;
use std::collections::HashMap;
use vstd::array::*;
use vstd::prelude::*;

verus! {

pub const TOP: usize = 0;

pub const RIGHT: usize = 1;

pub const BOTTOM: usize = 2;

pub const LEFT: usize = 3;

/// The maze of a level of the standard size has this many columns of cells.
pub const MAZE_WIDTH: i32 = 38;

/// The maze of a level of the standard size has this many rows of cells.
pub const MAZE_HEIGHT: i32 = 19;

/// A cell of the maze: where it lies, which of its four walls stand, and
/// whether the walk has been there.
#[derive(Copy, Clone, Debug)]
pub struct Cell {
    pub row: i32,
    pub column: i32,
    pub walls: [bool; 4],
    pub visited: bool,
}

impl Cell {
    /// A cell with all its walls, not seen yet.
    pub fn new(row: i32, column: i32) -> (cell: Cell)
        ensures
            cell.row == row,
            cell.column == column,
            !cell.visited,
            forall|k: int| 0 <= k < 4 ==> cell.walls@[k],
    {
        Cell { row, column, walls: [true, true, true, true], visited: false }
    }

    /// Takes down the wall between this cell and the cell `next` beside it,
    /// on both sides. Two cells that do not lie side by side in a row or a
    /// column are left as they are.
    pub fn remove_walls(&mut self, next: &mut Cell)
        requires
            -0x4000_0000 < old(self).column < 0x4000_0000,
            -0x4000_0000 < old(next).column < 0x4000_0000,
            -0x4000_0000 < old(self).row < 0x4000_0000,
            -0x4000_0000 < old(next).row < 0x4000_0000,
        ensures
            final(self).row == old(self).row,
            final(self).column == old(self).column,
            final(self).visited == old(self).visited,
            final(next).row == old(next).row,
            final(next).column == old(next).column,
            final(next).visited == old(next).visited,
            final(self).walls@ == match wall_between(*old(self), *old(next)) {
                Some(k) => old(self).walls@.update(k, false),
                None => old(self).walls@,
            },
            final(next).walls@ == match wall_between(*old(next), *old(self)) {
                Some(k) => old(next).walls@.update(k, false),
                None => old(next).walls@,
            },
    {
        let x = self.column - next.column;
        let y = self.row - next.row;
        if x == 1 {
            self.walls[LEFT] = false;
            next.walls[RIGHT] = false;
        } else if x == -1 {
            self.walls[RIGHT] = false;
            next.walls[LEFT] = false;
        } else if y == 1 {
            self.walls[TOP] = false;
            next.walls[BOTTOM] = false;
        } else if y == -1 {
            self.walls[BOTTOM] = false;
            next.walls[TOP] = false;
        }
    }
}

/// The wall of the cell `a` that faces the cell `b`, going by their columns
/// first and their rows second; none where they differ by one in neither.
pub open spec fn wall_between(a: Cell, b: Cell) -> Option<int> {
    if a.column - b.column == 1 {
        Some(LEFT as int)
    } else if a.column - b.column == -1 {
        Some(RIGHT as int)
    } else if a.row - b.row == 1 {
        Some(TOP as int)
    } else if a.row - b.row == -1 {
        Some(BOTTOM as int)
    } else {
        None
    }
}

/// The index of the cell in the given row and column of a maze of the given
/// size, or -1 where the maze has no such cell.
pub open spec fn cell_index(width: int, height: int, row: int, column: int) -> int {
    if row < 0 || column < 0 || column > width - 1 || row > height - 1 {
        -1
    } else {
        column + row * width
    }
}

/// The index of the neighbour of the cell `a` across its wall `k`, or -1
/// where the maze ends there.
pub open spec fn cell_neighbour(width: int, height: int, a: int, k: int) -> int {
    let row = a / width;
    let column = a % width;
    if k == TOP {
        cell_index(width, height, row - 1, column)
    } else if k == RIGHT {
        cell_index(width, height, row, column + 1)
    } else if k == BOTTOM {
        cell_index(width, height, row + 1, column)
    } else {
        cell_index(width, height, row, column - 1)
    }
}

/// The cells are those of a maze of the given size, each knowing where it
/// lies.
pub open spec fn cells_wf(cells: Seq<Cell>, width: int, height: int) -> bool {
    &&& 0 < width <= 0x1000
    &&& 0 < height <= 0x1000
    &&& cells.len() == width * height
    &&& forall|i: int|
        0 <= i < cells.len() ==> (#[trigger] cells[i]).row == i / width && cells[i].column == i
            % width
}

/// The neighbours of the cell `current` across its first `k` walls that the
/// walk has not seen, in the order of the walls.
pub open spec fn unseen_neighbours(
    cells: Seq<Cell>,
    width: int,
    height: int,
    current: int,
    k: int,
) -> Seq<usize>
    decreases k,
{
    if k <= 0 {
        Seq::empty()
    } else {
        let rest = unseen_neighbours(cells, width, height, current, k - 1);
        let at = cell_neighbour(width, height, current, k - 1);
        if at != -1 && !cells[at].visited {
            rest.push(at as usize)
        } else {
            rest
        }
    }
}

/// How many of the first `n` cells the walk has not seen.
pub open spec fn unseen_count(cells: Seq<Cell>, n: int) -> int
    decreases n,
{
    if n <= 0 {
        0
    } else {
        unseen_count(cells, n - 1) + if cells[n - 1].visited {
            0int
        } else {
            1int
        }
    }
}

/// The cell `a` waits on the way back.
pub open spec fn on_way_back(backtrace: Seq<usize>, a: int) -> bool {
    exists|t: int| 0 <= t < backtrace.len() && #[trigger] backtrace[t] == a
}

/// Every cell that the walk has seen and left for good has no neighbour that
/// the walk has not seen.
pub open spec fn walk_closed(
    cells: Seq<Cell>,
    width: int,
    height: int,
    backtrace: Seq<usize>,
    current: int,
) -> bool {
    forall|a: int, k: int|
        0 <= a < cells.len() && 0 <= k < 4 && cells[a].visited && a != current && !on_way_back(
            backtrace,
            a,
        ) && #[trigger] cell_neighbour(width, height, a, k) != -1 ==> cells[cell_neighbour(
            width,
            height,
            a,
            k,
        )].visited
}

/// The step in rows across the wall `k`.
pub open spec fn row_step(k: int) -> int {
    if k == TOP {
        -1
    } else if k == BOTTOM {
        1
    } else {
        0
    }
}

/// The step in columns across the wall `k`.
pub open spec fn column_step(k: int) -> int {
    if k == RIGHT {
        1
    } else if k == LEFT {
        -1
    } else {
        0
    }
}

/// The walls of the maze are sound: a wall between two cells stands on both
/// sides or on neither, and the walls around the maze stand.
pub open spec fn walls_sound(cells: Seq<Cell>, width: int, height: int) -> bool {
    forall|a: int, k: int|
        0 <= a < cells.len() && 0 <= k < 4 ==> if #[trigger] cell_neighbour(width, height, a, k)
            == -1 {
            cells[a].walls@[k]
        } else {
            cells[a].walls@[k] == cells[cell_neighbour(width, height, a, k)].walls@[(k + 2) % 4]
        }
}

/// The cells `a` and `b` lie side by side and the wall between them is down.
pub open spec fn open_between(cells: Seq<Cell>, width: int, height: int, a: int, b: int) -> bool {
    &&& 0 <= a < cells.len()
    &&& b != -1
    &&& exists|k: int|
        0 <= k < 4 && #[trigger] cell_neighbour(width, height, a, k) == b && !cells[a].walls@[k]
}

/// `p` is a way through the maze from its first cell: from each of its cells
/// to the next the wall is down.
pub open spec fn is_passage(cells: Seq<Cell>, width: int, height: int, p: Seq<int>) -> bool {
    &&& p.len() >= 1
    &&& p[0] == 0
    &&& forall|t: int|
        #![trigger p[t]]
        1 <= t < p.len() ==> open_between(cells, width, height, p[t - 1], p[t])
}

/// A way through the maze leads from its first cell to the cell `a`.
pub open spec fn linked(cells: Seq<Cell>, width: int, height: int, a: int) -> bool {
    exists|p: Seq<int>| #[trigger] is_passage(cells, width, height, p) && p.last() == a
}

/// The maze is sound: its cells know where they lie, its walls are sound,
/// and a way leads from the first cell to every cell that the walk has seen.
pub open spec fn maze_sound(cells: Seq<Cell>, width: int, height: int) -> bool {
    &&& cells_wf(cells, width, height)
    &&& walls_sound(cells, width, height)
    &&& forall|a: int|
        0 <= a < cells.len() && (#[trigger] cells[a]).visited ==> linked(cells, width, height, a)
}

/// The cells after the walk has gone on from `current` across its wall `k`
/// to `next`: the wall between the two is down on both sides, `next` has
/// been seen, and nothing else has changed.
pub open spec fn is_step(
    before: Seq<Cell>,
    after: Seq<Cell>,
    current: int,
    next: int,
    k: int,
) -> bool {
    &&& after.len() == before.len()
    &&& forall|a: int|
        0 <= a < before.len() && a != current && a != next ==> #[trigger] after[a] == before[a]
    &&& after[current].row == before[current].row
    &&& after[current].column == before[current].column
    &&& after[current].visited == before[current].visited
    &&& after[current].walls@ == before[current].walls@.update(k, false)
    &&& after[next].row == before[next].row
    &&& after[next].column == before[next].column
    &&& after[next].visited
    &&& after[next].walls@ == before[next].walls@.update((k + 2) % 4, false)
}

/// A way through the maze stays one when walls are taken down.
pub proof fn lemma_passage_kept(
    before: Seq<Cell>,
    after: Seq<Cell>,
    width: int,
    height: int,
    p: Seq<int>,
)
    requires
        is_passage(before, width, height, p),
        after.len() == before.len(),
        forall|a: int, k: int|
            0 <= a < before.len() && 0 <= k < 4 && !(#[trigger] before[a].walls@[k])
                ==> !after[a].walls@[k],
    ensures
        is_passage(after, width, height, p),
{
    assert forall|t: int| #![trigger p[t]] 1 <= t < p.len() implies open_between(
        after,
        width,
        height,
        p[t - 1],
        p[t],
    ) by {
        let k = choose|k: int|
            0 <= k < 4 && #[trigger] cell_neighbour(width, height, p[t - 1], k) == p[t]
                && !before[p[t - 1]].walls@[k];
        assert(!before[p[t - 1]].walls@[k]);
    }
}

/// The maze stays sound when the walk sees the first cell, or sees again a
/// cell that it has seen.
pub proof fn lemma_maze_visit(
    before: Seq<Cell>,
    after: Seq<Cell>,
    width: int,
    height: int,
    a: int,
)
    requires
        maze_sound(before, width, height),
        0 <= a < before.len(),
        a == 0 || before[a].visited,
        after.len() == before.len(),
        forall|b: int| 0 <= b < before.len() && b != a ==> #[trigger] after[b] == before[b],
        after[a].row == before[a].row,
        after[a].column == before[a].column,
        after[a].walls@ == before[a].walls@,
    ensures
        maze_sound(after, width, height),
{
    assert forall|b: int, k: int| 0 <= b < after.len() && 0 <= k < 4 implies if #[trigger] cell_neighbour(
        width,
        height,
        b,
        k,
    ) == -1 {
        after[b].walls@[k]
    } else {
        after[b].walls@[k] == after[cell_neighbour(width, height, b, k)].walls@[(k + 2) % 4]
    } by {
        lemma_cell_neighbour(width, height, b, k);
        let c = cell_neighbour(width, height, b, k);
    }
    assert forall|b: int| 0 <= b < after.len() && (#[trigger] after[b]).visited implies linked(
        after,
        width,
        height,
        b,
    ) by {
        if b == a && !before[a].visited {
            let p = seq![0int];
            assert(is_passage(after, width, height, p));
        } else {
            let p = choose|p: Seq<int>| #[trigger]
                is_passage(before, width, height, p) && p.last() == b;
            assert forall|c: int, k: int|
                0 <= c < before.len() && 0 <= k < 4 && !(#[trigger] before[c].walls@[k])
                    implies !after[c].walls@[k] by {}
            lemma_passage_kept(before, after, width, height, p);
        }
    }
}

/// The walls stay sound when the walk goes on to a neighbour.
proof fn lemma_step_walls(
    before: Seq<Cell>,
    after: Seq<Cell>,
    width: int,
    height: int,
    current: int,
    next: int,
    k: int,
)
    requires
        cells_wf(before, width, height),
        walls_sound(before, width, height),
        0 <= current < before.len(),
        0 <= k < 4,
        next == cell_neighbour(width, height, current, k),
        next != -1,
        is_step(before, after, current, next, k),
    ensures
        cells_wf(after, width, height),
        walls_sound(after, width, height),
{
    lemma_cell_neighbour(width, height, current, k);
    assert forall|i: int| 0 <= i < after.len() implies (#[trigger] after[i]).row == i / width
        && after[i].column == i % width by {}
    assert forall|b: int, j: int| 0 <= b < after.len() && 0 <= j < 4 implies if #[trigger] cell_neighbour(
        width,
        height,
        b,
        j,
    ) == -1 {
        after[b].walls@[j]
    } else {
        after[b].walls@[j] == after[cell_neighbour(width, height, b, j)].walls@[(j + 2) % 4]
    } by {
        lemma_step_wall(before, after, width, height, current, next, k, b, j);
    }
}

/// One wall stays sound when the walk goes on to a neighbour.
proof fn lemma_step_wall(
    before: Seq<Cell>,
    after: Seq<Cell>,
    width: int,
    height: int,
    current: int,
    next: int,
    k: int,
    b: int,
    j: int,
)
    requires
        cells_wf(before, width, height),
        walls_sound(before, width, height),
        0 <= current < before.len(),
        0 <= k < 4,
        next == cell_neighbour(width, height, current, k),
        next != -1,
        is_step(before, after, current, next, k),
        0 <= b < before.len(),
        0 <= j < 4,
    ensures
        if cell_neighbour(width, height, b, j) == -1 {
            after[b].walls@[j]
        } else {
            after[b].walls@[j] == after[cell_neighbour(width, height, b, j)].walls@[(j + 2) % 4]
        },
{
    lemma_cell_neighbour(width, height, current, k);
    lemma_cell_neighbour(width, height, b, j);
    let c = cell_neighbour(width, height, b, j);
    let back = (j + 2) % 4;
    assert(if c == -1 {
        before[b].walls@[j]
    } else {
        before[b].walls@[j] == before[c].walls@[back]
    });
    if c != -1 {
        lemma_cell_neighbour(width, height, c, back);
    }
}

/// Every cell that the walk has seen stays linked when the walk goes on to
/// a neighbour, and the neighbour is linked.
proof fn lemma_step_links(
    before: Seq<Cell>,
    after: Seq<Cell>,
    width: int,
    height: int,
    current: int,
    next: int,
    k: int,
)
    requires
        maze_sound(before, width, height),
        0 <= current < before.len(),
        before[current].visited,
        0 <= k < 4,
        next == cell_neighbour(width, height, current, k),
        next != -1,
        is_step(before, after, current, next, k),
    ensures
        forall|a: int|
            0 <= a < after.len() && (#[trigger] after[a]).visited ==> linked(
                after,
                width,
                height,
                a,
            ),
{
    lemma_cell_neighbour(width, height, current, k);
    assert forall|c: int, j: int|
        0 <= c < before.len() && 0 <= j < 4 && !(#[trigger] before[c].walls@[j])
            implies !after[c].walls@[j] by {}
    let way = choose|p: Seq<int>| #[trigger]
        is_passage(before, width, height, p) && p.last() == current;
    lemma_passage_kept(before, after, width, height, way);
    let longer = way.push(next);
    assert(is_passage(after, width, height, longer)) by {
        assert forall|t: int| #![trigger longer[t]] 1 <= t < longer.len() implies open_between(
            after,
            width,
            height,
            longer[t - 1],
            longer[t],
        ) by {
            if t >= way.len() {
                assert(cell_neighbour(width, height, current, k) == next
                    && !after[current].walls@[k]);
            }
        }
    }
    assert forall|b: int| 0 <= b < after.len() && (#[trigger] after[b]).visited implies linked(
        after,
        width,
        height,
        b,
    ) by {
        if b != next {
            let p = choose|p: Seq<int>| #[trigger]
                is_passage(before, width, height, p) && p.last() == b;
            lemma_passage_kept(before, after, width, height, p);
        }
    }
}

/// The maze stays sound when the walk goes on from a cell that it has seen
/// to a neighbour of the cell.
pub proof fn lemma_maze_step(
    before: Seq<Cell>,
    after: Seq<Cell>,
    width: int,
    height: int,
    current: int,
    next: int,
    k: int,
)
    requires
        maze_sound(before, width, height),
        0 <= current < before.len(),
        before[current].visited,
        0 <= k < 4,
        next == cell_neighbour(width, height, current, k),
        next != -1,
        is_step(before, after, current, next, k),
    ensures
        maze_sound(after, width, height),
{
    lemma_step_walls(before, after, width, height, current, next, k);
    lemma_step_links(before, after, width, height, current, next, k);
}

/// An unseen neighbour of a cell lies across one of its walls.
pub proof fn lemma_unseen_is_neighbour(
    cells: Seq<Cell>,
    width: int,
    height: int,
    current: int,
    k: int,
    at: usize,
) -> (j: int)
    requires
        cells_wf(cells, width, height),
        0 <= current < cells.len(),
        0 <= k <= 4,
        unseen_neighbours(cells, width, height, current, k).contains(at),
    ensures
        0 <= j < k,
        cell_neighbour(width, height, current, j) == at,
    decreases k,
{
    let all = unseen_neighbours(cells, width, height, current, k);
    if k <= 0 {
        0
    } else {
        let rest = unseen_neighbours(cells, width, height, current, k - 1);
        let t = choose|t: int| 0 <= t < all.len() && all[t] == at;
        lemma_cell_neighbour(width, height, current, k - 1);
        assert(width * height <= 0x100_0000) by (nonlinear_arith)
            requires
                0 < width <= 0x1000,
                0 < height <= 0x1000,
        ;
        if t < rest.len() {
            lemma_unseen_is_neighbour(cells, width, height, current, k - 1, at)
        } else {
            k - 1
        }
    }
}

/// The tile of the level that stands for the cell with the index `i`: the
/// cells take every second column and row, from the third on.
pub open spec fn cell_tile(width: int, map_width: int, i: int) -> int {
    tile_index(map_width, (i % width + 1) * 2, (i / width + 1) * 2)
}

/// A maze of the given size fits a level of the given size: the tiles of
/// its cells, and the tiles beside them, lie on the level.
pub open spec fn maze_fits(width: int, height: int, map_width: int, map_height: int) -> bool {
    2 * width + 2 <= map_width && 2 * height + 2 <= map_height
}

/// The tile with the index `t` is dug for the cell with the index `i`: it is
/// the tile of the cell, or the tile beside it across a wall that is down.
pub open spec fn dug_for_cell(cells: Seq<Cell>, width: int, map_width: int, i: int, t: int) -> bool {
    let at = cell_tile(width, map_width, i);
    ||| t == at
    ||| (!cells[i].walls@[TOP as int] && t == at - map_width)
    ||| (!cells[i].walls@[RIGHT as int] && t == at + 1)
    ||| (!cells[i].walls@[BOTTOM as int] && t == at + map_width)
    ||| (!cells[i].walls@[LEFT as int] && t == at - 1)
}

/// The tile with the index `t` is dug for one of the first `n` cells.
pub open spec fn dug_for_maze(cells: Seq<Cell>, width: int, map_width: int, n: int, t: int) -> bool {
    exists|i: int| 0 <= i < n && #[trigger] dug_for_cell(cells, width, map_width, i, t)
}

/// The tiles of the level that shows the maze: floor where a tile is dug for
/// a cell, wall everywhere else.
pub open spec fn maze_tiles(cells: Seq<Cell>, width: int, map_width: int, count: nat) -> Seq<
    TileType,
> {
    Seq::new(
        count,
        |t: int|
            if dug_for_maze(cells, width, map_width, cells.len() as int, t) {
                TileType::Floor
            } else {
                TileType::Wall
            },
    )
}

/// How many of the four walls of the cell are down.
pub open spec fn walls_down(cell: Cell) -> int {
    (if cell.walls@[TOP as int] {
        0int
    } else {
        1int
    }) + (if cell.walls@[RIGHT as int] {
        0int
    } else {
        1int
    }) + (if cell.walls@[BOTTOM as int] {
        0int
    } else {
        1int
    }) + (if cell.walls@[LEFT as int] {
        0int
    } else {
        1int
    })
}

/// How many walls of the first `n` cells are down, each wall counted for
/// the cell whose wall it is: a wall that is down between two cells counts
/// twice.
pub open spec fn walls_down_upto(cells: Seq<Cell>, n: int) -> int
    decreases n,
{
    if n <= 0 {
        0
    } else {
        walls_down_upto(cells, n - 1) + walls_down(cells[n - 1])
    }
}

/// What the walk has dug so far is a tree: every cell that it has not seen
/// has all its walls, and for every cell that it has seen but the first one
/// wall is down, on both of its sides.
#[verifier::opaque]
pub open spec fn tree_so_far(cells: Seq<Cell>) -> bool {
    &&& forall|a: int, k: int|
        0 <= a < cells.len() && 0 <= k < 4 && !cells[a].visited ==> #[trigger] cells[a].walls@[k]
    &&& walls_down_upto(cells, cells.len() as int) + 2 * unseen_count(cells, cells.len() as int)
        == 2 * cells.len() - if cells.len() > 0 && cells[0].visited {
        2int
    } else {
        0int
    }
}

/// Changing one cell changes the count of the walls that are down by what
/// the cell gains or loses.
proof fn lemma_walls_down_update(cells: Seq<Cell>, at: int, cell: Cell, n: int)
    requires
        0 <= at < cells.len(),
        0 <= n <= cells.len(),
    ensures
        walls_down_upto(cells.update(at, cell), n) == walls_down_upto(cells, n) + if at < n {
            walls_down(cell) - walls_down(cells[at])
        } else {
            0int
        },
    decreases n,
{
    if n > 0 {
        lemma_walls_down_update(cells, at, cell, n - 1);
    }
}

/// A maze in which every wall stands and nothing was seen is a tree so far.
proof fn lemma_tree_begins(cells: Seq<Cell>)
    requires
        forall|i: int|
            0 <= i < cells.len() ==> !(#[trigger] cells[i]).visited && forall|k: int|
                0 <= k < 4 ==> cells[i].walls@[k],
    ensures
        tree_so_far(cells),
{
    reveal(tree_so_far);
    lemma_fresh_counts(cells, cells.len() as int);
}

/// Where every wall stands and nothing was seen, no wall is down and every
/// cell is unseen.
proof fn lemma_fresh_counts(cells: Seq<Cell>, n: int)
    requires
        0 <= n <= cells.len(),
        forall|i: int|
            0 <= i < cells.len() ==> !(#[trigger] cells[i]).visited && forall|k: int|
                0 <= k < 4 ==> cells[i].walls@[k],
    ensures
        walls_down_upto(cells, n) == 0,
        unseen_count(cells, n) == n,
    decreases n,
{
    if n > 0 {
        lemma_fresh_counts(cells, n - 1);
        assert(!cells[n - 1].visited);
    }
}

/// Where every cell was seen, none is unseen.
proof fn lemma_all_seen(cells: Seq<Cell>, n: int)
    requires
        0 <= n <= cells.len(),
        forall|i: int| 0 <= i < cells.len() ==> (#[trigger] cells[i]).visited,
    ensures
        unseen_count(cells, n) == 0,
    decreases n,
{
    if n > 0 {
        lemma_all_seen(cells, n - 1);
        assert(cells[n - 1].visited);
    }
}

/// A tree that holds every cell has one wall down for every cell but the
/// first, on both of its sides.
pub proof fn lemma_tree_complete(cells: Seq<Cell>)
    requires
        tree_so_far(cells),
        cells.len() > 0,
        forall|i: int| 0 <= i < cells.len() ==> (#[trigger] cells[i]).visited,
    ensures
        walls_down_upto(cells, cells.len() as int) == 2 * (cells.len() - 1),
{
    reveal(tree_so_far);
    lemma_all_seen(cells, cells.len() as int);
    assert(cells[0].visited);
}

/// Marking the cell on which the walk stands as seen keeps the tree.
proof fn lemma_tree_visit(before: Seq<Cell>, after: Seq<Cell>, a: int)
    requires
        tree_so_far(before),
        0 <= a < before.len(),
        a == 0 || before[a].visited,
        a == 0 || before[0].visited,
        after == before.update(a, after[a]),
        after[a].visited,
        after[a].walls@ == before[a].walls@,
    ensures
        tree_so_far(after),
{
    reveal(tree_so_far);
    let n = before.len() as int;
    lemma_walls_down_update(before, a, after[a], n);
    lemma_unseen_count_update(before, a, after[a], n);
    assert forall|b: int, k: int|
        0 <= b < after.len() && 0 <= k < 4 && !after[b].visited implies #[trigger] after[b].walls@[k] by {
        assert(after[b] == before[b]);
        assert(before[b].walls@[k]);
    }
}

/// Going on to a neighbour that was not seen keeps the tree: the wall to
/// it stood, and now it is down on both sides.
proof fn lemma_tree_step(
    before: Seq<Cell>,
    after: Seq<Cell>,
    width: int,
    height: int,
    current: int,
    next: int,
    k: int,
)
    requires
        tree_so_far(before),
        walls_sound(before, width, height),
        0 <= current < before.len(),
        0 <= next < before.len(),
        current != next,
        before[current].visited,
        before[0].visited,
        !before[next].visited,
        0 <= k < 4,
        next == cell_neighbour(width, height, current, k),
        is_step(before, after, current, next, k),
    ensures
        tree_so_far(after),
{
    reveal(tree_so_far);
    let n = before.len() as int;
    let back = (k + 2) % 4;
    assert(before[next].walls@[back]);
    assert(before[current].walls@[k]);
    let mid = before.update(current, after[current]);
    assert(after =~= mid.update(next, after[next]));
    lemma_walls_down_update(before, current, after[current], n);
    lemma_walls_down_update(mid, next, after[next], n);
    lemma_unseen_count_update(before, current, after[current], n);
    lemma_unseen_count_update(mid, next, after[next], n);
    assert(walls_down(after[current]) == walls_down(before[current]) + 1);
    assert(walls_down(after[next]) == walls_down(before[next]) + 1);
    assert forall|b: int, j: int|
        0 <= b < after.len() && 0 <= j < 4 && !after[b].visited implies #[trigger] after[b].walls@[j] by {
        if b == current {
            assert(after[current].visited);
        } else {
            assert(after[b] == before[b]);
            assert(before[b].walls@[j]);
        }
    }
}

/// A maze and the walk that digs it.
pub struct CellGrid {
    pub width: i32,
    pub height: i32,
    pub cells: Vec<Cell>,
    pub backtrace: Vec<usize>,
    pub current: usize,
}

proof fn lemma_unseen_count_update(cells: Seq<Cell>, at: int, cell: Cell, n: int)
    requires
        0 <= at < cells.len(),
        0 <= n <= cells.len(),
    ensures
        unseen_count(cells.update(at, cell), n) == unseen_count(cells, n) + if at < n {
            (if cell.visited {
                0int
            } else {
                1int
            }) - (if cells[at].visited {
                0int
            } else {
                1int
            })
        } else {
            0int
        },
        0 <= unseen_count(cells, n) <= n,
    decreases n,
{
    if n > 0 {
        lemma_unseen_count_update(cells, at, cell, n - 1);
    }
}

/// An unseen neighbour is a cell of the maze that the walk has not seen, and
/// where a cell has none, the walk has seen all its neighbours.
proof fn lemma_unseen_neighbours(cells: Seq<Cell>, width: int, height: int, current: int, k: int)
    requires
        cells_wf(cells, width, height),
        0 <= current < cells.len(),
        0 <= k <= 4,
    ensures
        unseen_neighbours(cells, width, height, current, k).len() <= k,
        forall|t: int|
            0 <= t < unseen_neighbours(cells, width, height, current, k).len() ==> {
                let at = #[trigger] unseen_neighbours(cells, width, height, current, k)[t];
                at < cells.len() && !cells[at as int].visited && at != current
            },
        unseen_neighbours(cells, width, height, current, k).len() == 0 ==> forall|j: int|
            0 <= j < k && #[trigger] cell_neighbour(width, height, current, j) != -1
                ==> cells[cell_neighbour(width, height, current, j)].visited,
    decreases k,
{
    if k > 0 {
        lemma_unseen_neighbours(cells, width, height, current, k - 1);
        lemma_cell_neighbour(width, height, current, k - 1);
        let rest = unseen_neighbours(cells, width, height, current, k - 1);
        let all = unseen_neighbours(cells, width, height, current, k);
        assert(width * height <= 0x100_0000) by (nonlinear_arith)
            requires
                0 < width <= 0x1000,
                0 < height <= 0x1000,
        ;
        assert forall|t: int| 0 <= t < all.len() implies {
            let at = #[trigger] all[t];
            at < cells.len() && !cells[at as int].visited && at != current
        } by {}
    }
}

/// A neighbour of a cell is another cell of the maze, and the cell is the
/// neighbour of its neighbour across the wall on the other side.
pub proof fn lemma_cell_neighbour(width: int, height: int, a: int, k: int)
    requires
        0 < width,
        0 < height,
        0 <= a < width * height,
        0 <= k < 4,
    ensures
        cell_neighbour(width, height, a, k) != -1 ==> {
            let b = cell_neighbour(width, height, a, k);
            &&& 0 <= b < width * height
            &&& b != a
            &&& cell_neighbour(width, height, b, (k + 2) % 4) == a
            &&& b / width == a / width + row_step(k)
            &&& b % width == a % width + column_step(k)
        },
{
    lemma_index_tile(width, height, a);
    let row = a / width;
    let column = a % width;
    if cell_neighbour(width, height, a, k) != -1 {
        if k == TOP {
            lemma_tile_index(width, height, column, row - 1);
        } else if k == RIGHT {
            lemma_tile_index(width, height, column + 1, row);
        } else if k == BOTTOM {
            lemma_tile_index(width, height, column, row + 1);
        } else {
            lemma_tile_index(width, height, column - 1, row);
        }
    }
}

/// Where the walk has seen the first cell and left every cell that it has
/// seen for good, it has seen every cell.
pub proof fn lemma_walk_complete(cells: Seq<Cell>, width: int, height: int, current: int, a: int)
    requires
        cells_wf(cells, width, height),
        cells[0].visited,
        0 <= current < cells.len(),
        walk_closed(cells, width, height, Seq::<usize>::empty(), current),
        forall|j: int|
            0 <= j < 4 && #[trigger] cell_neighbour(width, height, current, j) != -1
                ==> cells[cell_neighbour(width, height, current, j)].visited,
        0 <= a < cells.len(),
    ensures
        cells[a].visited,
    decreases a,
{
    if a > 0 {
        lemma_index_tile(width, height, a);
        let row = a / width;
        let column = a % width;
        let k = if column >= 1 {
            LEFT as int
        } else {
            TOP as int
        };
        if column == 0 && row == 0 {
            assert(a == 0) by (nonlinear_arith)
                requires
                    a == row * width + column,
                    row == 0,
                    column == 0,
            ;
        }
        lemma_cell_neighbour(width, height, a, k);
        let b = cell_neighbour(width, height, a, k);
        assert(b < a) by {
            if k == TOP {
                assert((row - 1) * width == row * width - width) by (nonlinear_arith);
            }
        }
        lemma_walk_complete(cells, width, height, current, b);
    }
}

impl CellGrid {
    /// The maze is in order: its cells know where they lie, and the walk
    /// stands on one of them and goes back over them.
    pub open spec fn wf(&self) -> bool {
        &&& cells_wf(self.cells@, self.width as int, self.height as int)
        &&& self.current < self.cells@.len()
        &&& forall|t: int|
            0 <= t < self.backtrace@.len() ==> #[trigger] self.backtrace@[t] < self.cells@.len()
    }

    /// A maze of the given size in which every wall stands and the walk has
    /// seen nothing.
    pub fn new(width: i32, height: i32) -> (grid: CellGrid)
        requires
            0 < width <= 0x1000,
            0 < height <= 0x1000,
        ensures
            grid.wf(),
            grid.width == width,
            grid.height == height,
            grid.current == 0,
            grid.backtrace@.len() == 0,
            forall|i: int|
                0 <= i < grid.cells@.len() ==> !(#[trigger] grid.cells@[i]).visited && forall|
                    k: int,
                | 0 <= k < 4 ==> grid.cells@[i].walls@[k],
    {
        let mut cells: Vec<Cell> = Vec::new();
        let ghost w = width as int;
        let ghost h = height as int;
        let mut row: i32 = 0;
        while row < height
            invariant
                0 <= row <= height,
                0 < width <= 0x1000,
                0 < height <= 0x1000,
                w == width,
                h == height,
                cells@.len() == row * width,
                forall|i: int|
                    0 <= i < cells@.len() ==> (#[trigger] cells@[i]).row == i / w && cells@[i].column
                        == i % w && !cells@[i].visited && forall|k: int|
                        0 <= k < 4 ==> cells@[i].walls@[k],
            decreases height - row,
        {
            let mut column: i32 = 0;
            while column < width
                invariant
                    0 <= row < height,
                    0 <= column <= width,
                    0 < width <= 0x1000,
                    0 < height <= 0x1000,
                    w == width,
                    h == height,
                    cells@.len() == row * width + column,
                    forall|i: int|
                        0 <= i < cells@.len() ==> (#[trigger] cells@[i]).row == i / w
                            && cells@[i].column == i % w && !cells@[i].visited && forall|k: int|
                            0 <= k < 4 ==> cells@[i].walls@[k],
                decreases width - column,
            {
                proof {
                    lemma_tile_index(w, h, column as int, row as int);
                }
                cells.push(Cell::new(row, column));
                column = column + 1;
            }
            assert((row + 1) * width == row * width + width) by (nonlinear_arith);
            row = row + 1;
        }
        proof {
            assert(h * w == w * h) by (nonlinear_arith);
            assert(0 < w * h) by (nonlinear_arith)
                requires
                    0 < w,
                    0 < h,
            ;
        }
        CellGrid { width, height, cells, backtrace: Vec::new(), current: 0 }
    }

    /// The index of the cell in the given row and column, or -1 where the
    /// maze has no such cell.
    pub fn calculate_index(&self, row: i32, column: i32) -> (index: i32)
        requires
            0 < self.width <= 0x1000,
            0 < self.height <= 0x1000,
        ensures
            index == cell_index(self.width as int, self.height as int, row as int, column as int),
    {
        if row < 0 || column < 0 || column > self.width - 1 || row > self.height - 1 {
            -1
        } else {
            assert(0 <= row * self.width <= 0x1000 * 0x1000) by (nonlinear_arith)
                requires
                    0 <= row < 0x1000,
                    0 < self.width <= 0x1000,
            ;
            column + (row * self.width)
        }
    }

    /// The neighbours of the cell on which the walk stands that it has not
    /// seen: above, right, below, left.
    pub fn get_available_neighbors(&self) -> (neighbors: Vec<usize>)
        requires
            self.wf(),
        ensures
            neighbors@ == unseen_neighbours(
                self.cells@,
                self.width as int,
                self.height as int,
                self.current as int,
                4,
            ),
    {
        let mut neighbors: Vec<usize> = Vec::new();
        let current_row = self.cells[self.current].row;
        let current_column = self.cells[self.current].column;
        proof {
            lemma_index_tile(self.width as int, self.height as int, self.current as int);
        }
        let neighbor_indices: [i32; 4] = [
            self.calculate_index(current_row - 1, current_column),
            self.calculate_index(current_row, current_column + 1),
            self.calculate_index(current_row + 1, current_column),
            self.calculate_index(current_row, current_column - 1),
        ];
        let mut k: usize = 0;
        while k < 4
            invariant
                self.wf(),
                k <= 4,
                forall|j: int|
                    0 <= j < 4 ==> neighbor_indices@[j] == cell_neighbour(
                        self.width as int,
                        self.height as int,
                        self.current as int,
                        j,
                    ),
                neighbors@ == unseen_neighbours(
                    self.cells@,
                    self.width as int,
                    self.height as int,
                    self.current as int,
                    k as int,
                ),
            decreases 4 - k,
        {
            let i = neighbor_indices[k];
            proof {
                lemma_cell_neighbour(
                    self.width as int,
                    self.height as int,
                    self.current as int,
                    k as int,
                );
            }
            if i != -1 && !self.cells[i as usize].visited {
                neighbors.push(i as usize);
            }
            k = k + 1;
        }
        neighbors
    }

    /// The cell to which the walk goes on: one of the neighbours that it has
    /// not seen, chosen by the dice where there are several; none where
    /// there is none.
    pub fn find_next_cell(&self, rng: &mut RandomNumberGenerator) -> (next: Option<usize>)
        requires
            self.wf(),
        ensures
            match next {
                Some(at) => unseen_neighbours(
                    self.cells@,
                    self.width as int,
                    self.height as int,
                    self.current as int,
                    4,
                ).contains(at),
                None => unseen_neighbours(
                    self.cells@,
                    self.width as int,
                    self.height as int,
                    self.current as int,
                    4,
                ).len() == 0,
            },
    {
        let neighbors = self.get_available_neighbors();
        proof {
            lemma_unseen_neighbours(
                self.cells@,
                self.width as int,
                self.height as int,
                self.current as int,
                4,
            );
        }
        if neighbors.len() > 0 {
            if neighbors.len() == 1 {
                return Some(neighbors[0]);
            } else {
                let pick = (roll_die(rng, neighbors.len() as i32) - 1) as usize;
                return Some(neighbors[pick]);
            }
        }
        None
    }

    /// The walk is under way: the maze is sound, the walk stands on the first
    /// cell or on one that it has seen, it has seen every cell that it goes
    /// back over, every cell that it has left for good has no neighbour
    /// that it has not seen, and what it has dug is a tree.
    #[verifier::opaque]
    pub open spec fn walking(&self) -> bool {
        &&& self.wf()
        &&& maze_sound(self.cells@, self.width as int, self.height as int)
        &&& (self.current == 0 || self.cells@[self.current as int].visited)
        &&& (self.current == 0 || self.cells@[0].visited)
        &&& walk_closed(
            self.cells@,
            self.width as int,
            self.height as int,
            self.backtrace@,
            self.current as int,
        )
        &&& forall|t: int|
            0 <= t < self.backtrace@.len() ==> (#[trigger] self.cells@[self.backtrace@[t] as int]).visited
        &&& tree_so_far(self.cells@)
    }

    /// How much of the walk is left: every cell not seen counts twice, every
    /// cell to go back over once.
    pub open spec fn walk_left(&self) -> int {
        2 * unseen_count(self.cells@, self.cells@.len() as int) + self.backtrace@.len()
    }

    /// Marks the cell on which the walk stands as seen.
    fn visit_current(&mut self)
        requires
            old(self).walking(),
        ensures
            final(self).walking(),
            final(self).wf(),
            final(self).width == old(self).width,
            final(self).height == old(self).height,
            final(self).current == old(self).current,
            final(self).backtrace@ == old(self).backtrace@,
            final(self).cells@[final(self).current as int].visited,
            final(self).cells@[0].visited,
            0 <= final(self).walk_left() <= old(self).walk_left(),
    {
        reveal(CellGrid::walking);
        let ghost w = self.width as int;
        let ghost h = self.height as int;
        let ghost cells0 = self.cells@;
        let mut here = self.cells[self.current];
        here.visited = true;
        self.cells.set(self.current, here);
        proof {
            lemma_maze_visit(cells0, self.cells@, w, h, self.current as int);
            assert(self.cells@ =~= cells0.update(self.current as int, here));
            lemma_tree_visit(cells0, self.cells@, self.current as int);
            lemma_unseen_count_update(cells0, self.current as int, here, cells0.len() as int);
            lemma_unseen_count_update(self.cells@, self.current as int, here, cells0.len() as int);
            assert forall|a: int, k: int|
                0 <= a < self.cells@.len() && 0 <= k < 4 && self.cells@[a].visited && a
                    != self.current && !on_way_back(self.backtrace@, a) && #[trigger] cell_neighbour(
                    w,
                    h,
                    a,
                    k,
                ) != -1 implies self.cells@[cell_neighbour(w, h, a, k)].visited by {
                lemma_cell_neighbour(w, h, a, k);
            }
            assert forall|t: int| 0 <= t < self.backtrace@.len() implies (
            #[trigger] self.cells@[self.backtrace@[t] as int]).visited by {}
        }
    }

    /// Goes on to the cell `next`: takes down the wall between it and the
    /// cell on which the walk stands, and remembers that cell for the way
    /// back.
    fn go_on(&mut self, next: usize)
        requires
            old(self).walking(),
            old(self).cells@[old(self).current as int].visited,
            old(self).cells@[0].visited,
            unseen_neighbours(
                old(self).cells@,
                old(self).width as int,
                old(self).height as int,
                old(self).current as int,
                4,
            ).contains(next),
        ensures
            final(self).walking(),
            final(self).wf(),
            final(self).width == old(self).width,
            final(self).height == old(self).height,
            final(self).cells@[final(self).current as int].visited,
            final(self).cells@[0].visited,
            0 <= final(self).walk_left() < old(self).walk_left(),
    {
        reveal(CellGrid::walking);
        let ghost w = self.width as int;
        let ghost h = self.height as int;
        let ghost cells1 = self.cells@;
        let ghost way = self.backtrace@;
        let ghost n = self.cells@.len() as int;
        proof {
            lemma_unseen_neighbours(cells1, w, h, self.current as int, 4);
            lemma_index_tile(w, h, self.current as int);
            lemma_index_tile(w, h, next as int);
        }
        let mut there = self.cells[next];
        there.visited = true;
        self.cells.set(next, there);
        self.backtrace.push(self.current);
        let mut cell1 = self.cells[self.current];
        let mut cell2 = self.cells[next];
        cell1.remove_walls(&mut cell2);
        self.cells.set(self.current, cell1);
        self.cells.set(next, cell2);
        proof {
            let current = self.current as int;
            let k0 = lemma_unseen_is_neighbour(cells1, w, h, current, 4, next);
            lemma_cell_neighbour(w, h, current, k0);
            lemma_maze_step(cells1, self.cells@, w, h, current, next as int, k0);
            lemma_tree_step(cells1, self.cells@, w, h, current, next as int, k0);
            let mid = cells1.update(next as int, there);
            lemma_unseen_count_update(cells1, next as int, there, n);
            lemma_unseen_count_update(mid, current, cell1, n);
            lemma_unseen_count_update(mid.update(current, cell1), next as int, cell2, n);
            assert forall|a: int, k: int|
                0 <= a < self.cells@.len() && 0 <= k < 4 && self.cells@[a].visited && a != next
                    && !on_way_back(self.backtrace@, a) && #[trigger] cell_neighbour(w, h, a, k)
                    != -1 implies self.cells@[cell_neighbour(w, h, a, k)].visited by {
                lemma_cell_neighbour(w, h, a, k);
                if a == current {
                    assert(self.backtrace@[self.backtrace@.len() - 1] == a);
                } else {
                    if on_way_back(way, a) {
                        let t = choose|t: int| 0 <= t < way.len() && #[trigger] way[t] == a;
                        assert(self.backtrace@[t] == a);
                    }
                }
            }
            assert forall|t: int| 0 <= t < self.backtrace@.len() implies (
            #[trigger] self.cells@[self.backtrace@[t] as int]).visited by {}
        }
        self.current = next;
    }

    /// Goes back to the cell that the walk came from last, where there is
    /// one, and says whether there was.
    fn go_back(&mut self) -> (went: bool)
        requires
            old(self).walking(),
            old(self).cells@[old(self).current as int].visited,
            old(self).cells@[0].visited,
            forall|j: int|
                0 <= j < 4 && #[trigger] cell_neighbour(
                    old(self).width as int,
                    old(self).height as int,
                    old(self).current as int,
                    j,
                ) != -1 ==> old(self).cells@[cell_neighbour(
                    old(self).width as int,
                    old(self).height as int,
                    old(self).current as int,
                    j,
                )].visited,
        ensures
            final(self).walking(),
            final(self).wf(),
            final(self).width == old(self).width,
            final(self).height == old(self).height,
            final(self).cells@ == old(self).cells@,
            final(self).cells@[final(self).current as int].visited,
            went == (old(self).backtrace@.len() > 0),
            went ==> 0 <= final(self).walk_left() < old(self).walk_left(),
            !went ==> final(self).current == old(self).current && final(self).backtrace@.len()
                == 0,
    {
        reveal(CellGrid::walking);
        let ghost w = self.width as int;
        let ghost h = self.height as int;
        if self.backtrace.len() > 0 {
            let ghost way = self.backtrace@;
            let ghost old_current = self.current as int;
            let back = self.backtrace.pop();
            self.current = back.unwrap();
            proof {
                lemma_unseen_count_update(
                    self.cells@,
                    0,
                    self.cells@[0],
                    self.cells@.len() as int,
                );
                assert forall|a: int, k: int|
                    0 <= a < self.cells@.len() && 0 <= k < 4 && self.cells@[a].visited && a
                        != self.current && !on_way_back(self.backtrace@, a) && #[trigger] cell_neighbour(
                        w,
                        h,
                        a,
                        k,
                    ) != -1 implies self.cells@[cell_neighbour(w, h, a, k)].visited by {
                    if a != old_current {
                        if on_way_back(way, a) {
                            let t = choose|t: int| 0 <= t < way.len() && #[trigger] way[t] == a;
                            assert(self.backtrace@[t] == a);
                        }
                    }
                }
                assert forall|t: int| 0 <= t < self.backtrace@.len() implies (
                #[trigger] self.cells@[self.backtrace@[t] as int]).visited by {}
            }
            true
        } else {
            false
        }
    }

    /// Walks through the maze until every cell has been seen and the walk is
    /// back where it began, with nothing left to go back over, taking down
    /// the wall between every cell and the cell that it was first entered
    /// from, and no other: a way leads from the first cell to every cell,
    /// and the walls that are down are, counted on both sides, twice one
    /// fewer than the cells. Every fiftieth step, and at the end, the maze
    /// is shown on the level and the level is recorded.
    pub fn generate_maze(
        &mut self,
        map: &mut Grid,
        history: &mut Vec<Grid>,
        rng: &mut RandomNumberGenerator,
    )
        requires
            old(self).wf(),
            old(self).current == 0,
            old(self).backtrace@.len() == 0,
            forall|i: int|
                0 <= i < old(self).cells@.len() ==> !(#[trigger] old(self).cells@[i]).visited
                    && forall|k: int| 0 <= k < 4 ==> old(self).cells@[i].walls@[k],
            old(map).wf(),
            maze_fits(
                old(self).width as int,
                old(self).height as int,
                old(map).width as int,
                old(map).height as int,
            ),
            forall|i: int| 0 <= i < old(history)@.len() ==> (#[trigger] old(history)@[i]).wf(),
        ensures
            final(self).wf(),
            final(self).width == old(self).width,
            final(self).height == old(self).height,
            forall|i: int|
                0 <= i < final(self).cells@.len() ==> (#[trigger] final(self).cells@[i]).visited,
            walls_sound(final(self).cells@, final(self).width as int, final(self).height as int),
            forall|i: int|
                0 <= i < final(self).cells@.len() ==> #[trigger] linked(
                    final(self).cells@,
                    final(self).width as int,
                    final(self).height as int,
                    i,
                ),
            walls_down_upto(final(self).cells@, final(self).cells@.len() as int) == 2
                * final(self).cells@.len() - 2,
            final(self).backtrace@.len() == 0,
            final(map).wf(),
            final(map)@ == (GridView {
                tiles: maze_tiles(
                    final(self).cells@,
                    final(self).width as int,
                    old(map).width as int,
                    old(map).tiles@.len(),
                ),
                ..old(map)@
            }),
            forall|i: int| 0 <= i < final(history)@.len() ==> (#[trigger] final(history)@[i]).wf(),
            extends(history_view(final(history)@), history_view(old(history)@)),
            !SHOW_MAPGEN_VISUALIZER ==> history_view(final(history)@) == history_view(old(history)@),
    {
        let ghost w = self.width as int;
        let ghost h = self.height as int;
        let mut i: u32 = 0;
        proof {
            reveal(CellGrid::walking);
            lemma_tree_begins(self.cells@);
            assert forall|a: int, k: int|
                0 <= a < self.cells@.len() && 0 <= k < 4 implies if #[trigger] cell_neighbour(
                w,
                h,
                a,
                k,
            ) == -1 {
                self.cells@[a].walls@[k]
            } else {
                self.cells@[a].walls@[k] == self.cells@[cell_neighbour(
                    w,
                    h,
                    a,
                    k,
                )].walls@[(k + 2) % 4]
            } by {
                lemma_cell_neighbour(w, h, a, k);
            }
        }
        loop
            invariant
                self.walking(),
                self.wf(),
                w == self.width,
                h == self.height,
                maze_fits(w, h, map.width as int, map.height as int),
                i < 50,
                map.wf(),
                map@ == (GridView { tiles: map.tiles@, ..old(map)@ }),
                forall|k: int| 0 <= k < history@.len() ==> (#[trigger] history@[k]).wf(),
                extends(history_view(history@), history_view(old(history)@)),
                !SHOW_MAPGEN_VISUALIZER ==> history_view(history@) == history_view(old(history)@),
            ensures
                self.walking(),
                self.wf(),
                w == self.width,
                h == self.height,
                self.cells@[0].visited,
                self.backtrace@.len() == 0,
                forall|j: int|
                    0 <= j < 4 && #[trigger] cell_neighbour(w, h, self.current as int, j) != -1
                        ==> self.cells@[cell_neighbour(w, h, self.current as int, j)].visited,
                map.wf(),
                maze_fits(w, h, map.width as int, map.height as int),
                map@ == (GridView { tiles: map.tiles@, ..old(map)@ }),
                forall|k: int| 0 <= k < history@.len() ==> (#[trigger] history@[k]).wf(),
                extends(history_view(history@), history_view(old(history)@)),
                !SHOW_MAPGEN_VISUALIZER ==> history_view(history@) == history_view(old(history)@),
            decreases 2 * unseen_count(self.cells@, self.cells@.len() as int) + self.backtrace@.len(),
        {
            self.visit_current();
            let next = self.find_next_cell(rng);
            match next {
                Some(next) => {
                    self.go_on(next);
                },
                None => {
                    proof {
                        lemma_unseen_neighbours(self.cells@, w, h, self.current as int, 4);
                    }
                    if !self.go_back() {
                        break ;
                    }
                },
            }
            if i == 0 {
                self.copy_to_map(map);
                record_snapshot(history, map);
            }
            i = if i == 49 {
                0
            } else {
                i + 1
            };
        }
        proof {
            reveal(CellGrid::walking);
            assert forall|a: int| 0 <= a < self.cells@.len() implies (#[trigger] self.cells@[a]).visited by {
                lemma_walk_complete(self.cells@, w, h, self.current as int, a);
            }
            assert forall|a: int| 0 <= a < self.cells@.len() implies #[trigger] linked(
                self.cells@,
                w,
                h,
                a,
            ) by {
                assert(self.cells@[a].visited);
            }
            lemma_tree_complete(self.cells@);
        }
        self.copy_to_map(map);
        record_snapshot(history, map);
    }

    /// Shows the maze on the level: the tile of every cell is floor, and so
    /// is the tile beside it across every wall that is down; every other
    /// tile is wall.
    pub fn copy_to_map(&self, map: &mut Grid)
        requires
            self.wf(),
            old(map).wf(),
            maze_fits(self.width as int, self.height as int, old(map).width as int, old(map).height as int),
        ensures
            final(map).wf(),
            final(map)@ == (GridView {
                tiles: maze_tiles(
                    self.cells@,
                    self.width as int,
                    old(map).width as int,
                    old(map).tiles@.len(),
                ),
                ..old(map)@
            }),
    {
        let count = map.tiles.len();
        let mut t: usize = 0;
        while t < count
            invariant
                map.wf(),
                t <= count,
                count == map.tiles@.len(),
                map@ == (GridView { tiles: map.tiles@, ..old(map)@ }),
                forall|k: int| 0 <= k < t ==> map.tiles@[k] == TileType::Wall,
            decreases count - t,
        {
            map.set_tile(t, TileType::Wall);
            t = t + 1;
        }
        let ghost w = self.width as int;
        let ghost h = self.height as int;
        let ghost mw = map.width as int;
        let ghost mh = map.height as int;
        let mut i: usize = 0;
        while i < self.cells.len()
            invariant
                self.wf(),
                w == self.width,
                h == self.height,
                mw == map.width,
                mh == map.height,
                maze_fits(w, h, mw, mh),
                map.wf(),
                count == map.tiles@.len(),
                i <= self.cells@.len(),
                map@ == (GridView { tiles: map.tiles@, ..old(map)@ }),
                forall|k: int|
                    0 <= k < count ==> #[trigger] map.tiles@[k] == if dug_for_maze(
                        self.cells@,
                        w,
                        mw,
                        i as int,
                        k,
                    ) {
                        TileType::Floor
                    } else {
                        TileType::Wall
                    },
            decreases self.cells@.len() - i,
        {
            let cell = self.cells[i];
            proof {
                lemma_index_tile(w, h, i as int);
            }
            let x = cell.column + 1;
            let y = cell.row + 1;
            proof {
                lemma_tile_index(mw, mh, 2 * x, 2 * y - 1);
                lemma_tile_index(mw, mh, 2 * x, 2 * y + 1);
                lemma_tile_index(mw, mh, 2 * x - 1, 2 * y);
                lemma_tile_index(mw, mh, 2 * x + 1, 2 * y);
                assert((2 * y - 1) * mw == 2 * y * mw - mw) by (nonlinear_arith);
                assert((2 * y + 1) * mw == 2 * y * mw + mw) by (nonlinear_arith);
            }
            let idx = map.xy_idx(x * 2, y * 2);
            let ghost prior = map.tiles@;
            map.set_tile(idx, TileType::Floor);
            if !cell.walls[TOP] {
                map.set_tile(idx - map.width as usize, TileType::Floor);
            }
            if !cell.walls[RIGHT] {
                map.set_tile(idx + 1, TileType::Floor);
            }
            if !cell.walls[BOTTOM] {
                map.set_tile(idx + map.width as usize, TileType::Floor);
            }
            if !cell.walls[LEFT] {
                map.set_tile(idx - 1, TileType::Floor);
            }
            proof {
                assert forall|k: int| 0 <= k < count implies #[trigger] map.tiles@[k]
                    == if dug_for_maze(self.cells@, w, mw, i + 1, k) {
                    TileType::Floor
                } else {
                    TileType::Wall
                } by {
                    assert(prior[k] == if dug_for_maze(self.cells@, w, mw, i as int, k) {
                        TileType::Floor
                    } else {
                        TileType::Wall
                    });
                    if dug_for_maze(self.cells@, w, mw, i as int, k) {
                        let c = choose|c: int|
                            0 <= c < i && #[trigger] dug_for_cell(self.cells@, w, mw, c, k);
                        assert(0 <= c < i + 1 && dug_for_cell(self.cells@, w, mw, c, k));
                    }
                    if dug_for_cell(self.cells@, w, mw, i as int, k) {
                        assert(dug_for_maze(self.cells@, w, mw, i + 1, k));
                    }
                    if dug_for_maze(self.cells@, w, mw, i + 1, k) {
                        let c = choose|c: int|
                            0 <= c < i + 1 && #[trigger] dug_for_cell(self.cells@, w, mw, c, k);
                    }
                }
            }
            i = i + 1;
        }
        assert(map.tiles@ =~= maze_tiles(self.cells@, w, mw, count as nat));
    }
}

pub struct MazeBuilder {
    map: Grid,
    starting_position: Position,
    depth: i32,
    history: Vec<Grid>,
    noise_areas: HashMap<i32, Vec<usize>>,
}

impl MazeBuilder {
    /// The spawn regions found so far.
    pub closed spec fn regions(&self) -> Map<i32, Vec<usize>> {
        self.noise_areas@
    }

    pub fn new(new_depth: i32) -> (builder: MazeBuilder)
        ensures
            builder.wf(),
            builder.level().depth == new_depth,
            builder.level() == Grid::solid(new_depth),
            builder.start() == (Position { x: 0, y: 0 }),
            builder.history() == Seq::<GridView>::empty(),
            builder.regions() == Map::<i32, Vec<usize>>::empty(),
            forall|i: int|
                0 <= i < builder.level().tiles.len() ==> builder.level().tiles[i] == TileType::Wall,
    {
        let builder = MazeBuilder {
            map: Grid::new(new_depth),
            starting_position: Position { x: 0, y: 0 },
            depth: new_depth,
            history: Vec::new(),
            noise_areas: HashMap::new(),
        };
        builder
    }

    /// Sorts the floor tiles of the level into spawn regions by the values
    /// given, one for each tile.
    pub fn partition(&mut self, cell_values: &Vec<i32>)
        requires
            old(self).wf(),
            cell_values@.len() == old(self).level().tiles.len(),
        ensures
            final(self).wf(),
            final(self).level() == old(self).level(),
            final(self).start() == old(self).start(),
            final(self).history() == old(self).history(),
            is_partition(
                final(self).regions(),
                final(self).level().tiles,
                cell_values@,
                cell_values@.len() as int,
            ),
    {
        self.noise_areas = generate_voronoi_spawn_regions(&self.map, cell_values);
    }

    /// The spawn regions found by the last partition.
    pub fn get_noise_areas(&self) -> (regions: HashMap<i32, Vec<usize>>)
        ensures
            regions@ == self.regions(),
    {
        self.noise_areas.clone()
    }

    /// Builds the level: digs a maze whose walk sees every cell and whose
    /// ways make a tree, shows it on the level, and finishes the level from
    /// the tile of the first cell.
    pub fn build(&mut self, rng: &mut RandomNumberGenerator)
        requires
            old(self).wf(),
        ensures
            final(self).wf(),
            level_complete(final(self).level(), final(self).start()),
            final(self).level().depth == old(self).level().depth,
            final(self).built(old(self)),
            extends(final(self).history(), old(self).history()),
            !SHOW_MAPGEN_VISUALIZER ==> final(self).history() == old(self).history(),
            SHOW_MAPGEN_VISUALIZER ==> final(self).history().len() > old(self).history().len()
                && final(self).history().last() == revealed_copy(final(self).level()),
    {
        self.map = Grid::new(self.depth);
        self.noise_areas = HashMap::new();
        let mut maze = CellGrid::new((self.map.width / 2) - 2, (self.map.height / 2) - 2);
        maze.generate_maze(&mut self.map, &mut self.history, rng);
        self.starting_position = Position { x: 2, y: 2 };
        record_snapshot(&mut self.history, &self.map);
        proof {
            assert(dug_for_cell(maze.cells@, MAZE_WIDTH as int, MAPWIDTH as int, 0, 162));
            assert(dug_for_maze(
                maze.cells@,
                MAZE_WIDTH as int,
                MAPWIDTH as int,
                maze.cells@.len() as int,
                162,
            ));
        }
        finish_level(&mut self.map, &mut self.history, self.starting_position);
    }
}

impl MapBuilder for MazeBuilder {
    closed spec fn wf(&self) -> bool {
        &&& self.map.wf()
        &&& self.map.width == MAPWIDTH
        &&& self.map.height == MAPHEIGHT
        &&& self.map.depth == self.depth
        &&& regions_fit(self.noise_areas@, self.map.tiles@)
        &&& forall|i: int| 0 <= i < self.history@.len() ==> (#[trigger] self.history@[i]).wf()
    }

    closed spec fn level(&self) -> GridView {
        self.map@
    }

    closed spec fn start(&self) -> Position {
        self.starting_position
    }

    closed spec fn history(&self) -> Seq<GridView> {
        history_view(self.history@)
    }

    open spec fn spawn_areas(&self, areas: Seq<Seq<usize>>) -> bool {
        regions_in_turn(self.regions(), areas)
    }

    open spec fn built(&self, before: &MazeBuilder) -> bool {
        &&& self.regions() == Map::<i32, Vec<usize>>::empty()
        &&& self.start() == (Position { x: 2, y: 2 })
        &&& exists|cells: Seq<Cell>|
            {
                &&& #[trigger] cells_wf(cells, MAZE_WIDTH as int, MAZE_HEIGHT as int)
                &&& walls_sound(cells, MAZE_WIDTH as int, MAZE_HEIGHT as int)
                &&& forall|i: int|
                    0 <= i < cells.len() ==> #[trigger] linked(
                        cells,
                        MAZE_WIDTH as int,
                        MAZE_HEIGHT as int,
                        i,
                    )
                &&& walls_down_upto(cells, cells.len() as int) == 2 * cells.len() - 2
                &&& finished_from(
                    maze_tiles(
                        cells,
                        MAZE_WIDTH as int,
                        MAPWIDTH as int,
                        (MAPWIDTH * MAPHEIGHT) as nat,
                    ),
                    tile_index(MAPWIDTH as int, 2, 2),
                    self.level().tiles,
                )
            }
    }

    fn build_map(&mut self, rng: &mut RandomNumberGenerator) {
        self.build(rng);
    }

    fn get_map(&self) -> (map: Grid) {
        self.map.clone()
    }

    fn get_starting_position(&self) -> (start: Position) {
        self.starting_position
    }

    fn get_snapshot_history(&self) -> (history: Vec<Grid>) {
        clone_history(&self.history)
    }

    fn take_snapshot(&mut self) {
        record_snapshot(&mut self.history, &self.map);
    }

    fn spawn_entities(&self, rng: &mut RandomNumberGenerator) -> (spawns: Vec<(usize, String)>) {
        spawn_in_level(&self.map, &self.noise_areas, rng)
    }
}

} // verus!
