//! The tile grid of a level.

use std::collections::HashSet;
use vstd::arithmetic::mul::*;
use vstd::prelude::*;

verus! {

pub const MAPWIDTH: usize = 80;

pub const MAPHEIGHT: usize = 43;

pub const MAPCOUNT: usize = MAPHEIGHT * MAPWIDTH;

/// The cost of a step to one of the four tiles that share a side, in
/// hundredths of a tile.
pub const STRAIGHT_COST: u32 = 100;

/// The cost of a step to one of the four tiles that share only a corner, in
/// hundredths of a tile.
pub const DIAGONAL_COST: u32 = 145;

#[derive(PartialEq, Eq, Structural, Copy, Clone, Debug)]
pub enum TileType {
    Wall,
    Floor,
    DownStairs,
}

/// A coordinate on the grid.
#[derive(PartialEq, Eq, Structural, Copy, Clone, Debug)]
pub struct Position {
    pub x: i32,
    pub y: i32,
}

/// A reference to an entity of the registry: its slot and the generation of
/// that slot.
#[derive(PartialEq, Eq, Structural, Copy, Clone, Debug)]
pub struct EntityRef {
    pub index: u32,
    pub generation: i32,
}

/// A level: tiles in row-major order, with what has been seen of them, what
/// blocks movement, and what stands on them.
pub struct Grid {
    pub tiles: Vec<TileType>,
    pub height: i32,
    pub width: i32,
    pub revealed_tiles: Vec<bool>,
    pub visible_tiles: Vec<bool>,
    pub blocked: Vec<bool>,
    pub depth: i32,
    pub bloodstains: HashSet<usize>,
    pub tile_content: Vec<Vec<EntityRef>>,
}

/// A level as a mathematical value.
pub struct GridView {
    pub tiles: Seq<TileType>,
    pub height: int,
    pub width: int,
    pub revealed_tiles: Seq<bool>,
    pub visible_tiles: Seq<bool>,
    pub blocked: Seq<bool>,
    pub depth: int,
    pub bloodstains: Set<usize>,
    pub tile_content: Seq<Seq<EntityRef>>,
}

impl GridView {
    /// The arrays all have one entry for each tile of the grid, and every
    /// recorded stain lies on the grid.
    pub open spec fn wf(self) -> bool {
        &&& 0 <= self.width
        &&& 0 <= self.height
        &&& self.tiles.len() == self.width * self.height
        &&& self.revealed_tiles.len() == self.tiles.len()
        &&& self.visible_tiles.len() == self.tiles.len()
        &&& self.blocked.len() == self.tiles.len()
        &&& self.tile_content.len() == self.tiles.len()
        &&& forall|i: usize| self.bloodstains.contains(i) ==> i < self.tiles.len()
    }
}

impl View for Grid {
    type V = GridView;

    open spec fn view(&self) -> GridView {
        GridView {
            tiles: self.tiles@,
            height: self.height as int,
            width: self.width as int,
            revealed_tiles: self.revealed_tiles@,
            visible_tiles: self.visible_tiles@,
            blocked: self.blocked@,
            depth: self.depth as int,
            bloodstains: self.bloodstains@,
            tile_content: self.tile_content@.map_values(|row: Vec<EntityRef>| row@),
        }
    }
}

/// The index of the tile `(x, y)` on a grid `width` tiles wide.
pub open spec fn tile_index(width: int, x: int, y: int) -> int {
    y * width + x
}

/// The tile `(x, y)` lies on a grid of `width` by `height` tiles.
pub open spec fn on_grid(width: int, height: int, x: int, y: int) -> bool {
    0 <= x < width && 0 <= y < height
}

/// How many of the first `n` tiles are of the given kind.
pub open spec fn count_kind(tiles: Seq<TileType>, kind: TileType, n: int) -> int
    decreases n,
{
    if n <= 0 {
        0
    } else {
        count_kind(tiles, kind, n - 1) + if tiles[n - 1] == kind {
            1int
        } else {
            0int
        }
    }
}

/// Every tile is a wall where `blocked` says so, and nowhere else.
pub open spec fn blocked_by_walls(tiles: Seq<TileType>, blocked: Seq<bool>) -> bool {
    blocked.len() == tiles.len() && forall|i: int|
        0 <= i < tiles.len() ==> blocked[i] == (#[trigger] tiles[i] == TileType::Wall)
}

/// A tile inside a grid has an index inside the tile array, and the index
/// gives the tile back.
pub proof fn lemma_tile_index(width: int, height: int, x: int, y: int)
    requires
        on_grid(width, height, x, y),
    ensures
        0 <= tile_index(width, x, y) < width * height,
        tile_index(width, x, y) % width == x,
        tile_index(width, x, y) / width == y,
{
    assert(0 <= y * width && y * width + width <= height * width) by (nonlinear_arith)
        requires
            0 <= y < height,
            0 < width,
    ;
    vstd::arithmetic::div_mod::lemma_fundamental_div_mod_converse(y * width + x, width, y, x);
}

/// An index inside the tile array is the index of the tile at its column and
/// row.
pub proof fn lemma_index_tile(width: int, height: int, i: int)
    requires
        0 <= i < width * height,
        0 <= width,
        0 <= height,
    ensures
        0 < width,
        on_grid(width, height, i % width, i / width),
        tile_index(width, i % width, i / width) == i,
{
    if width == 0 {
        assert(width * height == 0) by (nonlinear_arith)
            requires
                width == 0,
        ;
    }
    vstd::arithmetic::div_mod::lemma_fundamental_div_mod(i, width);
    vstd::arithmetic::div_mod::lemma_mod_bound(i, width);
    lemma_mul_is_commutative(width, i / width);
    if i / width >= height {
        assert((i / width) * width >= height * width) by (nonlinear_arith)
            requires
                i / width >= height,
                width > 0,
        ;
        assert(height * width == width * height) by (nonlinear_arith);
    }
    if i / width < 0 {
        assert((i / width) * width <= -width) by (nonlinear_arith)
            requires
                i / width < 0,
                width > 0,
        ;
    }
}

/// Changing one tile changes the count of a kind by what the tile was and
/// what it becomes.
pub proof fn lemma_count_kind_update(
    tiles: Seq<TileType>,
    kind: TileType,
    at: int,
    to: TileType,
    n: int,
)
    requires
        0 <= at < tiles.len(),
        0 <= n <= tiles.len(),
    ensures
        count_kind(tiles.update(at, to), kind, n) == count_kind(tiles, kind, n) + if at < n {
            (if to == kind {
                1int
            } else {
                0int
            }) - (if tiles[at] == kind {
                1int
            } else {
                0int
            })
        } else {
            0int
        },
    decreases n,
{
    if n > 0 {
        lemma_count_kind_update(tiles, kind, at, to, n - 1);
    }
}

/// A copy of a set of tile indices, by `HashSet::clone`: the contract claims
/// that the copy holds the elements of the set it was made from, and no
/// others.
#[verifier::external_body]
fn clone_index_set(set: &HashSet<usize>) -> (copy: HashSet<usize>)
    ensures
        copy@ == set@,
{
    set.clone()
}

impl Grid {
    /// The level is well formed: see [`GridView::wf`].
    pub open spec fn wf(&self) -> bool {
        self@.wf()
    }

    /// The tile `(x, y)` lies on this grid.
    pub open spec fn in_bounds(&self, x: int, y: int) -> bool {
        on_grid(self.width as int, self.height as int, x, y)
    }

    /// The kind of the tile `(x, y)`.
    pub open spec fn tile_at(&self, x: int, y: int) -> TileType {
        self.tiles@[tile_index(self.width as int, x, y)]
    }

    /// The index of the tile `(x, y)` in the arrays.
    pub fn xy_idx(&self, x: i32, y: i32) -> (idx: usize)
        requires
            self.wf(),
            self.in_bounds(x as int, y as int),
        ensures
            idx == tile_index(self.width as int, x as int, y as int),
            idx < self.tiles@.len(),
    {
        let count = self.tiles.len();
        proof {
            lemma_tile_index(self.width as int, self.height as int, x as int, y as int);
            assert(0 <= y * self.width) by (nonlinear_arith)
                requires
                    0 <= y,
                    0 <= self.width,
            ;
        }
        let row: usize = (y as usize) * (self.width as usize);
        row + (x as usize)
    }

    /// The column and row of the tile with the index `idx`.
    pub fn idx_xy(&self, idx: usize) -> (p: (i32, i32))
        requires
            self.wf(),
            idx < self.tiles@.len(),
        ensures
            self.in_bounds(p.0 as int, p.1 as int),
            tile_index(self.width as int, p.0 as int, p.1 as int) == idx,
            p.0 == idx as int % self.width as int,
            p.1 == idx as int / self.width as int,
    {
        proof {
            lemma_index_tile(self.width as int, self.height as int, idx as int);
        }
        let w: usize = self.width as usize;
        ((idx % w) as i32, (idx / w) as i32)
    }

    /// Whether a step may end on `(x, y)`: the tile lies on the grid and is
    /// not blocked.
    pub fn is_exit_valid(&self, x: i32, y: i32) -> (valid: bool)
        requires
            self.wf(),
        ensures
            valid == (self.in_bounds(x as int, y as int) && !self.blocked@[tile_index(
                self.width as int,
                x as int,
                y as int,
            )]),
    {
        if x < 0 || x >= self.width || y < 0 || y >= self.height {
            return false;
        }
        let idx = self.xy_idx(x, y);
        !self.blocked[idx]
    }

    /// Marks as blocked the tiles that are walls, and no others.
    pub fn populate_blocked(&mut self)
        requires
            old(self).wf(),
        ensures
            final(self).wf(),
            blocked_by_walls(final(self).tiles@, final(self).blocked@),
            final(self)@ == (GridView { blocked: final(self).blocked@, ..old(self)@ }),
    {
        let n = self.tiles.len();
        let mut i: usize = 0;
        while i < n
            invariant
                n == self.tiles@.len(),
                i <= n,
                self.wf(),
                self@ == (GridView { blocked: self.blocked@, ..old(self)@ }),
                forall|k: int|
                    0 <= k < i ==> self.blocked@[k] == (#[trigger] self.tiles@[k]
                        == TileType::Wall),
            decreases n - i,
        {
            let wall = self.tiles[i] == TileType::Wall;
            let ghost prior = self@;
            self.blocked.set(i, wall);
            assert(self@.bloodstains == prior.bloodstains);
            i = i + 1;
        }
    }

    /// Empties the list of occupants of every tile.
    pub fn clear_content_index(&mut self)
        requires
            old(self).wf(),
        ensures
            final(self).wf(),
            final(self)@ == (GridView {
                tile_content: Seq::new(
                    old(self).tiles@.len(),
                    |i: int| Seq::<EntityRef>::empty(),
                ),
                ..old(self)@
            }),
    {
        let n = self.tile_content.len();
        let mut i: usize = 0;
        while i < n
            invariant
                n == self.tile_content@.len(),
                i <= n,
                self.wf(),
                self@ == (GridView { tile_content: self@.tile_content, ..old(self)@ }),
                forall|k: int| 0 <= k < i ==> (#[trigger] self.tile_content@[k])@.len() == 0,
            decreases n - i,
        {
            let ghost prior = self@;
            self.tile_content.set(i, Vec::new());
            assert(self@.bloodstains == prior.bloodstains);
            i = i + 1;
        }
        assert(self@.tile_content =~= Seq::new(
            old(self).tiles@.len(),
            |i: int| Seq::<EntityRef>::empty(),
        )) by {
            assert forall|k: int| 0 <= k < n implies self@.tile_content[k]
                == Seq::<EntityRef>::empty() by {}
        }
    }

    /// The level of the standard size that is solid rock: every tile a wall,
    /// nothing seen, nothing blocked yet, nothing on it.
    pub open spec fn solid(depth: i32) -> GridView {
        GridView {
            tiles: Seq::new(MAPCOUNT as nat, |i: int| TileType::Wall),
            height: MAPHEIGHT as int,
            width: MAPWIDTH as int,
            revealed_tiles: Seq::new(MAPCOUNT as nat, |i: int| false),
            visible_tiles: Seq::new(MAPCOUNT as nat, |i: int| false),
            blocked: Seq::new(MAPCOUNT as nat, |i: int| false),
            depth: depth as int,
            bloodstains: Set::empty(),
            tile_content: Seq::new(MAPCOUNT as nat, |i: int| Seq::<EntityRef>::empty()),
        }
    }

    /// A level of the given size that is solid rock: every tile a wall,
    /// nothing seen, nothing blocked yet, nothing on it.
    pub fn with_size(width: i32, height: i32, new_depth: i32) -> (map: Grid)
        requires
            0 <= width,
            0 <= height,
            width * height <= usize::MAX,
        ensures
            map.wf(),
            map.width == width,
            map.height == height,
            map.depth == new_depth,
            forall|i: int| 0 <= i < map.tiles@.len() ==> map.tiles@[i] == TileType::Wall,
            forall|i: int| 0 <= i < map.tiles@.len() ==> !map.revealed_tiles@[i],
            forall|i: int| 0 <= i < map.tiles@.len() ==> !map.visible_tiles@[i],
            forall|i: int| 0 <= i < map.tiles@.len() ==> !map.blocked@[i],
            forall|i: int| 0 <= i < map.tiles@.len() ==> map.tile_content@[i]@.len() == 0,
            map.bloodstains@ == Set::<usize>::empty(),
    {
        assert(0 <= width * height <= 0x4000_0000_0000_0000) by (nonlinear_arith)
            requires
                0 <= width <= 0x7fff_ffff,
                0 <= height <= 0x7fff_ffff,
        ;
        let count: usize = ((width as u64) * (height as u64)) as usize;
        let mut tiles: Vec<TileType> = Vec::new();
        let mut revealed_tiles: Vec<bool> = Vec::new();
        let mut visible_tiles: Vec<bool> = Vec::new();
        let mut blocked: Vec<bool> = Vec::new();
        let mut tile_content: Vec<Vec<EntityRef>> = Vec::new();
        let mut i: usize = 0;
        while i < count
            invariant
                i <= count,
                tiles@.len() == i,
                revealed_tiles@.len() == i,
                visible_tiles@.len() == i,
                blocked@.len() == i,
                tile_content@.len() == i,
                forall|k: int| 0 <= k < i ==> tiles@[k] == TileType::Wall,
                forall|k: int| 0 <= k < i ==> !revealed_tiles@[k],
                forall|k: int| 0 <= k < i ==> !visible_tiles@[k],
                forall|k: int| 0 <= k < i ==> !blocked@[k],
                forall|k: int| 0 <= k < i ==> tile_content@[k]@.len() == 0,
            decreases count - i,
        {
            tiles.push(TileType::Wall);
            revealed_tiles.push(false);
            visible_tiles.push(false);
            blocked.push(false);
            tile_content.push(Vec::new());
            i = i + 1;
        }
        Grid {
            tiles,
            width,
            height,
            revealed_tiles,
            visible_tiles,
            blocked,
            depth: new_depth,
            bloodstains: HashSet::new(),
            tile_content,
        }
    }

    /// A level of the standard size that is solid rock.
    pub fn new(new_depth: i32) -> (map: Grid)
        ensures
            map.wf(),
            map@ == Grid::solid(new_depth),
            map.width == MAPWIDTH,
            map.height == MAPHEIGHT,
            map.depth == new_depth,
            map.tiles@.len() == MAPCOUNT,
            forall|i: int| 0 <= i < map.tiles@.len() ==> map.tiles@[i] == TileType::Wall,
            forall|i: int| 0 <= i < map.tiles@.len() ==> !map.revealed_tiles@[i],
            forall|i: int| 0 <= i < map.tiles@.len() ==> !map.visible_tiles@[i],
            forall|i: int| 0 <= i < map.tiles@.len() ==> !map.blocked@[i],
            forall|i: int| 0 <= i < map.tiles@.len() ==> map.tile_content@[i]@.len() == 0,
            map.bloodstains@ == Set::<usize>::empty(),
    {
        let map = Grid::with_size(80, 43, new_depth);
        proof {
            let solid = Grid::solid(new_depth);
            assert(map@.tiles =~= solid.tiles);
            assert(map@.revealed_tiles =~= solid.revealed_tiles);
            assert(map@.visible_tiles =~= solid.visible_tiles);
            assert(map@.blocked =~= solid.blocked);
            assert(map@.tile_content =~= solid.tile_content) by {
                assert forall|i: int| 0 <= i < map@.tile_content.len() implies map@.tile_content[i]
                    == solid.tile_content[i] by {}
            }
        }
        map
    }

    /// Makes the tile with the index `idx` one of the given kind.
    pub fn set_tile(&mut self, idx: usize, kind: TileType)
        requires
            old(self).wf(),
            idx < old(self).tiles@.len(),
        ensures
            final(self).wf(),
            final(self)@ == (GridView {
                tiles: old(self).tiles@.update(idx as int, kind),
                ..old(self)@
            }),
    {
        self.tiles.set(idx, kind);
    }

    /// How many tiles are of the given kind.
    pub fn count_tiles(&self, kind: TileType) -> (n: usize)
        ensures
            n == count_kind(self.tiles@, kind, self.tiles@.len() as int),
    {
        let mut n: usize = 0;
        let mut i: usize = 0;
        while i < self.tiles.len()
            invariant
                i <= self.tiles@.len(),
                n == count_kind(self.tiles@, kind, i as int),
                n <= i,
            decreases self.tiles@.len() - i,
        {
            if self.tiles[i] == kind {
                n = n + 1;
            }
            i = i + 1;
        }
        n
    }
}

impl Clone for Grid {
    fn clone(&self) -> (copy: Grid)
        ensures
            copy@ == self@,
    {
        let mut tile_content: Vec<Vec<EntityRef>> = Vec::new();
        let mut i: usize = 0;
        while i < self.tile_content.len()
            invariant
                i <= self.tile_content@.len(),
                tile_content@.len() == i,
                forall|k: int| 0 <= k < i ==> tile_content@[k]@ == self.tile_content@[k]@,
            decreases self.tile_content@.len() - i,
        {
            let row = self.tile_content[i].clone();
            tile_content.push(row);
            i = i + 1;
        }
        let tiles = self.tiles.clone();
        let revealed_tiles = self.revealed_tiles.clone();
        let visible_tiles = self.visible_tiles.clone();
        let blocked = self.blocked.clone();
        let copy = Grid {
            tiles,
            width: self.width,
            height: self.height,
            revealed_tiles,
            visible_tiles,
            blocked,
            depth: self.depth,
            bloodstains: clone_index_set(&self.bloodstains),
            tile_content,
        };
        assert(copy@.tile_content =~= self@.tile_content);
        copy
    }
}

/// The glyph for a wall whose walls next to it are told by `mask`: one for a
/// wall to the north, two for one to the south, four for one to the west,
/// eight for one to the east, added up.
pub open spec fn glyph_for_mask(mask: int) -> int {
    if mask == 0 {
        9
    } else if mask == 1 || mask == 2 || mask == 3 {
        186
    } else if mask == 4 || mask == 8 || mask == 12 {
        205
    } else if mask == 5 {
        188
    } else if mask == 6 {
        187
    } else if mask == 7 {
        185
    } else if mask == 9 {
        200
    } else if mask == 10 {
        201
    } else if mask == 11 {
        204
    } else if mask == 13 {
        202
    } else if mask == 14 {
        203
    } else if mask == 15 {
        206
    } else {
        35
    }
}

/// One where the tile `(x, y)` is a wall that has been seen, nought where
/// not.
pub open spec fn seen_wall(map: GridView, x: int, y: int) -> int {
    if map.tiles[tile_index(map.width, x, y)] == TileType::Wall && map.revealed_tiles[tile_index(
        map.width,
        x,
        y,
    )] {
        1
    } else {
        0
    }
}

/// The glyph with which the wall on `(x, y)` is drawn: the hash on the rim
/// of the level and outside it, and inside the rim the line that joins the
/// walls next to it that have been seen.
pub open spec fn wall_glyph_of(map: GridView, x: int, y: int) -> int {
    if x < 1 || x > map.width - 2 || y < 1 || y > map.height - 2 {
        35
    } else {
        glyph_for_mask(
            seen_wall(map, x, y - 1) + 2 * seen_wall(map, x, y + 1) + 4 * seen_wall(map, x - 1, y)
                + 8 * seen_wall(map, x + 1, y),
        )
    }
}

/// Whether the tile `(x, y)` is a wall that has been seen.
pub fn is_revealed_and_wall(map: &Grid, x: i32, y: i32) -> (seen: bool)
    requires
        map.wf(),
        map.in_bounds(x as int, y as int),
    ensures
        seen == (seen_wall(map@, x as int, y as int) == 1),
{
    let idx = map.xy_idx(x, y);
    map.tiles[idx] == TileType::Wall && map.revealed_tiles[idx]
}

/// The glyph with which the wall on `(x, y)` is drawn.
pub fn wall_glyph(map: &Grid, x: i32, y: i32) -> (glyph: u16)
    requires
        map.wf(),
    ensures
        glyph == wall_glyph_of(map@, x as int, y as int),
{
    if x < 1 || x > map.width - 2 || y < 1 || y > map.height - 2 {
        return 35;
    }
    let mut mask: u8 = 0;
    if is_revealed_and_wall(map, x, y - 1) {
        mask = mask + 1;
    }
    if is_revealed_and_wall(map, x, y + 1) {
        mask = mask + 2;
    }
    if is_revealed_and_wall(map, x - 1, y) {
        mask = mask + 4;
    }
    if is_revealed_and_wall(map, x + 1, y) {
        mask = mask + 8;
    }
    if mask == 0 {
        9
    } else if mask == 1 || mask == 2 || mask == 3 {
        186
    } else if mask == 4 || mask == 8 || mask == 12 {
        205
    } else if mask == 5 {
        188
    } else if mask == 6 {
        187
    } else if mask == 7 {
        185
    } else if mask == 9 {
        200
    } else if mask == 10 {
        201
    } else if mask == 11 {
        204
    } else if mask == 13 {
        202
    } else if mask == 14 {
        203
    } else if mask == 15 {
        206
    } else {
        35
    }
}

} // verus!
