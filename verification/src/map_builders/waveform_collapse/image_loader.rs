//! Levels read from a picture of glyphs.

use crate::map::{lemma_tile_index, Grid, GridView, TileType};
use crate::map_builders::no_stairs;
use vstd::prelude::*;

verus! {

/// The glyph that stands for floor: the space.
pub const FLOOR_GLYPH: u32 = 32;

/// The glyph that stands for a wall: the hash.
pub const WALL_GLYPH: u32 = 35;

/// One layer of a picture: the glyph of every cell, column after column.
pub struct RexLayer {
    pub width: usize,
    pub height: usize,
    pub cells: Vec<u32>,
}

/// A picture: a stack of layers, nearest last.
pub struct RexImage {
    pub layers: Vec<RexLayer>,
}

impl RexLayer {
    /// The layer holds one glyph for each of its cells.
    pub open spec fn wf(&self) -> bool {
        self.cells@.len() == self.width * self.height
    }

    /// The glyph of the cell `(x, y)`.
    pub open spec fn glyph_at(&self, x: int, y: int) -> u32 {
        self.cells@[x * self.height as int + y]
    }

    /// A layer of the given size in which every glyph is zero.
    pub fn new(width: usize, height: usize) -> (layer: RexLayer)
        requires
            width * height <= usize::MAX,
        ensures
            layer.wf(),
            layer.width == width,
            layer.height == height,
            forall|i: int| 0 <= i < layer.cells@.len() ==> layer.cells@[i] == 0,
    {
        let count = width * height;
        let mut cells: Vec<u32> = Vec::new();
        let mut i: usize = 0;
        while i < count
            invariant
                i <= count,
                cells@.len() == i,
                forall|k: int| 0 <= k < i ==> cells@[k] == 0,
            decreases count - i,
        {
            cells.push(0);
            i = i + 1;
        }
        RexLayer { width, height, cells }
    }

    /// The glyph of the cell `(x, y)`, or nothing where the layer has no
    /// such cell.
    pub fn get(&self, x: usize, y: usize) -> (glyph: Option<u32>)
        requires
            self.wf(),
        ensures
            glyph == if x < self.width && y < self.height {
                Some(self.glyph_at(x as int, y as int))
            } else {
                None
            },
    {
        if x < self.width && y < self.height {
            let count = self.cells.len();
            proof {
                lemma_tile_index(self.height as int, self.width as int, y as int, x as int);
                assert(self.height * self.width == self.width * self.height) by (nonlinear_arith);
            }
            Some(self.cells[x * self.height + y])
        } else {
            None
        }
    }

    /// Puts a glyph on the cell `(x, y)`.
    pub fn set(&mut self, x: usize, y: usize, glyph: u32)
        requires
            old(self).wf(),
            x < old(self).width,
            y < old(self).height,
        ensures
            final(self).wf(),
            final(self).width == old(self).width,
            final(self).height == old(self).height,
            final(self).cells@ == old(self).cells@.update(x * old(self).height + y, glyph),
    {
        let count = self.cells.len();
        proof {
            lemma_tile_index(self.height as int, self.width as int, y as int, x as int);
        }
        let at = x * self.height + y;
        self.cells.set(at, glyph);
    }
}

impl RexImage {
    /// Every layer of the picture is in order.
    pub open spec fn wf(&self) -> bool {
        forall|i: int| 0 <= i < self.layers@.len() ==> (#[trigger] self.layers@[i]).wf()
    }
}

/// What a tile becomes under a glyph: floor under the space, wall under the
/// hash, and what it was under any other.
pub open spec fn tile_for_glyph(glyph: u32, tile: TileType) -> TileType {
    if glyph == FLOOR_GLYPH {
        TileType::Floor
    } else if glyph == WALL_GLYPH {
        TileType::Wall
    } else {
        tile
    }
}

/// The tiles with a layer laid over them: every tile of the grid under a
/// cell of the layer becomes what the glyph of the cell says.
pub open spec fn with_layer(tiles: Seq<TileType>, width: int, layer: RexLayer) -> Seq<TileType> {
    Seq::new(
        tiles.len(),
        |i: int|
            if i % width < layer.width && i / width < layer.height {
                tile_for_glyph(layer.glyph_at(i % width, i / width), tiles[i])
            } else {
                tiles[i]
            },
    )
}

/// The tiles with the first `n` layers laid over them, one after the other.
pub open spec fn with_layers(tiles: Seq<TileType>, width: int, layers: Seq<RexLayer>, n: int) -> Seq<
    TileType,
>
    decreases n,
{
    if n <= 0 {
        tiles
    } else {
        with_layer(with_layers(tiles, width, layers, n - 1), width, layers[n - 1])
    }
}

/// Laying layers over tiles makes no stairs.
pub proof fn lemma_layers_no_stairs(tiles: Seq<TileType>, width: int, layers: Seq<RexLayer>, n: int)
    requires
        no_stairs(tiles),
    ensures
        no_stairs(with_layers(tiles, width, layers, n)),
        with_layers(tiles, width, layers, n).len() == tiles.len(),
    decreases n,
{
    if n > 0 {
        lemma_layers_no_stairs(tiles, width, layers, n - 1);
    }
}

/// Lays one layer over the level.
fn apply_layer(map: &mut Grid, layer: &RexLayer)
    requires
        old(map).wf(),
        layer.wf(),
    ensures
        final(map).wf(),
        final(map)@ == (GridView {
            tiles: with_layer(old(map).tiles@, old(map).width as int, *layer),
            ..old(map)@
        }),
{
    let ghost before = map.tiles@;
    let ghost w = map.width as int;
    let ghost h = map.height as int;
    let n = map.tiles.len();
    let mut i: usize = 0;
    while i < n
        invariant
            map.wf(),
            layer.wf(),
            i <= n,
            n == before.len(),
            w == map.width,
            h == map.height,
            map@ == (GridView { tiles: map.tiles@, ..old(map)@ }),
            map.tiles@.len() == n,
            forall|t: int|
                0 <= t < n ==> #[trigger] map.tiles@[t] == if t < i {
                    with_layer(before, w, *layer)[t]
                } else {
                    before[t]
                },
        decreases n - i,
    {
        let (x, y) = map.idx_xy(i);
        match layer.get(x as usize, y as usize) {
            Some(glyph) => {
                if glyph == FLOOR_GLYPH {
                    map.set_tile(i, TileType::Floor);
                } else if glyph == WALL_GLYPH {
                    map.set_tile(i, TileType::Wall);
                }
            },
            None => {},
        }
        i = i + 1;
    }
    assert(map.tiles@ =~= with_layer(before, w, *layer));
}

/// A level of the standard size, solid rock but for what the picture shows:
/// its layers are laid over the level one after the other, the corner of
/// each on the corner of the level.
pub fn load_rex_map(new_depth: i32, image: &RexImage) -> (map: Grid)
    requires
        image.wf(),
    ensures
        map.wf(),
        map@ == (GridView {
            tiles: with_layers(
                Grid::solid(new_depth).tiles,
                Grid::solid(new_depth).width,
                image.layers@,
                image.layers@.len() as int,
            ),
            ..Grid::solid(new_depth)
        }),
        no_stairs(map.tiles@),
{
    let mut map = Grid::new(new_depth);
    let mut l: usize = 0;
    while l < image.layers.len()
        invariant
            image.wf(),
            map.wf(),
            l <= image.layers@.len(),
            map@ == (GridView {
                tiles: with_layers(
                    Grid::solid(new_depth).tiles,
                    Grid::solid(new_depth).width,
                    image.layers@,
                    l as int,
                ),
                ..Grid::solid(new_depth)
            }),
        decreases image.layers@.len() - l,
    {
        apply_layer(&mut map, &image.layers[l]);
        l = l + 1;
    }
    proof {
        lemma_layers_no_stairs(
            Grid::solid(new_depth).tiles,
            Grid::solid(new_depth).width,
            image.layers@,
            image.layers@.len() as int,
        );
    }
    map
}

} // verus!
