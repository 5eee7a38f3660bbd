//! The patterns of pattern-based synthesis.

use crate::map::TileType;
use vstd::prelude::*;

verus! {

pub const NORTH: usize = 0;

pub const SOUTH: usize = 1;

pub const WEST: usize = 2;

pub const EAST: usize = 3;

/// A square pattern of tiles with, for each of its four sides, the places
/// where the side can be crossed, and the patterns that may lie beyond it.
pub struct MapChunk {
    pub pattern: Vec<TileType>,
    pub exits: [Vec<bool>; 4],
    pub has_exits: bool,
    pub compatible_with: [Vec<usize>; 4],
}

/// The index of the tile `(x, y)` in a pattern that is `chunk_size` tiles
/// wide.
pub fn tile_idx_in_chunk(chunk_size: i32, x: i32, y: i32) -> (idx: usize)
    requires
        0 <= x,
        0 <= y,
        0 <= chunk_size,
        y * chunk_size + x <= usize::MAX,
    ensures
        idx == y * chunk_size + x,
{
    assert(0 <= y * chunk_size <= 0x4000_0000_0000_0000) by (nonlinear_arith)
        requires
            0 <= y <= 0x7fff_ffff,
            0 <= chunk_size <= 0x7fff_ffff,
    ;
    let wide: u64 = (y as u64) * (chunk_size as u64) + (x as u64);
    wide as usize
}

/// The side that lies against the given side of a neighbour.
pub open spec fn opposite_side(side: int) -> int {
    if side == NORTH {
        SOUTH as int
    } else if side == SOUTH {
        NORTH as int
    } else if side == WEST {
        EAST as int
    } else {
        WEST as int
    }
}

/// The index in a pattern of the tile in place `slot` of the given side.
pub open spec fn edge_tile(chunk_size: int, side: int, slot: int) -> int {
    if side == NORTH {
        slot
    } else if side == SOUTH {
        (chunk_size - 1) * chunk_size + slot
    } else if side == WEST {
        slot * chunk_size
    } else {
        slot * chunk_size + (chunk_size - 1)
    }
}

/// Where the given side of a pattern can be crossed: where its tile is
/// floor.
pub open spec fn exits_of(pattern: Seq<TileType>, chunk_size: int, side: int) -> Seq<bool> {
    Seq::new(
        chunk_size as nat,
        |slot: int| pattern[edge_tile(chunk_size, side, slot)] == TileType::Floor,
    )
}

/// The side can be crossed somewhere.
pub open spec fn any_exit(flags: Seq<bool>) -> bool {
    exists|slot: int| 0 <= slot < flags.len() && #[trigger] flags[slot]
}

/// The two sides can be crossed in one place.
pub open spec fn exits_align(ours: Seq<bool>, theirs: Seq<bool>) -> bool {
    exists|slot: int| 0 <= slot < ours.len() && slot < theirs.len() && #[trigger] ours[slot] && theirs[slot]
}

/// Two sides may lie against each other: one of them cannot be crossed at
/// all, or both can be crossed in one place.
pub open spec fn sides_compatible(ours: Seq<bool>, theirs: Seq<bool>) -> bool {
    !any_exit(ours) || !any_exit(theirs) || exits_align(ours, theirs)
}

/// The pattern `theirs` may lie beyond the given side of the pattern `ours`.
pub open spec fn chunks_compatible(ours: MapChunk, theirs: MapChunk, side: int) -> bool {
    sides_compatible(ours.exits@[side]@, theirs.exits@[opposite_side(side)]@)
}

/// The numbers of the patterns among the first `n` that may lie beyond the
/// given side of the pattern `ours`, in rising order.
pub open spec fn compatible_upto(chunks: Seq<MapChunk>, ours: MapChunk, side: int, n: int) -> Seq<
    usize,
>
    decreases n,
{
    if n <= 0 {
        Seq::empty()
    } else if chunks_compatible(ours, chunks[n - 1], side) {
        compatible_upto(chunks, ours, side, n - 1).push((n - 1) as usize)
    } else {
        compatible_upto(chunks, ours, side, n - 1)
    }
}

/// The pattern knows its own sides: it is a square of the given size, its
/// exits are where the tiles of its sides are floor, and it is marked as
/// having exits where any side has one.
pub open spec fn chunk_wf(chunk: MapChunk, chunk_size: int) -> bool {
    &&& chunk.pattern@.len() == chunk_size * chunk_size
    &&& forall|side: int|
        0 <= side < 4 ==> #[trigger] chunk.exits@[side]@ == exits_of(
            chunk.pattern@,
            chunk_size,
            side,
        )
    &&& chunk.has_exits == exists|side: int| 0 <= side < 4 && any_exit(#[trigger] chunk.exits@[side]@)
}

/// The patterns know their sides and each other: every pattern lists, for
/// each of its sides, exactly the patterns that may lie beyond it.
pub open spec fn constraints_ok(chunks: Seq<MapChunk>, chunk_size: int) -> bool {
    &&& forall|i: int| 0 <= i < chunks.len() ==> chunk_wf(#[trigger] chunks[i], chunk_size)
    &&& forall|i: int, side: int|
        0 <= i < chunks.len() && 0 <= side < 4 ==> (#[trigger] chunks[i].compatible_with@[side])@
            == compatible_upto(chunks, chunks[i], side, chunks.len() as int)
}

/// What may lie beyond a side does not depend on which of the two patterns
/// is asked.
pub proof fn lemma_compatibility_mutual(ours: MapChunk, theirs: MapChunk, side: int)
    requires
        0 <= side < 4,
    ensures
        chunks_compatible(ours, theirs, side) == chunks_compatible(
            theirs,
            ours,
            opposite_side(side),
        ),
{
    let a = ours.exits@[side]@;
    let b = theirs.exits@[opposite_side(side)]@;
    if exits_align(a, b) {
        let slot = choose|slot: int| 0 <= slot < a.len() && slot < b.len() && #[trigger] a[slot] && b[slot];
        assert(b[slot] && a[slot]);
    }
    if exits_align(b, a) {
        let slot = choose|slot: int| 0 <= slot < b.len() && slot < a.len() && #[trigger] b[slot] && a[slot];
        assert(a[slot] && b[slot]);
    }
}

/// A list of compatible patterns holds a number exactly where the pattern
/// with that number is compatible.
pub proof fn lemma_compatible_upto(
    chunks: Seq<MapChunk>,
    ours: MapChunk,
    side: int,
    n: int,
    j: int,
)
    requires
        0 <= n <= chunks.len(),
        n <= usize::MAX,
    ensures
        compatible_upto(chunks, ours, side, n).contains(j as usize) && 0 <= j <= usize::MAX <==> 0
            <= j < n && chunks_compatible(ours, chunks[j], side),
    decreases n,
{
    if n > 0 {
        lemma_compatible_upto(chunks, ours, side, n - 1, j);
        let rest = compatible_upto(chunks, ours, side, n - 1);
        let all = compatible_upto(chunks, ours, side, n);
        if chunks_compatible(ours, chunks[n - 1], side) {
            if rest.contains(j as usize) {
                let t = choose|t: int| 0 <= t < rest.len() && rest[t] == j as usize;
                assert(all[t] == j as usize);
            }
            if j == n - 1 {
                assert(all[all.len() - 1] == j as usize);
            }
            if all.contains(j as usize) && 0 <= j <= usize::MAX {
                let t = choose|t: int| 0 <= t < all.len() && all[t] == j as usize;
            }
        }
    }
}

} // verus!
