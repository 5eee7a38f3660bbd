//! The patterns of a level and what may lie beside what.

use crate::map::{lemma_index_tile, lemma_tile_index, tile_index, Grid, GridView, TileType};
use crate::map_builders::waveform_collapse::common::{
    any_exit, chunk_wf, chunks_compatible, compatible_upto, constraints_ok, edge_tile, exits_align,
    exits_of, opposite_side, tile_idx_in_chunk, MapChunk, EAST, NORTH, SOUTH, WEST,
};
use vstd::prelude::*;

verus! {

/// The tile in place `k` of the square pattern of the given size whose
/// corner lies on `(start_x, start_y)`, read as it lies or mirrored.
pub open spec fn pattern_tile(
    tiles: Seq<TileType>,
    width: int,
    chunk_size: int,
    start_x: int,
    start_y: int,
    flip_x: bool,
    flip_y: bool,
    k: int,
) -> TileType {
    let px = k % chunk_size;
    let py = k / chunk_size;
    let sx = if flip_x {
        chunk_size - 1 - px
    } else {
        px
    };
    let sy = if flip_y {
        chunk_size - 1 - py
    } else {
        py
    };
    tiles[tile_index(width, start_x + sx, start_y + sy)]
}

/// The square pattern whose corner lies on `(start_x, start_y)`, row after
/// row, read as it lies or mirrored left to right, top to bottom, or both.
pub open spec fn pattern_at(
    tiles: Seq<TileType>,
    width: int,
    chunk_size: int,
    start_x: int,
    start_y: int,
    flip_x: bool,
    flip_y: bool,
) -> Seq<TileType> {
    Seq::new(
        (chunk_size * chunk_size) as nat,
        |k: int| pattern_tile(tiles, width, chunk_size, start_x, start_y, flip_x, flip_y, k),
    )
}

/// The pattern is a square of the given size made of tiles that occur
/// among `tiles`.
pub open spec fn taken_from(pattern: Seq<TileType>, tiles: Seq<TileType>, chunk_size: int) -> bool {
    &&& pattern.len() == chunk_size * chunk_size
    &&& forall|k: int| 0 <= k < pattern.len() ==> tiles.contains(#[trigger] pattern[k])
}

/// The patterns of one square of the level: the square as it lies and,
/// where mirroring is asked for, mirrored left to right, top to bottom, and
/// both.
pub open spec fn square_patterns(
    tiles: Seq<TileType>,
    width: int,
    chunk_size: int,
    start_x: int,
    start_y: int,
    include_flipping: bool,
) -> Seq<Seq<TileType>> {
    if include_flipping {
        seq![
            pattern_at(tiles, width, chunk_size, start_x, start_y, false, false),
            pattern_at(tiles, width, chunk_size, start_x, start_y, true, false),
            pattern_at(tiles, width, chunk_size, start_x, start_y, false, true),
            pattern_at(tiles, width, chunk_size, start_x, start_y, true, true),
        ]
    } else {
        seq![pattern_at(tiles, width, chunk_size, start_x, start_y, false, false)]
    }
}

/// The patterns of the first `n` squares of the level, the squares taken row
/// after row, `chunks_x` to a row.
pub open spec fn patterns_upto(
    tiles: Seq<TileType>,
    width: int,
    chunk_size: int,
    chunks_x: int,
    include_flipping: bool,
    n: int,
) -> Seq<Seq<TileType>>
    decreases n,
{
    if n <= 0 {
        Seq::empty()
    } else {
        patterns_upto(tiles, width, chunk_size, chunks_x, include_flipping, n - 1)
            + square_patterns(
            tiles,
            width,
            chunk_size,
            ((n - 1) % chunks_x) * chunk_size,
            ((n - 1) / chunks_x) * chunk_size,
            include_flipping,
        )
    }
}

/// The patterns without those that occurred before: what came first stays
/// first.
pub open spec fn deduped(patterns: Seq<Seq<TileType>>) -> Seq<Seq<TileType>>
    decreases patterns.len(),
{
    if patterns.len() == 0 {
        Seq::empty()
    } else {
        let rest = deduped(patterns.drop_last());
        if rest.contains(patterns.last()) {
            rest
        } else {
            rest.push(patterns.last())
        }
    }
}

/// The patterns that a list of patterns holds.
pub open spec fn patterns_view(patterns: Seq<Vec<TileType>>) -> Seq<Seq<TileType>> {
    patterns.map_values(|p: Vec<TileType>| p@)
}

/// Among the patterns without repeats none occurs twice, every pattern
/// occurs, and none that was not there.
pub proof fn lemma_deduped(patterns: Seq<Seq<TileType>>)
    ensures
        deduped(patterns).no_duplicates(),
        forall|p: Seq<TileType>| deduped(patterns).contains(p) <==> patterns.contains(p),
    decreases patterns.len(),
{
    if patterns.len() > 0 {
        let rest = deduped(patterns.drop_last());
        let all = deduped(patterns);
        lemma_deduped(patterns.drop_last());
        assert forall|p: Seq<TileType>| all.contains(p) <==> patterns.contains(p) by {
            if all.contains(p) {
                let t = choose|t: int| 0 <= t < all.len() && all[t] == p;
                if t < rest.len() {
                    assert(patterns.drop_last().contains(p));
                    let u = choose|u: int|
                        0 <= u < patterns.drop_last().len() && patterns.drop_last()[u] == p;
                    assert(patterns[u] == p);
                }
            }
            if patterns.contains(p) {
                let u = choose|u: int| 0 <= u < patterns.len() && patterns[u] == p;
                if u < patterns.len() - 1 {
                    assert(patterns.drop_last()[u] == p);
                    assert(patterns.drop_last().contains(p));
                    let t = choose|t: int| 0 <= t < rest.len() && rest[t] == p;
                    assert(all[t] == p);
                } else if !rest.contains(p) {
                    assert(all[all.len() - 1] == p);
                }
            }
        }
    }
}

/// Whether two patterns are the same.
pub fn same_pattern(a: &Vec<TileType>, b: &Vec<TileType>) -> (same: bool)
    ensures
        same == (a@ == b@),
{
    if a.len() != b.len() {
        return false;
    }
    let mut i: usize = 0;
    while i < a.len()
        invariant
            i <= a@.len(),
            a@.len() == b@.len(),
            forall|k: int| 0 <= k < i ==> a@[k] == b@[k],
        decreases a@.len() - i,
    {
        if a[i] != b[i] {
            return false;
        }
        i = i + 1;
    }
    assert(a@ =~= b@);
    true
}

/// The patterns without those that occurred before.
pub fn dedupe_patterns(patterns: &Vec<Vec<TileType>>) -> (unique: Vec<Vec<TileType>>)
    ensures
        patterns_view(unique@) == deduped(patterns_view(patterns@)),
        forall|i: int| 0 <= i < unique@.len() ==> patterns_view(patterns@).contains(#[trigger] unique@[i]@),
{
    let mut unique: Vec<Vec<TileType>> = Vec::new();
    let ghost all = patterns_view(patterns@);
    let mut i: usize = 0;
    while i < patterns.len()
        invariant
            i <= patterns@.len(),
            all == patterns_view(patterns@),
            patterns_view(unique@) == deduped(all.take(i as int)),
            forall|k: int| 0 <= k < unique@.len() ==> all.contains(#[trigger] unique@[k]@),
        decreases patterns@.len() - i,
    {
        let mut found = false;
        let mut t: usize = 0;
        while t < unique.len()
            invariant
                t <= unique@.len(),
                i < patterns@.len(),
                found == exists|u: int| 0 <= u < t && patterns_view(unique@)[u] == patterns@[i as int]@,
            decreases unique@.len() - t,
        {
            if same_pattern(&unique[t], &patterns[i]) {
                found = true;
                assert(patterns_view(unique@)[t as int] == patterns@[i as int]@);
            }
            t = t + 1;
        }
        proof {
            assert(all.take(i + 1).drop_last() =~= all.take(i as int));
            if patterns_view(unique@).contains(patterns@[i as int]@) {
                let u = choose|u: int|
                    0 <= u < patterns_view(unique@).len() && patterns_view(unique@)[u]
                        == patterns@[i as int]@;
                assert(0 <= u < t);
            }
        }
        if !found {
            let copy = patterns[i].clone();
            let ghost before = unique@;
            unique.push(copy);
            assert forall|k: int| 0 <= k < unique@.len() implies all.contains(#[trigger] unique@[k]@) by {
                if k >= before.len() {
                    assert(all[i as int] == unique@[k]@);
                }
            }
        }
        i = i + 1;
    }
    assert(all.take(patterns@.len() as int) =~= all);
    unique
}

/// Reads the square pattern whose corner lies on `(start_x, start_y)` from
/// the level, as it lies or mirrored.
pub fn extract_pattern(
    map: &Grid,
    chunk_size: i32,
    start_x: i32,
    start_y: i32,
    flip_x: bool,
    flip_y: bool,
) -> (pattern: Vec<TileType>)
    requires
        map.wf(),
        0 < chunk_size,
        0 <= start_x,
        0 <= start_y,
        start_x + chunk_size <= map.width,
        start_y + chunk_size <= map.height,
    ensures
        pattern@ == pattern_at(
            map.tiles@,
            map.width as int,
            chunk_size as int,
            start_x as int,
            start_y as int,
            flip_x,
            flip_y,
        ),
        taken_from(pattern@, map.tiles@, chunk_size as int),
{
    let mut pattern: Vec<TileType> = Vec::new();
    let ghost size = chunk_size as int;
    let mut py: i32 = 0;
    while py < chunk_size
        invariant
            map.wf(),
            0 < chunk_size,
            size == chunk_size,
            0 <= py <= chunk_size,
            0 <= start_x,
            0 <= start_y,
            start_x + chunk_size <= map.width,
            start_y + chunk_size <= map.height,
            pattern@.len() == py * chunk_size,
            forall|k: int| 0 <= k < pattern@.len() ==> map.tiles@.contains(#[trigger] pattern@[k]),
            forall|k: int|
                0 <= k < pattern@.len() ==> pattern@[k] == pattern_tile(
                    map.tiles@,
                    map.width as int,
                    size,
                    start_x as int,
                    start_y as int,
                    flip_x,
                    flip_y,
                    k,
                ),
        decreases chunk_size - py,
    {
        let mut px: i32 = 0;
        while px < chunk_size
            invariant
                map.wf(),
                0 < chunk_size,
                size == chunk_size,
                0 <= py < chunk_size,
                0 <= px <= chunk_size,
                0 <= start_x,
                0 <= start_y,
                start_x + chunk_size <= map.width,
                start_y + chunk_size <= map.height,
                pattern@.len() == py * chunk_size + px,
                forall|k: int|
                    0 <= k < pattern@.len() ==> map.tiles@.contains(#[trigger] pattern@[k]),
                forall|k: int|
                    0 <= k < pattern@.len() ==> pattern@[k] == pattern_tile(
                        map.tiles@,
                        map.width as int,
                        size,
                        start_x as int,
                        start_y as int,
                        flip_x,
                        flip_y,
                        k,
                    ),
            decreases chunk_size - px,
        {
            let sx: i32 = if flip_x {
                chunk_size - 1 - px
            } else {
                px
            };
            let sy: i32 = if flip_y {
                chunk_size - 1 - py
            } else {
                py
            };
            let idx = map.xy_idx(start_x + sx, start_y + sy);
            proof {
                lemma_tile_index(size, size, px as int, py as int);
            }
            pattern.push(map.tiles[idx]);
            proof {
                assert forall|k: int| 0 <= k < pattern@.len() implies map.tiles@.contains(
                    #[trigger] pattern@[k],
                ) by {}
            }
            px = px + 1;
        }
        assert((py + 1) * chunk_size == py * chunk_size + chunk_size) by (nonlinear_arith);
        py = py + 1;
    }
    assert(pattern@ =~= pattern_at(
        map.tiles@,
        map.width as int,
        size,
        start_x as int,
        start_y as int,
        flip_x,
        flip_y,
    ));
    pattern
}

/// The patterns of the level: the level is cut into squares of the given
/// size, row after row, what is left over at its right and lower side
/// dropped, and every square gives its pattern, with its three mirror
/// images where mirroring is asked for. Where asked for, patterns that
/// occurred before are left out.
pub fn build_patterns(map: &Grid, chunk_size: i32, include_flipping: bool, dedupe: bool) -> (patterns:
    Vec<Vec<TileType>>)
    requires
        map.wf(),
        0 < chunk_size,
    ensures
        forall|i: int|
            0 <= i < patterns@.len() ==> taken_from(
                (#[trigger] patterns@[i])@,
                map.tiles@,
                chunk_size as int,
            ),
        patterns_view(patterns@) == if dedupe {
            deduped(
                patterns_upto(
                    map.tiles@,
                    map.width as int,
                    chunk_size as int,
                    map.width as int / chunk_size as int,
                    include_flipping,
                    (map.width as int / chunk_size as int) * (map.height as int / chunk_size as int),
                ),
            )
        } else {
            patterns_upto(
                map.tiles@,
                map.width as int,
                chunk_size as int,
                map.width as int / chunk_size as int,
                include_flipping,
                (map.width as int / chunk_size as int) * (map.height as int / chunk_size as int),
            )
        },
{
    let chunks_x: i32 = map.width / chunk_size;
    let chunks_y: i32 = map.height / chunk_size;
    let ghost size = chunk_size as int;
    let ghost w = map.width as int;
    let ghost cxs = chunks_x as int;
    let ghost cys = chunks_y as int;
    proof {
        vstd::arithmetic::div_mod::lemma_fundamental_div_mod(map.width as int, size);
        vstd::arithmetic::div_mod::lemma_fundamental_div_mod(map.height as int, size);
        vstd::arithmetic::div_mod::lemma_mod_bound(map.width as int, size);
        vstd::arithmetic::div_mod::lemma_mod_bound(map.height as int, size);
        assert(size * cxs == cxs * size && size * cys == cys * size) by (nonlinear_arith);
    }
    let mut patterns: Vec<Vec<TileType>> = Vec::new();
    let mut cy: i32 = 0;
    let mut start_y: i32 = 0;
    while cy < chunks_y
        invariant
            map.wf(),
            0 < chunk_size,
            size == chunk_size,
            w == map.width,
            cxs == chunks_x,
            cys == chunks_y,
            0 <= cy <= chunks_y,
            0 <= chunks_x,
            cxs * size <= map.width,
            cys * size <= map.height,
            start_y == cy * chunk_size,
            forall|i: int|
                0 <= i < patterns@.len() ==> taken_from((#[trigger] patterns@[i])@, map.tiles@, size),
            patterns_view(patterns@) == patterns_upto(
                map.tiles@,
                w,
                size,
                cxs,
                include_flipping,
                cy * cxs,
            ),
        decreases chunks_y - cy,
    {
        let mut cx: i32 = 0;
        let mut start_x: i32 = 0;
        proof {
            assert((cy + 1) * size <= cys * size) by (nonlinear_arith)
                requires
                    cy + 1 <= cys,
                    0 < size,
            ;
            assert((cy + 1) * size == cy * size + size) by (nonlinear_arith);
        }
        while cx < chunks_x
            invariant
                map.wf(),
                0 < chunk_size,
                size == chunk_size,
                w == map.width,
                cxs == chunks_x,
                cys == chunks_y,
                0 <= cy < chunks_y,
                0 <= cx <= chunks_x,
                cxs * size <= map.width,
                cys * size <= map.height,
                start_y == cy * chunk_size,
                start_y + chunk_size <= map.height,
                start_x == cx * chunk_size,
                forall|i: int|
                    0 <= i < patterns@.len() ==> taken_from(
                        (#[trigger] patterns@[i])@,
                        map.tiles@,
                        size,
                    ),
                patterns_view(patterns@) == patterns_upto(
                    map.tiles@,
                    w,
                    size,
                    cxs,
                    include_flipping,
                    cy * cxs + cx,
                ),
            decreases chunks_x - cx,
        {
            proof {
                assert((cx + 1) * size <= cxs * size) by (nonlinear_arith)
                    requires
                        cx + 1 <= cxs,
                        0 < size,
                ;
                assert((cx + 1) * size == cx * size + size) by (nonlinear_arith);
                lemma_tile_index(cxs, cys, cx as int, cy as int);
            }
            let plain = extract_pattern(map, chunk_size, start_x, start_y, false, false);
            patterns.push(plain);
            if include_flipping {
                let mirrored = extract_pattern(map, chunk_size, start_x, start_y, true, false);
                patterns.push(mirrored);
                let upturned = extract_pattern(map, chunk_size, start_x, start_y, false, true);
                patterns.push(upturned);
                let turned = extract_pattern(map, chunk_size, start_x, start_y, true, true);
                patterns.push(turned);
            }
            cx = cx + 1;
            start_x = start_x + chunk_size;
        }
        proof {
            assert((cy + 1) * cxs == cy * cxs + cxs) by (nonlinear_arith);
        }
        cy = cy + 1;
        start_y = start_y + chunk_size;
    }
    proof {
        assert(cys * cxs == cxs * cys) by (nonlinear_arith);
    }
    if dedupe {
        let unique = dedupe_patterns(&patterns);
        proof {
            assert forall|i: int| 0 <= i < unique@.len() implies taken_from(
                (#[trigger] unique@[i])@,
                map.tiles@,
                size,
            ) by {
                let all = patterns_view(patterns@);
                let j = choose|j: int| 0 <= j < all.len() && all[j] == unique@[i]@;
                assert(taken_from(patterns@[j]@, map.tiles@, size));
            }
        }
        unique
    } else {
        patterns
    }
}

/// The tiles with a pattern laid on them, its corner on `(start_x,
/// start_y)`.
pub open spec fn with_pattern(
    tiles: Seq<TileType>,
    width: int,
    pattern: Seq<TileType>,
    chunk_size: int,
    start_x: int,
    start_y: int,
) -> Seq<TileType> {
    Seq::new(
        tiles.len(),
        |i: int|
            if start_x <= i % width < start_x + chunk_size && start_y <= i / width < start_y
                + chunk_size {
                pattern[(i / width - start_y) * chunk_size + (i % width - start_x)]
            } else {
                tiles[i]
            },
    )
}

/// What is in sight after a pattern was laid on the level: the tiles under
/// the pattern, and what was in sight before.
pub open spec fn with_pattern_seen(
    visible: Seq<bool>,
    width: int,
    chunk_size: int,
    start_x: int,
    start_y: int,
) -> Seq<bool> {
    Seq::new(
        visible.len(),
        |i: int|
            if start_x <= i % width < start_x + chunk_size && start_y <= i / width < start_y
                + chunk_size {
                true
            } else {
                visible[i]
            },
    )
}

/// Lays a pattern on the level, its corner on `(start_x, start_y)`, and
/// puts its tiles in sight.
pub fn render_pattern_to_map(
    map: &mut Grid,
    pattern: &Vec<TileType>,
    chunk_size: i32,
    start_x: i32,
    start_y: i32,
)
    requires
        old(map).wf(),
        0 < chunk_size,
        pattern@.len() == chunk_size * chunk_size,
        0 <= start_x,
        0 <= start_y,
        start_x + chunk_size <= old(map).width,
        start_y + chunk_size <= old(map).height,
    ensures
        final(map).wf(),
        final(map)@ == (GridView {
            tiles: with_pattern(
                old(map).tiles@,
                old(map).width as int,
                pattern@,
                chunk_size as int,
                start_x as int,
                start_y as int,
            ),
            visible_tiles: with_pattern_seen(
                old(map).visible_tiles@,
                old(map).width as int,
                chunk_size as int,
                start_x as int,
                start_y as int,
            ),
            ..old(map)@
        }),
{
    let ghost before = map.tiles@;
    let ghost seen = map.visible_tiles@;
    let ghost w = map.width as int;
    let ghost h = map.height as int;
    let ghost size = chunk_size as int;
    let count = pattern.len();
    let mut i: usize = 0;
    let mut tile_y: i32 = 0;
    while tile_y < chunk_size
        invariant
            map.wf(),
            count == size * size,
            w == map.width,
            h == map.height,
            size == chunk_size,
            0 < chunk_size,
            0 <= tile_y <= chunk_size,
            pattern@.len() == size * size,
            0 <= start_x,
            0 <= start_y,
            start_x + chunk_size <= map.width,
            start_y + chunk_size <= map.height,
            i == tile_y * chunk_size,
            map@ == (GridView { tiles: map.tiles@, visible_tiles: map.visible_tiles@, ..old(map)@ }),
            map.tiles@.len() == before.len(),
            map.visible_tiles@.len() == seen.len(),
            forall|k: int|
                0 <= k < before.len() ==> #[trigger] map.tiles@[k] == if k / w < start_y + tile_y {
                    with_pattern(before, w, pattern@, size, start_x as int, start_y as int)[k]
                } else {
                    before[k]
                },
            forall|k: int|
                0 <= k < seen.len() ==> #[trigger] map.visible_tiles@[k] == if k / w < start_y
                    + tile_y {
                    with_pattern_seen(seen, w, size, start_x as int, start_y as int)[k]
                } else {
                    seen[k]
                },
        decreases chunk_size - tile_y,
    {
        let mut tile_x: i32 = 0;
        proof {
            assert((tile_y + 1) * size <= size * size) by (nonlinear_arith)
                requires
                    tile_y + 1 <= size,
                    0 < size,
            ;
            assert((tile_y + 1) * size == tile_y * size + size) by (nonlinear_arith);
        }
        while tile_x < chunk_size
            invariant
                map.wf(),
                count == size * size,
                w == map.width,
                h == map.height,
                size == chunk_size,
                0 < chunk_size,
                0 <= tile_y < chunk_size,
                0 <= tile_x <= chunk_size,
                pattern@.len() == size * size,
                tile_y * size + size <= size * size,
                0 <= start_x,
                0 <= start_y,
                start_x + chunk_size <= map.width,
                start_y + chunk_size <= map.height,
                i == tile_y * chunk_size + tile_x,
                map@ == (GridView {
                    tiles: map.tiles@,
                    visible_tiles: map.visible_tiles@,
                    ..old(map)@
                }),
                map.tiles@.len() == before.len(),
                map.visible_tiles@.len() == seen.len(),
                forall|k: int|
                    0 <= k < before.len() ==> #[trigger] map.tiles@[k] == if k / w < start_y
                        + tile_y || (k / w == start_y + tile_y && k % w < start_x + tile_x) {
                        with_pattern(before, w, pattern@, size, start_x as int, start_y as int)[k]
                    } else {
                        before[k]
                    },
                forall|k: int|
                    0 <= k < seen.len() ==> #[trigger] map.visible_tiles@[k] == if k / w < start_y
                        + tile_y || (k / w == start_y + tile_y && k % w < start_x + tile_x) {
                        with_pattern_seen(seen, w, size, start_x as int, start_y as int)[k]
                    } else {
                        seen[k]
                    },
            decreases chunk_size - tile_x,
        {
            let map_idx = map.xy_idx(start_x + tile_x, start_y + tile_y);
            let ghost prior = map.tiles@;
            let ghost prior_seen = map.visible_tiles@;
            let ghost grid = map@;
            map.tiles.set(map_idx, pattern[i]);
            map.visible_tiles.set(map_idx, true);
            proof {
                assert(map@.bloodstains == grid.bloodstains);
                lemma_tile_index(w, h, start_x + tile_x, start_y + tile_y);
                assert forall|k: int| 0 <= k < before.len() implies #[trigger] map.tiles@[k]
                    == if k / w < start_y + tile_y || (k / w == start_y + tile_y && k % w < start_x
                    + tile_x + 1) {
                    with_pattern(before, w, pattern@, size, start_x as int, start_y as int)[k]
                } else {
                    before[k]
                } by {
                    lemma_index_tile(w, h, k);
                    assert(prior[k] == if k / w < start_y + tile_y || (k / w == start_y + tile_y
                        && k % w < start_x + tile_x) {
                        with_pattern(before, w, pattern@, size, start_x as int, start_y as int)[k]
                    } else {
                        before[k]
                    });
                }
                assert forall|k: int| 0 <= k < seen.len() implies #[trigger] map.visible_tiles@[k]
                    == if k / w < start_y + tile_y || (k / w == start_y + tile_y && k % w < start_x
                    + tile_x + 1) {
                    with_pattern_seen(seen, w, size, start_x as int, start_y as int)[k]
                } else {
                    seen[k]
                } by {
                    lemma_index_tile(w, h, k);
                    assert(prior_seen[k] == if k / w < start_y + tile_y || (k / w == start_y
                        + tile_y && k % w < start_x + tile_x) {
                        with_pattern_seen(seen, w, size, start_x as int, start_y as int)[k]
                    } else {
                        seen[k]
                    });
                }
            }
            i = i + 1;
            tile_x = tile_x + 1;
        }
        proof {
            assert forall|k: int| 0 <= k < before.len() implies #[trigger] map.tiles@[k] == if k / w
                < start_y + tile_y + 1 {
                with_pattern(before, w, pattern@, size, start_x as int, start_y as int)[k]
            } else {
                before[k]
            } by {
                lemma_index_tile(w, h, k);
            }
            assert forall|k: int| 0 <= k < seen.len() implies #[trigger] map.visible_tiles@[k]
                == if k / w < start_y + tile_y + 1 {
                with_pattern_seen(seen, w, size, start_x as int, start_y as int)[k]
            } else {
                seen[k]
            } by {
                lemma_index_tile(w, h, k);
            }
        }
        tile_y = tile_y + 1;
    }
    proof {
        assert forall|k: int| 0 <= k < before.len() implies map.tiles@[k] == with_pattern(
            before,
            w,
            pattern@,
            size,
            start_x as int,
            start_y as int,
        )[k] by {
            lemma_index_tile(w, h, k);
        }
        assert forall|k: int| 0 <= k < seen.len() implies map.visible_tiles@[k]
            == with_pattern_seen(seen, w, size, start_x as int, start_y as int)[k] by {
            lemma_index_tile(w, h, k);
        }
        assert(map.tiles@ =~= with_pattern(
            before,
            w,
            pattern@,
            size,
            start_x as int,
            start_y as int,
        ));
        assert(map.visible_tiles@ =~= with_pattern_seen(
            seen,
            w,
            size,
            start_x as int,
            start_y as int,
        ));
    }
}

/// Where the given side of a pattern can be crossed.
pub fn side_exits(pattern: &Vec<TileType>, chunk_size: i32, side: usize) -> (flags: Vec<bool>)
    requires
        0 < chunk_size,
        pattern@.len() == chunk_size * chunk_size,
        side < 4,
    ensures
        flags@ == exits_of(pattern@, chunk_size as int, side as int),
{
    let ghost size = chunk_size as int;
    let count = pattern.len();
    let mut flags: Vec<bool> = Vec::new();
    let mut slot: i32 = 0;
    while slot < chunk_size
        invariant
            count == size * size,
            0 < chunk_size,
            size == chunk_size,
            0 <= slot <= chunk_size,
            pattern@.len() == size * size,
            side < 4,
            flags@.len() == slot,
            forall|k: int|
                0 <= k < slot ==> flags@[k] == (pattern@[edge_tile(size, side as int, k)]
                    == TileType::Floor),
        decreases chunk_size - slot,
    {
        proof {
            lemma_tile_index(size, size, slot as int, 0);
            lemma_tile_index(size, size, slot as int, size - 1);
            lemma_tile_index(size, size, 0, slot as int);
            lemma_tile_index(size, size, size - 1, slot as int);
        }
        let idx = if side == NORTH {
            tile_idx_in_chunk(chunk_size, slot, 0)
        } else if side == SOUTH {
            tile_idx_in_chunk(chunk_size, slot, chunk_size - 1)
        } else if side == WEST {
            tile_idx_in_chunk(chunk_size, 0, slot)
        } else {
            tile_idx_in_chunk(chunk_size, chunk_size - 1, slot)
        };
        flags.push(pattern[idx] == TileType::Floor);
        slot = slot + 1;
    }
    flags
}

/// Whether the side can be crossed somewhere.
pub fn has_any_exit(flags: &Vec<bool>) -> (any: bool)
    ensures
        any == any_exit(flags@),
{
    let mut slot: usize = 0;
    while slot < flags.len()
        invariant
            slot <= flags@.len(),
            forall|k: int| 0 <= k < slot ==> !flags@[k],
        decreases flags@.len() - slot,
    {
        if flags[slot] {
            return true;
        }
        slot = slot + 1;
    }
    false
}

/// Whether the two sides can be crossed in one place.
pub fn exits_fit(ours: &Vec<bool>, theirs: &Vec<bool>) -> (fit: bool)
    ensures
        fit == exits_align(ours@, theirs@),
{
    let mut slot: usize = 0;
    while slot < ours.len() && slot < theirs.len()
        invariant
            slot <= ours@.len(),
            slot <= theirs@.len(),
            forall|k: int| 0 <= k < slot ==> !(ours@[k] && theirs@[k]),
        decreases ours@.len() - slot,
    {
        if ours[slot] && theirs[slot] {
            return true;
        }
        slot = slot + 1;
    }
    false
}

/// The side that lies against the given side of a neighbour.
pub fn opposite(side: usize) -> (other: usize)
    requires
        side < 4,
    ensures
        other == opposite_side(side as int),
        other < 4,
{
    if side == NORTH {
        SOUTH
    } else if side == SOUTH {
        NORTH
    } else if side == WEST {
        EAST
    } else {
        WEST
    }
}

/// Whether the pattern `theirs` may lie beyond the given side of the pattern
/// `ours`.
pub fn compatible(ours: &MapChunk, theirs: &MapChunk, side: usize) -> (fits: bool)
    requires
        side < 4,
    ensures
        fits == chunks_compatible(*ours, *theirs, side as int),
{
    let other = opposite(side);
    !has_any_exit(&ours.exits[side]) || !has_any_exit(&theirs.exits[other]) || exits_fit(
        &ours.exits[side],
        &theirs.exits[other],
    )
}

/// Two lists of patterns whose patterns have the same exits list the same
/// compatible patterns.
proof fn lemma_compatible_same_exits(
    a: Seq<MapChunk>,
    b: Seq<MapChunk>,
    ours_a: MapChunk,
    ours_b: MapChunk,
    side: int,
    n: int,
)
    requires
        0 <= side < 4,
        0 <= n <= a.len(),
        n <= b.len(),
        forall|j: int, s: int|
            0 <= j < n && 0 <= s < 4 ==> (#[trigger] a[j].exits@[s])@ == b[j].exits@[s]@,
        forall|s: int| 0 <= s < 4 ==> (#[trigger] ours_a.exits@[s])@ == ours_b.exits@[s]@,
    ensures
        compatible_upto(a, ours_a, side, n) == compatible_upto(b, ours_b, side, n),
    decreases n,
{
    if n > 0 {
        lemma_compatible_same_exits(a, b, ours_a, ours_b, side, n - 1);
    }
}

/// The patterns with what they need to be put together: for every side the
/// places where it can be crossed, and the patterns that may lie beyond it.
pub fn patterns_to_constraints(patterns: Vec<Vec<TileType>>, chunk_size: i32) -> (constraints: Vec<
    MapChunk,
>)
    requires
        0 < chunk_size,
        forall|i: int|
            0 <= i < patterns@.len() ==> (#[trigger] patterns@[i])@.len() == chunk_size
                * chunk_size,
    ensures
        constraints@.len() == patterns@.len(),
        forall|i: int|
            0 <= i < constraints@.len() ==> (#[trigger] constraints@[i]).pattern@ == patterns@[i]@,
        constraints_ok(constraints@, chunk_size as int),
{
    let ghost size = chunk_size as int;
    let mut drafts: Vec<MapChunk> = Vec::new();
    let mut i: usize = 0;
    while i < patterns.len()
        invariant
            0 < chunk_size,
            size == chunk_size,
            i <= patterns@.len(),
            drafts@.len() == i,
            forall|k: int|
                0 <= k < patterns@.len() ==> (#[trigger] patterns@[k])@.len() == size * size,
            forall|k: int|
                0 <= k < i ==> (#[trigger] drafts@[k]).pattern@ == patterns@[k]@ && chunk_wf(
                    drafts@[k],
                    size,
                ),
        decreases patterns@.len() - i,
    {
        let pattern = patterns[i].clone();
        let north = side_exits(&pattern, chunk_size, NORTH);
        let south = side_exits(&pattern, chunk_size, SOUTH);
        let west = side_exits(&pattern, chunk_size, WEST);
        let east = side_exits(&pattern, chunk_size, EAST);
        let has_exits = has_any_exit(&north) || has_any_exit(&south) || has_any_exit(&west)
            || has_any_exit(&east);
        let new_chunk = MapChunk {
            pattern,
            exits: [north, south, west, east],
            has_exits,
            compatible_with: [Vec::new(), Vec::new(), Vec::new(), Vec::new()],
        };
        proof {
            if has_exits {
                let side: int = if any_exit(north@) {
                    0
                } else if any_exit(south@) {
                    1
                } else if any_exit(west@) {
                    2
                } else {
                    3
                };
                assert(any_exit(new_chunk.exits@[side]@));
            }
        }
        drafts.push(new_chunk);
        i = i + 1;
    }
    let n = drafts.len();
    let mut constraints: Vec<MapChunk> = Vec::new();
    let mut c: usize = 0;
    while c < n
        invariant
            0 < chunk_size,
            size == chunk_size,
            c <= n,
            n == drafts@.len(),
            n == patterns@.len(),
            constraints@.len() == c,
            forall|k: int|
                0 <= k < n ==> (#[trigger] drafts@[k]).pattern@ == patterns@[k]@ && chunk_wf(
                    drafts@[k],
                    size,
                ),
            forall|k: int|
                0 <= k < c ==> (#[trigger] constraints@[k]).pattern@ == patterns@[k]@ && chunk_wf(
                    constraints@[k],
                    size,
                ),
            forall|k: int, s: int|
                0 <= k < c && 0 <= s < 4 ==> (#[trigger] constraints@[k].exits@[s])@
                    == drafts@[k].exits@[s]@,
            forall|k: int, s: int|
                0 <= k < c && 0 <= s < 4 ==> (#[trigger] constraints@[k].compatible_with@[s])@
                    == compatible_upto(drafts@, drafts@[k], s, n as int),
        decreases n - c,
    {
        let mut lists: Vec<Vec<usize>> = Vec::new();
        let mut side: usize = 0;
        while side < 4
            invariant
                side <= 4,
                c < n,
                n == drafts@.len(),
                lists@.len() == side,
                forall|s: int|
                    0 <= s < side ==> (#[trigger] lists@[s])@ == compatible_upto(
                        drafts@,
                        drafts@[c as int],
                        s,
                        n as int,
                    ),
            decreases 4 - side,
        {
            let mut list: Vec<usize> = Vec::new();
            let mut j: usize = 0;
            while j < n
                invariant
                    side < 4,
                    c < n,
                    j <= n,
                    n == drafts@.len(),
                    list@ == compatible_upto(drafts@, drafts@[c as int], side as int, j as int),
                decreases n - j,
            {
                if compatible(&drafts[c], &drafts[j], side) {
                    list.push(j);
                }
                j = j + 1;
            }
            lists.push(list);
            side = side + 1;
        }
        let east_list = lists.pop().unwrap();
        let west_list = lists.pop().unwrap();
        let south_list = lists.pop().unwrap();
        let north_list = lists.pop().unwrap();
        let pattern = drafts[c].pattern.clone();
        let north = drafts[c].exits[NORTH].clone();
        let south = drafts[c].exits[SOUTH].clone();
        let west = drafts[c].exits[WEST].clone();
        let east = drafts[c].exits[EAST].clone();
        let chunk = MapChunk {
            pattern,
            exits: [north, south, west, east],
            has_exits: drafts[c].has_exits,
            compatible_with: [north_list, south_list, west_list, east_list],
        };
        proof {
            let draft = drafts@[c as int];
            assert(chunk.exits@[0] == north && chunk.exits@[1] == south && chunk.exits@[2] == west
                && chunk.exits@[3] == east);
            assert forall|s: int| 0 <= s < 4 implies #[trigger] chunk.exits@[s]@
                == draft.exits@[s]@ by {}
            assert forall|s: int| 0 <= s < 4 implies #[trigger] chunk.exits@[s]@ == exits_of(
                chunk.pattern@,
                size,
                s,
            ) by {}
            if draft.has_exits {
                let s = choose|s: int| 0 <= s < 4 && any_exit(#[trigger] draft.exits@[s]@);
                assert(any_exit(chunk.exits@[s]@));
            }
            if exists|s: int| 0 <= s < 4 && any_exit(#[trigger] chunk.exits@[s]@) {
                let s = choose|s: int| 0 <= s < 4 && any_exit(#[trigger] chunk.exits@[s]@);
                assert(any_exit(draft.exits@[s]@));
            }
            assert(chunk.compatible_with@[0] == north_list && chunk.compatible_with@[1]
                == south_list && chunk.compatible_with@[2] == west_list
                && chunk.compatible_with@[3] == east_list);
        }
        constraints.push(chunk);
        c = c + 1;
    }
    proof {
        assert forall|k: int, s: int| 0 <= k < constraints@.len() && 0 <= s < 4 implies (
        #[trigger] constraints@[k].compatible_with@[s])@ == compatible_upto(
            constraints@,
            constraints@[k],
            s,
            constraints@.len() as int,
        ) by {
            lemma_compatible_same_exits(
                drafts@,
                constraints@,
                drafts@[k],
                constraints@[k],
                s,
                n as int,
            );
        }
    }
    constraints
}

} // verus!
