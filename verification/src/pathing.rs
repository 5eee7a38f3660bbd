//! Distances over the grid: from one tile to every tile that can be walked
//! to, stepping between tiles that share a side or a corner and never onto a
//! blocked tile.

use crate::map::{
    lemma_index_tile, lemma_tile_index, on_grid, tile_index, Grid, TileType, DIAGONAL_COST,
    STRAIGHT_COST,
};
use vstd::prelude::*;

verus! {

/// The distance of a tile that the search did not reach.
pub const UNREACHED: u32 = 0xffff_ffff;

/// The search goes no further than this distance, in hundredths of a tile:
/// a tile is reached only at a distance below it.
pub const DEPTH_CEILING: u32 = 30000;

/// The step in x of direction `k`. The eight directions are numbered west,
/// east, north, south, then north-west, north-east, south-west, south-east.
pub open spec fn dir_dx(k: int) -> int {
    if k == 0 || k == 4 || k == 6 {
        -1
    } else if k == 1 || k == 5 || k == 7 {
        1
    } else {
        0
    }
}

/// The step in y of direction `k`.
pub open spec fn dir_dy(k: int) -> int {
    if k == 2 || k == 4 || k == 5 {
        -1
    } else if k == 3 || k == 6 || k == 7 {
        1
    } else {
        0
    }
}

/// The cost of a step in direction `k`, in hundredths of a tile.
pub open spec fn dir_cost(k: int) -> int {
    if k < 4 {
        100
    } else {
        145
    }
}

/// The index of the tile one step in direction `k` from tile `j`.
pub open spec fn exit_target(width: int, j: int, k: int) -> int {
    tile_index(width, j % width + dir_dx(k), j / width + dir_dy(k))
}

/// Tile `j` has an exit in direction `k`: the tile one step that way lies on
/// the grid and is not blocked.
pub open spec fn exit_at(blocked: Seq<bool>, width: int, height: int, j: int, k: int) -> bool {
    &&& 0 <= j < width * height
    &&& 0 <= k < 8
    &&& on_grid(width, height, j % width + dir_dx(k), j / width + dir_dy(k))
    &&& !blocked[exit_target(width, j, k)]
}

/// The search has reached tile `i`.
pub open spec fn reached(dist: Seq<u32>, i: int) -> bool {
    0 <= i < dist.len() && dist[i] != UNREACHED
}

/// Tile `i` is entered from the reached tile `j` by its exit `k`, and lies at
/// least the cost of that step further out than `j`.
pub open spec fn parent_link(
    blocked: Seq<bool>,
    width: int,
    height: int,
    dist: Seq<u32>,
    j: int,
    k: int,
    i: int,
) -> bool {
    &&& exit_at(blocked, width, height, j, k)
    &&& exit_target(width, j, k) == i
    &&& reached(dist, j)
    &&& dist[j] + dir_cost(k) <= dist[i]
}

/// Tile `i` is entered from some reached tile that lies at least the cost
/// of the step closer.
pub open spec fn has_parent(
    blocked: Seq<bool>,
    width: int,
    height: int,
    dist: Seq<u32>,
    i: int,
) -> bool {
    exists|j: int, k: int| #[trigger] parent_link(blocked, width, height, dist, j, k, i)
}

/// The exit `k` of tile `j` offers no improvement: where the step stays
/// below the ceiling, the tile behind it is no further out than through `j`.
pub open spec fn settled_exit(
    blocked: Seq<bool>,
    width: int,
    height: int,
    dist: Seq<u32>,
    j: int,
    k: int,
) -> bool {
    (exit_at(blocked, width, height, j, k) && dist[j] + dir_cost(k) < DEPTH_CEILING)
        ==> dist[exit_target(width, j, k)] <= dist[j] + dir_cost(k)
}

/// No exit of tile `j` offers an improvement.
pub open spec fn settled(
    blocked: Seq<bool>,
    width: int,
    height: int,
    dist: Seq<u32>,
    j: int,
) -> bool {
    forall|k: int| 0 <= k < 8 ==> #[trigger] settled_exit(blocked, width, height, dist, j, k)
}

/// `dist` gives every tile its distance from `start`: zero at `start`; at
/// every other reached tile the distance of a neighbour plus the cost of the
/// step from it, below the ceiling; and no step from a reached tile leads to
/// a shorter way that stays below the ceiling.
pub open spec fn is_distance_field(
    blocked: Seq<bool>,
    width: int,
    height: int,
    start: int,
    dist: Seq<u32>,
) -> bool {
    &&& dist.len() == width * height
    &&& blocked.len() == dist.len()
    &&& 0 <= width
    &&& 0 <= height
    &&& 0 <= start < dist.len()
    &&& dist[start] == 0
    &&& forall|i: int| 0 <= i < dist.len() && #[trigger] dist[i] != UNREACHED ==> dist[i] < DEPTH_CEILING
    &&& forall|i: int|
        reached(dist, i) && i != start ==> #[trigger] has_parent(blocked, width, height, dist, i)
    &&& forall|j: int| reached(dist, j) ==> #[trigger] settled(blocked, width, height, dist, j)
}

/// The distance of every tile from `start`.
pub open spec fn distance_field(blocked: Seq<bool>, width: int, height: int, start: int) -> Seq<
    u32,
> {
    choose|dist: Seq<u32>| is_distance_field(blocked, width, height, start, dist)
}

/// A step leads to another tile, on the grid.
pub proof fn lemma_exit_target(blocked: Seq<bool>, width: int, height: int, j: int, k: int)
    requires
        exit_at(blocked, width, height, j, k),
        0 <= width,
        0 <= height,
    ensures
        0 <= exit_target(width, j, k) < width * height,
        exit_target(width, j, k) != j,
        exit_target(width, j, k) % width == j % width + dir_dx(k),
        exit_target(width, j, k) / width == j / width + dir_dy(k),
{
    lemma_index_tile(width, height, j);
    lemma_tile_index(width, height, j % width + dir_dx(k), j / width + dir_dy(k));
}

/// In a distance field the tile that a reached tile other than the start is
/// entered from lies exactly the cost of the step closer.
pub proof fn lemma_exact_parent(
    blocked: Seq<bool>,
    width: int,
    height: int,
    start: int,
    dist: Seq<u32>,
    i: int,
) -> (parent: (int, int))
    requires
        is_distance_field(blocked, width, height, start, dist),
        reached(dist, i),
        i != start,
    ensures
        parent_link(blocked, width, height, dist, parent.0, parent.1, i),
        dist[parent.0] + dir_cost(parent.1) == dist[i],
        dist[parent.0] < dist[i],
{
    assert(has_parent(blocked, width, height, dist, i));
    let (j, k) = choose|j: int, k: int| #[trigger]
        parent_link(blocked, width, height, dist, j, k, i);
    assert(settled(blocked, width, height, dist, j));
    assert(settled_exit(blocked, width, height, dist, j, k));
    (j, k)
}

/// Where one distance field reaches a tile, so does any other for the same
/// grid and start, and at no greater distance.
proof fn lemma_field_below(
    blocked: Seq<bool>,
    width: int,
    height: int,
    start: int,
    d1: Seq<u32>,
    d2: Seq<u32>,
    i: int,
)
    requires
        is_distance_field(blocked, width, height, start, d1),
        is_distance_field(blocked, width, height, start, d2),
        reached(d2, i),
    ensures
        reached(d1, i),
        d1[i] <= d2[i],
    decreases d2[i],
{
    if i != start {
        let (j, k) = lemma_exact_parent(blocked, width, height, start, d2, i);
        lemma_field_below(blocked, width, height, start, d1, d2, j);
        assert(settled(blocked, width, height, d1, j));
        assert(settled_exit(blocked, width, height, d1, j, k));
    }
}

/// A grid and a start have one distance field.
pub proof fn lemma_distance_field_unique(
    blocked: Seq<bool>,
    width: int,
    height: int,
    start: int,
    d1: Seq<u32>,
    d2: Seq<u32>,
)
    requires
        is_distance_field(blocked, width, height, start, d1),
        is_distance_field(blocked, width, height, start, d2),
    ensures
        d1 == d2,
{
    assert forall|i: int| 0 <= i < d1.len() implies d1[i] == d2[i] by {
        if reached(d1, i) {
            lemma_field_below(blocked, width, height, start, d2, d1, i);
        }
        if reached(d2, i) {
            lemma_field_below(blocked, width, height, start, d1, d2, i);
        }
    }
}

/// Tile `j` waits in the queue, at or after `head`.
pub open spec fn pending(queue: Seq<usize>, head: int, j: int) -> bool {
    exists|t: int| head <= t < queue.len() && #[trigger] queue[t] == j
}

/// What holds of a search under way: the distances found so far are those of
/// ways that exist, and every reached tile that has an exit still to be
/// looked at waits in the queue, but for the tile `busy` that is being looked
/// at.
pub open spec fn flooding(
    blocked: Seq<bool>,
    width: int,
    height: int,
    start: int,
    dist: Seq<u32>,
    queue: Seq<usize>,
    head: int,
    busy: int,
) -> bool {
    &&& dist.len() == width * height
    &&& blocked.len() == dist.len()
    &&& 0 <= width
    &&& 0 <= height
    &&& 0 <= start < dist.len()
    &&& dist[start] == 0
    &&& 0 <= head <= queue.len()
    &&& forall|i: int| 0 <= i < dist.len() && #[trigger] dist[i] != UNREACHED ==> dist[i] < DEPTH_CEILING
    &&& forall|i: int|
        reached(dist, i) && i != start ==> #[trigger] has_parent(blocked, width, height, dist, i)
    &&& forall|t: int| head <= t < queue.len() ==> reached(dist, #[trigger] queue[t] as int)
    &&& forall|j: int|
        reached(dist, j) && j != busy ==> #[trigger] settled(blocked, width, height, dist, j)
            || pending(queue, head, j)
}

/// What a tile at distance `d` still counts toward the work left.
pub open spec fn slack(d: u32) -> int {
    if d == UNREACHED {
        DEPTH_CEILING as int
    } else {
        d as int
    }
}

/// The work left over the first `n` tiles; every improvement lowers it.
pub open spec fn total_slack(dist: Seq<u32>, n: int) -> int
    decreases n,
{
    if n <= 0 {
        0
    } else {
        total_slack(dist, n - 1) + slack(dist[n - 1])
    }
}

/// A new distance for one tile changes the work left by what the tile
/// counted before and counts now.
proof fn lemma_total_slack_update(dist: Seq<u32>, at: int, d: u32, n: int)
    requires
        0 <= at < dist.len(),
        0 <= n <= dist.len(),
    ensures
        total_slack(dist.update(at, d), n) == total_slack(dist, n) + if at < n {
            slack(d) - slack(dist[at])
        } else {
            0
        },
    decreases n,
{
    if n > 0 {
        lemma_total_slack_update(dist, at, d, n - 1);
    }
}

/// The work left is never negative.
proof fn lemma_total_slack_nonnegative(dist: Seq<u32>, n: int)
    ensures
        0 <= total_slack(dist, n),
    decreases n,
{
    if n > 0 {
        lemma_total_slack_nonnegative(dist, n - 1);
    }
}

/// The search may begin: only the start is reached, and it waits.
proof fn lemma_flooding_begins(
    blocked: Seq<bool>,
    width: int,
    height: int,
    start: int,
    dist: Seq<u32>,
    queue: Seq<usize>,
)
    requires
        dist.len() == width * height,
        blocked.len() == dist.len(),
        0 <= width,
        0 <= height,
        0 <= start < dist.len(),
        dist[start] == 0,
        forall|i: int| 0 <= i < dist.len() && i != start ==> dist[i] == UNREACHED,
        queue.len() == 1,
        queue[0] == start,
    ensures
        flooding(blocked, width, height, start, dist, queue, 0, -1),
{
    assert forall|j: int| reached(dist, j) && j != -1 implies #[trigger] settled(
        blocked,
        width,
        height,
        dist,
        j,
    ) || pending(queue, 0, j) by {}
}

/// Taking a tile from the head of the queue to look at its exits.
proof fn lemma_flooding_takes(
    blocked: Seq<bool>,
    width: int,
    height: int,
    start: int,
    dist: Seq<u32>,
    queue: Seq<usize>,
    head: int,
)
    requires
        flooding(blocked, width, height, start, dist, queue, head, -1),
        head < queue.len(),
    ensures
        flooding(blocked, width, height, start, dist, queue, head + 1, queue[head] as int),
        reached(dist, queue[head] as int),
{
    let busy = queue[head] as int;
    assert forall|j: int| reached(dist, j) && j != busy implies #[trigger] settled(
        blocked,
        width,
        height,
        dist,
        j,
    ) || pending(queue, head + 1, j) by {
        if !settled(blocked, width, height, dist, j) {
            let t = choose|t: int| head <= t < queue.len() && #[trigger] queue[t] == j;
            assert(head + 1 <= t < queue.len() && queue[t] == j);
        }
    }
}

/// All exits of the tile have been looked at: the search is back between two
/// tiles.
proof fn lemma_flooding_done(
    blocked: Seq<bool>,
    width: int,
    height: int,
    start: int,
    dist: Seq<u32>,
    queue: Seq<usize>,
    head: int,
    busy: int,
)
    requires
        flooding(blocked, width, height, start, dist, queue, head, busy),
        forall|k: int| 0 <= k < 8 ==> #[trigger] settled_exit(blocked, width, height, dist, busy, k),
    ensures
        flooding(blocked, width, height, start, dist, queue, head, -1),
{
}

/// An exit of the tile `busy` leads to a shorter way: the tile `at` behind it
/// gets the new distance `d` and joins the queue.
proof fn lemma_flooding_improves(
    blocked: Seq<bool>,
    width: int,
    height: int,
    start: int,
    dist: Seq<u32>,
    queue: Seq<usize>,
    head: int,
    busy: int,
    k: int,
    at: usize,
    d: u32,
)
    requires
        flooding(blocked, width, height, start, dist, queue, head, busy),
        reached(dist, busy),
        exit_at(blocked, width, height, busy, k),
        at == exit_target(width, busy, k),
        d == dist[busy] + dir_cost(k),
        d < DEPTH_CEILING,
        d < dist[at as int],
    ensures
        flooding(
            blocked,
            width,
            height,
            start,
            dist.update(at as int, d),
            queue.push(at),
            head,
            busy,
        ),
        reached(dist.update(at as int, d), busy),
        dist.update(at as int, d)[busy] == dist[busy],
        settled_exit(blocked, width, height, dist.update(at as int, d), busy, k),
        forall|k2: int|
            settled_exit(blocked, width, height, dist, busy, k2) ==> #[trigger] settled_exit(
                blocked,
                width,
                height,
                dist.update(at as int, d),
                busy,
                k2,
            ),
        total_slack(dist.update(at as int, d), dist.len() as int) < total_slack(
            dist,
            dist.len() as int,
        ),
{
    let dist2 = dist.update(at as int, d);
    let queue2 = queue.push(at);
    lemma_exit_target(blocked, width, height, busy, k);
    lemma_total_slack_update(dist, at as int, d, dist.len() as int);
    assert forall|i: int| reached(dist2, i) && i != start implies #[trigger] has_parent(
        blocked,
        width,
        height,
        dist2,
        i,
    ) by {
        if i == at {
            assert(parent_link(blocked, width, height, dist2, busy, k, i));
        } else {
            assert(has_parent(blocked, width, height, dist, i));
            let (j0, k0) = choose|j0: int, k0: int| #[trigger]
                parent_link(blocked, width, height, dist, j0, k0, i);
            assert(parent_link(blocked, width, height, dist2, j0, k0, i));
        }
    }
    assert forall|t: int| head <= t < queue2.len() implies reached(
        dist2,
        #[trigger] queue2[t] as int,
    ) by {}
    assert forall|j: int| reached(dist2, j) && j != busy implies #[trigger] settled(
        blocked,
        width,
        height,
        dist2,
        j,
    ) || pending(queue2, head, j) by {
        if j == at {
            assert(queue2[queue.len() as int] == j);
        } else if settled(blocked, width, height, dist, j) {
            assert forall|k2: int| 0 <= k2 < 8 implies #[trigger] settled_exit(
                blocked,
                width,
                height,
                dist2,
                j,
                k2,
            ) by {
                assert(settled_exit(blocked, width, height, dist, j, k2));
                if exit_at(blocked, width, height, j, k2) {
                    lemma_exit_target(blocked, width, height, j, k2);
                }
            }
        } else {
            let t = choose|t: int| head <= t < queue.len() && #[trigger] queue[t] == j;
            assert(queue2[t] == j);
        }
    }
    assert forall|k2: int|
        settled_exit(blocked, width, height, dist, busy, k2) implies #[trigger] settled_exit(
        blocked,
        width,
        height,
        dist2,
        busy,
        k2,
    ) by {
        if exit_at(blocked, width, height, busy, k2) {
            lemma_exit_target(blocked, width, height, busy, k2);
        }
    }
}

/// When the queue is empty the distances are final.
proof fn lemma_flooding_ends(
    blocked: Seq<bool>,
    width: int,
    height: int,
    start: int,
    dist: Seq<u32>,
    queue: Seq<usize>,
)
    requires
        flooding(blocked, width, height, start, dist, queue, queue.len() as int, -1),
    ensures
        is_distance_field(blocked, width, height, start, dist),
        dist == distance_field(blocked, width, height, start),
{
    assert forall|j: int| reached(dist, j) implies #[trigger] settled(
        blocked,
        width,
        height,
        dist,
        j,
    ) by {}
    lemma_distance_field_unique(
        blocked,
        width,
        height,
        start,
        dist,
        distance_field(blocked, width, height, start),
    );
}

/// The step and the cost of direction `k`.
pub fn direction(k: usize) -> (step: (i32, i32, u32))
    requires
        k < 8,
    ensures
        step.0 == dir_dx(k as int),
        step.1 == dir_dy(k as int),
        step.2 == dir_cost(k as int),
{
    if k == 0 {
        (-1, 0, STRAIGHT_COST)
    } else if k == 1 {
        (1, 0, STRAIGHT_COST)
    } else if k == 2 {
        (0, -1, STRAIGHT_COST)
    } else if k == 3 {
        (0, 1, STRAIGHT_COST)
    } else if k == 4 {
        (-1, -1, DIAGONAL_COST)
    } else if k == 5 {
        (1, -1, DIAGONAL_COST)
    } else if k == 6 {
        (-1, 1, DIAGONAL_COST)
    } else {
        (1, 1, DIAGONAL_COST)
    }
}

/// The distance of every tile from the tile `start_idx`, over the tiles that
/// the grid does not mark as blocked. The start has distance zero, blocked or
/// not. A tile that cannot be walked to below the ceiling has `UNREACHED`.
pub fn flood_distances(map: &Grid, start_idx: usize) -> (dist: Vec<u32>)
    requires
        map.wf(),
        start_idx < map.tiles@.len(),
    ensures
        is_distance_field(
            map.blocked@,
            map.width as int,
            map.height as int,
            start_idx as int,
            dist@,
        ),
        dist@ == distance_field(map.blocked@, map.width as int, map.height as int, start_idx as int),
{
    let n = map.tiles.len();
    let mut dist: Vec<u32> = Vec::new();
    let mut i: usize = 0;
    while i < n
        invariant
            i <= n,
            dist@.len() == i,
            forall|t: int| 0 <= t < i ==> dist@[t] == UNREACHED,
        decreases n - i,
    {
        dist.push(UNREACHED);
        i = i + 1;
    }
    dist.set(start_idx, 0);
    let mut queue: Vec<usize> = Vec::new();
    queue.push(start_idx);
    let mut head: usize = 0;
    proof {
        lemma_flooding_begins(
            map.blocked@,
            map.width as int,
            map.height as int,
            start_idx as int,
            dist@,
            queue@,
        );
    }
    while head < queue.len()
        invariant
            map.wf(),
            n == map.tiles@.len(),
            flooding(
                map.blocked@,
                map.width as int,
                map.height as int,
                start_idx as int,
                dist@,
                queue@,
                head as int,
                -1,
            ),
        decreases total_slack(dist@, n as int), queue@.len() - head,
    {
        let busy: usize = queue[head];
        proof {
            lemma_flooding_takes(
                map.blocked@,
                map.width as int,
                map.height as int,
                start_idx as int,
                dist@,
                queue@,
                head as int,
            );
            lemma_total_slack_nonnegative(dist@, n as int);
        }
        let d: u32 = dist[busy];
        let (x, y) = map.idx_xy(busy);
        head = head + 1;
        let ghost total0 = total_slack(dist@, n as int);
        let ghost waiting0 = queue@.len();
        let mut k: usize = 0;
        while k < 8
            invariant
                map.wf(),
                n == map.tiles@.len(),
                k <= 8,
                busy < n,
                x == busy as int % map.width as int,
                y == busy as int / map.width as int,
                map.in_bounds(x as int, y as int),
                flooding(
                    map.blocked@,
                    map.width as int,
                    map.height as int,
                    start_idx as int,
                    dist@,
                    queue@,
                    head as int,
                    busy as int,
                ),
                reached(dist@, busy as int),
                dist@[busy as int] == d,
                forall|k2: int|
                    0 <= k2 < k ==> #[trigger] settled_exit(
                        map.blocked@,
                        map.width as int,
                        map.height as int,
                        dist@,
                        busy as int,
                        k2,
                    ),
                total_slack(dist@, n as int) <= total0,
                total_slack(dist@, n as int) == total0 ==> queue@.len() == waiting0,
            decreases 8 - k,
        {
            let (dx, dy, cost) = direction(k);
            let nx: i32 = x + dx;
            let ny: i32 = y + dy;
            if map.is_exit_valid(nx, ny) {
                let at = map.xy_idx(nx, ny);
                let nd: u32 = d + cost;
                if nd < DEPTH_CEILING && nd < dist[at] {
                    proof {
                        lemma_flooding_improves(
                            map.blocked@,
                            map.width as int,
                            map.height as int,
                            start_idx as int,
                            dist@,
                            queue@,
                            head as int,
                            busy as int,
                            k as int,
                            at,
                            nd,
                        );
                    }
                    dist.set(at, nd);
                    queue.push(at);
                }
            }
            k = k + 1;
        }
        proof {
            lemma_flooding_done(
                map.blocked@,
                map.width as int,
                map.height as int,
                start_idx as int,
                dist@,
                queue@,
                head as int,
                busy as int,
            );
            lemma_total_slack_nonnegative(dist@, n as int);
        }
    }
    proof {
        lemma_flooding_ends(
            map.blocked@,
            map.width as int,
            map.height as int,
            start_idx as int,
            dist@,
            queue@,
        );
    }
    dist
}

/// One step leads from tile `a` to tile `b`.
pub open spec fn step_between(blocked: Seq<bool>, width: int, height: int, a: int, b: int) -> bool {
    exists|k: int| exit_at(blocked, width, height, a, k) && #[trigger] exit_target(width, a, k) == b
}

/// `p` is a walk: a row of tiles of the grid in which each but the first is
/// entered by a step from the one before.
pub open spec fn is_walk(blocked: Seq<bool>, width: int, height: int, p: Seq<int>) -> bool {
    &&& p.len() >= 1
    &&& 0 <= p[0] < width * height
    &&& forall|t: int|
        #![trigger p[t]]
        1 <= t < p.len() ==> step_between(blocked, width, height, p[t - 1], p[t])
}

/// A walk leads from tile `a` to tile `b`.
pub open spec fn connected(blocked: Seq<bool>, width: int, height: int, a: int, b: int) -> bool {
    exists|p: Seq<int>| #[trigger] is_walk(blocked, width, height, p) && p[0] == a && p.last() == b
}

/// The cost of the step between two neighbouring tiles: less along a row or
/// a column than across a corner.
pub open spec fn step_cost(width: int, a: int, b: int) -> int {
    if a % width == b % width || a / width == b / width {
        100
    } else {
        145
    }
}

/// The sum of the costs of the steps of a walk.
pub open spec fn walk_cost(width: int, p: Seq<int>) -> int
    decreases p.len(),
{
    if p.len() <= 1 {
        0
    } else {
        walk_cost(width, p.drop_last()) + step_cost(width, p[p.len() - 2], p.last())
    }
}

/// Where the walls of a grid are.
pub open spec fn walls_of(tiles: Seq<TileType>) -> Seq<bool> {
    Seq::new(tiles.len(), |i: int| tiles[i] == TileType::Wall)
}

/// Tile `to` can be walked to from tile `from` by steps between tiles that
/// share a side or a corner, none of which ends on a wall.
pub open spec fn reachable(tiles: Seq<TileType>, width: int, height: int, from: int, to: int) -> bool {
    connected(walls_of(tiles), width, height, from, to)
}

/// The cost of a step depends only on the two tiles it joins.
pub proof fn lemma_step_cost(blocked: Seq<bool>, width: int, height: int, j: int, k: int)
    requires
        exit_at(blocked, width, height, j, k),
        0 <= width,
        0 <= height,
    ensures
        step_cost(width, j, exit_target(width, j, k)) == dir_cost(k),
{
    lemma_exit_target(blocked, width, height, j, k);
}

/// A reached tile is the end of a walk from the start that passes only
/// through reached tiles and costs what the distance of the tile says.
pub proof fn lemma_reached_walk(
    blocked: Seq<bool>,
    width: int,
    height: int,
    start: int,
    dist: Seq<u32>,
    i: int,
) -> (p: Seq<int>)
    requires
        is_distance_field(blocked, width, height, start, dist),
        reached(dist, i),
    ensures
        is_walk(blocked, width, height, p),
        p[0] == start,
        p.last() == i,
        forall|t: int| 0 <= t < p.len() ==> reached(dist, #[trigger] p[t]),
        walk_cost(width, p) == dist[i],
    decreases dist[i],
{
    if i == start {
        seq![start]
    } else {
        let (j, k) = lemma_exact_parent(blocked, width, height, start, dist, i);
        let q = lemma_reached_walk(blocked, width, height, start, dist, j);
        let p = q.push(i);
        assert(p.drop_last() =~= q);
        lemma_step_cost(blocked, width, height, j, k);
        assert forall|t: int| #![trigger p[t]] 1 <= t < p.len() implies step_between(
            blocked,
            width,
            height,
            p[t - 1],
            p[t],
        ) by {}
        p
    }
}

/// The end of a walk from the start that costs less than the ceiling is
/// reached, at a distance that is no more than the cost of the walk.
pub proof fn lemma_walk_bound(
    blocked: Seq<bool>,
    width: int,
    height: int,
    start: int,
    dist: Seq<u32>,
    p: Seq<int>,
)
    requires
        is_distance_field(blocked, width, height, start, dist),
        is_walk(blocked, width, height, p),
        p[0] == start,
        walk_cost(width, p) < DEPTH_CEILING,
    ensures
        reached(dist, p.last()),
        dist[p.last()] <= walk_cost(width, p),
    decreases p.len(),
{
    if p.len() > 1 {
        let q = p.drop_last();
        let a = p[p.len() - 2];
        let b = p.last();
        assert forall|t: int| #![trigger q[t]] 1 <= t < q.len() implies step_between(
            blocked,
            width,
            height,
            q[t - 1],
            q[t],
        ) by {}
        let k = choose|k: int|
            exit_at(blocked, width, height, a, k) && #[trigger] exit_target(width, a, k) == b;
        lemma_step_cost(blocked, width, height, a, k);
        lemma_walk_bound(blocked, width, height, start, dist, q);
        assert(settled(blocked, width, height, dist, a));
        assert(settled_exit(blocked, width, height, dist, a, k));
        lemma_exit_target(blocked, width, height, a, k);
    }
}

/// A walk stays a walk on another grid of the same size on which none of its
/// tiles after the first is blocked.
pub proof fn lemma_walk_transfers(
    blocked: Seq<bool>,
    other: Seq<bool>,
    width: int,
    height: int,
    p: Seq<int>,
)
    requires
        is_walk(blocked, width, height, p),
        forall|t: int| 1 <= t < p.len() ==> !other[#[trigger] p[t]],
    ensures
        is_walk(other, width, height, p),
{
    assert forall|t: int| #![trigger p[t]] 1 <= t < p.len() implies step_between(
        other,
        width,
        height,
        p[t - 1],
        p[t],
    ) by {
        let k = choose|k: int|
            exit_at(blocked, width, height, p[t - 1], k) && #[trigger] exit_target(
                width,
                p[t - 1],
                k,
            ) == p[t];
        assert(exit_at(other, width, height, p[t - 1], k));
    }
}

/// The exits of tile `j` in the first `k` directions, each with the index of
/// the tile behind it and the cost of the step.
pub open spec fn exits_upto(blocked: Seq<bool>, width: int, height: int, j: int, k: int) -> Seq<
    (usize, u32),
>
    decreases k,
{
    if k <= 0 {
        Seq::empty()
    } else if exit_at(blocked, width, height, j, k - 1) {
        exits_upto(blocked, width, height, j, k - 1).push(
            (exit_target(width, j, k - 1) as usize, dir_cost(k - 1) as u32),
        )
    } else {
        exits_upto(blocked, width, height, j, k - 1)
    }
}

impl Grid {
    /// Whether the tile stops the line of sight: whether it is a wall.
    pub fn is_opaque(&self, idx: usize) -> (opaque: bool)
        requires
            idx < self.tiles@.len(),
        ensures
            opaque == (self.tiles@[idx as int] == TileType::Wall),
    {
        self.tiles[idx] == TileType::Wall
    }

    /// The tiles that one step from the tile `idx` can end on, with the cost
    /// of the step in hundredths of a tile: first the four that share a side
    /// (west, east, north, south), then the four that share a corner.
    pub fn get_available_exits(&self, idx: usize) -> (exits: Vec<(usize, u32)>)
        requires
            self.wf(),
            idx < self.tiles@.len(),
        ensures
            exits@ == exits_upto(
                self.blocked@,
                self.width as int,
                self.height as int,
                idx as int,
                8,
            ),
    {
        let mut exits: Vec<(usize, u32)> = Vec::new();
        let (x, y) = self.idx_xy(idx);
        let mut k: usize = 0;
        while k < 8
            invariant
                self.wf(),
                idx < self.tiles@.len(),
                k <= 8,
                x == idx as int % self.width as int,
                y == idx as int / self.width as int,
                self.in_bounds(x as int, y as int),
                exits@ == exits_upto(
                    self.blocked@,
                    self.width as int,
                    self.height as int,
                    idx as int,
                    k as int,
                ),
            decreases 8 - k,
        {
            let (dx, dy, cost) = direction(k);
            if self.is_exit_valid(x + dx, y + dy) {
                let at = self.xy_idx(x + dx, y + dy);
                exits.push((at, cost));
            }
            k = k + 1;
        }
        exits
    }
}

} // verus!
