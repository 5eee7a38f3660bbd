//! What is to appear where on a finished level.

use crate::dice::roll_die;
use crate::map::{Grid, GridView, TileType};
use crate::map_builders::common::regions_fit;
use crate::random_table::{outcome_of, RandomTable};
use crate::rect::Rect;
use rltk::RandomNumberGenerator;
use std::collections::HashMap;
use vstd::prelude::*;

verus! {

/// A region gets at most this many more spawns than its level is deep.
pub const MAX_MONSTERS: i32 = 4;

/// No level lies deeper than this, nor as far above the ground.
pub const DEPTH_LIMIT: i32 = 0x1000_0000;

/// What can appear on a level, in the order of the table.
pub open spec fn room_names() -> Seq<Seq<char>> {
    seq![
        "Orc"@,
        "Health Potion"@,
        "Fireball Scroll"@,
        "Confusion Scroll"@,
        "Magic Missile Scroll"@,
        "Dagger"@,
        "Shield"@,
        "Longsword"@,
        "Tower Shield"@,
        "Rations"@,
        "Magic Mapping Scroll"@,
        "Bear Trap"@,
    ]
}

/// The weights of what can appear on a level of the given depth.
pub open spec fn room_weights(map_depth: int) -> Seq<int> {
    seq![
        1 + map_depth,
        7,
        2 + map_depth,
        2 + map_depth,
        4,
        3,
        3,
        map_depth - 1,
        map_depth - 1,
        10,
        2,
        2,
    ]
}

/// How many spawns a region of `available` tiles gets on a level of the
/// given depth when the die shows `roll`: the roll and the depth less four,
/// but no more than there are tiles, and none where that is negative.
pub open spec fn spawn_count(available: int, roll: int, map_depth: int) -> int {
    let wanted = roll + (map_depth - 1) - 3;
    let granted = if available < wanted {
        available
    } else {
        wanted
    };
    if granted < 0 {
        0
    } else {
        granted
    }
}

/// Some roll of the table of a level of the given depth gives the name.
pub open spec fn is_room_outcome(name: Seq<char>, map_depth: int) -> bool {
    exists|roll: int| name == #[trigger] outcome_of(room_names(), room_weights(map_depth), roll)
}

/// The tiles of the spawns.
pub open spec fn spawn_tiles(spawns: Seq<(usize, String)>) -> Seq<usize> {
    spawns.map_values(|spawn: (usize, String)| spawn.0)
}

/// The indices of the floor tiles among the first `n` tiles of the level
/// that lie inside the box, in rising order.
pub open spec fn room_floor(tiles: Seq<TileType>, width: int, room: Rect, n: int) -> Seq<usize>
    decreases n,
{
    if n <= 0 {
        Seq::empty()
    } else if room.interior((n - 1) % width, (n - 1) / width) && tiles[n - 1] == TileType::Floor {
        room_floor(tiles, width, room, n - 1).push((n - 1) as usize)
    } else {
        room_floor(tiles, width, room, n - 1)
    }
}

/// The floor tiles inside a box are floor tiles of the level.
pub proof fn lemma_room_floor(tiles: Seq<TileType>, width: int, room: Rect, n: int)
    requires
        0 <= n <= tiles.len(),
        n <= usize::MAX,
    ensures
        forall|t: int|
            0 <= t < room_floor(tiles, width, room, n).len() ==> {
                let i = #[trigger] room_floor(tiles, width, room, n)[t];
                i < n && tiles[i as int] == TileType::Floor && room.interior(
                    i as int % width,
                    i as int / width,
                )
            },
    decreases n,
{
    if n > 0 {
        lemma_room_floor(tiles, width, room, n - 1);
        let rest = room_floor(tiles, width, room, n - 1);
        let all = room_floor(tiles, width, room, n);
        assert forall|t: int| 0 <= t < all.len() implies {
            let i = #[trigger] all[t];
            i < n && tiles[i as int] == TileType::Floor && room.interior(
                i as int % width,
                i as int / width,
            )
        } by {}
    }
}

/// What may come of one region on a level of the given depth: as many spawns
/// as some throw of the first die and the depth allow, or fewer where the
/// region names a tile more than once; no two on one tile; each on a tile
/// of the region and of a kind that the table of the level gives.
pub open spec fn region_spawns(area: Seq<usize>, map_depth: int, part: Seq<(usize, String)>) -> bool {
    &&& exists|roll: int|
        1 <= roll <= MAX_MONSTERS + 3 && part.len() <= #[trigger] spawn_count(
            area.len() as int,
            roll,
            map_depth,
        ) && (area.no_duplicates() ==> part.len() == spawn_count(
            area.len() as int,
            roll,
            map_depth,
        ))
    &&& spawn_tiles(part).no_duplicates()
    &&& forall|k: int|
        0 <= k < part.len() ==> area.contains((#[trigger] part[k]).0) && is_room_outcome(
            part[k].1@,
            map_depth,
        )
}

/// One part for each area, each part what may come of its area.
pub open spec fn parts_of_areas(
    areas: Seq<Seq<usize>>,
    map_depth: int,
    parts: Seq<Seq<(usize, String)>>,
) -> bool {
    &&& parts.len() == areas.len()
    &&& forall|k: int|
        0 <= k < parts.len() ==> region_spawns(areas[k], map_depth, #[trigger] parts[k])
}

/// The spawns are what came of the areas, one area after the other: the
/// part of the first area, then that of the second, and so on to the last.
pub open spec fn spawned_in_turn(
    areas: Seq<Seq<usize>>,
    map_depth: int,
    spawns: Seq<(usize, String)>,
) -> bool {
    exists|parts: Seq<Seq<(usize, String)>>| #[trigger]
        parts_of_areas(areas, map_depth, parts) && spawns == parts.flatten()
}

/// The keys name every region once, and the areas are the regions in the
/// order of the keys.
pub open spec fn lists_regions(
    regions: Map<i32, Vec<usize>>,
    keys: Seq<i32>,
    areas: Seq<Seq<usize>>,
) -> bool {
    &&& keys.no_duplicates()
    &&& forall|id: i32| regions.contains_key(id) <==> keys.contains(id)
    &&& areas.len() == keys.len()
    &&& forall|k: int| 0 <= k < keys.len() ==> #[trigger] areas[k] == regions[keys[k]]@
}

/// The areas are the regions, each once, in some order.
pub open spec fn regions_in_turn(regions: Map<i32, Vec<usize>>, areas: Seq<Seq<usize>>) -> bool {
    exists|keys: Seq<i32>| lists_regions(regions, keys, areas)
}

/// The spawns are what came of the regions, each region once, one after the
/// other in some order.
pub open spec fn spawned_in_regions(
    regions: Map<i32, Vec<usize>>,
    map_depth: int,
    spawns: Seq<(usize, String)>,
) -> bool {
    exists|areas: Seq<Seq<usize>>|
        regions_in_turn(regions, areas) && #[trigger] spawned_in_turn(areas, map_depth, spawns)
}

/// With one more part at the end, the parts in a row are the row of the
/// parts before and then the new part.
pub proof fn lemma_flatten_push(parts: Seq<Seq<(usize, String)>>, part: Seq<(usize, String)>)
    ensures
        parts.push(part).flatten() == parts.flatten() + part,
{
    let longer = parts.push(part);
    longer.lemma_flatten_and_flatten_alt_are_equivalent();
    parts.lemma_flatten_and_flatten_alt_are_equivalent();
    assert(longer.drop_last() =~= parts);
}

/// The floor of every room but the first, in the order of the rooms.
pub open spec fn room_areas(map: GridView, rooms: Seq<Rect>) -> Seq<Seq<usize>> {
    Seq::new(
        (if rooms.len() > 0 {
            rooms.len() - 1
        } else {
            0
        }) as nat,
        |k: int| room_floor(map.tiles, map.width, rooms[k + 1], map.tiles.len() as int),
    )
}

/// Keys that are as many as a map has and name every key of the map name
/// each key once.
proof fn lemma_keys_once<K, V>(m: Map<K, V>, keys: Seq<K>)
    requires
        m.dom().finite(),
        keys.len() == m.dom().len(),
        forall|k: int| 0 <= k < keys.len() ==> m.contains_key(#[trigger] keys[k]),
        forall|id: K| m.contains_key(id) ==> keys.contains(id),
    ensures
        keys.no_duplicates(),
        forall|id: K| m.contains_key(id) <==> keys.contains(id),
{
    assert(keys.to_set() =~= m.dom());
    keys.lemma_no_dup_set_cardinality();
}

/// The table of what can appear on a level of the given depth.
pub fn room_table(map_depth: i32) -> (table: RandomTable)
    requires
        -DEPTH_LIMIT <= map_depth <= DEPTH_LIMIT,
    ensures
        table.names() == room_names(),
        table.weights() == room_weights(map_depth as int),
        table.total() < i32::MAX,
{
    let table = RandomTable::new();
    let table = table.add("Orc", 1 + map_depth);
    let table = table.add("Health Potion", 7);
    let table = table.add("Fireball Scroll", 2 + map_depth);
    let table = table.add("Confusion Scroll", 2 + map_depth);
    let table = table.add("Magic Missile Scroll", 4);
    let table = table.add("Dagger", 3);
    let table = table.add("Shield", 3);
    let table = table.add("Longsword", map_depth - 1);
    let table = table.add("Tower Shield", map_depth - 1);
    let table = table.add("Rations", 10);
    let table = table.add("Magic Mapping Scroll", 2);
    let table = table.add("Bear Trap", 2);
    table
}

/// How many spawns a region of `available` tiles gets when the die shows
/// `roll`.
pub fn count_spawns(available: usize, roll: i32, map_depth: i32) -> (count: usize)
    requires
        -DEPTH_LIMIT <= map_depth <= DEPTH_LIMIT,
        -DEPTH_LIMIT <= roll <= DEPTH_LIMIT,
    ensures
        count == spawn_count(available as int, roll as int, map_depth as int),
        count <= available,
{
    let wanted: i32 = roll + (map_depth - 1) - 3;
    if wanted < 0 {
        0
    } else if (wanted as usize) > available {
        available
    } else {
        wanted as usize
    }
}

/// The floor tiles of the level that lie inside the box.
pub fn room_floor_tiles(map: &Grid, room: &Rect) -> (targets: Vec<usize>)
    requires
        map.wf(),
    ensures
        targets@ == room_floor(map.tiles@, map.width as int, *room, map.tiles@.len() as int),
        targets@.len() <= map.tiles@.len(),
{
    let mut targets: Vec<usize> = Vec::new();
    let n = map.tiles.len();
    let mut i: usize = 0;
    while i < n
        invariant
            map.wf(),
            i <= n,
            n == map.tiles@.len(),
            targets@ == room_floor(map.tiles@, map.width as int, *room, i as int),
            targets@.len() <= i,
        decreases n - i,
    {
        let (x, y) = map.idx_xy(i);
        if room.x1 < x && x < room.x2 && room.y1 < y && y < room.y2 && map.tiles[i]
            == TileType::Floor {
            targets.push(i);
        }
        i = i + 1;
    }
    targets
}

/// Chooses what is to appear in a region: as many spawns as the first throw
/// of the dice and the depth allow, each on a tile of the region that a
/// throw chooses among those not taken before, each of a kind that a roll of
/// the table of the level gives. What was chosen is kept by its tile and
/// handed out in no order that can be told beforehand.
pub fn spawn_region(area: &Vec<usize>, map_depth: i32, rng: &mut RandomNumberGenerator) -> (spawns:
    Vec<(usize, String)>)
    requires
        area@.len() < i32::MAX,
        -DEPTH_LIMIT <= map_depth <= DEPTH_LIMIT,
    ensures
        region_spawns(area@, map_depth as int, spawns@),
{
    broadcast use vstd::std_specs::hash::group_hash_axioms;

    let spawn_table = room_table(map_depth);
    let mut spawn_points: HashMap<usize, String> = HashMap::new();
    let mut areas: Vec<usize> = area.clone();
    let first = roll_die(rng, MAX_MONSTERS + 3);
    let num_spawns = count_spawns(areas.len(), first, map_depth);
    let mut i: usize = 0;
    while i < num_spawns
        invariant
            i <= num_spawns,
            num_spawns <= area@.len(),
            area@.len() < i32::MAX,
            areas@.len() == area@.len() - i,
            spawn_table.names() == room_names(),
            spawn_table.weights() == room_weights(map_depth as int),
            spawn_points@.dom().finite(),
            spawn_points@.len() <= i,
            forall|t: int| 0 <= t < areas@.len() ==> area@.contains(#[trigger] areas@[t]),
            forall|tile: usize| #[trigger]
                spawn_points@.contains_key(tile) ==> area@.contains(tile) && is_room_outcome(
                    spawn_points@[tile]@,
                    map_depth as int,
                ),
            area@.no_duplicates() ==> areas@.no_duplicates() && spawn_points@.len() == i && forall|
                tile: usize,
            | #[trigger] spawn_points@.contains_key(tile) ==> !areas@.contains(tile),
        decreases num_spawns - i,
    {
        let array_index: usize = (roll_die(rng, areas.len() as i32) - 1) as usize;
        let map_index = areas[array_index];
        let ghost areas_before = areas@;
        let ghost points_before = spawn_points@;
        let name = spawn_table.roll(rng);
        proof {
            if spawn_table.total() > 0 {
                let r = choose|r: int|
                    0 <= r < spawn_table.total() && name@ == #[trigger] spawn_table.outcome(r);
                assert(name@ == outcome_of(room_names(), room_weights(map_depth as int), r));
            } else {
                crate::random_table::lemma_shares_monotonic(
                    spawn_table.weights(),
                    0,
                    spawn_table.weights().len() as int,
                );
                crate::random_table::lemma_bucket_exists(spawn_table.weights(), -1);
                assert(name@ == outcome_of(room_names(), room_weights(map_depth as int), -1));
            }
            assert(area@.contains(areas_before[array_index as int]));
        }
        spawn_points.insert(map_index, name);
        areas.remove(array_index);
        proof {
            lemma_one_taken(areas_before, array_index as int);
            assert(spawn_points@.dom() =~= points_before.dom().insert(map_index));
            assert forall|t: int| 0 <= t < areas@.len() implies area@.contains(
                #[trigger] areas@[t],
            ) by {
                assert(areas_before.contains(areas@[t]));
            }
            if area@.no_duplicates() {
                assert(!points_before.contains_key(map_index));
                assert forall|tile: usize| #[trigger]
                    spawn_points@.contains_key(tile) implies !areas@.contains(tile) by {
                    if tile != map_index {
                        assert(points_before.contains_key(tile));
                        if areas@.contains(tile) {
                            assert(areas_before.contains(tile));
                        }
                    }
                }
            }
        }
        i = i + 1;
    }
    let ghost points = spawn_points@;
    let mut spawns: Vec<(usize, String)> = Vec::new();
    for entry in it: spawn_points.iter()
        invariant
            points == spawn_points@,
            spawns@.len() == it.index(),
            forall|k: int|
                #![trigger spawns@[k]]
                #![trigger it.seq()[k]]
                0 <= k < spawns@.len() ==> spawns@[k].0 == *it.seq()[k].0 && points.contains_key(
                    spawns@[k].0,
                ) && spawns@[k].1@ == points[spawns@[k].0]@,
            forall|tile: usize| #[trigger]
                points.contains_key(tile) ==> exists|k: int|
                    0 <= k < it.seq().len() && *(#[trigger] it.seq()[k]).0 == tile,
    {
        let (tile, name) = entry;
        assert(points.contains_key(*tile) && points[*tile] == *name);
        spawns.push((*tile, name.clone()));
    }
    proof {
        let tiles = spawn_tiles(spawns@);
        assert forall|tile: usize| points.contains_key(tile) implies tiles.contains(tile) by {
            let k = choose|k: int| 0 <= k < spawns@.len() && spawns@[k].0 == tile;
            assert(tiles[k] == tile);
        }
        assert forall|k: int| 0 <= k < tiles.len() implies points.contains_key(
            #[trigger] tiles[k],
        ) by {
            assert(tiles[k] == spawns@[k].0);
        }
        lemma_keys_once(points, tiles);
        assert(spawns@.len() <= spawn_count(
            area@.len() as int,
            first as int,
            map_depth as int,
        ));
    }
    spawns
}

/// Taking one item out of a list leaves the others: every item left was
/// there before, and where no item occurred twice, none does after and the
/// item taken is gone.
proof fn lemma_one_taken(items: Seq<usize>, at: int)
    requires
        0 <= at < items.len(),
    ensures
        items.remove(at).len() == items.len() - 1,
        forall|t: int|
            0 <= t < items.remove(at).len() ==> items.contains(#[trigger] items.remove(at)[t]),
        items.no_duplicates() ==> items.remove(at).no_duplicates() && !items.remove(at).contains(
            items[at],
        ),
{
    let rest = items.remove(at);
    assert forall|t: int| 0 <= t < rest.len() implies items.contains(#[trigger] rest[t]) by {
        if t < at {
            assert(rest[t] == items[t]);
        } else {
            assert(rest[t] == items[t + 1]);
        }
    }
    if items.no_duplicates() {
        assert forall|s: int, t: int| 0 <= s < rest.len() && 0 <= t < rest.len() && s
            != t implies rest[s] != rest[t] by {
            let a = if s < at {
                s
            } else {
                s + 1
            };
            let b = if t < at {
                t
            } else {
                t + 1
            };
            assert(rest[s] == items[a]);
            assert(rest[t] == items[b]);
        }
        if rest.contains(items[at]) {
            let t = choose|t: int| 0 <= t < rest.len() && rest[t] == items[at];
            let b = if t < at {
                t
            } else {
                t + 1
            };
            assert(rest[t] == items[b]);
        }
    }
}

/// Chooses what is to appear in a room: in the region of the floor tiles of
/// the level that lie inside the box of the room.
pub fn spawn_room(map: &Grid, room: &Rect, map_depth: i32, rng: &mut RandomNumberGenerator) -> (spawns:
    Vec<(usize, String)>)
    requires
        map.wf(),
        map.tiles@.len() < i32::MAX,
        -DEPTH_LIMIT <= map_depth <= DEPTH_LIMIT,
    ensures
        region_spawns(
            room_floor(map.tiles@, map.width as int, *room, map.tiles@.len() as int),
            map_depth as int,
            spawns@,
        ),
{
    let possible_targets = room_floor_tiles(map, room);
    spawn_region(&possible_targets, map_depth, rng)
}

/// The spawn stands on a floor tile of the level and is of a kind that the
/// table of the level gives.
pub open spec fn spawn_on_floor(map: GridView, spawn: (usize, String)) -> bool {
    &&& spawn.0 < map.tiles.len()
    &&& map.tiles[spawn.0 as int] == TileType::Floor
    &&& is_room_outcome(spawn.1@, map.depth)
}

/// The spawn stands on a tile of one of the regions and is of a kind that
/// the table of the level gives.
pub open spec fn spawn_in_regions(
    regions: Map<i32, Vec<usize>>,
    spawn: (usize, String),
    map_depth: int,
) -> bool {
    &&& exists|id: i32| #[trigger] regions.contains_key(id) && regions[id]@.contains(spawn.0)
    &&& is_room_outcome(spawn.1@, map_depth)
}

/// Chooses what is to appear in every region: the spawns of one region
/// after those of another, every region once, in no order that can be told
/// beforehand.
pub fn spawn_regions(
    regions: &HashMap<i32, Vec<usize>>,
    map_depth: i32,
    rng: &mut RandomNumberGenerator,
) -> (spawns: Vec<(usize, String)>)
    requires
        -DEPTH_LIMIT <= map_depth <= DEPTH_LIMIT,
        forall|id: i32| #[trigger] regions@.contains_key(id) ==> regions@[id]@.len() < i32::MAX,
    ensures
        spawned_in_regions(regions@, map_depth as int, spawns@),
        forall|k: int|
            0 <= k < spawns@.len() ==> spawn_in_regions(
                regions@,
                #[trigger] spawns@[k],
                map_depth as int,
            ),
{
    broadcast use vstd::std_specs::hash::group_hash_axioms;

    let mut spawns: Vec<(usize, String)> = Vec::new();
    let ghost mut keys: Seq<i32> = Seq::empty();
    let ghost mut areas: Seq<Seq<usize>> = Seq::empty();
    let ghost mut parts: Seq<Seq<(usize, String)>> = Seq::empty();
    for entry in it: regions.iter()
        invariant
            -DEPTH_LIMIT <= map_depth <= DEPTH_LIMIT,
            forall|id: i32| #[trigger] regions@.contains_key(id) ==> regions@[id]@.len() < i32::MAX,
            forall|k: int|
                0 <= k < spawns@.len() ==> spawn_in_regions(
                    regions@,
                    #[trigger] spawns@[k],
                    map_depth as int,
                ),
            keys.len() == it.index(),
            areas.len() == it.index(),
            forall|k: int|
                #![trigger keys[k]]
                #![trigger it.seq()[k]]
                0 <= k < keys.len() ==> keys[k] == *it.seq()[k].0,
            forall|id: i32| #[trigger]
                regions@.contains_key(id) ==> exists|k: int|
                    0 <= k < it.seq().len() && *(#[trigger] it.seq()[k]).0 == id,
            forall|k: int| 0 <= k < keys.len() ==> #[trigger] areas[k] == regions@[keys[k]]@,
            parts_of_areas(areas, map_depth as int, parts),
            spawns@ == parts.flatten(),
    {
        let (id, area) = entry;
        assert(regions@.contains_key(*id) && regions@[*id] == *area);
        let mut more = spawn_region(area, map_depth, rng);
        let ghost added = more@;
        proof {
            assert forall|k: int| 0 <= k < added.len() implies spawn_in_regions(
                regions@,
                #[trigger] added[k],
                map_depth as int,
            ) by {
                assert(area@.contains(added[k].0));
            }
            lemma_flatten_push(parts, added);
            keys = keys.push(*id);
            areas = areas.push(area@);
            parts = parts.push(added);
        }
        spawns.append(&mut more);
    }
    proof {
        assert forall|id: i32| regions@.contains_key(id) implies keys.contains(id) by {
            let k = choose|k: int| 0 <= k < keys.len() && keys[k] == id;
            assert(keys[k] == id);
        }
        lemma_keys_once(regions@, keys);
        assert(lists_regions(regions@, keys, areas));
        assert(regions_in_turn(regions@, areas));
        assert(parts_of_areas(areas, map_depth as int, parts));
        assert(spawned_in_turn(areas, map_depth as int, spawns@));
    }
    spawns
}

/// Chooses what is to appear on a level whose regions are given: the spawns
/// of one region after those of another, every region once, and every spawn
/// on a floor tile of the level.
pub fn spawn_in_level(
    map: &Grid,
    regions: &HashMap<i32, Vec<usize>>,
    rng: &mut RandomNumberGenerator,
) -> (spawns: Vec<(usize, String)>)
    requires
        map.wf(),
        map.width <= 0x7fff,
        map.height <= 0x7fff,
        -DEPTH_LIMIT <= map.depth <= DEPTH_LIMIT,
        regions_fit(regions@, map.tiles@),
    ensures
        spawned_in_regions(regions@, map.depth as int, spawns@),
        forall|k: int| 0 <= k < spawns@.len() ==> spawn_on_floor(map@, #[trigger] spawns@[k]),
{
    proof {
        assert(map.width * map.height < i32::MAX) by (nonlinear_arith)
            requires
                0 <= map.width <= 0x7fff,
                0 <= map.height <= 0x7fff,
        ;
        assert forall|id: i32| #[trigger] regions@.contains_key(id) implies regions@[id]@.len()
            < i32::MAX by {}
    }
    let spawns = spawn_regions(regions, map.depth, rng);
    proof {
        assert forall|k: int| 0 <= k < spawns@.len() implies spawn_on_floor(
            map@,
            #[trigger] spawns@[k],
        ) by {
            let id = choose|id: i32| #[trigger]
                regions@.contains_key(id) && regions@[id]@.contains(spawns@[k].0);
            let t = choose|t: int| 0 <= t < regions@[id]@.len() && regions@[id]@[t] == spawns@[k].0;
            assert(regions@[id]@[t] < map.tiles@.len());
        }
    }
    spawns
}

} // verus!
