//! Growth of the regions: every region claims tiles from its frontier, one
//! at a time, until all tiles are claimed.

use vstd::prelude::*;
use crate::generators::inland::Inland;
use crate::hex::{lemma_neighbours_are_tiles, neighbours};
use crate::hexmap::{
    coords_of, lemma_coords_roundtrip, lemma_grid_connected, lemma_index_roundtrip, neighbour_count,
    neighbour_index, HexMap,
};
use crate::rng::draw_below;
use rand::rngs::StdRng;

verus! {

/// The neighbours of the tile at index `tile`, as indices.
pub open spec fn neighbour_seq(tile: int, size_x: int, size_y: int) -> Seq<usize> {
    Seq::new(
        neighbour_count(tile, size_x, size_y) as nat,
        |k: int| neighbour_index(tile, k, size_x, size_y) as usize,
    )
}

/// The tile at index `tile` is next to the tile at index `from`.
pub open spec fn is_next_to(from: int, tile: usize, size_x: int, size_y: int) -> bool {
    neighbour_seq(from, size_x, size_y).contains(tile)
}

/// A group of tiles that share one terrain.
#[derive(Clone, Debug)]
pub struct Region {
    /// Index of the tile the region grew from.
    pub center: usize,
    /// Temperature between 0 and 1, in millionths.
    pub temperature: i32,
    /// Humidity between 0 and 1, in millionths.
    pub humidity: i32,
    /// Flatness between 0 and 1, in millionths.
    pub flatness: i32,
    /// A region of water, whatever its climate.
    pub water_region: bool,
    /// Indices of the tiles of the region, without its centre.
    pub hexes: Vec<usize>,
}

impl Region {
    /// The region holds the tile at index `tile`, as its centre or otherwise.
    pub open spec fn has(&self, tile: int) -> bool {
        self.center == tile || (0 <= tile <= usize::MAX && self.hexes@.contains(tile as usize))
    }

    /// The tile at index `tile` is the centre or one of the first `k` other
    /// tiles of the region.
    pub open spec fn has_before(&self, tile: int, k: int) -> bool {
        self.center == tile || (0 <= tile <= usize::MAX && self.hexes@.subrange(0, k).contains(
            tile as usize,
        ))
    }

    /// Tile `k` of the region lies next to the centre or to a tile that
    /// comes before it.
    pub open spec fn is_attached(&self, k: int, size_x: int, size_y: int) -> bool {
        exists|from: int| #[trigger]
            self.has_before(from, k) && is_next_to(from, self.hexes@[k], size_x, size_y)
    }

    /// The region is contiguous: each of its tiles is attached to the
    /// tiles before it, so that a path of neighbours leads from the centre
    /// to every tile.
    pub open spec fn is_contiguous(&self, size_x: int, size_y: int) -> bool {
        forall|k: int| 0 <= k < self.hexes@.len() ==> #[trigger] self.is_attached(k, size_x, size_y)
    }

    /// The tile at index `tile` lies next to a tile of the region.
    pub open spec fn borders(&self, tile: usize, size_x: int, size_y: int) -> bool {
        exists|from: int| #[trigger] self.has(from) && is_next_to(from, tile, size_x, size_y)
    }

    /// A region of medium climate around tile 0 that holds no other tile.
    pub fn new() -> (region: Region)
        ensures
            region.center == 0,
            region.temperature == 500_000,
            region.humidity == 500_000,
            region.flatness == 500_000,
            !region.water_region,
            region.hexes@.len() == 0,
    {
        Region {
            center: 0,
            temperature: 500_000,
            humidity: 500_000,
            flatness: 500_000,
            water_region: false,
            hexes: Vec::new(),
        }
    }
}

impl Default for Region {
    /// A region of medium climate around tile 0 that holds no other tile.
    fn default() -> (region: Region)
        ensures
            region.center == 0,
            region.temperature == 500_000,
            region.humidity == 500_000,
            region.flatness == 500_000,
            !region.water_region,
            region.hexes@.len() == 0,
    {
        Region::new()
    }
}

/// Number of tiles that regions with the given tiles hold: for every region
/// its centre and its other tiles.
pub open spec fn held_count(tiles: Seq<Seq<usize>>) -> int
    decreases tiles.len(),
{
    if tiles.len() == 0 {
        0
    } else {
        held_count(tiles.drop_last()) + 1 + tiles.last().len()
    }
}

/// Replacing the tiles of one region changes the number of tiles held by
/// the difference in length.
proof fn lemma_held_count_update(tiles: Seq<Seq<usize>>, i: int, v: Seq<usize>)
    requires
        0 <= i < tiles.len(),
    ensures
        held_count(tiles.update(i, v)) == held_count(tiles) - tiles[i].len() + v.len(),
    decreases tiles.len(),
{
    let after = tiles.update(i, v);
    if i == tiles.len() - 1 {
        assert(after.drop_last() =~= tiles.drop_last());
    } else {
        lemma_held_count_update(tiles.drop_last(), i, v);
        assert(after.drop_last() =~= tiles.drop_last().update(i, v));
    }
}

/// The regions of one generation run.
#[derive(Clone, Debug)]
pub struct Regions {
    pub regions: Vec<Region>,
}

impl Regions {
    /// Region `i` holds the tile at index `tile`.
    pub open spec fn region_has(&self, i: int, tile: int) -> bool {
        0 <= i < self.regions@.len() && self.regions@[i].has(tile)
    }

    /// Some region holds the tile at index `tile`.
    pub open spec fn holds(&self, tile: int) -> bool {
        exists|i: int| self.region_has(i, tile)
    }

    /// The tiles of every region, without the centres.
    pub open spec fn tiles(&self) -> Seq<Seq<usize>> {
        self.regions@.map_values(|region: Region| region.hexes@)
    }

    /// Number of tiles that the regions hold, centres included.
    pub open spec fn tile_count(&self) -> int {
        held_count(self.tiles())
    }

    /// Every region is contiguous.
    pub open spec fn contiguous(&self, size_x: int, size_y: int) -> bool {
        forall|i: int|
            0 <= i < self.regions@.len() ==> (#[trigger] self.regions@[i]).is_contiguous(size_x, size_y)
    }

    /// Every tile below `area` belongs to exactly one region, and no region
    /// lists a tile twice.
    pub open spec fn covers(&self, area: int) -> bool {
        &&& forall|tile: int| 0 <= tile < area ==> #[trigger] self.holds(tile)
        &&& forall|tile: int, i: int, j: int|
            #[trigger] self.region_has(i, tile) && #[trigger] self.region_has(j, tile) ==> i == j
        &&& forall|i: int|
            0 <= i < self.regions@.len() ==> {
                &&& (#[trigger] self.regions@[i]).hexes@.no_duplicates()
                &&& !self.regions@[i].hexes@.contains(self.regions@[i].center)
                &&& self.regions@[i].center < area
            }
        &&& forall|i: int, k: int|
            0 <= i < self.regions@.len() && 0 <= k < self.regions@[i].hexes@.len() ==> (
            #[trigger] self.regions@[i].hexes@[k]) < area
    }

    /// Regions that hold the same tiles in the same order are contiguous
    /// together.
    pub proof fn lemma_same_tiles_contiguous(&self, other: &Regions, size_x: int, size_y: int)
        requires
            other.contiguous(size_x, size_y),
            self.regions@.len() == other.regions@.len(),
            forall|j: int|
                0 <= j < self.regions@.len() ==> (#[trigger] self.regions@[j]).center == other.regions@[j].center
                    && self.regions@[j].hexes@ == other.regions@[j].hexes@,
        ensures
            self.contiguous(size_x, size_y),
    {
        assert forall|i: int| 0 <= i < self.regions@.len() implies (#[trigger] self.regions@[i]).is_contiguous(
            size_x,
            size_y,
        ) by {
            let mine = self.regions@[i];
            let theirs = other.regions@[i];
            assert(theirs.is_contiguous(size_x, size_y));
            assert(mine.center == theirs.center);
            assert forall|k: int| 0 <= k < mine.hexes@.len() implies #[trigger] mine.is_attached(
                k,
                size_x,
                size_y,
            ) by {
                assert(theirs.is_attached(k, size_x, size_y));
                let from = choose|from: int| #[trigger]
                    theirs.has_before(from, k) && is_next_to(from, theirs.hexes@[k], size_x, size_y);
                assert(mine.has_before(from, k));
            }
        }
    }

    /// Regions that hold the same tiles cover the same map.
    pub proof fn lemma_same_tiles_cover(&self, other: &Regions, area: int)
        requires
            other.covers(area),
            self.regions@.len() == other.regions@.len(),
            forall|j: int|
                0 <= j < self.regions@.len() ==> (#[trigger] self.regions@[j]).center == other.regions@[j].center
                    && self.regions@[j].hexes@ == other.regions@[j].hexes@,
        ensures
            self.covers(area),
    {
        assert forall|tile: int, i: int| self.region_has(i, tile) == other.region_has(i, tile) by {
            if 0 <= i < self.regions@.len() {
                assert(self.regions@[i].center == other.regions@[i].center);
            }
        }
        assert forall|tile: int| 0 <= tile < area implies #[trigger] self.holds(tile) by {
            assert(other.holds(tile));
            let i = choose|i: int| other.region_has(i, tile);
            assert(self.region_has(i, tile));
        }
        assert forall|tile: int, i: int, j: int|
            #[trigger] self.region_has(i, tile) && #[trigger] self.region_has(j, tile) implies i
            == j by {
            assert(other.region_has(i, tile) && other.region_has(j, tile));
        }
        assert forall|i: int| 0 <= i < self.regions@.len() implies {
            &&& (#[trigger] self.regions@[i]).hexes@.no_duplicates()
            &&& !self.regions@[i].hexes@.contains(self.regions@[i].center)
            &&& self.regions@[i].center < area
        } by {
            assert(other.regions@[i].hexes@.no_duplicates());
        }
        assert forall|i: int, k: int|
            0 <= i < self.regions@.len() && 0 <= k < self.regions@[i].hexes@.len() implies (
        #[trigger] self.regions@[i].hexes@[k]) < area by {
            assert(other.regions@[i].hexes@[k] < area);
        }
    }

    /// Creates `len` regions of medium climate that hold no tiles yet.
    pub fn new(len: usize) -> (r: Regions)
        ensures
            r.regions@.len() == len,
            forall|i: int|
                0 <= i < len ==> {
                    &&& (#[trigger] r.regions@[i]).center == 0
                    &&& r.regions@[i].temperature == 500_000
                    &&& r.regions@[i].humidity == 500_000
                    &&& r.regions@[i].flatness == 500_000
                    &&& !r.regions@[i].water_region
                    &&& r.regions@[i].hexes@.len() == 0
                },
    {
        let mut regions: Vec<Region> = Vec::new();
        let mut made: usize = 0;
        while made < len
            invariant
                made <= len,
                regions@.len() == made,
                forall|i: int|
                    0 <= i < made ==> {
                        &&& (#[trigger] regions@[i]).center == 0
                        &&& regions@[i].temperature == 500_000
                        &&& regions@[i].humidity == 500_000
                        &&& regions@[i].flatness == 500_000
                        &&& !regions@[i].water_region
                        &&& regions@[i].hexes@.len() == 0
                    },
            decreases len - made,
        {
            regions.push(Region::new());
            made += 1;
        }
        Regions { regions }
    }
}

/// Number of tiles that no region has claimed.
pub open spec fn unclaimed_count(owner: Seq<Option<usize>>) -> int
    decreases owner.len(),
{
    if owner.len() == 0 {
        0
    } else {
        unclaimed_count(owner.drop_last()) + (if owner.last().is_none() {
            1int
        } else {
            0int
        })
    }
}

/// The count of unclaimed tiles lies between 0 and the number of tiles, and
/// reaches these bounds where every tile or no tile is claimed.
proof fn lemma_unclaimed_bounds(owner: Seq<Option<usize>>)
    ensures
        0 <= unclaimed_count(owner) <= owner.len(),
        (forall|t: int| 0 <= t < owner.len() ==> owner[t].is_none()) ==> unclaimed_count(owner)
            == owner.len(),
        (forall|t: int| 0 <= t < owner.len() ==> owner[t].is_some()) ==> unclaimed_count(owner)
            == 0,
    decreases owner.len(),
{
    if owner.len() > 0 {
        lemma_unclaimed_bounds(owner.drop_last());
    }
}

/// Claiming a free tile lowers the count of unclaimed tiles by one.
proof fn lemma_unclaimed_claim(owner: Seq<Option<usize>>, tile: int, region: usize)
    requires
        0 <= tile < owner.len(),
        owner[tile].is_none(),
    ensures
        unclaimed_count(owner.update(tile, Some(region))) == unclaimed_count(owner) - 1,
    decreases owner.len(),
{
    let after = owner.update(tile, Some(region));
    if tile == owner.len() - 1 {
        assert(after.drop_last() =~= owner.drop_last());
    } else {
        lemma_unclaimed_claim(owner.drop_last(), tile, region);
        assert(after.drop_last() =~= owner.drop_last().update(tile, Some(region)));
    }
}

/// Where no tile is unclaimed, every tile is claimed.
proof fn lemma_all_claimed(owner: Seq<Option<usize>>)
    requires
        unclaimed_count(owner) == 0,
    ensures
        forall|t: int| 0 <= t < owner.len() ==> (#[trigger] owner[t]).is_some(),
    decreases owner.len(),
{
    if owner.len() > 0 {
        lemma_unclaimed_bounds(owner.drop_last());
        lemma_all_claimed(owner.drop_last());
        assert forall|t: int| 0 <= t < owner.len() implies (#[trigger] owner[t]).is_some() by {
            if t < owner.len() - 1 {
                assert(owner.drop_last()[t].is_some());
            }
        }
    }
}

/// Number of entries in all frontiers.
pub open spec fn frontier_total(frontiers: Seq<Vec<usize>>) -> int
    decreases frontiers.len(),
{
    if frontiers.len() == 0 {
        0
    } else {
        frontier_total(frontiers.drop_last()) + frontiers.last()@.len()
    }
}

/// Replacing one frontier changes the number of entries by the difference
/// in length.
proof fn lemma_frontier_total_update(frontiers: Seq<Vec<usize>>, i: int, v: Vec<usize>)
    requires
        0 <= i < frontiers.len(),
    ensures
        frontier_total(frontiers.update(i, v)) == frontier_total(frontiers) - frontiers[i]@.len()
            + v@.len(),
    decreases frontiers.len(),
{
    let after = frontiers.update(i, v);
    if i == frontiers.len() - 1 {
        assert(after.drop_last() =~= frontiers.drop_last());
    } else {
        lemma_frontier_total_update(frontiers.drop_last(), i, v);
        assert(after.drop_last() =~= frontiers.drop_last().update(i, v));
    }
}

/// The number of frontier entries is not negative.
proof fn lemma_frontier_total_nonnegative(frontiers: Seq<Vec<usize>>)
    ensures
        0 <= frontier_total(frontiers),
    decreases frontiers.len(),
{
    if frontiers.len() > 0 {
        lemma_frontier_total_nonnegative(frontiers.drop_last());
    }
}

/// The tiles among `tiles` that no region has claimed, in their order.
pub open spec fn open_tiles(owner: Seq<Option<usize>>, tiles: Seq<usize>) -> Seq<usize>
    decreases tiles.len(),
{
    if tiles.len() == 0 {
        Seq::empty()
    } else if owner[tiles.last() as int].is_none() {
        open_tiles(owner, tiles.drop_last()).push(tiles.last())
    } else {
        open_tiles(owner, tiles.drop_last())
    }
}

/// Every tile that `open_tiles` keeps is an unclaimed tile of `tiles`, and
/// every unclaimed tile of `tiles` is kept.
proof fn lemma_open_tiles(owner: Seq<Option<usize>>, tiles: Seq<usize>)
    ensures
        forall|m: int|
            0 <= m < open_tiles(owner, tiles).len() ==> tiles.contains(
                #[trigger] open_tiles(owner, tiles)[m],
            ) && owner[open_tiles(owner, tiles)[m] as int].is_none(),
        forall|k: int|
            0 <= k < tiles.len() && owner[tiles[k] as int].is_none() ==> open_tiles(
                owner,
                tiles,
            ).contains(#[trigger] tiles[k]),
        open_tiles(owner, tiles).len() <= tiles.len(),
    decreases tiles.len(),
{
    if tiles.len() > 0 {
        let rest = tiles.drop_last();
        lemma_open_tiles(owner, rest);
        let kept = open_tiles(owner, tiles);
        let before = open_tiles(owner, rest);
        assert forall|m: int| 0 <= m < kept.len() implies tiles.contains(#[trigger] kept[m])
            && owner[kept[m] as int].is_none() by {
            if m < before.len() {
                assert(rest.contains(before[m]));
                let j = choose|j: int| 0 <= j < rest.len() && rest[j] == before[m];
                assert(tiles[j] == before[m]);
            } else {
                assert(tiles[tiles.len() - 1] == kept[m]);
            }
        }
        assert forall|k: int| 0 <= k < tiles.len() && owner[tiles[k] as int].is_none() implies kept.contains(
            #[trigger] tiles[k],
        ) by {
            if k < rest.len() {
                assert(rest[k] == tiles[k]);
                assert(before.contains(rest[k]));
                let m = choose|m: int| 0 <= m < before.len() && before[m] == rest[k];
                assert(kept[m] == tiles[k]);
            } else {
                assert(kept[kept.len() - 1] == tiles[k]);
            }
        }
    }
}

/// What is left of a sequence after one entry is removed holds every other
/// value of the sequence, and nothing else.
proof fn lemma_remove_contains(s: Seq<usize>, pick: int)
    requires
        0 <= pick < s.len(),
    ensures
        forall|m: int| 0 <= m < s.len() && s[m] != s[pick] ==> s.remove(pick).contains(#[trigger] s[m]),
        forall|m: int| 0 <= m < s.remove(pick).len() ==> s.contains(#[trigger] s.remove(pick)[m]),
        s.remove(pick).len() == s.len() - 1,
{
    let r = s.remove(pick);
    assert forall|m: int| 0 <= m < s.len() && s[m] != s[pick] implies r.contains(#[trigger] s[m]) by {
        if m < pick {
            assert(r[m] == s[m]);
        } else {
            assert(r[m - 1] == s[m]);
        }
    }
    assert forall|m: int| 0 <= m < r.len() implies s.contains(#[trigger] r[m]) by {
        if m < pick {
            assert(s[m] == r[m]);
        } else {
            assert(s[m + 1] == r[m]);
        }
    }
}

/// The neighbours of a tile have indices of the map.
pub proof fn lemma_neighbour_index_range(tile: int, k: int, size_x: int, size_y: int)
    requires
        0 <= size_x,
        0 <= size_y,
        0 <= tile < size_x * size_y,
        0 <= k < neighbour_count(tile, size_x, size_y),
    ensures
        0 <= neighbour_index(tile, k, size_x, size_y) < size_x * size_y,
{
    lemma_index_roundtrip(tile, size_x, size_y);
    let x = coords_of(tile, size_x).0;
    let y = coords_of(tile, size_x).1;
    lemma_neighbours_are_tiles(x, y, size_x, size_y, k);
    let n = neighbours(x, y, size_x, size_y)[k];
    lemma_coords_roundtrip(n.0, n.1, size_x, size_y);
}

/// The records of region growth as plain values: for every tile the region
/// that has claimed it, for every region its frontier and the tiles it has
/// claimed.
pub struct Records {
    pub owner: Seq<Option<usize>>,
    pub frontiers: Seq<Seq<usize>>,
    pub hexes: Seq<Seq<usize>>,
}

/// The owners of `area` tiles when only the centres are claimed, each by the
/// region of its position.
pub open spec fn claimed_by(centers: Seq<usize>, area: int) -> Seq<Option<usize>>
    decreases centers.len(),
{
    if centers.len() == 0 {
        Seq::new(area as nat, |t: int| None)
    } else {
        claimed_by(centers.drop_last(), area).update(
            centers.last() as int,
            Some((centers.len() - 1) as usize),
        )
    }
}

/// The records at the start of growth: the centres are claimed, and the
/// frontier of every region holds the neighbours of its centre.
pub open spec fn first_records(centers: Seq<usize>, size_x: int, size_y: int) -> Records {
    Records {
        owner: claimed_by(centers, size_x * size_y),
        frontiers: Seq::new(centers.len(), |i: int| neighbour_seq(centers[i] as int, size_x, size_y)),
        hexes: Seq::new(centers.len(), |i: int| Seq::empty()),
    }
}

/// The records after region `region` took entry `pick` out of its frontier:
/// a tile that no region had claimed is claimed, and its unclaimed
/// neighbours join the frontier; a claimed tile is dropped.
pub open spec fn step_records(r: Records, region: int, pick: int, size_x: int, size_y: int) -> Records {
    let tile = r.frontiers[region][pick];
    let rest = r.frontiers[region].remove(pick);
    if r.owner[tile as int].is_some() {
        Records { owner: r.owner, frontiers: r.frontiers.update(region, rest), hexes: r.hexes }
    } else {
        let owner = r.owner.update(tile as int, Some(region as usize));
        Records {
            owner,
            frontiers: r.frontiers.update(
                region,
                rest + open_tiles(owner, neighbour_seq(tile as int, size_x, size_y)),
            ),
            hexes: r.hexes.update(region, r.hexes[region].push(tile)),
        }
    }
}

/// Region `region` takes a turn: tiles are left to claim, and the region
/// has a frontier.
pub open spec fn takes_turn(r: Records, region: int) -> bool {
    unclaimed_count(r.owner) > 0 && r.frontiers[region].len() > 0
}

/// The records after the given turns. The regions are visited in rounds, one
/// after the other; a turn holds the frontier entry that the visited region
/// took, or nothing if the region was passed over.
pub open spec fn replay(start: Records, turns: Seq<Option<usize>>, size_x: int, size_y: int) -> Records
    decreases turns.len(),
{
    if turns.len() == 0 {
        start
    } else {
        let before = replay(start, turns.drop_last(), size_x, size_y);
        match turns.last() {
            Some(pick) => step_records(
                before,
                (turns.len() - 1) % (start.frontiers.len() as int),
                pick as int,
                size_x,
                size_y,
            ),
            None => before,
        }
    }
}

/// Turn `k` follows the rule of growth: the visited region takes an entry
/// of its frontier if, and only if, tiles are left to claim and it has a
/// frontier.
pub open spec fn is_turn(start: Records, turns: Seq<Option<usize>>, k: int, size_x: int, size_y: int) -> bool {
    let before = replay(start, turns.subrange(0, k), size_x, size_y);
    let region = k % (start.frontiers.len() as int);
    match turns[k] {
        Some(pick) => takes_turn(before, region) && pick < before.frontiers[region].len(),
        None => !takes_turn(before, region),
    }
}

/// All turns follow the rule of growth.
pub open spec fn are_turns(start: Records, turns: Seq<Option<usize>>, size_x: int, size_y: int) -> bool {
    forall|k: int| 0 <= k < turns.len() ==> #[trigger] is_turn(start, turns, k, size_x, size_y)
}

/// The regions are what the given turns make of the centres.
pub open spec fn is_growth_of(
    regions: &Regions,
    centers: Seq<usize>,
    turns: Seq<Option<usize>>,
    size_x: int,
    size_y: int,
) -> bool {
    let start = first_records(centers, size_x, size_y);
    &&& regions.regions@.len() == centers.len()
    &&& forall|i: int| 0 <= i < centers.len() ==> (#[trigger] regions.regions@[i]).center == centers[i]
    &&& are_turns(start, turns, size_x, size_y)
    &&& replay(start, turns, size_x, size_y).hexes == regions.tiles()
}

/// One more turn that follows the rule keeps a sequence of turns in line
/// with it.
proof fn lemma_turn_added(
    start: Records,
    turns: Seq<Option<usize>>,
    turn: Option<usize>,
    size_x: int,
    size_y: int,
)
    requires
        are_turns(start, turns, size_x, size_y),
        is_turn(start, turns.push(turn), turns.len() as int, size_x, size_y),
    ensures
        are_turns(start, turns.push(turn), size_x, size_y),
{
    let longer = turns.push(turn);
    assert forall|k: int| 0 <= k < longer.len() implies #[trigger] is_turn(
        start,
        longer,
        k,
        size_x,
        size_y,
    ) by {
        if k < turns.len() {
            assert(is_turn(start, turns, k, size_x, size_y));
            assert(longer.subrange(0, k) =~= turns.subrange(0, k));
        }
    }
}

/// The state of region growth: which region has claimed which tile, and the
/// tiles that each region may claim next.
pub struct Growth {
    /// For every tile the region that has claimed it, if any.
    pub owner: Vec<Option<usize>>,
    /// For every region the tiles next to its own that it found unclaimed.
    pub frontiers: Vec<Vec<usize>>,
    /// The regions with the tiles they have claimed.
    pub regions: Vec<Region>,
    /// Number of tiles that no region has claimed.
    pub remaining: usize,
}

impl Growth {
    /// The records as plain values.
    pub open spec fn records(&self) -> Records {
        Records {
            owner: self.owner@,
            frontiers: self.frontiers@.map_values(|frontier: Vec<usize>| frontier@),
            hexes: self.regions@.map_values(|region: Region| region.hexes@),
        }
    }

    /// Region `region` has claimed `tile` or holds it in its frontier.
    pub open spec fn within_reach(&self, region: usize, tile: int) -> bool {
        self.owner@[tile].is_some() || self.frontiers@[region as int]@.contains(tile as usize)
    }

    /// The records agree with each other: a tile is claimed by the region
    /// that lists it, the tiles held and the tiles unclaimed add up to the
    /// tiles of the map, and every neighbour of a claimed tile is claimed or
    /// waits in the frontier of the region that claimed the tile. Every
    /// region is contiguous, and its frontier holds tiles of the map that
    /// lie next to it.
    pub open spec fn wf(&self, hex_map: &HexMap) -> bool {
        &&& self.owner@.len() == hex_map.field@.len()
        &&& self.frontiers@.len() == self.regions@.len()
        &&& self.remaining == unclaimed_count(self.owner@)
        &&& held_count(self.records().hexes) + self.remaining == self.owner@.len()
        &&& forall|t: int|
            0 <= t < self.owner@.len() && (#[trigger] self.owner@[t]).is_some() ==> {
                &&& self.owner@[t].unwrap() < self.regions@.len()
                &&& self.regions@[self.owner@[t].unwrap() as int].has(t)
            }
        &&& forall|i: int|
            0 <= i < self.regions@.len() ==> {
                &&& (#[trigger] self.regions@[i]).center < self.owner@.len()
                &&& self.owner@[self.regions@[i].center as int].is_some()
                &&& self.owner@[self.regions@[i].center as int].unwrap() == i
                &&& self.regions@[i].hexes@.no_duplicates()
                &&& !self.regions@[i].hexes@.contains(self.regions@[i].center)
            }
        &&& forall|i: int, k: int|
            0 <= i < self.regions@.len() && 0 <= k < self.regions@[i].hexes@.len() ==> {
                &&& (#[trigger] self.regions@[i].hexes@[k]) < self.owner@.len()
                &&& self.owner@[self.regions@[i].hexes@[k] as int].is_some()
                &&& self.owner@[self.regions@[i].hexes@[k] as int].unwrap() == i
            }
        &&& forall|i: int, k: int|
            0 <= i < self.frontiers@.len() && 0 <= k < self.frontiers@[i]@.len() ==> (
            #[trigger] self.frontiers@[i]@[k]) < self.owner@.len()
        &&& forall|t: int, k: int|
            0 <= t < self.owner@.len() && self.owner@[t].is_some() && 0 <= k < neighbour_count(
                t,
                hex_map.size_x as int,
                hex_map.size_y as int,
            ) ==> self.within_reach(
                self.owner@[t].unwrap(),
                #[trigger] neighbour_index(t, k, hex_map.size_x as int, hex_map.size_y as int),
            )
        &&& forall|i: int|
            0 <= i < self.regions@.len() ==> (#[trigger] self.regions@[i]).is_contiguous(
                hex_map.size_x as int,
                hex_map.size_y as int,
            )
        &&& forall|i: int, k: int|
            0 <= i < self.frontiers@.len() && 0 <= k < self.frontiers@[i]@.len()
                ==> self.regions@[i].borders(
                #[trigger] self.frontiers@[i]@[k],
                hex_map.size_x as int,
                hex_map.size_y as int,
            )
    }

    /// `self` comes before `other` in the order that growth descends:
    /// fewer unclaimed tiles, or as many and fewer frontier entries.
    pub open spec fn precedes(&self, other: &Growth) -> bool {
        self.remaining < other.remaining || (self.remaining == other.remaining && frontier_total(
            self.frontiers@,
        ) < frontier_total(other.frontiers@))
    }

    /// `self` is what one step of region `region` makes of `before`: the
    /// region takes entry `pick` out of its frontier and, if no region has
    /// claimed that tile, claims it and appends the tile's unclaimed
    /// neighbours to its frontier.
    pub open spec fn is_step_of(
        &self,
        before: &Growth,
        hex_map: &HexMap,
        region: usize,
        pick: usize,
    ) -> bool {
        let tile = before.frontiers@[region as int]@[pick as int];
        let rest = before.frontiers@[region as int]@.remove(pick as int);
        &&& self.frontiers@.len() == before.frontiers@.len()
        &&& self.regions@.len() == before.regions@.len()
        &&& forall|j: int|
            0 <= j < self.frontiers@.len() && j != region ==> #[trigger] self.frontiers@[j]
                == before.frontiers@[j]
        &&& forall|j: int|
            0 <= j < self.regions@.len() && j != region ==> #[trigger] self.regions@[j]
                == before.regions@[j]
        &&& self.regions@[region as int].center == before.regions@[region as int].center
        &&& self.regions@[region as int].temperature == before.regions@[region as int].temperature
        &&& self.regions@[region as int].humidity == before.regions@[region as int].humidity
        &&& self.regions@[region as int].flatness == before.regions@[region as int].flatness
        &&& self.regions@[region as int].water_region == before.regions@[region as int].water_region
        &&& if before.owner@[tile as int].is_some() {
            &&& self.owner@ == before.owner@
            &&& self.remaining == before.remaining
            &&& self.regions@[region as int].hexes@ == before.regions@[region as int].hexes@
            &&& self.frontiers@[region as int]@ == rest
        } else {
            &&& self.owner@ == before.owner@.update(tile as int, Some(region))
            &&& self.remaining == before.remaining - 1
            &&& self.regions@[region as int].hexes@ == before.regions@[region as int].hexes@.push(
                tile,
            )
            &&& self.frontiers@[region as int]@ == rest + open_tiles(
                self.owner@,
                neighbour_seq(tile as int, hex_map.size_x as int, hex_map.size_y as int),
            )
        }
    }

    /// The records after a step are `step_records` of the records before.
    pub proof fn lemma_step_records(&self, before: &Growth, hex_map: &HexMap, region: usize, pick: usize)
        requires
            region < before.frontiers@.len(),
            before.frontiers@.len() == before.regions@.len(),
            pick < before.frontiers@[region as int]@.len(),
            self.is_step_of(before, hex_map, region, pick),
        ensures
            self.records() == step_records(
                before.records(),
                region as int,
                pick as int,
                hex_map.size_x as int,
                hex_map.size_y as int,
            ),
    {
        let now = self.records();
        let then = step_records(
            before.records(),
            region as int,
            pick as int,
            hex_map.size_x as int,
            hex_map.size_y as int,
        );
        assert(now.frontiers =~= then.frontiers) by {
            assert forall|j: int| 0 <= j < now.frontiers.len() implies now.frontiers[j]
                == then.frontiers[j] by {
                if j != region {
                    assert(self.frontiers@[j] == before.frontiers@[j]);
                }
            }
        }
        assert(now.hexes =~= then.hexes) by {
            assert forall|j: int| 0 <= j < now.hexes.len() implies now.hexes[j] == then.hexes[j] by {
                if j != region {
                    assert(self.regions@[j] == before.regions@[j]);
                }
            }
        }
    }

    /// While a tile is unclaimed, some region has a tile in its frontier.
    pub proof fn lemma_frontier_nonempty(&self, hex_map: &HexMap)
        requires
            hex_map.wf(),
            self.wf(hex_map),
            self.remaining > 0,
            self.regions@.len() > 0,
        ensures
            exists|i: int| 0 <= i < self.frontiers@.len() && (#[trigger] self.frontiers@[i])@.len() > 0,
    {
        if forall|i: int| 0 <= i < self.frontiers@.len() ==> (#[trigger] self.frontiers@[i])@.len() == 0 {
            let size_x = hex_map.size_x as int;
            let size_y = hex_map.size_y as int;
            let owner = self.owner@;
            let claimed = Set::new(|t: int| 0 <= t < owner.len() && owner[t].is_some());
            assert forall|t: int, k: int|
                0 <= t < size_x * size_y && claimed.contains(t) && 0 <= k < neighbour_count(
                    t,
                    size_x,
                    size_y,
                ) implies claimed.contains(#[trigger] neighbour_index(t, k, size_x, size_y)) by {
                let n = neighbour_index(t, k, size_x, size_y);
                lemma_neighbour_index_range(t, k, size_x, size_y);
                assert(self.within_reach(owner[t].unwrap(), n));
                let i = owner[t].unwrap() as int;
                assert(self.frontiers@[i]@.len() == 0);
            }
            let start = self.regions@[0].center as int;
            assert(claimed.contains(start));
            lemma_grid_connected(claimed, start, size_x, size_y);
            assert forall|t: int| 0 <= t < owner.len() implies owner[t].is_some() by {
                assert(claimed.contains(t));
            }
            lemma_unclaimed_bounds(owner);
        }
    }

    /// A region that holds a tile has claimed it.
    pub proof fn lemma_holder_is_owner(&self, hex_map: &HexMap, i: int, tile: int)
        requires
            self.wf(hex_map),
            0 <= i < self.regions@.len(),
            self.regions@[i].has(tile),
        ensures
            0 <= tile < self.owner@.len(),
            self.owner@[tile].is_some(),
            self.owner@[tile].unwrap() == i,
    {
        let region = self.regions@[i];
        if region.center != tile {
            let k = choose|k: int| 0 <= k < region.hexes@.len() && region.hexes@[k] == tile as usize;
            assert(self.regions@[i].hexes@[k] < self.owner@.len());
        }
    }

    /// Once every tile is claimed, the regions cover the map.
    pub proof fn lemma_covers(&self, hex_map: &HexMap, result: &Regions)
        requires
            self.wf(hex_map),
            self.remaining == 0,
            result.regions@ == self.regions@,
        ensures
            result.covers(hex_map.field@.len() as int),
            result.contiguous(hex_map.size_x as int, hex_map.size_y as int),
    {
        let owner = self.owner@;
        lemma_all_claimed(owner);
        assert forall|tile: int| 0 <= tile < owner.len() implies #[trigger] result.holds(tile) by {
            assert(owner[tile].is_some());
            assert(result.region_has(owner[tile].unwrap() as int, tile));
        }
        assert forall|tile: int, i: int, j: int|
            #[trigger] result.region_has(i, tile) && #[trigger] result.region_has(
                j,
                tile,
            ) implies i == j by {
            self.lemma_holder_is_owner(hex_map, i, tile);
            self.lemma_holder_is_owner(hex_map, j, tile);
        }
    }

    /// A step keeps the records in agreement and descends in the order of
    /// growth.
    pub proof fn lemma_step(&self, before: &Growth, hex_map: &HexMap, region: usize, pick: usize)
        requires
            hex_map.wf(),
            before.wf(hex_map),
            region < before.frontiers@.len(),
            pick < before.frontiers@[region as int]@.len(),
            self.is_step_of(before, hex_map, region, pick),
        ensures
            self.wf(hex_map),
            self.precedes(before),
    {
        let size_x = hex_map.size_x as int;
        let size_y = hex_map.size_y as int;
        let old_frontier = before.frontiers@[region as int]@;
        let tile = old_frontier[pick as int];
        let rest = old_frontier.remove(pick as int);
        let new_frontier = self.frontiers@[region as int]@;
        lemma_remove_contains(old_frontier, pick as int);
        assert(tile < before.owner@.len());
        let around = neighbour_seq(tile as int, size_x, size_y);
        lemma_open_tiles(self.owner@, around);
        assert(self.frontiers@ =~= before.frontiers@.update(
            region as int,
            self.frontiers@[region as int],
        ));
        lemma_frontier_total_update(before.frontiers@, region as int, self.frontiers@[region as int]);
        let claim = before.owner@[tile as int].is_none();
        if claim {
            lemma_unclaimed_claim(before.owner@, tile as int, region);
            lemma_unclaimed_bounds(self.owner@);
        }
        // the tiles held and the tiles unclaimed still add up
        self.lemma_step_records(before, hex_map, region, pick);
        if claim {
            lemma_held_count_update(
                before.records().hexes,
                region as int,
                before.records().hexes[region as int].push(tile),
            );
        }
        // what the frontier of the stepping region holds afterwards
        assert forall|m: int| 0 <= m < rest.len() implies new_frontier.contains(#[trigger] rest[m]) by {
            assert(new_frontier[m] == rest[m]);
        }
        assert forall|m: int| 0 <= m < new_frontier.len() implies (#[trigger] new_frontier[m])
            < self.owner@.len() by {
            if m < rest.len() {
                assert(new_frontier[m] == rest[m]);
                assert(old_frontier.contains(rest[m]));
            } else {
                let kept = open_tiles(self.owner@, around);
                assert(new_frontier[m] == kept[m - rest.len()]);
                assert(around.contains(kept[m - rest.len()]));
                let k = choose|k: int| 0 <= k < around.len() && around[k] == kept[m - rest.len()];
                lemma_neighbour_index_range(tile as int, k, size_x, size_y);
            }
        }
        assert forall|i: int, k: int|
            0 <= i < self.frontiers@.len() && 0 <= k < self.frontiers@[i]@.len() implies (
        #[trigger] self.frontiers@[i]@[k]) < self.owner@.len() by {
            if i != region {
                assert(self.frontiers@[i] == before.frontiers@[i]);
                assert(before.frontiers@[i]@[k] < before.owner@.len());
            }
        }
        // claimed tiles belong to the region that claimed them
        assert forall|t: int| 0 <= t < self.owner@.len() && (#[trigger] self.owner@[t]).is_some() implies {
            &&& self.owner@[t].unwrap() < self.regions@.len()
            &&& self.regions@[self.owner@[t].unwrap() as int].has(t)
        } by {
            if claim && t == tile {
                let hexes = self.regions@[region as int].hexes@;
                assert(hexes[hexes.len() - 1] == tile);
            } else {
                assert(before.owner@[t].is_some());
                let i = before.owner@[t].unwrap() as int;
                assert(before.regions@[i].has(t));
                if i == region && claim {
                    if before.regions@[i].center != t {
                        let hexes = before.regions@[i].hexes@;
                        let m = choose|m: int| 0 <= m < hexes.len() && hexes[m] == t as usize;
                        assert(self.regions@[i].hexes@[m] == t as usize);
                    }
                } else if i != region {
                    assert(self.regions@[i] == before.regions@[i]);
                }
            }
        }
        assert forall|i: int| 0 <= i < self.regions@.len() implies {
            &&& (#[trigger] self.regions@[i]).center < self.owner@.len()
            &&& self.owner@[self.regions@[i].center as int].is_some()
            &&& self.owner@[self.regions@[i].center as int].unwrap() == i
            &&& self.regions@[i].hexes@.no_duplicates()
            &&& !self.regions@[i].hexes@.contains(self.regions@[i].center)
        } by {
            let was = before.regions@[i];
            assert(was.center < before.owner@.len());
            assert(before.owner@[was.center as int].is_some());
            if i == region && claim {
                let hexes = was.hexes@;
                assert forall|m: int| 0 <= m < hexes.len() implies hexes[m] != tile by {
                    assert(before.owner@[before.regions@[i].hexes@[m] as int].is_some());
                }
                assert(self.regions@[i].hexes@ == hexes.push(tile));
            } else if i != region {
                assert(self.regions@[i] == before.regions@[i]);
            }
        }
        assert forall|i: int, k: int|
            0 <= i < self.regions@.len() && 0 <= k < self.regions@[i].hexes@.len() implies {
            &&& (#[trigger] self.regions@[i].hexes@[k]) < self.owner@.len()
            &&& self.owner@[self.regions@[i].hexes@[k] as int].is_some()
            &&& self.owner@[self.regions@[i].hexes@[k] as int].unwrap() == i
        } by {
            if i == region && claim {
                if k < before.regions@[i].hexes@.len() {
                    assert(self.regions@[i].hexes@[k] == before.regions@[i].hexes@[k]);
                    assert(before.owner@[before.regions@[i].hexes@[k] as int].is_some());
                }
            } else if i != region {
                assert(self.regions@[i] == before.regions@[i]);
                assert(before.owner@[before.regions@[i].hexes@[k] as int].is_some());
            } else {
                assert(before.owner@[before.regions@[i].hexes@[k] as int].is_some());
            }
        }
        // neighbours of claimed tiles stay within reach
        assert forall|t: int, k: int|
            0 <= t < self.owner@.len() && self.owner@[t].is_some() && 0 <= k < neighbour_count(
                t,
                size_x,
                size_y,
            ) implies self.within_reach(
            self.owner@[t].unwrap(),
            #[trigger] neighbour_index(t, k, size_x, size_y),
        ) by {
            let n = neighbour_index(t, k, size_x, size_y);
            lemma_neighbour_index_range(t, k, size_x, size_y);
            if claim && t == tile {
                if self.owner@[n].is_none() {
                    assert(around[k] == n as usize);
                    let kept = open_tiles(self.owner@, around);
                    assert(kept.contains(around[k]));
                    let m = choose|m: int| 0 <= m < kept.len() && kept[m] == around[k];
                    assert(new_frontier[rest.len() + m] == n as usize);
                }
            } else {
                let j = before.owner@[t].unwrap();
                assert(before.within_reach(j, n));
                if before.owner@[n].is_none() {
                    let front = before.frontiers@[j as int]@;
                    assert(front.contains(n as usize));
                    if j == region {
                        if n != tile {
                            let m = choose|m: int| 0 <= m < front.len() && front[m] == n as usize;
                            assert(rest.contains(old_frontier[m]));
                            let r = choose|r: int| 0 <= r < rest.len() && rest[r] == n as usize;
                            assert(new_frontier.contains(rest[r]));
                        }
                    } else {
                        assert(self.frontiers@[j as int] == before.frontiers@[j as int]);
                    }
                }
            }
        }
        // regions stay contiguous
        assert forall|i: int| 0 <= i < self.regions@.len() implies (#[trigger] self.regions@[i]).is_contiguous(
            size_x,
            size_y,
        ) by {
            let now = self.regions@[i];
            let was = before.regions@[i];
            assert(was.is_contiguous(size_x, size_y));
            if i == region && claim {
                assert forall|k: int| 0 <= k < now.hexes@.len() implies #[trigger] now.is_attached(
                    k,
                    size_x,
                    size_y,
                ) by {
                    if k < was.hexes@.len() {
                        assert(was.is_attached(k, size_x, size_y));
                        let from = choose|from: int| #[trigger]
                            was.has_before(from, k) && is_next_to(from, was.hexes@[k], size_x, size_y);
                        assert(now.hexes@.subrange(0, k) =~= was.hexes@.subrange(0, k));
                        assert(now.has_before(from, k));
                    } else {
                        assert(was.borders(before.frontiers@[region as int]@[pick as int], size_x, size_y));
                        let from = choose|from: int| #[trigger]
                            was.has(from) && is_next_to(from, tile, size_x, size_y);
                        assert(now.hexes@.subrange(0, k) =~= was.hexes@);
                        assert(now.has_before(from, k));
                    }
                }
            } else if i != region {
                assert(now == was);
            } else {
                assert forall|k: int| 0 <= k < now.hexes@.len() implies #[trigger] now.is_attached(
                    k,
                    size_x,
                    size_y,
                ) by {
                    assert(was.is_attached(k, size_x, size_y));
                    let from = choose|from: int| #[trigger]
                        was.has_before(from, k) && is_next_to(from, was.hexes@[k], size_x, size_y);
                    assert(now.has_before(from, k));
                }
            }
        }
        // frontiers hold tiles next to their regions
        assert forall|i: int, k: int|
            0 <= i < self.frontiers@.len() && 0 <= k < self.frontiers@[i]@.len() implies self.regions@[i].borders(
            #[trigger] self.frontiers@[i]@[k],
            size_x,
            size_y,
        ) by {
            let now = self.regions@[i];
            let was = before.regions@[i];
            let entry = self.frontiers@[i]@[k];
            if i != region {
                assert(self.frontiers@[i] == before.frontiers@[i]);
                assert(now == was);
                assert(was.borders(before.frontiers@[i]@[k], size_x, size_y));
            } else if k < rest.len() {
                assert(new_frontier[k] == rest[k]);
                assert(old_frontier.contains(rest[k]));
                let m = choose|m: int| 0 <= m < old_frontier.len() && old_frontier[m] == rest[k];
                assert(was.borders(before.frontiers@[i]@[m], size_x, size_y));
                let from = choose|from: int| #[trigger]
                    was.has(from) && is_next_to(from, entry, size_x, size_y);
                if claim && was.center != from {
                    let h = choose|h: int| 0 <= h < was.hexes@.len() && was.hexes@[h] == from as usize;
                    assert(now.hexes@[h] == from as usize);
                }
                assert(now.has(from));
            } else {
                let kept = open_tiles(self.owner@, around);
                assert(entry == kept[k - rest.len()]);
                assert(around.contains(kept[k - rest.len()]));
                assert(now.hexes@[now.hexes@.len() - 1] == tile);
                assert(now.has(tile as int));
                assert(is_next_to(tile as int, entry, size_x, size_y));
            }
        }
    }

    /// Starts growth: every centre is claimed by its region, whose frontier
    /// holds the neighbours of the centre.
    pub fn start(hex_map: &HexMap, centers: &Vec<usize>) -> (growth: Growth)
        requires
            hex_map.wf(),
            forall|i: int| 0 <= i < centers@.len() ==> centers@[i] < hex_map.field@.len(),
            forall|i: int, j: int| 0 <= i < j < centers@.len() ==> centers@[i] != centers@[j],
        ensures
            growth.wf(hex_map),
            growth.regions@.len() == centers@.len(),
            growth.remaining == hex_map.field@.len() - centers@.len(),
            forall|i: int|
                0 <= i < centers@.len() ==> {
                    &&& (#[trigger] growth.regions@[i]).center == centers@[i]
                    &&& growth.regions@[i].temperature == 500_000
                    &&& growth.regions@[i].humidity == 500_000
                    &&& growth.regions@[i].flatness == 500_000
                    &&& !growth.regions@[i].water_region
                    &&& growth.regions@[i].hexes@.len() == 0
                    &&& growth.frontiers@[i]@ == neighbour_seq(
                        centers@[i] as int,
                        hex_map.size_x as int,
                        hex_map.size_y as int,
                    )
                },
            forall|t: int|
                0 <= t < hex_map.field@.len() ==> ((#[trigger] growth.owner@[t]).is_some()
                    <==> centers@.contains(t as usize)),
            growth.records() == first_records(centers@, hex_map.size_x as int, hex_map.size_y as int),
    {
        let area: usize = hex_map.field.len();
        let mut owner: Vec<Option<usize>> = Vec::new();
        let mut made: usize = 0;
        while made < area
            invariant
                made <= area,
                owner@.len() == made,
                forall|t: int| 0 <= t < made ==> (#[trigger] owner@[t]).is_none(),
            decreases area - made,
        {
            owner.push(None);
            made += 1;
        }
        proof {
            lemma_unclaimed_bounds(owner@);
        }
        let mut growth = Growth { owner, frontiers: Vec::new(), regions: Vec::new(), remaining: area };
        proof {
            assert(growth.owner@ =~= claimed_by(centers@.subrange(0, 0), area as int));
        }
        let mut i: usize = 0;
        while i < centers.len()
            invariant
                i <= centers@.len(),
                hex_map.wf(),
                area == hex_map.field@.len(),
                growth.owner@ == claimed_by(centers@.subrange(0, i as int), area as int),
                forall|j: int| 0 <= j < centers@.len() ==> centers@[j] < hex_map.field@.len(),
                forall|a: int, b: int| 0 <= a < b < centers@.len() ==> centers@[a] != centers@[b],
                growth.owner@.len() == area,
                growth.regions@.len() == i,
                growth.frontiers@.len() == i,
                growth.remaining == unclaimed_count(growth.owner@),
                growth.remaining == area - i,
                held_count(growth.records().hexes) == i,
                forall|t: int|
                    0 <= t < area && (#[trigger] growth.owner@[t]).is_some() ==> growth.owner@[t].unwrap()
                        < i && centers@[growth.owner@[t].unwrap() as int] == t,
                forall|j: int|
                    0 <= j < i ==> {
                        &&& (#[trigger] growth.regions@[j]).center == centers@[j]
                        &&& growth.regions@[j].temperature == 500_000
                        &&& growth.regions@[j].humidity == 500_000
                        &&& growth.regions@[j].flatness == 500_000
                        &&& !growth.regions@[j].water_region
                        &&& growth.regions@[j].hexes@.len() == 0
                        &&& growth.owner@[centers@[j] as int].is_some()
                        &&& growth.owner@[centers@[j] as int].unwrap() == j
                        &&& growth.frontiers@[j]@ == neighbour_seq(
                            centers@[j] as int,
                            hex_map.size_x as int,
                            hex_map.size_y as int,
                        )
                    },
            decreases centers@.len() - i,
        {
            let center: usize = centers[i];
            let mut region = Region::new();
            region.center = center;
            proof {
                if growth.owner@[center as int].is_some() {
                    let j = growth.owner@[center as int].unwrap() as int;
                    assert(centers@[j] == center);
                    assert(false);
                }
                lemma_unclaimed_claim(growth.owner@, center as int, i);
                lemma_unclaimed_bounds(growth.owner@.update(center as int, Some(i)));
            }
            let ghost entry = growth;
            growth.regions.push(region);
            growth.owner[center] = Some(i);
            growth.remaining = growth.remaining - 1;
            let around = hex_map.neighbour_indices(center);
            assert(around@ =~= neighbour_seq(
                center as int,
                hex_map.size_x as int,
                hex_map.size_y as int,
            ));
            growth.frontiers.push(around);
            proof {
                assert forall|j: int| 0 <= j < i implies {
                    &&& (#[trigger] growth.regions@[j]) == entry.regions@[j]
                    &&& growth.frontiers@[j] == entry.frontiers@[j]
                    &&& growth.owner@[centers@[j] as int] == entry.owner@[centers@[j] as int]
                } by {
                    assert(centers@[j] != centers@[i as int]);
                }
                assert(centers@.subrange(0, i + 1).drop_last() =~= centers@.subrange(0, i as int));
                assert(growth.records().hexes.drop_last() =~= entry.records().hexes);
                assert(growth.records().hexes.last().len() == 0);
            }
            i += 1;
        }
        proof {
            let size_x = hex_map.size_x as int;
            let size_y = hex_map.size_y as int;
            assert forall|t: int, k: int|
                0 <= t < growth.owner@.len() && growth.owner@[t].is_some() && 0 <= k
                    < neighbour_count(t, size_x, size_y) implies growth.within_reach(
                growth.owner@[t].unwrap(),
                #[trigger] neighbour_index(t, k, size_x, size_y),
            ) by {
                let j = growth.owner@[t].unwrap() as int;
                lemma_neighbour_index_range(t, k, size_x, size_y);
                assert(growth.regions@[j].center == centers@[j]);
                assert(growth.frontiers@[j]@[k] == neighbour_index(t, k, size_x, size_y) as usize);
            }
            assert forall|a: int, k: int|
                0 <= a < growth.frontiers@.len() && 0 <= k < growth.frontiers@[a]@.len() implies (
            #[trigger] growth.frontiers@[a]@[k]) < growth.owner@.len() by {
                assert(growth.regions@[a].center == centers@[a]);
                lemma_neighbour_index_range(centers@[a] as int, k, size_x, size_y);
            }
            assert forall|t: int| 0 <= t < hex_map.field@.len() implies ((
            #[trigger] growth.owner@[t]).is_some() <==> centers@.contains(t as usize)) by {
                if centers@.contains(t as usize) {
                    let j = choose|j: int| 0 <= j < centers@.len() && centers@[j] == t as usize;
                    assert(growth.regions@[j].center == centers@[j]);
                }
                if growth.owner@[t].is_some() {
                    assert(centers@[growth.owner@[t].unwrap() as int] == t);
                }
            }
            assert forall|a: int| 0 <= a < growth.regions@.len() implies {
                &&& (#[trigger] growth.regions@[a]).center < growth.owner@.len()
                &&& growth.owner@[growth.regions@[a].center as int].is_some()
                &&& growth.owner@[growth.regions@[a].center as int].unwrap() == a
                &&& growth.regions@[a].hexes@.no_duplicates()
                &&& !growth.regions@[a].hexes@.contains(growth.regions@[a].center)
            } by {
                assert(growth.regions@[a].center == centers@[a]);
            }
            assert forall|t: int|
                0 <= t < growth.owner@.len() && (#[trigger] growth.owner@[t]).is_some() implies {
                &&& growth.owner@[t].unwrap() < growth.regions@.len()
                &&& growth.regions@[growth.owner@[t].unwrap() as int].has(t)
            } by {
                let j = growth.owner@[t].unwrap() as int;
                assert(growth.regions@[j].center == centers@[j]);
            }
            assert forall|a: int| 0 <= a < growth.regions@.len() implies (
            #[trigger] growth.regions@[a]).is_contiguous(size_x, size_y) by {
                assert(growth.regions@[a].center == centers@[a]);
            }
            assert(centers@.subrange(0, i as int) =~= centers@);
            let first = first_records(centers@, size_x, size_y);
            let now = growth.records();
            assert(now.frontiers =~= first.frontiers) by {
                assert forall|a: int| 0 <= a < now.frontiers.len() implies now.frontiers[a]
                    == first.frontiers[a] by {
                    assert(growth.regions@[a].center == centers@[a]);
                }
            }
            assert(now.hexes =~= first.hexes) by {
                assert forall|a: int| 0 <= a < now.hexes.len() implies now.hexes[a] =~= first.hexes[a] by {
                    assert(growth.regions@[a].center == centers@[a]);
                }
            }
            assert forall|a: int, k: int|
                0 <= a < growth.frontiers@.len() && 0 <= k < growth.frontiers@[a]@.len() implies growth.regions@[a].borders(
                #[trigger] growth.frontiers@[a]@[k],
                size_x,
                size_y,
            ) by {
                assert(growth.regions@[a].center == centers@[a]);
                assert(growth.regions@[a].has(centers@[a] as int));
                assert(is_next_to(centers@[a] as int, growth.frontiers@[a]@[k], size_x, size_y));
            }
        }
        growth
    }

    /// Lets region `region` take entry `pick` out of its frontier. If no
    /// region has claimed that tile, the region claims it and appends the
    /// tile's unclaimed neighbours to its frontier; otherwise the entry is
    /// dropped.
    pub fn step(&mut self, hex_map: &HexMap, region: usize, pick: usize)
        requires
            hex_map.wf(),
            old(self).wf(hex_map),
            region < old(self).frontiers@.len(),
            pick < old(self).frontiers@[region as int]@.len(),
        ensures
            final(self).is_step_of(old(self), hex_map, region, pick),
            final(self).wf(hex_map),
            final(self).precedes(old(self)),
            final(self).records() == step_records(
                old(self).records(),
                region as int,
                pick as int,
                hex_map.size_x as int,
                hex_map.size_y as int,
            ),
    {
        let ghost before = *self;
        let tile: usize = self.frontiers[region].remove(pick);
        let ghost rest = self.frontiers@[region as int]@;
        assert(tile < self.owner@.len());
        if self.owner[tile].is_none() {
            proof {
                lemma_unclaimed_claim(self.owner@, tile as int, region);
                lemma_unclaimed_bounds(self.owner@.update(tile as int, Some(region)));
            }
            self.regions[region].hexes.push(tile);
            self.owner[tile] = Some(region);
            self.remaining = self.remaining - 1;
            let around = hex_map.neighbour_indices(tile);
            assert(around@ =~= neighbour_seq(
                tile as int,
                hex_map.size_x as int,
                hex_map.size_y as int,
            ));
            let ghost claimed = *self;
            let mut k: usize = 0;
            while k < around.len()
                invariant
                    k <= around@.len(),
                    region < self.frontiers@.len(),
                    self.owner@ == claimed.owner@,
                    self.regions@ == claimed.regions@,
                    self.remaining == claimed.remaining,
                    self.frontiers@.len() == claimed.frontiers@.len(),
                    forall|j: int|
                        0 <= j < self.frontiers@.len() && j != region ==> #[trigger] self.frontiers@[j]
                            == claimed.frontiers@[j],
                    forall|m: int| 0 <= m < around@.len() ==> (#[trigger] around@[m]) < self.owner@.len(),
                    self.frontiers@[region as int]@ == rest + open_tiles(
                        self.owner@,
                        around@.subrange(0, k as int),
                    ),
                decreases around@.len() - k,
            {
                let next: usize = around[k];
                proof {
                    assert(around@.subrange(0, k + 1).drop_last() =~= around@.subrange(0, k as int));
                }
                if self.owner[next].is_none() {
                    self.frontiers[region].push(next);
                    assert(self.frontiers@[region as int]@ =~= rest + open_tiles(
                        self.owner@,
                        around@.subrange(0, k + 1),
                    ));
                }
                k += 1;
            }
            assert(around@.subrange(0, k as int) =~= around@);
        }
        proof {
            assert(self.is_step_of(&before, hex_map, region, pick));
            self.lemma_step(&before, hex_map, region, pick);
            self.lemma_step_records(&before, hex_map, region, pick);
        }
    }

    /// Ends growth and hands out the regions.
    pub fn finish(self, hex_map: &HexMap) -> (regions: Regions)
        requires
            self.wf(hex_map),
            self.remaining == 0,
        ensures
            regions.regions@ == self.regions@,
            regions.covers(hex_map.field@.len() as int),
            regions.contiguous(hex_map.size_x as int, hex_map.size_y as int),
            regions.tile_count() == hex_map.field@.len(),
    {
        let regions = Regions { regions: self.regions };
        proof {
            self.lemma_covers(hex_map, &regions);
            assert(regions.tiles() == self.records().hexes);
        }
        regions
    }
}

impl Inland {
    /// Grows the regions from their centres until every tile belongs to one.
    /// In every round each region that has a frontier takes one tile out of
    /// it, chosen at random, and claims the tile unless another region has
    /// done so before.
    pub fn generate_regions(&self, rng: &mut StdRng, hex_map: &HexMap, centers: &Vec<usize>) -> (regions:
        Regions)
        requires
            hex_map.wf(),
            centers@.len() > 0,
            forall|i: int| 0 <= i < centers@.len() ==> centers@[i] < hex_map.field@.len(),
            forall|i: int, j: int| 0 <= i < j < centers@.len() ==> centers@[i] != centers@[j],
        ensures
            regions.covers(hex_map.field@.len() as int),
            regions.contiguous(hex_map.size_x as int, hex_map.size_y as int),
            regions.tile_count() == hex_map.field@.len(),
            regions.regions@.len() == centers@.len(),
            forall|i: int|
                0 <= i < centers@.len() ==> (#[trigger] regions.regions@[i]).center == centers@[i]
                    && !regions.regions@[i].water_region,
            exists|turns: Seq<Option<usize>>| #[trigger]
                is_growth_of(&regions, centers@, turns, hex_map.size_x as int, hex_map.size_y as int),
    {
        let ghost size_x = hex_map.size_x as int;
        let ghost size_y = hex_map.size_y as int;
        let ghost start = first_records(centers@, size_x, size_y);
        let ghost mut turns: Seq<Option<usize>> = Seq::empty();
        let ghost mut rounds: int = 0;
        let mut growth = Growth::start(hex_map, centers);
        let count: usize = centers.len();
        while growth.remaining > 0
            invariant
                hex_map.wf(),
                growth.wf(hex_map),
                size_x == hex_map.size_x,
                size_y == hex_map.size_y,
                start == first_records(centers@, size_x, size_y),
                count == centers@.len(),
                count > 0,
                growth.regions@.len() == count,
                forall|i: int|
                    0 <= i < count ==> (#[trigger] growth.regions@[i]).center == centers@[i]
                        && !growth.regions@[i].water_region,
                rounds >= 0,
                turns.len() == rounds * count,
                are_turns(start, turns, size_x, size_y),
                growth.records() == replay(start, turns, size_x, size_y),
            decreases growth.remaining, frontier_total(growth.frontiers@),
        {
            let ghost round = growth;
            let ghost mut stepped: bool = false;
            let mut i: usize = 0;
            while i < count
                invariant
                    i <= count,
                    hex_map.wf(),
                    growth.wf(hex_map),
                    round.wf(hex_map),
                    round.remaining > 0,
                    size_x == hex_map.size_x,
                    size_y == hex_map.size_y,
                    start == first_records(centers@, size_x, size_y),
                    count == centers@.len(),
                    count > 0,
                    growth.regions@.len() == count,
                    round.frontiers@.len() == count,
                    round.regions@.len() == count,
                    forall|j: int|
                        0 <= j < count ==> (#[trigger] growth.regions@[j]).center == centers@[j]
                            && !growth.regions@[j].water_region,
                    stepped ==> growth.precedes(&round),
                    !stepped ==> growth.remaining == round.remaining && growth.frontiers@
                        == round.frontiers@,
                    !stepped ==> forall|j: int| 0 <= j < i ==> (#[trigger] round.frontiers@[j])@.len() == 0,
                    rounds >= 0,
                    turns.len() == rounds * count + i,
                    are_turns(start, turns, size_x, size_y),
                    growth.records() == replay(start, turns, size_x, size_y),
                decreases count - i,
            {
                let ghost entry = growth;
                let ghost taken = turns;
                let ghost mut turn: Option<usize> = None;
                proof {
                    vstd::arithmetic::div_mod::lemma_mod_multiples_vanish(rounds, i as int, count as int);
                    vstd::arithmetic::div_mod::lemma_small_mod(i as nat, count as nat);
                    assert(rounds * count == count * rounds) by (nonlinear_arith);
                    assert((turns.len() as int) % (count as int) == i);
                }
                if growth.remaining > 0 && growth.frontiers[i].len() > 0 {
                    let pick: usize = draw_below(rng, growth.frontiers[i].len() as u64) as usize;
                    growth.step(hex_map, i, pick);
                    proof {
                        assert forall|j: int| 0 <= j < count implies (#[trigger] growth.regions@[j]).center
                            == centers@[j] && !growth.regions@[j].water_region by {
                            assert(entry.regions@[j].center == centers@[j]);
                        }
                        stepped = true;
                        turn = Some(pick);
                    }
                }
                proof {
                    turns = taken.push(turn);
                    assert(turns.drop_last() =~= taken);
                    assert(turns.subrange(0, taken.len() as int) =~= taken);
                    assert(start.frontiers.len() == count);
                    assert(entry.records().frontiers[i as int] == entry.frontiers@[i as int]@);
                    assert(is_turn(start, turns, taken.len() as int, size_x, size_y));
                    lemma_turn_added(start, taken, turn, size_x, size_y);
                }
                i += 1;
            }
            proof {
                if !stepped {
                    round.lemma_frontier_nonempty(hex_map);
                }
                lemma_frontier_total_nonnegative(growth.frontiers@);
                assert(rounds * count + count == (rounds + 1) * count) by (nonlinear_arith);
                rounds = rounds + 1;
            }
        }
        let regions = growth.finish(hex_map);
        proof {
            assert(regions.tiles() == growth.records().hexes);
            assert(is_growth_of(&regions, centers@, turns, size_x, size_y));
        }
        regions
    }
}

} // verus!
