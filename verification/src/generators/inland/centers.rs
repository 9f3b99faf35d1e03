//! Seeding of region centres: every tile has a sampling weight, a centre is
//! drawn with a probability proportional to the weight of its tile, and
//! every centre lowers the weights around it.

use vstd::prelude::*;
use crate::fixed::{isqrt, lemma_sqrt_floor, sqrt_floor, ONE};
use crate::generators::inland::{lemma_region_count_bounds, region_count, Inland};
use crate::hex::{coords, is_tile, lemma_ring_complete, lemma_ring_prefix_tiles, ring, Hex};
use crate::hexmap::{
    coords_of, index_of, lemma_coords_roundtrip, lemma_index_roundtrip, tile_distance, HexMap,
};
use crate::rng::draw_below;
use rand::rngs::StdRng;

verus! {

/// Factor, in millionths, by which the sampling weight of a tile shrinks when
/// a centre is placed `dist` steps away: the decimal logarithm of
/// `(dist - 2) / 1.1`, held between 0 and 1 and rounded to the nearest
/// millionth.
pub open spec fn spacing_multiplier(dist: int) -> int {
    if dist <= 3 {
        0
    } else if dist == 4 {
        259_637
    } else if dist == 5 {
        435_729
    } else if dist == 6 {
        560_667
    } else if dist == 7 {
        657_577
    } else if dist == 8 {
        736_759
    } else if dist == 9 {
        803_705
    } else if dist == 10 {
        861_697
    } else if dist == 11 {
        912_850
    } else if dist == 12 {
        958_607
    } else {
        ONE as int
    }
}

/// Radius below which a new centre lowers the weight of the tiles around it:
/// a fifth of the mean of the two dimensions.
pub open spec fn spacing_distance(size_x: int, size_y: int) -> int {
    ((size_x + size_y) / 2) / 5
}

/// Number of rows at the top and at the bottom in which centres are less
/// likely: a tenth of the rows.
pub open spec fn fade_rows(size_y: int) -> int {
    size_y / 10
}

/// Sampling weight, in millionths, of the tiles of row `row` before any
/// centre is placed: the square root of the row's share of the fade band in
/// the top and bottom rows, 1 elsewhere.
pub open spec fn initial_weight(row: int, size_y: int) -> int {
    let band = fade_rows(size_y);
    if row < band {
        sqrt_floor(row * ONE * ONE / band)
    } else if row >= size_y - band {
        sqrt_floor((size_y - 1 - row) * ONE * ONE / band)
    } else {
        ONE as int
    }
}

/// The sampling weights of a map before any centre is placed.
pub open spec fn starting_weights(size_x: int, size_y: int) -> Seq<u64> {
    Seq::new((size_x * size_y) as nat, |i: int| initial_weight(i / size_x, size_y) as u64)
}

/// Sum of all weights.
pub open spec fn total_weight(w: Seq<u64>) -> int
    decreases w.len(),
{
    if w.len() == 0 {
        0
    } else {
        total_weight(w.drop_last()) + w.last()
    }
}

/// Replacing one weight changes the sum by the difference.
pub proof fn lemma_total_update(w: Seq<u64>, i: int, v: u64)
    requires
        0 <= i < w.len(),
    ensures
        total_weight(w.update(i, v)) == total_weight(w) - w[i] + v,
    decreases w.len(),
{
    if i == w.len() - 1 {
        assert(w.update(i, v).drop_last() =~= w.drop_last());
    } else {
        lemma_total_update(w.drop_last(), i, v);
        assert(w.update(i, v).drop_last() =~= w.drop_last().update(i, v));
    }
}

/// The sum of a prefix does not exceed the sum of all weights, and the sum
/// is at most the number of weights times their bound.
pub proof fn lemma_total_prefix(w: Seq<u64>, k: int, bound: int)
    requires
        0 <= k <= w.len(),
        forall|i: int| 0 <= i < w.len() ==> w[i] <= bound,
    ensures
        0 <= total_weight(w.subrange(0, k)) <= total_weight(w),
        total_weight(w) <= bound * w.len(),
        k < w.len() ==> total_weight(w.subrange(0, k + 1)) == total_weight(w.subrange(0, k)) + w[k],
    decreases w.len() - k,
{
    lemma_total_nonnegative(w.subrange(0, k));
    lemma_total_bounded(w, bound);
    if k == w.len() {
        assert(w.subrange(0, k) =~= w);
    } else {
        assert(w.subrange(0, k + 1).drop_last() =~= w.subrange(0, k));
        lemma_total_prefix(w, k + 1, bound);
    }
}

/// A sum of weights is not negative.
proof fn lemma_total_nonnegative(w: Seq<u64>)
    ensures
        0 <= total_weight(w),
    decreases w.len(),
{
    if w.len() > 0 {
        lemma_total_nonnegative(w.drop_last());
    }
}

/// A sum of weights is at most their number times their bound.
proof fn lemma_total_bounded(w: Seq<u64>, bound: int)
    requires
        forall|i: int| 0 <= i < w.len() ==> w[i] <= bound,
    ensures
        total_weight(w) <= bound * w.len(),
    decreases w.len(),
{
    if w.len() > 0 {
        lemma_total_bounded(w.drop_last(), bound);
        assert(bound * (w.len() - 1) + bound == bound * w.len()) by (nonlinear_arith);
    } else {
        assert(bound * 0 == 0) by (nonlinear_arith);
    }
}

/// Index `k` is where the running sum of the weights first exceeds `target`.
pub open spec fn is_weighted_pick(w: Seq<u64>, target: int, k: int) -> bool {
    &&& 0 <= k < w.len()
    &&& total_weight(w.subrange(0, k)) <= target
    &&& target < total_weight(w.subrange(0, k + 1))
}

/// The index at which the running sum of the weights first exceeds
/// `target`.
pub open spec fn weighted_pick(w: Seq<u64>, target: int) -> int {
    choose|k: int| is_weighted_pick(w, target, k)
}

/// There is one index at which the running sum first exceeds the target.
pub proof fn lemma_weighted_pick_unique(w: Seq<u64>, target: int, k: int)
    requires
        is_weighted_pick(w, target, k),
    ensures
        weighted_pick(w, target) == k,
{
    let other = weighted_pick(w, target);
    if other < k {
        let part = w.subrange(0, k);
        lemma_total_prefix(part, other + 1, u64::MAX as int);
        assert(part.subrange(0, other + 1) =~= w.subrange(0, other + 1));
    } else if k < other {
        let part = w.subrange(0, other);
        lemma_total_prefix(part, k + 1, u64::MAX as int);
        assert(part.subrange(0, k + 1) =~= w.subrange(0, k + 1));
    }
}

/// Tile `tile` is the first of `area` tiles that is no centre.
pub open spec fn is_first_free(centers: Seq<usize>, area: int, tile: usize) -> bool {
    &&& tile < area
    &&& !centers.contains(tile)
    &&& forall|t: usize| t < tile ==> #[trigger] centers.contains(t)
}

/// The first tile that is no centre.
pub open spec fn first_free(centers: Seq<usize>, area: int) -> usize {
    choose|tile: usize| is_first_free(centers, area, tile)
}

/// There is one first tile that is no centre.
pub proof fn lemma_first_free_unique(centers: Seq<usize>, area: int, tile: usize)
    requires
        is_first_free(centers, area, tile),
    ensures
        first_free(centers, area) == tile,
{
    let other = first_free(centers, area);
    if other < tile {
        assert(centers.contains(other));
    } else if tile < other {
        assert(centers.contains(tile));
    }
}

/// The weights after those of the given tiles were multiplied by `mult`
/// millionths, one tile after the other.
pub open spec fn decay_tiles(w: Seq<u64>, tiles: Seq<(int, int)>, size_x: int, mult: int) -> Seq<u64>
    decreases tiles.len(),
{
    if tiles.len() == 0 {
        w
    } else {
        let prev = decay_tiles(w, tiles.drop_last(), size_x, mult);
        let at = index_of(tiles.last().0, tiles.last().1, size_x);
        prev.update(at, ((prev[at] * mult) / (ONE as int)) as u64)
    }
}

/// The weights after the rings of radius 1 to `limit - 1` around `(x, y)`
/// were multiplied by the spacing multiplier of their radius.
pub open spec fn decay_rings(
    w: Seq<u64>,
    x: int,
    y: int,
    size_x: int,
    size_y: int,
    limit: int,
) -> Seq<u64>
    decreases limit,
{
    if limit <= 1 {
        w
    } else {
        decay_tiles(
            decay_rings(w, x, y, size_x, size_y, limit - 1),
            ring(x, y, limit - 1, size_x, size_y),
            size_x,
            spacing_multiplier(limit - 1),
        )
    }
}

/// The weights after a centre was placed on the tile at index `center`: the
/// centre has weight 0, and the tiles within the spacing distance have lost
/// weight by the multiplier of their distance.
pub open spec fn weights_after_center(w: Seq<u64>, center: int, size_x: int, size_y: int) -> Seq<u64> {
    decay_rings(
        w.update(center, 0),
        coords_of(center, size_x).0,
        coords_of(center, size_x).1,
        size_x,
        size_y,
        spacing_distance(size_x, size_y),
    )
}

/// The centres that the given draws select, one for each draw, and the
/// sampling weights they leave. A draw selects the tile at which the running
/// sum of the weights exceeds it; where no weight is left, the first tile
/// that is no centre yet is taken.
pub open spec fn seeded(draws: Seq<u64>, size_x: int, size_y: int) -> (Seq<usize>, Seq<u64>)
    decreases draws.len(),
{
    if draws.len() == 0 {
        (Seq::empty(), starting_weights(size_x, size_y))
    } else {
        let (centers, weights) = seeded(draws.drop_last(), size_x, size_y);
        let tile = if total_weight(weights) > 0 {
            weighted_pick(weights, draws.last() as int)
        } else {
            first_free(centers, size_x * size_y) as int
        };
        (centers.push(tile as usize), weights_after_center(weights, tile, size_x, size_y))
    }
}

/// Draw `k` lies below the weight that the draws before it have left,
/// where any is left.
pub open spec fn is_draw(draws: Seq<u64>, k: int, size_x: int, size_y: int) -> bool {
    let left = total_weight(seeded(draws.subrange(0, k), size_x, size_y).1);
    left > 0 ==> draws[k] < left
}

/// Every draw lies below the weight that is left when it is made.
pub open spec fn draws_in_range(draws: Seq<u64>, size_x: int, size_y: int) -> bool {
    forall|k: int| 0 <= k < draws.len() ==> #[trigger] is_draw(draws, k, size_x, size_y)
}

/// One more draw in range keeps a sequence of draws in range.
proof fn lemma_draw_added(draws: Seq<u64>, draw: u64, size_x: int, size_y: int)
    requires
        draws_in_range(draws, size_x, size_y),
        is_draw(draws.push(draw), draws.len() as int, size_x, size_y),
    ensures
        draws_in_range(draws.push(draw), size_x, size_y),
{
    let longer = draws.push(draw);
    assert forall|k: int| 0 <= k < longer.len() implies #[trigger] is_draw(longer, k, size_x, size_y) by {
        if k < draws.len() {
            assert(is_draw(draws, k, size_x, size_y));
            assert(longer.subrange(0, k) =~= draws.subrange(0, k));
        }
    }
}

/// The sampling weights that the given centres leave, placed one after the
/// other on a map where no centre was placed before.
pub open spec fn weights_left(centers: Seq<usize>, size_x: int, size_y: int) -> Seq<u64>
    decreases centers.len(),
{
    if centers.len() == 0 {
        starting_weights(size_x, size_y)
    } else {
        weights_after_center(
            weights_left(centers.drop_last(), size_x, size_y),
            centers.last() as int,
            size_x,
            size_y,
        )
    }
}

/// Weight is left when centre `k` is chosen: some tile can still be drawn.
pub open spec fn has_weight_left(centers: Seq<usize>, k: int, size_x: int, size_y: int) -> bool {
    total_weight(weights_left(centers.subrange(0, k), size_x, size_y)) > 0
}

/// Centre `k` is a tile that could be chosen after the centres before it:
/// while weight is left, a tile whose weight is positive; else the first
/// tile that is no centre yet.
pub open spec fn is_seed(centers: Seq<usize>, k: int, size_x: int, size_y: int) -> bool {
    if has_weight_left(centers, k, size_x, size_y) {
        weights_left(centers.subrange(0, k), size_x, size_y)[centers[k] as int] > 0
    } else {
        is_first_free(centers.subrange(0, k), size_x * size_y, centers[k])
    }
}

/// Grid distance between the centres `i` and `j`.
pub open spec fn center_distance(centers: Seq<usize>, i: int, j: int, size_x: int) -> int {
    tile_distance(centers[i] as int, centers[j] as int, size_x)
}

/// The centres follow the rules of seeding. Each is a tile that could be
/// chosen when its turn came. A centre chosen while weight was left lies
/// neither in the top nor in the bottom row of a map of ten rows or more,
/// where these rows have no weight, and at least 4 steps from every centre
/// before it where the spacing distance is 4 or more, since a centre takes
/// all weight from the tiles up to 3 steps around it.
pub open spec fn is_spaced_seeding(centers: Seq<usize>, size_x: int, size_y: int) -> bool {
    &&& forall|k: int| 0 <= k < centers.len() ==> #[trigger] is_seed(centers, k, size_x, size_y)
    &&& size_y >= 10 ==> forall|k: int|
        0 <= k < centers.len() && #[trigger] has_weight_left(centers, k, size_x, size_y) ==> 0
            < coords_of(centers[k] as int, size_x).1 < size_y - 1
    &&& spacing_distance(size_x, size_y) >= 4 ==> forall|i: int, j: int|
        0 <= i < j < centers.len() && has_weight_left(centers, j, size_x, size_y)
            ==> #[trigger] center_distance(centers, i, j, size_x) >= 4
}

/// Weight is left where one tile has weight.
pub proof fn lemma_weight_left(w: Seq<u64>, i: int)
    requires
        0 <= i < w.len(),
        w[i] > 0,
    ensures
        total_weight(w) > 0,
    decreases w.len(),
{
    lemma_total_nonnegative(w.drop_last());
    if i < w.len() - 1 {
        lemma_weight_left(w.drop_last(), i);
    }
}

/// On a map with tiles, weight is left when the first centre is chosen.
pub proof fn lemma_first_center_has_weight(centers: Seq<usize>, size_x: int, size_y: int)
    requires
        size_x >= 1,
        size_y >= 1,
    ensures
        has_weight_left(centers, 0, size_x, size_y),
{
    let row = size_y / 2;
    let tile = row * size_x;
    let w = starting_weights(size_x, size_y);
    assert(0 <= tile < size_x * size_y) by (nonlinear_arith)
        requires
            0 <= row < size_y,
            size_x >= 1,
            tile == row * size_x,
    ;
    vstd::arithmetic::div_mod::lemma_fundamental_div_mod_converse(tile, size_x, row, 0);
    assert(initial_weight(row, size_y) == ONE);
    assert(w[tile] == ONE);
    lemma_weight_left(w, tile);
    assert(centers.subrange(0, 0) =~= Seq::<usize>::empty());
}

/// The tiles of the top and bottom rows of a map of ten rows or more start
/// without weight.
pub proof fn lemma_edge_rows_start_weightless(tile: int, size_x: int, size_y: int)
    requires
        size_y >= 10,
        0 <= tile < size_x * size_y,
        coords_of(tile, size_x).1 == 0 || coords_of(tile, size_x).1 == size_y - 1,
    ensures
        starting_weights(size_x, size_y)[tile] == 0,
{
    let band = fade_rows(size_y);
    let row = tile / size_x;
    assert(1 <= band < size_y - 1);
    assert(0 * ONE * ONE / band == 0);
    lemma_sqrt_floor(0, 0);
    if row == 0 {
        assert(row * ONE * ONE == 0);
    } else {
        assert((size_y - 1 - row) * ONE * ONE == 0);
    }
}

/// Index of tile `m` of the ring of radius `radius` around `(x, y)`.
pub open spec fn ring_index(x: int, y: int, radius: int, size_x: int, size_y: int, m: int) -> int {
    index_of(ring(x, y, radius, size_x, size_y)[m].0, ring(x, y, radius, size_x, size_y)[m].1, size_x)
}

/// Lowering the weights of tiles lowers no other weight and raises none;
/// with a multiplier of 0 the tiles lose all weight.
pub proof fn lemma_decay_tiles(
    w: Seq<u64>,
    tiles: Seq<(int, int)>,
    size_x: int,
    size_y: int,
    mult: int,
)
    requires
        w.len() == size_x * size_y,
        0 <= mult <= ONE,
        forall|m: int| 0 <= m < tiles.len() ==> is_tile(#[trigger] tiles[m].0, tiles[m].1, size_x, size_y),
    ensures
        decay_tiles(w, tiles, size_x, mult).len() == w.len(),
        forall|i: int| 0 <= i < w.len() ==> #[trigger] decay_tiles(w, tiles, size_x, mult)[i] <= w[i],
        mult == 0 ==> forall|m: int|
            0 <= m < tiles.len() ==> decay_tiles(w, tiles, size_x, mult)[index_of(
                #[trigger] tiles[m].0,
                tiles[m].1,
                size_x,
            )] == 0,
    decreases tiles.len(),
{
    if tiles.len() > 0 {
        let rest = tiles.drop_last();
        let prev = decay_tiles(w, rest, size_x, mult);
        let after = decay_tiles(w, tiles, size_x, mult);
        assert forall|m: int| 0 <= m < rest.len() implies is_tile(
            #[trigger] rest[m].0,
            rest[m].1,
            size_x,
            size_y,
        ) by {
            assert(rest[m] == tiles[m]);
        }
        lemma_decay_tiles(w, rest, size_x, size_y, mult);
        let last = tiles[tiles.len() - 1];
        assert(is_tile(last.0, last.1, size_x, size_y));
        lemma_coords_roundtrip(last.0, last.1, size_x, size_y);
        let at = index_of(last.0, last.1, size_x);
        let was = prev[at];
        assert(0 <= (was * mult) / (ONE as int) <= was) by (nonlinear_arith)
            requires
                0 <= was,
                0 <= mult <= ONE,
        ;
        assert(mult == 0 ==> (was * mult) / (ONE as int) == 0) by (nonlinear_arith);
        assert forall|i: int| 0 <= i < w.len() implies #[trigger] after[i] <= w[i] by {
            assert(prev[i] <= w[i]);
        }
        if mult == 0 {
            assert forall|m: int| 0 <= m < tiles.len() implies after[index_of(
                #[trigger] tiles[m].0,
                tiles[m].1,
                size_x,
            )] == 0 by {
                lemma_coords_roundtrip(tiles[m].0, tiles[m].1, size_x, size_y);
                if m < rest.len() {
                    assert(rest[m] == tiles[m]);
                    assert(prev[index_of(rest[m].0, rest[m].1, size_x)] == 0);
                }
            }
        }
    }
}

/// Lowering the weights on the rings around a tile raises no weight, and
/// takes all weight from the rings of radius 1 to 3 that it reaches.
pub proof fn lemma_decay_rings(w: Seq<u64>, x: int, y: int, size_x: int, size_y: int, limit: int)
    requires
        size_x > 0,
        w.len() == size_x * size_y,
    ensures
        decay_rings(w, x, y, size_x, size_y, limit).len() == w.len(),
        forall|i: int|
            0 <= i < w.len() ==> #[trigger] decay_rings(w, x, y, size_x, size_y, limit)[i] <= w[i],
        forall|radius: int, m: int|
            1 <= radius <= 3 && radius < limit && 0 <= m < ring(x, y, radius, size_x, size_y).len()
                ==> decay_rings(w, x, y, size_x, size_y, limit)[#[trigger] ring_index(
                x,
                y,
                radius,
                size_x,
                size_y,
                m,
            )] == 0,
    decreases limit,
{
    if limit > 1 {
        let inner = decay_rings(w, x, y, size_x, size_y, limit - 1);
        let outer = decay_rings(w, x, y, size_x, size_y, limit);
        let tiles = ring(x, y, limit - 1, size_x, size_y);
        let mult = spacing_multiplier(limit - 1);
        lemma_decay_rings(w, x, y, size_x, size_y, limit - 1);
        assert forall|m: int| 0 <= m < tiles.len() implies is_tile(
            #[trigger] tiles[m].0,
            tiles[m].1,
            size_x,
            size_y,
        ) by {
            lemma_ring_prefix_tiles(x, y, limit - 1, size_x, size_y, 6 * (limit - 1), m);
        }
        lemma_decay_tiles(inner, tiles, size_x, size_y, mult);
        assert forall|i: int| 0 <= i < w.len() implies #[trigger] outer[i] <= w[i] by {
            assert(inner[i] <= w[i]);
        }
        assert forall|radius: int, m: int|
            1 <= radius <= 3 && radius < limit && 0 <= m < ring(
                x,
                y,
                radius,
                size_x,
                size_y,
            ).len() implies outer[#[trigger] ring_index(x, y, radius, size_x, size_y, m)] == 0 by {
            let at = ring_index(x, y, radius, size_x, size_y, m);
            let tile = ring(x, y, radius, size_x, size_y)[m];
            lemma_ring_prefix_tiles(x, y, radius, size_x, size_y, 6 * radius, m);
            lemma_coords_roundtrip(tile.0, tile.1, size_x, size_y);
            if radius == limit - 1 {
                assert(mult == 0);
                assert(outer[index_of(tiles[m].0, tiles[m].1, size_x)] == 0);
            } else {
                assert(inner[at] == 0);
                assert(outer[at] <= inner[at]);
            }
        }
    }
}

/// A new centre raises no weight, loses its own, and takes all weight from
/// the tiles 1 to 3 steps around it where the spacing distance is 4 or
/// more.
pub proof fn lemma_weights_after_center(w: Seq<u64>, center: int, size_x: int, size_y: int)
    requires
        0 <= size_x,
        0 <= size_y,
        0 <= center < size_x * size_y,
        w.len() == size_x * size_y,
    ensures
        weights_after_center(w, center, size_x, size_y).len() == w.len(),
        weights_after_center(w, center, size_x, size_y)[center] == 0,
        forall|i: int|
            0 <= i < w.len() ==> #[trigger] weights_after_center(w, center, size_x, size_y)[i] <= w[i],
        spacing_distance(size_x, size_y) >= 4 ==> forall|tile: int|
            0 <= tile < w.len() && 1 <= #[trigger] tile_distance(center, tile, size_x) <= 3
                ==> weights_after_center(w, center, size_x, size_y)[tile] == 0,
{
    let x = coords_of(center, size_x).0;
    let y = coords_of(center, size_x).1;
    let limit = spacing_distance(size_x, size_y);
    let zeroed = w.update(center, 0);
    let after = weights_after_center(w, center, size_x, size_y);
    lemma_index_roundtrip(center, size_x, size_y);
    lemma_decay_rings(zeroed, x, y, size_x, size_y, limit);
    assert(after[center] <= zeroed[center]);
    assert forall|i: int| 0 <= i < w.len() implies #[trigger] after[i] <= w[i] by {
        assert(after[i] <= zeroed[i]);
    }
    if limit >= 4 {
        assert forall|tile: int|
            0 <= tile < w.len() && 1 <= #[trigger] tile_distance(center, tile, size_x) <= 3 implies after[tile]
            == 0 by {
            let radius = tile_distance(center, tile, size_x);
            lemma_index_roundtrip(tile, size_x, size_y);
            let bx = coords_of(tile, size_x).0;
            let by = coords_of(tile, size_x).1;
            lemma_ring_complete(x, y, bx, by, size_x, size_y);
            let tiles = ring(x, y, radius, size_x, size_y);
            let m = choose|m: int| 0 <= m < tiles.len() && tiles[m] == (bx, by);
            assert(ring_index(x, y, radius, size_x, size_y, m) == tile);
        }
    }
}

/// Two different tiles are at least one step apart.
pub proof fn lemma_tiles_apart(a: int, b: int, size_x: int, size_y: int)
    requires
        0 <= size_x,
        0 <= size_y,
        0 <= a < size_x * size_y,
        0 <= b < size_x * size_y,
        a != b,
    ensures
        tile_distance(a, b, size_x) >= 1,
{
    lemma_index_roundtrip(a, size_x, size_y);
    lemma_index_roundtrip(b, size_x, size_y);
}

/// Number of tiles that are marked.
pub open spec fn count_marked(marks: Seq<bool>) -> int
    decreases marks.len(),
{
    if marks.len() == 0 {
        0
    } else {
        count_marked(marks.drop_last()) + (if marks.last() {
            1int
        } else {
            0int
        })
    }
}

/// The count of marked tiles lies between 0 and the number of tiles, and
/// reaches these bounds where no tile or every tile is marked.
proof fn lemma_count_marked_bounds(marks: Seq<bool>)
    ensures
        0 <= count_marked(marks) <= marks.len(),
        (forall|t: int| 0 <= t < marks.len() ==> marks[t]) ==> count_marked(marks) == marks.len(),
        (forall|t: int| 0 <= t < marks.len() ==> !marks[t]) ==> count_marked(marks) == 0,
    decreases marks.len(),
{
    if marks.len() > 0 {
        lemma_count_marked_bounds(marks.drop_last());
    }
}

/// Marking one more tile raises the count by one.
proof fn lemma_count_marked_set(marks: Seq<bool>, tile: int)
    requires
        0 <= tile < marks.len(),
        !marks[tile],
    ensures
        count_marked(marks.update(tile, true)) == count_marked(marks) + 1,
    decreases marks.len(),
{
    let after = marks.update(tile, true);
    if tile == marks.len() - 1 {
        assert(after.drop_last() =~= marks.drop_last());
    } else {
        lemma_count_marked_set(marks.drop_last(), tile);
        assert(after.drop_last() =~= marks.drop_last().update(tile, true));
    }
}

/// Sampling weight of the tiles of row `row` before any centre is placed.
pub fn row_weight(row: u32, size_y: u32) -> (w: u64)
    requires
        row < size_y,
    ensures
        w == initial_weight(row as int, size_y as int),
        w <= ONE,
{
    let band: u32 = size_y / 10;
    let depth: u32 = if row < band {
        row
    } else if row >= size_y - band {
        size_y - 1 - row
    } else {
        return 1_000_000;
    };
    let share: u128 = (depth as u128) * 1_000_000_000_000 / (band as u128);
    let w: u64 = isqrt(share);
    proof {
        assert(depth * ONE * ONE == depth * 1_000_000_000_000) by (nonlinear_arith);
        lemma_sqrt_floor(share as int, w as int);
        assert(share < 1_000_000_000_000) by (nonlinear_arith)
            requires
                share == (depth * 1_000_000_000_000) / (band as int),
                0 <= depth < band,
        ;
        if w > ONE {
            assert(w * w >= ONE * ONE) by (nonlinear_arith)
                requires
                    w > ONE,
            ;
        }
    }
    w
}

/// The sampling weights before any centre is placed: `initial_weight` of its
/// row for every tile.
pub fn initial_weights(hex_map: &HexMap) -> (weights: Vec<u64>)
    requires
        hex_map.wf(),
    ensures
        weights@.len() == hex_map.field@.len(),
        forall|i: int|
            0 <= i < weights@.len() ==> (#[trigger] weights@[i]) == initial_weight(
                i / (hex_map.size_x as int),
                hex_map.size_y as int,
            ) && weights@[i] <= ONE,
{
    let mut weights: Vec<u64> = Vec::new();
    let mut i: usize = 0;
    while i < hex_map.field.len()
        invariant
            hex_map.wf(),
            i <= hex_map.field@.len(),
            weights@.len() == i,
            forall|j: int|
                0 <= j < i ==> (#[trigger] weights@[j]) == initial_weight(
                    j / (hex_map.size_x as int),
                    hex_map.size_y as int,
                ) && weights@[j] <= ONE,
        decreases hex_map.field@.len() - i,
    {
        proof {
            hex_map.lemma_center_bounds(i as int);
        }
        let row: i32 = hex_map.field[i].y;
        weights.push(row_weight(row as u32, hex_map.size_y));
        i += 1;
    }
    weights
}

/// Adds up the weights.
pub fn sum_weights(weights: &Vec<u64>) -> (total: u64)
    requires
        forall|i: int| 0 <= i < weights@.len() ==> weights@[i] <= ONE,
        weights@.len() <= i32::MAX,
    ensures
        total == total_weight(weights@),
{
    let mut total: u64 = 0;
    let mut k: usize = 0;
    while k < weights.len()
        invariant
            k <= weights@.len(),
            total == total_weight(weights@.subrange(0, k as int)),
            forall|i: int| 0 <= i < weights@.len() ==> weights@[i] <= ONE,
            weights@.len() <= i32::MAX,
        decreases weights@.len() - k,
    {
        proof {
            lemma_total_prefix(weights@, k as int, ONE as int);
            lemma_total_prefix(weights@, k + 1, ONE as int);
            assert(ONE * weights@.len() <= ONE * i32::MAX) by (nonlinear_arith)
                requires
                    weights@.len() <= i32::MAX,
            ;
        }
        total = total + weights[k];
        k += 1;
    }
    proof {
        assert(weights@.subrange(0, k as int) =~= weights@);
    }
    total
}

/// Finds the tile that a draw of `target` selects: the first tile at which
/// the running sum of the weights exceeds `target`. A tile is thus found with
/// a probability proportional to its weight, and never with weight 0.
pub fn pick_weighted(weights: &Vec<u64>, target: u64) -> (k: usize)
    requires
        target < total_weight(weights@),
        forall|i: int| 0 <= i < weights@.len() ==> weights@[i] <= ONE,
        weights@.len() <= i32::MAX,
    ensures
        is_weighted_pick(weights@, target as int, k as int),
        weights@[k as int] > 0,
{
    let mut running: u64 = 0;
    let mut k: usize = 0;
    while k < weights.len()
        invariant
            k <= weights@.len(),
            running == total_weight(weights@.subrange(0, k as int)),
            running <= target,
            target < total_weight(weights@),
            forall|i: int| 0 <= i < weights@.len() ==> weights@[i] <= ONE,
            weights@.len() <= i32::MAX,
        decreases weights@.len() - k,
    {
        proof {
            lemma_total_prefix(weights@, k as int, ONE as int);
            lemma_total_prefix(weights@, k + 1, ONE as int);
            assert(ONE * weights@.len() <= ONE * i32::MAX) by (nonlinear_arith)
                requires
                    weights@.len() <= i32::MAX,
            ;
        }
        if target < running + weights[k] {
            return k;
        }
        running = running + weights[k];
        k += 1;
    }
    proof {
        assert(weights@.subrange(0, k as int) =~= weights@);
    }
    0
}

/// Finds the first tile that is not marked.
pub fn first_unmarked(marks: &Vec<bool>) -> (tile: usize)
    requires
        count_marked(marks@) < marks@.len(),
    ensures
        tile < marks@.len(),
        !marks@[tile as int],
        forall|t: int| 0 <= t < tile ==> marks@[t],
{
    let mut tile: usize = 0;
    while tile < marks.len()
        invariant
            tile <= marks@.len(),
            forall|t: int| 0 <= t < tile ==> marks@[t],
        decreases marks@.len() - tile,
    {
        if !marks[tile] {
            return tile;
        }
        tile += 1;
    }
    proof {
        lemma_count_marked_bounds(marks@);
    }
    0
}

/// Executable `spacing_multiplier`.
pub fn multiplier_at(dist: u32) -> (m: u64)
    ensures
        m == spacing_multiplier(dist as int),
        m <= ONE,
{
    if dist <= 3 {
        0
    } else if dist == 4 {
        259_637
    } else if dist == 5 {
        435_729
    } else if dist == 6 {
        560_667
    } else if dist == 7 {
        657_577
    } else if dist == 8 {
        736_759
    } else if dist == 9 {
        803_705
    } else if dist == 10 {
        861_697
    } else if dist == 11 {
        912_850
    } else if dist == 12 {
        958_607
    } else {
        1_000_000
    }
}

/// Records a new centre in the sampling weights: its own weight becomes 0,
/// and every tile on a ring below the spacing distance loses weight by the
/// multiplier of the ring.
pub fn place_center(hex_map: &HexMap, weights: &mut Vec<u64>, center: usize)
    requires
        hex_map.wf(),
        center < hex_map.field@.len(),
        old(weights)@.len() == hex_map.field@.len(),
        forall|i: int| 0 <= i < old(weights)@.len() ==> old(weights)@[i] <= ONE,
    ensures
        final(weights)@ == weights_after_center(
            old(weights)@,
            center as int,
            hex_map.size_x as int,
            hex_map.size_y as int,
        ),
        final(weights)@.len() == old(weights)@.len(),
        final(weights)@[center as int] == 0,
        forall|i: int| 0 <= i < old(weights)@.len() ==> final(weights)@[i] <= old(weights)@[i],
{
    let ghost size_x = hex_map.size_x as int;
    let ghost size_y = hex_map.size_y as int;
    let hex: Hex = hex_map.field[center];
    proof {
        hex_map.lemma_center_bounds(center as int);
    }
    weights[center] = 0;
    let ghost zeroed = weights@;
    let limit: u32 = hex_map.get_avg_size() / 5;
    let mut radius: u32 = 1;
    while radius < limit
        invariant
            1 <= radius,
            radius <= limit || radius == 1,
            limit == spacing_distance(size_x, size_y),
            hex_map.wf(),
            size_x == hex_map.size_x,
            size_y == hex_map.size_y,
            hex_map.size_x > 0,
            weights@.len() == hex_map.field@.len(),
            weights@ == decay_rings(zeroed, hex.x as int, hex.y as int, size_x, size_y, radius as int),
            zeroed.len() == weights@.len(),
            forall|i: int| 0 <= i < weights@.len() ==> (#[trigger] weights@[i]) <= zeroed[i],
            forall|i: int| 0 <= i < zeroed.len() ==> (#[trigger] zeroed[i]) <= ONE,
        decreases limit - radius,
    {
        let tiles = hex.get_ring(hex_map, radius);
        let mult: u64 = multiplier_at(radius);
        let ghost ring_start = weights@;
        let ghost ring_tiles = coords(tiles@);
        let mut k: usize = 0;
        while k < tiles.len()
            invariant
                k <= tiles@.len(),
                hex_map.wf(),
                size_x == hex_map.size_x,
                mult <= ONE,
                ring_tiles == coords(tiles@),
                forall|j: int|
                    0 <= j < tiles@.len() ==> hex_map.has_tile(
                        #[trigger] tiles@[j].0 as int,
                        tiles@[j].1 as int,
                    ),
                weights@.len() == hex_map.field@.len(),
                weights@ == decay_tiles(
                    ring_start,
                    ring_tiles.subrange(0, k as int),
                    size_x,
                    mult as int,
                ),
                zeroed.len() == weights@.len(),
                forall|i: int| 0 <= i < weights@.len() ==> (#[trigger] weights@[i]) <= zeroed[i],
                forall|i: int| 0 <= i < zeroed.len() ==> (#[trigger] zeroed[i]) <= ONE,
            decreases tiles@.len() - k,
        {
            proof {
                assert(ring_tiles.subrange(0, k + 1).drop_last() =~= ring_tiles.subrange(0, k as int));
                assert(ring_tiles[k as int] == (tiles@[k as int].0 as int, tiles@[k as int].1 as int));
                assert(hex_map.has_tile(tiles@[k as int].0 as int, tiles@[k as int].1 as int));
            }
            let place = hex_map.coords_to_index(tiles[k].0, tiles[k].1);
            match place {
                Ok(at) => {
                    let was: u64 = weights[at];
                    assert(weights@[at as int] <= zeroed[at as int] <= ONE);
                    assert(was * mult <= ONE * ONE) by (nonlinear_arith)
                        requires
                            0 <= was <= ONE,
                            0 <= mult <= ONE,
                    ;
                    assert((was * mult) / (ONE as int) <= was) by (nonlinear_arith)
                        requires
                            0 <= was,
                            0 <= mult <= ONE,
                    ;
                    weights[at] = was * mult / 1_000_000;
                },
                Err(_) => {},
            }
            k += 1;
        }
        proof {
            assert(ring_tiles.subrange(0, k as int) =~= ring_tiles);
        }
        radius += 1;
    }
    proof {
        assert(hex.x == coords_of(center as int, size_x).0);
        assert(hex.y == coords_of(center as int, size_x).1);
        assert(zeroed == old(weights)@.update(center as int, 0));
        assert forall|i: int| 0 <= i < old(weights)@.len() implies weights@[i] <= old(weights)@[i] by {
            assert(weights@[i] <= zeroed[i]);
        }
        if limit <= 1 {
            assert(decay_rings(zeroed, hex.x as int, hex.y as int, size_x, size_y, limit as int)
                == zeroed);
            assert(decay_rings(zeroed, hex.x as int, hex.y as int, size_x, size_y, 1)
                == zeroed);
        }
    }
}

impl Inland {
    /// Chooses the region centres. Every centre is drawn with a probability
    /// proportional to the weight of its tile, and lowers the weights around
    /// it. Where no weight is left, the first tile that is no centre yet is
    /// taken. A tile without weight is thus never drawn: while weight is
    /// left, no centre falls into a weightless top or bottom row, nor within
    /// 3 steps of a centre before it where the spacing distance is 4 or
    /// more.
    pub fn generate_centers(&self, hex_map: &HexMap, rng: &mut StdRng) -> (centers: Vec<usize>)
        requires
            hex_map.wf(),
            hex_map.area() > 0,
        ensures
            centers@.len() == region_count(hex_map.area(), self.region_size.spec_value()),
            forall|i: int| 0 <= i < centers@.len() ==> centers@[i] < hex_map.field@.len(),
            forall|i: int, j: int| 0 <= i < j < centers@.len() ==> centers@[i] != centers@[j],
            exists|draws: Seq<u64>|
                draws.len() == centers@.len() && draws_in_range(
                    draws,
                    hex_map.size_x as int,
                    hex_map.size_y as int,
                ) && centers@ == (#[trigger] seeded(
                    draws,
                    hex_map.size_x as int,
                    hex_map.size_y as int,
                )).0,
            is_spaced_seeding(centers@, hex_map.size_x as int, hex_map.size_y as int),
    {
        let ghost size_x = hex_map.size_x as int;
        let ghost size_y = hex_map.size_y as int;
        let ghost mut draws: Seq<u64> = Seq::empty();
        let count: u32 = self.get_region_count(hex_map);
        let area: usize = hex_map.field.len();
        proof {
            lemma_region_count_bounds(hex_map.area(), self.region_size.spec_value());
        }
        let mut weights: Vec<u64> = initial_weights(hex_map);
        let mut marks: Vec<bool> = Vec::new();
        let mut made: usize = 0;
        while made < area
            invariant
                made <= area,
                marks@.len() == made,
                forall|t: int| 0 <= t < made ==> !marks@[t],
            decreases area - made,
        {
            marks.push(false);
            made += 1;
        }
        proof {
            lemma_count_marked_bounds(marks@);
        }
        let mut centers: Vec<usize> = Vec::new();
        let mut chosen: u32 = 0;
        proof {
            assert(weights@ =~= starting_weights(size_x, size_y));
            assert(centers@ =~= seeded(draws, size_x, size_y).0);
            if size_y >= 10 {
                assert forall|t: int|
                    0 <= t < area && (coords_of(t, size_x).1 == 0 || coords_of(t, size_x).1 == size_y
                        - 1) implies #[trigger] weights@[t] == 0 by {
                    lemma_edge_rows_start_weightless(t, size_x, size_y);
                }
            }
        }
        while chosen < count
            invariant
                chosen <= count,
                weights@ == weights_left(centers@, size_x, size_y),
                draws_in_range(draws, size_x, size_y),
                forall|k: int| 0 <= k < chosen ==> #[trigger] is_seed(centers@, k, size_x, size_y),
                size_y >= 10 ==> forall|t: int|
                    0 <= t < area && (coords_of(t, size_x).1 == 0 || coords_of(t, size_x).1 == size_y
                        - 1) ==> #[trigger] weights@[t] == 0,
                size_y >= 10 ==> forall|k: int|
                    0 <= k < chosen && #[trigger] has_weight_left(centers@, k, size_x, size_y) ==> 0
                        < coords_of(centers@[k] as int, size_x).1 < size_y - 1,
                spacing_distance(size_x, size_y) >= 4 ==> forall|i: int, t: int|
                    0 <= i < chosen && 0 <= t < area && 1 <= #[trigger] tile_distance(
                        centers@[i] as int,
                        t,
                        size_x,
                    ) <= 3 ==> weights@[t] == 0,
                spacing_distance(size_x, size_y) >= 4 ==> forall|i: int, j: int|
                    0 <= i < j < chosen && has_weight_left(centers@, j, size_x, size_y)
                        ==> #[trigger] center_distance(centers@, i, j, size_x) >= 4,
                count <= area,
                hex_map.wf(),
                size_x == hex_map.size_x,
                size_y == hex_map.size_y,
                area == hex_map.field@.len(),
                area <= i32::MAX,
                weights@.len() == area,
                marks@.len() == area,
                centers@.len() == chosen,
                draws.len() == chosen,
                seeded(draws, size_x, size_y) == (centers@, weights@),
                count_marked(marks@) == chosen,
                forall|i: int| 0 <= i < area ==> weights@[i] <= ONE,
                forall|i: int| 0 <= i < area && marks@[i] ==> weights@[i] == 0,
                forall|v: usize| v < area ==> (marks@[v as int] <==> #[trigger] centers@.contains(v)),
                forall|i: int| 0 <= i < centers@.len() ==> centers@[i] < area && marks@[centers@[i] as int],
                forall|i: int, j: int| 0 <= i < j < centers@.len() ==> centers@[i] != centers@[j],
            decreases count - chosen,
        {
            let ghost before = centers@;
            let ghost drawn = draws;
            let ghost weights_before = weights@;
            let total: u64 = sum_weights(&weights);
            let mut target: u64 = 0;
            let tile: usize = if total > 0 {
                target = draw_below(rng, total);
                let picked = pick_weighted(&weights, target);
                proof {
                    lemma_weighted_pick_unique(weights@, target as int, picked as int);
                }
                picked
            } else {
                let free = first_unmarked(&marks);
                proof {
                    assert(is_first_free(centers@, area as int, free));
                    lemma_first_free_unique(centers@, area as int, free);
                }
                free
            };
            proof {
                lemma_count_marked_set(marks@, tile as int);
                draws = draws.push(target);
                assert(draws.drop_last() =~= drawn);
                assert(draws.subrange(0, drawn.len() as int) =~= drawn);
                assert(is_draw(draws, drawn.len() as int, size_x, size_y));
                lemma_draw_added(drawn, target, size_x, size_y);
                assert(hex_map.area() == area);
            }
            centers.push(tile);
            marks[tile] = true;
            place_center(hex_map, &mut weights, tile);
            proof {
                let k = before.len() as int;
                let now = centers@;
                assert(now.drop_last() =~= before);
                assert(now.subrange(0, k) =~= before);
                assert(weights@ == weights_left(now, size_x, size_y));
                lemma_weights_after_center(weights_before, tile as int, size_x, size_y);
                // the centres before keep what was known of them
                assert forall|m: int| 0 <= m < k implies has_weight_left(now, m, size_x, size_y)
                    == has_weight_left(before, m, size_x, size_y) && is_seed(now, m, size_x, size_y)
                    == is_seed(before, m, size_x, size_y) by {
                    assert(now.subrange(0, m) =~= before.subrange(0, m));
                    assert(now[m] == before[m]);
                }
                assert(has_weight_left(now, k, size_x, size_y) == (total > 0));
                assert forall|m: int| 0 <= m < k + 1 implies #[trigger] is_seed(now, m, size_x, size_y) by {
                    if m < k {
                        assert(is_seed(before, m, size_x, size_y));
                    }
                }
                if size_y >= 10 {
                    assert forall|m: int|
                        0 <= m < k + 1 && #[trigger] has_weight_left(now, m, size_x, size_y) implies 0
                        < coords_of(now[m] as int, size_x).1 < size_y - 1 by {
                        lemma_index_roundtrip(now[m] as int, size_x, size_y);
                        if m < k {
                            assert(has_weight_left(before, m, size_x, size_y));
                            assert(now[m] == before[m]);
                        } else {
                            assert(weights_before[tile as int] > 0);
                        }
                    }
                    assert forall|t: int|
                        0 <= t < area && (coords_of(t, size_x).1 == 0 || coords_of(t, size_x).1
                            == size_y - 1) implies #[trigger] weights@[t] == 0 by {
                        assert(weights_before[t] == 0);
                    }
                }
                if spacing_distance(size_x, size_y) >= 4 {
                    assert forall|i: int, t: int|
                        0 <= i < k + 1 && 0 <= t < area && 1 <= #[trigger] tile_distance(
                            now[i] as int,
                            t,
                            size_x,
                        ) <= 3 implies weights@[t] == 0 by {
                        if i < k {
                            assert(now[i] == before[i]);
                            assert(weights_before[t] == 0);
                        }
                    }
                    assert forall|i: int, j: int|
                        0 <= i < j < k + 1 && has_weight_left(
                            now,
                            j,
                            size_x,
                            size_y,
                        ) implies #[trigger] center_distance(now, i, j, size_x) >= 4 by {
                        if j < k {
                            assert(has_weight_left(before, j, size_x, size_y));
                            assert(center_distance(before, i, j, size_x) >= 4);
                        } else {
                            assert(now[i] == before[i]);
                            assert(weights_before[tile as int] > 0);
                            lemma_tiles_apart(before[i] as int, tile as int, size_x, size_y);
                            let apart = tile_distance(before[i] as int, tile as int, size_x);
                            if apart <= 3 {
                                assert(weights_before[tile as int] == 0);
                            }
                        }
                    }
                }
            }
            proof {
                assert forall|v: usize| v < area implies (marks@[v as int] <==> #[trigger] centers@.contains(
                    v,
                )) by {
                    if v == tile {
                        assert(centers@[centers@.len() - 1] == tile);
                    } else {
                        if before.contains(v) {
                            let m = choose|m: int| 0 <= m < before.len() && before[m] == v;
                            assert(centers@[m] == v);
                        }
                        if centers@.contains(v) {
                            let m = choose|m: int| 0 <= m < centers@.len() && centers@[m] == v;
                            assert(before[m] == v);
                        }
                    }
                }
            }
            chosen += 1;
        }
        centers
    }
}

} // verus!
