//! The ice pass: ice at the top and bottom of the map.

use vstd::prelude::*;
use crate::fixed::abs;
use crate::generators::islands::Islands;
use crate::generators::{cleared, count_type, smooth, smoothed};
use crate::hex::{center_y_of, lemma_neighbours_are_tiles, neighbour, neighbours, open_directions, Hex, HexType};
use crate::hexmap::{
    absolute_height, coords_of, index_of, lemma_coords_roundtrip, lemma_index_roundtrip, HexMap,
};

verus! {

/// Closeness of a point to the nearer of the top and bottom edges, as a
/// multiple of the map's height: 0 at the edges, the height itself halfway
/// between them.
pub open spec fn edge_closeness(center_y: int, height: int) -> int {
    height - abs(2 * center_y - height)
}

/// Row `y` is the top or the bottom row.
pub open spec fn is_edge_row(y: int, size_y: int) -> bool {
    y == 0 || y == size_y - 1
}

/// A tile freezes where its closeness to the edge, as a share of the height
/// and raised by three hundredths of the noise sample, is below 0.12.
pub open spec fn is_icy(center_y: int, height: int, sample: int) -> bool {
    100_000_000 * edge_closeness(center_y, height) + 3 * sample * height < 12_000_000 * height
}

/// The terrain after ice was marked: the top and bottom rows and every icy
/// tile are ice.
pub open spec fn iced(types: Seq<HexType>, noise: Seq<i32>, size_x: int, size_y: int) -> Seq<HexType> {
    Seq::new(
        types.len(),
        |i: int|
            if is_edge_row(coords_of(i, size_x).1, size_y) || is_icy(
                center_y_of(coords_of(i, size_x).1),
                absolute_height(size_y),
                noise[i] as int,
            ) {
                HexType::Ice
            } else {
                types[i]
            },
    )
}

/// The terrain after the ice pass: ice is marked, then two rounds of
/// cleanup between ocean and ice follow.
pub open spec fn ice_pass_result(types: Seq<HexType>, noise: Seq<i32>, size_x: int, size_y: int) -> Seq<
    HexType,
> {
    smoothed(
        smoothed(iced(types, noise, size_x, size_y), size_x, size_y, HexType::Ocean, HexType::Ice),
        size_x,
        size_y,
        HexType::Ocean,
        HexType::Ice,
    )
}

/// The top and bottom rows are ice.
pub open spec fn edges_frozen(types: Seq<HexType>, size_x: int, size_y: int) -> bool {
    forall|i: int|
        0 <= i < types.len() && is_edge_row(coords_of(i, size_x).1, size_y) ==> (#[trigger] types[i])
            == HexType::Ice
}

/// A count is not negative.
proof fn lemma_count_nonnegative(types: Seq<HexType>, tiles: Seq<(int, int)>, size_x: int, wanted: HexType)
    ensures
        count_type(types, tiles, size_x, wanted) >= 0,
    decreases tiles.len(),
{
    if tiles.len() > 0 {
        lemma_count_nonnegative(types, tiles.drop_last(), size_x, wanted);
    }
}

/// One of the given tiles with the wanted terrain makes a count of one.
proof fn lemma_count_one(types: Seq<HexType>, tiles: Seq<(int, int)>, size_x: int, wanted: HexType, a: int)
    requires
        0 <= a < tiles.len(),
        types[index_of(tiles[a].0, tiles[a].1, size_x)] == wanted,
    ensures
        count_type(types, tiles, size_x, wanted) >= 1,
    decreases tiles.len(),
{
    let rest = tiles.drop_last();
    lemma_count_nonnegative(types, rest, size_x, wanted);
    if a < tiles.len() - 1 {
        lemma_count_one(types, rest, size_x, wanted, a);
    }
}

/// Two of the given tiles with the wanted terrain make a count of two.
proof fn lemma_count_two(
    types: Seq<HexType>,
    tiles: Seq<(int, int)>,
    size_x: int,
    wanted: HexType,
    a: int,
    b: int,
)
    requires
        0 <= a < b < tiles.len(),
        types[index_of(tiles[a].0, tiles[a].1, size_x)] == wanted,
        types[index_of(tiles[b].0, tiles[b].1, size_x)] == wanted,
    ensures
        count_type(types, tiles, size_x, wanted) >= 2,
    decreases tiles.len(),
{
    let rest = tiles.drop_last();
    if b == tiles.len() - 1 {
        lemma_count_one(types, rest, size_x, wanted, a);
    } else {
        lemma_count_two(types, rest, size_x, wanted, a, b);
        lemma_count_nonnegative(types, rest, size_x, wanted);
    }
}

/// A cleanup pass with a strength of at most 3 leaves frozen edges frozen:
/// in the top and bottom rows every tile has its two neighbours of the same
/// row, which are ice as well.
pub proof fn lemma_clear_keeps_edges(
    types: Seq<HexType>,
    size_x: int,
    size_y: int,
    from: HexType,
    to: HexType,
    strength: int,
)
    requires
        0 <= size_x,
        0 <= size_y,
        types.len() == size_x * size_y,
        edges_frozen(types, size_x, size_y),
        strength <= 3,
    ensures
        edges_frozen(cleared(types, size_x, size_y, from, to, strength), size_x, size_y),
{
    let after = cleared(types, size_x, size_y, from, to, strength);
    assert forall|i: int|
        0 <= i < after.len() && is_edge_row(coords_of(i, size_x).1, size_y) implies (#[trigger] after[i])
        == HexType::Ice by {
        assert(types[i] == HexType::Ice);
        if from == HexType::Ice {
            lemma_index_roundtrip(i, size_x, size_y);
            let x = coords_of(i, size_x).0;
            let y = coords_of(i, size_x).1;
            let dirs = open_directions(y, size_y);
            let around = neighbours(x, y, size_x, size_y);
            let a: int = if y != size_y - 1 {
                2
            } else {
                0
            };
            let b: int = dirs.len() - 1;
            assert(dirs[a] == 2 && dirs[b] == 5);
            assert(around[a] == neighbour(x, y, size_x, 2));
            assert(around[b] == neighbour(x, y, size_x, 5));
            lemma_neighbours_are_tiles(x, y, size_x, size_y, a);
            lemma_neighbours_are_tiles(x, y, size_x, size_y, b);
            lemma_coords_roundtrip(around[a].0, around[a].1, size_x, size_y);
            lemma_coords_roundtrip(around[b].0, around[b].1, size_x, size_y);
            let ia = index_of(around[a].0, around[a].1, size_x);
            let ib = index_of(around[b].0, around[b].1, size_x);
            assert(types[ia] == HexType::Ice);
            assert(types[ib] == HexType::Ice);
            lemma_count_two(types, around, size_x, HexType::Ice, a, b);
        }
    }
}

/// After the ice pass the top and bottom rows are ice.
pub proof fn lemma_ice_pass_freezes_edges(types: Seq<HexType>, noise: Seq<i32>, size_x: int, size_y: int)
    requires
        0 <= size_x,
        0 <= size_y,
        types.len() == size_x * size_y,
    ensures
        edges_frozen(ice_pass_result(types, noise, size_x, size_y), size_x, size_y),
{
    let ocean = HexType::Ocean;
    let ice = HexType::Ice;
    let marked = iced(types, noise, size_x, size_y);
    let first = cleared(marked, size_x, size_y, ocean, ice, 3);
    let second = cleared(first, size_x, size_y, ice, ocean, 3);
    let third = cleared(second, size_x, size_y, ocean, ice, 3);
    lemma_clear_keeps_edges(marked, size_x, size_y, ocean, ice, 3);
    lemma_clear_keeps_edges(first, size_x, size_y, ice, ocean, 3);
    lemma_clear_keeps_edges(second, size_x, size_y, ocean, ice, 3);
    lemma_clear_keeps_edges(third, size_x, size_y, ice, ocean, 3);
}

/// Executable `edge_closeness`.
pub(crate) fn edge_closeness_of(center_y: i64, height: i64) -> (r: i128)
    ensures
        r == edge_closeness(center_y as int, height as int),
{
    let lean: i128 = 2 * (center_y as i128) - (height as i128);
    let off: i128 = if lean < 0 {
        -lean
    } else {
        lean
    };
    (height as i128) - off
}

/// Executable `is_icy`.
pub fn icy(center_y: i64, height: i64, sample: i32) -> (r: bool)
    ensures
        r == is_icy(center_y as int, height as int, sample as int),
{
    let closeness: i128 = edge_closeness_of(center_y, height);
    assert(-0x8000_0000 * 0x8000_0000_0000_0000 <= sample * height <= 0x8000_0000
        * 0x8000_0000_0000_0000) by (nonlinear_arith)
        requires
            -0x8000_0000 <= sample <= 0x8000_0000,
            -0x8000_0000_0000_0000 <= height <= 0x8000_0000_0000_0000,
    ;
    let noisy: i128 = 100_000_000 * closeness + 3 * ((sample as i128) * (height as i128));
    assert(3 * (sample * height) == 3 * sample * height) by (nonlinear_arith);
    noisy < 12_000_000 * (height as i128)
}

impl Islands {
    /// Generates ice at the top and bottom of the map: the top and bottom
    /// rows freeze, and so does every tile near them that `is_icy` selects.
    /// Two rounds of cleanup between ocean and ice follow.
    pub fn ice_pass(hex_map: &mut HexMap, noise: &Vec<i32>)
        requires
            old(hex_map).wf(),
            noise@.len() == old(hex_map).field@.len(),
        ensures
            final(hex_map).is_retyping_of(
                old(hex_map),
                ice_pass_result(
                    old(hex_map).types(),
                    noise@,
                    old(hex_map).size_x as int,
                    old(hex_map).size_y as int,
                ),
            ),
            final(hex_map).wf(),
            edges_frozen(
                final(hex_map).types(),
                old(hex_map).size_x as int,
                old(hex_map).size_y as int,
            ),
    {
        let ghost size_x = hex_map.size_x as int;
        let ghost size_y = hex_map.size_y as int;
        let ghost before = hex_map.types();
        let height: i64 = hex_map.absolute_size_y;
        let last_row: i64 = hex_map.size_y as i64 - 1;
        let mut i: usize = 0;
        while i < hex_map.field.len()
            invariant
                i <= hex_map.field@.len(),
                old(hex_map).wf(),
                hex_map.wf(),
                noise@.len() == old(hex_map).field@.len(),
                before == old(hex_map).types(),
                size_x == old(hex_map).size_x,
                size_y == old(hex_map).size_y,
                height == old(hex_map).absolute_size_y,
                last_row == size_y - 1,
                hex_map.is_retyping_of(
                    old(hex_map),
                    Seq::new(
                        before.len(),
                        |j: int|
                            if j < i {
                                iced(before, noise@, size_x, size_y)[j]
                            } else {
                                before[j]
                            },
                    ),
                ),
            decreases hex_map.field@.len() - i,
        {
            proof {
                hex_map.lemma_center_bounds(i as int);
            }
            let hex: Hex = hex_map.field[i];
            let mut frozen: bool = hex.y == 0 || hex.y as i64 == last_row;
            if icy(hex.center_y, height, noise[i]) {
                frozen = true;
            }
            if frozen {
                hex_map.set_type(i, HexType::Ice);
            }
            proof {
                let target = Seq::new(
                    before.len(),
                    |j: int|
                        if j < i + 1 {
                            iced(before, noise@, size_x, size_y)[j]
                        } else {
                            before[j]
                        },
                );
                assert(hex.y == coords_of(i as int, size_x).1);
                assert(hex.center_y == center_y_of(hex.y as int));
                assert(hex_map.is_retyping_of(old(hex_map), target));
                hex_map.lemma_retyping_wf(old(hex_map), target);
            }
            i += 1;
        }
        proof {
            let marked = iced(before, noise@, size_x, size_y);
            assert(Seq::new(
                before.len(),
                |j: int|
                    if j < i {
                        iced(before, noise@, size_x, size_y)[j]
                    } else {
                        before[j]
                    },
            ) =~= marked);
            hex_map.lemma_retyping_wf(old(hex_map), marked);
        }
        smooth(hex_map, HexType::Ocean, HexType::Ice);
        smooth(hex_map, HexType::Ocean, HexType::Ice);
        proof {
            lemma_ice_pass_freezes_edges(before, noise@, size_x, size_y);
            let target = ice_pass_result(before, noise@, size_x, size_y);
            assert(hex_map.types() == target);
        }
    }
}

} // verus!
