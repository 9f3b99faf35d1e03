//! What the terrain generators share: the expansion of a seed into the bytes
//! that the pseudo-random generator takes, and the cleanup pass that removes
//! speckles of one terrain inside another.

use vstd::prelude::*;
use crate::hex::{neighbours, HexType};
use crate::hexmap::{coords_of, index_of, HexMap};

pub mod inland;
pub mod islands;

verus! {

/// Byte `i` of the expanded seed: the four bytes of the seed, lowest first,
/// repeated.
pub open spec fn seed_byte(seed: u32, i: int) -> u8 {
    ((seed >> ((8 * (i % 4)) as u32)) & 0xff) as u8
}

/// Expands a 32-bit seed into the 32 bytes that seed the pseudo-random
/// generator, by repeating its four bytes eight times.
pub fn seed_to_rng_seed(seed: u32) -> (bytes: [u8; 32])
    ensures
        forall|i: int| 0 <= i < 32 ==> bytes[i] == seed_byte(seed, i),
{
    let mut bytes: [u8; 32] = [0u8; 32];
    let mut i: usize = 0;
    while i < 32
        invariant
            i <= 32,
            forall|j: int| 0 <= j < i ==> bytes[j] == seed_byte(seed, j),
        decreases 32 - i,
    {
        let shift: u32 = (8 * (i % 4)) as u32;
        bytes[i] = ((seed >> shift) & 0xff) as u8;
        i += 1;
    }
    bytes
}

/// Number of the given tiles whose terrain is `wanted`.
pub open spec fn count_type(
    types: Seq<HexType>,
    tiles: Seq<(int, int)>,
    size_x: int,
    wanted: HexType,
) -> int
    decreases tiles.len(),
{
    if tiles.len() == 0 {
        0
    } else {
        count_type(types, tiles.drop_last(), size_x, wanted) + (if types[index_of(
            tiles.last().0,
            tiles.last().1,
            size_x,
        )] == wanted {
            1int
        } else {
            0int
        })
    }
}

/// The number of like neighbours below which a tile of row `y` is cleared:
/// one less in the top and bottom rows, which have fewer neighbours.
pub open spec fn effective_strength(y: int, size_y: int, strength: int) -> int {
    if (y == 0 || y == size_y - 1) && strength > 0 {
        strength - 1
    } else {
        strength
    }
}

/// Terrain of tile `i` after a cleanup pass over `types`.
pub open spec fn cleared_type(
    types: Seq<HexType>,
    i: int,
    size_x: int,
    size_y: int,
    from: HexType,
    to: HexType,
    strength: int,
) -> HexType {
    let (x, y) = coords_of(i, size_x);
    if types[i] == from && count_type(types, neighbours(x, y, size_x, size_y), size_x, from)
        < effective_strength(y, size_y, strength) {
        to
    } else {
        types[i]
    }
}

/// The terrain of every tile after a cleanup pass over `types`.
pub open spec fn cleared(
    types: Seq<HexType>,
    size_x: int,
    size_y: int,
    from: HexType,
    to: HexType,
    strength: int,
) -> Seq<HexType> {
    Seq::new(types.len(), |i: int| cleared_type(types, i, size_x, size_y, from, to, strength))
}

/// One round of cleanup in both directions: speckles of `a` become `b`, then
/// speckles of `b` become `a`.
pub open spec fn smoothed(types: Seq<HexType>, size_x: int, size_y: int, a: HexType, b: HexType) -> Seq<
    HexType,
> {
    cleared(cleared(types, size_x, size_y, a, b, 3), size_x, size_y, b, a, 3)
}

/// Copies the terrain of every tile.
pub fn snapshot_types(hex_map: &HexMap) -> (types: Vec<HexType>)
    ensures
        types@ == hex_map.types(),
{
    let mut types: Vec<HexType> = Vec::new();
    let mut i: usize = 0;
    while i < hex_map.field.len()
        invariant
            i <= hex_map.field@.len(),
            types@ == hex_map.types().subrange(0, i as int),
        decreases hex_map.field@.len() - i,
    {
        types.push(hex_map.field[i].terrain_type);
        i += 1;
        assert(types@ =~= hex_map.types().subrange(0, i as int));
    }
    assert(types@ =~= hex_map.types());
    types
}

/// Counts the neighbours of the tile at `index` whose terrain in `types` is
/// `wanted`.
pub fn count_neighbours(hex_map: &HexMap, types: &Vec<HexType>, index: usize, wanted: HexType) -> (count: u32)
    requires
        hex_map.wf(),
        index < hex_map.field@.len(),
        types@.len() == hex_map.field@.len(),
    ensures
        count == count_type(
            types@,
            neighbours(
                coords_of(index as int, hex_map.size_x as int).0,
                coords_of(index as int, hex_map.size_x as int).1,
                hex_map.size_x as int,
                hex_map.size_y as int,
            ),
            hex_map.size_x as int,
            wanted,
        ),
        count <= 6,
{
    let around = hex_map.neighbour_indices(index);
    let ghost tiles = neighbours(
        coords_of(index as int, hex_map.size_x as int).0,
        coords_of(index as int, hex_map.size_x as int).1,
        hex_map.size_x as int,
        hex_map.size_y as int,
    );
    let mut count: u32 = 0;
    let mut k: usize = 0;
    while k < around.len()
        invariant
            k <= around@.len(),
            around@.len() == tiles.len(),
            around@.len() <= 6,
            types@.len() == hex_map.field@.len(),
            forall|j: int|
                0 <= j < around@.len() ==> around@[j] == index_of(
                    tiles[j].0,
                    tiles[j].1,
                    hex_map.size_x as int,
                ) && around@[j] < hex_map.field@.len(),
            count == count_type(types@, tiles.subrange(0, k as int), hex_map.size_x as int, wanted),
            count <= k,
        decreases around@.len() - k,
    {
        proof {
            assert(tiles.subrange(0, k + 1).drop_last() =~= tiles.subrange(0, k as int));
        }
        if types[around[k]] == wanted {
            count += 1;
        }
        k += 1;
    }
    assert(tiles.subrange(0, k as int) =~= tiles);
    count
}

/// Removes speckles: every tile of terrain `from` that has fewer than
/// `strength` neighbours of the same terrain becomes `to`. In the top and
/// bottom rows one neighbour less is asked for. All tiles are judged by the
/// terrain the map had before the pass.
pub fn clear_pass(hex_map: &mut HexMap, from: HexType, to: HexType, strength: u32)
    requires
        old(hex_map).wf(),
    ensures
        final(hex_map).is_retyping_of(
            old(hex_map),
            cleared(
                old(hex_map).types(),
                old(hex_map).size_x as int,
                old(hex_map).size_y as int,
                from,
                to,
                strength as int,
            ),
        ),
        final(hex_map).wf(),
{
    let before = snapshot_types(hex_map);
    let ghost size_x = hex_map.size_x as int;
    let ghost size_y = hex_map.size_y as int;
    let mut i: usize = 0;
    while i < hex_map.field.len()
        invariant
            i <= hex_map.field@.len(),
            old(hex_map).wf(),
            hex_map.wf(),
            before@ == old(hex_map).types(),
            size_x == old(hex_map).size_x,
            size_y == old(hex_map).size_y,
            hex_map.is_retyping_of(
                old(hex_map),
                Seq::new(
                    before@.len(),
                    |j: int|
                        if j < i {
                            cleared_type(before@, j, size_x, size_y, from, to, strength as int)
                        } else {
                            before@[j]
                        },
                ),
            ),
        decreases hex_map.field@.len() - i,
    {
        let ghost entry = *hex_map;
        if before[i] == from {
            let count = count_neighbours(hex_map, &before, i, from);
            let row: i32 = hex_map.field[i].y;
            let mut needed: u32 = strength;
            if (row == 0 || row as i64 == hex_map.size_y as i64 - 1) && strength > 0 {
                needed = strength - 1;
            }
            if needed > count {
                hex_map.set_type(i, to);
            }
        }
        proof {
            let target = Seq::new(
                before@.len(),
                |j: int|
                    if j < i + 1 {
                        cleared_type(before@, j, size_x, size_y, from, to, strength as int)
                    } else {
                        before@[j]
                    },
            );
            assert(entry.field@[i as int].y == coords_of(i as int, size_x).1);
            assert(hex_map.is_retyping_of(old(hex_map), target));
            hex_map.lemma_retyping_wf(old(hex_map), target);
        }
        i += 1;
    }
    proof {
        assert(Seq::new(
            before@.len(),
            |j: int|
                if j < i {
                    cleared_type(before@, j, size_x, size_y, from, to, strength as int)
                } else {
                    before@[j]
                },
        ) =~= cleared(before@, size_x, size_y, from, to, strength as int));
    }
}

/// Runs one round of cleanup in both directions: speckles of `a` become
/// `b`, then speckles of `b` become `a`.
pub fn smooth(hex_map: &mut HexMap, a: HexType, b: HexType)
    requires
        old(hex_map).wf(),
    ensures
        final(hex_map).is_retyping_of(
            old(hex_map),
            smoothed(
                old(hex_map).types(),
                old(hex_map).size_x as int,
                old(hex_map).size_y as int,
                a,
                b,
            ),
        ),
        final(hex_map).wf(),
        final(hex_map).types() == smoothed(
            old(hex_map).types(),
            old(hex_map).size_x as int,
            old(hex_map).size_y as int,
            a,
            b,
        ),
{
    let ghost size_x = hex_map.size_x as int;
    let ghost size_y = hex_map.size_y as int;
    clear_pass(hex_map, a, b, 3);
    let ghost middle = *hex_map;
    proof {
        middle.lemma_retyping_wf(
            old(hex_map),
            cleared(old(hex_map).types(), size_x, size_y, a, b, 3),
        );
    }
    clear_pass(hex_map, b, a, 3);
    proof {
        let target = smoothed(old(hex_map).types(), size_x, size_y, a, b);
        hex_map.lemma_retyping_wf(&middle, target);
        hex_map.lemma_retyping_chain(&middle, old(hex_map), target);
    }
}

} // verus!
