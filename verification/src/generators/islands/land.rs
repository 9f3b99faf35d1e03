//! The land pass: small islands from noise, and three continents placed at
//! random.

use vstd::prelude::*;
use crate::fixed::{abs, dist_sq, distance_squared, div_toward_zero, norm, norm_of, stretch, stretch_of, ONE};
use crate::generators::islands::Islands;
use crate::generators::{seed_to_rng_seed, smooth, smoothed};
use crate::hex::{Hex, HexType, QUARTER_RATIO};
use crate::hexmap::{absolute_height, absolute_width, center_x_at, center_y_at, HexMap};
use crate::rng::{draw_below, rng_from_seed};
use rand::rngs::StdRng;

verus! {

/// The random numbers that place one continent.
#[derive(Clone, Copy, Debug)]
pub struct ContinentDraw {
    /// Horizontal position of the first focus.
    pub x: u64,
    /// Vertical position of the first focus, as a share of the map's height
    /// in millionths.
    pub y_share: u64,
    /// Horizontal offset from the middle of the map of the point that the
    /// continent stretches toward.
    pub jitter_x: i64,
    /// Vertical offset of that point.
    pub jitter_y: i64,
    /// Distance between the two foci.
    pub length: u64,
}

/// The three points around which a continent forms.
#[derive(Clone, Copy, Debug)]
pub struct Continent {
    pub first: (i64, i64),
    pub second: (i64, i64),
    /// The point halfway between the two foci.
    pub middle: (i64, i64),
}

impl ContinentDraw {
    /// The numbers lie in the ranges they are drawn from on a map of the
    /// given extent: the first focus anywhere across the width and between
    /// one and nine tenths of the height, the offsets within ten tile widths,
    /// the length between a quarter and two fifths of the height.
    pub open spec fn in_range(&self, width: int, height: int) -> bool {
        &&& 0 <= self.x < width
        &&& 100_000 <= self.y_share < 900_000
        &&& -10 * ONE <= self.jitter_x < 10 * ONE
        &&& -10 * ONE <= self.jitter_y < 10 * ONE
        &&& height / 4 <= self.length < height * 2 / 5
    }

    /// The continent that the numbers place.
    pub open spec fn continent(&self, width: int, height: int) -> Continent {
        let first_x = self.x as int;
        let first_y = self.y_share * height / (ONE as int);
        let toward_x = width / 2 + self.jitter_x - first_x;
        let toward_y = height / 2 + self.jitter_y - first_y;
        let far = norm(toward_x, toward_y);
        let second_x = first_x + stretch(toward_x, self.length as int, far);
        let second_y = first_y + stretch(toward_y, self.length as int, far);
        Continent {
            first: (first_x as i64, first_y as i64),
            second: (second_x as i64, second_y as i64),
            middle: (
                div_toward_zero(first_x + second_x, 2) as i64,
                div_toward_zero(first_y + second_y, 2) as i64,
            ),
        }
    }

    /// Executable `continent`.
    pub fn place(&self, width: i64, height: i64) -> (c: Continent)
        requires
            0 < width <= ONE * 0x1_0000_0000,
            0 < height <= ONE * 0x1_0000_0000,
            self.in_range(width as int, height as int),
        ensures
            c == self.continent(width as int, height as int),
            c.within(ONE * 0x4_0000_0000),
    {
        let first_x: i64 = self.x as i64;
        assert(self.y_share * height <= 900_000 * (ONE * 0x1_0000_0000)) by (nonlinear_arith)
            requires
                0 <= self.y_share <= 900_000,
                0 < height <= ONE * 0x1_0000_0000,
        ;
        assert(0 <= (self.y_share * height) / (ONE as int) <= height) by (nonlinear_arith)
            requires
                0 <= self.y_share <= 900_000,
                0 < height,
        ;
        let first_y: i64 = ((self.y_share as i128) * (height as i128) / 1_000_000) as i64;
        let toward_x: i64 = width / 2 + self.jitter_x - first_x;
        let toward_y: i64 = height / 2 + self.jitter_y - first_y;
        let far: u64 = norm_of(toward_x, toward_y);
        let second_x: i64 = first_x + stretch_of(toward_x, self.length, far);
        let second_y: i64 = first_y + stretch_of(toward_y, self.length, far);
        Continent {
            first: (first_x, first_y),
            second: (second_x, second_y),
            middle: ((first_x + second_x) / 2, (first_y + second_y) / 2),
        }
    }
}

impl Continent {
    /// No coordinate of the three points exceeds `limit` in size.
    pub open spec fn within(&self, limit: int) -> bool {
        &&& abs(self.first.0 as int) <= limit
        &&& abs(self.first.1 as int) <= limit
        &&& abs(self.second.0 as int) <= limit
        &&& abs(self.second.1 as int) <= limit
        &&& abs(self.middle.0 as int) <= limit
        &&& abs(self.middle.1 as int) <= limit
    }
}

/// Distance from a focus within which a tile with the given noise sample
/// becomes land on a map of the given width: the less noise, the farther.
pub open spec fn land_reach(sample: int, width: int) -> int {
    ((4 * ONE - 3 * sample) * width) / 100_000_000
}

/// The point `(x, y)` with the given noise sample belongs to the continent:
/// it lies within `land_reach` of one of the foci, or within that reach of
/// the middle after the distance to the middle was shortened to six tenths.
pub open spec fn is_in_continent(x: int, y: int, sample: int, continent: Continent, width: int) -> bool {
    let reach = land_reach(sample, width);
    reach > 0 && (dist_sq(x, y, continent.first.0 as int, continent.first.1 as int) < reach * reach
        || dist_sq(x, y, continent.second.0 as int, continent.second.1 as int) < reach * reach || 36
        * dist_sq(x, y, continent.middle.0 as int, continent.middle.1 as int) < 100 * (reach
        * reach))
}

/// The terrain after small islands sprouted: ocean with a noise sample above
/// 0.36 is land.
pub open spec fn sprouted(types: Seq<HexType>, noise: Seq<i32>) -> Seq<HexType> {
    Seq::new(
        types.len(),
        |i: int|
            if types[i] == HexType::Ocean && noise[i] > 360_000 {
                HexType::Field
            } else {
                types[i]
            },
    )
}

/// The terrain after a continent was raised: ocean that belongs to the
/// continent is land.
pub open spec fn raised(
    types: Seq<HexType>,
    noise: Seq<i32>,
    continent: Continent,
    size_x: int,
) -> Seq<HexType> {
    Seq::new(
        types.len(),
        |i: int|
            if types[i] == HexType::Ocean && is_in_continent(
                center_x_at(i, size_x),
                center_y_at(i, size_x),
                noise[i] as int,
                continent,
                absolute_width(size_x),
            ) {
                HexType::Field
            } else {
                types[i]
            },
    )
}

/// The terrain after the continents of the given draws were raised, one
/// after the other.
pub open spec fn raised_all(
    types: Seq<HexType>,
    noise: Seq<i32>,
    draws: Seq<ContinentDraw>,
    size_x: int,
    size_y: int,
) -> Seq<HexType>
    decreases draws.len(),
{
    if draws.len() == 0 {
        types
    } else {
        raised(
            raised_all(types, noise, draws.drop_last(), size_x, size_y),
            noise,
            draws.last().continent(absolute_width(size_x), absolute_height(size_y)),
            size_x,
        )
    }
}

/// The terrain before the continents are raised: small islands, cleaned up
/// in three rounds between land and ocean.
pub open spec fn islets(types: Seq<HexType>, noise: Seq<i32>, size_x: int, size_y: int) -> Seq<HexType> {
    smoothed(
        smoothed(
            smoothed(sprouted(types, noise), size_x, size_y, HexType::Field, HexType::Ocean),
            size_x,
            size_y,
            HexType::Field,
            HexType::Ocean,
        ),
        size_x,
        size_y,
        HexType::Field,
        HexType::Ocean,
    )
}

/// The terrain after the land pass.
pub open spec fn land_pass_result(
    types: Seq<HexType>,
    noise: Seq<i32>,
    draws: Seq<ContinentDraw>,
    size_x: int,
    size_y: int,
) -> Seq<HexType> {
    raised_all(islets(types, noise, size_x, size_y), noise, draws, size_x, size_y)
}

/// Number of continents.
pub const CONTINENTS: usize = 3;

/// `after` keeps all ice of `before`.
pub open spec fn keeps_ice(before: Seq<HexType>, after: Seq<HexType>) -> bool {
    &&& after.len() == before.len()
    &&& forall|i: int| 0 <= i < before.len() && before[i] == HexType::Ice ==> #[trigger] after[i] == HexType::Ice
}

/// Raising continents melts no ice.
pub proof fn lemma_raised_all_keeps_ice(
    types: Seq<HexType>,
    noise: Seq<i32>,
    draws: Seq<ContinentDraw>,
    size_x: int,
    size_y: int,
)
    ensures
        keeps_ice(types, raised_all(types, noise, draws, size_x, size_y)),
    decreases draws.len(),
{
    if draws.len() > 0 {
        lemma_raised_all_keeps_ice(types, noise, draws.drop_last(), size_x, size_y);
        let inner = raised_all(types, noise, draws.drop_last(), size_x, size_y);
        let outer = raised_all(types, noise, draws, size_x, size_y);
        assert forall|i: int| 0 <= i < types.len() && types[i] == HexType::Ice implies #[trigger] outer[i]
            == HexType::Ice by {
            assert(inner[i] == HexType::Ice);
        }
    }
}

/// Executable `is_in_continent`.
pub fn in_continent(x: i64, y: i64, sample: i32, continent: &Continent, width: i64) -> (r: bool)
    requires
        0 <= x <= ONE * 0x1_0000_0000,
        0 <= y <= ONE * 0x1_0000_0000,
        0 < width <= ONE * 0x1_0000_0000,
        continent.within(ONE * 0x4_0000_0000),
    ensures
        r == is_in_continent(x as int, y as int, sample as int, *continent, width as int),
{
    let slack: i128 = 4_000_000 - 3 * (sample as i128);
    assert(-0x2_0000_0000 * (ONE * 0x1_0000_0000) <= slack * width <= 0x2_0000_0000 * (ONE
        * 0x1_0000_0000)) by (nonlinear_arith)
        requires
            -0x2_0000_0000 <= slack <= 0x2_0000_0000,
            0 < width <= ONE * 0x1_0000_0000,
    ;
    let product: i128 = slack * (width as i128);
    if product < 100_000_000 {
        proof {
            assert(product / 100_000_000 <= 0);
        }
        return false;
    }
    let reach: u128 = (product / 100_000_000) as u128;
    assert(reach * reach <= 0x800_0000_0000_0000 * 0x800_0000_0000_0000) by (nonlinear_arith)
        requires
            0 <= reach <= 0x800_0000_0000_0000,
    ;
    let limit: u128 = reach * reach;
    let first: u128 = distance_squared(x, y, continent.first.0, continent.first.1);
    let second: u128 = distance_squared(x, y, continent.second.0, continent.second.1);
    let middle: u128 = distance_squared(x, y, continent.middle.0, continent.middle.1);
    assert(middle <= 2 * (0x100_0000_0000_0000 * 0x100_0000_0000_0000)) by (nonlinear_arith)
        requires
            middle == (x - continent.middle.0) * (x - continent.middle.0) + (y - continent.middle.1)
                * (y - continent.middle.1),
            abs(x - continent.middle.0) <= 0x100_0000_0000_0000,
            abs(y - continent.middle.1) <= 0x100_0000_0000_0000,
    ;
    first < limit || second < limit || 36 * middle < 100 * limit
}

impl Islands {
    /// Turns ocean into land where the noise sample is above 0.36.
    pub fn sprout(hex_map: &mut HexMap, noise: &Vec<i32>)
        requires
            old(hex_map).wf(),
            noise@.len() == old(hex_map).field@.len(),
        ensures
            final(hex_map).is_retyping_of(old(hex_map), sprouted(old(hex_map).types(), noise@)),
            final(hex_map).wf(),
            final(hex_map).types() == sprouted(old(hex_map).types(), noise@),
    {
        let mut next: Vec<HexType> = Vec::new();
        let mut i: usize = 0;
        while i < hex_map.field.len()
            invariant
                i <= hex_map.field@.len(),
                noise@.len() == hex_map.field@.len(),
                next@.len() == i,
                forall|j: int| 0 <= j < i ==> next@[j] == sprouted(hex_map.types(), noise@)[j],
            decreases hex_map.field@.len() - i,
        {
            let was: HexType = hex_map.field[i].terrain_type;
            if was == HexType::Ocean && noise[i] > 360_000 {
                next.push(HexType::Field);
            } else {
                next.push(was);
            }
            i += 1;
        }
        assert(next@ =~= sprouted(hex_map.types(), noise@));
        hex_map.retype(&next);
    }

    /// Raises a continent: ocean within reach of its foci becomes land.
    pub fn raise_continent(hex_map: &mut HexMap, noise: &Vec<i32>, continent: &Continent)
        requires
            old(hex_map).wf(),
            noise@.len() == old(hex_map).field@.len(),
            continent.within(ONE * 0x4_0000_0000),
        ensures
            final(hex_map).is_retyping_of(
                old(hex_map),
                raised(old(hex_map).types(), noise@, *continent, old(hex_map).size_x as int),
            ),
            final(hex_map).wf(),
            final(hex_map).types() == raised(
                old(hex_map).types(),
                noise@,
                *continent,
                old(hex_map).size_x as int,
            ),
    {
        let ghost size_x = hex_map.size_x as int;
        let width: i64 = hex_map.absolute_size_x;
        let mut next: Vec<HexType> = Vec::new();
        let mut i: usize = 0;
        while i < hex_map.field.len()
            invariant
                i <= hex_map.field@.len(),
                hex_map.wf(),
                size_x == hex_map.size_x,
                width == hex_map.absolute_size_x,
                noise@.len() == hex_map.field@.len(),
                continent.within(ONE * 0x4_0000_0000),
                next@.len() == i,
                forall|j: int|
                    0 <= j < i ==> next@[j] == raised(hex_map.types(), noise@, *continent, size_x)[j],
            decreases hex_map.field@.len() - i,
        {
            proof {
                hex_map.lemma_center_bounds(i as int);
            }
            let hex: Hex = hex_map.field[i];
            assert(hex.center_x == center_x_at(i as int, size_x));
            assert(hex.center_y == center_y_at(i as int, size_x));
            if hex.terrain_type == HexType::Ocean && in_continent(
                hex.center_x,
                hex.center_y,
                noise[i],
                continent,
                width,
            ) {
                next.push(HexType::Field);
            } else {
                next.push(hex.terrain_type);
            }
            i += 1;
        }
        assert(next@ =~= raised(hex_map.types(), noise@, *continent, size_x));
        hex_map.retype(&next);
    }

    /// Draws the numbers that place one continent on a map of the given
    /// extent.
    pub fn draw_continent(rng: &mut StdRng, width: i64, height: i64) -> (draw: ContinentDraw)
        requires
            0 < width <= ONE * 0x1_0000_0000,
            QUARTER_RATIO <= height <= ONE * 0x1_0000_0000,
        ensures
            draw.in_range(width as int, height as int),
    {
        let x: u64 = draw_below(rng, width as u64);
        let y_share: u64 = 100_000 + draw_below(rng, 800_000);
        let jitter_x: i64 = draw_below(rng, 20_000_000) as i64 - 10_000_000;
        let jitter_y: i64 = draw_below(rng, 20_000_000) as i64 - 10_000_000;
        let shortest: u64 = (height / 4) as u64;
        let longest: u64 = (height * 2 / 5) as u64;
        let length: u64 = shortest + draw_below(rng, longest - shortest);
        ContinentDraw { x, y_share, jitter_x, jitter_y, length }
    }

    /// Generates land: small islands where the noise is high, cleaned up in
    /// three rounds, and three continents placed at random. Returns the
    /// numbers that were drawn for the continents.
    pub fn land_pass(hex_map: &mut HexMap, noise: &Vec<i32>, seed: u32) -> (draws: Vec<ContinentDraw>)
        requires
            old(hex_map).wf(),
            noise@.len() == old(hex_map).field@.len(),
        ensures
            draws@.len() == CONTINENTS,
            forall|k: int|
                0 <= k < draws@.len() ==> (#[trigger] draws@[k]).in_range(
                    old(hex_map).absolute_size_x as int,
                    old(hex_map).absolute_size_y as int,
                ),
            final(hex_map).is_retyping_of(
                old(hex_map),
                land_pass_result(
                    old(hex_map).types(),
                    noise@,
                    draws@,
                    old(hex_map).size_x as int,
                    old(hex_map).size_y as int,
                ),
            ),
            final(hex_map).wf(),
    {
        let ghost size_x = hex_map.size_x as int;
        let ghost size_y = hex_map.size_y as int;
        let ghost before = hex_map.types();
        Islands::sprout(hex_map, noise);
        smooth(hex_map, HexType::Field, HexType::Ocean);
        smooth(hex_map, HexType::Field, HexType::Ocean);
        smooth(hex_map, HexType::Field, HexType::Ocean);
        assert(hex_map.types() == islets(before, noise@, size_x, size_y));
        let mut rng = rng_from_seed(seed_to_rng_seed(seed));
        let width: i64 = hex_map.absolute_size_x;
        let height: i64 = hex_map.absolute_size_y;
        let mut draws: Vec<ContinentDraw> = Vec::new();
        let mut k: usize = 0;
        while k < CONTINENTS
            invariant
                k <= CONTINENTS,
                old(hex_map).wf(),
                hex_map.wf(),
                noise@.len() == hex_map.field@.len(),
                size_x == old(hex_map).size_x,
                size_y == old(hex_map).size_y,
                width == old(hex_map).absolute_size_x,
                height == old(hex_map).absolute_size_y,
                before == old(hex_map).types(),
                hex_map.is_retyping_of(old(hex_map), hex_map.types()),
                draws@.len() == k,
                forall|j: int|
                    0 <= j < draws@.len() ==> (#[trigger] draws@[j]).in_range(width as int, height as int),
                hex_map.types() == raised_all(
                    islets(before, noise@, size_x, size_y),
                    noise@,
                    draws@,
                    size_x,
                    size_y,
                ),
            decreases CONTINENTS - k,
        {
            let ghost entry = *hex_map;
            let ghost drawn = draws@;
            proof {
                hex_map.lemma_extent_bounds();
            }
            let draw = Islands::draw_continent(&mut rng, width, height);
            let continent = draw.place(width, height);
            Islands::raise_continent(hex_map, noise, &continent);
            draws.push(draw);
            proof {
                assert(draws@.drop_last() =~= drawn);
                assert(draws@.last() == draw);
                assert(width == absolute_width(size_x));
                assert(height == absolute_height(size_y));
                hex_map.lemma_retyping_chain(&entry, old(hex_map), hex_map.types());
            }
            k += 1;
        }
        draws
    }
}

} // verus!
