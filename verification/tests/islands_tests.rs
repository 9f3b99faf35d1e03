use enigmap::generators::islands::decorator::climate_of;
use enigmap::generators::islands::ice::icy;
use enigmap::generators::islands::land::{in_continent, Continent, ContinentDraw, CONTINENTS};
use enigmap::generators::islands::{Islands, NoiseSamples};
use enigmap::generators::{clear_pass, seed_to_rng_seed, smooth, snapshot_types};
use enigmap::hex::HexType;
use enigmap::hexmap::HexMap;
use rand::rngs::StdRng;
use rand::SeedableRng;

fn map_of(size_x: u32, size_y: u32, rows: &[&str]) -> HexMap {
    let mut map = HexMap::new(size_x, size_y);
    let types: Vec<HexType> = rows
        .iter()
        .flat_map(|row| row.chars())
        .map(|c| match c {
            'o' => HexType::Ocean,
            'i' => HexType::Ice,
            'f' => HexType::Field,
            'd' => HexType::Desert,
            'j' => HexType::Jungle,
            'm' => HexType::Mountain,
            't' => HexType::Tundra,
            'r' => HexType::Forest,
            _ => HexType::Water,
        })
        .collect();
    map.retype(&types);
    map
}

fn types_of(map: &HexMap) -> Vec<HexType> {
    snapshot_types(map)
}

/// Samples between -1 and 1 from a small congruential generator.
fn samples(seed: u64, len: usize) -> Vec<i32> {
    let mut state = seed.wrapping_mul(6364136223846793005).wrapping_add(1442695040888963407);
    (0..len)
        .map(|_| {
            state = state.wrapping_mul(6364136223846793005).wrapping_add(1442695040888963407);
            ((state >> 33) % 2_000_001) as i32 - 1_000_000
        })
        .collect()
}

fn noise_for(seed: u64, len: usize) -> NoiseSamples {
    NoiseSamples {
        ice: samples(seed, len),
        land: samples(seed + 1, len),
        climate: samples(seed + 2, len),
        wind_x: samples(seed + 3, len),
        wind_y: samples(seed + 4, len),
    }
}

fn flat_noise(len: usize) -> NoiseSamples {
    NoiseSamples {
        ice: vec![0; len],
        land: vec![0; len],
        climate: vec![0; len],
        wind_x: vec![0; len],
        wind_y: vec![0; len],
    }
}

#[test]
fn default_islands_draw_their_seed() {
    let mut generator = Islands::default();
    assert_eq!(generator.seed, 0);
    assert!(!generator.using_seed);
    assert_eq!(generator.ocean_distance, 5);
    generator.set_seed(99);
    assert!(generator.using_seed);
    assert_eq!(generator.seed, 99);
    assert_eq!(generator.resolve_seed(), 99);
    generator.reset_seed();
    assert!(!generator.using_seed);
    assert_eq!(generator.seed, 99);
    assert_eq!(generator.ocean_distance, 5);
    let _ = generator.resolve_seed();
}

#[test]
fn ice_needs_the_edge_or_low_noise() {
    assert!(icy(10, 1000, 0));
    assert!(!icy(100, 1000, 0));
    assert!(icy(100, 1000, -3_000_000));
    // exactly 0.12 of the height is not below it
    assert!(!icy(60, 1000, 0));
    assert!(!icy(60, 1000, 1));
    assert!(icy(60, 1000, -1));
    assert!(icy(940, 1000, -1));
    assert!(!icy(940, 1000, 0));
    // the rule holds for all numbers
    assert!(!icy(i64::MAX, i64::MAX, i32::MAX));
    assert!(icy(i64::MIN, i64::MAX, i32::MIN));
    assert!(icy(0, 1, 0));
    assert!(icy(5, -10, 0));
    assert!(icy(i64::MAX, 1, i32::MIN));
}

#[test]
fn ice_pass_freezes_top_and_bottom_rows() {
    let mut map = HexMap::new(4, 4);
    map.fill(HexType::Ocean);
    Islands::ice_pass(&mut map, &vec![0; 16]);
    assert_eq!(types_of(&map), types_of(&map_of(4, 4, &["iiii", "oooo", "oooo", "iiii"])));
    for seed in 0..20 {
        let mut noisy = HexMap::new(4, 4);
        noisy.fill(HexType::Ocean);
        Islands::ice_pass(&mut noisy, &samples(seed, 16));
        for index in [0, 1, 2, 3, 12, 13, 14, 15] {
            assert_eq!(noisy.field[index].terrain_type, HexType::Ice);
        }
    }
}

#[test]
fn ice_pass_follows_the_noise_near_the_edges() {
    // 30 rows: the rows 1 and 28 lie 0.0659 of the height from the edges
    let mut calm = HexMap::new(6, 30);
    calm.fill(HexType::Ocean);
    Islands::ice_pass(&mut calm, &vec![0; 180]);
    for (index, hex) in calm.field.iter().enumerate() {
        let row = index / 6;
        let frozen = row <= 1 || row >= 28;
        assert_eq!(hex.terrain_type == HexType::Ice, frozen);
    }
    let mut warm = HexMap::new(6, 30);
    warm.fill(HexType::Ocean);
    Islands::ice_pass(&mut warm, &vec![2_000_000; 180]);
    for (index, hex) in warm.field.iter().enumerate() {
        let row = index / 6;
        assert_eq!(hex.terrain_type == HexType::Ice, row == 0 || row == 29);
    }
}

#[test]
fn smoothing_cleans_both_ways() {
    let mut map = map_of(5, 5, &["ooooo", "ooooo", "oofoo", "ooooo", "ooooo"]);
    smooth(&mut map, HexType::Field, HexType::Ocean);
    assert!(map.field.iter().all(|hex| hex.terrain_type == HexType::Ocean));
    let mut lake = map_of(5, 5, &["fffff", "fffff", "ffoff", "fffff", "fffff"]);
    let mut expected = map_of(5, 5, &["fffff", "fffff", "ffoff", "fffff", "fffff"]);
    smooth(&mut lake, HexType::Field, HexType::Ocean);
    clear_pass(&mut expected, HexType::Field, HexType::Ocean, 3);
    clear_pass(&mut expected, HexType::Ocean, HexType::Field, 3);
    assert_eq!(types_of(&lake), types_of(&expected));
    assert!(lake.field.iter().all(|hex| hex.terrain_type == HexType::Field));
}

#[test]
fn land_sprouts_where_the_noise_is_high() {
    let mut map = map_of(3, 2, &["oio", "ofo"]);
    Islands::sprout(&mut map, &vec![360_001, 900_000, 360_000, -5, 0, 1_000_000]);
    assert_eq!(types_of(&map), types_of(&map_of(3, 2, &["fio", "off"])));
}

#[test]
fn a_continent_is_placed_by_its_draw() {
    let map = HexMap::new(10, 10);
    assert_eq!((map.absolute_size_x, map.absolute_size_y), (10_500_000, 8_948_925));
    let level = ContinentDraw { x: 2_000_000, y_share: 500_000, jitter_x: 0, jitter_y: 0, length: 3_000_000 };
    let continent = level.place(10_500_000, 8_948_925);
    assert_eq!(continent.first, (2_000_000, 4_474_462));
    assert_eq!(continent.second, (5_000_000, 4_474_462));
    assert_eq!(continent.middle, (3_500_000, 4_474_462));
    let slanted = ContinentDraw {
        x: 9_000_000,
        y_share: 100_000,
        jitter_x: -10_000_000,
        jitter_y: 9_999_999,
        length: 2_237_231,
    };
    let continent = slanted.place(10_500_000, 8_948_925);
    assert_eq!(continent.first, (9_000_000, 894_892));
    assert_eq!(continent.second, (7_408_205, 2_466_957));
    assert_eq!(continent.middle, (8_204_102, 1_680_924));
    let upward = ContinentDraw { x: 5_250_000, y_share: 500_000, jitter_x: 0, jitter_y: -3, length: 3_000_000 };
    let continent = upward.place(10_500_000, 8_948_925);
    assert_eq!(continent.second, (5_250_000, 1_474_462));
    assert_eq!(continent.middle, (5_250_000, 2_974_462));
}

#[test]
fn a_continent_without_direction_stays_at_its_first_focus() {
    let draw = ContinentDraw { x: 5_250_000, y_share: 500_000, jitter_x: 0, jitter_y: 0, length: 3_000_000 };
    let continent = draw.place(10_500_000, 8_948_924);
    assert_eq!(continent.first, (5_250_000, 4_474_462));
    assert_eq!(continent.second, continent.first);
    assert_eq!(continent.middle, continent.first);
}

#[test]
fn land_reaches_farther_where_the_noise_is_low() {
    let continent = Continent {
        first: (2_000_000, 4_474_462),
        second: (5_000_000, 4_474_462),
        middle: (3_500_000, 4_474_462),
    };
    let width = 10_500_000;
    assert!(in_continent(2_000_000, 4_500_000, 0, &continent, width));
    assert!(!in_continent(2_420_000, 4_500_000, 0, &continent, width));
    assert!(!in_continent(2_419_999, 4_500_000, 0, &continent, width));
    // no reach at all where the noise is 4/3 or more
    assert!(!in_continent(2_000_000, 4_474_462, 1_400_000, &continent, width));
    assert!(!in_continent(2_000_000, 4_474_462, 1_333_334, &continent, width));
    assert!(!in_continent(2_000_000, 4_474_462, 1_333_332, &continent, width));
    assert!(in_continent(2_000_000, 4_474_462, 1_333_330, &continent, width));
    assert!(!in_continent(2_000_000, 4_474_463, 1_333_330, &continent, width));
    // the middle reaches 1/0.6 times as far as the foci
    assert!(in_continent(4_199_999, 4_474_462, 0, &continent, width));
    assert!(!in_continent(4_200_000, 4_474_462, 0, &continent, width));
    assert!(!in_continent(100_000, 100_000, -5_000_000, &continent, width));
    assert!(in_continent(100_000, 100_000, i32::MIN, &continent, width));
}

#[test]
fn raising_a_continent_turns_ocean_into_land() {
    let mut map = HexMap::new(10, 10);
    map.fill(HexType::Ocean);
    map.set_type(45, HexType::Ice);
    let continent = Continent {
        first: (2_000_000, 4_474_462),
        second: (5_000_000, 4_474_462),
        middle: (3_500_000, 4_474_462),
    };
    let noise = vec![0; 100];
    Islands::raise_continent(&mut map, &noise, &continent);
    for (index, hex) in map.field.iter().enumerate() {
        let inside = in_continent(hex.center_x, hex.center_y, 0, &continent, map.absolute_size_x);
        let expected = if index == 45 {
            HexType::Ice
        } else if inside {
            HexType::Field
        } else {
            HexType::Ocean
        };
        assert_eq!(hex.terrain_type, expected);
    }
    let land: Vec<usize> = (0..100).filter(|&i| map.field[i].terrain_type == HexType::Field).collect();
    assert_eq!(land, vec![43, 52, 53]);
}

#[test]
fn drawn_continents_are_in_range() {
    let mut rng = StdRng::from_seed(seed_to_rng_seed(5));
    for _ in 0..200 {
        let draw = Islands::draw_continent(&mut rng, 10_500_000, 8_948_925);
        assert!(draw.x < 10_500_000);
        assert!(draw.y_share >= 100_000 && draw.y_share < 900_000);
        assert!(draw.jitter_x >= -10_000_000 && draw.jitter_x < 10_000_000);
        assert!(draw.jitter_y >= -10_000_000 && draw.jitter_y < 10_000_000);
        assert!(draw.length >= 2_237_231 && draw.length < 3_579_570);
    }
}

#[test]
fn land_pass_is_sprouting_smoothing_and_raising() {
    let noise = samples(77, 30 * 20);
    let mut map = HexMap::new(30, 20);
    map.fill(HexType::Ocean);
    let mut expected = map.clone();
    let draws = Islands::land_pass(&mut map, &noise, 1234);
    assert_eq!(draws.len(), CONTINENTS);
    assert_eq!(CONTINENTS, 3);
    Islands::sprout(&mut expected, &noise);
    for _ in 0..3 {
        smooth(&mut expected, HexType::Field, HexType::Ocean);
    }
    for draw in &draws {
        let continent = draw.place(expected.absolute_size_x, expected.absolute_size_y);
        Islands::raise_continent(&mut expected, &noise, &continent);
    }
    assert_eq!(types_of(&map), types_of(&expected));
    assert!(map.field.iter().any(|hex| hex.terrain_type == HexType::Field));
    let mut again = HexMap::new(30, 20);
    again.fill(HexType::Ocean);
    let same = Islands::land_pass(&mut again, &noise, 1234);
    assert_eq!(types_of(&map), types_of(&again));
    assert_eq!(same[0].x, draws[0].x);
    assert_eq!(same[2].length, draws[2].length);
}

#[test]
fn climate_follows_the_latitude() {
    assert_eq!(climate_of(500, 1000, 0), HexType::Desert);
    assert_eq!(climate_of(500, 1000, -700_000), HexType::Field);
    assert_eq!(climate_of(200, 1000, 0), HexType::Forest);
    assert_eq!(climate_of(100, 1000, 0), HexType::Tundra);
    assert_eq!(climate_of(107, 1000, 0), HexType::Tundra);
    assert_eq!(climate_of(108, 1000, 0), HexType::Forest);
    assert_eq!(climate_of(321, 1000, 0), HexType::Forest);
    assert_eq!(climate_of(322, 1000, 0), HexType::Field);
    assert_eq!(climate_of(392, 1000, 0), HexType::Field);
    assert_eq!(climate_of(393, 1000, 0), HexType::Desert);
    assert_eq!(climate_of(900, 1000, 0), HexType::Tundra);
    assert_eq!(climate_of(200, 1000, -600_000), HexType::Field);
    assert_eq!(climate_of(200, 1000, -599_999), HexType::Forest);
    assert_eq!(climate_of(i64::MAX, i64::MAX, i32::MAX), HexType::Desert);
    assert_eq!(climate_of(i64::MIN, i64::MAX, i32::MIN), HexType::Tundra);
    assert_eq!(climate_of(5, -10, 0), HexType::Tundra);
}

#[test]
fn rolls_are_drawn_for_fields_only() {
    let map = map_of(4, 2, &["ffof", "iffw"]);
    let mut rng = StdRng::from_seed(seed_to_rng_seed(3));
    let rolls = Islands::draw_rolls(&map, &mut rng);
    assert_eq!(rolls.len(), 8);
    assert_eq!((rolls[2], rolls[4], rolls[7]), (0, 0, 0));
    assert!(rolls.iter().all(|&roll| roll < 1_000_000));
    let big = {
        let mut fields = HexMap::new(40, 40);
        fields.fill(HexType::Field);
        fields
    };
    let many = Islands::draw_rolls(&big, &mut rng);
    assert!(many.iter().all(|&roll| roll < 1_000_000));
    assert!(many.iter().any(|&roll| roll > 900_000));
    assert!(many.iter().any(|&roll| roll < 100_000));
}

#[test]
fn fields_become_mountains_or_get_their_climate() {
    // ten rows: the centres lie at 2/31, 5/31, ... of the height
    let mut map = HexMap::new(1, 10);
    map.fill(HexType::Field);
    map.set_type(9, HexType::Ocean);
    let mut rolls = vec![40_000; 10];
    rolls[5] = 39_999;
    rolls[9] = 0;
    Islands::paint_climate(&mut map, &vec![0; 10], &rolls);
    assert_eq!(
        types_of(&map),
        vec![
            HexType::Tundra,
            HexType::Forest,
            HexType::Forest,
            HexType::Field,
            HexType::Desert,
            HexType::Mountain,
            HexType::Field,
            HexType::Forest,
            HexType::Forest,
            HexType::Ocean,
        ]
    );
}

#[test]
fn deserts_downwind_of_water_become_jungle() {
    // a row of ten tiles on a map of 10 by 10: the wind carries two tile widths
    let rows = [
        "iiiiiiiiii", "oooooooooo", "oooooooooo", "oooooooooo", "oodddddddo", "oooooooooo", "oooooooooo",
        "oooooooooo", "oooooooooo", "iiiiiiiiii",
    ];
    let mut west = map_of(10, 10, &rows);
    Islands::moisten(&mut west, &vec![-1; 100], &vec![0; 100]);
    assert_eq!(&types_of(&west)[40..50], &types_of(&map_of(10, 1, &["oojjdddddo"]))[..]);
    let mut east = map_of(10, 10, &rows);
    Islands::moisten(&mut east, &vec![1_000_000; 100], &vec![0; 100]);
    assert_eq!(&types_of(&east)[40..50], &types_of(&map_of(10, 1, &["oodddddjjo"]))[..]);
    let mut calm = map_of(10, 10, &rows);
    Islands::moisten(&mut calm, &vec![0; 100], &vec![0; 100]);
    assert_eq!(types_of(&calm), types_of(&map_of(10, 10, &rows)));
    let mut south = map_of(10, 10, &rows);
    Islands::moisten(&mut south, &vec![0; 100], &vec![5; 100]);
    assert_eq!(&types_of(&south)[40..50], &types_of(&map_of(10, 1, &["oojjjjjjjo"]))[..]);
}

#[test]
fn decorator_pass_is_painting_and_moistening() {
    let noise = noise_for(5, 400);
    let mut map = HexMap::new(20, 20);
    map.fill(HexType::Field);
    for index in 0..100 {
        map.set_type(index * 3, HexType::Ocean);
    }
    let mut expected = map.clone();
    let rolls = Islands::decorator_pass(&mut map, &noise, 8);
    assert_eq!(rolls.len(), 400);
    Islands::paint_climate(&mut expected, &noise.climate, &rolls);
    Islands::moisten(&mut expected, &noise.wind_x, &noise.wind_y);
    assert_eq!(types_of(&map), types_of(&expected));
    assert!(map.field.iter().all(|hex| hex.terrain_type != HexType::Ice));
    let mountains = map.field.iter().filter(|hex| hex.terrain_type == HexType::Mountain).count();
    assert_eq!(mountains, rolls.iter().enumerate().filter(|(i, &roll)| roll < 40_000 && (i % 3 != 0 || *i >= 300)).count());
}

#[test]
fn land_is_found_and_measured() {
    let map = map_of(7, 5, &["ooooooo", "ooooooo", "ooofooo", "ooooooo", "oowoooi"]);
    let types = types_of(&map);
    assert!(Islands::any_land(&types));
    assert!(!Islands::any_land(&types_of(&map_of(3, 1, &["owi"]))));
    assert!(!Islands::any_land(&vec![]));
    assert_eq!(Islands::nearest_land(&map, &types, 16, 5), Some(1));
    assert_eq!(Islands::nearest_land(&map, &types, 14, 5), Some(3));
    assert_eq!(Islands::nearest_land(&map, &types, 0, 5), Some(4));
    assert_eq!(Islands::nearest_land(&map, &types, 0, 2), Some(4));
    assert_eq!(Islands::nearest_land(&map, &types, 0, 1), None);
    assert_eq!(Islands::nearest_land(&map, &types, 34, 0), None);
    assert_eq!(Islands::nearest_land(&map, &types, 17, 0), Some(0));
    assert_eq!(Islands::nearest_land(&map, &types, 20, 0), Some(3));
}

#[test]
fn ocean_pass_floods_the_coast() {
    let rows = ["ooooooo", "ooooooo", "ooofooo", "ooooooo", "ooooooo"];
    let mut generator = Islands::default();
    generator.ocean_distance = 2;
    // the noise gate is shut: one ring of water
    let mut shut = map_of(7, 5, &rows);
    generator.ocean_pass(&mut shut, &vec![139_999; 35]);
    assert_eq!(
        types_of(&shut),
        types_of(&map_of(7, 5, &["ooooooo", "oowwooo", "oowfwoo", "oowwooo", "ooooooo"]))
    );
    // the noise gate is open: water up to the ocean distance
    let mut open = map_of(7, 5, &rows);
    generator.ocean_pass(&mut open, &vec![140_000; 35]);
    assert_eq!(
        types_of(&open),
        types_of(&map_of(7, 5, &["oowwwoo", "owwwwoo", "owwfwwo", "owwwwoo", "oowwwoo"]))
    );
    // without an ocean distance only the own row is searched
    generator.ocean_distance = 0;
    let mut narrow = map_of(7, 5, &rows);
    generator.ocean_pass(&mut narrow, &vec![140_000; 35]);
    assert_eq!(
        types_of(&narrow),
        types_of(&map_of(7, 5, &["ooooooo", "ooooooo", "oowfwoo", "ooooooo", "ooooooo"]))
    );
}

#[test]
fn ocean_pass_leaves_a_map_without_land_alone() {
    let rows = ["iiii", "owoo", "oooo", "iiii"];
    let mut map = map_of(4, 4, &rows);
    Islands::default().ocean_pass(&mut map, &vec![1_000_000; 16]);
    assert_eq!(types_of(&map), types_of(&map_of(4, 4, &rows)));
}

#[test]
fn generated_islands_keep_frozen_edges() {
    let generator = Islands::default();
    for (size_x, size_y, seed) in [(4u32, 4u32, 1u32), (30, 20, 2), (1, 1, 3), (7, 2, 4), (25, 40, 5)] {
        let area = (size_x * size_y) as usize;
        let mut map = HexMap::new(size_x, size_y);
        generator.generate_with(&mut map, seed, &noise_for(seed as u64, area));
        for (index, hex) in map.field.iter().enumerate() {
            let row = index / size_x as usize;
            if row == 0 || row == size_y as usize - 1 {
                assert_eq!(hex.terrain_type, HexType::Ice);
            }
            assert!(matches!(
                hex.terrain_type,
                HexType::Ice
                    | HexType::Ocean
                    | HexType::Water
                    | HexType::Field
                    | HexType::Mountain
                    | HexType::Tundra
                    | HexType::Forest
                    | HexType::Desert
                    | HexType::Jungle
            ));
        }
    }
    let mut empty = HexMap::new(0, 0);
    generator.generate_with(&mut empty, 1, &flat_noise(0));
    assert!(empty.field.is_empty());
}

#[test]
fn generated_islands_have_land_and_coast() {
    let generator = Islands::default();
    let mut map = HexMap::new(60, 40);
    generator.generate_with(&mut map, 7, &flat_noise(2400));
    let count = |terrain: HexType| map.field.iter().filter(|hex| hex.terrain_type == terrain).count();
    assert!(count(HexType::Ice) >= 120);
    assert!(count(HexType::Water) > 0);
    assert!(count(HexType::Ocean) > 0);
    let land = map
        .field
        .iter()
        .filter(|hex| !matches!(hex.terrain_type, HexType::Ice | HexType::Water | HexType::Ocean))
        .count();
    assert!(land > 0);
    // no ocean touches land
    let types = types_of(&map);
    for index in 0..types.len() {
        if types[index] == HexType::Ocean {
            for neighbour in map.neighbour_indices(index) {
                assert!(matches!(types[neighbour], HexType::Ice | HexType::Water | HexType::Ocean));
            }
        }
    }
}

#[test]
fn same_seed_gives_the_same_islands() {
    let generator = Islands::default();
    let noise = noise_for(21, 1500);
    let mut first = HexMap::new(50, 30);
    let mut second = HexMap::new(50, 30);
    generator.generate_with(&mut first, 314, &noise);
    // the terrain before the run does not matter
    second.fill(HexType::Swamp);
    generator.generate_with(&mut second, 314, &noise);
    assert_eq!(types_of(&first), types_of(&second));
    let mut third = HexMap::new(50, 30);
    generator.generate_with(&mut third, 315, &noise);
    assert_ne!(types_of(&first), types_of(&third));
}
