use enigmap::hex::{Hex, HexType};
use enigmap::hexmap::{HexMap, IndexOutOfRange};

/// Millionths of a length.
fn units(length: f64) -> i64 {
    (length * 1e6).round() as i64
}

#[test]
fn closest_hex() {
    let hexmap = HexMap::new(4, 4);
    assert_eq!(8, hexmap.get_closest_hex_index(units(0.6), units(1.8)));
    assert_eq!(4, hexmap.get_closest_hex_index(units(0.63), units(1.8)));
    assert_eq!((units(0.6), units(0.63), units(1.8)), (600_000, 630_000, 1_800_000));
}

#[test]
fn closest_hex_outside_the_map() {
    let hexmap = HexMap::new(4, 4);
    assert_eq!(0, hexmap.get_closest_hex_index(-5_000_000, -5_000_000));
    assert_eq!(7, hexmap.get_closest_hex_index(90_000_000, -5_000_000));
    assert_eq!(3, hexmap.get_closest_hex_index(3_600_000, -5_000_000));
    assert_eq!(15, hexmap.get_closest_hex_index(i64::MAX, i64::MAX));
    assert_eq!(12, hexmap.get_closest_hex_index(i64::MIN, i64::MAX));
    assert_eq!(0, hexmap.get_closest_hex_index(i64::MIN, i64::MIN));
    assert_eq!(15, hexmap.get_closest_hex_index_wrapped(i64::MAX, i64::MAX));
}

#[test]
fn closest_hex_takes_the_first_of_equals() {
    let hexmap = HexMap::new(4, 4);
    // halfway between the centres of the tiles 0 and 1
    assert_eq!(0, hexmap.get_closest_hex_index(1_000_000, 577_350));
    // every centre is closest to itself
    for (index, hex) in hexmap.field.iter().enumerate() {
        assert_eq!(index, hexmap.get_closest_hex_index(hex.center_x, hex.center_y));
    }
    assert_eq!(0, HexMap::new(0, 0).get_closest_hex_index(1, 1));
}

#[test]
fn new_map_has_its_extent_and_tiles() {
    let map = HexMap::new(4, 4);
    assert_eq!(map.field.len(), 16);
    assert_eq!(map.absolute_size_x, 4_500_000);
    assert_eq!(map.absolute_size_y, 3_752_775);
    assert_eq!((map.field[4].x, map.field[4].y), (0, 1));
    assert_eq!((map.field[8].x, map.field[8].y), (-1, 2));
    assert_eq!((map.field[15].x, map.field[15].y), (2, 3));
    assert_eq!((map.field[8].center_x, map.field[8].center_y), (500_000, 2_309_400));
    assert!(map.field.iter().all(|hex| hex.terrain_type == HexType::Water));
    let empty = HexMap::new(0, 7);
    assert_eq!(empty.field.len(), 0);
    assert_eq!(empty.absolute_size_x, 500_000);
}

#[test]
fn index_and_coordinates_are_inverse() {
    for (size_x, size_y) in [(1u32, 1u32), (4, 4), (7, 3), (3, 10)] {
        let map = HexMap::new(size_x, size_y);
        for i in 0..map.get_area() {
            let (x, y) = map.index_to_coords(i).unwrap();
            assert_eq!(map.coords_to_index(x, y), Ok(i as usize));
            assert_eq!((map.field[i as usize].x, map.field[i as usize].y), (x, y));
        }
        for y in -2..(size_y as i32 + 2) {
            for x in -12..12 {
                match map.coords_to_index(x, y) {
                    Ok(index) => assert_eq!(map.index_to_coords(index as u32), Ok((x, y))),
                    Err(error) => assert_eq!(error, IndexOutOfRange),
                }
            }
        }
    }
}

#[test]
fn coordinates_outside_the_map_are_refused() {
    let map = HexMap::new(4, 4);
    assert_eq!(map.coords_to_index(0, 0), Ok(0));
    assert_eq!(map.coords_to_index(3, 0), Ok(3));
    assert_eq!(map.coords_to_index(-1, 2), Ok(8));
    assert_eq!(map.coords_to_index(2, 3), Ok(15));
    assert_eq!(map.coords_to_index(4, 0), Err(IndexOutOfRange));
    assert_eq!(map.coords_to_index(-1, 0), Err(IndexOutOfRange));
    assert_eq!(map.coords_to_index(-1, 1), Err(IndexOutOfRange));
    assert_eq!(map.coords_to_index(3, 2), Err(IndexOutOfRange));
    assert_eq!(map.coords_to_index(0, 4), Err(IndexOutOfRange));
    assert_eq!(map.coords_to_index(0, -1), Err(IndexOutOfRange));
    assert_eq!(map.coords_to_index(i32::MAX, i32::MAX), Err(IndexOutOfRange));
    assert_eq!(map.coords_to_index(i32::MIN, i32::MIN), Err(IndexOutOfRange));
}

#[test]
fn indices_outside_the_map_are_refused() {
    let map = HexMap::new(4, 4);
    assert_eq!(map.index_to_coords(15), Ok((2, 3)));
    assert_eq!(map.index_to_coords(16), Err(IndexOutOfRange));
    assert_eq!(map.index_to_coords(u32::MAX), Err(IndexOutOfRange));
    assert_eq!(HexMap::new(0, 0).index_to_coords(0), Err(IndexOutOfRange));
}

#[test]
fn area_and_average_size() {
    let map = HexMap::new(7, 4);
    assert_eq!(map.get_area(), 28);
    assert_eq!(map.get_avg_size(), 5);
    let wide = HexMap::new(u32::MAX, 0);
    assert_eq!(wide.get_area(), 0);
    assert_eq!(wide.get_avg_size(), 2_147_483_647);
}

#[test]
fn tiles_are_read_and_written_by_column_and_row() {
    let mut map = HexMap::new(4, 4);
    assert_eq!((map.get_hex(0, 2).x, map.get_hex(0, 2).y), (-1, 2));
    let mut hex = Hex::from_coords(-1, 2);
    hex.terrain_type = HexType::Mountain;
    map.set_hex(0, 2, hex);
    assert_eq!(map.field[8].terrain_type, HexType::Mountain);
    map.get_hex_mut(3, 3).terrain_type = HexType::Swamp;
    assert_eq!(map.field[15].terrain_type, HexType::Swamp);
    assert_eq!(map.get_hex(3, 3).terrain_type, HexType::Swamp);
    map.set_type(1, HexType::Debug(5));
    assert_eq!(map.field[1].terrain_type, HexType::Debug(5));
    assert_eq!(map.field[0].terrain_type, HexType::Water);
}

#[test]
fn fill_and_retype_change_the_terrain_only() {
    let mut map = HexMap::new(3, 2);
    let before = map.clone();
    map.fill(HexType::Ocean);
    assert!(map.field.iter().all(|hex| hex.terrain_type == HexType::Ocean));
    let types = vec![
        HexType::Field,
        HexType::Forest,
        HexType::Desert,
        HexType::Tundra,
        HexType::Ice,
        HexType::Debug2d(1, 2),
    ];
    map.retype(&types);
    for (index, hex) in map.field.iter().enumerate() {
        assert_eq!(hex.terrain_type, types[index]);
        assert_eq!((hex.x, hex.y), (before.field[index].x, before.field[index].y));
        assert_eq!(hex.center(), before.field[index].center());
    }
    assert_eq!((map.size_x, map.size_y), (3, 2));
}

#[test]
fn neighbour_indices_follow_the_neighbours() {
    let map = HexMap::new(4, 4);
    assert_eq!(map.neighbour_indices(0), vec![4, 7, 3, 1]);
    assert_eq!(map.neighbour_indices(5), vec![10, 9, 4, 1, 2, 6]);
    assert_eq!(map.neighbour_indices(15), vec![14, 11, 8, 12]);
    let single = HexMap::new(1, 1);
    assert_eq!(single.neighbour_indices(0), vec![0, 0]);
}

#[test]
fn well_formed_maps_are_told_from_others() {
    assert!(HexMap::new(4, 4).is_well_formed());
    assert!(HexMap::new(0, 0).is_well_formed());
    assert!(HexMap::new(0, 9).is_well_formed());
    assert!(HexMap::new(7, 1).is_well_formed());
    let mut retyped = HexMap::new(3, 5);
    retyped.fill(HexType::Swamp);
    assert!(retyped.is_well_formed());
    let mut short = HexMap::new(4, 4);
    short.field.pop();
    assert!(!short.is_well_formed());
    let mut wide = HexMap::new(4, 4);
    wide.size_x = 8;
    assert!(!wide.is_well_formed());
    let mut stretched = HexMap::new(4, 4);
    stretched.absolute_size_x += 1;
    assert!(!stretched.is_well_formed());
    let mut tall = HexMap::new(4, 4);
    tall.absolute_size_y -= 1;
    assert!(!tall.is_well_formed());
    let mut moved = HexMap::new(4, 4);
    moved.set_hex(1, 1, Hex::from_coords(2, 1));
    assert!(!moved.is_well_formed());
    let mut shifted = HexMap::new(4, 4);
    shifted.get_hex_mut(2, 3).center_x += 1;
    assert!(!shifted.is_well_formed());
    let mut lowered = HexMap::new(4, 4);
    lowered.get_hex_mut(0, 0).center_y -= 1;
    assert!(!lowered.is_well_formed());
    let mut swapped = HexMap::new(4, 4);
    swapped.field.swap(0, 15);
    assert!(!swapped.is_well_formed());
    let mut huge = HexMap::new(0, 0);
    huge.size_x = u32::MAX;
    huge.size_y = u32::MAX;
    assert!(!huge.is_well_formed());
}
