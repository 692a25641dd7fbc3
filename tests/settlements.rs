use hexmap_worldgen::{
    partition_zones, point_to_hex, settlement_hexes, settlement_site, GeneratedTerrain, Hex,
    SettlementParams, TerrainType,
};
use hexx::{HexOrientation, OffsetHexMode};

fn at(col: i32, row: i32) -> Hex {
    let h = hexx::Hex::from_offset_coordinates([col, row], OffsetHexMode::Even, HexOrientation::Flat);
    Hex::new(h.x, h.y)
}

fn checkerboard(w: i32, h: i32) -> GeneratedTerrain {
    let tiles = (0..(w * h) as usize)
        .map(|i| if i % 3 == 0 { TerrainType::Plains } else { TerrainType::Coast })
        .collect();
    GeneratedTerrain::new(w, h, tiles)
}

#[test]
fn params_keep_their_seed() {
    assert_eq!(SettlementParams::new(77).seed, 77);
    assert_eq!(SettlementParams::new(u32::MAX).seed, u32::MAX);
}

#[test]
fn points_map_to_their_column_and_row() {
    assert_eq!(point_to_hex(10, 8, 0, 0), at(1, 2));
    assert_eq!(point_to_hex(10, 8, 1, 0), at(2, 1));
    assert_eq!(point_to_hex(10, 8, 4, 5), at(5, 7));
    assert_eq!(point_to_hex(10, 8, 9, 7), at(10, 8));
}

#[test]
fn points_are_clamped_to_the_grid() {
    assert_eq!(point_to_hex(10, 8, -4, -9), at(1, 2));
    assert_eq!(point_to_hex(10, 8, 50, 50), at(11, 10));
    assert_eq!(point_to_hex(10, 8, 3, 50), at(4, 9));
}

#[test]
fn points_inside_stand_for_their_tile() {
    let t = checkerboard(6, 4);
    for x in 0..6 {
        for y in 0..4 {
            let h = point_to_hex(6, 4, x, y);
            assert_eq!(t.index_of(h), Some((x * 4 + y) as usize));
        }
    }
}

#[test]
fn sites_only_on_habitable_tiles() {
    let t = checkerboard(6, 4);
    let mut accepted = Vec::new();
    for x in 0..6 {
        for y in 0..4 {
            let i = (x * 4 + y) as usize;
            match settlement_site(&t, x, y) {
                Some(h) => {
                    assert!(t.tiles[i].is_habitable());
                    assert_eq!(h, point_to_hex(6, 4, x, y));
                    accepted.push((x, y));
                }
                None => assert!(!t.tiles[i].is_habitable()),
            }
        }
    }
    assert_eq!(accepted.len(), 8);
    for h in settlement_hexes(&t, &accepted) {
        assert!(t.is_habitable_at(h));
    }
}

#[test]
fn hexes_follow_points_in_order() {
    let t = checkerboard(6, 4);
    let hexes = settlement_hexes(&t, &vec![(2, 1), (0, 0), (5, 2), (5, 1)]);
    assert_eq!(hexes, vec![at(3, 3), at(1, 2), at(6, 2)]);
}

#[test]
fn uninhabitable_points_are_dropped() {
    let t = checkerboard(6, 4);
    let points = vec![(0, 1), (1, 0), (0, 3), (9, 9), (-2, 0)];
    let hexes = settlement_hexes(&t, &points);
    assert_eq!(hexes, vec![at(1, 5), at(1, 2)]);
    for h in &hexes {
        assert!(t.is_habitable_at(*h));
    }
}

#[test]
fn ocean_world_has_no_settlements_and_no_zones() {
    let t = GeneratedTerrain::new(5, 5, vec![TerrainType::DeepOcean; 25]);
    let mut accepted = Vec::new();
    for x in -1..7 {
        for y in -1..7 {
            if settlement_site(&t, x, y).is_some() {
                accepted.push((x, y));
            }
        }
    }
    assert!(accepted.is_empty());
    let settlements = settlement_hexes(&t, &accepted);
    assert!(settlements.is_empty());
    let zones = partition_zones(&t, &settlements);
    assert!(zones.is_empty());
}
