use hexmap_worldgen::{
    check_dimensions, check_params, generate_grid, tile_index, wrap_hex, ConfigError,
    GeneratedTerrain, Hex, TerrainType,
};
use hexx::{HexOrientation, OffsetHexMode};

fn axial(col: i32, row: i32) -> Hex {
    let h = hexx::Hex::from_offset_coordinates([col, row], OffsetHexMode::Even, HexOrientation::Flat);
    Hex::new(h.x, h.y)
}

fn band_of(col: i32, row: i32) -> TerrainType {
    match (col * 7 + row * 3) % 4 {
        0 => TerrainType::Plains,
        1 => TerrainType::Hills,
        2 => TerrainType::Coast,
        _ => TerrainType::DeepOcean,
    }
}

#[test]
fn invalid_dimensions_are_refused() {
    assert_eq!(check_dimensions(0, 5), Err(ConfigError::NonPositiveWidth));
    assert_eq!(check_dimensions(-3, 5), Err(ConfigError::NonPositiveWidth));
    assert_eq!(check_dimensions(5, 0), Err(ConfigError::NonPositiveHeight));
    assert_eq!(check_dimensions(5, -1), Err(ConfigError::NonPositiveHeight));
    assert_eq!(check_dimensions(i32::MAX, 5), Err(ConfigError::TooLarge));
    assert_eq!(check_dimensions(5, 5), Ok(()));
}

#[test]
fn scale_is_checked_after_dimensions() {
    assert_eq!(check_params(10, 10, false), Err(ConfigError::NonPositiveScale));
    assert_eq!(check_params(0, 10, false), Err(ConfigError::NonPositiveWidth));
    assert_eq!(check_params(10, 10, true), Ok(()));
}

#[test]
fn generate_refuses_before_sampling() {
    let r = generate_grid(0, 4, |_, _| panic!("sampled"));
    assert_eq!(r.err(), Some(ConfigError::NonPositiveWidth));
    let r = generate_grid(4, -2, |_, _| panic!("sampled"));
    assert_eq!(r.err(), Some(ConfigError::NonPositiveHeight));
}

#[test]
fn generate_has_width_times_height_tiles() {
    for (w, h) in [(1, 1), (3, 2), (10, 10), (7, 5)] {
        let t = generate_grid(w, h, band_of).unwrap();
        assert_eq!(t.tiles.len(), (w * h) as usize);
        assert_eq!(t.width(), w);
        assert_eq!(t.height(), h);
    }
}

#[test]
fn generate_samples_in_column_order_with_odd_shift() {
    let t = generate_grid(3, 2, band_of).unwrap();
    let expected: Vec<TerrainType> = [(1, 2), (1, 3), (2, 1), (2, 2), (3, 2), (3, 3)]
        .iter()
        .map(|&(c, r)| band_of(c, r))
        .collect();
    assert_eq!(t.tiles, expected);
}

#[test]
fn index_to_hex_matches_offset_layout() {
    assert_eq!(GeneratedTerrain::index_to_hex(2, 0), Hex::new(1, 1));
    assert_eq!(GeneratedTerrain::index_to_hex(2, 1), Hex::new(1, 2));
    assert_eq!(GeneratedTerrain::index_to_hex(2, 2), Hex::new(2, 0));
    assert_eq!(GeneratedTerrain::index_to_hex(2, 3), Hex::new(2, 1));
    assert_eq!(GeneratedTerrain::index_to_hex(2, 4), axial(3, 2));
}

#[test]
fn index_and_hex_are_a_bijection() {
    let (w, h) = (10, 10);
    let t = generate_grid(w, h, band_of).unwrap();
    let mut seen = std::collections::HashSet::new();
    for (i, (hex, tile)) in t.tiles().into_iter().enumerate() {
        assert_eq!(t.index_of(hex), Some(i));
        assert_eq!(t.tile_at(hex), Some(tile));
        assert!(seen.insert(hex));
    }
    assert_eq!(seen.len(), 100);
}

#[test]
fn hexes_off_the_grid_have_no_index() {
    let t = generate_grid(4, 3, band_of).unwrap();
    assert_eq!(t.index_of(axial(0, 2)), None);
    assert_eq!(t.index_of(axial(5, 2)), None);
    assert_eq!(t.index_of(axial(2, 0)), None);
    assert_eq!(t.index_of(axial(2, 4)), None);
    assert_eq!(t.index_of(axial(1, 1)), None);
    assert_eq!(t.index_of(axial(1, 2)), Some(0));
    assert_eq!(t.index_of(Hex::new(i32::MAX, i32::MIN)), None);
    assert_eq!(tile_index(4, 3, axial(2, 3)), Some(5));
}

#[test]
fn generation_is_reproducible() {
    let seeded = |seed: i32| move |c: i32, r: i32| band_of(c + seed, r * seed);
    let a = generate_grid(10, 10, seeded(42)).unwrap();
    let b = generate_grid(10, 10, seeded(42)).unwrap();
    assert_eq!(a.tiles, b.tiles);
}

#[test]
fn wrap_brings_columns_back() {
    let w = 6;
    assert_eq!(wrap_hex(w, axial(0, 3)), axial(6, 3));
    assert_eq!(wrap_hex(w, axial(7, 3)), axial(1, 3));
    assert_eq!(wrap_hex(w, axial(-1, 2)), axial(5, 2));
    assert_eq!(wrap_hex(w, axial(3, 4)), axial(3, 4));
}

#[test]
fn habitable_lookup() {
    let t = GeneratedTerrain::new(
        2,
        1,
        vec![TerrainType::Plains, TerrainType::ShallowOcean],
    );
    assert!(t.is_habitable_at(axial(1, 2)));
    assert!(!t.is_habitable_at(axial(2, 1)));
    assert!(!t.is_habitable_at(axial(3, 1)));
}

#[test]
fn oversized_grids_are_refused() {
    let r = generate_grid(300_000_000, 2, band_of);
    assert_eq!(r.err(), Some(ConfigError::TooLarge));
    let r = generate_grid(2, 300_000_000, band_of);
    assert_eq!(r.err(), Some(ConfigError::TooLarge));
}
