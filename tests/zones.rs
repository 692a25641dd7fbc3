use hexmap_worldgen::{partition_zones, GeneratedTerrain, Hex, TerrainType, ZoneMap};
use hexx::{HexOrientation, OffsetHexMode};

fn cell(col: i32, row: i32) -> Hex {
    let h = hexx::Hex::from_offset_coordinates([col, row], OffsetHexMode::Even, HexOrientation::Flat);
    Hex::new(h.x, h.y)
}

fn cost_of(t: TerrainType) -> u64 {
    match t {
        TerrainType::DeepOcean => 500,
        TerrainType::ShallowOcean => 100,
        TerrainType::Coast => 50,
        TerrainType::Beach => 2,
        TerrainType::Plains => 2,
        TerrainType::Hills => 3,
        TerrainType::LowMountains => 100,
        TerrainType::HighMountains => 500,
        TerrainType::Peaks => 1000,
    }
}

/// The tile indices next to tile `i`, found with hexx alone.
fn oracle_neighbours(w: i32, h: i32, i: usize) -> Vec<usize> {
    let col = i as i32 / h + 1;
    let mut row = i as i32 % h + 1;
    if col % 2 == 1 {
        row += 1;
    }
    let hex = hexx::Hex::from_offset_coordinates([col, row], OffsetHexMode::Even, HexOrientation::Flat);
    let mut out = Vec::new();
    for n in hex.all_neighbors() {
        let [mut c, r] = n.to_offset_coordinates(OffsetHexMode::Even, HexOrientation::Flat);
        if c <= 0 {
            c += w;
        } else if c > w {
            c -= w;
        }
        let shift = if c % 2 == 1 { 1 } else { 0 };
        let rr = r - 1 - shift;
        if c >= 1 && c <= w && rr >= 0 && rr < h {
            out.push(((c - 1) * h + rr) as usize);
        }
    }
    out
}

/// Cheapest walk costs from the given source tiles, by repeated relaxation.
fn oracle_costs(t: &GeneratedTerrain, sources: &[usize]) -> Vec<Option<u64>> {
    let n = t.tiles.len();
    let mut best: Vec<Option<u64>> = vec![None; n];
    for &s in sources {
        best[s] = Some(1);
    }
    loop {
        let mut changed = false;
        for u in 0..n {
            if let Some(cu) = best[u] {
                for v in oracle_neighbours(t.width, t.height, u) {
                    let next = cost_of(t.tiles[v]);
                    let this = cost_of(t.tiles[u]);
                    let step = if next > this { next } else { next / 2 };
                    if best[v].map_or(true, |cv| cu + step < cv) {
                        best[v] = Some(cu + step);
                        changed = true;
                    }
                }
            }
        }
        if !changed {
            return best;
        }
    }
}

fn check_against_oracle(t: &GeneratedTerrain, settlements: &Vec<Hex>, zones: &ZoneMap) {
    let sources: Vec<usize> = settlements.iter().map(|h| t.index_of(*h).unwrap()).collect();
    let all = oracle_costs(t, &sources);
    for v in 0..t.tiles.len() {
        match (all[v], zones.entries[v]) {
            (None, None) => {}
            (Some(c), Some(z)) => {
                assert_eq!(z.cost, c, "tile {}", v);
                let own = oracle_costs(t, &[sources[z.zone]]);
                assert_eq!(own[v], Some(c), "tile {} zone {}", v, z.zone);
            }
            (a, b) => panic!("tile {}: oracle {:?}, partition {:?}", v, a, b),
        }
    }
}

fn mixed(w: i32, h: i32) -> GeneratedTerrain {
    let kinds = [
        TerrainType::Plains,
        TerrainType::Hills,
        TerrainType::Plains,
        TerrainType::Coast,
        TerrainType::ShallowOcean,
        TerrainType::Plains,
        TerrainType::LowMountains,
        TerrainType::Beach,
        TerrainType::DeepOcean,
        TerrainType::Peaks,
        TerrainType::Hills,
    ];
    let tiles = (0..(w * h) as usize).map(|i| kinds[(i * 7 + 3) % kinds.len()]).collect();
    GeneratedTerrain::new(w, h, tiles)
}

fn uniform(w: i32, h: i32, t: TerrainType) -> GeneratedTerrain {
    GeneratedTerrain::new(w, h, vec![t; (w * h) as usize])
}

#[test]
fn settlements_cost_one_and_own_their_tile() {
    let t = mixed(5, 5);
    let settlements = vec![cell(1, 2), cell(4, 3)];
    let zones = partition_zones(&t, &settlements);
    for (j, s) in settlements.iter().enumerate() {
        let z = zones.get(*s).unwrap();
        assert_eq!(z.cost, 1);
        assert_eq!(z.zone, j);
    }
}

#[test]
fn costs_match_brute_force_on_small_grid() {
    let t = mixed(5, 5);
    let settlements = vec![cell(1, 2), cell(4, 3)];
    let zones = partition_zones(&t, &settlements);
    check_against_oracle(&t, &settlements, &zones);
    assert_eq!(zones.len(), 25);
}

#[test]
fn costs_match_brute_force_with_three_settlements() {
    let t = mixed(8, 6);
    let settlements = vec![cell(2, 2), cell(8, 6), cell(5, 4)];
    let zones = partition_zones(&t, &settlements);
    check_against_oracle(&t, &settlements, &zones);
}

#[test]
fn uniform_grid_costs_grow_by_one_per_step() {
    let t = uniform(4, 4, TerrainType::Plains);
    let settlements = vec![cell(1, 2)];
    let zones = partition_zones(&t, &settlements);
    assert_eq!(zones.get(cell(1, 3)).unwrap().cost, 2);
    assert_eq!(zones.get(cell(2, 1)).unwrap().cost, 2);
    assert_eq!(zones.get(cell(4, 1)).unwrap().cost, 2);
    assert_eq!(zones.get(cell(3, 3)).unwrap().cost, 3);
    check_against_oracle(&t, &settlements, &zones);
}

#[test]
fn opposite_corners_split_uniform_grid() {
    let t = uniform(4, 4, TerrainType::Plains);
    let a = cell(1, 2);
    let b = cell(4, 4);
    let settlements = vec![a, b];
    let zones = partition_zones(&t, &settlements);
    let ia = t.index_of(a).unwrap();
    let ib = t.index_of(b).unwrap();
    let da = oracle_costs(&t, &[ia]);
    let db = oracle_costs(&t, &[ib]);
    for v in 0..16 {
        let z = zones.entries[v].unwrap();
        let (ca, cb) = (da[v].unwrap(), db[v].unwrap());
        assert_eq!(z.cost, ca.min(cb));
        if ca < cb {
            assert_eq!(z.zone, 0, "tile {}", v);
        } else if cb < ca {
            assert_eq!(z.zone, 1, "tile {}", v);
        }
    }
    let zone_a = zones.entries.iter().filter(|z| z.unwrap().zone == 0).count();
    assert!(zone_a > 0 && zone_a < 16);
}

#[test]
fn first_and_last_columns_are_neighbours() {
    let t = uniform(6, 3, TerrainType::Plains);
    let settlements = vec![cell(1, 3)];
    let zones = partition_zones(&t, &settlements);
    assert_eq!(zones.get(cell(6, 2)).unwrap().cost, 2);
    assert_eq!(zones.get(cell(6, 3)).unwrap().cost, 2);
    let back = partition_zones(&t, &vec![cell(6, 2)]);
    assert_eq!(back.get(cell(1, 3)).unwrap().cost, 2);
}

#[test]
fn entering_dearer_terrain_costs_full_price() {
    let mut tiles = vec![TerrainType::Plains; 4];
    tiles[1] = TerrainType::Hills;
    let t = GeneratedTerrain::new(1, 4, tiles);
    let zones = partition_zones(&t, &vec![cell(1, 2)]);
    assert_eq!(zones.entries[1].unwrap().cost, 1 + 3);
    assert_eq!(zones.entries[2].unwrap().cost, 1 + 3 + 1);
    assert_eq!(zones.entries[3].unwrap().cost, 1 + 3 + 1 + 1);
}

#[test]
fn no_settlements_give_an_empty_map() {
    let t = uniform(5, 5, TerrainType::DeepOcean);
    let zones = partition_zones(&t, &Vec::new());
    assert!(zones.is_empty());
    assert_eq!(zones.len(), 0);
    assert!(zones.entries.iter().all(|z| z.is_none()));
}

#[test]
fn lookups_off_the_map_find_nothing() {
    let t = uniform(3, 3, TerrainType::Plains);
    let zones = partition_zones(&t, &vec![cell(2, 2)]);
    assert_eq!(zones.get(cell(0, 2)), None);
    assert_eq!(zones.get(cell(2, 9)), None);
    assert_eq!(zones.len(), 9);
}

#[test]
fn repeated_settlement_keeps_one_zone_on_its_tile() {
    let t = uniform(4, 4, TerrainType::Plains);
    let settlements = vec![cell(2, 2), cell(3, 3), cell(2, 2)];
    let zones = partition_zones(&t, &settlements);
    let z = zones.get(cell(2, 2)).unwrap();
    assert_eq!(z.cost, 1);
    assert_eq!(settlements[z.zone], cell(2, 2));
    assert_eq!(zones.get(cell(3, 3)).unwrap().zone, 1);
    check_against_oracle(&t, &settlements, &zones);
}

#[test]
fn unreachable_rows_do_not_exist_so_every_tile_is_reached() {
    let t = mixed(7, 3);
    let zones = partition_zones(&t, &vec![cell(4, 2)]);
    assert_eq!(zones.len(), 21);
    assert!(!zones.is_empty());
}
