//! Procedural world generation on a hexagonal map that wraps east-west.
//!
//! The verified core classifies tiles by terrain, addresses them on a
//! column/row grid, gates settlement placement by habitability, and splits
//! the map into settlement territories by a weighted multi-source flood fill.

pub mod hex;
pub mod settlements;
pub mod terrain;
pub mod zones;

pub use hex::Hex;
pub use settlements::{point_to_hex, settlement_hexes, settlement_site, SettlementParams};
pub use terrain::GeneratedTerrain as GeneratedWorld;
pub use terrain::{
    check_dimensions, check_params, generate_grid, terrain_colour, terrain_zone_cost, tile_index,
    ConfigError, GeneratedTerrain, TerrainType,
};
pub use zones::{partition_zones, wrap_hex, ClosestZone, ZoneMap};
