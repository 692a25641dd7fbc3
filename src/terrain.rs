use vstd::prelude::*;

use crate::hex::{hex_offset, offset_hex, Hex};

verus! {

/// The nine terrain bands, from the deepest ocean to the highest peaks.
#[derive(Debug, Clone, Copy, PartialEq, Eq, Structural)]
pub enum TerrainType {
    DeepOcean,
    ShallowOcean,
    Coast,
    Beach,
    Plains,
    Hills,
    LowMountains,
    HighMountains,
    Peaks,
}

/// Settlements may stand on plains and hills only.
pub open spec fn habitable(t: TerrainType) -> bool {
    t == TerrainType::Plains || t == TerrainType::Hills
}

/// What it costs to enter a tile of each terrain when territories spread.
pub open spec fn zone_cost(t: TerrainType) -> nat {
    match t {
        TerrainType::DeepOcean => 500,
        TerrainType::ShallowOcean => 100,
        TerrainType::Coast => 50,
        TerrainType::Beach => 2,
        TerrainType::Plains => 2,
        TerrainType::Hills => 3,
        TerrainType::LowMountains => 100,
        TerrainType::HighMountains => 500,
        TerrainType::Peaks => 1000,
    }
}

/// The largest entry of the zone cost table.
pub const MAX_ZONE_COST: usize = 1000;

/// The colour a tile of each terrain is drawn in, as red, green, blue and alpha.
pub open spec fn colour_of(t: TerrainType) -> Seq<u8> {
    match t {
        TerrainType::DeepOcean => seq![6u8, 58, 127, 255],
        TerrainType::ShallowOcean => seq![14u8, 112, 192, 255],
        TerrainType::Coast => seq![25u8, 150, 230, 255],
        TerrainType::Beach => seq![210u8, 170, 110, 255],
        TerrainType::Plains => seq![70u8, 120, 60, 255],
        TerrainType::Hills => seq![110u8, 140, 100, 255],
        TerrainType::LowMountains => seq![150u8, 150, 150, 255],
        TerrainType::HighMountains => seq![220u8, 220, 200, 255],
        TerrainType::Peaks => seq![250u8, 250, 250, 255],
    }
}

/// The colour a tile of this terrain is drawn in.
pub fn terrain_colour(colour: TerrainType) -> (r: [u8; 4])
    ensures
        r@ == colour_of(colour),
{
    let r: [u8; 4] = match colour {
        TerrainType::DeepOcean => [6, 58, 127, 255],
        TerrainType::ShallowOcean => [14, 112, 192, 255],
        TerrainType::Coast => [25, 150, 230, 255],
        TerrainType::Beach => [210, 170, 110, 255],
        TerrainType::Plains => [70, 120, 60, 255],
        TerrainType::Hills => [110, 140, 100, 255],
        TerrainType::LowMountains => [150, 150, 150, 255],
        TerrainType::HighMountains => [220, 220, 200, 255],
        TerrainType::Peaks => [250, 250, 250, 255],
    };
    assert(r@ =~= colour_of(colour));
    r
}

/// What it costs to enter a tile of this terrain when territories spread.
pub fn terrain_zone_cost(terrain: TerrainType) -> (r: usize)
    ensures
        r == zone_cost(terrain),
        2 <= r <= MAX_ZONE_COST,
{
    match terrain {
        TerrainType::DeepOcean => 500,
        TerrainType::ShallowOcean => 100,
        TerrainType::Coast => 50,
        TerrainType::Beach => 2,
        TerrainType::Plains => 2,
        TerrainType::Hills => 3,
        TerrainType::LowMountains => 100,
        TerrainType::HighMountains => 500,
        TerrainType::Peaks => 1000,
    }
}

impl TerrainType {
    /// Whether a settlement may stand on this terrain.
    pub fn is_habitable(&self) -> (r: bool)
        ensures
            r == habitable(*self),
    {
        match self {
            TerrainType::DeepOcean => false,
            TerrainType::ShallowOcean => false,
            TerrainType::Coast => false,
            TerrainType::Beach => false,
            TerrainType::Plains => true,
            TerrainType::Hills => true,
            TerrainType::LowMountains => false,
            TerrainType::HighMountains => false,
            TerrainType::Peaks => false,
        }
    }
}

/// The longest side a grid may have: every coordinate met while walking the
/// grid and its neighbours then fits in an `i32` with room to spare.
pub const MAX_SIDE: i32 = 268_435_456;

/// The most tiles a grid may hold: any sum of zone costs along a walk that
/// visits each tile once at most then fits in a `u64`.
pub const MAX_TILES: u64 = 1_099_511_627_776;

/// Hexagons whose coordinates both lie within this bound are converted
/// exactly; all others lie off every grid.
pub const COORD_BOUND: i32 = 1_073_741_824;

/// Tile `i` of a grid `height` tiles tall lies in this column (columns count from 1).
pub open spec fn tile_col(height: int, i: int) -> int {
    i / height + 1
}

/// Tile `i` of a grid `height` tiles tall lies in this row: rows count from 1,
/// and odd columns start one row further down.
pub open spec fn tile_row(height: int, i: int) -> int {
    i % height + 1 + (if tile_col(height, i) % 2 == 1 { 1int } else { 0int })
}

/// The axial coordinates of tile `i`.
pub open spec fn tile_hex(height: int, i: int) -> (int, int) {
    offset_hex(tile_col(height, i), tile_row(height, i))
}

/// The index of the tile at column `col` and row `row`, if the grid has one there.
pub open spec fn offset_index(width: int, height: int, col: int, row: int) -> Option<int> {
    let c = col - 1;
    let r = row - 1 - (if col % 2 == 1 { 1int } else { 0int });
    if 0 <= c < width && 0 <= r < height {
        Some(c * height + r)
    } else {
        None
    }
}

/// The index of the tile at the hexagon `(x, y)`, if the grid has one there.
pub open spec fn hex_index(width: int, height: int, x: int, y: int) -> Option<int> {
    offset_index(width, height, hex_offset(x, y).0, hex_offset(x, y).1)
}

/// Tile `i` of a grid lies in a column and row of the grid, which map back to `i`.
pub proof fn lemma_tile_offset(width: int, height: int, i: int)
    requires
        1 <= height,
        1 <= width,
        0 <= i < width * height,
    ensures
        1 <= tile_col(height, i) <= width,
        1 <= tile_row(height, i) <= height + 1,
        offset_index(width, height, tile_col(height, i), tile_row(height, i)) == Some(i),
{
    vstd::arithmetic::div_mod::lemma_fundamental_div_mod(i, height);
    vstd::arithmetic::div_mod::lemma_div_pos_is_pos(i, height);
    vstd::arithmetic::div_mod::lemma_mod_pos_bound(i, height);
    vstd::arithmetic::mul::lemma_mul_is_commutative(i / height, height);
    if i / height >= width {
        vstd::arithmetic::mul::lemma_mul_inequality(width, i / height, height);
        vstd::arithmetic::mul::lemma_mul_is_commutative(width, height);
    }
}

/// A column and row that name a tile are that tile's column and row.
pub proof fn lemma_offset_index_tile(width: int, height: int, col: int, row: int)
    requires
        1 <= height,
        offset_index(width, height, col, row) is Some,
    ensures
        0 <= offset_index(width, height, col, row)->0 < width * height,
        tile_col(height, offset_index(width, height, col, row)->0) == col,
        tile_row(height, offset_index(width, height, col, row)->0) == row,
{
    let c = col - 1;
    let r = row - 1 - (if col % 2 == 1 { 1int } else { 0int });
    let i = c * height + r;
    vstd::arithmetic::div_mod::lemma_fundamental_div_mod_converse(i, height, c, r);
    assert(c * height + r < width * height) by (nonlinear_arith)
        requires
            0 <= c < width,
            0 <= r < height,
    ;
    assert(0 <= c * height) by (nonlinear_arith)
        requires
            0 <= c,
            1 <= height,
    ;
}

/// Tiles and hexagons correspond one to one: each index in range names a
/// hexagon that maps back to that index, and each hexagon that maps to an
/// index is the one that the index names.
pub proof fn lemma_index_hex_bijection(width: int, height: int)
    requires
        1 <= width,
        1 <= height,
    ensures
        forall|i: int|
            0 <= i < width * height ==> #[trigger] hex_index(
                width,
                height,
                tile_hex(height, i).0,
                tile_hex(height, i).1,
            ) == Some(i),
        forall|x: int, y: int|
            #[trigger] hex_index(width, height, x, y) is Some ==> {
                let i = hex_index(width, height, x, y)->0;
                0 <= i < width * height && tile_hex(height, i) == (x, y)
            },
{
    assert forall|i: int| 0 <= i < width * height implies #[trigger] hex_index(
        width,
        height,
        tile_hex(height, i).0,
        tile_hex(height, i).1,
    ) == Some(i) by {
        lemma_tile_offset(width, height, i);
    }
    assert forall|x: int, y: int| #[trigger] hex_index(width, height, x, y) is Some implies {
        let i = hex_index(width, height, x, y)->0;
        0 <= i < width * height && tile_hex(height, i) == (x, y)
    } by {
        lemma_offset_index_tile(width, height, hex_offset(x, y).0, hex_offset(x, y).1);
    }
}

/// The dimensions that a grid can be generated with.
pub open spec fn valid_dimensions(width: int, height: int) -> bool {
    &&& 1 <= width <= MAX_SIDE
    &&& 1 <= height <= MAX_SIDE
    &&& width * height <= MAX_TILES
    &&& width * height <= usize::MAX
}

/// The index of the tile at `h` in a grid of `width` columns of `height` tiles,
/// if the grid has one there.
pub fn tile_index(width: i32, height: i32, h: Hex) -> (r: Option<usize>)
    requires
        valid_dimensions(width as int, height as int),
    ensures
        r matches Some(i) ==> hex_index(width as int, height as int, h.x as int, h.y as int)
            == Some(i as int),
        r is None ==> hex_index(width as int, height as int, h.x as int, h.y as int) is None,
{
    if h.x < -COORD_BOUND || h.x > COORD_BOUND || h.y < -COORD_BOUND || h.y > COORD_BOUND {
        return None;
    }
    let (col, row) = h.to_offset();
    if col < 1 || col > width {
        return None;
    }
    let shift: i32 = if col % 2 == 1 { 1 } else { 0 };
    if row - 1 - shift < 0 || row - 1 - shift >= height {
        return None;
    }
    let c = (col - 1) as usize;
    let r = (row - 1 - shift) as usize;
    proof {
        assert(c * height + r < width * height) by (nonlinear_arith)
            requires
                0 <= c < width,
                0 <= r < height,
        ;
        assert(0 <= c * height) by (nonlinear_arith)
            requires
                0 <= c,
                1 <= height,
        ;
    }
    Some(c * height as usize + r)
}

/// Why a grid cannot be generated.
#[derive(Debug, Clone, Copy, PartialEq, Eq, Structural)]
pub enum ConfigError {
    NonPositiveWidth,
    NonPositiveHeight,
    NonPositiveScale,
    TooLarge,
}

/// The error, if any, that a grid of these dimensions is refused with.
pub open spec fn dimension_error(width: int, height: int) -> Option<ConfigError> {
    if width <= 0 {
        Some(ConfigError::NonPositiveWidth)
    } else if height <= 0 {
        Some(ConfigError::NonPositiveHeight)
    } else if !valid_dimensions(width, height) {
        Some(ConfigError::TooLarge)
    } else {
        None
    }
}

/// Checks the dimensions of a grid before anything is sampled.
pub fn check_dimensions(width: i32, height: i32) -> (r: Result<(), ConfigError>)
    ensures
        r is Ok <==> valid_dimensions(width as int, height as int),
        r matches Err(e) ==> dimension_error(width as int, height as int) == Some(e),
{
    if width <= 0 {
        return Err(ConfigError::NonPositiveWidth);
    }
    if height <= 0 {
        return Err(ConfigError::NonPositiveHeight);
    }
    if width > MAX_SIDE || height > MAX_SIDE {
        return Err(ConfigError::TooLarge);
    }
    proof {
        assert(width * height <= MAX_SIDE * MAX_SIDE) by (nonlinear_arith)
            requires
                1 <= width <= MAX_SIDE,
                1 <= height <= MAX_SIDE,
        ;
    }
    let n: u64 = (width as u64) * (height as u64);
    if n > MAX_TILES || n > usize::MAX as u64 {
        Err(ConfigError::TooLarge)
    } else {
        Ok(())
    }
}

/// Checks a generation request before anything is sampled. The scale factor
/// is a float, so the caller passes in whether it is positive.
pub fn check_params(width: i32, height: i32, scale_is_positive: bool) -> (r: Result<(), ConfigError>)
    ensures
        r is Ok <==> valid_dimensions(width as int, height as int) && scale_is_positive,
        r matches Err(e) ==> e == (match dimension_error(width as int, height as int) {
            Some(d) => d,
            None => ConfigError::NonPositiveScale,
        }),
{
    match check_dimensions(width, height) {
        Err(e) => Err(e),
        Ok(()) => if scale_is_positive {
            Ok(())
        } else {
            Err(ConfigError::NonPositiveScale)
        },
    }
}

/// Builds a grid of `width` by `height` tiles, asking `sample` for the
/// terrain at each column and row, in storage order.
pub fn generate_grid<F: Fn(i32, i32) -> TerrainType>(width: i32, height: i32, sample: F) -> (r:
    Result<GeneratedTerrain, ConfigError>)
    requires
        forall|c: i32, w: i32| #[trigger] sample.requires((c, w)),
    ensures
        r is Ok <==> valid_dimensions(width as int, height as int),
        r matches Err(e) ==> dimension_error(width as int, height as int) == Some(e),
        r matches Ok(t) ==> {
            &&& t.wf()
            &&& t.width == width
            &&& t.height == height
            &&& forall|i: int|
                0 <= i < t.tiles@.len() ==> sample.ensures(
                    (tile_col(height as int, i) as i32, tile_row(height as int, i) as i32),
                    #[trigger] t.tiles@[i],
                )
        },
{
    match check_dimensions(width, height) {
        Err(e) => Err(e),
        Ok(()) => {
            let n: usize = ((width as u64) * (height as u64)) as usize;
            let mut tiles: Vec<TerrainType> = Vec::new();
            let mut i: usize = 0;
            while i < n
                invariant
                    valid_dimensions(width as int, height as int),
                    n == width * height,
                    i <= n,
                    tiles@.len() == i,
                    forall|c: i32, w: i32| #[trigger] sample.requires((c, w)),
                    forall|j: int|
                        0 <= j < i ==> sample.ensures(
                            (tile_col(height as int, j) as i32, tile_row(height as int, j) as i32),
                            #[trigger] tiles@[j],
                        ),
                decreases n - i,
            {
                proof {
                    lemma_tile_offset(width as int, height as int, i as int);
                }
                let col: i32 = (i / height as usize) as i32 + 1;
                let mut row: i32 = (i % height as usize) as i32 + 1;
                if col % 2 == 1 {
                    row += 1;
                }
                let t = sample(col, row);
                tiles.push(t);
                i += 1;
            }
            Ok(GeneratedTerrain::new(width, height, tiles))
        },
    }
}

/// A terrain map: `width` columns of `height` tiles, stored column by column.
#[derive(Debug, Clone)]
pub struct GeneratedTerrain {
    pub width: i32,
    pub height: i32,
    pub tiles: Vec<TerrainType>,
}

impl GeneratedTerrain {
    /// The map holds one tile for each column and row of valid dimensions.
    pub open spec fn wf(&self) -> bool {
        &&& valid_dimensions(self.width as int, self.height as int)
        &&& self.tiles@.len() == self.width * self.height
    }

    /// The index of the tile at `h`, if the map has one there.
    pub open spec fn spec_index(&self, h: Hex) -> Option<int> {
        hex_index(self.width as int, self.height as int, h.x as int, h.y as int)
    }

    /// The map has a habitable tile at `h`.
    pub open spec fn is_habitable_hex(&self, h: Hex) -> bool {
        &&& self.spec_index(h) is Some
        &&& habitable(self.tiles@[self.spec_index(h)->0])
    }

    pub fn new(width: i32, height: i32, tiles: Vec<TerrainType>) -> (r: GeneratedTerrain)
        requires
            valid_dimensions(width as int, height as int),
            tiles@.len() == width * height,
        ensures
            r.wf(),
            r.width == width,
            r.height == height,
            r.tiles@ == tiles@,
    {
        GeneratedTerrain { width, height, tiles }
    }

    pub fn width(&self) -> (r: i32)
        ensures
            r == self.width,
    {
        self.width
    }

    pub fn height(&self) -> (r: i32)
        ensures
            r == self.height,
    {
        self.height
    }

    /// The hexagon of tile `index` in a grid `height` tiles tall.
    pub fn index_to_hex(height: i32, index: usize) -> (r: Hex)
        requires
            1 <= height <= MAX_SIDE,
            index < MAX_SIDE * height,
        ensures
            (r.x as int, r.y as int) == tile_hex(height as int, index as int),
    {
        proof {
            vstd::arithmetic::div_mod::lemma_div_pos_is_pos(index as int, height as int);
            vstd::arithmetic::div_mod::lemma_div_is_ordered(
                index as int,
                (MAX_SIDE * height) as int,
                height as int,
            );
            vstd::arithmetic::div_mod::lemma_div_multiples_vanish(MAX_SIDE as int, height as int);
            vstd::arithmetic::div_mod::lemma_mod_pos_bound(index as int, height as int);
        }
        let x: i32 = (index / height as usize) as i32 + 1;
        let mut y: i32 = (index % height as usize) as i32 + 1;
        if x % 2 == 1 {
            y += 1;
        }
        Hex::from_offset(x, y)
    }

    /// The index of the tile at `h`, if the map has one there.
    pub fn index_of(&self, h: Hex) -> (r: Option<usize>)
        requires
            self.wf(),
        ensures
            r matches Some(i) ==> self.spec_index(h) == Some(i as int),
            r is None ==> self.spec_index(h) is None,
    {
        tile_index(self.width, self.height, h)
    }

    /// The terrain at `h`, if the map has a tile there.
    pub fn tile_at(&self, h: Hex) -> (r: Option<TerrainType>)
        requires
            self.wf(),
        ensures
            r matches Some(t) ==> self.spec_index(h) matches Some(i) && t == self.tiles@[i],
            r is None ==> self.spec_index(h) is None,
    {
        match self.index_of(h) {
            Some(i) => {
                proof {
                    lemma_offset_index_tile(
                        self.width as int,
                        self.height as int,
                        h.spec_offset().0,
                        h.spec_offset().1,
                    );
                }
                Some(self.tiles[i])
            },
            None => None,
        }
    }

    /// Whether the map has a habitable tile at `h`.
    pub fn is_habitable_at(&self, h: Hex) -> (r: bool)
        requires
            self.wf(),
        ensures
            r == self.is_habitable_hex(h),
    {
        match self.tile_at(h) {
            Some(t) => t.is_habitable(),
            None => false,
        }
    }

    /// Every tile with its hexagon, in storage order.
    pub fn tiles(&self) -> (r: Vec<(Hex, TerrainType)>)
        requires
            self.wf(),
        ensures
            r@.len() == self.tiles@.len(),
            forall|i: int|
                0 <= i < r@.len() ==> {
                    &&& (#[trigger] r@[i].0.x as int, r@[i].0.y as int) == tile_hex(
                        self.height as int,
                        i,
                    )
                    &&& r@[i].1 == self.tiles@[i]
                },
    {
        let mut out: Vec<(Hex, TerrainType)> = Vec::new();
        let mut i: usize = 0;
        while i < self.tiles.len()
            invariant
                self.wf(),
                i <= self.tiles@.len(),
                out@.len() == i,
                forall|j: int|
                    0 <= j < i ==> {
                        &&& (#[trigger] out@[j].0.x as int, out@[j].0.y as int) == tile_hex(
                            self.height as int,
                            j,
                        )
                        &&& out@[j].1 == self.tiles@[j]
                    },
            decreases self.tiles@.len() - i,
        {
            proof {
                assert(i < MAX_SIDE * self.height) by (nonlinear_arith)
                    requires
                        i < self.width * self.height,
                        self.width <= MAX_SIDE,
                        1 <= self.height,
                ;
            }
            let h = Self::index_to_hex(self.height, i);
            out.push((h, self.tiles[i]));
            i += 1;
        }
        out
    }
}

} // verus!
