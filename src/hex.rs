use vstd::prelude::*;

verus! {

/// A hexagon in axial coordinates.
#[derive(Debug, Clone, Copy, PartialEq, Eq, Hash, Structural)]
pub struct Hex {
    pub x: i32,
    pub y: i32,
}

/// `c / 2` rounded up, for any sign of `c`.
pub open spec fn ceil_half(c: int) -> int {
    (c + c % 2) / 2
}

/// The hexagon at column `col` and row `row` of a flat-topped grid whose even
/// columns are shifted down.
pub open spec fn offset_hex(col: int, row: int) -> (int, int) {
    (col, row - ceil_half(col))
}

/// The column and row of the hexagon `(x, y)` on that grid.
pub open spec fn hex_offset(x: int, y: int) -> (int, int) {
    (x, y + ceil_half(x))
}

/// The axial steps to the six neighbours, in the order in which they are listed.
pub open spec fn neighbor_step(k: int) -> (int, int) {
    if k == 0 {
        (1, 0)
    } else if k == 1 {
        (0, 1)
    } else if k == 2 {
        (-1, 1)
    } else if k == 3 {
        (-1, 0)
    } else if k == 4 {
        (0, -1)
    } else {
        (1, -1)
    }
}

/// `v` can be held in an `i32`.
pub open spec fn fits_i32(v: int) -> bool {
    i32::MIN <= v <= i32::MAX
}

impl Hex {
    /// The column and row of this hexagon.
    pub open spec fn spec_offset(self) -> (int, int) {
        hex_offset(self.x as int, self.y as int)
    }

    /// The axial coordinates of the `k`-th neighbour.
    pub open spec fn spec_neighbor(self, k: int) -> (int, int) {
        (self.x + neighbor_step(k).0, self.y + neighbor_step(k).1)
    }

    pub fn new(x: i32, y: i32) -> (r: Hex)
        ensures
            r.x == x,
            r.y == y,
    {
        Hex { x, y }
    }

    /// Relies on `hexx::Hex::from_offset_coordinates` in even, flat mode: the
    /// column is kept and the row loses half the column, rounded up.
    #[verifier::external_body]
    pub(crate) fn from_offset(col: i32, row: i32) -> (r: Hex)
        requires
            fits_i32(offset_hex(col as int, row as int).1),
        ensures
            (r.x as int, r.y as int) == offset_hex(col as int, row as int),
    {
        let h = hexx::Hex::from_offset_coordinates(
            [col, row],
            hexx::OffsetHexMode::Even,
            hexx::HexOrientation::Flat,
        );
        Hex { x: h.x, y: h.y }
    }

    /// Relies on `hexx::Hex::to_offset_coordinates` in even, flat mode: the
    /// column is `x` and the row is `y` plus half of `x`, rounded up.
    #[verifier::external_body]
    pub(crate) fn to_offset(&self) -> (r: (i32, i32))
        requires
            fits_i32(self.spec_offset().1),
        ensures
            (r.0 as int, r.1 as int) == self.spec_offset(),
    {
        let [col, row] = hexx::Hex::new(self.x, self.y).to_offset_coordinates(
            hexx::OffsetHexMode::Even,
            hexx::HexOrientation::Flat,
        );
        (col, row)
    }

    /// Relies on `hexx::Hex::all_neighbors`: `self` plus each of the six
    /// axial steps, in the order of `hexx::Hex::NEIGHBORS_COORDS`.
    #[verifier::external_body]
    pub(crate) fn all_neighbors(&self) -> (r: [Hex; 6])
        requires
            i32::MIN < self.x < i32::MAX,
            i32::MIN < self.y < i32::MAX,
        ensures
            forall|k: int|
                0 <= k < 6 ==> (#[trigger] r@[k].x as int, r@[k].y as int) == self.spec_neighbor(k),
    {
        hexx::Hex::new(self.x, self.y).all_neighbors().map(|h| Hex { x: h.x, y: h.y })
    }
}

} // verus!
