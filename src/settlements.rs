use vstd::prelude::*;

use crate::hex::{offset_hex, Hex};
use crate::terrain::{habitable, hex_index, GeneratedTerrain, MAX_SIDE};

verus! {

/// What settlement placement is seeded with.
#[derive(Debug, Clone, Copy, PartialEq, Eq, Structural)]
pub struct SettlementParams {
    pub seed: u32,
}

impl SettlementParams {
    pub fn new(seed: u32) -> (r: SettlementParams)
        ensures
            r.seed == seed,
    {
        SettlementParams { seed }
    }
}

/// `v` held within `[lo, hi]`.
pub open spec fn clamp(v: int, lo: int, hi: int) -> int {
    if v < lo {
        lo
    } else if v > hi {
        hi
    } else {
        v
    }
}

/// The column and row that a candidate point, its coordinates truncated to
/// `(x, y)`, stands for: clamped to the grid, counted from one, odd columns
/// one row further down.
pub open spec fn point_offset(width: int, height: int, x: int, y: int) -> (int, int) {
    let c = clamp(x, 0, width) + 1;
    let r = clamp(y, 0, height) + 1 + (if c % 2 == 1 { 1int } else { 0int });
    (c, r)
}

/// The hexagon that a candidate point stands for.
pub open spec fn point_hex(width: int, height: int, x: int, y: int) -> (int, int) {
    offset_hex(point_offset(width, height, x, y).0, point_offset(width, height, x, y).1)
}

/// The hexagon on which a candidate point may found a settlement: the one it
/// stands for, where that is a habitable tile of the map.
pub open spec fn site_of(t: &GeneratedTerrain, x: int, y: int) -> Option<(int, int)> {
    let h = point_hex(t.width as int, t.height as int, x, y);
    match hex_index(t.width as int, t.height as int, h.0, h.1) {
        Some(i) => if habitable(t.tiles@[i]) {
            Some(h)
        } else {
            None
        },
        None => None,
    }
}

/// The hexagon that the candidate point `(x, y)` stands for on a grid of
/// `width` by `height` tiles.
pub fn point_to_hex(width: i32, height: i32, x: i32, y: i32) -> (r: Hex)
    requires
        1 <= width <= MAX_SIDE,
        1 <= height <= MAX_SIDE,
    ensures
        (r.x as int, r.y as int) == point_hex(width as int, height as int, x as int, y as int),
{
    let cx: i32 = if x < 0 {
        0
    } else if x > width {
        width
    } else {
        x
    };
    let cy: i32 = if y < 0 {
        0
    } else if y > height {
        height
    } else {
        y
    };
    let col = cx + 1;
    let mut row = cy + 1;
    if col % 2 == 1 {
        row += 1;
    }
    Hex::from_offset(col, row)
}

/// Where a settlement may stand for the candidate point `(x, y)`: the
/// hexagon the point stands for, if that is a habitable tile of the map.
pub fn settlement_site(terrain: &GeneratedTerrain, x: i32, y: i32) -> (r: Option<Hex>)
    requires
        terrain.wf(),
    ensures
        r matches Some(h) ==> site_of(terrain, x as int, y as int) == Some((h.x as int, h.y as int)),
        r is None ==> site_of(terrain, x as int, y as int) is None,
{
    let h = point_to_hex(terrain.width, terrain.height, x, y);
    if terrain.is_habitable_at(h) {
        Some(h)
    } else {
        None
    }
}

/// The sites of those candidate points that have one, in order.
pub open spec fn sites_of(t: &GeneratedTerrain, points: Seq<(i32, i32)>) -> Seq<(int, int)>
    decreases points.len(),
{
    if points.len() == 0 {
        Seq::empty()
    } else {
        let rest = sites_of(t, points.drop_last());
        match site_of(t, points.last().0 as int, points.last().1 as int) {
            Some(h) => rest.push(h),
            None => rest,
        }
    }
}

proof fn lemma_sites_habitable(t: &GeneratedTerrain, points: Seq<(i32, i32)>)
    ensures
        forall|i: int|
            0 <= i < sites_of(t, points).len() ==> {
                let h = #[trigger] sites_of(t, points)[i];
                &&& hex_index(t.width as int, t.height as int, h.0, h.1) is Some
                &&& habitable(t.tiles@[hex_index(t.width as int, t.height as int, h.0, h.1)->0])
            },
    decreases points.len(),
{
    if points.len() > 0 {
        lemma_sites_habitable(t, points.drop_last());
    }
}

/// Settlements from the candidate points of a blue-noise process: each point
/// that stands for a habitable tile gives the hexagon of that tile, in order;
/// the others are dropped. Every hexagon returned is a habitable tile.
pub fn settlement_hexes(terrain: &GeneratedTerrain, points: &Vec<(i32, i32)>) -> (r: Vec<Hex>)
    requires
        terrain.wf(),
    ensures
        r@.map_values(|h: Hex| (h.x as int, h.y as int)) == sites_of(terrain, points@),
        forall|i: int|
            0 <= i < r@.len() ==> terrain.is_habitable_hex(#[trigger] r@[i]),
{
    let mut out: Vec<Hex> = Vec::new();
    let mut i: usize = 0;
    while i < points.len()
        invariant
            terrain.wf(),
            i <= points@.len(),
            out@.map_values(|h: Hex| (h.x as int, h.y as int)) == sites_of(
                terrain,
                points@.subrange(0, i as int),
            ),
        decreases points@.len() - i,
    {
        proof {
            assert(points@.subrange(0, i as int + 1).drop_last() =~= points@.subrange(0, i as int));
        }
        let (x, y) = points[i];
        match settlement_site(terrain, x, y) {
            Some(h) => {
                out.push(h);
                proof {
                    assert(out@.map_values(|h: Hex| (h.x as int, h.y as int)) =~= sites_of(
                        terrain,
                        points@.subrange(0, i as int),
                    ).push((h.x as int, h.y as int)));
                }
            },
            None => {},
        }
        i += 1;
    }
    proof {
        assert(points@.subrange(0, i as int) =~= points@);
        lemma_sites_habitable(terrain, points@);
        assert forall|i: int| 0 <= i < out@.len() implies terrain.is_habitable_hex(#[trigger] out@[i]) by {
            assert(out@.map_values(|h: Hex| (h.x as int, h.y as int))[i] == sites_of(terrain, points@)[i]);
        }
    }
    out
}

} // verus!
