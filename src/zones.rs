use std::collections::VecDeque;

use vstd::prelude::*;

use crate::hex::{hex_offset, neighbor_step, offset_hex, Hex};
use crate::terrain::{
    hex_index, lemma_index_hex_bijection, lemma_offset_index_tile, lemma_tile_offset, offset_index,
    terrain_zone_cost, tile_col, tile_hex, tile_index, tile_row, valid_dimensions, zone_cost,
    GeneratedTerrain, COORD_BOUND, MAX_SIDE, MAX_TILES, MAX_ZONE_COST,
};

verus! {

/// Column `c` brought back onto a grid `width` columns wide, for columns at
/// most one grid width off either edge.
pub open spec fn wrap_col(width: int, c: int) -> int {
    if c <= 0 {
        c + width
    } else if c > width {
        c - width
    } else {
        c
    }
}

/// The hexagon `(x, y)` with its column wrapped onto a grid `width` columns wide.
pub open spec fn wrapped_hex(width: int, x: int, y: int) -> (int, int) {
    offset_hex(wrap_col(width, hex_offset(x, y).0), hex_offset(x, y).1)
}

/// Brings a hexagon just past the east or west edge of a grid `width` columns
/// wide back onto the grid, on the same row.
pub fn wrap_hex(width: i32, h: Hex) -> (r: Hex)
    requires
        1 <= width <= MAX_SIDE,
        -COORD_BOUND <= h.x <= COORD_BOUND,
        -COORD_BOUND <= h.y <= COORD_BOUND,
    ensures
        (r.x as int, r.y as int) == wrapped_hex(width as int, h.x as int, h.y as int),
{
    let (mut col, row) = h.to_offset();
    if col <= 0 {
        col += width;
    } else if col > width {
        col -= width;
    }
    Hex::from_offset(col, row)
}

/// The tile reached from tile `u` by the `k`-th neighbour step, the column
/// wrapped east-west; none where the step leaves the grid north or south.
pub open spec fn neighbor_tile(t: &GeneratedTerrain, u: int, k: int) -> Option<int> {
    let p = tile_hex(t.height as int, u);
    let q = wrapped_hex(
        t.width as int,
        p.0 + neighbor_step(k).0,
        p.1 + neighbor_step(k).1,
    );
    hex_index(t.width as int, t.height as int, q.0, q.1)
}

/// Tile `v` is one of the neighbours of tile `u`.
pub open spec fn adjacent(t: &GeneratedTerrain, u: int, v: int) -> bool {
    ||| neighbor_tile(t, u, 0) == Some(v)
    ||| neighbor_tile(t, u, 1) == Some(v)
    ||| neighbor_tile(t, u, 2) == Some(v)
    ||| neighbor_tile(t, u, 3) == Some(v)
    ||| neighbor_tile(t, u, 4) == Some(v)
    ||| neighbor_tile(t, u, 5) == Some(v)
}

/// What a step from tile `u` to tile `v` costs: entering dearer terrain
/// costs its full price, entering terrain no dearer costs half of it.
pub open spec fn step_cost(t: &GeneratedTerrain, u: int, v: int) -> int {
    let next = zone_cost(t.tiles@[v]) as int;
    let this = zone_cost(t.tiles@[u]) as int;
    if next > this {
        next
    } else {
        next / 2
    }
}

/// `p` is a walk over the map: a non-empty sequence of tiles, each a
/// neighbour of the one before.
pub open spec fn is_walk(t: &GeneratedTerrain, p: Seq<int>) -> bool {
    &&& p.len() >= 1
    &&& forall|j: int| 0 <= j < p.len() ==> 0 <= #[trigger] p[j] < t.tiles@.len()
    &&& forall|j: int| 0 <= j < p.len() - 1 ==> adjacent(t, #[trigger] p[j], p[j + 1])
}

/// The cost of a walk: one for the tile it starts on, plus each step.
pub open spec fn walk_cost(t: &GeneratedTerrain, p: Seq<int>) -> int
    decreases p.len(),
{
    if p.len() <= 1 {
        1
    } else {
        walk_cost(t, p.drop_last()) + step_cost(t, p[p.len() - 2], p.last())
    }
}

/// The tile that settlement `j` stands on.
pub open spec fn source_tile(t: &GeneratedTerrain, settlements: Seq<Hex>, j: int) -> int {
    t.spec_index(settlements[j])->0
}

/// `p` is a walk that starts on the tile of settlement `j`.
pub open spec fn walk_from(t: &GeneratedTerrain, settlements: Seq<Hex>, j: int, p: Seq<int>) -> bool {
    &&& 0 <= j < settlements.len()
    &&& is_walk(t, p)
    &&& p[0] == source_tile(t, settlements, j)
}


/// The settlement that a tile belongs to, and what reaching the tile from it costs.
#[derive(Debug, Clone, Copy, PartialEq, Eq, Structural)]
pub struct ClosestZone {
    pub zone: usize,
    pub cost: u64,
}

impl ClosestZone {
    pub fn new(zone: usize, cost: u64) -> (r: ClosestZone)
        ensures
            r.zone == zone,
            r.cost == cost,
    {
        ClosestZone { zone, cost }
    }
}

/// The territory of each tile of a map, stored in the map's tile order;
/// `None` for a tile that no settlement reaches.
#[derive(Debug, Clone)]
pub struct ZoneMap {
    pub width: i32,
    pub height: i32,
    pub entries: Vec<Option<ClosestZone>>,
}

impl ZoneMap {
    /// The map holds one entry for each tile of a grid of valid dimensions.
    pub open spec fn wf(&self) -> bool {
        &&& valid_dimensions(self.width as int, self.height as int)
        &&& self.entries@.len() == self.width * self.height
    }

    /// The territory of the tile at `h`; `None` off the map or where no
    /// settlement reaches.
    pub fn get(&self, h: Hex) -> (r: Option<ClosestZone>)
        requires
            self.wf(),
        ensures
            r == (match hex_index(self.width as int, self.height as int, h.x as int, h.y as int) {
                Some(i) => self.entries@[i],
                None => None,
            }),
    {
        match tile_index(self.width, self.height, h) {
            Some(i) => {
                proof {
                    lemma_index_hex_bijection(self.width as int, self.height as int);
                }
                self.entries[i]
            },
            None => None,
        }
    }

    /// How many tiles some settlement reaches.
    pub fn len(&self) -> (r: usize)
        ensures
            r == assigned_count(self.entries@),
    {
        let mut count: usize = 0;
        let mut i: usize = 0;
        while i < self.entries.len()
            invariant
                i <= self.entries@.len(),
                count == assigned_count(self.entries@.subrange(0, i as int)),
                count <= i,
            decreases self.entries@.len() - i,
        {
            proof {
                let pre = self.entries@.subrange(0, i as int + 1);
                assert(pre.drop_last() =~= self.entries@.subrange(0, i as int));
            }
            if self.entries[i].is_some() {
                count += 1;
            }
            i += 1;
        }
        proof {
            assert(self.entries@.subrange(0, i as int) =~= self.entries@);
        }
        count
    }

    pub fn is_empty(&self) -> (r: bool)
        ensures
            r == (assigned_count(self.entries@) == 0),
    {
        self.len() == 0
    }
}

/// Neighbour expansion wraps east-west: a tile in the first column has the
/// tile one row up in the last column among its neighbours, and, where the
/// width is even, is among that tile's neighbours in turn.
pub proof fn lemma_wraparound_adjacent(t: &GeneratedTerrain, u: int)
    requires
        t.wf(),
        0 <= u < t.height,
        offset_index(t.width as int, t.height as int, t.width as int, tile_row(t.height as int, u) - 1)
            is Some,
    ensures
        ({
            let v = offset_index(
                t.width as int,
                t.height as int,
                t.width as int,
                tile_row(t.height as int, u) - 1,
            )->0;
            &&& adjacent(t, u, v)
            &&& t.width % 2 == 0 ==> adjacent(t, v, u)
        }),
{
    let w = t.width as int;
    let h = t.height as int;
    assert(h <= w * h) by (nonlinear_arith)
        requires
            1 <= h,
            1 <= w,
    ;
    lemma_tile_offset(w, h, u);
    vstd::arithmetic::div_mod::lemma_basic_div(u, h);
    let r = tile_row(h, u);
    let v = offset_index(w, h, w, r - 1)->0;
    lemma_offset_index_tile(w, h, w, r - 1);
    assert(tile_col(h, u) == 1);
    assert(neighbor_tile(t, u, 3) == Some(v));
    if w % 2 == 0 {
        assert(neighbor_tile(t, v, 0) == Some(u));
    }
}

/// How many entries of `e` hold a territory.
pub open spec fn assigned_count(e: Seq<Option<ClosestZone>>) -> nat
    decreases e.len(),
{
    if e.len() == 0 {
        0
    } else {
        assigned_count(e.drop_last()) + (if e.last() is Some { 1nat } else { 0nat })
    }
}

/// The sum of the costs held in `e`.
spec fn cost_total(e: Seq<Option<ClosestZone>>) -> nat
    decreases e.len(),
{
    if e.len() == 0 {
        0
    } else {
        cost_total(e.drop_last()) + (match e.last() {
            Some(z) => z.cost as nat,
            None => 0nat,
        })
    }
}

proof fn lemma_assign(e: Seq<Option<ClosestZone>>, i: int, z: ClosestZone)
    requires
        0 <= i < e.len(),
    ensures
        assigned_count(e.update(i, Some(z))) == assigned_count(e) + (if e[i] is None {
            1nat
        } else {
            0nat
        }),
        e[i] matches Some(z0) ==> cost_total(e.update(i, Some(z))) + z0.cost == cost_total(e)
            + z.cost,
    decreases e.len(),
{
    let e2 = e.update(i, Some(z));
    if i == e.len() - 1 {
        assert(e2.drop_last() =~= e.drop_last());
    } else {
        lemma_assign(e.drop_last(), i, z);
        assert(e2.drop_last() =~= e.drop_last().update(i, Some(z)));
    }
}

proof fn lemma_count_bounds(e: Seq<Option<ClosestZone>>)
    ensures
        assigned_count(e) <= e.len(),
        forall|i: int| 0 <= i < e.len() && #[trigger] e[i] is Some ==> assigned_count(e) >= 1,
    decreases e.len(),
{
    if e.len() > 0 {
        lemma_count_bounds(e.drop_last());
        assert forall|i: int| 0 <= i < e.len() && #[trigger] e[i] is Some implies assigned_count(e)
            >= 1 by {
            if i < e.len() - 1 {
                assert(e.drop_last()[i] is Some);
            }
        }
    }
}

/// Every assigned tile has a walk from its settlement that costs what is recorded.
spec fn witnessed(
    t: &GeneratedTerrain,
    settlements: Seq<Hex>,
    e: Seq<Option<ClosestZone>>,
    walks: Seq<Seq<int>>,
) -> bool {
    forall|v: int|
        0 <= v < e.len() && #[trigger] e[v] is Some ==> {
            &&& walk_from(t, settlements, e[v]->0.zone as int, walks[v])
            &&& walks[v].last() == v
            &&& walk_cost(t, walks[v]) == e[v]->0.cost
        }
}

/// Recorded costs are positive, and grow by one costliest step at most for
/// each tile assigned.
spec fn bounded(e: Seq<Option<ClosestZone>>) -> bool {
    forall|v: int|
        0 <= v < e.len() && #[trigger] e[v] is Some ==> 1 <= e[v]->0.cost <= MAX_ZONE_COST
            * assigned_count(e)
}

/// Each settlement's own tile is reached at cost one, by a settlement on that tile.
pub open spec fn sources_fixed(
    t: &GeneratedTerrain,
    settlements: Seq<Hex>,
    e: Seq<Option<ClosestZone>>,
) -> bool {
    forall|j: int|
        #![trigger settlements[j]]
        #![trigger e[source_tile(t, settlements, j)]]
        0 <= j < settlements.len() ==> {
            let z = e[source_tile(t, settlements, j)];
            &&& z is Some
            &&& z->0.cost == 1
            &&& z->0.zone < settlements.len()
            &&& settlements[z->0.zone as int] == settlements[j]
        }
}

/// The `k`-th step out of tile `u` cannot lower the cost recorded where it leads.
spec fn relaxed_step(t: &GeneratedTerrain, e: Seq<Option<ClosestZone>>, u: int, k: int) -> bool {
    neighbor_tile(t, u, k) matches Some(v) ==> e[v] is Some && e[v]->0.cost <= e[u]->0.cost
        + step_cost(t, u, v)
}

spec fn relaxed(t: &GeneratedTerrain, e: Seq<Option<ClosestZone>>, u: int) -> bool {
    forall|k: int| 0 <= k < 6 ==> #[trigger] relaxed_step(t, e, u, k)
}

proof fn lemma_neighbor_in_range(t: &GeneratedTerrain, u: int, k: int)
    requires
        t.wf(),
    ensures
        neighbor_tile(t, u, k) matches Some(w) ==> 0 <= w < t.tiles@.len(),
{
    lemma_index_hex_bijection(t.width as int, t.height as int);
    let p = tile_hex(t.height as int, u);
    let q = wrapped_hex(t.width as int, p.0 + neighbor_step(k).0, p.1 + neighbor_step(k).1);
    assert(hex_index(t.width as int, t.height as int, q.0, q.1) == neighbor_tile(t, u, k));
}

proof fn lemma_relaxed_step_kept(
    t: &GeneratedTerrain,
    e: Seq<Option<ClosestZone>>,
    v: int,
    z: ClosestZone,
    u: int,
    k: int,
)
    requires
        t.wf(),
        e.len() == t.tiles@.len(),
        0 <= v < e.len(),
        0 <= u < e.len(),
        u != v,
        e[v] matches Some(z0) ==> z.cost < z0.cost,
        relaxed_step(t, e, u, k),
    ensures
        relaxed_step(t, e.update(v, Some(z)), u, k),
{
    lemma_neighbor_in_range(t, u, k);
}

proof fn lemma_relaxed_kept(
    t: &GeneratedTerrain,
    e: Seq<Option<ClosestZone>>,
    v: int,
    z: ClosestZone,
    u: int,
)
    requires
        t.wf(),
        e.len() == t.tiles@.len(),
        0 <= v < e.len(),
        0 <= u < e.len(),
        u != v,
        e[v] matches Some(z0) ==> z.cost < z0.cost,
        relaxed(t, e, u),
    ensures
        relaxed(t, e.update(v, Some(z)), u),
{
    assert forall|k: int| 0 <= k < 6 implies #[trigger] relaxed_step(
        t,
        e.update(v, Some(z)),
        u,
        k,
    ) by {
        lemma_relaxed_step_kept(t, e, v, z, u, k);
    }
}

#[verifier::rlimit(30)]
proof fn lemma_walk_push(t: &GeneratedTerrain, settlements: Seq<Hex>, j: int, p: Seq<int>, v: int)
    requires
        walk_from(t, settlements, j, p),
        0 <= v < t.tiles@.len(),
        adjacent(t, p.last(), v),
    ensures
        walk_from(t, settlements, j, p.push(v)),
        p.push(v).last() == v,
        walk_cost(t, p.push(v)) == walk_cost(t, p) + step_cost(t, p.last(), v),
{
    let q = p.push(v);
    assert(q.drop_last() =~= p);
    assert forall|i: int| 0 <= i < q.len() - 1 implies adjacent(t, #[trigger] q[i], q[i + 1]) by {
        if i < p.len() - 1 {
            assert(q[i] == p[i] && q[i + 1] == p[i + 1]);
        }
    }
    assert forall|i: int| 0 <= i < q.len() implies 0 <= #[trigger] q[i] < t.tiles@.len() by {
        if i < p.len() {
            assert(q[i] == p[i]);
        }
    }
}

/// With every assigned tile relaxed, no walk from a settlement is cheaper
/// than the cost recorded where it ends.
proof fn lemma_walk_bound(
    t: &GeneratedTerrain,
    settlements: Seq<Hex>,
    e: Seq<Option<ClosestZone>>,
    j: int,
    p: Seq<int>,
)
    requires
        e.len() == t.tiles@.len(),
        sources_fixed(t, settlements, e),
        forall|u: int| 0 <= u < e.len() && #[trigger] e[u] is Some ==> relaxed(t, e, u),
        walk_from(t, settlements, j, p),
    ensures
        e[p.last()] matches Some(z) && z.cost <= walk_cost(t, p),
    decreases p.len(),
{
    if p.len() == 1 {
        assert(e[source_tile(t, settlements, j)] is Some);
    } else {
        let q = p.drop_last();
        assert forall|i: int| 0 <= i < q.len() - 1 implies adjacent(t, #[trigger] q[i], q[i + 1]) by {
            assert(q[i] == p[i] && q[i + 1] == p[i + 1]);
        }
        assert forall|i: int| 0 <= i < q.len() implies 0 <= #[trigger] q[i] < t.tiles@.len() by {
            assert(q[i] == p[i]);
        }
        lemma_walk_bound(t, settlements, e, j, q);
        let u = q.last();
        let v = p.last();
        assert(u == p[p.len() - 2]);
        assert(adjacent(t, p[p.len() - 2], p[p.len() - 1]));
        assert(relaxed(t, e, u));
        if neighbor_tile(t, u, 0) == Some(v) {
            assert(relaxed_step(t, e, u, 0));
        } else if neighbor_tile(t, u, 1) == Some(v) {
            assert(relaxed_step(t, e, u, 1));
        } else if neighbor_tile(t, u, 2) == Some(v) {
            assert(relaxed_step(t, e, u, 2));
        } else if neighbor_tile(t, u, 3) == Some(v) {
            assert(relaxed_step(t, e, u, 3));
        } else if neighbor_tile(t, u, 4) == Some(v) {
            assert(relaxed_step(t, e, u, 4));
        } else {
            assert(relaxed_step(t, e, u, 5));
        }
    }
}


/// What the flood fill keeps true of its map `e`, its witness walks and its queue `q`.
#[verifier::opaque]
spec fn zone_inv(
    t: &GeneratedTerrain,
    settlements: Seq<Hex>,
    e: Seq<Option<ClosestZone>>,
    walks: Seq<Seq<int>>,
    q: Seq<usize>,
) -> bool {
    &&& e.len() == t.tiles@.len()
    &&& walks.len() == t.tiles@.len()
    &&& witnessed(t, settlements, e, walks)
    &&& bounded(e)
    &&& assigned_count(e) <= e.len()
    &&& sources_fixed(t, settlements, e)
    &&& forall|j: int|
        0 <= j < settlements.len() ==> 0 <= #[trigger] source_tile(t, settlements, j) < e.len()
    &&& forall|i: int| 0 <= i < q.len() ==> #[trigger] q[i] < e.len() && e[q[i] as int] is Some
}

/// Every assigned tile but `u` that is out of the queue has been relaxed.
#[verifier::opaque]
spec fn closed_except(t: &GeneratedTerrain, e: Seq<Option<ClosestZone>>, q: Seq<usize>, u: int) -> bool {
    forall|w: int|
        0 <= w < e.len() && w != u && #[trigger] e[w] is Some && !q.contains(w as usize) ==> relaxed(
            t,
            e,
            w,
        )
}

/// The first `k` steps out of tile `u` have been relaxed.
#[verifier::opaque]
spec fn relaxed_upto(t: &GeneratedTerrain, e: Seq<Option<ClosestZone>>, u: int, k: int) -> bool {
    forall|kk: int| 0 <= kk < k ==> #[trigger] relaxed_step(t, e, u, kk)
}

proof fn lemma_zone_cost_bounds(x: crate::terrain::TerrainType)
    ensures
        2 <= zone_cost(x) <= MAX_ZONE_COST,
{
}

proof fn lemma_step_cost_bounds(t: &GeneratedTerrain, u: int, v: int)
    ensures
        1 <= step_cost(t, u, v) <= MAX_ZONE_COST,
{
    lemma_zone_cost_bounds(t.tiles@[u]);
    lemma_zone_cost_bounds(t.tiles@[v]);
}

proof fn lemma_inv_cost(
    t: &GeneratedTerrain,
    settlements: Seq<Hex>,
    e: Seq<Option<ClosestZone>>,
    walks: Seq<Seq<int>>,
    q: Seq<usize>,
    u: int,
)
    requires
        zone_inv(t, settlements, e, walks, q),
        0 <= u < e.len(),
        e[u] is Some,
    ensures
        1 <= e[u]->0.cost <= MAX_ZONE_COST * e.len(),
{
    reveal(zone_inv);
    assert(MAX_ZONE_COST * assigned_count(e) <= MAX_ZONE_COST * e.len());
}

proof fn lemma_inv_pop(
    t: &GeneratedTerrain,
    settlements: Seq<Hex>,
    e: Seq<Option<ClosestZone>>,
    walks: Seq<Seq<int>>,
    q: Seq<usize>,
)
    requires
        zone_inv(t, settlements, e, walks, q),
        q.len() > 0,
    ensures
        zone_inv(t, settlements, e, walks, q.subrange(1, q.len() as int)),
        q[0] < e.len(),
        e[q[0] as int] is Some,
{
    reveal(zone_inv);
    let q2 = q.subrange(1, q.len() as int);
    assert forall|i: int| 0 <= i < q2.len() implies #[trigger] q2[i] < e.len() && e[q2[i] as int] is Some by {
        assert(q2[i] == q[i + 1]);
    }
    assert(q[0] < e.len() && e[q[0] as int] is Some);
}

proof fn lemma_closed_pop(t: &GeneratedTerrain, e: Seq<Option<ClosestZone>>, q: Seq<usize>)
    requires
        closed_except(t, e, q, -1),
        q.len() > 0,
        e.len() <= usize::MAX,
    ensures
        closed_except(t, e, q.subrange(1, q.len() as int), q[0] as int),
{
    reveal(closed_except);
    let q2 = q.subrange(1, q.len() as int);
    assert forall|w: int|
        0 <= w < e.len() && w != q[0] as int && #[trigger] e[w] is Some && !q2.contains(
            w as usize,
        ) implies relaxed(t, e, w) by {
        if q.contains(w as usize) {
            let i = choose|i: int| 0 <= i < q.len() && q[i] == w as usize;
            if i == 0 {
                assert(q[0] as int == w);
            }
            assert(q2[i - 1] == w as usize);
        }
    }
}

proof fn lemma_closed_all(t: &GeneratedTerrain, e: Seq<Option<ClosestZone>>, q: Seq<usize>, u: int)
    requires
        closed_except(t, e, q, u),
        relaxed_upto(t, e, u, 6),
    ensures
        closed_except(t, e, q, -1),
{
    reveal(closed_except);
    reveal(relaxed_upto);
    assert forall|w: int|
        0 <= w < e.len() && w != -1 && #[trigger] e[w] is Some && !q.contains(w as usize) implies relaxed(
        t,
        e,
        w,
    ) by {
        if w == u {
            assert forall|k: int| 0 <= k < 6 implies #[trigger] relaxed_step(t, e, u, k) by {}
        }
    }
}

proof fn lemma_relaxed_upto_next(t: &GeneratedTerrain, e: Seq<Option<ClosestZone>>, u: int, k: int)
    requires
        0 <= k,
        relaxed_upto(t, e, u, k),
        relaxed_step(t, e, u, k),
    ensures
        relaxed_upto(t, e, u, k + 1),
{
    reveal(relaxed_upto);
}

/// An improving update of tile `v`, reached in one step from `u`, keeps
/// everything the flood fill relies on.
proof fn lemma_relax_update(
    t: &GeneratedTerrain,
    settlements: Seq<Hex>,
    e: Seq<Option<ClosestZone>>,
    walks: Seq<Seq<int>>,
    q: Seq<usize>,
    u: int,
    k: int,
    v: int,
    z: ClosestZone,
)
    requires
        t.wf(),
        zone_inv(t, settlements, e, walks, q),
        closed_except(t, e, q, u),
        relaxed_upto(t, e, u, k),
        0 <= k < 6,
        0 <= u < e.len(),
        0 <= v < e.len(),
        e[u] is Some,
        neighbor_tile(t, u, k) == Some(v),
        z.zone == e[u]->0.zone,
        z.cost == e[u]->0.cost + step_cost(t, u, v),
        e[v] is None || z.cost < e[v]->0.cost,
    ensures
        u != v,
        ({
            let e2 = e.update(v, Some(z));
            let q2 = q.push(v as usize);
            &&& zone_inv(t, settlements, e2, walks.update(v, walks[u].push(v)), q2)
            &&& assigned_count(e2) <= e2.len()
            &&& closed_except(t, e2, q2, u)
            &&& relaxed_upto(t, e2, u, k + 1)
            &&& e2[u] == e[u]
            &&& assigned_count(e2) == assigned_count(e) + (if e[v] is None {
                1nat
            } else {
                0nat
            })
            &&& e[v] is Some ==> cost_total(e2) < cost_total(e)
        }),
{
    reveal(zone_inv);
    reveal(closed_except);
    reveal(relaxed_upto);
    lemma_step_cost_bounds(t, u, v);
    let e2 = e.update(v, Some(z));
    let q2 = q.push(v as usize);
    let w2 = walks.update(v, walks[u].push(v));
    assert(u != v);
    lemma_assign(e, v, z);
    lemma_count_bounds(e2);
    assert(adjacent(t, u, v));
    lemma_walk_push(t, settlements, z.zone as int, walks[u], v);
    assert(witnessed(t, settlements, e2, w2));
    assert(MAX_ZONE_COST * assigned_count(e) + MAX_ZONE_COST <= MAX_ZONE_COST * assigned_count(e2)
        || e[v] is Some);
    assert(bounded(e2));
    assert forall|j: int| 0 <= j < settlements.len() implies {
        let zz = #[trigger] e2[source_tile(t, settlements, j)];
        &&& zz is Some
        &&& zz->0.cost == 1
        &&& zz->0.zone < settlements.len()
        &&& settlements[zz->0.zone as int] == settlements[j]
    } by {
        let src = source_tile(t, settlements, j);
        assert(0 <= src < e.len());
        assert(e[src] is Some && e[src]->0.cost == 1);
        assert(1 <= e[u]->0.cost);
    }
    assert forall|i: int| 0 <= i < q2.len() implies #[trigger] q2[i] < e2.len() && e2[q2[i] as int] is Some by {
        if i < q.len() {
            assert(q2[i] == q[i]);
        }
    }
    assert forall|w: int|
        0 <= w < e2.len() && w != u && #[trigger] e2[w] is Some && !q2.contains(w as usize) implies relaxed(
        t,
        e2,
        w,
    ) by {
        vstd::seq_lib::lemma_seq_contains_after_push(q, v as usize, w as usize);
        lemma_relaxed_kept(t, e, v, z, w);
    }
    assert forall|kk: int| 0 <= kk < k + 1 implies #[trigger] relaxed_step(t, e2, u, kk) by {
        if kk < k {
            lemma_relaxed_step_kept(t, e, v, z, u, kk);
        }
    }
}

/// A step to a tile whose recorded cost is already no higher is relaxed as it stands.
proof fn lemma_relax_keep(
    t: &GeneratedTerrain,
    e: Seq<Option<ClosestZone>>,
    u: int,
    k: int,
    v: int,
)
    requires
        0 <= k,
        relaxed_upto(t, e, u, k),
        e[u] is Some,
        neighbor_tile(t, u, k) == Some(v),
        e[v] is Some,
        e[v]->0.cost <= e[u]->0.cost + step_cost(t, u, v),
    ensures
        relaxed_upto(t, e, u, k + 1),
{
    lemma_relaxed_upto_next(t, e, u, k);
}

/// With the queue empty, the map is exact: each recorded cost is carried by a
/// walk from the recorded settlement, and no walk from any settlement is cheaper.
proof fn lemma_finish(
    t: &GeneratedTerrain,
    settlements: Seq<Hex>,
    e: Seq<Option<ClosestZone>>,
    walks: Seq<Seq<int>>,
    q: Seq<usize>,
)
    requires
        zone_inv(t, settlements, e, walks, q),
        closed_except(t, e, q, -1),
        q.len() == 0,
    ensures
        sources_fixed(t, settlements, e),
        forall|v: int|
            0 <= v < e.len() && #[trigger] e[v] is Some ==> exists|p: Seq<int>|
                {
                    &&& walk_from(t, settlements, e[v]->0.zone as int, p)
                    &&& p.last() == v
                    &&& walk_cost(t, p) == e[v]->0.cost
                },
        forall|j: int, p: Seq<int>|
            #[trigger] walk_from(t, settlements, j, p) ==> {
                &&& e[p.last()] is Some
                &&& e[p.last()]->0.cost <= walk_cost(t, p)
            },
{
    reveal(zone_inv);
    reveal(closed_except);
    assert forall|u: int| 0 <= u < e.len() && #[trigger] e[u] is Some implies relaxed(t, e, u) by {
        assert(!q.contains(u as usize));
    }
    assert forall|v: int| 0 <= v < e.len() && #[trigger] e[v] is Some implies exists|p: Seq<int>|
        {
            &&& walk_from(t, settlements, e[v]->0.zone as int, p)
            &&& p.last() == v
            &&& walk_cost(t, p) == e[v]->0.cost
        } by {
        let p = walks[v];
        assert(walk_from(t, settlements, e[v]->0.zone as int, p));
    }
    assert forall|j: int, p: Seq<int>| #[trigger] walk_from(t, settlements, j, p) implies {
        &&& e[p.last()] is Some
        &&& e[p.last()]->0.cost <= walk_cost(t, p)
    } by {
        lemma_walk_bound(t, settlements, e, j, p);
    }
}


/// Splits the map into territories: each tile goes to the settlement from
/// which it is cheapest to reach, costs growing outward from every settlement
/// at once, one neighbour step at a time. A settlement's own tile costs one.
/// With no settlements the map is empty.
pub fn partition_zones(terrain: &GeneratedTerrain, settlements: &Vec<Hex>) -> (r: ZoneMap)
    requires
        terrain.wf(),
        forall|j: int|
            0 <= j < settlements@.len() ==> (#[trigger] terrain.spec_index(settlements@[j])) is Some,
    ensures
        r.wf(),
        r.width == terrain.width,
        r.height == terrain.height,
        r.entries@.len() == terrain.tiles@.len(),
        sources_fixed(terrain, settlements@, r.entries@),
        forall|j: int|
            #![trigger settlements@[j]]
            #![trigger r.entries@[source_tile(terrain, settlements@, j)]]
            0 <= j < settlements@.len() && (forall|jj: int|
                0 <= jj < settlements@.len() && jj != j ==> settlements@[jj] != settlements@[j])
                ==> r.entries@[source_tile(terrain, settlements@, j)]->0.zone == j,
        forall|v: int|
            0 <= v < r.entries@.len() && #[trigger] r.entries@[v] is Some ==> exists|p: Seq<int>|
                {
                    &&& walk_from(terrain, settlements@, r.entries@[v]->0.zone as int, p)
                    &&& p.last() == v
                    &&& walk_cost(terrain, p) == r.entries@[v]->0.cost
                },
        forall|j: int, p: Seq<int>|
            #[trigger] walk_from(terrain, settlements@, j, p) ==> {
                &&& r.entries@[p.last()] is Some
                &&& r.entries@[p.last()]->0.cost <= walk_cost(terrain, p)
            },
{
    let n = terrain.tiles.len();
    let m = settlements.len();
    let ghost t = terrain;
    let ghost s = settlements@;
    let mut entries: Vec<Option<ClosestZone>> = Vec::new();
    let mut i: usize = 0;
    while i < n
        invariant
            i <= n,
            entries@.len() == i,
            forall|v: int| 0 <= v < i ==> #[trigger] entries@[v] is None,
        decreases n - i,
    {
        entries.push(None);
        i += 1;
    }
    let ghost mut walks: Seq<Seq<int>> = Seq::new(n as nat, |v: int| seq![v]);
    let mut queue: VecDeque<usize> = VecDeque::new();
    proof {
        lemma_index_hex_bijection(t.width as int, t.height as int);
    }
    let mut j: usize = 0;
    while j < m
        invariant
            t == terrain,
            s == settlements@,
            terrain.wf(),
            n == terrain.tiles@.len(),
            m == s.len(),
            forall|jj: int| 0 <= jj < s.len() ==> (#[trigger] t.spec_index(s[jj])) is Some,
            forall|x: int, y: int|
                #[trigger] hex_index(t.width as int, t.height as int, x, y) is Some ==> {
                    let i = hex_index(t.width as int, t.height as int, x, y)->0;
                    0 <= i < t.width * t.height && tile_hex(t.height as int, i) == (x, y)
                },
            j <= m,
            entries@.len() == n,
            walks.len() == n,
            witnessed(t, s, entries@, walks),
            forall|v: int| 0 <= v < n && #[trigger] entries@[v] is Some ==> entries@[v]->0.cost == 1,
            forall|jj: int|
                0 <= jj < j ==> {
                    let z = #[trigger] entries@[source_tile(t, s, jj)];
                    &&& z is Some
                    &&& z->0.cost == 1
                    &&& z->0.zone < s.len()
                    &&& s[z->0.zone as int] == s[jj]
                },
            forall|v: int| 0 <= v < n && #[trigger] entries@[v] is Some ==> queue@.contains(v as usize),
            forall|q: int|
                0 <= q < queue@.len() ==> #[trigger] queue@[q] < n && entries@[queue@[q] as int] is Some,
        decreases m - j,
    {
        proof {
            assert(t.spec_index(s[j as int]) is Some);
        }
        let src = terrain.index_of(settlements[j]).unwrap();
        proof {
            assert(src as int == source_tile(t, s, j as int));
            assert forall|jj: int| 0 <= jj < j && source_tile(t, s, jj) == src implies s[jj] == s[j as int] by {
                assert(t.spec_index(s[jj]) is Some);
            }
        }
        entries.set(src, Some(ClosestZone::new(j, 1)));
        proof {
            walks = walks.update(src as int, seq![src as int]);
            vstd::seq_lib::lemma_seq_contains_after_push(queue@, src, src);
            assert forall|v: int| 0 <= v < n && #[trigger] entries@[v] is Some implies queue@.push(src).contains(v as usize) by {
                vstd::seq_lib::lemma_seq_contains_after_push(queue@, src, v as usize);
            }
        }
        queue.push_back(src);
        j += 1;
    }
    proof {
        lemma_count_bounds(entries@);
        reveal(zone_inv);
        reveal(closed_except);
        assert forall|jj: int| 0 <= jj < s.len() implies 0 <= #[trigger] source_tile(t, s, jj) < n by {
            assert(t.spec_index(s[jj]) is Some);
        }
        assert(zone_inv(t, s, entries@, walks, queue@));
        assert(closed_except(t, entries@, queue@, -1));
    }
    while queue.len() > 0
        invariant
            t == terrain,
            s == settlements@,
            terrain.wf(),
            n == terrain.tiles@.len(),
            m == s.len(),
            entries@.len() == n,
            zone_inv(t, s, entries@, walks, queue@),
            closed_except(t, entries@, queue@, -1),
            assigned_count(entries@) <= n,
        decreases n - assigned_count(entries@), cost_total(entries@), queue@.len(),
    {
        let ghost e0 = entries@;
        let ghost q0 = queue@;
        proof {
            lemma_inv_pop(t, s, e0, walks, q0);
            lemma_closed_pop(t, e0, q0);
        }
        let u = queue.pop_front().unwrap();
        let current = entries[u].unwrap();
        proof {
            lemma_inv_cost(t, s, e0, walks, queue@, u as int);
            assert(u < MAX_SIDE * t.height) by (nonlinear_arith)
                requires
                    u < t.width * t.height,
                    t.width <= MAX_SIDE,
                    1 <= t.height,
            ;
            lemma_tile_offset(t.width as int, t.height as int, u as int);
            reveal(relaxed_upto);
            assert(relaxed_upto(t, e0, u as int, 0));
        }
        let hu = GeneratedTerrain::index_to_hex(terrain.height, u);
        let nbs = hu.all_neighbors();
        let this_cost = terrain_zone_cost(terrain.tiles[u]);
        let mut k: usize = 0;
        while k < 6
            invariant
                t == terrain,
                s == settlements@,
                terrain.wf(),
                n == terrain.tiles@.len(),
                u < n,
                k <= 6,
                entries@.len() == n,
                entries@[u as int] == Some(current),
                1 <= current.cost <= MAX_ZONE_COST * n,
                this_cost == zone_cost(t.tiles@[u as int]),
                (hu.x as int, hu.y as int) == tile_hex(t.height as int, u as int),
                1 <= hu.x <= MAX_SIDE,
                -MAX_SIDE <= hu.y <= MAX_SIDE + 1,
                forall|kk: int|
                    0 <= kk < 6 ==> (#[trigger] nbs@[kk].x as int, nbs@[kk].y as int)
                        == hu.spec_neighbor(kk),
                zone_inv(t, s, entries@, walks, queue@),
                closed_except(t, entries@, queue@, u as int),
                relaxed_upto(t, entries@, u as int, k as int),
                assigned_count(entries@) <= n,
                assigned_count(entries@) >= assigned_count(e0),
                assigned_count(entries@) > assigned_count(e0) || cost_total(entries@) < cost_total(e0)
                    || (entries@ == e0 && queue@.len() == q0.len() - 1),
                assigned_count(entries@) == assigned_count(e0) ==> cost_total(entries@)
                    <= cost_total(e0),
            decreases 6 - k,
        {
            let nh = wrap_hex(terrain.width, nbs[k]);
            match terrain.index_of(nh) {
                None => {
                    proof {
                        reveal(relaxed_upto);
                        assert(neighbor_tile(t, u as int, k as int) is None);
                        assert(relaxed_step(t, entries@, u as int, k as int));
                        lemma_relaxed_upto_next(t, entries@, u as int, k as int);
                    }
                },
                Some(v) => {
                    proof {
                        assert(neighbor_tile(t, u as int, k as int) == Some(v as int));
                        lemma_neighbor_in_range(t, u as int, k as int);
                    }
                    let next_cost = terrain_zone_cost(terrain.tiles[v]);
                    let step: usize = if next_cost > this_cost {
                        next_cost
                    } else {
                        next_cost / 2
                    };
                    proof {
                        assert(MAX_ZONE_COST * n <= MAX_ZONE_COST * MAX_TILES);
                    }
                    let candidate: u64 = current.cost + step as u64;
                    let better = match entries[v] {
                        None => true,
                        Some(e) => candidate < e.cost,
                    };
                    if better {
                        let z = ClosestZone::new(current.zone, candidate);
                        proof {
                            lemma_relax_update(
                                t,
                                s,
                                entries@,
                                walks,
                                queue@,
                                u as int,
                                k as int,
                                v as int,
                                z,
                            );
                        }
                        entries.set(v, Some(z));
                        proof {
                            walks = walks.update(v as int, walks[u as int].push(v as int));
                        }
                        queue.push_back(v);
                    } else {
                        proof {
                            lemma_relax_keep(t, entries@, u as int, k as int, v as int);
                        }
                    }
                },
            }
            k += 1;
        }
        proof {
            lemma_closed_all(t, entries@, queue@, u as int);
        }
    }
    proof {
        lemma_finish(t, s, entries@, walks, queue@);
        assert forall|j: int|
            #![trigger s[j]]
            #![trigger entries@[source_tile(t, s, j)]]
            0 <= j < s.len() && (forall|jj: int| 0 <= jj < s.len() && jj != j ==> s[jj] != s[j])
                implies entries@[source_tile(t, s, j)]->0.zone == j by {
            let z = entries@[source_tile(t, s, j)]->0;
            assert(s[z.zone as int] == s[j]);
        }
    }
    ZoneMap { width: terrain.width, height: terrain.height, entries }
}

} // verus!
