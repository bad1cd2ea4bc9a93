//! A hexagonal navigation grid in axial coordinates, stored as a flat,
//! row-major vector of cells.
use vstd::prelude::*;
use crate::hex::{hex_adjacent, hex_direction, hex_dist, abs};
use crate::frontier::{Frontier, PriorityNode};
use vstd::multiset::Multiset;
use crate::search_maps::{
    LinkMap, CostMap, link_entries, cost_entries, new_link_map, link_map_insert, link_map_contains,
    link_map_get, new_cost_map, cost_map_insert, cost_map_contains, cost_map_get,
};

verus! {

broadcast use vstd::multiset::group_multiset_axioms;

/// What a cell of the navigation grid holds.
#[derive(Clone, Copy, Debug, PartialEq, Eq, Structural)]
pub struct CellData {
    pub walkable: bool,
    /// The cost of entering this cell, in whole units.
    pub cost: u32,
}

impl Default for CellData {
    /// A walkable cell of cost 1.
    fn default() -> (c: Self)
        ensures
            c.walkable,
            c.cost == 1,
    {
        CellData { walkable: true, cost: 1 }
    }
}

/// The cell that a new grid is filled with.
pub open spec fn default_cell() -> CellData {
    CellData { walkable: true, cost: 1 }
}

/// The abstract grid: its two radii and the cell at each in-bounds
/// coordinate.
pub struct GridView {
    pub radius_q: int,
    pub radius_r: int,
    pub cells: Map<(i32, i32), CellData>,
}

/// `(q, r)` lies in the rectangle of axial coordinates that the radii span.
pub open spec fn within_radii(radius_q: int, radius_r: int, q: int, r: int) -> bool {
    -radius_q <= q <= radius_q && -radius_r <= r <= radius_r
}

impl GridView {
    pub open spec fn in_bounds(self, c: (i32, i32)) -> bool {
        within_radii(self.radius_q, self.radius_r, c.0 as int, c.1 as int)
    }

    /// The cell exists and can be entered.
    pub open spec fn walkable(self, c: (i32, i32)) -> bool {
        self.cells.dom().contains(c) && self.cells[c].walkable
    }

    /// `path` is a non-empty walk through walkable cells, each step going to
    /// an adjacent hexagon.
    pub open spec fn is_walk(self, path: Seq<(i32, i32)>) -> bool {
        &&& path.len() > 0
        &&& forall|i: int| 0 <= i < path.len() ==> self.walkable(#[trigger] path[i])
        &&& forall|i: int| 0 <= i < path.len() - 1 ==> hex_adjacent(#[trigger] path[i], path[i + 1])
    }
}

impl GridView {
    /// Some walk leads from `start` to `target`.
    pub open spec fn connects(self, start: (i32, i32), target: (i32, i32)) -> bool {
        exists|p: Seq<(i32, i32)>| self.is_walk(p) && p[0] == start && p.last() == target
    }
}

/// A walk followed backwards is a walk: whenever some walk leads from `a`
/// to `b`, one leads from `b` to `a`, so the search finds a path one way
/// exactly when it finds one the other way.
pub proof fn law_connects_symmetric(g: GridView, a: (i32, i32), b: (i32, i32))
    requires
        g.connects(a, b),
    ensures
        g.connects(b, a),
{
    let p = choose|p: Seq<(i32, i32)>| g.is_walk(p) && p[0] == a && p.last() == b;
    lemma_reverse_walk(g, p);
    assert(p.reverse()[0] == b && p.reverse().last() == a);
}

/// A walk read backwards is a walk.
pub proof fn lemma_reverse_walk(g: GridView, p: Seq<(i32, i32)>)
    requires
        g.is_walk(p),
    ensures
        g.is_walk(p.reverse()),
{
    let rev = p.reverse();
    assert forall|i: int| 0 <= i < rev.len() - 1 implies hex_adjacent(#[trigger] rev[i], rev[i + 1]) by {
        let j = p.len() - 2 - i;
        assert(rev[i] == p[j + 1]);
        assert(rev[i + 1] == p[j]);
        assert(hex_adjacent(p[j], p[j + 1]));
    }
    assert forall|i: int| 0 <= i < rev.len() implies g.walkable(#[trigger] rev[i]) by {
        assert(rev[i] == p[p.len() - 1 - i]);
    }
}

/// No walk is shorter than the hexagon distance between its ends: a walk
/// of `n` cells spans at most `n - 1` steps of distance. This is what makes
/// the distance a sound estimate for the search's priorities.
pub proof fn law_walk_no_shorter_than_distance(g: GridView, p: Seq<(i32, i32)>)
    requires
        g.is_walk(p),
    ensures
        hex_dist(p[0].0 as int, p[0].1 as int, p.last().0 as int, p.last().1 as int) <= p.len() - 1,
{
    crate::hex::lemma_chain_no_shorter(p);
}

/// `a + b`, held at `u64::MAX` where it would go past it: how the search
/// adds up costs.
pub open spec fn capped_sum(a: int, b: int) -> int {
    if a + b > u64::MAX {
        u64::MAX as int
    } else {
        a + b
    }
}

/// What following a walk costs: the costs of the cells it enters, that is
/// of every cell but the first.
pub open spec fn walk_cost(g: GridView, p: Seq<(i32, i32)>) -> int
    decreases p.len(),
{
    if p.len() <= 1 {
        0
    } else {
        walk_cost(g, p.drop_last()) + g.cells[p.last()].cost
    }
}

/// The priority with which the search puts cell `c`, reached at `cost`,
/// into its open set: the cost plus the hexagon distance from `c` to the
/// goal, capped.
pub open spec fn search_priority(cost: int, c: (i32, i32), goal: (i32, i32)) -> int {
    capped_sum(cost, hex_dist(c.0 as int, c.1 as int, goal.0 as int, goal.1 as int))
}

/// A walk whose entered cells each cost at least 1 costs at least its
/// number of steps.
proof fn lemma_walk_cost_at_least_steps(g: GridView, p: Seq<(i32, i32)>)
    requires
        p.len() > 0,
        forall|i: int| 1 <= i < p.len() ==> g.cells[#[trigger] p[i]].cost >= 1,
    ensures
        walk_cost(g, p) >= p.len() - 1,
    decreases p.len(),
{
    if p.len() > 1 {
        let q = p.drop_last();
        assert forall|i: int| 1 <= i < q.len() implies g.cells[#[trigger] q[i]].cost >= 1 by {
            assert(q[i] == p[i]);
        }
        lemma_walk_cost_at_least_steps(g, q);
        assert(g.cells[p[p.len() - 1]].cost >= 1);
    }
}

/// The distance part of a priority never outweighs the cells: where every
/// cell costs at least 1, the priority of a cell reached at `cost` is at
/// most what it costs to reach it and then walk on to the goal, by any
/// walk; and short of the cap it is exactly the cost plus the distance,
/// the two added with equal weight.
pub proof fn law_priority_never_overestimates(g: GridView, cost: int, p: Seq<(i32, i32)>)
    requires
        g.is_walk(p),
        0 <= cost,
        forall|i: int| 1 <= i < p.len() ==> g.cells[#[trigger] p[i]].cost >= 1,
    ensures
        search_priority(cost, p[0], p.last()) <= capped_sum(cost, walk_cost(g, p)),
        cost + hex_dist(p[0].0 as int, p[0].1 as int, p.last().0 as int, p.last().1 as int) <= u64::MAX
            ==> search_priority(cost, p[0], p.last()) == cost + hex_dist(
            p[0].0 as int,
            p[0].1 as int,
            p.last().0 as int,
            p.last().1 as int,
        ),
{
    crate::hex::lemma_chain_no_shorter(p);
    lemma_walk_cost_at_least_steps(g, p);
}

/// Reading a cell back after writing it gives what was written, and every
/// other cell keeps its value.
pub proof fn law_set_then_get(
    before: GridView,
    after: GridView,
    c: (i32, i32),
    cell: CellData,
    other: (i32, i32),
)
    requires
        before.in_bounds(c),
        after.cells == before.cells.insert(c, cell),
    ensures
        after.cells.dom().contains(c),
        after.cells[c] == cell,
        other != c ==> after.cells.dom().contains(other) == before.cells.dom().contains(other),
        other != c && before.cells.dom().contains(other) ==> after.cells[other] == before.cells[other],
{
}

/// The position in the flat cell vector of the cell at `(q, r)`.
pub open spec fn flat_index(radius_q: int, radius_r: int, q: int, r: int) -> int {
    (r + radius_r) * (2 * radius_q + 1) + (q + radius_q)
}

/// The axial coordinates of the cell stored at position `idx`.
pub open spec fn coords_of_index(radius_q: int, radius_r: int, idx: int) -> (int, int) {
    let width = 2 * radius_q + 1;
    (idx % width - radius_q, idx / width - radius_r)
}

/// The grid dimensions that a grid can be built with: non-negative radii
/// whose cell count fits in an `i32`.
pub open spec fn valid_radii(radius_q: int, radius_r: int) -> bool {
    &&& radius_q >= 0
    &&& radius_r >= 0
    &&& (2 * radius_q + 1) * (2 * radius_r + 1) <= i32::MAX
}

/// The radii that a grid can be built from: doubling each stays within
/// `i32`, the two have the same sign (so that the cell count is positive)
/// and the cell count fits in an `i32`. With both radii negative the grid
/// holds cells but none of them is in bounds.
pub open spec fn buildable_radii(radius_q: int, radius_r: int) -> bool {
    &&& -0x4000_0000 <= radius_q
    &&& -0x4000_0000 <= radius_r
    &&& (radius_q >= 0) == (radius_r >= 0)
    &&& (2 * radius_q + 1) * (2 * radius_r + 1) <= i32::MAX
}

/// Buildable radii give a positive cell count that bounds each dimension,
/// and are valid exactly when they are not negative.
pub proof fn lemma_buildable_radii_bounds(radius_q: int, radius_r: int)
    requires
        buildable_radii(radius_q, radius_r),
    ensures
        cell_count(radius_q, radius_r) >= 1,
        abs(2 * radius_q + 1) <= cell_count(radius_q, radius_r),
        abs(2 * radius_r + 1) <= cell_count(radius_q, radius_r),
        valid_radii(radius_q, radius_r) <==> radius_q >= 0,
{
    let w = 2 * radius_q + 1;
    let h = 2 * radius_r + 1;
    if radius_q >= 0 {
        lemma_valid_radii_bounds(radius_q, radius_r);
    } else {
        assert(w * h >= -w && w * h >= -h) by (nonlinear_arith)
            requires
                w <= -1,
                h <= -1,
        ;
    }
}

pub open spec fn cell_count(radius_q: int, radius_r: int) -> int {
    (2 * radius_q + 1) * (2 * radius_r + 1)
}

/// Each radius of a valid grid is small enough that stepping one cell past
/// its edge stays within `i32`.
pub proof fn lemma_valid_radii_bounds(radius_q: int, radius_r: int)
    requires
        valid_radii(radius_q, radius_r),
    ensures
        2 * radius_q + 1 <= cell_count(radius_q, radius_r),
        2 * radius_r + 1 <= cell_count(radius_q, radius_r),
        cell_count(radius_q, radius_r) >= 1,
{
    assert((2 * radius_q + 1) * 1 <= (2 * radius_q + 1) * (2 * radius_r + 1)) by (nonlinear_arith)
        requires
            radius_q >= 0,
            radius_r >= 0,
    ;
    assert(1 * (2 * radius_r + 1) <= (2 * radius_q + 1) * (2 * radius_r + 1)) by (nonlinear_arith)
        requires
            radius_q >= 0,
            radius_r >= 0,
    ;
}

/// An in-bounds cell has a position inside the flat vector.
pub proof fn lemma_flat_index_in_range(radius_q: int, radius_r: int, q: int, r: int)
    requires
        radius_q >= 0,
        radius_r >= 0,
        within_radii(radius_q, radius_r, q, r),
    ensures
        0 <= flat_index(radius_q, radius_r, q, r) < cell_count(radius_q, radius_r),
{
    let w = 2 * radius_q + 1;
    let h = 2 * radius_r + 1;
    let x = q + radius_q;
    let y = r + radius_r;
    assert(0 <= y * w + x < h * w) by (nonlinear_arith)
        requires
            0 <= x < w,
            0 <= y < h,
    ;
    assert(h * w == w * h) by (nonlinear_arith);
}

/// Reading the coordinates back from a cell's position gives the cell.
pub proof fn lemma_coords_of_flat_index(radius_q: int, radius_r: int, q: int, r: int)
    requires
        radius_q >= 0,
        radius_r >= 0,
        within_radii(radius_q, radius_r, q, r),
    ensures
        coords_of_index(radius_q, radius_r, flat_index(radius_q, radius_r, q, r)) == (q, r),
{
    let w = 2 * radius_q + 1;
    let x = q + radius_q;
    let y = r + radius_r;
    vstd::arithmetic::div_mod::lemma_fundamental_div_mod_converse(y * w + x, w, y, x);
}

/// Every position of the flat vector holds an in-bounds cell, and that
/// cell's position is the one it was read from.
pub proof fn lemma_flat_index_of_coords(radius_q: int, radius_r: int, idx: int)
    requires
        radius_q >= 0,
        radius_r >= 0,
        0 <= idx < cell_count(radius_q, radius_r),
    ensures
        within_radii(radius_q, radius_r, coords_of_index(radius_q, radius_r, idx).0, coords_of_index(radius_q, radius_r, idx).1),
        flat_index(radius_q, radius_r, coords_of_index(radius_q, radius_r, idx).0, coords_of_index(radius_q, radius_r, idx).1) == idx,
{
    let w = 2 * radius_q + 1;
    let h = 2 * radius_r + 1;
    vstd::arithmetic::div_mod::lemma_fundamental_div_mod(idx, w);
    vstd::arithmetic::div_mod::lemma_mod_pos_bound(idx, w);
    let y = idx / w;
    let x = idx % w;
    assert(0 <= y < h) by (nonlinear_arith)
        requires
            idx == w * y + x,
            0 <= x < w,
            0 <= idx < w * h,
            w > 0,
    {
        if y >= h {
            assert(w * y >= w * h);
        }
        if y < 0 {
            assert(w * y <= -w);
        }
    }
    assert(w * h == (2 * radius_q + 1) * (2 * radius_r + 1));
    assert(y * w == w * y) by (nonlinear_arith);
}

/// A hexagonal navigation grid.
pub struct HexNavGrid {
    cells: Vec<CellData>,
    radius_q: i32,
    radius_r: i32,
    width: i32,
}

impl HexNavGrid {
    /// The radii are valid, the width matches them and the vector holds one
    /// cell per in-bounds coordinate.
    pub closed spec fn well_formed(&self) -> bool {
        &&& buildable_radii(self.radius_q as int, self.radius_r as int)
        &&& self.width == 2 * self.radius_q + 1
        &&& self.cells@.len() == cell_count(self.radius_q as int, self.radius_r as int)
        &&& self.radius_q < 0 ==> forall|i: int| 0 <= i < self.cells@.len() ==> #[trigger] self.cells@[i] == default_cell()
    }

    pub closed spec fn grid_view(&self) -> GridView {
        GridView {
            radius_q: self.radius_q as int,
            radius_r: self.radius_r as int,
            cells: Map::new(
                |c: (i32, i32)| within_radii(self.radius_q as int, self.radius_r as int, c.0 as int, c.1 as int),
                |c: (i32, i32)| self.cells@[flat_index(self.radius_q as int, self.radius_r as int, c.0 as int, c.1 as int)],
            ),
        }
    }
}

impl HexNavGrid {
    /// Builds a grid of `(2 * radius_q + 1) * (2 * radius_r + 1)` cells,
    /// each of them walkable with cost 1. Two negative radii give a grid
    /// whose cells all lie outside its bounds.
    pub fn new(radius_q: i32, radius_r: i32) -> (grid: Self)
        requires
            buildable_radii(radius_q as int, radius_r as int),
        ensures
            grid.well_formed(),
            grid@.radius_q == radius_q,
            grid@.radius_r == radius_r,
            forall|c: (i32, i32)| #[trigger] grid@.cells.dom().contains(c) <==> grid@.in_bounds(c),
            forall|c: (i32, i32)| grid@.in_bounds(c) ==> #[trigger] grid@.cells[c] == default_cell(),
    {
        proof {
            lemma_buildable_radii_bounds(radius_q as int, radius_r as int);
        }
        let width = radius_q * 2 + 1;
        let height = radius_r * 2 + 1;
        assert(width * height == cell_count(radius_q as int, radius_r as int));
        let size = (width * height) as usize;
        let mut cells: Vec<CellData> = Vec::new();
        while cells.len() < size
            invariant
                cells.len() <= size,
                forall|i: int| 0 <= i < cells.len() ==> #[trigger] cells@[i] == default_cell(),
            decreases size - cells.len(),
        {
            cells.push(CellData::default());
        }
        let grid = HexNavGrid { cells, radius_q, radius_r, width };
        assert forall|c: (i32, i32)| grid@.in_bounds(c) implies #[trigger] grid@.cells[c] == default_cell() by {
            lemma_flat_index_in_range(radius_q as int, radius_r as int, c.0 as int, c.1 as int);
        }
        assert(cells@.len() == size);
        grid
    }

    /// A well-formed grid has valid radii, and its view holds a cell at
    /// exactly the in-bounds coordinates.
    pub proof fn lemma_view_cells_in_bounds(&self)
        requires
            self.well_formed(),
        ensures
            buildable_radii(self@.radius_q, self@.radius_r),
            forall|c: (i32, i32)| #[trigger] self@.cells.dom().contains(c) <==> self@.in_bounds(c),
            forall|c: (i32, i32)| self@.in_bounds(c) ==> valid_radii(self@.radius_q, self@.radius_r),
    {
    }

    /// The position in the cell vector of an in-bounds cell.
    fn index(&self, q: i32, r: i32) -> (idx: usize)
        requires
            self.well_formed(),
            self@.in_bounds((q, r)),
        ensures
            idx == flat_index(self@.radius_q, self@.radius_r, q as int, r as int),
            idx < self.cells@.len(),
    {
        proof {
            lemma_buildable_radii_bounds(self.radius_q as int, self.radius_r as int);
            lemma_flat_index_in_range(self.radius_q as int, self.radius_r as int, q as int, r as int);
            lemma_valid_radii_bounds(self.radius_q as int, self.radius_r as int);
        }
        let x = (q + self.radius_q) as usize;
        let y = (r + self.radius_r) as usize;
        assert(y * self.width <= flat_index(self.radius_q as int, self.radius_r as int, q as int, r as int));
        y * self.width as usize + x
    }

    /// The radius of the grid along `q`.
    pub fn radius_q(&self) -> (r: i32)
        ensures
            r == self@.radius_q,
    {
        self.radius_q
    }

    /// Whether `(q, r)` lies inside the grid.
    pub fn in_bounds(&self, q: i32, r: i32) -> (b: bool)
        requires
            self.well_formed(),
        ensures
            b == self@.in_bounds((q, r)),
    {
        q >= -self.radius_q && q <= self.radius_q && r >= -self.radius_r && r <= self.radius_r
    }

    /// The cell at `(q, r)`, or `None` outside the grid.
    pub fn get_cell(&self, q: i32, r: i32) -> (cell: Option<&CellData>)
        requires
            self.well_formed(),
        ensures
            self@.in_bounds((q, r)) ==> cell == Some(&self@.cells[(q, r)]),
            !self@.in_bounds((q, r)) ==> cell is None,
    {
        if !self.in_bounds(q, r) {
            return None;
        }
        let idx = self.index(q, r);
        Some(&self.cells[idx])
    }

    /// Overwrites the cell at `(q, r)`; outside the grid nothing changes.
    pub fn set_cell(&mut self, q: i32, r: i32, walkable: bool, cost: u32)
        requires
            old(self).well_formed(),
        ensures
            final(self).well_formed(),
            final(self)@.radius_q == old(self)@.radius_q,
            final(self)@.radius_r == old(self)@.radius_r,
            old(self)@.in_bounds((q, r)) ==> final(self)@.cells == old(self)@.cells.insert(
                (q, r),
                (CellData { walkable, cost }),
            ),
            !old(self)@.in_bounds((q, r)) ==> final(self)@.cells == old(self)@.cells,
    {
        if !self.in_bounds(q, r) {
            return;
        }
        let idx = self.index(q, r);
        self.cells.set(idx, CellData { walkable, cost });
        proof {
            let ghost rq = self.radius_q as int;
            let ghost rr = self.radius_r as int;
            assert forall|c: (i32, i32)| #[trigger] self@.cells.dom().contains(c) implies self@.cells[c]
                == old(self)@.cells.insert((q, r), CellData { walkable, cost })[c] by {
                let ic = flat_index(rq, rr, c.0 as int, c.1 as int);
                lemma_flat_index_in_range(rq, rr, c.0 as int, c.1 as int);
                if c != (q, r) {
                    lemma_coords_of_flat_index(rq, rr, c.0 as int, c.1 as int);
                    lemma_coords_of_flat_index(rq, rr, q as int, r as int);
                    assert(ic != idx);
                    assert(self.cells@[ic] == old(self).cells@[ic]);
                    assert(old(self)@.cells.dom().contains(c));
                } else {
                    assert(self.cells@[ic] == CellData { walkable, cost });
                }
            }
            assert(self@.cells =~= old(self)@.cells.insert((q, r), CellData { walkable, cost }));
        }
    }
}

/// `|x|` for an `i32` whose absolute value fits.
fn abs_i32(x: i32) -> (a: i32)
    requires
        x > i32::MIN,
    ensures
        a == abs(x as int),
{
    if x < 0 {
        -x
    } else {
        x
    }
}

impl HexNavGrid {
    /// The six hexagons adjacent to `(q, r)`: bottom-left, left, top-left,
    /// top-right, right, bottom-right.
    pub fn neighbors(q: i32, r: i32) -> (n: [(i32, i32); 6])
        requires
            i32::MIN < q < i32::MAX,
            i32::MIN < r < i32::MAX,
        ensures
            forall|i: int|
                0 <= i < 6 ==> (#[trigger] n@[i]).0 == q + hex_direction(i).0 && n@[i].1 == r
                    + hex_direction(i).1,
            forall|i: int| 0 <= i < 6 ==> hex_adjacent((q, r), #[trigger] n@[i]),
    {
        [(q - 1, r + 1), (q - 1, r), (q, r - 1), (q + 1, r - 1), (q + 1, r), (q, r + 1)]
    }

    /// The number of steps between two hexagons, computed in `i32`; the
    /// requirements are that no intermediate sum overflows.
    pub fn hex_distance(a_q: i32, a_r: i32, b_q: i32, b_r: i32) -> (d: i32)
        requires
            i32::MIN < a_q - b_q <= i32::MAX,
            i32::MIN <= a_q + a_r <= i32::MAX,
            i32::MIN <= a_q + a_r - b_q <= i32::MAX,
            i32::MIN < a_q + a_r - b_q - b_r <= i32::MAX,
            i32::MIN < a_r - b_r <= i32::MAX,
            abs(a_q - b_q) + abs(a_q + a_r - b_q - b_r) <= i32::MAX,
            abs(a_q - b_q) + abs(a_q + a_r - b_q - b_r) + abs(a_r - b_r) <= i32::MAX,
        ensures
            d == hex_dist(a_q as int, a_r as int, b_q as int, b_r as int),
    {
        (abs_i32(a_q - b_q) + abs_i32(a_q + a_r - b_q - b_r) + abs_i32(a_r - b_r)) / 2
    }

    /// Every cell together with its coordinates, in storage order.
    pub fn iter_cells(&self) -> (out: Vec<((i32, i32), CellData)>)
        requires
            self.well_formed(),
            self@.radius_q < 0 ==> -3 * self@.radius_q <= i32::MAX + 2,
        ensures
            out@.len() == cell_count(self@.radius_q, self@.radius_r),
            forall|i: int|
                0 <= i < out@.len() ==> {
                    &&& (#[trigger] out@[i]).0.0 == coords_of_index(self@.radius_q, self@.radius_r, i).0
                    &&& out@[i].0.1 == coords_of_index(self@.radius_q, self@.radius_r, i).1
                    &&& self@.radius_q >= 0 ==> self@.cells.dom().contains(out@[i].0) && out@[i].1
                        == self@.cells[out@[i].0]
                    &&& self@.radius_q < 0 ==> out@[i].1 == default_cell()
                },
    {
        let mut out: Vec<((i32, i32), CellData)> = Vec::new();
        let n = self.cells.len();
        let ghost rq = self.radius_q as int;
        let ghost rr = self.radius_r as int;
        proof {
            lemma_buildable_radii_bounds(rq, rr);
        }
        let mut idx: usize = 0;
        while idx < n
            invariant
                self.well_formed(),
                n == self.cells@.len(),
                idx <= n,
                out@.len() == idx,
                rq == self@.radius_q,
                rr == self@.radius_r,
                cell_count(rq, rr) >= 1,
                abs(2 * rq + 1) <= cell_count(rq, rr),
                valid_radii(rq, rr) <==> rq >= 0,
                rq < 0 ==> -3 * rq <= i32::MAX + 2,
                forall|i: int|
                    0 <= i < out@.len() ==> {
                        &&& (#[trigger] out@[i]).0.0 == coords_of_index(rq, rr, i).0
                        &&& out@[i].0.1 == coords_of_index(rq, rr, i).1
                        &&& rq >= 0 ==> self@.cells.dom().contains(out@[i].0) && out@[i].1 == self@.cells[out@[i].0]
                        &&& rq < 0 ==> out@[i].1 == default_cell()
                    },
            decreases n - idx,
        {
            let w = self.width;
            let ghost wi = w as int;
            proof {
                assert(0 <= idx < cell_count(rq, rr));
                if rq >= 0 {
                    lemma_flat_index_of_coords(rq, rr, idx as int);
                } else {
                    vstd::arithmetic::div_mod::lemma_fundamental_div_mod(idx as int, wi);
                    assert(0 <= (idx as int) % wi < -wi) by (nonlinear_arith)
                        requires
                            wi <= -1,
                            idx >= 0,
                    ;
                    assert((idx as int) / wi <= 0 && (idx as int) / wi >= -(idx as int)) by (nonlinear_arith)
                        requires
                            idx as int == wi * ((idx as int) / wi) + (idx as int) % wi,
                            0 <= (idx as int) % wi < -wi,
                            wi <= -1,
                            idx >= 0,
                    {
                        let qq = (idx as int) / wi;
                        if qq > 0 {
                            assert(wi * qq <= -qq);
                        }
                        if qq < -(idx as int) {
                            assert(wi * qq >= -qq);
                        }
                    }
                }
            }
            let x = (idx as i32) % w;
            let y = (idx as i32) / w;
            let q = x - self.radius_q;
            let r = y - self.radius_r;
            proof {
                if rq >= 0 {
                    assert(self@.cells.dom().contains((q, r)));
                } else {
                    assert(self.cells@[idx as int] == default_cell());
                }
            }
            out.push(((q, r), self.cells[idx]));
            idx = idx + 1;
        }
        out
    }
}

/// How far back along its tree a node was entered: the root comes first,
/// every other node at the moment its link was last set.
pub open spec fn entry_rank(root: (i32, i32), rank: Map<(i32, i32), nat>, x: (i32, i32)) -> nat {
    if x == root {
        0
    } else {
        rank[x]
    }
}

/// The tree that one side of the bidirectional search grows from `root`:
/// every reached cell other than the root links to an adjacent reached cell,
/// and following the links strictly lowers (cost, entry rank), so that it
/// ends at the root.
pub open spec fn search_tree(
    g: GridView,
    root: (i32, i32),
    links: Map<(i32, i32), (i32, i32)>,
    costs: Map<(i32, i32), u64>,
    rank: Map<(i32, i32), nat>,
    clock: nat,
) -> bool {
    &&& g.walkable(root)
    &&& costs.dom().contains(root)
    &&& costs[root] == 0
    &&& !links.dom().contains(root)
    &&& forall|n: (i32, i32)| #[trigger] costs.dom().contains(n) ==> n == root || links.dom().contains(n)
    &&& forall|n: (i32, i32)|
        #[trigger] links.dom().contains(n) ==> {
            let p = links[n];
            &&& costs.dom().contains(n)
            &&& g.walkable(n)
            &&& hex_adjacent(p, n)
            &&& costs.dom().contains(p)
            &&& rank.dom().contains(n)
            &&& 1 <= rank[n] <= clock
            &&& (costs[p] < costs[n] || (costs[p] == costs[n] && entry_rank(root, rank, p) < rank[n]))
        }
}

/// Every node waiting in the open set stands on a reached cell.
pub open spec fn frontier_reached(f: Multiset<PriorityNode>, costs: Map<(i32, i32), u64>) -> bool {
    forall|n: PriorityNode| #[trigger] f.count(n) > 0 ==> costs.dom().contains((n.q, n.r))
}

/// Every node waiting in the open set, but one on the root, is priced by
/// the search's rule for heading to `goal`: its priority is at least the
/// capped sum of the cell's best known cost and its distance to the goal
/// (the cost it was reached at when it was put in, which only falls later).
pub open spec fn open_set_priced(
    f: Multiset<PriorityNode>,
    costs: Map<(i32, i32), u64>,
    root: (i32, i32),
    goal: (i32, i32),
) -> bool {
    forall|m: PriorityNode|
        #[trigger] f.count(m) > 0 && (m.q, m.r) != root ==> costs.dom().contains((m.q, m.r)) && m.priority
            >= search_priority(costs[(m.q, m.r)] as int, (m.q, m.r), goal)
}

/// Some node waiting in the open set stands on cell `c`.
pub open spec fn in_frontier(f: Multiset<PriorityNode>, c: (i32, i32)) -> bool {
    exists|n: PriorityNode| #[trigger] f.count(n) > 0 && (n.q, n.r) == c
}

/// Every expanded cell is reached, and so is every walkable cell next to
/// it.
pub open spec fn expanded_closed(g: GridView, expanded: Set<(i32, i32)>, costs: Map<(i32, i32), u64>) -> bool {
    forall|c: (i32, i32), n: (i32, i32)|
        #![trigger expanded.contains(c), costs.dom().contains(n)]
        expanded.contains(c) ==> costs.dom().contains(c) && (hex_adjacent(c, n) && g.walkable(n)
            ==> costs.dom().contains(n))
}

/// Every reached cell has been expanded or still waits in the open set.
pub open spec fn reached_pending(expanded: Set<(i32, i32)>, f: Multiset<PriorityNode>, costs: Map<(i32, i32), u64>) -> bool {
    forall|c: (i32, i32)| #[trigger] costs.dom().contains(c) ==> expanded.contains(c) || in_frontier(f, c)
}

/// In the search tree rooted at `root`, `a` comes strictly before `b`:
/// lower cost, or equal cost and entered earlier. Following a link always
/// goes to a cell that comes before.
pub open spec fn tree_before(
    root: (i32, i32),
    rank: Map<(i32, i32), nat>,
    costs: Map<(i32, i32), u64>,
    a: (i32, i32),
    b: (i32, i32),
) -> bool {
    costs[a] < costs[b] || (costs[a] == costs[b] && entry_rank(root, rank, a) < entry_rank(root, rank, b))
}

/// Every link leads back to an expanded cell: a cell is only ever reached
/// from a cell that was being expanded.
pub open spec fn links_from_expanded(links: Map<(i32, i32), (i32, i32)>, expanded: Set<(i32, i32)>) -> bool {
    forall|n: (i32, i32)| #[trigger] links.dom().contains(n) ==> expanded.contains(links[n])
}

/// No cell expanded by one side touches (equals or is adjacent to) a cell
/// expanded by the other side, except where the first is the other side's
/// root or the second is this side's root.
pub open spec fn sides_apart(
    expanded_a: Set<(i32, i32)>,
    root_b: (i32, i32),
    expanded_b: Set<(i32, i32)>,
    root_a: (i32, i32),
) -> bool {
    forall|c: (i32, i32), d: (i32, i32)|
        #![trigger expanded_a.contains(c), expanded_b.contains(d)]
        expanded_a.contains(c) && expanded_b.contains(d) && (c == d || hex_adjacent(c, d)) ==> (c
            == root_b || d == root_a)
}

proof fn lemma_sides_apart_flip(
    expanded_a: Set<(i32, i32)>,
    root_b: (i32, i32),
    expanded_b: Set<(i32, i32)>,
    root_a: (i32, i32),
)
    requires
        sides_apart(expanded_a, root_b, expanded_b, root_a),
    ensures
        sides_apart(expanded_b, root_a, expanded_a, root_b),
{
    assert forall|c: (i32, i32), d: (i32, i32)|
        #![trigger expanded_b.contains(c), expanded_a.contains(d)]
        expanded_b.contains(c) && expanded_a.contains(d) && (c == d || hex_adjacent(c, d)) implies (c
        == root_a || d == root_b) by {
        assert(expanded_a.contains(d) && expanded_b.contains(c));
    }
}

/// A cell adjacent to `c` is one of the six neighbours listed for it.
proof fn lemma_adjacent_is_listed(c: (i32, i32), n: (i32, i32), nbrs: Seq<(i32, i32)>)
    requires
        nbrs.len() == 6,
        forall|i: int| 0 <= i < 6 ==> (#[trigger] nbrs[i]).0 == c.0 + hex_direction(i).0 && nbrs[i].1
            == c.1 + hex_direction(i).1,
        hex_adjacent(c, n),
    ensures
        exists|i: int| 0 <= i < 6 && nbrs[i] == n,
{
    let dq = n.0 - c.0;
    let dr = n.1 - c.1;
    if dq == -1 && dr == 1 {
        assert(nbrs[0] == n);
    } else if dq == -1 && dr == 0 {
        assert(nbrs[1] == n);
    } else if dq == 0 && dr == -1 {
        assert(nbrs[2] == n);
    } else if dq == 1 && dr == -1 {
        assert(nbrs[3] == n);
    } else if dq == 1 && dr == 0 {
        assert(nbrs[4] == n);
    } else {
        assert(nbrs[5] == n);
    }
}

/// A walk that starts inside a closed set of expanded cells, with nothing
/// left waiting, never leaves it.
proof fn lemma_walk_stays_expanded(
    g: GridView,
    p: Seq<(i32, i32)>,
    expanded: Set<(i32, i32)>,
    costs: Map<(i32, i32), u64>,
    f: Multiset<PriorityNode>,
    i: int,
)
    requires
        g.is_walk(p),
        expanded.contains(p[0]),
        expanded_closed(g, expanded, costs),
        reached_pending(expanded, f, costs),
        f.len() == 0,
        0 <= i < p.len(),
    ensures
        expanded.contains(p[i]),
    decreases i,
{
    if i > 0 {
        lemma_walk_stays_expanded(g, p, expanded, costs, f, i - 1);
        if in_frontier(f, p[i]) {
            let n = choose|n: PriorityNode| #[trigger] f.count(n) > 0 && (n.q, n.r) == p[i];
            assert(f.count(n) <= f.len());
        }
        assert(hex_adjacent(p[i - 1], p[(i - 1) + 1]));
        assert(g.walkable(p[i]));
        assert(costs.dom().contains(p[i]));
    }
}

/// The coordinates stored at position `i`, as a key.
pub open spec fn key_of_index(radius_q: int, radius_r: int, i: int) -> (i32, i32) {
    let c = coords_of_index(radius_q, radius_r, i);
    (c.0 as i32, c.1 as i32)
}

/// The potential of one search side over the first `n` cells: each cell
/// counts its best known cost, or one more than any cost when unreached.
/// Every improvement the search makes lowers it.
pub open spec fn cost_potential(costs: Map<(i32, i32), u64>, radius_q: int, radius_r: int, n: nat) -> int
    decreases n,
{
    if n == 0 {
        0
    } else {
        let key = key_of_index(radius_q, radius_r, n - 1);
        cost_potential(costs, radius_q, radius_r, (n - 1) as nat) + if costs.dom().contains(key) {
            costs[key] as int
        } else {
            u64::MAX as int + 1
        }
    }
}

proof fn lemma_potential_nonneg(costs: Map<(i32, i32), u64>, radius_q: int, radius_r: int, n: nat)
    ensures
        cost_potential(costs, radius_q, radius_r, n) >= 0,
    decreases n,
{
    if n > 0 {
        lemma_potential_nonneg(costs, radius_q, radius_r, (n - 1) as nat);
    }
}

/// Lowering the cost of an in-bounds cell, or reaching it for the first
/// time, lowers the potential over any prefix that holds it.
proof fn lemma_potential_drops(
    costs: Map<(i32, i32), u64>,
    key: (i32, i32),
    v: u64,
    radius_q: int,
    radius_r: int,
    n: nat,
)
    requires
        valid_radii(radius_q, radius_r),
        within_radii(radius_q, radius_r, key.0 as int, key.1 as int),
        n <= cell_count(radius_q, radius_r),
        !costs.dom().contains(key) || v < costs[key],
    ensures
        cost_potential(costs.insert(key, v), radius_q, radius_r, n) <= cost_potential(
            costs,
            radius_q,
            radius_r,
            n,
        ) - if flat_index(radius_q, radius_r, key.0 as int, key.1 as int) < n {
            1int
        } else {
            0int
        },
    decreases n,
{
    if n > 0 {
        let i = n - 1;
        lemma_valid_radii_bounds(radius_q, radius_r);
        lemma_potential_drops(costs, key, v, radius_q, radius_r, (n - 1) as nat);
        lemma_flat_index_of_coords(radius_q, radius_r, i);
        lemma_coords_of_flat_index(radius_q, radius_r, key.0 as int, key.1 as int);
        let k = key_of_index(radius_q, radius_r, i);
        let c = coords_of_index(radius_q, radius_r, i);
        assert(k.0 as int == c.0 && k.1 as int == c.1);
        if k == key {
            assert(flat_index(radius_q, radius_r, key.0 as int, key.1 as int) == i);
        } else {
            assert(flat_index(radius_q, radius_r, key.0 as int, key.1 as int) != i);
        }
    }
}

/// The number of steps between two cells of a grid, computed without
/// overflow.
fn cell_distance(a: (i32, i32), b: (i32, i32)) -> (d: u64)
    ensures
        d == hex_dist(a.0 as int, a.1 as int, b.0 as int, b.1 as int),
{
    let dq: i64 = a.0 as i64 - b.0 as i64;
    let ds: i64 = (a.0 as i64 + a.1 as i64) - (b.0 as i64 + b.1 as i64);
    let dr: i64 = a.1 as i64 - b.1 as i64;
    let aq: i64 = if dq < 0 { -dq } else { dq };
    let as_: i64 = if ds < 0 { -ds } else { ds };
    let ar: i64 = if dr < 0 { -dr } else { dr };
    ((aq + as_ + ar) / 2) as u64
}

impl HexNavGrid {
    /// Expands `current` on one side of the search: every walkable
    /// neighbour reached more cheaply than before gets the new cost, a place
    /// in the open set (its priority adds the distance to `goal`) and a link
    /// back to `current`.
    fn expand_from(
        &self,
        current: (i32, i32),
        goal: (i32, i32),
        frontier: &mut Frontier,
        links: &mut LinkMap,
        costs: &mut CostMap,
        Ghost(root): Ghost<(i32, i32)>,
        Ghost(rank): Ghost<Map<(i32, i32), nat>>,
        Ghost(clock): Ghost<nat>,
    ) -> (out: Ghost<(Map<(i32, i32), nat>, nat)>)
        requires
            self.well_formed(),
            search_tree(self@, root, link_entries(*old(links)), cost_entries(*old(costs)), rank, clock),
            old(frontier).well_formed(),
            frontier_reached(old(frontier)@, cost_entries(*old(costs))),
            cost_entries(*old(costs)).dom().contains(current),
        ensures
            final(frontier).well_formed(),
            search_tree(self@, root, link_entries(*final(links)), cost_entries(*final(costs)), out@.0, out@.1),
            frontier_reached(final(frontier)@, cost_entries(*final(costs))),
            2 * cost_potential(cost_entries(*final(costs)), self@.radius_q, self@.radius_r, cell_count(self@.radius_q, self@.radius_r) as nat)
                + final(frontier)@.len()
                <= 2 * cost_potential(cost_entries(*old(costs)), self@.radius_q, self@.radius_r, cell_count(self@.radius_q, self@.radius_r) as nat)
                + old(frontier)@.len(),
            forall|c: (i32, i32)| #[trigger] cost_entries(*final(costs)).dom().contains(c) ==> cost_entries(
                *old(costs),
            ).dom().contains(c) || in_frontier(final(frontier)@, c),
            forall|c: (i32, i32)| #[trigger] cost_entries(*old(costs)).dom().contains(c) ==> cost_entries(
                *final(costs),
            ).dom().contains(c),
            forall|n: PriorityNode| #[trigger] old(frontier)@.count(n) <= final(frontier)@.count(n),
            forall|n: (i32, i32)| hex_adjacent(current, n) && self@.walkable(n) ==> #[trigger] cost_entries(
                *final(costs),
            ).dom().contains(n),
            forall|c: (i32, i32)| #[trigger] cost_entries(*final(costs)).dom().contains(c) && !cost_entries(
                *old(costs),
            ).dom().contains(c) ==> hex_adjacent(current, c),
            forall|n: (i32, i32)| #[trigger] link_entries(*final(links)).dom().contains(n) ==> link_entries(
                *final(links),
            )[n] == current || (link_entries(*old(links)).dom().contains(n) && link_entries(*final(links))[n]
                == link_entries(*old(links))[n]),
            forall|c: (i32, i32)| #[trigger] cost_entries(*final(costs)).dom().contains(c) ==> (cost_entries(
                *old(costs),
            ).dom().contains(c) && cost_entries(*final(costs))[c] == cost_entries(*old(costs))[c]) || (
            hex_adjacent(current, c) && self@.walkable(c) && cost_entries(*final(costs))[c] == capped_sum(
                cost_entries(*old(costs))[current] as int,
                self@.cells[c].cost as int,
            ) && (!cost_entries(*old(costs)).dom().contains(c) || cost_entries(*final(costs))[c]
                < cost_entries(*old(costs))[c])),
            forall|n: (i32, i32)| hex_adjacent(current, n) && self@.walkable(n) ==> #[trigger] cost_entries(
                *final(costs),
            )[n] <= capped_sum(cost_entries(*old(costs))[current] as int, self@.cells[n].cost as int),
            forall|m: PriorityNode| #[trigger] final(frontier)@.count(m) > old(frontier)@.count(m) ==> {
                let c = (m.q, m.r);
                &&& hex_adjacent(current, c)
                &&& self@.walkable(c)
                &&& cost_entries(*final(costs)).dom().contains(c)
                &&& cost_entries(*final(costs))[c] == capped_sum(
                    cost_entries(*old(costs))[current] as int,
                    self@.cells[c].cost as int,
                )
                &&& m.priority == search_priority(cost_entries(*final(costs))[c] as int, c, goal)
            },
    {
        let ghost g = self@;
        let ghost links0 = link_entries(*links);
        let ghost costs0 = cost_entries(*costs);
        let ghost f0 = frontier@;
        let ghost rq = self@.radius_q;
        let ghost rr = self@.radius_r;
        let ghost total = cell_count(rq, rr) as nat;
        let ghost mut rank = rank;
        let ghost mut clock = clock;
        let ghost pot0 = 2 * cost_potential(cost_entries(*costs), rq, rr, total) + frontier@.len();
        proof {
            lemma_valid_radii_bounds(rq, rr);
            assert(g.walkable(current));
        }
        let nbrs = Self::neighbors(current.0, current.1);
        let mut k: usize = 0;
        while k < 6
            invariant
                self.well_formed(),
                g == self@,
                rq == g.radius_q,
                rr == g.radius_r,
                total == cell_count(rq, rr),
                valid_radii(rq, rr),
                forall|i: int| 0 <= i < 6 ==> hex_adjacent(current, #[trigger] nbrs@[i]),
                search_tree(g, root, link_entries(*links), cost_entries(*costs), rank, clock),
                frontier_reached(frontier@, cost_entries(*costs)),
                cost_entries(*costs).dom().contains(current),
                2 * cost_potential(cost_entries(*costs), rq, rr, total) + frontier@.len() <= pot0,
                k <= 6,
                forall|i: int| 0 <= i < 6 ==> (#[trigger] nbrs@[i]).0 == current.0 + hex_direction(i).0 && nbrs@[i].1
                    == current.1 + hex_direction(i).1,
                forall|c: (i32, i32)| #[trigger] cost_entries(*costs).dom().contains(c) ==> costs0.dom().contains(c)
                    || in_frontier(frontier@, c),
                forall|c: (i32, i32)| #[trigger] costs0.dom().contains(c) ==> cost_entries(*costs).dom().contains(c),
                frontier.well_formed(),
                forall|n: PriorityNode| #[trigger] f0.count(n) <= frontier@.count(n),
                forall|i: int| 0 <= i < k && g.walkable(#[trigger] nbrs@[i]) ==> cost_entries(*costs).dom().contains(nbrs@[i]),
                forall|c: (i32, i32)| #[trigger] cost_entries(*costs).dom().contains(c) && !costs0.dom().contains(c)
                    ==> hex_adjacent(current, c),
                forall|n: (i32, i32)| #[trigger] link_entries(*links).dom().contains(n) ==> link_entries(*links)[n]
                    == current || (links0.dom().contains(n) && link_entries(*links)[n] == links0[n]),
                cost_entries(*costs)[current] == costs0[current],
                forall|c: (i32, i32)| #[trigger] cost_entries(*costs).dom().contains(c) ==> (costs0.dom().contains(c)
                    && cost_entries(*costs)[c] == costs0[c]) || (hex_adjacent(current, c) && g.walkable(c)
                    && cost_entries(*costs)[c] == capped_sum(costs0[current] as int, g.cells[c].cost as int) && (
                !costs0.dom().contains(c) || cost_entries(*costs)[c] < costs0[c])),
                forall|i: int| 0 <= i < k && g.walkable(#[trigger] nbrs@[i]) ==> cost_entries(*costs)[nbrs@[i]]
                    <= capped_sum(costs0[current] as int, g.cells[nbrs@[i]].cost as int),
                forall|m: PriorityNode| #[trigger] frontier@.count(m) > f0.count(m) ==> {
                    let c = (m.q, m.r);
                    &&& hex_adjacent(current, c)
                    &&& g.walkable(c)
                    &&& cost_entries(*costs).dom().contains(c)
                    &&& cost_entries(*costs)[c] == capped_sum(costs0[current] as int, g.cells[c].cost as int)
                    &&& m.priority == search_priority(cost_entries(*costs)[c] as int, c, goal)
                },
            decreases 6 - k,
        {
            let next = nbrs[k];
            match self.get_cell(next.0, next.1) {
                Some(cell) => {
                    if cell.walkable {
                        let base = cost_map_get(costs, &current);
                        let new_cost = base.saturating_add(cell.cost as u64);
                        let improves = if !cost_map_contains(costs, &next) {
                            true
                        } else {
                            new_cost < cost_map_get(costs, &next)
                        };
                        if improves {
                            let ghost old_costs = cost_entries(*costs);
                            let ghost old_links = link_entries(*links);
                            let ghost old_len = frontier@.len();
                            let ghost old_frontier = frontier@;
                            proof {
                                assert(next != root);
                                assert(next != current);
                                lemma_potential_drops(old_costs, next, new_cost, rq, rr, total);
                                lemma_flat_index_in_range(rq, rr, next.0 as int, next.1 as int);
                            }
                            cost_map_insert(costs, next, new_cost);
                            let priority = new_cost.saturating_add(cell_distance(next, goal));
                            frontier.push(PriorityNode { priority, q: next.0, r: next.1 });
                            link_map_insert(links, next, current);
                            proof {
                                clock = clock + 1;
                                rank = rank.insert(next, clock);
                                let new_costs = cost_entries(*costs);
                                let new_links = link_entries(*links);
                                assert(g.walkable(next));
                                assert forall|n: (i32, i32)| #[trigger] new_links.dom().contains(n) implies {
                                    let p = new_links[n];
                                    &&& new_costs.dom().contains(n)
                                    &&& g.walkable(n)
                                    &&& hex_adjacent(p, n)
                                    &&& new_costs.dom().contains(p)
                                    &&& rank.dom().contains(n)
                                    &&& 1 <= rank[n] <= clock
                                    &&& (new_costs[p] < new_costs[n] || (new_costs[p] == new_costs[n]
                                        && entry_rank(root, rank, p) < rank[n]))
                                } by {
                                    if n != next {
                                        assert(old_links.dom().contains(n));
                                    }
                                }
                                let node = PriorityNode { priority, q: next.0, r: next.1 };
                                assert(frontier@ == old_frontier.insert(node));
                                assert forall|m: PriorityNode| #[trigger] frontier@.count(m) > 0 implies new_costs.dom().contains(
                                    (m.q, m.r),
                                ) by {
                                    if m != node {
                                        assert(old_frontier.count(m) > 0);
                                        assert(old_costs.dom().contains((m.q, m.r)));
                                    }
                                }
                                assert(frontier@.count(node) > 0);
                                assert(in_frontier(frontier@, next));
                                assert forall|c: (i32, i32)| #[trigger] new_costs.dom().contains(c) implies costs0.dom().contains(c)
                                    || in_frontier(frontier@, c) by {
                                    if c != next && !costs0.dom().contains(c) {
                                        assert(old_costs.dom().contains(c));
                                        assert(in_frontier(old_frontier, c));
                                        let m = choose|m: PriorityNode| #[trigger] old_frontier.count(m) > 0 && (m.q, m.r) == c;
                                        assert(frontier@.count(m) > 0);
                                    }
                                }
                                assert forall|m: PriorityNode| #[trigger] f0.count(m) <= frontier@.count(m) by {
                                    assert(f0.count(m) <= old_frontier.count(m));
                                }
                                assert(new_cost == capped_sum(costs0[current] as int, g.cells[next].cost as int));
                                assert(priority == search_priority(new_cost as int, next, goal));
                                assert(hex_adjacent(current, next));
                                if costs0.dom().contains(next) {
                                    assert(old_costs.dom().contains(next));
                                    assert(new_cost < old_costs[next]);
                                    assert(old_costs[next] == costs0[next]);
                                }
                                assert forall|m: PriorityNode| #[trigger] frontier@.count(m) > f0.count(m) implies {
                                    let c = (m.q, m.r);
                                    &&& hex_adjacent(current, c)
                                    &&& g.walkable(c)
                                    &&& new_costs.dom().contains(c)
                                    &&& new_costs[c] == capped_sum(costs0[current] as int, g.cells[c].cost as int)
                                    &&& m.priority == search_priority(new_costs[c] as int, c, goal)
                                } by {
                                    if m != node {
                                        assert(old_frontier.count(m) > f0.count(m));
                                        assert((m.q, m.r) != next);
                                    }
                                }
                            }
                        }
                    }
                },
                None => {},
            }
            k = k + 1;
        }
        proof {
            assert forall|n: (i32, i32)| hex_adjacent(current, n) && g.walkable(n) implies #[trigger] cost_entries(
                *costs,
            ).dom().contains(n) by {
                lemma_adjacent_is_listed(current, n, nbrs@);
            }
            assert forall|n: (i32, i32)| hex_adjacent(current, n) && g.walkable(n) implies #[trigger] cost_entries(
                *costs,
            )[n] <= capped_sum(costs0[current] as int, g.cells[n].cost as int) by {
                lemma_adjacent_is_listed(current, n, nbrs@);
                let i = choose|i: int| 0 <= i < 6 && nbrs@[i] == n;
                assert(g.walkable(nbrs@[i]));
            }
        }
        Ghost((rank, clock))
    }
}

/// The path being put together: a walk without repeated cells from `start`
/// to `cur`. Its first `k0 - 1` cells lie on the start side's tree (they are
/// the start or were expanded from that side), the cell at `k0 - 1` is where
/// the sides met, and the cells after it were expanded from the target side
/// and come ever earlier in its tree.
spec fn joined_walk(
    g: GridView,
    path: Seq<(i32, i32)>,
    k0: int,
    start: (i32, i32),
    target: (i32, i32),
    expanded_s: Set<(i32, i32)>,
    expanded_t: Set<(i32, i32)>,
    rank_t: Map<(i32, i32), nat>,
    costs_t: Map<(i32, i32), u64>,
    cur: (i32, i32),
) -> bool {
    &&& g.is_walk(path)
    &&& path[0] == start
    &&& path.last() == cur
    &&& 1 <= k0 <= path.len()
    &&& path.no_duplicates()
    &&& forall|i: int| 0 <= i < k0 - 1 ==> expanded_s.contains(#[trigger] path[i]) || path[i] == start
    &&& forall|i: int| k0 <= i < path.len() ==> expanded_t.contains(#[trigger] path[i])
    &&& forall|i: int| k0 - 1 <= i < path.len() - 1 ==> tree_before(target, rank_t, costs_t, cur, #[trigger] path[i])
}

/// Extending the joined path by the link from its last cell keeps it a
/// walk without repeated cells.
#[verifier::spinoff_prover]
proof fn lemma_joined_walk_step(
    g: GridView,
    path: Seq<(i32, i32)>,
    k0: int,
    start: (i32, i32),
    target: (i32, i32),
    expanded_s: Set<(i32, i32)>,
    expanded_t: Set<(i32, i32)>,
    rank_t: Map<(i32, i32), nat>,
    costs_t: Map<(i32, i32), u64>,
    cur: (i32, i32),
    next: (i32, i32),
)
    requires
        joined_walk(g, path, k0, start, target, expanded_s, expanded_t, rank_t, costs_t, cur),
        sides_apart(expanded_s, target, expanded_t, start),
        !expanded_s.contains(target),
        !expanded_t.contains(start),
        expanded_t.contains(next),
        hex_adjacent(next, cur),
        g.walkable(next),
        tree_before(target, rank_t, costs_t, next, cur),
    ensures
        joined_walk(g, path.push(next), k0, start, target, expanded_s, expanded_t, rank_t, costs_t, next),
{
    let after = path.push(next);
    assert forall|i: int| 0 <= i < path.len() implies path[i] != next by {
        if i < k0 - 1 {
            if path[i] == next && path[i] != start {
                assert(expanded_s.contains(path[i]));
            }
        } else if i < path.len() - 1 {
            assert(tree_before(target, rank_t, costs_t, cur, path[i]));
        }
    }
    assert forall|a: int, b: int| 0 <= a < after.len() && 0 <= b < after.len() && a != b implies after[a]
        != after[b] by {
        if a < path.len() && b < path.len() {
            assert(after[a] == path[a] && after[b] == path[b]);
        } else if a < path.len() {
            assert(after[a] == path[a]);
        } else {
            assert(after[b] == path[b]);
        }
    }
    assert forall|i: int| 0 <= i < k0 - 1 implies expanded_s.contains(#[trigger] after[i]) || after[i] == start by {
        assert(after[i] == path[i]);
    }
    assert forall|i: int| k0 <= i < after.len() implies expanded_t.contains(#[trigger] after[i]) by {
        if i < path.len() {
            assert(after[i] == path[i]);
        }
    }
    assert forall|i: int| k0 - 1 <= i < after.len() - 1 implies tree_before(target, rank_t, costs_t, next, #[trigger] after[i]) by {
        assert(after[i] == path[i]);
        if i < path.len() - 1 {
            assert(tree_before(target, rank_t, costs_t, cur, path[i]));
        }
    }
    assert forall|i: int| 0 <= i < after.len() - 1 implies hex_adjacent(#[trigger] after[i], after[i + 1]) by {
        if i < path.len() - 1 {
            assert(after[i] == path[i] && after[i + 1] == path[i + 1]);
        }
    }
    assert forall|i: int| 0 <= i < after.len() implies g.walkable(#[trigger] after[i]) by {
        if i < path.len() {
            assert(after[i] == path[i]);
        }
    }
}

fn same_cell(a: (i32, i32), b: (i32, i32)) -> (eq: bool)
    ensures
        eq == (a == b),
{
    a.0 == b.0 && a.1 == b.1
}

impl HexNavGrid {
    /// One turn of one side of the search: takes the open node of lowest
    /// priority; when the other side has already reached its cell, that
    /// cell is where the two meet, otherwise the node is expanded.
    fn search_step(
        &self,
        goal: (i32, i32),
        frontier: &mut Frontier,
        links: &mut LinkMap,
        costs: &mut CostMap,
        other_links: &LinkMap,
        Ghost(root): Ghost<(i32, i32)>,
        Ghost(rank): Ghost<Map<(i32, i32), nat>>,
        Ghost(clock): Ghost<nat>,
        Ghost(expanded): Ghost<Set<(i32, i32)>>,
        Ghost(other_root): Ghost<(i32, i32)>,
        Ghost(other_costs): Ghost<Map<(i32, i32), u64>>,
        Ghost(other_expanded): Ghost<Set<(i32, i32)>>,
    ) -> (out: (Option<(i32, i32)>, Ghost<(Map<(i32, i32), nat>, nat, Set<(i32, i32)>)>))
        requires
            self.well_formed(),
            old(frontier)@.len() > 0,
            old(frontier).well_formed(),
            search_tree(self@, root, link_entries(*old(links)), cost_entries(*old(costs)), rank, clock),
            frontier_reached(old(frontier)@, cost_entries(*old(costs))),
            expanded_closed(self@, expanded, cost_entries(*old(costs))),
            reached_pending(expanded, old(frontier)@, cost_entries(*old(costs))),
            forall|n: (i32, i32)| #[trigger] other_costs.dom().contains(n) ==> n == other_root
                || link_entries(*other_links).dom().contains(n),
            expanded_closed(self@, other_expanded, other_costs),
            sides_apart(expanded, other_root, other_expanded, root),
            links_from_expanded(link_entries(*old(links)), expanded),
            open_set_priced(old(frontier)@, cost_entries(*old(costs)), root, goal),
        ensures
            open_set_priced(final(frontier)@, cost_entries(*final(costs)), root, goal),
            links_from_expanded(link_entries(*final(links)), out.1@.2),
            out.0 is Some ==> out.1@.2 == expanded,
            final(frontier).well_formed(),
            search_tree(self@, root, link_entries(*final(links)), cost_entries(*final(costs)), out.1@.0, out.1@.1),
            frontier_reached(final(frontier)@, cost_entries(*final(costs))),
            2 * cost_potential(cost_entries(*final(costs)), self@.radius_q, self@.radius_r, cell_count(self@.radius_q, self@.radius_r) as nat)
                + final(frontier)@.len()
                < 2 * cost_potential(cost_entries(*old(costs)), self@.radius_q, self@.radius_r, cell_count(self@.radius_q, self@.radius_r) as nat)
                + old(frontier)@.len(),
            out.0 matches Some(m) ==> cost_entries(*final(costs)).dom().contains(m)
                && link_entries(*other_links).dom().contains(m),
            out.0 is None ==> {
                &&& expanded_closed(self@, out.1@.2, cost_entries(*final(costs)))
                &&& reached_pending(out.1@.2, final(frontier)@, cost_entries(*final(costs)))
                &&& sides_apart(out.1@.2, other_root, other_expanded, root)
                &&& exists|m: PriorityNode| #[trigger] old(frontier)@.count(m) > 0 && out.1@.2 == expanded.insert(
                    (m.q, m.r),
                ) && !link_entries(*other_links).dom().contains((m.q, m.r))
                &&& other_expanded.contains(other_root) && !cost_entries(*old(costs)).dom().contains(other_root)
                    ==> !cost_entries(*final(costs)).dom().contains(other_root)
                &&& !expanded.contains(other_root) && !cost_entries(*old(costs)).dom().contains(other_root)
                    ==> !out.1@.2.contains(other_root)
            },
    {
        let ghost before_pop = frontier@;
        let current_node = match frontier.pop() {
            Some(n) => n,
            None => {
                return (None, Ghost((rank, clock, expanded)));
            },
        };
        let current = (current_node.q, current_node.r);
        proof {
            assert(before_pop.count(current_node) > 0);
            assert(cost_entries(*costs).dom().contains(current));
            assert forall|m: PriorityNode| #[trigger] frontier@.count(m) > 0 implies cost_entries(*costs).dom().contains(
                (m.q, m.r),
            ) by {
                assert(before_pop.count(m) > 0);
            }
        }
        if link_map_contains(other_links, &current) {
            return (Some(current), Ghost((rank, clock, expanded)));
        }
        let ghost costs0 = cost_entries(*costs);
        let ghost after_pop = frontier@;
        let out = self.expand_from(
            current,
            goal,
            frontier,
            links,
            costs,
            Ghost(root),
            Ghost(rank),
            Ghost(clock),
        );
        let ghost new_expanded = expanded.insert(current);
        proof {
            let g = self@;
            let new_costs = cost_entries(*costs);
            // the open set stays priced by the rule
            assert forall|m: PriorityNode|
                #[trigger] frontier@.count(m) > 0 && (m.q, m.r) != root implies new_costs.dom().contains((m.q, m.r))
                && m.priority >= search_priority(new_costs[(m.q, m.r)] as int, (m.q, m.r), goal) by {
                if frontier@.count(m) <= after_pop.count(m) {
                    assert(before_pop.count(m) > 0);
                    assert(costs0.dom().contains((m.q, m.r)));
                    assert(new_costs.dom().contains((m.q, m.r)));
                }
            }
            // the expanded cells stay closed
            assert forall|c: (i32, i32), n: (i32, i32)|
                #![trigger new_expanded.contains(c), new_costs.dom().contains(n)]
                new_expanded.contains(c) implies new_costs.dom().contains(c) && (hex_adjacent(c, n)
                && g.walkable(n) ==> new_costs.dom().contains(n)) by {
                if c != current {
                    assert(expanded.contains(c) && costs0.dom().contains(n) ==> new_costs.dom().contains(n));
                    if hex_adjacent(c, n) && g.walkable(n) {
                        assert(costs0.dom().contains(n));
                    }
                    assert(costs0.dom().contains(c));
                }
            }
            // every reached cell is expanded or waits
            assert forall|c: (i32, i32)| #[trigger] new_costs.dom().contains(c) implies new_expanded.contains(c)
                || in_frontier(frontier@, c) by {
                if !new_expanded.contains(c) && costs0.dom().contains(c) {
                    assert(in_frontier(before_pop, c));
                    let m = choose|m: PriorityNode| #[trigger] before_pop.count(m) > 0 && (m.q, m.r) == c;
                    assert(m != current_node);
                    assert(after_pop.count(m) == before_pop.count(m));
                    assert(frontier@.count(m) >= after_pop.count(m));
                    assert(frontier@.count(m) > 0);
                }
            }
            // the two sides still only touch at their roots
            assert forall|c: (i32, i32), d: (i32, i32)|
                #![trigger new_expanded.contains(c), other_expanded.contains(d)]
                new_expanded.contains(c) && other_expanded.contains(d) && (c == d || hex_adjacent(c, d)) implies (c
                == other_root || d == root) by {
                if c == current {
                    assert(other_costs.dom().contains(d));
                    if c == d {
                        assert(other_costs.dom().contains(c));
                    } else {
                        assert(hex_adjacent(d, c));
                        assert(g.walkable(c));
                        assert(other_costs.dom().contains(c));
                    }
                }
            }
            assert(before_pop.count(current_node) > 0);
            let new_links = link_entries(*links);
            assert forall|n: (i32, i32)| #[trigger] new_links.dom().contains(n) implies new_expanded.contains(new_links[n]) by {
                if new_links[n] != current {
                    assert(link_entries(*old(links)).dom().contains(n));
                }
            }
            if other_expanded.contains(other_root) && !costs0.dom().contains(other_root) {
                if new_costs.dom().contains(other_root) {
                    assert(hex_adjacent(current, other_root));
                    assert(hex_adjacent(other_root, current));
                    assert(g.walkable(current));
                    assert(other_costs.dom().contains(current));
                }
            }
        }
        (None, Ghost((out@.0, out@.1, new_expanded)))
    }

    fn is_walkable(&self, c: (i32, i32)) -> (b: bool)
        requires
            self.well_formed(),
        ensures
            b == self@.walkable(c),
    {
        match self.get_cell(c.0, c.1) {
            Some(cell) => cell.walkable,
            None => false,
        }
    }

    /// Searches a path from `start` to `target` by growing one search tree
    /// from each end, lowest estimated cost first, until a cell reached by
    /// one side is taken from the other side's open set.
    ///
    /// `None` when either end is not a walkable cell, or when the search
    /// runs out of cells without the two sides meeting, which happens
    /// exactly when no walk connects the two. A path that is returned starts
    /// at `start`, ends at `target`, steps only between adjacent hexagons,
    /// enters only walkable in-bounds cells and enters no cell twice.
    pub fn find_path_bidirectional(&self, start: (i32, i32), target: (i32, i32)) -> (res: Option<
        Vec<(i32, i32)>,
    >)
        requires
            self.well_formed(),
        ensures
            !(self@.walkable(start) && self@.walkable(target)) ==> res is None,
            self@.walkable(start) && self@.walkable(target) && start == target ==> (res matches Some(
                p,
            ) && p@ == seq![start]),
            res matches Some(p) ==> {
                &&& self@.is_walk(p@)
                &&& p@[0] == start
                &&& p@.last() == target
            },
            res is Some <==> self@.connects(start, target),
            res matches Some(p) ==> p@.no_duplicates(),
            res matches Some(p) ==> forall|i: int| 0 <= i < p@.len() ==> self@.in_bounds(#[trigger] p@[i]),
    {
        if !self.is_walkable(start) || !self.is_walkable(target) {
            return None;
        }
        if same_cell(start, target) {
            let mut single: Vec<(i32, i32)> = Vec::new();
            single.push(start);
            assert(self@.is_walk(single@) && single@[0] == start && single@.last() == target);
            return Some(single);
        }
        let ghost g = self@;
        let ghost rq = self@.radius_q;
        let ghost rr = self@.radius_r;
        let ghost total = cell_count(rq, rr) as nat;

        let mut frontier_start = Frontier::new();
        let mut frontier_target = Frontier::new();
        frontier_start.push(PriorityNode { priority: 0, q: start.0, r: start.1 });
        frontier_target.push(PriorityNode { priority: 0, q: target.0, r: target.1 });

        let mut came_from_start = new_link_map();
        let mut came_from_target = new_link_map();
        let mut cost_so_far_start = new_cost_map();
        let mut cost_so_far_target = new_cost_map();
        cost_map_insert(&mut cost_so_far_start, start, 0);
        cost_map_insert(&mut cost_so_far_target, target, 0);

        let ghost mut rank_s: Map<(i32, i32), nat> = Map::empty();
        let ghost mut clock_s: nat = 0;
        let ghost mut rank_t: Map<(i32, i32), nat> = Map::empty();
        let ghost mut clock_t: nat = 0;
        let ghost mut expanded_s: Set<(i32, i32)> = Set::empty();
        let ghost mut expanded_t: Set<(i32, i32)> = Set::empty();
        let ghost mut first_done: bool = false;
        let ghost start_node = PriorityNode { priority: 0, q: start.0, r: start.1 };
        let ghost target_node = PriorityNode { priority: 0, q: target.0, r: target.1 };

        let mut meeting_point: Option<(i32, i32)> = None;
        proof {
            lemma_potential_nonneg(cost_entries(cost_so_far_start), rq, rr, total);
            lemma_potential_nonneg(cost_entries(cost_so_far_target), rq, rr, total);
            assert(frontier_start@ == Multiset::<PriorityNode>::empty().insert(start_node));
            assert(frontier_target@ == Multiset::<PriorityNode>::empty().insert(target_node));
            assert(cost_entries(cost_so_far_start) == Map::<(i32, i32), u64>::empty().insert(start, 0));
            assert(cost_entries(cost_so_far_target) == Map::<(i32, i32), u64>::empty().insert(target, 0));
            assert(frontier_start@.count(start_node) > 0);
            assert(frontier_target@.count(target_node) > 0);
            assert forall|m: PriorityNode| #[trigger] frontier_start@.count(m) > 0 implies m == start_node by {}
            assert forall|m: PriorityNode| #[trigger] frontier_target@.count(m) > 0 implies m == target_node by {}
            assert(in_frontier(frontier_start@, start));
            assert(in_frontier(frontier_target@, target));
            assert(link_entries(came_from_start) =~= Map::<(i32, i32), (i32, i32)>::empty());
            assert(link_entries(came_from_target) =~= Map::<(i32, i32), (i32, i32)>::empty());
        }

        while !frontier_start.is_empty() && !frontier_target.is_empty()
            invariant_except_break
                meeting_point is None,
                expanded_closed(g, expanded_s, cost_entries(cost_so_far_start)),
                expanded_closed(g, expanded_t, cost_entries(cost_so_far_target)),
                reached_pending(expanded_s, frontier_start@, cost_entries(cost_so_far_start)),
                reached_pending(expanded_t, frontier_target@, cost_entries(cost_so_far_target)),
                !cost_entries(cost_so_far_start).dom().contains(target),
                !cost_entries(cost_so_far_target).dom().contains(start),
                first_done ==> expanded_s.contains(start) && expanded_t.contains(target),
                !first_done ==> frontier_start@ == Multiset::<PriorityNode>::empty().insert(start_node)
                    && frontier_target@ == Multiset::<PriorityNode>::empty().insert(target_node),
            invariant
                self.well_formed(),
                frontier_start.well_formed(),
                frontier_target.well_formed(),
                g == self@,
                rq == g.radius_q,
                rr == g.radius_r,
                total == cell_count(rq, rr),
                start != target,
                search_tree(g, start, link_entries(came_from_start), cost_entries(cost_so_far_start), rank_s, clock_s),
                search_tree(g, target, link_entries(came_from_target), cost_entries(cost_so_far_target), rank_t, clock_t),
                frontier_reached(frontier_start@, cost_entries(cost_so_far_start)),
                frontier_reached(frontier_target@, cost_entries(cost_so_far_target)),
                sides_apart(expanded_s, target, expanded_t, start),
                links_from_expanded(link_entries(came_from_start), expanded_s),
                links_from_expanded(link_entries(came_from_target), expanded_t),
                !expanded_s.contains(target),
                !expanded_t.contains(start),
                open_set_priced(frontier_start@, cost_entries(cost_so_far_start), start, target),
                open_set_priced(frontier_target@, cost_entries(cost_so_far_target), target, start),
            ensures
                search_tree(g, start, link_entries(came_from_start), cost_entries(cost_so_far_start), rank_s, clock_s),
                search_tree(g, target, link_entries(came_from_target), cost_entries(cost_so_far_target), rank_t, clock_t),
                sides_apart(expanded_s, target, expanded_t, start),
                links_from_expanded(link_entries(came_from_start), expanded_s),
                links_from_expanded(link_entries(came_from_target), expanded_t),
                !expanded_s.contains(target),
                !expanded_t.contains(start),
                meeting_point matches Some(m) ==> cost_entries(cost_so_far_start).dom().contains(m)
                    && cost_entries(cost_so_far_target).dom().contains(m),
                meeting_point is None ==> {
                    &&& frontier_start@.len() == 0 || frontier_target@.len() == 0
                    &&& expanded_closed(g, expanded_s, cost_entries(cost_so_far_start))
                    &&& expanded_closed(g, expanded_t, cost_entries(cost_so_far_target))
                    &&& reached_pending(expanded_s, frontier_start@, cost_entries(cost_so_far_start))
                    &&& reached_pending(expanded_t, frontier_target@, cost_entries(cost_so_far_target))
                    &&& sides_apart(expanded_s, target, expanded_t, start)
                    &&& expanded_s.contains(start)
                    &&& expanded_t.contains(target)
                },
            decreases
                2 * cost_potential(cost_entries(cost_so_far_start), rq, rr, total)
                    + 2 * cost_potential(cost_entries(cost_so_far_target), rq, rr, total)
                    + frontier_start@.len() + frontier_target@.len(),
        {
            proof {
                lemma_potential_nonneg(cost_entries(cost_so_far_start), rq, rr, total);
                lemma_potential_nonneg(cost_entries(cost_so_far_target), rq, rr, total);
            }
            // Expand from the start side
            let ghost fs0 = frontier_start@;
            let (met, out) = self.search_step(
                target,
                &mut frontier_start,
                &mut came_from_start,
                &mut cost_so_far_start,
                &came_from_target,
                Ghost(start),
                Ghost(rank_s),
                Ghost(clock_s),
                Ghost(expanded_s),
                Ghost(target),
                Ghost(cost_entries(cost_so_far_target)),
                Ghost(expanded_t),
            );
            proof {
                rank_s = out@.0;
                clock_s = out@.1;
                if let Some(m) = met {
                    assert(link_entries(came_from_target).dom().contains(m));
                    assert(cost_entries(cost_so_far_target).dom().contains(m));
                } else {
                    expanded_s = out@.2;
                    if !first_done {
                        assert forall|m: PriorityNode| #[trigger] fs0.count(m) > 0 implies m == start_node by {}
                        assert(expanded_s.contains(start));
                    }
                    lemma_sides_apart_flip(expanded_s, target, expanded_t, start);
                }
            }
            if met.is_some() {
                meeting_point = met;
                break;
            }
            // Expand from the target side
            let ghost ft0 = frontier_target@;
            let ghost out_t_before = expanded_t;
            let (met, out) = self.search_step(
                start,
                &mut frontier_target,
                &mut came_from_target,
                &mut cost_so_far_target,
                &came_from_start,
                Ghost(target),
                Ghost(rank_t),
                Ghost(clock_t),
                Ghost(expanded_t),
                Ghost(start),
                Ghost(cost_entries(cost_so_far_start)),
                Ghost(expanded_s),
            );
            proof {
                rank_t = out@.0;
                clock_t = out@.1;
                if let Some(m) = met {
                    assert(link_entries(came_from_start).dom().contains(m));
                    assert(cost_entries(cost_so_far_start).dom().contains(m));
                } else {
                    expanded_t = out@.2;
                    if !first_done {
                        assert forall|m: PriorityNode| #[trigger] ft0.count(m) > 0 implies m == target_node by {}
                        assert(expanded_t.contains(target));
                        let m = choose|m: PriorityNode| #[trigger] ft0.count(m) > 0 && expanded_t == out_t_before.insert(
                            (m.q, m.r),
                        ) && !link_entries(came_from_start).dom().contains((m.q, m.r));
                        assert(m == target_node);
                        assert(!link_entries(came_from_start).dom().contains(target));
                        if cost_entries(cost_so_far_start).dom().contains(target) {
                            assert(target == start || link_entries(came_from_start).dom().contains(target));
                        }
                    }
                    lemma_sides_apart_flip(expanded_t, start, expanded_s, target);
                }
            }
            if met.is_some() {
                meeting_point = met;
                break;
            }
            proof {
                first_done = true;
                lemma_potential_nonneg(cost_entries(cost_so_far_start), rq, rr, total);
                lemma_potential_nonneg(cost_entries(cost_so_far_target), rq, rr, total);
            }
        }

        if let Some(meet) = meeting_point {
            // the way back from the meeting point to the start, nearest first
            let mut back: Vec<(i32, i32)> = Vec::new();
            let mut current = meet;
            while !same_cell(current, start)
                invariant
                    search_tree(g, start, link_entries(came_from_start), cost_entries(cost_so_far_start), rank_s, clock_s),
                    cost_entries(cost_so_far_start).dom().contains(current),
                    back@.len() == 0 ==> current == meet,
                    back@.len() > 0 ==> back@[0] == meet && hex_adjacent(current, back@.last()),
                    forall|i: int| 0 <= i < back@.len() ==> g.walkable(#[trigger] back@[i]),
                    forall|i: int| 0 <= i < back@.len() - 1 ==> hex_adjacent(#[trigger] back@[i + 1], back@[i]),
                    links_from_expanded(link_entries(came_from_start), expanded_s),
                    back@.len() > 0 ==> expanded_s.contains(current),
                    forall|i: int| 1 <= i < back@.len() ==> expanded_s.contains(#[trigger] back@[i]),
                    forall|i: int|
                        0 <= i < back@.len() ==> tree_before(start, rank_s, cost_entries(cost_so_far_start), current, #[trigger] back@[i]),
                    forall|i: int, j: int|
                        0 <= i < j < back@.len() ==> tree_before(
                            start,
                            rank_s,
                            cost_entries(cost_so_far_start),
                            #[trigger] back@[j],
                            #[trigger] back@[i],
                        ),
                decreases
                    cost_entries(cost_so_far_start)[current],
                    entry_rank(start, rank_s, current),
            {
                let ghost before = back@;
                let ghost prev = current;
                back.push(current);
                current = link_map_get(&came_from_start, &current);
                proof {
                    assert(link_entries(came_from_start).dom().contains(prev));
                    assert(tree_before(start, rank_s, cost_entries(cost_so_far_start), current, prev));
                    assert forall|i: int, j: int| 0 <= i < j < back@.len() implies tree_before(
                        start,
                        rank_s,
                        cost_entries(cost_so_far_start),
                        #[trigger] back@[j],
                        #[trigger] back@[i],
                    ) by {
                        if j < before.len() {
                            assert(back@[i] == before[i] && back@[j] == before[j]);
                        } else {
                            assert(back@[i] == before[i]);
                        }
                    }
                    assert forall|i: int| 0 <= i < back@.len() implies tree_before(
                        start,
                        rank_s,
                        cost_entries(cost_so_far_start),
                        current,
                        #[trigger] back@[i],
                    ) by {
                        if i < before.len() {
                            assert(back@[i] == before[i]);
                        }
                    }
                    assert forall|i: int| 1 <= i < back@.len() implies expanded_s.contains(#[trigger] back@[i]) by {
                        if i < before.len() {
                            assert(back@[i] == before[i]);
                        }
                    }
                }
            }
            let mut path: Vec<(i32, i32)> = Vec::new();
            path.push(start);
            let n = back.len();
            let mut j = n;
            while j > 0
                invariant
                    n == back@.len(),
                    j <= n,
                    path@.len() == 1 + (n - j),
                    path@[0] == start,
                    g.walkable(start),
                    n == 0 ==> start == meet,
                    n > 0 ==> back@[0] == meet && hex_adjacent(start, back@[n - 1]),
                    forall|i: int| 1 <= i < path@.len() ==> #[trigger] path@[i] == back@[n - i],
                    forall|i: int| 0 <= i < n ==> g.walkable(#[trigger] back@[i]),
                    forall|i: int| 0 <= i < n - 1 ==> hex_adjacent(#[trigger] back@[i + 1], back@[i]),
                decreases j,
            {
                j = j - 1;
                path.push(back[j]);
            }
            // the cells so far are distinct, and all but the meeting point were
            // expanded from the start side (or are the start)
            assert(path@.no_duplicates()) by {
                assert forall|a: int, b: int| 0 <= a < path@.len() && 0 <= b < path@.len() && a != b implies path@[a]
                    != path@[b] by {
                    let lo = if a < b { a } else { b };
                    let hi = if a < b { b } else { a };
                    assert(path@[hi] == back@[n - hi]);
                    if lo == 0 {
                        assert(tree_before(start, rank_s, cost_entries(cost_so_far_start), start, back@[n - hi]));
                    } else {
                        assert(path@[lo] == back@[n - lo]);
                        assert(tree_before(start, rank_s, cost_entries(cost_so_far_start), back@[n - lo], back@[n - hi]));
                    }
                }
            }
            assert forall|i: int| 0 <= i < path@.len() - 1 implies expanded_s.contains(#[trigger] path@[i])
                || path@[i] == start by {
                if i > 0 {
                    assert(path@[i] == back@[n - i]);
                }
            }
            let ghost k0: int = path@.len() as int;
            assert(g.is_walk(path@)) by {
                assert forall|i: int| 0 <= i < path@.len() - 1 implies hex_adjacent(#[trigger] path@[i], path@[i + 1]) by {
                    if i > 0 {
                        let m = n - i - 1;
                        assert(path@[i] == back@[n - i]);
                        assert(path@[i + 1] == back@[n - i - 1]);
                        assert(hex_adjacent(back@[m + 1], back@[m]));
                    } else {
                        assert(path@[1] == back@[n - 1]);
                    }
                }
                assert forall|i: int| 0 <= i < path@.len() implies g.walkable(#[trigger] path@[i]) by {
                    if i > 0 {
                        assert(path@[i] == back@[n - i]);
                    }
                }
            }
            assert(path@.last() == meet);

            // then on from the meeting point to the target
            let mut current_target = meet;
            proof {
                assert(joined_walk(g, path@, k0, start, target, expanded_s, expanded_t, rank_t, cost_entries(cost_so_far_target), current_target));
            }
            while !same_cell(current_target, target)
                invariant
                    search_tree(g, target, link_entries(came_from_target), cost_entries(cost_so_far_target), rank_t, clock_t),
                    cost_entries(cost_so_far_target).dom().contains(current_target),
                    sides_apart(expanded_s, target, expanded_t, start),
                    links_from_expanded(link_entries(came_from_target), expanded_t),
                    !expanded_s.contains(target),
                    !expanded_t.contains(start),
                    joined_walk(g, path@, k0, start, target, expanded_s, expanded_t, rank_t, cost_entries(cost_so_far_target), current_target),
                decreases
                    cost_entries(cost_so_far_target)[current_target],
                    entry_rank(target, rank_t, current_target),
            {
                let ghost before = path@;
                let ghost prev = current_target;
                current_target = link_map_get(&came_from_target, &current_target);
                proof {
                    assert(link_entries(came_from_target).dom().contains(prev));
                    lemma_joined_walk_step(
                        g,
                        before,
                        k0,
                        start,
                        target,
                        expanded_s,
                        expanded_t,
                        rank_t,
                        cost_entries(cost_so_far_target),
                        prev,
                        current_target,
                    );
                }
                path.push(current_target);
            }
            return Some(path);
        }
        proof {
            if g.connects(start, target) {
                let p = choose|p: Seq<(i32, i32)>| g.is_walk(p) && p[0] == start && p.last() == target;
                assert(p.len() >= 2);
                if frontier_start@.len() == 0 {
                    lemma_walk_stays_expanded(g, p, expanded_s, cost_entries(cost_so_far_start), frontier_start@, p.len() - 2);
                    assert(hex_adjacent(p[p.len() - 2], p[(p.len() - 2) + 1]));
                    assert(expanded_t.contains(p.last()));
                } else {
                    let rev = p.reverse();
                    lemma_reverse_walk(g, p);
                    assert(rev[0] == p.last());
                    lemma_walk_stays_expanded(g, rev, expanded_t, cost_entries(cost_so_far_target), frontier_target@, rev.len() - 2);
                    assert(rev[rev.len() - 2] == p[1]);
                    assert(hex_adjacent(p[0int], p[0int + 1]));
                    assert(expanded_s.contains(p[0]));
                }
            }
        }
        None
    }
}

impl View for HexNavGrid {
    type V = GridView;

    open spec fn view(&self) -> GridView {
        self.grid_view()
    }
}

} // verus!
