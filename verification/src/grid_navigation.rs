//! Walking along a found path, and the grid the game starts with.
use vstd::prelude::*;
use crate::grid_system::{HexNavGrid, CellData, GridView, default_cell};

verus! {

/// The path an entity walks; its last entry is the waypoint it heads for.
pub struct NavPath {
    pub path: Vec<(i32, i32)>,
}

impl NavPath {
    /// The waypoint being walked to: the last entry, or `None` when the walk
    /// is over.
    pub fn next_waypoint(&self) -> (w: Option<(i32, i32)>)
        ensures
            self.path@.len() == 0 ==> w is None,
            self.path@.len() > 0 ==> w == Some(self.path@.last()),
    {
        let n = self.path.len();
        if n == 0 {
            None
        } else {
            Some(self.path[n - 1])
        }
    }

    /// The current waypoint has been reached: it is dropped, and the one
    /// before it becomes the next.
    pub fn waypoint_reached(&mut self)
        ensures
            old(self).path@.len() == 0 ==> final(self).path@ == old(self).path@,
            old(self).path@.len() > 0 ==> final(self).path@ == old(self).path@.drop_last(),
    {
        self.path.pop();
    }
}

/// The cells of the starting grid that are walls.
pub open spec fn wall_cells() -> Seq<(i32, i32)> {
    seq![
        (2i32, -1i32),
        (2i32, 0i32),
        (2i32, 1i32),
        (2i32, 2i32),
        (-3i32, 1i32),
        (-3i32, 3i32),
        (0i32, -3i32),
        (1i32, -3i32),
        (2i32, -3i32),
    ]
}

/// What a wall cell holds: it cannot be entered, at the highest cost.
pub open spec fn wall_cell() -> CellData {
    CellData { walkable: false, cost: u32::MAX }
}

/// The nine walls of the starting grid, named one by one.
pub open spec fn is_starting_wall(c: (i32, i32)) -> bool {
    ||| c == (2i32, -1i32)
    ||| c == (2i32, 0i32)
    ||| c == (2i32, 1i32)
    ||| c == (2i32, 2i32)
    ||| c == (-3i32, 1i32)
    ||| c == (-3i32, 3i32)
    ||| c == (0i32, -3i32)
    ||| c == (1i32, -3i32)
    ||| c == (2i32, -3i32)
}

/// The wall list holds exactly the nine starting walls, each once.
pub proof fn law_wall_cells_are_the_nine()
    ensures
        wall_cells().len() == 9,
        wall_cells().no_duplicates(),
        forall|c: (i32, i32)| wall_cells().contains(c) <==> is_starting_wall(c),
{
    assert forall|c: (i32, i32)| wall_cells().contains(c) <==> is_starting_wall(c) by {
        if is_starting_wall(c) {
            if c == (2i32, -1i32) { assert(wall_cells()[0] == c); }
            else if c == (2i32, 0i32) { assert(wall_cells()[1] == c); }
            else if c == (2i32, 1i32) { assert(wall_cells()[2] == c); }
            else if c == (2i32, 2i32) { assert(wall_cells()[3] == c); }
            else if c == (-3i32, 1i32) { assert(wall_cells()[4] == c); }
            else if c == (-3i32, 3i32) { assert(wall_cells()[5] == c); }
            else if c == (0i32, -3i32) { assert(wall_cells()[6] == c); }
            else if c == (1i32, -3i32) { assert(wall_cells()[7] == c); }
            else { assert(wall_cells()[8] == c); }
        }
    }
}

/// In the starting grid the cells that cannot be entered are exactly the
/// nine starting walls; every other cell is walkable at cost 1.
pub proof fn law_starting_grid_walls(g: GridView)
    requires
        forall|c: (i32, i32)|
            g.in_bounds(c) ==> #[trigger] g.cells[c] == if wall_cells().contains(c) {
                wall_cell()
            } else {
                default_cell()
            },
    ensures
        forall|c: (i32, i32)| g.in_bounds(c) ==> (#[trigger] g.cells[c].walkable <==> !is_starting_wall(c)),
        forall|c: (i32, i32)|
            g.in_bounds(c) && !is_starting_wall(c) ==> #[trigger] g.cells[c] == (CellData { walkable: true, cost: 1 }),
{
    law_wall_cells_are_the_nine();
}

/// The grid the game starts with: 161 by 141 cells around the origin, all
/// walkable at cost 1 except the wall cells.
pub fn setup_hex_nav_grid() -> (grid: HexNavGrid)
    ensures
        grid.well_formed(),
        grid@.radius_q == 80,
        grid@.radius_r == 70,
        forall|c: (i32, i32)| #[trigger] grid@.cells.dom().contains(c) <==> grid@.in_bounds(c),
        forall|c: (i32, i32)|
            grid@.in_bounds(c) ==> #[trigger] grid@.cells[c] == if wall_cells().contains(c) {
                wall_cell()
            } else {
                default_cell()
            },
        forall|c: (i32, i32)| grid@.in_bounds(c) ==> (#[trigger] grid@.cells[c].walkable <==> !is_starting_wall(c)),
        forall|c: (i32, i32)|
            grid@.in_bounds(c) && !is_starting_wall(c) ==> #[trigger] grid@.cells[c] == (CellData { walkable: true, cost: 1 }),
{
    assert(crate::grid_system::valid_radii(80, 70)) by (nonlinear_arith);
    let mut grid = HexNavGrid::new(80, 70);
    let walls: [(i32, i32); 9] = [(2, -1), (2, 0), (2, 1), (2, 2), (-3, 1), (-3, 3), (0, -3), (1, -3), (2, -3)];
    assert(walls@ == wall_cells());
    let mut i: usize = 0;
    while i < 9
        invariant
            walls@ == wall_cells(),
            i <= 9,
            grid.well_formed(),
            grid@.radius_q == 80,
            grid@.radius_r == 70,
            forall|c: (i32, i32)| #[trigger] grid@.cells.dom().contains(c) <==> grid@.in_bounds(c),
            forall|c: (i32, i32)|
                grid@.in_bounds(c) ==> #[trigger] grid@.cells[c] == if wall_cells().take(i as int).contains(c) {
                    wall_cell()
                } else {
                    default_cell()
                },
        decreases 9 - i,
    {
        let (q, r) = walls[i];
        grid.set_cell(q, r, false, u32::MAX);
        proof {
            assert forall|c: (i32, i32)| grid@.in_bounds(c) implies #[trigger] grid@.cells[c] == if wall_cells().take(i + 1).contains(c) {
                wall_cell()
            } else {
                default_cell()
            } by {
                assert(wall_cells().take(i + 1) == wall_cells().take(i as int).push((q, r)));
                if c == (q, r) {
                    assert(wall_cells().take(i + 1)[i as int] == c);
                }
            }
        }
        i = i + 1;
    }
    assert(wall_cells().take(9) == wall_cells());
    proof {
        law_starting_grid_walls(grid@);
    }
    grid
}

} // verus!
