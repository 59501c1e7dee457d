//! Cell addressing and bounds-checked stepping on a staggered grid.

use crate::cells::current::{present_cells, CurrentCells};
use core::cmp::Ordering;
use vstd::prelude::*;
use vstd::std_specs::cmp::PartialOrdSpecImpl;

verus! {

/// Extent of the grid: a cell is on the grid when `x < width` and `y < height`.
#[derive(Clone, Copy, Debug, PartialEq, Eq, Structural)]
pub struct MapSize {
    pub width: u32,
    pub height: u32,
}

impl MapSize {
    pub fn new(width: u32, height: u32) -> (size: Self)
        ensures
            size.width == width,
            size.height == height,
    {
        Self { width, height }
    }
}

/// One of the eight directions in which a cell has a neighbour.
#[derive(Clone, Copy, Debug, PartialEq, Eq, Structural)]
pub enum Direction {
    Top,
    TopRight,
    Right,
    BottomRight,
    Bottom,
    BottomLeft,
    Left,
    TopLeft,
}

/// A position on the grid. Rows are staggered: odd rows sit half a cell to
/// the right of even rows.
#[derive(Clone, Copy, Debug, PartialEq, Eq, Structural)]
pub struct Cell {
    pub x: u32,
    pub y: u32,
}

impl Cell {
    pub fn new(x: u32, y: u32) -> (cell: Self)
        ensures
            cell.x == x,
            cell.y == y,
    {
        Self { x, y }
    }

    /// Coordinate change of one step from this cell in `direction`. The
    /// horizontal part of a diagonal step depends on the parity of the row.
    pub open spec fn spec_offset(self, direction: Direction) -> (int, int) {
        let even = self.y % 2 == 0;
        match direction {
            Direction::Top => (0int, -2int),
            Direction::TopRight => if even { (0int, -1int) } else { (1int, -1int) },
            Direction::Right => (1int, 0int),
            Direction::BottomRight => if even { (0int, 1int) } else { (1int, 1int) },
            Direction::Bottom => (0int, 2int),
            Direction::BottomLeft => if even { (-1int, 1int) } else { (0int, 1int) },
            Direction::Left => (-1int, 0int),
            Direction::TopLeft => if even { (-1int, -1int) } else { (0int, -1int) },
        }
    }

    pub fn offset(self, direction: Direction) -> (delta: (i32, i32))
        ensures
            delta.0 == self.spec_offset(direction).0,
            delta.1 == self.spec_offset(direction).1,
    {
        let is_y_even = self.y % 2 == 0;
        match (direction, is_y_even) {
            (Direction::Top, _) => (0, -2),
            (Direction::TopRight, true) => (0, -1),
            (Direction::TopRight, false) => (1, -1),
            (Direction::Right, _) => (1, 0),
            (Direction::BottomRight, true) => (0, 1),
            (Direction::BottomRight, false) => (1, 1),
            (Direction::Bottom, _) => (0, 2),
            (Direction::BottomLeft, true) => (-1, 1),
            (Direction::BottomLeft, false) => (0, 1),
            (Direction::Left, _) => (-1, 0),
            (Direction::TopLeft, true) => (-1, -1),
            (Direction::TopLeft, false) => (0, -1),
        }
    }

    /// The cell at coordinates `(x, y)` if they lie on the grid.
    pub open spec fn spec_maybe_new_from_offset(x: int, y: int, map_size: MapSize) -> Option<Cell> {
        if 0 <= x < map_size.width && 0 <= y < map_size.height {
            Some(Cell { x: x as u32, y: y as u32 })
        } else {
            None
        }
    }

    pub fn maybe_new_from_offset(x: i64, y: i64, map_size: MapSize) -> (cell: Option<Cell>)
        ensures
            cell == Self::spec_maybe_new_from_offset(x as int, y as int, map_size),
    {
        let respects_lower_map_bound = x >= 0 && y >= 0;
        let respects_higher_map_bound = x < map_size.width as i64 && y < map_size.height as i64;
        if respects_lower_map_bound && respects_higher_map_bound {
            Some(Cell::new(x as u32, y as u32))
        } else {
            None
        }
    }

    /// The neighbour of this cell in `direction`, or `None` where that
    /// neighbour would lie off the grid. Nothing wraps around or is clamped.
    pub open spec fn spec_next_cell(self, direction: Direction, map_size: MapSize) -> Option<Cell> {
        let delta = self.spec_offset(direction);
        Self::spec_maybe_new_from_offset(self.x + delta.0, self.y + delta.1, map_size)
    }

    /// A step from a cell with two rows and one column of the grid on every
    /// side of it reaches the cell that the offset gives. A step whose
    /// offset leads past an edge of the grid reaches nothing.
    pub proof fn lemma_next_cell_on_and_off_grid(
        self,
        direction: Direction,
        map_size: MapSize,
    )
        ensures
            1 <= self.x && self.x + 1 < map_size.width && 2 <= self.y && self.y + 2
                < map_size.height ==> self.spec_next_cell(direction, map_size) == Some(
                Cell {
                    x: (self.x + self.spec_offset(direction).0) as u32,
                    y: (self.y + self.spec_offset(direction).1) as u32,
                },
            ),
            self.x + self.spec_offset(direction).0 < 0 || self.x + self.spec_offset(direction).0
                >= map_size.width || self.y + self.spec_offset(direction).1 < 0 || self.y
                + self.spec_offset(direction).1 >= map_size.height ==> self.spec_next_cell(
                direction,
                map_size,
            ) is None,
    {
    }

    pub fn next_cell(self, direction: Direction, map_size: MapSize) -> (next: Option<Cell>)
        ensures
            next == self.spec_next_cell(direction, map_size),
    {
        let delta = self.offset(direction);
        Self::maybe_new_from_offset(
            self.x as i64 + delta.0 as i64,
            self.y as i64 + delta.1 as i64,
            map_size,
        )
    }

    /// The cell reached by `n` steps in `direction`. A step that leaves the
    /// grid ends the walk: the result is `None` from then on.
    pub open spec fn spec_nth_cell_in_direction(
        self,
        direction: Direction,
        n: nat,
        map_size: MapSize,
    ) -> Option<Cell>
        decreases n,
    {
        if n == 0 {
            Some(self)
        } else {
            match self.spec_nth_cell_in_direction(direction, (n - 1) as nat, map_size) {
                Some(cell) => cell.spec_next_cell(direction, map_size),
                None => None,
            }
        }
    }

    /// Once a walk has left the grid, walking further does not bring it back.
    pub proof fn lemma_walk_stays_off_grid(
        self,
        direction: Direction,
        n: nat,
        m: nat,
        map_size: MapSize,
    )
        requires
            n <= m,
            self.spec_nth_cell_in_direction(direction, n, map_size) is None,
        ensures
            self.spec_nth_cell_in_direction(direction, m, map_size) is None,
        decreases m,
    {
        if n < m {
            self.lemma_walk_stays_off_grid(direction, n, (m - 1) as nat, map_size);
        }
    }

    pub fn nth_cell_in_direction(self, direction: Direction, n: u32, map_size: MapSize) -> (cell:
        Option<Cell>)
        ensures
            cell == self.spec_nth_cell_in_direction(direction, n as nat, map_size),
    {
        let mut current = self;
        let mut taken: u32 = 0;
        while taken < n
            invariant
                taken <= n,
                self.spec_nth_cell_in_direction(direction, taken as nat, map_size) == Some(current),
            decreases n - taken,
        {
            match current.next_cell(direction, map_size) {
                Some(next) => {
                    current = next;
                    taken = taken + 1;
                },
                None => {
                    proof {
                        self.lemma_walk_stays_off_grid(
                            direction,
                            (taken + 1) as nat,
                            n as nat,
                            map_size,
                        );
                    }
                    return None;
                },
            }
        }
        Some(current)
    }

    /// The neighbours of this cell that lie on the grid, clockwise from the
    /// top.
    pub fn all_next_cells(self, map_size: MapSize) -> (cells: Vec<Cell>)
        ensures
            cells@ == present_cells(
                self.spec_directional_next_cells(map_size, Direction::spec_all()),
            ),
    {
        let directions = Direction::all();
        CurrentCells::flatten(self.directional_next_cells(map_size, directions.as_slice()))
    }

    /// The diagonal neighbours of this cell that lie on the grid, clockwise
    /// from the top right.
    pub fn diagonal_next_cells(self, map_size: MapSize) -> (cells: Vec<Cell>)
        ensures
            cells@ == present_cells(
                self.spec_directional_next_cells(map_size, Direction::spec_diagonals()),
            ),
    {
        let directions = Direction::diagonals();
        CurrentCells::flatten(self.directional_next_cells(map_size, directions.as_slice()))
    }

    /// The neighbour in each of `directions`, in the order given; `None`
    /// stands where a neighbour lies off the grid.
    pub open spec fn spec_directional_next_cells(
        self,
        map_size: MapSize,
        directions: Seq<Direction>,
    ) -> Seq<Option<Cell>> {
        Seq::new(directions.len(), |i: int| self.spec_next_cell(directions[i], map_size))
    }

    pub fn directional_next_cells(self, map_size: MapSize, directions: &[Direction]) -> (cells: Vec<
        Option<Cell>,
    >)
        ensures
            cells@ == self.spec_directional_next_cells(map_size, directions@),
    {
        let mut cells: Vec<Option<Cell>> = Vec::new();
        let mut i: usize = 0;
        while i < directions.len()
            invariant
                i <= directions.len(),
                cells@ == self.spec_directional_next_cells(map_size, directions@.take(i as int)),
            decreases directions.len() - i,
        {
            let next_cell = self.next_cell(directions[i], map_size);
            cells.push(next_cell);
            i = i + 1;
        }
        assert(directions@.take(i as int) == directions@);
        cells
    }
}

/// Cells are ordered by their row alone: two cells of one row are neither
/// before nor after each other, whatever their columns.
impl PartialOrd for Cell {
    fn partial_cmp(&self, other: &Self) -> (order: Option<Ordering>) {
        if self.y < other.y {
            Some(Ordering::Less)
        } else if self.y > other.y {
            Some(Ordering::Greater)
        } else {
            Some(Ordering::Equal)
        }
    }
}

impl PartialOrdSpecImpl for Cell {
    open spec fn obeys_partial_cmp_spec() -> bool {
        true
    }

    open spec fn partial_cmp_spec(&self, other: &Self) -> Option<Ordering> {
        if self.y < other.y {
            Some(Ordering::Less)
        } else if self.y > other.y {
            Some(Ordering::Greater)
        } else {
            Some(Ordering::Equal)
        }
    }
}

impl Direction {
    pub open spec fn spec_all() -> Seq<Direction> {
        seq![
            Direction::Top,
            Direction::TopRight,
            Direction::Right,
            Direction::BottomRight,
            Direction::Bottom,
            Direction::BottomLeft,
            Direction::Left,
            Direction::TopLeft,
        ]
    }

    /// Every direction, clockwise from `Top`.
    pub fn all() -> (directions: [Self; 8])
        ensures
            directions@ == Self::spec_all(),
    {
        [
            Self::Top,
            Self::TopRight,
            Self::Right,
            Self::BottomRight,
            Self::Bottom,
            Self::BottomLeft,
            Self::Left,
            Self::TopLeft,
        ]
    }

    pub open spec fn spec_diagonals() -> Seq<Direction> {
        seq![
            Direction::TopRight,
            Direction::BottomRight,
            Direction::BottomLeft,
            Direction::TopLeft,
        ]
    }

    /// The four diagonal directions, clockwise from `TopRight`.
    pub fn diagonals() -> (directions: [Self; 4])
        ensures
            directions@ == Self::spec_diagonals(),
    {
        [Self::TopRight, Self::BottomRight, Self::BottomLeft, Self::TopLeft]
    }
}

} // verus!
