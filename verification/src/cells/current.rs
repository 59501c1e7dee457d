//! The cells an item stands on and the cells it hides.

use crate::cells::cell::{Cell, Direction, MapSize};
use crate::cells::error::Error;
use vstd::prelude::*;

verus! {

/// Size of an item in cells: `width` along its columns, `depth` along its
/// rows, `height` upwards.
#[derive(Clone, Copy, Debug, PartialEq, Eq, Structural)]
pub struct Dimensions {
    pub width: u32,
    pub depth: u32,
    pub height: u32,
}

impl Dimensions {
    pub fn new(width: u32, depth: u32, height: u32) -> (dims: Self)
        ensures
            dims.width == width,
            dims.depth == depth,
            dims.height == height,
    {
        Self { width, depth, height }
    }
}

/// How one item stands to another in the draw order.
#[derive(Clone, Copy, Debug, PartialEq, Eq, Structural)]
pub enum Relation {
    /// The first item hides part of the second: it is drawn after it.
    Greater,
    /// The second item hides part of the first.
    Less,
    /// Neither hides any part of the other.
    Incomparable,
}

impl Relation {
    /// The same relation seen from the other item.
    pub open spec fn spec_reverse(self) -> Relation {
        match self {
            Relation::Greater => Relation::Less,
            Relation::Less => Relation::Greater,
            Relation::Incomparable => Relation::Incomparable,
        }
    }

    pub fn reverse(self) -> (reversed: Relation)
        ensures
            reversed == self.spec_reverse(),
    {
        match self {
            Relation::Greater => Relation::Less,
            Relation::Less => Relation::Greater,
            Relation::Incomparable => Relation::Incomparable,
        }
    }
}

/// The cells in `slots` that are present, in order.
pub open spec fn present_cells(slots: Seq<Option<Cell>>) -> Seq<Cell>
    decreases slots.len(),
{
    if slots.len() == 0 {
        Seq::empty()
    } else {
        let before = present_cells(slots.drop_last());
        match slots.last() {
            Some(cell) => before.push(cell),
            None => before,
        }
    }
}

/// A placed item: where it stands, how large it is, which way it faces, and
/// the two cell lists derived from those.
#[derive(Debug)]
pub struct CurrentCells {
    /// The bottom-most cell the item stands on.
    pub main_cell: Cell,
    pub dimensions: Dimensions,
    pub facing: Direction,
    /// The cells the item stands on.
    pub underneath: Vec<Cell>,
    /// The cells the item hides from view.
    pub behind: Vec<Cell>,
}

pub struct CurrentCellsView {
    pub main_cell: Cell,
    pub dimensions: Dimensions,
    pub facing: Direction,
    pub underneath: Seq<Cell>,
    pub behind: Seq<Cell>,
}

impl Clone for CurrentCells {
    fn clone(&self) -> (cloned: Self)
        ensures
            cloned@ == self@,
    {
        let underneath = self.underneath.clone();
        let behind = self.behind.clone();
        assert(underneath@ == self.underneath@);
        assert(behind@ == self.behind@);
        Self {
            main_cell: self.main_cell,
            dimensions: self.dimensions,
            facing: self.facing,
            underneath,
            behind,
        }
    }
}

/// Two items are the same item where they are placed alike; the cell lists
/// follow from the placement and are not compared.
impl PartialEq for CurrentCells {
    fn eq(&self, other: &Self) -> (equal: bool) {
        self.main_cell == other.main_cell && self.dimensions == other.dimensions && self.facing
            == other.facing
    }
}

impl Eq for CurrentCells {

}

impl vstd::std_specs::cmp::PartialEqSpecImpl for CurrentCells {
    open spec fn obeys_eq_spec() -> bool {
        true
    }

    open spec fn eq_spec(&self, other: &Self) -> bool {
        self.main_cell == other.main_cell && self.dimensions == other.dimensions && self.facing
            == other.facing
    }
}

impl View for CurrentCells {
    type V = CurrentCellsView;

    open spec fn view(&self) -> CurrentCellsView {
        CurrentCellsView {
            main_cell: self.main_cell,
            dimensions: self.dimensions,
            facing: self.facing,
            underneath: self.underneath@,
            behind: self.behind@,
        }
    }
}

impl CurrentCellsView {
    /// Whether the two lists were derived from the placement on a map of
    /// the given size.
    pub open spec fn is_derived(self, map_size: MapSize) -> bool {
        CurrentCells::spec_new(self.main_cell, self.dimensions, self.facing, map_size) == Ok::<
            CurrentCellsView,
            Error,
        >(self)
    }

    /// Whether some cell the first item hides is one the second stands on.
    pub open spec fn hides(self, other: CurrentCellsView) -> bool {
        CurrentCells::spec_intersects(self.behind, other.underneath)
    }

    /// How `self` stands to `other`, or `Contradiction` where each hides
    /// part of the other.
    pub open spec fn spec_compare(self, other: CurrentCellsView) -> Result<Relation, Error> {
        match (self.hides(other), other.hides(self)) {
            (true, true) => Err(Error::Contradiction),
            (true, false) => Ok(Relation::Greater),
            (false, true) => Ok(Relation::Less),
            (false, false) => Ok(Relation::Incomparable),
        }
    }
}

/// Seen from the other item, a comparison gives the reverse: `Greater` for
/// `Less` and `Less` for `Greater`, `Incomparable` for `Incomparable`, and a
/// contradiction for a contradiction. So no two items are each in front of
/// the other, or each behind it.
pub proof fn lemma_compare_reverses(a: CurrentCellsView, b: CurrentCellsView)
    ensures
        match a.spec_compare(b) {
            Ok(relation) => b.spec_compare(a) == Ok::<Relation, Error>(relation.spec_reverse()),
            Err(e) => b.spec_compare(a) == Err::<Relation, Error>(e),
        },
{
}

/// Deriving the cell lists again from the same placement on the same map
/// gives the same lists.
pub proof fn lemma_derived_once(a: CurrentCellsView, b: CurrentCellsView, map_size: MapSize)
    requires
        a.is_derived(map_size),
        b.is_derived(map_size),
        a.main_cell == b.main_cell,
        a.dimensions == b.dimensions,
        a.facing == b.facing,
    ensures
        a.underneath == b.underneath,
        a.behind == b.behind,
        a == b,
{
}

impl CurrentCells {
    /// The item placed at `main_cell`, with both cell lists, or the reason
    /// it cannot be placed.
    pub open spec fn spec_new(
        main_cell: Cell,
        dims: Dimensions,
        facing: Direction,
        map_size: MapSize,
    ) -> Result<CurrentCellsView, Error> {
        match Self::spec_underneath(main_cell, dims, facing, map_size) {
            Ok(underneath) => Ok(
                CurrentCellsView {
                    main_cell,
                    dimensions: dims,
                    facing,
                    underneath,
                    behind: Self::spec_behind(underneath, dims.height as nat, map_size),
                },
            ),
            Err(e) => Err(e),
        }
    }

    /// Places an item. Fails with `InvalidFacing` where an item of more or
    /// less than one cell faces neither `BottomRight` nor `BottomLeft`.
    pub fn new(main_cell: Cell, dims: Dimensions, facing: Direction, map_size: MapSize) -> (r: Result<
        Self,
        Error,
    >)
        ensures
            match r {
                Ok(cells) => Self::spec_new(main_cell, dims, facing, map_size) == Ok::<
                    CurrentCellsView,
                    Error,
                >(cells@),
                Err(e) => Self::spec_new(main_cell, dims, facing, map_size) == Err::<
                    CurrentCellsView,
                    Error,
                >(e),
            },
            r matches Ok(cells) ==> cells@.is_derived(map_size),
            r is Err <==> dims.width * dims.depth != 1 && facing != Direction::BottomRight && facing
                != Direction::BottomLeft,
            r matches Err(e) ==> e == Error::InvalidFacing(facing),
    {
        let underneath = match Self::underneath(main_cell, dims, facing, map_size) {
            Ok(underneath) => underneath,
            Err(e) => {
                return Err(e);
            },
        };
        let behind = Self::behind(underneath.as_slice(), dims.height, map_size);
        Ok(Self { main_cell, dimensions: dims, facing, underneath, behind })
    }

    /// The volume of the item in cells.
    pub fn prod_dims(&self) -> (volume: u32)
        requires
            self.dimensions.width * self.dimensions.depth * self.dimensions.height <= u32::MAX,
        ensures
            volume == self.dimensions.width * self.dimensions.depth * self.dimensions.height,
    {
        let width = self.dimensions.width;
        let depth = self.dimensions.depth;
        let height = self.dimensions.height;
        assert(width * depth <= 0xffff_ffff * 0xffff_ffff) by (nonlinear_arith)
            requires
                width <= 0xffff_ffff,
                depth <= 0xffff_ffff,
        ;
        let area: u64 = width as u64 * depth as u64;
        assert(area * height <= 0xffff_ffff * 0xffff_ffff * 0xffff_ffff) by (nonlinear_arith)
            requires
                area <= 0xffff_ffff * 0xffff_ffff,
                height <= 0xffff_ffff,
        ;
        let volume: u128 = area as u128 * height as u128;
        volume as u32
    }

    /// Whether some cell is in both lists.
    pub open spec fn spec_intersects(a: Seq<Cell>, b: Seq<Cell>) -> bool {
        exists|i: int, j: int| 0 <= i < a.len() && 0 <= j < b.len() && a[i] == b[j]
    }

    pub fn intersects(a: &[Cell], b: &[Cell]) -> (found: bool)
        ensures
            found == Self::spec_intersects(a@, b@),
    {
        let mut i: usize = 0;
        while i < a.len()
            invariant
                i <= a.len(),
                forall|k: int, j: int| 0 <= k < i && 0 <= j < b.len() ==> a@[k] != b@[j],
            decreases a.len() - i,
        {
            if Self::contains(b, a[i]) {
                return true;
            }
            i = i + 1;
        }
        false
    }

    /// Decides which of two items is drawn in front. Fails with
    /// `Contradiction` exactly where each hides part of the other.
    pub fn compare(&self, other: &Self) -> (r: Result<Relation, Error>)
        ensures
            r == self@.spec_compare(other@),
    {
        let is_other_behind_self = Self::intersects(
            self.behind.as_slice(),
            other.underneath.as_slice(),
        );
        let is_self_behind_other = Self::intersects(
            other.behind.as_slice(),
            self.underneath.as_slice(),
        );
        match (is_other_behind_self, is_self_behind_other) {
            (true, true) => Err(Error::Contradiction),
            (true, false) => Ok(Relation::Greater),
            (false, true) => Ok(Relation::Less),
            (false, false) => Ok(Relation::Incomparable),
        }
    }

    /// The directions in which an item facing `facing` extends: first that of
    /// its columns (its width), then that of its rows (its depth). Items face
    /// `BottomRight` or `BottomLeft` only.
    pub open spec fn spec_axes(facing: Direction) -> Option<(Direction, Direction)> {
        match facing {
            Direction::BottomRight => Some((Direction::TopRight, Direction::TopLeft)),
            Direction::BottomLeft => Some((Direction::TopLeft, Direction::TopRight)),
            _ => None,
        }
    }

    /// One row of an item: the cells `0, 1, .., width - 1` steps from `start`
    /// in `col_dir`, without those that lie off the grid.
    pub open spec fn spec_row(start: Cell, col_dir: Direction, width: nat, map_size: MapSize) -> Seq<
        Cell,
    >
        decreases width,
    {
        if width == 0 {
            Seq::empty()
        } else {
            let before = Self::spec_row(start, col_dir, (width - 1) as nat, map_size);
            match start.spec_nth_cell_in_direction(col_dir, (width - 1) as nat, map_size) {
                Some(cell) => before.push(cell),
                None => before,
            }
        }
    }

    /// The first `depth` rows of an item, one after the other. Row `r` starts
    /// `r` steps from `main_cell` in `row_dir`; a row whose start lies off
    /// the grid has no cells.
    pub open spec fn spec_rows(
        main_cell: Cell,
        row_dir: Direction,
        col_dir: Direction,
        depth: nat,
        width: nat,
        map_size: MapSize,
    ) -> Seq<Cell>
        decreases depth,
    {
        if depth == 0 {
            Seq::empty()
        } else {
            let before = Self::spec_rows(
                main_cell,
                row_dir,
                col_dir,
                (depth - 1) as nat,
                width,
                map_size,
            );
            match main_cell.spec_nth_cell_in_direction(row_dir, (depth - 1) as nat, map_size) {
                Some(start) => before + Self::spec_row(start, col_dir, width, map_size),
                None => before,
            }
        }
    }

    /// The cells an item stands on, or the reason it cannot be placed. An
    /// item of one cell stands on its main cell whatever it faces.
    pub open spec fn spec_underneath(
        main_cell: Cell,
        dims: Dimensions,
        facing: Direction,
        map_size: MapSize,
    ) -> Result<Seq<Cell>, Error> {
        if dims.width * dims.depth == 1 {
            Ok(seq![main_cell])
        } else {
            match Self::spec_axes(facing) {
                Some((col_dir, row_dir)) => Ok(
                    Self::spec_rows(
                        main_cell,
                        row_dir,
                        col_dir,
                        dims.depth as nat,
                        dims.width as nat,
                        map_size,
                    ),
                ),
                None => Err(Error::InvalidFacing(facing)),
            }
        }
    }

    /// A row that has left the grid gains no further cells.
    pub proof fn lemma_row_ends_off_grid(
        start: Cell,
        col_dir: Direction,
        reached: nat,
        width: nat,
        map_size: MapSize,
    )
        requires
            reached <= width,
            start.spec_nth_cell_in_direction(col_dir, reached, map_size) is None,
        ensures
            Self::spec_row(start, col_dir, width, map_size) == Self::spec_row(
                start,
                col_dir,
                reached,
                map_size,
            ),
        decreases width,
    {
        if reached < width {
            start.lemma_walk_stays_off_grid(col_dir, reached, (width - 1) as nat, map_size);
            Self::lemma_row_ends_off_grid(start, col_dir, reached, (width - 1) as nat, map_size);
        }
    }

    /// Once a row starts off the grid, so do all rows after it.
    pub proof fn lemma_rows_end_off_grid(
        main_cell: Cell,
        row_dir: Direction,
        col_dir: Direction,
        reached: nat,
        depth: nat,
        width: nat,
        map_size: MapSize,
    )
        requires
            reached <= depth,
            main_cell.spec_nth_cell_in_direction(row_dir, reached, map_size) is None,
        ensures
            Self::spec_rows(main_cell, row_dir, col_dir, depth, width, map_size)
                == Self::spec_rows(main_cell, row_dir, col_dir, reached, width, map_size),
        decreases depth,
    {
        if reached < depth {
            main_cell.lemma_walk_stays_off_grid(row_dir, reached, (depth - 1) as nat, map_size);
            Self::lemma_rows_end_off_grid(
                main_cell,
                row_dir,
                col_dir,
                reached,
                (depth - 1) as nat,
                width,
                map_size,
            );
        }
    }

    /// A row has at most `width` cells, and starts with `start` when it has
    /// any width at all.
    pub proof fn lemma_row_len(start: Cell, col_dir: Direction, width: nat, map_size: MapSize)
        ensures
            Self::spec_row(start, col_dir, width, map_size).len() <= width,
            width >= 1 ==> Self::spec_row(start, col_dir, width, map_size).len() >= 1
                && Self::spec_row(start, col_dir, width, map_size)[0] == start,
        decreases width,
    {
        if width > 0 {
            Self::lemma_row_len(start, col_dir, (width - 1) as nat, map_size);
        }
    }

    /// The rows of an item have at most `depth * width` cells between them,
    /// and start with the main cell unless the item has no area.
    pub proof fn lemma_rows_len(
        main_cell: Cell,
        row_dir: Direction,
        col_dir: Direction,
        depth: nat,
        width: nat,
        map_size: MapSize,
    )
        ensures
            Self::spec_rows(main_cell, row_dir, col_dir, depth, width, map_size).len() <= depth
                * width,
            depth >= 1 && width >= 1 ==> Self::spec_rows(
                main_cell,
                row_dir,
                col_dir,
                depth,
                width,
                map_size,
            ).len() >= 1 && Self::spec_rows(main_cell, row_dir, col_dir, depth, width, map_size)[0]
                == main_cell,
        decreases depth,
    {
        if depth > 0 {
            let before = (depth - 1) as nat;
            Self::lemma_rows_len(main_cell, row_dir, col_dir, before, width, map_size);
            assert(before * width + width == depth * width) by (nonlinear_arith)
                requires
                    before + 1 == depth,
            ;
            match main_cell.spec_nth_cell_in_direction(row_dir, before, map_size) {
                Some(start) => {
                    Self::lemma_row_len(start, col_dir, width, map_size);
                },
                None => {},
            }
        }
    }

    pub fn flatten(underneath_cells: Vec<Option<Cell>>) -> (cells: Vec<Cell>)
        ensures
            cells@ == present_cells(underneath_cells@),
    {
        let mut cells: Vec<Cell> = Vec::new();
        let mut i: usize = 0;
        while i < underneath_cells.len()
            invariant
                i <= underneath_cells.len(),
                cells@ == present_cells(underneath_cells@.take(i as int)),
            decreases underneath_cells.len() - i,
        {
            assert(underneath_cells@.take(i + 1).drop_last() == underneath_cells@.take(i as int));
            match underneath_cells[i] {
                Some(cell) => {
                    cells.push(cell);
                },
                None => {},
            }
            i = i + 1;
        }
        assert(underneath_cells@.take(i as int) == underneath_cells@);
        cells
    }

    /// Appends one row of an item to `cells`.
    fn push_row(
        cells: &mut Vec<Cell>,
        start: Cell,
        col_dir: Direction,
        width: u32,
        map_size: MapSize,
    )
        ensures
            final(cells)@ == old(cells)@ + Self::spec_row(start, col_dir, width as nat, map_size),
    {
        let mut current_cell = start;
        let mut col: u32 = 0;
        while col < width
            invariant
                col < width ==> start.spec_nth_cell_in_direction(col_dir, col as nat, map_size)
                    == Some(current_cell),
                col <= width,
                cells@ == old(cells)@ + Self::spec_row(start, col_dir, col as nat, map_size),
            decreases width - col,
        {
            cells.push(current_cell);
            assert(cells@ == old(cells)@ + Self::spec_row(
                start,
                col_dir,
                (col + 1) as nat,
                map_size,
            ));
            col = col + 1;
            if col < width {
                match current_cell.next_cell(col_dir, map_size) {
                    Some(next) => {
                        current_cell = next;
                    },
                    None => {
                        proof {
                            Self::lemma_row_ends_off_grid(
                                start,
                                col_dir,
                                col as nat,
                                width as nat,
                                map_size,
                            );
                        }
                        return ;
                    },
                }
            }
        }
    }

    // NOTE:
    // - main_cell is always the bottom-most cell
    // if facing BottomRight:
    // - dimensions.width expands towards TopRight
    // - dimensions.depth expands towards TopLeft
    // if facing BottomLeft:
    // - dimensions.width expands towards TopLeft
    // - dimensions.depth expands towards TopRight
    // Items can't face other directions
    pub fn underneath(main_cell: Cell, dims: Dimensions, facing: Direction, map_size: MapSize) -> (r:
        Result<Vec<Cell>, Error>)
        ensures
            match r {
                Ok(cells) => Self::spec_underneath(main_cell, dims, facing, map_size) == Ok::<
                    Seq<Cell>,
                    Error,
                >(cells@),
                Err(e) => Self::spec_underneath(main_cell, dims, facing, map_size) == Err::<
                    Seq<Cell>,
                    Error,
                >(e),
            },
            r is Err <==> dims.width * dims.depth != 1 && facing != Direction::BottomRight && facing
                != Direction::BottomLeft,
            r matches Err(e) ==> e == Error::InvalidFacing(facing),
            r matches Ok(cells) ==> cells@.len() <= dims.width * dims.depth,
            r matches Ok(cells) ==> dims.width * dims.depth == 1 ==> cells@ == seq![main_cell],
            r matches Ok(cells) ==> dims.width * dims.depth >= 1 ==> cells@.len() >= 1 && cells@[0]
                == main_cell,
    {
        assert(dims.width * dims.depth == 1 <==> dims.width == 1 && dims.depth == 1)
            by (nonlinear_arith);
        if dims.width == 1 && dims.depth == 1 {
            let cells = vec![main_cell];
            assert(cells@ == seq![main_cell]);
            return Ok(cells);
        }
        let (col_dir, row_dir) = match facing {
            Direction::BottomRight => (Direction::TopRight, Direction::TopLeft),
            Direction::BottomLeft => (Direction::TopLeft, Direction::TopRight),
            _ => {
                return Err(Error::InvalidFacing(facing));
            },
        };
        proof {
            Self::lemma_rows_len(
                main_cell,
                row_dir,
                col_dir,
                dims.depth as nat,
                dims.width as nat,
                map_size,
            );
            assert(dims.width * dims.depth >= 1 ==> dims.width >= 1 && dims.depth >= 1)
                by (nonlinear_arith);
            assert(dims.width * dims.depth == dims.depth * dims.width) by (nonlinear_arith);
        }
        let mut underneath_cells: Vec<Cell> = Vec::new();
        let mut current_row_cell = main_cell;
        let mut row: u32 = 0;
        while row < dims.depth
            invariant
                row < dims.depth ==> main_cell.spec_nth_cell_in_direction(
                    row_dir,
                    row as nat,
                    map_size,
                ) == Some(current_row_cell),
                row <= dims.depth,
                dims.width * dims.depth != 1,
                Self::spec_axes(facing) == Some((col_dir, row_dir)),
                Self::spec_rows(
                    main_cell,
                    row_dir,
                    col_dir,
                    dims.depth as nat,
                    dims.width as nat,
                    map_size,
                ).len() <= dims.width * dims.depth,
                dims.width * dims.depth >= 1 ==> Self::spec_rows(
                    main_cell,
                    row_dir,
                    col_dir,
                    dims.depth as nat,
                    dims.width as nat,
                    map_size,
                ).len() >= 1 && Self::spec_rows(
                    main_cell,
                    row_dir,
                    col_dir,
                    dims.depth as nat,
                    dims.width as nat,
                    map_size,
                )[0] == main_cell,
                underneath_cells@ == Self::spec_rows(
                    main_cell,
                    row_dir,
                    col_dir,
                    row as nat,
                    dims.width as nat,
                    map_size,
                ),
            decreases dims.depth - row,
        {
            Self::push_row(&mut underneath_cells, current_row_cell, col_dir, dims.width, map_size);
            row = row + 1;
            if row < dims.depth {
                match current_row_cell.next_cell(row_dir, map_size) {
                    Some(next) => {
                        current_row_cell = next;
                    },
                    None => {
                        proof {
                            Self::lemma_rows_end_off_grid(
                                main_cell,
                                row_dir,
                                col_dir,
                                row as nat,
                                dims.depth as nat,
                                dims.width as nat,
                                map_size,
                            );
                        }
                        return Ok(underneath_cells);
                    },
                }
            }
        }
        Ok(underneath_cells)
    }

    /// `found` with `candidate` added at its end, unless there is no
    /// candidate, or it is among `found` already, or the item stands on it.
    pub open spec fn spec_collect(found: Seq<Cell>, candidate: Option<Cell>, underneath: Seq<Cell>) -> Seq<
        Cell,
    > {
        match candidate {
            Some(cell) => if !found.contains(cell) && !underneath.contains(cell) {
                found.push(cell)
            } else {
                found
            },
            None => found,
        }
    }

    /// `behind` after looking up from `check`: its neighbours to the top
    /// left, to the top right and to the top are collected, in that order.
    pub open spec fn spec_look_up(
        behind: Seq<Cell>,
        check: Cell,
        underneath: Seq<Cell>,
        map_size: MapSize,
    ) -> Seq<Cell> {
        let with_left = Self::spec_collect(
            behind,
            check.spec_next_cell(Direction::TopLeft, map_size),
            underneath,
        );
        let with_right = Self::spec_collect(
            with_left,
            check.spec_next_cell(Direction::TopRight, map_size),
            underneath,
        );
        Self::spec_collect(with_right, check.spec_next_cell(Direction::Top, map_size), underneath)
    }

    /// `behind` after looking up from each cell of `checking` in turn.
    pub open spec fn spec_layer(
        behind: Seq<Cell>,
        checking: Seq<Cell>,
        underneath: Seq<Cell>,
        map_size: MapSize,
    ) -> Seq<Cell>
        decreases checking.len(),
    {
        if checking.len() == 0 {
            behind
        } else {
            Self::spec_look_up(
                Self::spec_layer(behind, checking.drop_last(), underneath, map_size),
                checking.last(),
                underneath,
                map_size,
            )
        }
    }

    /// The cells to look up from one layer higher: the top neighbours of
    /// `checking` that the item does not stand on, each once.
    pub open spec fn spec_next_to_check(
        checking: Seq<Cell>,
        underneath: Seq<Cell>,
        map_size: MapSize,
    ) -> Seq<Cell>
        decreases checking.len(),
    {
        if checking.len() == 0 {
            Seq::empty()
        } else {
            Self::spec_collect(
                Self::spec_next_to_check(checking.drop_last(), underneath, map_size),
                checking.last().spec_next_cell(Direction::Top, map_size),
                underneath,
            )
        }
    }

    /// The cells to look up from at layer `step`; at layer 0 these are the
    /// cells the item stands on.
    pub open spec fn spec_checking(underneath: Seq<Cell>, step: nat, map_size: MapSize) -> Seq<Cell>
        decreases step,
    {
        if step == 0 {
            underneath
        } else {
            Self::spec_next_to_check(
                Self::spec_checking(underneath, (step - 1) as nat, map_size),
                underneath,
                map_size,
            )
        }
    }

    /// The cells hidden by an item of the given height that stands on
    /// `underneath`, in the order in which they are found: layer by layer
    /// from the ground up.
    pub open spec fn spec_behind(underneath: Seq<Cell>, height: nat, map_size: MapSize) -> Seq<Cell>
        decreases height,
    {
        if height == 0 {
            Seq::empty()
        } else {
            Self::spec_layer(
                Self::spec_behind(underneath, (height - 1) as nat, map_size),
                Self::spec_checking(underneath, (height - 1) as nat, map_size),
                underneath,
                map_size,
            )
        }
    }

    /// The cell `steps` steps straight up from `from`, as long as every step
    /// stays on the grid and leads to a cell the item does not stand on.
    pub open spec fn spec_climb(
        from: Cell,
        steps: nat,
        underneath: Seq<Cell>,
        map_size: MapSize,
    ) -> Option<Cell>
        decreases steps,
    {
        if steps == 0 {
            Some(from)
        } else {
            match Self::spec_climb(from, (steps - 1) as nat, underneath, map_size) {
                Some(cell) => match cell.spec_next_cell(Direction::Top, map_size) {
                    Some(top) => if underneath.contains(top) {
                        None
                    } else {
                        Some(top)
                    },
                    None => None,
                },
                None => None,
            }
        }
    }

    /// Whether `cell` is the neighbour of `from` to the top left, to the top
    /// right or to the top.
    pub open spec fn is_above(cell: Cell, from: Cell, map_size: MapSize) -> bool {
        ||| from.spec_next_cell(Direction::TopLeft, map_size) == Some(cell)
        ||| from.spec_next_cell(Direction::TopRight, map_size) == Some(cell)
        ||| from.spec_next_cell(Direction::Top, map_size) == Some(cell)
    }

    /// Whether an item of the given height that stands on `underneath` hides
    /// `cell`: the item does not stand on it, and it lies above a cell that is
    /// fewer than `height` steps straight up from a cell the item stands on.
    pub open spec fn is_hidden(
        cell: Cell,
        underneath: Seq<Cell>,
        height: nat,
        map_size: MapSize,
    ) -> bool {
        &&& !underneath.contains(cell)
        &&& exists|i: int, steps: nat|
            0 <= i < underneath.len() && steps < height && Self::is_above_climb(
                cell,
                underneath,
                i,
                steps,
                map_size,
            )
    }

    /// Whether `cell` lies above the cell `steps` steps straight up from the
    /// `i`-th cell the item stands on.
    pub open spec fn is_above_climb(
        cell: Cell,
        underneath: Seq<Cell>,
        i: int,
        steps: nat,
        map_size: MapSize,
    ) -> bool {
        match Self::spec_climb(underneath[i], steps, underneath, map_size) {
            Some(from) => Self::is_above(cell, from, map_size),
            None => false,
        }
    }

    /// What collecting a candidate adds: the candidate itself, where the item
    /// does not stand on it; and it never adds a cell twice.
    pub proof fn lemma_collect(found: Seq<Cell>, candidate: Option<Cell>, underneath: Seq<Cell>)
        ensures
            forall|cell: Cell|
                Self::spec_collect(found, candidate, underneath).contains(cell) <==> found.contains(
                    cell,
                ) || (candidate == Some(cell) && !underneath.contains(cell)),
            found.no_duplicates() ==> Self::spec_collect(
                found,
                candidate,
                underneath,
            ).no_duplicates(),
    {
        let after = Self::spec_collect(found, candidate, underneath);
        assert forall|cell: Cell|
            after.contains(cell) <==> found.contains(cell) || (candidate == Some(cell)
                && !underneath.contains(cell)) by {
            if after != found {
                let added = candidate->0;
                assert(after == found.push(added));
                assert(after[found.len() as int] == added);
                if found.contains(cell) {
                    let k = choose|k: int| 0 <= k < found.len() && found[k] == cell;
                    assert(after[k] == cell);
                }
            }
        }
    }

    /// What looking up from a cell adds: the cells above it that the item
    /// does not stand on.
    pub proof fn lemma_look_up(
        behind: Seq<Cell>,
        check: Cell,
        underneath: Seq<Cell>,
        map_size: MapSize,
    )
        ensures
            forall|cell: Cell|
                Self::spec_look_up(behind, check, underneath, map_size).contains(cell)
                    <==> behind.contains(cell) || (Self::is_above(cell, check, map_size)
                    && !underneath.contains(cell)),
            behind.no_duplicates() ==> Self::spec_look_up(
                behind,
                check,
                underneath,
                map_size,
            ).no_duplicates(),
    {
        let left = check.spec_next_cell(Direction::TopLeft, map_size);
        let right = check.spec_next_cell(Direction::TopRight, map_size);
        let top = check.spec_next_cell(Direction::Top, map_size);
        let with_left = Self::spec_collect(behind, left, underneath);
        let with_right = Self::spec_collect(with_left, right, underneath);
        Self::lemma_collect(behind, left, underneath);
        Self::lemma_collect(with_left, right, underneath);
        Self::lemma_collect(with_right, top, underneath);
    }

    /// Whether `cell` lies above one of `checking`.
    pub open spec fn is_above_some(cell: Cell, checking: Seq<Cell>, map_size: MapSize) -> bool {
        exists|k: int|
            0 <= k < checking.len() && Self::is_above(cell, #[trigger] checking[k], map_size)
    }

    /// What a layer adds: the cells above one of the cells looked up from
    /// that the item does not stand on.
    pub proof fn lemma_layer(
        behind: Seq<Cell>,
        checking: Seq<Cell>,
        underneath: Seq<Cell>,
        map_size: MapSize,
    )
        ensures
            forall|cell: Cell| #[trigger]
                Self::spec_layer(behind, checking, underneath, map_size).contains(cell)
                    <==> behind.contains(cell) || (!underneath.contains(cell)
                    && Self::is_above_some(cell, checking, map_size)),
            behind.no_duplicates() ==> Self::spec_layer(
                behind,
                checking,
                underneath,
                map_size,
            ).no_duplicates(),
        decreases checking.len(),
    {
        if checking.len() > 0 {
            let shorter = checking.drop_last();
            let below = Self::spec_layer(behind, shorter, underneath, map_size);
            Self::lemma_layer(behind, shorter, underneath, map_size);
            Self::lemma_look_up(below, checking.last(), underneath, map_size);
            let after = Self::spec_layer(behind, checking, underneath, map_size);
            assert forall|cell: Cell| #[trigger]
                after.contains(cell) <==> behind.contains(cell) || (!underneath.contains(cell)
                    && Self::is_above_some(cell, checking, map_size)) by {
                if after.contains(cell) && !behind.contains(cell) {
                    if below.contains(cell) {
                        assert(Self::is_above_some(cell, shorter, map_size));
                        let k = choose|k: int|
                            0 <= k < shorter.len() && Self::is_above(
                                cell,
                                #[trigger] shorter[k],
                                map_size,
                            );
                        assert(Self::is_above(cell, checking[k], map_size));
                    } else {
                        assert(Self::is_above(cell, checking[checking.len() - 1], map_size));
                    }
                }
                if !underneath.contains(cell) && Self::is_above_some(cell, checking, map_size) {
                    let k = choose|k: int|
                        0 <= k < checking.len() && Self::is_above(
                            cell,
                            #[trigger] checking[k],
                            map_size,
                        );
                    if k < shorter.len() {
                        assert(Self::is_above(cell, shorter[k], map_size));
                        assert(Self::is_above_some(cell, shorter, map_size));
                    }
                }
            }
        } else {
            assert forall|cell: Cell| !Self::is_above_some(cell, checking, map_size) by {}
        }
    }

    /// Whether `cell` is the top neighbour of one of `checking`.
    pub open spec fn is_top_of_some(cell: Cell, checking: Seq<Cell>, map_size: MapSize) -> bool {
        exists|k: int|
            0 <= k < checking.len() && (#[trigger] checking[k]).spec_next_cell(
                Direction::Top,
                map_size,
            ) == Some(cell)
    }

    /// The cells to look up from next are the top neighbours, off the item,
    /// of the cells looked up from now; none is listed twice.
    pub proof fn lemma_next_to_check(checking: Seq<Cell>, underneath: Seq<Cell>, map_size: MapSize)
        ensures
            forall|cell: Cell| #[trigger]
                Self::spec_next_to_check(checking, underneath, map_size).contains(cell) <==> (
                !underneath.contains(cell) && Self::is_top_of_some(cell, checking, map_size)),
            Self::spec_next_to_check(checking, underneath, map_size).no_duplicates(),
        decreases checking.len(),
    {
        if checking.len() > 0 {
            let shorter = checking.drop_last();
            let below = Self::spec_next_to_check(shorter, underneath, map_size);
            let top = checking.last().spec_next_cell(Direction::Top, map_size);
            Self::lemma_next_to_check(shorter, underneath, map_size);
            Self::lemma_collect(below, top, underneath);
            let after = Self::spec_next_to_check(checking, underneath, map_size);
            assert forall|cell: Cell| #[trigger]
                after.contains(cell) <==> (!underneath.contains(cell) && Self::is_top_of_some(
                    cell,
                    checking,
                    map_size,
                )) by {
                if after.contains(cell) {
                    if below.contains(cell) {
                        assert(Self::is_top_of_some(cell, shorter, map_size));
                        let k = choose|k: int|
                            0 <= k < shorter.len() && (#[trigger] shorter[k]).spec_next_cell(
                                Direction::Top,
                                map_size,
                            ) == Some(cell);
                        assert(checking[k].spec_next_cell(Direction::Top, map_size) == Some(cell));
                    } else {
                        assert(checking[checking.len() - 1].spec_next_cell(
                            Direction::Top,
                            map_size,
                        ) == Some(cell));
                    }
                }
                if !underneath.contains(cell) && Self::is_top_of_some(cell, checking, map_size) {
                    let k = choose|k: int|
                        0 <= k < checking.len() && (#[trigger] checking[k]).spec_next_cell(
                            Direction::Top,
                            map_size,
                        ) == Some(cell);
                    if k < shorter.len() {
                        assert(shorter[k].spec_next_cell(Direction::Top, map_size) == Some(cell));
                        assert(Self::is_top_of_some(cell, shorter, map_size));
                    }
                }
            }
        } else {
            assert forall|cell: Cell| !Self::is_top_of_some(cell, checking, map_size) by {}
        }
    }

    /// Whether `cell` is `steps` steps straight up from a cell the item
    /// stands on, past cells the item does not stand on.
    pub open spec fn is_reached(
        cell: Cell,
        underneath: Seq<Cell>,
        steps: nat,
        map_size: MapSize,
    ) -> bool {
        exists|i: int|
            0 <= i < underneath.len() && Self::spec_climb(
                #[trigger] underneath[i],
                steps,
                underneath,
                map_size,
            ) == Some(cell)
    }

    /// The cells looked up from at a layer are those reached by as many
    /// steps straight up.
    pub proof fn lemma_checking(underneath: Seq<Cell>, step: nat, map_size: MapSize)
        ensures
            forall|cell: Cell| #[trigger]
                Self::spec_checking(underneath, step, map_size).contains(cell)
                    <==> Self::is_reached(cell, underneath, step, map_size),
        decreases step,
    {
        let now = Self::spec_checking(underneath, step, map_size);
        if step == 0 {
            assert forall|cell: Cell| #[trigger]
                now.contains(cell) <==> Self::is_reached(cell, underneath, step, map_size) by {
                if now.contains(cell) {
                    let i = choose|i: int| 0 <= i < underneath.len() && underneath[i] == cell;
                    assert(Self::spec_climb(underneath[i], step, underneath, map_size) == Some(
                        cell,
                    ));
                }
            }
        } else {
            let below = (step - 1) as nat;
            let previous = Self::spec_checking(underneath, below, map_size);
            Self::lemma_checking(underneath, below, map_size);
            Self::lemma_next_to_check(previous, underneath, map_size);
            assert forall|cell: Cell| #[trigger]
                now.contains(cell) <==> Self::is_reached(cell, underneath, step, map_size) by {
                if now.contains(cell) {
                    let k = choose|k: int|
                        0 <= k < previous.len() && (#[trigger] previous[k]).spec_next_cell(
                            Direction::Top,
                            map_size,
                        ) == Some(cell);
                    assert(previous.contains(previous[k]));
                    assert(Self::is_reached(previous[k], underneath, below, map_size));
                    let i = choose|i: int|
                        0 <= i < underneath.len() && Self::spec_climb(
                            #[trigger] underneath[i],
                            below,
                            underneath,
                            map_size,
                        ) == Some(previous[k]);
                    assert(Self::spec_climb(underneath[i], step, underneath, map_size) == Some(
                        cell,
                    ));
                }
                if Self::is_reached(cell, underneath, step, map_size) {
                    let i = choose|i: int|
                        0 <= i < underneath.len() && Self::spec_climb(
                            #[trigger] underneath[i],
                            step,
                            underneath,
                            map_size,
                        ) == Some(cell);
                    let from = Self::spec_climb(underneath[i], below, underneath, map_size)->0;
                    assert(Self::is_reached(from, underneath, below, map_size));
                    assert(previous.contains(from));
                    let k = choose|k: int| 0 <= k < previous.len() && previous[k] == from;
                    assert(previous[k].spec_next_cell(Direction::Top, map_size) == Some(cell));
                    assert(Self::is_top_of_some(cell, previous, map_size));
                }
            }
        }
    }

    /// The cells listed by `spec_behind` are the hidden cells, each listed
    /// once; the item stands on none of them.
    pub proof fn lemma_behind(underneath: Seq<Cell>, height: nat, map_size: MapSize)
        ensures
            forall|cell: Cell| #[trigger]
                Self::spec_behind(underneath, height, map_size).contains(cell)
                    <==> Self::is_hidden(cell, underneath, height, map_size),
            Self::spec_behind(underneath, height, map_size).no_duplicates(),
            forall|cell: Cell| #[trigger]
                Self::spec_behind(underneath, height, map_size).contains(cell)
                    ==> !underneath.contains(cell),
        decreases height,
    {
        let now = Self::spec_behind(underneath, height, map_size);
        if height > 0 {
            let below = (height - 1) as nat;
            let lower = Self::spec_behind(underneath, below, map_size);
            let checking = Self::spec_checking(underneath, below, map_size);
            Self::lemma_behind(underneath, below, map_size);
            Self::lemma_checking(underneath, below, map_size);
            Self::lemma_layer(lower, checking, underneath, map_size);
            assert forall|cell: Cell| #[trigger]
                now.contains(cell) <==> Self::is_hidden(cell, underneath, height, map_size) by {
                if now.contains(cell) && !lower.contains(cell) {
                    let k = choose|k: int|
                        0 <= k < checking.len() && Self::is_above(
                            cell,
                            #[trigger] checking[k],
                            map_size,
                        );
                    assert(checking.contains(checking[k]));
                    assert(Self::is_reached(checking[k], underneath, below, map_size));
                    let i = choose|i: int|
                        0 <= i < underneath.len() && Self::spec_climb(
                            #[trigger] underneath[i],
                            below,
                            underneath,
                            map_size,
                        ) == Some(checking[k]);
                    assert(Self::is_above_climb(cell, underneath, i, below, map_size));
                }
                if now.contains(cell) && lower.contains(cell) {
                    let (i, steps) = choose|i: int, steps: nat|
                        0 <= i < underneath.len() && steps < below && Self::is_above_climb(
                            cell,
                            underneath,
                            i,
                            steps,
                            map_size,
                        );
                    assert(Self::is_above_climb(cell, underneath, i, steps, map_size));
                }
                if Self::is_hidden(cell, underneath, height, map_size) {
                    let (i, steps) = choose|i: int, steps: nat|
                        0 <= i < underneath.len() && steps < height && Self::is_above_climb(
                            cell,
                            underneath,
                            i,
                            steps,
                            map_size,
                        );
                    if steps < below {
                        assert(Self::is_hidden(cell, underneath, below, map_size));
                    } else {
                        let from = Self::spec_climb(underneath[i], below, underneath, map_size)->0;
                        assert(Self::is_reached(from, underneath, below, map_size));
                        assert(checking.contains(from));
                        let k = choose|k: int| 0 <= k < checking.len() && checking[k] == from;
                        assert(Self::is_above(cell, checking[k], map_size));
                        assert(Self::is_above_some(cell, checking, map_size));
                    }
                }
            }
        }
    }

    /// From a layer with nothing to look up from, no higher layer hides
    /// anything more.
    pub proof fn lemma_behind_complete(
        underneath: Seq<Cell>,
        step: nat,
        height: nat,
        map_size: MapSize,
    )
        requires
            step <= height,
            Self::spec_checking(underneath, step, map_size).len() == 0,
        ensures
            Self::spec_checking(underneath, height, map_size).len() == 0,
            Self::spec_behind(underneath, height, map_size) == Self::spec_behind(
                underneath,
                step,
                map_size,
            ),
        decreases height,
    {
        if step < height {
            Self::lemma_behind_complete(underneath, step, (height - 1) as nat, map_size);
        }
    }

    fn contains(cells: &[Cell], cell: Cell) -> (found: bool)
        ensures
            found == cells@.contains(cell),
    {
        let mut i: usize = 0;
        while i < cells.len()
            invariant
                i <= cells.len(),
                forall|k: int| 0 <= k < i ==> cells@[k] != cell,
            decreases cells.len() - i,
        {
            if cells[i] == cell {
                return true;
            }
            i = i + 1;
        }
        false
    }

    fn collect(found: &mut Vec<Cell>, candidate: Option<Cell>, underneath: &[Cell])
        ensures
            final(found)@ == Self::spec_collect(old(found)@, candidate, underneath@),
    {
        if let Some(cell) = candidate {
            let is_underneath = Self::contains(underneath, cell);
            if !Self::contains(found.as_slice(), cell) && !is_underneath {
                found.push(cell);
            }
        }
    }

    pub fn behind(underneath: &[Cell], height: u32, map_size: MapSize) -> (behind_cells: Vec<Cell>)
        ensures
            behind_cells@ == Self::spec_behind(underneath@, height as nat, map_size),
            height == 0 ==> behind_cells@.len() == 0,
            behind_cells@.no_duplicates(),
            forall|cell: Cell| #[trigger]
                behind_cells@.contains(cell) <==> Self::is_hidden(
                    cell,
                    underneath@,
                    height as nat,
                    map_size,
                ),
    {
        proof {
            Self::lemma_behind(underneath@, height as nat, map_size);
        }
        let mut behind_cells: Vec<Cell> = Vec::new();
        let mut currently_checking: Vec<Cell> = Vec::new();
        let mut i: usize = 0;
        while i < underneath.len()
            invariant
                i <= underneath.len(),
                currently_checking@ == underneath@.take(i as int),
            decreases underneath.len() - i,
        {
            currently_checking.push(underneath[i]);
            i = i + 1;
        }
        assert(underneath@.take(i as int) == underneath@);
        let mut step: u32 = 0;
        while step < height
            invariant
                step <= height,
                behind_cells@ == Self::spec_behind(underneath@, step as nat, map_size),
                currently_checking@ == Self::spec_checking(underneath@, step as nat, map_size),
            decreases height - step,
        {
            if currently_checking.len() == 0 {
                proof {
                    Self::lemma_behind_complete(underneath@, step as nat, height as nat, map_size);
                    Self::lemma_behind(underneath@, height as nat, map_size);
                }
                return behind_cells;
            }
            let ghost behind_below = behind_cells@;
            let mut next_cells_to_check: Vec<Cell> = Vec::new();
            let mut i: usize = 0;
            while i < currently_checking.len()
                invariant
                    i <= currently_checking.len(),
                    behind_cells@ == Self::spec_layer(
                        behind_below,
                        currently_checking@.take(i as int),
                        underneath@,
                        map_size,
                    ),
                    next_cells_to_check@ == Self::spec_next_to_check(
                        currently_checking@.take(i as int),
                        underneath@,
                        map_size,
                    ),
                decreases currently_checking.len() - i,
            {
                let check = currently_checking[i];
                assert(currently_checking@.take(i + 1).drop_last() == currently_checking@.take(
                    i as int,
                ));
                Self::collect(
                    &mut behind_cells,
                    check.next_cell(Direction::TopLeft, map_size),
                    underneath,
                );
                Self::collect(
                    &mut behind_cells,
                    check.next_cell(Direction::TopRight, map_size),
                    underneath,
                );
                let top_cell = check.next_cell(Direction::Top, map_size);
                Self::collect(&mut behind_cells, top_cell, underneath);
                Self::collect(&mut next_cells_to_check, top_cell, underneath);
                i = i + 1;
            }
            assert(currently_checking@.take(i as int) == currently_checking@);
            currently_checking = next_cells_to_check;
            step = step + 1;
        }
        behind_cells
    }
}

} // verus!
