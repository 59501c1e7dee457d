//! What is kept of an item between runs, and the records of a check of the
//! two sorts against what is known to be near each item.

use crate::cells::cell::{Cell, Direction, MapSize};
use crate::cells::current::{CurrentCells, CurrentCellsView, Dimensions};
use crate::cells::depth::Depth;
use crate::cells::error::Error;
use vstd::prelude::*;

verus! {

/// The placement of an item: all that its cell lists are derived from, apart
/// from the size of the map.
#[derive(Clone, Copy, Debug, PartialEq, Eq, Structural)]
pub struct SavedCells {
    pub main_cell: Cell,
    pub dimensions: Dimensions,
    pub facing: Direction,
}

impl Default for SavedCells {
    /// An item of one cell at the origin, facing `BottomRight`.
    fn default() -> (saved: Self)
        ensures
            saved == (SavedCells {
                main_cell: Cell { x: 0, y: 0 },
                dimensions: Dimensions { width: 1, depth: 1, height: 1 },
                facing: Direction::BottomRight,
            }),
    {
        Self {
            main_cell: Cell::new(0, 0),
            dimensions: Dimensions::new(1, 1, 1),
            facing: Direction::BottomRight,
        }
    }
}

impl SavedCells {
    /// Places the saved item on a map of the given size.
    pub fn to_current(&self, map_size: MapSize) -> (r: Result<CurrentCells, Error>)
        ensures
            match r {
                Ok(cells) => CurrentCells::spec_new(
                    self.main_cell,
                    self.dimensions,
                    self.facing,
                    map_size,
                ) == Ok::<CurrentCellsView, Error>(cells@),
                Err(e) => CurrentCells::spec_new(
                    self.main_cell,
                    self.dimensions,
                    self.facing,
                    map_size,
                ) == Err::<CurrentCellsView, Error>(e),
            },
    {
        CurrentCells::new(self.main_cell, self.dimensions, self.facing, map_size)
    }
}

impl From<&CurrentCells> for SavedCells {
    fn from(cells: &CurrentCells) -> (saved: Self) {
        Self { main_cell: cells.main_cell, dimensions: cells.dimensions, facing: cells.facing }
    }
}

impl vstd::std_specs::convert::FromSpecImpl<&CurrentCells> for SavedCells {
    open spec fn obeys_from_spec() -> bool {
        true
    }

    open spec fn from_spec(cells: &CurrentCells) -> Self {
        SavedCells { main_cell: cells.main_cell, dimensions: cells.dimensions, facing: cells.facing }
    }
}

/// Marks an item that one of the sorts has placed wrongly.
#[derive(Clone, Copy, Debug, PartialEq, Eq, Structural)]
pub struct Mistake;

/// The two ways of sorting.
#[derive(Clone, Copy, Debug, PartialEq, Eq, Hash, Structural)]
pub enum SortMethod {
    Topological,
    PartialCmp,
}

impl SortMethod {
    pub open spec fn spec_all() -> Seq<SortMethod> {
        seq![SortMethod::Topological, SortMethod::PartialCmp]
    }

    pub fn all() -> (methods: [Self; 2])
        ensures
            methods@ == Self::spec_all(),
    {
        [Self::Topological, Self::PartialCmp]
    }
}

/// Whether a sort has put an item in front of all that is known to be
/// behind it, and behind all that is known to be in front of it.
#[derive(Clone, Copy, Debug, PartialEq, Eq, Structural)]
pub struct Corrects {
    pub all_behind: bool,
    pub all_in_front: bool,
}

impl Default for Corrects {
    /// Nothing is known to be correct.
    fn default() -> (corrects: Self)
        ensures
            !corrects.all_behind,
            !corrects.all_in_front,
    {
        Self { all_behind: false, all_in_front: false }
    }
}

impl Corrects {
    pub fn are_both_true(&self) -> (both: bool)
        ensures
            both == (self.all_behind && self.all_in_front),
    {
        self.all_behind && self.all_in_front
    }

    /// Whether every depth of `behind_z` is smaller than `item_z`.
    pub open spec fn spec_all_behind(item_z: Depth, behind_z: Seq<Depth>) -> bool {
        forall|k: int| 0 <= k < behind_z.len() ==> (#[trigger] behind_z[k]).spec_lt(item_z)
    }

    /// Whether every depth of `in_front_z` is larger than `item_z`.
    pub open spec fn spec_all_in_front(item_z: Depth, in_front_z: Seq<Depth>) -> bool {
        forall|k: int| 0 <= k < in_front_z.len() ==> item_z.spec_lt(#[trigger] in_front_z[k])
    }

    /// Holds the depth a sort gave an item against the depths it gave the
    /// items known to be behind it and those known to be in front of it.
    pub fn check_z(item_z: Depth, behind_z: &Vec<Depth>, in_front_z: &Vec<Depth>) -> (corrects:
        Corrects)
        ensures
            corrects.all_behind == Self::spec_all_behind(item_z, behind_z@),
            corrects.all_in_front == Self::spec_all_in_front(item_z, in_front_z@),
    {
        let mut are_behind_z_correct = true;
        let mut i: usize = 0;
        while i < behind_z.len()
            invariant
                i <= behind_z.len(),
                are_behind_z_correct == Self::spec_all_behind(item_z, behind_z@.take(i as int)),
            decreases behind_z.len() - i,
        {
            if !behind_z[i].lt(&item_z) {
                are_behind_z_correct = false;
                assert(behind_z@.take(i + 1)[i as int] == behind_z@[i as int]);
            }
            assert forall|k: int| 0 <= k < i implies behind_z@.take(i + 1)[k] == behind_z@.take(
                i as int,
            )[k] by {}
            i = i + 1;
        }
        assert(behind_z@.take(i as int) == behind_z@);
        let mut are_in_front_z_correct = true;
        let mut j: usize = 0;
        while j < in_front_z.len()
            invariant
                j <= in_front_z.len(),
                are_in_front_z_correct == Self::spec_all_in_front(
                    item_z,
                    in_front_z@.take(j as int),
                ),
            decreases in_front_z.len() - j,
        {
            if !item_z.lt(&in_front_z[j]) {
                are_in_front_z_correct = false;
                assert(in_front_z@.take(j + 1)[j as int] == in_front_z@[j as int]);
            }
            assert forall|k: int| 0 <= k < j implies in_front_z@.take(j + 1)[k]
                == in_front_z@.take(j as int)[k] by {}
            j = j + 1;
        }
        assert(in_front_z@.take(j as int) == in_front_z@);
        Corrects { all_behind: are_behind_z_correct, all_in_front: are_in_front_z_correct }
    }
}

/// The entities near an item whose true place is known: the entity the item
/// stands for, the entities in front of it and those behind it.
#[derive(Debug)]
pub struct EntitiesNearby {
    pub corresponding: u64,
    pub in_front: Vec<u64>,
    pub behind: Vec<u64>,
}

impl EntitiesNearby {
    /// The entity of the first of `items` that stands at `main_cell`.
    pub open spec fn spec_corresponding(main_cell: Cell, items: Seq<(u64, CurrentCells)>) -> Option<
        u64,
    >
        decreases items.len(),
    {
        if items.len() == 0 {
            None
        } else {
            match Self::spec_corresponding(main_cell, items.drop_last()) {
                Some(entity) => Some(entity),
                None => if items.last().1.main_cell == main_cell {
                    Some(items.last().0)
                } else {
                    None
                },
            }
        }
    }

    /// Whether `item` is near `check` on the given side: in front of it
    /// where it hides part of `check`, behind it where `check` hides part of
    /// it.
    pub open spec fn is_near(check: CurrentCellsView, item: CurrentCellsView, in_front: bool) -> bool {
        if in_front {
            item.hides(check)
        } else {
            check.hides(item)
        }
    }

    /// The entities of the items near `check` on the given side, in the order
    /// of `items`.
    pub open spec fn spec_near(
        check: CurrentCellsView,
        items: Seq<(u64, CurrentCells)>,
        in_front: bool,
    ) -> Seq<u64>
        decreases items.len(),
    {
        if items.len() == 0 {
            Seq::empty()
        } else {
            let before = Self::spec_near(check, items.drop_last(), in_front);
            if Self::is_near(check, items.last().1@, in_front) {
                before.push(items.last().0)
            } else {
                before
            }
        }
    }

    fn corresponding(main_cell: Cell, items: &Vec<(u64, CurrentCells)>) -> (entity: Option<u64>)
        ensures
            entity == Self::spec_corresponding(main_cell, items@),
    {
        let mut i: usize = 0;
        while i < items.len()
            invariant
                i <= items.len(),
                Self::spec_corresponding(main_cell, items@.take(i as int)) is None,
            decreases items.len() - i,
        {
            assert(items@.take(i + 1).drop_last() == items@.take(i as int));
            if items[i].1.main_cell == main_cell {
                proof {
                    Self::lemma_corresponding_stays(main_cell, items@, i + 1);
                }
                return Some(items[i].0);
            }
            i = i + 1;
        }
        assert(items@.take(i as int) == items@);
        None
    }

    /// An entity found among the first of `items` is the one found among
    /// all of them.
    proof fn lemma_corresponding_stays(main_cell: Cell, items: Seq<(u64, CurrentCells)>, n: int)
        requires
            0 <= n <= items.len(),
            Self::spec_corresponding(main_cell, items.take(n)) is Some,
        ensures
            Self::spec_corresponding(main_cell, items) == Self::spec_corresponding(
                main_cell,
                items.take(n),
            ),
        decreases items.len(),
    {
        if n < items.len() {
            assert(items.drop_last().take(n) == items.take(n));
            Self::lemma_corresponding_stays(main_cell, items.drop_last(), n);
        } else {
            assert(items.take(n) == items);
        }
    }

    fn near(check: &CurrentCells, items: &Vec<(u64, CurrentCells)>, in_front: bool) -> (entities:
        Vec<u64>)
        ensures
            entities@ == Self::spec_near(check@, items@, in_front),
    {
        let mut entities: Vec<u64> = Vec::new();
        let mut i: usize = 0;
        while i < items.len()
            invariant
                i <= items.len(),
                entities@ == Self::spec_near(check@, items@.take(i as int), in_front),
            decreases items.len() - i,
        {
            assert(items@.take(i + 1).drop_last() == items@.take(i as int));
            let cells = &items[i].1;
            let is_near = if in_front {
                CurrentCells::intersects(cells.behind.as_slice(), check.underneath.as_slice())
            } else {
                CurrentCells::intersects(check.behind.as_slice(), cells.underneath.as_slice())
            };
            if is_near {
                entities.push(items[i].0);
            }
            i = i + 1;
        }
        assert(items@.take(i as int) == items@);
        entities
    }

    /// Finds what is near `check` among `items`: the entity that stands at
    /// the main cell of `check`, the entities of the items that `check`
    /// hides part of, and the entities of those that hide part of `check`.
    /// There is nothing to find where no item stands at that main cell.
    pub fn find_nearby_entities(check: &CurrentCells, items: &Vec<(u64, CurrentCells)>) -> (nearby:
        Option<EntitiesNearby>)
        ensures
            match nearby {
                Some(found) => {
                    &&& Self::spec_corresponding(check.main_cell, items@) == Some(
                        found.corresponding,
                    )
                    &&& found.behind@ == Self::spec_near(check@, items@, false)
                    &&& found.in_front@ == Self::spec_near(check@, items@, true)
                },
                None => Self::spec_corresponding(check.main_cell, items@) is None,
            },
    {
        let corresponding = match Self::corresponding(check.main_cell, items) {
            Some(entity) => entity,
            None => {
                return None;
            },
        };
        let behind = Self::near(check, items, false);
        let in_front = Self::near(check, items, true);
        Some(EntitiesNearby { corresponding, in_front, behind })
    }
}

/// The depth each way of sorting has given an item.
#[derive(Clone, Copy, Debug, PartialEq, Eq, Structural)]
pub struct CompareTransforms {
    pub topological: Depth,
    pub partial_cmp: Depth,
}

impl CompareTransforms {
    pub open spec fn spec_get(self, method: SortMethod) -> Depth {
        match method {
            SortMethod::Topological => self.topological,
            SortMethod::PartialCmp => self.partial_cmp,
        }
    }

    pub fn get(&self, method: SortMethod) -> (depth: Depth)
        ensures
            depth == self.spec_get(method),
    {
        match method {
            SortMethod::Topological => self.topological,
            SortMethod::PartialCmp => self.partial_cmp,
        }
    }

    /// Records the depth that `method` has given the item; the depth of the
    /// other method stays.
    pub fn set(&mut self, method: SortMethod, depth: Depth)
        ensures
            final(self).spec_get(method) == depth,
            forall|other: SortMethod|
                other != method ==> final(self).spec_get(other) == old(self).spec_get(other),
    {
        match method {
            SortMethod::Topological => {
                self.topological = depth;
            },
            SortMethod::PartialCmp => {
                self.partial_cmp = depth;
            },
        }
    }
}

impl Default for CompareTransforms {
    /// Both methods start at the depth of the item drawn first.
    fn default() -> (compare: Self)
        ensures
            forall|method: SortMethod|
                compare.spec_get(method) == (Depth { index: 0, n_items: 1 }),
    {
        Self { topological: Depth::default(), partial_cmp: Depth::default() }
    }
}

/// What the checks of each way of sorting have found, one entry for each
/// item checked.
#[derive(Debug)]
pub struct Results {
    pub topological: Vec<Corrects>,
    pub partial_cmp: Vec<Corrects>,
}

impl Results {
    pub open spec fn spec_get(self, method: SortMethod) -> Seq<Corrects> {
        match method {
            SortMethod::Topological => self.topological@,
            SortMethod::PartialCmp => self.partial_cmp@,
        }
    }

    pub fn get(&self, method: SortMethod) -> (corrects: &Vec<Corrects>)
        ensures
            corrects@ == self.spec_get(method),
    {
        match method {
            SortMethod::Topological => &self.topological,
            SortMethod::PartialCmp => &self.partial_cmp,
        }
    }

    /// Adds what the check of one item has found for `method`; what was
    /// found for the other method stays.
    pub fn push(&mut self, method: SortMethod, corrects: Corrects)
        ensures
            final(self).spec_get(method) == old(self).spec_get(method).push(corrects),
            forall|other: SortMethod|
                other != method ==> final(self).spec_get(other) == old(self).spec_get(other),
    {
        match method {
            SortMethod::Topological => {
                self.topological.push(corrects);
            },
            SortMethod::PartialCmp => {
                self.partial_cmp.push(corrects);
            },
        }
    }
}

impl Default for Results {
    /// Nothing has been checked yet.
    fn default() -> (results: Self)
        ensures
            forall|method: SortMethod| results.spec_get(method) == Seq::<Corrects>::empty(),
    {
        Self { topological: Vec::new(), partial_cmp: Vec::new() }
    }
}

} // verus!
