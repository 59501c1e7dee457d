use isometric_sort::cells::cell::{Cell, Direction, MapSize};
use isometric_sort::cells::current::{CurrentCells, Dimensions, Relation};
use isometric_sort::cells::error::Error;

fn place(cell: Cell, dims: Dimensions, map_size: MapSize) -> CurrentCells {
    CurrentCells::new(cell, dims, Direction::BottomRight, map_size).unwrap()
}

#[test]
fn one_cell_item_stands_on_its_main_cell_whatever_it_faces() {
    let map_size = MapSize::new(3, 6);
    let main_cell = Cell::new(2, 0);
    for facing in Direction::all() {
        for height in [0, 1, 7] {
            assert_eq!(
                CurrentCells::underneath(main_cell, Dimensions::new(1, 1, height), facing, map_size),
                Ok(vec![main_cell]),
                "{facing:?} {height}"
            );
        }
    }
    let off_grid = Cell::new(10, 10);
    assert_eq!(
        CurrentCells::underneath(off_grid, Dimensions::new(1, 1, 1), Direction::Top, map_size),
        Ok(vec![off_grid])
    );
}

#[test]
fn larger_item_must_face_bottom_right_or_bottom_left() {
    let map_size = MapSize::new(3, 6);
    for facing in [
        Direction::Top,
        Direction::TopRight,
        Direction::Right,
        Direction::Bottom,
        Direction::Left,
        Direction::TopLeft,
    ] {
        assert_eq!(
            CurrentCells::underneath(Cell::new(1, 1), Dimensions::new(1, 2, 1), facing, map_size),
            Err(Error::InvalidFacing(facing))
        );
        assert!(matches!(
            CurrentCells::new(Cell::new(1, 1), Dimensions::new(2, 1, 1), facing, map_size),
            Err(Error::InvalidFacing(f)) if f == facing
        ));
        assert_eq!(
            CurrentCells::underneath(Cell::new(1, 1), Dimensions::new(0, 0, 1), facing, map_size),
            Err(Error::InvalidFacing(facing))
        );
    }
}

#[test]
fn item_without_area_stands_on_nothing() {
    let map_size = MapSize::new(3, 6);
    for dims in [
        Dimensions::new(0, 0, 1),
        Dimensions::new(0, 3, 1),
        Dimensions::new(3, 0, 1),
    ] {
        assert_eq!(
            CurrentCells::underneath(Cell::new(1, 3), dims, Direction::BottomLeft, map_size),
            Ok(vec![])
        );
    }
}

#[test]
fn underneath_never_has_more_cells_than_the_area() {
    let map_size = MapSize::new(3, 6);
    for width in 0..5u32 {
        for depth in 0..5u32 {
            for facing in [Direction::BottomRight, Direction::BottomLeft] {
                for main_cell in [Cell::new(0, 0), Cell::new(1, 3), Cell::new(2, 5)] {
                    let cells = CurrentCells::underneath(
                        main_cell,
                        Dimensions::new(width, depth, 1),
                        facing,
                        map_size,
                    )
                    .unwrap();
                    assert!(cells.len() <= (width * depth) as usize);
                    if width * depth > 0 {
                        assert_eq!(cells[0], main_cell);
                    }
                }
            }
        }
    }
}

#[test]
fn underneath_drops_the_cells_off_the_grid() {
    let actual = CurrentCells::underneath(
        Cell::new(1, 2),
        Dimensions::new(3, 2, 1),
        Direction::BottomLeft,
        MapSize::new(3, 6),
    );
    assert_eq!(
        actual,
        Ok(vec![
            Cell::new(1, 2),
            Cell::new(0, 1),
            Cell::new(0, 0),
            Cell::new(1, 1),
            Cell::new(1, 0),
        ])
    );
}

#[test]
fn underneath_of_a_huge_item_ends_at_the_edge_of_the_grid() {
    let actual = CurrentCells::underneath(
        Cell::new(0, 2),
        Dimensions::new(u32::MAX, u32::MAX, 1),
        Direction::BottomRight,
        MapSize::new(2, 3),
    );
    assert_eq!(
        actual,
        Ok(vec![Cell::new(0, 2), Cell::new(0, 1), Cell::new(1, 0)])
    );
}

#[test]
fn flatten_keeps_the_present_cells_in_order() {
    assert_eq!(
        CurrentCells::flatten(vec![None, Some(Cell::new(1, 2)), None, Some(Cell::new(0, 0))]),
        vec![Cell::new(1, 2), Cell::new(0, 0)]
    );
    assert_eq!(CurrentCells::flatten(vec![None, None]), vec![]);
    assert_eq!(CurrentCells::flatten(vec![]), vec![]);
}

#[test]
fn behind_of_a_flat_item_is_empty() {
    let map_size = MapSize::new(3, 7);
    assert_eq!(CurrentCells::behind(&[Cell::new(1, 4)], 0, map_size), vec![]);
    assert_eq!(
        CurrentCells::behind(&[Cell::new(1, 4), Cell::new(0, 3), Cell::new(1, 3)], 0, map_size),
        vec![]
    );
    assert_eq!(CurrentCells::behind(&[], 3, map_size), vec![]);
    let flat = place(Cell::new(1, 4), Dimensions::new(2, 2, 0), map_size);
    assert_eq!(flat.behind, vec![]);
    assert_eq!(flat.underneath.len(), 4);
}

#[test]
fn behind_stops_at_the_top_of_the_grid() {
    let map_size = MapSize::new(3, 7);
    let expected = vec![
        Cell::new(0, 1),
        Cell::new(1, 1),
        Cell::new(1, 0),
    ];
    assert_eq!(CurrentCells::behind(&[Cell::new(1, 2)], 2, map_size), expected);
    assert_eq!(CurrentCells::behind(&[Cell::new(1, 2)], u32::MAX, map_size), expected);
}

#[test]
fn behind_does_not_climb_through_the_item_itself() {
    // The top neighbour of (1, 4) is (1, 2), which the item stands on: the
    // second layer starts from the top neighbour of (1, 2) only.
    let underneath = [Cell::new(1, 4), Cell::new(1, 2)];
    assert_eq!(
        CurrentCells::behind(&underneath, 2, MapSize::new(3, 7)),
        vec![
            Cell::new(0, 3),
            Cell::new(1, 3),
            Cell::new(0, 1),
            Cell::new(1, 1),
            Cell::new(1, 0),
        ]
    );
}

#[test]
fn new_derives_both_lists() {
    let map_size = MapSize::new(3, 7);
    let cells = place(Cell::new(1, 4), Dimensions::new(2, 2, 1), map_size);
    assert_eq!(cells.main_cell, Cell::new(1, 4));
    assert_eq!(cells.dimensions, Dimensions::new(2, 2, 1));
    assert_eq!(cells.facing, Direction::BottomRight);
    assert_eq!(
        cells.underneath,
        vec![Cell::new(1, 4), Cell::new(1, 3), Cell::new(0, 3), Cell::new(1, 2)]
    );
    assert_eq!(
        cells.behind,
        CurrentCells::behind(&cells.underneath, 1, map_size)
    );
    assert_eq!(
        cells.behind,
        vec![
            Cell::new(2, 2),
            Cell::new(1, 1),
            Cell::new(0, 2),
            Cell::new(0, 1),
            Cell::new(1, 0),
        ]
    );
}

#[test]
fn deriving_again_gives_the_same_lists() {
    let map_size = MapSize::new(4, 7);
    for facing in [Direction::BottomRight, Direction::BottomLeft] {
        let first =
            CurrentCells::new(Cell::new(2, 5), Dimensions::new(2, 3, 2), facing, map_size).unwrap();
        let second =
            CurrentCells::new(Cell::new(2, 5), Dimensions::new(2, 3, 2), facing, map_size).unwrap();
        assert_eq!(first.underneath, second.underneath);
        assert_eq!(first.behind, second.behind);
        assert!(first == second);
    }
}

#[test]
fn items_are_equal_where_they_are_placed_alike() {
    let small = place(Cell::new(1, 4), Dimensions::new(2, 2, 1), MapSize::new(1, 9));
    let large = place(Cell::new(1, 4), Dimensions::new(2, 2, 1), MapSize::new(9, 9));
    assert_eq!(small.underneath, vec![Cell::new(1, 4), Cell::new(0, 3)]);
    assert_ne!(small.underneath, large.underneath);
    assert!(small == large);
    assert!(small != place(Cell::new(1, 4), Dimensions::new(2, 2, 2), MapSize::new(9, 9)));
    assert!(small != place(Cell::new(0, 4), Dimensions::new(2, 2, 1), MapSize::new(9, 9)));
    let left = CurrentCells::new(
        Cell::new(1, 4),
        Dimensions::new(2, 2, 1),
        Direction::BottomLeft,
        MapSize::new(9, 9),
    )
    .unwrap();
    assert!(small != left);
}

#[test]
fn prod_dims_is_the_volume() {
    let map_size = MapSize::new(3, 7);
    assert_eq!(place(Cell::new(1, 6), Dimensions::new(2, 3, 4), map_size).prod_dims(), 24);
    assert_eq!(place(Cell::new(1, 6), Dimensions::new(2, 3, 0), map_size).prod_dims(), 0);
    assert_eq!(
        place(Cell::new(1, 6), Dimensions::new(65535, 65537, 1), map_size).prod_dims(),
        u32::MAX
    );
}

#[test]
fn intersects_finds_a_shared_cell() {
    let a = [Cell::new(0, 0), Cell::new(1, 2)];
    assert!(CurrentCells::intersects(&a, &[Cell::new(5, 5), Cell::new(1, 2)]));
    assert!(!CurrentCells::intersects(&a, &[Cell::new(2, 1), Cell::new(0, 1)]));
    assert!(!CurrentCells::intersects(&a, &[]));
    assert!(!CurrentCells::intersects(&[], &a));
}

#[test]
fn a_comparison_reverses_with_its_arguments() {
    let map_size = MapSize::new(3, 7);
    let placed = [
        place(Cell::new(1, 4), Dimensions::new(1, 1, 1), map_size),
        place(Cell::new(1, 3), Dimensions::new(1, 1, 1), map_size),
        place(Cell::new(0, 1), Dimensions::new(1, 1, 1), map_size),
        place(Cell::new(1, 2), Dimensions::new(3, 1, 1), map_size),
        place(Cell::new(2, 2), Dimensions::new(1, 3, 1), map_size),
        place(Cell::new(2, 6), Dimensions::new(2, 4, 1), map_size),
        place(Cell::new(0, 4), Dimensions::new(1, 1, 2), map_size),
    ];
    let mut seen = Vec::new();
    for a in &placed {
        for b in &placed {
            let forth = a.compare(b);
            assert_eq!(b.compare(a), forth.map(Relation::reverse));
            seen.push(forth);
        }
    }
    assert!(seen.contains(&Ok(Relation::Greater)));
    assert!(seen.contains(&Ok(Relation::Less)));
    assert!(seen.contains(&Ok(Relation::Incomparable)));
    assert!(seen.contains(&Err(Error::Contradiction)));
}

#[test]
fn relation_reverses() {
    assert_eq!(Relation::Greater.reverse(), Relation::Less);
    assert_eq!(Relation::Less.reverse(), Relation::Greater);
    assert_eq!(Relation::Incomparable.reverse(), Relation::Incomparable);
}

#[test]
fn item_below_is_in_front() {
    let map_size = MapSize::new(3, 6);
    let a = place(Cell::new(1, 4), Dimensions::new(1, 1, 1), map_size);
    let b = place(Cell::new(1, 3), Dimensions::new(1, 1, 1), map_size);
    assert_eq!(a.compare(&b), Ok(Relation::Greater));
    assert_eq!(b.compare(&a), Ok(Relation::Less));
}

#[test]
fn items_side_by_side_are_incomparable() {
    let map_size = MapSize::new(3, 6);
    let a = place(Cell::new(1, 1), Dimensions::new(1, 1, 1), map_size);
    let b = place(Cell::new(0, 1), Dimensions::new(1, 1, 1), map_size);
    assert_eq!(a.compare(&b), Ok(Relation::Incomparable));
    assert_eq!(b.compare(&a), Ok(Relation::Incomparable));
}

#[test]
fn items_that_hide_each_other_contradict() {
    let map_size = MapSize::new(3, 6);
    let a = place(Cell::new(1, 2), Dimensions::new(3, 1, 1), map_size);
    let b = place(Cell::new(2, 2), Dimensions::new(1, 3, 1), map_size);
    assert_eq!(a.compare(&b), Err(Error::Contradiction));
    assert_eq!(b.compare(&a), Err(Error::Contradiction));
}

#[test]
fn errors_say_what_went_wrong() {
    assert_eq!(
        Error::InvalidFacing(Direction::Top).message(),
        "Items can only face BottomRight or BottomLeft"
    );
    assert_eq!(
        Error::Contradiction.message(),
        "Items cannot be both in front and behind each other"
    );
    assert_eq!(Error::Cycle.message(), "Items hide each other in a circle");
}
