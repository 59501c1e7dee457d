use isometric_sort::cells::cell::{Cell, Direction, MapSize};
use std::cmp::Ordering;

#[test]
fn find_next_cells_01() {
    let cell = Cell::new(0, 1);
    let expected = vec![
        Cell::new(1, 0),
        Cell::new(1, 1),
        Cell::new(1, 2),
        Cell::new(0, 3),
        Cell::new(0, 2),
        Cell::new(0, 0),
    ];
    let actual = cell.all_next_cells(MapSize::new(4, 6));
    assert_eq!(actual, expected);
}

#[test]
fn find_next_cells_13() {
    let cell = Cell::new(1, 3);
    let expected = vec![
        Cell::new(1, 1),
        Cell::new(2, 2),
        Cell::new(2, 3),
        Cell::new(2, 4),
        Cell::new(1, 5),
        Cell::new(1, 4),
        Cell::new(0, 3),
        Cell::new(1, 2),
    ];
    let actual = cell.all_next_cells(MapSize::new(4, 6));
    assert_eq!(actual, expected);
}

#[test]
fn find_next_cells_22() {
    let cell = Cell::new(2, 2);
    let expected = vec![
        Cell::new(2, 0),
        Cell::new(2, 1),
        Cell::new(3, 2),
        Cell::new(2, 3),
        Cell::new(2, 4),
        Cell::new(1, 3),
        Cell::new(1, 2),
        Cell::new(1, 1),
    ];
    let actual = cell.all_next_cells(MapSize::new(4, 6));
    assert_eq!(actual, expected);
}

#[test]
fn find_next_cells_34() {
    let cell = Cell::new(3, 4);
    let expected = vec![
        Cell::new(3, 2),
        Cell::new(3, 3),
        Cell::new(3, 5),
        Cell::new(2, 5),
        Cell::new(2, 4),
        Cell::new(2, 3),
    ];
    let actual = cell.all_next_cells(MapSize::new(4, 6));
    assert_eq!(actual, expected);
}

fn expect_steps(cell: Cell, expected: [(Direction, (u32, u32)); 8]) {
    let map_size = MapSize::new(9, 9);
    for (direction, (x, y)) in expected {
        assert_eq!(
            cell.next_cell(direction, map_size),
            Some(Cell::new(x, y)),
            "{direction:?}"
        );
    }
}

#[test]
fn next_cell_follows_the_offsets_of_an_even_row() {
    expect_steps(
        Cell::new(4, 4),
        [
            (Direction::Top, (4, 2)),
            (Direction::TopRight, (4, 3)),
            (Direction::Right, (5, 4)),
            (Direction::BottomRight, (4, 5)),
            (Direction::Bottom, (4, 6)),
            (Direction::BottomLeft, (3, 5)),
            (Direction::Left, (3, 4)),
            (Direction::TopLeft, (3, 3)),
        ],
    );
}

#[test]
fn next_cell_follows_the_offsets_of_an_odd_row() {
    expect_steps(
        Cell::new(4, 5),
        [
            (Direction::Top, (4, 3)),
            (Direction::TopRight, (5, 4)),
            (Direction::Right, (5, 5)),
            (Direction::BottomRight, (5, 6)),
            (Direction::Bottom, (4, 7)),
            (Direction::BottomLeft, (4, 6)),
            (Direction::Left, (3, 5)),
            (Direction::TopLeft, (4, 4)),
        ],
    );
}

#[test]
fn offset_depends_on_the_parity_of_the_row() {
    assert_eq!(Cell::new(3, 2).offset(Direction::TopLeft), (-1, -1));
    assert_eq!(Cell::new(3, 3).offset(Direction::TopLeft), (0, -1));
    assert_eq!(Cell::new(3, 2).offset(Direction::BottomRight), (0, 1));
    assert_eq!(Cell::new(3, 3).offset(Direction::BottomRight), (1, 1));
    assert_eq!(Cell::new(3, 3).offset(Direction::Top), (0, -2));
    assert_eq!(Cell::new(3, 2).offset(Direction::Bottom), (0, 2));
}

#[test]
fn next_cell_stops_at_every_edge() {
    let map_size = MapSize::new(3, 4);
    let top_left = Cell::new(0, 0);
    for direction in [
        Direction::Top,
        Direction::TopRight,
        Direction::TopLeft,
        Direction::Left,
        Direction::BottomLeft,
    ] {
        assert_eq!(top_left.next_cell(direction, map_size), None, "{direction:?}");
    }
    let bottom_right = Cell::new(2, 3);
    for direction in [
        Direction::Bottom,
        Direction::BottomRight,
        Direction::BottomLeft,
        Direction::Right,
        Direction::TopRight,
    ] {
        assert_eq!(bottom_right.next_cell(direction, map_size), None, "{direction:?}");
    }
    assert_eq!(Cell::new(1, 1).next_cell(Direction::Top, map_size), None);
    assert_eq!(Cell::new(1, 2).next_cell(Direction::Bottom, map_size), None);
}

#[test]
fn next_cell_does_not_wrap_at_the_largest_coordinates() {
    let map_size = MapSize::new(u32::MAX, u32::MAX);
    let last = Cell::new(u32::MAX - 1, u32::MAX - 1);
    assert_eq!(last.next_cell(Direction::Right, map_size), None);
    assert_eq!(last.next_cell(Direction::Bottom, map_size), None);
    assert_eq!(
        last.next_cell(Direction::Left, map_size),
        Some(Cell::new(u32::MAX - 2, u32::MAX - 1))
    );
    assert_eq!(
        Cell::new(u32::MAX, u32::MAX).next_cell(Direction::Right, MapSize::new(5, 5)),
        None
    );
}

#[test]
fn maybe_new_from_offset_checks_both_bounds() {
    let map_size = MapSize::new(3, 6);
    assert_eq!(Cell::maybe_new_from_offset(2, 5, map_size), Some(Cell::new(2, 5)));
    assert_eq!(Cell::maybe_new_from_offset(3, 5, map_size), None);
    assert_eq!(Cell::maybe_new_from_offset(2, 6, map_size), None);
    assert_eq!(Cell::maybe_new_from_offset(-1, 0, map_size), None);
    assert_eq!(Cell::maybe_new_from_offset(0, -1, map_size), None);
}

#[test]
fn nth_cell_in_direction_walks_step_by_step() {
    let map_size = MapSize::new(4, 7);
    let cell = Cell::new(1, 6);
    assert_eq!(cell.nth_cell_in_direction(Direction::TopRight, 0, map_size), Some(cell));
    assert_eq!(
        cell.nth_cell_in_direction(Direction::TopRight, 3, map_size),
        Some(Cell::new(2, 3))
    );
    assert_eq!(
        cell.nth_cell_in_direction(Direction::Top, 3, map_size),
        Some(Cell::new(1, 0))
    );
    assert_eq!(cell.nth_cell_in_direction(Direction::Top, 4, map_size), None);
}

#[test]
fn nth_cell_in_direction_does_not_come_back_onto_the_grid() {
    let map_size = MapSize::new(2, 8);
    let cell = Cell::new(1, 5);
    // The first step to the top right leaves the grid; a walk that skipped
    // it would be back on the grid after two steps.
    assert_eq!(cell.nth_cell_in_direction(Direction::TopRight, 1, map_size), None);
    assert_eq!(cell.nth_cell_in_direction(Direction::TopRight, 2, map_size), None);
    assert_eq!(
        Cell::new(9, 9).nth_cell_in_direction(Direction::Left, 0, map_size),
        Some(Cell::new(9, 9))
    );
    assert_eq!(
        cell.nth_cell_in_direction(Direction::Left, u32::MAX, map_size),
        None
    );
}

#[test]
fn directional_next_cells_keeps_a_slot_for_each_direction() {
    let cell = Cell::new(0, 0);
    let cells = cell.directional_next_cells(
        MapSize::new(4, 6),
        &[Direction::Left, Direction::Right, Direction::Top, Direction::Bottom],
    );
    assert_eq!(cells, vec![None, Some(Cell::new(1, 0)), None, Some(Cell::new(0, 2))]);
    assert_eq!(cell.directional_next_cells(MapSize::new(4, 6), &[]), vec![]);
}

#[test]
fn diagonal_next_cells_lists_the_diagonals_on_the_grid() {
    assert_eq!(
        Cell::new(1, 3).diagonal_next_cells(MapSize::new(4, 6)),
        vec![Cell::new(2, 2), Cell::new(2, 4), Cell::new(1, 4), Cell::new(1, 2)]
    );
    assert_eq!(
        Cell::new(0, 0).diagonal_next_cells(MapSize::new(4, 6)),
        vec![Cell::new(0, 1)]
    );
}

#[test]
fn directions_are_listed_clockwise() {
    assert_eq!(
        Direction::all(),
        [
            Direction::Top,
            Direction::TopRight,
            Direction::Right,
            Direction::BottomRight,
            Direction::Bottom,
            Direction::BottomLeft,
            Direction::Left,
            Direction::TopLeft,
        ]
    );
    assert_eq!(
        Direction::diagonals(),
        [
            Direction::TopRight,
            Direction::BottomRight,
            Direction::BottomLeft,
            Direction::TopLeft,
        ]
    );
}

#[test]
fn cells_are_ordered_by_row_alone() {
    assert_eq!(Cell::new(5, 1).partial_cmp(&Cell::new(0, 2)), Some(Ordering::Less));
    assert_eq!(Cell::new(0, 3).partial_cmp(&Cell::new(9, 2)), Some(Ordering::Greater));
    assert_eq!(Cell::new(0, 2).partial_cmp(&Cell::new(9, 2)), Some(Ordering::Equal));
    assert!(Cell::new(5, 1) < Cell::new(0, 2));
    assert!(Cell::new(0, 2) != Cell::new(9, 2));
    assert!(!(Cell::new(0, 2) < Cell::new(9, 2)));
    assert!(!(Cell::new(0, 2) > Cell::new(9, 2)));
}
