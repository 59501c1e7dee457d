use isometric_sort::cells::cell::{Cell, Direction, MapSize};
use isometric_sort::cells::current::{CurrentCells, Dimensions};

#[test]
fn test_cells_underneath_1x1_cell_13() {
    let main_cell = Cell::new(1, 3);

    let expected = vec![main_cell];

    let actual = CurrentCells::underneath(
        main_cell,
        Dimensions::new(1, 1, 1),
        Direction::BottomRight,
        MapSize::new(3, 6),
    )
        .unwrap();

    assert_eq!(actual, expected);
}

#[test]
fn test_cells_underneath_1x1_cell_01() {
    let main_cell = Cell::new(0, 1);

    let expected = vec![main_cell];

    let actual = CurrentCells::underneath(
        main_cell,
        Dimensions::new(1, 1, 1),
        Direction::BottomRight,
        MapSize::new(3, 6),
    )
        .unwrap();

    assert_eq!(actual, expected);
}

#[test]
fn test_cells_underneath_1x1_cell_02() {
    let main_cell = Cell::new(0, 2);

    let expected = vec![main_cell];

    let actual = CurrentCells::underneath(
        main_cell,
        Dimensions::new(1, 1, 1),
        Direction::BottomRight,
        MapSize::new(3, 6),
    )
        .unwrap();

    assert_eq!(actual, expected);
}

#[test]
fn test_cells_underneath_2x2() {
    let main_cell = Cell::new(1, 3);

    let expected = vec![main_cell, Cell::new(2, 2), Cell::new(1, 2), Cell::new(1, 1)];

    let actual = CurrentCells::underneath(
        main_cell,
        Dimensions::new(2, 2, 1),
        Direction::BottomRight,
        MapSize::new(3, 6),
    )
        .unwrap();

    assert_eq!(actual, expected);
}

#[test]
fn test_cells_underneath_1x2_facing_bottom_right() {
    let main_cell = Cell::new(1, 3);

    let expected = vec![main_cell, Cell::new(1, 2)];

    let actual = CurrentCells::underneath(
        main_cell,
        Dimensions::new(1, 2, 1),
        Direction::BottomRight,
        MapSize::new(3, 6),
    )
        .unwrap();

    assert_eq!(actual, expected);
}

#[test]
fn test_cells_underneath_1x2_facing_bottom_left() {
    let main_cell = Cell::new(1, 3);

    let expected = vec![main_cell, Cell::new(2, 2)];

    let actual = CurrentCells::underneath(
        main_cell,
        Dimensions::new(1, 2, 1),
        Direction::BottomLeft,
        MapSize::new(3, 6),
    )
        .unwrap();

    assert_eq!(actual, expected);
}

#[test]
fn test_cells_underneath_2x1_facing_bottom_right() {
    let main_cell = Cell::new(2, 4);

    let expected = vec![main_cell, Cell::new(2, 3)];

    let actual = CurrentCells::underneath(
        main_cell,
        Dimensions::new(2, 1, 1),
        Direction::BottomRight,
        MapSize::new(3, 6),
    )
        .unwrap();

    assert_eq!(actual, expected);
}

#[test]
fn test_cells_underneath_2x1_facing_bottom_left() {
    let main_cell = Cell::new(2, 4);

    let expected = vec![main_cell, Cell::new(1, 3)];

    let actual = CurrentCells::underneath(
        main_cell,
        Dimensions::new(2, 1, 1),
        Direction::BottomLeft,
        MapSize::new(3, 6),
    )
        .unwrap();

    assert_eq!(actual, expected);
}

#[test]
fn test_cells_underneath_2x3_facing_bottom_right() {
    let main_cell = Cell::new(1, 5);

    let expected = vec![
        main_cell,
        Cell::new(2, 4),
        Cell::new(1, 4),
        Cell::new(1, 3),
        Cell::new(0, 3),
        Cell::new(1, 2),
    ];

    let actual = CurrentCells::underneath(
        main_cell,
        Dimensions::new(2, 3, 1),
        Direction::BottomRight,
        MapSize::new(3, 6),
    )
        .unwrap();

    assert_eq!(actual, expected);
}

#[test]
fn test_cells_underneath_2x3_facing_bottom_left() {
    let main_cell = Cell::new(0, 3);

    let expected = vec![
        main_cell,
        Cell::new(0, 2),
        Cell::new(1, 2),
        Cell::new(0, 1),
        Cell::new(1, 1),
        Cell::new(1, 0),
    ];

    let actual = CurrentCells::underneath(
        main_cell,
        Dimensions::new(2, 3, 1),
        Direction::BottomLeft,
        MapSize::new(3, 6),
    )
        .unwrap();

    assert_eq!(actual, expected);
}

#[test]
fn test_cells_underneath_3x2_facing_bottom_right() {
    let main_cell = Cell::new(1, 4);

    let expected = vec![
        main_cell,
        Cell::new(1, 3),
        Cell::new(2, 2),
        Cell::new(0, 3),
        Cell::new(1, 2),
        Cell::new(1, 1),
    ];

    let actual = CurrentCells::underneath(
        main_cell,
        Dimensions::new(3, 2, 1),
        Direction::BottomRight,
        MapSize::new(3, 6),
    )
        .unwrap();

    assert_eq!(actual, expected);
}

#[test]
fn test_cells_underneath_3x2_facing_bottom_left() {
    let main_cell = Cell::new(1, 3);

    let expected = vec![
        main_cell,
        Cell::new(1, 2),
        Cell::new(0, 1),
        Cell::new(2, 2),
        Cell::new(1, 1),
        Cell::new(1, 0),
    ];

    let actual = CurrentCells::underneath(
        main_cell,
        Dimensions::new(3, 2, 1),
        Direction::BottomLeft,
        MapSize::new(3, 6),
    )
        .unwrap();

    assert_eq!(actual, expected);
}

#[test]
#[should_panic]
fn test_cells_underneath_invalid_facing_direction() {
    let main_cell = Cell::new(1, 1);

    CurrentCells::underneath(
        main_cell,
        Dimensions::new(1, 2, 1),
        Direction::Top,
        MapSize::new(3, 6),
    )
        .unwrap();
}

#[test]
fn test_cells_underneath_too_close_to_map_border() {
    let main_cell = Cell::new(1, 2);
    let dims = Dimensions::new(3, 2, 1);

    let actual =
        CurrentCells::underneath(main_cell, dims, Direction::BottomLeft, MapSize::new(3, 6))
        .unwrap();

    assert_ne!(actual.len(), (dims.width * dims.depth) as usize);
}

