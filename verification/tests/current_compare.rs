use isometric_sort::cells::cell::{Cell, Direction, MapSize};
use isometric_sort::cells::current::{CurrentCells, Dimensions, Relation};

fn setup(cell: Cell, dims: Dimensions) -> CurrentCells {
    CurrentCells::new(cell, dims, Direction::BottomRight, MapSize::new(3, 7)).unwrap()
}

#[test]
fn test_1x1x1_vs_1x1x1_a_in_front() {
    let a = setup(Cell::new(1, 4), Dimensions::new(1, 1, 1));
    let b = setup(Cell::new(1, 3), Dimensions::new(1, 1, 1));
    assert_eq!(a.compare(&b), Ok(Relation::Greater));
}

#[test]
fn test_1x1x1_vs_1x1x1_b_in_front() {
    let a = setup(Cell::new(2, 2), Dimensions::new(1, 1, 1));
    let b = setup(Cell::new(1, 3), Dimensions::new(1, 1, 1));
    assert_eq!(a.compare(&b), Ok(Relation::Less));
}

#[test]
fn test_1x1x1_vs_1x1x1_neither_in_front() {
    let a = setup(Cell::new(1, 1), Dimensions::new(1, 1, 1));
    let b = setup(Cell::new(0, 1), Dimensions::new(1, 1, 1));
    assert_eq!(a.compare(&b), Ok(Relation::Incomparable));
}

#[test]
#[should_panic]
fn test_1x1x1_vs_1x1x1_equal() {
    let a = setup(Cell::new(1, 2), Dimensions::new(3, 1, 1));
    let b = setup(Cell::new(2, 2), Dimensions::new(1, 3, 1));
    let _ordering = a.compare(&b).unwrap();
}

#[test]
fn test_1x1x2_vs_1x1x1_a_in_front() {
    let a = setup(Cell::new(0, 4), Dimensions::new(1, 1, 2));
    let b = setup(Cell::new(0, 1), Dimensions::new(1, 1, 1));
    assert_eq!(a.compare(&b), Ok(Relation::Greater));
}

#[test]
fn test_2x1x1_vs_1x1x1_a_in_front() {
    let a = setup(Cell::new(1, 5), Dimensions::new(2, 1, 1));
    let b = setup(Cell::new(1, 3), Dimensions::new(1, 1, 1));
    assert_eq!(a.compare(&b), Ok(Relation::Greater));
}

#[test]
fn test_2x4x1_vs_1x1x1_b_in_front() {
    let a = setup(Cell::new(2, 6), Dimensions::new(2, 4, 1));
    let b = setup(Cell::new(0, 5), Dimensions::new(1, 1, 1));
    assert_eq!(a.compare(&b), Ok(Relation::Less));
}

#[test]
fn test_1x4x1_vs_1x1x2_b_in_front() {
    let a = setup(Cell::new(2, 5), Dimensions::new(1, 4, 1));
    let b = setup(Cell::new(1, 6), Dimensions::new(1, 1, 2));
    assert_eq!(a.compare(&b), Ok(Relation::Less));
}

#[test]
fn test_3x1x1_vs_1x2x2_a_in_front() {
    let a = setup(Cell::new(0, 3), Dimensions::new(3, 1, 1));
    let b = setup(Cell::new(0, 1), Dimensions::new(1, 2, 2));
    assert_eq!(a.compare(&b), Ok(Relation::Greater));
}

#[test]
fn test_2x1x1_vs_2x1x1_neither_in_front() {
    let a = setup(Cell::new(0, 2), Dimensions::new(2, 1, 1));
    let b = setup(Cell::new(1, 5), Dimensions::new(2, 1, 2));
    assert_eq!(a.compare(&b), Ok(Relation::Incomparable));
}

#[test]
fn test_abc() {
    let a = setup(Cell::new(0, 3), Dimensions::new(2, 2, 1));
    let b = setup(Cell::new(2, 4), Dimensions::new(1, 1, 2));
    let c = setup(Cell::new(2, 2), Dimensions::new(1, 2, 2));
    assert_eq!(a.compare(&c), Ok(Relation::Greater));
    assert_eq!(b.compare(&c), Ok(Relation::Greater));
}

