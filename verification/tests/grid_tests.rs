use fractal_worker::grid::{apply_offset, RowMajorGrid};

fn numbered(width: u32, height: u32) -> RowMajorGrid<u32> {
    let mut g: RowMajorGrid<u32> = RowMajorGrid::new(width, height);
    for y in 0..height {
        for x in 0..width {
            assert!(g.set(x, y, 10 * y + x + 1));
        }
    }
    g
}

#[test]
fn new_grid_is_default_and_sized() {
    let g: RowMajorGrid<u32> = RowMajorGrid::new(3, 2);
    assert_eq!(g.width(), 3);
    assert_eq!(g.height(), 2);
    assert_eq!(g.len(), 6);
    for i in 0..6 {
        assert_eq!(*g.get_at_index(i), 0);
    }
}

#[test]
fn get_index_is_row_major() {
    let g: RowMajorGrid<u32> = RowMajorGrid::new(4, 3);
    assert_eq!(g.get_index(0, 0), Some(0));
    assert_eq!(g.get_index(3, 0), Some(3));
    assert_eq!(g.get_index(1, 2), Some(9));
    assert_eq!(g.get_index(4, 0), None);
    assert_eq!(g.get_index(0, 3), None);
}

#[test]
fn set_then_get_reads_back() {
    let mut g: RowMajorGrid<u32> = RowMajorGrid::new(4, 3);
    assert!(g.set(2, 1, 42));
    assert_eq!(g.get(2, 1), Some(&42));
    assert_eq!(g.get(1, 2), Some(&0));
    assert!(!g.set(4, 1, 7));
    assert_eq!(g.get(4, 1), None);
}

#[test]
fn get_mut_writes_through() {
    let mut g: RowMajorGrid<u32> = RowMajorGrid::new(2, 2);
    if let Some(c) = g.get_mut(1, 1) {
        *c = 9;
    }
    assert_eq!(g.get(1, 1), Some(&9));
    assert!(g.get_mut(2, 0).is_none());
}

#[test]
fn contains_checks_both_sides() {
    let g: RowMajorGrid<u32> = RowMajorGrid::new(5, 2);
    assert!(g.contains_u32(4, 1));
    assert!(!g.contains_u32(5, 1));
    assert!(g.contains_i32(0, 0));
    assert!(!g.contains_i32(-1, 0));
    assert!(!g.contains_i32(0, 2));
}

#[test]
fn reset_and_reset_resize() {
    let mut g = numbered(3, 3);
    g.reset();
    assert_eq!(g.get(2, 2), Some(&0));
    g.reset_resize(2, 5);
    assert_eq!((g.width(), g.height(), g.len()), (2, 5, 10));
    assert_eq!(g.get(1, 4), Some(&0));
}

#[test]
fn take_index_leaves_default() {
    let mut g = numbered(2, 2);
    assert_eq!(g.take_index(3), 12);
    assert_eq!(*g.get_at_index(3), 0);
    assert_eq!(*g.get_at_index(2), 11);
}

#[test]
fn apply_offset_moves_cells() {
    let mut src = numbered(3, 3);
    let mut dest: RowMajorGrid<u32> = RowMajorGrid::new(3, 3);
    apply_offset((1, -1), &mut src, &mut dest);
    // dest(x, y) == src(x + 1, y - 1)
    assert_eq!(dest.get(0, 1), Some(&2));
    assert_eq!(dest.get(1, 2), Some(&13));
    assert_eq!(dest.get(0, 0), Some(&0));
    assert_eq!(dest.get(2, 1), Some(&0));
    // the moved cells were taken out of src
    assert_eq!(src.get(1, 0), Some(&0));
    assert_eq!(src.get(0, 2), Some(&21));
}

#[test]
fn apply_zero_offset_moves_everything_in_place() {
    let mut src = numbered(2, 2);
    let mut dest: RowMajorGrid<u32> = RowMajorGrid::new(2, 2);
    apply_offset((0, 0), &mut src, &mut dest);
    for y in 0..2 {
        for x in 0..2 {
            assert_eq!(dest.get(x, y), Some(&(10 * y + x + 1)));
            assert_eq!(src.get(x, y), Some(&0));
        }
    }
}

#[test]
fn row_gives_the_cells_of_one_row() {
    let mut g: RowMajorGrid<u32> = RowMajorGrid::new(3, 2);
    g.set(0, 1, 7);
    g.set(2, 1, 9);
    g.set(1, 0, 4);
    assert_eq!(g.row(0), &[0, 4, 0]);
    assert_eq!(g.row(1), &[7, 0, 9]);
}
