use fractal_worker::cell_grid::{Cell, CellGridBuffer, CellState};
use fractal_worker::interface::{RCell, RColor};

fn fresh(x: u32, y: u32, rgb: [u8; 3]) -> (RCell, RColor) {
    (RCell { pos: [x, y], data: vec![x as u8, y as u8] }, RColor { pos: [x, y], rgb })
}

fn pixel(screen: &[u8], width: usize, x: usize, y: usize) -> [u8; 4] {
    let i = (y * width + x) * 4;
    [screen[i], screen[i + 1], screen[i + 2], screen[i + 3]]
}

#[test]
fn cell_colours() {
    let c = Cell::default();
    assert_eq!(c.state(), CellState::Uninitialized);
    assert_eq!(c.get_rgba(), [0, 0, 0, 0]);
    assert_eq!(c.get_rgb(), [0, 0, 0]);
    let (rc, col) = fresh(1, 2, [10, 20, 30]);
    let f = Cell::from_rcell_rcolor(rc, col);
    assert_eq!(f.state(), CellState::FreshRgb);
    assert_eq!(f.get_rgba(), [10, 20, 30, 0xff]);
    let s = Cell::stale_from(&f);
    assert_eq!(s.state(), CellState::Stale);
    assert_eq!(s.get_rgb(), [10, 20, 30]);
    let s2 = Cell::stale_from_rgb([1, 2, 3]);
    assert_eq!(s2.get_rgba(), [1, 2, 3, 0xff]);
    assert_eq!(CellState::default(), CellState::Uninitialized);
}

#[test]
fn new_buffer_is_all_stale_positions() {
    let g = CellGridBuffer::new(3, 2);
    assert_eq!((g.width(), g.height()), (3, 2));
    assert_eq!(g.get_stale_positions(), vec![[0, 0], [1, 0], [2, 0], [0, 1], [1, 1], [2, 1]]);
}

#[test]
fn put_value_makes_position_fresh() {
    let mut g = CellGridBuffer::new(3, 2);
    let (rc, col) = fresh(1, 1, [1, 2, 3]);
    assert!(g.put_value(rc, col));
    assert_eq!(g.get_stale_positions(), vec![[0, 0], [1, 0], [2, 0], [0, 1], [2, 1]]);
    let (rc, col) = fresh(3, 0, [1, 2, 3]);
    assert!(!g.put_value(rc, col));
}

#[test]
fn marking_stale_lists_everything_again() {
    let mut g = CellGridBuffer::new(2, 2);
    for y in 0..2 {
        for x in 0..2 {
            let (rc, col) = fresh(x, y, [5, 5, 5]);
            g.put_value(rc, col);
        }
    }
    assert!(g.get_stale_positions().is_empty());
    g.mark_all_positions_stale();
    assert_eq!(g.get_stale_positions(), vec![[0, 0], [1, 0], [0, 1], [1, 1]]);
}

#[test]
fn draw_fresh_stale_and_empty_cells() {
    let mut g = CellGridBuffer::new(2, 1);
    let (rc, col) = fresh(0, 0, [200, 100, 50]);
    g.put_value(rc, col);
    let (rc, col) = fresh(1, 0, [100, 100, 100]);
    g.put_value(rc, col);
    let mut screen = vec![0u8; 3 * 2 * 4 + 2];
    // the grid at (1, 1) on a 3 by 2 screen
    g.draw_with_offset((1, 1), &mut screen, (3, 2));
    assert_eq!(pixel(&screen, 3, 0, 0), [0x99, 0x99, 0x99, 0xff]);
    assert_eq!(pixel(&screen, 3, 1, 1), [200, 100, 50, 0xff]);
    assert_eq!(pixel(&screen, 3, 2, 1), [100, 100, 100, 0xff]);
    assert_eq!(&screen[24..], &[0, 0]);

    g.mark_all_positions_stale();
    g.draw_with_offset((0, 0), &mut screen, (3, 2));
    // stale cells are blended with the checkerboard: a / 2 + b / 2
    assert_eq!(pixel(&screen, 3, 0, 0), [0x4c + 100, 0x4c + 50, 0x4c + 25, 0xfe]);
    assert_eq!(pixel(&screen, 3, 1, 0), [0x4c + 50, 0x4c + 50, 0x4c + 50, 0xfe]);
    assert_eq!(pixel(&screen, 3, 2, 0), [0x99, 0x99, 0x99, 0xff]);
    assert_eq!(pixel(&screen, 3, 0, 1), [0x99, 0x99, 0x99, 0xff]);
}

#[test]
fn draw_skips_cells_off_screen() {
    let mut g = CellGridBuffer::new(2, 2);
    let (rc, col) = fresh(0, 0, [1, 1, 1]);
    g.put_value(rc, col);
    let mut screen = vec![0u8; 2 * 2 * 4];
    g.draw_with_offset((-1, -1), &mut screen, (2, 2));
    for y in 0..2 {
        for x in 0..2 {
            assert_eq!(pixel(&screen, 2, x, y), [0x99, 0x99, 0x99, 0xff]);
        }
    }
}

#[test]
fn offset_moves_and_marks_stale() {
    let mut g = CellGridBuffer::new(3, 1);
    let (rc, col) = fresh(2, 0, [9, 9, 9]);
    g.put_value(rc, col);
    g.apply_offset((1, 0));
    // cell (x, 0) now holds the old (x + 1, 0)
    let mut screen = vec![0u8; 3 * 4];
    g.draw_with_offset((0, 0), &mut screen, (3, 1));
    assert_eq!(pixel(&screen, 3, 1, 0), [0x4c + 4, 0x4c + 4, 0x4c + 4, 0xfe]);
    assert_eq!(pixel(&screen, 3, 2, 0), [0x99, 0x99, 0x99, 0xff]);
    assert_eq!(g.get_stale_positions().len(), 3);
}

#[test]
fn pan_and_pan_back_restores_inner_cells() {
    let mut g = CellGridBuffer::new(3, 1);
    for x in 0..3 {
        let (rc, col) = fresh(x, 0, [50 * x as u8, 0, 0]);
        g.put_value(rc, col);
    }
    g.apply_offset((1, 0));
    g.apply_offset((-1, 0));
    let mut screen = vec![0u8; 3 * 4];
    g.draw_with_offset((0, 0), &mut screen, (3, 1));
    // (0, 0) left the grid in between; (1, 0) and (2, 0) came back, out of date
    assert_eq!(pixel(&screen, 3, 0, 0), [0x99, 0x99, 0x99, 0xff]);
    assert_eq!(pixel(&screen, 3, 1, 0), [0x4c + 25, 0x4c, 0x4c, 0xfe]);
    assert_eq!(pixel(&screen, 3, 2, 0), [0x4c + 50, 0x4c, 0x4c, 0xfe]);
}

#[test]
fn resize_keeps_middle() {
    let mut g = CellGridBuffer::new(4, 4);
    let (rc, col) = fresh(2, 2, [7, 7, 7]);
    g.put_value(rc, col);
    g.apply_resize((2, 2));
    assert_eq!((g.width(), g.height()), (2, 2));
    // old middle (2, 2) maps to new middle (1, 1); the cell stays fresh
    assert_eq!(g.get_stale_positions(), vec![[0, 0], [1, 0], [0, 1]]);
}

#[test]
fn resize_grows_around_middle() {
    let mut g = CellGridBuffer::new(2, 2);
    let (rc, col) = fresh(0, 0, [7, 7, 7]);
    g.put_value(rc, col);
    g.apply_resize((4, 4));
    let stale = g.get_stale_positions();
    assert_eq!(stale.len(), 15);
    assert!(!stale.contains(&[1, 1]));
}

#[test]
fn zoom_from_sources_copies_colours_stale() {
    let mut g = CellGridBuffer::new(2, 1);
    let (rc, col) = fresh(0, 0, [100, 0, 0]);
    g.put_value(rc, col);
    // both positions take their colour from (0, 0); nothing comes from outside
    g.apply_zoom_from_sources(&vec![(0, 0), (0, 0)]);
    let mut screen = vec![0u8; 2 * 4];
    g.draw_with_offset((0, 0), &mut screen, (2, 1));
    assert_eq!(pixel(&screen, 2, 0, 0), [0x4c + 50, 0x4c, 0x4c, 0xfe]);
    assert_eq!(pixel(&screen, 2, 1, 0), [0x4c + 50, 0x4c, 0x4c, 0xfe]);
    g.apply_zoom_from_sources(&vec![(5, 0), (1, 0)]);
    g.draw_with_offset((0, 0), &mut screen, (2, 1));
    assert_eq!(pixel(&screen, 2, 0, 0), [0x99, 0x99, 0x99, 0xff]);
    assert_eq!(pixel(&screen, 2, 1, 0), [0x4c + 50, 0x4c, 0x4c, 0xfe]);
}
