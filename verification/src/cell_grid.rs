//! The worker's double-buffered grid of rendered cells.
use vstd::prelude::*;

use crate::grid::{apply_offset as grid_apply_offset, is_default, lemma_at_after_update, lemma_at_covers, RowMajorGrid};
use crate::index_math::lemma_row_major_bounds;
use crate::interface::{RCell, RColor};
use crate::screen::{
    blend_channel_spec, blend_pixel_rgba, byte_at, checker_rgba, fill_checkerboard,
    lemma_pixel_bytes_bound, lemma_pixel_write, pixel_in, put_pixel_rgba,
};

verus! {

/// How far a cell is from its latest render.
#[derive(Debug, Clone, Copy, PartialEq, Eq, Structural)]
pub enum CellState {
    Uninitialized,
    Stale,
    FreshData,
    FreshRgb,
}

impl Default for CellState {
    fn default() -> (r: Self)
        ensures
            r == CellState::Uninitialized,
    {
        CellState::Uninitialized
    }
}

/// One grid position: its state, the payload it was computed from and its colour.
#[derive(Debug)]
pub struct Cell {
    state: CellState,
    data: Option<Vec<u8>>,
    rgb: [u8; 3],
}

/// The contents of a [`Cell`].
pub struct CellView {
    pub state: CellState,
    pub data: Option<Seq<u8>>,
    pub rgb: Seq<u8>,
}

impl CellView {
    /// A cell that was never rendered.
    pub open spec fn empty() -> CellView {
        CellView { state: CellState::Uninitialized, data: None, rgb: seq![0u8, 0u8, 0u8] }
    }

    /// The same cell marked as out of date: rendered cells lose their payload and become
    /// stale, cells that were never rendered stay so.
    pub open spec fn staled(self) -> CellView {
        if self.state == CellState::Uninitialized {
            self
        } else {
            CellView { state: CellState::Stale, data: None, rgb: self.rgb }
        }
    }

    /// The cell's colour with its alpha: transparent black until it was rendered.
    pub open spec fn rgba(self) -> Seq<u8> {
        if self.state == CellState::Uninitialized {
            seq![0u8, 0u8, 0u8, 0u8]
        } else {
            seq![self.rgb[0], self.rgb[1], self.rgb[2], 0xffu8]
        }
    }

    /// The cell's colour: black until it was rendered.
    pub open spec fn rgb_or_black(self) -> Seq<u8> {
        if self.state == CellState::Uninitialized {
            seq![0u8, 0u8, 0u8]
        } else {
            self.rgb
        }
    }

    /// The four bytes a screen pixel holds after this cell is drawn over `under`: unchanged
    /// for a cell never rendered, the blend of both for an out-of-date cell, the cell's own
    /// colour for a fresh one.
    pub open spec fn drawn_over(self, under: Seq<u8>) -> Seq<u8> {
        match self.state {
            CellState::Uninitialized => under,
            CellState::FreshRgb => self.rgba(),
            _ => Seq::new(4, |i: int| blend_channel_spec(under[i], self.rgba()[i])),
        }
    }
}

impl View for Cell {
    type V = CellView;

    closed spec fn view(&self) -> CellView {
        CellView {
            state: self.state,
            data: match self.data {
                Some(d) => Some(d@),
                None => None,
            },
            rgb: self.rgb@,
        }
    }
}

impl Default for Cell {
    fn default() -> (r: Self)
        ensures
            r@ == CellView::empty(),
    {
        let r = Cell { state: CellState::Uninitialized, data: None, rgb: [0, 0, 0] };
        assert(r@.rgb =~= seq![0u8, 0u8, 0u8]);
        r
    }
}

impl Cell {
    /// A freshly rendered cell: the payload of `rcell` and the colour of `rcolor`.
    pub fn from_rcell_rcolor(rcell: RCell, rcolor: RColor) -> (r: Self)
        ensures
            r@ == (CellView { state: CellState::FreshRgb, data: Some(rcell.data@), rgb: rcolor.rgb@ }),
    {
        Cell { state: CellState::FreshRgb, data: Some(rcell.data), rgb: rcolor.rgb }
    }

    /// An out-of-date cell with the colour of `other`.
    pub fn stale_from(other: &Self) -> (r: Self)
        ensures
            r@ == (CellView { state: CellState::Stale, data: None, rgb: other@.rgb }),
    {
        Cell { state: CellState::Stale, data: None, rgb: other.rgb }
    }

    /// An out-of-date cell with the colour `rgb`.
    pub fn stale_from_rgb(rgb: [u8; 3]) -> (r: Self)
        ensures
            r@ == (CellView { state: CellState::Stale, data: None, rgb: rgb@ }),
    {
        Cell { state: CellState::Stale, data: None, rgb }
    }

    /// The cell's colour with its alpha: transparent black until it was rendered.
    pub fn get_rgba(&self) -> (r: [u8; 4])
        ensures
            r@ == self@.rgba(),
    {
        match self.state {
            CellState::Uninitialized => {
                let r = [0u8, 0, 0, 0];
                assert(r@ =~= self@.rgba());
                r
            },
            _ => {
                let r = [self.rgb[0], self.rgb[1], self.rgb[2], 0xff];
                assert(r@ =~= self@.rgba());
                r
            },
        }
    }

    /// The cell's colour: black until it was rendered.
    pub fn get_rgb(&self) -> (r: [u8; 3])
        ensures
            r@ == self@.rgb_or_black(),
    {
        match self.state {
            CellState::Uninitialized => {
                let r = [0u8, 0, 0];
                assert(r@ =~= self@.rgb_or_black());
                r
            },
            _ => self.rgb,
        }
    }

    /// The cell's state.
    pub fn state(&self) -> (r: CellState)
        ensures
            r == self@.state,
    {
        self.state
    }
}

/// Casting a `u32` to `i32` never gives more than the value itself, and keeps every value up to
/// `i32::MAX`.
pub proof fn lemma_i32_cast(v: u32)
    ensures
        (v as i32) as int <= v as int,
        v <= i32::MAX ==> (v as i32) as int == v as int,
        v > i32::MAX ==> (v as i32) < 0,
{
    assert(v > 0x7fff_ffffu32 ==> (v as i32) < 0i32) by (bit_vector);
}

/// Half of a side taken as an `i32`, rounded down; nothing for a side that the cast made
/// negative.
pub open spec fn half(v: int) -> int {
    if v >= 0 {
        v / 2
    } else {
        0
    }
}

/// The cell at `(x, y)` after a zoom that takes each position's colour from the position that
/// `sources` gives for it, row after row, of a picture whose cells are `cells` and whose sides,
/// taken as `i32`, are `iw` and `ih`: out of date with the source's colour, or never rendered
/// where the source lies outside.
pub open spec fn zoomed(
    cells: spec_fn(int, int) -> CellView,
    iw: int,
    ih: int,
    sources: Seq<(i32, i32)>,
    x: int,
    y: int,
) -> CellView {
    if 0 <= x < iw && 0 <= y < ih && 0 <= sources[y * iw + x].0 < iw && 0 <= sources[y * iw
        + x].1 < ih {
        CellView {
            state: CellState::Stale,
            data: None,
            rgb: cells(sources[y * iw + x].0 as int, sources[y * iw + x].1 as int).rgb,
        }
    } else {
        CellView::empty()
    }
}

/// Whether position `a` comes before position `b` in row-major order.
pub open spec fn row_major_before(a: [u32; 2], b: [u32; 2]) -> bool {
    a[1] < b[1] || (a[1] == b[1] && a[0] < b[0])
}

/// Marks every rendered cell of `grid` as out of date.
fn set_stale(grid: &mut RowMajorGrid<Cell>)
    ensures
        final(grid).w() == old(grid).w(),
        final(grid).h() == old(grid).h(),
        final(grid).cells().len() == old(grid).cells().len(),
        forall|i: int|
            0 <= i < old(grid).cells().len() ==> (#[trigger] final(grid).cells()[i])@ == old(
                grid,
            ).cells()[i]@.staled(),
{
    let n = grid.len();
    let mut i: usize = 0;
    while i < n
        invariant
            n == old(grid).cells().len(),
            grid.w() == old(grid).w(),
            grid.h() == old(grid).h(),
            grid.cells().len() == n,
            i <= n,
            forall|j: int|
                0 <= j < i ==> (#[trigger] grid.cells()[j])@ == old(grid).cells()[j]@.staled(),
            forall|j: int| i <= j < n ==> #[trigger] grid.cells()[j] == old(grid).cells()[j],
        decreases n - i,
    {
        let cell = grid.get_at_index(i);
        if cell.state != CellState::Uninitialized {
            let rgb = cell.rgb;
            grid.set_at_index(i, Cell { state: CellState::Stale, data: None, rgb });
        }
        i = i + 1;
    }
}

/// Two grids of rendered cells, the front holding the picture and the back kept empty for the
/// next rearrangement.
#[derive(Debug)]
pub struct CellGridBuffer {
    front: RowMajorGrid<Cell>,
    back: RowMajorGrid<Cell>,
}

impl CellGridBuffer {
    /// The number of columns.
    pub closed spec fn w(&self) -> u32 {
        self.front.w()
    }

    /// The number of rows.
    pub closed spec fn h(&self) -> u32 {
        self.front.h()
    }

    /// The number of columns taken as an `i32`, as the positions are counted.
    pub open spec fn iw(&self) -> int {
        self.w() as i32 as int
    }

    /// The number of rows taken as an `i32`, as the positions are counted.
    pub open spec fn ih(&self) -> int {
        self.h() as i32 as int
    }

    /// Whether `(x, y)` is a position of the grid.
    pub open spec fn in_bounds(&self, x: int, y: int) -> bool {
        0 <= x < self.w() && 0 <= y < self.h()
    }

    /// Whether `(x, y)` is a position of the grid, the sides taken as `i32`.
    pub open spec fn in_bounds_i32(&self, x: int, y: int) -> bool {
        0 <= x < self.iw() && 0 <= y < self.ih()
    }

    /// The cell at `(x, y)`.
    pub closed spec fn cell(&self, x: int, y: int) -> CellView {
        self.front.at(x, y)@
    }

    /// Both grids have the same size and hold one cell per position, and the back grid is
    /// empty.
    pub closed spec fn wf(&self) -> bool {
        &&& self.front.wf()
        &&& self.back.wf()
        &&& self.front.w() == self.back.w()
        &&& self.front.h() == self.back.h()
        &&& forall|i: int|
            0 <= i < self.back.cells().len() ==> (#[trigger] self.back.cells()[i])@
                == CellView::empty()
    }

    /// The cell count fits in a `u32`.
    pub proof fn lemma_wf_size(&self)
        requires
            self.wf(),
        ensures
            self.w() * self.h() <= u32::MAX,
            self.iw() <= self.w(),
            self.ih() <= self.h(),
    {
        lemma_i32_cast(self.w());
        lemma_i32_cast(self.h());
    }

    /// A `width` by `height` grid of cells that were never rendered.
    pub fn new(width: u32, height: u32) -> (r: Self)
        requires
            width * height <= u32::MAX,
        ensures
            r.wf(),
            r.w() == width,
            r.h() == height,
            forall|x: int, y: int| r.in_bounds(x, y) ==> #[trigger] r.cell(x, y) == CellView::empty(),
    {
        let front: RowMajorGrid<Cell> = RowMajorGrid::new(width, height);
        let back: RowMajorGrid<Cell> = RowMajorGrid::new(width, height);
        proof {
            lemma_at_covers(front);
        }
        CellGridBuffer { front, back }
    }

    /// The number of columns.
    pub fn width(&self) -> (r: u32)
        ensures
            r == self.w(),
    {
        self.front.width()
    }

    /// The number of rows.
    pub fn height(&self) -> (r: u32)
        ensures
            r == self.h(),
    {
        self.front.height()
    }

    /// Marks every rendered cell as out of date.
    pub fn mark_all_positions_stale(&mut self)
        requires
            old(self).wf(),
        ensures
            final(self).wf(),
            final(self).w() == old(self).w(),
            final(self).h() == old(self).h(),
            forall|x: int, y: int|
                old(self).in_bounds(x, y) ==> #[trigger] final(self).cell(x, y) == old(self).cell(
                    x,
                    y,
                ).staled(),
    {
        let ghost f0 = self.front;
        set_stale(&mut self.front);
        proof {
            lemma_at_covers(f0);
        }
    }

    /// `positions` lists the positions whose cell is not freshly rendered, row after row, each
    /// once.
    pub open spec fn lists_stale_positions(&self, positions: Seq<[u32; 2]>) -> bool {
        &&& forall|k: int|
            0 <= k < positions.len() ==> {
                &&& self.in_bounds_i32(#[trigger] positions[k][0] as int, positions[k][1] as int)
                &&& self.cell(positions[k][0] as int, positions[k][1] as int).state
                    != CellState::FreshRgb
            }
        &&& forall|x: int, y: int|
            self.in_bounds_i32(x, y) && #[trigger] self.cell(x, y).state != CellState::FreshRgb
                ==> exists|k: int|
                0 <= k < positions.len() && positions[k][0] == x && positions[k][1] == y
        &&& forall|k1: int, k2: int|
            0 <= k1 < k2 < positions.len() ==> row_major_before(
                #[trigger] positions[k1],
                #[trigger] positions[k2],
            )
    }

    /// The cell at `(x, y)` after the picture moved by `(-dx, -dy)`: the cell that was at
    /// `(x + dx, y + dy)`, out of date, or a cell never rendered where that lies outside.
    pub open spec fn offset_cell(&self, offset: (i32, i32), x: int, y: int) -> CellView {
        if self.in_bounds(x + offset.0, y + offset.1) {
            self.cell(x + offset.0, y + offset.1).staled()
        } else {
            CellView::empty()
        }
    }

    /// The cell at `(x, y)`, for a position of the grid.
    fn cell_ref(&self, x: u32, y: u32) -> (r: &Cell)
        requires
            self.front.wf(),
            self.in_bounds(x as int, y as int),
        ensures
            r@ == self.cell(x as int, y as int),
    {
        proof {
            lemma_row_major_bounds(x as int, y as int, self.w() as int, self.h() as int);
        }
        self.front.get_at_index((y * self.front.width() + x) as usize)
    }

    /// The positions whose cell is not freshly rendered, row after row, each once.
    pub fn get_stale_positions(&self) -> (r: Vec<[u32; 2]>)
        requires
            self.wf(),
        ensures
            self.lists_stale_positions(r@),
    {
        proof {
            self.lemma_wf_size();
        }
        let width = self.front.width() as i32;
        let height = self.front.height() as i32;
        let mut r: Vec<[u32; 2]> = Vec::new();
        let mut y: i32 = 0;
        while y < height
            invariant
                self.wf(),
                width == self.iw(),
                height == self.ih(),
                self.iw() <= self.w(),
                self.ih() <= self.h(),
                0 <= y,
                y < height || y == height || height <= 0,
                forall|k: int|
                    0 <= k < r@.len() ==> {
                        &&& self.in_bounds_i32(#[trigger] r@[k][0] as int, r@[k][1] as int)
                        &&& r@[k][1] < y
                        &&& self.cell(r@[k][0] as int, r@[k][1] as int).state != CellState::FreshRgb
                    },
                forall|px: int, py: int|
                    self.in_bounds_i32(px, py) && py < y && #[trigger] self.cell(px, py).state
                        != CellState::FreshRgb ==> exists|k: int|
                        0 <= k < r@.len() && r@[k][0] == px && r@[k][1] == py,
                forall|k1: int, k2: int|
                    0 <= k1 < k2 < r@.len() ==> row_major_before(#[trigger] r@[k1], #[trigger] r@[k2]),
            decreases height - y,
        {
            let mut x: i32 = 0;
            while x < width
                invariant
                    self.wf(),
                    width == self.iw(),
                    height == self.ih(),
                    self.iw() <= self.w(),
                    self.ih() <= self.h(),
                    0 <= y < height,
                    0 <= x,
                    x <= width || width <= 0,
                    forall|k: int|
                        0 <= k < r@.len() ==> {
                            &&& self.in_bounds_i32(#[trigger] r@[k][0] as int, r@[k][1] as int)
                            &&& (r@[k][1] < y || (r@[k][1] == y && r@[k][0] < x))
                            &&& self.cell(r@[k][0] as int, r@[k][1] as int).state
                                != CellState::FreshRgb
                        },
                    forall|px: int, py: int|
                        self.in_bounds_i32(px, py) && (py < y || (py == y && px < x))
                            && #[trigger] self.cell(px, py).state != CellState::FreshRgb
                            ==> exists|k: int| 0 <= k < r@.len() && r@[k][0] == px && r@[k][1] == py,
                    forall|k1: int, k2: int|
                        0 <= k1 < k2 < r@.len() ==> row_major_before(
                            #[trigger] r@[k1],
                            #[trigger] r@[k2],
                        ),
                decreases width - x,
            {
                let cell = self.cell_ref(x as u32, y as u32);
                if cell.state != CellState::FreshRgb {
                    let ghost before = r@;
                    r.push([x as u32, y as u32]);
                    proof {
                        let k = before.len() as int;
                        assert(r@[k][0] == x && r@[k][1] == y);
                        assert forall|k1: int, k2: int| 0 <= k1 < k2 < r@.len() implies row_major_before(
                            #[trigger] r@[k1],
                            #[trigger] r@[k2],
                        ) by {
                            assert(r@[k1] == before[k1]);
                            assert(self.in_bounds_i32(before[k1][0] as int, before[k1][1] as int));
                            if k2 < k {
                                assert(r@[k2] == before[k2]);
                            }
                        }
                        assert forall|px: int, py: int|
                            self.in_bounds_i32(px, py) && (py < y || (py == y && px < x + 1))
                                && #[trigger] self.cell(px, py).state != CellState::FreshRgb
                                implies exists|kk: int|
                            0 <= kk < r@.len() && r@[kk][0] == px && r@[kk][1] == py by {
                            if px == x && py == y {
                                assert(r@[k][0] == px && r@[k][1] == py);
                            } else {
                                let kk = choose|kk: int|
                                    0 <= kk < before.len() && before[kk][0] == px && before[kk][1]
                                        == py;
                                assert(r@[kk] == before[kk]);
                            }
                        }
                    }
                }
                x = x + 1;
            }
            y = y + 1;
        }
        r
    }

    /// Channel `c` of screen pixel `(x, y)` once the grid is drawn with its origin at `offset`
    /// on a `sw` by `sh` screen over the checkerboard.
    pub open spec fn drawn_byte(&self, offset: (i32, i32), sw: u32, sh: u32, x: int, y: int, c: int) -> u8 {
        let (gx, gy) = (x - offset.0, y - offset.1);
        if self.in_bounds_i32(gx, gy) && x < sw as i32 && y < sh as i32 {
            self.cell(gx, gy).drawn_over(checker_rgba(x, y))[c]
        } else {
            checker_rgba(x, y)[c]
        }
    }

    /// Draws the grid with its origin at `offset` onto a `screen_size` screen of packed RGBA
    /// pixels: first the checkerboard, then each cell's colour over it, blended for cells out
    /// of date and left out for cells never rendered. Bytes after the screen keep their values.
    pub fn draw_with_offset(&self, offset: (i32, i32), screen: &mut [u8], screen_size: (u32, u32))
        requires
            self.wf(),
            screen_size.0 * screen_size.1 * 4 <= old(screen)@.len(),
            self.iw() > 0 && self.ih() > 0 ==> offset.0 + self.iw() - 1 <= i32::MAX && offset.1
                + self.ih() - 1 <= i32::MAX,
        ensures
            final(screen)@.len() == old(screen)@.len(),
            forall|x: int, y: int, c: int|
                0 <= x < screen_size.0 && 0 <= y < screen_size.1 && 0 <= c < 4 ==> #[trigger] byte_at(
                    final(screen)@,
                    screen_size.0 as int,
                    x,
                    y,
                    c,
                ) == self.drawn_byte(offset, screen_size.0, screen_size.1, x, y, c),
            forall|b: int|
                screen_size.0 * screen_size.1 * 4 <= b < old(screen)@.len() ==> #[trigger] final(screen)@[b]
                    == old(screen)@[b],
    {
        let (sw, sh) = screen_size;
        let ghost w = sw as int;
        let ghost h = sh as int;
        let ghost s0 = screen@;
        fill_checkerboard(screen, screen_size);
        proof {
            self.lemma_wf_size();
            lemma_i32_cast(sw);
            lemma_i32_cast(sh);
            vstd::arithmetic::div_mod::lemma_fundamental_div_mod(s0.len() as int, 4);
            assert forall|x: int, y: int| 0 <= x < w && 0 <= y < h implies #[trigger] pixel_in(
                w,
                h,
                (s0.len() / 4) as int,
                x,
                y,
            ) by {
                lemma_row_major_bounds(x, y, w, h);
            }
        }
        let width = self.front.width() as i32;
        let height = self.front.height() as i32;
        let (ox, oy) = offset;
        let sw_i = sw as i32;
        let sh_i = sh as i32;
        let mut gy: i32 = 0;
        while gy < height
            invariant
                self.wf(),
                width == self.iw(),
                height == self.ih(),
                self.iw() <= self.w(),
                self.ih() <= self.h(),
                sw_i as int <= sw,
                sh_i as int <= sh,
                sw_i == sw as i32,
                sh_i == sh as i32,
                w == sw,
                h == sh,
                (ox, oy) == offset,
                screen@.len() == s0.len(),
                w * h * 4 <= s0.len(),
                self.iw() > 0 && self.ih() > 0 ==> ox + self.iw() - 1 <= i32::MAX && oy + self.ih()
                    - 1 <= i32::MAX,
                0 <= gy,
                gy <= height || height <= 0,
                forall|x: int, y: int, c: int|
                    0 <= x < w && 0 <= y < h && 0 <= c < 4 ==> #[trigger] byte_at(screen@, w, x, y, c)
                        == (if self.in_bounds_i32(x - ox, y - oy) && y - oy < gy {
                        self.drawn_byte(offset, sw, sh, x, y, c)
                    } else {
                        checker_rgba(x, y)[c]
                    }),
                forall|b: int| w * h * 4 <= b < s0.len() ==> #[trigger] screen@[b] == s0[b],
            decreases height - gy,
        {
            let mut gx: i32 = 0;
            while gx < width
                invariant
                    self.wf(),
                    width == self.iw(),
                    height == self.ih(),
                    self.iw() <= self.w(),
                    self.ih() <= self.h(),
                    sw_i as int <= sw,
                    sh_i as int <= sh,
                    sw_i == sw as i32,
                    sh_i == sh as i32,
                    w == sw,
                    h == sh,
                    (ox, oy) == offset,
                    screen@.len() == s0.len(),
                    w * h * 4 <= s0.len(),
                    self.iw() > 0 && self.ih() > 0 ==> ox + self.iw() - 1 <= i32::MAX && oy
                        + self.ih() - 1 <= i32::MAX,
                    0 <= gy < height,
                    0 <= gx,
                    gx <= width || width <= 0,
                    forall|x: int, y: int, c: int|
                        0 <= x < w && 0 <= y < h && 0 <= c < 4 ==> #[trigger] byte_at(
                            screen@,
                            w,
                            x,
                            y,
                            c,
                        ) == (if self.in_bounds_i32(x - ox, y - oy) && (y - oy < gy || (y - oy == gy
                            && x - ox < gx)) {
                            self.drawn_byte(offset, sw, sh, x, y, c)
                        } else {
                            checker_rgba(x, y)[c]
                        }),
                    forall|b: int| w * h * 4 <= b < s0.len() ==> #[trigger] screen@[b] == s0[b],
                decreases width - gx,
            {
                let sx = gx + ox;
                let sy = gy + oy;
                if !(sx < 0 || sy < 0 || sx >= sw_i || sy >= sh_i) {
                    let x = sx as u32;
                    let y = sy as u32;
                    let cell = self.cell_ref(gx as u32, gy as u32);
                    let ghost before = screen@;
                    let ghost under = checker_rgba(x as int, y as int);
                    proof {
                        assert forall|c: int| 0 <= c < 4 implies #[trigger] before[(y * w + x) * 4
                            + c] == under[c] by {
                            assert(byte_at(before, w, x as int, y as int, c) == under[c]);
                        }
                    }
                    match cell.state {
                        CellState::Uninitialized => {},
                        CellState::FreshRgb => {
                            let rgba = cell.get_rgba();
                            put_pixel_rgba(screen, sw, sh, x, y, rgba);
                            proof {
                                lemma_pixel_write(before, screen@, w, h, x as int, y as int, rgba@);
                            }
                        },
                        _ => {
                            let rgba = cell.get_rgba();
                            blend_pixel_rgba(screen, sw, sh, x, y, rgba);
                            proof {
                                let vals = cell@.drawn_over(under);
                                lemma_pixel_bytes_bound(w, h, x as int, y as int);
                                assert forall|b: int| 0 <= b < before.len() implies #[trigger] screen@[b] == {
                                    let start = (y * w + x) * 4;
                                    if start <= b < start + 4 {
                                        vals[b - start]
                                    } else {
                                        before[b]
                                    }
                                } by {
                                    let start = (y * w + x) * 4;
                                    if start <= b < start + 4 {
                                        assert(before[start + (b - start)] == under[b - start]);
                                    }
                                }
                                lemma_pixel_write(before, screen@, w, h, x as int, y as int, vals);
                            }
                        },
                    }
                }
                gx = gx + 1;
            }
            gy = gy + 1;
        }
    }

    /// The position that `(x, y)` of a grid resized to `size` takes its cell from: the one at
    /// the same distance from the middle, the middles rounded down.
    pub open spec fn resize_source(&self, size: (u32, u32), x: int, y: int) -> (int, int) {
        (x - half(size.0 as i32 as int) + half(self.iw()), y - half(size.1 as i32 as int) + half(
            self.ih(),
        ))
    }

    /// Resizes the grid to `size`, keeping the middle: the cell at `(x, y)` afterwards is the
    /// one at [`Self::resize_source`], or a cell never rendered where that lies outside the old
    /// grid. Cells keep their state.
    pub fn apply_resize(&mut self, size: (u32, u32))
        requires
            old(self).wf(),
            size.0 * size.1 <= u32::MAX,
        ensures
            final(self).wf(),
            final(self).w() == size.0,
            final(self).h() == size.1,
            forall|x: int, y: int|
                final(self).in_bounds(x, y) ==> #[trigger] final(self).cell(x, y) == {
                    let (sx, sy) = old(self).resize_source(size, x, y);
                    if final(self).in_bounds_i32(x, y) && old(self).in_bounds_i32(sx, sy) {
                        old(self).cell(sx, sy)
                    } else {
                        CellView::empty()
                    }
                },
    {
        let ghost old_self = *self;
        proof {
            self.lemma_wf_size();
        }
        let (new_width, new_height) = size;
        let width = self.front.width() as i32;
        let height = self.front.height() as i32;
        let old_mid_x: i32 = if width >= 0 { width / 2 } else { 0 };
        let old_mid_y: i32 = if height >= 0 { height / 2 } else { 0 };
        self.back.reset_resize(new_width, new_height);
        let nw_i = new_width as i32;
        let nh_i = new_height as i32;
        let new_mid_x: i32 = if nw_i >= 0 { nw_i / 2 } else { 0 };
        let new_mid_y: i32 = if nh_i >= 0 { nh_i / 2 } else { 0 };
        let ghost b0 = self.back;
        proof {
            lemma_at_covers(b0);
            lemma_i32_cast(new_width);
            lemma_i32_cast(new_height);
        }
        let mut py: i32 = 0;
        while py < height
            invariant
                old_self.wf(),
                self.front.wf(),
                self.back.wf(),
                self.front.w() == old_self.w(),
                self.front.h() == old_self.h(),
                self.back.w() == new_width,
                self.back.h() == new_height,
                width == old_self.iw(),
                height == old_self.ih(),
                old_self.iw() <= old_self.w(),
                old_self.ih() <= old_self.h(),
                size == (new_width, new_height),
                nw_i == new_width as i32,
                nh_i == new_height as i32,
                nw_i <= new_width,
                nh_i <= new_height,
                old_mid_x == half(width as int),
                old_mid_y == half(height as int),
                new_mid_x == half(nw_i as int),
                new_mid_y == half(nh_i as int),
                0 <= py,
                py <= height || height <= 0,
                forall|x: int, y: int|
                    old_self.in_bounds(x, y) && (y >= py || !old_self.in_bounds_i32(x, y)) ==> #[trigger] self.front.at(x, y)
                        == old_self.front.at(x, y),
                forall|x: int, y: int|
                    0 <= x < new_width && 0 <= y < new_height ==> #[trigger] self.back.at(x, y)@ == {
                        let (sx, sy) = old_self.resize_source(size, x, y);
                        if 0 <= x < nw_i && 0 <= y < nh_i && old_self.in_bounds_i32(sx, sy) && sy < py {
                            old_self.cell(sx, sy)
                        } else {
                            CellView::empty()
                        }
                    },
            decreases height - py,
        {
            let mut px: i32 = 0;
            while px < width
                invariant
                    old_self.wf(),
                    self.front.wf(),
                    self.back.wf(),
                    self.front.w() == old_self.w(),
                    self.front.h() == old_self.h(),
                    self.back.w() == new_width,
                    self.back.h() == new_height,
                    width == old_self.iw(),
                    height == old_self.ih(),
                    old_self.iw() <= old_self.w(),
                    old_self.ih() <= old_self.h(),
                    size == (new_width, new_height),
                    nw_i == new_width as i32,
                    nh_i == new_height as i32,
                    nw_i <= new_width,
                    nh_i <= new_height,
                    old_mid_x == half(width as int),
                    old_mid_y == half(height as int),
                    new_mid_x == half(nw_i as int),
                    new_mid_y == half(nh_i as int),
                    0 <= py < height,
                    0 <= px,
                    px <= width || width <= 0,
                    forall|x: int, y: int|
                        old_self.in_bounds(x, y) && (y > py || (y == py && x >= px) || !old_self.in_bounds_i32(x, y))
                            ==> #[trigger] self.front.at(x, y) == old_self.front.at(x, y),
                    forall|x: int, y: int|
                        0 <= x < new_width && 0 <= y < new_height ==> #[trigger] self.back.at(x, y)@ == {
                            let (sx, sy) = old_self.resize_source(size, x, y);
                            if 0 <= x < nw_i && 0 <= y < nh_i && old_self.in_bounds_i32(sx, sy) && (sy < py || (sy
                                == py && sx < px)) {
                                old_self.cell(sx, sy)
                            } else {
                                CellView::empty()
                            }
                        },
                decreases width - px,
            {
                let nx = new_mid_x + (px - old_mid_x);
                let ny = new_mid_y + (py - old_mid_y);
                if self.back.contains_i32(nx, ny) {
                    let ghost f_before = self.front;
                    let ghost b_before = self.back;
                    proof {
                        lemma_row_major_bounds(px as int, py as int, old_self.w() as int, old_self.h() as int);
                        lemma_row_major_bounds(nx as int, ny as int, new_width as int, new_height as int);
                    }
                    assert(old_self.in_bounds(px as int, py as int));
                    assert(f_before.at(px as int, py as int) == old_self.front.at(px as int, py as int));
                    let idx = (py as u32 * self.front.width() + px as u32) as usize;
                    assert(idx as int == py * old_self.w() + px);
                    let v = self.front.take_index(idx);
                    assert(v == f_before.at(px as int, py as int));
                    proof {
                        lemma_at_after_update(f_before, self.front, px as int, py as int, self.front.cells()[(py * old_self.w() + px) as int]);
                    }
                    let ghost vv = v;
                    self.back.set_at_index((ny as u32 * new_width + nx as u32) as usize, v);
                    proof {
                        lemma_at_after_update(b_before, self.back, nx as int, ny as int, vv);
                        assert(vv == old_self.front.at(px as int, py as int));
                        assert forall|x: int, y: int|
                            0 <= x < new_width && 0 <= y < new_height implies #[trigger] self.back.at(x, y)@ == {
                                let (sx, sy) = old_self.resize_source(size, x, y);
                                if 0 <= x < nw_i && 0 <= y < nh_i && old_self.in_bounds_i32(sx, sy) && (sy < py || (sy
                                    == py && sx < px + 1)) {
                                    old_self.cell(sx, sy)
                                } else {
                                    CellView::empty()
                                }
                            } by {
                            if x == nx && y == ny {
                                assert(self.back.at(x, y) == vv);
                            } else {
                                assert(self.back.at(x, y) == b_before.at(x, y));
                            }
                        }
                    }
                } else {
                    proof {
                        assert forall|x: int, y: int|
                            0 <= x < new_width && 0 <= y < new_height implies #[trigger] self.back.at(x, y)@ == {
                                let (sx, sy) = old_self.resize_source(size, x, y);
                                if 0 <= x < nw_i && 0 <= y < nh_i && old_self.in_bounds_i32(sx, sy) && (sy < py || (sy
                                    == py && sx < px + 1)) {
                                    old_self.cell(sx, sy)
                                } else {
                                    CellView::empty()
                                }
                            } by {
                            let (sx, sy) = old_self.resize_source(size, x, y);
                            if sx == px && sy == py {
                                assert(x == nx && y == ny);
                            }
                        }
                    }
                }
                px = px + 1;
            }
            py = py + 1;
        }
        std::mem::swap(&mut self.front, &mut self.back);
        self.back.reset_resize(new_width, new_height);
    }

    /// How many positions the grid has, the sides taken as `i32`.
    pub open spec fn point_count(&self) -> int {
        if self.iw() > 0 && self.ih() > 0 {
            self.iw() * self.ih()
        } else {
            0
        }
    }

    /// Rearranges the picture after a zoom: `sources` gives, for each position in row-major
    /// order, the position whose colour it shows afterwards. Each cell afterwards is out of
    /// date and has the colour of its source; a position whose source lies outside the grid
    /// holds a cell never rendered.
    pub fn apply_zoom_from_sources(&mut self, sources: &Vec<(i32, i32)>)
        requires
            old(self).wf(),
            sources@.len() == old(self).point_count(),
        ensures
            final(self).wf(),
            final(self).w() == old(self).w(),
            final(self).h() == old(self).h(),
            forall|x: int, y: int|
                old(self).in_bounds(x, y) ==> #[trigger] final(self).cell(x, y) == zoomed(
                    |a: int, b: int| old(self).cell(a, b),
                    old(self).iw(),
                    old(self).ih(),
                    sources@,
                    x,
                    y,
                ),
    {
        let ghost old_self = *self;
        proof {
            self.lemma_wf_size();
            lemma_i32_cast(self.w());
            lemma_i32_cast(self.h());
            lemma_at_covers(self.back);
        }
        let width = self.front.width() as i32;
        let height = self.front.height() as i32;
        let mut k: usize = 0;
        let mut gy: i32 = 0;
        while gy < height
            invariant
                old_self.wf(),
                self.front.wf(),
                self.back.wf(),
                self.back.w() == old_self.w(),
                self.back.h() == old_self.h(),
                self.front == old_self.front,
                width == old_self.iw(),
                height == old_self.ih(),
                width > 0 ==> width == old_self.w(),
                height > 0 ==> height == old_self.h(),
                sources@.len() == old_self.point_count(),
                0 <= gy,
                gy <= height || height <= 0,
                width > 0 ==> k == gy * width,
                forall|x: int, y: int|
                    old_self.in_bounds(x, y) ==> #[trigger] self.back.at(x, y)@ == (if old_self.in_bounds_i32(x, y)
                        && y < gy && old_self.in_bounds_i32(
                        sources@[y * old_self.iw() + x].0 as int,
                        sources@[y * old_self.iw() + x].1 as int,
                    ) {
                        CellView {
                            state: CellState::Stale,
                            data: None,
                            rgb: old_self.cell(
                                sources@[y * old_self.iw() + x].0 as int,
                                sources@[y * old_self.iw() + x].1 as int,
                            ).rgb,
                        }
                    } else {
                        CellView::empty()
                    }),
            decreases height - gy,
        {
            let mut gx: i32 = 0;
            while gx < width
                invariant
                    old_self.wf(),
                    self.front.wf(),
                    self.back.wf(),
                    self.back.w() == old_self.w(),
                    self.back.h() == old_self.h(),
                    self.front == old_self.front,
                    width == old_self.iw(),
                    height == old_self.ih(),
                    width > 0 ==> width == old_self.w(),
                    height > 0 ==> height == old_self.h(),
                    sources@.len() == old_self.point_count(),
                    0 <= gy < height,
                    0 <= gx,
                    gx <= width || width <= 0,
                    width > 0 ==> k == gy * width + gx,
                    forall|x: int, y: int|
                        old_self.in_bounds(x, y) ==> #[trigger] self.back.at(x, y)@ == (if old_self.in_bounds_i32(x, y)
                            && (y < gy || (y == gy && x < gx)) && old_self.in_bounds_i32(
                            sources@[y * old_self.iw() + x].0 as int,
                            sources@[y * old_self.iw() + x].1 as int,
                        ) {
                            CellView {
                                state: CellState::Stale,
                                data: None,
                                rgb: old_self.cell(
                                    sources@[y * old_self.iw() + x].0 as int,
                                    sources@[y * old_self.iw() + x].1 as int,
                                ).rgb,
                            }
                        } else {
                            CellView::empty()
                        }),
                decreases width - gx,
            {
                proof {
                    lemma_row_major_bounds(gx as int, gy as int, width as int, height as int);
                }
                let (fx, fy) = sources[k];
                if self.front.contains_i32(fx, fy) {
                    let src = self.cell_ref(fx as u32, fy as u32);
                    let cell = Cell::stale_from(src);
                    let ghost b_before = self.back;
                    let ghost vv = cell;
                    proof {
                        lemma_row_major_bounds(gx as int, gy as int, old_self.w() as int, old_self.h() as int);
                    }
                    self.back.set_at_index(k, cell);
                    proof {
                        lemma_at_after_update(b_before, self.back, gx as int, gy as int, vv);
                    }
                }
                k = k + 1;
                gx = gx + 1;
            }
            proof {
                crate::index_math::lemma_next_row(gy as int, width as int);
            }
            gy = gy + 1;
        }
        std::mem::swap(&mut self.front, &mut self.back);
        self.back.reset();
        let ghost f1 = self.front;
        set_stale(&mut self.front);
        proof {
            lemma_at_covers(f1);
            assert forall|x: int, y: int| old_self.in_bounds(x, y) implies #[trigger] self.front.at(x, y)@
                == f1.at(x, y)@.staled() by {}
        }
    }

    /// Stores a freshly rendered cell at the position of `rcell`, if that is a position of the
    /// grid; says whether it was.
    pub fn put_value(&mut self, rcell: RCell, rcolor: RColor) -> (r: bool)
        requires
            old(self).wf(),
            rcell.pos == rcolor.pos,
        ensures
            final(self).wf(),
            final(self).w() == old(self).w(),
            final(self).h() == old(self).h(),
            r == old(self).in_bounds(rcell.pos[0] as int, rcell.pos[1] as int),
            forall|x: int, y: int|
                old(self).in_bounds(x, y) ==> #[trigger] final(self).cell(x, y) == (if r && x
                    == rcell.pos[0] && y == rcell.pos[1] {
                    CellView { state: CellState::FreshRgb, data: Some(rcell.data@), rgb: rcolor.rgb@ }
                } else {
                    old(self).cell(x, y)
                }),
    {
        let x = rcell.pos[0];
        let y = rcell.pos[1];
        if self.front.contains_u32(x, y) {
            let ghost f0 = self.front;
            let cell = Cell::from_rcell_rcolor(rcell, rcolor);
            let ghost v = cell;
            self.front.set(x, y, cell);
            proof {
                lemma_at_after_update(f0, self.front, x as int, y as int, v);
            }
            true
        } else {
            false
        }
    }

    /// Moves the picture by `(-dx, -dy)`: afterwards the cell at `(x, y)` is the cell that was at
    /// `(x + dx, y + dy)`, marked out of date, or a cell never rendered where that lies outside
    /// the grid.
    pub fn apply_offset(&mut self, offset: (i32, i32))
        requires
            old(self).wf(),
            old(self).w() > 0,
            i32::MIN < offset.0,
            i32::MIN < offset.1,
            -old(self).w() <= offset.0 <= old(self).w(),
            -old(self).h() <= offset.1 <= old(self).h(),
        ensures
            final(self).wf(),
            final(self).w() == old(self).w(),
            final(self).h() == old(self).h(),
            forall|x: int, y: int|
                old(self).in_bounds(x, y) ==> #[trigger] final(self).cell(x, y) == old(
                    self,
                ).offset_cell(offset, x, y),
    {
        let ghost f0 = self.front;
        grid_apply_offset(offset, &mut self.front, &mut self.back);
        std::mem::swap(&mut self.front, &mut self.back);
        self.back.reset();
        let ghost f1 = self.front;
        set_stale(&mut self.front);
        proof {
            lemma_at_covers(f1);
            lemma_at_covers(self.front);
            assert forall|x: int, y: int| f0.in_bounds(x, y) implies #[trigger] self.front.at(
                x,
                y,
            )@ == (if f0.in_bounds(x + offset.0, y + offset.1) {
                f0.at(x + offset.0, y + offset.1)@.staled()
            } else {
                CellView::empty()
            }) by {
                assert(self.front.at(x, y)@ == f1.at(x, y)@.staled());
            }
        }
    }
}

/// Marking a cell out of date twice is the same as marking it once.
pub proof fn lemma_staled_idempotent(c: CellView)
    ensures
        c.staled().staled() == c.staled(),
{
}

/// Panning back restores the picture: after moving by `offset` and then by its reverse, every
/// cell whose position stayed on the grid in between is back in place, out of date, and every
/// other cell is never rendered.
pub proof fn lemma_pan_back_restores(g: CellGridBuffer, moved: CellGridBuffer, back: CellGridBuffer, offset: (i32, i32))
    requires
        moved.w() == g.w(),
        moved.h() == g.h(),
        back.w() == g.w(),
        back.h() == g.h(),
        forall|x: int, y: int| g.in_bounds(x, y) ==> #[trigger] moved.cell(x, y) == g.offset_cell(offset, x, y),
        forall|x: int, y: int|
            g.in_bounds(x, y) ==> #[trigger] back.cell(x, y) == moved.offset_cell(
                ((-offset.0) as i32, (-offset.1) as i32),
                x,
                y,
            ),
        i32::MIN < offset.0,
        i32::MIN < offset.1,
    ensures
        forall|x: int, y: int|
            g.in_bounds(x, y) ==> #[trigger] back.cell(x, y) == (if g.in_bounds(x - offset.0, y - offset.1) {
                g.cell(x, y).staled()
            } else {
                CellView::empty()
            }),
{
    assert forall|x: int, y: int| g.in_bounds(x, y) implies #[trigger] back.cell(x, y) == (if g.in_bounds(
        x - offset.0,
        y - offset.1,
    ) {
        g.cell(x, y).staled()
    } else {
        CellView::empty()
    }) by {
        if g.in_bounds(x - offset.0, y - offset.1) {
            assert(moved.cell(x - offset.0, y - offset.1) == g.offset_cell(offset, x - offset.0, y - offset.1));
        }
    }
}

/// After every cell was marked out of date, the stale positions are all the positions of the
/// grid.
pub proof fn lemma_marking_lists_every_position(g: CellGridBuffer, marked: CellGridBuffer, positions: Seq<[u32; 2]>)
    requires
        marked.w() == g.w(),
        marked.h() == g.h(),
        forall|x: int, y: int| g.in_bounds(x, y) ==> #[trigger] marked.cell(x, y) == g.cell(x, y).staled(),
        marked.lists_stale_positions(positions),
    ensures
        forall|x: int, y: int|
            marked.in_bounds_i32(x, y) ==> exists|k: int|
                0 <= k < positions.len() && positions[k][0] == x && #[trigger] positions[k][1] == y,
{
    assert forall|x: int, y: int| marked.in_bounds_i32(x, y) implies exists|k: int|
        0 <= k < positions.len() && positions[k][0] == x && #[trigger] positions[k][1] == y by {
        lemma_i32_cast(marked.w());
        lemma_i32_cast(marked.h());
        assert(marked.cell(x, y) == g.cell(x, y).staled());
        assert(marked.cell(x, y).state != CellState::FreshRgb);
    }
}

/// A freshly rendered cell is not among the stale positions.
pub proof fn lemma_fresh_not_listed(g: CellGridBuffer, positions: Seq<[u32; 2]>, x: int, y: int)
    requires
        g.lists_stale_positions(positions),
        g.cell(x, y).state == CellState::FreshRgb,
    ensures
        forall|k: int| 0 <= k < positions.len() ==> !(#[trigger] positions[k][0] == x && positions[k][1] == y),
{
}

/// A zoom whose sources name every position itself, row after row (the sources of a zoom by
/// a factor of one), keeps each cell's colour where it is, out of date.
pub proof fn lemma_zoom_in_place_keeps_colours(
    cells: spec_fn(int, int) -> CellView,
    iw: int,
    ih: int,
    sources: Seq<(i32, i32)>,
    x: int,
    y: int,
)
    requires
        0 < iw <= i32::MAX,
        0 < ih <= i32::MAX,
        sources.len() == iw * ih,
        forall|a: int, b: int| 0 <= a < iw && 0 <= b < ih ==> #[trigger] sources[b * iw + a] == (a as i32, b as i32),
        0 <= x < iw,
        0 <= y < ih,
    ensures
        zoomed(cells, iw, ih, sources, x, y) == (CellView { state: CellState::Stale, data: None, rgb: cells(x, y).rgb }),
{
    assert(sources[y * iw + x] == (x as i32, y as i32));
}

/// A resize that keeps the height moves no cell up or down: each position takes its cell from
/// its own row.
pub proof fn lemma_resize_same_height_keeps_rows(g: CellGridBuffer, size: (u32, u32), x: int, y: int)
    requires
        size.1 == g.h(),
    ensures
        g.resize_source(size, x, y).1 == y,
{
}

/// A resize that keeps the width moves no cell sideways: each position takes its cell from its
/// own column.
pub proof fn lemma_resize_same_width_keeps_columns(g: CellGridBuffer, size: (u32, u32), x: int, y: int)
    requires
        size.0 == g.w(),
    ensures
        g.resize_source(size, x, y).0 == x,
{
}

/// Growing or shrinking a side by `d` moves every cell along that side by half of `d`, rounded
/// down, whichever row or column it is in: the other side's size plays no part.
pub proof fn lemma_resize_moves_by_half_growth(g: CellGridBuffer, size: (u32, u32), x: int, y: int)
    requires
        g.w() <= i32::MAX,
        g.h() <= i32::MAX,
        size.0 <= i32::MAX,
        size.1 <= i32::MAX,
    ensures
        g.resize_source(size, x, y) == (x - (size.0 / 2 - g.w() / 2), y - (size.1 / 2 - g.h() / 2)),
{
}

} // verus!
