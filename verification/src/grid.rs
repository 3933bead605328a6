//! A fixed-size two-dimensional grid stored in row-major order.
use vstd::prelude::*;

use crate::index_math::{lemma_row_major_bounds, lemma_row_major_injective};

verus! {

/// `v` is a value that `T::default()` can return.
pub open spec fn is_default<T: Default>(v: T) -> bool {
    call_ensures(T::default, (), v)
}

/// A `width` by `height` grid whose cell `(x, y)` is stored at index `y * width + x`.
#[derive(Debug)]
pub struct RowMajorGrid<T> {
    _width: u32,
    _height: u32,
    data: Vec<T>,
}

impl<T> RowMajorGrid<T> {
    /// The number of columns.
    pub closed spec fn w(&self) -> u32 {
        self._width
    }

    /// The number of rows.
    pub closed spec fn h(&self) -> u32 {
        self._height
    }

    /// The cells, row after row.
    pub closed spec fn cells(&self) -> Seq<T> {
        self.data@
    }

    /// The storage holds one cell per position, and the cell count fits in a `u32`.
    pub open spec fn wf(&self) -> bool {
        &&& self.cells().len() == self.w() * self.h()
        &&& self.w() * self.h() <= u32::MAX
    }

    /// Whether `(x, y)` is a position of the grid.
    pub open spec fn in_bounds(&self, x: int, y: int) -> bool {
        0 <= x < self.w() && 0 <= y < self.h()
    }

    /// The cell at `(x, y)`.
    pub open spec fn at(&self, x: int, y: int) -> T {
        self.cells()[y * self.w() + x]
    }

    /// The number of columns.
    pub fn width(&self) -> (r: u32)
        ensures
            r == self.w(),
    {
        self._width
    }

    /// The number of rows.
    pub fn height(&self) -> (r: u32)
        ensures
            r == self.h(),
    {
        self._height
    }

    /// The storage index of `(x, y)`, if it is a position of the grid.
    pub fn get_index(&self, x: u32, y: u32) -> (r: Option<usize>)
        requires
            self.wf(),
        ensures
            r is Some <==> self.in_bounds(x as int, y as int),
            r matches Some(i) ==> i == y * self.w() + x && i < self.cells().len(),
    {
        if x < self._width && y < self._height {
            proof {
                lemma_row_major_bounds(x as int, y as int, self.w() as int, self.h() as int);
            }
            Some((y * self._width + x) as usize)
        } else {
            None
        }
    }

    /// Whether `(x, y)` is a position of the grid.
    pub fn contains_u32(&self, x: u32, y: u32) -> (r: bool)
        ensures
            r == self.in_bounds(x as int, y as int),
    {
        x < self._width && y < self._height
    }

    /// Whether `(x, y)` lies inside the grid, the sides taken as `i32`.
    pub fn contains_i32(&self, x: i32, y: i32) -> (r: bool)
        ensures
            r == (0 <= x && 0 <= y && x < (self.w() as u32) as i32 && y < (self.h() as u32) as i32),
    {
        x >= 0 && y >= 0 && x < (self._width as i32) && y < (self._height as i32)
    }

    /// The cells of row `y`, left to right.
    pub fn row(&self, y: u32) -> (r: &[T])
        requires
            self.wf(),
            y < self.h(),
        ensures
            r@ == self.cells().subrange(y * self.w(), (y + 1) * self.w()),
            forall|x: int| 0 <= x < self.w() ==> #[trigger] r@[x] == self.at(x, y as int),
    {
        proof {
            assert((y + 1) * self.w() <= self.w() * self.h()) by (nonlinear_arith)
                requires
                    y < self.h(),
            ;
            assert((y + 1) * self.w() == y * self.w() + self.w()) by (nonlinear_arith);
            assert(0 <= y * self.w()) by (nonlinear_arith);
        }
        let start = (y * self._width) as usize;
        let end = start + self._width as usize;
        &self.data.as_slice()[start..end]
    }

    /// The cell at `(x, y)`, if it is a position of the grid.
    pub fn get(&self, x: u32, y: u32) -> (r: Option<&T>)
        requires
            self.wf(),
        ensures
            r == (if self.in_bounds(x as int, y as int) {
                Some(&self.at(x as int, y as int))
            } else {
                None::<&T>
            }),
    {
        match self.get_index(x, y) {
            Some(index) => Some(&self.data[index]),
            None => None,
        }
    }

    /// The number of cells.
    pub fn len(&self) -> (r: usize)
        ensures
            r == self.cells().len(),
    {
        self.data.len()
    }

    /// The cell at storage index `i`.
    pub fn get_at_index(&self, i: usize) -> (r: &T)
        requires
            i < self.cells().len(),
        ensures
            *r == self.cells()[i as int],
    {
        &self.data[i]
    }

    /// Replaces the cell at storage index `i`.
    pub fn set_at_index(&mut self, i: usize, value: T)
        requires
            i < old(self).cells().len(),
        ensures
            final(self).w() == old(self).w(),
            final(self).h() == old(self).h(),
            final(self).cells() == old(self).cells().update(i as int, value),
    {
        self.data.set(i, value);
    }

    /// A mutable reference to the cell at `(x, y)`, if it is a position of the grid.
    pub fn get_mut(&mut self, x: u32, y: u32) -> (r: Option<&mut T>)
        requires
            old(self).wf(),
        ensures
            r is Some <==> old(self).in_bounds(x as int, y as int),
            final(self).w() == old(self).w(),
            final(self).h() == old(self).h(),
            r matches Some(m) ==> {
                &&& *m == old(self).at(x as int, y as int)
                &&& final(self).cells() == old(self).cells().update(
                    y * old(self).w() + x,
                    *final(m),
                )
            },
            r is None ==> final(self).cells() == old(self).cells(),
    {
        match self.get_index(x, y) {
            Some(index) => Some(&mut self.data[index]),
            None => None,
        }
    }

    /// Replaces the cell at `(x, y)`, if it is a position of the grid; says whether it was.
    pub fn set(&mut self, x: u32, y: u32, value: T) -> (r: bool)
        requires
            old(self).wf(),
        ensures
            r == old(self).in_bounds(x as int, y as int),
            final(self).w() == old(self).w(),
            final(self).h() == old(self).h(),
            final(self).cells() == (if r {
                old(self).cells().update(y * old(self).w() + x, value)
            } else {
                old(self).cells()
            }),
    {
        match self.get_index(x, y) {
            Some(index) => {
                self.data.set(index, value);
                true
            },
            None => false,
        }
    }
}

impl<T: Default> RowMajorGrid<T> {
    /// A `width` by `height` grid of default cells.
    pub fn new(width: u32, height: u32) -> (r: Self)
        requires
            width * height <= u32::MAX,
        ensures
            r.wf(),
            r.w() == width,
            r.h() == height,
            forall|i: int| 0 <= i < r.cells().len() ==> is_default(#[trigger] r.cells()[i]),
    {
        let n = width * height;
        let mut data: Vec<T> = Vec::new();
        let mut k: u32 = 0;
        while k < n
            invariant
                k <= n,
                data@.len() == k,
                forall|i: int| 0 <= i < k ==> is_default(#[trigger] data@[i]),
            decreases n - k,
        {
            data.push(T::default());
            k = k + 1;
        }
        RowMajorGrid { _width: width, _height: height, data }
    }

    /// Sets every cell to its default.
    pub fn reset(&mut self)
        ensures
            final(self).w() == old(self).w(),
            final(self).h() == old(self).h(),
            final(self).cells().len() == old(self).cells().len(),
            forall|i: int|
                0 <= i < final(self).cells().len() ==> is_default(#[trigger] final(self).cells()[i]),
    {
        let n = self.data.len();
        let mut k: usize = 0;
        while k < n
            invariant
                k <= n,
                n == self.data@.len(),
                self._width == old(self)._width,
                self._height == old(self)._height,
                forall|i: int| 0 <= i < k ==> is_default(#[trigger] self.data@[i]),
            decreases n - k,
        {
            self.data.set(k, T::default());
            k = k + 1;
        }
    }

    /// Gives the grid the size `width` by `height`, every cell the default.
    pub fn reset_resize(&mut self, width: u32, height: u32)
        requires
            width * height <= u32::MAX,
        ensures
            final(self).wf(),
            final(self).w() == width,
            final(self).h() == height,
            forall|i: int|
                0 <= i < final(self).cells().len() ==> is_default(#[trigger] final(self).cells()[i]),
    {
        self._width = width;
        self._height = height;
        self.data.clear();
        let n = width * height;
        let mut k: u32 = 0;
        while k < n
            invariant
                k <= n,
                n == width * height,
                self._width == width,
                self._height == height,
                self.data@.len() == k,
                forall|i: int| 0 <= i < k ==> is_default(#[trigger] self.data@[i]),
            decreases n - k,
        {
            self.data.push(T::default());
            k = k + 1;
        }
    }

    /// Takes the cell at storage index `i` out of the grid, leaving a default cell there.
    pub fn take_index(&mut self, i: usize) -> (r: T)
        requires
            i < old(self).cells().len(),
        ensures
            r == old(self).cells()[i as int],
            final(self).w() == old(self).w(),
            final(self).h() == old(self).h(),
            final(self).cells() == old(self).cells().update(i as int, final(self).cells()[i as int]),
            is_default(final(self).cells()[i as int]),
    {
        let mut taken = T::default();
        std::mem::swap(&mut self.data[i], &mut taken);
        taken
    }
}

/// Writing the cell at one position of a grid leaves every other position as it was.
pub proof fn lemma_at_after_update<T>(
    before: RowMajorGrid<T>,
    after: RowMajorGrid<T>,
    x0: int,
    y0: int,
    v: T,
)
    requires
        before.wf(),
        before.in_bounds(x0, y0),
        after.w() == before.w(),
        after.h() == before.h(),
        after.cells() == before.cells().update(y0 * before.w() + x0, v),
    ensures
        after.wf(),
        forall|x: int, y: int|
            before.in_bounds(x, y) ==> #[trigger] after.at(x, y) == (if x == x0 && y == y0 {
                v
            } else {
                before.at(x, y)
            }),
{
    lemma_row_major_bounds(x0, y0, before.w() as int, before.h() as int);
    assert forall|x: int, y: int| before.in_bounds(x, y) implies #[trigger] after.at(x, y) == (
    if x == x0 && y == y0 {
        v
    } else {
        before.at(x, y)
    }) by {
        lemma_row_major_bounds(x, y, before.w() as int, before.h() as int);
        if y * before.w() + x == y0 * before.w() + x0 {
            lemma_row_major_injective(x, y, x0, y0, before.w() as int);
        }
    }
}

/// Every position of a grid is a cell of its storage and every cell is at some position.
pub proof fn lemma_at_covers<T>(g: RowMajorGrid<T>)
    requires
        g.wf(),
    ensures
        forall|x: int, y: int|
            g.in_bounds(x, y) ==> 0 <= #[trigger] (y * g.w() + x) < g.cells().len(),
{
    assert forall|x: int, y: int| g.in_bounds(x, y) implies 0 <= #[trigger] (y * g.w() + x)
        < g.cells().len() by {
        lemma_row_major_bounds(x, y, g.w() as int, g.h() as int);
    }
}

/// Moves the cells of `src` by `(-dx, -dy)` into `dest`: afterwards the cell of `dest` at
/// `(x, y)` is the cell that `src` had at `(x + dx, y + dy)`, or the default where that lies
/// outside the grid. The cells that were moved are taken out of `src`, which keeps the rest.
pub fn apply_offset<T: Default>(offset: (i32, i32), src: &mut RowMajorGrid<T>, dest: &mut RowMajorGrid<T>)
    requires
        old(src).wf(),
        old(dest).wf(),
        old(src).w() == old(dest).w(),
        old(src).h() == old(dest).h(),
        old(src).w() > 0,
        i32::MIN < offset.0,
        i32::MIN < offset.1,
        -old(src).w() <= offset.0 <= old(src).w(),
        -old(src).h() <= offset.1 <= old(src).h(),
    ensures
        final(src).wf(),
        final(dest).wf(),
        final(src).w() == old(src).w(),
        final(src).h() == old(src).h(),
        final(dest).w() == old(src).w(),
        final(dest).h() == old(src).h(),
        forall|x: int, y: int|
            old(src).in_bounds(x, y) ==> {
                let (sx, sy) = (x + offset.0, y + offset.1);
                if old(src).in_bounds(sx, sy) {
                    #[trigger] final(dest).at(x, y) == old(src).at(sx, sy)
                } else {
                    is_default(final(dest).at(x, y))
                }
            },
        forall|x: int, y: int|
            old(src).in_bounds(x, y) ==> {
                let (tx, ty) = (x - offset.0, y - offset.1);
                if old(src).in_bounds(tx, ty) {
                    is_default(#[trigger] final(src).at(x, y))
                } else {
                    final(src).at(x, y) == old(src).at(x, y)
                }
            },
{
    let (dx, dy) = offset;
    dest.reset();
    let w = src._width;
    let h = src._height;
    let src_min_x: u32 = if dx > 0 { dx as u32 } else { 0 };
    let dest_min_x: u32 = if dx < 0 { (-dx) as u32 } else { 0 };
    let src_min_y: u32 = if dy > 0 { dy as u32 } else { 0 };
    let dest_min_y: u32 = if dy < 0 { (-dy) as u32 } else { 0 };
    let inner_width: u32 = w - (src_min_x + dest_min_x);
    let inner_height: u32 = h - (src_min_y + dest_min_y);
    let ghost src0 = *src;
    proof {
        lemma_at_covers(src0);
    }
    let mut j: u32 = 0;
    while j < inner_height
        invariant
            src0 == *old(src),
            src0.wf(),
            src.wf(),
            dest.wf(),
            src.w() == w,
            src.h() == h,
            dest.w() == w,
            dest.h() == h,
            w == src0.w(),
            h == src0.h(),
            w > 0,
            src_min_x + dest_min_x + inner_width == w,
            src_min_y + dest_min_y + inner_height == h,
            src_min_x == (if dx > 0 { dx as int } else { 0 }),
            dest_min_x == (if dx < 0 { -dx } else { 0 }),
            src_min_y == (if dy > 0 { dy as int } else { 0 }),
            dest_min_y == (if dy < 0 { -dy } else { 0 }),
            j <= inner_height,
            forall|x: int, y: int|
                src0.in_bounds(x, y) ==> {
                    let (sx, sy) = (x + dx, y + dy);
                    if src0.in_bounds(sx, sy) && y < dest_min_y + j {
                        #[trigger] dest.at(x, y) == src0.at(sx, sy)
                    } else {
                        is_default(dest.at(x, y))
                    }
                },
            forall|x: int, y: int|
                src0.in_bounds(x, y) ==> {
                    let (tx, ty) = (x - dx, y - dy);
                    if src0.in_bounds(tx, ty) && y < src_min_y + j {
                        is_default(#[trigger] src.at(x, y))
                    } else {
                        src.at(x, y) == src0.at(x, y)
                    }
                },
        decreases inner_height - j,
    {
        let mut k: u32 = 0;
        while k < inner_width
            invariant
                src0 == *old(src),
                src0.wf(),
                src.wf(),
                dest.wf(),
                src.w() == w,
                src.h() == h,
                dest.w() == w,
                dest.h() == h,
                w == src0.w(),
                h == src0.h(),
                src_min_x + dest_min_x + inner_width == w,
                src_min_y + dest_min_y + inner_height == h,
                src_min_x == (if dx > 0 { dx as int } else { 0 }),
                dest_min_x == (if dx < 0 { -dx } else { 0 }),
                src_min_y == (if dy > 0 { dy as int } else { 0 }),
                dest_min_y == (if dy < 0 { -dy } else { 0 }),
                j < inner_height,
                k <= inner_width,
                forall|x: int, y: int|
                    src0.in_bounds(x, y) ==> {
                        let (sx, sy) = (x + dx, y + dy);
                        if src0.in_bounds(sx, sy) && (y < dest_min_y + j || (y == dest_min_y + j
                            && x < dest_min_x + k)) {
                            #[trigger] dest.at(x, y) == src0.at(sx, sy)
                        } else {
                            is_default(dest.at(x, y))
                        }
                    },
                forall|x: int, y: int|
                    src0.in_bounds(x, y) ==> {
                        let (tx, ty) = (x - dx, y - dy);
                        if src0.in_bounds(tx, ty) && (y < src_min_y + j || (y == src_min_y + j
                            && x < src_min_x + k)) {
                            is_default(#[trigger] src.at(x, y))
                        } else {
                            src.at(x, y) == src0.at(x, y)
                        }
                    },
            decreases inner_width - k,
        {
            let sx = src_min_x + k;
            let sy = src_min_y + j;
            let tx = dest_min_x + k;
            let ty = dest_min_y + j;
            proof {
                lemma_row_major_bounds(sx as int, sy as int, w as int, h as int);
                lemma_row_major_bounds(tx as int, ty as int, w as int, h as int);
            }
            let ghost src_before = *src;
            let ghost dest_before = *dest;
            assert(src_before.at(sx as int, sy as int) == src0.at(sx as int, sy as int));
            assert(sx == tx + dx && sy == ty + dy);
            let v = src.take_index((sy * w + sx) as usize);
            proof {
                lemma_at_after_update(src_before, *src, sx as int, sy as int, src.cells()[(sy * w
                    + sx) as int]);
            }
            dest.data.set((ty * w + tx) as usize, v);
            proof {
                lemma_at_after_update(dest_before, *dest, tx as int, ty as int, v);
            }
            k = k + 1;
        }
        j = j + 1;
    }
}

} // verus!
