//! The decisions of the chunked render worker: which positions each render thread gets, what
//! it draws of the results that come back, and where the render stands.
use vstd::prelude::*;

use crate::chunk::RChunk;
use crate::index_math::lemma_next_row;
use crate::interface::RColor;
use crate::pixel_canvas::{div2, half_trunc};

verus! {

/// The screen after colour `c` was painted into a buffer whose rows are `width` pixels long.
pub open spec fn paint_color(s: Seq<u8>, c: RColor, width: int) -> Seq<u8> {
    let i = (c.pos[0] + c.pos[1] * width) * 4;
    s.update(i, c.rgb[0]).update(i + 1, c.rgb[1]).update(i + 2, c.rgb[2]).update(i + 3, 0xffu8)
}

/// The screen after the colours `cs` were painted in order.
pub open spec fn paint_colors(s: Seq<u8>, cs: Seq<RColor>, width: int) -> Seq<u8>
    decreases cs.len(),
{
    if cs.len() == 0 {
        s
    } else {
        paint_color(paint_colors(s, cs.drop_last(), width), cs.last(), width)
    }
}

/// Every colour of `cs` lies inside a buffer of `len` bytes whose rows are `width` pixels long.
pub open spec fn colors_fit(cs: Seq<RColor>, width: int, len: int) -> bool {
    forall|i: int| 0 <= i < cs.len() ==> (#[trigger] cs[i]).pos[0] + cs[i].pos[1] * width + 1 <= len / 4
}

/// Paints each colour at its position, opaque, in order, into a buffer of packed RGBA pixels
/// whose rows are `width` pixels long.
pub fn draw_chunk_colors(rcolors: Vec<RColor>, width: u32, screen: &mut [u8])
    requires
        colors_fit(rcolors@, width as int, old(screen)@.len() as int),
    ensures
        final(screen)@ == paint_colors(old(screen)@, rcolors@, width as int),
        final(screen)@.len() == old(screen)@.len(),
{
    let ghost s0 = screen@;
    let n = rcolors.len();
    let len = screen.len();
    let mut k: usize = 0;
    while k < n
        invariant
            n == rcolors@.len(),
            len == s0.len(),
            screen@.len() == len,
            k <= n,
            colors_fit(rcolors@, width as int, len as int),
            screen@ == paint_colors(s0, rcolors@.take(k as int), width as int),
        decreases n - k,
    {
        let rcolor = rcolors[k];
        let x = rcolor.pos[0] as usize;
        let y = rcolor.pos[1] as usize;
        proof {
            assert(rcolors@[k as int] == rcolor);
            vstd::arithmetic::div_mod::lemma_fundamental_div_mod(len as int, 4);
            assert(y * width <= len) by (nonlinear_arith)
                requires
                    x + y * width + 1 <= len / 4,
                    len / 4 * 4 <= len,
                    x >= 0,
            ;
        }
        let idx = (x + y * width as usize) * 4;
        screen[idx] = rcolor.rgb[0];
        screen[idx + 1] = rcolor.rgb[1];
        screen[idx + 2] = rcolor.rgb[2];
        screen[idx + 3] = 0xff;
        proof {
            assert(rcolors@.take(k + 1).drop_last() =~= rcolors@.take(k as int));
            assert(rcolors@.take(k + 1).last() == rcolor);
        }
        k = k + 1;
    }
    proof {
        assert(rcolors@.take(n as int) =~= rcolors@);
    }
}

/// The `m`-th value of a range stepped by `step`.
pub open spec fn step_start(m: int, step: int) -> int {
    m * step
}

/// How many values a range from 0 below `len` stepped by `step` has.
pub open spec fn step_count(len: int, step: int) -> int {
    if len <= 0 {
        0
    } else {
        (len - 1) / step + 1
    }
}

/// The positions of the block from `(xmin, ymin)` up to, not including, `(xend, yend)`, column
/// after column.
pub open spec fn block(xmin: int, ymin: int, xend: int, yend: int) -> Seq<[u32; 2]> {
    Seq::new(
        ((xend - xmin) * (yend - ymin)) as nat,
        |k: int| [(xmin + k / (yend - ymin)) as u32, (ymin + k % (yend - ymin)) as u32],
    )
}

/// Each block's end, its start plus the side taken as a `u32`, fits in a `u32`, for every start
/// below `len`.
pub open spec fn block_ends_fit(len: u32, chunk_size: usize) -> bool {
    forall|m: int|
        0 <= m && #[trigger] step_start(m, chunk_size as int) < len ==> step_start(m, chunk_size as int)
            + (chunk_size as u32) <= u32::MAX
}

/// The `(i, j)` block of a `width` by `height` picture cut into squares of side `chunk_size`.
pub open spec fn pixel_block(width: u32, height: u32, chunk_size: usize, i: int, j: int) -> Seq<[u32; 2]> {
    let xmin = step_start(i, chunk_size as int);
    let ymin = step_start(j, chunk_size as int);
    let side = chunk_size as u32;
    block(
        xmin,
        ymin,
        if width < xmin + side { width as int } else { xmin + side },
        if height < ymin + side { height as int } else { ymin + side },
    )
}

/// Every position of a `width` by `height` picture, cut into squares of side `chunk_size` (the
/// side taken as a `u32`): the squares go column of squares after column, each square's
/// positions column after column.
pub fn get_all_pixel_positions(width: u32, height: u32, chunk_size: usize) -> (r: Vec<Vec<[u32; 2]>>)
    requires
        chunk_size > 0,
        block_ends_fit(width, chunk_size),
        block_ends_fit(height, chunk_size),
    ensures
        r@.len() == step_count(width as int, chunk_size as int) * step_count(height as int, chunk_size as int),
        forall|i: int, j: int|
            0 <= i < step_count(width as int, chunk_size as int) && 0 <= j < step_count(height as int, chunk_size as int)
                ==> (#[trigger] r@[i * step_count(height as int, chunk_size as int) + j])@ == pixel_block(
                width,
                height,
                chunk_size,
                i,
                j,
            ),
{
    let ghost cs = chunk_size as int;
    let ghost nx = step_count(width as int, cs);
    let ghost ny = step_count(height as int, cs);
    let side = chunk_size as u32;
    let mut chunks: Vec<Vec<[u32; 2]>> = Vec::new();
    let mut xmin: u64 = 0;
    let ghost mut i: int = 0;
    while xmin < width as u64
        invariant
            cs == chunk_size,
            cs > 0,
            nx == step_count(width as int, cs),
            ny == step_count(height as int, cs),
            side == chunk_size as u32,
            block_ends_fit(width, chunk_size),
            block_ends_fit(height, chunk_size),
            0 <= i,
            xmin < width ==> xmin == step_start(i, cs),
            xmin < width ==> i < nx,
            xmin >= width ==> i == nx,
            chunks@.len() == i * ny,
            forall|a: int, b: int|
                0 <= a < i && 0 <= b < ny ==> (#[trigger] chunks@[a * ny + b])@ == pixel_block(
                    width,
                    height,
                    chunk_size,
                    a,
                    b,
                ),
        decreases width - xmin,
    {
        assert(xmin + side <= u32::MAX);
        let xend: u32 = if width < xmin as u32 + side { width } else { xmin as u32 + side };
        let mut ymin: u64 = 0;
        let ghost mut j: int = 0;
        while ymin < height as u64
            invariant
                cs == chunk_size,
                cs > 0,
                nx == step_count(width as int, cs),
                ny == step_count(height as int, cs),
                side == chunk_size as u32,
                block_ends_fit(width, chunk_size),
                block_ends_fit(height, chunk_size),
                0 <= i < nx,
                xmin == step_start(i, cs),
                xmin < width,
                xend == (if width < xmin + side { width as int } else { xmin + side }),
                0 <= j,
                ymin < height ==> ymin == step_start(j, cs),
                ymin < height ==> j < ny,
                ymin >= height ==> j == ny,
                chunks@.len() == i * ny + j,
                forall|a: int, b: int|
                    (0 <= a < i && 0 <= b < ny) || (a == i && 0 <= b < j) ==> (#[trigger] chunks@[a * ny + b])@
                        == pixel_block(width, height, chunk_size, a, b),
            decreases height - ymin,
        {
            assert(ymin + side <= u32::MAX);
            let yend: u32 = if height < ymin as u32 + side { height } else { ymin as u32 + side };
            let ghost bh = yend - ymin;
            let mut cur: Vec<[u32; 2]> = Vec::new();
            let mut x: u32 = xmin as u32;
            while x < xend
                invariant
                    xmin <= x <= xend,
                    ymin < yend || yend == ymin,
                    bh == yend - ymin,
                    cur@.len() == (x - xmin) * bh,
                    forall|k: int| 0 <= k < cur@.len() ==> #[trigger] cur@[k] == [(xmin + k / bh) as u32, (ymin + k % bh) as u32],
                decreases xend - x,
            {
                let mut y: u32 = ymin as u32;
                while y < yend
                    invariant
                        xmin <= x < xend,
                        ymin <= y <= yend,
                        bh == yend - ymin,
                        cur@.len() == (x - xmin) * bh + (y - ymin),
                        forall|k: int| 0 <= k < cur@.len() ==> #[trigger] cur@[k] == [(xmin + k / bh) as u32, (ymin + k % bh) as u32],
                    decreases yend - y,
                {
                    proof {
                        let k = (x - xmin) * bh + (y - ymin);
                        vstd::arithmetic::div_mod::lemma_fundamental_div_mod_converse(k, bh, x - xmin, y - ymin);
                    }
                    cur.push([x, y]);
                    y = y + 1;
                }
                proof {
                    lemma_next_row(x - xmin, bh);
                }
                x = x + 1;
            }
            proof {
                assert(cur@ =~= pixel_block(width, height, chunk_size, i, j));
            }
            let ghost before = chunks@;
            chunks.push(cur);
            proof {
                assert forall|a: int, b: int|
                    (0 <= a < i && 0 <= b < ny) || (a == i && 0 <= b < j + 1) implies (#[trigger] chunks@[a * ny + b])@
                        == pixel_block(width, height, chunk_size, a, b) by {
                    if a == i && b == j {
                    } else {
                        if a < i {
                            assert((a + 1) * ny <= i * ny) by (nonlinear_arith)
                                requires
                                    a + 1 <= i,
                                    ny >= 0,
                            ;
                            lemma_next_row(a, ny);
                        }
                        assert(0 <= a * ny) by (nonlinear_arith)
                            requires
                                a >= 0,
                                ny >= 0,
                        ;
                        assert(chunks@[a * ny + b] == before[a * ny + b]);
                    }
                }
                lemma_next_row(j, cs);
                if ymin + cs < height {
                    assert(j + 1 < ny) by (nonlinear_arith)
                        requires
                            (j + 1) * cs < height,
                            ny == (height - 1) / cs + 1,
                            cs > 0,
                    ;
                } else {
                    assert(j + 1 == ny) by (nonlinear_arith)
                        requires
                            (j + 1) * cs >= height,
                            j * cs < height,
                            ny == (height - 1) / cs + 1,
                            cs > 0,
                            height > 0,
                    ;
                }
            }
            if chunk_size as u64 >= height as u64 - ymin {
                ymin = height as u64;
            } else {
                ymin = ymin + chunk_size as u64;
            }
            proof {
                j = j + 1;
            }
        }
        proof {
            lemma_next_row(i, ny);
            lemma_next_row(i, cs);
            if xmin + cs < width {
                assert(i + 1 < nx) by (nonlinear_arith)
                    requires
                        (i + 1) * cs < width,
                        nx == (width - 1) / cs + 1,
                        cs > 0,
                ;
            } else {
                assert(i + 1 == nx) by (nonlinear_arith)
                    requires
                        (i + 1) * cs >= width,
                        i * cs < width,
                        nx == (width - 1) / cs + 1,
                        cs > 0,
                        width > 0,
                ;
            }
        }
        if chunk_size as u64 >= width as u64 - xmin {
            xmin = width as u64;
        } else {
            xmin = xmin + chunk_size as u64;
        }
        proof {
            i = i + 1;
        }
    }
    chunks
}

/// Whether `p` lists each of `0..n` exactly once.
pub open spec fn is_permutation(p: Seq<int>, n: int) -> bool {
    &&& p.len() == n
    &&& forall|i: int| 0 <= i < n ==> 0 <= #[trigger] p[i] < n
    &&& forall|i: int, j: int| 0 <= i < j < n ==> #[trigger] p[i] != #[trigger] p[j]
}

/// `SliceRandom::shuffle` of rand with the thread's generator: the chunks in a random order.
/// Which order comes out is left to chance; the contract says only that the result is a
/// rearrangement of the chunks. The generator panics if the system cannot seed it.
#[verifier::external_body]
fn shuffle_chunks(chunks: &mut Vec<Vec<[u32; 2]>>)
    ensures
        exists|p: Seq<int>|
            #[trigger] is_permutation(p, old(chunks)@.len() as int) && final(chunks)@.len() == old(chunks)@.len()
                && forall|k: int| 0 <= k < old(chunks)@.len() ==> #[trigger] final(chunks)@[k] == old(chunks)@[p[k]],
{
    rand::seq::SliceRandom::shuffle(chunks.as_mut_slice(), &mut rand::thread_rng());
}

/// The chunks of [`get_all_pixel_positions`] in a random order, as a render hands them to its
/// threads: chunk `k` is the square that a permutation `p` puts there.
pub fn shuffled_pixel_positions(width: u32, height: u32, chunk_size: usize) -> (r: Vec<Vec<[u32; 2]>>)
    requires
        chunk_size > 0,
        block_ends_fit(width, chunk_size),
        block_ends_fit(height, chunk_size),
    ensures
        r@.len() == step_count(width as int, chunk_size as int) * step_count(height as int, chunk_size as int),
        exists|p: Seq<int>|
            #[trigger] is_permutation(p, r@.len() as int) && forall|k: int|
                0 <= k < r@.len() ==> (#[trigger] r@[k])@ == pixel_block(
                    width,
                    height,
                    chunk_size,
                    p[k] / step_count(height as int, chunk_size as int),
                    p[k] % step_count(height as int, chunk_size as int),
                ),
{
    let mut chunks = get_all_pixel_positions(width, height, chunk_size);
    let ghost all = chunks@;
    shuffle_chunks(&mut chunks);
    proof {
        let nx = step_count(width as int, chunk_size as int);
        let ny = step_count(height as int, chunk_size as int);
        let n = all.len() as int;
        let p = choose|p: Seq<int>|
            #[trigger] is_permutation(p, n) && chunks@.len() == n && forall|k: int|
                0 <= k < n ==> #[trigger] chunks@[k] == all[p[k]];
        assert forall|k: int| 0 <= k < chunks@.len() implies (#[trigger] chunks@[k])@ == pixel_block(
            width,
            height,
            chunk_size,
            p[k] / ny,
            p[k] % ny,
        ) by {
            let q = p[k];
            assert(0 <= q < nx * ny);
            assert(ny > 0) by (nonlinear_arith)
                requires
                    0 <= q < nx * ny,
                    nx >= 0,
                    ny >= 0,
            ;
            vstd::arithmetic::div_mod::lemma_fundamental_div_mod(q, ny);
            assert(0 <= q / ny < nx && 0 <= q % ny < ny) by (nonlinear_arith)
                requires
                    0 <= q < nx * ny,
                    ny > 0,
                    q == ny * (q / ny) + q % ny,
                    0 <= q % ny < ny,
            ;
            assert((q / ny) * ny + q % ny == q) by (nonlinear_arith)
                requires
                    q == ny * (q / ny) + q % ny,
            ;
            assert(chunks@[k] == all[q]);
        }
        assert(is_permutation(p, chunks@.len() as int));
    }
    chunks
}

/// Where the chunked render stands.
#[derive(Debug, Clone, Copy, PartialEq, Eq, Structural)]
pub enum WorkerState {
    Init,
    Started,
    Working { total: usize, completed: usize },
    Interrupted,
    Finished,
}

/// What a chunked render thread sends back.
#[derive(Debug)]
pub enum ChunkMessage {
    Init,
    Finished,
    /// A rendered chunk, the colours of its positions and the epoch of the render.
    Chunk(RChunk, Vec<RColor>, u32),
}

/// Whether `msg` brings a chunk of the render `epoch`.
pub open spec fn is_current(msg: ChunkMessage, epoch: u32) -> bool {
    msg matches ChunkMessage::Chunk(_, _, e) && e == epoch
}

/// The state after `msg` arrived.
pub open spec fn state_after(state: WorkerState, epoch: u32, msg: ChunkMessage) -> WorkerState {
    match msg {
        ChunkMessage::Init => WorkerState::Init,
        ChunkMessage::Finished => WorkerState::Finished,
        ChunkMessage::Chunk(_, _, e) => {
            if e == epoch {
                match state {
                    WorkerState::Working { total, completed } => WorkerState::Working {
                        total,
                        completed: (completed + 1) as usize,
                    },
                    _ => state,
                }
            } else {
                state
            }
        },
    }
}

/// The state after `msgs` arrived in order.
pub open spec fn state_after_all(state: WorkerState, epoch: u32, msgs: Seq<ChunkMessage>) -> WorkerState
    decreases msgs.len(),
{
    if msgs.len() == 0 {
        state
    } else {
        state_after(state_after_all(state, epoch, msgs.drop_last()), epoch, msgs.last())
    }
}

/// The screen after the chunks of the render `epoch` among `msgs` were painted in order.
pub open spec fn screen_after_all(s: Seq<u8>, epoch: u32, msgs: Seq<ChunkMessage>, width: int) -> Seq<u8>
    decreases msgs.len(),
{
    if msgs.len() == 0 {
        s
    } else {
        let before = screen_after_all(s, epoch, msgs.drop_last(), width);
        match msgs.last() {
            ChunkMessage::Chunk(_, colors, e) => if e == epoch {
                paint_colors(before, colors@, width)
            } else {
                before
            },
            _ => before,
        }
    }
}

/// The chunks of the render `epoch` among `msgs`, in order.
pub open spec fn chunks_of(epoch: u32, msgs: Seq<ChunkMessage>) -> Seq<RChunk>
    decreases msgs.len(),
{
    if msgs.len() == 0 {
        Seq::empty()
    } else {
        let before = chunks_of(epoch, msgs.drop_last());
        match msgs.last() {
            ChunkMessage::Chunk(chunk, _, e) => if e == epoch {
                before.push(chunk)
            } else {
                before
            },
            _ => before,
        }
    }
}

/// Every chunk of the render `epoch` among `msgs` paints inside a buffer of `len` bytes whose
/// rows are `width` pixels long.
pub open spec fn all_colors_fit(epoch: u32, msgs: Seq<ChunkMessage>, width: int, len: int) -> bool {
    forall|i: int|
        0 <= i < msgs.len() ==> match #[trigger] msgs[i] {
            ChunkMessage::Chunk(_, colors, e) => e == epoch ==> colors_fit(colors@, width, len),
            _ => true,
        }
}

/// How many chunks of the render `epoch` `msgs` holds.
pub open spec fn current_count(epoch: u32, msgs: Seq<ChunkMessage>) -> nat
    decreases msgs.len(),
{
    if msgs.len() == 0 {
        0
    } else {
        current_count(epoch, msgs.drop_last()) + if is_current(msgs.last(), epoch) {
            1nat
        } else {
            0nat
        }
    }
}

/// The buffer with every whole pixel cleared to transparent black.
pub open spec fn cleared(s: Seq<u8>) -> Seq<u8> {
    Seq::new(s.len(), |b: int| if b < s.len() / 4 * 4 { 0u8 } else { s[b] })
}

/// While a working state has room for every current chunk of `msgs`, it has room for the next
/// one after any prefix of them.
pub proof fn lemma_room_for_next(state: WorkerState, epoch: u32, msgs: Seq<ChunkMessage>, i: int)
    requires
        0 <= i < msgs.len(),
        state matches WorkerState::Working { completed, .. } ==> completed + current_count(epoch, msgs)
            <= usize::MAX,
    ensures
        is_current(msgs[i], epoch) ==> (state_after_all(state, epoch, msgs.take(i)) matches WorkerState::Working {
            completed,
            ..
        } ==> completed < usize::MAX),
{
    lemma_counts_bound(state, epoch, msgs.take(i));
    lemma_count_of_prefix(epoch, msgs, i + 1);
    assert(msgs.take(i + 1).drop_last() =~= msgs.take(i));
    assert(msgs.take(i + 1).last() == msgs[i]);
    if is_current(msgs[i], epoch) {
        if state_after_all(state, epoch, msgs.take(i)) is Working {
            lemma_working_came_from(state, epoch, msgs.take(i));
        }
    }
}

/// A state that is working after `msgs` counted at most the current chunks of `msgs` on top of
/// what it had, if it was working before; else it counted at most those chunks.
pub proof fn lemma_counts_bound(state: WorkerState, epoch: u32, msgs: Seq<ChunkMessage>)
    ensures
        state_after_all(state, epoch, msgs) matches WorkerState::Working { completed: c2, .. } ==> (
        state matches WorkerState::Working { completed: c1, .. } ==> c2 <= c1 + current_count(epoch, msgs)),
    decreases msgs.len(),
{
    if msgs.len() > 0 {
        lemma_counts_bound(state, epoch, msgs.drop_last());
    }
}

/// Messages never start a working state: one that is working afterwards was working before.
pub proof fn lemma_working_came_from(state: WorkerState, epoch: u32, msgs: Seq<ChunkMessage>)
    ensures
        state_after_all(state, epoch, msgs) is Working ==> state is Working,
    decreases msgs.len(),
{
    if msgs.len() > 0 {
        lemma_working_came_from(state, epoch, msgs.drop_last());
    }
}

/// A prefix of `msgs` holds no more current chunks than `msgs`.
pub proof fn lemma_count_of_prefix(epoch: u32, msgs: Seq<ChunkMessage>, i: int)
    requires
        0 <= i <= msgs.len(),
    ensures
        current_count(epoch, msgs.take(i)) <= current_count(epoch, msgs),
    decreases msgs.len() - i,
{
    if i < msgs.len() {
        lemma_count_of_prefix(epoch, msgs, i + 1);
        assert(msgs.take(i + 1).drop_last() =~= msgs.take(i));
    } else {
        assert(msgs.take(i) =~= msgs);
    }
}

/// What a render thread needs to start: the picture size, the epoch to tag results with, the
/// chunk side, the chunks of the previous render and how far they moved.
pub struct StartRequest {
    pub width: u32,
    pub height: u32,
    pub epoch: u32,
    pub chunk_size: usize,
    pub existing_chunks: Vec<RChunk>,
    pub existing_chunks_offset: [i32; 2],
}

/// The decisions of a chunked render worker.
#[derive(Debug)]
pub struct ChunkWorkerCore {
    width: u32,
    height: u32,
    chunk_size: usize,
    epoch: u32,
    state: WorkerState,
    chunks: Vec<RChunk>,
    should_clear_screen: bool,
}

impl ChunkWorkerCore {
    /// The picture's width.
    pub closed spec fn spec_width(&self) -> u32 {
        self.width
    }

    /// The picture's height.
    pub closed spec fn spec_height(&self) -> u32 {
        self.height
    }

    /// The side of the square chunks.
    pub closed spec fn spec_chunk_size(&self) -> usize {
        self.chunk_size
    }

    /// The epoch of the current render.
    pub closed spec fn spec_epoch(&self) -> u32 {
        self.epoch
    }

    /// The render state.
    pub closed spec fn spec_state(&self) -> WorkerState {
        self.state
    }

    /// The chunks drawn since the last reset.
    pub closed spec fn spec_chunks(&self) -> Seq<RChunk> {
        self.chunks@
    }

    /// Whether the screen is cleared before the next drawing.
    pub closed spec fn spec_should_clear(&self) -> bool {
        self.should_clear_screen
    }

    /// A worker for a `width` by `height` picture in chunks of side 32, not started; the screen
    /// is cleared before the first drawing.
    pub fn new(width: u32, height: u32) -> (r: Self)
        ensures
            r.spec_width() == width,
            r.spec_height() == height,
            r.spec_chunk_size() == 32,
            r.spec_epoch() == 0,
            r.spec_state() == WorkerState::Init,
            r.spec_chunks() == Seq::<RChunk>::empty(),
            r.spec_should_clear(),
    {
        ChunkWorkerCore {
            width,
            height,
            chunk_size: 32,
            epoch: 0,
            state: WorkerState::Init,
            chunks: Vec::new(),
            should_clear_screen: true,
        }
    }

    /// The picture's size.
    pub fn get_size(&self) -> (r: (u32, u32))
        ensures
            r == (self.spec_width(), self.spec_height()),
    {
        (self.width, self.height)
    }

    /// The render state.
    pub fn get_state(&self) -> (r: WorkerState)
        ensures
            r == self.spec_state(),
    {
        self.state
    }

    /// Forgets the chunks drawn so far and clears the screen before the next drawing.
    pub fn reset(&mut self)
        ensures
            final(self).spec_chunks() == Seq::<RChunk>::empty(),
            final(self).spec_should_clear(),
            final(self).spec_width() == old(self).spec_width(),
            final(self).spec_height() == old(self).spec_height(),
            final(self).spec_chunk_size() == old(self).spec_chunk_size(),
            final(self).spec_epoch() == old(self).spec_epoch(),
            final(self).spec_state() == old(self).spec_state(),
    {
        self.chunks = Vec::new();
        self.should_clear_screen = true;
    }

    /// Starts a render, at the new size if one is given: hands the chunks drawn so far to the
    /// render, with how far a resize moved them (half the growth of each side, rounded toward
    /// zero), and counts the render as started.
    pub fn start_worker(&mut self, new_size: Option<(u32, u32)>) -> (r: StartRequest)
        requires
            new_size matches Some(size) ==> {
                &&& i32::MIN <= size.0 as i32 - old(self).spec_width() as i32 <= i32::MAX
                &&& i32::MIN <= size.1 as i32 - old(self).spec_height() as i32 <= i32::MAX
            },
        ensures
            final(self).spec_width() == (match new_size {
                Some(size) => size.0,
                None => old(self).spec_width(),
            }),
            final(self).spec_height() == (match new_size {
                Some(size) => size.1,
                None => old(self).spec_height(),
            }),
            r.existing_chunks_offset@ == (match new_size {
                Some(size) => seq![
                    half_trunc((size.0 as i32 - old(self).spec_width() as i32) as i32) as i32,
                    half_trunc((size.1 as i32 - old(self).spec_height() as i32) as i32) as i32,
                ],
                None => seq![0i32, 0i32],
            }),
            r.width == final(self).spec_width(),
            r.height == final(self).spec_height(),
            r.epoch == old(self).spec_epoch(),
            r.chunk_size == old(self).spec_chunk_size(),
            r.existing_chunks@ == old(self).spec_chunks(),
            final(self).spec_chunks() == Seq::<RChunk>::empty(),
            final(self).spec_state() == WorkerState::Started,
            final(self).spec_epoch() == old(self).spec_epoch(),
            final(self).spec_chunk_size() == old(self).spec_chunk_size(),
            final(self).spec_should_clear() == old(self).spec_should_clear(),
    {
        let offset: [i32; 2] = match new_size {
            Some((width, height)) => {
                let dx = div2(width as i32 - self.width as i32);
                let dy = div2(height as i32 - self.height as i32);
                self.width = width;
                self.height = height;
                [dx, dy]
            },
            None => [0, 0],
        };
        proof {
            assert(offset@ =~= (match new_size {
                Some(size) => seq![
                    half_trunc((size.0 as i32 - old(self).spec_width() as i32) as i32) as i32,
                    half_trunc((size.1 as i32 - old(self).spec_height() as i32) as i32) as i32,
                ],
                None => seq![0i32, 0i32],
            }));
        }
        let mut existing: Vec<RChunk> = Vec::new();
        std::mem::swap(&mut existing, &mut self.chunks);
        self.state = WorkerState::Started;
        StartRequest {
            width: self.width,
            height: self.height,
            epoch: self.epoch,
            chunk_size: self.chunk_size,
            existing_chunks: existing,
            existing_chunks_offset: offset,
        }
    }

    /// Takes in the messages of the render threads, in order, after clearing the screen if a
    /// reset asked for it: the chunks of the current render are painted onto the screen, whose
    /// rows are `width` pixels long, kept and counted; the picture's size becomes
    /// `(width, height)`.
    pub fn draw_new_chunks(&mut self, width: u32, height: u32, screen: &mut [u8], messages: Vec<ChunkMessage>)
        requires
            all_colors_fit(old(self).spec_epoch(), messages@, width as int, old(screen)@.len() as int),
            old(self).spec_state() matches WorkerState::Working { completed, .. } ==> completed
                + current_count(old(self).spec_epoch(), messages@) <= usize::MAX,
        ensures
            final(self).spec_width() == width,
            final(self).spec_height() == height,
            !final(self).spec_should_clear(),
            final(self).spec_epoch() == old(self).spec_epoch(),
            final(self).spec_chunk_size() == old(self).spec_chunk_size(),
            final(self).spec_state() == state_after_all(old(self).spec_state(), old(self).spec_epoch(), messages@),
            final(self).spec_chunks() == old(self).spec_chunks() + chunks_of(old(self).spec_epoch(), messages@),
            final(screen)@ == screen_after_all(
                if old(self).spec_should_clear() {
                    cleared(old(screen)@)
                } else {
                    old(screen)@
                },
                old(self).spec_epoch(),
                messages@,
                width as int,
            ),
    {
        let ghost s0 = screen@;
        if self.should_clear_screen {
            let len = screen.len();
            let n = len / 4;
            proof {
                vstd::arithmetic::div_mod::lemma_fundamental_div_mod(len as int, 4);
            }
            let mut k: usize = 0;
            while k < n
                invariant
                    len == s0.len(),
                    screen@.len() == len,
                    n == len / 4,
                    n * 4 <= len,
                    k <= n,
                    forall|b: int| 0 <= b < k * 4 ==> #[trigger] screen@[b] == 0u8,
                    forall|b: int| k * 4 <= b < len ==> #[trigger] screen@[b] == s0[b],
                decreases n - k,
            {
                let start = k * 4;
                screen[start] = 0;
                screen[start + 1] = 0;
                screen[start + 2] = 0;
                screen[start + 3] = 0;
                k = k + 1;
            }
            proof {
                assert(screen@ =~= cleared(s0));
            }
            self.should_clear_screen = false;
        }
        let ghost s1 = screen@;
        self.width = width;
        self.height = height;
        let mut messages = messages;
        let ghost msgs = messages@;
        let ghost chunks0 = self.chunks@;
        let epoch = self.epoch;
        let n = messages.len();
        let mut i: usize = 0;
        while i < n
            invariant
                n == msgs.len(),
                messages@.len() == n,
                forall|j: int| i <= j < n ==> #[trigger] messages@[j] == msgs[j],
                i <= n,
                epoch == self.epoch,
                epoch == old(self).spec_epoch(),
                self.width == width,
                self.height == height,
                !self.should_clear_screen,
                self.chunk_size == old(self).spec_chunk_size(),
                s1.len() == s0.len(),
                screen@.len() == s0.len(),
                all_colors_fit(epoch, msgs, width as int, s0.len() as int),
                old(self).spec_state() matches WorkerState::Working { completed, .. } ==> completed
                    + current_count(epoch, msgs) <= usize::MAX,
                self.state == state_after_all(old(self).spec_state(), epoch, msgs.take(i as int)),
                self.chunks@ == chunks0 + chunks_of(epoch, msgs.take(i as int)),
                chunks0 == old(self).spec_chunks(),
                screen@ == screen_after_all(s1, epoch, msgs.take(i as int), width as int),
                s1 == (if old(self).spec_should_clear() {
                    cleared(s0)
                } else {
                    s0
                }),
            decreases n - i,
        {
            let mut msg = ChunkMessage::Init;
            std::mem::swap(&mut messages[i], &mut msg);
            proof {
                assert(msgs.take(i + 1).drop_last() =~= msgs.take(i as int));
                assert(msgs.take(i + 1).last() == msgs[i as int]);
                lemma_room_for_next(old(self).spec_state(), epoch, msgs, i as int);
            }
            match msg {
                ChunkMessage::Init => {
                    self.state = WorkerState::Init;
                },
                ChunkMessage::Finished => {
                    self.state = WorkerState::Finished;
                },
                ChunkMessage::Chunk(rchunk, rcolors, e) => {
                    if e == self.epoch {
                        draw_chunk_colors(rcolors, width, screen);
                        self.chunks.push(rchunk);
                        match self.state {
                            WorkerState::Working { total, completed } => {
                                self.state = WorkerState::Working { total, completed: completed + 1 };
                            },
                            _ => {},
                        }
                    }
                },
            }
            proof {
                assert(self.chunks@ =~= chunks0 + chunks_of(epoch, msgs.take(i + 1)));
            }
            i = i + 1;
        }
        proof {
            assert(msgs.take(n as int) =~= msgs);
        }
    }
}

/// Whether `p` is one of the positions of `chunks`.
pub open spec fn in_chunks(chunks: Seq<RChunk>, p: [u32; 2]) -> bool {
    exists|c: int, k: int|
        0 <= c < chunks.len() && 0 <= k < chunks[c].entries().len() && #[trigger] chunks[c].entries()[k].0
            == p
}

/// Whether position `a` comes before position `b`, columns first.
pub open spec fn column_major_before(a: [u32; 2], b: [u32; 2]) -> bool {
    a[0] < b[0] || (a[0] == b[0] && a[1] < b[1])
}

/// Element `a` of chunk `i` comes before element `b` of chunk `j` when the chunks are read in
/// order.
pub open spec fn listed_before(i: int, a: int, j: int, b: int) -> bool {
    i < j || (i == j && a < b)
}

/// Chunk `i` of `chunk_size` elements, read one after the other, places element `a` at
/// `i * chunk_size + a`; positions in different chunks or at different places differ.
proof fn lemma_chunked_index(i: int, a: int, j: int, b: int, cs: int)
    requires
        cs > 0,
        0 <= a < cs,
        0 <= b < cs,
        0 <= i,
        0 <= j,
        listed_before(i, a, j, b),
    ensures
        i * cs + a < j * cs + b,
{
    if i < j {
        assert(i * cs + a < j * cs + b) by (nonlinear_arith)
            requires
                i < j,
                0 <= a < cs,
                0 <= b,
        ;
    }
}

/// The positions of a `width` by `height` picture that no chunk of `existing_chunks` holds,
/// columns first, cut into lists of `chunk_size`; only the last list may be shorter. The
/// positions still to render are kept in a table with one flag per position, walked in that
/// order, which gives the sorted set of them directly.
pub fn _get_incomplete_pixel_positions(width: u32, height: u32, chunk_size: usize, existing_chunks: &[RChunk]) -> (r: Vec<Vec<[u32; 2]>>)
    requires
        chunk_size > 0,
        width * height <= usize::MAX,
        forall|c: int| 0 <= c < existing_chunks@.len() ==> (#[trigger] existing_chunks@[c]).wf(),
    ensures
        forall|i: int| 0 <= i < r@.len() ==> 0 < (#[trigger] r@[i])@.len() <= chunk_size,
        forall|i: int| 0 <= i < r@.len() - 1 ==> (#[trigger] r@[i])@.len() == chunk_size,
        forall|i: int, a: int|
            0 <= i < r@.len() && 0 <= a < r@[i]@.len() ==> {
                let p = #[trigger] r@[i]@[a];
                &&& p[0] < width
                &&& p[1] < height
                &&& !in_chunks(existing_chunks@, p)
            },
        forall|x: u32, y: u32|
            x < width && y < height && !in_chunks(existing_chunks@, [x, y]) ==> exists|i: int, a: int|
                0 <= i < r@.len() && 0 <= a < r@[i]@.len() && #[trigger] r@[i]@[a] == [x, y],
        forall|i: int, a: int, j: int, b: int|
            0 <= i < r@.len() && 0 <= a < r@[i]@.len() && 0 <= j < r@.len() && 0 <= b < r@[j]@.len()
                && listed_before(i, a, j, b) ==> column_major_before(#[trigger] r@[i]@[a], #[trigger] r@[j]@[b]),
{
    let ghost chunks = existing_chunks@;
    let ghost w = width as int;
    let ghost h = height as int;
    let total: usize = (width as u64 * height as u64) as usize;
    let mut done: Vec<bool> = Vec::new();
    let mut k: usize = 0;
    while k < total
        invariant
            k <= total,
            total == w * h,
            w == width,
            h == height,
            done@.len() == k,
            forall|i: int| 0 <= i < k ==> !(#[trigger] done@[i]),
        decreases total - k,
    {
        done.push(false);
        k = k + 1;
    }
    let hh = height as usize;
    proof {
        assert forall|x: int, y: int| 0 <= x < w && 0 <= y < h implies !(#[trigger] done@[x * h + y]) by {
            crate::index_math::lemma_row_major_bounds(y, x, h, w);
            assert(x * h == h * x) by (nonlinear_arith);
            assert(w * h == h * w) by (nonlinear_arith);
        }
    }
    let nc = existing_chunks.len();
    let mut c: usize = 0;
    while c < nc
        invariant
            nc == chunks.len(),
            chunks == existing_chunks@,
            c <= nc,
            total == w * h,
            w == width,
            h == height,
            hh == h,
            done@.len() == total,
            forall|cc: int| 0 <= cc < chunks.len() ==> (#[trigger] chunks[cc]).wf(),
            forall|x: int, y: int|
                0 <= x < w && 0 <= y < h ==> (#[trigger] done@[x * h + y] <==> exists|c2: int, k2: int|
                    0 <= c2 < c && 0 <= k2 < chunks[c2].entries().len() && #[trigger] chunks[c2].entries()[k2].0
                        == [x as u32, y as u32]),
        decreases nc - c,
    {
        let chunk = &existing_chunks[c];
        let m = chunk.len();
        let mut kk: usize = 0;
        while kk < m
            invariant
                nc == chunks.len(),
                chunks == existing_chunks@,
                c < nc,
                *chunk == chunks[c as int],
                m == chunk.entries().len(),
                kk <= m,
                total == w * h,
                w == width,
                h == height,
            w == width,
            h == height,
                hh == h,
                done@.len() == total,
                forall|x: int, y: int|
                    0 <= x < w && 0 <= y < h ==> (#[trigger] done@[x * h + y] <==> exists|c2: int, k2: int|
                        ((0 <= c2 < c && 0 <= k2 < chunks[c2].entries().len()) || (c2 == c && 0 <= k2 < kk))
                            && #[trigger] chunks[c2].entries()[k2].0 == [x as u32, y as u32]),
            decreases m - kk,
        {
            let pos = chunk.pos_at(kk);
            if pos[0] < width && pos[1] < height {
                proof {
                    crate::index_math::lemma_row_major_bounds(pos[1] as int, pos[0] as int, h, w);
                    assert(pos[0] * h + pos[1] == pos[0] as int * h + pos[1] as int);
                }
                let idx = pos[0] as usize * hh + pos[1] as usize;
                let ghost before = done@;
                done.set(idx, true);
                proof {
                    assert forall|x: int, y: int| 0 <= x < w && 0 <= y < h implies (#[trigger] done@[x * h + y] <==> exists|c2: int, k2: int|
                        ((0 <= c2 < c && 0 <= k2 < chunks[c2].entries().len()) || (c2 == c && 0 <= k2 < kk + 1))
                            && #[trigger] chunks[c2].entries()[k2].0 == [x as u32, y as u32]) by {
                        crate::index_math::lemma_row_major_bounds(y, x, h, w);
                        if x * h + y == idx {
                            crate::index_math::lemma_row_major_injective(y, x, pos[1] as int, pos[0] as int, h);
                            assert(chunks[c as int].entries()[kk as int].0 == [x as u32, y as u32]);
                        } else {
                            assert(done@[x * h + y] == before[x * h + y]);
                            if exists|c2: int, k2: int|
                                ((0 <= c2 < c && 0 <= k2 < chunks[c2].entries().len()) || (c2 == c && 0 <= k2 < kk + 1))
                                    && #[trigger] chunks[c2].entries()[k2].0 == [x as u32, y as u32] {
                                let (c2, k2) = choose|c2: int, k2: int|
                                    ((0 <= c2 < c && 0 <= k2 < chunks[c2].entries().len()) || (c2 == c && 0 <= k2 < kk + 1))
                                        && #[trigger] chunks[c2].entries()[k2].0 == [x as u32, y as u32];
                                if c2 == c && k2 == kk {
                                    assert(pos == [x as u32, y as u32]);
                                    assert(pos[0] == x && pos[1] == y);
                                }
                            }
                        }
                    }
                }
            } else {
                proof {
                    assert forall|x: int, y: int| 0 <= x < w && 0 <= y < h implies (#[trigger] done@[x * h + y] <==> exists|c2: int, k2: int|
                        ((0 <= c2 < c && 0 <= k2 < chunks[c2].entries().len()) || (c2 == c && 0 <= k2 < kk + 1))
                            && #[trigger] chunks[c2].entries()[k2].0 == [x as u32, y as u32]) by {
                        if exists|c2: int, k2: int|
                            ((0 <= c2 < c && 0 <= k2 < chunks[c2].entries().len()) || (c2 == c && 0 <= k2 < kk + 1))
                                && #[trigger] chunks[c2].entries()[k2].0 == [x as u32, y as u32] {
                            let (c2, k2) = choose|c2: int, k2: int|
                                ((0 <= c2 < c && 0 <= k2 < chunks[c2].entries().len()) || (c2 == c && 0 <= k2 < kk + 1))
                                    && #[trigger] chunks[c2].entries()[k2].0 == [x as u32, y as u32];
                            if c2 == c && k2 == kk {
                                assert(pos == [x as u32, y as u32]);
                                assert(pos[0] == x && pos[1] == y);
                            }
                        }
                    }
                }
            }
            kk = kk + 1;
        }
        c = c + 1;
    }
    proof {
        assert forall|x: int, y: int| 0 <= x < w && 0 <= y < h implies (#[trigger] done@[x * h + y]
            <==> in_chunks(chunks, [x as u32, y as u32])) by {
            if in_chunks(chunks, [x as u32, y as u32]) {
                let (c2, k2) = choose|c2: int, k2: int|
                    0 <= c2 < chunks.len() && 0 <= k2 < chunks[c2].entries().len() && #[trigger] chunks[c2].entries()[k2].0
                        == [x as u32, y as u32];
                assert(chunks[c2].entries()[k2].0 == [x as u32, y as u32]);
            }
        }
    }
    let mut out: Vec<Vec<[u32; 2]>> = Vec::new();
    let mut cur: Vec<[u32; 2]> = Vec::new();
    let ghost mut flat: Seq<[u32; 2]> = Seq::empty();
    let ghost cs = chunk_size as int;
    proof {
        assert(0 * cs == 0) by (nonlinear_arith);
    }
    let mut x: u32 = 0;
    while x < width
        invariant
            cs == chunk_size,
            cs > 0,
            total == w * h,
            w == width,
            h == height,
            hh == h,
            done@.len() == total,
            chunks == existing_chunks@,
            x <= width,
            forall|px: int, py: int| 0 <= px < w && 0 <= py < h ==> (#[trigger] done@[px * h + py]
                <==> in_chunks(chunks, [px as u32, py as u32])),
            flat.len() == out@.len() * cs + cur@.len(),
            cur@.len() < cs,
            forall|i: int| 0 <= i < out@.len() ==> (#[trigger] out@[i])@.len() == cs,
            forall|i: int, a: int| 0 <= i < out@.len() && 0 <= a < cs ==> #[trigger] out@[i]@[a] == flat[i * cs + a],
            forall|a: int| 0 <= a < cur@.len() ==> #[trigger] cur@[a] == flat[out@.len() * cs + a],
            forall|j: int| 0 <= j < flat.len() ==> {
                let p = #[trigger] flat[j];
                &&& p[0] < x
                &&& p[1] < height
                &&& !in_chunks(chunks, p)
            },
            forall|px: u32, py: u32| px < x && py < height && !in_chunks(chunks, [px, py]) ==> exists|j: int|
                0 <= j < flat.len() && #[trigger] flat[j] == [px, py],
            forall|j1: int, j2: int| 0 <= j1 < j2 < flat.len() ==> column_major_before(#[trigger] flat[j1], #[trigger] flat[j2]),
        decreases width - x,
    {
        let mut y: u32 = 0;
        while y < height
            invariant
                cs == chunk_size,
                cs > 0,
                total == w * h,
                w == width,
                h == height,
            w == width,
            h == height,
                hh == h,
                done@.len() == total,
                chunks == existing_chunks@,
                x < width,
                y <= height,
                forall|px: int, py: int| 0 <= px < w && 0 <= py < h ==> (#[trigger] done@[px * h + py]
                    <==> in_chunks(chunks, [px as u32, py as u32])),
                flat.len() == out@.len() * cs + cur@.len(),
                cur@.len() < cs,
                forall|i: int| 0 <= i < out@.len() ==> (#[trigger] out@[i])@.len() == cs,
                forall|i: int, a: int| 0 <= i < out@.len() && 0 <= a < cs ==> #[trigger] out@[i]@[a] == flat[i * cs + a],
                forall|a: int| 0 <= a < cur@.len() ==> #[trigger] cur@[a] == flat[out@.len() * cs + a],
                forall|j: int| 0 <= j < flat.len() ==> {
                    let p = #[trigger] flat[j];
                    &&& (p[0] < x || (p[0] == x && p[1] < y))
                    &&& p[1] < height
                    &&& !in_chunks(chunks, p)
                },
                forall|px: u32, py: u32| (px < x || (px == x && py < y)) && py < height && !in_chunks(chunks, [px, py])
                    ==> exists|j: int| 0 <= j < flat.len() && #[trigger] flat[j] == [px, py],
                forall|j1: int, j2: int| 0 <= j1 < j2 < flat.len() ==> column_major_before(#[trigger] flat[j1], #[trigger] flat[j2]),
            decreases height - y,
        {
            proof {
                crate::index_math::lemma_row_major_bounds(y as int, x as int, h, w);
            }
            let idx = x as usize * hh + y as usize;
            if !done[idx] {
                let ghost old_flat = flat;
                let ghost old_out = out@;
                let ghost old_cur = cur@;
                cur.push([x, y]);
                proof {
                    flat = flat.push([x, y]);
                    assert(!in_chunks(chunks, [x, y]));
                    assert forall|px: u32, py: u32| (px < x || (px == x && py < y + 1)) && py < height && !in_chunks(chunks, [px, py])
                        implies exists|j: int| 0 <= j < flat.len() && #[trigger] flat[j] == [px, py] by {
                        if px == x && py == y {
                            assert(flat[old_flat.len() as int] == [px, py]);
                        } else {
                            let j = choose|j: int| 0 <= j < old_flat.len() && #[trigger] old_flat[j] == [px, py];
                            assert(flat[j] == [px, py]);
                        }
                    }
                    assert forall|a: int| 0 <= a < cur@.len() implies #[trigger] cur@[a] == flat[out@.len() * cs + a] by {
                        if a < old_cur.len() {
                            assert(cur@[a] == old_cur[a]);
                        }
                    }
                    assert forall|i: int, a: int| 0 <= i < out@.len() && 0 <= a < cs implies #[trigger] out@[i]@[a] == flat[i * cs + a] by {
                        lemma_chunked_index(i, a, out@.len() as int, 0, cs);
                        assert(flat[i * cs + a] == old_flat[i * cs + a]);
                    }
                }
                if cur.len() == chunk_size {
                    let mut full: Vec<[u32; 2]> = Vec::new();
                    std::mem::swap(&mut full, &mut cur);
                    let ghost out_before = out@;
                    out.push(full);
                    proof {
                        crate::index_math::lemma_next_row(out_before.len() as int, cs);
                        assert forall|i: int, a: int| 0 <= i < out@.len() && 0 <= a < cs implies #[trigger] out@[i]@[a] == flat[i * cs + a] by {
                            if i < out_before.len() {
                                assert(out@[i] == out_before[i]);
                            }
                        }
                    }
                }
            }
            y = y + 1;
        }
        x = x + 1;
    }
    let ghost n0 = out@.len() as int;
    let ghost cur0 = cur@;
    if cur.len() > 0 {
        let ghost out_before = out@;
        out.push(cur);
        proof {
            assert forall|i: int, a: int| 0 <= i < out@.len() && 0 <= a < out@[i]@.len() implies #[trigger] out@[i]@[a] == flat[i * cs + a] by {
                if i < out_before.len() {
                    assert(out@[i] == out_before[i]);
                }
            }
        }
    }
    proof {
        assert forall|i: int, a: int| 0 <= i < out@.len() && 0 <= a < out@[i]@.len() implies 0 <= i * cs + a < flat.len() && #[trigger] out@[i]@[a] == flat[i * cs + a] by {
            if i < n0 {
                lemma_chunked_index(i, a, n0, 0, cs);
            } else {
                assert(out@[i]@ == cur0);
            }
            assert(0 <= i * cs) by (nonlinear_arith)
                requires
                    0 <= i,
                    0 < cs,
            ;
        }
        assert forall|i: int, a: int, j: int, b: int|
            0 <= i < out@.len() && 0 <= a < out@[i]@.len() && 0 <= j < out@.len() && 0 <= b < out@[j]@.len()
                && listed_before(i, a, j, b) implies column_major_before(#[trigger] out@[i]@[a], #[trigger] out@[j]@[b]) by {
            assert(out@[i]@[a] == flat[i * cs + a]);
            assert(out@[j]@[b] == flat[j * cs + b]);
            if i < n0 {
                assert(out@[i]@.len() == cs);
            } else {
                assert(out@[i]@ == cur0);
            }
            if j < n0 {
                assert(out@[j]@.len() == cs);
            } else {
                assert(out@[j]@ == cur0);
            }
            lemma_chunked_index(i, a, j, b, cs);
        }
        assert forall|x: u32, y: u32| x < width && y < height && !in_chunks(existing_chunks@, [x, y]) implies exists|i: int, a: int|
            0 <= i < out@.len() && 0 <= a < out@[i]@.len() && #[trigger] out@[i]@[a] == [x, y] by {
            let j = choose|j: int| 0 <= j < flat.len() && #[trigger] flat[j] == [x, y];
            let i = j / cs;
            let a = j % cs;
            vstd::arithmetic::div_mod::lemma_fundamental_div_mod(j, cs);
            assert(j == i * cs + a) by (nonlinear_arith)
                requires
                    j == cs * (j / cs) + j % cs,
                    i == j / cs,
                    a == j % cs,
            ;
            if i < n0 {
                assert(out@[i]@[a] == flat[i * cs + a]);
            } else if i == n0 {
                assert(out@[i]@ == cur0);
                assert(out@[i]@[a] == flat[i * cs + a]);
            } else {
                assert(i * cs >= (n0 + 1) * cs) by (nonlinear_arith)
                    requires
                        i >= n0 + 1,
                        cs > 0,
                ;
                crate::index_math::lemma_next_row(n0, cs);
            }
        }
    }
    out
}

/// Whether block `(i, j)` of the picture holds position `(x, y)`.
pub open spec fn block_holds(width: u32, height: u32, chunk_size: usize, i: int, j: int, x: u32, y: u32) -> bool {
    pixel_block(width, height, chunk_size, i, j).contains([x, y])
}

/// A position lies in a block exactly when it is inside the block's bounds.
pub proof fn lemma_block_contains(xmin: int, ymin: int, xend: int, yend: int, x: int, y: int)
    requires
        0 <= xmin <= xend <= u32::MAX,
        0 <= ymin <= yend <= u32::MAX,
        0 <= x <= u32::MAX,
        0 <= y <= u32::MAX,
    ensures
        block(xmin, ymin, xend, yend).contains([x as u32, y as u32]) <==> (xmin <= x < xend && ymin <= y < yend),
{
    let b = block(xmin, ymin, xend, yend);
    let bh = yend - ymin;
    if xmin <= x < xend && ymin <= y < yend {
        let k = (x - xmin) * bh + (y - ymin);
        vstd::arithmetic::div_mod::lemma_fundamental_div_mod_converse(k, bh, x - xmin, y - ymin);
        assert(0 <= k < (xend - xmin) * bh) by (nonlinear_arith)
            requires
                k == (x - xmin) * bh + (y - ymin),
                0 <= x - xmin < xend - xmin,
                0 <= y - ymin < bh,
        ;
        assert(b[k] == [x as u32, y as u32]);
    }
    if b.contains([x as u32, y as u32]) {
        let k = choose|k: int| 0 <= k < b.len() && b[k] == [x as u32, y as u32];
        assert(bh > 0) by (nonlinear_arith)
            requires
                0 <= k < (xend - xmin) * bh,
                xend - xmin >= 0,
        ;
        vstd::arithmetic::div_mod::lemma_fundamental_div_mod(k, bh);
        let q = k / bh;
        let r = k % bh;
        assert(0 <= q < xend - xmin) by (nonlinear_arith)
            requires
                0 <= k < (xend - xmin) * bh,
                k == bh * q + r,
                0 <= r < bh,
        ;
        assert(b[k][0] == (xmin + q) as u32 && b[k][1] == (ymin + r) as u32);
    }
}

/// The blocks of [`get_all_pixel_positions`] cover the picture exactly once: each position lies
/// in the block of its coordinates divided by `chunk_size`, and in no other.
pub proof fn lemma_blocks_partition(width: u32, height: u32, chunk_size: usize, x: u32, y: u32)
    requires
        0 < chunk_size <= u32::MAX,
        x < width,
        y < height,
        block_ends_fit(width, chunk_size),
        block_ends_fit(height, chunk_size),
    ensures
        0 <= (x as int) / (chunk_size as int) < step_count(width as int, chunk_size as int),
        0 <= (y as int) / (chunk_size as int) < step_count(height as int, chunk_size as int),
        pixel_block(width, height, chunk_size, (x as int) / (chunk_size as int), (y as int) / (chunk_size as int)).contains([x, y]),
        forall|i: int, j: int|
            0 <= i < step_count(width as int, chunk_size as int) && 0 <= j < step_count(height as int, chunk_size as int)
                && #[trigger] block_holds(width, height, chunk_size, i, j, x, y) ==> i == (x as int) / (chunk_size as int)
                && j == (y as int) / (chunk_size as int),
{
    let cs = chunk_size as int;
    assert(chunk_size as u32 == cs);
    lemma_cell_of(width as int, cs, x as int);
    lemma_cell_of(height as int, cs, y as int);
    let i0 = (x as int) / cs;
    let j0 = (y as int) / cs;
    assert(step_start(i0, cs) < width);
    assert(step_start(j0, cs) < height);
    lemma_block_of(width, height, chunk_size, i0, j0, x, y);
    assert forall|i: int, j: int|
        0 <= i < step_count(width as int, cs) && 0 <= j < step_count(height as int, cs)
            && #[trigger] block_holds(width, height, chunk_size, i, j, x, y) implies i == i0 && j == j0 by {
        lemma_step_in_range(width as int, cs, i);
        lemma_step_in_range(height as int, cs, j);
        lemma_block_of(width, height, chunk_size, i, j, x, y);
        vstd::arithmetic::div_mod::lemma_fundamental_div_mod_converse(x as int, cs, i, x - i * cs);
        vstd::arithmetic::div_mod::lemma_fundamental_div_mod_converse(y as int, cs, j, y - j * cs);
    }
}

/// The `i`-th step of a range below `len` starts below `len`.
proof fn lemma_step_in_range(len: int, cs: int, i: int)
    requires
        cs > 0,
        0 <= i < step_count(len, cs),
    ensures
        0 <= step_start(i, cs) < len,
{
    assert(0 <= i * cs < len) by (nonlinear_arith)
        requires
            cs > 0,
            0 <= i,
            i < (len - 1) / cs + 1,
            len > 0,
    ;
}

/// Position `v` below `len` falls in step `v / cs`, which is one of the steps.
proof fn lemma_cell_of(len: int, cs: int, v: int)
    requires
        cs > 0,
        0 <= v < len,
    ensures
        0 <= v / cs < step_count(len, cs),
        step_start(v / cs, cs) <= v < step_start(v / cs, cs) + cs,
{
    vstd::arithmetic::div_mod::lemma_fundamental_div_mod(v, cs);
    assert(0 <= v / cs <= (len - 1) / cs) by (nonlinear_arith)
        requires
            cs > 0,
            0 <= v <= len - 1,
    ;
    assert(step_start(v / cs, cs) == cs * (v / cs)) by (nonlinear_arith);
}

/// Position `(x, y)` lies in block `(i, j)` exactly when it is inside that block's bounds.
proof fn lemma_block_of(width: u32, height: u32, chunk_size: usize, i: int, j: int, x: u32, y: u32)
    requires
        0 < chunk_size <= u32::MAX,
        0 <= i,
        0 <= j,
        step_start(i, chunk_size as int) < width,
        step_start(j, chunk_size as int) < height,
        block_ends_fit(width, chunk_size),
        block_ends_fit(height, chunk_size),
    ensures
        pixel_block(width, height, chunk_size, i, j).contains([x, y]) <==> (step_start(i, chunk_size as int)
            <= x < step_start(i, chunk_size as int) + chunk_size && x < width && step_start(j, chunk_size as int) <= y
            < step_start(j, chunk_size as int) + chunk_size && y < height),
{
    let cs = chunk_size as int;
    assert(chunk_size as u32 == cs);
    let xmin = step_start(i, cs);
    let ymin = step_start(j, cs);
    assert(xmin + cs <= u32::MAX);
    assert(ymin + cs <= u32::MAX);
    assert(0 <= xmin) by (nonlinear_arith)
        requires
            xmin == i * cs,
            i >= 0,
            cs > 0,
    ;
    assert(0 <= ymin) by (nonlinear_arith)
        requires
            ymin == j * cs,
            j >= 0,
            cs > 0,
    ;
    let xend = if width < xmin + cs { width as int } else { xmin + cs };
    let yend = if height < ymin + cs { height as int } else { ymin + cs };
    lemma_block_contains(xmin, ymin, xend, yend, x as int, y as int);
}

} // verus!
