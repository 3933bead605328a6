//! The decisions of the render worker: which positions to render, which results to keep, and
//! what the picture does on resizing, panning and zooming. The worker's threads, channels and
//! plugins stand outside; they hand their messages in and take the work to start out.
use vstd::prelude::*;

use crate::cell_grid::{zoomed, CellGridBuffer, CellState, CellView};
use crate::screen::byte_at;
use crate::interface::{RCell, RColor};

verus! {

/// Where the worker is in rendering the picture.
#[derive(Debug, Clone, Copy, PartialEq, Eq, Structural)]
pub enum WorkerState {
    Init,
    Working { total: usize, completed: usize },
    Interrupted,
    Finished,
    FinishedRendered,
    /// The worker is stopped until the pending input has been handled.
    InputDebounce,
}

/// What a render thread sends back.
#[derive(Debug)]
pub enum WorkerMessage {
    Init,
    Finished,
    /// One rendered position, its colour and the epoch of the render it belongs to.
    Chunk(RCell, RColor, u32),
}

/// The state a worker moves to on receiving `msg` while its render epoch is `epoch`.
pub open spec fn state_after_message(state: WorkerState, epoch: u32, msg: WorkerMessage) -> WorkerState {
    match msg {
        WorkerMessage::Finished => WorkerState::Finished,
        WorkerMessage::Chunk(_, _, e) => {
            if e == epoch {
                match state {
                    WorkerState::Working { total, completed } => WorkerState::Working {
                        total,
                        completed: (completed + 1) as usize,
                    },
                    _ => state,
                }
            } else {
                state
            }
        },
        WorkerMessage::Init => state,
    }
}

/// Whether `msg` brings a rendered position of the render `epoch`.
pub open spec fn is_current_chunk(msg: WorkerMessage, epoch: u32) -> bool {
    msg matches WorkerMessage::Chunk(_, _, e) && e == epoch
}

/// The cell at `(x, y)` after the worker took in `msg`: the rendered cell where the message
/// brings one for that position in the current epoch, else `old`.
pub open spec fn cell_after_message(old: CellView, epoch: u32, msg: WorkerMessage, x: int, y: int) -> CellView {
    match msg {
        WorkerMessage::Chunk(rcell, rcolor, e) => {
            if e == epoch && rcell.pos[0] == x && rcell.pos[1] == y {
                CellView { state: CellState::FreshRgb, data: Some(rcell.data@), rgb: rcolor.rgb@ }
            } else {
                old
            }
        },
        _ => old,
    }
}

/// The state after taking in `msgs` in order.
pub open spec fn state_after_messages(state: WorkerState, epoch: u32, msgs: Seq<WorkerMessage>) -> WorkerState
    decreases msgs.len(),
{
    if msgs.len() == 0 {
        state
    } else {
        state_after_message(state_after_messages(state, epoch, msgs.drop_last()), epoch, msgs.last())
    }
}

/// The cell at `(x, y)` after taking in `msgs` in order.
pub open spec fn cell_after_messages(old: CellView, epoch: u32, msgs: Seq<WorkerMessage>, x: int, y: int) -> CellView
    decreases msgs.len(),
{
    if msgs.len() == 0 {
        old
    } else {
        cell_after_message(cell_after_messages(old, epoch, msgs.drop_last(), x, y), epoch, msgs.last(), x, y)
    }
}

/// The state after a worker that is `listening` or not received `msgs`: the messages taken in
/// order while listening, nothing otherwise.
pub open spec fn state_after_receiving(listening: bool, state: WorkerState, epoch: u32, msgs: Seq<WorkerMessage>) -> WorkerState {
    if listening {
        state_after_messages(state, epoch, msgs)
    } else {
        state
    }
}

/// The cell at `(x, y)` after a worker that is `listening` or not received `msgs`.
pub open spec fn cell_after_receiving(
    listening: bool,
    old: CellView,
    epoch: u32,
    msgs: Seq<WorkerMessage>,
    x: int,
    y: int,
) -> CellView {
    if listening {
        cell_after_messages(old, epoch, msgs, x, y)
    } else {
        old
    }
}

/// How many messages of `msgs` bring rendered positions of the render `epoch`.
pub open spec fn current_chunk_count(epoch: u32, msgs: Seq<WorkerMessage>) -> nat
    decreases msgs.len(),
{
    if msgs.len() == 0 {
        0
    } else {
        current_chunk_count(epoch, msgs.drop_last()) + if is_current_chunk(msgs.last(), epoch) {
            1nat
        } else {
            0nat
        }
    }
}

/// Every message of the render `epoch` in `msgs` pairs a position with that position's colour.
pub open spec fn chunks_consistent(epoch: u32, msgs: Seq<WorkerMessage>) -> bool {
    forall|i: int|
        0 <= i < msgs.len() ==> match #[trigger] msgs[i] {
            WorkerMessage::Chunk(rcell, rcolor, e) => e == epoch ==> rcell.pos == rcolor.pos,
            _ => true,
        }
}

/// While the counter of a working state has room for every current chunk of `msgs`, it has
/// room for the next one after any prefix of them.
pub proof fn lemma_state_count_bound(state: WorkerState, epoch: u32, msgs: Seq<WorkerMessage>, i: int)
    requires
        0 <= i < msgs.len(),
        state matches WorkerState::Working { completed, .. } ==> completed + current_chunk_count(
            epoch,
            msgs,
        ) <= usize::MAX,
    ensures
        is_current_chunk(msgs[i], epoch) ==> (state_after_messages(state, epoch, msgs.take(i))
            matches WorkerState::Working { completed, .. } ==> completed < usize::MAX),
    decreases msgs.len(),
{
    lemma_state_counts(state, epoch, msgs.take(i));
    lemma_count_prefix(epoch, msgs, i + 1);
    assert(msgs.take(i + 1).drop_last() =~= msgs.take(i));
    assert(msgs.take(i + 1).last() == msgs[i]);
}

/// A working state counts each current chunk of `msgs` on top of its count, unless the render
/// finished or was never working.
pub proof fn lemma_state_counts(state: WorkerState, epoch: u32, msgs: Seq<WorkerMessage>)
    ensures
        state_after_messages(state, epoch, msgs) matches WorkerState::Working { completed: c2, .. }
            ==> state matches WorkerState::Working { completed: c1, .. } && c2 <= c1
            + current_chunk_count(epoch, msgs),
    decreases msgs.len(),
{
    if msgs.len() > 0 {
        lemma_state_counts(state, epoch, msgs.drop_last());
    }
}

/// A prefix of `msgs` has no more current chunks than `msgs`.
pub proof fn lemma_count_prefix(epoch: u32, msgs: Seq<WorkerMessage>, i: int)
    requires
        0 <= i <= msgs.len(),
    ensures
        current_chunk_count(epoch, msgs.take(i)) <= current_chunk_count(epoch, msgs),
    decreases msgs.len() - i,
{
    if i < msgs.len() {
        lemma_count_prefix(epoch, msgs, i + 1);
        assert(msgs.take(i + 1).drop_last() =~= msgs.take(i));
    } else {
        assert(msgs.take(i) =~= msgs);
    }
}

/// The work a worker hands out when it starts rendering: the epoch to tag results with and the
/// positions to render.
pub struct RenderJob {
    pub epoch: u32,
    pub positions: Vec<[u32; 2]>,
}

/// The decisions of a render worker: the size of the picture, the current render epoch, the
/// worker state and the grid of rendered cells.
#[derive(Debug)]
pub struct WorkerCore {
    width: u32,
    height: u32,
    epoch: u32,
    state: WorkerState,
    grid_buf: CellGridBuffer,
    listening: bool,
}

impl WorkerCore {
    /// The picture's width.
    pub closed spec fn spec_width(&self) -> u32 {
        self.width
    }

    /// The picture's height.
    pub closed spec fn spec_height(&self) -> u32 {
        self.height
    }

    /// The epoch of the current render; results of other epochs are ignored.
    pub closed spec fn spec_epoch(&self) -> u32 {
        self.epoch
    }

    /// The worker state.
    pub closed spec fn spec_state(&self) -> WorkerState {
        self.state
    }

    /// Whether the worker takes in what render threads send: from the start of a render until
    /// it is stopped.
    pub closed spec fn spec_listening(&self) -> bool {
        self.listening
    }

    /// The grid of rendered cells.
    pub closed spec fn buffer(&self) -> CellGridBuffer {
        self.grid_buf
    }

    /// The grid is well formed and has the picture's size.
    pub closed spec fn wf(&self) -> bool {
        &&& self.grid_buf.wf()
        &&& self.grid_buf.w() == self.width
        &&& self.grid_buf.h() == self.height
    }

    /// A worker for a `width` by `height` picture that has not started; nothing is rendered.
    pub fn new(width: u32, height: u32) -> (r: Self)
        requires
            width * height <= u32::MAX,
        ensures
            !r.spec_listening(),
            r.wf(),
            r.spec_width() == width,
            r.spec_height() == height,
            r.spec_epoch() == 0,
            r.spec_state() == WorkerState::Init,
            forall|x: int, y: int|
                r.buffer().in_bounds(x, y) ==> #[trigger] r.buffer().cell(x, y) == CellView::empty(),
    {
        WorkerCore {
            width,
            height,
            epoch: 0,
            state: WorkerState::Init,
            grid_buf: CellGridBuffer::new(width, height),
            listening: false,
        }
    }

    /// The picture's size.
    pub fn get_size(&self) -> (r: (u32, u32))
        ensures
            r == (self.spec_width(), self.spec_height()),
    {
        (self.width, self.height)
    }

    /// The worker state.
    pub fn get_state(&self) -> (r: WorkerState)
        ensures
            r == self.spec_state(),
    {
        self.state
    }

    /// The epoch of the current render.
    pub fn epoch(&self) -> (r: u32)
        ensures
            r == self.spec_epoch(),
    {
        self.epoch
    }

    /// The grid of rendered cells.
    pub fn grid(&self) -> (r: &CellGridBuffer)
        ensures
            *r == self.buffer(),
    {
        &self.grid_buf
    }

    /// Stops the current render: results tagged with its epoch are ignored from now on.
    pub fn stop_worker(&mut self)
        requires
            old(self).spec_epoch() < u32::MAX,
        ensures
            !final(self).spec_listening(),
            final(self).spec_epoch() == old(self).spec_epoch() + 1,
            final(self).spec_state() == WorkerState::Interrupted,
            final(self).spec_width() == old(self).spec_width(),
            final(self).spec_height() == old(self).spec_height(),
            final(self).buffer() == old(self).buffer(),
            final(self).wf() == old(self).wf(),
    {
        self.epoch = self.epoch + 1;
        self.state = WorkerState::Interrupted;
        self.listening = false;
    }

    /// Waits for the pending input to be handled before rendering again.
    pub fn debounce_start_new_worker(&mut self)
        ensures
            final(self).spec_listening() == old(self).spec_listening(),
            final(self).spec_state() == WorkerState::InputDebounce,
            final(self).spec_epoch() == old(self).spec_epoch(),
            final(self).spec_width() == old(self).spec_width(),
            final(self).spec_height() == old(self).spec_height(),
            final(self).buffer() == old(self).buffer(),
            final(self).wf() == old(self).wf(),
    {
        self.state = WorkerState::InputDebounce;
    }

    /// Starts rendering again: stops the current render, then hands out every position whose
    /// cell is not freshly rendered, tagged with the new epoch.
    pub fn start_or_restart_worker(&mut self) -> (r: RenderJob)
        requires
            old(self).wf(),
            old(self).spec_epoch() < u32::MAX,
        ensures
            final(self).spec_listening(),
            final(self).wf(),
            final(self).spec_epoch() == old(self).spec_epoch() + 1,
            r.epoch == final(self).spec_epoch(),
            old(self).buffer().lists_stale_positions(r.positions@),
            final(self).spec_state() == (WorkerState::Working {
                total: r.positions@.len() as usize,
                completed: 0,
            }),
            final(self).spec_width() == old(self).spec_width(),
            final(self).spec_height() == old(self).spec_height(),
            final(self).buffer() == old(self).buffer(),
    {
        self.stop_worker();
        self.listening = true;
        let positions = self.grid_buf.get_stale_positions();
        let total = positions.len();
        self.state = WorkerState::Working { total, completed: 0 };
        RenderJob { epoch: self.epoch, positions }
    }

    /// Stops the current render and starts a new one, as after a change of the fractal.
    pub fn start_new_worker(&mut self) -> (r: RenderJob)
        requires
            old(self).wf(),
            old(self).spec_epoch() < u32::MAX - 1,
        ensures
            final(self).spec_listening(),
            final(self).wf(),
            final(self).spec_epoch() == old(self).spec_epoch() + 2,
            r.epoch == final(self).spec_epoch(),
            old(self).buffer().lists_stale_positions(r.positions@),
            final(self).spec_state() == (WorkerState::Working {
                total: r.positions@.len() as usize,
                completed: 0,
            }),
            final(self).spec_width() == old(self).spec_width(),
            final(self).spec_height() == old(self).spec_height(),
            final(self).buffer() == old(self).buffer(),
    {
        self.stop_worker();
        self.start_or_restart_worker()
    }

    /// Marks every rendered cell out of date and starts a new render, as after a change of the
    /// fractal's options.
    pub fn mark_stale_and_restart(&mut self) -> (r: RenderJob)
        requires
            old(self).wf(),
            old(self).spec_epoch() < u32::MAX - 1,
        ensures
            final(self).spec_listening(),
            final(self).wf(),
            final(self).spec_epoch() == old(self).spec_epoch() + 2,
            r.epoch == final(self).spec_epoch(),
            final(self).buffer().lists_stale_positions(r.positions@),
            final(self).spec_state() == (WorkerState::Working {
                total: r.positions@.len() as usize,
                completed: 0,
            }),
            final(self).spec_width() == old(self).spec_width(),
            final(self).spec_height() == old(self).spec_height(),
            forall|x: int, y: int|
                old(self).buffer().in_bounds(x, y) ==> #[trigger] final(self).buffer().cell(x, y)
                    == old(self).buffer().cell(x, y).staled(),
    {
        self.grid_buf.mark_all_positions_stale();
        self.start_new_worker()
    }

    /// Takes in one message of a render thread: a finished render finishes the state; a
    /// rendered position of the current epoch is stored and counted; anything else is ignored.
    fn receive_message(&mut self, msg: WorkerMessage)
        requires
            old(self).wf(),
            is_current_chunk(msg, old(self).spec_epoch()) ==> (msg matches WorkerMessage::Chunk(
                rcell,
                rcolor,
                _,
            ) && rcell.pos == rcolor.pos),
            is_current_chunk(msg, old(self).spec_epoch()) ==> (old(
                self,
            ).spec_state() matches WorkerState::Working { completed, .. } ==> completed
                < usize::MAX),
        ensures
            final(self).spec_listening() == old(self).spec_listening(),
            final(self).wf(),
            final(self).spec_state() == state_after_message(
                old(self).spec_state(),
                old(self).spec_epoch(),
                msg,
            ),
            final(self).spec_epoch() == old(self).spec_epoch(),
            final(self).spec_width() == old(self).spec_width(),
            final(self).spec_height() == old(self).spec_height(),
            forall|x: int, y: int|
                old(self).buffer().in_bounds(x, y) ==> #[trigger] final(self).buffer().cell(x, y)
                    == cell_after_message(old(self).buffer().cell(x, y), old(self).spec_epoch(), msg, x, y),
    {
        match msg {
            WorkerMessage::Finished => {
                self.state = WorkerState::Finished;
            },
            WorkerMessage::Chunk(rcell, rcolor, epoch) => {
                if epoch == self.epoch {
                    self.grid_buf.put_value(rcell, rcolor);
                    match self.state {
                        WorkerState::Working { total, completed } => {
                            self.state = WorkerState::Working { total, completed: completed + 1 };
                        },
                        _ => {},
                    }
                }
            },
            WorkerMessage::Init => {},
        }
    }

    /// Takes in what the render threads sent, in order, while the worker is listening: a
    /// finished render finishes the state; a rendered position of the current epoch is stored
    /// and counted; anything else is ignored. A worker that is not listening, because its
    /// render was stopped, takes in nothing.
    pub fn receive_into_buf(&mut self, messages: Vec<WorkerMessage>)
        requires
            old(self).wf(),
            old(self).spec_listening() ==> chunks_consistent(old(self).spec_epoch(), messages@),
            old(self).spec_listening() ==> (old(self).spec_state() matches WorkerState::Working {
                completed,
                ..
            } ==> completed + current_chunk_count(old(self).spec_epoch(), messages@) <= usize::MAX),
        ensures
            final(self).wf(),
            final(self).spec_listening() == old(self).spec_listening(),
            final(self).spec_state() == state_after_receiving(
                old(self).spec_listening(),
                old(self).spec_state(),
                old(self).spec_epoch(),
                messages@,
            ),
            final(self).spec_epoch() == old(self).spec_epoch(),
            final(self).spec_width() == old(self).spec_width(),
            final(self).spec_height() == old(self).spec_height(),
            forall|x: int, y: int|
                old(self).buffer().in_bounds(x, y) ==> #[trigger] final(self).buffer().cell(x, y)
                    == cell_after_receiving(
                    old(self).spec_listening(),
                    old(self).buffer().cell(x, y),
                    old(self).spec_epoch(),
                    messages@,
                    x,
                    y,
                ),
    {
        if self.listening {
            self.take_in_messages(messages);
        }
    }

    /// Takes in the messages of the render threads in order, as [`Self::receive_message`] does
    /// one.
    fn take_in_messages(&mut self, messages: Vec<WorkerMessage>)
        requires
            old(self).wf(),
            chunks_consistent(old(self).spec_epoch(), messages@),
            old(self).spec_state() matches WorkerState::Working { completed, .. } ==> completed
                + current_chunk_count(old(self).spec_epoch(), messages@) <= usize::MAX,
        ensures
            final(self).wf(),
            final(self).spec_listening() == old(self).spec_listening(),
            final(self).spec_state() == state_after_messages(
                old(self).spec_state(),
                old(self).spec_epoch(),
                messages@,
            ),
            final(self).spec_epoch() == old(self).spec_epoch(),
            final(self).spec_width() == old(self).spec_width(),
            final(self).spec_height() == old(self).spec_height(),
            forall|x: int, y: int|
                old(self).buffer().in_bounds(x, y) ==> #[trigger] final(self).buffer().cell(x, y)
                    == cell_after_messages(
                    old(self).buffer().cell(x, y),
                    old(self).spec_epoch(),
                    messages@,
                    x,
                    y,
                ),
    {
        let mut messages = messages;
        let ghost msgs = messages@;
        let n = messages.len();
        let mut i: usize = 0;
        while i < n
            invariant
                n == msgs.len(),
                messages@.len() == n,
                forall|j: int| i <= j < n ==> #[trigger] messages@[j] == msgs[j],
                i <= n,
                self.wf(),
                chunks_consistent(old(self).spec_epoch(), msgs),
                old(self).spec_state() matches WorkerState::Working { completed, .. } ==> completed
                    + current_chunk_count(old(self).spec_epoch(), msgs) <= usize::MAX,
                self.spec_state() == state_after_messages(
                    old(self).spec_state(),
                    old(self).spec_epoch(),
                    msgs.take(i as int),
                ),
                self.spec_epoch() == old(self).spec_epoch(),
                self.spec_listening() == old(self).spec_listening(),
                self.spec_width() == old(self).spec_width(),
                self.spec_height() == old(self).spec_height(),
                self.buffer().w() == old(self).buffer().w(),
                self.buffer().h() == old(self).buffer().h(),
                forall|x: int, y: int|
                    old(self).buffer().in_bounds(x, y) ==> #[trigger] self.buffer().cell(x, y)
                        == cell_after_messages(
                        old(self).buffer().cell(x, y),
                        old(self).spec_epoch(),
                        msgs.take(i as int),
                        x,
                        y,
                    ),
            decreases n - i,
        {
            let mut msg = WorkerMessage::Init;
            std::mem::swap(&mut messages[i], &mut msg);
            proof {
                let epoch = old(self).spec_epoch();
                assert(msgs.take(i + 1).drop_last() =~= msgs.take(i as int));
                assert(msgs.take(i + 1).last() == msgs[i as int]);
                lemma_state_count_bound(old(self).spec_state(), epoch, msgs, i as int);
            }
            let ghost before = *self;
            self.receive_message(msg);
            proof {
                assert forall|x: int, y: int| old(self).buffer().in_bounds(x, y) implies #[trigger] self.buffer().cell(x, y)
                    == cell_after_messages(
                    old(self).buffer().cell(x, y),
                    old(self).spec_epoch(),
                    msgs.take(i + 1),
                    x,
                    y,
                ) by {
                    assert(before.buffer().cell(x, y) == cell_after_messages(
                        old(self).buffer().cell(x, y),
                        old(self).spec_epoch(),
                        msgs.take(i as int),
                        x,
                        y,
                    ));
                }
            }
            i = i + 1;
        }
        proof {
            assert(msgs.take(n as int) =~= msgs);
        }
    }

    /// Draws the picture onto the screen unless the finished picture was drawn already; a
    /// finished render counts as drawn afterwards.
    pub fn draw_with_offset(&mut self, offset: (i32, i32), screen: &mut [u8], screen_size: (u32, u32))
        requires
            old(self).wf(),
            screen_size.0 * screen_size.1 * 4 <= old(screen)@.len(),
            old(self).buffer().iw() > 0 && old(self).buffer().ih() > 0 ==> offset.0 + old(
                self,
            ).buffer().iw() - 1 <= i32::MAX && offset.1 + old(self).buffer().ih() - 1 <= i32::MAX,
        ensures
            final(self).spec_listening() == old(self).spec_listening(),
            final(self).wf(),
            final(self).buffer() == old(self).buffer(),
            final(self).spec_epoch() == old(self).spec_epoch(),
            final(self).spec_width() == old(self).spec_width(),
            final(self).spec_height() == old(self).spec_height(),
            final(self).spec_state() == (if old(self).spec_state() == WorkerState::Finished {
                WorkerState::FinishedRendered
            } else {
                old(self).spec_state()
            }),
            final(screen)@.len() == old(screen)@.len(),
            old(self).spec_state() == WorkerState::FinishedRendered ==> final(screen)@ == old(screen)@,
            old(self).spec_state() != WorkerState::FinishedRendered ==> {
                &&& forall|x: int, y: int, c: int|
                    0 <= x < screen_size.0 && 0 <= y < screen_size.1 && 0 <= c < 4 ==> #[trigger] byte_at(
                        final(screen)@,
                        screen_size.0 as int,
                        x,
                        y,
                        c,
                    ) == old(self).buffer().drawn_byte(offset, screen_size.0, screen_size.1, x, y, c)
                &&& forall|b: int|
                    screen_size.0 * screen_size.1 * 4 <= b < old(screen)@.len() ==> #[trigger] final(screen)@[b]
                        == old(screen)@[b]
            },
    {
        if self.state != WorkerState::FinishedRendered {
            self.grid_buf.draw_with_offset(offset, screen, screen_size);
        }
        if self.state == WorkerState::Finished {
            self.state = WorkerState::FinishedRendered;
        }
    }

    /// Once the pending input is handled, starts the render that it held back.
    pub fn on_main_events_cleared(&mut self) -> (r: Option<RenderJob>)
        requires
            old(self).wf(),
            old(self).spec_state() == WorkerState::InputDebounce ==> old(self).spec_epoch() < u32::MAX,
        ensures
            r is None ==> final(self).spec_listening() == old(self).spec_listening(),
            r is Some ==> final(self).spec_listening(),
            final(self).wf(),
            final(self).buffer() == old(self).buffer(),
            final(self).spec_width() == old(self).spec_width(),
            final(self).spec_height() == old(self).spec_height(),
            r is Some <==> old(self).spec_state() == WorkerState::InputDebounce,
            r is None ==> final(self).spec_state() == old(self).spec_state() && final(self).spec_epoch()
                == old(self).spec_epoch(),
            r matches Some(job) ==> {
                &&& final(self).spec_epoch() == old(self).spec_epoch() + 1
                &&& job.epoch == final(self).spec_epoch()
                &&& old(self).buffer().lists_stale_positions(job.positions@)
                &&& final(self).spec_state() == (WorkerState::Working {
                    total: job.positions@.len() as usize,
                    completed: 0,
                })
            },
    {
        if self.state == WorkerState::InputDebounce {
            Some(self.start_or_restart_worker())
        } else {
            None
        }
    }

    /// Resizes the picture, keeping its middle, and holds the next render back until the
    /// pending input is handled.
    pub fn apply_resize(&mut self, size: (u32, u32))
        requires
            old(self).wf(),
            old(self).spec_epoch() < u32::MAX,
            size.0 * size.1 <= u32::MAX,
        ensures
            !final(self).spec_listening(),
            final(self).wf(),
            final(self).spec_epoch() == old(self).spec_epoch() + 1,
            final(self).spec_state() == WorkerState::InputDebounce,
            final(self).spec_width() == size.0,
            final(self).spec_height() == size.1,
            forall|x: int, y: int|
                final(self).buffer().in_bounds(x, y) ==> #[trigger] final(self).buffer().cell(x, y)
                    == {
                    let (sx, sy) = old(self).buffer().resize_source(size, x, y);
                    if final(self).buffer().in_bounds_i32(x, y) && old(self).buffer().in_bounds_i32(
                        sx,
                        sy,
                    ) {
                        old(self).buffer().cell(sx, sy)
                    } else {
                        CellView::empty()
                    }
                },
    {
        self.stop_worker();
        self.width = size.0;
        self.height = size.1;
        self.grid_buf.apply_resize(size);
        self.debounce_start_new_worker();
    }

    /// Rearranges the picture after a zoom, as [`CellGridBuffer::apply_zoom_from_sources`]
    /// does, and holds the next render back until the pending input is handled.
    pub fn apply_zoom_from_sources(&mut self, sources: &Vec<(i32, i32)>)
        requires
            old(self).wf(),
            old(self).spec_epoch() < u32::MAX,
            sources@.len() == old(self).buffer().point_count(),
        ensures
            !final(self).spec_listening(),
            final(self).wf(),
            final(self).spec_epoch() == old(self).spec_epoch() + 1,
            final(self).spec_state() == WorkerState::InputDebounce,
            final(self).spec_width() == old(self).spec_width(),
            final(self).spec_height() == old(self).spec_height(),
            forall|x: int, y: int|
                old(self).buffer().in_bounds(x, y) ==> #[trigger] final(self).buffer().cell(x, y)
                    == zoomed(
                    |a: int, b: int| old(self).buffer().cell(a, b),
                    old(self).buffer().iw(),
                    old(self).buffer().ih(),
                    sources@,
                    x,
                    y,
                ),
    {
        self.stop_worker();
        self.grid_buf.apply_zoom_from_sources(sources);
        self.debounce_start_new_worker();
    }

    /// Pans the picture by a mouse drag of `offset`: the picture moves with the mouse, and the
    /// next render is held back until the pending input is handled. Returns the offset by which
    /// the fractal's view moves, the drag reversed.
    pub fn apply_offset(&mut self, offset: (i32, i32)) -> (r: (i32, i32))
        requires
            old(self).wf(),
            old(self).spec_epoch() < u32::MAX,
            old(self).spec_width() > 0,
            i32::MIN < offset.0,
            i32::MIN < offset.1,
            -old(self).spec_width() <= offset.0 <= old(self).spec_width(),
            -old(self).spec_height() <= offset.1 <= old(self).spec_height(),
        ensures
            !final(self).spec_listening(),
            r.0 == -offset.0,
            r.1 == -offset.1,
            final(self).wf(),
            final(self).spec_epoch() == old(self).spec_epoch() + 1,
            final(self).spec_state() == WorkerState::InputDebounce,
            final(self).spec_width() == old(self).spec_width(),
            final(self).spec_height() == old(self).spec_height(),
            forall|x: int, y: int|
                old(self).buffer().in_bounds(x, y) ==> #[trigger] final(self).buffer().cell(x, y)
                    == old(self).buffer().offset_cell(r, x, y),
    {
        self.stop_worker();
        let moved = (-offset.0, -offset.1);
        self.grid_buf.apply_offset(moved);
        self.debounce_start_new_worker();
        moved
    }

    /// Pans the picture by a drag of `(dx, dy)`, when that is not nothing, then rearranges it
    /// after a zoom when `zoom_sources` gives one, as the two steps do alone, and holds the next
    /// render back until the pending input is handled. Returns the offset by which the fractal's
    /// view moves, the drag reversed.
    pub fn apply_offset_and_zoom_sources(&mut self, dx: i32, dy: i32, zoom_sources: Option<&Vec<(i32, i32)>>) -> (r: (i32, i32))
        requires
            old(self).wf(),
            old(self).spec_epoch() < u32::MAX,
            i32::MIN < dx,
            i32::MIN < dy,
            dx != 0 || dy != 0 ==> {
                &&& old(self).spec_width() > 0
                &&& -old(self).spec_width() <= dx <= old(self).spec_width()
                &&& -old(self).spec_height() <= dy <= old(self).spec_height()
            },
            zoom_sources matches Some(s) ==> s@.len() == old(self).buffer().point_count(),
        ensures
            !final(self).spec_listening(),
            r.0 == -dx,
            r.1 == -dy,
            final(self).wf(),
            final(self).spec_epoch() == old(self).spec_epoch() + 1,
            final(self).spec_state() == WorkerState::InputDebounce,
            final(self).spec_width() == old(self).spec_width(),
            final(self).spec_height() == old(self).spec_height(),
            forall|x: int, y: int|
                old(self).buffer().in_bounds(x, y) ==> #[trigger] final(self).buffer().cell(x, y)
                    == {
                    let panned = |a: int, b: int|
                        if dx != 0 || dy != 0 {
                            old(self).buffer().offset_cell(r, a, b)
                        } else {
                            old(self).buffer().cell(a, b)
                        };
                    match zoom_sources {
                        Some(s) => zoomed(
                            panned,
                            old(self).buffer().iw(),
                            old(self).buffer().ih(),
                            s@,
                            x,
                            y,
                        ),
                        None => panned(x, y),
                    }
                },
    {
        self.stop_worker();
        let moved = (-dx, -dy);
        let ghost g0 = self.grid_buf;
        if dx != 0 || dy != 0 {
            self.grid_buf.apply_offset(moved);
        }
        let ghost g1 = self.grid_buf;
        match zoom_sources {
            Some(sources) => {
                self.grid_buf.apply_zoom_from_sources(sources);
                proof {
                    let panned = |a: int, b: int|
                        if dx != 0 || dy != 0 {
                            g0.offset_cell(moved, a, b)
                        } else {
                            g0.cell(a, b)
                        };
                    assert forall|x: int, y: int| g0.in_bounds(x, y) implies #[trigger] self.grid_buf.cell(x, y)
                        == zoomed(panned, g0.iw(), g0.ih(), sources@, x, y) by {
                        assert(self.grid_buf.cell(x, y) == zoomed(|a: int, b: int| g1.cell(a, b), g1.iw(), g1.ih(), sources@, x, y));
                        if 0 <= x < g0.iw() && 0 <= y < g0.ih() && 0 <= sources@[y * g0.iw() + x].0 < g0.iw()
                            && 0 <= sources@[y * g0.iw() + x].1 < g0.ih() {
                            g0.lemma_wf_size();
                            let fx = sources@[y * g0.iw() + x].0 as int;
                            let fy = sources@[y * g0.iw() + x].1 as int;
                            assert(g1.cell(fx, fy) == panned(fx, fy));
                        }
                    }
                }
            },
            None => {},
        }
        self.debounce_start_new_worker();
        moved
    }
}

/// Results of any render but the current one change nothing: neither the state nor any cell.
pub proof fn lemma_other_epoch_ignored(state: WorkerState, epoch: u32, rcell: RCell, rcolor: RColor, e: u32, old: CellView, x: int, y: int)
    requires
        e != epoch,
    ensures
        state_after_message(state, epoch, WorkerMessage::Chunk(rcell, rcolor, e)) == state,
        cell_after_message(old, epoch, WorkerMessage::Chunk(rcell, rcolor, e), x, y) == old,
{
}

/// After a render was stopped, results it sends late are ignored.
pub proof fn lemma_stopped_render_ignored(before: WorkerCore, after: WorkerCore, rcell: RCell, rcolor: RColor, old: CellView, x: int, y: int)
    requires
        after.spec_epoch() == before.spec_epoch() + 1,
    ensures
        state_after_message(after.spec_state(), after.spec_epoch(), WorkerMessage::Chunk(rcell, rcolor, before.spec_epoch()))
            == after.spec_state(),
        cell_after_message(old, after.spec_epoch(), WorkerMessage::Chunk(rcell, rcolor, before.spec_epoch()), x, y) == old,
{
}

/// A stopped worker takes in nothing of what its render sends late: after `stop_worker`, and
/// until a render starts again, any messages, a `Finished` among them, leave the state and
/// every cell as they were.
pub proof fn lemma_stopped_worker_takes_nothing(w: WorkerCore, msgs: Seq<WorkerMessage>, x: int, y: int)
    requires
        !w.spec_listening(),
    ensures
        state_after_receiving(w.spec_listening(), w.spec_state(), w.spec_epoch(), msgs) == w.spec_state(),
        cell_after_receiving(w.spec_listening(), w.buffer().cell(x, y), w.spec_epoch(), msgs, x, y)
            == w.buffer().cell(x, y),
{
}

/// A message that carries no rendered cell, `Init` or `Finished`, leaves every cell as it was,
/// and `Init` leaves the state too.
pub proof fn lemma_signals_leave_cells(state: WorkerState, epoch: u32, msg: WorkerMessage, old: CellView, x: int, y: int)
    requires
        msg is Init || msg is Finished,
    ensures
        cell_after_message(old, epoch, msg, x, y) == old,
        msg is Init ==> state_after_message(state, epoch, msg) == state,
{
}

/// A rendered cell of the current render changes its own position only.
pub proof fn lemma_chunk_changes_its_position_only(epoch: u32, rcell: RCell, rcolor: RColor, old: CellView, x: int, y: int)
    requires
        x != rcell.pos[0] || y != rcell.pos[1],
    ensures
        cell_after_message(old, epoch, WorkerMessage::Chunk(rcell, rcolor, epoch), x, y) == old,
{
}

/// Messages that bring no rendered cell of the current render, whatever else they are, leave
/// every cell as it was.
pub proof fn lemma_no_current_chunk_leaves_cells(old: CellView, epoch: u32, msgs: Seq<WorkerMessage>, x: int, y: int)
    requires
        forall|i: int| 0 <= i < msgs.len() ==> !is_current_chunk(#[trigger] msgs[i], epoch),
    ensures
        cell_after_messages(old, epoch, msgs, x, y) == old,
    decreases msgs.len(),
{
    if msgs.len() > 0 {
        assert forall|i: int| 0 <= i < msgs.drop_last().len() implies !is_current_chunk(
            #[trigger] msgs.drop_last()[i],
            epoch,
        ) by {
            assert(msgs.drop_last()[i] == msgs[i]);
        }
        lemma_no_current_chunk_leaves_cells(old, epoch, msgs.drop_last(), x, y);
        assert(!is_current_chunk(msgs[msgs.len() - 1], epoch));
    }
}

/// A rendered position of the current render shows its colour, freshly rendered, however the
/// cell looked before.
pub proof fn lemma_current_chunk_stored(epoch: u32, rcell: RCell, rcolor: RColor, old: CellView)
    ensures
        cell_after_message(old, epoch, WorkerMessage::Chunk(rcell, rcolor, epoch), rcell.pos[0] as int, rcell.pos[1] as int)
            == (CellView { state: CellState::FreshRgb, data: Some(rcell.data@), rgb: rcolor.rgb@ }),
{
}

} // verus!
