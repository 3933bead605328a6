use fractal_worker::interface::{RCell, RColor};
use fractal_worker::worker::{WorkerCore, WorkerMessage, WorkerState};

fn chunk(x: u32, y: u32, epoch: u32) -> WorkerMessage {
    WorkerMessage::Chunk(RCell { pos: [x, y], data: vec![] }, RColor { pos: [x, y], rgb: [1, 2, 3] }, epoch)
}

#[test]
fn new_worker_waits() {
    let w = WorkerCore::new(2, 2);
    assert_eq!(w.get_size(), (2, 2));
    assert_eq!(w.get_state(), WorkerState::Init);
    assert_eq!(w.epoch(), 0);
}

#[test]
fn start_hands_out_stale_positions_with_new_epoch() {
    let mut w = WorkerCore::new(2, 1);
    let job = w.start_or_restart_worker();
    assert_eq!(job.epoch, 1);
    assert_eq!(job.positions, vec![[0, 0], [1, 0]]);
    assert_eq!(w.get_state(), WorkerState::Working { total: 2, completed: 0 });
}

#[test]
fn receive_counts_current_chunks_and_ignores_old_ones() {
    let mut w = WorkerCore::new(2, 1);
    let job = w.start_or_restart_worker();
    w.receive_into_buf(vec![
        WorkerMessage::Init,
        chunk(0, 0, job.epoch),
        chunk(1, 0, job.epoch - 1),
    ]);
    assert_eq!(w.get_state(), WorkerState::Working { total: 2, completed: 1 });
    assert_eq!(w.grid().get_stale_positions(), vec![[1, 0]]);
    w.receive_into_buf(vec![chunk(1, 0, job.epoch), WorkerMessage::Finished]);
    assert_eq!(w.get_state(), WorkerState::Finished);
    assert!(w.grid().get_stale_positions().is_empty());
}

#[test]
fn stopped_render_results_are_ignored() {
    let mut w = WorkerCore::new(1, 1);
    let job = w.start_or_restart_worker();
    w.stop_worker();
    assert_eq!(w.get_state(), WorkerState::Interrupted);
    w.receive_into_buf(vec![chunk(0, 0, job.epoch), WorkerMessage::Finished]);
    assert_eq!(w.grid().get_stale_positions(), vec![[0, 0]]);
    assert_eq!(w.get_state(), WorkerState::Interrupted);
}

#[test]
fn listening_resumes_with_the_next_render() {
    let mut w = WorkerCore::new(2, 1);
    let first = w.start_or_restart_worker();
    w.apply_offset((0, 0));
    w.receive_into_buf(vec![chunk(0, 0, first.epoch), WorkerMessage::Finished]);
    assert_eq!(w.get_state(), WorkerState::InputDebounce);
    let job = w.on_main_events_cleared().unwrap();
    w.receive_into_buf(vec![chunk(0, 0, first.epoch), chunk(1, 0, job.epoch)]);
    assert_eq!(w.get_state(), WorkerState::Working { total: 2, completed: 1 });
    assert_eq!(w.grid().get_stale_positions(), vec![[0, 0]]);
}

#[test]
fn draw_finished_picture_once() {
    let mut w = WorkerCore::new(1, 1);
    let job = w.start_or_restart_worker();
    w.receive_into_buf(vec![chunk(0, 0, job.epoch), WorkerMessage::Finished]);
    let mut screen = vec![0u8; 4];
    w.draw_with_offset((0, 0), &mut screen, (1, 1));
    assert_eq!(screen, vec![1, 2, 3, 0xff]);
    assert_eq!(w.get_state(), WorkerState::FinishedRendered);
    let mut other = vec![9u8; 4];
    w.draw_with_offset((0, 0), &mut other, (1, 1));
    assert_eq!(other, vec![9, 9, 9, 9]);
}

#[test]
fn input_holds_render_back_until_events_cleared() {
    let mut w = WorkerCore::new(4, 4);
    assert!(w.on_main_events_cleared().is_none());
    let moved = w.apply_offset((2, -1));
    assert_eq!(moved, (-2, 1));
    assert_eq!(w.get_state(), WorkerState::InputDebounce);
    let job = w.on_main_events_cleared().unwrap();
    assert_eq!(job.epoch, 2);
    assert_eq!(job.positions.len(), 16);
}

#[test]
fn resize_changes_size_and_waits() {
    let mut w = WorkerCore::new(4, 4);
    w.apply_resize((3, 2));
    assert_eq!(w.get_size(), (3, 2));
    assert_eq!(w.get_state(), WorkerState::InputDebounce);
    assert_eq!(w.grid().width(), 3);
}

#[test]
fn offset_and_zoom_together() {
    let mut w = WorkerCore::new(2, 1);
    let job = w.start_or_restart_worker();
    w.receive_into_buf(vec![chunk(1, 0, job.epoch)]);
    // drag by (1, 0): the picture shows old (x - 1), so the rendered cell leaves the grid; the
    // zoom then copies the empty cell at (1, 0), out of date and black, to both positions
    let moved = w.apply_offset_and_zoom_sources(1, 0, Some(&vec![(1, 0), (1, 0)]));
    assert_eq!(moved, (-1, 0));
    let mut screen = vec![0u8; 8];
    w.draw_with_offset((0, 0), &mut screen, (2, 1));
    assert_eq!(&screen[4..8], &[0x4c, 0x4c, 0x4c, 0xfe]);
    let mut w2 = WorkerCore::new(2, 1);
    let job2 = w2.start_or_restart_worker();
    w2.receive_into_buf(vec![chunk(0, 0, job2.epoch)]);
    w2.apply_offset_and_zoom_sources(1, 0, Some(&vec![(1, 0), (1, 0)]));
    let mut screen2 = vec![0u8; 8];
    w2.draw_with_offset((0, 0), &mut screen2, (2, 1));
    assert_eq!(&screen2[0..4], &[0x4c, 0x4c + 1, 0x4c + 1, 0xfe]);
    assert_eq!(&screen2[4..8], &[0x4c, 0x4c + 1, 0x4c + 1, 0xfe]);
}

#[test]
fn restart_after_option_change_rerenders_everything() {
    let mut w = WorkerCore::new(1, 2);
    let job = w.start_or_restart_worker();
    w.receive_into_buf(vec![chunk(0, 0, job.epoch), chunk(0, 1, job.epoch)]);
    let job2 = w.mark_stale_and_restart();
    assert_eq!(job2.epoch, job.epoch + 2);
    assert_eq!(job2.positions, vec![[0, 0], [0, 1]]);
}
