use fractal_worker::chunk::{compute_cells_rmp, compute_colors_rmp, RChunk};
use fractal_worker::chunk_worker::{
    _get_incomplete_pixel_positions, draw_chunk_colors, get_all_pixel_positions, shuffled_pixel_positions, ChunkMessage,
    ChunkWorkerCore, WorkerState,
};
use fractal_worker::interface::RColor;

#[test]
fn chunk_keeps_segments() {
    let positions = [[0u32, 0u32], [1, 0], [2, 0]];
    let chunk = compute_cells_rmp(&positions, |p: [u32; 2]| vec![p[0] as u8; p[0] as usize]);
    assert_eq!(chunk.len(), 3);
    assert_eq!(chunk.get(0), ([0, 0], &[][..]));
    assert_eq!(chunk.get(1), ([1, 0], &[1u8][..]));
    assert_eq!(chunk.get(2), ([2, 0], &[2u8, 2][..]));
    assert_eq!(chunk.pos_at(2), [2, 0]);
}

#[test]
fn colours_follow_chunk_order() {
    let positions = [[3u32, 4u32], [5, 6]];
    let chunk = compute_cells_rmp(&positions, |p: [u32; 2]| vec![p[0] as u8, p[1] as u8]);
    let colors = compute_colors_rmp(&chunk, |d: &[u8]| [d[0], d[1], d.len() as u8]);
    assert_eq!(colors.len(), 2);
    assert_eq!(colors[0].pos, [3, 4]);
    assert_eq!(colors[0].rgb, [3, 4, 2]);
    assert_eq!(colors[1].pos, [5, 6]);
    assert_eq!(colors[1].rgb, [5, 6, 2]);
}

#[test]
fn empty_chunk() {
    let mut chunk = RChunk::new();
    assert_eq!(chunk.len(), 0);
    chunk.push([1, 1], vec![9, 9]);
    assert_eq!(chunk.get(0), ([1, 1], &[9u8, 9][..]));
}

#[test]
fn paint_colours_in_order() {
    let mut screen = vec![0u8; 2 * 2 * 4];
    let colors = vec![
        RColor { pos: [1, 0], rgb: [1, 2, 3] },
        RColor { pos: [0, 1], rgb: [4, 5, 6] },
        RColor { pos: [1, 0], rgb: [7, 8, 9] },
    ];
    draw_chunk_colors(colors, 2, &mut screen);
    assert_eq!(&screen[4..8], &[7, 8, 9, 0xff]);
    assert_eq!(&screen[8..12], &[4, 5, 6, 0xff]);
    assert_eq!(&screen[0..4], &[0, 0, 0, 0]);
}

#[test]
fn all_positions_in_square_blocks() {
    let chunks = get_all_pixel_positions(3, 2, 2);
    assert_eq!(
        chunks,
        vec![vec![[0, 0], [0, 1], [1, 0], [1, 1]], vec![[2, 0], [2, 1]]]
    );
    let chunks = get_all_pixel_positions(2, 3, 2);
    assert_eq!(
        chunks,
        vec![vec![[0, 0], [0, 1], [1, 0], [1, 1]], vec![[0, 2], [1, 2]]]
    );
    assert!(get_all_pixel_positions(0, 5, 4).is_empty());
}

#[test]
fn every_position_once() {
    let chunks = get_all_pixel_positions(7, 5, 3);
    let mut all: Vec<[u32; 2]> = chunks.into_iter().flatten().collect();
    all.sort();
    let mut expected = vec![];
    for x in 0..7 {
        for y in 0..5 {
            expected.push([x, y]);
        }
    }
    assert_eq!(all, expected);
}

#[test]
fn incomplete_positions_skip_existing() {
    let existing = compute_cells_rmp(&[[0u32, 0u32], [1, 1], [9, 9]], |_p: [u32; 2]| vec![]);
    let chunks = _get_incomplete_pixel_positions(2, 2, 1, &[existing]);
    assert_eq!(chunks, vec![vec![[0, 1]], vec![[1, 0]]]);
    let chunks = _get_incomplete_pixel_positions(2, 3, 4, &[]);
    assert_eq!(
        chunks,
        vec![vec![[0, 0], [0, 1], [0, 2], [1, 0]], vec![[1, 1], [1, 2]]]
    );
}

#[test]
fn chunk_worker_draws_current_chunks() {
    let mut w = ChunkWorkerCore::new(2, 1);
    assert_eq!(w.get_state(), WorkerState::Init);
    let req = w.start_worker(None);
    assert_eq!(req.epoch, 0);
    assert_eq!(req.chunk_size, 32);
    assert_eq!(req.existing_chunks_offset, [0, 0]);
    assert_eq!(w.get_state(), WorkerState::Started);
    let mut screen = vec![5u8; 2 * 4 + 1];
    let chunk = compute_cells_rmp(&[[1u32, 0u32]], |_p: [u32; 2]| vec![]);
    w.draw_new_chunks(
        2,
        1,
        &mut screen,
        vec![
            ChunkMessage::Init,
            ChunkMessage::Chunk(chunk.clone(), vec![RColor { pos: [1, 0], rgb: [1, 2, 3] }], 0),
            ChunkMessage::Chunk(chunk, vec![RColor { pos: [0, 0], rgb: [4, 5, 6] }], 7),
            ChunkMessage::Finished,
        ],
    );
    assert_eq!(screen, vec![0, 0, 0, 0, 1, 2, 3, 0xff, 5]);
    assert_eq!(w.get_state(), WorkerState::Finished);
    // no second clearing until a reset
    let mut again = vec![5u8; 2 * 4];
    w.draw_new_chunks(2, 1, &mut again, vec![]);
    assert_eq!(again, vec![5u8; 8]);
    w.reset();
    w.draw_new_chunks(2, 1, &mut again, vec![]);
    assert_eq!(again, vec![0u8; 8]);
}

#[test]
fn start_at_new_size_moves_existing_chunks() {
    let mut w = ChunkWorkerCore::new(4, 4);
    let req = w.start_worker(Some((7, 1)));
    assert_eq!(req.existing_chunks_offset, [1, -1]);
    assert_eq!((req.width, req.height), (7, 1));
    assert_eq!(w.get_size(), (7, 1));
}

#[test]
fn shuffled_positions_rearrange_the_chunks() {
    let all = get_all_pixel_positions(7, 5, 3);
    for _ in 0..5 {
        let mut shuffled = shuffled_pixel_positions(7, 5, 3);
        assert_eq!(shuffled.len(), all.len());
        let mut sorted_all = all.clone();
        sorted_all.sort();
        shuffled.sort();
        assert_eq!(shuffled, sorted_all);
    }
    assert!(shuffled_pixel_positions(0, 5, 3).is_empty());
    let reordered = (0..20).any(|_| shuffled_pixel_positions(7, 5, 3) != all);
    assert!(reordered);
}

#[test]
fn colouring_encoded_cells_round_trips() {
    let positions = [[0u32, 0u32], [5, 1], [2, 7], [5, 1]];
    let chunk = compute_cells_rmp(&positions, |p: [u32; 2]| vec![p[0] as u8, p[1] as u8, 200]);
    let colors = compute_colors_rmp(&chunk, |b: &[u8]| [b[1], b[0], b[2]]);
    assert_eq!(colors.len(), positions.len());
    for (c, p) in colors.iter().zip(positions.iter()) {
        assert_eq!(c.pos, *p);
        assert_eq!(c.rgb, [p[1] as u8, p[0] as u8, 200]);
    }
}
