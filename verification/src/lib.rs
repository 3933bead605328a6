//! Grid buffers, render-worker state and the other logic of a fractal viewer.
pub mod index_math;
pub mod grid;
pub mod screen;
pub mod interface;
pub mod cell_grid;
pub mod worker;
pub mod mouse_drag;
pub mod pixel_canvas;
pub mod chunk;
pub mod chunk_worker;
pub mod config;
pub mod option_setter;
pub mod options_grid;
