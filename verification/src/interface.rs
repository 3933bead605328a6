//! The values that fractal and colour plugins hand to the worker.
use vstd::prelude::*;

verus! {

/// What a fractal plugin computed for one position: the position and an encoded payload.
#[derive(Debug, Clone)]
pub struct RCell {
    pub pos: [u32; 2],
    pub data: Vec<u8>,
}

/// The colour a colour plugin chose for one position.
#[derive(Debug, Clone, Copy)]
pub struct RColor {
    pub pos: [u32; 2],
    pub rgb: [u8; 3],
}

/// What the Mandelbrot plugin records for a position: whether the orbit escaped, and after how
/// many iterations it stopped.
#[derive(Debug, Clone, Copy, PartialEq, Eq, Structural)]
pub struct MandelbrotData {
    pub outside: bool,
    pub iter: usize,
}

/// The colour plugin that shades escaped positions by their iteration count, in grey.
#[derive(Debug, Clone, Copy, PartialEq, Eq, Structural)]
pub struct BasicLumaColorFunc {}

} // verus!
