//! A terminal clock: block-glyph digits, a cached color codec, a run-length
//! draw engine with color-state coalescing, and the decisions of its event loop.

pub mod color;
pub mod decimal;
pub mod draw;
pub mod session;
pub mod sink;
pub mod terminal;
