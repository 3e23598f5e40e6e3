//! A tile engine for an interactive Mandelbrot view: tile keys, progressive
//! tile rendering, a keyed tile cache, and the viewport state that decides
//! which tiles are needed and fills them under a per-step budget.
pub mod palette;
pub mod square;
pub mod cache;
pub mod mandelbrot;
pub mod laws;
