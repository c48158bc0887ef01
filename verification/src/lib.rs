//! The core of a bitmap-glyph pad editor: a rectangular grid of boolean
//! cells with verified resize, toggle, flip and shift operations, pointer
//! to cell addressing, a validating text codec for clipboard interchange,
//! and a bounded history of past grids for onion-skin preview.

pub mod addressing;
pub mod codec;
pub mod grid;
pub mod history;
pub mod transform;
