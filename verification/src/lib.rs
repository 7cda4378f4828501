//! Ruby-annotation font rewriting: integer-exact glyph outline model,
//! annotation placement, simple-glyph re-encoding, and multi-font
//! collection building with cross-font table deduplication.

pub mod fixed;
pub mod glyf;
pub mod path;
pub mod pen;
pub mod placement;
pub mod renderer;
pub mod tables;
pub mod ttc;
pub mod resolve;
pub mod rewrite;

pub use path::{PathEl, Point};
