//! Line-by-line chunk rail display for source files: nesting depths of code
//! chunks, the per-line display model, and its plain-text form.
pub mod adapter;
pub mod chunk;
pub mod depth;
pub mod display;
pub mod render;
pub mod text;
