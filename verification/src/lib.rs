//! Text-input spans and caret moves, Markdown math extensions, and settings
//! helpers.

pub mod candidate_laws;
pub mod latex;
pub mod markdown_ext;
pub mod markdown_tree;
pub mod math_parse;
pub mod movement;
pub mod number;
pub mod rope;
pub mod setting;
pub mod sort;
pub mod span;
pub mod span_laws;
pub mod text;
