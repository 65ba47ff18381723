pub mod text;
pub mod units;
pub mod normalize;
pub mod wrap;
pub mod wrap_laws;
pub mod width_laws;
pub mod word_laws;
pub mod node;
pub mod pieces;
pub mod tables;
pub mod table_laws;
pub mod render;
pub mod parse;
pub mod render_laws;

pub use crate::parse::format_markdown;
