//! A markdown editor library: the document model with its edit commands and
//! undo history, a block scanner for markdown sources, the preview renderer's
//! block model, front matter detection, and soft wrapping of display text.
pub mod text;
pub mod rope;
pub mod document;
pub mod editing;
pub mod markdown_lines;
pub mod markdown;
pub mod markdown_parser;
pub mod render;
pub mod platform;
pub mod display;
