//! Conversion of Unicode box-drawing tables into Markdown, with the text
//! logic of the `tablecopy` tool stated and proved.

pub mod text;
pub mod parser;
pub mod format;
pub mod converter;
pub mod image;
pub mod config;
pub mod cycle;
pub mod hud;
pub mod laws;
