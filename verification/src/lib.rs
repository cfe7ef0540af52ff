//! Font-name extraction for ASS subtitles, a font catalogue's pure logic,
//! and a manager of temporarily registered fonts.
pub mod text;
pub mod font_set;
pub mod ass;
pub mod font_manager;
pub mod catalog;
pub mod loader;
pub mod paths;
