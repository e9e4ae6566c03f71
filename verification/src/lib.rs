//! Terminal video rendering core: colour palettes, glyph selection and
//! ANSI frame assembly, with their behaviour stated and proved in Verus.

pub mod ansi;
pub mod ascii;
pub mod blocks;
pub mod engine;
pub mod harri;
pub mod input;
pub mod palette;
pub mod player;
pub mod registry;
pub mod terminal;
pub mod text;
pub mod video;
