//! Kaley Encoding: a deterministic transliteration of a lowercase word into a
//! stream of glyphs. Each glyph stands for the longest run of letters its
//! name can consume from the remaining input, and a secondary indicator glyph
//! records how many letters a single glyph actually covered.

pub mod indicator;
pub mod lexicon;
pub mod matcher;
pub mod render;
pub mod text;
