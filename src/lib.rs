//! A directory tree renderer: entries are classified, given an icon glyph, and
//! drawn as a box-drawing tree with a closing summary line.
pub mod file;
pub mod icons;
pub mod laws;
pub mod order;
pub mod tree;
