//! Text-buffer and syntax-highlighting core of a screen-oriented editor.
//!
//! The library owns the document's line storage (`Document`), the
//! grapheme-cluster-addressed line model (`Row`), and the per-character
//! classifier that assigns a highlight tag to every character of a row
//! while threading block-comment state from one row to the next.
//! Terminal rendering, key dispatch and file I/O live outside the library
//! and consume it through plain values.

use vstd::prelude::*;

pub mod document;
pub mod graphemes;
pub mod highlighting;
pub mod lines;
pub mod options;
pub mod row;

pub use document::Document;
pub use options::FileType;
pub use options::HighlightingOptions;
pub use row::Row;

verus! {

/// A cursor position: `x` is a grapheme-cluster column, `y` a row index.
/// Positions are not validated here; operations clamp or ignore
/// out-of-range positions at their boundary.
#[derive(Clone, Copy, PartialEq, Eq, Structural, Debug)]
pub struct Pos {
    pub x: usize,
    pub y: usize,
}

/// Direction of a substring search within a row or across a document.
#[derive(Clone, Copy, PartialEq, Eq, Structural, Debug)]
pub enum SearchDirection {
    Forward,
    Backward,
}

} // verus!
