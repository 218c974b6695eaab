//! A selectable-row layout-and-render component for a terminal list widget.
//!
//! Given a row index, a selection flag and a label, the crate builds a
//! renderable row that can report how many terminal rows it needs at a given
//! width and paint itself, word-wrapped and indentation-aligned, into a
//! buffer region of that width.

pub mod width;
pub mod wrap;
pub mod row;
pub mod paint;
