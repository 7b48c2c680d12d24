//! Renders code frames: a window of source lines around an error location,
//! with line numbers, a `>` gutter marker, `^^^` underlines, optional ANSI
//! syntax highlighting and horizontal truncation of long lines.
use vstd::prelude::*;

pub mod ansi;
pub mod colors;
pub mod frame;
pub mod highlight;
pub mod lines;
pub mod pairs;
pub mod ranges;
pub mod patterns;
pub mod scanner;
pub mod shape;
pub mod text;

verus! {
} // verus!
