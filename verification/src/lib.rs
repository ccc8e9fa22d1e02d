//! Folding of DTrace `ustack()` output into one line per call path.
//!
//! The input is text: a preamble that ends at the first blank line, then
//! samples. A sample is a run of frame lines, leaf first, closed by a line
//! that holds the sample's count. The output has one line for every distinct
//! call path, the frames root first and joined by `;`, then a space and the
//! number of times the path was seen.
//!
//! Everything works on bytes. Lines are checked to be UTF-8 before they are
//! taken apart.

pub mod chunk;
pub mod text;
pub mod frame;
pub mod symbol;
pub mod occurrences;
pub mod folder;
pub mod invariance;

pub use crate::folder::{CollapseError, Folder, Options};
pub use crate::occurrences::Occurrences;
