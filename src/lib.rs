//! Multicolor highlighting of pattern matches in text lines.
//!
//! The core is a merger of colored byte ranges: ranges are inserted one at a
//! time into an ordered, non-overlapping sequence, and a range inserted
//! earlier always keeps the bytes it claimed.

pub mod ranges;
pub mod range_laws;
pub mod pattern;
pub mod collect;
pub mod collect_laws;
pub mod render;
