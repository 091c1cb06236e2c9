//! An increment-only-minimum counting Bloom filter: a fixed array of small
//! saturating counters in a packed bit buffer, a salted hash that maps an
//! item to its counter positions, and an insertion that raises only the
//! positions that currently hold the minimum.
//!
//! - [`model`]: the counters as a sequence of numbers, what an insertion does
//!   to them, and what follows (no false negatives, no underestimation, ...).
//! - [`history`]: the same for runs of items rather than position lists.
//! - [`index`]: the positions of an item.
//! - [`binary`], [`packing`]: how bits encode the counters.
//! - [`bitbuf`]: the bit buffer, from the `bitvec` crate.
//! - [`filter`]: the filter itself.

pub mod binary;
pub mod bitbuf;
pub mod filter;
pub mod history;
pub mod index;
pub mod model;
pub mod packing;

pub use crate::filter::{ConstructionError, IncOnlyMinCbf};
