//! Cross-rank skew analysis of collective-communication kernel launches.
//!
//! Kernel launch events from a profiling trace are grouped by kernel name and rank,
//! the k-th launch of a kernel on every rank is paired with the k-th launch on every
//! other rank, and the spread of their start times (the skew) is measured.
//!
//! - `text`: decimal and duration rendering.
//! - `ranks`: the event model, the rank order and rank labels.
//! - `order`: byte order of kernel names.
//! - `group`: grouping by name and rank, chronologically.
//! - `align`: positional pairing, skew and per-kernel totals.

pub mod text;
pub mod ranks;
pub mod order;
pub mod group;
pub mod align;
