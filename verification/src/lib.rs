//! Segment trees with lazy propagation over a fixed array of `i32`, in two
//! kinds, and what goes with them.
//!
//! - [`range_max`]: lower the entries of a range to at most a value, ask for
//!   the largest entry of a range. [`queries`] decodes and runs the queries of
//!   a client. [`windows`] holds the sequences that its contracts speak of.
//! - [`range_add`]: add a value to the entries of a range, read the array
//!   out. [`schedule`] runs a list of additions, each as often as a list of
//!   requests asks for it. [`additions`] holds the sequences that its
//!   contracts speak of.
//! - [`layout`]: the arithmetic of a binary tree kept in an array, which both
//!   kinds share.
//!
//! Beside the trees stand two scans that need no tree: [`holiday`] plans the
//! days of a holiday over a row of cities, [`flags`] counts flags along a
//! street.

pub mod additions;
pub mod flags;
pub mod holiday;
pub mod layout;
pub mod queries;
pub mod range_add;
pub mod range_max;
pub mod schedule;
pub mod windows;
