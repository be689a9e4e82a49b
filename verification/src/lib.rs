//! Binary diffing: a patch turns an old byte string into a new one.
//!
//! [`diff`](fn@diff) makes a patch out of an old and a new byte string, and [`patch`](fn@patch)
//! applies it to the old one. The patch is a sequence of records ([`record`]). Which records it
//! consists of is laid down in [`plan`]; that applying them gives back the new byte string is
//! proved there.

pub mod diff;
pub mod extend;
pub mod hash;
pub mod index;
pub mod laws;
pub mod laws_patch;
pub mod laws_scan;
pub mod matching;
pub mod par_index;
pub mod par_scan;
pub mod parallel;
pub mod patch;
pub mod plan;
pub mod record;
pub mod scan;

pub use crate::diff::{diff, diff_parallel, DiffError};
pub use crate::patch::{patch, PatchError};
