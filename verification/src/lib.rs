//! A terminal screen renderer, a virtual filesystem and an in-memory
//! repository with staging, commits, status and line diffs, for running
//! terminal applications where no terminal, disk or version-control program
//! is at hand.
//!
//! Paths and texts are handled as sequences of characters, files as
//! sequences of bytes. Each public function states what it returns and how
//! it changes its object over those values.

use vstd::prelude::*;

pub mod text;
pub mod order;
pub mod path;
pub mod pathmap;
pub mod fs;
pub mod lcs;
pub mod diff;
pub mod git;
pub mod backend;
pub mod counter;

verus! {

} // verus!
