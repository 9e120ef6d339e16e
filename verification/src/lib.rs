//! Core of a terminal directory browser: directory-entry listing, selection
//! and viewport scrolling, preview generation, and the top-level command
//! state machine. All I/O (filesystem, terminal, editor processes) lives
//! outside this crate; the functions here work on plain values handed in by
//! the caller.

pub mod entry;
pub mod nav;
pub mod order;
pub mod preview;
pub mod scroll;

use vstd::prelude::*;

verus! {

} // verus!
