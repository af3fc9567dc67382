//! Rift: the verified core of a tiling window manager daemon.

use vstd::prelude::*;

pub mod config;
pub mod daemon;
pub mod guarantees;
pub mod ipc;
pub mod keys;
pub mod layout;
pub mod state;
pub mod text;

verus! {

} // verus!
