//! A small launcher library: it discovers media files under configured root
//! directories, orders them by a normalized sort key, and decides — from the
//! line an external menu program echoes back — which file the player should
//! be started on.
//!
//! All path and name data is modelled as byte strings, which is what the
//! platform hands a program for a path.  The process and filesystem plumbing
//! lives outside this crate; the logic here is pure and fully specified.

use vstd::prelude::*;

pub mod bytes;
pub mod collect;
pub mod name;
pub mod select;
pub mod sort;

verus! {

/// The failure taxonomy of the pipeline.
///
/// `Configuration`: a configured root directory is missing or not a directory.
/// `Io`: a directory read failed during collection.
/// `Spawn`: the selector or player executable could not be started.
/// `Decode`: the selector's output was not valid text.
/// `Lookup`: the chosen name has no corresponding full path.
#[derive(Clone, Copy, Debug, PartialEq, Eq, Structural)]
pub enum Error {
    Configuration,
    Io,
    Spawn,
    Decode,
    Lookup,
}

} // verus!
