//! A hierarchical instrumentation profiler driven by a cycle counter.
//!
//! Timed regions are identified by small integer ids. Entering a region
//! makes it the active parent; leaving it splits its elapsed cycles into an
//! exclusive share (the region itself) and an inclusive share (the region and
//! everything it called). Cycle stamps are handed in by the caller, which
//! reads the hardware counter.
use vstd::prelude::*;

pub mod anchor;
pub mod laws;
pub mod pairs;
pub mod profile;
pub mod settings;
pub mod timer;
