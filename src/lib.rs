//! Flattening a directory tree: every file under a root directory is moved
//! directly into the root, and the emptied subdirectories are removed.
//!
//! The traversal is a state machine (`machine`): it asks for one filesystem
//! operation at a time and is told how it went. `model` describes a
//! filesystem as a map from paths to kinds, and `laws` proves what every run
//! of the machine against such a filesystem does.
use vstd::prelude::*;

pub mod laws;
pub mod machine;
pub mod model;

pub use machine::{flatten, Event, Flattener, Frame, Outcome, Request};
