//! The measuring core and view-model logic of a lightweight task manager.
use vstd::prelude::*;

pub mod format;
pub mod history;
pub mod model;
pub mod paint;
pub mod probe;
pub mod process_buffer;
pub mod process_rows;
pub mod sampler;
pub mod shell;
pub mod table;
pub mod tree_laws;
pub mod view;

verus! {
} // verus!
