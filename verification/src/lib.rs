//! Quicksort over the range `[low, high]` of a vector, written in several
//! representations of the same data.

pub mod model;
pub mod normal;
pub mod boxed;
pub mod realloc;
pub mod locked_no_threads;
pub mod laws;
