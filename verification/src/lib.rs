//! ZeroCloud: what can this machine run, and how fast?
//!
//! The verified library behind the `zc` program: reading model metadata,
//! sizing memory, ranking predictions, laying out reports and driving the
//! interactive table. Probing, benchmarking and everything that touches a
//! terminal, a file or a socket lives in the program.

pub mod chars;
pub mod big;
pub mod double;
pub mod json;
pub mod order;
pub mod group;
pub mod spec;
pub mod kv;
pub mod fit;
pub mod gate;
pub mod predict;
pub mod catalog;
pub mod catalog_data;
pub mod probe;
pub mod bench;
pub mod runtime;
pub mod report;
pub mod tui;
pub mod cli;
