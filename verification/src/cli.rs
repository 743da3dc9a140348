//! What the commands decide and say.

pub mod args;
pub mod check;
pub mod dataset;
pub mod fit_cmd;
pub mod gate_cmd;
pub mod hf;
pub mod laws;
pub mod machine;
pub mod plan_cmd;
pub mod share;
pub mod verify;
pub mod words;
