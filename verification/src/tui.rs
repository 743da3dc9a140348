//! The interactive surface of `zc check`: `state` owns what is shown and what
//! a key does to it, `frame` turns that into lines, and `run` says what a key
//! press means and which rows are on screen.

pub mod frame;
pub mod keys;
pub mod laws;
pub mod run;
pub mod state;
