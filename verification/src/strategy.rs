//! The fill/format stage: a randomized sequence pool keyed by length, a
//! shared fill step that drains it bin by bin, and the three output
//! layouts built on top of it.

pub mod common;
pub mod composer;
pub mod iterator;
pub mod nemo;
