//! Watching a tree of processes for memory that is never given back.

pub mod alerts;
pub mod gpu;
pub mod page;
pub mod process;
pub mod run;
pub mod sample;
pub mod series;
pub mod verdict;
