//! Finding memory that is never given back, in two ways.
//!
//! `watch` is the logic of a monitor that runs beside a tree of processes: which processes
//! belong to the tree and what they are called, how their memory is summed up over time, by
//! what rule a history counts as a leak, when a leak is reported, and what the page and the
//! log say.
//!
//! `pyleak` is a static scan of Python projects for patterns that leak: which files are
//! scanned, where functions and classes begin and end, the six checks, and the reports.
//!
//! `text` and `tally` hold what both need: strings as sequences of characters, and counting.

pub mod clock;
pub mod order;
pub mod pyleak;
pub mod tally;
pub mod text;
pub mod watch;
