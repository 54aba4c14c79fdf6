//! Static search for leak patterns in Python sources.

pub mod analyzer;
pub mod call;
pub mod discovery;
pub mod matches;
pub mod path;
pub mod pattern;
pub mod report;
pub mod scanner;
pub mod statement;
pub mod style;
