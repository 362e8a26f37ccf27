//! Condensed reports of `sqlfluff lint` output, with the rules that shape
//! them stated and proved.

pub mod text;
pub mod paths;
pub mod ranking;
pub mod tally;
pub mod report;
pub mod invocation;
pub mod laws;
