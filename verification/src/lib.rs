//! Turns the flat report that `du -a` / `du -ab` prints into an indented,
//! sorted tree (or a JSON array of nodes), after checking that the report is
//! internally consistent.

pub mod text;
pub mod index;
pub mod parser;
pub mod human;
pub mod printer;
pub mod cli;
pub mod coverage;
pub mod report;
pub mod outline;
