//! The testing harness: queries, captures and scripted input.

pub mod capture;
pub mod cli;
pub mod script;
