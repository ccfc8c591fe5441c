//! A small job-control shell core: the command-line tokenizer, the job
//! table, and the decisions the shell takes on commands and child events.
pub mod text;
pub mod parse;
pub mod jobs;
pub mod shell;
pub mod laws;
