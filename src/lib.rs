//! Flicker reduction for terminal output: an incremental escape-sequence
//! scanner, a synchronized-update block engine, and a bounded line history.

pub mod analyzer;
pub mod cli;
pub mod escape_parser;
pub mod escape_sequences;
pub mod line_buffer;
pub mod output_processor;
pub mod script_parser;
pub mod session;
