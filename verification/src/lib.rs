//! Runs a script file whose leading comment lines name a command: the
//! splitter partitions the bytes into header lines and a body, and the
//! assembler joins the header with trailing arguments into the command
//! that a shell will run with the body materialized as a file.

pub mod lines;
pub mod splitter;
pub mod assemble;
