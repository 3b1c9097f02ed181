//! An interpreter for the eight-command byte-oriented tape language: a lexer and
//! parser that turn source bytes into a loop-resolved instruction list, and an
//! interpreter that runs that list on a 30,000-cell wrapping tape.
pub mod interpreter;
pub mod parser;
