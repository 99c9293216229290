//! Command-line option parsing in the style of `getopt`.
pub mod grammar;
pub mod laws;
pub mod matches;
pub mod names;
pub mod options;
pub mod text;
pub mod wrap;
