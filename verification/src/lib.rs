//! Verified core of a small fuzzy picker: configuration and command-line
//! handling, color and font values, fuzzy filtering and the picker's state
//! machine.

pub mod number;
pub mod text;
pub mod style;
pub mod config;
pub mod cli;
pub mod fuzzy;
pub mod picker;
