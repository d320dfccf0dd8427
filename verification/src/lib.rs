//! Finding duplicate files: the verified core of a duplicate-file finder.

pub mod classes;
pub mod cli;
pub mod error;
pub mod formatter;
pub mod glob;
pub mod grouper;
pub mod grouping;
pub mod hasher;
pub mod names;
pub mod scanner;
pub mod text;

