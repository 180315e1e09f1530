//! Parsing: marker options, marker roles and blocks, HTML comments of Markdown,
//! and the selection of files from patterns.
pub mod error;
pub mod option;
pub mod config;
pub mod marker;
pub mod comment;
pub mod pattern;
pub mod detector;
