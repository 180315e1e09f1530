//! Injection of text into marked regions of source files: the marker model,
//! marker and option parsing, injection, synchronisation checks and the
//! selection of files, all verified.
pub mod text;
pub mod number;
pub mod types;
pub mod injector;
pub mod checker;
pub mod parser;
pub mod validator;
pub mod output;
pub mod cli;
pub mod config;
pub mod cmd;
pub mod sync;
