//! Build-cache and run-section logic of a small C/C++ build tool.
pub mod cache;
pub mod compile;
pub mod config;
pub mod error;
pub mod run;
pub mod scan;
pub mod setup;
pub mod text;
