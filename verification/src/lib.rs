//! Loads tabular records into DynamoDB's native attribute-value format.
//!
//! The library covers the logic of the loader: inferring a typed attribute
//! value from an untyped text cell, encoding a header/row pair into a write
//! item, planning bounded batches, and the bookkeeping around batch outcomes.
//! Network I/O, file handling and the command line stay outside.

pub mod batch;
pub mod config;
pub mod encode;
pub mod json;
pub mod number;
pub mod parser;
pub mod progress;
pub mod render;
pub mod util;
pub mod value;
pub mod wire;
