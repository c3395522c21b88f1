//! Verified core of the VVERDAD data processing engine.

pub mod text;
pub mod path;
pub mod error;
pub mod node;
pub mod graph;
pub mod schedule;
pub mod keys;
pub mod value;
pub mod units;
pub mod source;
pub mod archive;
pub mod xlsx;
pub mod analysis;
pub mod init;
pub mod events;
pub mod config;
pub mod cli;
pub mod time;
pub mod tree;
pub mod pipeline;
