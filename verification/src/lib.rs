//! Streaming line-frequency counting: filter, rewrite, count and rank records.

pub mod accounting;
pub mod arena;
pub mod bytes;
pub mod cli;
pub mod error;
pub mod filter;
pub mod label;
pub mod pattern;
pub mod rank;
pub mod report;
pub mod rewrite;
pub mod run;
pub mod stream;
pub mod table;
pub mod text;
pub mod unique;
