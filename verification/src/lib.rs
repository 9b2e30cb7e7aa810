//! Fast grep-style search over a persisted trigram index.

pub mod analysis;
pub mod bitmap;
pub mod cache;
pub mod cli;
pub mod daemon;
pub mod expr;
pub mod fold;
pub mod fx;
pub mod index;
pub mod linemap;
pub mod lines;
pub mod loggen;
pub mod matcher;
pub mod paths;
pub mod pattern;
pub mod query;
pub mod scanner;
pub mod search;
pub mod sort;
pub mod stats;
pub mod store;
pub mod strings;
pub mod text;
pub mod trigram;
pub mod wire;
