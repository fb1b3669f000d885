//! The cluster-metadata log that the broker answers topic queries from.
pub mod parser;
