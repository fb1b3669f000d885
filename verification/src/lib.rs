//! Wire-format logic of a small Kafka broker: request framing, the
//! `ApiVersions`, `DescribeTopicPartitions` and `Fetch` responses, and the
//! cluster-metadata log parser, each with a contract over byte sequences.
use vstd::prelude::*;

pub mod connection;
pub mod message;
pub mod metadata;
pub mod protocol;
pub mod service;
pub mod sorting;
pub mod text;
pub mod wire;

verus! {

/// The TCP port the broker listens on.
pub const PORT: u16 = 9092;

} // verus!
