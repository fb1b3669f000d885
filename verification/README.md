# codecrafters_kafka

A small Kafka broker. The library in `src/` holds the wire-format logic,
each function with a contract proved by Verus:

- `wire`: big-endian integers, their encoders, and a read cursor over bytes
  (the reads go through `bytes::Buf`).
- `message`: the fixed twelve-byte request prefix.
- `protocol`: requests, and the `ApiVersions`, `DescribeTopicPartitions` and
  `Fetch` answers with their encodings.
- `metadata::parser`: the cluster-metadata log (record batches of topic,
  partition and feature-level records) and lookups over it.
- `sorting`, `text`: stable insertion order, byte and string comparisons.
- `connection`, `service`: the decisions of a connection and of the serving
  loop.

`app/` is the program around it: the tokio server, the connection buffers,
reading the log from disk, and the error type with its `thiserror` derive.
