use codecrafters_kafka::metadata::parser::MetaParser;
use codecrafters_kafka::protocol::{
    ApiVersionsResponse, DescribeTopicPartitionResponse, Error, FetchResponse, PartitionResponse, Request,
    RequestHeader, TopicResponse,
};
use codecrafters_kafka::wire::ByteCursor;

fn uvarint(mut v: u64, out: &mut Vec<u8>) {
    loop {
        let b = (v & 0x7f) as u8;
        v >>= 7;
        if v == 0 {
            out.push(b);
            return;
        }
        out.push(b | 0x80);
    }
}

fn varint(v: i64, out: &mut Vec<u8>) {
    uvarint(((v << 1) ^ (v >> 63)) as u64, out);
}

fn compact_string(s: &[u8], out: &mut Vec<u8>) {
    uvarint(s.len() as u64 + 1, out);
    out.extend_from_slice(s);
}

fn compact_i32s(v: &[i32], out: &mut Vec<u8>) {
    uvarint(v.len() as u64 + 1, out);
    for x in v {
        out.extend_from_slice(&x.to_be_bytes());
    }
}

fn topic_value(name: &[u8], id: [u8; 16]) -> Vec<u8> {
    let mut v = vec![1, 2, 0];
    compact_string(name, &mut v);
    v.extend_from_slice(&id);
    v
}

fn partition_value(partition: i32, id: [u8; 16], replicas: &[i32], leader: i32, epoch: i32) -> Vec<u8> {
    let mut v = vec![1, 3, 1];
    v.extend_from_slice(&partition.to_be_bytes());
    v.extend_from_slice(&id);
    compact_i32s(replicas, &mut v);
    compact_i32s(replicas, &mut v);
    compact_i32s(&[], &mut v);
    compact_i32s(&[], &mut v);
    v.extend_from_slice(&leader.to_be_bytes());
    v.extend_from_slice(&epoch.to_be_bytes());
    v
}

fn feature_value(name: &[u8], level: u16) -> Vec<u8> {
    let mut v = vec![1, 12, 0];
    compact_string(name, &mut v);
    v.extend_from_slice(&level.to_be_bytes());
    v
}

fn record(value: &[u8]) -> Vec<u8> {
    let mut body = vec![0u8];
    varint(0, &mut body);
    varint(0, &mut body);
    varint(-1, &mut body);
    varint(value.len() as i64, &mut body);
    body.extend_from_slice(value);
    varint(0, &mut body);
    let mut r = Vec::new();
    varint(body.len() as i64, &mut r);
    r.extend_from_slice(&body);
    r
}

fn batch(records: &[Vec<u8>]) -> Vec<u8> {
    let mut after_length = Vec::new();
    after_length.extend_from_slice(&7u32.to_be_bytes());
    after_length.push(2);
    after_length.extend_from_slice(&(-5i32).to_be_bytes());
    after_length.extend_from_slice(&0u16.to_be_bytes());
    after_length.extend_from_slice(&(records.len() as u32 - 1).to_be_bytes());
    after_length.extend_from_slice(&1000u64.to_be_bytes());
    after_length.extend_from_slice(&2000u64.to_be_bytes());
    after_length.extend_from_slice(&(-1i64).to_be_bytes());
    after_length.extend_from_slice(&(-1i16).to_be_bytes());
    after_length.extend_from_slice(&(-1i32).to_be_bytes());
    after_length.extend_from_slice(&(records.len() as u32).to_be_bytes());
    for r in records {
        after_length.extend_from_slice(r);
    }
    let mut b = Vec::new();
    b.extend_from_slice(&0u64.to_be_bytes());
    b.extend_from_slice(&(after_length.len() as u32).to_be_bytes());
    b.extend_from_slice(&after_length);
    b
}

const FOO: [u8; 16] = [0, 0, 0, 0, 0, 0, 0x40, 0, 0x80, 0, 0, 0, 0, 0, 0, 0x91];
const BAR: [u8; 16] = [1; 16];

fn sample_log() -> Vec<u8> {
    let mut log = batch(&[record(&feature_value(b"metadata.version", 20))]);
    log.extend_from_slice(&batch(&[
        record(&topic_value(b"foo", FOO)),
        record(&partition_value(1, FOO, &[1, 2], 1, 0)),
        record(&topic_value(b"bar", BAR)),
        record(&partition_value(0, FOO, &[3], 3, 7)),
        record(&partition_value(0, BAR, &[1], 1, 0)),
    ]));
    log
}

fn request(key: i16, version: i16, correlation: i32, body: &[u8]) -> Vec<u8> {
    let mut v = Vec::new();
    v.extend_from_slice(&(body.len() as i32 + 8).to_be_bytes());
    v.extend_from_slice(&key.to_be_bytes());
    v.extend_from_slice(&version.to_be_bytes());
    v.extend_from_slice(&correlation.to_be_bytes());
    v.extend_from_slice(body);
    v
}

fn describe_body(names: &[&[u8]]) -> Vec<u8> {
    let mut b = Vec::new();
    b.extend_from_slice(&9i16.to_be_bytes());
    b.extend_from_slice(b"kafka-cli");
    b.push(0);
    b.push(names.len() as u8 + 1);
    for n in names {
        b.push(n.len() as u8 + 1);
        b.extend_from_slice(n);
        b.push(0);
    }
    b.extend_from_slice(&100i32.to_be_bytes());
    b.push(0xff);
    b.push(0);
    b
}

fn parse(bytes: &[u8]) -> Result<Request, Error> {
    let mut c = ByteCursor::new(bytes);
    Request::parse(&mut c)
}

#[test]
fn request_parse_reads_header_and_body() {
    let data = request(75, 0, 0x1234, &[9, 8, 7]);
    let mut c = ByteCursor::new(&data);
    let r = Request::parse(&mut c).unwrap();
    assert_eq!(r.message_size, 11);
    assert_eq!(r.header, RequestHeader { request_api_key: 75, request_api_version: 0, correlation_id: 0x1234 });
    assert_eq!(r.body, vec![9, 8, 7]);
    assert_eq!(r.correlation_id(), 0x1234);
    assert_eq!(c.position(), 15);
}

#[test]
fn request_parse_errors() {
    let data = request(75, 0, 1, &[9, 8, 7]);
    assert_eq!(parse(&data[..13]), Err(Error::Incomplete));
    assert_eq!(parse(&data[..5]), Err(Error::Incomplete));
    let mut bad = data.clone();
    bad[3] = 7;
    assert_eq!(parse(&bad), Err(Error::Other("invalid message_size".to_string())));
}

#[test]
fn api_versions_answer_bytes() {
    let req = parse(&request(18, 4, 7, &[])).unwrap();
    let resp = ApiVersionsResponse::from_request(&req);
    assert_eq!(resp.error_code, 0);
    assert_eq!(resp.correlation_id, 7);
    assert_eq!(resp.api_keys.len(), 3);
    let expected = vec![
        0, 0, 0, 33, 0, 0, 0, 7, 0, 0, 4, 0, 18, 0, 0, 0, 4, 0, 0, 75, 0, 0, 0, 0, 0, 0, 1, 0, 0, 0, 16, 0, 0, 0, 0,
        0, 0,
    ];
    assert_eq!(resp.serialize(), expected);
}

#[test]
fn api_versions_unsupported_version() {
    let req = parse(&request(18, 5, 7, &[])).unwrap();
    let resp = ApiVersionsResponse::from_request(&req);
    assert_eq!(resp.error_code, 35);
    assert_eq!(&resp.serialize()[8..10], &[0, 35]);
}

#[test]
fn unknown_topic_answer() {
    let t = TopicResponse::unknown("foo".to_string());
    assert_eq!(t.error_code, 3);
    assert_eq!(t.topic_id, [0; 16]);
    assert!(!t.is_internal);
    assert!(t.partitions.is_empty());
    assert_eq!(t.topic_authorized_operations, 0);
}

#[test]
fn lookup_sorts_partitions_by_index() {
    let batches = MetaParser::from_bytes(&sample_log()).unwrap();
    let t = TopicResponse::lookup("foo".to_string(), &batches);
    assert_eq!(t.error_code, 0);
    assert_eq!(t.topic_id, FOO);
    assert_eq!(t.topic_authorized_operations, 0x0df8);
    assert_eq!(
        t.partitions,
        vec![
            PartitionResponse {
                error_code: 0,
                partition_index: 0,
                leader_id: 3,
                leader_epoch: 7,
                replica_nodes: vec![3],
                isr_nodes: vec![3],
            },
            PartitionResponse {
                error_code: 0,
                partition_index: 1,
                leader_id: 1,
                leader_epoch: 0,
                replica_nodes: vec![1, 2],
                isr_nodes: vec![1, 2],
            },
        ]
    );
    let missing = TopicResponse::lookup("nope".to_string(), &batches);
    assert_eq!(missing, TopicResponse::unknown("nope".to_string()));
}

#[test]
fn describe_sorts_names_and_looks_each_up() {
    let batches = MetaParser::from_bytes(&sample_log()).unwrap();
    let req = parse(&request(75, 0, 42, &describe_body(&[b"foo", b"bar", b"zzz"]))).unwrap();
    let resp = DescribeTopicPartitionResponse::from_request(&req, &batches).unwrap();
    assert_eq!(resp.correlation_id, 42);
    let names: Vec<&str> = resp.topics.iter().map(|t| t.topic_name.as_str()).collect();
    assert_eq!(names, vec!["bar", "foo", "zzz"]);
    assert_eq!(resp.topics[0].topic_id, BAR);
    assert_eq!(resp.topics[2].error_code, 3);
}

#[test]
fn describe_request_errors() {
    let batches = Vec::new();
    let empty = parse(&request(75, 0, 1, &[0, 0, 0, 0])).unwrap();
    assert_eq!(
        DescribeTopicPartitionResponse::from_request(&empty, &batches),
        Err(Error::Other("empty topics array".to_string()))
    );
    let none = parse(&request(75, 0, 1, &[0, 0, 0, 1])).unwrap();
    assert_eq!(
        DescribeTopicPartitionResponse::from_request(&none, &batches),
        Err(Error::Other("no topics requested".to_string()))
    );
    let null = parse(&request(75, 0, 1, &[0, 0, 0, 2, 0])).unwrap();
    assert_eq!(
        DescribeTopicPartitionResponse::from_request(&null, &batches),
        Err(Error::Other("null topic name".to_string()))
    );
    let short = parse(&request(75, 0, 1, &[0, 0, 0, 2, 5, b'a'])).unwrap();
    assert_eq!(DescribeTopicPartitionResponse::from_request(&short, &batches), Err(Error::Incomplete));
    let no_client = parse(&request(75, 0, 1, &[0, 4, b'a'])).unwrap();
    assert_eq!(DescribeTopicPartitionResponse::from_request(&no_client, &batches), Err(Error::Incomplete));
}

#[test]
fn describe_replaces_invalid_utf8_in_names() {
    let batches = Vec::new();
    let req = parse(&request(75, 0, 1, &describe_body(&[&[b'a', 0xff]]))).unwrap();
    let resp = DescribeTopicPartitionResponse::from_request(&req, &batches).unwrap();
    assert_eq!(resp.topics[0].topic_name, "a\u{fffd}");
}

#[test]
fn describe_answer_bytes_for_unknown_topic() {
    let batches = Vec::new();
    let req = parse(&request(75, 0, 7, &describe_body(&[b"foo"]))).unwrap();
    let resp = DescribeTopicPartitionResponse::from_request(&req, &batches).unwrap();
    let mut body = vec![0, 0, 0, 7, 0, 0, 0, 0, 0, 2];
    body.extend_from_slice(&[0, 3, 4, b'f', b'o', b'o']);
    body.extend_from_slice(&[0; 16]);
    body.extend_from_slice(&[0, 1, 0, 0, 0, 0, 0]);
    body.extend_from_slice(&[0xff, 0]);
    let mut expected = (body.len() as u32).to_be_bytes().to_vec();
    expected.extend_from_slice(&body);
    assert_eq!(resp.serialize(), expected);
}

#[test]
fn describe_answer_bytes_with_partitions() {
    let batches = MetaParser::from_bytes(&sample_log()).unwrap();
    let req = parse(&request(75, 0, 9, &describe_body(&[b"bar"]))).unwrap();
    let out = DescribeTopicPartitionResponse::from_request(&req, &batches).unwrap().serialize();
    let mut body = vec![0, 0, 0, 9, 0, 0, 0, 0, 0, 2];
    body.extend_from_slice(&[0, 0, 4, b'b', b'a', b'r']);
    body.extend_from_slice(&BAR);
    body.extend_from_slice(&[0, 2]);
    body.extend_from_slice(&[0, 0, 0, 0, 0, 0, 0, 0, 0, 1, 0, 0, 0, 0]);
    body.extend_from_slice(&[2, 0, 0, 0, 1, 2, 0, 0, 0, 1, 1, 1, 1, 0]);
    body.extend_from_slice(&[0, 0, 0x0d, 0xf8, 0]);
    body.extend_from_slice(&[0xff, 0]);
    let mut expected = (body.len() as u32).to_be_bytes().to_vec();
    expected.extend_from_slice(&body);
    assert_eq!(out, expected);
}

#[test]
fn fetch_answer_bytes() {
    let req = parse(&request(1, 16, 5, &[])).unwrap();
    let resp = FetchResponse::from_request(&req);
    assert_eq!(resp.correlation_id, 5);
    assert!(resp.topics.is_empty());
    assert_eq!(resp.serialize(), vec![0, 0, 0, 17, 0, 0, 0, 5, 0, 0, 0, 0, 0, 0, 0, 0, 0, 0, 0, 1, 0]);
}

#[test]
fn protocol_error_texts() {
    assert_eq!(Error::Incomplete.message(), "stream ended early");
    assert_eq!(Error::Other("x".to_string()).message(), "x");
}

#[test]
fn lookup_keeps_log_order_of_equal_indexes() {
    let log = batch(&[
        record(&topic_value(b"t", FOO)),
        record(&partition_value(2, FOO, &[1], 5, 0)),
        record(&partition_value(0, FOO, &[1], 9, 0)),
        record(&partition_value(2, FOO, &[1], 6, 0)),
        record(&partition_value(0, FOO, &[1], 8, 0)),
    ]);
    let batches = MetaParser::from_bytes(&log).unwrap();
    let t = TopicResponse::lookup("t".to_string(), &batches);
    let order: Vec<(i32, i32)> = t.partitions.iter().map(|p| (p.partition_index, p.leader_id)).collect();
    assert_eq!(order, vec![(0, 9), (0, 8), (2, 5), (2, 6)]);
}

#[test]
fn answers_start_with_their_length() {
    let batches = MetaParser::from_bytes(&sample_log()).unwrap();
    let req = parse(&request(75, 0, 11, &describe_body(&[b"foo", b"bar"]))).unwrap();
    let out = DescribeTopicPartitionResponse::from_request(&req, &batches).unwrap().serialize();
    assert_eq!(u32::from_be_bytes([out[0], out[1], out[2], out[3]]) as usize, out.len() - 4);
    assert_eq!(i32::from_be_bytes([out[4], out[5], out[6], out[7]]), 11);
}

#[test]
fn names_sort_by_bytes() {
    let batches = Vec::new();
    let req = parse(&request(75, 0, 1, &describe_body(&[b"b", "é".as_bytes(), b"B", b"ab", b"a"]))).unwrap();
    let resp = DescribeTopicPartitionResponse::from_request(&req, &batches).unwrap();
    let names: Vec<&str> = resp.topics.iter().map(|t| t.topic_name.as_str()).collect();
    assert_eq!(names, vec!["B", "a", "ab", "b", "é"]);
}
